//! Conversions between bytes and text.
use vstd::prelude::*;
use vstd::utf8::{decode_utf8, valid_utf8};

verus! {

#[verifier::external_type_specification]
#[verifier::external_body]
pub struct ExFromUtf8Error(std::string::FromUtf8Error);

/// `String::from_utf8`: succeeds exactly when the bytes are well-formed UTF-8, and then the
/// string holds the characters that the bytes encode.
#[verifier::external_body]
pub(crate) fn string_from_utf8(bytes: Vec<u8>) -> (r: Result<String, std::string::FromUtf8Error>)
    ensures
        r is Ok <==> valid_utf8(bytes@),
        r matches Ok(s) ==> s@ == decode_utf8(bytes@),
{
    String::from_utf8(bytes)
}

/// The characters that `String::from_utf8_lossy` makes of `bytes`: well-formed sequences
/// decoded, each ill-formed one replaced by U+FFFD.
pub uninterp spec fn utf8_lossy(bytes: Seq<u8>) -> Seq<char>;

/// `String::from_utf8_lossy`, made owned.  Its result depends on the bytes alone, and on
/// well-formed UTF-8 it is the plain decoding.
#[verifier::external_body]
pub(crate) fn string_from_utf8_lossy(bytes: &[u8]) -> (r: String)
    ensures
        r@ == utf8_lossy(bytes@),
        valid_utf8(bytes@) ==> r@ == decode_utf8(bytes@),
{
    String::from_utf8_lossy(bytes).into_owned()
}

pub open spec fn is_ascii_digit(c: char) -> bool {
    '0' <= c <= '9'
}

pub open spec fn all_ascii_digits(s: Seq<char>) -> bool {
    forall|i: int| 0 <= i < s.len() ==> is_ascii_digit(#[trigger] s[i])
}

/// The number that a string of decimal digits writes.
pub open spec fn decimal_value(s: Seq<char>) -> int
    decreases s.len(),
{
    if s.len() == 0 {
        0
    } else {
        decimal_value(s.drop_last()) * 10 + (s.last() as int - '0' as int)
    }
}

/// `str::parse::<usize>`: an optional `+`, then at least one decimal digit and nothing else,
/// writing a number that fits.
pub open spec fn spec_parse_usize(s: Seq<char>) -> Option<usize> {
    let digits = if s.len() > 0 && s[0] == '+' {
        s.drop_first()
    } else {
        s
    };
    if digits.len() > 0 && all_ascii_digits(digits) && decimal_value(digits) <= usize::MAX {
        Some(decimal_value(digits) as usize)
    } else {
        None
    }
}

/// `str::parse::<i64>`: an optional `+` or `-`, then at least one decimal digit and nothing
/// else, writing a number that fits.
pub open spec fn spec_parse_i64(s: Seq<char>) -> Option<i64> {
    let negative = s.len() > 0 && s[0] == '-';
    let digits = if s.len() > 0 && (s[0] == '+' || s[0] == '-') {
        s.drop_first()
    } else {
        s
    };
    let value = if negative {
        -decimal_value(digits)
    } else {
        decimal_value(digits)
    };
    if digits.len() > 0 && all_ascii_digits(digits) && i64::MIN <= value <= i64::MAX {
        Some(value as i64)
    } else {
        None
    }
}

/// Digits after more digits only make the number larger.
proof fn lemma_decimal_prefix(s: Seq<char>, k: int)
    requires
        0 <= k <= s.len(),
        all_ascii_digits(s),
    ensures
        decimal_value(s.subrange(0, k)) <= decimal_value(s),
        0 <= decimal_value(s.subrange(0, k)),
    decreases s.len(),
{
    if s.len() > 0 {
        let init = s.drop_last();
        assert(all_ascii_digits(init)) by {
            assert forall|i: int| 0 <= i < init.len() implies is_ascii_digit(#[trigger] init[i]) by {
                assert(init[i] == s[i]);
            }
        }
        assert(is_ascii_digit(s[s.len() - 1]));
        if k == s.len() {
            assert(s.subrange(0, k) =~= s);
            lemma_decimal_prefix(init, init.len() as int);
            assert(init.subrange(0, init.len() as int) =~= init);
        } else {
            lemma_decimal_prefix(init, k);
            assert(init.subrange(0, k) =~= s.subrange(0, k));
            lemma_decimal_prefix(init, init.len() as int);
            assert(init.subrange(0, init.len() as int) =~= init);
        }
    } else {
        assert(s.subrange(0, k) =~= s);
    }
}

/// The value of decimal digits `s[start..]`, read from index `start` on, as a 64-bit
/// number; `None` on any other character or when the value does not fit.
fn parse_digits(s: &str, start: usize) -> (r: Option<u64>)
    requires
        start <= s@.len(),
    ensures
        ({
            let digits = s@.subrange(start as int, s@.len() as int);
            if all_ascii_digits(digits) && decimal_value(digits) <= u64::MAX {
                r == Some(decimal_value(digits) as u64)
            } else {
                r is None
            }
        }),
        r matches Some(m) ==> m == decimal_value(s@.subrange(start as int, s@.len() as int)),
{
    let n = s.unicode_len();
    let ghost digits = s@.subrange(start as int, n as int);
    let mut i = start;
    let mut acc: u64 = 0;
    proof {
        assert(s@.subrange(start as int, start as int) =~= Seq::<char>::empty());
    }
    while i < n
        invariant
            n == s@.len(),
            start <= i <= n,
            digits == s@.subrange(start as int, n as int),
            all_ascii_digits(s@.subrange(start as int, i as int)),
            acc == decimal_value(s@.subrange(start as int, i as int)),
        decreases n - i,
    {
        let c = s.get_char(i);
        let ghost prefix = s@.subrange(start as int, i as int);
        let ghost next = s@.subrange(start as int, i + 1);
        proof {
            assert(next.drop_last() =~= prefix);
            assert(next.last() == c);
            assert(digits[i - start] == c);
        }
        if !('0' <= c && c <= '9') {
            return None;
        }
        let d = (c as u32 - '0' as u32) as u64;
        proof {
            assert(all_ascii_digits(next)) by {
                assert forall|j: int| 0 <= j < next.len() implies is_ascii_digit(#[trigger] next[j]) by {
                    if j < prefix.len() {
                        assert(next[j] == prefix[j]);
                    }
                }
            }
            assert(decimal_value(next) == acc * 10 + d);
        }
        if acc > (u64::MAX - d) / 10 {
            proof {
                assert(acc * 10 + d > u64::MAX) by (nonlinear_arith)
                    requires
                        acc > (u64::MAX - d) / 10,
                        d <= 9,
                ;
                if all_ascii_digits(digits) {
                    lemma_decimal_prefix(digits, i + 1 - start);
                    assert(digits.subrange(0, i + 1 - start) =~= next);
                }
            }
            return None;
        }
        proof {
            assert(acc * 10 + d <= u64::MAX) by (nonlinear_arith)
                requires
                    acc <= (u64::MAX - d) / 10,
                    d <= 9,
            ;
        }
        acc = acc * 10 + d;
        i += 1;
    }
    Some(acc)
}

/// `str::parse::<usize>`: an optional plus sign, then decimal digits whose value fits.
pub(crate) fn parse_usize(s: &str) -> (r: Option<usize>)
    ensures
        r == spec_parse_usize(s@),
{
    let n = s.unicode_len();
    let start: usize = if n > 0 && s.get_char(0) == '+' {
        1
    } else {
        0
    };
    proof {
        if start == 1 {
            assert(s@.subrange(1, n as int) =~= s@.drop_first());
        } else {
            assert(s@.subrange(0, n as int) =~= s@);
        }
    }
    if start == n {
        return None;
    }
    match parse_digits(s, start) {
        Some(m) => if m <= usize::MAX as u64 {
            Some(m as usize)
        } else {
            None
        },
        None => None,
    }
}

/// `str::parse::<i64>`: an optional sign, then decimal digits whose value fits.
pub(crate) fn parse_i64(s: &str) -> (r: Option<i64>)
    ensures
        r == spec_parse_i64(s@),
{
    let n = s.unicode_len();
    let negative = n > 0 && s.get_char(0) == '-';
    let start: usize = if n > 0 && (s.get_char(0) == '+' || s.get_char(0) == '-') {
        1
    } else {
        0
    };
    proof {
        if start == 1 {
            assert(s@.subrange(1, n as int) =~= s@.drop_first());
        } else {
            assert(s@.subrange(0, n as int) =~= s@);
        }
    }
    if start == n {
        return None;
    }
    match parse_digits(s, start) {
        Some(m) => if negative {
            if m < 9223372036854775808u64 {
                Some(-(m as i64))
            } else if m == 9223372036854775808u64 {
                Some(i64::MIN)
            } else {
                None
            }
        } else if m <= 9223372036854775807u64 {
            Some(m as i64)
        } else {
            None
        },
        None => None,
    }
}

} // verus!
