//! How OPACK lays out each kind of value, stated as numbers: the tag bytes, and lengths and
//! integers as their base-256 digits.
use vstd::prelude::*;

use vstd::utf8::encode_utf8;

use crate::byte_order::{
    lemma_u16_le_bytes_value, lemma_u32_be_bytes_value, lemma_u32_from_le_value,
    lemma_u32_le_bytes_value, lemma_u64_be_bytes_value, lemma_u64_from_le_value,
    lemma_u64_le_bytes_value,
};
use crate::opack::{data_tags, spec_opack_decode, string_tags, OpackError};
use crate::opack_encode::{sized_header, spec_encode};
use crate::plist_model::{PlistModel, RealBits};

verus! {

/// An integer from 0 to 2^64 - 1 is written as one byte `n + 8` up to 0x27, as 0x30 and one
/// byte up to 0xff, as 0x32 and four bytes up to 2^32 - 1, and as 0x33 and eight bytes beyond;
/// the bytes after the tag are the base-256 digits of `n`, lowest first.
pub proof fn lemma_integer_encoding(n: int)
    requires
        0 <= n <= u64::MAX,
    ensures
        ({
            let e = spec_encode(PlistModel::Integer(n));
            &&& n <= 0x27 ==> e.len() == 1 && e[0] == n + 8
            &&& 0x28 <= n <= 0xff ==> e.len() == 2 && e[0] == 0x30 && e[1] == n
            &&& 0x100 <= n <= 0xffff_ffff ==> e.len() == 5 && e[0] == 0x32 && e[1] + 256 * e[2]
                + 65536 * e[3] + 16777216 * e[4] == n
            &&& 0xffff_ffff < n ==> e.len() == 9 && e[0] == 0x33 && e[1] + 256 * e[2] + 65536
                * e[3] + 16777216 * e[4] + 4294967296 * e[5] + 1099511627776 * e[6]
                + 281474976710656 * e[7] + 72057594037927936 * e[8] == n
        }),
{
    let e = spec_encode(PlistModel::Integer(n));
    if 0x100 <= n <= 0xffff_ffff {
        lemma_u32_le_bytes_value(n as u32);
    } else if 0xffff_ffff < n {
        lemma_u64_le_bytes_value(n as u64);
    }
}

/// A payload of one integer tag and its bytes reads as the integer whose base-256 digits the
/// bytes are, lowest first: 0x08 to 0x2f stand for 0 to 39, 0x30 is followed by one byte, 0x32
/// by four and 0x33 by eight.
pub proof fn lemma_integer_decoding(b: Seq<u8>)
    ensures
        b.len() == 1 && 0x08 <= b[0] <= 0x2f ==> spec_opack_decode(b) == Ok::<
            PlistModel,
            OpackError,
        >(PlistModel::Integer(b[0] - 8)),
        b.len() == 2 && b[0] == 0x30 ==> spec_opack_decode(b) == Ok::<PlistModel, OpackError>(
            PlistModel::Integer(b[1] as int),
        ),
        b.len() == 5 && b[0] == 0x32 ==> spec_opack_decode(b) == Ok::<PlistModel, OpackError>(
            PlistModel::Integer(b[1] + 256 * b[2] + 65536 * b[3] + 16777216 * b[4]),
        ),
        b.len() == 9 && b[0] == 0x33 ==> spec_opack_decode(b) == Ok::<PlistModel, OpackError>(
            PlistModel::Integer(
                b[1] + 256 * b[2] + 65536 * b[3] + 16777216 * b[4] + 4294967296 * b[5]
                    + 1099511627776 * b[6] + 281474976710656 * b[7] + 72057594037927936 * b[8],
            ),
        ),
{
    if b.len() == 5 && b[0] == 0x32 {
        let digits = b.subrange(1, 5);
        lemma_u32_from_le_value(digits);
        assert(digits[0] == b[1] && digits[1] == b[2] && digits[2] == b[3] && digits[3] == b[4]);
    }
    if b.len() == 9 && b[0] == 0x33 {
        let digits = b.subrange(1, 9);
        lemma_u64_from_le_value(digits);
        assert(digits[0] == b[1] && digits[1] == b[2] && digits[2] == b[3] && digits[3] == b[4]);
        assert(digits[4] == b[5] && digits[5] == b[6] && digits[6] == b[7] && digits[7] == b[8]);
    }
}


/// The length prefix of a payload of `len` bytes whose tags start at `inline` (0x40 for
/// strings, 0x70 for data) and whose long forms are `long` to `long + 3` (0x61 and 0x91): the
/// length itself in the tag up to 0x20, then one, two, four or eight little-endian length bytes.
pub open spec fn length_prefix_laid_out(h: Seq<u8>, inline: int, long: int, len: int) -> bool {
    &&& len <= 0x20 ==> h.len() == 1 && h[0] == inline + len
    &&& 0x20 < len <= 0xff ==> h.len() == 2 && h[0] == long && h[1] == len
    &&& 0xff < len <= 0xffff ==> h.len() == 3 && h[0] == long + 1 && h[1] + 256 * h[2] == len
    &&& 0xffff < len <= 0xffff_ffff ==> h.len() == 5 && h[0] == long + 2 && h[1] + 256 * h[2]
        + 65536 * h[3] + 16777216 * h[4] == len
    &&& 0xffff_ffff < len ==> h.len() == 9 && h[0] == long + 3 && h[1] + 256 * h[2] + 65536
        * h[3] + 16777216 * h[4] + 4294967296 * h[5] + 1099511627776 * h[6] + 281474976710656
        * h[7] + 72057594037927936 * h[8] == len
}

proof fn lemma_sized_header_laid_out(len: nat, inline: int, long: int, tags: crate::opack::SizedLenTags)
    requires
        len <= u64::MAX,
        tags.inline_base == inline,
        tags.u8_tag == long,
        tags.u16_tag == long + 1,
        tags.u32_tag == long + 2,
        tags.u64_tag == long + 3,
        inline + 0x20 <= 0xff,
    ensures
        length_prefix_laid_out(sized_header(tags, len), inline, long, len as int),
{
    if 0xff < len <= 0xffff {
        lemma_u16_le_bytes_value(len as u16);
    } else if 0xffff < len <= 0xffff_ffff {
        lemma_u32_le_bytes_value(len as u32);
    } else if 0xffff_ffff < len {
        lemma_u64_le_bytes_value(len as u64);
    }
}

/// Data is written as its length prefix (inline tags from 0x70, long tags 0x91 to 0x94) and then
/// the bytes themselves.
pub proof fn lemma_data_encoding(d: Seq<u8>)
    requires
        d.len() <= u64::MAX,
    ensures
        ({
            let e = spec_encode(PlistModel::Data(d));
            exists|h: Seq<u8>|
                e == h + d && #[trigger] length_prefix_laid_out(h, 0x70, 0x91, d.len() as int)
        }),
{
    let h = sized_header(data_tags(), d.len());
    lemma_sized_header_laid_out(d.len(), 0x70, 0x91, data_tags());
    assert(spec_encode(PlistModel::Data(d)) == h + d);
}

/// A string is written as the length prefix of its UTF-8 bytes (inline tags from 0x40, long
/// tags 0x61 to 0x64) and then those bytes.
pub proof fn lemma_string_encoding(s: Seq<char>)
    requires
        encode_utf8(s).len() <= u64::MAX,
    ensures
        ({
            let e = spec_encode(PlistModel::String(s));
            let u = encode_utf8(s);
            exists|h: Seq<u8>|
                e == h + u && #[trigger] length_prefix_laid_out(h, 0x40, 0x61, u.len() as int)
        }),
{
    let u = encode_utf8(s);
    let h = sized_header(string_tags(), u.len());
    lemma_sized_header_laid_out(u.len(), 0x40, 0x61, string_tags());
    assert(spec_encode(PlistModel::String(s)) == h + u);
}

/// Booleans are the single bytes 0x01 (true) and 0x02 (false); reals are 0x35 and the four
/// bytes of an `f32`'s bits, or 0x36 and the eight bytes of an `f64`'s bits, highest first.
pub proof fn lemma_boolean_and_real_encoding(x: u32, y: u64)
    ensures
        spec_encode(PlistModel::Boolean(true)) == seq![0x01u8],
        spec_encode(PlistModel::Boolean(false)) == seq![0x02u8],
        ({
            let e = spec_encode(PlistModel::Real(RealBits::Single(x)));
            e.len() == 5 && e[0] == 0x35 && e[4] + 256 * e[3] + 65536 * e[2] + 16777216 * e[1] == x
        }),
        ({
            let e = spec_encode(PlistModel::Real(RealBits::Double(y)));
            &&& e.len() == 9
            &&& e[0] == 0x36
            &&& e[8] + 256 * e[7] + 65536 * e[6] + 16777216 * e[5] + 4294967296 * e[4]
                + 1099511627776 * e[3] + 281474976710656 * e[2] + 72057594037927936 * e[1] == y
        }),
{
    lemma_u32_be_bytes_value(x);
    lemma_u64_be_bytes_value(y);
}

/// An array of fewer than fifteen items starts with 0xd0 plus their number and has no
/// terminator; a longer one (up to 2^32 - 1 items) starts with 0xdf and ends with 0x03.
/// Dictionaries are the same with 0xe0 and 0xef.
pub proof fn lemma_container_encoding(items: Seq<PlistModel>, es: Seq<(Seq<char>, PlistModel)>)
    requires
        items.len() <= u32::MAX,
        es.len() <= u32::MAX,
    ensures
        ({
            let e = spec_encode(PlistModel::Array(items));
            &&& items.len() < 15 ==> e[0] == 0xd0 + items.len()
            &&& items.len() >= 15 ==> e[0] == 0xdf && e.last() == 0x03
        }),
        ({
            let e = spec_encode(PlistModel::Dictionary(es));
            &&& es.len() < 15 ==> e[0] == 0xe0 + es.len()
            &&& es.len() >= 15 ==> e[0] == 0xef && e.last() == 0x03
        }),
{
}

} // verus!
