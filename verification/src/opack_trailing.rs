//! A payload that decodes is never a proper prefix of another that decodes: bytes after a
//! complete value are refused.
use vstd::prelude::*;

use crate::opack::{
    data_tags, spec_opack_decode, spec_parse_array_counted, spec_parse_array_terminated,
    spec_parse_dict_counted, spec_parse_dict_terminated, spec_parse_entry, spec_parse_scalar,
    spec_parse_value, spec_read_exact, spec_read_key, spec_read_sized, spec_read_sized_len,
    string_tags, OpackError, SizedLenTags,
};
use crate::plist_model::PlistModel;

verus! {

/// Bytes appended after `b` leave the bytes of `b` as they were.
proof fn lemma_prefix_subrange(b: Seq<u8>, s: Seq<u8>, i: int, j: int)
    requires
        0 <= i <= j <= b.len(),
    ensures
        (b + s).subrange(i, j) == b.subrange(i, j),
{
    assert((b + s).subrange(i, j) =~= b.subrange(i, j));
}

proof fn lemma_sized_len_prefix(tag: u8, b: Seq<u8>, s: Seq<u8>, off: int, tags: SizedLenTags)
    requires
        0 <= off,
    ensures
        spec_read_sized_len(tag, b, off, tags) matches Ok((n, o)) ==> off <= o <= b.len()
            ==> spec_read_sized_len(tag, b + s, off, tags) == spec_read_sized_len(
            tag,
            b,
            off,
            tags,
        ),
{
    if off + 8 <= b.len() {
        lemma_prefix_subrange(b, s, off, off + 8);
    }
    if off + 4 <= b.len() {
        lemma_prefix_subrange(b, s, off, off + 4);
    }
    if off + 2 <= b.len() {
        lemma_prefix_subrange(b, s, off, off + 2);
    }
}

proof fn lemma_sized_prefix(tag: u8, b: Seq<u8>, s: Seq<u8>, off: int, tags: SizedLenTags)
    requires
        0 <= off <= b.len(),
    ensures
        spec_read_sized(tag, b, off, tags) matches Ok((raw, o)) ==> o <= b.len() && spec_read_sized(
            tag,
            b + s,
            off,
            tags,
        ) == spec_read_sized(tag, b, off, tags),
{
    lemma_sized_len_prefix(tag, b, s, off, tags);
    if let Ok((n, o)) = spec_read_sized_len(tag, b, off, tags) {
        if let Ok(o2) = spec_read_exact(b, o, n as int) {
            assert(off <= o <= b.len());
            lemma_prefix_subrange(b, s, o, o2);
        }
    }
}

proof fn lemma_scalar_prefix(tag: u8, b: Seq<u8>, s: Seq<u8>, off: int)
    requires
        0 <= off <= b.len(),
    ensures
        spec_parse_scalar(tag, b, off) matches Ok((v, o)) ==> o <= b.len() && spec_parse_scalar(
            tag,
            b + s,
            off,
        ) == spec_parse_scalar(tag, b, off),
{
    lemma_sized_prefix(tag, b, s, off, string_tags());
    lemma_sized_prefix(tag, b, s, off, data_tags());
    if off + 8 <= b.len() {
        lemma_prefix_subrange(b, s, off, off + 8);
    }
    if off + 4 <= b.len() {
        lemma_prefix_subrange(b, s, off, off + 4);
    }
}

/// A value decoded from `b` is decoded the same from `b` with any bytes after it, and ends
/// inside `b`.
proof fn lemma_value_prefix(b: Seq<u8>, s: Seq<u8>, off: int)
    requires
        0 <= off,
    ensures
        spec_parse_value(b, off) matches Ok((v, o)) ==> o <= b.len() && spec_parse_value(b + s, off)
            == spec_parse_value(b, off),
    decreases b.len() - off, 0int, 0int,
{
    if 0 <= off < b.len() {
        let tag = b[off];
        assert((b + s)[off] == tag);
        if 0xd0 <= tag <= 0xde {
            lemma_array_counted_prefix(b, s, off + 1, (tag - 0xd0) as int, Seq::empty());
        } else if tag == 0xdf {
            lemma_array_terminated_prefix(b, s, off + 1, Seq::empty());
        } else if 0xe0 <= tag <= 0xee {
            lemma_dict_counted_prefix(b, s, off + 1, (tag - 0xe0) as int, Seq::empty());
        } else if tag == 0xef {
            lemma_dict_terminated_prefix(b, s, off + 1, Seq::empty());
        } else {
            lemma_scalar_prefix(tag, b, s, off + 1);
        }
    }
}

proof fn lemma_array_counted_prefix(b: Seq<u8>, s: Seq<u8>, off: int, n: int, acc: Seq<PlistModel>)
    requires
        0 <= off <= b.len(),
    ensures
        spec_parse_array_counted(b, off, n, acc) matches Ok((v, o)) ==> o <= b.len()
            && spec_parse_array_counted(b + s, off, n, acc) == spec_parse_array_counted(
            b,
            off,
            n,
            acc,
        ),
    decreases b.len() - off, 1int, n,
{
    if n > 0 {
        lemma_value_prefix(b, s, off);
        if let Ok((v, o)) = spec_parse_value(b, off) {
            if off < o <= b.len() {
                lemma_array_counted_prefix(b, s, o, n - 1, acc.push(v));
            }
        }
    }
}

proof fn lemma_array_terminated_prefix(b: Seq<u8>, s: Seq<u8>, off: int, acc: Seq<PlistModel>)
    requires
        0 <= off <= b.len(),
    ensures
        spec_parse_array_terminated(b, off, acc) matches Ok((v, o)) ==> o <= b.len()
            && spec_parse_array_terminated(b + s, off, acc) == spec_parse_array_terminated(
            b,
            off,
            acc,
        ),
    decreases b.len() - off, 1int, 0int,
{
    if 0 <= off < b.len() && b[off] == 0x03 {
        assert((b + s)[off] == b[off]);
    } else {
        if off < b.len() {
            assert((b + s)[off] == b[off]);
        }
        lemma_value_prefix(b, s, off);
        if let Ok((v, o)) = spec_parse_value(b, off) {
            if off < o <= b.len() {
                lemma_array_terminated_prefix(b, s, o, acc.push(v));
            }
        }
    }
}

proof fn lemma_entry_prefix(b: Seq<u8>, s: Seq<u8>, off: int, acc: Seq<(Seq<char>, PlistModel)>)
    requires
        0 <= off <= b.len(),
    ensures
        spec_parse_entry(b, off, acc) matches Ok((acc2, o)) ==> o <= b.len() && spec_parse_entry(
            b + s,
            off,
            acc,
        ) == spec_parse_entry(b, off, acc),
    decreases b.len() - off, 1int, 1int,
{
    lemma_value_prefix(b, s, off);
    if let Ok((k, o1)) = spec_read_key(b, off) {
        if off < o1 <= b.len() {
            lemma_value_prefix(b, s, o1);
        }
    }
}

proof fn lemma_dict_counted_prefix(
    b: Seq<u8>,
    s: Seq<u8>,
    off: int,
    n: int,
    acc: Seq<(Seq<char>, PlistModel)>,
)
    requires
        0 <= off <= b.len(),
    ensures
        spec_parse_dict_counted(b, off, n, acc) matches Ok((v, o)) ==> o <= b.len()
            && spec_parse_dict_counted(b + s, off, n, acc) == spec_parse_dict_counted(
            b,
            off,
            n,
            acc,
        ),
    decreases b.len() - off, 2int, n,
{
    if n > 0 {
        lemma_entry_prefix(b, s, off, acc);
        if let Ok((acc2, o)) = spec_parse_entry(b, off, acc) {
            if off < o <= b.len() {
                lemma_dict_counted_prefix(b, s, o, n - 1, acc2);
            }
        }
    }
}

proof fn lemma_dict_terminated_prefix(
    b: Seq<u8>,
    s: Seq<u8>,
    off: int,
    acc: Seq<(Seq<char>, PlistModel)>,
)
    requires
        0 <= off <= b.len(),
    ensures
        spec_parse_dict_terminated(b, off, acc) matches Ok((v, o)) ==> o <= b.len()
            && spec_parse_dict_terminated(b + s, off, acc) == spec_parse_dict_terminated(
            b,
            off,
            acc,
        ),
    decreases b.len() - off, 2int, 0int,
{
    if 0 <= off < b.len() && b[off] == 0x03 {
        assert((b + s)[off] == b[off]);
    } else {
        if off < b.len() {
            assert((b + s)[off] == b[off]);
        }
        lemma_entry_prefix(b, s, off, acc);
        if let Ok((acc2, o)) = spec_parse_entry(b, off, acc) {
            if off < o <= b.len() {
                lemma_dict_terminated_prefix(b, s, o, acc2);
            }
        }
    }
}

/// A payload that decodes is refused once any bytes follow it: they are reported as trailing.
pub proof fn lemma_trailing_bytes_refused(b: Seq<u8>, s: Seq<u8>)
    requires
        spec_opack_decode(b) is Ok,
        s.len() > 0,
    ensures
        spec_opack_decode(b + s) == Err::<PlistModel, OpackError>(
            OpackError::TrailingBytes(s.len() as usize),
        ),
{
    lemma_value_prefix(b, s, 0);
}

} // verus!
