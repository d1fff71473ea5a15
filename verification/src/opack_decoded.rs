//! What the decoder produces: values that the encoder writes back without loss.
use vstd::prelude::*;
use vstd::utf8::{decode_utf8_encode_utf8, encode_utf8, valid_utf8};

use crate::opack::{
    data_tags, spec_opack_decode, spec_parse_array_counted, spec_parse_array_terminated,
    spec_parse_dict_counted, spec_parse_dict_terminated, spec_parse_entry, spec_parse_scalar,
    spec_parse_value, spec_read_key, spec_read_sized, string_tags, SizedLenTags,
};
use crate::opack_encode::spec_encode;
use crate::opack_laws::{encodable, lemma_decode_encode};
use crate::plist_model::{dict_insert, has_key, keys_distinct, lemma_dict_insert_distinct, PlistModel};

verus! {

/// A sized payload is read from inside the input.
proof fn lemma_read_sized_within(tag: u8, b: Seq<u8>, off: int, tags: SizedLenTags)
    requires
        0 <= off <= b.len(),
    ensures
        spec_read_sized(tag, b, off, tags) matches Ok((raw, o)) ==> off <= o <= b.len() && raw.len()
            <= b.len(),
{
}

/// Scalars are read from inside the input and are values the encoder can write.
proof fn lemma_scalar_decoded(tag: u8, b: Seq<u8>, off: int)
    requires
        0 <= off <= b.len(),
        b.len() <= u32::MAX,
    ensures
        spec_parse_scalar(tag, b, off) matches Ok((v, o)) ==> off <= o <= b.len() && encodable(v),
{
    lemma_read_sized_within(tag, b, off, string_tags());
    lemma_read_sized_within(tag, b, off, data_tags());
    if 0x40 <= tag <= 0x64 {
        if let Ok((raw, o)) = spec_read_sized(tag, b, off, string_tags()) {
            if valid_utf8(raw) {
                decode_utf8_encode_utf8(raw);
            }
        }
    }
}

/// What the decoder reads is read from inside the input, and is a value that the encoder can
/// write, provided the input is shorter than 2^32 bytes.
proof fn lemma_value_decoded(b: Seq<u8>, off: int)
    requires
        0 <= off <= b.len(),
        b.len() <= u32::MAX,
    ensures
        spec_parse_value(b, off) matches Ok((v, o)) ==> off < o <= b.len() && encodable(v),
    decreases b.len() - off, 0int, 0int,
{
    if 0 <= off < b.len() {
        let tag = b[off];
        if 0xd0 <= tag <= 0xde {
            lemma_array_counted_decoded(b, off + 1, (tag - 0xd0) as int, Seq::empty());
        } else if tag == 0xdf {
            lemma_array_terminated_decoded(b, off + 1, Seq::empty());
        } else if 0xe0 <= tag <= 0xee {
            lemma_dict_counted_decoded(b, off + 1, (tag - 0xe0) as int, Seq::empty());
        } else if tag == 0xef {
            lemma_dict_terminated_decoded(b, off + 1, Seq::empty());
        } else {
            lemma_scalar_decoded(tag, b, off + 1);
        }
    }
}

proof fn lemma_array_counted_decoded(b: Seq<u8>, off: int, n: int, acc: Seq<PlistModel>)
    requires
        0 < off <= b.len(),
        b.len() <= u32::MAX,
        acc.len() < off,
        forall|i: int| 0 <= i < acc.len() ==> encodable(#[trigger] acc[i]),
    ensures
        spec_parse_array_counted(b, off, n, acc) matches Ok((v, o)) ==> off <= o <= b.len()
            && encodable(v),
    decreases b.len() - off, 1int, n,
{
    if n > 0 {
        lemma_value_decoded(b, off);
        if let Ok((v, o)) = spec_parse_value(b, off) {
            let acc2 = acc.push(v);
            assert(forall|i: int| 0 <= i < acc2.len() ==> encodable(#[trigger] acc2[i]));
            lemma_array_counted_decoded(b, o, n - 1, acc2);
        }
    }
}

proof fn lemma_array_terminated_decoded(b: Seq<u8>, off: int, acc: Seq<PlistModel>)
    requires
        0 < off <= b.len(),
        b.len() <= u32::MAX,
        acc.len() < off,
        forall|i: int| 0 <= i < acc.len() ==> encodable(#[trigger] acc[i]),
    ensures
        spec_parse_array_terminated(b, off, acc) matches Ok((v, o)) ==> off < o <= b.len()
            && encodable(v),
    decreases b.len() - off, 1int, 0int,
{
    if !(0 <= off < b.len() && b[off] == 0x03) {
        lemma_value_decoded(b, off);
        if let Ok((v, o)) = spec_parse_value(b, off) {
            let acc2 = acc.push(v);
            assert(forall|i: int| 0 <= i < acc2.len() ==> encodable(#[trigger] acc2[i]));
            lemma_array_terminated_decoded(b, o, acc2);
        }
    }
}

/// The entries read so far: distinct keys, values the encoder can write, keys that fit.
pub open spec fn entries_decoded(acc: Seq<(Seq<char>, PlistModel)>) -> bool {
    &&& keys_distinct(acc)
    &&& forall|i: int|
        0 <= i < acc.len() ==> encodable(#[trigger] acc[i].1) && encode_utf8(acc[i].0).len()
            <= usize::MAX
}

proof fn lemma_entry_decoded(b: Seq<u8>, off: int, acc: Seq<(Seq<char>, PlistModel)>)
    requires
        0 < off <= b.len(),
        b.len() <= u32::MAX,
        entries_decoded(acc),
    ensures
        spec_parse_entry(b, off, acc) matches Ok((acc2, o)) ==> off < o <= b.len()
            && entries_decoded(acc2) && acc2.len() <= acc.len() + 1,
    decreases b.len() - off, 1int, 1int,
{
    lemma_value_decoded(b, off);
    if let Ok((k, o1)) = spec_read_key(b, off) {
        assert(encodable(PlistModel::String(k)));
        if off < o1 <= b.len() {
            lemma_value_decoded(b, o1);
            if let Ok((v, o2)) = spec_parse_value(b, o1) {
                let acc2 = dict_insert(acc, k, v);
                lemma_dict_insert_distinct(acc, k, v);
                assert forall|i: int| 0 <= i < acc2.len() implies encodable(#[trigger] acc2[i].1)
                    && encode_utf8(acc2[i].0).len() <= usize::MAX by {
                    if has_key(acc, k) {
                        let j = choose|j: int| 0 <= j < acc.len() && acc[j].0 == k;
                        if i != j {
                            assert(acc2[i] == acc[i]);
                        }
                    } else if i < acc.len() {
                        assert(acc2[i] == acc[i]);
                    }
                }
            }
        }
    }
}

proof fn lemma_dict_counted_decoded(
    b: Seq<u8>,
    off: int,
    n: int,
    acc: Seq<(Seq<char>, PlistModel)>,
)
    requires
        0 < off <= b.len(),
        b.len() <= u32::MAX,
        acc.len() < off,
        entries_decoded(acc),
    ensures
        spec_parse_dict_counted(b, off, n, acc) matches Ok((v, o)) ==> off <= o <= b.len()
            && encodable(v),
    decreases b.len() - off, 2int, n,
{
    if n > 0 {
        lemma_entry_decoded(b, off, acc);
        if let Ok((acc2, o)) = spec_parse_entry(b, off, acc) {
            lemma_dict_counted_decoded(b, o, n - 1, acc2);
        }
    }
}

proof fn lemma_dict_terminated_decoded(b: Seq<u8>, off: int, acc: Seq<(Seq<char>, PlistModel)>)
    requires
        0 < off <= b.len(),
        b.len() <= u32::MAX,
        acc.len() < off,
        entries_decoded(acc),
    ensures
        spec_parse_dict_terminated(b, off, acc) matches Ok((v, o)) ==> off < o <= b.len()
            && encodable(v),
    decreases b.len() - off, 2int, 0int,
{
    if !(0 <= off < b.len() && b[off] == 0x03) {
        lemma_entry_decoded(b, off, acc);
        if let Ok((acc2, o)) = spec_parse_entry(b, off, acc) {
            lemma_dict_terminated_decoded(b, o, acc2);
        }
    }
}

/// Every value decoded from an input shorter than 2^32 bytes is one that OPACK carries without
/// loss: encoding it again and decoding that gives the same value.
pub proof fn lemma_decoded_reencodes(b: Seq<u8>)
    requires
        b.len() <= u32::MAX,
    ensures
        spec_opack_decode(b) matches Ok(v) ==> encodable(v) && spec_opack_decode(spec_encode(v))
            == Ok::<PlistModel, crate::opack::OpackError>(v),
{
    lemma_value_decoded(b, 0);
    if let Ok(v) = spec_opack_decode(b) {
        lemma_decode_encode(v);
    }
}

} // verus!
