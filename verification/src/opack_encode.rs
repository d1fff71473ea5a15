//! Encoding property lists as OPACK.
use vstd::prelude::*;
use vstd::utf8::encode_utf8;

use crate::byte_order::{
    push_bytes, push_u16_le, push_u32_be, push_u32_le, push_u64_be, push_u64_le, u16_le_bytes,
    u32_be_bytes, u32_le_bytes, u64_be_bytes, u64_le_bytes,
};
use crate::opack::{data_tags, string_tags, SizedLenTags};
use crate::plist_model::{
    entries_model, items_model, lemma_array_model, lemma_dictionary_model, PlistModel, PlistValue,
    RealBits,
};

verus! {

/// The length prefix of a sized payload of `len` bytes.
pub open spec fn sized_header(tags: SizedLenTags, len: nat) -> Seq<u8> {
    if len > 0x20 {
        if len <= 0xff {
            seq![tags.u8_tag, len as u8]
        } else if len <= 0xffff {
            seq![tags.u16_tag] + u16_le_bytes(len as u16)
        } else if len <= 0xffff_ffff {
            seq![tags.u32_tag] + u32_le_bytes(len as u32)
        } else {
            seq![tags.u64_tag] + u64_le_bytes(len as u64)
        }
    } else {
        seq![(tags.inline_base + len) as u8]
    }
}

/// An unsigned integer: small ones in the tag itself, then one, four or eight bytes.
pub open spec fn encode_uint(n: u64) -> Seq<u8> {
    if n <= 0xff {
        if n > 0x27 {
            seq![0x30, n as u8]
        } else {
            seq![(n + 8) as u8]
        }
    } else if n <= 0xffff_ffff {
        seq![0x32u8] + u32_le_bytes(n as u32)
    } else {
        seq![0x33u8] + u64_le_bytes(n)
    }
}

/// The integer as a `u64` when it is one, and zero otherwise.
pub open spec fn unsigned_or_zero(i: int) -> u64 {
    if 0 <= i <= u64::MAX {
        i as u64
    } else {
        0
    }
}

/// The tag of a container of `n` elements: the count itself below fifteen, else an open tag
/// that a terminator closes.  The count is taken modulo 2^32.
pub open spec fn count_header(base: u8, open_tag: u8, n: nat) -> Seq<u8> {
    let c = n as u32;
    if c < 15 {
        seq![(base + c) as u8]
    } else {
        seq![open_tag]
    }
}

pub open spec fn count_trailer(n: nat) -> Seq<u8> {
    if (n as u32) > 14 {
        seq![0x03u8]
    } else {
        Seq::empty()
    }
}

pub open spec fn encode_string(s: Seq<char>) -> Seq<u8> {
    sized_header(string_tags(), encode_utf8(s).len()) + encode_utf8(s)
}

/// The OPACK encoding of a value.
pub open spec fn spec_encode(v: PlistModel) -> Seq<u8>
    decreases v,
{
    match v {
        PlistModel::Dictionary(es) => count_header(0xe0, 0xef, es.len()) + spec_encode_entries(es)
            + count_trailer(es.len()),
        PlistModel::Array(items) => count_header(0xd0, 0xdf, items.len()) + spec_encode_items(items)
            + count_trailer(items.len()),
        PlistModel::Boolean(b) => seq![if b { 1u8 } else { 2u8 }],
        PlistModel::Integer(i) => encode_uint(unsigned_or_zero(i)),
        PlistModel::Real(RealBits::Single(x)) => seq![0x35u8] + u32_be_bytes(x),
        PlistModel::Real(RealBits::Double(x)) => seq![0x36u8] + u64_be_bytes(x),
        PlistModel::String(s) => encode_string(s),
        PlistModel::Data(d) => sized_header(data_tags(), d.len()) + d,
        PlistModel::Unencodable => Seq::empty(),
    }
}

/// The items of an array, one after the other.
pub open spec fn spec_encode_items(s: Seq<PlistModel>) -> Seq<u8>
    decreases s,
{
    if s.len() == 0 {
        Seq::empty()
    } else {
        spec_encode_items(s.drop_last()) + spec_encode(s.last())
    }
}

/// The entries of a dictionary, each its key then its value.
pub open spec fn spec_encode_entries(s: Seq<(Seq<char>, PlistModel)>) -> Seq<u8>
    decreases s,
{
    if s.len() == 0 {
        Seq::empty()
    } else {
        spec_encode_entries(s.drop_last()) + encode_string(s.last().0) + spec_encode(s.last().1)
    }
}

/// Encodes a value as OPACK.
pub fn plist_to_opack(value: &PlistValue) -> (r: Vec<u8>)
    ensures
        r@ == spec_encode(value@),
{
    let mut buf: Vec<u8> = Vec::new();
    plist_to_opack_inner(value, &mut buf);
    proof {
        assert(buf@ =~= spec_encode(value@));
    }
    buf
}

fn push_sized_header(buf: &mut Vec<u8>, tags: SizedLenTags, len: usize)
    requires
        tags.inline_base + 0x20 <= 0xff,
    ensures
        final(buf)@ == old(buf)@ + sized_header(tags, len as nat),
{
    if len > 0x20 {
        if len <= 0xff {
            buf.push(tags.u8_tag);
            buf.push(len as u8);
        } else if len <= 0xffff {
            buf.push(tags.u16_tag);
            push_u16_le(buf, len as u16);
        } else if len <= 0xffff_ffff {
            buf.push(tags.u32_tag);
            push_u32_le(buf, len as u32);
        } else {
            buf.push(tags.u64_tag);
            push_u64_le(buf, len as u64);
        }
    } else {
        buf.push(tags.inline_base + len as u8);
    }
    proof {
        assert(final(buf)@ =~= old(buf)@ + sized_header(tags, len as nat));
    }
}

fn push_string(buf: &mut Vec<u8>, s: &String)
    ensures
        final(buf)@ == old(buf)@ + encode_string(s@),
{
    let bytes = s.as_str().as_bytes();
    push_sized_header(buf, string_len_tags(), bytes.len());
    push_bytes(buf, bytes);
    proof {
        assert(final(buf)@ =~= old(buf)@ + encode_string(s@));
    }
}

fn string_len_tags() -> (t: SizedLenTags)
    ensures
        t == string_tags(),
{
    SizedLenTags {
        inline_base: 0x40,
        u8_tag: 0x61,
        u16_tag: 0x62,
        u32_tag: 0x63,
        u64_tag: 0x64,
        kind: crate::opack::SizedKind::String,
    }
}

fn data_len_tags() -> (t: SizedLenTags)
    ensures
        t == data_tags(),
{
    SizedLenTags {
        inline_base: 0x70,
        u8_tag: 0x91,
        u16_tag: 0x92,
        u32_tag: 0x93,
        u64_tag: 0x94,
        kind: crate::opack::SizedKind::Data,
    }
}

fn push_uint(buf: &mut Vec<u8>, n: u64)
    ensures
        final(buf)@ == old(buf)@ + encode_uint(n),
{
    if n <= 0xff {
        let small = n as u8;
        if small > 0x27 {
            buf.push(0x30);
            buf.push(small);
        } else {
            buf.push(small + 8);
        }
    } else if n <= 0xffff_ffff {
        buf.push(0x32);
        push_u32_le(buf, n as u32);
    } else {
        buf.push(0x33);
        push_u64_le(buf, n);
    }
    proof {
        assert(final(buf)@ =~= old(buf)@ + encode_uint(n));
    }
}

/// Appends the encoding of `node` to `buf`, leaving what `buf` already held as it was.
pub fn plist_to_opack_inner(node: &PlistValue, buf: &mut Vec<u8>)
    ensures
        final(buf)@ == old(buf)@ + spec_encode(node@),
    decreases node,
{
    match node {
        PlistValue::Dictionary(dict) => {
            let count = dict.len() as u32;
            let blen = if count < 15 {
                (count as u8) + 0xe0
            } else {
                0xef
            };
            buf.push(blen);
            let ghost start = buf@;
            let ghost m = entries_model(dict@);
            let mut i: usize = 0;
            while i < dict.len()
                invariant
                    i <= dict@.len(),
                    m == entries_model(dict@),
                    *node == PlistValue::Dictionary(*dict),
                    buf@ == start + spec_encode_entries(m.take(i as int)),
                decreases dict@.len() - i,
            {
                push_string(buf, &dict[i].0);
                proof {
                    assert(decreases_to!(*node => dict@[i as int].1)) by {
                        broadcast use vstd::std_specs::vec::axiom_vec_index_decreases;
                        assert(decreases_to!(*dict => dict[i as int]));
                        assert(decreases_to!(*node => (*node)->Dictionary_0));
                        assert(decreases_to!(dict[i as int] => dict[i as int].1));
                    }
                }
                plist_to_opack_inner(&dict[i].1, buf);
                i += 1;
                proof {
                    assert(m.take(i as int).drop_last() =~= m.take(i - 1));
                }
            }
            if count > 14 {
                buf.push(0x03);
            }
            proof {
                assert(m.take(dict@.len() as int) =~= m);
                lemma_dictionary_model(*dict);
                assert(final(buf)@ =~= old(buf)@ + spec_encode(node@));
            }
        },
        PlistValue::Array(array) => {
            let count = array.len() as u32;
            let blen = if count < 15 {
                (count as u8) + 0xd0
            } else {
                0xdf
            };
            buf.push(blen);
            let ghost start = buf@;
            let ghost m = items_model(array@);
            let mut i: usize = 0;
            while i < array.len()
                invariant
                    i <= array@.len(),
                    m == items_model(array@),
                    *node == PlistValue::Array(*array),
                    buf@ == start + spec_encode_items(m.take(i as int)),
                decreases array@.len() - i,
            {
                proof {
                    assert(decreases_to!(*node => array@[i as int])) by {
                        broadcast use vstd::std_specs::vec::axiom_vec_index_decreases;
                        assert(decreases_to!(*array => array[i as int]));
                        assert(decreases_to!(*node => (*node)->Array_0));
                    }
                }
                plist_to_opack_inner(&array[i], buf);
                i += 1;
                proof {
                    assert(m.take(i as int).drop_last() =~= m.take(i - 1));
                }
            }
            if count > 14 {
                buf.push(0x03);
            }
            proof {
                assert(m.take(array@.len() as int) =~= m);
                lemma_array_model(*array);
                assert(final(buf)@ =~= old(buf)@ + spec_encode(node@));
            }
        },
        PlistValue::Boolean(b) => {
            let bval = if *b {
                1u8
            } else {
                2u8
            };
            buf.push(bval);
            proof {
                assert(final(buf)@ =~= old(buf)@ + spec_encode(node@));
            }
        },
        PlistValue::Integer(integer) => {
            let u64val = if 0 <= *integer && *integer <= u64::MAX as i128 {
                *integer as u64
            } else {
                0
            };
            push_uint(buf, u64val);
        },
        PlistValue::Real(RealBits::Single(bits)) => {
            buf.push(0x35);
            push_u32_be(buf, *bits);
            proof {
                assert(final(buf)@ =~= old(buf)@ + spec_encode(node@));
            }
        },
        PlistValue::Real(RealBits::Double(bits)) => {
            buf.push(0x36);
            push_u64_be(buf, *bits);
            proof {
                assert(final(buf)@ =~= old(buf)@ + spec_encode(node@));
            }
        },
        PlistValue::String(s) => {
            push_string(buf, s);
        },
        PlistValue::Data(data) => {
            push_sized_header(buf, data_len_tags(), data.len());
            push_bytes(buf, data.as_slice());
            proof {
                assert(final(buf)@ =~= old(buf)@ + spec_encode(node@));
            }
        },
        PlistValue::Unencodable => {
            proof {
                assert(final(buf)@ =~= old(buf)@ + spec_encode(node@));
            }
        },
    }
}

} // verus!
