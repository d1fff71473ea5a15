//! What encoding and decoding promise of each other.
use vstd::prelude::*;
use vstd::seq::axiom_seq_subrange_decreases;
use vstd::utf8::{decode_utf8, encode_utf8, encode_utf8_decode_utf8, encode_utf8_valid_utf8, valid_utf8};

use crate::byte_order::{
    lemma_u16_le_roundtrip, lemma_u32_be_roundtrip, lemma_u32_le_roundtrip, lemma_u64_be_roundtrip,
    lemma_u64_le_roundtrip,
};
use crate::opack::{
    data_tags, spec_opack_decode, spec_parse_array_counted, spec_parse_array_terminated,
    spec_parse_dict_counted, spec_parse_dict_terminated, spec_parse_entry, spec_parse_value,
    spec_read_key, string_tags, SizedLenTags,
};
use crate::opack_encode::{
    count_header, count_trailer, encode_string, encode_uint, sized_header, spec_encode,
    spec_encode_entries, spec_encode_items,
};
use crate::plist_model::{dict_insert, has_key, keys_distinct, PlistModel, RealBits};

verus! {

/// A value that OPACK carries without loss: no dates or UIDs, integers in the `u64` range,
/// dictionaries without repeated keys, containers of fewer than 2^32 elements, and payloads
/// whose lengths fit in `usize`.
pub open spec fn encodable(v: PlistModel) -> bool
    decreases v,
{
    match v {
        PlistModel::Array(items) => items.len() <= u32::MAX && forall|i: int|
            0 <= i < items.len() ==> encodable(#[trigger] items[i]),
        PlistModel::Dictionary(es) => es.len() <= u32::MAX && keys_distinct(es) && forall|i: int|
            0 <= i < es.len() ==> encodable(#[trigger] es[i].1)
                && encode_utf8(es[i].0).len() <= usize::MAX,
        PlistModel::Integer(n) => 0 <= n <= u64::MAX,
        PlistModel::String(s) => encode_utf8(s).len() <= usize::MAX,
        PlistModel::Data(d) => d.len() <= usize::MAX,
        PlistModel::Unencodable => false,
        _ => true,
    }
}

/// `e` stands in `b` at offset `off`.
pub open spec fn placed(b: Seq<u8>, off: int, e: Seq<u8>) -> bool {
    0 <= off && off + e.len() <= b.len() && b.subrange(off, off + e.len()) == e
}

proof fn lemma_placed_split(b: Seq<u8>, off: int, x: Seq<u8>, y: Seq<u8>)
    requires
        placed(b, off, x + y),
    ensures
        placed(b, off, x),
        placed(b, off + x.len(), y),
{
    assert(b.subrange(off, off + x.len()) =~= (x + y).subrange(0, x.len() as int));
    assert((x + y).subrange(0, x.len() as int) =~= x);
    assert(b.subrange(off + x.len(), off + x.len() + y.len()) =~= (x + y).subrange(
        x.len() as int,
        (x + y).len() as int,
    ));
    assert((x + y).subrange(x.len() as int, (x + y).len() as int) =~= y);
}

proof fn lemma_placed_index(b: Seq<u8>, off: int, e: Seq<u8>, i: int)
    requires
        placed(b, off, e),
        0 <= i < e.len(),
    ensures
        b[off + i] == e[i],
{
    assert(b.subrange(off, off + e.len())[i] == b[off + i]);
}

proof fn lemma_placed_sub(b: Seq<u8>, off: int, e: Seq<u8>, i: int, j: int)
    requires
        placed(b, off, e),
        0 <= i <= j <= e.len(),
    ensures
        b.subrange(off + i, off + j) == e.subrange(i, j),
{
    assert(b.subrange(off + i, off + j) =~= e.subrange(i, j)) by {
        assert forall|k: int| 0 <= k < j - i implies b.subrange(off + i, off + j)[k] == e.subrange(
            i,
            j,
        )[k] by {
            lemma_placed_index(b, off, e, i + k);
        }
    }
}

/// The items of an array, peeled from the front.
proof fn lemma_encode_items_front(s: Seq<PlistModel>)
    requires
        s.len() > 0,
    ensures
        spec_encode_items(s) == spec_encode(s[0]) + spec_encode_items(s.subrange(1, s.len() as int)),
    decreases s.len(),
{
    if s.len() == 1 {
        assert(s.drop_last() =~= Seq::<PlistModel>::empty());
        assert(s.subrange(1, s.len() as int) =~= Seq::<PlistModel>::empty());
        assert(spec_encode_items(s) =~= spec_encode(s[0]) + spec_encode_items(
            s.subrange(1, s.len() as int),
        ));
    } else {
        let t = s.drop_last();
        lemma_encode_items_front(t);
        assert(t.subrange(1, t.len() as int) =~= s.subrange(1, s.len() as int).drop_last());
        assert(s.subrange(1, s.len() as int).last() == s.last());
        assert(spec_encode_items(s) =~= spec_encode(s[0]) + spec_encode_items(
            s.subrange(1, s.len() as int),
        ));
    }
}

/// The entries of a dictionary, peeled from the front.
proof fn lemma_encode_entries_front(s: Seq<(Seq<char>, PlistModel)>)
    requires
        s.len() > 0,
    ensures
        spec_encode_entries(s) == encode_string(s[0].0) + spec_encode(s[0].1) + spec_encode_entries(
            s.subrange(1, s.len() as int),
        ),
    decreases s.len(),
{
    if s.len() == 1 {
        assert(s.drop_last() =~= Seq::<(Seq<char>, PlistModel)>::empty());
        assert(s.subrange(1, s.len() as int) =~= Seq::<(Seq<char>, PlistModel)>::empty());
        assert(spec_encode_entries(s) =~= encode_string(s[0].0) + spec_encode(s[0].1)
            + spec_encode_entries(s.subrange(1, s.len() as int)));
    } else {
        let t = s.drop_last();
        lemma_encode_entries_front(t);
        assert(t.subrange(1, t.len() as int) =~= s.subrange(1, s.len() as int).drop_last());
        assert(s.subrange(1, s.len() as int).last() == s.last());
        assert(spec_encode_entries(s) =~= encode_string(s[0].0) + spec_encode(s[0].1)
            + spec_encode_entries(s.subrange(1, s.len() as int)));
    }
}

/// The length prefix of a sized payload is read back as the length.
proof fn lemma_parse_sized_header(b: Seq<u8>, off: int, tags: SizedLenTags, len: nat)
    requires
        placed(b, off, sized_header(tags, len)),
        len <= usize::MAX,
        tags.inline_base + 0x21 == tags.u8_tag,
        tags.u16_tag == tags.u8_tag + 1,
        tags.u32_tag == tags.u8_tag + 2,
        tags.u64_tag == tags.u8_tag + 3,
    ensures
        crate::opack::spec_read_sized_len(
            b[off],
            b,
            off + 1,
            tags,
        ) == Ok::<(usize, int), crate::opack::OpackError>(
            (len as usize, off + sized_header(tags, len).len()),
        ),
{
    let h = sized_header(tags, len);
    lemma_placed_index(b, off, h, 0);
    if len > 0x20 {
        if len <= 0xff {
            lemma_placed_index(b, off, h, 1);
        } else if len <= 0xffff {
            lemma_placed_sub(b, off, h, 1, 3);
            assert(h.subrange(1, 3) =~= crate::byte_order::u16_le_bytes(len as u16));
            lemma_u16_le_roundtrip(len as u16);
        } else if len <= 0xffff_ffff {
            lemma_placed_sub(b, off, h, 1, 5);
            assert(h.subrange(1, 5) =~= crate::byte_order::u32_le_bytes(len as u32));
            lemma_u32_le_roundtrip(len as u32);
        } else {
            lemma_placed_sub(b, off, h, 1, 9);
            assert(h.subrange(1, 9) =~= crate::byte_order::u64_le_bytes(len as u64));
            lemma_u64_le_roundtrip(len as u64);
        }
    }
}

proof fn lemma_parse_encoded_string(b: Seq<u8>, off: int, s: Seq<char>)
    requires
        placed(b, off, encode_string(s)),
        encode_utf8(s).len() <= usize::MAX,
    ensures
        spec_parse_value(b, off) == Ok::<(PlistModel, int), crate::opack::OpackError>(
            (PlistModel::String(s), off + encode_string(s).len()),
        ),
{
    let raw = encode_utf8(s);
    let h = sized_header(string_tags(), raw.len());
    lemma_placed_split(b, off, h, raw);
    lemma_parse_sized_header(b, off, string_tags(), raw.len());
    lemma_placed_index(b, off, h, 0);
    lemma_placed_sub(b, off + h.len(), raw, 0, raw.len() as int);
    assert(raw.subrange(0, raw.len() as int) =~= raw);
    encode_utf8_valid_utf8(s);
    encode_utf8_decode_utf8(s);
}

/// Decoding the encoding of an encodable value gives back the value, and ends just past its
/// encoding, whatever surrounds it.
#[verifier::spinoff_prover]
proof fn lemma_parse_encoded(b: Seq<u8>, off: int, v: PlistModel)
    requires
        encodable(v),
        placed(b, off, spec_encode(v)),
    ensures
        spec_parse_value(b, off) == Ok::<(PlistModel, int), crate::opack::OpackError>(
            (v, off + spec_encode(v).len()),
        ),
    decreases v, 0int,
{
    let e = spec_encode(v);
    match v {
        PlistModel::Array(items) => {
            let h = count_header(0xd0, 0xdf, items.len());
            let body = spec_encode_items(items);
            let t = count_trailer(items.len());
            assert(e =~= h + (body + t));
            lemma_placed_split(b, off, h, body + t);
            lemma_placed_index(b, off, h, 0);
            assert(Seq::<PlistModel>::empty() + items =~= items);
            if items.len() < 15 {
                assert(body + t =~= body);
                lemma_parse_items_counted(b, off + 1, items, Seq::empty());
            } else {
                lemma_parse_items_terminated(b, off + 1, items, Seq::empty());
            }
        },
        PlistModel::Dictionary(es) => {
            let h = count_header(0xe0, 0xef, es.len());
            let body = spec_encode_entries(es);
            let t = count_trailer(es.len());
            assert(e =~= h + (body + t));
            lemma_placed_split(b, off, h, body + t);
            lemma_placed_index(b, off, h, 0);
            assert(Seq::<(Seq<char>, PlistModel)>::empty() + es =~= es);
            assert(forall|i: int|
                0 <= i < es.len() ==> encodable(#[trigger] es[i].1) && encode_utf8(es[i].0).len()
                    <= usize::MAX);
            if es.len() < 15 {
                assert(body + t =~= body);
                lemma_parse_entries_counted(b, off + 1, es, Seq::empty());
            } else {
                lemma_parse_entries_terminated(b, off + 1, es, Seq::empty());
            }
        },
        PlistModel::Boolean(x) => {
            lemma_placed_index(b, off, e, 0);
        },
        PlistModel::Integer(n) => {
            lemma_placed_index(b, off, e, 0);
            let u = n as u64;
            if u <= 0xff {
                if u > 0x27 {
                    lemma_placed_index(b, off, e, 1);
                }
            } else if u <= 0xffff_ffff {
                lemma_placed_sub(b, off, e, 1, 5);
                assert(e.subrange(1, 5) =~= crate::byte_order::u32_le_bytes(u as u32));
                lemma_u32_le_roundtrip(u as u32);
            } else {
                lemma_placed_sub(b, off, e, 1, 9);
                assert(e.subrange(1, 9) =~= crate::byte_order::u64_le_bytes(u));
                lemma_u64_le_roundtrip(u);
            }
        },
        PlistModel::Real(RealBits::Single(x)) => {
            lemma_placed_index(b, off, e, 0);
            lemma_placed_sub(b, off, e, 1, 5);
            assert(e.subrange(1, 5) =~= crate::byte_order::u32_be_bytes(x));
            lemma_u32_be_roundtrip(x);
        },
        PlistModel::Real(RealBits::Double(x)) => {
            lemma_placed_index(b, off, e, 0);
            lemma_placed_sub(b, off, e, 1, 9);
            assert(e.subrange(1, 9) =~= crate::byte_order::u64_be_bytes(x));
            lemma_u64_be_roundtrip(x);
        },
        PlistModel::String(s) => {
            lemma_parse_encoded_string(b, off, s);
        },
        PlistModel::Data(d) => {
            let h = sized_header(data_tags(), d.len());
            lemma_placed_split(b, off, h, d);
            lemma_parse_sized_header(b, off, data_tags(), d.len());
            lemma_placed_index(b, off, h, 0);
            lemma_placed_sub(b, off + h.len(), d, 0, d.len() as int);
            assert(d.subrange(0, d.len() as int) =~= d);
        },
        PlistModel::Unencodable => {},
    }
}

/// An encodable value's encoding is never empty and never starts with a terminator.
proof fn lemma_encode_first_byte(v: PlistModel)
    requires
        encodable(v),
    ensures
        spec_encode(v).len() > 0,
        spec_encode(v)[0] != 0x03,
{
    match v {
        PlistModel::String(s) => {
            let raw = encode_utf8(s);
            assert(encode_string(s)[0] == sized_header(string_tags(), raw.len())[0]);
        },
        PlistModel::Data(d) => {
            assert(spec_encode(v)[0] == sized_header(data_tags(), d.len())[0]);
        },
        PlistModel::Array(items) => {
            assert(spec_encode(v)[0] == count_header(0xd0, 0xdf, items.len())[0]);
        },
        PlistModel::Dictionary(es) => {
            assert(spec_encode(v)[0] == count_header(0xe0, 0xef, es.len())[0]);
        },
        _ => {},
    }
}

proof fn lemma_parse_items_counted(b: Seq<u8>, off: int, s: Seq<PlistModel>, acc: Seq<PlistModel>)
    requires
        forall|i: int| 0 <= i < s.len() ==> encodable(#[trigger] s[i]),
        placed(b, off, spec_encode_items(s)),
    ensures
        spec_parse_array_counted(b, off, s.len() as int, acc) == Ok::<
            (PlistModel, int),
            crate::opack::OpackError,
        >((PlistModel::Array(acc + s), off + spec_encode_items(s).len())),
    decreases s, 0int,
{
    if s.len() == 0 {
        assert(acc + s =~= acc);
    } else {
        let rest = s.subrange(1, s.len() as int);
        lemma_encode_items_front(s);
        lemma_placed_split(b, off, spec_encode(s[0]), spec_encode_items(rest));
        lemma_parse_encoded(b, off, s[0]);
        lemma_encode_first_byte(s[0]);
        assert(decreases_to!(s => rest)) by {
            broadcast use axiom_seq_subrange_decreases;

        }
        lemma_parse_items_counted(b, off + spec_encode(s[0]).len(), rest, acc.push(s[0]));
        assert(acc.push(s[0]) + rest =~= acc + s);
    }
}

proof fn lemma_parse_items_terminated(
    b: Seq<u8>,
    off: int,
    s: Seq<PlistModel>,
    acc: Seq<PlistModel>,
)
    requires
        forall|i: int| 0 <= i < s.len() ==> encodable(#[trigger] s[i]),
        placed(b, off, spec_encode_items(s) + seq![0x03u8]),
    ensures
        spec_parse_array_terminated(b, off, acc) == Ok::<(PlistModel, int), crate::opack::OpackError>(
            (PlistModel::Array(acc + s), off + spec_encode_items(s).len() + 1),
        ),
    decreases s, 0int,
{
    lemma_placed_split(b, off, spec_encode_items(s), seq![0x03u8]);
    if s.len() == 0 {
        assert(acc + s =~= acc);
        lemma_placed_index(b, off, spec_encode_items(s) + seq![0x03u8], 0);
    } else {
        let rest = s.subrange(1, s.len() as int);
        lemma_encode_items_front(s);
        assert(spec_encode_items(s) + seq![0x03u8] =~= spec_encode(s[0]) + (spec_encode_items(rest)
            + seq![0x03u8]));
        lemma_placed_split(b, off, spec_encode(s[0]), spec_encode_items(rest) + seq![0x03u8]);
        lemma_parse_encoded(b, off, s[0]);
        lemma_encode_first_byte(s[0]);
        lemma_placed_index(b, off, spec_encode(s[0]), 0);
        assert(decreases_to!(s => rest)) by {
            broadcast use axiom_seq_subrange_decreases;

        }
        lemma_parse_items_terminated(b, off + spec_encode(s[0]).len(), rest, acc.push(s[0]));
        assert(acc.push(s[0]) + rest =~= acc + s);
    }
}

/// One encoded entry is read back and added at the end.
proof fn lemma_parse_entry(
    b: Seq<u8>,
    off: int,
    k: Seq<char>,
    v: PlistModel,
    acc: Seq<(Seq<char>, PlistModel)>,
)
    requires
        encodable(v),
        encode_utf8(k).len() <= usize::MAX,
        !has_key(acc, k),
        placed(b, off, encode_string(k) + spec_encode(v)),
    ensures
        spec_parse_entry(b, off, acc) == Ok::<
            (Seq<(Seq<char>, PlistModel)>, int),
            crate::opack::OpackError,
        >((acc.push((k, v)), off + encode_string(k).len() + spec_encode(v).len())),
    decreases v, 1int,
{
    lemma_placed_split(b, off, encode_string(k), spec_encode(v));
    lemma_parse_encoded_string(b, off, k);
    assert(spec_read_key(b, off) == Ok::<(Seq<char>, int), crate::opack::OpackError>(
        (k, off + encode_string(k).len()),
    ));
    lemma_encode_first_byte(PlistModel::String(k));
    lemma_parse_encoded(b, off + encode_string(k).len(), v);
    assert(dict_insert(acc, k, v) == acc.push((k, v)));
}

#[verifier::spinoff_prover]
proof fn lemma_parse_entries_counted(
    b: Seq<u8>,
    off: int,
    s: Seq<(Seq<char>, PlistModel)>,
    acc: Seq<(Seq<char>, PlistModel)>,
)
    requires
        forall|i: int|
            0 <= i < s.len() ==> encodable(#[trigger] s[i].1) && encode_utf8(s[i].0).len()
                <= usize::MAX,
        keys_distinct(acc + s),
        placed(b, off, spec_encode_entries(s)),
    ensures
        spec_parse_dict_counted(b, off, s.len() as int, acc) == Ok::<
            (PlistModel, int),
            crate::opack::OpackError,
        >((PlistModel::Dictionary(acc + s), off + spec_encode_entries(s).len())),
    decreases s, 0int,
{
    if s.len() == 0 {
        assert(acc + s =~= acc);
    } else {
        let rest = s.subrange(1, s.len() as int);
        let first = encode_string(s[0].0) + spec_encode(s[0].1);
        lemma_encode_entries_front(s);
        lemma_placed_split(b, off, first, spec_encode_entries(rest));
        assert(!has_key(acc, s[0].0)) by {
            if has_key(acc, s[0].0) {
                let j = choose|j: int| 0 <= j < acc.len() && acc[j].0 == s[0].0;
                assert((acc + s)[j].0 == (acc + s)[acc.len() as int].0);
            }
        }
        lemma_parse_entry(b, off, s[0].0, s[0].1, acc);
        lemma_encode_first_byte(PlistModel::String(s[0].0));
        assert(acc.push(s[0]) + rest =~= acc + s);
        assert(acc.push((s[0].0, s[0].1)) == acc.push(s[0]));
        assert(decreases_to!(s => rest)) by {
            broadcast use axiom_seq_subrange_decreases;

        }
        lemma_parse_entries_counted(b, off + first.len(), rest, acc.push(s[0]));
    }
}

#[verifier::spinoff_prover]
proof fn lemma_parse_entries_terminated(
    b: Seq<u8>,
    off: int,
    s: Seq<(Seq<char>, PlistModel)>,
    acc: Seq<(Seq<char>, PlistModel)>,
)
    requires
        forall|i: int|
            0 <= i < s.len() ==> encodable(#[trigger] s[i].1) && encode_utf8(s[i].0).len()
                <= usize::MAX,
        keys_distinct(acc + s),
        placed(b, off, spec_encode_entries(s) + seq![0x03u8]),
    ensures
        spec_parse_dict_terminated(b, off, acc) == Ok::<(PlistModel, int), crate::opack::OpackError>(
            (PlistModel::Dictionary(acc + s), off + spec_encode_entries(s).len() + 1),
        ),
    decreases s, 0int,
{
    lemma_placed_split(b, off, spec_encode_entries(s), seq![0x03u8]);
    if s.len() == 0 {
        assert(acc + s =~= acc);
        lemma_placed_index(b, off, spec_encode_entries(s) + seq![0x03u8], 0);
    } else {
        let rest = s.subrange(1, s.len() as int);
        let first = encode_string(s[0].0) + spec_encode(s[0].1);
        lemma_encode_entries_front(s);
        assert(spec_encode_entries(s) + seq![0x03u8] =~= first + (spec_encode_entries(rest)
            + seq![0x03u8]));
        lemma_placed_split(b, off, first, spec_encode_entries(rest) + seq![0x03u8]);
        assert(!has_key(acc, s[0].0)) by {
            if has_key(acc, s[0].0) {
                let j = choose|j: int| 0 <= j < acc.len() && acc[j].0 == s[0].0;
                assert((acc + s)[j].0 == (acc + s)[acc.len() as int].0);
            }
        }
        lemma_parse_entry(b, off, s[0].0, s[0].1, acc);
        lemma_encode_first_byte(PlistModel::String(s[0].0));
        lemma_placed_split(b, off, encode_string(s[0].0), spec_encode(s[0].1));
        lemma_placed_index(b, off, encode_string(s[0].0), 0);
        assert(acc.push(s[0]) + rest =~= acc + s);
        assert(acc.push((s[0].0, s[0].1)) == acc.push(s[0]));
        assert(decreases_to!(s => rest)) by {
            broadcast use axiom_seq_subrange_decreases;

        }
        lemma_parse_entries_terminated(b, off + first.len(), rest, acc.push(s[0]));
    }
}

/// Decoding what encoding wrote gives back the value, for every value that OPACK can carry.
pub proof fn lemma_decode_encode(v: PlistModel)
    requires
        encodable(v),
    ensures
        spec_opack_decode(spec_encode(v)) == Ok::<PlistModel, crate::opack::OpackError>(v),
{
    let b = spec_encode(v);
    assert(b.subrange(0, b.len() as int) =~= b);
    lemma_parse_encoded(b, 0, v);
}

} // verus!
