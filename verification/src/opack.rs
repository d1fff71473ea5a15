//! OPACK, the compact binary encoding of property lists used in remote pairing.
use vstd::prelude::*;
use vstd::slice::{slice_subrange, slice_to_vec};
use vstd::utf8::{decode_utf8, valid_utf8};

use crate::byte_order::{u16_from_le, u32_from_be, u32_from_le, u64_from_be, u64_from_le};
use crate::byte_order::{read_u16_le, read_u32_be, read_u32_le, read_u64_be, read_u64_le};
use crate::plist_model::{
    dict_insert, dictionary_insert, entries_model, items_model, keys_distinct, lemma_array_model,
    lemma_dictionary_model, PlistModel, PlistValue, RealBits,
};
use crate::text::string_from_utf8;

pub use crate::opack_encode::plist_to_opack;

verus! {

/// Which kind of sized payload a length prefix belongs to.
#[derive(Clone, Copy, Debug, PartialEq, Eq)]
pub enum SizedKind {
    String,
    Data,
}

/// Why a byte sequence is not an OPACK payload.
#[derive(Clone, Copy, Debug, PartialEq, Eq)]
pub enum OpackError {
    /// The payload decoded, and this many bytes were left over after it.
    TrailingBytes(usize),
    /// A single byte (a tag, a small integer or a one-byte length) was wanted past the end.
    EndOfInput,
    /// This many bytes were wanted, and fewer remained.
    Truncated(usize),
    /// A terminator stood where a value was expected.
    UnexpectedTerminator,
    /// The tag byte names no kind of value.
    UnsupportedTag(u8),
    /// The tag byte names no length encoding of this kind of payload.
    UnsupportedLengthTag(SizedKind, u8),
    /// An eight-byte length does not fit in `usize` on this platform.
    LengthTooLarge(SizedKind, u64),
    /// A string payload is not well-formed UTF-8.
    InvalidUtf8,
    /// A dictionary key decoded to something other than a string.
    KeyNotString,
}

/// The tags of one kind of sized payload: an inline range of short lengths, then explicit
/// one-, two-, four- and eight-byte little-endian lengths.
#[derive(Clone, Copy)]
pub struct SizedLenTags {
    pub inline_base: u8,
    pub u8_tag: u8,
    pub u16_tag: u8,
    pub u32_tag: u8,
    pub u64_tag: u8,
    pub kind: SizedKind,
}

pub open spec fn string_tags() -> SizedLenTags {
    SizedLenTags {
        inline_base: 0x40,
        u8_tag: 0x61,
        u16_tag: 0x62,
        u32_tag: 0x63,
        u64_tag: 0x64,
        kind: SizedKind::String,
    }
}

pub open spec fn data_tags() -> SizedLenTags {
    SizedLenTags {
        inline_base: 0x70,
        u8_tag: 0x91,
        u16_tag: 0x92,
        u32_tag: 0x93,
        u64_tag: 0x94,
        kind: SizedKind::Data,
    }
}

// ---------------------------------------------------------------------------------------------
// The format, as a decoder on byte sequences.  Each reader takes the offset at which it starts
// and gives back what it read and the offset just past it.
// ---------------------------------------------------------------------------------------------

pub open spec fn spec_read_u8(b: Seq<u8>, off: int) -> Result<(u8, int), OpackError> {
    if 0 <= off < b.len() {
        Ok((b[off], off + 1))
    } else {
        Err(OpackError::EndOfInput)
    }
}

/// Reading `n` bytes at `off`: the offset past them, or the failure.
pub open spec fn spec_read_exact(b: Seq<u8>, off: int, n: int) -> Result<int, OpackError> {
    if off + n <= b.len() {
        Ok(off + n)
    } else {
        Err(OpackError::Truncated(n as usize))
    }
}

pub open spec fn spec_read_sized_len(tag: u8, b: Seq<u8>, off: int, tags: SizedLenTags) -> Result<
    (usize, int),
    OpackError,
> {
    if tags.inline_base <= tag < tags.u8_tag {
        Ok(((tag - tags.inline_base) as usize, off))
    } else if tag == tags.u8_tag {
        match spec_read_u8(b, off) {
            Ok((n, o)) => Ok((n as usize, o)),
            Err(e) => Err(e),
        }
    } else if tag == tags.u16_tag {
        match spec_read_exact(b, off, 2) {
            Ok(o) => Ok((u16_from_le(b.subrange(off, o)) as usize, o)),
            Err(e) => Err(e),
        }
    } else if tag == tags.u32_tag {
        match spec_read_exact(b, off, 4) {
            Ok(o) => Ok((u32_from_le(b.subrange(off, o)) as usize, o)),
            Err(e) => Err(e),
        }
    } else if tag == tags.u64_tag {
        match spec_read_exact(b, off, 8) {
            Ok(o) => {
                let n = u64_from_le(b.subrange(off, o));
                if n <= usize::MAX {
                    Ok((n as usize, o))
                } else {
                    Err(OpackError::LengthTooLarge(tags.kind, n))
                }
            },
            Err(e) => Err(e),
        }
    } else {
        Err(OpackError::UnsupportedLengthTag(tags.kind, tag))
    }
}

/// The raw bytes of a sized payload whose tag was read just before `off`.
pub open spec fn spec_read_sized(tag: u8, b: Seq<u8>, off: int, tags: SizedLenTags) -> Result<
    (Seq<u8>, int),
    OpackError,
> {
    match spec_read_sized_len(tag, b, off, tags) {
        Ok((n, o)) => match spec_read_exact(b, o, n as int) {
            Ok(o2) => Ok((b.subrange(o, o2), o2)),
            Err(e) => Err(e),
        },
        Err(e) => Err(e),
    }
}

pub open spec fn spec_parse_string(tag: u8, b: Seq<u8>, off: int) -> Result<
    (PlistModel, int),
    OpackError,
> {
    match spec_read_sized(tag, b, off, string_tags()) {
        Ok((raw, o)) => if valid_utf8(raw) {
            Ok((PlistModel::String(decode_utf8(raw)), o))
        } else {
            Err(OpackError::InvalidUtf8)
        },
        Err(e) => Err(e),
    }
}

pub open spec fn spec_parse_data(tag: u8, b: Seq<u8>, off: int) -> Result<
    (PlistModel, int),
    OpackError,
> {
    match spec_read_sized(tag, b, off, data_tags()) {
        Ok((raw, o)) => Ok((PlistModel::Data(raw), o)),
        Err(e) => Err(e),
    }
}

/// A value whose tag is `tag` and whose tag byte ends just before `off`, apart from containers.
pub open spec fn spec_parse_scalar(tag: u8, b: Seq<u8>, off: int) -> Result<
    (PlistModel, int),
    OpackError,
> {
    if tag == 0x01 {
        Ok((PlistModel::Boolean(true), off))
    } else if tag == 0x02 {
        Ok((PlistModel::Boolean(false), off))
    } else if 0x08 <= tag <= 0x2f {
        Ok((PlistModel::Integer(tag - 8), off))
    } else if tag == 0x30 {
        match spec_read_u8(b, off) {
            Ok((n, o)) => Ok((PlistModel::Integer(n as int), o)),
            Err(e) => Err(e),
        }
    } else if tag == 0x32 {
        match spec_read_exact(b, off, 4) {
            Ok(o) => Ok((PlistModel::Integer(u32_from_le(b.subrange(off, o)) as int), o)),
            Err(e) => Err(e),
        }
    } else if tag == 0x33 {
        match spec_read_exact(b, off, 8) {
            Ok(o) => Ok((PlistModel::Integer(u64_from_le(b.subrange(off, o)) as int), o)),
            Err(e) => Err(e),
        }
    } else if tag == 0x35 {
        match spec_read_exact(b, off, 4) {
            Ok(o) => Ok((PlistModel::Real(RealBits::Single(u32_from_be(b.subrange(off, o)))), o)),
            Err(e) => Err(e),
        }
    } else if tag == 0x36 {
        match spec_read_exact(b, off, 8) {
            Ok(o) => Ok((PlistModel::Real(RealBits::Double(u64_from_be(b.subrange(off, o)))), o)),
            Err(e) => Err(e),
        }
    } else if 0x40 <= tag <= 0x64 {
        spec_parse_string(tag, b, off)
    } else if 0x70 <= tag <= 0x94 {
        spec_parse_data(tag, b, off)
    } else if tag == 0x03 {
        Err(OpackError::UnexpectedTerminator)
    } else {
        Err(OpackError::UnsupportedTag(tag))
    }
}

/// The value that starts at `off`, and the offset just past it.
pub open spec fn spec_parse_value(b: Seq<u8>, off: int) -> Result<(PlistModel, int), OpackError>
    decreases b.len() - off, 0int, 0int,
{
    if 0 <= off < b.len() {
        let tag = b[off];
        let o = off + 1;
        if 0xd0 <= tag <= 0xde {
            spec_parse_array_counted(b, o, (tag - 0xd0) as int, Seq::empty())
        } else if tag == 0xdf {
            spec_parse_array_terminated(b, o, Seq::empty())
        } else if 0xe0 <= tag <= 0xee {
            spec_parse_dict_counted(b, o, (tag - 0xe0) as int, Seq::empty())
        } else if tag == 0xef {
            spec_parse_dict_terminated(b, o, Seq::empty())
        } else {
            spec_parse_scalar(tag, b, o)
        }
    } else {
        Err(OpackError::EndOfInput)
    }
}

/// `n` more array items from `off`, after the items `acc` already read.
pub open spec fn spec_parse_array_counted(
    b: Seq<u8>,
    off: int,
    n: int,
    acc: Seq<PlistModel>,
) -> Result<(PlistModel, int), OpackError>
    decreases b.len() - off, 1int, n,
{
    if n <= 0 {
        Ok((PlistModel::Array(acc), off))
    } else {
        match spec_parse_value(b, off) {
            Ok((v, o)) => if off < o <= b.len() {
                spec_parse_array_counted(b, o, n - 1, acc.push(v))
            } else {
                Err(OpackError::EndOfInput)
            },
            Err(e) => Err(e),
        }
    }
}

/// Array items from `off` up to and including a terminator byte.
pub open spec fn spec_parse_array_terminated(b: Seq<u8>, off: int, acc: Seq<PlistModel>) -> Result<
    (PlistModel, int),
    OpackError,
>
    decreases b.len() - off, 1int, 0int,
{
    if 0 <= off < b.len() && b[off] == 0x03 {
        Ok((PlistModel::Array(acc), off + 1))
    } else {
        match spec_parse_value(b, off) {
            Ok((v, o)) => if off < o <= b.len() {
                spec_parse_array_terminated(b, o, acc.push(v))
            } else {
                Err(OpackError::EndOfInput)
            },
            Err(e) => Err(e),
        }
    }
}

/// A dictionary key: any value, which must turn out to be a string.
pub open spec fn spec_read_key(b: Seq<u8>, off: int) -> Result<(Seq<char>, int), OpackError>
    decreases b.len() - off, 1int, 0int,
{
    match spec_parse_value(b, off) {
        Ok((PlistModel::String(s), o)) => Ok((s, o)),
        Ok(_) => Err(OpackError::KeyNotString),
        Err(e) => Err(e),
    }
}

/// One dictionary entry from `off` into `acc`, and the offset past it.
pub open spec fn spec_parse_entry(
    b: Seq<u8>,
    off: int,
    acc: Seq<(Seq<char>, PlistModel)>,
) -> Result<(Seq<(Seq<char>, PlistModel)>, int), OpackError>
    decreases b.len() - off, 1int, 1int,
{
    match spec_read_key(b, off) {
        Ok((k, o1)) => if off < o1 <= b.len() {
            match spec_parse_value(b, o1) {
                Ok((v, o2)) => Ok((dict_insert(acc, k, v), o2)),
                Err(e) => Err(e),
            }
        } else {
            Err(OpackError::EndOfInput)
        },
        Err(e) => Err(e),
    }
}

pub open spec fn spec_parse_dict_counted(
    b: Seq<u8>,
    off: int,
    n: int,
    acc: Seq<(Seq<char>, PlistModel)>,
) -> Result<(PlistModel, int), OpackError>
    decreases b.len() - off, 2int, n,
{
    if n <= 0 {
        Ok((PlistModel::Dictionary(acc), off))
    } else {
        match spec_parse_entry(b, off, acc) {
            Ok((acc2, o)) => if off < o <= b.len() {
                spec_parse_dict_counted(b, o, n - 1, acc2)
            } else {
                Err(OpackError::EndOfInput)
            },
            Err(e) => Err(e),
        }
    }
}

pub open spec fn spec_parse_dict_terminated(
    b: Seq<u8>,
    off: int,
    acc: Seq<(Seq<char>, PlistModel)>,
) -> Result<(PlistModel, int), OpackError>
    decreases b.len() - off, 2int, 0int,
{
    if 0 <= off < b.len() && b[off] == 0x03 {
        Ok((PlistModel::Dictionary(acc), off + 1))
    } else {
        match spec_parse_entry(b, off, acc) {
            Ok((acc2, o)) => if off < o <= b.len() {
                spec_parse_dict_terminated(b, o, acc2)
            } else {
                Err(OpackError::EndOfInput)
            },
            Err(e) => Err(e),
        }
    }
}

/// What a whole byte sequence decodes to: one value, with nothing after it.
pub open spec fn spec_opack_decode(b: Seq<u8>) -> Result<PlistModel, OpackError> {
    match spec_parse_value(b, 0) {
        Ok((v, o)) => if o == b.len() {
            Ok(v)
        } else {
            Err(OpackError::TrailingBytes((b.len() - o) as usize))
        },
        Err(e) => Err(e),
    }
}

// ---------------------------------------------------------------------------------------------
// The decoder.
// ---------------------------------------------------------------------------------------------

/// `r` is what the decoder specification `s` gives, and `off` is the offset it ends at.
pub open spec fn decoded_as(
    r: Result<PlistValue, OpackError>,
    off: int,
    s: Result<(PlistModel, int), OpackError>,
) -> bool {
    match s {
        Ok((v, o)) => r matches Ok(x) && x@ == v && off == o,
        Err(e) => r == Err::<PlistValue, OpackError>(e),
    }
}

/// Decodes one OPACK payload that fills `bytes` exactly.
pub fn opack_to_plist(bytes: &[u8]) -> (r: Result<PlistValue, OpackError>)
    ensures
        match spec_opack_decode(bytes@) {
            Ok(v) => r matches Ok(x) && x@ == v,
            Err(e) => r == Err::<PlistValue, OpackError>(e),
        },
{
    let mut offset: usize = 0;
    let value = match opack_to_plist_inner(bytes, &mut offset) {
        Ok(v) => v,
        Err(e) => return Err(e),
    };
    if offset != bytes.len() {
        return Err(OpackError::TrailingBytes(bytes.len() - offset));
    }
    Ok(value)
}

fn opack_to_plist_inner(bytes: &[u8], offset: &mut usize) -> (r: Result<PlistValue, OpackError>)
    requires
        *old(offset) <= bytes@.len(),
    ensures
        decoded_as(r, *final(offset) as int, spec_parse_value(bytes@, *old(offset) as int)),
        r is Ok ==> *old(offset) < *final(offset) <= bytes@.len(),
    decreases bytes@.len() - *old(offset), 0int,
{
    let tag = match read_u8(bytes, offset) {
        Ok(t) => t,
        Err(e) => return Err(e),
    };
    if 0xd0 <= tag && tag <= 0xde {
        parse_array(bytes, offset, Some((tag - 0xd0) as usize))
    } else if tag == 0xdf {
        parse_array(bytes, offset, None)
    } else if 0xe0 <= tag && tag <= 0xee {
        parse_dictionary(bytes, offset, Some((tag - 0xe0) as usize))
    } else if tag == 0xef {
        parse_dictionary(bytes, offset, None)
    } else {
        parse_scalar(tag, bytes, offset)
    }
}

/// Everything but containers, after its tag has been read.
fn parse_scalar(tag: u8, bytes: &[u8], offset: &mut usize) -> (r: Result<PlistValue, OpackError>)
    requires
        *old(offset) <= bytes@.len(),
    ensures
        decoded_as(r, *final(offset) as int, spec_parse_scalar(tag, bytes@, *old(offset) as int)),
        r is Ok ==> *old(offset) <= *final(offset) <= bytes@.len(),
{
    if tag == 0x01 {
        Ok(PlistValue::Boolean(true))
    } else if tag == 0x02 {
        Ok(PlistValue::Boolean(false))
    } else if 0x08 <= tag && tag <= 0x2f {
        Ok(PlistValue::Integer((tag - 8) as i128))
    } else if tag == 0x30 {
        match read_u8(bytes, offset) {
            Ok(n) => Ok(PlistValue::Integer(n as i128)),
            Err(e) => Err(e),
        }
    } else if tag == 0x32 {
        match read_exact(bytes, offset, 4) {
            Ok(at) => Ok(PlistValue::Integer(read_u32_le(bytes, at) as i128)),
            Err(e) => Err(e),
        }
    } else if tag == 0x33 {
        match read_exact(bytes, offset, 8) {
            Ok(at) => Ok(PlistValue::Integer(read_u64_le(bytes, at) as i128)),
            Err(e) => Err(e),
        }
    } else if tag == 0x35 {
        match read_exact(bytes, offset, 4) {
            Ok(at) => Ok(PlistValue::Real(RealBits::Single(read_u32_be(bytes, at)))),
            Err(e) => Err(e),
        }
    } else if tag == 0x36 {
        match read_exact(bytes, offset, 8) {
            Ok(at) => Ok(PlistValue::Real(RealBits::Double(read_u64_be(bytes, at)))),
            Err(e) => Err(e),
        }
    } else if 0x40 <= tag && tag <= 0x64 {
        parse_string_value(tag, bytes, offset)
    } else if 0x70 <= tag && tag <= 0x94 {
        parse_data_value(tag, bytes, offset)
    } else if tag == 0x03 {
        Err(OpackError::UnexpectedTerminator)
    } else {
        Err(OpackError::UnsupportedTag(tag))
    }
}

fn string_len_tags() -> (t: SizedLenTags)
    ensures
        t == string_tags(),
{
    SizedLenTags {
        inline_base: 0x40,
        u8_tag: 0x61,
        u16_tag: 0x62,
        u32_tag: 0x63,
        u64_tag: 0x64,
        kind: SizedKind::String,
    }
}

fn data_len_tags() -> (t: SizedLenTags)
    ensures
        t == data_tags(),
{
    SizedLenTags {
        inline_base: 0x70,
        u8_tag: 0x91,
        u16_tag: 0x92,
        u32_tag: 0x93,
        u64_tag: 0x94,
        kind: SizedKind::Data,
    }
}

fn parse_string_value(tag: u8, bytes: &[u8], offset: &mut usize) -> (r: Result<
    PlistValue,
    OpackError,
>)
    requires
        *old(offset) <= bytes@.len(),
    ensures
        decoded_as(r, *final(offset) as int, spec_parse_string(tag, bytes@, *old(offset) as int)),
        r is Ok ==> *old(offset) <= *final(offset) <= bytes@.len(),
{
    let len = match read_sized_len(tag, bytes, offset, string_len_tags()) {
        Ok(n) => n,
        Err(e) => return Err(e),
    };
    match read_string(bytes, offset, len) {
        Ok(s) => Ok(PlistValue::String(s)),
        Err(e) => Err(e),
    }
}

fn parse_data_value(tag: u8, bytes: &[u8], offset: &mut usize) -> (r: Result<
    PlistValue,
    OpackError,
>)
    requires
        *old(offset) <= bytes@.len(),
    ensures
        decoded_as(r, *final(offset) as int, spec_parse_data(tag, bytes@, *old(offset) as int)),
        r is Ok ==> *old(offset) <= *final(offset) <= bytes@.len(),
{
    let len = match read_sized_len(tag, bytes, offset, data_len_tags()) {
        Ok(n) => n,
        Err(e) => return Err(e),
    };
    match read_vec(bytes, offset, len) {
        Ok(d) => Ok(PlistValue::Data(d)),
        Err(e) => Err(e),
    }
}

fn read_sized_len(tag: u8, bytes: &[u8], offset: &mut usize, tags: SizedLenTags) -> (r: Result<
    usize,
    OpackError,
>)
    requires
        *old(offset) <= bytes@.len(),
    ensures
        match spec_read_sized_len(tag, bytes@, *old(offset) as int, tags) {
            Ok((n, o)) => r == Ok::<usize, OpackError>(n) && *final(offset) == o,
            Err(e) => r == Err::<usize, OpackError>(e),
        },
        *old(offset) <= *final(offset) <= bytes@.len(),
{
    if tags.inline_base <= tag && tag < tags.u8_tag {
        Ok((tag - tags.inline_base) as usize)
    } else if tag == tags.u8_tag {
        match read_u8(bytes, offset) {
            Ok(n) => Ok(n as usize),
            Err(e) => Err(e),
        }
    } else if tag == tags.u16_tag {
        match read_exact(bytes, offset, 2) {
            Ok(at) => Ok(read_u16_le(bytes, at) as usize),
            Err(e) => Err(e),
        }
    } else if tag == tags.u32_tag {
        match read_exact(bytes, offset, 4) {
            Ok(at) => Ok(read_u32_le(bytes, at) as usize),
            Err(e) => Err(e),
        }
    } else if tag == tags.u64_tag {
        match read_exact(bytes, offset, 8) {
            Ok(at) => {
                let len_u64 = read_u64_le(bytes, at);
                if len_u64 <= usize::MAX as u64 {
                    Ok(len_u64 as usize)
                } else {
                    Err(OpackError::LengthTooLarge(tags.kind, len_u64))
                }
            },
            Err(e) => Err(e),
        }
    } else {
        Err(OpackError::UnsupportedLengthTag(tags.kind, tag))
    }
}

/// `count` items, or items up to a terminator when no count is given.
fn parse_array(bytes: &[u8], offset: &mut usize, count: Option<usize>) -> (r: Result<
    PlistValue,
    OpackError,
>)
    requires
        *old(offset) <= bytes@.len(),
    ensures
        decoded_as(
            r,
            *final(offset) as int,
            match count {
                Some(n) => spec_parse_array_counted(bytes@, *old(offset) as int, n as int, Seq::empty()),
                None => spec_parse_array_terminated(bytes@, *old(offset) as int, Seq::empty()),
            },
        ),
        r is Ok ==> *old(offset) <= *final(offset) <= bytes@.len(),
    decreases bytes@.len() - *old(offset), 1int,
{
    let ghost off0 = *offset as int;
    let ghost b = bytes@;
    let mut items: Vec<PlistValue> = Vec::new();
    proof {
        assert(items_model(items@) =~= Seq::<PlistModel>::empty());
    }
    match count {
        Some(n) => {
            let mut i: usize = 0;
            while i < n
                invariant
                    count == Some(n),
                    off0 == *old(offset),
                    off0 <= *offset <= b.len(),
                    b == bytes@,
                    i <= n,
                    spec_parse_array_counted(b, off0, n as int, Seq::empty())
                        == spec_parse_array_counted(
                        b,
                        *offset as int,
                        (n - i) as int,
                        items_model(items@),
                    ),
                decreases n - i,
            {
                let ghost cur = *offset as int;
                let v = match opack_to_plist_inner(bytes, offset) {
                    Ok(v) => v,
                    Err(e) => {
                        proof {
                            assert(spec_parse_array_counted(b, off0, n as int, Seq::empty())
                                == Err::<(PlistModel, int), OpackError>(e));
                        }
                        return Err(e);
                    },
                };
                proof {
                    assert(items_model(items@.push(v)) =~= items_model(items@).push(v@));
                }
                items.push(v);
                i += 1;
            }
        },
        None => {
            loop
                invariant
                    count is None,
                    off0 == *old(offset),
                    off0 <= *offset <= b.len(),
                    b == bytes@,
                    spec_parse_array_terminated(b, off0, Seq::empty())
                        == spec_parse_array_terminated(b, *offset as int, items_model(items@)),
                ensures
                    *offset < b.len() && b[*offset as int] == 0x03,
                    spec_parse_array_terminated(b, off0, Seq::empty())
                        == spec_parse_array_terminated(b, *offset as int, items_model(items@)),
                decreases b.len() - *offset,
            {
                if peek_is_terminator(bytes, *offset) {
                    break;
                }
                let ghost cur = *offset as int;
                let v = match opack_to_plist_inner(bytes, offset) {
                    Ok(v) => v,
                    Err(e) => {
                        proof {
                            assert(spec_parse_array_terminated(b, cur, items_model(items@))
                                == Err::<(PlistModel, int), OpackError>(e));
                        }
                        return Err(e);
                    },
                };
                proof {
                    assert(items_model(items@.push(v)) =~= items_model(items@).push(v@));
                }
                items.push(v);
            }
            proof {
                assert(*offset < bytes.len());
            }
            *offset += 1;
        },
    }
    proof {
        lemma_array_model(items);
    }
    Ok(PlistValue::Array(items))
}

/// `count` entries, or entries up to a terminator when no count is given.
fn parse_dictionary(bytes: &[u8], offset: &mut usize, count: Option<usize>) -> (r: Result<
    PlistValue,
    OpackError,
>)
    requires
        *old(offset) <= bytes@.len(),
    ensures
        decoded_as(
            r,
            *final(offset) as int,
            match count {
                Some(n) => spec_parse_dict_counted(bytes@, *old(offset) as int, n as int, Seq::empty()),
                None => spec_parse_dict_terminated(bytes@, *old(offset) as int, Seq::empty()),
            },
        ),
        r is Ok ==> *old(offset) <= *final(offset) <= bytes@.len(),
    decreases bytes@.len() - *old(offset), 2int,
{
    let ghost off0 = *offset as int;
    let ghost b = bytes@;
    let mut dict: Vec<(String, PlistValue)> = Vec::new();
    proof {
        assert(entries_model(dict@) =~= Seq::<(Seq<char>, PlistModel)>::empty());
    }
    match count {
        Some(n) => {
            let mut i: usize = 0;
            while i < n
                invariant
                    count == Some(n),
                    off0 == *old(offset),
                    off0 <= *offset <= b.len(),
                    b == bytes@,
                    i <= n,
                    keys_distinct(entries_model(dict@)),
                    spec_parse_dict_counted(b, off0, n as int, Seq::empty())
                        == spec_parse_dict_counted(
                        b,
                        *offset as int,
                        (n - i) as int,
                        entries_model(dict@),
                    ),
                decreases n - i,
            {
                let ghost cur = *offset as int;
                let ghost acc = entries_model(dict@);
                let key = match read_dictionary_key(bytes, offset) {
                    Ok(k) => k,
                    Err(e) => {
                        proof {
                            assert(spec_parse_entry(b, cur, acc)
                                == Err::<(Seq<(Seq<char>, PlistModel)>, int), OpackError>(e));
                            assert(spec_parse_dict_counted(b, cur, (n - i) as int, acc)
                                == Err::<(PlistModel, int), OpackError>(e));
                        }
                        return Err(e);
                    },
                };
                let ghost o1 = *offset as int;
                let value = match opack_to_plist_inner(bytes, offset) {
                    Ok(v) => v,
                    Err(e) => {
                        proof {
                            assert(spec_parse_value(b, o1) == Err::<(PlistModel, int), OpackError>(e));
                            assert(spec_parse_entry(b, cur, acc)
                                == Err::<(Seq<(Seq<char>, PlistModel)>, int), OpackError>(e));
                            assert(spec_parse_dict_counted(b, cur, (n - i) as int, acc)
                                == Err::<(PlistModel, int), OpackError>(e));
                        }
                        return Err(e);
                    },
                };
                let ghost km = key@;
                let ghost vm = value@;
                dictionary_insert(&mut dict, key, value);
                proof {
                    assert(spec_parse_entry(b, cur, acc)
                        == Ok::<(Seq<(Seq<char>, PlistModel)>, int), OpackError>(
                            (dict_insert(acc, km, vm), *offset as int),
                        ));
                }
                i += 1;
            }
        },
        None => {
            loop
                invariant
                    count is None,
                    off0 == *old(offset),
                    off0 <= *offset <= b.len(),
                    b == bytes@,
                    keys_distinct(entries_model(dict@)),
                    spec_parse_dict_terminated(b, off0, Seq::empty())
                        == spec_parse_dict_terminated(b, *offset as int, entries_model(dict@)),
                ensures
                    *offset < b.len() && b[*offset as int] == 0x03,
                    keys_distinct(entries_model(dict@)),
                    spec_parse_dict_terminated(b, off0, Seq::empty())
                        == spec_parse_dict_terminated(b, *offset as int, entries_model(dict@)),
                decreases b.len() - *offset,
            {
                if peek_is_terminator(bytes, *offset) {
                    break;
                }
                let ghost cur = *offset as int;
                let ghost acc = entries_model(dict@);
                let key = match read_dictionary_key(bytes, offset) {
                    Ok(k) => k,
                    Err(e) => {
                        proof {
                            assert(spec_parse_entry(b, cur, acc)
                                == Err::<(Seq<(Seq<char>, PlistModel)>, int), OpackError>(e));
                            assert(spec_parse_dict_terminated(b, cur, acc)
                                == Err::<(PlistModel, int), OpackError>(e));
                        }
                        return Err(e);
                    },
                };
                let ghost o1 = *offset as int;
                let value = match opack_to_plist_inner(bytes, offset) {
                    Ok(v) => v,
                    Err(e) => {
                        proof {
                            assert(spec_parse_value(b, o1) == Err::<(PlistModel, int), OpackError>(e));
                            assert(spec_parse_entry(b, cur, acc)
                                == Err::<(Seq<(Seq<char>, PlistModel)>, int), OpackError>(e));
                            assert(spec_parse_dict_terminated(b, cur, acc)
                                == Err::<(PlistModel, int), OpackError>(e));
                        }
                        return Err(e);
                    },
                };
                let ghost km = key@;
                let ghost vm = value@;
                dictionary_insert(&mut dict, key, value);
                proof {
                    assert(spec_parse_entry(b, cur, acc)
                        == Ok::<(Seq<(Seq<char>, PlistModel)>, int), OpackError>(
                            (dict_insert(acc, km, vm), *offset as int),
                        ));
                }
            }
            proof {
                assert(*offset < bytes.len());
            }
            *offset += 1;
        },
    }
    proof {
        lemma_dictionary_model(dict);
    }
    Ok(PlistValue::Dictionary(dict))
}

fn read_dictionary_key(bytes: &[u8], offset: &mut usize) -> (r: Result<String, OpackError>)
    requires
        *old(offset) <= bytes@.len(),
    ensures
        match spec_read_key(bytes@, *old(offset) as int) {
            Ok((k, o)) => r matches Ok(s) && s@ == k && *final(offset) == o,
            Err(e) => r == Err::<String, OpackError>(e),
        },
        r is Ok ==> *old(offset) < *final(offset) <= bytes@.len(),
    decreases bytes@.len() - *old(offset), 1int,
{
    match opack_to_plist_inner(bytes, offset) {
        Ok(PlistValue::String(s)) => Ok(s),
        Ok(_) => Err(OpackError::KeyNotString),
        Err(e) => Err(e),
    }
}

/// Whether the byte at `offset` is a terminator.
fn peek_is_terminator(bytes: &[u8], offset: usize) -> (r: bool)
    ensures
        r == (offset < bytes@.len() && bytes@[offset as int] == 0x03),
{
    offset < bytes.len() && bytes[offset] == 0x03
}

fn read_u8(bytes: &[u8], offset: &mut usize) -> (r: Result<u8, OpackError>)
    ensures
        match spec_read_u8(bytes@, *old(offset) as int) {
            Ok((x, o)) => r == Ok::<u8, OpackError>(x) && *final(offset) == o,
            Err(e) => r == Err::<u8, OpackError>(e) && *final(offset) == *old(offset),
        },
{
    if *offset < bytes.len() {
        let b = bytes[*offset];
        *offset = *offset + 1;
        Ok(b)
    } else {
        Err(OpackError::EndOfInput)
    }
}

/// Moves past `n` bytes and gives the offset at which they start.
fn read_exact(bytes: &[u8], offset: &mut usize, n: usize) -> (r: Result<usize, OpackError>)
    ensures
        match spec_read_exact(bytes@, *old(offset) as int, n as int) {
            Ok(o) => r == Ok::<usize, OpackError>(*old(offset)) && *final(offset) == o,
            Err(e) => r == Err::<usize, OpackError>(e) && *final(offset) == *old(offset),
        },
{
    if *offset <= bytes.len() && n <= bytes.len() - *offset {
        let start = *offset;
        *offset = start + n;
        Ok(start)
    } else {
        Err(OpackError::Truncated(n))
    }
}

fn read_vec(bytes: &[u8], offset: &mut usize, len: usize) -> (r: Result<Vec<u8>, OpackError>)
    ensures
        match spec_read_exact(bytes@, *old(offset) as int, len as int) {
            Ok(o) => r matches Ok(v) && v@ == bytes@.subrange(*old(offset) as int, o)
                && *final(offset) == o,
            Err(e) => r == Err::<Vec<u8>, OpackError>(e) && *final(offset) == *old(offset),
        },
{
    match read_exact(bytes, offset, len) {
        Ok(start) => Ok(slice_to_vec(slice_subrange(bytes, start, *offset))),
        Err(e) => Err(e),
    }
}

fn read_string(bytes: &[u8], offset: &mut usize, len: usize) -> (r: Result<String, OpackError>)
    ensures
        match spec_read_exact(bytes@, *old(offset) as int, len as int) {
            Ok(o) => {
                let raw = bytes@.subrange(*old(offset) as int, o);
                &&& *final(offset) == o
                &&& valid_utf8(raw) ==> (r matches Ok(s) && s@ == decode_utf8(raw))
                &&& !valid_utf8(raw) ==> r == Err::<String, OpackError>(OpackError::InvalidUtf8)
            },
            Err(e) => r == Err::<String, OpackError>(e) && *final(offset) == *old(offset),
        },
{
    let data = match read_vec(bytes, offset, len) {
        Ok(d) => d,
        Err(e) => return Err(e),
    };
    match string_from_utf8(data) {
        Ok(s) => Ok(s),
        Err(_) => Err(OpackError::InvalidUtf8),
    }
}

} // verus!
