use vstd::prelude::*;

verus! {

/// The `u16` whose little-endian bytes are the first two of `s`.
pub open spec fn u16_from_le(s: Seq<u8>) -> u16 {
    (s[0] as u16) | ((s[1] as u16) << 8u16)
}

/// The `u32` whose little-endian bytes are the first four of `s`.
pub open spec fn u32_from_le(s: Seq<u8>) -> u32 {
    (s[0] as u32) | ((s[1] as u32) << 8u32) | ((s[2] as u32) << 16u32) | ((s[3] as u32) << 24u32)
}

/// The `u64` whose little-endian bytes are the first eight of `s`.
pub open spec fn u64_from_le(s: Seq<u8>) -> u64 {
    (s[0] as u64) | ((s[1] as u64) << 8u64) | ((s[2] as u64) << 16u64) | ((s[3] as u64) << 24u64)
        | ((s[4] as u64) << 32u64) | ((s[5] as u64) << 40u64) | ((s[6] as u64) << 48u64) | ((
    s[7] as u64) << 56u64)
}

/// The `u32` whose big-endian bytes are the first four of `s`.
pub open spec fn u32_from_be(s: Seq<u8>) -> u32 {
    (s[3] as u32) | ((s[2] as u32) << 8u32) | ((s[1] as u32) << 16u32) | ((s[0] as u32) << 24u32)
}

/// The `u64` whose big-endian bytes are the first eight of `s`.
pub open spec fn u64_from_be(s: Seq<u8>) -> u64 {
    (s[7] as u64) | ((s[6] as u64) << 8u64) | ((s[5] as u64) << 16u64) | ((s[4] as u64) << 24u64)
        | ((s[3] as u64) << 32u64) | ((s[2] as u64) << 40u64) | ((s[1] as u64) << 48u64) | ((
    s[0] as u64) << 56u64)
}

pub open spec fn u16_le_bytes(v: u16) -> Seq<u8> {
    seq![v as u8, (v >> 8u16) as u8]
}

pub open spec fn u32_le_bytes(v: u32) -> Seq<u8> {
    seq![v as u8, (v >> 8u32) as u8, (v >> 16u32) as u8, (v >> 24u32) as u8]
}

pub open spec fn u64_le_bytes(v: u64) -> Seq<u8> {
    seq![
        v as u8,
        (v >> 8u64) as u8,
        (v >> 16u64) as u8,
        (v >> 24u64) as u8,
        (v >> 32u64) as u8,
        (v >> 40u64) as u8,
        (v >> 48u64) as u8,
        (v >> 56u64) as u8,
    ]
}

pub open spec fn u32_be_bytes(v: u32) -> Seq<u8> {
    seq![(v >> 24u32) as u8, (v >> 16u32) as u8, (v >> 8u32) as u8, v as u8]
}

pub open spec fn u64_be_bytes(v: u64) -> Seq<u8> {
    seq![
        (v >> 56u64) as u8,
        (v >> 48u64) as u8,
        (v >> 40u64) as u8,
        (v >> 32u64) as u8,
        (v >> 24u64) as u8,
        (v >> 16u64) as u8,
        (v >> 8u64) as u8,
        v as u8,
    ]
}

/// Reading back the bytes that were written gives the value that was written.
pub proof fn lemma_u16_le_roundtrip(v: u16)
    ensures
        u16_from_le(u16_le_bytes(v)) == v,
{
    let b0 = v as u8;
    let b1 = (v >> 8u16) as u8;
    assert(((b0 as u16) | ((b1 as u16) << 8u16)) == v) by (bit_vector)
        requires
            b0 == v as u8,
            b1 == (v >> 8u16) as u8,
    ;
}

pub proof fn lemma_u32_le_roundtrip(v: u32)
    ensures
        u32_from_le(u32_le_bytes(v)) == v,
{
    let b0 = v as u8;
    let b1 = (v >> 8u32) as u8;
    let b2 = (v >> 16u32) as u8;
    let b3 = (v >> 24u32) as u8;
    assert(((b0 as u32) | ((b1 as u32) << 8u32) | ((b2 as u32) << 16u32) | ((b3 as u32) << 24u32))
        == v) by (bit_vector)
        requires
            b0 == v as u8,
            b1 == (v >> 8u32) as u8,
            b2 == (v >> 16u32) as u8,
            b3 == (v >> 24u32) as u8,
    ;
}

pub proof fn lemma_u64_le_roundtrip(v: u64)
    ensures
        u64_from_le(u64_le_bytes(v)) == v,
{
    let b0 = v as u8;
    let b1 = (v >> 8u64) as u8;
    let b2 = (v >> 16u64) as u8;
    let b3 = (v >> 24u64) as u8;
    let b4 = (v >> 32u64) as u8;
    let b5 = (v >> 40u64) as u8;
    let b6 = (v >> 48u64) as u8;
    let b7 = (v >> 56u64) as u8;
    assert(((b0 as u64) | ((b1 as u64) << 8u64) | ((b2 as u64) << 16u64) | ((b3 as u64) << 24u64)
        | ((b4 as u64) << 32u64) | ((b5 as u64) << 40u64) | ((b6 as u64) << 48u64) | ((
    b7 as u64) << 56u64)) == v) by (bit_vector)
        requires
            b0 == v as u8,
            b1 == (v >> 8u64) as u8,
            b2 == (v >> 16u64) as u8,
            b3 == (v >> 24u64) as u8,
            b4 == (v >> 32u64) as u8,
            b5 == (v >> 40u64) as u8,
            b6 == (v >> 48u64) as u8,
            b7 == (v >> 56u64) as u8,
    ;
}

pub proof fn lemma_u32_be_roundtrip(v: u32)
    ensures
        u32_from_be(u32_be_bytes(v)) == v,
{
    let b0 = (v >> 24u32) as u8;
    let b1 = (v >> 16u32) as u8;
    let b2 = (v >> 8u32) as u8;
    let b3 = v as u8;
    assert(((b3 as u32) | ((b2 as u32) << 8u32) | ((b1 as u32) << 16u32) | ((b0 as u32) << 24u32))
        == v) by (bit_vector)
        requires
            b0 == (v >> 24u32) as u8,
            b1 == (v >> 16u32) as u8,
            b2 == (v >> 8u32) as u8,
            b3 == v as u8,
    ;
}

pub proof fn lemma_u64_be_roundtrip(v: u64)
    ensures
        u64_from_be(u64_be_bytes(v)) == v,
{
    let b0 = (v >> 56u64) as u8;
    let b1 = (v >> 48u64) as u8;
    let b2 = (v >> 40u64) as u8;
    let b3 = (v >> 32u64) as u8;
    let b4 = (v >> 24u64) as u8;
    let b5 = (v >> 16u64) as u8;
    let b6 = (v >> 8u64) as u8;
    let b7 = v as u8;
    assert(((b7 as u64) | ((b6 as u64) << 8u64) | ((b5 as u64) << 16u64) | ((b4 as u64) << 24u64)
        | ((b3 as u64) << 32u64) | ((b2 as u64) << 40u64) | ((b1 as u64) << 48u64) | ((
    b0 as u64) << 56u64)) == v) by (bit_vector)
        requires
            b0 == (v >> 56u64) as u8,
            b1 == (v >> 48u64) as u8,
            b2 == (v >> 40u64) as u8,
            b3 == (v >> 32u64) as u8,
            b4 == (v >> 24u64) as u8,
            b5 == (v >> 16u64) as u8,
            b6 == (v >> 8u64) as u8,
            b7 == v as u8,
    ;
}

/// Reads the little-endian `u16` at `at`.
pub fn read_u16_le(b: &[u8], at: usize) -> (r: u16)
    requires
        at + 2 <= b@.len(),
    ensures
        r == u16_from_le(b@.subrange(at as int, at + 2)),
{
    (b[at] as u16) | ((b[at + 1] as u16) << 8u16)
}

/// Reads the little-endian `u32` at `at`.
pub fn read_u32_le(b: &[u8], at: usize) -> (r: u32)
    requires
        at + 4 <= b@.len(),
    ensures
        r == u32_from_le(b@.subrange(at as int, at + 4)),
{
    (b[at] as u32) | ((b[at + 1] as u32) << 8u32) | ((b[at + 2] as u32) << 16u32) | ((b[at
        + 3] as u32) << 24u32)
}

/// Reads the little-endian `u64` at `at`.
pub fn read_u64_le(b: &[u8], at: usize) -> (r: u64)
    requires
        at + 8 <= b@.len(),
    ensures
        r == u64_from_le(b@.subrange(at as int, at + 8)),
{
    (b[at] as u64) | ((b[at + 1] as u64) << 8u64) | ((b[at + 2] as u64) << 16u64) | ((b[at
        + 3] as u64) << 24u64) | ((b[at + 4] as u64) << 32u64) | ((b[at + 5] as u64) << 40u64)
        | ((b[at + 6] as u64) << 48u64) | ((b[at + 7] as u64) << 56u64)
}

/// Reads the big-endian `u32` at `at`.
pub fn read_u32_be(b: &[u8], at: usize) -> (r: u32)
    requires
        at + 4 <= b@.len(),
    ensures
        r == u32_from_be(b@.subrange(at as int, at + 4)),
{
    let _len = b.len();
    (b[at + 3] as u32) | ((b[at + 2] as u32) << 8u32) | ((b[at + 1] as u32) << 16u32) | ((
    b[at] as u32) << 24u32)
}

/// Reads the big-endian `u64` at `at`.
pub fn read_u64_be(b: &[u8], at: usize) -> (r: u64)
    requires
        at + 8 <= b@.len(),
    ensures
        r == u64_from_be(b@.subrange(at as int, at + 8)),
{
    let _len = b.len();
    (b[at + 7] as u64) | ((b[at + 6] as u64) << 8u64) | ((b[at + 5] as u64) << 16u64) | ((b[at
        + 4] as u64) << 24u64) | ((b[at + 3] as u64) << 32u64) | ((b[at + 2] as u64) << 40u64)
        | ((b[at + 1] as u64) << 48u64) | ((b[at] as u64) << 56u64)
}

/// Appends the little-endian bytes of `v`.
pub fn push_u16_le(buf: &mut Vec<u8>, v: u16)
    ensures
        final(buf)@ == old(buf)@ + u16_le_bytes(v),
{
    buf.push(v as u8);
    buf.push((v >> 8u16) as u8);
}

/// Appends the little-endian bytes of `v`.
pub fn push_u32_le(buf: &mut Vec<u8>, v: u32)
    ensures
        final(buf)@ == old(buf)@ + u32_le_bytes(v),
{
    buf.push(v as u8);
    buf.push((v >> 8u32) as u8);
    buf.push((v >> 16u32) as u8);
    buf.push((v >> 24u32) as u8);
}

/// Appends the little-endian bytes of `v`.
pub fn push_u64_le(buf: &mut Vec<u8>, v: u64)
    ensures
        final(buf)@ == old(buf)@ + u64_le_bytes(v),
{
    buf.push(v as u8);
    buf.push((v >> 8u64) as u8);
    buf.push((v >> 16u64) as u8);
    buf.push((v >> 24u64) as u8);
    buf.push((v >> 32u64) as u8);
    buf.push((v >> 40u64) as u8);
    buf.push((v >> 48u64) as u8);
    buf.push((v >> 56u64) as u8);
}

/// Appends the big-endian bytes of `v`.
pub fn push_u32_be(buf: &mut Vec<u8>, v: u32)
    ensures
        final(buf)@ == old(buf)@ + u32_be_bytes(v),
{
    buf.push((v >> 24u32) as u8);
    buf.push((v >> 16u32) as u8);
    buf.push((v >> 8u32) as u8);
    buf.push(v as u8);
}

/// Appends the big-endian bytes of `v`.
pub fn push_u64_be(buf: &mut Vec<u8>, v: u64)
    ensures
        final(buf)@ == old(buf)@ + u64_be_bytes(v),
{
    buf.push((v >> 56u64) as u8);
    buf.push((v >> 48u64) as u8);
    buf.push((v >> 40u64) as u8);
    buf.push((v >> 32u64) as u8);
    buf.push((v >> 24u64) as u8);
    buf.push((v >> 16u64) as u8);
    buf.push((v >> 8u64) as u8);
    buf.push(v as u8);
}

/// Appends all of `s`.
pub fn push_bytes(buf: &mut Vec<u8>, s: &[u8])
    ensures
        final(buf)@ == old(buf)@ + s@,
{
    let mut i: usize = 0;
    while i < s.len()
        invariant
            i <= s@.len(),
            buf@ == old(buf)@ + s@.subrange(0, i as int),
        decreases s@.len() - i,
    {
        buf.push(s[i]);
        i += 1;
        proof {
            assert(s@.subrange(0, i as int) =~= s@.subrange(0, i - 1).push(s@[i - 1]));
        }
    }
    proof {
        assert(s@.subrange(0, s@.len() as int) =~= s@);
    }
}


/// Two little-endian bytes stand for the number `s[0] + 256 * s[1]`.
pub proof fn lemma_u16_from_le_value(s: Seq<u8>)
    requires
        s.len() >= 2,
    ensures
        u16_from_le(s) == s[0] + 256 * s[1],
{
    let b0 = s[0];
    let b1 = s[1];
    assert(((b0 as u16) | ((b1 as u16) << 8u16)) == b0 + 256 * b1) by (bit_vector);
}

/// Four little-endian bytes stand for the number whose base-256 digits they are, lowest first.
pub proof fn lemma_u32_from_le_value(s: Seq<u8>)
    requires
        s.len() >= 4,
    ensures
        u32_from_le(s) == s[0] + 256 * s[1] + 65536 * s[2] + 16777216 * s[3],
{
    let b0 = s[0];
    let b1 = s[1];
    let b2 = s[2];
    let b3 = s[3];
    assert(((b0 as u32) | ((b1 as u32) << 8u32) | ((b2 as u32) << 16u32) | ((b3 as u32) << 24u32))
        == b0 + 256 * b1 + 65536 * b2 + 16777216 * b3) by (bit_vector);
}

/// Eight little-endian bytes stand for the number whose base-256 digits they are, lowest
/// first.
pub proof fn lemma_u64_from_le_value(s: Seq<u8>)
    requires
        s.len() >= 8,
    ensures
        u64_from_le(s) == s[0] + 256 * s[1] + 65536 * s[2] + 16777216 * s[3] + 4294967296 * s[4]
            + 1099511627776 * s[5] + 281474976710656 * s[6] + 72057594037927936 * s[7],
{
    let b0 = s[0];
    let b1 = s[1];
    let b2 = s[2];
    let b3 = s[3];
    let b4 = s[4];
    let b5 = s[5];
    let b6 = s[6];
    let b7 = s[7];
    assert(((b0 as u64) | ((b1 as u64) << 8u64) | ((b2 as u64) << 16u64) | ((b3 as u64) << 24u64)
        | ((b4 as u64) << 32u64) | ((b5 as u64) << 40u64) | ((b6 as u64) << 48u64) | ((
    b7 as u64) << 56u64)) == b0 + 256 * b1 + 65536 * b2 + 16777216 * b3 + 4294967296 * b4
        + 1099511627776 * b5 + 281474976710656 * b6 + 72057594037927936 * b7) by (bit_vector);
}

/// Four big-endian bytes stand for the number whose base-256 digits they are, highest first.
pub proof fn lemma_u32_from_be_value(s: Seq<u8>)
    requires
        s.len() >= 4,
    ensures
        u32_from_be(s) == s[3] + 256 * s[2] + 65536 * s[1] + 16777216 * s[0],
{
    let b0 = s[0];
    let b1 = s[1];
    let b2 = s[2];
    let b3 = s[3];
    assert(((b3 as u32) | ((b2 as u32) << 8u32) | ((b1 as u32) << 16u32) | ((b0 as u32) << 24u32))
        == b3 + 256 * b2 + 65536 * b1 + 16777216 * b0) by (bit_vector);
}

/// Eight big-endian bytes stand for the number whose base-256 digits they are, highest first.
pub proof fn lemma_u64_from_be_value(s: Seq<u8>)
    requires
        s.len() >= 8,
    ensures
        u64_from_be(s) == s[7] + 256 * s[6] + 65536 * s[5] + 16777216 * s[4] + 4294967296 * s[3]
            + 1099511627776 * s[2] + 281474976710656 * s[1] + 72057594037927936 * s[0],
{
    let b0 = s[0];
    let b1 = s[1];
    let b2 = s[2];
    let b3 = s[3];
    let b4 = s[4];
    let b5 = s[5];
    let b6 = s[6];
    let b7 = s[7];
    assert(((b7 as u64) | ((b6 as u64) << 8u64) | ((b5 as u64) << 16u64) | ((b4 as u64) << 24u64)
        | ((b3 as u64) << 32u64) | ((b2 as u64) << 40u64) | ((b1 as u64) << 48u64) | ((
    b0 as u64) << 56u64)) == b7 + 256 * b6 + 65536 * b5 + 16777216 * b4 + 4294967296 * b3
        + 1099511627776 * b2 + 281474976710656 * b1 + 72057594037927936 * b0) by (bit_vector);
}

/// The little-endian bytes of `v` are its base-256 digits, lowest first.
pub proof fn lemma_u16_le_bytes_value(v: u16)
    ensures
        u16_le_bytes(v).len() == 2,
        u16_le_bytes(v)[0] + 256 * u16_le_bytes(v)[1] == v,
{
    lemma_u16_le_roundtrip(v);
    lemma_u16_from_le_value(u16_le_bytes(v));
}

/// The little-endian bytes of `v` are its base-256 digits, lowest first.
pub proof fn lemma_u32_le_bytes_value(v: u32)
    ensures
        u32_le_bytes(v).len() == 4,
        u32_le_bytes(v)[0] + 256 * u32_le_bytes(v)[1] + 65536 * u32_le_bytes(v)[2] + 16777216
            * u32_le_bytes(v)[3] == v,
{
    lemma_u32_le_roundtrip(v);
    lemma_u32_from_le_value(u32_le_bytes(v));
}

/// The little-endian bytes of `v` are its base-256 digits, lowest first.
pub proof fn lemma_u64_le_bytes_value(v: u64)
    ensures
        u64_le_bytes(v).len() == 8,
        ({
            let b = u64_le_bytes(v);
            b[0] + 256 * b[1] + 65536 * b[2] + 16777216 * b[3] + 4294967296 * b[4] + 1099511627776
                * b[5] + 281474976710656 * b[6] + 72057594037927936 * b[7] == v
        }),
{
    lemma_u64_le_roundtrip(v);
    lemma_u64_from_le_value(u64_le_bytes(v));
}

/// The big-endian bytes of `v` are its base-256 digits, highest first.
pub proof fn lemma_u32_be_bytes_value(v: u32)
    ensures
        u32_be_bytes(v).len() == 4,
        u32_be_bytes(v)[3] + 256 * u32_be_bytes(v)[2] + 65536 * u32_be_bytes(v)[1] + 16777216
            * u32_be_bytes(v)[0] == v,
{
    lemma_u32_be_roundtrip(v);
    lemma_u32_from_be_value(u32_be_bytes(v));
}

/// The big-endian bytes of `v` are its base-256 digits, highest first.
pub proof fn lemma_u64_be_bytes_value(v: u64)
    ensures
        u64_be_bytes(v).len() == 8,
        ({
            let b = u64_be_bytes(v);
            b[7] + 256 * b[6] + 65536 * b[5] + 16777216 * b[4] + 4294967296 * b[3] + 1099511627776
                * b[2] + 281474976710656 * b[1] + 72057594037927936 * b[0] == v
        }),
{
    lemma_u64_be_roundtrip(v);
    lemma_u64_from_be_value(u64_be_bytes(v));
}

} // verus!
