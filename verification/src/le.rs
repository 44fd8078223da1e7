use vstd::prelude::*;

verus! {

/// The four little-endian bytes of a 32-bit word.
pub open spec fn u32_le(x: u32) -> Seq<u8> {
    seq![
        (x & 0xff) as u8,
        ((x >> 8u32) & 0xff) as u8,
        ((x >> 16u32) & 0xff) as u8,
        ((x >> 24u32) & 0xff) as u8,
    ]
}

/// The 32-bit word whose little-endian bytes are the first four of `s`.
pub open spec fn le_u32(s: Seq<u8>) -> u32 {
    (s[0] as u32) | ((s[1] as u32) << 8u32) | ((s[2] as u32) << 16u32) | ((s[3] as u32) << 24u32)
}

/// The eight little-endian bytes of a 64-bit word.
pub open spec fn u64_le(x: u64) -> Seq<u8> {
    seq![
        (x & 0xff) as u8,
        ((x >> 8u64) & 0xff) as u8,
        ((x >> 16u64) & 0xff) as u8,
        ((x >> 24u64) & 0xff) as u8,
        ((x >> 32u64) & 0xff) as u8,
        ((x >> 40u64) & 0xff) as u8,
        ((x >> 48u64) & 0xff) as u8,
        ((x >> 56u64) & 0xff) as u8,
    ]
}

/// The 64-bit word whose little-endian bytes are the first eight of `s`.
pub open spec fn le_u64(s: Seq<u8>) -> u64 {
    (s[0] as u64) | ((s[1] as u64) << 8u64) | ((s[2] as u64) << 16u64) | ((s[3] as u64) << 24u64)
        | ((s[4] as u64) << 32u64) | ((s[5] as u64) << 40u64) | ((s[6] as u64) << 48u64)
        | ((s[7] as u64) << 56u64)
}

/// Little-endian bytes of a signed 64-bit value (two's complement).
pub open spec fn i64_le(x: i64) -> Seq<u8> {
    u64_le(x as u64)
}

/// The signed 64-bit value whose little-endian bytes start `s`.
pub open spec fn le_i64(s: Seq<u8>) -> i64 {
    le_u64(s) as i64
}

proof fn lemma_u32_bytes(x: u32, b0: u8, b1: u8, b2: u8, b3: u8)
    requires
        b0 == (x & 0xff) as u8,
        b1 == ((x >> 8u32) & 0xff) as u8,
        b2 == ((x >> 16u32) & 0xff) as u8,
        b3 == ((x >> 24u32) & 0xff) as u8,
    ensures
        (b0 as u32) | ((b1 as u32) << 8u32) | ((b2 as u32) << 16u32) | ((b3 as u32) << 24u32) == x,
{
    assert((b0 as u32) | ((b1 as u32) << 8u32) | ((b2 as u32) << 16u32) | ((b3 as u32) << 24u32)
        == x) by (bit_vector)
        requires
            b0 == (x & 0xff) as u8,
            b1 == ((x >> 8u32) & 0xff) as u8,
            b2 == ((x >> 16u32) & 0xff) as u8,
            b3 == ((x >> 24u32) & 0xff) as u8,
    ;
}

proof fn lemma_bytes_u32(x: u32, b0: u8, b1: u8, b2: u8, b3: u8)
    requires
        x == (b0 as u32) | ((b1 as u32) << 8u32) | ((b2 as u32) << 16u32) | ((b3 as u32) << 24u32),
    ensures
        b0 == (x & 0xff) as u8,
        b1 == ((x >> 8u32) & 0xff) as u8,
        b2 == ((x >> 16u32) & 0xff) as u8,
        b3 == ((x >> 24u32) & 0xff) as u8,
{
    assert(b0 == (x & 0xff) as u8 && b1 == ((x >> 8u32) & 0xff) as u8 && b2 == ((x >> 16u32)
        & 0xff) as u8 && b3 == ((x >> 24u32) & 0xff) as u8) by (bit_vector)
        requires
            x == (b0 as u32) | ((b1 as u32) << 8u32) | ((b2 as u32) << 16u32) | ((b3 as u32)
                << 24u32),
    ;
}

/// Decoding the encoding of a 32-bit word gives the word back.
pub proof fn lemma_le_u32_of_u32_le(x: u32)
    ensures
        u32_le(x).len() == 4,
        le_u32(u32_le(x)) == x,
{
    let s = u32_le(x);
    lemma_u32_bytes(x, s[0], s[1], s[2], s[3]);
}

/// Encoding the decoding of four bytes gives the bytes back.
pub proof fn lemma_u32_le_of_le_u32(s: Seq<u8>)
    requires
        s.len() == 4,
    ensures
        u32_le(le_u32(s)) == s,
{
    lemma_bytes_u32(le_u32(s), s[0], s[1], s[2], s[3]);
    assert(u32_le(le_u32(s)) =~= s);
}

proof fn lemma_u64_bytes(x: u64, b0: u8, b1: u8, b2: u8, b3: u8, b4: u8, b5: u8, b6: u8, b7: u8)
    requires
        b0 == (x & 0xff) as u8,
        b1 == ((x >> 8u64) & 0xff) as u8,
        b2 == ((x >> 16u64) & 0xff) as u8,
        b3 == ((x >> 24u64) & 0xff) as u8,
        b4 == ((x >> 32u64) & 0xff) as u8,
        b5 == ((x >> 40u64) & 0xff) as u8,
        b6 == ((x >> 48u64) & 0xff) as u8,
        b7 == ((x >> 56u64) & 0xff) as u8,
    ensures
        (b0 as u64) | ((b1 as u64) << 8u64) | ((b2 as u64) << 16u64) | ((b3 as u64) << 24u64) | ((
        b4 as u64) << 32u64) | ((b5 as u64) << 40u64) | ((b6 as u64) << 48u64) | ((b7 as u64)
            << 56u64) == x,
{
    assert((b0 as u64) | ((b1 as u64) << 8u64) | ((b2 as u64) << 16u64) | ((b3 as u64) << 24u64)
        | ((b4 as u64) << 32u64) | ((b5 as u64) << 40u64) | ((b6 as u64) << 48u64) | ((b7 as u64)
        << 56u64) == x) by (bit_vector)
        requires
            b0 == (x & 0xff) as u8,
            b1 == ((x >> 8u64) & 0xff) as u8,
            b2 == ((x >> 16u64) & 0xff) as u8,
            b3 == ((x >> 24u64) & 0xff) as u8,
            b4 == ((x >> 32u64) & 0xff) as u8,
            b5 == ((x >> 40u64) & 0xff) as u8,
            b6 == ((x >> 48u64) & 0xff) as u8,
            b7 == ((x >> 56u64) & 0xff) as u8,
    ;
}

proof fn lemma_bytes_u64(x: u64, b0: u8, b1: u8, b2: u8, b3: u8, b4: u8, b5: u8, b6: u8, b7: u8)
    requires
        x == (b0 as u64) | ((b1 as u64) << 8u64) | ((b2 as u64) << 16u64) | ((b3 as u64) << 24u64)
            | ((b4 as u64) << 32u64) | ((b5 as u64) << 40u64) | ((b6 as u64) << 48u64) | ((
        b7 as u64) << 56u64),
    ensures
        b0 == (x & 0xff) as u8,
        b1 == ((x >> 8u64) & 0xff) as u8,
        b2 == ((x >> 16u64) & 0xff) as u8,
        b3 == ((x >> 24u64) & 0xff) as u8,
        b4 == ((x >> 32u64) & 0xff) as u8,
        b5 == ((x >> 40u64) & 0xff) as u8,
        b6 == ((x >> 48u64) & 0xff) as u8,
        b7 == ((x >> 56u64) & 0xff) as u8,
{
    assert(b0 == (x & 0xff) as u8 && b1 == ((x >> 8u64) & 0xff) as u8 && b2 == ((x >> 16u64)
        & 0xff) as u8 && b3 == ((x >> 24u64) & 0xff) as u8 && b4 == ((x >> 32u64) & 0xff) as u8
        && b5 == ((x >> 40u64) & 0xff) as u8 && b6 == ((x >> 48u64) & 0xff) as u8 && b7 == ((x
        >> 56u64) & 0xff) as u8) by (bit_vector)
        requires
            x == (b0 as u64) | ((b1 as u64) << 8u64) | ((b2 as u64) << 16u64) | ((b3 as u64)
                << 24u64) | ((b4 as u64) << 32u64) | ((b5 as u64) << 40u64) | ((b6 as u64)
                << 48u64) | ((b7 as u64) << 56u64),
    ;
}

/// Decoding the encoding of a 64-bit word gives the word back.
pub proof fn lemma_le_u64_of_u64_le(x: u64)
    ensures
        u64_le(x).len() == 8,
        le_u64(u64_le(x)) == x,
{
    let s = u64_le(x);
    lemma_u64_bytes(x, s[0], s[1], s[2], s[3], s[4], s[5], s[6], s[7]);
}

/// Encoding the decoding of eight bytes gives the bytes back.
pub proof fn lemma_u64_le_of_le_u64(s: Seq<u8>)
    requires
        s.len() == 8,
    ensures
        u64_le(le_u64(s)) == s,
{
    lemma_bytes_u64(le_u64(s), s[0], s[1], s[2], s[3], s[4], s[5], s[6], s[7]);
    assert(u64_le(le_u64(s)) =~= s);
}

/// Decoding the encoding of a signed 64-bit value gives it back.
pub proof fn lemma_le_i64_of_i64_le(x: i64)
    ensures
        i64_le(x).len() == 8,
        le_i64(i64_le(x)) == x,
{
    lemma_le_u64_of_u64_le(x as u64);
    assert((x as u64) as i64 == x) by (bit_vector);
}

/// Appends the little-endian bytes of `x`.
pub fn push_u32_le(v: &mut Vec<u8>, x: u32)
    ensures
        final(v)@ == old(v)@ + u32_le(x),
{
    v.push((x & 0xff) as u8);
    v.push(((x >> 8u32) & 0xff) as u8);
    v.push(((x >> 16u32) & 0xff) as u8);
    v.push(((x >> 24u32) & 0xff) as u8);
    assert(final(v)@ =~= old(v)@ + u32_le(x));
}

/// Appends the little-endian bytes of `x`.
pub fn push_u64_le(v: &mut Vec<u8>, x: u64)
    ensures
        final(v)@ == old(v)@ + u64_le(x),
{
    v.push((x & 0xff) as u8);
    v.push(((x >> 8u64) & 0xff) as u8);
    v.push(((x >> 16u64) & 0xff) as u8);
    v.push(((x >> 24u64) & 0xff) as u8);
    v.push(((x >> 32u64) & 0xff) as u8);
    v.push(((x >> 40u64) & 0xff) as u8);
    v.push(((x >> 48u64) & 0xff) as u8);
    v.push(((x >> 56u64) & 0xff) as u8);
    assert(final(v)@ =~= old(v)@ + u64_le(x));
}

/// Reads a little-endian 32-bit word at `pos`.
pub fn read_u32_le(b: &[u8], pos: usize) -> (r: u32)
    requires
        pos + 4 <= b@.len(),
    ensures
        r == le_u32(b@.subrange(pos as int, pos + 4)),
{
    (b[pos] as u32) | ((b[pos + 1] as u32) << 8u32) | ((b[pos + 2] as u32) << 16u32) | ((b[pos
        + 3] as u32) << 24u32)
}

/// Reads a little-endian 64-bit word at `pos`.
pub fn read_u64_le(b: &[u8], pos: usize) -> (r: u64)
    requires
        pos + 8 <= b@.len(),
    ensures
        r == le_u64(b@.subrange(pos as int, pos + 8)),
{
    (b[pos] as u64) | ((b[pos + 1] as u64) << 8u64) | ((b[pos + 2] as u64) << 16u64) | ((b[pos
        + 3] as u64) << 24u64) | ((b[pos + 4] as u64) << 32u64) | ((b[pos + 5] as u64) << 40u64)
        | ((b[pos + 6] as u64) << 48u64) | ((b[pos + 7] as u64) << 56u64)
}

} // verus!
