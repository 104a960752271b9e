//! Big-endian encodings of 32- and 64-bit integers, as the wire formats use them.
use vstd::prelude::*;

verus! {

/// The four big-endian bytes of `v`.
pub open spec fn be32_bytes(v: u32) -> Seq<u8> {
    seq![(v >> 24u32) as u8, (v >> 16u32) as u8, (v >> 8u32) as u8, v as u8]
}

/// The value of the four big-endian bytes of `b` that start at `off`.
pub open spec fn be32_at(b: Seq<u8>, off: int) -> u32 {
    ((b[off] as u32) << 24u32) | ((b[off + 1] as u32) << 16u32) | ((b[off + 2] as u32) << 8u32) | (b[off
        + 3] as u32)
}

/// The eight big-endian bytes of `v`.
pub open spec fn be64_bytes(v: u64) -> Seq<u8> {
    seq![
        (v >> 56u64) as u8,
        (v >> 48u64) as u8,
        (v >> 40u64) as u8,
        (v >> 32u64) as u8,
        (v >> 24u64) as u8,
        (v >> 16u64) as u8,
        (v >> 8u64) as u8,
        v as u8,
    ]
}

/// The value of the eight big-endian bytes of `b` that start at `off`.
pub open spec fn be64_at(b: Seq<u8>, off: int) -> u64 {
    ((b[off] as u64) << 56u64) | ((b[off + 1] as u64) << 48u64) | ((b[off + 2] as u64) << 40u64) | ((
    b[off + 3] as u64) << 32u64) | ((b[off + 4] as u64) << 24u64) | ((b[off + 5] as u64) << 16u64)
        | ((b[off + 6] as u64) << 8u64) | (b[off + 7] as u64)
}

pub proof fn lemma_be32_value(v: u32)
    ensures
        be32_at(be32_bytes(v), 0) == v,
{
    let b = be32_bytes(v);
    assert(b[0] == (v >> 24u32) as u8 && b[1] == (v >> 16u32) as u8 && b[2] == (v >> 8u32) as u8
        && b[3] == v as u8);
    assert(((((v >> 24u32) as u8) as u32) << 24u32) | ((((v >> 16u32) as u8) as u32) << 16u32) | ((((v
        >> 8u32) as u8) as u32) << 8u32) | ((v as u8) as u32) == v) by (bit_vector);
}

pub proof fn lemma_be32_bytes(b: Seq<u8>, off: int)
    requires
        0 <= off,
        off + 4 <= b.len(),
    ensures
        be32_bytes(be32_at(b, off)) == b.subrange(off, off + 4),
{
    let (b0, b1, b2, b3) = (b[off], b[off + 1], b[off + 2], b[off + 3]);
    let v = be32_at(b, off);
    assert(v == ((b0 as u32) << 24u32) | ((b1 as u32) << 16u32) | ((b2 as u32) << 8u32) | (b3 as u32));
    assert((v >> 24u32) as u8 == b0 && (v >> 16u32) as u8 == b1 && (v >> 8u32) as u8 == b2 && v as u8
        == b3) by (bit_vector)
        requires
            v == ((b0 as u32) << 24u32) | ((b1 as u32) << 16u32) | ((b2 as u32) << 8u32) | (b3 as u32),
    ;
    assert(be32_bytes(v) =~= b.subrange(off, off + 4));
}

pub proof fn lemma_be64_value(v: u64)
    ensures
        be64_at(be64_bytes(v), 0) == v,
{
    let b = be64_bytes(v);
    assert(b[0] == (v >> 56u64) as u8 && b[1] == (v >> 48u64) as u8 && b[2] == (v >> 40u64) as u8
        && b[3] == (v >> 32u64) as u8 && b[4] == (v >> 24u64) as u8 && b[5] == (v >> 16u64) as u8
        && b[6] == (v >> 8u64) as u8 && b[7] == v as u8);
    assert(((((v >> 56u64) as u8) as u64) << 56u64) | ((((v >> 48u64) as u8) as u64) << 48u64) | ((((v
        >> 40u64) as u8) as u64) << 40u64) | ((((v >> 32u64) as u8) as u64) << 32u64) | ((((v
        >> 24u64) as u8) as u64) << 24u64) | ((((v >> 16u64) as u8) as u64) << 16u64) | ((((v
        >> 8u64) as u8) as u64) << 8u64) | ((v as u8) as u64) == v) by (bit_vector);
}

pub proof fn lemma_be64_bytes(b: Seq<u8>, off: int)
    requires
        0 <= off,
        off + 8 <= b.len(),
    ensures
        be64_bytes(be64_at(b, off)) == b.subrange(off, off + 8),
{
    let (b0, b1, b2, b3) = (b[off], b[off + 1], b[off + 2], b[off + 3]);
    let (b4, b5, b6, b7) = (b[off + 4], b[off + 5], b[off + 6], b[off + 7]);
    let v = be64_at(b, off);
    assert(v == ((b0 as u64) << 56u64) | ((b1 as u64) << 48u64) | ((b2 as u64) << 40u64) | ((b3 as u64)
        << 32u64) | ((b4 as u64) << 24u64) | ((b5 as u64) << 16u64) | ((b6 as u64) << 8u64) | (b7 as u64));
    assert((v >> 56u64) as u8 == b0 && (v >> 48u64) as u8 == b1 && (v >> 40u64) as u8 == b2 && (v
        >> 32u64) as u8 == b3 && (v >> 24u64) as u8 == b4 && (v >> 16u64) as u8 == b5 && (v >> 8u64)
        as u8 == b6 && v as u8 == b7) by (bit_vector)
        requires
            v == ((b0 as u64) << 56u64) | ((b1 as u64) << 48u64) | ((b2 as u64) << 40u64) | ((b3
                as u64) << 32u64) | ((b4 as u64) << 24u64) | ((b5 as u64) << 16u64) | ((b6 as u64)
                << 8u64) | (b7 as u64),
    ;
    assert(be64_bytes(v) =~= b.subrange(off, off + 8));
}

} // verus!
