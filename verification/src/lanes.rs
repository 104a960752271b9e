//! The byte view of the Keccak state: 25 little-endian 64-bit lanes are 200 bytes.
use vstd::prelude::*;

verus! {

/// Little-endian value of eight bytes.
pub open spec fn le64_of(b0: u8, b1: u8, b2: u8, b3: u8, b4: u8, b5: u8, b6: u8, b7: u8) -> u64 {
    (b0 as u64) | ((b1 as u64) << 8u64) | ((b2 as u64) << 16u64) | ((b3 as u64) << 24u64) | ((
    b4 as u64) << 32u64) | ((b5 as u64) << 40u64) | ((b6 as u64) << 48u64) | ((b7 as u64)
        << 56u64)
}

/// Little-endian value of the eight bytes of `b` that start at `off`.
pub open spec fn le64(b: Seq<u8>, off: int) -> u64 {
    le64_of(b[off], b[off + 1], b[off + 2], b[off + 3], b[off + 4], b[off + 5], b[off + 6], b[off + 7])
}

/// Byte `k` (0 = least significant) of a 64-bit word.
pub open spec fn byte_of(x: u64, k: int) -> u8 {
    (x >> ((8 * k) as u64)) as u8
}

/// The 200-byte view of a 25-lane state.
pub open spec fn lanes_to_bytes(s: Seq<u64>) -> Seq<u8> {
    Seq::new(200, |j: int| byte_of(s[j / 8], j % 8))
}

/// The 25-lane view of a 200-byte state.
pub open spec fn bytes_to_lanes(b: Seq<u8>) -> Seq<u64> {
    Seq::new(25, |i: int| le64(b, 8 * i))
}

/// Bytewise XOR of `m` into the front of `b`.
pub open spec fn xor_into(b: Seq<u8>, m: Seq<u8>) -> Seq<u8> {
    Seq::new(b.len(), |j: int| if j < m.len() { b[j] ^ m[j] } else { b[j] })
}

pub proof fn lemma_le64_byte(b0: u8, b1: u8, b2: u8, b3: u8, b4: u8, b5: u8, b6: u8, b7: u8)
    ensures
        byte_of(le64_of(b0, b1, b2, b3, b4, b5, b6, b7), 0) == b0,
        byte_of(le64_of(b0, b1, b2, b3, b4, b5, b6, b7), 1) == b1,
        byte_of(le64_of(b0, b1, b2, b3, b4, b5, b6, b7), 2) == b2,
        byte_of(le64_of(b0, b1, b2, b3, b4, b5, b6, b7), 3) == b3,
        byte_of(le64_of(b0, b1, b2, b3, b4, b5, b6, b7), 4) == b4,
        byte_of(le64_of(b0, b1, b2, b3, b4, b5, b6, b7), 5) == b5,
        byte_of(le64_of(b0, b1, b2, b3, b4, b5, b6, b7), 6) == b6,
        byte_of(le64_of(b0, b1, b2, b3, b4, b5, b6, b7), 7) == b7,
{
    let x = le64_of(b0, b1, b2, b3, b4, b5, b6, b7);
    assert((x >> 0u64) as u8 == b0) by (bit_vector)
        requires
            x == le64_of(b0, b1, b2, b3, b4, b5, b6, b7),
    ;
    assert((x >> 8u64) as u8 == b1) by (bit_vector)
        requires
            x == le64_of(b0, b1, b2, b3, b4, b5, b6, b7),
    ;
    assert((x >> 16u64) as u8 == b2) by (bit_vector)
        requires
            x == le64_of(b0, b1, b2, b3, b4, b5, b6, b7),
    ;
    assert((x >> 24u64) as u8 == b3) by (bit_vector)
        requires
            x == le64_of(b0, b1, b2, b3, b4, b5, b6, b7),
    ;
    assert((x >> 32u64) as u8 == b4) by (bit_vector)
        requires
            x == le64_of(b0, b1, b2, b3, b4, b5, b6, b7),
    ;
    assert((x >> 40u64) as u8 == b5) by (bit_vector)
        requires
            x == le64_of(b0, b1, b2, b3, b4, b5, b6, b7),
    ;
    assert((x >> 48u64) as u8 == b6) by (bit_vector)
        requires
            x == le64_of(b0, b1, b2, b3, b4, b5, b6, b7),
    ;
    assert((x >> 56u64) as u8 == b7) by (bit_vector)
        requires
            x == le64_of(b0, b1, b2, b3, b4, b5, b6, b7),
    ;
}

pub proof fn lemma_le64_of_bytes(x: u64)
    ensures
        le64_of(
            byte_of(x, 0),
            byte_of(x, 1),
            byte_of(x, 2),
            byte_of(x, 3),
            byte_of(x, 4),
            byte_of(x, 5),
            byte_of(x, 6),
            byte_of(x, 7),
        ) == x,
{
    assert(le64_of(
        (x >> 0u64) as u8,
        (x >> 8u64) as u8,
        (x >> 16u64) as u8,
        (x >> 24u64) as u8,
        (x >> 32u64) as u8,
        (x >> 40u64) as u8,
        (x >> 48u64) as u8,
        (x >> 56u64) as u8,
    ) == x) by (bit_vector);
}

/// XOR distributes over the bytes of a word.
pub proof fn lemma_byte_of_xor(x: u64, y: u64, k: int)
    requires
        0 <= k < 8,
    ensures
        byte_of(x ^ y, k) == byte_of(x, k) ^ byte_of(y, k),
{
    let s = (8 * k) as u64;
    assert(((x ^ y) >> s) as u8 == ((x >> s) as u8) ^ ((y >> s) as u8)) by (bit_vector);
}

/// Byte `k` of `b << 8j` is `b` when `k == j` and zero otherwise.
pub proof fn lemma_byte_of_shifted(b: u8, j: int, k: int)
    requires
        0 <= j < 8,
        0 <= k < 8,
    ensures
        byte_of(((b as u64) << ((8 * j) as u64)), k) == (if j == k { b } else { 0u8 }),
{
    let sj = (8 * j) as u64;
    let sk = (8 * k) as u64;
    assert(sj < 64 && sk < 64 && sj % 8 == 0 && sk % 8 == 0);
    assert(sj < 64 && sk < 64 && sj % 8 == 0 && sk % 8 == 0 ==> ((((b as u64) << sj) >> sk) as u8
        == (if sj == sk { b } else { 0u8 }))) by (bit_vector);
}

pub proof fn lemma_lanes_bytes_roundtrip(s: Seq<u64>)
    requires
        s.len() == 25,
    ensures
        bytes_to_lanes(lanes_to_bytes(s)) == s,
{
    let b = lanes_to_bytes(s);
    assert forall|i: int| 0 <= i < 25 implies #[trigger] bytes_to_lanes(b)[i] == s[i] by {
        assert(b[8 * i] == byte_of(s[i], 0));
        assert(b[8 * i + 1] == byte_of(s[i], 1));
        assert(b[8 * i + 2] == byte_of(s[i], 2));
        assert(b[8 * i + 3] == byte_of(s[i], 3));
        assert(b[8 * i + 4] == byte_of(s[i], 4));
        assert(b[8 * i + 5] == byte_of(s[i], 5));
        assert(b[8 * i + 6] == byte_of(s[i], 6));
        assert(b[8 * i + 7] == byte_of(s[i], 7));
        lemma_le64_of_bytes(s[i]);
    }
    assert(bytes_to_lanes(b) =~= s);
}

pub proof fn lemma_bytes_lanes_roundtrip(b: Seq<u8>)
    requires
        b.len() == 200,
    ensures
        lanes_to_bytes(bytes_to_lanes(b)) == b,
{
    let s = bytes_to_lanes(b);
    assert forall|j: int| 0 <= j < 200 implies #[trigger] lanes_to_bytes(s)[j] == b[j] by {
        let i = j / 8;
        let o = 8 * i;
        lemma_le64_byte(b[o], b[o + 1], b[o + 2], b[o + 3], b[o + 4], b[o + 5], b[o + 6], b[o + 7]);
    }
    assert(lanes_to_bytes(s) =~= b);
}

/// XOR of a little-endian word into lane `i` XORs its bytes into bytes `8i..8i+8`.
pub proof fn lemma_xor_lane(s: Seq<u64>, i: int, m: Seq<u8>, off: int)
    requires
        s.len() == 25,
        0 <= i < 25,
        0 <= off,
        off + 8 <= m.len(),
    ensures
        lanes_to_bytes(s.update(i, s[i] ^ le64(m, off))) == Seq::new(
            200,
            |j: int|
                if 8 * i <= j < 8 * i + 8 {
                    lanes_to_bytes(s)[j] ^ m[off + j - 8 * i]
                } else {
                    lanes_to_bytes(s)[j]
                },
        ),
{
    let t = s.update(i, s[i] ^ le64(m, off));
    let w = le64(m, off);
    lemma_le64_byte(m[off], m[off + 1], m[off + 2], m[off + 3], m[off + 4], m[off + 5], m[off + 6], m[off + 7]);
    assert forall|j: int| 0 <= j < 200 implies #[trigger] lanes_to_bytes(t)[j] == (if 8 * i <= j < 8
        * i + 8 {
        lanes_to_bytes(s)[j] ^ m[off + j - 8 * i]
    } else {
        lanes_to_bytes(s)[j]
    }) by {
        if 8 * i <= j < 8 * i + 8 {
            lemma_byte_of_xor(s[i], w, j % 8);
        }
    }
    assert(lanes_to_bytes(t) =~= Seq::new(
        200,
        |j: int|
            if 8 * i <= j < 8 * i + 8 {
                lanes_to_bytes(s)[j] ^ m[off + j - 8 * i]
            } else {
                lanes_to_bytes(s)[j]
            },
    ));
}

/// XOR of a single byte shifted into place changes exactly one byte of the state.
pub proof fn lemma_xor_byte(s: Seq<u64>, idx: int, v: u8)
    requires
        s.len() == 25,
        0 <= idx < 200,
    ensures
        lanes_to_bytes(s.update(idx / 8, s[idx / 8] ^ ((v as u64) << ((8 * (idx % 8)) as u64))))
            == lanes_to_bytes(s).update(idx, lanes_to_bytes(s)[idx] ^ v),
{
    let i = idx / 8;
    let w = (v as u64) << ((8 * (idx % 8)) as u64);
    let t = s.update(i, s[i] ^ w);
    assert forall|j: int| 0 <= j < 200 implies #[trigger] lanes_to_bytes(t)[j] == lanes_to_bytes(
        s,
    ).update(idx, lanes_to_bytes(s)[idx] ^ v)[j] by {
        if j / 8 == i {
            lemma_byte_of_xor(s[i], w, j % 8);
            lemma_byte_of_shifted(v, idx % 8, j % 8);
            let z = byte_of(s[i], j % 8);
            assert(z ^ 0u8 == z) by (bit_vector);
        }
    }
    assert(lanes_to_bytes(t) =~= lanes_to_bytes(s).update(idx, lanes_to_bytes(s)[idx] ^ v));
}

} // verus!
