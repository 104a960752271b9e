//! Single-coefficient arithmetic: normalisation, compression and decompression.
use vstd::prelude::*;

verus! {

/// `c` modulo q, in `[0, q)`.
pub open spec fn modq(c: int) -> int {
    c % 3329
}

/// FIPS 203 Compress_d: `round(2^d / q * x) mod 2^d` for `x = c mod q`.
pub open spec fn compress_d(c: int, d: nat) -> int {
    ((vstd::arithmetic::power2::pow2(d) * modq(c) + 1664) / 3329) % (vstd::arithmetic::power2::pow2(
        d,
    ) as int)
}

/// FIPS 203 Decompress_d: `round(q / 2^d * y)`.
pub open spec fn decompress_d(y: int, d: nat) -> int {
    (y * 3329 + vstd::arithmetic::power2::pow2(d) / 2) / (vstd::arithmetic::power2::pow2(d) as int)
}

/// The constant-time steps of normalisation and compression, as bit-level facts.
proof fn lemma_coeff_bits(c: i16, w: u32, s: i16, s2: u32)
    by (bit_vector)
    requires
        -3329 < c < 3329,
        w < 3329,
        -1664 <= s <= 3328,
        s2 == if s < 0 {
            (s + 3329i16) as u32
        } else {
            s as u32
        },
    ensures
        (c >> 15u16) & 3329i16 == if c < 0 {
            3329i16
        } else {
            0i16
        },
        (c + ((c >> 15u16) & 3329i16)) as i16 == if c < 0 {
            (c + 3329i16) as i16
        } else {
            c
        },
        (((((16u32 * w + 1665u32) as u32) as u64 * 80635u64) as u32) >> 28u32) == (((16u32 * w
            + 1664u32) as u32 / 3329u32) % 16u32) as u32,
        ((((((s as u32) << 1u32) as u64 + 1665u64) * 80635u64) as u32) >> 28u32) & 1u32 == (((2u32
            * s2 + 1664u32) as u32 / 3329u32) % 2u32) as u32,
{
}

proof fn lemma_c10_bits(v: u64)
    by (bit_vector)
    requires
        v < 3329u64,
    ensures
        (((((1024u64 * v + 1665u64) as u64) * 1290167u64) as u64 >> 32u64) & 0x3ffu64) == (((1024u64 * v
            + 1664u64) as u64) / 3329u64) % 1024u64,
{
}

proof fn lemma_pow2_small()
    ensures
        vstd::arithmetic::power2::pow2(1) == 2,
        vstd::arithmetic::power2::pow2(4) == 16,
        vstd::arithmetic::power2::pow2(10) == 1024,
{
    vstd::arithmetic::power2::lemma2_to64();
}

/// `c` modulo q, in constant time, for `-q < c < q`.
pub fn normalize(c: i16) -> (r: i16)
    requires
        -3329 < c < 3329,
    ensures
        r == modq(c as int),
        0 <= r < 3329,
{
    proof {
        lemma_coeff_bits(c, 0, 0, 0);
    }
    c + ((c >> 15u16) & (3329i16))
}

/// Compress_4 of one coefficient in `(-q, q)`.
pub fn compress4(c: i16) -> (r: u8)
    requires
        -3329 < c < 3329,
    ensures
        r == compress_d(c as int, 4),
        r < 16,
{
    let u = normalize(c);
    let w: u32 = u as u32;
    let d0: u32 = ((((16 * w + 1665) as u64) * 80635u64) as u32) >> 28u32;
    proof {
        lemma_coeff_bits(0, w, 0, 0);
        lemma_pow2_small();
    }
    d0 as u8
}

/// Compress_1 of one coefficient in `[-(q-1)/2, q-1]`: the message bit it carries.
pub fn compress1(c: i16) -> (r: u8)
    requires
        -1664 <= c <= 3328,
    ensures
        r == compress_d(c as int, 1),
        r < 2,
{
    let ghost s2: u32 = if c < 0 {
        (c + 3329i16) as u32
    } else {
        c as u32
    };
    let t: u32 = ((((((c as u32) << 1u32) as u64) + 1665u64) * 80635u64) as u32) >> 28u32;
    proof {
        lemma_coeff_bits(0, 0, c, s2);
        lemma_pow2_small();
        assert(s2 == modq(c as int));
    }
    (t & 1u32) as u8
}

/// Compress_10 of one coefficient in `(-q, q)`.
pub fn compress10(c: i16) -> (r: u16)
    requires
        -3329 < c < 3329,
    ensures
        r == compress_d(c as int, 10),
        r < 1024,
{
    let u = normalize(c);
    let v: u64 = u as u64;
    let d0: u64 = (1024 * v + 1665) * 1290167u64;
    proof {
        lemma_c10_bits(v);
        lemma_pow2_small();
    }
    ((d0 >> 32u64) & 0x3ffu64) as u16
}

/// Decompress_4 of a 4-bit value.
pub fn decompress4(y: u8) -> (r: i16)
    requires
        y < 16,
    ensures
        r == decompress_d(y as int, 4),
        0 <= r < 3329,
{
    let x: u32 = (y as u32) * 3329 + 8;
    proof {
        lemma_pow2_small();
        vstd::bits::lemma_u32_shr_is_div(x, 4);
    }
    (x >> 4u32) as i16
}

/// Decompress_10 of a 10-bit value.
pub fn decompress10(y: u16) -> (r: i16)
    requires
        y < 1024,
    ensures
        r == decompress_d(y as int, 10),
        0 <= r < 3329,
{
    let x: u32 = (y as u32) * 3329 + 512;
    proof {
        lemma_pow2_small();
        vstd::bits::lemma_u32_shr_is_div(x, 10);
    }
    (x >> 10u32) as i16
}


/// Decompress_4 of a 4-bit value lies in `[0, q)`.
pub proof fn lemma_decompress4_range(y: int)
    requires
        0 <= y < 16,
    ensures
        0 <= decompress_d(y, 4) < 3329,
{
    lemma_pow2_small();
}

/// Compress_1 is a bit.
pub proof fn lemma_compress1_range(c: int)
    ensures
        0 <= compress_d(c, 1) < 2,
{
    lemma_pow2_small();
}

/// Compressing a decompressed value gives it back: for `1 <= d <= 11` and every `y` below
/// `2^d`, `Compress_d(Decompress_d(y)) == y`.
pub proof fn lemma_decompress_compress(y: int, d: nat)
    requires
        1 <= d <= 11,
        0 <= y < vstd::arithmetic::power2::pow2(d),
    ensures
        compress_d(decompress_d(y, d), d) == y,
        0 <= decompress_d(y, d) < 3329,
{
    let p = vstd::arithmetic::power2::pow2(d) as int;
    vstd::arithmetic::power2::lemma_pow2_strictly_increases(d, 12);
    vstd::arithmetic::power2::lemma_pow2_unfold(d);
    vstd::arithmetic::power2::lemma2_to64();
    let h = p / 2;
    assert(p == 2 * h);
    assert(1 <= h <= 2048);
    let n = y * 3329 + h;
    let x = decompress_d(y, d);
    assert(x == n / p);
    vstd::arithmetic::div_mod::lemma_fundamental_div_mod(n, p);
    let r = n % p;
    assert(0 <= r < p) by {
        vstd::arithmetic::div_mod::lemma_mod_pos_bound(n, p);
    }
    assert(n == p * x + r);
    assert(p * x <= n);
    assert(y * 3329 <= (p - 1) * 3329) by (nonlinear_arith)
        requires
            y <= p - 1,
    ;
    assert((p - 1) * 3329 == 3329 * p - 3329) by (nonlinear_arith);
    let px = p * x;
    assert(-p < px && px < 3329 * p);
    assert(0 <= x && x < 3329) by (nonlinear_arith)
        requires
            px == p * x,
            -p < px,
            px < 3329 * p,
            p > 0,
    ;
    assert(modq(x) == x) by {
        vstd::arithmetic::div_mod::lemma_small_mod(x as nat, 3329);
    }
    let num = p * modq(x) + 1664;
    assert(y * 3329 <= num < y * 3329 + 3329);
    vstd::arithmetic::div_mod::lemma_fundamental_div_mod_converse(num, 3329, y, num - y * 3329);
    vstd::arithmetic::div_mod::lemma_small_mod(y as nat, p as nat);
}


/// Compress_1 is 1 exactly for the representatives in `[833, 2496]`, the ones nearer to q/2
/// than to 0.
pub proof fn lemma_compress1_threshold(c: int)
    ensures
        compress_d(c, 1) == (if 833 <= modq(c) <= 2496 { 1int } else { 0int }),
{
    vstd::arithmetic::power2::lemma2_to64();
    let x = modq(c);
    let num = 2 * x + 1664;
    if x <= 832 {
        vstd::arithmetic::div_mod::lemma_fundamental_div_mod_converse(num, 3329, 0, num);
    } else if x <= 2496 {
        vstd::arithmetic::div_mod::lemma_fundamental_div_mod_converse(num, 3329, 1, num - 3329);
    } else {
        vstd::arithmetic::div_mod::lemma_fundamental_div_mod_converse(num, 3329, 2, num - 6658);
    }
}

} // verus!
