//! Montgomery and Barrett reduction modulo q = 3329.
use vstd::prelude::*;

use crate::mlkem::params::KYBER_Q;

verus! {

/// 2^16 mod q, centered.
pub const MONT: i16 = -1044;

/// q^-1 mod 2^16, centered.
pub const QINV: i16 = -3327;

/// `x` and `y` are congruent modulo q.
pub open spec fn cong(x: int, y: int) -> bool {
    (x - y) % 3329 == 0
}

/// The representative of `x` modulo q in `[-(q-1)/2, (q-1)/2]`.
pub open spec fn centered(x: int) -> int {
    let m = x % 3329;
    if m > 1664 {
        m - 3329
    } else {
        m
    }
}

/// The signed 16-bit multiple of q that Montgomery reduction subtracts from `a`:
/// `a * q^-1` reduced to 16 bits.
pub open spec fn mont_t(a: i32) -> i16 {
    ((a as i16) as i32 * (-3327i32)) as i16
}

proof fn lemma_montgomery_bits(a: i32, t: i16, x: i32)
    by (bit_vector)
    requires
        -109084672 <= a < 109084672,
        t == ((a as i16) as i32 * (-3327i32)) as i16,
        x == (a - (t as i32) * 3329) as i32,
    ensures
        -218169344 < a - (t as i32) * 3329 < 218169344,
        (x >> 16u32) * 65536 == x,
{
}

/// Montgomery reduction: for `a` in `[-q*2^15, q*2^15)`, the `r` with `r * 2^16 = a` mod q and
/// `-q < r < q`.
pub fn montgomery_reduce(a: i32) -> (r: i16)
    requires
        -109084672 <= a < 109084672,
    ensures
        -3329 < r < 3329,
        cong(r * 65536, a as int),
        r * 65536 == a - mont_t(a) * 3329,
{
    let t: i16 = (a as i16).wrapping_mul(QINV);
    proof {
        assert(t == ((a as i16) as i32 * (-3327i32)) as i16) by (bit_vector)
            requires
                t == (a as i16).wrapping_mul(-3327i16),
        ;
        lemma_montgomery_bits(a, t, (a - (t as i32) * 3329) as i32);
    }
    let x: i32 = a - (t as i32) * KYBER_Q;
    let r32: i32 = x >> 16u32;
    proof {
        assert(r32 * 65536 == x);
        assert((r32 * 65536 - a) == -(t as int) * 3329);
        assert((-(t as int) * 3329) % 3329 == 0) by (nonlinear_arith);
    }
    r32 as i16
}

/// `((1 << 26) + q / 2) / q`, the Barrett multiplier.
pub const BARRETT_V: i32 = 20159;

/// `1 << 25`, for rounding.
pub const BARRETT_HALF: i32 = 33554432;

proof fn lemma_barrett_bits(a: i16, t: i32)
    by (bit_vector)
    requires
        t == ((20159i32 * (a as i32) + 33554432i32) as i32) >> 26u32,
    ensures
        -1664 <= a - t * 3329 <= 1664,
        -10 <= t <= 10,
{
}

proof fn lemma_centered_unique(x: int, r: int, t: int)
    requires
        -1664 <= r <= 1664,
        r == x - t * 3329,
    ensures
        r == centered(x),
{
    assert(x == t * 3329 + r);
    if r >= 0 {
        assert((t * 3329 + r) % 3329 == r) by (nonlinear_arith)
            requires
                0 <= r < 3329,
        ;
    } else {
        assert((t * 3329 + r) % 3329 == r + 3329) by (nonlinear_arith)
            requires
                -3329 < r < 0,
        ;
    }
}

/// Barrett reduction: the representative of `a` modulo q in `[-(q-1)/2, (q-1)/2]`.
pub fn barrett_reduce(a: i16) -> (r: i16)
    ensures
        r == centered(a as int),
        -1664 <= r <= 1664,
        cong(r as int, a as int),
{
    let t: i32 = (BARRETT_V * (a as i32) + BARRETT_HALF) >> 26u32;
    proof {
        lemma_barrett_bits(a, t);
        lemma_centered_unique(a as int, a - t * 3329, t as int);
        assert((a - (a - t * 3329)) % 3329 == 0) by (nonlinear_arith)
            requires
                (a - (a - t * 3329)) == t * 3329,
        ;
    }
    (a as i32 - t * KYBER_Q) as i16
}


/// The centered representative is congruent to `x`.
pub proof fn lemma_centered_cong_x(x: int)
    ensures
        cong(centered(x), x),
        -1664 <= centered(x) <= 1664,
{
    vstd::arithmetic::div_mod::lemma_fundamental_div_mod(x, 3329);
    let m = x % 3329;
    let k = x / 3329;
    assert(x == 3329 * k + m);
    if m > 1664 {
        assert(centered(x) - x == -(k + 1) * 3329);
        vstd::arithmetic::div_mod::lemma_mod_multiples_basic(-(k + 1), 3329);
    } else {
        assert(centered(x) - x == -k * 3329);
        vstd::arithmetic::div_mod::lemma_mod_multiples_basic(-k, 3329);
    }
}
} // verus!
