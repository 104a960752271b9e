//! The number-theoretic transform over Z_q[X]/(X^256 + 1) and base multiplication.
use vstd::prelude::*;

use crate::mlkem::reduce::{barrett_reduce, cong, montgomery_reduce};

verus! {

/// The twiddle factors 17^brv7(k) * 2^16 mod q (centered), in bit-reversed order.
pub const ZETAS: [i16; 128] = [
    -1044, -758, -359, -1517, 1493, 1422, 287, 202,
    -171, 622, 1577, 182, 962, -1202, -1474, 1468,
    573, -1325, 264, 383, -829, 1458, -1602, -130,
    -681, 1017, 732, 608, -1542, 411, -205, -1571,
    1223, 652, -552, 1015, -1293, 1491, -282, -1544,
    516, -8, -320, -666, -1618, -1162, 126, 1469,
    -853, -90, -271, 830, 107, -1421, -247, -951,
    -398, 961, -1508, -725, 448, -1065, 677, -1275,
    -1103, 430, 555, 843, -1251, 871, 1550, 105,
    422, 587, 177, -235, -291, -460, 1574, 1653,
    -246, 778, 1159, -147, -777, 1483, -602, 1119,
    -1590, 644, -872, 349, 418, 329, -156, -75,
    817, 1097, 603, 610, 1322, -1285, -1465, 384,
    -1215, -136, 1218, -1335, -874, 220, -1187, -1659,
    -1185, -1530, -1278, 794, -1510, -854, -870, 478,
    -108, -308, 996, 991, 958, -1460, 1522, 1628,
];

/// Every twiddle factor lies in `[-(q-1)/2, (q-1)/2]`.
pub(crate) proof fn lemma_zetas_bounded()
    ensures
        forall|k: int| 0 <= k < 128 ==> -1664 <= #[trigger] ZETAS@[k] <= 1664,
{
}


/// 2^-16 mod q.
pub open spec fn rinv() -> int {
    169
}

/// The twiddle factor of index `k` as an element of Z_q (the Montgomery factor removed).
pub open spec fn twiddle(k: int) -> int {
    ZETAS@[k] * rinv()
}

/// One Cooley-Tukey layer with half-block length `len` on coefficients `f` (as integers,
/// meaningful modulo q): in block `b` with twiddle `k = 128/len + b`, `(x, y)` becomes
/// `(x + w*y, x - w*y)`.
pub open spec fn ntt_layer(f: Seq<int>, len: int) -> Seq<int> {
    Seq::new(
        256,
        |i: int|
            {
                let b = i / (2 * len);
                let p = i % (2 * len);
                let w = twiddle(128int / len + b);
                if p < len {
                    f[i] + w * f[i + len]
                } else {
                    f[i - len] - w * f[i]
                }
            },
    )
}

/// The layers of half-block length 128 down to (not including) `len` applied to `f`.
pub open spec fn ntt_upto(f: Seq<int>, len: int) -> Seq<int>
    decreases 256 - len,
{
    if len >= 128 || len < 1 {
        f
    } else {
        ntt_layer(ntt_upto(f, 2 * len), 2 * len)
    }
}

/// The forward transform of `f` (bit-reversed output order), modulo q.
pub open spec fn ntt_spec(f: Seq<int>) -> Seq<int> {
    ntt_upto(f, 1)
}

/// One Gentleman-Sande layer with half-block length `len`: in block `b` with twiddle
/// `k = 256/len - 1 - b`, `(x, y)` becomes `(x + y, w*(y - x))`.
pub open spec fn invntt_layer(f: Seq<int>, len: int) -> Seq<int> {
    Seq::new(
        256,
        |i: int|
            {
                let b = i / (2 * len);
                let p = i % (2 * len);
                let w = twiddle(256int / len - 1 - b);
                if p < len {
                    f[i] + f[i + len]
                } else {
                    w * (f[i] - f[i - len])
                }
            },
    )
}

/// The inverse layers of half-block length 2 up to (not including) `len` applied to `f`.
pub open spec fn invntt_upto(f: Seq<int>, len: int) -> Seq<int>
    decreases len,
{
    if len <= 2 || len > 256 {
        f
    } else {
        invntt_layer(invntt_upto(f, len / 2), len / 2)
    }
}

/// The inverse transform of `f` times the Montgomery factor 2^16, modulo q.
pub open spec fn invntt_spec(f: Seq<int>) -> Seq<int> {
    let g = invntt_upto(f, 256);
    Seq::new(256, |i: int| g[i] * 1441 * rinv())
}

/// The coefficients of `a` as integers.
pub open spec fn ints(a: Seq<i16>) -> Seq<int> {
    Seq::new(a.len(), |i: int| a[i] as int)
}

/// Montgomery multiplication: `a * b * 2^-16` modulo q.
pub fn fqmul(a: i16, b: i16) -> (r: i16)
    requires
        -109084672 <= a * b < 109084672,
    ensures
        -3329 < r < 3329,
        cong(r as int, a * b * rinv()),
        r * 65536 == a * b - crate::mlkem::reduce::mont_t((a * b) as i32) * 3329,
{
    let r = montgomery_reduce(a as i32 * b as i32);
    proof {
        lemma_cong_rinv(r as int, a * b);
    }
    r
}

proof fn lemma_cong_rinv(r: int, x: int)
    requires
        cong(r * 65536, x),
    ensures
        cong(r, x * rinv()),
{
    assert((r * 65536 - x) * 169 == r * 11075584 - x * 169) by (nonlinear_arith);
    assert(11075584 == 3327 * 3329 + 1);
    assert(r * 11075584 == r * 3327 * 3329 + r) by (nonlinear_arith);
    lemma_mod_mul_zero(r * 65536 - x, 169);
    lemma_mod_mul_zero(r * 3327, 3329);
    assert(((r * 65536 - x) * 169) % 3329 == 0);
    assert((r - x * 169) == (r * 65536 - x) * 169 - r * 3327 * 3329);
    lemma_mod_sub_zero((r * 65536 - x) * 169, r * 3327 * 3329);
}

pub(crate) proof fn lemma_mod_mul_zero(a: int, b: int)
    requires
        a % 3329 == 0 || b % 3329 == 0 || b == 3329,
    ensures
        (a * b) % 3329 == 0,
{
    if a % 3329 == 0 {
        vstd::arithmetic::div_mod::lemma_mul_mod_noop_left(a, b, 3329);
    } else if b == 3329 {
        vstd::arithmetic::div_mod::lemma_mod_multiples_basic(a, 3329);
    } else {
        vstd::arithmetic::div_mod::lemma_mul_mod_noop_right(a, b, 3329);
    }
}

pub(crate) proof fn lemma_mod_sub_zero(a: int, b: int)
    requires
        a % 3329 == 0,
        b % 3329 == 0,
    ensures
        (a - b) % 3329 == 0,
{
    vstd::arithmetic::div_mod::lemma_sub_mod_noop(a, b, 3329);
}

pub(crate) proof fn lemma_mod_add_zero(a: int, b: int)
    requires
        a % 3329 == 0,
        b % 3329 == 0,
    ensures
        (a + b) % 3329 == 0,
{
    vstd::arithmetic::div_mod::lemma_add_mod_noop(a, b, 3329);
}

/// `x1 + w*y1` and `x2 + w*y2` are congruent when `x1, x2` and `y1, y2` are.
proof fn lemma_cong_lin(x1: int, y1: int, x2: int, y2: int, w: int)
    requires
        cong(x1, x2),
        cong(y1, y2),
    ensures
        cong(x1 + w * y1, x2 + w * y2),
        cong(x1 - w * y1, x2 - w * y2),
        cong(x1 + y1, x2 + y2),
        cong(w * (y1 - x1), w * (y2 - x2)),
{
    lemma_mod_mul_zero(y1 - y2, w);
    assert((y1 - y2) * w == w * y1 - w * y2) by (nonlinear_arith);
    lemma_mod_add_zero(x1 - x2, w * y1 - w * y2);
    assert((x1 + w * y1) - (x2 + w * y2) == (x1 - x2) + (w * y1 - w * y2));
    lemma_mod_sub_zero(x1 - x2, w * y1 - w * y2);
    assert((x1 - w * y1) - (x2 - w * y2) == (x1 - x2) - (w * y1 - w * y2));
    lemma_mod_add_zero(x1 - x2, y1 - y2);
    lemma_mod_sub_zero(y1 - y2, x1 - x2);
    lemma_mod_mul_zero((y1 - x1) - (y2 - x2), w);
    assert(((y1 - x1) - (y2 - x2)) * w == w * (y1 - x1) - w * (y2 - x2)) by (nonlinear_arith);
}

pub(crate) proof fn lemma_cong_trans(a: int, b: int, c: int)
    requires
        cong(a, b),
        cong(b, c),
    ensures
        cong(a, c),
{
    lemma_mod_add_zero(a - b, b - c);
}

/// Block and position of index `start + p` in blocks of `2 * len`.
proof fn lemma_block(blk: int, len: int, p: int)
    requires
        blk >= 0,
        len > 0,
        0 <= p < 2 * len,
    ensures
        (blk * (2 * len) + p) / (2 * len) == blk,
        (blk * (2 * len) + p) % (2 * len) == p,
{
    vstd::arithmetic::div_mod::lemma_fundamental_div_mod_converse(blk * (2 * len) + p, 2 * len, blk, p);
}

/// `x * y * rinv` regrouped as `(x * rinv) * y`.
proof fn lemma_regroup(x: int, y: int)
    ensures
        x * y * rinv() == (x * rinv()) * y,
{
    assert(x * y * 169 == (x * 169) * y) by (nonlinear_arith);
}

/// One Cooley-Tukey block: butterflies on `[start, start + len)` and `[start + len,
/// start + 2*len)` with twiddle `zeta`.
fn ntt_block(r: &mut [i16; 256], start: usize, len: usize, zeta: i16, Ghost(b): Ghost<int>)
    requires
        1 <= len,
        start + 2 * len <= 256,
        -1664 <= zeta <= 1664,
        0 <= b,
        b + 3328 <= 32767,
        forall|i: int| start <= i < start + 2 * len ==> -b <= #[trigger] old(r)@[i] <= b,
    ensures
        forall|i: int|
            0 <= i < 256 ==> if start <= i < start + len {
                cong(#[trigger] final(r)@[i] as int, old(r)@[i] + (zeta * rinv()) * old(r)@[i + len])
                    && -(b + 3328) <= final(r)@[i] <= b + 3328
            } else if start + len <= i < start + 2 * len {
                cong(final(r)@[i] as int, old(r)@[i - len] - (zeta * rinv()) * old(r)@[i])
                    && -(b + 3328) <= final(r)@[i] <= b + 3328
            } else {
                final(r)@[i] == old(r)@[i]
            },
{
    let ghost r0 = r@;
    let ghost w = zeta * rinv();
    let end = start + len;
    let mut j = start;
    while j < end
        invariant
            start <= j <= end,
            end == start + len,
            end + len <= 256,
            -1664 <= zeta <= 1664,
            w == zeta * rinv(),
            0 <= b,
            b + 3328 <= 32767,
            forall|i: int| start <= i < start + 2 * len ==> -b <= #[trigger] r0[i] <= b,
            forall|i: int|
                0 <= i < 256 ==> if start <= i < j {
                    cong(#[trigger] r@[i] as int, r0[i] + w * r0[i + len]) && -(b + 3328) <= r@[i] <= b
                        + 3328
                } else if end <= i < j + len {
                    cong(r@[i] as int, r0[i - len] - w * r0[i]) && -(b + 3328) <= r@[i] <= b + 3328
                } else {
                    r@[i] == r0[i]
                },
        decreases end - j,
    {
        let x = r[j];
        let y = r[j + len];
        assert(x == r0[j as int] && y == r0[j + len]);
        assert(-109084672 <= zeta * y < 109084672) by (nonlinear_arith)
            requires
                -1664 <= zeta <= 1664,
                -32768 <= y <= 32767,
        ;
        let t = fqmul(zeta, y);
        proof {
            lemma_regroup(zeta as int, y as int);
            assert(cong(t as int, w * y));
            assert(cong(x as int, x as int)) by {
                assert((x - x) % 3329 == 0);
            }
            lemma_cong_lin(x as int, t as int, x as int, w * y, 1);
            assert(1 * (t as int) == t as int);
            assert(1 * (w * y) == w * y);
        }
        r[j + len] = x - t;
        r[j] = x + t;
        j = j + 1;
    }
}

/// The bound on coefficients after the forward layers down to half-block length `len`.
pub open spec fn ntt_bound(len: int) -> int {
    if len == 128 {
        3328
    } else if len == 64 {
        6656
    } else if len == 32 {
        9984
    } else if len == 16 {
        13312
    } else if len == 8 {
        16640
    } else if len == 4 {
        19968
    } else if len == 2 {
        23296
    } else {
        26624
    }
}

/// `len` is a half-block length of some layer.
pub open spec fn layer_len(len: int) -> bool {
    len == 128 || len == 64 || len == 32 || len == 16 || len == 8 || len == 4 || len == 2 || len
        == 1
}

/// A pointwise congruence between an array and integer coefficients.
pub open spec fn cong_all(a: Seq<i16>, f: Seq<int>) -> bool {
    a.len() == 256 && f.len() == 256 && forall|i: int| 0 <= i < 256 ==> cong(#[trigger] a[i] as int, f[i])
}

/// Every coefficient lies in `[-b, b]`.
pub open spec fn bounded(a: Seq<i16>, b: int) -> bool {
    forall|i: int| 0 <= i < a.len() ==> -b <= #[trigger] a[i] <= b
}

/// A layer applied to congruent coefficients gives congruent coefficients.
proof fn lemma_layer_cong(a: Seq<int>, f: Seq<int>, len: int)
    requires
        layer_len(len),
        len >= 1,
        a.len() == 256,
        f.len() == 256,
        forall|i: int| 0 <= i < 256 ==> cong(#[trigger] a[i], f[i]),
    ensures
        forall|i: int| 0 <= i < 256 ==> cong(#[trigger] ntt_layer(a, len)[i], ntt_layer(f, len)[i]),
        forall|i: int| 0 <= i < 256 ==> cong(#[trigger] invntt_layer(a, len)[i], invntt_layer(f, len)[i]),
{
    assert forall|i: int| 0 <= i < 256 implies cong(#[trigger] ntt_layer(a, len)[i], ntt_layer(f, len)[i]) by {
        let p = i % (2 * len);
        let w = twiddle(128int / len + i / (2 * len));
        lemma_layer_index(i, len);
        if p < len {
            lemma_cong_lin(a[i], a[i + len], f[i], f[i + len], w);
        } else {
            lemma_cong_lin(a[i - len], a[i], f[i - len], f[i], w);
        }
    }
    assert forall|i: int| 0 <= i < 256 implies cong(#[trigger] invntt_layer(a, len)[i], invntt_layer(f, len)[i]) by {
        let p = i % (2 * len);
        let w = twiddle(256int / len - 1 - i / (2 * len));
        lemma_layer_index(i, len);
        if p < len {
            lemma_cong_lin(a[i], a[i + len], f[i], f[i + len], w);
        } else {
            lemma_cong_lin(a[i - len], a[i], f[i - len], f[i], w);
        }
    }
}

/// The partner of index `i` in its block lies within the 256 coefficients.
proof fn lemma_layer_index(i: int, len: int)
    requires
        layer_len(len),
        0 <= i < 256,
    ensures
        i % (2 * len) < len ==> i + len < 256,
        i % (2 * len) >= len ==> i - len >= 0,
        0 <= i / (2 * len) < 256int / (2 * len),
{
    if len == 128 {
        vstd::arithmetic::div_mod::lemma_fundamental_div_mod(i, 256);
        vstd::arithmetic::div_mod::lemma_mod_pos_bound(i, 256);
        assert(256int / 256 == 1);
    } else if len == 64 {
        vstd::arithmetic::div_mod::lemma_fundamental_div_mod(i, 128);
        vstd::arithmetic::div_mod::lemma_mod_pos_bound(i, 128);
        assert(256int / 128 == 2);
    } else if len == 32 {
        vstd::arithmetic::div_mod::lemma_fundamental_div_mod(i, 64);
        vstd::arithmetic::div_mod::lemma_mod_pos_bound(i, 64);
        assert(256int / 64 == 4);
    } else if len == 16 {
        vstd::arithmetic::div_mod::lemma_fundamental_div_mod(i, 32);
        vstd::arithmetic::div_mod::lemma_mod_pos_bound(i, 32);
        assert(256int / 32 == 8);
    } else if len == 8 {
        vstd::arithmetic::div_mod::lemma_fundamental_div_mod(i, 16);
        vstd::arithmetic::div_mod::lemma_mod_pos_bound(i, 16);
        assert(256int / 16 == 16);
    } else if len == 4 {
        vstd::arithmetic::div_mod::lemma_fundamental_div_mod(i, 8);
        vstd::arithmetic::div_mod::lemma_mod_pos_bound(i, 8);
        assert(256int / 8 == 32);
    } else if len == 2 {
        vstd::arithmetic::div_mod::lemma_fundamental_div_mod(i, 4);
        vstd::arithmetic::div_mod::lemma_mod_pos_bound(i, 4);
        assert(256int / 4 == 64);
    } else if len == 1 {
        vstd::arithmetic::div_mod::lemma_fundamental_div_mod(i, 2);
        vstd::arithmetic::div_mod::lemma_mod_pos_bound(i, 2);
        assert(256int / 2 == 128);
    }
}


/// One forward layer with half-block length `len` over all 256 coefficients.
fn ntt_layer_exec(r: &mut [i16; 256], len: usize, Ghost(b): Ghost<int>)
    requires
        layer_len(len as int),
        len >= 2,
        0 <= b,
        b + 3328 <= 32767,
        bounded(old(r)@, b),
    ensures
        cong_all(final(r)@, ntt_layer(ints(old(r)@), len as int)),
        bounded(final(r)@, b + 3328),
{
    let ghost r0 = r@;
    let ghost f = ints(r0);
    let mut k: usize = 128 / len;
    let mut start: usize = 0;
    let ghost mut blk: int = 0;
    proof {
        lemma_layer_index(0, len as int);
    }
    while start < 256
        invariant
            layer_len(len as int),
            len >= 2,
            0 <= b,
            b + 3328 <= 32767,
            bounded(r0, b),
            f == ints(r0),
            r0.len() == 256,
            0 <= blk <= 256int / (2 * len as int),
            start == blk * (2 * len),
            k == 128int / (len as int) + blk,
            forall|i: int|
                0 <= i < start ==> cong(#[trigger] r@[i] as int, ntt_layer(f, len as int)[i]) && -(b
                    + 3328) <= r@[i] <= b + 3328,
            forall|i: int| start <= i < 256 ==> #[trigger] r@[i] == r0[i],
        decreases 256 - start,
    {
        proof {
            assert(blk < 256int / (2 * len as int)) by {
                if blk >= 256int / (2 * len as int) {
                    assert(blk * (2 * len as int) >= (256int / (2 * len as int)) * (2 * len as int)) by (nonlinear_arith)
                        requires
                            blk >= 256int / (2 * len as int),
                            len >= 2,
                    ;
                    lemma_layer_index(0, len as int);
                    vstd::arithmetic::div_mod::lemma_fundamental_div_mod(256, 2 * len as int);
                    assert(256int % (2 * len as int) == 0) by {
                        lemma_pow_div(len as int);
                    }
                }
            }
            assert(start + 2 * len <= 256) by {
                lemma_pow_div(len as int);
                vstd::arithmetic::div_mod::lemma_fundamental_div_mod(256, 2 * len as int);
                assert((blk + 1) * (2 * len as int) <= (256int / (2 * len as int)) * (2 * len as int)) by (nonlinear_arith)
                    requires
                        blk + 1 <= 256int / (2 * len as int),
                        len >= 2,
                ;
                assert((blk + 1) * (2 * len as int) == blk * (2 * len as int) + 2 * len) by (nonlinear_arith);
            }
            assert(k < 128) by {
                lemma_pow_div(len as int);
            }
            lemma_zetas_bounded();
        }
        let zeta = ZETAS[k];
        let ghost rb = r@;
        ntt_block(r, start, len, zeta, Ghost(b));
        proof {
            assert forall|i: int| 0 <= i < start + 2 * len implies cong(#[trigger] r@[i] as int, ntt_layer(f, len as int)[i])
                && -(b + 3328) <= r@[i] <= b + 3328 by {
                if i >= start {
                    lemma_block(blk, len as int, i - start);
                    assert(twiddle(128int / (len as int) + blk) == zeta * rinv());
                    if i < start + len {
                        assert(rb[i] == r0[i] && rb[i + len] == r0[i + len]);
                    } else {
                        assert(rb[i] == r0[i] && rb[i - len] == r0[i - len]);
                    }
                } else {
                    assert(r@[i] == rb[i]);
                }
            }
            assert((blk + 1) * (2 * len as int) == blk * (2 * len as int) + 2 * len) by (nonlinear_arith);
            blk = blk + 1;
        }
        k = k + 1;
        start = start + 2 * len;
    }
    proof {
        assert forall|i: int| 0 <= i < 256 implies cong(#[trigger] r@[i] as int, ntt_layer(f, len as int)[i]) by {}
    }
}

/// For a layer length `len >= 2`: `2*len` divides 256 and the twiddle range fits the table.
proof fn lemma_pow_div(len: int)
    requires
        layer_len(len),
        len >= 2,
    ensures
        256int % (2 * len) == 0,
        128int / len + 256int / (2 * len) <= 128,
        256int / len - 1 < 128,
        256int / len - 256int / (2 * len) >= 1,
{
    if len == 128 {
        assert(256int % 256 == 0 && 128int / 128 == 1 && 256int / 256 == 1 && 256int / 128 == 2);
    } else if len == 64 {
        assert(256int % 128 == 0 && 128int / 64 == 2 && 256int / 128 == 2 && 256int / 64 == 4);
    } else if len == 32 {
        assert(256int % 64 == 0 && 128int / 32 == 4 && 256int / 64 == 4 && 256int / 32 == 8);
    } else if len == 16 {
        assert(256int % 32 == 0 && 128int / 16 == 8 && 256int / 32 == 8 && 256int / 16 == 16);
    } else if len == 8 {
        assert(256int % 16 == 0 && 128int / 8 == 16 && 256int / 16 == 16 && 256int / 8 == 32);
    } else if len == 4 {
        assert(256int % 8 == 0 && 128int / 4 == 32 && 256int / 8 == 32 && 256int / 4 == 64);
    } else if len == 2 {
        assert(256int % 4 == 0 && 128int / 2 == 64 && 256int / 4 == 64 && 256int / 2 == 128);
    }
}

/// The forward transform: the coefficients of `r` become congruent modulo q to the transform
/// of the input (in bit-reversed order), each in `[-8*3328, 8*3328]`.
pub fn ntt(r: &mut [i16; 256])
    requires
        bounded(old(r)@, 3328),
    ensures
        cong_all(final(r)@, ntt_spec(ints(old(r)@))),
        bounded(final(r)@, 26624),
{
    let ghost f = ints(r@);
    let mut len: usize = 128;
    proof {
        assert forall|i: int| 0 <= i < 256 implies cong(#[trigger] r@[i] as int, ntt_upto(f, 128)[i]) by {
            assert((r@[i] - r@[i]) % 3329 == 0);
        }
    }
    while len >= 2
        invariant
            layer_len(len as int),
            f.len() == 256,
            cong_all(r@, ntt_upto(f, len as int)),
            bounded(r@, ntt_bound(len as int)),
        decreases len,
    {
        let ghost prev = r@;
        ntt_layer_exec(r, len, Ghost(ntt_bound(len as int)));
        proof {
            lemma_layer_cong(ints(prev), ntt_upto(f, len as int), len as int);
            let half = (len / 2) as int;
            assert(ntt_upto(f, half) == ntt_layer(ntt_upto(f, len as int), len as int));
            assert forall|i: int| 0 <= i < 256 implies cong(#[trigger] r@[i] as int, ntt_upto(f, half)[i]) by {
                lemma_cong_trans(r@[i] as int, ntt_layer(ints(prev), len as int)[i], ntt_layer(
                    ntt_upto(f, len as int),
                    len as int,
                )[i]);
            }
        }
        len = len / 2;
    }
}

pub(crate) proof fn lemma_cong_mul(x: int, y: int, w: int)
    requires
        cong(x, y),
    ensures
        cong(x * w, y * w),
{
    lemma_mod_mul_zero(x - y, w);
    assert((x - y) * w == x * w - y * w) by (nonlinear_arith);
}

/// One Gentleman-Sande block with twiddle `zeta`.
fn invntt_block(r: &mut [i16; 256], start: usize, len: usize, zeta: i16)
    requires
        1 <= len,
        start + 2 * len <= 256,
        -1664 <= zeta <= 1664,
        forall|i: int| start <= i < start + 2 * len ==> -3328 <= #[trigger] old(r)@[i] <= 3328,
    ensures
        forall|i: int|
            0 <= i < 256 ==> if start <= i < start + len {
                cong(#[trigger] final(r)@[i] as int, old(r)@[i] + old(r)@[i + len])
                    && -3328 <= final(r)@[i] <= 3328
            } else if start + len <= i < start + 2 * len {
                cong(final(r)@[i] as int, (zeta * rinv()) * (old(r)@[i] - old(r)@[i - len]))
                    && -3328 <= final(r)@[i] <= 3328
            } else {
                final(r)@[i] == old(r)@[i]
            },
{
    let ghost r0 = r@;
    let ghost w = zeta * rinv();
    let end = start + len;
    let mut j = start;
    while j < end
        invariant
            start <= j <= end,
            end == start + len,
            end + len <= 256,
            -1664 <= zeta <= 1664,
            w == zeta * rinv(),
            forall|i: int| start <= i < start + 2 * len ==> -3328 <= #[trigger] r0[i] <= 3328,
            forall|i: int|
                0 <= i < 256 ==> if start <= i < j {
                    cong(#[trigger] r@[i] as int, r0[i] + r0[i + len]) && -3328 <= r@[i] <= 3328
                } else if end <= i < j + len {
                    cong(r@[i] as int, w * (r0[i] - r0[i - len])) && -3328 <= r@[i] <= 3328
                } else {
                    r@[i] == r0[i]
                },
        decreases end - j,
    {
        let t = r[j];
        let y = r[j + len];
        assert(t == r0[j as int] && y == r0[j + len]);
        r[j] = barrett_reduce(t + y);
        let d = y - t;
        assert(-109084672 <= zeta * d < 109084672) by (nonlinear_arith)
            requires
                -1664 <= zeta <= 1664,
                -6656 <= d <= 6656,
        ;
        let u = fqmul(zeta, d);
        proof {
            assert(u * 1 == u);
            lemma_regroup(zeta as int, d as int);
            assert(w * d == (zeta * rinv()) * d);
        }
        r[j + len] = u;
        j = j + 1;
    }
}

/// One inverse layer with half-block length `len` over all 256 coefficients.
fn invntt_layer_exec(r: &mut [i16; 256], len: usize)
    requires
        layer_len(len as int),
        len >= 2,
        bounded(old(r)@, 3328),
    ensures
        cong_all(final(r)@, invntt_layer(ints(old(r)@), len as int)),
        bounded(final(r)@, 3328),
{
    let ghost r0 = r@;
    let ghost f = ints(r0);
    let mut k: usize = 256 / len - 1;
    let mut start: usize = 0;
    let ghost mut blk: int = 0;
    proof {
        lemma_pow_div(len as int);
    }
    while start < 256
        invariant
            layer_len(len as int),
            len >= 2,
            bounded(r0, 3328),
            f == ints(r0),
            r0.len() == 256,
            0 <= blk <= 256int / (2 * len as int),
            start == blk * (2 * len),
            k + blk == 256int / (len as int) - 1,
            forall|i: int|
                0 <= i < start ==> cong(#[trigger] r@[i] as int, invntt_layer(f, len as int)[i]) && -3328
                    <= r@[i] <= 3328,
            forall|i: int| start <= i < 256 ==> #[trigger] r@[i] == r0[i],
        decreases 256 - start,
    {
        proof {
            lemma_pow_div(len as int);
            assert(blk < 256int / (2 * len as int)) by {
                if blk >= 256int / (2 * len as int) {
                    assert(blk * (2 * len as int) >= (256int / (2 * len as int)) * (2 * len as int)) by (nonlinear_arith)
                        requires
                            blk >= 256int / (2 * len as int),
                            len >= 2,
                    ;
                    vstd::arithmetic::div_mod::lemma_fundamental_div_mod(256, 2 * len as int);
                }
            }
            assert(start + 2 * len <= 256) by {
                vstd::arithmetic::div_mod::lemma_fundamental_div_mod(256, 2 * len as int);
                assert((blk + 1) * (2 * len as int) <= (256int / (2 * len as int)) * (2 * len as int)) by (nonlinear_arith)
                    requires
                        blk + 1 <= 256int / (2 * len as int),
                        len >= 2,
                ;
                assert((blk + 1) * (2 * len as int) == blk * (2 * len as int) + 2 * len) by (nonlinear_arith);
            }
            lemma_zetas_bounded();
        }
        let zeta = ZETAS[k];
        let ghost rb = r@;
        invntt_block(r, start, len, zeta);
        proof {
            assert forall|i: int| 0 <= i < start + 2 * len implies cong(#[trigger] r@[i] as int, invntt_layer(f, len as int)[i])
                && -3328 <= r@[i] <= 3328 by {
                if i >= start {
                    lemma_block(blk, len as int, i - start);
                    assert(twiddle(256int / (len as int) - 1 - blk) == zeta * rinv());
                    if i < start + len {
                        assert(rb[i] == r0[i] && rb[i + len] == r0[i + len]);
                    } else {
                        assert(rb[i] == r0[i] && rb[i - len] == r0[i - len]);
                    }
                } else {
                    assert(r@[i] == rb[i]);
                }
            }
            assert((blk + 1) * (2 * len as int) == blk * (2 * len as int) + 2 * len) by (nonlinear_arith);
            blk = blk + 1;
        }
        if k > 0 {
            k = k - 1;
        }
        start = start + 2 * len;
    }
    proof {
        assert forall|i: int| 0 <= i < 256 implies cong(#[trigger] r@[i] as int, invntt_layer(f, len as int)[i]) by {}
    }
}

/// The inverse transform with the Montgomery factor: the coefficients of `r` become
/// congruent modulo q to the inverse transform of the input times 2^16, each in `(-q, q)`.
pub fn invntt(r: &mut [i16; 256])
    requires
        bounded(old(r)@, 3328),
    ensures
        cong_all(final(r)@, invntt_spec(ints(old(r)@))),
        bounded(final(r)@, 3328),
{
    let ghost f = ints(r@);
    let mut len: usize = 2;
    proof {
        assert forall|i: int| 0 <= i < 256 implies cong(#[trigger] r@[i] as int, invntt_upto(f, 2)[i]) by {
            assert((r@[i] - r@[i]) % 3329 == 0);
        }
    }
    while len <= 128
        invariant
            layer_len(len as int) || len == 256,
            len >= 2,
            f.len() == 256,
            cong_all(r@, invntt_upto(f, len as int)),
            bounded(r@, 3328),
        decreases 256 - len,
    {
        let ghost prev = r@;
        invntt_layer_exec(r, len);
        proof {
            lemma_layer_cong(ints(prev), invntt_upto(f, len as int), len as int);
            let dbl = (2 * len) as int;
            assert(dbl / 2 == len);
            assert(invntt_upto(f, dbl) == invntt_layer(invntt_upto(f, len as int), len as int));
            assert forall|i: int| 0 <= i < 256 implies cong(#[trigger] r@[i] as int, invntt_upto(f, dbl)[i]) by {
                lemma_cong_trans(r@[i] as int, invntt_layer(ints(prev), len as int)[i], invntt_layer(
                    invntt_upto(f, len as int),
                    len as int,
                )[i]);
            }
        }
        len = 2 * len;
    }
    let ghost g = invntt_upto(f, 256);
    let ghost r1 = r@;
    let mut i: usize = 0;
    while i < 256
        invariant
            i <= 256,
            g.len() == 256,
            g == invntt_upto(f, 256),
            cong_all(r1, g),
            bounded(r1, 3328),
            forall|q: int| 0 <= q < i ==> cong(#[trigger] r@[q] as int, g[q] * 1441 * rinv()) && -3328 <= r@[q]
                <= 3328,
            forall|q: int| i <= q < 256 ==> #[trigger] r@[q] == r1[q],
        decreases 256 - i,
    {
        let c = r[i];
        assert(-109084672 <= c * 1441 < 109084672) by (nonlinear_arith)
            requires
                -3328 <= c <= 3328,
        ;
        let v = fqmul(c, 1441);
        proof {
            lemma_cong_mul(c as int, g[i as int], 1441);
            lemma_cong_mul(c * 1441, g[i as int] * 1441, rinv());
            lemma_cong_trans(v as int, c * 1441 * rinv(), g[i as int] * 1441 * rinv());
        }
        r[i] = v;
        i = i + 1;
    }
}

/// Product of `a0 + a1 X` and `b0 + b1 X` modulo `X^2 - zeta * 2^-16`, each coefficient times
/// 2^-16, modulo q.
pub fn basemul(r: &mut [i16; 2], a: &[i16; 2], b: &[i16; 2], zeta: i16)
    requires
        -4095 <= a[0] <= 4095,
        -4095 <= a[1] <= 4095,
        -4095 <= b[0] <= 4095,
        -4095 <= b[1] <= 4095,
        -3329 < zeta < 3329,
    ensures
        cong(final(r)[0] as int, (a[0] * b[0] + a[1] * b[1] * (zeta * rinv())) * rinv()),
        cong(final(r)[1] as int, (a[0] * b[1] + a[1] * b[0]) * rinv()),
        -6658 < final(r)[0] < 6658,
        -6658 < final(r)[1] < 6658,
{
    let (a0, a1, b0, b1) = (a[0], a[1], b[0], b[1]);
    proof {
        assert(-109084672 <= a1 * b1 < 109084672) by (nonlinear_arith)
            requires
                -4095 <= a1 <= 4095,
                -4095 <= b1 <= 4095,
        ;
        assert(-109084672 <= a0 * b0 < 109084672) by (nonlinear_arith)
            requires
                -4095 <= a0 <= 4095,
                -4095 <= b0 <= 4095,
        ;
        assert(-109084672 <= a0 * b1 < 109084672) by (nonlinear_arith)
            requires
                -4095 <= a0 <= 4095,
                -4095 <= b1 <= 4095,
        ;
        assert(-109084672 <= a1 * b0 < 109084672) by (nonlinear_arith)
            requires
                -4095 <= a1 <= 4095,
                -4095 <= b0 <= 4095,
        ;
    }
    let p = fqmul(a1, b1);
    assert(-109084672 <= p * zeta < 109084672) by (nonlinear_arith)
        requires
            -3329 < p < 3329,
            -3329 < zeta < 3329,
    ;
    let s = fqmul(p, zeta);
    let t = fqmul(a0, b0);
    let u = fqmul(a0, b1);
    let v = fqmul(a1, b0);
    r[0] = s + t;
    r[1] = u + v;
    proof {
        // s = a1*b1*rinv*zeta*rinv, t = a0*b0*rinv (mod q)
        lemma_cong_mul(p as int, a1 * b1 * rinv(), zeta as int);
        lemma_cong_mul(p * zeta, a1 * b1 * rinv() * zeta, rinv());
        lemma_cong_trans(s as int, p * zeta * rinv(), a1 * b1 * rinv() * zeta * rinv());
        assert(a1 * b1 * rinv() * zeta * rinv() == a1 * b1 * (zeta * rinv()) * rinv()) by (nonlinear_arith);
        assert((a0 * b0 + a1 * b1 * (zeta * rinv())) * rinv() == a0 * b0 * rinv() + a1 * b1 * (zeta * rinv())
            * rinv()) by (nonlinear_arith);
        lemma_cong_lin(t as int, s as int, a0 * b0 * rinv(), a1 * b1 * (zeta * rinv()) * rinv(), 1);
        assert((a0 * b1 + a1 * b0) * rinv() == a0 * b1 * rinv() + a1 * b0 * rinv()) by (nonlinear_arith);
        lemma_cong_lin(u as int, v as int, a0 * b1 * rinv(), a1 * b0 * rinv(), 1);
    }
}

/// The largest power of two not above `k` (for `1 <= k < 128`): the first twiddle index of
/// the layer that uses twiddle `k`.
pub open spec fn layer_base(k: int) -> int {
    if k >= 64 {
        64
    } else if k >= 32 {
        32
    } else if k >= 16 {
        16
    } else if k >= 8 {
        8
    } else if k >= 4 {
        4
    } else if k >= 2 {
        2
    } else {
        1
    }
}

/// The forward twiddle of index `k` times the inverse twiddle of the same block is `-1`.
proof fn lemma_twiddle_pair(k: int)
    requires
        1 <= k < 128,
    ensures
        cong(twiddle(k) * twiddle(3 * layer_base(k) - 1 - k), -1),
{
    if k == 1 {
        assert(ZETAS@[1] == -758 && ZETAS@[1] == -758);
        assert(twiddle(1) == -128102 && twiddle(1) == -128102);
        assert(twiddle(1) * twiddle(1) == 16410122404) by (nonlinear_arith)
            requires
                twiddle(1) == -128102,
                twiddle(1) == -128102,
        ;
        assert((16410122404int + 1) % 3329 == 0);
    } else if k == 2 {
        assert(ZETAS@[2] == -359 && ZETAS@[3] == -1517);
        assert(twiddle(2) == -60671 && twiddle(3) == -256373);
        assert(twiddle(2) * twiddle(3) == 15554406283) by (nonlinear_arith)
            requires
                twiddle(2) == -60671,
                twiddle(3) == -256373,
        ;
        assert((15554406283int + 1) % 3329 == 0);
    } else if k == 3 {
        assert(ZETAS@[3] == -1517 && ZETAS@[2] == -359);
        assert(twiddle(3) == -256373 && twiddle(2) == -60671);
        assert(twiddle(3) * twiddle(2) == 15554406283) by (nonlinear_arith)
            requires
                twiddle(3) == -256373,
                twiddle(2) == -60671,
        ;
        assert((15554406283int + 1) % 3329 == 0);
    } else if k == 4 {
        assert(ZETAS@[4] == 1493 && ZETAS@[7] == 202);
        assert(twiddle(4) == 252317 && twiddle(7) == 34138);
        assert(twiddle(4) * twiddle(7) == 8613597746) by (nonlinear_arith)
            requires
                twiddle(4) == 252317,
                twiddle(7) == 34138,
        ;
        assert((8613597746int + 1) % 3329 == 0);
    } else if k == 5 {
        assert(ZETAS@[5] == 1422 && ZETAS@[6] == 287);
        assert(twiddle(5) == 240318 && twiddle(6) == 48503);
        assert(twiddle(5) * twiddle(6) == 11656143954) by (nonlinear_arith)
            requires
                twiddle(5) == 240318,
                twiddle(6) == 48503,
        ;
        assert((11656143954int + 1) % 3329 == 0);
    } else if k == 6 {
        assert(ZETAS@[6] == 287 && ZETAS@[5] == 1422);
        assert(twiddle(6) == 48503 && twiddle(5) == 240318);
        assert(twiddle(6) * twiddle(5) == 11656143954) by (nonlinear_arith)
            requires
                twiddle(6) == 48503,
                twiddle(5) == 240318,
        ;
        assert((11656143954int + 1) % 3329 == 0);
    } else if k == 7 {
        assert(ZETAS@[7] == 202 && ZETAS@[4] == 1493);
        assert(twiddle(7) == 34138 && twiddle(4) == 252317);
        assert(twiddle(7) * twiddle(4) == 8613597746) by (nonlinear_arith)
            requires
                twiddle(7) == 34138,
                twiddle(4) == 252317,
        ;
        assert((8613597746int + 1) % 3329 == 0);
    } else if k == 8 {
        assert(ZETAS@[8] == -171 && ZETAS@[15] == 1468);
        assert(twiddle(8) == -28899 && twiddle(15) == 248092);
        assert(twiddle(8) * twiddle(15) == -7169610708) by (nonlinear_arith)
            requires
                twiddle(8) == -28899,
                twiddle(15) == 248092,
        ;
        assert((-7169610708int + 1) % 3329 == 0);
    } else if k == 9 {
        assert(ZETAS@[9] == 622 && ZETAS@[14] == -1474);
        assert(twiddle(9) == 105118 && twiddle(14) == -249106);
        assert(twiddle(9) * twiddle(14) == -26185524508) by (nonlinear_arith)
            requires
                twiddle(9) == 105118,
                twiddle(14) == -249106,
        ;
        assert((-26185524508int + 1) % 3329 == 0);
    } else if k == 10 {
        assert(ZETAS@[10] == 1577 && ZETAS@[13] == -1202);
        assert(twiddle(10) == 266513 && twiddle(13) == -203138);
        assert(twiddle(10) * twiddle(13) == -54138917794) by (nonlinear_arith)
            requires
                twiddle(10) == 266513,
                twiddle(13) == -203138,
        ;
        assert((-54138917794int + 1) % 3329 == 0);
    } else if k == 11 {
        assert(ZETAS@[11] == 182 && ZETAS@[12] == 962);
        assert(twiddle(11) == 30758 && twiddle(12) == 162578);
        assert(twiddle(11) * twiddle(12) == 5000574124) by (nonlinear_arith)
            requires
                twiddle(11) == 30758,
                twiddle(12) == 162578,
        ;
        assert((5000574124int + 1) % 3329 == 0);
    } else if k == 12 {
        assert(ZETAS@[12] == 962 && ZETAS@[11] == 182);
        assert(twiddle(12) == 162578 && twiddle(11) == 30758);
        assert(twiddle(12) * twiddle(11) == 5000574124) by (nonlinear_arith)
            requires
                twiddle(12) == 162578,
                twiddle(11) == 30758,
        ;
        assert((5000574124int + 1) % 3329 == 0);
    } else if k == 13 {
        assert(ZETAS@[13] == -1202 && ZETAS@[10] == 1577);
        assert(twiddle(13) == -203138 && twiddle(10) == 266513);
        assert(twiddle(13) * twiddle(10) == -54138917794) by (nonlinear_arith)
            requires
                twiddle(13) == -203138,
                twiddle(10) == 266513,
        ;
        assert((-54138917794int + 1) % 3329 == 0);
    } else if k == 14 {
        assert(ZETAS@[14] == -1474 && ZETAS@[9] == 622);
        assert(twiddle(14) == -249106 && twiddle(9) == 105118);
        assert(twiddle(14) * twiddle(9) == -26185524508) by (nonlinear_arith)
            requires
                twiddle(14) == -249106,
                twiddle(9) == 105118,
        ;
        assert((-26185524508int + 1) % 3329 == 0);
    } else if k == 15 {
        assert(ZETAS@[15] == 1468 && ZETAS@[8] == -171);
        assert(twiddle(15) == 248092 && twiddle(8) == -28899);
        assert(twiddle(15) * twiddle(8) == -7169610708) by (nonlinear_arith)
            requires
                twiddle(15) == 248092,
                twiddle(8) == -28899,
        ;
        assert((-7169610708int + 1) % 3329 == 0);
    } else if k == 16 {
        assert(ZETAS@[16] == 573 && ZETAS@[31] == -1571);
        assert(twiddle(16) == 96837 && twiddle(31) == -265499);
        assert(twiddle(16) * twiddle(31) == -25710126663) by (nonlinear_arith)
            requires
                twiddle(16) == 96837,
                twiddle(31) == -265499,
        ;
        assert((-25710126663int + 1) % 3329 == 0);
    } else if k == 17 {
        assert(ZETAS@[17] == -1325 && ZETAS@[30] == -205);
        assert(twiddle(17) == -223925 && twiddle(30) == -34645);
        assert(twiddle(17) * twiddle(30) == 7757881625) by (nonlinear_arith)
            requires
                twiddle(17) == -223925,
                twiddle(30) == -34645,
        ;
        assert((7757881625int + 1) % 3329 == 0);
    } else if k == 18 {
        assert(ZETAS@[18] == 264 && ZETAS@[29] == 411);
        assert(twiddle(18) == 44616 && twiddle(29) == 69459);
        assert(twiddle(18) * twiddle(29) == 3098982744) by (nonlinear_arith)
            requires
                twiddle(18) == 44616,
                twiddle(29) == 69459,
        ;
        assert((3098982744int + 1) % 3329 == 0);
    } else if k == 19 {
        assert(ZETAS@[19] == 383 && ZETAS@[28] == -1542);
        assert(twiddle(19) == 64727 && twiddle(28) == -260598);
        assert(twiddle(19) * twiddle(28) == -16867726746) by (nonlinear_arith)
            requires
                twiddle(19) == 64727,
                twiddle(28) == -260598,
        ;
        assert((-16867726746int + 1) % 3329 == 0);
    } else if k == 20 {
        assert(ZETAS@[20] == -829 && ZETAS@[27] == 608);
        assert(twiddle(20) == -140101 && twiddle(27) == 102752);
        assert(twiddle(20) * twiddle(27) == -14395657952) by (nonlinear_arith)
            requires
                twiddle(20) == -140101,
                twiddle(27) == 102752,
        ;
        assert((-14395657952int + 1) % 3329 == 0);
    } else if k == 21 {
        assert(ZETAS@[21] == 1458 && ZETAS@[26] == 732);
        assert(twiddle(21) == 246402 && twiddle(26) == 123708);
        assert(twiddle(21) * twiddle(26) == 30481898616) by (nonlinear_arith)
            requires
                twiddle(21) == 246402,
                twiddle(26) == 123708,
        ;
        assert((30481898616int + 1) % 3329 == 0);
    } else if k == 22 {
        assert(ZETAS@[22] == -1602 && ZETAS@[25] == 1017);
        assert(twiddle(22) == -270738 && twiddle(25) == 171873);
        assert(twiddle(22) * twiddle(25) == -46532552274) by (nonlinear_arith)
            requires
                twiddle(22) == -270738,
                twiddle(25) == 171873,
        ;
        assert((-46532552274int + 1) % 3329 == 0);
    } else if k == 23 {
        assert(ZETAS@[23] == -130 && ZETAS@[24] == -681);
        assert(twiddle(23) == -21970 && twiddle(24) == -115089);
        assert(twiddle(23) * twiddle(24) == 2528505330) by (nonlinear_arith)
            requires
                twiddle(23) == -21970,
                twiddle(24) == -115089,
        ;
        assert((2528505330int + 1) % 3329 == 0);
    } else if k == 24 {
        assert(ZETAS@[24] == -681 && ZETAS@[23] == -130);
        assert(twiddle(24) == -115089 && twiddle(23) == -21970);
        assert(twiddle(24) * twiddle(23) == 2528505330) by (nonlinear_arith)
            requires
                twiddle(24) == -115089,
                twiddle(23) == -21970,
        ;
        assert((2528505330int + 1) % 3329 == 0);
    } else if k == 25 {
        assert(ZETAS@[25] == 1017 && ZETAS@[22] == -1602);
        assert(twiddle(25) == 171873 && twiddle(22) == -270738);
        assert(twiddle(25) * twiddle(22) == -46532552274) by (nonlinear_arith)
            requires
                twiddle(25) == 171873,
                twiddle(22) == -270738,
        ;
        assert((-46532552274int + 1) % 3329 == 0);
    } else if k == 26 {
        assert(ZETAS@[26] == 732 && ZETAS@[21] == 1458);
        assert(twiddle(26) == 123708 && twiddle(21) == 246402);
        assert(twiddle(26) * twiddle(21) == 30481898616) by (nonlinear_arith)
            requires
                twiddle(26) == 123708,
                twiddle(21) == 246402,
        ;
        assert((30481898616int + 1) % 3329 == 0);
    } else if k == 27 {
        assert(ZETAS@[27] == 608 && ZETAS@[20] == -829);
        assert(twiddle(27) == 102752 && twiddle(20) == -140101);
        assert(twiddle(27) * twiddle(20) == -14395657952) by (nonlinear_arith)
            requires
                twiddle(27) == 102752,
                twiddle(20) == -140101,
        ;
        assert((-14395657952int + 1) % 3329 == 0);
    } else if k == 28 {
        assert(ZETAS@[28] == -1542 && ZETAS@[19] == 383);
        assert(twiddle(28) == -260598 && twiddle(19) == 64727);
        assert(twiddle(28) * twiddle(19) == -16867726746) by (nonlinear_arith)
            requires
                twiddle(28) == -260598,
                twiddle(19) == 64727,
        ;
        assert((-16867726746int + 1) % 3329 == 0);
    } else if k == 29 {
        assert(ZETAS@[29] == 411 && ZETAS@[18] == 264);
        assert(twiddle(29) == 69459 && twiddle(18) == 44616);
        assert(twiddle(29) * twiddle(18) == 3098982744) by (nonlinear_arith)
            requires
                twiddle(29) == 69459,
                twiddle(18) == 44616,
        ;
        assert((3098982744int + 1) % 3329 == 0);
    } else if k == 30 {
        assert(ZETAS@[30] == -205 && ZETAS@[17] == -1325);
        assert(twiddle(30) == -34645 && twiddle(17) == -223925);
        assert(twiddle(30) * twiddle(17) == 7757881625) by (nonlinear_arith)
            requires
                twiddle(30) == -34645,
                twiddle(17) == -223925,
        ;
        assert((7757881625int + 1) % 3329 == 0);
    } else if k == 31 {
        assert(ZETAS@[31] == -1571 && ZETAS@[16] == 573);
        assert(twiddle(31) == -265499 && twiddle(16) == 96837);
        assert(twiddle(31) * twiddle(16) == -25710126663) by (nonlinear_arith)
            requires
                twiddle(31) == -265499,
                twiddle(16) == 96837,
        ;
        assert((-25710126663int + 1) % 3329 == 0);
    } else if k == 32 {
        assert(ZETAS@[32] == 1223 && ZETAS@[63] == -1275);
        assert(twiddle(32) == 206687 && twiddle(63) == -215475);
        assert(twiddle(32) * twiddle(63) == -44535881325) by (nonlinear_arith)
            requires
                twiddle(32) == 206687,
                twiddle(63) == -215475,
        ;
        assert((-44535881325int + 1) % 3329 == 0);
    } else if k == 33 {
        assert(ZETAS@[33] == 652 && ZETAS@[62] == 677);
        assert(twiddle(33) == 110188 && twiddle(62) == 114413);
        assert(twiddle(33) * twiddle(62) == 12606939644) by (nonlinear_arith)
            requires
                twiddle(33) == 110188,
                twiddle(62) == 114413,
        ;
        assert((12606939644int + 1) % 3329 == 0);
    } else if k == 34 {
        assert(ZETAS@[34] == -552 && ZETAS@[61] == -1065);
        assert(twiddle(34) == -93288 && twiddle(61) == -179985);
        assert(twiddle(34) * twiddle(61) == 16790440680) by (nonlinear_arith)
            requires
                twiddle(34) == -93288,
                twiddle(61) == -179985,
        ;
        assert((16790440680int + 1) % 3329 == 0);
    } else if k == 35 {
        assert(ZETAS@[35] == 1015 && ZETAS@[60] == 448);
        assert(twiddle(35) == 171535 && twiddle(60) == 75712);
        assert(twiddle(35) * twiddle(60) == 12987257920) by (nonlinear_arith)
            requires
                twiddle(35) == 171535,
                twiddle(60) == 75712,
        ;
        assert((12987257920int + 1) % 3329 == 0);
    } else if k == 36 {
        assert(ZETAS@[36] == -1293 && ZETAS@[59] == -725);
        assert(twiddle(36) == -218517 && twiddle(59) == -122525);
        assert(twiddle(36) * twiddle(59) == 26773795425) by (nonlinear_arith)
            requires
                twiddle(36) == -218517,
                twiddle(59) == -122525,
        ;
        assert((26773795425int + 1) % 3329 == 0);
    } else if k == 37 {
        assert(ZETAS@[37] == 1491 && ZETAS@[58] == -1508);
        assert(twiddle(37) == 251979 && twiddle(58) == -254852);
        assert(twiddle(37) * twiddle(58) == -64217352108) by (nonlinear_arith)
            requires
                twiddle(37) == 251979,
                twiddle(58) == -254852,
        ;
        assert((-64217352108int + 1) % 3329 == 0);
    } else if k == 38 {
        assert(ZETAS@[38] == -282 && ZETAS@[57] == 961);
        assert(twiddle(38) == -47658 && twiddle(57) == 162409);
        assert(twiddle(38) * twiddle(57) == -7740088122) by (nonlinear_arith)
            requires
                twiddle(38) == -47658,
                twiddle(57) == 162409,
        ;
        assert((-7740088122int + 1) % 3329 == 0);
    } else if k == 39 {
        assert(ZETAS@[39] == -1544 && ZETAS@[56] == -398);
        assert(twiddle(39) == -260936 && twiddle(56) == -67262);
        assert(twiddle(39) * twiddle(56) == 17551077232) by (nonlinear_arith)
            requires
                twiddle(39) == -260936,
                twiddle(56) == -67262,
        ;
        assert((17551077232int + 1) % 3329 == 0);
    } else if k == 40 {
        assert(ZETAS@[40] == 516 && ZETAS@[55] == -951);
        assert(twiddle(40) == 87204 && twiddle(55) == -160719);
        assert(twiddle(40) * twiddle(55) == -14015339676) by (nonlinear_arith)
            requires
                twiddle(40) == 87204,
                twiddle(55) == -160719,
        ;
        assert((-14015339676int + 1) % 3329 == 0);
    } else if k == 41 {
        assert(ZETAS@[41] == -8 && ZETAS@[54] == -247);
        assert(twiddle(41) == -1352 && twiddle(54) == -41743);
        assert(twiddle(41) * twiddle(54) == 56436536) by (nonlinear_arith)
            requires
                twiddle(41) == -1352,
                twiddle(54) == -41743,
        ;
        assert((56436536int + 1) % 3329 == 0);
    } else if k == 42 {
        assert(ZETAS@[42] == -320 && ZETAS@[53] == -1421);
        assert(twiddle(42) == -54080 && twiddle(53) == -240149);
        assert(twiddle(42) * twiddle(53) == 12987257920) by (nonlinear_arith)
            requires
                twiddle(42) == -54080,
                twiddle(53) == -240149,
        ;
        assert((12987257920int + 1) % 3329 == 0);
    } else if k == 43 {
        assert(ZETAS@[43] == -666 && ZETAS@[52] == 107);
        assert(twiddle(43) == -112554 && twiddle(52) == 18083);
        assert(twiddle(43) * twiddle(52) == -2035313982) by (nonlinear_arith)
            requires
                twiddle(43) == -112554,
                twiddle(52) == 18083,
        ;
        assert((-2035313982int + 1) % 3329 == 0);
    } else if k == 44 {
        assert(ZETAS@[44] == -1618 && ZETAS@[51] == 830);
        assert(twiddle(44) == -273442 && twiddle(51) == 140270);
        assert(twiddle(44) * twiddle(51) == -38355709340) by (nonlinear_arith)
            requires
                twiddle(44) == -273442,
                twiddle(51) == 140270,
        ;
        assert((-38355709340int + 1) % 3329 == 0);
    } else if k == 45 {
        assert(ZETAS@[45] == -1162 && ZETAS@[50] == -271);
        assert(twiddle(45) == -196378 && twiddle(50) == -45799);
        assert(twiddle(45) * twiddle(50) == 8993916022) by (nonlinear_arith)
            requires
                twiddle(45) == -196378,
                twiddle(50) == -45799,
        ;
        assert((8993916022int + 1) % 3329 == 0);
    } else if k == 46 {
        assert(ZETAS@[46] == 126 && ZETAS@[49] == -90);
        assert(twiddle(46) == 21294 && twiddle(49) == -15210);
        assert(twiddle(46) * twiddle(49) == -323881740) by (nonlinear_arith)
            requires
                twiddle(46) == 21294,
                twiddle(49) == -15210,
        ;
        assert((-323881740int + 1) % 3329 == 0);
    } else if k == 47 {
        assert(ZETAS@[47] == 1469 && ZETAS@[48] == -853);
        assert(twiddle(47) == 248261 && twiddle(48) == -144157);
        assert(twiddle(47) * twiddle(48) == -35788560977) by (nonlinear_arith)
            requires
                twiddle(47) == 248261,
                twiddle(48) == -144157,
        ;
        assert((-35788560977int + 1) % 3329 == 0);
    } else if k == 48 {
        assert(ZETAS@[48] == -853 && ZETAS@[47] == 1469);
        assert(twiddle(48) == -144157 && twiddle(47) == 248261);
        assert(twiddle(48) * twiddle(47) == -35788560977) by (nonlinear_arith)
            requires
                twiddle(48) == -144157,
                twiddle(47) == 248261,
        ;
        assert((-35788560977int + 1) % 3329 == 0);
    } else if k == 49 {
        assert(ZETAS@[49] == -90 && ZETAS@[46] == 126);
        assert(twiddle(49) == -15210 && twiddle(46) == 21294);
        assert(twiddle(49) * twiddle(46) == -323881740) by (nonlinear_arith)
            requires
                twiddle(49) == -15210,
                twiddle(46) == 21294,
        ;
        assert((-323881740int + 1) % 3329 == 0);
    } else if k == 50 {
        assert(ZETAS@[50] == -271 && ZETAS@[45] == -1162);
        assert(twiddle(50) == -45799 && twiddle(45) == -196378);
        assert(twiddle(50) * twiddle(45) == 8993916022) by (nonlinear_arith)
            requires
                twiddle(50) == -45799,
                twiddle(45) == -196378,
        ;
        assert((8993916022int + 1) % 3329 == 0);
    } else if k == 51 {
        assert(ZETAS@[51] == 830 && ZETAS@[44] == -1618);
        assert(twiddle(51) == 140270 && twiddle(44) == -273442);
        assert(twiddle(51) * twiddle(44) == -38355709340) by (nonlinear_arith)
            requires
                twiddle(51) == 140270,
                twiddle(44) == -273442,
        ;
        assert((-38355709340int + 1) % 3329 == 0);
    } else if k == 52 {
        assert(ZETAS@[52] == 107 && ZETAS@[43] == -666);
        assert(twiddle(52) == 18083 && twiddle(43) == -112554);
        assert(twiddle(52) * twiddle(43) == -2035313982) by (nonlinear_arith)
            requires
                twiddle(52) == 18083,
                twiddle(43) == -112554,
        ;
        assert((-2035313982int + 1) % 3329 == 0);
    } else if k == 53 {
        assert(ZETAS@[53] == -1421 && ZETAS@[42] == -320);
        assert(twiddle(53) == -240149 && twiddle(42) == -54080);
        assert(twiddle(53) * twiddle(42) == 12987257920) by (nonlinear_arith)
            requires
                twiddle(53) == -240149,
                twiddle(42) == -54080,
        ;
        assert((12987257920int + 1) % 3329 == 0);
    } else if k == 54 {
        assert(ZETAS@[54] == -247 && ZETAS@[41] == -8);
        assert(twiddle(54) == -41743 && twiddle(41) == -1352);
        assert(twiddle(54) * twiddle(41) == 56436536) by (nonlinear_arith)
            requires
                twiddle(54) == -41743,
                twiddle(41) == -1352,
        ;
        assert((56436536int + 1) % 3329 == 0);
    } else if k == 55 {
        assert(ZETAS@[55] == -951 && ZETAS@[40] == 516);
        assert(twiddle(55) == -160719 && twiddle(40) == 87204);
        assert(twiddle(55) * twiddle(40) == -14015339676) by (nonlinear_arith)
            requires
                twiddle(55) == -160719,
                twiddle(40) == 87204,
        ;
        assert((-14015339676int + 1) % 3329 == 0);
    } else if k == 56 {
        assert(ZETAS@[56] == -398 && ZETAS@[39] == -1544);
        assert(twiddle(56) == -67262 && twiddle(39) == -260936);
        assert(twiddle(56) * twiddle(39) == 17551077232) by (nonlinear_arith)
            requires
                twiddle(56) == -67262,
                twiddle(39) == -260936,
        ;
        assert((17551077232int + 1) % 3329 == 0);
    } else if k == 57 {
        assert(ZETAS@[57] == 961 && ZETAS@[38] == -282);
        assert(twiddle(57) == 162409 && twiddle(38) == -47658);
        assert(twiddle(57) * twiddle(38) == -7740088122) by (nonlinear_arith)
            requires
                twiddle(57) == 162409,
                twiddle(38) == -47658,
        ;
        assert((-7740088122int + 1) % 3329 == 0);
    } else if k == 58 {
        assert(ZETAS@[58] == -1508 && ZETAS@[37] == 1491);
        assert(twiddle(58) == -254852 && twiddle(37) == 251979);
        assert(twiddle(58) * twiddle(37) == -64217352108) by (nonlinear_arith)
            requires
                twiddle(58) == -254852,
                twiddle(37) == 251979,
        ;
        assert((-64217352108int + 1) % 3329 == 0);
    } else if k == 59 {
        assert(ZETAS@[59] == -725 && ZETAS@[36] == -1293);
        assert(twiddle(59) == -122525 && twiddle(36) == -218517);
        assert(twiddle(59) * twiddle(36) == 26773795425) by (nonlinear_arith)
            requires
                twiddle(59) == -122525,
                twiddle(36) == -218517,
        ;
        assert((26773795425int + 1) % 3329 == 0);
    } else if k == 60 {
        assert(ZETAS@[60] == 448 && ZETAS@[35] == 1015);
        assert(twiddle(60) == 75712 && twiddle(35) == 171535);
        assert(twiddle(60) * twiddle(35) == 12987257920) by (nonlinear_arith)
            requires
                twiddle(60) == 75712,
                twiddle(35) == 171535,
        ;
        assert((12987257920int + 1) % 3329 == 0);
    } else if k == 61 {
        assert(ZETAS@[61] == -1065 && ZETAS@[34] == -552);
        assert(twiddle(61) == -179985 && twiddle(34) == -93288);
        assert(twiddle(61) * twiddle(34) == 16790440680) by (nonlinear_arith)
            requires
                twiddle(61) == -179985,
                twiddle(34) == -93288,
        ;
        assert((16790440680int + 1) % 3329 == 0);
    } else if k == 62 {
        assert(ZETAS@[62] == 677 && ZETAS@[33] == 652);
        assert(twiddle(62) == 114413 && twiddle(33) == 110188);
        assert(twiddle(62) * twiddle(33) == 12606939644) by (nonlinear_arith)
            requires
                twiddle(62) == 114413,
                twiddle(33) == 110188,
        ;
        assert((12606939644int + 1) % 3329 == 0);
    } else if k == 63 {
        assert(ZETAS@[63] == -1275 && ZETAS@[32] == 1223);
        assert(twiddle(63) == -215475 && twiddle(32) == 206687);
        assert(twiddle(63) * twiddle(32) == -44535881325) by (nonlinear_arith)
            requires
                twiddle(63) == -215475,
                twiddle(32) == 206687,
        ;
        assert((-44535881325int + 1) % 3329 == 0);
    } else if k == 64 {
        assert(ZETAS@[64] == -1103 && ZETAS@[127] == 1628);
        assert(twiddle(64) == -186407 && twiddle(127) == 275132);
        assert(twiddle(64) * twiddle(127) == -51286530724) by (nonlinear_arith)
            requires
                twiddle(64) == -186407,
                twiddle(127) == 275132,
        ;
        assert((-51286530724int + 1) % 3329 == 0);
    } else if k == 65 {
        assert(ZETAS@[65] == 430 && ZETAS@[126] == 1522);
        assert(twiddle(65) == 72670 && twiddle(126) == 257218);
        assert(twiddle(65) * twiddle(126) == 18692032060) by (nonlinear_arith)
            requires
                twiddle(65) == 72670,
                twiddle(126) == 257218,
        ;
        assert((18692032060int + 1) % 3329 == 0);
    } else if k == 66 {
        assert(ZETAS@[66] == 555 && ZETAS@[125] == -1460);
        assert(twiddle(66) == 93795 && twiddle(125) == -246740);
        assert(twiddle(66) * twiddle(125) == -23142978300) by (nonlinear_arith)
            requires
                twiddle(66) == 93795,
                twiddle(125) == -246740,
        ;
        assert((-23142978300int + 1) % 3329 == 0);
    } else if k == 67 {
        assert(ZETAS@[67] == 843 && ZETAS@[124] == 958);
        assert(twiddle(67) == 142467 && twiddle(124) == 161902);
        assert(twiddle(67) * twiddle(124) == 23065692234) by (nonlinear_arith)
            requires
                twiddle(67) == 142467,
                twiddle(124) == 161902,
        ;
        assert((23065692234int + 1) % 3329 == 0);
    } else if k == 68 {
        assert(ZETAS@[68] == -1251 && ZETAS@[123] == 991);
        assert(twiddle(68) == -211419 && twiddle(123) == 167479);
        assert(twiddle(68) * twiddle(123) == -35408242701) by (nonlinear_arith)
            requires
                twiddle(68) == -211419,
                twiddle(123) == 167479,
        ;
        assert((-35408242701int + 1) % 3329 == 0);
    } else if k == 69 {
        assert(ZETAS@[69] == 871 && ZETAS@[122] == 996);
        assert(twiddle(69) == 147199 && twiddle(122) == 168324);
        assert(twiddle(69) * twiddle(122) == 24777124476) by (nonlinear_arith)
            requires
                twiddle(69) == 147199,
                twiddle(122) == 168324,
        ;
        assert((24777124476int + 1) % 3329 == 0);
    } else if k == 70 {
        assert(ZETAS@[70] == 1550 && ZETAS@[121] == -308);
        assert(twiddle(70) == 261950 && twiddle(121) == -52052);
        assert(twiddle(70) * twiddle(121) == -13635021400) by (nonlinear_arith)
            requires
                twiddle(70) == 261950,
                twiddle(121) == -52052,
        ;
        assert((-13635021400int + 1) % 3329 == 0);
    } else if k == 71 {
        assert(ZETAS@[71] == 105 && ZETAS@[120] == -108);
        assert(twiddle(71) == 17745 && twiddle(120) == -18252);
        assert(twiddle(71) * twiddle(120) == -323881740) by (nonlinear_arith)
            requires
                twiddle(71) == 17745,
                twiddle(120) == -18252,
        ;
        assert((-323881740int + 1) % 3329 == 0);
    } else if k == 72 {
        assert(ZETAS@[72] == 422 && ZETAS@[119] == 478);
        assert(twiddle(72) == 71318 && twiddle(119) == 80782);
        assert(twiddle(72) * twiddle(119) == 5761210676) by (nonlinear_arith)
            requires
                twiddle(72) == 71318,
                twiddle(119) == 80782,
        ;
        assert((5761210676int + 1) % 3329 == 0);
    } else if k == 73 {
        assert(ZETAS@[73] == 587 && ZETAS@[118] == -870);
        assert(twiddle(73) == 99203 && twiddle(118) == -147030);
        assert(twiddle(73) * twiddle(118) == -14585817090) by (nonlinear_arith)
            requires
                twiddle(73) == 99203,
                twiddle(118) == -147030,
        ;
        assert((-14585817090int + 1) % 3329 == 0);
    } else if k == 74 {
        assert(ZETAS@[74] == 177 && ZETAS@[117] == -854);
        assert(twiddle(74) == 29913 && twiddle(117) == -144326);
        assert(twiddle(74) * twiddle(117) == -4317223638) by (nonlinear_arith)
            requires
                twiddle(74) == 29913,
                twiddle(117) == -144326,
        ;
        assert((-4317223638int + 1) % 3329 == 0);
    } else if k == 75 {
        assert(ZETAS@[75] == -235 && ZETAS@[116] == -1510);
        assert(twiddle(75) == -39715 && twiddle(116) == -255190);
        assert(twiddle(75) * twiddle(116) == 10134870850) by (nonlinear_arith)
            requires
                twiddle(75) == -39715,
                twiddle(116) == -255190,
        ;
        assert((10134870850int + 1) % 3329 == 0);
    } else if k == 76 {
        assert(ZETAS@[76] == -291 && ZETAS@[115] == 794);
        assert(twiddle(76) == -49179 && twiddle(115) == 134186);
        assert(twiddle(76) * twiddle(115) == -6599133294) by (nonlinear_arith)
            requires
                twiddle(76) == -49179,
                twiddle(115) == 134186,
        ;
        assert((-6599133294int + 1) % 3329 == 0);
    } else if k == 77 {
        assert(ZETAS@[77] == -460 && ZETAS@[114] == -1278);
        assert(twiddle(77) == -77740 && twiddle(114) == -215982);
        assert(twiddle(77) * twiddle(114) == 16790440680) by (nonlinear_arith)
            requires
                twiddle(77) == -77740,
                twiddle(114) == -215982,
        ;
        assert((16790440680int + 1) % 3329 == 0);
    } else if k == 78 {
        assert(ZETAS@[78] == 1574 && ZETAS@[113] == -1530);
        assert(twiddle(78) == 266006 && twiddle(113) == -258570);
        assert(twiddle(78) * twiddle(113) == -68781171420) by (nonlinear_arith)
            requires
                twiddle(78) == 266006,
                twiddle(113) == -258570,
        ;
        assert((-68781171420int + 1) % 3329 == 0);
    } else if k == 79 {
        assert(ZETAS@[79] == 1653 && ZETAS@[112] == -1185);
        assert(twiddle(79) == 279357 && twiddle(112) == -200265);
        assert(twiddle(79) * twiddle(112) == -55945429605) by (nonlinear_arith)
            requires
                twiddle(79) == 279357,
                twiddle(112) == -200265,
        ;
        assert((-55945429605int + 1) % 3329 == 0);
    } else if k == 80 {
        assert(ZETAS@[80] == -246 && ZETAS@[111] == -1659);
        assert(twiddle(80) == -41574 && twiddle(111) == -280371);
        assert(twiddle(80) * twiddle(111) == 11656143954) by (nonlinear_arith)
            requires
                twiddle(80) == -41574,
                twiddle(111) == -280371,
        ;
        assert((11656143954int + 1) % 3329 == 0);
    } else if k == 81 {
        assert(ZETAS@[81] == 778 && ZETAS@[110] == -1187);
        assert(twiddle(81) == 131482 && twiddle(110) == -200603);
        assert(twiddle(81) * twiddle(110) == -26375683646) by (nonlinear_arith)
            requires
                twiddle(81) == 131482,
                twiddle(110) == -200603,
        ;
        assert((-26375683646int + 1) % 3329 == 0);
    } else if k == 82 {
        assert(ZETAS@[82] == 1159 && ZETAS@[109] == 220);
        assert(twiddle(82) == 195871 && twiddle(109) == 37180);
        assert(twiddle(82) * twiddle(109) == 7282483780) by (nonlinear_arith)
            requires
                twiddle(82) == 195871,
                twiddle(109) == 37180,
        ;
        assert((7282483780int + 1) % 3329 == 0);
    } else if k == 83 {
        assert(ZETAS@[83] == -147 && ZETAS@[108] == -874);
        assert(twiddle(83) == -24843 && twiddle(108) == -147706);
        assert(twiddle(83) * twiddle(108) == 3669460158) by (nonlinear_arith)
            requires
                twiddle(83) == -24843,
                twiddle(108) == -147706,
        ;
        assert((3669460158int + 1) % 3329 == 0);
    } else if k == 84 {
        assert(ZETAS@[84] == -777 && ZETAS@[107] == -1335);
        assert(twiddle(84) == -131313 && twiddle(107) == -225615);
        assert(twiddle(84) * twiddle(107) == 29626182495) by (nonlinear_arith)
            requires
                twiddle(84) == -131313,
                twiddle(107) == -225615,
        ;
        assert((29626182495int + 1) % 3329 == 0);
    } else if k == 85 {
        assert(ZETAS@[85] == 1483 && ZETAS@[106] == 1218);
        assert(twiddle(85) == 250627 && twiddle(106) == 205842);
        assert(twiddle(85) * twiddle(106) == 51589562934) by (nonlinear_arith)
            requires
                twiddle(85) == 250627,
                twiddle(106) == 205842,
        ;
        assert((51589562934int + 1) % 3329 == 0);
    } else if k == 86 {
        assert(ZETAS@[86] == -602 && ZETAS@[105] == -136);
        assert(twiddle(86) == -101738 && twiddle(105) == -22984);
        assert(twiddle(86) * twiddle(105) == 2338346192) by (nonlinear_arith)
            requires
                twiddle(86) == -101738,
                twiddle(105) == -22984,
        ;
        assert((2338346192int + 1) % 3329 == 0);
    } else if k == 87 {
        assert(ZETAS@[87] == 1119 && ZETAS@[104] == -1215);
        assert(twiddle(87) == 189111 && twiddle(104) == -205335);
        assert(twiddle(87) * twiddle(104) == -38831107185) by (nonlinear_arith)
            requires
                twiddle(87) == 189111,
                twiddle(104) == -205335,
        ;
        assert((-38831107185int + 1) % 3329 == 0);
    } else if k == 88 {
        assert(ZETAS@[88] == -1590 && ZETAS@[103] == 384);
        assert(twiddle(88) == -268710 && twiddle(103) == 64896);
        assert(twiddle(88) * twiddle(103) == -17438204160) by (nonlinear_arith)
            requires
                twiddle(88) == -268710,
                twiddle(103) == 64896,
        ;
        assert((-17438204160int + 1) % 3329 == 0);
    } else if k == 89 {
        assert(ZETAS@[89] == 644 && ZETAS@[102] == -1465);
        assert(twiddle(89) == 108836 && twiddle(102) == -247585);
        assert(twiddle(89) * twiddle(102) == -26946161060) by (nonlinear_arith)
            requires
                twiddle(89) == 108836,
                twiddle(102) == -247585,
        ;
        assert((-26946161060int + 1) % 3329 == 0);
    } else if k == 90 {
        assert(ZETAS@[90] == -872 && ZETAS@[101] == -1285);
        assert(twiddle(90) == -147368 && twiddle(101) == -217165);
        assert(twiddle(90) * twiddle(101) == 32003171720) by (nonlinear_arith)
            requires
                twiddle(90) == -147368,
                twiddle(101) == -217165,
        ;
        assert((32003171720int + 1) % 3329 == 0);
    } else if k == 91 {
        assert(ZETAS@[91] == 349 && ZETAS@[100] == 1322);
        assert(twiddle(91) == 58981 && twiddle(100) == 223418);
        assert(twiddle(91) * twiddle(100) == 13177417058) by (nonlinear_arith)
            requires
                twiddle(91) == 58981,
                twiddle(100) == 223418,
        ;
        assert((13177417058int + 1) % 3329 == 0);
    } else if k == 92 {
        assert(ZETAS@[92] == 418 && ZETAS@[99] == 610);
        assert(twiddle(92) == 70642 && twiddle(99) == 103090);
        assert(twiddle(92) * twiddle(99) == 7282483780) by (nonlinear_arith)
            requires
                twiddle(92) == 70642,
                twiddle(99) == 103090,
        ;
        assert((7282483780int + 1) % 3329 == 0);
    } else if k == 93 {
        assert(ZETAS@[93] == 329 && ZETAS@[98] == 603);
        assert(twiddle(93) == 55601 && twiddle(98) == 101907);
        assert(twiddle(93) * twiddle(98) == 5666131107) by (nonlinear_arith)
            requires
                twiddle(93) == 55601,
                twiddle(98) == 101907,
        ;
        assert((5666131107int + 1) % 3329 == 0);
    } else if k == 94 {
        assert(ZETAS@[94] == -156 && ZETAS@[97] == 1097);
        assert(twiddle(94) == -26364 && twiddle(97) == 185393);
        assert(twiddle(94) * twiddle(97) == -4887701052) by (nonlinear_arith)
            requires
                twiddle(94) == -26364,
                twiddle(97) == 185393,
        ;
        assert((-4887701052int + 1) % 3329 == 0);
    } else if k == 95 {
        assert(ZETAS@[95] == -75 && ZETAS@[96] == 817);
        assert(twiddle(95) == -12675 && twiddle(96) == 138073);
        assert(twiddle(95) * twiddle(96) == -1750075275) by (nonlinear_arith)
            requires
                twiddle(95) == -12675,
                twiddle(96) == 138073,
        ;
        assert((-1750075275int + 1) % 3329 == 0);
    } else if k == 96 {
        assert(ZETAS@[96] == 817 && ZETAS@[95] == -75);
        assert(twiddle(96) == 138073 && twiddle(95) == -12675);
        assert(twiddle(96) * twiddle(95) == -1750075275) by (nonlinear_arith)
            requires
                twiddle(96) == 138073,
                twiddle(95) == -12675,
        ;
        assert((-1750075275int + 1) % 3329 == 0);
    } else if k == 97 {
        assert(ZETAS@[97] == 1097 && ZETAS@[94] == -156);
        assert(twiddle(97) == 185393 && twiddle(94) == -26364);
        assert(twiddle(97) * twiddle(94) == -4887701052) by (nonlinear_arith)
            requires
                twiddle(97) == 185393,
                twiddle(94) == -26364,
        ;
        assert((-4887701052int + 1) % 3329 == 0);
    } else if k == 98 {
        assert(ZETAS@[98] == 603 && ZETAS@[93] == 329);
        assert(twiddle(98) == 101907 && twiddle(93) == 55601);
        assert(twiddle(98) * twiddle(93) == 5666131107) by (nonlinear_arith)
            requires
                twiddle(98) == 101907,
                twiddle(93) == 55601,
        ;
        assert((5666131107int + 1) % 3329 == 0);
    } else if k == 99 {
        assert(ZETAS@[99] == 610 && ZETAS@[92] == 418);
        assert(twiddle(99) == 103090 && twiddle(92) == 70642);
        assert(twiddle(99) * twiddle(92) == 7282483780) by (nonlinear_arith)
            requires
                twiddle(99) == 103090,
                twiddle(92) == 70642,
        ;
        assert((7282483780int + 1) % 3329 == 0);
    } else if k == 100 {
        assert(ZETAS@[100] == 1322 && ZETAS@[91] == 349);
        assert(twiddle(100) == 223418 && twiddle(91) == 58981);
        assert(twiddle(100) * twiddle(91) == 13177417058) by (nonlinear_arith)
            requires
                twiddle(100) == 223418,
                twiddle(91) == 58981,
        ;
        assert((13177417058int + 1) % 3329 == 0);
    } else if k == 101 {
        assert(ZETAS@[101] == -1285 && ZETAS@[90] == -872);
        assert(twiddle(101) == -217165 && twiddle(90) == -147368);
        assert(twiddle(101) * twiddle(90) == 32003171720) by (nonlinear_arith)
            requires
                twiddle(101) == -217165,
                twiddle(90) == -147368,
        ;
        assert((32003171720int + 1) % 3329 == 0);
    } else if k == 102 {
        assert(ZETAS@[102] == -1465 && ZETAS@[89] == 644);
        assert(twiddle(102) == -247585 && twiddle(89) == 108836);
        assert(twiddle(102) * twiddle(89) == -26946161060) by (nonlinear_arith)
            requires
                twiddle(102) == -247585,
                twiddle(89) == 108836,
        ;
        assert((-26946161060int + 1) % 3329 == 0);
    } else if k == 103 {
        assert(ZETAS@[103] == 384 && ZETAS@[88] == -1590);
        assert(twiddle(103) == 64896 && twiddle(88) == -268710);
        assert(twiddle(103) * twiddle(88) == -17438204160) by (nonlinear_arith)
            requires
                twiddle(103) == 64896,
                twiddle(88) == -268710,
        ;
        assert((-17438204160int + 1) % 3329 == 0);
    } else if k == 104 {
        assert(ZETAS@[104] == -1215 && ZETAS@[87] == 1119);
        assert(twiddle(104) == -205335 && twiddle(87) == 189111);
        assert(twiddle(104) * twiddle(87) == -38831107185) by (nonlinear_arith)
            requires
                twiddle(104) == -205335,
                twiddle(87) == 189111,
        ;
        assert((-38831107185int + 1) % 3329 == 0);
    } else if k == 105 {
        assert(ZETAS@[105] == -136 && ZETAS@[86] == -602);
        assert(twiddle(105) == -22984 && twiddle(86) == -101738);
        assert(twiddle(105) * twiddle(86) == 2338346192) by (nonlinear_arith)
            requires
                twiddle(105) == -22984,
                twiddle(86) == -101738,
        ;
        assert((2338346192int + 1) % 3329 == 0);
    } else if k == 106 {
        assert(ZETAS@[106] == 1218 && ZETAS@[85] == 1483);
        assert(twiddle(106) == 205842 && twiddle(85) == 250627);
        assert(twiddle(106) * twiddle(85) == 51589562934) by (nonlinear_arith)
            requires
                twiddle(106) == 205842,
                twiddle(85) == 250627,
        ;
        assert((51589562934int + 1) % 3329 == 0);
    } else if k == 107 {
        assert(ZETAS@[107] == -1335 && ZETAS@[84] == -777);
        assert(twiddle(107) == -225615 && twiddle(84) == -131313);
        assert(twiddle(107) * twiddle(84) == 29626182495) by (nonlinear_arith)
            requires
                twiddle(107) == -225615,
                twiddle(84) == -131313,
        ;
        assert((29626182495int + 1) % 3329 == 0);
    } else if k == 108 {
        assert(ZETAS@[108] == -874 && ZETAS@[83] == -147);
        assert(twiddle(108) == -147706 && twiddle(83) == -24843);
        assert(twiddle(108) * twiddle(83) == 3669460158) by (nonlinear_arith)
            requires
                twiddle(108) == -147706,
                twiddle(83) == -24843,
        ;
        assert((3669460158int + 1) % 3329 == 0);
    } else if k == 109 {
        assert(ZETAS@[109] == 220 && ZETAS@[82] == 1159);
        assert(twiddle(109) == 37180 && twiddle(82) == 195871);
        assert(twiddle(109) * twiddle(82) == 7282483780) by (nonlinear_arith)
            requires
                twiddle(109) == 37180,
                twiddle(82) == 195871,
        ;
        assert((7282483780int + 1) % 3329 == 0);
    } else if k == 110 {
        assert(ZETAS@[110] == -1187 && ZETAS@[81] == 778);
        assert(twiddle(110) == -200603 && twiddle(81) == 131482);
        assert(twiddle(110) * twiddle(81) == -26375683646) by (nonlinear_arith)
            requires
                twiddle(110) == -200603,
                twiddle(81) == 131482,
        ;
        assert((-26375683646int + 1) % 3329 == 0);
    } else if k == 111 {
        assert(ZETAS@[111] == -1659 && ZETAS@[80] == -246);
        assert(twiddle(111) == -280371 && twiddle(80) == -41574);
        assert(twiddle(111) * twiddle(80) == 11656143954) by (nonlinear_arith)
            requires
                twiddle(111) == -280371,
                twiddle(80) == -41574,
        ;
        assert((11656143954int + 1) % 3329 == 0);
    } else if k == 112 {
        assert(ZETAS@[112] == -1185 && ZETAS@[79] == 1653);
        assert(twiddle(112) == -200265 && twiddle(79) == 279357);
        assert(twiddle(112) * twiddle(79) == -55945429605) by (nonlinear_arith)
            requires
                twiddle(112) == -200265,
                twiddle(79) == 279357,
        ;
        assert((-55945429605int + 1) % 3329 == 0);
    } else if k == 113 {
        assert(ZETAS@[113] == -1530 && ZETAS@[78] == 1574);
        assert(twiddle(113) == -258570 && twiddle(78) == 266006);
        assert(twiddle(113) * twiddle(78) == -68781171420) by (nonlinear_arith)
            requires
                twiddle(113) == -258570,
                twiddle(78) == 266006,
        ;
        assert((-68781171420int + 1) % 3329 == 0);
    } else if k == 114 {
        assert(ZETAS@[114] == -1278 && ZETAS@[77] == -460);
        assert(twiddle(114) == -215982 && twiddle(77) == -77740);
        assert(twiddle(114) * twiddle(77) == 16790440680) by (nonlinear_arith)
            requires
                twiddle(114) == -215982,
                twiddle(77) == -77740,
        ;
        assert((16790440680int + 1) % 3329 == 0);
    } else if k == 115 {
        assert(ZETAS@[115] == 794 && ZETAS@[76] == -291);
        assert(twiddle(115) == 134186 && twiddle(76) == -49179);
        assert(twiddle(115) * twiddle(76) == -6599133294) by (nonlinear_arith)
            requires
                twiddle(115) == 134186,
                twiddle(76) == -49179,
        ;
        assert((-6599133294int + 1) % 3329 == 0);
    } else if k == 116 {
        assert(ZETAS@[116] == -1510 && ZETAS@[75] == -235);
        assert(twiddle(116) == -255190 && twiddle(75) == -39715);
        assert(twiddle(116) * twiddle(75) == 10134870850) by (nonlinear_arith)
            requires
                twiddle(116) == -255190,
                twiddle(75) == -39715,
        ;
        assert((10134870850int + 1) % 3329 == 0);
    } else if k == 117 {
        assert(ZETAS@[117] == -854 && ZETAS@[74] == 177);
        assert(twiddle(117) == -144326 && twiddle(74) == 29913);
        assert(twiddle(117) * twiddle(74) == -4317223638) by (nonlinear_arith)
            requires
                twiddle(117) == -144326,
                twiddle(74) == 29913,
        ;
        assert((-4317223638int + 1) % 3329 == 0);
    } else if k == 118 {
        assert(ZETAS@[118] == -870 && ZETAS@[73] == 587);
        assert(twiddle(118) == -147030 && twiddle(73) == 99203);
        assert(twiddle(118) * twiddle(73) == -14585817090) by (nonlinear_arith)
            requires
                twiddle(118) == -147030,
                twiddle(73) == 99203,
        ;
        assert((-14585817090int + 1) % 3329 == 0);
    } else if k == 119 {
        assert(ZETAS@[119] == 478 && ZETAS@[72] == 422);
        assert(twiddle(119) == 80782 && twiddle(72) == 71318);
        assert(twiddle(119) * twiddle(72) == 5761210676) by (nonlinear_arith)
            requires
                twiddle(119) == 80782,
                twiddle(72) == 71318,
        ;
        assert((5761210676int + 1) % 3329 == 0);
    } else if k == 120 {
        assert(ZETAS@[120] == -108 && ZETAS@[71] == 105);
        assert(twiddle(120) == -18252 && twiddle(71) == 17745);
        assert(twiddle(120) * twiddle(71) == -323881740) by (nonlinear_arith)
            requires
                twiddle(120) == -18252,
                twiddle(71) == 17745,
        ;
        assert((-323881740int + 1) % 3329 == 0);
    } else if k == 121 {
        assert(ZETAS@[121] == -308 && ZETAS@[70] == 1550);
        assert(twiddle(121) == -52052 && twiddle(70) == 261950);
        assert(twiddle(121) * twiddle(70) == -13635021400) by (nonlinear_arith)
            requires
                twiddle(121) == -52052,
                twiddle(70) == 261950,
        ;
        assert((-13635021400int + 1) % 3329 == 0);
    } else if k == 122 {
        assert(ZETAS@[122] == 996 && ZETAS@[69] == 871);
        assert(twiddle(122) == 168324 && twiddle(69) == 147199);
        assert(twiddle(122) * twiddle(69) == 24777124476) by (nonlinear_arith)
            requires
                twiddle(122) == 168324,
                twiddle(69) == 147199,
        ;
        assert((24777124476int + 1) % 3329 == 0);
    } else if k == 123 {
        assert(ZETAS@[123] == 991 && ZETAS@[68] == -1251);
        assert(twiddle(123) == 167479 && twiddle(68) == -211419);
        assert(twiddle(123) * twiddle(68) == -35408242701) by (nonlinear_arith)
            requires
                twiddle(123) == 167479,
                twiddle(68) == -211419,
        ;
        assert((-35408242701int + 1) % 3329 == 0);
    } else if k == 124 {
        assert(ZETAS@[124] == 958 && ZETAS@[67] == 843);
        assert(twiddle(124) == 161902 && twiddle(67) == 142467);
        assert(twiddle(124) * twiddle(67) == 23065692234) by (nonlinear_arith)
            requires
                twiddle(124) == 161902,
                twiddle(67) == 142467,
        ;
        assert((23065692234int + 1) % 3329 == 0);
    } else if k == 125 {
        assert(ZETAS@[125] == -1460 && ZETAS@[66] == 555);
        assert(twiddle(125) == -246740 && twiddle(66) == 93795);
        assert(twiddle(125) * twiddle(66) == -23142978300) by (nonlinear_arith)
            requires
                twiddle(125) == -246740,
                twiddle(66) == 93795,
        ;
        assert((-23142978300int + 1) % 3329 == 0);
    } else if k == 126 {
        assert(ZETAS@[126] == 1522 && ZETAS@[65] == 430);
        assert(twiddle(126) == 257218 && twiddle(65) == 72670);
        assert(twiddle(126) * twiddle(65) == 18692032060) by (nonlinear_arith)
            requires
                twiddle(126) == 257218,
                twiddle(65) == 72670,
        ;
        assert((18692032060int + 1) % 3329 == 0);
    } else if k == 127 {
        assert(ZETAS@[127] == 1628 && ZETAS@[64] == -1103);
        assert(twiddle(127) == 275132 && twiddle(64) == -186407);
        assert(twiddle(127) * twiddle(64) == -51286530724) by (nonlinear_arith)
            requires
                twiddle(127) == 275132,
                twiddle(64) == -186407,
        ;
        assert((-51286530724int + 1) % 3329 == 0);
    }
}

/// `c` times every coefficient.
pub open spec fn scale(c: int, f: Seq<int>) -> Seq<int> {
    Seq::new(256, |i: int| c * f[i])
}

/// Pointwise congruence of two coefficient sequences.
pub open spec fn cong_seq(a: Seq<int>, b: Seq<int>) -> bool {
    forall|i: int| 0 <= i < 256 ==> cong(#[trigger] a[i], b[i])
}

proof fn lemma_partner_block(i: int, len: int)
    requires
        layer_len(len),
        0 <= i < 256,
    ensures
        i % (2 * len) < len ==> (i + len) / (2 * len) == i / (2 * len) && (i + len) % (2 * len) == i
            % (2 * len) + len,
        i % (2 * len) >= len ==> (i - len) / (2 * len) == i / (2 * len) && (i - len) % (2 * len) == i
            % (2 * len) - len,
{
    let q = i / (2 * len);
    let p = i % (2 * len);
    vstd::arithmetic::div_mod::lemma_fundamental_div_mod(i, 2 * len);
    vstd::arithmetic::div_mod::lemma_mod_pos_bound(i, 2 * len);
    if p < len {
        vstd::arithmetic::div_mod::lemma_fundamental_div_mod_converse(i + len, 2 * len, q, p + len);
    } else {
        vstd::arithmetic::div_mod::lemma_fundamental_div_mod_converse(i - len, 2 * len, q, p - len);
    }
}

/// A Gentleman-Sande layer undoes the Cooley-Tukey layer of the same length, up to a factor 2.
proof fn lemma_inv_fwd_layer(f: Seq<int>, len: int)
    requires
        layer_len(len),
        len >= 2,
        f.len() == 256,
    ensures
        cong_seq(invntt_layer(ntt_layer(f, len), len), scale(2, f)),
{
    let g = ntt_layer(f, len);
    assert forall|i: int| 0 <= i < 256 implies cong(#[trigger] invntt_layer(g, len)[i], scale(2, f)[i]) by {
        let b = i / (2 * len);
        let p = i % (2 * len);
        lemma_layer_index(i, len);
        lemma_partner_block(i, len);
        let w = twiddle(128int / len + b);
        if p < len {
            assert(g[i] == f[i] + w * f[i + len]);
            assert(g[i + len] == f[i] - w * f[i + len]);
            assert(invntt_layer(g, len)[i] == 2 * f[i]);
        } else {
            let w2 = twiddle(256int / len - 1 - b);
            assert(g[i] == f[i - len] - w * f[i]);
            assert(g[i - len] == f[i - len] + w * f[i]);
            let k = 128int / len + b;
            assert(1 <= k < 128 && layer_base(k) == 128int / len && 3 * layer_base(k) - 1 - k == 256int / len - 1 - b) by {
                lemma_layer_base(len, b);
            }
            lemma_twiddle_pair(k);
            let v = invntt_layer(g, len)[i];
            assert(v == w2 * (g[i] - g[i - len]));
            assert(v - 2 * f[i] == (w * w2 + 1) * (-2 * f[i])) by (nonlinear_arith)
                requires
                    v == w2 * (g[i] - g[i - len]),
                    g[i] == f[i - len] - w * f[i],
                    g[i - len] == f[i - len] + w * f[i],
            ;
            assert(cong(w * w2, -1));
            assert((w * w2 + 1) % 3329 == 0);
            lemma_mod_mul_zero(w * w2 + 1, -2 * f[i]);
        }
    }
}

proof fn lemma_layer_base(len: int, b: int)
    requires
        layer_len(len),
        len >= 2,
        0 <= b < 128int / len,
    ensures
        1 <= 128int / len + b < 128,
        layer_base(128int / len + b) == 128int / len,
        256int / len == 2 * (128int / len),
{
    if len == 128 {
        assert(128int / 128 == 1 && 256int / 128 == 2);
    } else if len == 64 {
        assert(128int / 64 == 2 && 256int / 64 == 4);
    } else if len == 32 {
        assert(128int / 32 == 4 && 256int / 32 == 8);
    } else if len == 16 {
        assert(128int / 16 == 8 && 256int / 16 == 16);
    } else if len == 8 {
        assert(128int / 8 == 16 && 256int / 8 == 32);
    } else if len == 4 {
        assert(128int / 4 == 32 && 256int / 4 == 64);
    } else {
        assert(128int / 2 == 64 && 256int / 2 == 128);
    }
}

/// A Gentleman-Sande layer commutes with scaling.
proof fn lemma_inv_layer_scale(f: Seq<int>, c: int, len: int)
    requires
        layer_len(len),
        f.len() == 256,
    ensures
        invntt_layer(scale(c, f), len) == scale(c, invntt_layer(f, len)),
{
    assert forall|i: int| 0 <= i < 256 implies #[trigger] invntt_layer(scale(c, f), len)[i] == scale(
        c,
        invntt_layer(f, len),
    )[i] by {
        lemma_layer_index(i, len);
        let p = i % (2 * len);
        let w = twiddle(256int / len - 1 - i / (2 * len));
        if p < len {
            assert(c * f[i] + c * f[i + len] == c * (f[i] + f[i + len])) by (nonlinear_arith);
        } else {
            assert(w * (c * f[i] - c * f[i - len]) == c * (w * (f[i] - f[i - len]))) by (nonlinear_arith);
        }
    }
    assert(invntt_layer(scale(c, f), len) =~= scale(c, invntt_layer(f, len)));
}

proof fn lemma_cong_seq_trans(a: Seq<int>, b: Seq<int>, c: Seq<int>)
    requires
        cong_seq(a, b),
        cong_seq(b, c),
    ensures
        cong_seq(a, c),
{
    assert forall|i: int| 0 <= i < 256 implies cong(#[trigger] a[i], c[i]) by {
        lemma_cong_trans(a[i], b[i], c[i]);
    }
}

/// The inverse layers of length 2 up to `len / 2`, applied to the full forward transform,
/// leave `len / 2` times the forward layers above `len / 2`.
proof fn lemma_inv_prefix(f: Seq<int>, len: int)
    requires
        f.len() == 256,
        len == 2 || len == 4 || len == 8 || len == 16 || len == 32 || len == 64 || len == 128 || len
            == 256,
    ensures
        cong_seq(invntt_upto(ntt_upto(f, 1), len), scale(len / 2, ntt_upto(f, len / 2))),
    decreases len,
{
    let x = ntt_upto(f, 1);
    lemma_ntt_upto_len(f, 1);
    if len == 2 {
        assert(invntt_upto(x, 2) == x);
        assert forall|i: int| 0 <= i < 256 implies cong(#[trigger] invntt_upto(x, 2)[i], scale(1, x)[i]) by {
            assert((x[i] - 1 * x[i]) % 3329 == 0);
        }
    } else {
        let h = len / 2;
        lemma_inv_prefix(f, h);
        let nh2 = ntt_upto(f, h / 2);
        let nh = ntt_upto(f, h);
        lemma_ntt_upto_len(f, h / 2);
        lemma_ntt_upto_len(f, h);
        let prev = invntt_upto(x, h);
        lemma_invntt_upto_len(x, h);
        assert(invntt_upto(x, len) == invntt_layer(prev, h));
        lemma_layer_cong(prev, scale(h / 2, nh2), h);
        lemma_inv_layer_scale(nh2, h / 2, h);
        assert(nh2 == ntt_layer(nh, h));
        lemma_inv_fwd_layer(nh, h);
        // scale(h/2, I(F(nh))) is congruent to scale(h/2, scale(2, nh)) = scale(len/2, nh)
        assert forall|i: int| 0 <= i < 256 implies cong(
            #[trigger] scale(h / 2, invntt_layer(nh2, h))[i],
            scale(len / 2, nh)[i],
        ) by {
            let a = invntt_layer(nh2, h)[i];
            let hh = h / 2;
            let y = nh[i];
            assert(h == 2 * hh);
            lemma_cong_mul(a, scale(2, nh)[i], hh);
            assert(scale(hh, invntt_layer(nh2, h))[i] == hh * a);
            assert(scale(2, nh)[i] == 2 * y);
            assert(scale(len / 2, nh)[i] == h * y);
            assert(a * hh == hh * a) by (nonlinear_arith);
            assert((2 * y) * hh == h * y) by (nonlinear_arith)
                requires
                    h == 2 * hh,
            ;
        }
        assert(cong_seq(invntt_layer(prev, h), invntt_layer(scale(h / 2, nh2), h)));
        lemma_cong_seq_trans(
            invntt_layer(prev, h),
            invntt_layer(scale(h / 2, nh2), h),
            scale(len / 2, nh),
        );
    }
}

proof fn lemma_ntt_upto_len(f: Seq<int>, len: int)
    requires
        f.len() == 256,
    ensures
        ntt_upto(f, len).len() == 256,
    decreases 256 - len,
{
    if !(len >= 128 || len < 1) {
        lemma_ntt_upto_len(f, 2 * len);
    }
}

proof fn lemma_invntt_upto_len(f: Seq<int>, len: int)
    requires
        f.len() == 256,
    ensures
        invntt_upto(f, len).len() == 256,
    decreases len,
{
    if !(len <= 2 || len > 256) {
        lemma_invntt_upto_len(f, len / 2);
    }
}

/// The inverse transform undoes the forward transform: `invntt_spec(ntt_spec(f))` is `f`
/// times the Montgomery factor 2^16, coefficient by coefficient, modulo q.
pub proof fn lemma_invntt_ntt(f: Seq<int>)
    requires
        f.len() == 256,
    ensures
        forall|i: int| 0 <= i < 256 ==> cong(#[trigger] invntt_spec(ntt_spec(f))[i], f[i] * 65536),
{
    lemma_inv_prefix(f, 256);
    let g = invntt_upto(ntt_upto(f, 1), 256);
    assert(ntt_upto(f, 128) == f);
    assert forall|i: int| 0 <= i < 256 implies cong(#[trigger] invntt_spec(ntt_spec(f))[i], f[i] * 65536) by {
        assert(cong(g[i], scale(128, f)[i]));
        lemma_cong_mul(g[i], 128 * f[i], 1441int * 169);
        assert(g[i] * 1441 * rinv() == g[i] * (1441 * 169)) by (nonlinear_arith);
        assert(128 * f[i] * (1441 * 169) - f[i] * 65536 == f[i] * (128 * 1441 * 169 - 65536)) by (nonlinear_arith);
        assert((128 * 1441 * 169 - 65536) % 3329 == 0);
        lemma_mod_mul_zero(f[i], 128 * 1441 * 169 - 65536);
        lemma_cong_trans(g[i] * (1441 * 169), 128 * f[i] * (1441 * 169), f[i] * 65536);
    }
}


proof fn lemma_invntt_upto_cong(a: Seq<int>, b: Seq<int>, len: int)
    requires
        a.len() == 256,
        b.len() == 256,
        cong_seq(a, b),
        len == 2 || len == 4 || len == 8 || len == 16 || len == 32 || len == 64 || len == 128 || len
            == 256,
    ensures
        cong_seq(invntt_upto(a, len), invntt_upto(b, len)),
    decreases len,
{
    if len > 2 {
        lemma_invntt_upto_cong(a, b, len / 2);
        lemma_invntt_upto_len(a, len / 2);
        lemma_invntt_upto_len(b, len / 2);
        lemma_layer_cong(invntt_upto(a, len / 2), invntt_upto(b, len / 2), len / 2);
    }
}

/// Running `ntt` and then `invntt` on the result gives back the input times the Montgomery
/// factor 2^16, coefficient by coefficient, modulo q: the contracts of the two functions
/// compose to this.
pub proof fn lemma_ntt_then_invntt(a: Seq<i16>, r1: Seq<i16>, r2: Seq<i16>)
    requires
        a.len() == 256,
        cong_all(r1, ntt_spec(ints(a))),
        cong_all(r2, invntt_spec(ints(r1))),
    ensures
        forall|i: int| 0 <= i < 256 ==> cong(#[trigger] r2[i] as int, a[i] * 65536),
{
    let x = ints(r1);
    let y = ntt_spec(ints(a));
    lemma_ntt_upto_len(ints(a), 1);
    assert(cong_seq(x, y));
    lemma_invntt_upto_cong(x, y, 256);
    lemma_invntt_ntt(ints(a));
    lemma_invntt_upto_len(x, 256);
    lemma_invntt_upto_len(y, 256);
    assert forall|i: int| 0 <= i < 256 implies cong(#[trigger] r2[i] as int, a[i] * 65536) by {
        let gx = invntt_upto(x, 256)[i];
        let gy = invntt_upto(y, 256)[i];
        lemma_cong_mul(gx, gy, 1441int * 169);
        assert(invntt_spec(x)[i] == gx * 1441 * rinv());
        assert(invntt_spec(y)[i] == gy * 1441 * rinv());
        assert(gx * 1441 * rinv() == gx * (1441int * 169)) by (nonlinear_arith);
        assert(gy * 1441 * rinv() == gy * (1441int * 169)) by (nonlinear_arith);
        assert(ints(a)[i] == a[i] as int);
        lemma_cong_trans(r2[i] as int, invntt_spec(x)[i], invntt_spec(y)[i]);
        lemma_cong_trans(r2[i] as int, invntt_spec(y)[i], a[i] * 65536);
    }
}

} // verus!
