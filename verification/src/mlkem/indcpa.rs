//! The IND-CPA public-key encryption scheme underneath ML-KEM (K-PKE).
use vstd::prelude::*;

use crate::fips202::{
    f_pow, lemma_absorb_len, lemma_squeeze_len, shake128_absorb_spec, squeeze, zero_state,
    SHAKE128_RATE,
};
use crate::fips202::{sha3_512_spec, shake256_spec};
use crate::mlkem::coeff::{compress_d, decompress_d, modq};
use crate::mlkem::ntt::{cong_all, ints, invntt_spec, ntt_spec};
use crate::mlkem::poly::{
    basemul_spec, cbd_spec, msg_bit, msg_byte, pack12, poly_reduced, poly_small, unpack12_hi,
    unpack12_lo, Poly,
};
use crate::mlkem::polyvec::{basemul_acc_spec, pack10, unpack10, vec_bounded, vec_small, PolyVec};
use crate::mlkem::ntt::bounded;
use crate::mlkem::reduce::{centered, cong};
use crate::mlkem::symmetric::{hash_g, kyber_shake128_absorb, xof_input, xof_squeezeblocks};

verus! {

/// The first 12-bit candidate of the three bytes at `3g`.
pub open spec fn cand0(buf: Seq<u8>, g: int) -> int {
    buf[3 * g] + 256 * (buf[3 * g + 1] % 16)
}

/// The second 12-bit candidate of the three bytes at `3g`.
pub open spec fn cand1(buf: Seq<u8>, g: int) -> int {
    buf[3 * g + 1] / 16 + 16 * buf[3 * g + 2]
}

/// The candidates of the first `g` groups of three bytes that are below q, in order.
pub open spec fn accepted(buf: Seq<u8>, g: nat) -> Seq<i16>
    decreases g,
{
    if g == 0 {
        Seq::empty()
    } else {
        let prev = accepted(buf, (g - 1) as nat);
        let a = cand0(buf, g - 1);
        let b = cand1(buf, g - 1);
        let p1 = if a < 3329 {
            prev.push(a as i16)
        } else {
            prev
        };
        if b < 3329 {
            p1.push(b as i16)
        } else {
            p1
        }
    }
}

/// The accepted candidates of all complete groups of `buf`.
pub open spec fn uniform(buf: Seq<u8>) -> Seq<i16> {
    accepted(buf, buf.len() / 3)
}

proof fn lemma_accepted_mono(buf: Seq<u8>, g: nat, h: nat)
    requires
        g <= h,
    ensures
        accepted(buf, g).len() <= accepted(buf, h).len(),
        accepted(buf, h).take(accepted(buf, g).len() as int) == accepted(buf, g),
    decreases h,
{
    if g < h {
        lemma_accepted_mono(buf, g, (h - 1) as nat);
        let p = accepted(buf, (h - 1) as nat);
        let n = accepted(buf, g).len() as int;
        assert(accepted(buf, h).take(n) =~= p.take(n));
    } else {
        assert(accepted(buf, h).take(accepted(buf, g).len() as int) =~= accepted(buf, g));
    }
}

/// Accepted candidates over `a + b` with `a` a whole number of groups.
proof fn lemma_accepted_concat(a: Seq<u8>, b: Seq<u8>, g: nat)
    requires
        a.len() % 3 == 0,
        g <= b.len() / 3,
    ensures
        accepted(a + b, a.len() / 3 + g) == accepted(a, a.len() / 3) + accepted(b, g),
    decreases g,
{
    let n = a.len() / 3;
    if g == 0 {
        lemma_accepted_prefix(a, b, n);
        assert(accepted(a, n) + accepted(b, 0) =~= accepted(a, n));
    } else {
        lemma_accepted_concat(a, b, (g - 1) as nat);
        let gg = (n + g - 1) as int;
        assert(3 * gg + 2 < a.len() + b.len()) by {
            assert(3 * (g - 1) + 2 < b.len());
        }
        assert((a + b)[3 * gg] == b[3 * (g - 1)]);
        assert((a + b)[3 * gg + 1] == b[3 * (g - 1) + 1]);
        assert((a + b)[3 * gg + 2] == b[3 * (g - 1) + 2]);
        let pa = accepted(a, n);
        let pb = accepted(b, (g - 1) as nat);
        assert((pa + pb).push(cand0(b, g - 1) as i16) =~= pa + pb.push(cand0(b, g - 1) as i16));
        assert((pa + pb).push(cand1(b, g - 1) as i16) =~= pa + pb.push(cand1(b, g - 1) as i16));
        assert((pa + pb.push(cand0(b, g - 1) as i16)).push(cand1(b, g - 1) as i16) =~= pa + pb.push(
            cand0(b, g - 1) as i16,
        ).push(cand1(b, g - 1) as i16));
    }
}

/// The groups of `a` are the first groups of `a + b`.
proof fn lemma_accepted_prefix(a: Seq<u8>, b: Seq<u8>, g: nat)
    requires
        3 * g <= a.len(),
    ensures
        accepted(a + b, g) == accepted(a, g),
    decreases g,
{
    if g > 0 {
        lemma_accepted_prefix(a, b, (g - 1) as nat);
        assert((a + b)[3 * (g - 1)] == a[3 * (g - 1)]);
        assert((a + b)[3 * (g - 1) + 1] == a[3 * (g - 1) + 1]);
        assert((a + b)[3 * (g - 1) + 2] == a[3 * (g - 1) + 2]);
    }
}

/// Rejection sampling: copies the accepted candidates of `buf` into `r` from `start` on,
/// until `r` is full or `buf` is used up; returns how many were copied.
fn rej_uniform(r: &mut [i16; 256], start: usize, buf: &[u8]) -> (n: usize)
    requires
        start <= 256,
    ensures
        n == if uniform(buf@).len() < 256 - start {
            uniform(buf@).len() as int
        } else {
            256 - start
        },
        forall|k: int| 0 <= k < n ==> #[trigger] final(r)@[start + k] == uniform(buf@)[k],
        forall|k: int| 0 <= k < start ==> #[trigger] final(r)@[k] == old(r)@[k],
        forall|k: int| start + n <= k < 256 ==> #[trigger] final(r)@[k] == old(r)@[k],
        forall|k: int| 0 <= k < uniform(buf@).len() ==> 0 <= #[trigger] uniform(buf@)[k] < 3329,
{
    let ghost r0 = r@;
    let cap = 256 - start;
    let mut ctr: usize = 0;
    let mut pos: usize = 0;
    proof {
        lemma_accepted_bounded(buf@, 0);
    }
    while ctr < cap && buf.len() - pos >= 3
        invariant
            start <= 256,
            cap == 256 - start,
            ctr <= cap,
            pos % 3 == 0,
            pos <= buf.len(),
            ctr < cap ==> ctr == accepted(buf@, (pos / 3) as nat).len(),
            ctr == cap ==> ctr <= accepted(buf@, (pos / 3) as nat).len(),
            forall|k: int| 0 <= k < ctr ==> #[trigger] r@[start + k] == accepted(buf@, (pos / 3) as nat)[k],
            forall|k: int| 0 <= k < start ==> #[trigger] r@[k] == r0[k],
            forall|k: int| start + ctr <= k < 256 ==> #[trigger] r@[k] == r0[k],
            r0.len() == 256,
            forall|k: int| 0 <= k < accepted(buf@, (pos / 3) as nat).len() ==> 0 <= #[trigger] accepted(buf@, (pos / 3) as nat)[k] < 3329,
        decreases buf.len() - pos,
    {
        let ghost g = (pos / 3) as nat;
        let b0 = buf[pos] as u16;
        let b1 = buf[pos + 1] as u16;
        let b2 = buf[pos + 2] as u16;
        let val0 = b0 + 256 * (b1 % 16);
        let val1 = b1 / 16 + 16 * b2;
        proof {
            assert((pos + 3) / 3 == g + 1);
            assert(3 * g == pos);
            assert(val0 == cand0(buf@, g as int) && val1 == cand1(buf@, g as int));
            lemma_accepted_bounded(buf@, g + 1);
        }
        let ghost prev = accepted(buf@, g);
        if val0 < 3329 {
            r[start + ctr] = val0 as i16;
            ctr = ctr + 1;
        }
        let ghost mid = if val0 < 3329 {
            prev.push(val0 as i16)
        } else {
            prev
        };
        if ctr < cap && val1 < 3329 {
            r[start + ctr] = val1 as i16;
            ctr = ctr + 1;
        }
        pos = pos + 3;
        proof {
            assert(accepted(buf@, g + 1) == if val1 < 3329 {
                mid.push(val1 as i16)
            } else {
                mid
            });
        }
    }
    proof {
        let all = (buf@.len() / 3) as nat;
        let g = (pos / 3) as nat;
        if ctr < cap {
            assert(pos + 3 > buf.len());
            assert(g == all);
        } else {
            assert(g <= all);
        }
        lemma_accepted_mono(buf@, g, all);
        lemma_accepted_bounded(buf@, all);
        assert forall|k: int| 0 <= k < ctr implies #[trigger] r@[start + k] == uniform(buf@)[k] by {
            assert(accepted(buf@, all).take(accepted(buf@, g).len() as int)[k] == accepted(buf@, g)[k]);
        }
    }
    ctr
}

proof fn lemma_accepted_bounded(buf: Seq<u8>, g: nat)
    ensures
        forall|k: int| 0 <= k < accepted(buf, g).len() ==> 0 <= #[trigger] accepted(buf, g)[k] < 3329,
    decreases g,
{
    if g > 0 {
        lemma_accepted_bounded(buf, (g - 1) as nat);
        let prev = accepted(buf, (g - 1) as nat);
        let a = cand0(buf, g - 1);
        let b = cand1(buf, g - 1);
        assert(0 <= a <= 4095 && 0 <= b <= 4095);
        let p1 = if a < 3329 {
            prev.push(a as i16)
        } else {
            prev
        };
        assert forall|k: int| 0 <= k < p1.len() implies 0 <= #[trigger] p1[k] < 3329 by {
            if k < prev.len() {
                assert(p1[k] == prev[k]);
            }
        }
        let p2 = if b < 3329 {
            p1.push(b as i16)
        } else {
            p1
        };
        assert forall|k: int| 0 <= k < p2.len() implies 0 <= #[trigger] p2[k] < 3329 by {
            if k < p1.len() {
                assert(p2[k] == p1[k]);
            }
        }
        assert(accepted(buf, g) == p2);
    }
}


/// The first `n` SHAKE128 output blocks for matrix entry `(x, y)`.
pub open spec fn xof_stream(seed: Seq<u8>, x: u8, y: u8, n: nat) -> Seq<u8> {
    squeeze(shake128_absorb_spec(xof_input(seed, x, y)), 168, n)
}

/// The most output blocks the sampler reads for one matrix entry.
pub const MAX_XOF_BLOCKS: u64 = 0xffff_ffff_ffff_ffff;

/// `coeffs` are the uniform samples of the stream for `(x, y)`: the first 256 candidates
/// below q of the first `n` blocks, for some `n` of at least 3 blocks where there are 256 of
/// them (or, should `MAX_XOF_BLOCKS` blocks not hold 256, all of them, the rest left as 0).
pub open spec fn sampled(seed: Seq<u8>, x: u8, y: u8, coeffs: Seq<i16>) -> bool {
    exists|n: nat|
        3 <= n <= MAX_XOF_BLOCKS && {
            let u = uniform(#[trigger] xof_stream(seed, x, y, n));
            &&& coeffs.len() == 256
            &&& (u.len() >= 256 || n == MAX_XOF_BLOCKS)
            &&& forall|k: int| 0 <= k < 256 ==> #[trigger] coeffs[k] == if k < u.len() {
                u[k]
            } else {
                0i16
            }
        }
}

proof fn lemma_stream_facts(seed: Seq<u8>, x: u8, y: u8, n: nat)
    ensures
        shake128_absorb_spec(xof_input(seed, x, y)).len() == 200,
        xof_stream(seed, x, y, n).len() == 168 * n,
        xof_stream(seed, x, y, n + 1) == xof_stream(seed, x, y, n) + f_pow(
            f_pow(shake128_absorb_spec(xof_input(seed, x, y)), n),
            1,
        ).take(168),
{
    let st = shake128_absorb_spec(xof_input(seed, x, y));
    lemma_absorb_len(zero_state(), xof_input(seed, x, y), 168, 0x1f);
    lemma_squeeze_len(st, 168, n);
    assert(f_pow(f_pow(st, n), 0) == f_pow(st, n));
}

/// The next output block extends the stream, and the samples of the extension are those of
/// the stream followed by those of the block.
proof fn lemma_next_block(seed: Seq<u8>, x: u8, y: u8, nb: nat, s_old: Seq<u8>, blk: Seq<u8>)
    requires
        s_old == f_pow(shake128_absorb_spec(xof_input(seed, x, y)), nb),
        blk.len() == 168,
        blk.subrange(0, 168) == squeeze(s_old, 168, 1),
    ensures
        uniform(xof_stream(seed, x, y, nb + 1)) == uniform(xof_stream(seed, x, y, nb)) + uniform(blk),
        f_pow(s_old, 1) == f_pow(shake128_absorb_spec(xof_input(seed, x, y)), nb + 1),
{
    assert(f_pow(s_old, 0) == s_old);
    lemma_stream_facts(seed, x, y, nb);
    let a = xof_stream(seed, x, y, nb);
    assert(blk =~= blk.subrange(0, 168));
    assert(squeeze(s_old, 168, 1) == squeeze(s_old, 168, 0) + f_pow(s_old, 1).take(168));
    assert(squeeze(s_old, 168, 0) + f_pow(s_old, 1).take(168) =~= f_pow(s_old, 1).take(168));
    assert(a.len() % 3 == 0);
    lemma_accepted_concat(a, blk, 56);
    assert(a.len() / 3 + 56 == (a + blk).len() / 3);
    assert(blk.len() / 3 == 56);
}

/// Samples one matrix entry from the XOF stream for `(x, y)`.
#[verifier::rlimit(50)]
fn gen_entry(p: &mut Poly, seed: &[u8; 32], x: u8, y: u8)
    requires
        forall|k: int| 0 <= k < 256 ==> #[trigger] old(p).coeffs@[k] == 0,
    ensures
        sampled(seed@, x, y, final(p).coeffs@),
        forall|k: int| 0 <= k < 256 ==> 0 <= #[trigger] final(p).coeffs@[k] < 3329,
{
    let ghost st0 = shake128_absorb_spec(xof_input(seed@, x, y));
    let mut state = kyber_shake128_absorb(seed, x, y);
    let mut buf = [0u8; 504];
    xof_squeezeblocks(&mut buf, 3, &mut state);
    proof {
        lemma_stream_facts(seed@, x, y, 3);
        assert(buf@ =~= buf@.subrange(0, 504));
    }
    let ghost c00 = p.coeffs@;
    let mut ctr = rej_uniform(&mut p.coeffs, 0, &buf);
    proof {
        assert forall|k: int| 0 <= k < ctr implies #[trigger] p.coeffs@[k] == uniform(xof_stream(seed@, x, y, 3))[k] by {
            assert(p.coeffs@[0 + k] == uniform(buf@)[k]);
        }
        assert forall|k: int| ctr <= k < 256 implies #[trigger] p.coeffs@[k] == 0 by {
            assert(p.coeffs@[k] == c00[k]);
        }
    }
    let mut nb: u64 = 3;
    let mut blk = [0u8; 168];
    while ctr < 256 && nb < MAX_XOF_BLOCKS
        invariant
            3 <= nb <= MAX_XOF_BLOCKS,
            ctr <= 256,
            state.rate == SHAKE128_RATE,
            state.state_bytes() == f_pow(st0, nb as nat),
            st0 == shake128_absorb_spec(xof_input(seed@, x, y)),
            ctr == if uniform(xof_stream(seed@, x, y, nb as nat)).len() < 256 {
                uniform(xof_stream(seed@, x, y, nb as nat)).len() as int
            } else {
                256
            },
            forall|k: int| 0 <= k < ctr ==> #[trigger] p.coeffs@[k] == uniform(xof_stream(seed@, x, y, nb as nat))[k],
            forall|k: int| ctr <= k < 256 ==> #[trigger] p.coeffs@[k] == 0,
            forall|k: int|
                0 <= k < uniform(xof_stream(seed@, x, y, nb as nat)).len() ==> 0 <= #[trigger] uniform(
                    xof_stream(seed@, x, y, nb as nat),
                )[k] < 3329,
        decreases MAX_XOF_BLOCKS - nb,
    {
        let ghost s_old = state.state_bytes();
        xof_squeezeblocks(&mut blk, 1, &mut state);
        proof {
            lemma_next_block(seed@, x, y, nb as nat, s_old, blk@);
        }
        let ghost c0 = p.coeffs@;
        let got = rej_uniform(&mut p.coeffs, ctr, &blk);
        proof {
            let u = uniform(xof_stream(seed@, x, y, nb as nat));
            let w = uniform(blk@);
            assert forall|k: int| 0 <= k < ctr + got implies #[trigger] p.coeffs@[k] == (u + w)[k] by {
                if k < ctr {
                    assert(p.coeffs@[k] == c0[k]);
                } else {
                    assert(p.coeffs@[ctr + (k - ctr)] == w[k - ctr]);
                }
            }
            assert forall|k: int| 0 <= k < (u + w).len() implies 0 <= #[trigger] (u + w)[k] < 3329 by {
                if k < u.len() {
                } else {
                    assert((u + w)[k] == w[k - u.len()]);
                }
            }
        }
        ctr = ctr + got;
        nb = nb + 1;
    }
    proof {
        let u = uniform(xof_stream(seed@, x, y, nb as nat));
        assert forall|k: int| 0 <= k < 256 implies #[trigger] p.coeffs@[k] == if k < u.len() {
            u[k]
        } else {
            0i16
        } by {}
        assert forall|k: int| 0 <= k < 256 implies 0 <= #[trigger] p.coeffs@[k] < 3329 by {
            if k < ctr {
                assert(p.coeffs@[k] == u[k]);
            }
        }
    }
}

/// The sampled coefficients for `(x, y)` (unique, see `lemma_sampled_unique`).
pub open spec fn sample_spec(seed: Seq<u8>, x: u8, y: u8) -> Seq<i16> {
    choose|c: Seq<i16>| sampled(seed, x, y, c)
}

/// The XOF input indices of matrix entry `(i, j)`.
pub open spec fn entry_xy(i: int, j: int, transposed: bool) -> (u8, u8) {
    if transposed {
        (i as u8, j as u8)
    } else {
        (j as u8, i as u8)
    }
}

proof fn lemma_stream_prefix(seed: Seq<u8>, x: u8, y: u8, n: nat, m: nat)
    requires
        n <= m,
    ensures
        uniform(xof_stream(seed, x, y, m)).take(uniform(xof_stream(seed, x, y, n)).len() as int)
            == uniform(xof_stream(seed, x, y, n)),
        uniform(xof_stream(seed, x, y, n)).len() <= uniform(xof_stream(seed, x, y, m)).len(),
{
    let st = shake128_absorb_spec(xof_input(seed, x, y));
    lemma_stream_facts(seed, x, y, n);
    lemma_stream_facts(seed, x, y, m);
    crate::fips202::lemma_squeeze_prefix(st, 168, n, m);
    let a = xof_stream(seed, x, y, n);
    let b = xof_stream(seed, x, y, m);
    assert(b.take(168 * n as int) == a);
    assert(b == a + b.skip(168 * n as int)) by {
        assert(b =~= b.take(168 * n as int) + b.skip(168 * n as int));
    }
    lemma_accepted_prefix(a, b.skip(168 * n as int), 56 * n);
    assert(a.len() / 3 == 56 * n);
    lemma_accepted_mono(b, 56 * n, 56 * m);
    assert(b.len() / 3 == 56 * m);
}

/// The sampled coefficients are determined by the seed and indices.
pub proof fn lemma_sampled_unique(seed: Seq<u8>, x: u8, y: u8, c1: Seq<i16>, c2: Seq<i16>)
    requires
        sampled(seed, x, y, c1),
        sampled(seed, x, y, c2),
    ensures
        c1 == c2,
{
    let n1 = choose|n: nat|
        3 <= n <= MAX_XOF_BLOCKS && {
            let u = uniform(#[trigger] xof_stream(seed, x, y, n));
            &&& c1.len() == 256
            &&& (u.len() >= 256 || n == MAX_XOF_BLOCKS)
            &&& forall|k: int| 0 <= k < 256 ==> #[trigger] c1[k] == if k < u.len() {
                u[k]
            } else {
                0i16
            }
        };
    let n2 = choose|n: nat|
        3 <= n <= MAX_XOF_BLOCKS && {
            let u = uniform(#[trigger] xof_stream(seed, x, y, n));
            &&& c2.len() == 256
            &&& (u.len() >= 256 || n == MAX_XOF_BLOCKS)
            &&& forall|k: int| 0 <= k < 256 ==> #[trigger] c2[k] == if k < u.len() {
                u[k]
            } else {
                0i16
            }
        };
    let u1 = uniform(xof_stream(seed, x, y, n1));
    let u2 = uniform(xof_stream(seed, x, y, n2));
    if n1 <= n2 {
        lemma_stream_prefix(seed, x, y, n1, n2);
        assert forall|k: int| 0 <= k < 256 implies c1[k] == c2[k] by {
            if k < u1.len() {
                assert(u2.take(u1.len() as int)[k] == u1[k]);
            } else {
                assert(n1 == MAX_XOF_BLOCKS);
            }
        }
    } else {
        lemma_stream_prefix(seed, x, y, n2, n1);
        assert forall|k: int| 0 <= k < 256 implies c1[k] == c2[k] by {
            if k < u2.len() {
                assert(u1.take(u2.len() as int)[k] == u2[k]);
            } else {
                assert(n2 == MAX_XOF_BLOCKS);
            }
        }
    }
    assert(c1 =~= c2);
}

/// The matrix A (or its transpose): entry `(i, j)` sampled from `seed` with indices
/// `entry_xy(i, j, transposed)`.
fn gen_matrix(a: &mut [PolyVec; 3], seed: &[u8; 32], transposed: bool)
    ensures
        forall|i: int, j: int|
            0 <= i < 3 && 0 <= j < 3 ==> #[trigger] final(a)@[i].vec@[j].coeffs@ == sample_spec(
                seed@,
                entry_xy(i, j, transposed).0,
                entry_xy(i, j, transposed).1,
            ),
        forall|i: int, j: int, k: int|
            0 <= i < 3 && 0 <= j < 3 && 0 <= k < 256 ==> 0 <= #[trigger] final(a)@[i].vec@[j].coeffs@[k] < 3329,
{
    let mut i: usize = 0;
    while i < 3
        invariant
            i <= 3,
            forall|ii: int, j: int|
                0 <= ii < i && 0 <= j < 3 ==> #[trigger] a@[ii].vec@[j].coeffs@ == sample_spec(
                    seed@,
                    entry_xy(ii, j, transposed).0,
                    entry_xy(ii, j, transposed).1,
                ),
            forall|ii: int, j: int, k: int|
                0 <= ii < i && 0 <= j < 3 && 0 <= k < 256 ==> 0 <= #[trigger] a@[ii].vec@[j].coeffs@[k] < 3329,
        decreases 3 - i,
    {
        let mut j: usize = 0;
        while j < 3
            invariant
                i < 3,
                j <= 3,
                forall|ii: int, jj: int|
                    ((0 <= ii < i && 0 <= jj < 3) || (ii == i && 0 <= jj < j)) ==> #[trigger] a@[ii].vec@[jj].coeffs@
                        == sample_spec(
                        seed@,
                        entry_xy(ii, jj, transposed).0,
                        entry_xy(ii, jj, transposed).1,
                    ),
                forall|ii: int, jj: int, k: int|
                    ((0 <= ii < i && 0 <= jj < 3) || (ii == i && 0 <= jj < j)) && 0 <= k < 256 ==> 0
                        <= #[trigger] a@[ii].vec@[jj].coeffs@[k] < 3329,
            decreases 3 - j,
        {
            let (x, y) = if transposed {
                (i as u8, j as u8)
            } else {
                (j as u8, i as u8)
            };
            let mut p = Poly { coeffs: [0i16; 256] };
            gen_entry(&mut p, seed, x, y);
            proof {
                lemma_sampled_unique(seed@, x, y, p.coeffs@, sample_spec(seed@, x, y));
            }
            let ghost a0 = a@;
            a[i].vec[j] = p;
            proof {
                assert forall|ii: int, jj: int|
                    ((0 <= ii < i && 0 <= jj < 3) || (ii == i && 0 <= jj < j + 1)) implies #[trigger] a@[ii].vec@[jj].coeffs@
                    == sample_spec(seed@, entry_xy(ii, jj, transposed).0, entry_xy(ii, jj, transposed).1) by {
                    if ii == i && jj == j {
                    } else if ii == i {
                        assert(a@[ii].vec@[jj] == a0[ii].vec@[jj]);
                    } else {
                        assert(a@[ii] == a0[ii]);
                    }
                }
                assert forall|ii: int, jj: int, k: int|
                    ((0 <= ii < i && 0 <= jj < 3) || (ii == i && 0 <= jj < j + 1)) && 0 <= k < 256 implies 0
                    <= #[trigger] a@[ii].vec@[jj].coeffs@[k] < 3329 by {
                    if ii == i && jj == j {
                    } else if ii == i {
                        assert(a@[ii].vec@[jj] == a0[ii].vec@[jj]);
                    } else {
                        assert(a@[ii] == a0[ii]);
                    }
                }
            }
            j = j + 1;
        }
        i = i + 1;
    }
}

/// The noise polynomial PRF(seed, nonce) through the centered binomial distribution.
pub open spec fn noise(seed: Seq<u8>, nonce: u8) -> Seq<i16> {
    cbd_spec(shake256_spec(seed + seq![nonce], 128))
}

/// The transform of `p` with centered coefficients.
pub open spec fn ntt_c(p: Seq<i16>) -> Seq<i16> {
    Seq::new(256, |k: int| centered(ntt_spec(ints(p))[k]) as i16)
}

/// Coefficient `k` of the sum over three polynomials of pointwise products.
pub open spec fn bm_acc(a: Seq<Seq<i16>>, b: Seq<Seq<i16>>, k: int) -> int {
    basemul_spec(a[0], b[0], k) + basemul_spec(a[1], b[1], k) + basemul_spec(a[2], b[2], k)
}

/// The coefficient sequences of a vector of polynomials.
pub open spec fn vec_view(v: PolyVec) -> Seq<Seq<i16>> {
    Seq::new(3, |i: int| v.vec@[i].coeffs@)
}

/// The 384-byte encoding of a polynomial, coefficients taken modulo q.
pub open spec fn poly_bytes(p: Seq<i16>) -> Seq<u8> {
    Seq::new(384, |b: int| pack12(modq(p[2 * (b / 3)] as int), modq(p[2 * (b / 3) + 1] as int))[b % 3])
}

/// The 1152-byte encoding of three polynomials.
pub open spec fn vec_bytes(v: Seq<Seq<i16>>) -> Seq<u8> {
    poly_bytes(v[0]) + poly_bytes(v[1]) + poly_bytes(v[2])
}

/// The public seed rho of key generation from `d`.
pub open spec fn keygen_rho(d: Seq<u8>) -> Seq<u8> {
    sha3_512_spec(d + seq![3u8]).take(32)
}

/// The noise seed sigma of key generation from `d`.
pub open spec fn keygen_sigma(d: Seq<u8>) -> Seq<u8> {
    sha3_512_spec(d + seq![3u8]).skip(32)
}

/// Row `i` of the matrix A for `rho` (entry `(i, j)` sampled with indices `(j, i)`).
pub open spec fn matrix_row(rho: Seq<u8>, i: int, transposed: bool) -> Seq<Seq<i16>> {
    Seq::new(
        3,
        |j: int| sample_spec(rho, entry_xy(i, j, transposed).0, entry_xy(i, j, transposed).1),
    )
}

/// The transformed secret vector of key generation.
pub open spec fn keygen_s_hat(d: Seq<u8>) -> Seq<Seq<i16>> {
    Seq::new(3, |i: int| ntt_c(noise(keygen_sigma(d), i as u8)))
}

/// The transformed public vector t of key generation.
pub open spec fn keygen_t_hat(d: Seq<u8>) -> Seq<Seq<i16>> {
    Seq::new(
        3,
        |i: int|
            Seq::new(
                256,
                |k: int|
                    centered(
                        bm_acc(matrix_row(keygen_rho(d), i, false), keygen_s_hat(d), k) * 65536 + ntt_c(
                            noise(keygen_sigma(d), (3 + i) as u8),
                        )[k],
                    ) as i16,
            ),
    )
}

/// K-PKE public key from `d`: the encoded t followed by rho.
pub open spec fn indcpa_pk_spec(d: Seq<u8>) -> Seq<u8> {
    vec_bytes(keygen_t_hat(d)) + keygen_rho(d)
}

/// K-PKE secret key from `d`: the encoded transformed secret.
pub open spec fn indcpa_sk_spec(d: Seq<u8>) -> Seq<u8> {
    vec_bytes(keygen_s_hat(d))
}

/// Every noise coefficient lies in `[-2, 2]`.
proof fn lemma_noise_small(seed: Seq<u8>, nonce: u8)
    ensures
        forall|k: int| 0 <= k < 256 ==> -2 <= #[trigger] noise(seed, nonce)[k] <= 2,
        noise(seed, nonce).len() == 256,
{
}

/// The byte layout of `PolyVec::tobytes` is the concatenated encoding.
proof fn lemma_vec_bytes(r: Seq<u8>, v: PolyVec)
    requires
        r.len() == 1152,
        forall|i: int, m: int|
            0 <= i < 3 && 0 <= m < 128 ==> #[trigger] r.subrange(384 * i + 3 * m, 384 * i + 3 * m + 3) == pack12(
                modq(v.vec@[i].coeffs@[2 * m] as int),
                modq(v.vec@[i].coeffs@[2 * m + 1] as int),
            ),
    ensures
        r == vec_bytes(vec_view(v)),
{
    let w = vec_view(v);
    assert forall|q: int| 0 <= q < 1152 implies r[q] == #[trigger] vec_bytes(w)[q] by {
        let i = q / 384;
        let b = q % 384;
        let m = b / 3;
        assert(0 <= i < 3 && 0 <= m < 128);
        assert(q == 384 * i + 3 * m + b % 3);
        assert(r.subrange(384 * i + 3 * m, 384 * i + 3 * m + 3)[b % 3] == r[q]);
        if i == 0 {
            assert(vec_bytes(w)[q] == poly_bytes(w[0])[b]);
        } else if i == 1 {
            assert(vec_bytes(w)[q] == poly_bytes(w[1])[b]);
        } else {
            assert(vec_bytes(w)[q] == poly_bytes(w[2])[b]);
        }
    }
    assert(r =~= vec_bytes(w));
}

/// Copies `n` bytes of `src` from `from` into `dst` at `to`.
fn copy_bytes(dst: &mut [u8], to: usize, src: &[u8], from: usize, n: usize)
    requires
        to + n <= old(dst)@.len(),
        from + n <= src@.len(),
    ensures
        final(dst)@.len() == old(dst)@.len(),
        final(dst)@.subrange(to as int, to + n) == src@.subrange(from as int, from + n),
        forall|q: int| 0 <= q < old(dst)@.len() && !(to <= q < to + n) ==> #[trigger] final(dst)@[q] == old(dst)@[q],
{
    let ghost d0 = dst@;
    let mut k: usize = 0;
    while k < n
        invariant
            k <= n,
            to + n <= dst.len(),
            from + n <= src.len(),
            dst@.len() == d0.len(),
            forall|q: int| to <= q < to + k ==> #[trigger] dst@[q] == src@[from + (q - to)],
            forall|q: int| 0 <= q < d0.len() && !(to <= q < to + k) ==> #[trigger] dst@[q] == d0[q],
        decreases n - k,
    {
        dst[to + k] = src[from + k];
        k = k + 1;
    }
    assert(dst@.subrange(to as int, to + n) =~= src@.subrange(from as int, from + n));
}

/// The public key: the encoding of `pv` followed by `seed`.
fn pack_pk(pk: &mut [u8; 1184], pv: &PolyVec, seed: &[u8; 32])
    requires
        vec_small(*pv),
    ensures
        final(pk)@ == vec_bytes(vec_view(*pv)) + seed@,
{
    let mut poly = [0u8; 1152];
    pv.tobytes(&mut poly);
    proof {
        lemma_vec_bytes(poly@, *pv);
    }
    copy_bytes(pk, 0, &poly, 0, 1152);
    copy_bytes(pk, 1152, seed, 0, 32);
    assert(pk@ =~= pk@.subrange(0, 1152) + pk@.subrange(1152, 1184));
    assert(poly@.subrange(0, 1152) =~= poly@);
    assert(seed@.subrange(0, 32) =~= seed@);
}

/// The secret key: the encoding of `sv`.
fn pack_sk(sk: &mut [u8; 1152], sv: &PolyVec)
    requires
        vec_small(*sv),
    ensures
        final(sk)@ == vec_bytes(vec_view(*sv)),
{
    sv.tobytes(sk);
    proof {
        lemma_vec_bytes(sk@, *sv);
    }
}

/// The centered representative of `c*2^16 + e` when `c` is congruent to `x * 2^16` for
/// `t = centered(x)` ... used for the public vector.
proof fn lemma_tpk(r: int, acc: int, x: int, e: int)
    requires
        acc == centered(x),
        cong(r, acc * 65536),
    ensures
        centered(r + e) == centered(x * 65536 + e),
{
    // acc = x - j*q for some j
    crate::mlkem::reduce::lemma_centered_cong_x(x);
    assert(cong(acc, x));
    crate::mlkem::ntt::lemma_cong_mul(acc, x, 65536);
    crate::mlkem::ntt::lemma_cong_trans(r, acc * 65536, x * 65536);
    crate::mlkem::ntt::lemma_mod_add_zero(r - x * 65536, 0);
    assert((r + e) - (x * 65536 + e) == r - x * 65536);
    crate::mlkem::poly::lemma_centered_cong(r + e, x * 65536 + e);
}

/// K-PKE key generation from the 32-byte seed `coins`.
#[verifier::rlimit(60)]
pub fn indcpa_keypair_derand(pk: &mut [u8; 1184], sk: &mut [u8; 1152], coins: &[u8; 32])
    ensures
        final(pk)@ == indcpa_pk_spec(coins@),
        final(sk)@ == indcpa_sk_spec(coins@),
{
    let mut buf = [0u8; 64];
    let mut g_in = [0u8; 33];
    copy_bytes(&mut g_in, 0, coins, 0, 32);
    g_in[32] = 3;
    assert(g_in@ =~= coins@ + seq![3u8]) by {
        assert(coins@.subrange(0, 32) =~= coins@);
    }
    hash_g(&mut buf, &g_in);
    let mut publicseed = [0u8; 32];
    let mut noiseseed = [0u8; 32];
    copy_bytes(&mut publicseed, 0, &buf, 0, 32);
    copy_bytes(&mut noiseseed, 0, &buf, 32, 32);
    proof {
        assert(publicseed@ =~= keygen_rho(coins@));
        assert(noiseseed@ =~= keygen_sigma(coins@));
    }
    let mut a = [PolyVec::default(), PolyVec::default(), PolyVec::default()];
    gen_matrix(&mut a, &publicseed, false);
    let mut skpv = PolyVec::default();
    let mut e = PolyVec::default();
    let mut pkpv = PolyVec::default();
    let mut nonce: u8 = 0;
    let mut i: usize = 0;
    while i < 3
        invariant
            i <= 3,
            nonce == i,
            forall|ii: int| 0 <= ii < i ==> #[trigger] skpv.vec@[ii].coeffs@ == noise(noiseseed@, ii as u8),
        decreases 3 - i,
    {
        let ghost v0 = skpv.vec@;
        skpv.vec[i].getnoise_eta1(&noiseseed, nonce);
        proof {
            assert forall|ii: int| 0 <= ii < i implies #[trigger] skpv.vec@[ii] == v0[ii] by {}
        }
        nonce = nonce + 1;
        i = i + 1;
    }
    let mut i: usize = 0;
    while i < 3
        invariant
            i <= 3,
            nonce == 3 + i,
            forall|ii: int| 0 <= ii < i ==> #[trigger] e.vec@[ii].coeffs@ == noise(noiseseed@, (3 + ii) as u8),
        decreases 3 - i,
    {
        let ghost v0 = e.vec@;
        e.vec[i].getnoise_eta1(&noiseseed, nonce);
        proof {
            assert forall|ii: int| 0 <= ii < i implies #[trigger] e.vec@[ii] == v0[ii] by {}
        }
        nonce = nonce + 1;
        i = i + 1;
    }
    proof {
        assert forall|ii: int| 0 <= ii < 3 implies crate::mlkem::poly::poly_small(#[trigger] skpv.vec@[ii]) by {
            lemma_noise_small(noiseseed@, ii as u8);
        }
        assert forall|ii: int| 0 <= ii < 3 implies crate::mlkem::poly::poly_small(#[trigger] e.vec@[ii]) by {
            lemma_noise_small(noiseseed@, (3 + ii) as u8);
        }
    }
    let ghost s0 = skpv;
    let ghost e0 = e;
    skpv.ntt();
    e.ntt();
    proof {
        assert forall|ii: int| 0 <= ii < 3 implies #[trigger] skpv.vec@[ii].coeffs@ == keygen_s_hat(coins@)[ii] by {
            assert(skpv.vec@[ii].coeffs@ =~= ntt_c(noise(keygen_sigma(coins@), ii as u8)));
        }
        assert forall|ii: int| 0 <= ii < 3 implies #[trigger] e.vec@[ii].coeffs@ == ntt_c(
            noise(keygen_sigma(coins@), (3 + ii) as u8),
        ) by {
            assert(e.vec@[ii].coeffs@ =~= ntt_c(noise(keygen_sigma(coins@), (3 + ii) as u8)));
        }
        assert forall|ii: int| 0 <= ii < 3 implies bounded(#[trigger] skpv.vec@[ii].coeffs@, 4095) by {}
    }
    let mut i: usize = 0;
    while i < 3
        invariant
            i <= 3,
            forall|ii: int| 0 <= ii < 3 ==> bounded(#[trigger] skpv.vec@[ii].coeffs@, 1664),
            forall|ii: int, j: int, k: int|
                0 <= ii < 3 && 0 <= j < 3 && 0 <= k < 256 ==> 0 <= #[trigger] a@[ii].vec@[j].coeffs@[k] < 3329,
            forall|ii: int, k: int|
                0 <= ii < i && 0 <= k < 256 ==> cong(
                    #[trigger] pkpv.vec@[ii].coeffs@[k] as int,
                    centered(basemul_acc_spec(a@[ii], skpv, k)) * 65536,
                ) && -3328 <= pkpv.vec@[ii].coeffs@[k] <= 3328,
        decreases 3 - i,
    {
        let mut acc = Poly { coeffs: [0i16; 256] };
        proof {
            assert forall|j: int| 0 <= j < 3 implies bounded(#[trigger] a@[i as int].vec@[j].coeffs@, 4095) by {
                assert forall|k: int| 0 <= k < 256 implies -4095 <= #[trigger] a@[i as int].vec@[j].coeffs@[k] <= 4095 by {}
            }
            assert forall|j: int| 0 <= j < 3 implies bounded(#[trigger] skpv.vec@[j].coeffs@, 4095) by {}
        }
        PolyVec::basemul_acc_montgomery(&mut acc, &a[i], &skpv);
        acc.tomont();
        let ghost p0 = pkpv.vec@;
        pkpv.vec[i] = acc;
        proof {
            assert forall|ii: int| 0 <= ii < i implies #[trigger] pkpv.vec@[ii] == p0[ii] by {}
        }
        i = i + 1;
    }
    let pk_copy = pkpv;
    proof {
        assert forall|ii: int, k: int| 0 <= ii < 3 && 0 <= k < 256 implies -32768 <= #[trigger] pk_copy.vec@[ii].coeffs@[k]
            + e.vec@[ii].coeffs@[k] <= 32767 by {
            assert(-1664 <= e.vec@[ii].coeffs@[k] <= 1664);
        }
    }
    pkpv.add(&pk_copy, &e);
    let ghost sum = pkpv;
    pkpv.reduce();
    proof {
        assert forall|ii: int| 0 <= ii < 3 implies #[trigger] pkpv.vec@[ii].coeffs@ == keygen_t_hat(coins@)[ii] by {
            assert forall|k: int| 0 <= k < 256 implies #[trigger] pkpv.vec@[ii].coeffs@[k] == keygen_t_hat(coins@)[ii][k] by {
                let x = basemul_acc_spec(a@[ii], skpv, k);
                assert(vec_view(a@[ii]) =~= matrix_row(keygen_rho(coins@), ii, false));
                assert(vec_view(skpv) =~= keygen_s_hat(coins@));
                assert(x == bm_acc(matrix_row(keygen_rho(coins@), ii, false), keygen_s_hat(coins@), k));
                lemma_tpk(pk_copy.vec@[ii].coeffs@[k] as int, centered(x), x, e.vec@[ii].coeffs@[k] as int);
            }
            assert(pkpv.vec@[ii].coeffs@ =~= keygen_t_hat(coins@)[ii]);
        }
        assert(vec_view(pkpv) =~= keygen_t_hat(coins@));
        assert(vec_view(skpv) =~= keygen_s_hat(coins@));
        assert forall|ii: int| 0 <= ii < 3 implies crate::mlkem::poly::poly_small(#[trigger] pkpv.vec@[ii]) by {}
        assert forall|ii: int| 0 <= ii < 3 implies crate::mlkem::poly::poly_small(#[trigger] skpv.vec@[ii]) by {}
    }
    pack_sk(sk, &skpv);
    pack_pk(pk, &pkpv, &publicseed);
}

/// The polynomial of 384 bytes (12-bit values).
pub open spec fn poly_from_bytes(b: Seq<u8>) -> Seq<i16> {
    Seq::new(
        256,
        |k: int|
            if k % 2 == 0 {
                unpack12_lo(b[3 * (k / 2)], b[3 * (k / 2) + 1]) as i16
            } else {
                unpack12_hi(b[3 * (k / 2) + 1], b[3 * (k / 2) + 2]) as i16
            },
    )
}

/// The vector of the first 1152 bytes of `b`.
pub open spec fn vec_from_bytes(b: Seq<u8>) -> Seq<Seq<i16>> {
    Seq::new(3, |i: int| poly_from_bytes(b.subrange(384 * i, 384 * i + 384)))
}

/// The message polynomial: `(q + 1) / 2` for every set bit.
pub open spec fn msg_poly(m: Seq<u8>) -> Seq<i16> {
    Seq::new(256, |k: int| if msg_bit(m[k / 8], k % 8) == 1 { 1665i16 } else { 0i16 })
}

/// The centered sum of pointwise products as a polynomial.
pub open spec fn acc_poly(a: Seq<Seq<i16>>, b: Seq<Seq<i16>>) -> Seq<i16> {
    Seq::new(256, |k: int| centered(bm_acc(a, b, k)) as i16)
}

/// The transformed ephemeral secret of encryption with coins `r`.
pub open spec fn enc_sp_hat(r: Seq<u8>) -> Seq<Seq<i16>> {
    Seq::new(3, |i: int| ntt_c(noise(r, i as u8)))
}

/// Polynomial `i` of u = A^T r + e1 (centered).
pub open spec fn enc_u(pk: Seq<u8>, r: Seq<u8>, i: int) -> Seq<i16> {
    let acc = acc_poly(matrix_row(pk.subrange(1152, 1184), i, true), enc_sp_hat(r));
    Seq::new(256, |k: int| centered(invntt_spec(ints(acc))[k] + noise(r, (3 + i) as u8)[k]) as i16)
}

/// v = t^T r + e2 + Decompress_1(m) (centered).
pub open spec fn enc_v(pk: Seq<u8>, m: Seq<u8>, r: Seq<u8>) -> Seq<i16> {
    let acc = acc_poly(vec_from_bytes(pk), enc_sp_hat(r));
    Seq::new(
        256,
        |k: int| centered(invntt_spec(ints(acc))[k] + noise(r, 6)[k] + msg_poly(m)[k]) as i16,
    )
}

/// Compress_10 of `u`, four values per five bytes, then Compress_4 of `v`, two per byte.
pub open spec fn ct_bytes(u: Seq<Seq<i16>>, v: Seq<i16>) -> Seq<u8> {
    Seq::new(
        1088,
        |q: int|
            if q < 960 {
                let i = q / 320;
                let j = (q % 320) / 5;
                pack10(
                    compress_d(u[i][4 * j] as int, 10),
                    compress_d(u[i][4 * j + 1] as int, 10),
                    compress_d(u[i][4 * j + 2] as int, 10),
                    compress_d(u[i][4 * j + 3] as int, 10),
                )[(q % 320) % 5]
            } else {
                let b = q - 960;
                (compress_d(v[2 * b] as int, 4) + 16 * compress_d(v[2 * b + 1] as int, 4)) as u8
            },
    )
}

/// K-PKE ciphertext of message `m` under `pk` with coins `r`.
pub open spec fn indcpa_ct_spec(pk: Seq<u8>, m: Seq<u8>, r: Seq<u8>) -> Seq<u8> {
    ct_bytes(Seq::new(3, |i: int| enc_u(pk, r, i)), enc_v(pk, m, r))
}

/// The public vector and seed of an encoded public key.
fn unpack_pk(pkpv: &mut PolyVec, seed: &mut [u8; 32], packed: &[u8; 1184])
    ensures
        vec_view(*final(pkpv)) == vec_from_bytes(packed@),
        vec_bounded(*final(pkpv), 4095),
        final(seed)@ == packed@.subrange(1152, 1184),
{
    let mut poly = [0u8; 1152];
    copy_bytes(&mut poly, 0, packed, 0, 1152);
    PolyVec::frombytes(pkpv, &poly);
    copy_bytes(seed, 0, packed, 1152, 32);
    proof {
        assert(seed@ =~= packed@.subrange(1152, 1184));
        assert(poly@ =~= packed@.subrange(0, 1152));
        assert forall|i: int| 0 <= i < 3 implies #[trigger] vec_view(*pkpv)[i] == vec_from_bytes(packed@)[i] by {
            let b = packed@.subrange(384 * i, 384 * i + 384);
            assert forall|k: int| 0 <= k < 256 implies #[trigger] pkpv.vec@[i].coeffs@[k] == poly_from_bytes(b)[k] by {
                let mm = k / 2;
                assert(poly@[384 * i + 3 * mm] == b[3 * mm]);
                assert(poly@[384 * i + 3 * mm + 1] == b[3 * mm + 1]);
                assert(poly@[384 * i + 3 * mm + 2] == b[3 * mm + 2]);
                assert(pkpv.vec@[i].coeffs@[2 * mm] == unpack12_lo(poly@[384 * i + 3 * mm], poly@[384 * i + 3 * mm + 1]));
                assert(pkpv.vec@[i].coeffs@[2 * mm + 1] == unpack12_hi(poly@[384 * i + 3 * mm + 1], poly@[384 * i + 3 * mm + 2]));
                if k % 2 == 0 {
                    assert(k == 2 * mm);
                } else {
                    assert(k == 2 * mm + 1);
                }
            }
            assert(pkpv.vec@[i].coeffs@ =~= poly_from_bytes(b));
        }
        assert(vec_view(*pkpv) =~= vec_from_bytes(packed@));
    }
}

/// The ciphertext: compressed `b` then compressed `v`.
fn pack_ct(ct: &mut [u8; 1088], b: &PolyVec, v: &Poly)
    requires
        vec_small(*b),
        poly_small(*v),
    ensures
        forall|i: int, j: int|
            0 <= i < 3 && 0 <= j < 64 ==> #[trigger] final(ct)@.subrange(320 * i + 5 * j, 320 * i + 5 * j + 5)
                == pack10(
                compress_d(b.vec@[i].coeffs@[4 * j] as int, 10),
                compress_d(b.vec@[i].coeffs@[4 * j + 1] as int, 10),
                compress_d(b.vec@[i].coeffs@[4 * j + 2] as int, 10),
                compress_d(b.vec@[i].coeffs@[4 * j + 3] as int, 10),
            ),
        forall|m: int|
            0 <= m < 128 ==> #[trigger] final(ct)@[960 + m] == compress_d(v.coeffs@[2 * m] as int, 4) + 16
                * compress_d(v.coeffs@[2 * m + 1] as int, 4),
{
    let mut bc = [0u8; 960];
    b.compress(&mut bc);
    let mut vc = [0u8; 128];
    v.compress(&mut vc);
    copy_bytes(ct, 0, &bc, 0, 960);
    let ghost c1 = ct@;
    copy_bytes(ct, 960, &vc, 0, 128);
    proof {
        assert forall|i: int, j: int| 0 <= i < 3 && 0 <= j < 64 implies #[trigger] ct@.subrange(320 * i + 5 * j, 320 * i + 5 * j + 5)
            == bc@.subrange(320 * i + 5 * j, 320 * i + 5 * j + 5) by {
            assert forall|q: int| 0 <= q < 5 implies #[trigger] ct@.subrange(320 * i + 5 * j, 320 * i + 5 * j + 5)[q]
                == bc@.subrange(320 * i + 5 * j, 320 * i + 5 * j + 5)[q] by {
                assert(ct@[320 * i + 5 * j + q] == c1[320 * i + 5 * j + q]);
                assert(c1.subrange(0, 960)[320 * i + 5 * j + q] == bc@.subrange(0, 960)[320 * i + 5 * j + q]);
            }
            assert(ct@.subrange(320 * i + 5 * j, 320 * i + 5 * j + 5) =~= bc@.subrange(320 * i + 5 * j, 320 * i + 5 * j + 5));
        }
        assert forall|m: int| 0 <= m < 128 implies #[trigger] ct@[960 + m] == vc@[m] by {
            assert(ct@.subrange(960, 1088)[m] == vc@.subrange(0, 128)[m]);
        }
    }
}

/// The ciphertext layout of `pack_ct` is `ct_bytes` of its parts.
proof fn lemma_ct_flat(ct: Seq<u8>, b: PolyVec, v: Poly)
    requires
        ct.len() == 1088,
        forall|i: int, j: int|
            0 <= i < 3 && 0 <= j < 64 ==> #[trigger] ct.subrange(320 * i + 5 * j, 320 * i + 5 * j + 5)
                == pack10(
                compress_d(b.vec@[i].coeffs@[4 * j] as int, 10),
                compress_d(b.vec@[i].coeffs@[4 * j + 1] as int, 10),
                compress_d(b.vec@[i].coeffs@[4 * j + 2] as int, 10),
                compress_d(b.vec@[i].coeffs@[4 * j + 3] as int, 10),
            ),
        forall|mm: int|
            0 <= mm < 128 ==> #[trigger] ct[960 + mm] == compress_d(v.coeffs@[2 * mm] as int, 4) + 16
                * compress_d(v.coeffs@[2 * mm + 1] as int, 4),
    ensures
        ct == ct_bytes(vec_view(b), v.coeffs@),
{
    let u = vec_view(b);
    assert forall|q: int| 0 <= q < 1088 implies ct[q] == #[trigger] ct_bytes(u, v.coeffs@)[q] by {
        if q < 960 {
            let i = q / 320;
            let j = (q % 320) / 5;
            assert(q == 320 * i + 5 * j + (q % 320) % 5);
            assert(u[i] == b.vec@[i].coeffs@);
            assert(ct.subrange(320 * i + 5 * j, 320 * i + 5 * j + 5)[(q % 320) % 5] == ct[q]);
        } else {
            assert(ct[960 + (q - 960)] == ct[q]);
        }
    }
    assert(ct =~= ct_bytes(u, v.coeffs@));
}

/// Centered value after an add and a reduction.
proof fn lemma_enc_coeff(t: int, x: int, e: int)
    requires
        cong(t, x),
    ensures
        centered(t + e) == centered(x + e),
{
    crate::mlkem::ntt::lemma_mod_add_zero(t - x, 0);
    assert((t + e) - (x + e) == t - x);
    crate::mlkem::poly::lemma_centered_cong(t + e, x + e);
}

/// K-PKE encryption of the 32-byte message `m` under `pk` with coins `coins`.
#[verifier::rlimit(80)]
pub fn indcpa_enc(ct: &mut [u8; 1088], m: &[u8; 32], pk: &[u8; 1184], coins: &[u8; 32])
    ensures
        final(ct)@ == indcpa_ct_spec(pk@, m@, coins@),
{
    let mut seed = [0u8; 32];
    let mut pkpv = PolyVec::default();
    unpack_pk(&mut pkpv, &mut seed, pk);
    let mut k = Poly { coeffs: [0i16; 256] };
    Poly::frommsg(&mut k, m);
    proof {
        assert(k.coeffs@ =~= msg_poly(m@));
    }
    let mut at = [PolyVec::default(), PolyVec::default(), PolyVec::default()];
    gen_matrix(&mut at, &seed, true);
    let mut sp = PolyVec::default();
    let mut ep = PolyVec::default();
    let mut epp = Poly { coeffs: [0i16; 256] };
    let mut nonce: u8 = 0;
    let mut i: usize = 0;
    while i < 3
        invariant
            i <= 3,
            nonce == i,
            forall|ii: int| 0 <= ii < i ==> #[trigger] sp.vec@[ii].coeffs@ == noise(coins@, ii as u8),
        decreases 3 - i,
    {
        let ghost v0 = sp.vec@;
        sp.vec[i].getnoise_eta1(coins, nonce);
        proof {
            assert forall|ii: int| 0 <= ii < i implies #[trigger] sp.vec@[ii] == v0[ii] by {}
        }
        nonce = nonce + 1;
        i = i + 1;
    }
    let mut i: usize = 0;
    while i < 3
        invariant
            i <= 3,
            nonce == 3 + i,
            forall|ii: int| 0 <= ii < i ==> #[trigger] ep.vec@[ii].coeffs@ == noise(coins@, (3 + ii) as u8),
        decreases 3 - i,
    {
        let ghost v0 = ep.vec@;
        ep.vec[i].getnoise_eta2(coins, nonce);
        proof {
            assert forall|ii: int| 0 <= ii < i implies #[trigger] ep.vec@[ii] == v0[ii] by {}
        }
        nonce = nonce + 1;
        i = i + 1;
    }
    epp.getnoise_eta2(coins, nonce);
    proof {
        assert forall|ii: int| 0 <= ii < 3 implies poly_small(#[trigger] sp.vec@[ii]) by {
            lemma_noise_small(coins@, ii as u8);
        }
        lemma_noise_small(coins@, 6);
        assert forall|ii: int| 0 <= ii < 3 implies bounded(#[trigger] ep.vec@[ii].coeffs@, 2) by {
            lemma_noise_small(coins@, (3 + ii) as u8);
        }
    }
    sp.ntt();
    proof {
        assert(vec_view(sp) =~= enc_sp_hat(coins@)) by {
            assert forall|ii: int| 0 <= ii < 3 implies #[trigger] vec_view(sp)[ii] == enc_sp_hat(coins@)[ii] by {
                assert(sp.vec@[ii].coeffs@ =~= ntt_c(noise(coins@, ii as u8)));
            }
        }
        assert forall|j: int| 0 <= j < 3 implies bounded(#[trigger] sp.vec@[j].coeffs@, 4095) by {}
    }
    let mut b = PolyVec::default();
    let mut i: usize = 0;
    while i < 3
        invariant
            i <= 3,
            vec_view(sp) == enc_sp_hat(coins@),
            forall|j: int| 0 <= j < 3 ==> bounded(#[trigger] sp.vec@[j].coeffs@, 4095),
            forall|ii: int, j: int, kk: int|
                0 <= ii < 3 && 0 <= j < 3 && 0 <= kk < 256 ==> 0 <= #[trigger] at@[ii].vec@[j].coeffs@[kk] < 3329,
            forall|ii: int, j: int|
                0 <= ii < 3 && 0 <= j < 3 ==> #[trigger] at@[ii].vec@[j].coeffs@ == sample_spec(
                    seed@,
                    entry_xy(ii, j, true).0,
                    entry_xy(ii, j, true).1,
                ),
            forall|ii: int| 0 <= ii < i ==> #[trigger] b.vec@[ii].coeffs@ == acc_poly(
                matrix_row(seed@, ii, true),
                enc_sp_hat(coins@),
            ),
            forall|ii: int| 0 <= ii < i ==> poly_reduced(#[trigger] b.vec@[ii]),
        decreases 3 - i,
    {
        let mut acc = Poly { coeffs: [0i16; 256] };
        proof {
            assert forall|j: int| 0 <= j < 3 implies bounded(#[trigger] at@[i as int].vec@[j].coeffs@, 4095) by {
                assert forall|kk: int| 0 <= kk < 256 implies -4095 <= #[trigger] at@[i as int].vec@[j].coeffs@[kk] <= 4095 by {}
            }
        }
        PolyVec::basemul_acc_montgomery(&mut acc, &at[i], &sp);
        proof {
            assert(vec_view(at@[i as int]) =~= matrix_row(seed@, i as int, true));
            assert(acc.coeffs@ =~= acc_poly(matrix_row(seed@, i as int, true), enc_sp_hat(coins@)));
        }
        let ghost b0 = b.vec@;
        b.vec[i] = acc;
        proof {
            assert forall|ii: int| 0 <= ii < i implies #[trigger] b.vec@[ii] == b0[ii] by {}
        }
        i = i + 1;
    }
    let mut v = Poly { coeffs: [0i16; 256] };
    proof {
        assert forall|j: int| 0 <= j < 3 implies bounded(#[trigger] pkpv.vec@[j].coeffs@, 4095) by {}
    }
    PolyVec::basemul_acc_montgomery(&mut v, &pkpv, &sp);
    proof {
        assert(v.coeffs@ =~= acc_poly(vec_from_bytes(pk@), enc_sp_hat(coins@)));
        assert forall|ii: int| 0 <= ii < 3 implies poly_small(#[trigger] b.vec@[ii]) by {}
    }
    let ghost b_acc = b;
    let ghost v_acc = v;
    b.invntt_tomont();
    v.invntt_tomont();
    let b_copy = b;
    proof {
        assert forall|ii: int, kk: int| 0 <= ii < 3 && 0 <= kk < 256 implies -32768 <= #[trigger] b_copy.vec@[ii].coeffs@[kk]
            + ep.vec@[ii].coeffs@[kk] <= 32767 by {
            assert(bounded(ep.vec@[ii].coeffs@, 2));
            assert(poly_small(b_copy.vec@[ii]));
        }
    }
    b.add(&b_copy, &ep);
    let v_copy = v;
    proof {
        assert forall|kk: int| 0 <= kk < 256 implies -32768 <= #[trigger] v_copy.coeffs@[kk] + epp.coeffs@[kk] <= 32767 by {}
    }
    v.add(&v_copy, &epp);
    let v_copy2 = v;
    proof {
        assert forall|kk: int| 0 <= kk < 256 implies -32768 <= #[trigger] v_copy2.coeffs@[kk] + k.coeffs@[kk] <= 32767 by {
            assert(-3330 <= v_copy.coeffs@[kk] + epp.coeffs@[kk] <= 3330);
        }
    }
    v.add(&v_copy2, &k);
    let ghost b_sum = b;
    let ghost v_sum = v;
    b.reduce();
    v.reduce();
    proof {
        assert forall|ii: int| 0 <= ii < 3 implies #[trigger] b.vec@[ii].coeffs@ == enc_u(pk@, coins@, ii) by {
            let acc = acc_poly(matrix_row(pk@.subrange(1152, 1184), ii, true), enc_sp_hat(coins@));
            assert(seed@ == pk@.subrange(1152, 1184));
            assert(b_acc.vec@[ii].coeffs@ == acc);
            assert forall|kk: int| 0 <= kk < 256 implies #[trigger] b.vec@[ii].coeffs@[kk] == enc_u(pk@, coins@, ii)[kk] by {
                assert(cong(b_copy.vec@[ii].coeffs@[kk] as int, invntt_spec(ints(acc))[kk]));
                lemma_enc_coeff(b_copy.vec@[ii].coeffs@[kk] as int, invntt_spec(ints(acc))[kk], ep.vec@[ii].coeffs@[kk] as int);
            }
            assert(b.vec@[ii].coeffs@ =~= enc_u(pk@, coins@, ii));
        }
        let vacc = acc_poly(vec_from_bytes(pk@), enc_sp_hat(coins@));
        assert forall|kk: int| 0 <= kk < 256 implies #[trigger] v.coeffs@[kk] == enc_v(pk@, m@, coins@)[kk] by {
            assert(cong(v_copy.coeffs@[kk] as int, invntt_spec(ints(vacc))[kk]));
            lemma_enc_coeff(v_copy.coeffs@[kk] as int, invntt_spec(ints(vacc))[kk], epp.coeffs@[kk] + k.coeffs@[kk]);
            assert(v_sum.coeffs@[kk] == v_copy.coeffs@[kk] + (epp.coeffs@[kk] + k.coeffs@[kk]));
        }
        assert(v.coeffs@ =~= enc_v(pk@, m@, coins@));
        assert forall|ii: int| 0 <= ii < 3 implies poly_small(#[trigger] b.vec@[ii]) by {}
    }
    pack_ct(ct, &b, &v);
    proof {
        lemma_ct_flat(ct@, b, v);
        assert(vec_view(b) =~= Seq::new(3, |i: int| enc_u(pk@, coins@, i)));
    }
}

/// The decompressed u of a ciphertext.
pub open spec fn dec_u(ct: Seq<u8>) -> Seq<Seq<i16>> {
    Seq::new(
        3,
        |i: int|
            Seq::new(
                256,
                |k: int|
                    decompress_d(
                        unpack10(ct.subrange(320 * i + 5 * (k / 4), 320 * i + 5 * (k / 4) + 5))[k % 4],
                        10,
                    ) as i16,
            ),
    )
}

/// The decompressed v of a ciphertext.
pub open spec fn dec_v(ct: Seq<u8>) -> Seq<i16> {
    Seq::new(
        256,
        |k: int|
            if k % 2 == 0 {
                decompress_d((ct[960 + k / 2] % 16) as int, 4) as i16
            } else {
                decompress_d((ct[960 + k / 2] / 16) as int, 4) as i16
            },
    )
}

/// w = v - s^T u (centered), whose coefficients carry the message bits.
pub open spec fn dec_w(ct: Seq<u8>, sk: Seq<u8>) -> Seq<i16> {
    let mp = acc_poly(vec_from_bytes(sk), Seq::new(3, |i: int| ntt_c(dec_u(ct)[i])));
    Seq::new(256, |k: int| centered(dec_v(ct)[k] - invntt_spec(ints(mp))[k]) as i16)
}

/// K-PKE decryption of `ct` under `sk`.
pub open spec fn indcpa_msg_spec(ct: Seq<u8>, sk: Seq<u8>) -> Seq<u8> {
    Seq::new(32, |i: int| msg_byte(dec_w(ct, sk), i, 8) as u8)
}

/// The vector and polynomial of a ciphertext.
fn unpack_ct(b: &mut PolyVec, v: &mut Poly, c: &[u8; 1088])
    ensures
        vec_view(*final(b)) == dec_u(c@),
        final(v).coeffs@ == dec_v(c@),
        vec_small(*final(b)),
        poly_small(*final(v)),
        forall|k: int| 0 <= k < 256 ==> 0 <= #[trigger] final(v).coeffs@[k] < 3329,
{
    let mut bc = [0u8; 960];
    copy_bytes(&mut bc, 0, c, 0, 960);
    let mut vc = [0u8; 128];
    copy_bytes(&mut vc, 0, c, 960, 128);
    PolyVec::decompress(b, &bc);
    Poly::decompress(v, &vc);
    proof {
        assert(bc@ =~= bc@.subrange(0, 960));
        assert(bc@ == c@.subrange(0, 960));
        assert forall|i: int| 0 <= i < 3 implies #[trigger] vec_view(*b)[i] == dec_u(c@)[i] by {
            assert forall|k: int| 0 <= k < 256 implies #[trigger] b.vec@[i].coeffs@[k] == dec_u(c@)[i][k] by {
                let j = k / 4;
                let kk = k % 4;
                assert(k == 4 * j + kk);
                assert(bc@.subrange(320 * i + 5 * j, 320 * i + 5 * j + 5) =~= c@.subrange(320 * i + 5 * j, 320 * i + 5 * j + 5));
                assert(b.vec@[i].coeffs@[4 * j + kk] == decompress_d(unpack10(bc@.subrange(320 * i + 5 * j, 320 * i + 5 * j + 5))[kk], 10));
            }
            assert(b.vec@[i].coeffs@ =~= dec_u(c@)[i]);
        }
        assert(vec_view(*b) =~= dec_u(c@));
        assert forall|k: int| 0 <= k < 256 implies #[trigger] v.coeffs@[k] == dec_v(c@)[k] by {
            let mm = k / 2;
            assert(vc@[mm] == c@[960 + mm]) by {
                assert(vc@.subrange(0, 128)[mm] == c@.subrange(960, 1088)[mm]);
            }
            assert(v.coeffs@[2 * mm] == decompress_d((vc@[mm] % 16) as int, 4));
            assert(v.coeffs@[2 * mm + 1] == decompress_d((vc@[mm] / 16) as int, 4));
            if k % 2 == 0 {
                assert(k == 2 * mm);
            } else {
                assert(k == 2 * mm + 1);
            }
        }
        assert(v.coeffs@ =~= dec_v(c@));
        assert forall|k: int| 0 <= k < 256 implies 0 <= #[trigger] v.coeffs@[k] < 3329 by {
            let mm = k / 2;
            if k % 2 == 0 {
                assert(k == 2 * mm);
            } else {
                assert(k == 2 * mm + 1);
            }
            crate::mlkem::coeff::lemma_decompress4_range((vc@[mm] % 16) as int);
            crate::mlkem::coeff::lemma_decompress4_range((vc@[mm] / 16) as int);
            assert(v.coeffs@[2 * mm] == decompress_d((vc@[mm] % 16) as int, 4));
            assert(v.coeffs@[2 * mm + 1] == decompress_d((vc@[mm] / 16) as int, 4));
        }
    }
}

/// The secret vector of an encoded secret key.
fn unpack_sk(skpv: &mut PolyVec, packed: &[u8; 1152])
    ensures
        vec_view(*final(skpv)) == vec_from_bytes(packed@),
        vec_bounded(*final(skpv), 4095),
{
    PolyVec::frombytes(skpv, packed);
    proof {
        assert forall|i: int| 0 <= i < 3 implies #[trigger] vec_view(*skpv)[i] == vec_from_bytes(packed@)[i] by {
            let b = packed@.subrange(384 * i, 384 * i + 384);
            assert forall|k: int| 0 <= k < 256 implies #[trigger] skpv.vec@[i].coeffs@[k] == poly_from_bytes(b)[k] by {
                let mm = k / 2;
                assert(packed@[384 * i + 3 * mm] == b[3 * mm]);
                assert(packed@[384 * i + 3 * mm + 1] == b[3 * mm + 1]);
                assert(packed@[384 * i + 3 * mm + 2] == b[3 * mm + 2]);
                assert(skpv.vec@[i].coeffs@[2 * mm] == unpack12_lo(packed@[384 * i + 3 * mm], packed@[384 * i + 3 * mm + 1]));
                assert(skpv.vec@[i].coeffs@[2 * mm + 1] == unpack12_hi(packed@[384 * i + 3 * mm + 1], packed@[384 * i + 3 * mm + 2]));
                if k % 2 == 0 {
                    assert(k == 2 * mm);
                } else {
                    assert(k == 2 * mm + 1);
                }
            }
            assert(skpv.vec@[i].coeffs@ =~= poly_from_bytes(b));
        }
        assert(vec_view(*skpv) =~= vec_from_bytes(packed@));
    }
}

/// K-PKE decryption of `ct` under `sk` into the 32-byte message `m`.
#[verifier::rlimit(60)]
pub fn indcpa_dec(m: &mut [u8; 32], ct: &[u8; 1088], sk: &[u8; 1152])
    ensures
        final(m)@ == indcpa_msg_spec(ct@, sk@),
{
    let mut b = PolyVec::default();
    let mut v = Poly { coeffs: [0i16; 256] };
    unpack_ct(&mut b, &mut v, ct);
    let mut skpv = PolyVec::default();
    unpack_sk(&mut skpv, sk);
    let ghost u = b;
    b.ntt();
    proof {
        assert forall|i: int| 0 <= i < 3 implies #[trigger] b.vec@[i].coeffs@ == ntt_c(dec_u(ct@)[i]) by {
            assert(u.vec@[i].coeffs@ == dec_u(ct@)[i]);
            assert(b.vec@[i].coeffs@ =~= ntt_c(dec_u(ct@)[i]));
        }
        assert(vec_view(b) =~= Seq::new(3, |i: int| ntt_c(dec_u(ct@)[i])));
        assert forall|j: int| 0 <= j < 3 implies bounded(#[trigger] b.vec@[j].coeffs@, 4095) by {}
        assert forall|j: int| 0 <= j < 3 implies bounded(#[trigger] skpv.vec@[j].coeffs@, 4095) by {}
    }
    let mut mp = Poly { coeffs: [0i16; 256] };
    PolyVec::basemul_acc_montgomery(&mut mp, &skpv, &b);
    let ghost acc = mp.coeffs@;
    proof {
        assert(acc =~= acc_poly(vec_from_bytes(sk@), Seq::new(3, |i: int| ntt_c(dec_u(ct@)[i]))));
    }
    mp.invntt_tomont();
    let mp_copy = mp;
    proof {
        assert forall|k: int| 0 <= k < 256 implies -32768 <= #[trigger] v.coeffs@[k] - mp_copy.coeffs@[k] <= 32767 by {}
    }
    mp.sub(&v, &mp_copy);
    let ghost diff = mp.coeffs@;
    mp.reduce();
    proof {
        assert forall|k: int| 0 <= k < 256 implies #[trigger] mp.coeffs@[k] == dec_w(ct@, sk@)[k] by {
            let x = invntt_spec(ints(acc))[k];
            assert(cong(mp_copy.coeffs@[k] as int, x));
            crate::mlkem::ntt::lemma_mod_sub_zero(0, mp_copy.coeffs@[k] - x);
            assert((v.coeffs@[k] - mp_copy.coeffs@[k]) - (v.coeffs@[k] - x) == 0 - (mp_copy.coeffs@[k] - x));
            crate::mlkem::poly::lemma_centered_cong(v.coeffs@[k] - mp_copy.coeffs@[k], v.coeffs@[k] - x);
        }
        assert(mp.coeffs@ =~= dec_w(ct@, sk@));
    }
    mp.tomsg(m);
    proof {
        assert forall|i: int| 0 <= i < 32 implies #[trigger] m@[i] == indcpa_msg_spec(ct@, sk@)[i] by {
            crate::mlkem::poly::lemma_msg_byte_range(mp.coeffs@, i, 8);
        }
        assert(m@ =~= indcpa_msg_spec(ct@, sk@));
    }
}

/// The encoded keys have their fixed sizes.
pub proof fn lemma_key_lens(d: Seq<u8>)
    ensures
        indcpa_pk_spec(d).len() == 1184,
        indcpa_sk_spec(d).len() == 1152,
{
    crate::fips202::lemma_sha3_512_len(d + seq![3u8]);
}

/// K-PKE decryption inverts encryption under a key pair from `indcpa_keypair_derand`
/// whenever Compress_1 recovers each message bit from the decryption polynomial `v - s^T u`;
/// ML-KEM's parameters make the other case a rare decryption failure, so it is excluded here.
/// (`poly::lemma_msg_recovered` gives a sufficient condition: every coefficient less than q/4
/// away from the encoding of its bit.)
pub proof fn lemma_indcpa_dec_enc(d: Seq<u8>, m: Seq<u8>, coins: Seq<u8>)
    requires
        m.len() == 32,
        crate::mlkem::poly::carries_msg(
            dec_w(indcpa_ct_spec(indcpa_pk_spec(d), m, coins), indcpa_sk_spec(d)),
            m,
        ),
    ensures
        indcpa_msg_spec(indcpa_ct_spec(indcpa_pk_spec(d), m, coins), indcpa_sk_spec(d)) == m,
{
    let ct = indcpa_ct_spec(indcpa_pk_spec(d), m, coins);
    let w = dec_w(ct, indcpa_sk_spec(d));
    crate::mlkem::poly::lemma_carries_bytes(m, w);
    assert(indcpa_msg_spec(ct, indcpa_sk_spec(d)) =~= m);
}

} // verus!
