//! Polynomials of Z_q[X]/(X^256 + 1): serialisation, compression, noise sampling and
//! arithmetic.
use vstd::prelude::*;

use crate::fips202::shake256_spec;
use crate::mlkem::coeff::{
    compress1, compress4, compress_d, decompress4, decompress_d, modq, normalize,
};
use crate::mlkem::ntt::{
    basemul, bounded, cong_all, fqmul, invntt, invntt_spec, ints, ntt,
    ntt_spec, rinv, ZETAS,
};
use crate::mlkem::params::{KYBER_N, KYBER_SYMBYTES};
use crate::mlkem::reduce::{barrett_reduce, centered, cong, montgomery_reduce};
use crate::mlkem::symmetric::prf;
use crate::mlkem::verify::cmov_i16;

verus! {

/// A polynomial with 256 coefficients.
#[derive(Clone, Copy)]
pub struct Poly {
    pub coeffs: [i16; 256],
}

impl Default for Poly {
    fn default() -> (r: Self)
        ensures
            forall|i: int| 0 <= i < 256 ==> #[trigger] r.coeffs@[i] == 0,
    {
        Self { coeffs: [0i16; 256] }
    }
}

/// Coefficient `k` of the centered binomial distribution with eta = 2 drawn from `buf`: the
/// two low bits minus the two high bits of nibble `k`.
pub open spec fn cbd_coeff(buf: Seq<u8>, k: int) -> int {
    let byte = buf[k / 2] as int;
    let nib = if k % 2 == 0 {
        byte % 16
    } else {
        byte / 16
    };
    nib % 2 + (nib / 2) % 2 - (nib / 4) % 2 - (nib / 8) % 2
}

/// The noise polynomial of 128 bytes.
pub open spec fn cbd_spec(buf: Seq<u8>) -> Seq<i16> {
    Seq::new(256, |k: int| cbd_coeff(buf, k) as i16)
}

/// Bit `j` of byte `b`.
pub open spec fn bit(b: u8, j: int) -> int {
    (b as int / vstd::arithmetic::power2::pow2(j as nat) as int) % 2
}

/// The three bytes that hold coefficients `2i` and `2i + 1` (12 bits each).
pub open spec fn pack12(u0: int, u1: int) -> Seq<u8> {
    seq![(u0 % 256) as u8, (u0 / 256 + (u1 % 16) * 16) as u8, (u1 / 16) as u8]
}

/// The first 12-bit value of three bytes.
pub open spec fn unpack12_lo(b0: u8, b1: u8) -> int {
    b0 + 256 * (b1 % 16)
}

/// The second 12-bit value of three bytes.
pub open spec fn unpack12_hi(b1: u8, b2: u8) -> int {
    b1 / 16 + 16 * b2
}

/// Every coefficient lies in `(-q, q)`.
pub open spec fn poly_small(p: Poly) -> bool {
    bounded(p.coeffs@, 3328)
}

/// Every coefficient is the centered representative of its class.
pub open spec fn poly_reduced(p: Poly) -> bool {
    bounded(p.coeffs@, 1664)
}

impl Poly {
    /// Compress_4 of every coefficient, two per byte (low nibble first).
    pub fn compress(&self, r: &mut [u8; 128])
        requires
            poly_small(*self),
        ensures
            forall|m: int|
                0 <= m < 128 ==> #[trigger] final(r)@[m] == compress_d(self.coeffs@[2 * m] as int, 4)
                    + 16 * compress_d(self.coeffs@[2 * m + 1] as int, 4),
    {
        let mut m: usize = 0;
        while m < 128
            invariant
                m <= 128,
                poly_small(*self),
                forall|q: int|
                    0 <= q < m ==> #[trigger] r@[q] == compress_d(self.coeffs@[2 * q] as int, 4) + 16
                        * compress_d(self.coeffs@[2 * q + 1] as int, 4),
            decreases 128 - m,
        {
            let t0 = compress4(self.coeffs[2 * m]);
            let t1 = compress4(self.coeffs[2 * m + 1]);
            r[m] = t0 + 16 * t1;
            m = m + 1;
        }
    }

    /// Decompress_4 of every nibble of `a`.
    pub fn decompress(r: &mut Self, a: &[u8; 128])
        ensures
            forall|m: int|
                0 <= m < 128 ==> #[trigger] final(r).coeffs@[2 * m] == decompress_d((a@[m] % 16) as int, 4)
                    && final(r).coeffs@[2 * m + 1] == decompress_d((a@[m] / 16) as int, 4),
            poly_small(*final(r)),
    {
        let mut i: usize = 0;
        while i < 128
            invariant
                i <= 128,
                forall|m: int|
                    0 <= m < i ==> #[trigger] r.coeffs@[2 * m] == decompress_d((a@[m] % 16) as int, 4)
                        && r.coeffs@[2 * m + 1] == decompress_d((a@[m] / 16) as int, 4),
                forall|q: int| 0 <= q < 2 * i ==> 0 <= #[trigger] r.coeffs@[q] < 3329,
            decreases 128 - i,
        {
            let ghost before = r.coeffs@;
            r.coeffs[2 * i] = decompress4(a[i] % 16);
            r.coeffs[2 * i + 1] = decompress4(a[i] / 16);
            proof {
                assert forall|m: int| 0 <= m < i + 1 implies #[trigger] r.coeffs@[2 * m]
                    == decompress_d((a@[m] % 16) as int, 4) && r.coeffs@[2 * m + 1] == decompress_d(
                    (a@[m] / 16) as int,
                    4,
                ) by {
                    if m < i {
                        assert(r.coeffs@[2 * m] == before[2 * m]);
                        assert(r.coeffs@[2 * m + 1] == before[2 * m + 1]);
                    }
                }
                assert forall|q: int| 0 <= q < 2 * (i + 1) implies 0 <= #[trigger] r.coeffs@[q] < 3329 by {
                    if q >= 2 * i {
                    }
                }
            }
            i = i + 1;
        }
        proof {
            assert forall|q: int| 0 <= q < 256 implies -3328 <= #[trigger] r.coeffs@[q] <= 3328 by {}
        }
    }

    /// The 12-bit encoding of every coefficient taken modulo q, two per three bytes.
    pub fn tobytes(&self, r: &mut [u8; 384])
        requires
            poly_small(*self),
        ensures
            forall|i: int|
                0 <= i < 128 ==> #[trigger] final(r)@.subrange(3 * i, 3 * i + 3) == pack12(
                    modq(self.coeffs@[2 * i] as int),
                    modq(self.coeffs@[2 * i + 1] as int),
                ),
    {
        let mut i: usize = 0;
        while i < 128
            invariant
                i <= 128,
                poly_small(*self),
                forall|m: int|
                    0 <= m < i ==> #[trigger] r@.subrange(3 * m, 3 * m + 3) == pack12(
                        modq(self.coeffs@[2 * m] as int),
                        modq(self.coeffs@[2 * m + 1] as int),
                    ),
            decreases 128 - i,
        {
            let t0 = normalize(self.coeffs[2 * i]) as u16;
            let t1 = normalize(self.coeffs[2 * i + 1]) as u16;
            let ghost r0 = r@;
            r[3 * i] = (t0 % 256) as u8;
            r[3 * i + 1] = (t0 / 256 + (t1 % 16) * 16) as u8;
            r[3 * i + 2] = (t1 / 16) as u8;
            proof {
                assert forall|m: int| 0 <= m < i + 1 implies #[trigger] r@.subrange(3 * m, 3 * m + 3) == pack12(
                    modq(self.coeffs@[2 * m] as int),
                    modq(self.coeffs@[2 * m + 1] as int),
                ) by {
                    if m < i {
                        assert(r@.subrange(3 * m, 3 * m + 3) =~= r0.subrange(3 * m, 3 * m + 3));
                    } else {
                        assert(r@.subrange(3 * m, 3 * m + 3) =~= pack12(t0 as int, t1 as int));
                    }
                }
            }
            i = i + 1;
        }
    }

    /// The 12-bit values of `a`, two per three bytes.
    pub fn frombytes(r: &mut Self, a: &[u8; 384])
        ensures
            forall|i: int|
                0 <= i < 128 ==> #[trigger] final(r).coeffs@[2 * i] == unpack12_lo(a@[3 * i], a@[3 * i + 1])
                    && final(r).coeffs@[2 * i + 1] == unpack12_hi(a@[3 * i + 1], a@[3 * i + 2]),
            bounded(final(r).coeffs@, 4095),
    {
        let mut i: usize = 0;
        while i < 128
            invariant
                i <= 128,
                forall|m: int|
                    0 <= m < i ==> #[trigger] r.coeffs@[2 * m] == unpack12_lo(a@[3 * m], a@[3 * m + 1])
                        && r.coeffs@[2 * m + 1] == unpack12_hi(a@[3 * m + 1], a@[3 * m + 2]),
                forall|q: int| 0 <= q < 2 * i ==> 0 <= #[trigger] r.coeffs@[q] <= 4095,
            decreases 128 - i,
        {
            let b0 = a[3 * i] as i16;
            let b1 = a[3 * i + 1] as i16;
            let b2 = a[3 * i + 2] as i16;
            let ghost c0 = r.coeffs@;
            r.coeffs[2 * i] = b0 + 256 * (b1 % 16);
            r.coeffs[2 * i + 1] = b1 / 16 + 16 * b2;
            proof {
                assert forall|m: int| 0 <= m < i + 1 implies #[trigger] r.coeffs@[2 * m] == unpack12_lo(
                    a@[3 * m],
                    a@[3 * m + 1],
                ) && r.coeffs@[2 * m + 1] == unpack12_hi(a@[3 * m + 1], a@[3 * m + 2]) by {
                    if m < i {
                        assert(r.coeffs@[2 * m] == c0[2 * m]);
                        assert(r.coeffs@[2 * m + 1] == c0[2 * m + 1]);
                    }
                }
                assert forall|q: int| 0 <= q < 2 * (i + 1) implies 0 <= #[trigger] r.coeffs@[q] <= 4095 by {
                    if q >= 2 * i {
                    }
                }
            }
            i = i + 1;
        }
        proof {
            assert forall|q: int| 0 <= q < 256 implies -4095 <= #[trigger] r.coeffs@[q] <= 4095 by {}
        }
    }

    /// Coefficient `8i + j` becomes `(q + 1) / 2` when bit `j` of `msg[i]` is set and 0
    /// otherwise.
    pub fn frommsg(r: &mut Self, msg: &[u8; 32])
        ensures
            forall|k: int|
                0 <= k < 256 ==> #[trigger] final(r).coeffs@[k] == if msg_bit(msg@[k / 8], k % 8) == 1 {
                    1665i16
                } else {
                    0i16
                },
    {
        let mut i: usize = 0;
        while i < 32
            invariant
                i <= 32,
                forall|k: int|
                    0 <= k < 8 * i ==> #[trigger] r.coeffs@[k] == if msg_bit(msg@[k / 8], k % 8) == 1 {
                        1665i16
                    } else {
                        0i16
                    },
            decreases 32 - i,
        {
            let mut j: usize = 0;
            while j < 8
                invariant
                    i < 32,
                    j <= 8,
                    forall|k: int|
                        0 <= k < 8 * i + j ==> #[trigger] r.coeffs@[k] == if msg_bit(msg@[k / 8], k % 8)
                            == 1 {
                            1665i16
                        } else {
                            0i16
                        },
                decreases 8 - j,
            {
                r.coeffs[8 * i + j] = 0;
                let bit: u8 = (msg[i] >> (j as u8)) & 1;
                proof {
                    vstd::bits::lemma_u8_shr_is_div(msg[i as int], j as u8);
                    vstd::bits::lemma_u8_low_bits_mask_is_mod(msg[i as int] >> (j as u8), 1);
                    vstd::arithmetic::power2::lemma2_to64();
                    vstd::bits::lemma_low_bits_mask_values();
                    assert((8 * i + j) / 8 == i && (8 * i + j) % 8 == j);
                }
                cmov_i16(&mut r.coeffs[8 * i + j], 1665, bit as u16);
                j = j + 1;
            }
            i = i + 1;
        }
    }

    /// Byte `i` of the message carries Compress_1 of coefficients `8i .. 8i + 8` as its bits
    /// (bit 0 first).
    pub fn tomsg(&self, msg: &mut [u8; 32])
        requires
            forall|k: int| 0 <= k < 256 ==> -1664 <= #[trigger] self.coeffs@[k] <= 3328,
        ensures
            forall|i: int| 0 <= i < 32 ==> #[trigger] final(msg)@[i] == msg_byte(self.coeffs@, i, 8),
    {
        let mut i: usize = 0;
        while i < 32
            invariant
                i <= 32,
                forall|k: int| 0 <= k < 256 ==> -1664 <= #[trigger] self.coeffs@[k] <= 3328,
                forall|m: int| 0 <= m < i ==> #[trigger] msg@[m] == msg_byte(self.coeffs@, m, 8),
            decreases 32 - i,
        {
            let mut acc: u16 = 0;
            let mut pw: u16 = 1;
            let mut j: usize = 0;
            proof {
                vstd::arithmetic::power2::lemma2_to64();
            }
            while j < 8
                invariant
                    i < 32,
                    j <= 8,
                    forall|k: int| 0 <= k < 256 ==> -1664 <= #[trigger] self.coeffs@[k] <= 3328,
                    pw == vstd::arithmetic::power2::pow2(j as nat),
                    pw <= 256,
                    acc == msg_byte(self.coeffs@, i as int, j as nat),
                    acc < pw,
                decreases 8 - j,
            {
                let t = compress1(self.coeffs[8 * i + j]);
                proof {
                    vstd::arithmetic::power2::lemma2_to64();
                    vstd::arithmetic::power2::lemma_pow2_unfold((j + 1) as nat);
                    assert(pw <= 128);
                    assert((t as u16) * pw <= pw) by (nonlinear_arith)
                        requires
                            t < 2,
                            pw >= 0,
                    ;
                }
                acc = acc + (t as u16) * pw;
                pw = pw * 2;
                j = j + 1;
            }
            msg[i] = acc as u8;
            proof {
                vstd::arithmetic::power2::lemma2_to64();
            }
            i = i + 1;
        }
    }

    /// Noise with eta1 = 2 from PRF(seed, nonce).
    pub fn getnoise_eta1(&mut self, seed: &[u8; KYBER_SYMBYTES], nonce: u8)
        ensures
            final(self).coeffs@ == cbd_spec(shake256_spec(seed@ + seq![nonce], 128)),
    {
        let mut buf = [0u8; 128];
        prf(&mut buf, seed, nonce);
        crate::mlkem::cbd::poly_cbd_eta1(self, &buf);
    }

    /// Noise with eta2 = 2 from PRF(seed, nonce).
    pub fn getnoise_eta2(&mut self, seed: &[u8; KYBER_SYMBYTES], nonce: u8)
        ensures
            final(self).coeffs@ == cbd_spec(shake256_spec(seed@ + seq![nonce], 128)),
    {
        let mut buf = [0u8; 128];
        prf(&mut buf, seed, nonce);
        crate::mlkem::cbd::poly_cbd_eta2(self, &buf);
    }

    /// Forward transform followed by reduction: every coefficient becomes the centered
    /// representative of the transform of the input.
    pub fn poly_ntt(&mut self)
        requires
            poly_small(*old(self)),
        ensures
            forall|i: int|
                0 <= i < 256 ==> #[trigger] final(self).coeffs@[i] == centered(
                    ntt_spec(ints(old(self).coeffs@))[i],
                ),
            poly_reduced(*final(self)),
    {
        let ghost f = ints(self.coeffs@);
        ntt(&mut self.coeffs);
        let ghost t = self.coeffs@;
        self.reduce();
        proof {
            assert forall|i: int| 0 <= i < 256 implies #[trigger] self.coeffs@[i] == centered(ntt_spec(f)[i]) by {
                lemma_centered_cong(t[i] as int, ntt_spec(f)[i]);
            }
        }
    }

    /// Inverse transform with the Montgomery factor.
    pub fn invntt_tomont(&mut self)
        requires
            poly_small(*old(self)),
        ensures
            cong_all(final(self).coeffs@, invntt_spec(ints(old(self).coeffs@))),
            poly_small(*final(self)),
    {
        invntt(&mut self.coeffs);
    }

    /// Pointwise product of two transformed polynomials (pairs of coefficients multiplied
    /// modulo `X^2 - zeta`), with the factor 2^-16.
    pub fn basemul_montgomery(&mut self, a: &Poly, b: &Poly)
        requires
            bounded(a.coeffs@, 4095),
            bounded(b.coeffs@, 4095),
        ensures
            forall|i: int|
                0 <= i < 64 ==> {
                    let z = ZETAS@[64 + i] * rinv();
                    &&& cong(
                        #[trigger] final(self).coeffs@[4 * i] as int,
                        (a.coeffs@[4 * i] * b.coeffs@[4 * i] + a.coeffs@[4 * i + 1] * b.coeffs@[4 * i + 1]
                            * z) * rinv(),
                    )
                    &&& cong(
                        final(self).coeffs@[4 * i + 1] as int,
                        (a.coeffs@[4 * i] * b.coeffs@[4 * i + 1] + a.coeffs@[4 * i + 1] * b.coeffs@[4 * i])
                            * rinv(),
                    )
                    &&& cong(
                        final(self).coeffs@[4 * i + 2] as int,
                        (a.coeffs@[4 * i + 2] * b.coeffs@[4 * i + 2] + a.coeffs@[4 * i + 3] * b.coeffs@[4 * i
                            + 3] * (-z)) * rinv(),
                    )
                    &&& cong(
                        final(self).coeffs@[4 * i + 3] as int,
                        (a.coeffs@[4 * i + 2] * b.coeffs@[4 * i + 3] + a.coeffs@[4 * i + 3] * b.coeffs@[4 * i
                            + 2]) * rinv(),
                    )
                },
            bounded(final(self).coeffs@, 6657),
    {
        let mut i: usize = 0;
        while i < 64
            invariant
                i <= 64,
                bounded(a.coeffs@, 4095),
                bounded(b.coeffs@, 4095),
                forall|q: int| 0 <= q < 4 * i ==> -6657 <= #[trigger] self.coeffs@[q] <= 6657,
                forall|m: int|
                    0 <= m < i ==> {
                        let z = ZETAS@[64 + m] * rinv();
                        &&& cong(
                            #[trigger] self.coeffs@[4 * m] as int,
                            (a.coeffs@[4 * m] * b.coeffs@[4 * m] + a.coeffs@[4 * m + 1] * b.coeffs@[4 * m
                                + 1] * z) * rinv(),
                        )
                        &&& cong(
                            self.coeffs@[4 * m + 1] as int,
                            (a.coeffs@[4 * m] * b.coeffs@[4 * m + 1] + a.coeffs@[4 * m + 1] * b.coeffs@[4
                                * m]) * rinv(),
                        )
                        &&& cong(
                            self.coeffs@[4 * m + 2] as int,
                            (a.coeffs@[4 * m + 2] * b.coeffs@[4 * m + 2] + a.coeffs@[4 * m + 3]
                                * b.coeffs@[4 * m + 3] * (-z)) * rinv(),
                        )
                        &&& cong(
                            self.coeffs@[4 * m + 3] as int,
                            (a.coeffs@[4 * m + 2] * b.coeffs@[4 * m + 3] + a.coeffs@[4 * m + 3]
                                * b.coeffs@[4 * m + 2]) * rinv(),
                        )
                    },
            decreases 64 - i,
        {
            proof {
                crate::mlkem::ntt::lemma_zetas_bounded();
            }
            let zeta = ZETAS[64 + i];
            let mut r0 = [0i16; 2];
            let mut r1 = [0i16; 2];
            let a0 = [a.coeffs[4 * i], a.coeffs[4 * i + 1]];
            let b0 = [b.coeffs[4 * i], b.coeffs[4 * i + 1]];
            basemul(&mut r0, &a0, &b0, zeta);
            let a1 = [a.coeffs[4 * i + 2], a.coeffs[4 * i + 3]];
            let b1 = [b.coeffs[4 * i + 2], b.coeffs[4 * i + 3]];
            basemul(&mut r1, &a1, &b1, -zeta);
            let ghost c0 = self.coeffs@;
            self.coeffs[4 * i] = r0[0];
            self.coeffs[4 * i + 1] = r0[1];
            self.coeffs[4 * i + 2] = r1[0];
            self.coeffs[4 * i + 3] = r1[1];
            proof {
                assert((-zeta) * rinv() == -(zeta * rinv()));
                let z = ZETAS@[64 + i] * rinv();
                assert(a0[0] == a.coeffs@[4 * i] && a0[1] == a.coeffs@[4 * i + 1]);
                assert(b0[0] == b.coeffs@[4 * i] && b0[1] == b.coeffs@[4 * i + 1]);
                assert(a1[0] == a.coeffs@[4 * i + 2] && a1[1] == a.coeffs@[4 * i + 3]);
                assert(b1[0] == b.coeffs@[4 * i + 2] && b1[1] == b.coeffs@[4 * i + 3]);
                assert(zeta * rinv() == z);
                assert(self.coeffs@[4 * i] == r0[0] && self.coeffs@[4 * i + 1] == r0[1]);
                assert(self.coeffs@[4 * i + 2] == r1[0] && self.coeffs@[4 * i + 3] == r1[1]);
                assert forall|m: int| 0 <= m < i implies #[trigger] self.coeffs@[4 * m] == c0[4 * m]
                    && self.coeffs@[4 * m + 1] == c0[4 * m + 1] && self.coeffs@[4 * m + 2] == c0[4 * m + 2]
                    && self.coeffs@[4 * m + 3] == c0[4 * m + 3] by {}
                assert forall|q: int| 0 <= q < 4 * (i + 1) implies -6657 <= #[trigger] self.coeffs@[q] <= 6657 by {
                    if q < 4 * i {
                        assert(self.coeffs@[q] == c0[q]);
                    }
                }
            }
            i = i + 1;
        }
    }

    /// Every coefficient times 2^16 (the Montgomery factor), modulo q.
    pub fn tomont(&mut self)
        ensures
            forall|i: int|
                0 <= i < 256 ==> cong(#[trigger] final(self).coeffs@[i] as int, old(self).coeffs@[i] * 65536),
            poly_small(*final(self)),
    {
        let f: i32 = 1353;
        let ghost c0 = self.coeffs@;
        let mut i: usize = 0;
        while i < 256
            invariant
                i <= 256,
                f == 1353,
                forall|q: int| 0 <= q < i ==> cong(#[trigger] self.coeffs@[q] as int, c0[q] * 65536)
                    && -3328 <= self.coeffs@[q] <= 3328,
                forall|q: int| i <= q < 256 ==> #[trigger] self.coeffs@[q] == c0[q],
            decreases 256 - i,
        {
            let c = self.coeffs[i];
            assert(-109084672 <= c * 1353 < 109084672) by (nonlinear_arith)
                requires
                    -32768 <= c <= 32767,
            ;
            let v = montgomery_reduce(c as i32 * f);
            proof {
                lemma_tomont_factor(v as int, c as int);
            }
            self.coeffs[i] = v;
            i = i + 1;
        }
    }

    /// Barrett reduction of every coefficient to its centered representative.
    pub fn reduce(&mut self)
        ensures
            forall|i: int| 0 <= i < 256 ==> #[trigger] final(self).coeffs@[i] == centered(old(self).coeffs@[i] as int),
            poly_reduced(*final(self)),
    {
        let ghost c0 = self.coeffs@;
        let mut i: usize = 0;
        while i < 256
            invariant
                i <= 256,
                forall|q: int| 0 <= q < i ==> #[trigger] self.coeffs@[q] == centered(c0[q] as int)
                    && -1664 <= self.coeffs@[q] <= 1664,
                forall|q: int| i <= q < 256 ==> #[trigger] self.coeffs@[q] == c0[q],
            decreases 256 - i,
        {
            self.coeffs[i] = barrett_reduce(self.coeffs[i]);
            i = i + 1;
        }
    }

    /// Coefficient-wise sum `a + b`.
    pub fn add(&mut self, a: &Poly, b: &Poly)
        requires
            forall|i: int| 0 <= i < 256 ==> -32768 <= #[trigger] a.coeffs@[i] + b.coeffs@[i] <= 32767,
        ensures
            forall|i: int| 0 <= i < 256 ==> #[trigger] final(self).coeffs@[i] == a.coeffs@[i] + b.coeffs@[i],
    {
        let mut i: usize = 0;
        while i < 256
            invariant
                i <= 256,
                forall|q: int| 0 <= q < 256 ==> -32768 <= #[trigger] a.coeffs@[q] + b.coeffs@[q] <= 32767,
                forall|q: int| 0 <= q < i ==> #[trigger] self.coeffs@[q] == a.coeffs@[q] + b.coeffs@[q],
            decreases 256 - i,
        {
            self.coeffs[i] = a.coeffs[i] + b.coeffs[i];
            i = i + 1;
        }
    }

    /// Coefficient-wise difference `a - b`.
    pub fn sub(&mut self, a: &Poly, b: &Poly)
        requires
            forall|i: int| 0 <= i < 256 ==> -32768 <= #[trigger] a.coeffs@[i] - b.coeffs@[i] <= 32767,
        ensures
            forall|i: int| 0 <= i < 256 ==> #[trigger] final(self).coeffs@[i] == a.coeffs@[i] - b.coeffs@[i],
    {
        let mut i: usize = 0;
        while i < 256
            invariant
                i <= 256,
                forall|q: int| 0 <= q < 256 ==> -32768 <= #[trigger] a.coeffs@[q] - b.coeffs@[q] <= 32767,
                forall|q: int| 0 <= q < i ==> #[trigger] self.coeffs@[q] == a.coeffs@[q] - b.coeffs@[q],
            decreases 256 - i,
        {
            self.coeffs[i] = a.coeffs[i] - b.coeffs[i];
            i = i + 1;
        }
    }
}

/// Bit `j` of a message byte.
pub open spec fn msg_bit(m: u8, j: int) -> int {
    (m as int / vstd::arithmetic::power2::pow2(j as nat) as int) % 2
}

/// The message byte `i` carried by coefficients `8i .. 8i + n`.
pub open spec fn msg_byte(c: Seq<i16>, i: int, n: nat) -> int
    decreases n,
{
    if n == 0 {
        0
    } else {
        msg_byte(c, i, (n - 1) as nat) + compress_d(c[8 * i + n - 1] as int, 1)
            * vstd::arithmetic::power2::pow2((n - 1) as nat)
    }
}

/// A representative congruent to `x` that Barrett reduction maps to the centered
/// representative of `x`.
pub(crate) proof fn lemma_centered_cong(t: int, x: int)
    requires
        cong(t, x),
    ensures
        centered(t) == centered(x),
{
    vstd::arithmetic::div_mod::lemma_fundamental_div_mod(t - x, 3329);
    let k = (t - x) / 3329;
    assert(t == x + k * 3329);
    vstd::arithmetic::div_mod::lemma_mod_multiples_vanish(k, x, 3329);
    assert((x + k * 3329) % 3329 == x % 3329) by {
        vstd::arithmetic::div_mod::lemma_mod_multiples_vanish(k, x, 3329);
        assert(k * 3329 + x == x + k * 3329);
    }
}

/// Montgomery reduction of `c * (2^32 mod q)` is `c * 2^16` modulo q.
proof fn lemma_tomont_factor(v: int, c: int)
    requires
        cong(v * 65536, c * 1353),
    ensures
        cong(v, c * 65536),
{
    // 1353 = 2^32 mod q, and 2^16 * 65536 = 2^32.
    assert((v * 65536 - c * 1353) * 169 == v * 11075584 - c * 228657) by (nonlinear_arith);
    assert(v * 11075584 == v + v * 3327 * 3329) by (nonlinear_arith);
    assert(c * 228657 == c * 65536 + c * 49 * 3329) by (nonlinear_arith);
    crate::mlkem::ntt::lemma_mod_mul_zero(v * 65536 - c * 1353, 169);
    crate::mlkem::ntt::lemma_mod_mul_zero(v * 3327, 3329);
    crate::mlkem::ntt::lemma_mod_mul_zero(c * 49, 3329);
    assert(v - c * 65536 == (v * 65536 - c * 1353) * 169 - v * 3327 * 3329 + c * 49 * 3329);
    crate::mlkem::ntt::lemma_mod_sub_zero((v * 65536 - c * 1353) * 169, v * 3327 * 3329);
    crate::mlkem::ntt::lemma_mod_add_zero((v * 65536 - c * 1353) * 169 - v * 3327 * 3329, c * 49 * 3329);
}


/// Coefficient `k` of the pointwise product of transformed polynomials `a` and `b` (with the
/// factor 2^-16), as an integer meaningful modulo q.
pub open spec fn basemul_spec(a: Seq<i16>, b: Seq<i16>, k: int) -> int {
    let i = k / 4;
    let z = ZETAS@[64 + i] * rinv();
    let a0 = a[4 * i] as int;
    let a1 = a[4 * i + 1] as int;
    let a2 = a[4 * i + 2] as int;
    let a3 = a[4 * i + 3] as int;
    let b0 = b[4 * i] as int;
    let b1 = b[4 * i + 1] as int;
    let b2 = b[4 * i + 2] as int;
    let b3 = b[4 * i + 3] as int;
    if k % 4 == 0 {
        (a0 * b0 + a1 * b1 * z) * rinv()
    } else if k % 4 == 1 {
        (a0 * b1 + a1 * b0) * rinv()
    } else if k % 4 == 2 {
        (a2 * b2 + a3 * b3 * (-z)) * rinv()
    } else {
        (a2 * b3 + a3 * b2) * rinv()
    }
}

/// The pointwise products of `basemul_montgomery`, coefficient by coefficient.
pub proof fn lemma_basemul_coeffs(r: Poly, a: Poly, b: Poly)
    requires
        forall|i: int|
            0 <= i < 64 ==> {
                let z = ZETAS@[64 + i] * rinv();
                &&& cong(
                    #[trigger] r.coeffs@[4 * i] as int,
                    (a.coeffs@[4 * i] * b.coeffs@[4 * i] + a.coeffs@[4 * i + 1] * b.coeffs@[4 * i + 1] * z)
                        * rinv(),
                )
                &&& cong(
                    r.coeffs@[4 * i + 1] as int,
                    (a.coeffs@[4 * i] * b.coeffs@[4 * i + 1] + a.coeffs@[4 * i + 1] * b.coeffs@[4 * i])
                        * rinv(),
                )
                &&& cong(
                    r.coeffs@[4 * i + 2] as int,
                    (a.coeffs@[4 * i + 2] * b.coeffs@[4 * i + 2] + a.coeffs@[4 * i + 3] * b.coeffs@[4 * i
                        + 3] * (-z)) * rinv(),
                )
                &&& cong(
                    r.coeffs@[4 * i + 3] as int,
                    (a.coeffs@[4 * i + 2] * b.coeffs@[4 * i + 3] + a.coeffs@[4 * i + 3] * b.coeffs@[4 * i
                        + 2]) * rinv(),
                )
            },
    ensures
        forall|k: int|
            0 <= k < 256 ==> cong(#[trigger] r.coeffs@[k] as int, basemul_spec(a.coeffs@, b.coeffs@, k)),
{
    assert forall|k: int| 0 <= k < 256 implies cong(#[trigger] r.coeffs@[k] as int, basemul_spec(a.coeffs@, b.coeffs@, k)) by {
        let i = k / 4;
        assert(0 <= i < 64);
        assert(k == 4 * i + k % 4);
        assert(cong(r.coeffs@[4 * i] as int, (a.coeffs@[4 * i] * b.coeffs@[4 * i] + a.coeffs@[4 * i + 1]
            * b.coeffs@[4 * i + 1] * (ZETAS@[64 + i] * rinv())) * rinv()));
    }
}

/// A message byte built from `n <= 8` bits lies below `2^n`.
pub proof fn lemma_msg_byte_range(c: Seq<i16>, i: int, n: nat)
    requires
        n <= 8,
    ensures
        0 <= msg_byte(c, i, n) < vstd::arithmetic::power2::pow2(n),
        0 <= msg_byte(c, i, n) < 256,
    decreases n,
{
    vstd::arithmetic::power2::lemma2_to64();
    if n > 0 {
        lemma_msg_byte_range(c, i, (n - 1) as nat);
        vstd::arithmetic::power2::lemma_pow2_unfold(n);
        let b = compress_d(c[8 * i + n - 1] as int, 1);
        assert(0 <= b < 2) by {
            crate::mlkem::coeff::lemma_compress1_range(c[8 * i + n - 1] as int);
        }
        assert(b * vstd::arithmetic::power2::pow2((n - 1) as nat) <= vstd::arithmetic::power2::pow2((n - 1) as nat)) by (nonlinear_arith)
            requires
                0 <= b < 2,
        ;
    }
}

/// The coefficients that `frommsg` makes of message `m`: 1665 for a set bit, 0 for a clear
/// one (bit `k % 8` of byte `k / 8`).
pub open spec fn msg_coeffs(m: Seq<u8>) -> Seq<i16> {
    Seq::new(
        256,
        |k: int|
            if msg_bit(m[k / 8], k % 8) == 1 {
                1665i16
            } else {
                0i16
            },
    )
}

/// The coefficients `c` carry the bits of message `m`: Compress_1 of coefficient `k` is bit
/// `k % 8` of byte `k / 8`.
pub open spec fn carries_msg(c: Seq<i16>, m: Seq<u8>) -> bool {
    forall|k: int| 0 <= k < 256 ==> #[trigger] compress_d(c[k] as int, 1) == msg_bit(m[k / 8], k % 8)
}

proof fn lemma_msg_byte_bits(m: Seq<u8>, c: Seq<i16>, i: int, n: nat)
    requires
        m.len() == 32,
        c.len() == 256,
        0 <= i < 32,
        n <= 8,
        carries_msg(c, m),
    ensures
        msg_byte(c, i, n) == m[i] as int % (vstd::arithmetic::power2::pow2(n) as int),
    decreases n,
{
    vstd::arithmetic::power2::lemma2_to64();
    if n == 0 {
        assert(m[i] as int % 1 == 0);
    } else {
        let j = (n - 1) as nat;
        lemma_msg_byte_bits(m, c, i, j);
        let k = 8 * i + j;
        assert(k / 8 == i && k % 8 == j) by {
            vstd::arithmetic::div_mod::lemma_fundamental_div_mod_converse(k, 8, i, j as int);
        }
        let bit = msg_bit(m[i], j as int);
        let p = vstd::arithmetic::power2::pow2(j) as int;
        assert(p > 0) by {
            vstd::arithmetic::power2::lemma_pow2_pos(j);
        }
        assert(compress_d(c[k] as int, 1) == bit);
        vstd::arithmetic::power2::lemma_pow2_unfold(n);
        vstd::arithmetic::div_mod::lemma_mod_breakdown(m[i] as int, p, 2);
        assert(bit * p == p * bit) by (nonlinear_arith);
        assert(p * 2 == 2 * p);
    }
}

/// A polynomial whose coefficients each compress (Compress_1) to the matching bit of `m`
/// reads back, byte by byte, as `m`.
pub proof fn lemma_carries_bytes(m: Seq<u8>, c: Seq<i16>)
    requires
        m.len() == 32,
        c.len() == 256,
        carries_msg(c, m),
    ensures
        forall|i: int| 0 <= i < 32 ==> msg_byte(c, i, 8) == m[i] as int,
{
    vstd::arithmetic::power2::lemma2_to64();
    assert forall|i: int| 0 <= i < 32 implies msg_byte(c, i, 8) == m[i] as int by {
        lemma_msg_byte_bits(m, c, i, 8);
    }
}

/// Encoding a message as a polynomial and reading it back gives the message: every byte of
/// the message is the byte that `tomsg` reads from the coefficients `frommsg` made of it, and
/// those coefficients lie in the range `tomsg` accepts.
pub proof fn lemma_msg_roundtrip(m: Seq<u8>)
    requires
        m.len() == 32,
    ensures
        forall|i: int| 0 <= i < 32 ==> msg_byte(msg_coeffs(m), i, 8) == m[i] as int,
        forall|k: int| 0 <= k < 256 ==> -1664 <= #[trigger] msg_coeffs(m)[k] <= 3328,
{
    vstd::arithmetic::power2::lemma2_to64();
    let c = msg_coeffs(m);
    assert forall|k: int| 0 <= k < 256 implies #[trigger] compress_d(c[k] as int, 1) == msg_bit(
        m[k / 8],
        k % 8,
    ) by {
        assert(modq(1665) == 1665);
        assert(modq(0) == 0);
        assert(0 <= msg_bit(m[k / 8], k % 8) < 2);
    }
    lemma_carries_bytes(m, c);
}

/// Compress_1 rounds to the nearest of 0 and q/2: a coefficient less than q/4 away from
/// `1665 * bit` (modulo q) compresses to `bit`.
proof fn lemma_compress1_rounds(w: int, bit: int)
    requires
        bit == 0 || bit == 1,
        -832 <= centered(w - 1665 * bit) < 832,
    ensures
        compress_d(w, 1) == bit,
{
    vstd::arithmetic::power2::lemma2_to64();
    let y = w - 1665 * bit;
    let d = centered(y);
    let q = y / 3329;
    vstd::arithmetic::div_mod::lemma_fundamental_div_mod(y, 3329);
    let kq = if y % 3329 > 1664 {
        q + 1
    } else {
        q
    };
    assert(w == 3329 * kq + (1665 * bit + d));
    let x = modq(w);
    if 1665 * bit + d >= 0 {
        vstd::arithmetic::div_mod::lemma_fundamental_div_mod_converse(w, 3329, kq, 1665 * bit + d);
        assert(x == 1665 * bit + d);
    } else {
        assert(w == 3329 * (kq - 1) + (d + 3329));
        vstd::arithmetic::div_mod::lemma_fundamental_div_mod_converse(w, 3329, kq - 1, d + 3329);
        assert(x == d + 3329);
    }
    let num = 2 * x + 1664;
    if bit == 1 {
        assert(3329 <= num < 6658);
        vstd::arithmetic::div_mod::lemma_fundamental_div_mod_converse(num, 3329, 1, num - 3329);
    } else if d >= 0 {
        assert(0 <= num < 3329);
        vstd::arithmetic::div_mod::lemma_fundamental_div_mod_converse(num, 3329, 0, num);
    } else {
        assert(6658 <= num < 9987);
        vstd::arithmetic::div_mod::lemma_fundamental_div_mod_converse(num, 3329, 2, num - 6658);
    }
}

/// Reading a message from coefficients that each lie less than q/4 away from the message's
/// encoding (modulo q, the distance taken in `[-832, 832)`) gives the message: the rounding of
/// `tomsg` absorbs any such error.
pub proof fn lemma_msg_recovered(m: Seq<u8>, w: Seq<i16>)
    requires
        m.len() == 32,
        w.len() == 256,
        forall|k: int| 0 <= k < 256 ==> -832 <= #[trigger] centered(w[k] - msg_coeffs(m)[k]) < 832,
    ensures
        carries_msg(w, m),
        forall|i: int| 0 <= i < 32 ==> msg_byte(w, i, 8) == m[i] as int,
{
    vstd::arithmetic::power2::lemma2_to64();
    assert forall|k: int| 0 <= k < 256 implies #[trigger] compress_d(w[k] as int, 1) == msg_bit(
        m[k / 8],
        k % 8,
    ) by {
        let bit = msg_bit(m[k / 8], k % 8);
        assert(0 <= bit < 2);
        assert(msg_coeffs(m)[k] == 1665 * bit);
        assert(-832 <= centered(w[k] - msg_coeffs(m)[k]) < 832);
        lemma_compress1_rounds(w[k] as int, bit);
    }
    lemma_carries_bytes(m, w);
}

proof fn lemma_pack12_roundtrip(u0: int, u1: int)
    requires
        0 <= u0 < 4096,
        0 <= u1 < 4096,
    ensures
        unpack12_lo(pack12(u0, u1)[0], pack12(u0, u1)[1]) == u0,
        unpack12_hi(pack12(u0, u1)[1], pack12(u0, u1)[2]) == u1,
{
    let lo = u0 % 256;
    let a = u0 / 256;
    let t = u1 % 16;
    let hi = u1 / 16;
    assert(u0 == 256 * a + lo && 0 <= lo < 256 && 0 <= a < 16) by (nonlinear_arith)
        requires
            0 <= u0 < 4096,
            lo == u0 % 256,
            a == u0 / 256,
    ;
    assert(u1 == 16 * hi + t && 0 <= t < 16 && 0 <= hi < 256) by (nonlinear_arith)
        requires
            0 <= u1 < 4096,
            t == u1 % 16,
            hi == u1 / 16,
    ;
    let b1 = a + t * 16;
    assert(0 <= b1 < 256 && b1 % 16 == a && b1 / 16 == t) by (nonlinear_arith)
        requires
            0 <= a < 16,
            0 <= t < 16,
            b1 == a + t * 16,
    ;
    let p = pack12(u0, u1);
    assert(p[0] as int == lo);
    assert(p[1] as int == b1);
    assert(p[2] as int == hi);
}

/// Serialising a polynomial and reading the bytes back gives each coefficient reduced
/// modulo q: the 12-bit packing of `tobytes` is undone exactly by `frombytes`.
pub proof fn lemma_bytes_roundtrip(p: Poly, b: Seq<u8>)
    requires
        poly_small(p),
        b.len() == 384,
        forall|i: int|
            0 <= i < 128 ==> #[trigger] b.subrange(3 * i, 3 * i + 3) == pack12(
                modq(p.coeffs@[2 * i] as int),
                modq(p.coeffs@[2 * i + 1] as int),
            ),
    ensures
        forall|i: int|
            0 <= i < 128 ==> #[trigger] unpack12_lo(b[3 * i], b[3 * i + 1]) == modq(
                p.coeffs@[2 * i] as int,
            ) && unpack12_hi(b[3 * i + 1], b[3 * i + 2]) == modq(p.coeffs@[2 * i + 1] as int),
{
    assert forall|i: int| 0 <= i < 128 implies #[trigger] unpack12_lo(b[3 * i], b[3 * i + 1])
        == modq(p.coeffs@[2 * i] as int) && unpack12_hi(b[3 * i + 1], b[3 * i + 2]) == modq(
        p.coeffs@[2 * i + 1] as int,
    ) by {
        let u0 = modq(p.coeffs@[2 * i] as int);
        let u1 = modq(p.coeffs@[2 * i + 1] as int);
        lemma_pack12_roundtrip(u0, u1);
        let w = b.subrange(3 * i, 3 * i + 3);
        assert(w == pack12(u0, u1));
        assert(b[3 * i] == w[0] && b[3 * i + 1] == w[1] && b[3 * i + 2] == w[2]);
    }
}


/// `decompress` followed by `compress` gives back the bytes: for coefficients `c` made from
/// bytes `a` as `Poly::decompress` makes them, the bytes `Poly::compress` makes of `c` are `a`.
pub proof fn lemma_decompress_then_compress(a: Seq<u8>, c: Seq<i16>, out: Seq<u8>)
    requires
        a.len() == 128,
        c.len() == 256,
        out.len() == 128,
        forall|m: int|
            0 <= m < 128 ==> #[trigger] c[2 * m] == decompress_d((a[m] % 16) as int, 4) && c[2 * m
                + 1] == decompress_d((a[m] / 16) as int, 4),
        forall|m: int|
            0 <= m < 128 ==> #[trigger] out[m] == compress_d(c[2 * m] as int, 4) + 16 * compress_d(
                c[2 * m + 1] as int,
                4,
            ),
    ensures
        out == a,
{
    vstd::arithmetic::power2::lemma2_to64();
    assert forall|m: int| 0 <= m < 128 implies #[trigger] out[m] == a[m] by {
        let lo = (a[m] % 16) as int;
        let hi = (a[m] / 16) as int;
        crate::mlkem::coeff::lemma_decompress_compress(lo, 4);
        crate::mlkem::coeff::lemma_decompress_compress(hi, 4);
        assert(c[2 * m] as int == decompress_d(lo, 4));
        assert(c[2 * m + 1] as int == decompress_d(hi, 4));
    }
    assert(out =~= a);
}

/// Serialising a polynomial with `tobytes` and reading the bytes back with `frombytes` gives
/// every coefficient's representative in `[0, q)`.
pub proof fn lemma_tobytes_then_frombytes(p: Poly, b: Seq<u8>, r: Seq<i16>)
    requires
        poly_small(p),
        b.len() == 384,
        r.len() == 256,
        forall|i: int|
            0 <= i < 128 ==> #[trigger] b.subrange(3 * i, 3 * i + 3) == pack12(
                modq(p.coeffs@[2 * i] as int),
                modq(p.coeffs@[2 * i + 1] as int),
            ),
        forall|i: int|
            0 <= i < 128 ==> #[trigger] r[2 * i] == unpack12_lo(b[3 * i], b[3 * i + 1]) && r[2 * i
                + 1] == unpack12_hi(b[3 * i + 1], b[3 * i + 2]),
    ensures
        forall|k: int| 0 <= k < 256 ==> #[trigger] r[k] as int == modq(p.coeffs@[k] as int),
{
    lemma_bytes_roundtrip(p, b);
    assert forall|k: int| 0 <= k < 256 implies #[trigger] r[k] as int == modq(p.coeffs@[k] as int) by {
        let i = k / 2;
        assert(r[2 * i] == unpack12_lo(b[3 * i], b[3 * i + 1]));
        assert(unpack12_lo(b[3 * i], b[3 * i + 1]) == modq(p.coeffs@[2 * i] as int));
        assert(unpack12_hi(b[3 * i + 1], b[3 * i + 2]) == modq(p.coeffs@[2 * i + 1] as int));
    }
}

} // verus!
