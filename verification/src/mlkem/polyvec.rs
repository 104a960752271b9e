//! Vectors of three polynomials.
use vstd::prelude::*;

use crate::mlkem::coeff::{compress10, compress_d, decompress10, decompress_d, modq};
use crate::mlkem::ntt::{bounded, cong_all, invntt_spec, ints, ntt_spec};
use crate::mlkem::poly::{
    basemul_spec, lemma_basemul_coeffs, pack12, poly_reduced, poly_small, unpack12_hi,
    unpack12_lo, Poly,
};
use crate::mlkem::reduce::{centered, cong};

verus! {

/// A vector of three polynomials.
#[derive(Clone, Copy)]
pub struct PolyVec {
    pub vec: [Poly; 3],
}

impl Default for PolyVec {
    fn default() -> (r: Self)
        ensures
            forall|i: int, k: int| 0 <= i < 3 && 0 <= k < 256 ==> #[trigger] r.vec@[i].coeffs@[k] == 0,
    {
        let p = Poly { coeffs: [0i16; 256] };
        Self { vec: [p, p, p] }
    }
}

/// The five bytes that hold four 10-bit values.
pub open spec fn pack10(t0: int, t1: int, t2: int, t3: int) -> Seq<u8> {
    seq![
        (t0 % 256) as u8,
        (t0 / 256 + (t1 % 64) * 4) as u8,
        (t1 / 64 + (t2 % 16) * 16) as u8,
        (t2 / 16 + (t3 % 4) * 64) as u8,
        (t3 / 4) as u8,
    ]
}

/// The four 10-bit values held by five bytes.
pub open spec fn unpack10(a: Seq<u8>) -> Seq<int> {
    seq![
        a[0] + 256 * (a[1] % 4),
        a[1] / 4 + 64 * (a[2] % 16),
        a[2] / 16 + 16 * (a[3] % 64),
        a[3] / 64 + 4 * a[4],
    ]
}

/// Every polynomial of the vector has coefficients in `(-q, q)`.
pub open spec fn vec_small(v: PolyVec) -> bool {
    forall|i: int| 0 <= i < 3 ==> poly_small(#[trigger] v.vec@[i])
}

/// Every polynomial of the vector has coefficients in `[-4095, 4095]`.
pub open spec fn vec_bounded(v: PolyVec, b: int) -> bool {
    forall|i: int| 0 <= i < 3 ==> bounded(#[trigger] v.vec@[i].coeffs@, b)
}

/// Coefficient `k` of the sum over the vector of pointwise products of `a` and `b`.
pub open spec fn basemul_acc_spec(a: PolyVec, b: PolyVec, k: int) -> int {
    basemul_spec(a.vec@[0].coeffs@, b.vec@[0].coeffs@, k) + basemul_spec(
        a.vec@[1].coeffs@,
        b.vec@[1].coeffs@,
        k,
    ) + basemul_spec(a.vec@[2].coeffs@, b.vec@[2].coeffs@, k)
}

impl PolyVec {
    /// Compress_10 of every coefficient, four per five bytes.
    pub fn compress(&self, r: &mut [u8; 960])
        requires
            vec_small(*self),
        ensures
            forall|i: int, j: int|
                0 <= i < 3 && 0 <= j < 64 ==> #[trigger] final(r)@.subrange(320 * i + 5 * j, 320 * i + 5 * j + 5)
                    == pack10(
                    compress_d(self.vec@[i].coeffs@[4 * j] as int, 10),
                    compress_d(self.vec@[i].coeffs@[4 * j + 1] as int, 10),
                    compress_d(self.vec@[i].coeffs@[4 * j + 2] as int, 10),
                    compress_d(self.vec@[i].coeffs@[4 * j + 3] as int, 10),
                ),
    {
        let mut i: usize = 0;
        while i < 3
            invariant
                i <= 3,
                vec_small(*self),
                forall|ii: int, j: int|
                    0 <= ii < i && 0 <= j < 64 ==> #[trigger] r@.subrange(320 * ii + 5 * j, 320 * ii + 5 * j + 5)
                        == pack10(
                        compress_d(self.vec@[ii].coeffs@[4 * j] as int, 10),
                        compress_d(self.vec@[ii].coeffs@[4 * j + 1] as int, 10),
                        compress_d(self.vec@[ii].coeffs@[4 * j + 2] as int, 10),
                        compress_d(self.vec@[ii].coeffs@[4 * j + 3] as int, 10),
                    ),
            decreases 3 - i,
        {
            let mut j: usize = 0;
            while j < 64
                invariant
                    i < 3,
                    j <= 64,
                    vec_small(*self),
                    forall|ii: int, jj: int|
                        (0 <= ii < i && 0 <= jj < 64) || (ii == i && 0 <= jj < j) ==> #[trigger] r@.subrange(
                            320 * ii + 5 * jj,
                            320 * ii + 5 * jj + 5,
                        ) == pack10(
                            compress_d(self.vec@[ii].coeffs@[4 * jj] as int, 10),
                            compress_d(self.vec@[ii].coeffs@[4 * jj + 1] as int, 10),
                            compress_d(self.vec@[ii].coeffs@[4 * jj + 2] as int, 10),
                            compress_d(self.vec@[ii].coeffs@[4 * jj + 3] as int, 10),
                        ),
                decreases 64 - j,
            {
                proof {
                    assert(poly_small(self.vec@[i as int]));
                }
                let t0 = compress10(self.vec[i].coeffs[4 * j]);
                let t1 = compress10(self.vec[i].coeffs[4 * j + 1]);
                let t2 = compress10(self.vec[i].coeffs[4 * j + 2]);
                let t3 = compress10(self.vec[i].coeffs[4 * j + 3]);
                let rp = 320 * i + 5 * j;
                let ghost r0 = r@;
                r[rp] = (t0 % 256) as u8;
                r[rp + 1] = (t0 / 256 + (t1 % 64) * 4) as u8;
                r[rp + 2] = (t1 / 64 + (t2 % 16) * 16) as u8;
                r[rp + 3] = (t2 / 16 + (t3 % 4) * 64) as u8;
                r[rp + 4] = (t3 / 4) as u8;
                proof {
                    assert forall|ii: int, jj: int|
                        (0 <= ii < i && 0 <= jj < 64) || (ii == i && 0 <= jj < j + 1) implies #[trigger] r@.subrange(
                        320 * ii + 5 * jj,
                        320 * ii + 5 * jj + 5,
                    ) == pack10(
                        compress_d(self.vec@[ii].coeffs@[4 * jj] as int, 10),
                        compress_d(self.vec@[ii].coeffs@[4 * jj + 1] as int, 10),
                        compress_d(self.vec@[ii].coeffs@[4 * jj + 2] as int, 10),
                        compress_d(self.vec@[ii].coeffs@[4 * jj + 3] as int, 10),
                    ) by {
                        if ii == i && jj == j {
                            assert(r@.subrange(320 * ii + 5 * jj, 320 * ii + 5 * jj + 5) =~= pack10(
                                t0 as int,
                                t1 as int,
                                t2 as int,
                                t3 as int,
                            ));
                        } else {
                            assert(320 * ii + 5 * jj + 5 <= rp || rp + 5 <= 320 * ii + 5 * jj);
                            assert(r@.subrange(320 * ii + 5 * jj, 320 * ii + 5 * jj + 5) =~= r0.subrange(
                                320 * ii + 5 * jj,
                                320 * ii + 5 * jj + 5,
                            ));
                        }
                    }
                }
                j = j + 1;
            }
            i = i + 1;
        }
    }

    /// Decompress_10 of every 10-bit value of `a`.
    pub fn decompress(r: &mut Self, a: &[u8; 960])
        ensures
            forall|i: int, j: int, k: int|
                0 <= i < 3 && 0 <= j < 64 && 0 <= k < 4 ==> #[trigger] final(r).vec@[i].coeffs@[4 * j + k]
                    == decompress_d(unpack10(a@.subrange(320 * i + 5 * j, 320 * i + 5 * j + 5))[k], 10),
            vec_small(*final(r)),
    {
        let mut i: usize = 0;
        while i < 3
            invariant
                i <= 3,
                forall|ii: int, j: int, k: int|
                    0 <= ii < i && 0 <= j < 64 && 0 <= k < 4 ==> #[trigger] r.vec@[ii].coeffs@[4 * j + k]
                        == decompress_d(unpack10(a@.subrange(320 * ii + 5 * j, 320 * ii + 5 * j + 5))[k], 10),
                forall|ii: int| 0 <= ii < i ==> poly_small(#[trigger] r.vec@[ii]),
            decreases 3 - i,
        {
            let mut j: usize = 0;
            while j < 64
                invariant
                    i < 3,
                    j <= 64,
                    forall|ii: int, jj: int, k: int|
                        ((0 <= ii < i && 0 <= jj < 64) || (ii == i && 0 <= jj < j)) && 0 <= k < 4
                            ==> #[trigger] r.vec@[ii].coeffs@[4 * jj + k] == decompress_d(
                            unpack10(a@.subrange(320 * ii + 5 * jj, 320 * ii + 5 * jj + 5))[k],
                            10,
                        ),
                    forall|ii: int| 0 <= ii < i ==> poly_small(#[trigger] r.vec@[ii]),
                    forall|q: int| 0 <= q < 4 * j ==> 0 <= #[trigger] r.vec@[i as int].coeffs@[q] < 3329,
                decreases 64 - j,
            {
                let ap = 320 * i + 5 * j;
                let a0 = a[ap] as u16;
                let a1 = a[ap + 1] as u16;
                let a2 = a[ap + 2] as u16;
                let a3 = a[ap + 3] as u16;
                let a4 = a[ap + 4] as u16;
                let t0 = a0 + 256 * (a1 % 4);
                let t1 = a1 / 4 + 64 * (a2 % 16);
                let t2 = a2 / 16 + 16 * (a3 % 64);
                let t3 = a3 / 64 + 4 * a4;
                let ghost s = a@.subrange(ap as int, ap + 5);
                assert(unpack10(s) =~= seq![t0 as int, t1 as int, t2 as int, t3 as int]);
                let ghost v0 = r.vec@;
                r.vec[i].coeffs[4 * j] = decompress10(t0);
                r.vec[i].coeffs[4 * j + 1] = decompress10(t1);
                r.vec[i].coeffs[4 * j + 2] = decompress10(t2);
                r.vec[i].coeffs[4 * j + 3] = decompress10(t3);
                proof {
                    assert forall|ii: int, jj: int, k: int|
                        ((0 <= ii < i && 0 <= jj < 64) || (ii == i && 0 <= jj < j + 1)) && 0 <= k < 4 implies #[trigger] r.vec@[ii].coeffs@[4 * jj + k]
                        == decompress_d(unpack10(a@.subrange(320 * ii + 5 * jj, 320 * ii + 5 * jj + 5))[k], 10) by {
                        if ii == i && jj == j {
                        } else if ii < i {
                            assert(r.vec@[ii] == v0[ii]);
                        } else {
                            assert(4 * jj + k < 4 * j);
                            assert(r.vec@[ii].coeffs@[4 * jj + k] == v0[ii].coeffs@[4 * jj + k]);
                        }
                    }
                    assert forall|ii: int| 0 <= ii < i implies poly_small(#[trigger] r.vec@[ii]) by {
                        assert(r.vec@[ii] == v0[ii]);
                    }
                    assert forall|q: int| 0 <= q < 4 * (j + 1) implies 0 <= #[trigger] r.vec@[i as int].coeffs@[q] < 3329 by {
                        if q < 4 * j {
                            assert(r.vec@[i as int].coeffs@[q] == v0[i as int].coeffs@[q]);
                        }
                    }
                }
                j = j + 1;
            }
            proof {
                assert forall|q: int| 0 <= q < 256 implies -3328 <= #[trigger] r.vec@[i as int].coeffs@[q] <= 3328 by {}
            }
            i = i + 1;
        }
    }

    /// The 12-bit encodings of the three polynomials, one after another.
    pub fn tobytes(&self, r: &mut [u8; 1152])
        requires
            vec_small(*self),
        ensures
            forall|i: int, m: int|
                0 <= i < 3 && 0 <= m < 128 ==> #[trigger] final(r)@.subrange(384 * i + 3 * m, 384 * i + 3 * m + 3)
                    == pack12(
                    modq(self.vec@[i].coeffs@[2 * m] as int),
                    modq(self.vec@[i].coeffs@[2 * m + 1] as int),
                ),
    {
        let mut i: usize = 0;
        while i < 3
            invariant
                i <= 3,
                vec_small(*self),
                forall|ii: int, m: int|
                    0 <= ii < i && 0 <= m < 128 ==> #[trigger] r@.subrange(384 * ii + 3 * m, 384 * ii + 3 * m + 3)
                        == pack12(
                        modq(self.vec@[ii].coeffs@[2 * m] as int),
                        modq(self.vec@[ii].coeffs@[2 * m + 1] as int),
                    ),
            decreases 3 - i,
        {
            let mut tmp = [0u8; 384];
            proof {
                assert(poly_small(self.vec@[i as int]));
            }
            self.vec[i].tobytes(&mut tmp);
            let ghost r0 = r@;
            let mut k: usize = 0;
            while k < 384
                invariant
                    i < 3,
                    k <= 384,
                    r@.len() == 1152,
                    forall|q: int| 0 <= q < 384 * i ==> #[trigger] r@[q] == r0[q],
                    forall|q: int| 384 * i <= q < 384 * i + k ==> #[trigger] r@[q] == tmp@[q - 384 * i],
                decreases 384 - k,
            {
                r[384 * i + k] = tmp[k];
                k = k + 1;
            }
            proof {
                assert forall|ii: int, m: int|
                    0 <= ii < i + 1 && 0 <= m < 128 implies #[trigger] r@.subrange(384 * ii + 3 * m, 384 * ii + 3 * m + 3)
                    == pack12(
                    modq(self.vec@[ii].coeffs@[2 * m] as int),
                    modq(self.vec@[ii].coeffs@[2 * m + 1] as int),
                ) by {
                    if ii < i {
                        assert(r@.subrange(384 * ii + 3 * m, 384 * ii + 3 * m + 3) =~= r0.subrange(
                            384 * ii + 3 * m,
                            384 * ii + 3 * m + 3,
                        ));
                    } else {
                        assert(r@.subrange(384 * ii + 3 * m, 384 * ii + 3 * m + 3) =~= tmp@.subrange(
                            3 * m,
                            3 * m + 3,
                        ));
                    }
                }
            }
            i = i + 1;
        }
    }

    /// The 12-bit values of the three 384-byte blocks of `a`.
    #[verifier::spinoff_prover]
    pub fn frombytes(r: &mut Self, a: &[u8; 1152])
        ensures
            forall|i: int, m: int|
                0 <= i < 3 && 0 <= m < 128 ==> #[trigger] final(r).vec@[i].coeffs@[2 * m] == unpack12_lo(
                    a@[384 * i + 3 * m],
                    a@[384 * i + 3 * m + 1],
                ) && final(r).vec@[i].coeffs@[2 * m + 1] == unpack12_hi(
                    a@[384 * i + 3 * m + 1],
                    a@[384 * i + 3 * m + 2],
                ),
            vec_bounded(*final(r), 4095),
    {
        let mut i: usize = 0;
        while i < 3
            invariant
                i <= 3,
                forall|ii: int, m: int|
                    0 <= ii < i && 0 <= m < 128 ==> #[trigger] r.vec@[ii].coeffs@[2 * m] == unpack12_lo(
                        a@[384 * ii + 3 * m],
                        a@[384 * ii + 3 * m + 1],
                    ) && r.vec@[ii].coeffs@[2 * m + 1] == unpack12_hi(
                        a@[384 * ii + 3 * m + 1],
                        a@[384 * ii + 3 * m + 2],
                    ),
                forall|ii: int| 0 <= ii < i ==> bounded(#[trigger] r.vec@[ii].coeffs@, 4095),
            decreases 3 - i,
        {
            let mut chunk = [0u8; 384];
            let mut k: usize = 0;
            while k < 384
                invariant
                    i < 3,
                    k <= 384,
                    forall|q: int| 0 <= q < k ==> #[trigger] chunk@[q] == a@[384 * i + q],
                decreases 384 - k,
            {
                chunk[k] = a[384 * i + k];
                k = k + 1;
            }
            let ghost v0 = r.vec@;
            Poly::frombytes(&mut r.vec[i], &chunk);
            proof {
                assert forall|ii: int, m: int|
                    0 <= ii < i + 1 && 0 <= m < 128 implies #[trigger] r.vec@[ii].coeffs@[2 * m] == unpack12_lo(
                    a@[384 * ii + 3 * m],
                    a@[384 * ii + 3 * m + 1],
                ) && r.vec@[ii].coeffs@[2 * m + 1] == unpack12_hi(
                    a@[384 * ii + 3 * m + 1],
                    a@[384 * ii + 3 * m + 2],
                ) by {
                    if ii < i {
                        assert(r.vec@[ii] == v0[ii]);
                    } else {
                        assert(chunk@[3 * m] == a@[384 * ii + 3 * m]);
                        assert(chunk@[3 * m + 1] == a@[384 * ii + 3 * m + 1]);
                        assert(chunk@[3 * m + 2] == a@[384 * ii + 3 * m + 2]);
                        assert(r.vec@[ii].coeffs@[2 * m] == unpack12_lo(chunk@[3 * m], chunk@[3 * m + 1]));
                        assert(r.vec@[ii].coeffs@[2 * m + 1] == unpack12_hi(
                            chunk@[3 * m + 1],
                            chunk@[3 * m + 2],
                        ));
                    }
                }
                assert forall|ii: int| 0 <= ii < i + 1 implies bounded(#[trigger] r.vec@[ii].coeffs@, 4095) by {
                    if ii < i {
                        assert(r.vec@[ii] == v0[ii]);
                    }
                }
            }
            i = i + 1;
        }
    }

    /// `poly_ntt` of every polynomial.
    pub fn ntt(&mut self)
        requires
            vec_small(*old(self)),
        ensures
            forall|i: int, k: int|
                0 <= i < 3 && 0 <= k < 256 ==> #[trigger] final(self).vec@[i].coeffs@[k] == centered(
                    ntt_spec(ints(old(self).vec@[i].coeffs@))[k],
                ),
            forall|i: int| 0 <= i < 3 ==> poly_reduced(#[trigger] final(self).vec@[i]),
    {
        let ghost v0 = self.vec@;
        let mut i: usize = 0;
        while i < 3
            invariant
                i <= 3,
                forall|ii: int| i <= ii < 3 ==> #[trigger] self.vec@[ii] == v0[ii],
                forall|ii: int| 0 <= ii < 3 ==> poly_small(#[trigger] v0[ii]),
                forall|ii: int, k: int|
                    0 <= ii < i && 0 <= k < 256 ==> #[trigger] self.vec@[ii].coeffs@[k] == centered(
                        ntt_spec(ints(v0[ii].coeffs@))[k],
                    ),
                forall|ii: int| 0 <= ii < i ==> poly_reduced(#[trigger] self.vec@[ii]),
            decreases 3 - i,
        {
            let ghost v1 = self.vec@;
            self.vec[i].poly_ntt();
            proof {
                assert forall|ii: int| 0 <= ii < 3 && ii != i implies #[trigger] self.vec@[ii] == v1[ii] by {}
            }
            i = i + 1;
        }
    }

    /// `invntt_tomont` of every polynomial.
    pub fn invntt_tomont(&mut self)
        requires
            vec_small(*old(self)),
        ensures
            forall|i: int| 0 <= i < 3 ==> cong_all(#[trigger] final(self).vec@[i].coeffs@, invntt_spec(ints(old(self).vec@[i].coeffs@))),
            vec_small(*final(self)),
    {
        let ghost v0 = self.vec@;
        let mut i: usize = 0;
        while i < 3
            invariant
                i <= 3,
                forall|ii: int| i <= ii < 3 ==> #[trigger] self.vec@[ii] == v0[ii],
                forall|ii: int| 0 <= ii < 3 ==> poly_small(#[trigger] v0[ii]),
                forall|ii: int| 0 <= ii < i ==> cong_all(#[trigger] self.vec@[ii].coeffs@, invntt_spec(ints(v0[ii].coeffs@))),
                forall|ii: int| 0 <= ii < i ==> poly_small(#[trigger] self.vec@[ii]),
            decreases 3 - i,
        {
            let ghost v1 = self.vec@;
            self.vec[i].invntt_tomont();
            proof {
                assert forall|ii: int| 0 <= ii < 3 && ii != i implies #[trigger] self.vec@[ii] == v1[ii] by {}
            }
            i = i + 1;
        }
    }

    /// The centered representatives of the sum over the vector of pointwise products.
    pub fn basemul_acc_montgomery(r: &mut Poly, a: &PolyVec, b: &PolyVec)
        requires
            vec_bounded(*a, 4095),
            vec_bounded(*b, 4095),
        ensures
            forall|k: int| 0 <= k < 256 ==> #[trigger] final(r).coeffs@[k] == centered(basemul_acc_spec(*a, *b, k)),
            poly_reduced(*final(r)),
    {
        proof {
            assert(bounded(a.vec@[0].coeffs@, 4095) && bounded(b.vec@[0].coeffs@, 4095));
            assert(bounded(a.vec@[1].coeffs@, 4095) && bounded(b.vec@[1].coeffs@, 4095));
            assert(bounded(a.vec@[2].coeffs@, 4095) && bounded(b.vec@[2].coeffs@, 4095));
        }
        r.basemul_montgomery(&a.vec[0], &b.vec[0]);
        proof {
            lemma_basemul_coeffs(*r, a.vec@[0], b.vec@[0]);
        }
        let mut t1 = Poly { coeffs: [0i16; 256] };
        t1.basemul_montgomery(&a.vec[1], &b.vec[1]);
        proof {
            lemma_basemul_coeffs(t1, a.vec@[1], b.vec@[1]);
        }
        let mut t2 = Poly { coeffs: [0i16; 256] };
        t2.basemul_montgomery(&a.vec[2], &b.vec[2]);
        proof {
            lemma_basemul_coeffs(t2, a.vec@[2], b.vec@[2]);
        }
        let ghost r0 = r.coeffs@;
        let mut j: usize = 0;
        while j < 256
            invariant
                j <= 256,
                r0.len() == 256,
                bounded(r0, 6657),
                bounded(t1.coeffs@, 6657),
                bounded(t2.coeffs@, 6657),
                forall|q: int| 0 <= q < j ==> #[trigger] r.coeffs@[q] == r0[q] + t1.coeffs@[q] + t2.coeffs@[q],
                forall|q: int| j <= q < 256 ==> #[trigger] r.coeffs@[q] == r0[q],
            decreases 256 - j,
        {
            proof {
                assert(-6657 <= r0[j as int] <= 6657);
                assert(-6657 <= t1.coeffs@[j as int] <= 6657);
                assert(-6657 <= t2.coeffs@[j as int] <= 6657);
            }
            r.coeffs[j] = r.coeffs[j] + t1.coeffs[j] + t2.coeffs[j];
            j = j + 1;
        }
        let ghost s = r.coeffs@;
        r.reduce();
        proof {
            assert forall|k: int| 0 <= k < 256 implies #[trigger] r.coeffs@[k] == centered(basemul_acc_spec(*a, *b, k)) by {
                let x0 = basemul_spec(a.vec@[0].coeffs@, b.vec@[0].coeffs@, k);
                let x1 = basemul_spec(a.vec@[1].coeffs@, b.vec@[1].coeffs@, k);
                let x2 = basemul_spec(a.vec@[2].coeffs@, b.vec@[2].coeffs@, k);
                assert(cong(r0[k] as int, x0));
                assert(cong(t1.coeffs@[k] as int, x1));
                assert(cong(t2.coeffs@[k] as int, x2));
                crate::mlkem::ntt::lemma_mod_add_zero(r0[k] - x0, t1.coeffs@[k] - x1);
                crate::mlkem::ntt::lemma_mod_add_zero(r0[k] - x0 + (t1.coeffs@[k] - x1), t2.coeffs@[k] - x2);
                assert(cong(s[k] as int, x0 + x1 + x2));
                crate::mlkem::poly::lemma_centered_cong(s[k] as int, x0 + x1 + x2);
            }
        }
    }

    /// Barrett reduction of every coefficient.
    pub fn reduce(&mut self)
        ensures
            forall|i: int, k: int|
                0 <= i < 3 && 0 <= k < 256 ==> #[trigger] final(self).vec@[i].coeffs@[k] == centered(
                    old(self).vec@[i].coeffs@[k] as int,
                ),
            forall|i: int| 0 <= i < 3 ==> poly_reduced(#[trigger] final(self).vec@[i]),
    {
        let ghost v0 = self.vec@;
        let mut i: usize = 0;
        while i < 3
            invariant
                i <= 3,
                forall|ii: int| i <= ii < 3 ==> #[trigger] self.vec@[ii] == v0[ii],
                forall|ii: int, k: int|
                    0 <= ii < i && 0 <= k < 256 ==> #[trigger] self.vec@[ii].coeffs@[k] == centered(
                        v0[ii].coeffs@[k] as int,
                    ),
                forall|ii: int| 0 <= ii < i ==> poly_reduced(#[trigger] self.vec@[ii]),
            decreases 3 - i,
        {
            let ghost v1 = self.vec@;
            self.vec[i].reduce();
            proof {
                assert forall|ii: int| 0 <= ii < 3 && ii != i implies #[trigger] self.vec@[ii] == v1[ii] by {}
            }
            i = i + 1;
        }
    }

    /// Polynomial-wise sum `a + b`.
    pub fn add(&mut self, a: &PolyVec, b: &PolyVec)
        requires
            forall|i: int, k: int|
                0 <= i < 3 && 0 <= k < 256 ==> -32768 <= #[trigger] a.vec@[i].coeffs@[k] + b.vec@[i].coeffs@[k]
                    <= 32767,
        ensures
            forall|i: int, k: int|
                0 <= i < 3 && 0 <= k < 256 ==> #[trigger] final(self).vec@[i].coeffs@[k] == a.vec@[i].coeffs@[k]
                    + b.vec@[i].coeffs@[k],
    {
        let mut i: usize = 0;
        while i < 3
            invariant
                i <= 3,
                forall|ii: int, k: int|
                    0 <= ii < 3 && 0 <= k < 256 ==> -32768 <= #[trigger] a.vec@[ii].coeffs@[k]
                        + b.vec@[ii].coeffs@[k] <= 32767,
                forall|ii: int, k: int|
                    0 <= ii < i && 0 <= k < 256 ==> #[trigger] self.vec@[ii].coeffs@[k] == a.vec@[ii].coeffs@[k]
                        + b.vec@[ii].coeffs@[k],
            decreases 3 - i,
        {
            let ghost v1 = self.vec@;
            proof {
                assert forall|k: int| 0 <= k < 256 implies -32768 <= #[trigger] a.vec@[i as int].coeffs@[k]
                    + b.vec@[i as int].coeffs@[k] <= 32767 by {}
            }
            self.vec[i].add(&a.vec[i], &b.vec[i]);
            proof {
                assert forall|ii: int| 0 <= ii < 3 && ii != i implies #[trigger] self.vec@[ii] == v1[ii] by {}
            }
            i = i + 1;
        }
    }
}


proof fn lemma_pack10_unpack10(w: Seq<u8>)
    requires
        w.len() == 5,
    ensures
        0 <= unpack10(w)[0] < 1024,
        0 <= unpack10(w)[1] < 1024,
        0 <= unpack10(w)[2] < 1024,
        0 <= unpack10(w)[3] < 1024,
        pack10(unpack10(w)[0], unpack10(w)[1], unpack10(w)[2], unpack10(w)[3]) == w,
{
    let (a0, a1, a2, a3, a4) = (w[0] as int, w[1] as int, w[2] as int, w[3] as int, w[4] as int);
    let u = unpack10(w);
    assert(u[0] == a0 + 256 * (a1 % 4));
    assert(u[1] == a1 / 4 + 64 * (a2 % 16));
    assert(u[2] == a2 / 16 + 16 * (a3 % 64));
    assert(u[3] == a3 / 64 + 4 * a4);
    assert(u[0] % 256 == a0 && u[0] / 256 == a1 % 4) by (nonlinear_arith)
        requires
            u[0] == a0 + 256 * (a1 % 4),
            0 <= a0 < 256,
            0 <= a1 % 4 < 4,
    ;
    assert(u[1] % 64 == a1 / 4 && u[1] / 64 == a2 % 16) by (nonlinear_arith)
        requires
            u[1] == a1 / 4 + 64 * (a2 % 16),
            0 <= a1 / 4 < 64,
            0 <= a2 % 16 < 16,
    ;
    assert(u[2] % 16 == a2 / 16 && u[2] / 16 == a3 % 64) by (nonlinear_arith)
        requires
            u[2] == a2 / 16 + 16 * (a3 % 64),
            0 <= a2 / 16 < 16,
            0 <= a3 % 64 < 64,
    ;
    assert(u[3] % 4 == a3 / 64 && u[3] / 4 == a4) by (nonlinear_arith)
        requires
            u[3] == a3 / 64 + 4 * a4,
            0 <= a3 / 64 < 4,
    ;
    let p = pack10(u[0], u[1], u[2], u[3]);
    assert(p[0] as int == a0);
    assert(p[1] as int == a1);
    assert(p[2] as int == a2);
    assert(p[3] as int == a3);
    assert(p[4] as int == a4);
    assert(p =~= w);
}

/// `decompress` followed by `compress` gives back the bytes: for a vector made from bytes `a`
/// as `PolyVec::decompress` makes it, every five-byte group that `PolyVec::compress` makes of
/// it is the same group of `a`.
pub proof fn lemma_vec_decompress_then_compress(a: Seq<u8>, v: PolyVec, out: Seq<u8>)
    requires
        a.len() == 960,
        out.len() == 960,
        forall|i: int, j: int, k: int|
            0 <= i < 3 && 0 <= j < 64 && 0 <= k < 4 ==> #[trigger] v.vec@[i].coeffs@[4 * j + k]
                == decompress_d(unpack10(a.subrange(320 * i + 5 * j, 320 * i + 5 * j + 5))[k], 10),
        forall|i: int, j: int|
            0 <= i < 3 && 0 <= j < 64 ==> #[trigger] out.subrange(320 * i + 5 * j, 320 * i + 5 * j + 5)
                == pack10(
                compress_d(v.vec@[i].coeffs@[4 * j] as int, 10),
                compress_d(v.vec@[i].coeffs@[4 * j + 1] as int, 10),
                compress_d(v.vec@[i].coeffs@[4 * j + 2] as int, 10),
                compress_d(v.vec@[i].coeffs@[4 * j + 3] as int, 10),
            ),
    ensures
        forall|i: int, j: int|
            0 <= i < 3 && 0 <= j < 64 ==> #[trigger] out.subrange(320 * i + 5 * j, 320 * i + 5 * j + 5)
                == a.subrange(320 * i + 5 * j, 320 * i + 5 * j + 5),
{
    vstd::arithmetic::power2::lemma2_to64();
    assert forall|i: int, j: int| 0 <= i < 3 && 0 <= j < 64 implies #[trigger] out.subrange(
        320 * i + 5 * j,
        320 * i + 5 * j + 5,
    ) == a.subrange(320 * i + 5 * j, 320 * i + 5 * j + 5) by {
        let w = a.subrange(320 * i + 5 * j, 320 * i + 5 * j + 5);
        let u = unpack10(w);
        lemma_pack10_unpack10(w);
        assert forall|k: int| 0 <= k < 4 implies compress_d(
            #[trigger] v.vec@[i].coeffs@[4 * j + k] as int,
            10,
        ) == u[k] by {
            crate::mlkem::coeff::lemma_decompress_compress(u[k], 10);
        }
        assert(compress_d(v.vec@[i].coeffs@[4 * j + 0] as int, 10) == u[0]);
        assert(4 * j + 0 == 4 * j);
        assert(compress_d(v.vec@[i].coeffs@[4 * j + 1] as int, 10) == u[1]);
        assert(compress_d(v.vec@[i].coeffs@[4 * j + 2] as int, 10) == u[2]);
        assert(compress_d(v.vec@[i].coeffs@[4 * j + 3] as int, 10) == u[3]);
    }
}

} // verus!
