//! Constant-time comparison and conditional moves.
use vstd::prelude::*;

verus! {

/// The first `min(|a|, |b|)` bytes of `a` and `b` agree.
pub open spec fn common_prefix_eq(a: Seq<u8>, b: Seq<u8>) -> bool {
    forall|i: int| 0 <= i < a.len() && i < b.len() ==> a[i] == b[i]
}

proof fn lemma_constant_time_bits(
    acc: u8,
    x: u8,
    y: u8,
    r: u8,
    v: u8,
    b: u8,
    r16: i16,
    v16: i16,
    b16: u16,
    neg: u64,
)
    by (bit_vector)
    ensures
        (acc | (x ^ y)) == 0 <==> (acc == 0 && x == y),
        neg == 0 ==> neg >> 63u64 == 0,
        neg >= 0x8000_0000_0000_0000u64 ==> neg >> 63u64 == 1,
        b == 1 ==> (r ^ ((-(b as i16)) as u8 & (r ^ v))) == v,
        b == 0 ==> (r ^ ((-(b as i16)) as u8 & (r ^ v))) == r,
        b16 == 1 ==> (r16 ^ ((-(b16 as i16)) as i16 & (r16 ^ v16))) == v16,
        b16 == 0 ==> (r16 ^ ((-(b16 as i16)) as i16 & (r16 ^ v16))) == r16,
{
}

/// 0 when the common prefix of `a` and `b` agrees, 1 otherwise, in time independent of the
/// contents.
pub fn verify(a: &[u8], b: &[u8]) -> (r: u8)
    ensures
        r == (if common_prefix_eq(a@, b@) {
            0u8
        } else {
            1u8
        }),
{
    let n: usize = if a.len() < b.len() {
        a.len()
    } else {
        b.len()
    };
    let mut acc: u8 = 0;
    let mut i: usize = 0;
    while i < n
        invariant
            i <= n,
            n <= a.len(),
            n <= b.len(),
            n == a.len() || n == b.len(),
            acc == 0 <==> forall|q: int| 0 <= q < i ==> a@[q] == b@[q],
        decreases n - i,
    {
        proof {
            lemma_constant_time_bits(acc, a[i as int], b[i as int], 0, 0, 0, 0, 0, 0, 0);
        }
        acc = acc | (a[i] ^ b[i]);
        i = i + 1;
    }
    let neg: u64 = 0u64.wrapping_sub(acc as u64);
    proof {
        lemma_constant_time_bits(acc, 0, 0, 0, 0, 0, 0, 0, 0, neg);
    }
    (neg >> 63u64) as u8
}

/// Copies `x` over `r` (on their common length) when `b` is 1, and leaves `r` as it is when
/// `b` is 0, in time independent of `b`.
pub fn cmov(r: &mut [u8], x: &[u8], b: u8)
    requires
        b <= 1,
    ensures
        final(r)@.len() == old(r)@.len(),
        forall|i: int|
            0 <= i < old(r)@.len() ==> #[trigger] final(r)@[i] == if b == 1 && i < x@.len() {
                x@[i]
            } else {
                old(r)@[i]
            },
{
    let mask: u8 = (-(b as i16)) as u8;
    let n: usize = if r.len() < x.len() {
        r.len()
    } else {
        x.len()
    };
    let ghost r0 = r@;
    let mut i: usize = 0;
    while i < n
        invariant
            i <= n,
            n <= r.len(),
            n <= x.len(),
            n == r.len() || n == x.len(),
            b <= 1,
            mask == (-(b as i16)) as u8,
            r@.len() == r0.len(),
            forall|q: int| 0 <= q < i ==> #[trigger] r@[q] == if b == 1 {
                x@[q]
            } else {
                r0[q]
            },
            forall|q: int| i <= q < r0.len() ==> #[trigger] r@[q] == r0[q],
        decreases n - i,
    {
        proof {
            lemma_constant_time_bits(0, 0, 0, r[i as int], x[i as int], b, 0, 0, 0, 0);
        }
        r[i] = r[i] ^ (mask & (r[i] ^ x[i]));
        i = i + 1;
    }
}

/// `v` when `b` is 1, `r` unchanged when `b` is 0, in time independent of `b`.
pub fn cmov_i16(r: &mut i16, v: i16, b: u16)
    requires
        b <= 1,
    ensures
        *final(r) == if b == 1 {
            v
        } else {
            *old(r)
        },
{
    proof {
        lemma_constant_time_bits(0, 0, 0, 0, 0, 0, *r, v, b, 0);
    }
    let mask: i16 = (-(b as i16)) as i16;
    *r = *r ^ (mask & (*r ^ v));
}

} // verus!
