//! Small buffer helpers shared by the wire formats.
use vstd::prelude::*;

verus! {

/// Copies `len` bytes of `src` (from `from`) into `dst` (at `at`).
pub fn copy_into(dst: &mut [u8], at: usize, src: &[u8], from: usize, len: usize)
    requires
        at + len <= old(dst).len(),
        from + len <= src.len(),
    ensures
        final(dst)@ == old(dst)@.subrange(0, at as int) + src@.subrange(from as int, from + len)
            + old(dst)@.subrange(at + len, old(dst)@.len() as int),
{
    let ghost d0 = dst@;
    let mut i: usize = 0;
    while i < len
        invariant
            i <= len,
            at + len <= dst.len(),
            from + len <= src.len(),
            dst@.len() == d0.len(),
            forall|q: int| 0 <= q < at || at + i <= q < d0.len() ==> #[trigger] dst@[q] == d0[q],
            forall|q: int| at <= q < at + i ==> #[trigger] dst@[q] == src@[from + q - at],
        decreases len - i,
    {
        dst[at + i] = src[from + i];
        i = i + 1;
    }
    assert(dst@ =~= d0.subrange(0, at as int) + src@.subrange(from as int, from + len) + d0.subrange(
        at + len,
        d0.len() as int,
    ));
}

/// Overwrites every byte of `buf` with zero.
pub fn zeroize(buf: &mut [u8])
    ensures
        final(buf)@.len() == old(buf)@.len(),
        forall|i: int| 0 <= i < final(buf)@.len() ==> #[trigger] final(buf)@[i] == 0u8,
{
    let mut i: usize = 0;
    while i < buf.len()
        invariant
            i <= buf.len(),
            buf@.len() == old(buf)@.len(),
            forall|q: int| 0 <= q < i ==> #[trigger] buf@[q] == 0u8,
        decreases buf.len() - i,
    {
        buf[i] = 0;
        i = i + 1;
    }
}

/// Constant-time equality of two byte strings.
pub fn ct_eq(a: &[u8], b: &[u8]) -> (r: bool)
    ensures
        r == (a@ == b@),
{
    if a.len() != b.len() {
        return false;
    }
    let mut d: u8 = 0;
    let mut i: usize = 0;
    assert(a@.subrange(0, 0) =~= b@.subrange(0, 0));
    while i < a.len()
        invariant
            i <= a.len(),
            a.len() == b.len(),
            (d == 0) == (a@.subrange(0, i as int) == b@.subrange(0, i as int)),
        decreases a.len() - i,
    {
        let x = a[i];
        let y = b[i];
        let nd = d | (x ^ y);
        assert((nd == 0) == (d == 0 && x == y)) by (bit_vector)
            requires
                nd == d | (x ^ y),
        ;
        proof {
            if a@.subrange(0, i + 1) == b@.subrange(0, i + 1) {
                assert(a@.subrange(0, i as int) =~= a@.subrange(0, i + 1).subrange(0, i as int));
                assert(b@.subrange(0, i as int) =~= b@.subrange(0, i + 1).subrange(0, i as int));
                assert(a@.subrange(0, i + 1)[i as int] == b@.subrange(0, i + 1)[i as int]);
            }
            if d == 0 && x == y {
                assert(a@.subrange(0, i + 1) =~= b@.subrange(0, i + 1));
            }
        }
        d = nd;
        i = i + 1;
    }
    assert(a@.subrange(0, a.len() as int) =~= a@);
    assert(b@.subrange(0, b.len() as int) =~= b@);
    d == 0
}

} // verus!
