//! Centered binomial noise with eta = 2.
use vstd::prelude::*;

use crate::mlkem::poly::{cbd_coeff, cbd_spec, Poly};

verus! {

fn cbd2(r: &mut Poly, buf: &[u8])
    requires
        buf@.len() >= 128,
    ensures
        final(r).coeffs@ == cbd_spec(buf@),
{
    let mut m: usize = 0;
    while m < 128
        invariant
            m <= 128,
            buf@.len() >= 128,
            forall|k: int| 0 <= k < 2 * m ==> #[trigger] r.coeffs@[k] == cbd_coeff(buf@, k) as i16,
        decreases 128 - m,
    {
        let byte = buf[m];
        let lo: i16 = (byte % 16) as i16;
        let hi: i16 = (byte / 16) as i16;
        let ghost c0 = r.coeffs@;
        r.coeffs[2 * m] = lo % 2 + (lo / 2) % 2 - (lo / 4) % 2 - (lo / 8) % 2;
        r.coeffs[2 * m + 1] = hi % 2 + (hi / 2) % 2 - (hi / 4) % 2 - (hi / 8) % 2;
        proof {
            assert forall|k: int| 0 <= k < 2 * (m + 1) implies #[trigger] r.coeffs@[k] == cbd_coeff(buf@, k) as i16 by {
                if k < 2 * m {
                    assert(r.coeffs@[k] == c0[k]);
                } else if k == 2 * m {
                    assert(k / 2 == m && k % 2 == 0);
                } else {
                    assert(k / 2 == m && k % 2 == 1);
                }
            }
        }
        m = m + 1;
    }
    assert(r.coeffs@ =~= cbd_spec(buf@));
}

/// Noise polynomial with eta1 = 2 from 128 bytes.
pub fn poly_cbd_eta1(r: &mut Poly, buf: &[u8])
    requires
        buf@.len() >= 128,
    ensures
        final(r).coeffs@ == cbd_spec(buf@),
{
    cbd2(r, buf);
}

/// Noise polynomial with eta2 = 2 from 128 bytes.
pub fn poly_cbd_eta2(r: &mut Poly, buf: &[u8])
    requires
        buf@.len() >= 128,
    ensures
        final(r).coeffs@ == cbd_spec(buf@),
{
    cbd2(r, buf);
}

} // verus!
