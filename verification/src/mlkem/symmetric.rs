//! The symmetric primitives of ML-KEM: H, G, the SHAKE128 XOF, the PRF and the
//! implicit-rejection function J.
use vstd::prelude::*;

use crate::fips202::{
    sha3_256, sha3_512, sha3_256_spec, sha3_512_spec, shake128_absorb_spec, shake256,
    shake256_spec, squeeze, f_pow, Shake128Ctx, Shake256Inc, SHAKE128_RATE,
};
use crate::mlkem::params::{KYBER_CIPHERTEXTBYTES, KYBER_SSBYTES, KYBER_SYMBYTES};

verus! {

/// Bytes per SHAKE128 output block.
pub const XOF_BLOCKBYTES: usize = 168;

/// H = SHA3-256.
pub fn hash_h(out: &mut [u8; 32], input: &[u8])
    ensures
        final(out)@ == sha3_256_spec(input@),
{
    sha3_256(out, input);
}

/// G = SHA3-512.
pub fn hash_g(out: &mut [u8; 64], input: &[u8])
    ensures
        final(out)@ == sha3_512_spec(input@),
{
    sha3_512(out, input);
}

/// The XOF input for matrix entry `(x, y)`: `seed || x || y`.
pub open spec fn xof_input(seed: Seq<u8>, x: u8, y: u8) -> Seq<u8> {
    seed + seq![x, y]
}

/// SHAKE128 absorbing `seed || x || y`.
pub fn kyber_shake128_absorb(seed: &[u8; KYBER_SYMBYTES], x: u8, y: u8) -> (r: Shake128Ctx)
    ensures
        r.rate == SHAKE128_RATE,
        r.state_bytes() == shake128_absorb_spec(xof_input(seed@, x, y)),
{
    let mut ext = [0u8; 34];
    let mut i: usize = 0;
    while i < KYBER_SYMBYTES
        invariant
            i <= KYBER_SYMBYTES,
            ext@.len() == 34,
            forall|q: int| 0 <= q < i ==> #[trigger] ext@[q] == seed@[q],
        decreases KYBER_SYMBYTES - i,
    {
        ext[i] = seed[i];
        i = i + 1;
    }
    ext[KYBER_SYMBYTES] = x;
    ext[KYBER_SYMBYTES + 1] = y;
    assert(ext@ =~= xof_input(seed@, x, y));
    Shake128Ctx::absorb(&ext)
}

/// Squeezes `nblocks` XOF blocks into the front of `out`.
pub fn xof_squeezeblocks(out: &mut [u8], nblocks: usize, state: &mut Shake128Ctx)
    requires
        old(state).rate == SHAKE128_RATE,
        nblocks * SHAKE128_RATE <= old(out).len(),
    ensures
        final(state).rate == SHAKE128_RATE,
        final(state).state_bytes() == f_pow(old(state).state_bytes(), nblocks as nat),
        final(out)@.len() == old(out)@.len(),
        final(out)@.subrange(0, nblocks * SHAKE128_RATE) == squeeze(
            old(state).state_bytes(),
            SHAKE128_RATE as int,
            nblocks as nat,
        ),
        forall|j: int|
            nblocks * SHAKE128_RATE <= j < old(out)@.len() ==> #[trigger] final(out)@[j] == old(out)@[j],
{
    state.squeeze_blocks(out, nblocks);
}

/// PRF(key, nonce) = SHAKE256(key || nonce), `out.len()` bytes.
pub fn prf(out: &mut [u8], key: &[u8; KYBER_SYMBYTES], nonce: u8)
    ensures
        final(out)@ == shake256_spec(key@ + seq![nonce], old(out)@.len()),
        final(out)@.len() == old(out)@.len(),
{
    let mut ext = [0u8; 33];
    let mut i: usize = 0;
    while i < KYBER_SYMBYTES
        invariant
            i <= KYBER_SYMBYTES,
            ext@.len() == 33,
            forall|q: int| 0 <= q < i ==> #[trigger] ext@[q] == key@[q],
        decreases KYBER_SYMBYTES - i,
    {
        ext[i] = key[i];
        i = i + 1;
    }
    ext[KYBER_SYMBYTES] = nonce;
    assert(ext@ =~= key@ + seq![nonce]);
    shake256(out, &ext);
}

/// J(key, ct) = SHAKE256(key || ct), 32 bytes.
pub fn rkprf(
    out: &mut [u8; KYBER_SSBYTES],
    key: &[u8; KYBER_SYMBYTES],
    input: &[u8; KYBER_CIPHERTEXTBYTES],
)
    ensures
        final(out)@ == shake256_spec(key@ + input@, 32),
{
    let mut inc = Shake256Inc::new();
    inc.rkprf(key, input, out);
}

} // verus!
