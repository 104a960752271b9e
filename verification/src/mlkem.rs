//! ML-KEM-768 (FIPS 203): key generation, encapsulation and decapsulation from seeds.
pub mod params;
pub mod reduce;
pub mod verify;
pub mod coeff;
pub mod ntt;
pub mod symmetric;
pub mod poly;
pub mod cbd;
pub mod polyvec;
pub mod indcpa;
pub mod kem;

use vstd::prelude::*;

use crate::error::Result;
use crate::fips202::{sha3_256_spec, shake256, shake256_spec};
use crate::mlkem::indcpa::{indcpa_ct_spec, indcpa_msg_spec};
use crate::mlkem::kem::{
    crypto_kem_dec, crypto_kem_enc_derand, crypto_kem_keypair_derand, kem_ct_spec, kem_dec_spec,
    kem_dk_spec, kem_ek_spec, kem_kr, kem_ss_spec,
};

verus! {

/// Size of an encapsulation key.
pub const MLKEM768_EK_SIZE: usize = 1184;

/// Size of a decapsulation key.
pub const MLKEM768_DK_SIZE: usize = 2400;

/// Size of a ciphertext.
pub const MLKEM768_CT_SIZE: usize = 1088;

/// Size of a shared secret.
pub const MLKEM768_SS_SIZE: usize = 32;

/// Size of a key-generation seed and of an encapsulation message.
pub const MLKEM_SEED_SIZE: usize = 32;

/// An encapsulation key.
pub type EncapsKey = [u8; MLKEM768_EK_SIZE];

/// A decapsulation key.
pub type DecapsKey = [u8; MLKEM768_DK_SIZE];

/// A ciphertext.
pub type Ciphertext = [u8; MLKEM768_CT_SIZE];

/// A shared secret.
pub type SharedSecret = [u8; MLKEM768_SS_SIZE];

/// The 64 key-generation coins `d || z` derived from a 32-byte seed: SHAKE256(seed), 64 bytes.
pub open spec fn keypair_coins(seed: Seq<u8>) -> Seq<u8> {
    shake256_spec(seed, 64)
}

fn derive_keypair_coins(seed: &[u8; MLKEM_SEED_SIZE]) -> (r: [u8; 64])
    ensures
        r@ == keypair_coins(seed@),
{
    let mut out = [0u8; 64];
    shake256(&mut out, seed);
    out
}

/// Deterministic key generation from a 32-byte seed.
pub fn keygen(seed: &[u8; MLKEM_SEED_SIZE]) -> (r: Result<(EncapsKey, DecapsKey)>)
    ensures
        r matches Ok((ek, dk)) && ek@ == kem_ek_spec(keypair_coins(seed@)) && dk@ == kem_dk_spec(
            keypair_coins(seed@),
        ),
{
    let coins = derive_keypair_coins(seed);
    let mut ek = [0u8; MLKEM768_EK_SIZE];
    let mut dk = [0u8; MLKEM768_DK_SIZE];
    crypto_kem_keypair_derand(&mut ek, &mut dk, &coins);
    Ok((ek, dk))
}

/// Deterministic encapsulation of the 32-byte message `m` under `ek`.
pub fn encaps(ek: &EncapsKey, m: &[u8; MLKEM_SEED_SIZE]) -> (r: Result<(Ciphertext, SharedSecret)>)
    ensures
        r matches Ok((ct, ss)) && ct@ == kem_ct_spec(ek@, m@) && ss@ == kem_ss_spec(ek@, m@),
{
    let mut ct = [0u8; MLKEM768_CT_SIZE];
    let mut ss = [0u8; MLKEM768_SS_SIZE];
    crypto_kem_enc_derand(&mut ct, &mut ss, ek, m);
    Ok((ct, ss))
}

/// Decapsulation of `ct` under `dk` (implicit rejection: a ciphertext that does not re-encrypt
/// to itself gives the rejection key).
pub fn decaps(ct: &Ciphertext, dk: &DecapsKey) -> (r: Result<SharedSecret>)
    ensures
        r matches Ok(ss) && ss@ == kem_dec_spec(ct@, dk@),
{
    let mut ss = [0u8; MLKEM768_SS_SIZE];
    crypto_kem_dec(&mut ss, ct, dk);
    Ok(ss)
}


/// A decapsulation key holds the encapsulation key it was generated with, and its hash.
pub proof fn lemma_dk_layout(coins: Seq<u8>)
    requires
        coins.len() == 64,
    ensures
        kem_dk_spec(coins).len() == 2400,
        kem_dk_spec(coins).subrange(1152, 2336) == kem_ek_spec(coins),
        kem_dk_spec(coins).subrange(2336, 2368) == sha3_256_spec(kem_ek_spec(coins)),
        kem_dk_spec(coins).subrange(2368, 2400) == coins.skip(32),
{
    let ek = kem_ek_spec(coins);
    crate::mlkem::indcpa::lemma_key_lens(coins.take(32));
    crate::fips202::lemma_sha3_256_len(ek);
    let dk = kem_dk_spec(coins);
    assert(dk.subrange(1152, 2336) =~= ek);
    assert(dk.subrange(2336, 2368) =~= sha3_256_spec(ek));
    assert(dk.subrange(2368, 2400) =~= coins.skip(32));
}

/// Decapsulating an honestly encapsulated ciphertext gives the encapsulated shared secret,
/// whenever K-PKE decryption recovers the encapsulated message.
pub proof fn lemma_decaps_of_encaps(coins: Seq<u8>, m: Seq<u8>)
    requires
        coins.len() == 64,
        m.len() == 32,
        indcpa_msg_spec(
            kem_ct_spec(kem_ek_spec(coins), m),
            kem_dk_spec(coins).subrange(0, 1152),
        ) == m,
    ensures
        kem_dec_spec(kem_ct_spec(kem_ek_spec(coins), m), kem_dk_spec(coins)) == kem_ss_spec(
            kem_ek_spec(coins),
            m,
        ),
{
    lemma_dk_layout(coins);
}

/// A ciphertext that does not re-encrypt to itself decapsulates to the rejection key
/// `J(z, ct)` of the decapsulation key.
pub proof fn lemma_implicit_rejection(ct: Seq<u8>, dk: Seq<u8>)
    requires
        ({
            let m = indcpa_msg_spec(ct, dk.subrange(0, 1152));
            indcpa_ct_spec(dk.subrange(1152, 2336), m, kem_kr(m, dk.subrange(2336, 2368)).skip(32)) != ct
        }),
    ensures
        kem_dec_spec(ct, dk) == shake256_spec(dk.subrange(2368, 2400) + ct, 32),
{
}

/// Decapsulating an honestly encapsulated ciphertext gives the encapsulated shared secret
/// whenever Compress_1 recovers each message bit from the decryption polynomial `v - s^T u`
/// (the case other than ML-KEM's rare decryption failure).
pub proof fn lemma_decaps_recovers_secret(coins: Seq<u8>, m: Seq<u8>)
    requires
        coins.len() == 64,
        m.len() == 32,
        crate::mlkem::poly::carries_msg(
            crate::mlkem::indcpa::dec_w(
                kem_ct_spec(kem_ek_spec(coins), m),
                kem_dk_spec(coins).subrange(0, 1152),
            ),
            m,
        ),
    ensures
        kem_dec_spec(kem_ct_spec(kem_ek_spec(coins), m), kem_dk_spec(coins)) == kem_ss_spec(
            kem_ek_spec(coins),
            m,
        ),
{
    let ct = kem_ct_spec(kem_ek_spec(coins), m);
    let sk = kem_dk_spec(coins).subrange(0, 1152);
    let w = crate::mlkem::indcpa::dec_w(ct, sk);
    crate::mlkem::poly::lemma_carries_bytes(m, w);
    assert(indcpa_msg_spec(ct, sk) =~= m);
    lemma_decaps_of_encaps(coins, m);
}

} // verus!
