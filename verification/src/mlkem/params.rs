//! ML-KEM-768 parameters.
use vstd::prelude::*;

verus! {

pub const KYBER_K: usize = 3;

pub const KYBER_N: usize = 256;

pub const KYBER_Q: i32 = 3329;

pub const KYBER_SYMBYTES: usize = 32;

pub const KYBER_SSBYTES: usize = 32;

pub const KYBER_POLYBYTES: usize = 384;

pub const KYBER_POLYVECBYTES: usize = 1152;

pub const KYBER_ETA1: usize = 2;

pub const KYBER_ETA2: usize = 2;

pub const KYBER_POLYCOMPRESSEDBYTES: usize = 128;

pub const KYBER_POLYVECCOMPRESSEDBYTES: usize = 960;

pub const KYBER_INDCPA_MSGBYTES: usize = 32;

pub const KYBER_INDCPA_PUBLICKEYBYTES: usize = 1184;

pub const KYBER_INDCPA_SECRETKEYBYTES: usize = 1152;

pub const KYBER_INDCPA_BYTES: usize = 1088;

pub const KYBER_PUBLICKEYBYTES: usize = 1184;

pub const KYBER_SECRETKEYBYTES: usize = 2400;

pub const KYBER_CIPHERTEXTBYTES: usize = 1088;

/// Size of an encapsulation key.
pub const EK_SIZE: usize = 1184;

/// Size of a decapsulation key.
pub const DK_SIZE: usize = 2400;

/// Size of a ciphertext.
pub const CT_SIZE: usize = 1088;

/// Bytes of noise that one centered-binomial polynomial with eta = 2 consumes.
pub const NOISE_BYTES: usize = 128;

} // verus!
