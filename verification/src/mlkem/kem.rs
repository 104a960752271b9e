//! The ML-KEM-768 key-encapsulation mechanism over K-PKE (Fujisaki-Okamoto transform with
//! implicit rejection).
use vstd::prelude::*;

use crate::fips202::{sha3_256_spec, sha3_512_spec, shake256_spec};
use crate::mlkem::indcpa::{
    indcpa_ct_spec, indcpa_dec, indcpa_enc, indcpa_keypair_derand, indcpa_msg_spec, indcpa_pk_spec,
    indcpa_sk_spec,
};
use crate::mlkem::symmetric::{hash_g, hash_h, rkprf};
use crate::mlkem::verify::{cmov, common_prefix_eq, verify};

verus! {

/// Copies `src[from .. from + n]` into `dst[to .. to + n]`.
fn copy_into(dst: &mut [u8], to: usize, src: &[u8], from: usize, n: usize)
    requires
        to + n <= old(dst)@.len(),
        from + n <= src@.len(),
    ensures
        final(dst)@.len() == old(dst)@.len(),
        final(dst)@.subrange(to as int, to + n) == src@.subrange(from as int, from + n),
        forall|q: int| 0 <= q < old(dst)@.len() && !(to <= q < to + n) ==> #[trigger] final(dst)@[q] == old(dst)@[q],
{
    let ghost d0 = dst@;
    let mut k: usize = 0;
    while k < n
        invariant
            k <= n,
            to + n <= dst.len(),
            from + n <= src.len(),
            dst@.len() == d0.len(),
            forall|q: int| to <= q < to + k ==> #[trigger] dst@[q] == src@[from + (q - to)],
            forall|q: int| 0 <= q < d0.len() && !(to <= q < to + k) ==> #[trigger] dst@[q] == d0[q],
        decreases n - k,
    {
        dst[to + k] = src[from + k];
        k = k + 1;
    }
    assert(dst@.subrange(to as int, to + n) =~= src@.subrange(from as int, from + n));
}

/// The encapsulation key derived from the 64 coins `d || z`.
pub open spec fn kem_ek_spec(coins: Seq<u8>) -> Seq<u8> {
    indcpa_pk_spec(coins.take(32))
}

/// The decapsulation key derived from the 64 coins `d || z`: the K-PKE secret key, the
/// encapsulation key, its hash H and the rejection seed z.
pub open spec fn kem_dk_spec(coins: Seq<u8>) -> Seq<u8> {
    let ek = kem_ek_spec(coins);
    indcpa_sk_spec(coins.take(32)) + ek + sha3_256_spec(ek) + coins.skip(32)
}

/// `G(m || H(ek))`: the shared secret (first half) and the encryption coins (second half).
pub open spec fn kem_kr(m: Seq<u8>, h: Seq<u8>) -> Seq<u8> {
    sha3_512_spec(m + h)
}

/// The ciphertext of encapsulating message `m` under `ek`.
pub open spec fn kem_ct_spec(ek: Seq<u8>, m: Seq<u8>) -> Seq<u8> {
    indcpa_ct_spec(ek, m, kem_kr(m, sha3_256_spec(ek)).skip(32))
}

/// The shared secret of encapsulating message `m` under `ek`.
pub open spec fn kem_ss_spec(ek: Seq<u8>, m: Seq<u8>) -> Seq<u8> {
    kem_kr(m, sha3_256_spec(ek)).take(32)
}

/// The shared secret of decapsulating `ct` under `dk`: the re-derived key when `ct` re-encrypts
/// to itself, otherwise the rejection key `J(z, ct)`.
pub open spec fn kem_dec_spec(ct: Seq<u8>, dk: Seq<u8>) -> Seq<u8> {
    let m = indcpa_msg_spec(ct, dk.subrange(0, 1152));
    let kr = kem_kr(m, dk.subrange(2336, 2368));
    let pk = dk.subrange(1152, 2336);
    if indcpa_ct_spec(pk, m, kr.skip(32)) == ct {
        kr.take(32)
    } else {
        shake256_spec(dk.subrange(2368, 2400) + ct, 32)
    }
}

/// Key generation from 64 coins.
pub fn crypto_kem_keypair_derand(ek: &mut [u8; 1184], dk: &mut [u8; 2400], coins: &[u8; 64])
    ensures
        final(ek)@ == kem_ek_spec(coins@),
        final(dk)@ == kem_dk_spec(coins@),
{
    let mut d = [0u8; 32];
    copy_into(&mut d, 0, coins, 0, 32);
    let mut sk = [0u8; 1152];
    indcpa_keypair_derand(ek, &mut sk, &d);
    let mut h = [0u8; 32];
    hash_h(&mut h, ek);
    copy_into(dk, 0, &sk, 0, 1152);
    copy_into(dk, 1152, ek, 0, 1184);
    copy_into(dk, 2336, &h, 0, 32);
    copy_into(dk, 2368, coins, 32, 32);
    proof {
        assert(d@ =~= coins@.take(32));
        assert(dk@ =~= sk@ + ek@ + h@ + coins@.skip(32)) by {
            assert(sk@.subrange(0, 1152) =~= sk@);
            assert(ek@.subrange(0, 1184) =~= ek@);
            assert(h@.subrange(0, 32) =~= h@);
            assert(coins@.subrange(32, 64) =~= coins@.skip(32));
        }
    }
}

/// Encapsulation under `ek` with the 32-byte message `coins`.
pub fn crypto_kem_enc_derand(ct: &mut [u8; 1088], ss: &mut [u8; 32], ek: &[u8; 1184], coins: &[u8; 32])
    ensures
        final(ct)@ == kem_ct_spec(ek@, coins@),
        final(ss)@ == kem_ss_spec(ek@, coins@),
{
    let mut buf = [0u8; 64];
    let mut kr = [0u8; 64];
    copy_into(&mut buf, 0, coins, 0, 32);
    let mut h = [0u8; 32];
    hash_h(&mut h, ek);
    copy_into(&mut buf, 32, &h, 0, 32);
    proof {
        assert(buf@ =~= coins@ + sha3_256_spec(ek@)) by {
            assert(coins@.subrange(0, 32) =~= coins@);
            assert(h@.subrange(0, 32) =~= h@);
        }
    }
    hash_g(&mut kr, &buf);
    let mut r = [0u8; 32];
    copy_into(&mut r, 0, &kr, 32, 32);
    let mut m = [0u8; 32];
    copy_into(&mut m, 0, &buf, 0, 32);
    proof {
        assert(r@ =~= kem_kr(coins@, sha3_256_spec(ek@)).skip(32));
        assert(buf@.subrange(0, 32) =~= coins@);
        assert(m@ =~= coins@);
    }
    indcpa_enc(ct, &m, ek, &r);
    copy_into(ss, 0, &kr, 0, 32);
    proof {
        assert(ss@ =~= kem_kr(coins@, sha3_256_spec(ek@)).take(32));
    }
}

/// The re-encryption check of decapsulation: the message recovered from `ct`, the derived
/// key `K'` and the re-encrypted ciphertext.
fn reencrypt(ct: &[u8; 1088], dk: &[u8; 2400], k: &mut [u8; 32], cmp: &mut [u8; 1088])
    ensures
        ({
            let m = indcpa_msg_spec(ct@, dk@.subrange(0, 1152));
            let kr = kem_kr(m, dk@.subrange(2336, 2368));
            &&& final(k)@ == kr.take(32)
            &&& final(cmp)@ == indcpa_ct_spec(dk@.subrange(1152, 2336), m, kr.skip(32))
        }),
{
    let mut sk = [0u8; 1152];
    copy_into(&mut sk, 0, dk, 0, 1152);
    let mut pk = [0u8; 1184];
    copy_into(&mut pk, 0, dk, 1152, 1184);
    let mut mh = [0u8; 64];
    let mut m = [0u8; 32];
    indcpa_dec(&mut m, ct, &sk);
    copy_into(&mut mh, 0, &m, 0, 32);
    copy_into(&mut mh, 32, dk, 2336, 32);
    proof {
        assert(sk@ =~= dk@.subrange(0, 1152));
        assert(pk@ =~= dk@.subrange(1152, 2336));
        assert(mh@ =~= m@ + dk@.subrange(2336, 2368)) by {
            assert(m@.subrange(0, 32) =~= m@);
        }
    }
    let mut kr = [0u8; 64];
    hash_g(&mut kr, &mh);
    let mut r = [0u8; 32];
    copy_into(&mut r, 0, &kr, 32, 32);
    proof {
        assert(r@ =~= kr@.skip(32));
    }
    indcpa_enc(cmp, &m, &pk, &r);
    copy_into(k, 0, &kr, 0, 32);
    proof {
        assert(k@ =~= kr@.take(32));
    }
}

/// Decapsulation of `ct` under `dk`, with implicit rejection.
pub fn crypto_kem_dec(ss: &mut [u8; 32], ct: &[u8; 1088], dk: &[u8; 2400])
    ensures
        final(ss)@ == kem_dec_spec(ct@, dk@),
{
    let mut k = [0u8; 32];
    let mut cmp = [0u8; 1088];
    reencrypt(ct, dk, &mut k, &mut cmp);
    let fail = verify(ct, &cmp);
    let mut z = [0u8; 32];
    copy_into(&mut z, 0, dk, 2368, 32);
    proof {
        assert(z@ =~= dk@.subrange(2368, 2400));
    }
    rkprf(ss, &z, ct);
    proof {
        if cmp@ == ct@ {
            assert(common_prefix_eq(ct@, cmp@));
        } else {
            assert(!common_prefix_eq(ct@, cmp@)) by {
                if common_prefix_eq(ct@, cmp@) {
                    assert(ct@ =~= cmp@);
                }
            }
        }
    }
    cmov(ss, &k, 1 - fail);
    proof {
        assert(ss@ =~= kem_dec_spec(ct@, dk@));
    }
}

/// Encapsulation (FIPS 203 ML-KEM.Encaps) hashes with G = SHA3-512 the 64 bytes made of the
/// message followed by `H(ek)` = SHA3-256 of the encapsulation key: the first 32 bytes of the
/// hash are the shared secret, and the last 32 bytes are the coins with which the message is
/// encrypted under `ek`.
pub proof fn lemma_encaps_hashes_message_then_key(ek: Seq<u8>, m: Seq<u8>, g_in: Seq<u8>)
    requires
        m.len() == 32,
        g_in.len() == 64,
        g_in.subrange(0, 32) == m,
        g_in.subrange(32, 64) == sha3_256_spec(ek),
    ensures
        kem_ss_spec(ek, m) == sha3_512_spec(g_in).subrange(0, 32),
        kem_ct_spec(ek, m) == indcpa_ct_spec(ek, m, sha3_512_spec(g_in).subrange(32, 64)),
{
    assert(g_in =~= m + sha3_256_spec(ek));
    crate::fips202::lemma_sha3_512_len(g_in);
    assert(sha3_512_spec(g_in).take(32) =~= sha3_512_spec(g_in).subrange(0, 32));
    assert(sha3_512_spec(g_in).skip(32) =~= sha3_512_spec(g_in).subrange(32, 64));
}

/// Decapsulation (FIPS 203 ML-KEM.Decaps) under a 2400-byte key `sk || ek || H(ek) || z`:
/// the message `m'` that K-PKE decrypts from `ct` is hashed with G = SHA3-512 as `m'` followed
/// by the stored `H(ek)`; when encrypting `m'` under `ek` with the last 32 bytes of that hash
/// gives `ct` back, the shared secret is its first 32 bytes, and otherwise it is the rejection
/// key SHAKE256(z || ct) of 32 bytes.
pub proof fn lemma_decaps_hashes_message_then_key(ct: Seq<u8>, dk: Seq<u8>, g_in: Seq<u8>)
    requires
        dk.len() == 2400,
        g_in.len() == 64,
        g_in.subrange(0, 32) == indcpa_msg_spec(ct, dk.subrange(0, 1152)),
        g_in.subrange(32, 64) == dk.subrange(2336, 2368),
    ensures
        ({
            let kr = sha3_512_spec(g_in);
            let m = indcpa_msg_spec(ct, dk.subrange(0, 1152));
            kem_dec_spec(ct, dk) == if indcpa_ct_spec(dk.subrange(1152, 2336), m, kr.subrange(32, 64))
                == ct {
                kr.subrange(0, 32)
            } else {
                shake256_spec(dk.subrange(2368, 2400) + ct, 32)
            }
        }),
{
    let m = indcpa_msg_spec(ct, dk.subrange(0, 1152));
    assert(g_in =~= m + dk.subrange(2336, 2368));
    crate::fips202::lemma_sha3_512_len(g_in);
    assert(sha3_512_spec(g_in).take(32) =~= sha3_512_spec(g_in).subrange(0, 32));
    assert(sha3_512_spec(g_in).skip(32) =~= sha3_512_spec(g_in).subrange(32, 64));
}

} // verus!
