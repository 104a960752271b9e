use fips203_core::fips202::Shake256Inc;
use fips203_core::mlkem::indcpa::{indcpa_dec, indcpa_enc, indcpa_keypair_derand};
use fips203_core::mlkem::ntt::basemul;
use fips203_core::mlkem::poly::Poly;
use fips203_core::mlkem::polyvec::PolyVec;
use fips203_core::mlkem::reduce::{barrett_reduce, montgomery_reduce};
use fips203_core::mlkem::verify::{cmov, verify};
use fips203_core::{decaps, encaps, keygen, sha3_256, shake256};

#[test]
fn mlkem_deterministic_roundtrip() {
    let seed = [7u8; 32];
    let m = [9u8; 32];
    let (ek, dk) = keygen(&seed).expect("keygen");
    let (ct, ss1) = encaps(&ek, &m).expect("encaps");
    let ss2 = decaps(&ct, &dk).expect("decaps");
    assert_eq!(ss1, ss2);
}

#[test]
fn mlkem_keys_are_deterministic_and_laid_out() {
    let (ek1, dk1) = keygen(&[1u8; 32]).unwrap();
    let (ek2, dk2) = keygen(&[1u8; 32]).unwrap();
    assert_eq!(ek1, ek2);
    assert_eq!(dk1, dk2);
    let (ek3, _) = keygen(&[2u8; 32]).unwrap();
    assert_ne!(ek1, ek3);
    assert_eq!(&dk1[1152..1152 + 1184], &ek1[..]);
    let mut h = [0u8; 32];
    sha3_256(&mut h, &ek1);
    assert_eq!(&dk1[2336..2368], &h);
}

#[test]
fn mlkem_implicit_rejection_on_tampered_ciphertext() {
    let (ek, dk) = keygen(&[3u8; 32]).unwrap();
    let (mut ct, ss) = encaps(&ek, &[4u8; 32]).unwrap();
    ct[0] ^= 1;
    let ss_bad = decaps(&ct, &dk).unwrap();
    assert_ne!(ss, ss_bad);
    let ss_bad2 = decaps(&ct, &dk).unwrap();
    assert_eq!(ss_bad, ss_bad2);
}

#[test]
fn indcpa_message_roundtrip() {
    let mut pk = [0u8; 1184];
    let mut sk = [0u8; 1152];
    indcpa_keypair_derand(&mut pk, &mut sk, &[5u8; 32]);
    let msg = [0x3cu8; 32];
    let mut ct = [0u8; 1088];
    indcpa_enc(&mut ct, &msg, &pk, &[6u8; 32]);
    let mut out = [0u8; 32];
    indcpa_dec(&mut out, &ct, &sk);
    assert_eq!(out, msg);
}

#[test]
fn sha3_and_shake_known_answers() {
    let mut h = [0u8; 32];
    sha3_256(&mut h, b"");
    assert_eq!(
        h,
        [
            0xa7, 0xff, 0xc6, 0xf8, 0xbf, 0x1e, 0xd7, 0x66, 0x51, 0xc1, 0x47, 0x56, 0xa0, 0x61,
            0xd6, 0x62, 0xf5, 0x80, 0xff, 0x4d, 0xe4, 0x3b, 0x49, 0xfa, 0x82, 0xd8, 0x0a, 0x4b,
            0x80, 0xf8, 0x43, 0x4a
        ]
    );
    let mut s = [0u8; 32];
    shake256(&mut s, b"");
    assert_eq!(
        s,
        [
            0x46, 0xb9, 0xdd, 0x2b, 0x0b, 0xa8, 0x8d, 0x13, 0x23, 0x3b, 0x3f, 0xeb, 0x74, 0x3e,
            0xeb, 0x24, 0x3f, 0xcd, 0x52, 0xea, 0x62, 0xb8, 0x1b, 0x82, 0xb5, 0x0c, 0x27, 0x64,
            0x6e, 0xd5, 0x76, 0x2f
        ]
    );
    let mut h2 = [0u8; 32];
    sha3_256(&mut h2, b"abc");
    assert_eq!(h2[0], 0x3a);
    assert_eq!(h2[31], 0x32);
}

#[test]
fn reductions_exact_values() {
    assert_eq!(montgomery_reduce(0), 0);
    assert_eq!(montgomery_reduce(65536), 1);
    assert_eq!(barrett_reduce(3329), 0);
    assert_eq!(barrett_reduce(3330), 1);
    assert_eq!(barrett_reduce(-1), -1);
}

#[test]
fn verify_and_cmov() {
    assert_eq!(verify(&[1, 2, 3], &[1, 2, 3]), 0);
    assert_eq!(verify(&[1, 2, 3], &[1, 2, 4]), 1);
    let mut r = [1u8, 2, 3];
    cmov(&mut r, &[7, 8, 9], 0);
    assert_eq!(r, [1, 2, 3]);
    cmov(&mut r, &[7, 8, 9], 1);
    assert_eq!(r, [7, 8, 9]);
}

#[test]
fn poly_message_roundtrip() {
    let msg = [0xa5u8; 32];
    let mut p = Poly::default();
    Poly::frommsg(&mut p, &msg);
    let mut out = [0u8; 32];
    p.tomsg(&mut out);
    assert_eq!(out, msg);
}

#[test]
fn incremental_shake_matches_one_shot() {
    for (klen, clen) in [(0usize, 0usize), (32, 1088), (135, 1), (136, 0), (100, 172), (3, 500)] {
        let key: Vec<u8> = (0..klen).map(|i| (i * 7 + 1) as u8).collect();
        let ct: Vec<u8> = (0..clen).map(|i| (i * 13 + 5) as u8).collect();
        let mut inc = Shake256Inc::new();
        let mut out = [0u8; 32];
        inc.rkprf(&key, &ct, &mut out);
        let mut joined = key.clone();
        joined.extend_from_slice(&ct);
        let mut expect = [0u8; 32];
        shake256(&mut expect, &joined);
        assert_eq!(out, expect);
    }
}

#[test]
fn decompress_then_compress_gives_bytes_back() {
    let a: Vec<u8> = (0..128).map(|i| (i * 37 + 11) as u8).collect();
    let mut ab = [0u8; 128];
    ab.copy_from_slice(&a);
    let mut p = Poly::default();
    Poly::decompress(&mut p, &ab);
    let mut out = [0u8; 128];
    p.compress(&mut out);
    assert_eq!(out, ab);

    let mut vb = [0u8; 960];
    for (i, b) in vb.iter_mut().enumerate() {
        *b = (i * 91 + 3) as u8;
    }
    let mut v = PolyVec::default();
    PolyVec::decompress(&mut v, &vb);
    let mut vout = [0u8; 960];
    v.compress(&mut vout);
    assert_eq!(vout, vb);
}

#[test]
fn tobytes_then_frombytes_gives_representatives() {
    let mut p = Poly::default();
    for (k, c) in p.coeffs.iter_mut().enumerate() {
        *c = ((k as i32 * 53) % 6657 - 3328) as i16;
    }
    let mut b = [0u8; 384];
    p.tobytes(&mut b);
    let mut r = Poly::default();
    Poly::frombytes(&mut r, &b);
    for k in 0..256 {
        let c = p.coeffs[k];
        assert_eq!(r.coeffs[k], if c < 0 { c + 3329 } else { c });
    }
}

fn mod_q(x: i64) -> i64 {
    x.rem_euclid(3329)
}

#[test]
fn basemul_with_large_twiddle_is_montgomery_product() {
    // 2^-16 modulo q.
    let rinv: i64 = 169;
    assert_eq!(mod_q(65536 * rinv), 1);
    let a = [4095i16, -3000];
    let b = [-4095i16, 2718];
    for zeta in [3328i16, -3328, 2500, -1700, 0] {
        let mut r = [0i16; 2];
        basemul(&mut r, &a, &b, zeta);
        let (a0, a1, b0, b1, z) = (a[0] as i64, a[1] as i64, b[0] as i64, b[1] as i64, zeta as i64);
        let want0 = mod_q((a0 * b0 + mod_q(a1 * b1) * mod_q(z * rinv)) * rinv);
        let want1 = mod_q((a0 * b1 + a1 * b0) * rinv);
        assert_eq!(mod_q(r[0] as i64), want0);
        assert_eq!(mod_q(r[1] as i64), want1);
        assert!(-6658 < r[0] && r[0] < 6658);
        assert!(-6658 < r[1] && r[1] < 6658);
    }
}
