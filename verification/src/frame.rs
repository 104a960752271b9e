//! FIPS203TUNNEL-GCM records: key derivation, in-band rekey, seal and open.
use vstd::prelude::*;

use crate::byteorder::{be32_at, be32_bytes, be64_at, be64_bytes, lemma_be32_bytes, lemma_be32_value, lemma_be64_bytes, lemma_be64_value};
use crate::error::{Error, Result};
use crate::fips202::{sha3_256, sha3_256_spec, shake256, shake256_spec};
use crate::util::{copy_into, ct_eq, zeroize};

verus! {

pub const TAG: usize = 16;

pub const SESSION_ID_SIZE: usize = 16;

pub const MAX_MSG: usize = 4096;

pub const MAX_FRAMES: u64 = 1_000_000;

pub const AAD_SIZE: usize = 4 + 8 + 4 + SESSION_ID_SIZE;

pub const MAX_WIRE: usize = 32 + MAX_MSG;

pub const SESSION_STATE_BYTES: usize = 200;

pub const SESSION_PACKED_BYTES: usize = 216;

pub const REKEY_NONCE_SIZE: usize = 32;

const REKEY_INPUT_SIZE: usize = 32 + 32 + 32 + 16 + 4 + REKEY_NONCE_SIZE + REKEY_NONCE_SIZE;

/// Mutable state of one side of a tunnel: transmit and receive keys, nonce bases and
/// counters, the session id, the key epoch and the role.
#[derive(Clone, Debug)]
pub struct TunnelSession {
    pub txe: [u8; 32],
    pub txm: [u8; 32],
    pub rxe: [u8; 32],
    pub rxm: [u8; 32],
    pub txb: [u8; 12],
    pub rxb: [u8; 12],
    pub txs: u64,
    pub rxs: u64,
    pub session_id: [u8; SESSION_ID_SIZE],
    pub epoch: u32,
    /// `1` = client, `0` = server (wire direction / rekey).
    pub is_client: u32,
    pub rekey_interval: u64,
}

/// `n` zero bytes.
pub open spec fn zeros(n: nat) -> Seq<u8> {
    Seq::new(n, |i: int| 0u8)
}

impl Default for TunnelSession {
    fn default() -> (r: Self)
        ensures
            r.txe@ == zeros(32),
            r.txm@ == zeros(32),
            r.rxe@ == zeros(32),
            r.rxm@ == zeros(32),
            r.txb@ == zeros(12),
            r.rxb@ == zeros(12),
            r.session_id@ == zeros(16),
            r.txs == 0,
            r.rxs == 0,
            r.epoch == 0,
            r.is_client == 0,
            r.rekey_interval == 0,
    {
        let r = TunnelSession {
            txe: [0u8; 32],
            txm: [0u8; 32],
            rxe: [0u8; 32],
            rxm: [0u8; 32],
            txb: [0u8; 12],
            rxb: [0u8; 12],
            txs: 0,
            rxs: 0,
            session_id: [0u8; SESSION_ID_SIZE],
            epoch: 0,
            is_client: 0,
            rekey_interval: 0,
        };
        assert(r.txe@ =~= zeros(32));
        assert(r.txm@ =~= zeros(32));
        assert(r.rxe@ =~= zeros(32));
        assert(r.rxm@ =~= zeros(32));
        assert(r.txb@ =~= zeros(12));
        assert(r.rxb@ =~= zeros(12));
        assert(r.session_id@ =~= zeros(16));
        r
    }
}

/// The 16-byte label that ends the key-derivation input.
pub open spec fn derive_label() -> Seq<u8> {
    seq![
        0x46u8, 0x49, 0x50, 0x53, 0x32, 0x30, 0x33, 0x2d, 0x54, 0x55, 0x4e, 0x4e, 0x45, 0x4c, 0x2d,
        0x56,
    ]
}

/// The 16-byte label of the rekey input.
pub open spec fn rekey_label() -> Seq<u8> {
    seq![
        0x46u8, 0x49, 0x50, 0x53, 0x32, 0x30, 0x33, 0x2d, 0x52, 0x45, 0x4b, 0x45, 0x59, 0x2d, 0x56,
        0x31,
    ]
}

/// The 152 bytes of key material that a session is derived from, in the order
/// client-to-server encryption key, MAC key, server-to-client encryption key, MAC key,
/// client-to-server nonce base, server-to-client nonce base.
pub open spec fn derive_material(ss: Seq<u8>, ns: Seq<u8>, nc: Seq<u8>, sid: Seq<u8>) -> Seq<u8> {
    shake256_spec(ss + ns + nc + sid + derive_label(), 152)
}

/// Key material of a rekey to `epoch`, keyed by the current client-to-server keys and the
/// server-to-client encryption key.
pub open spec fn rekey_material(
    c2s_e: Seq<u8>,
    c2s_m: Seq<u8>,
    s2c_e: Seq<u8>,
    epoch: u32,
    client_nonce: Seq<u8>,
    server_nonce: Seq<u8>,
) -> Seq<u8> {
    shake256_spec(
        c2s_e + c2s_m + s2c_e + rekey_label() + be32_bytes(epoch) + client_nonce + server_nonce,
        152,
    )
}

/// Session `s` with its keys and nonce bases taken from 152 bytes of key material, placed
/// by role: a client transmits with the client-to-server half.
pub open spec fn keys_installed(s: TunnelSession, m: Seq<u8>, client: bool) -> bool {
    if client {
        &&& s.txe@ == m.subrange(0, 32)
        &&& s.txm@ == m.subrange(32, 64)
        &&& s.rxe@ == m.subrange(64, 96)
        &&& s.rxm@ == m.subrange(96, 128)
        &&& s.txb@ == m.subrange(128, 140)
        &&& s.rxb@ == m.subrange(140, 152)
    } else {
        &&& s.rxe@ == m.subrange(0, 32)
        &&& s.rxm@ == m.subrange(32, 64)
        &&& s.txe@ == m.subrange(64, 96)
        &&& s.txm@ == m.subrange(96, 128)
        &&& s.rxb@ == m.subrange(128, 140)
        &&& s.txb@ == m.subrange(140, 152)
    }
}

/// The frame header: plaintext length, sequence number and epoch, all big-endian.
pub open spec fn header_bytes(n: u32, seq: u64, epoch: u32) -> Seq<u8> {
    be32_bytes(n) + be64_bytes(seq) + be32_bytes(epoch)
}

/// The per-frame nonce: the nonce base with the big-endian sequence number XORed into
/// its last eight bytes.
pub open spec fn frame_nonce(base: Seq<u8>, seq: u64) -> Seq<u8> {
    Seq::new(12, |i: int| if 4 <= i { base[i] ^ be64_bytes(seq)[i - 4] } else { base[i] })
}

/// The keystream: SHAKE256 of key and nonce.
pub open spec fn keystream(k: Seq<u8>, no: Seq<u8>, n: nat) -> Seq<u8> {
    shake256_spec(k + no, n)
}

/// Bytewise XOR of `a` with the front of `b`.
pub open spec fn xor_bytes(a: Seq<u8>, b: Seq<u8>) -> Seq<u8> {
    Seq::new(a.len(), |i: int| a[i] ^ b[i])
}

/// The record tag: the first 16 bytes of SHA3-256 of MAC key, associated data and ciphertext.
pub open spec fn frame_tag(mk: Seq<u8>, aad: Seq<u8>, c: Seq<u8>) -> Seq<u8> {
    sha3_256_spec(mk + aad + c).take(16)
}

/// The wire bytes of the frame that `s` seals for plaintext `p`.
pub open spec fn seal_spec(s: TunnelSession, p: Seq<u8>) -> Seq<u8> {
    let hdr = header_bytes(p.len() as u32, s.txs, s.epoch);
    let c = xor_bytes(p, keystream(s.txe@, frame_nonce(s.txb@, s.txs), p.len()));
    hdr + c + frame_tag(s.txm@, hdr + s.session_id@, c)
}

/// What opening `wire` with `s` gives, with room for `out_len` plaintext bytes.
pub open spec fn open_spec(s: TunnelSession, wire: Seq<u8>, out_len: nat) -> core::result::Result<
    Seq<u8>,
    Error,
> {
    if s.rxs >= MAX_FRAMES {
        Err(Error::Crypto)
    } else if wire.len() < 16 + TAG {
        Err(Error::Length)
    } else {
        let n = be32_at(wire, 0);
        let seq = be64_at(wire, 4);
        let epoch = be32_at(wire, 12);
        if n > MAX_MSG || wire.len() != 16 + n + TAG {
            Err(Error::Length)
        } else if seq != s.rxs || epoch != s.epoch {
            Err(Error::Crypto)
        } else if out_len < n {
            Err(Error::BufferTooSmall)
        } else {
            let c = wire.subrange(16, 16 + n);
            if frame_tag(s.rxm@, wire.take(16) + s.session_id@, c) != wire.subrange(
                16 + n,
                16 + n + TAG,
            ) {
                Err(Error::Crypto)
            } else {
                Ok(xor_bytes(c, keystream(s.rxe@, frame_nonce(s.rxb@, seq), n as nat)))
            }
        }
    }
}

fn copy_array<const N: usize>(dst: &mut [u8; N], src: &[u8], from: usize)
    requires
        from + N <= src.len(),
    ensures
        final(dst)@ == src@.subrange(from as int, from + N),
{
    let mut i: usize = 0;
    while i < N
        invariant
            i <= N,
            from + N <= src.len(),
            dst@.len() == N,
            forall|q: int| 0 <= q < i ==> #[trigger] dst@[q] == src@[from + q],
        decreases N - i,
    {
        dst[i] = src[from + i];
        i = i + 1;
    }
    assert(dst@ =~= src@.subrange(from as int, from + N));
}

/// Post-handshake key derivation: installs keys, nonce bases, session id and role, and
/// resets epoch and counters.
pub fn derive_tunnel_session(
    s: &mut TunnelSession,
    ss: &[u8; 32],
    ns: &[u8; 32],
    nc: &[u8; 32],
    sid: &[u8; SESSION_ID_SIZE],
    init_client: bool,
)
    ensures
        keys_installed(*final(s), derive_material(ss@, ns@, nc@, sid@), init_client),
        final(s).session_id@ == sid@,
        final(s).is_client == (if init_client { 1u32 } else { 0u32 }),
        final(s).epoch == 0,
        final(s).txs == 0,
        final(s).rxs == 0,
        final(s).rekey_interval == old(s).rekey_interval,
{
    let mut inp = [0u8; 128];
    copy_into(&mut inp, 0, ss, 0, 32);
    copy_into(&mut inp, 32, ns, 0, 32);
    copy_into(&mut inp, 64, nc, 0, 32);
    copy_into(&mut inp, 96, sid, 0, 16);
    let label: [u8; 16] = [
        0x46, 0x49, 0x50, 0x53, 0x32, 0x30, 0x33, 0x2d, 0x54, 0x55, 0x4e, 0x4e, 0x45, 0x4c, 0x2d,
        0x56,
    ];
    copy_into(&mut inp, 112, &label, 0, 16);
    assert(label@ =~= derive_label());
    assert(inp@ =~= ss@ + ns@ + nc@ + sid@ + derive_label());
    let mut out = [0u8; 152];
    shake256(&mut out, &inp);
    if init_client {
        copy_array(&mut s.txe, &out, 0);
        copy_array(&mut s.txm, &out, 32);
        copy_array(&mut s.rxe, &out, 64);
        copy_array(&mut s.rxm, &out, 96);
        copy_array(&mut s.txb, &out, 128);
        copy_array(&mut s.rxb, &out, 140);
    } else {
        copy_array(&mut s.rxe, &out, 0);
        copy_array(&mut s.rxm, &out, 32);
        copy_array(&mut s.txe, &out, 64);
        copy_array(&mut s.txm, &out, 96);
        copy_array(&mut s.rxb, &out, 128);
        copy_array(&mut s.txb, &out, 140);
    }
    copy_array(&mut s.session_id, sid, 0);
    assert(s.session_id@ =~= sid@);
    s.is_client = if init_client {
        1
    } else {
        0
    };
    s.epoch = 0;
    s.txs = 0;
    s.rxs = 0;
    zeroize(&mut inp);
    zeroize(&mut out);
}

/// The client-to-server encryption key of a session, by role.
pub open spec fn c2s_enc(s: TunnelSession) -> Seq<u8> {
    if s.is_client != 0 { s.txe@ } else { s.rxe@ }
}

/// The client-to-server MAC key of a session, by role.
pub open spec fn c2s_mac(s: TunnelSession) -> Seq<u8> {
    if s.is_client != 0 { s.txm@ } else { s.rxm@ }
}

/// The server-to-client encryption key of a session, by role.
pub open spec fn s2c_enc(s: TunnelSession) -> Seq<u8> {
    if s.is_client != 0 { s.rxe@ } else { s.txe@ }
}

/// In-band epoch rekey: new keys from the current ones, the epoch and both nonces;
/// counters restart at zero.
pub fn rekey_apply(
    s: &mut TunnelSession,
    new_epoch: u32,
    client_nonce: &[u8; REKEY_NONCE_SIZE],
    server_nonce: &[u8; REKEY_NONCE_SIZE],
)
    ensures
        keys_installed(
            *final(s),
            rekey_material(
                c2s_enc(*old(s)),
                c2s_mac(*old(s)),
                s2c_enc(*old(s)),
                new_epoch,
                client_nonce@,
                server_nonce@,
            ),
            old(s).is_client != 0,
        ),
        final(s).epoch == new_epoch,
        final(s).txs == 0,
        final(s).rxs == 0,
        final(s).session_id == old(s).session_id,
        final(s).is_client == old(s).is_client,
        final(s).rekey_interval == old(s).rekey_interval,
{
    let mut inp = [0u8; REKEY_INPUT_SIZE];
    let mut out = [0u8; 152];
    if s.is_client != 0 {
        copy_into(&mut inp, 0, &s.txe, 0, 32);
        copy_into(&mut inp, 32, &s.txm, 0, 32);
        copy_into(&mut inp, 64, &s.rxe, 0, 32);
    } else {
        copy_into(&mut inp, 0, &s.rxe, 0, 32);
        copy_into(&mut inp, 32, &s.rxm, 0, 32);
        copy_into(&mut inp, 64, &s.txe, 0, 32);
    }
    let label: [u8; 16] = [
        0x46, 0x49, 0x50, 0x53, 0x32, 0x30, 0x33, 0x2d, 0x52, 0x45, 0x4b, 0x45, 0x59, 0x2d, 0x56,
        0x31,
    ];
    copy_into(&mut inp, 96, &label, 0, 16);
    let mut eb = [0u8; 4];
    b32(&mut eb, new_epoch);
    copy_into(&mut inp, 112, &eb, 0, 4);
    copy_into(&mut inp, 116, client_nonce, 0, REKEY_NONCE_SIZE);
    copy_into(&mut inp, 148, server_nonce, 0, REKEY_NONCE_SIZE);
    assert(label@ =~= rekey_label());
    assert(inp@ =~= c2s_enc(*old(s)) + c2s_mac(*old(s)) + s2c_enc(*old(s)) + rekey_label()
        + be32_bytes(new_epoch) + client_nonce@ + server_nonce@);
    shake256(&mut out, &inp);
    if s.is_client != 0 {
        copy_array(&mut s.txe, &out, 0);
        copy_array(&mut s.txm, &out, 32);
        copy_array(&mut s.rxe, &out, 64);
        copy_array(&mut s.rxm, &out, 96);
        copy_array(&mut s.txb, &out, 128);
        copy_array(&mut s.rxb, &out, 140);
    } else {
        copy_array(&mut s.rxe, &out, 0);
        copy_array(&mut s.rxm, &out, 32);
        copy_array(&mut s.txe, &out, 64);
        copy_array(&mut s.txm, &out, 96);
        copy_array(&mut s.rxb, &out, 128);
        copy_array(&mut s.txb, &out, 140);
    }
    s.epoch = new_epoch;
    s.txs = 0;
    s.rxs = 0;
    zeroize(&mut inp);
    zeroize(&mut out);
}

fn b64(out: &mut [u8; 8], v: u64)
    ensures
        final(out)@ == be64_bytes(v),
{
    out[0] = (v >> 56u64) as u8;
    out[1] = (v >> 48u64) as u8;
    out[2] = (v >> 40u64) as u8;
    out[3] = (v >> 32u64) as u8;
    out[4] = (v >> 24u64) as u8;
    out[5] = (v >> 16u64) as u8;
    out[6] = (v >> 8u64) as u8;
    out[7] = v as u8;
    assert(out@ =~= be64_bytes(v));
}

fn u64_be(in_: &[u8; 8]) -> (r: u64)
    ensures
        r == be64_at(in_@, 0),
{
    let mut v = 0u64;
    let mut i: usize = 0;
    while i < 8
        invariant
            i <= 8,
            v == partial_be(in_@, i as nat),
        decreases 8 - i,
    {
        proof {
            lemma_partial_be_step(in_@, i as nat);
        }
        v = (v << 8u64) | (in_[i] as u64);
        i = i + 1;
    }
    proof {
        lemma_partial_be_full(in_@);
    }
    v
}

/// The big-endian value of the first `k` bytes of `b`, as a 64-bit word.
pub open spec fn partial_be(b: Seq<u8>, k: nat) -> u64
    decreases k,
{
    if k == 0 {
        0
    } else {
        (partial_be(b, (k - 1) as nat) << 8u64) | (b[k - 1] as u64)
    }
}

proof fn lemma_partial_be_step(b: Seq<u8>, k: nat)
    ensures
        partial_be(b, k + 1) == (partial_be(b, k) << 8u64) | (b[k as int] as u64),
{
}

proof fn lemma_partial_be_full(b: Seq<u8>)
    requires
        b.len() >= 8,
    ensures
        partial_be(b, 8) == be64_at(b, 0),
{
    reveal_with_fuel(partial_be, 9);
    let (b0, b1, b2, b3, b4, b5, b6, b7) = (b[0], b[1], b[2], b[3], b[4], b[5], b[6], b[7]);
    assert(((((((((((((((((0u64 << 8u64) | (b0 as u64)) << 8u64) | (b1 as u64)) << 8u64) | (
    b2 as u64)) << 8u64) | (b3 as u64)) << 8u64) | (b4 as u64)) << 8u64) | (b5 as u64)) << 8u64)
        | (b6 as u64)) << 8u64) | (b7 as u64)) == ((b0 as u64) << 56u64) | ((b1 as u64) << 48u64) | ((
    b2 as u64) << 40u64) | ((b3 as u64) << 32u64) | ((b4 as u64) << 24u64) | ((b5 as u64) << 16u64)
        | ((b6 as u64) << 8u64) | (b7 as u64)) by (bit_vector);
}

fn u32_be(in_: &[u8; 4]) -> (r: u32)
    ensures
        r == be32_at(in_@, 0),
{
    (in_[0] as u32) << 24u32 | (in_[1] as u32) << 16u32 | (in_[2] as u32) << 8u32 | (in_[3] as u32)
}

fn b32(out: &mut [u8; 4], v: u32)
    ensures
        final(out)@ == be32_bytes(v),
{
    out[0] = (v >> 24u32) as u8;
    out[1] = (v >> 16u32) as u8;
    out[2] = (v >> 8u32) as u8;
    out[3] = v as u8;
    assert(out@ =~= be32_bytes(v));
}

fn nonce(n: &mut [u8; 12], b: &[u8; 12], s: u64)
    ensures
        final(n)@ == frame_nonce(b@, s),
{
    copy_array(n, b, 0);
    let mut x = [0u8; 8];
    b64(&mut x, s);
    let mut i: usize = 0;
    while i < 8
        invariant
            i <= 8,
            n@.len() == 12,
            x@ == be64_bytes(s),
            forall|q: int| 0 <= q < 4 + i ==> #[trigger] n@[q] == frame_nonce(b@, s)[q],
            forall|q: int| 4 + i <= q < 12 ==> #[trigger] n@[q] == b@[q],
        decreases 8 - i,
    {
        n[4 + i] = n[4 + i] ^ x[i];
        i = i + 1;
    }
    assert(n@ =~= frame_nonce(b@, s));
}

fn ks(out: &mut [u8], k: &[u8; 32], no: &[u8; 12])
    ensures
        final(out)@ == keystream(k@, no@, old(out)@.len()),
        final(out)@.len() == old(out)@.len(),
{
    let mut seed = [0u8; 44];
    copy_into(&mut seed, 0, k, 0, 32);
    copy_into(&mut seed, 32, no, 0, 12);
    assert(seed@ =~= k@ + no@);
    shake256(out, &seed);
    zeroize(&mut seed);
}

fn compute_tag(t: &mut [u8; 32], mk: &[u8; 32], aad: &[u8; AAD_SIZE], c: &[u8]) -> (r: Result<()>)
    ensures
        c@.len() > MAX_MSG ==> r == Err::<(), Error>(Error::Length) && final(t)@ == old(t)@,
        c@.len() <= MAX_MSG ==> r == Ok::<(), Error>(()) && final(t)@ == sha3_256_spec(mk@ + aad@ + c@),
{
    if c.len() > MAX_MSG {
        return Err(Error::Length);
    }
    let mut tmp = vec![0u8; 32 + AAD_SIZE + c.len()];
    copy_into(tmp.as_mut_slice(), 0, mk, 0, 32);
    copy_into(tmp.as_mut_slice(), 32, aad, 0, AAD_SIZE);
    copy_into(tmp.as_mut_slice(), 32 + AAD_SIZE, c, 0, c.len());
    assert(tmp@ =~= mk@ + aad@ + c@);
    sha3_256(t, tmp.as_slice());
    zeroize(tmp.as_mut_slice());
    Ok(())
}

fn encrypt(
    c: &mut [u8],
    t: &mut [u8; TAG],
    ek: &[u8; 32],
    mk: &[u8; 32],
    no: &[u8; 12],
    aad: &[u8; AAD_SIZE],
    p: &[u8],
) -> (r: Result<()>)
    requires
        old(c)@.len() == p@.len(),
        p@.len() <= MAX_MSG,
    ensures
        r == Ok::<(), Error>(()),
        final(c)@ == xor_bytes(p@, keystream(ek@, no@, p@.len())),
        final(t)@ == frame_tag(mk@, aad@, final(c)@),
{
    let n = p.len();
    if n > 0 {
        ks(c, ek, no);
        let ghost k = c@;
        let mut i: usize = 0;
        while i < n
            invariant
                i <= n,
                n == p.len(),
                c@.len() == n,
                k.len() == n,
                forall|q: int| 0 <= q < i ==> #[trigger] c@[q] == p@[q] ^ k[q],
                forall|q: int| i <= q < n ==> #[trigger] c@[q] == k[q],
            decreases n - i,
        {
            c[i] = c[i] ^ p[i];
            proof {
                let a = k[i as int];
                let b = p@[i as int];
                assert(a ^ b == b ^ a) by (bit_vector);
            }
            i = i + 1;
        }
        assert(c@ =~= xor_bytes(p@, keystream(ek@, no@, p@.len())));
    } else {
        assert(c@ =~= xor_bytes(p@, keystream(ek@, no@, p@.len())));
    }
    let mut full = [0u8; 32];
    let _ = compute_tag(&mut full, mk, aad, c);
    let mut i: usize = 0;
    while i < TAG
        invariant
            i <= TAG,
            full@.len() == 32,
            t@.len() == TAG,
            forall|q: int| 0 <= q < i ==> #[trigger] t@[q] == full@[q],
        decreases TAG - i,
    {
        t[i] = full[i];
        i = i + 1;
    }
    assert(t@ =~= full@.take(16));
    zeroize(&mut full);
    Ok(())
}

fn decrypt(
    p: &mut [u8],
    t: &[u8; TAG],
    ek: &[u8; 32],
    mk: &[u8; 32],
    no: &[u8; 12],
    aad: &[u8; AAD_SIZE],
    c: &[u8],
) -> (r: Result<()>)
    requires
        c@.len() <= old(p)@.len(),
        c@.len() <= MAX_MSG,
    ensures
        frame_tag(mk@, aad@, c@) != t@ ==> r == Err::<(), Error>(Error::Crypto) && final(p)@ == old(p)@,
        frame_tag(mk@, aad@, c@) == t@ ==> r == Ok::<(), Error>(()) && final(p)@ == xor_bytes(
            c@,
            keystream(ek@, no@, c@.len()),
        ) + old(p)@.skip(c@.len() as int),
{
    let n = c.len();
    let mut full = [0u8; 32];
    let _ = compute_tag(&mut full, mk, aad, c);
    let tag_ok = ct_eq(&full[0..TAG], t);
    assert(full@.subrange(0, 16) =~= frame_tag(mk@, aad@, c@));
    if !tag_ok {
        zeroize(&mut full);
        return Err(Error::Crypto);
    }
    zeroize(&mut full);
    if n > 0 {
        let mut k = vec![0u8; n];
        ks(k.as_mut_slice(), ek, no);
        let ghost p0 = p@;
        let mut i: usize = 0;
        while i < n
            invariant
                i <= n,
                n == c.len(),
                n <= p@.len(),
                p@.len() == p0.len(),
                k@ == keystream(ek@, no@, n as nat),
                k@.len() == n,
                forall|q: int| 0 <= q < i ==> #[trigger] p@[q] == c@[q] ^ k@[q],
                forall|q: int| n <= q < p0.len() ==> #[trigger] p@[q] == p0[q],
            decreases n - i,
        {
            p[i] = k[i] ^ c[i];
            proof {
                let a = k@[i as int];
                let b = c@[i as int];
                assert(a ^ b == b ^ a) by (bit_vector);
            }
            i = i + 1;
        }
        assert(p@ =~= xor_bytes(c@, keystream(ek@, no@, c@.len())) + p0.skip(c@.len() as int));
        zeroize(k.as_mut_slice());
    } else {
        assert(p@ =~= xor_bytes(c@, keystream(ek@, no@, c@.len())) + p@.skip(c@.len() as int));
    }
    Ok(())
}

/// Decrypts and verifies one wire frame into the front of `plaintext_out`.
pub fn frame_open(session: &mut TunnelSession, wire: &[u8], plaintext_out: &mut [u8]) -> (r: Result<
    usize,
>)
    ensures
        match open_spec(*old(session), wire@, old(plaintext_out)@.len()) {
            Ok(p) => {
                &&& r == Ok::<usize, Error>(p.len() as usize)
                &&& final(plaintext_out)@ == p + old(plaintext_out)@.skip(p.len() as int)
                &&& *final(session) == (TunnelSession { rxs: (old(session).rxs + 1) as u64, ..*old(session) })
            },
            Err(e) => {
                &&& r == Err::<usize, Error>(e)
                &&& final(plaintext_out)@ == old(plaintext_out)@
                &&& *final(session) == *old(session)
            },
        },
{
    if session.rxs >= MAX_FRAMES {
        return Err(Error::Crypto);
    }
    if wire.len() < 16 + TAG {
        return Err(Error::Length);
    }
    let lb: [u8; 4] = [wire[0], wire[1], wire[2], wire[3]];
    let sb: [u8; 8] = [wire[4], wire[5], wire[6], wire[7], wire[8], wire[9], wire[10], wire[11]];
    let eb: [u8; 4] = [wire[12], wire[13], wire[14], wire[15]];
    let n = u32_be(&lb) as usize;
    let seq = u64_be(&sb);
    let epoch = u32_be(&eb);
    assert(n == be32_at(wire@, 0));
    assert(seq == be64_at(wire@, 4));
    assert(epoch == be32_at(wire@, 12));
    if n > MAX_MSG || wire.len() != 16 + n + TAG {
        return Err(Error::Length);
    }
    if seq != session.rxs || epoch != session.epoch {
        return Err(Error::Crypto);
    }
    let mut aad = [0u8; AAD_SIZE];
    copy_into(&mut aad, 0, &lb, 0, 4);
    copy_into(&mut aad, 4, &sb, 0, 8);
    copy_into(&mut aad, 12, &eb, 0, 4);
    copy_into(&mut aad, 16, &session.session_id, 0, SESSION_ID_SIZE);
    assert(aad@ =~= wire@.take(16) + session.session_id@);
    let mut no = [0u8; 12];
    nonce(&mut no, &session.rxb, seq);
    let c = &wire[16..16 + n];
    let mut tg = [0u8; TAG];
    copy_array(&mut tg, wire, 16 + n);
    if plaintext_out.len() < n {
        return Err(Error::BufferTooSmall);
    }
    let res = decrypt(plaintext_out, &tg, &session.rxe, &session.rxm, &no, &aad, c);
    match res {
        Ok(()) => {},
        Err(e) => {
            return Err(e);
        },
    }
    session.rxs = session.rxs + 1;
    Ok(n)
}

/// Encrypts one plaintext frame into the front of `wire_out`; returns the wire length.
pub fn frame_seal(session: &mut TunnelSession, plaintext: &[u8], wire_out: &mut [u8]) -> (r: Result<
    usize,
>)
    ensures
        (plaintext@.len() > MAX_MSG || old(session).txs >= MAX_FRAMES) ==> {
            &&& r == Err::<usize, Error>(Error::Length)
            &&& final(wire_out)@ == old(wire_out)@
            &&& *final(session) == *old(session)
        },
        (plaintext@.len() <= MAX_MSG && old(session).txs < MAX_FRAMES && old(wire_out)@.len() < 16
            + plaintext@.len() + TAG) ==> {
            &&& r == Err::<usize, Error>(Error::BufferTooSmall)
            &&& final(wire_out)@ == old(wire_out)@
            &&& *final(session) == *old(session)
        },
        (plaintext@.len() <= MAX_MSG && old(session).txs < MAX_FRAMES && old(wire_out)@.len() >= 16
            + plaintext@.len() + TAG) ==> {
            &&& r == Ok::<usize, Error>((16 + plaintext@.len() + TAG) as usize)
            &&& final(wire_out)@ == seal_spec(*old(session), plaintext@) + old(wire_out)@.skip(
                16 + plaintext@.len() + TAG,
            )
            &&& *final(session) == (TunnelSession { txs: (old(session).txs + 1) as u64, ..*old(session) })
        },
{
    let n = plaintext.len();
    if n > MAX_MSG || session.txs >= MAX_FRAMES {
        return Err(Error::Length);
    }
    let wire_len = 16 + n + TAG;
    if wire_out.len() < wire_len {
        return Err(Error::BufferTooSmall);
    }
    let mut lb = [0u8; 4];
    let mut sb = [0u8; 8];
    let mut eb = [0u8; 4];
    b32(&mut lb, n as u32);
    b64(&mut sb, session.txs);
    b32(&mut eb, session.epoch);
    let mut aad = [0u8; AAD_SIZE];
    copy_into(&mut aad, 0, &lb, 0, 4);
    copy_into(&mut aad, 4, &sb, 0, 8);
    copy_into(&mut aad, 12, &eb, 0, 4);
    copy_into(&mut aad, 16, &session.session_id, 0, SESSION_ID_SIZE);
    let ghost hdr = header_bytes(n as u32, session.txs, session.epoch);
    assert(aad@ =~= hdr + session.session_id@);
    let mut no = [0u8; 12];
    nonce(&mut no, &session.txb, session.txs);
    let mut c = vec![0u8; n];
    let mut tg = [0u8; TAG];
    let _ = encrypt(c.as_mut_slice(), &mut tg, &session.txe, &session.txm, &no, &aad, plaintext);
    let ghost w0 = wire_out@;
    copy_into(wire_out, 0, &lb, 0, 4);
    copy_into(wire_out, 4, &sb, 0, 8);
    copy_into(wire_out, 12, &eb, 0, 4);
    copy_into(wire_out, 16, c.as_slice(), 0, n);
    copy_into(wire_out, 16 + n, &tg, 0, TAG);
    assert(wire_out@ =~= seal_spec(*old(session), plaintext@) + w0.skip(16 + n + TAG));
    session.txs = session.txs + 1;
    zeroize(c.as_mut_slice());
    Ok(wire_len)
}

/// `tx` seals what `rx` opens: the sender's transmit keys, nonce base and counter are the
/// receiver's receive keys, nonce base and counter, in the same session and epoch.
pub open spec fn aligned(tx: TunnelSession, rx: TunnelSession) -> bool {
    &&& tx.txe@ == rx.rxe@
    &&& tx.txm@ == rx.rxm@
    &&& tx.txb@ == rx.rxb@
    &&& tx.session_id@ == rx.session_id@
    &&& tx.epoch == rx.epoch
    &&& tx.txs == rx.rxs
}

/// A frame sealed by `tx` opens under an aligned `rx` to the sealed plaintext, given room
/// for it; this holds for every plaintext up to `MAX_MSG` bytes before `MAX_FRAMES` frames.
pub proof fn lemma_seal_open_roundtrip(tx: TunnelSession, rx: TunnelSession, p: Seq<u8>, out_len: nat)
    requires
        aligned(tx, rx),
        p.len() <= MAX_MSG,
        tx.txs < MAX_FRAMES,
        p.len() <= out_len,
    ensures
        open_spec(rx, seal_spec(tx, p), out_len) == Ok::<Seq<u8>, Error>(p),
{
    let n = p.len() as int;
    let hdr = header_bytes(n as u32, tx.txs, tx.epoch);
    let ks = keystream(tx.txe@, frame_nonce(tx.txb@, tx.txs), p.len());
    let c = xor_bytes(p, ks);
    let tag = frame_tag(tx.txm@, hdr + tx.session_id@, c);
    let w = seal_spec(tx, p);
    crate::fips202::lemma_shake256_len(tx.txe@ + frame_nonce(tx.txb@, tx.txs), p.len());
    assert(tag.len() == 16) by {
        crate::fips202::lemma_sha3_256_len(tx.txm@ + (hdr + tx.session_id@) + c);
    }
    assert(w == hdr + c + tag);
    assert(w.len() == 16 + n + 16);
    lemma_be32_value(n as u32);
    lemma_be64_value(tx.txs);
    lemma_be32_value(tx.epoch);
    assert(w.subrange(0, 4) =~= be32_bytes(n as u32));
    assert(be32_at(w, 0) == be32_at(be32_bytes(n as u32), 0));
    assert(be64_at(w, 4) == be64_at(be64_bytes(tx.txs), 0));
    assert(be32_at(w, 12) == be32_at(be32_bytes(tx.epoch), 0));
    assert(w.take(16) =~= hdr);
    assert(w.subrange(16, 16 + n) =~= c);
    assert(w.subrange(16 + n, 16 + n + 16) =~= tag);
    assert(xor_bytes(c, ks) =~= p) by {
        assert forall|i: int| 0 <= i < n implies #[trigger] xor_bytes(c, ks)[i] == p[i] by {
            let a = p[i];
            let b = ks[i];
            assert((a ^ b) ^ b == a) by (bit_vector);
        }
    }
}

/// Sessions derived from the same handshake secrets with opposite roles are aligned in both
/// directions.
pub proof fn lemma_derive_aligns(client: TunnelSession, server: TunnelSession, m: Seq<u8>)
    requires
        m.len() == 152,
        keys_installed(client, m, true),
        keys_installed(server, m, false),
        client.session_id@ == server.session_id@,
        client.epoch == server.epoch,
        client.txs == 0 && client.rxs == 0 && server.txs == 0 && server.rxs == 0,
    ensures
        aligned(client, server),
        aligned(server, client),
{
}

/// Both sides of an aligned pair that apply the same rekey (epoch and nonces) stay aligned
/// in both directions, and the new epoch is the one applied.
pub proof fn lemma_rekey_keeps_aligned(
    client: TunnelSession,
    server: TunnelSession,
    client2: TunnelSession,
    server2: TunnelSession,
    epoch: u32,
    cn: Seq<u8>,
    sn: Seq<u8>,
)
    requires
        client.is_client != 0,
        server.is_client == 0,
        aligned(client, server),
        aligned(server, client),
        keys_installed(
            client2,
            rekey_material(c2s_enc(client), c2s_mac(client), s2c_enc(client), epoch, cn, sn),
            true,
        ),
        keys_installed(
            server2,
            rekey_material(c2s_enc(server), c2s_mac(server), s2c_enc(server), epoch, cn, sn),
            false,
        ),
        client2.session_id == client.session_id,
        server2.session_id == server.session_id,
        client2.epoch == epoch && server2.epoch == epoch,
        client2.txs == 0 && client2.rxs == 0 && server2.txs == 0 && server2.rxs == 0,
    ensures
        aligned(client2, server2),
        aligned(server2, client2),
{
}

/// A frame opens at most once: after `rx` has opened `wire`, the advanced receiver refuses
/// the same bytes (the sequence number no longer matches).
pub proof fn lemma_replay_refused(rx: TunnelSession, wire: Seq<u8>, out_len: nat)
    requires
        open_spec(rx, wire, out_len) is Ok,
    ensures
        open_spec(TunnelSession { rxs: (rx.rxs + 1) as u64, ..rx }, wire, out_len) is Err,
{
}

/// The wire bytes of a sealed frame, for a plaintext `p` of `n <= MAX_MSG` bytes: a 16-byte
/// header announcing `n`, the sender's sequence number and epoch (big-endian, at 0, 4 and 12),
/// then `p` XORed with SHAKE256(encryption key || frame nonce), then a 16-byte tag that is the
/// first 16 bytes of SHA3-256(MAC key || header || session id || ciphertext).
pub proof fn lemma_sealed_frame_layout(s: TunnelSession, p: Seq<u8>)
    requires
        p.len() <= MAX_MSG,
    ensures
        ({
            let w = seal_spec(s, p);
            let n = p.len() as int;
            &&& w.len() == 16 + n + 16
            &&& be32_at(w, 0) == n
            &&& be64_at(w, 4) == s.txs
            &&& be32_at(w, 12) == s.epoch
            &&& w.subrange(16, 16 + n) == xor_bytes(
                p,
                shake256_spec(s.txe@ + frame_nonce(s.txb@, s.txs), p.len()),
            )
            &&& w.subrange(16 + n, 32 + n) == sha3_256_spec(
                s.txm@ + w.subrange(0, 16) + s.session_id@ + w.subrange(16, 16 + n),
            ).subrange(0, 16)
        }),
{
    let n = p.len() as int;
    let hdr = header_bytes(n as u32, s.txs, s.epoch);
    let ks = keystream(s.txe@, frame_nonce(s.txb@, s.txs), p.len());
    let c = xor_bytes(p, ks);
    let full = sha3_256_spec(s.txm@ + (hdr + s.session_id@) + c);
    let tag = frame_tag(s.txm@, hdr + s.session_id@, c);
    let w = seal_spec(s, p);
    crate::fips202::lemma_sha3_256_len(s.txm@ + (hdr + s.session_id@) + c);
    assert(tag.len() == 16);
    assert(w == hdr + c + tag);
    lemma_be32_value(n as u32);
    lemma_be64_value(s.txs);
    lemma_be32_value(s.epoch);
    assert(w.subrange(0, 4) =~= be32_bytes(n as u32));
    assert(be32_at(w, 0) == be32_at(be32_bytes(n as u32), 0));
    assert(be64_at(w, 4) == be64_at(be64_bytes(s.txs), 0));
    assert(be32_at(w, 12) == be32_at(be32_bytes(s.epoch), 0));
    assert(w.subrange(0, 16) =~= hdr);
    assert(w.subrange(16, 16 + n) =~= c);
    assert(w.subrange(16 + n, 32 + n) =~= tag);
    assert(s.txm@ + (hdr + s.session_id@) + c =~= s.txm@ + hdr + s.session_id@ + c);
    assert(tag =~= full.subrange(0, 16));
}

/// Opening a frame whose header announces an acceptable length `n` (with the whole frame
/// present), the receiver's sequence number and its epoch, into room for `n` bytes, succeeds
/// exactly when the last 16 bytes equal the first 16 bytes of
/// SHA3-256(MAC key || header || session id || ciphertext), and then gives the ciphertext
/// XORed with SHAKE256(encryption key || frame nonce).
pub proof fn lemma_open_checks_tag(s: TunnelSession, wire: Seq<u8>, out_len: nat)
    requires
        s.rxs < MAX_FRAMES,
        wire.len() >= 32,
        be32_at(wire, 0) <= MAX_MSG,
        wire.len() == 32 + be32_at(wire, 0),
        be64_at(wire, 4) == s.rxs,
        be32_at(wire, 12) == s.epoch,
        out_len >= be32_at(wire, 0),
    ensures
        ({
            let n = be32_at(wire, 0) as int;
            let c = wire.subrange(16, 16 + n);
            let expected = sha3_256_spec(s.rxm@ + wire.subrange(0, 16) + s.session_id@ + c).subrange(0, 16);
            &&& (open_spec(s, wire, out_len) is Ok) <==> wire.subrange(16 + n, 32 + n) == expected
            &&& (open_spec(s, wire, out_len) is Ok) ==> open_spec(s, wire, out_len) == Ok::<Seq<u8>, Error>(
                xor_bytes(c, shake256_spec(s.rxe@ + frame_nonce(s.rxb@, s.rxs), n as nat)),
            )
            &&& (open_spec(s, wire, out_len) is Err) ==> open_spec(s, wire, out_len) == Err::<Seq<u8>, Error>(Error::Crypto)
        }),
{
    let n = be32_at(wire, 0) as int;
    let c = wire.subrange(16, 16 + n);
    crate::fips202::lemma_sha3_256_len(s.rxm@ + (wire.take(16) + s.session_id@) + c);
    assert(s.rxm@ + (wire.take(16) + s.session_id@) + c =~= s.rxm@ + wire.subrange(0, 16) + s.session_id@ + c);
    assert(frame_tag(s.rxm@, wire.take(16) + s.session_id@, c) =~= sha3_256_spec(
        s.rxm@ + wire.subrange(0, 16) + s.session_id@ + c,
    ).subrange(0, 16));
}

/// The input of a rekey is 180 bytes: the current client-to-server encryption and MAC keys,
/// the server-to-client encryption key, the label "FIPS203-REKEY-V1", the new epoch
/// big-endian at 112..116, the client nonce at 116..148 and the server nonce at 148..180; the
/// key material is its SHAKE256 output of 152 bytes.
pub proof fn lemma_rekey_input_layout(
    c2s_e: Seq<u8>,
    c2s_m: Seq<u8>,
    s2c_e: Seq<u8>,
    epoch: u32,
    client_nonce: Seq<u8>,
    server_nonce: Seq<u8>,
    x: Seq<u8>,
)
    requires
        c2s_e.len() == 32,
        c2s_m.len() == 32,
        s2c_e.len() == 32,
        client_nonce.len() == 32,
        server_nonce.len() == 32,
        x.len() == 180,
        x.subrange(0, 32) == c2s_e,
        x.subrange(32, 64) == c2s_m,
        x.subrange(64, 96) == s2c_e,
        x.subrange(96, 112) == seq![
            0x46u8, 0x49, 0x50, 0x53, 0x32, 0x30, 0x33, 0x2d, 0x52, 0x45, 0x4b, 0x45, 0x59, 0x2d,
            0x56, 0x31,
        ],
        be32_at(x, 112) == epoch,
        x.subrange(116, 148) == client_nonce,
        x.subrange(148, 180) == server_nonce,
    ensures
        rekey_material(c2s_e, c2s_m, s2c_e, epoch, client_nonce, server_nonce) == shake256_spec(x, 152),
{
    lemma_be32_bytes(x, 112);
    let y = c2s_e + c2s_m + s2c_e + rekey_label() + be32_bytes(epoch) + client_nonce + server_nonce;
    assert(rekey_label() =~= x.subrange(96, 112));
    assert(be32_bytes(epoch) == x.subrange(112, 116));
    assert(y =~= x);
}

/// The input of the post-handshake key derivation is 128 bytes: the shared secret, the server
/// nonce at 32..64, the client nonce at 64..96, the session id at 96..112 and the label
/// "FIPS203-TUNNEL-V" at 112..128; the key material is its SHAKE256 output of 152 bytes.
pub proof fn lemma_derive_input_layout(ss: Seq<u8>, ns: Seq<u8>, nc: Seq<u8>, sid: Seq<u8>, x: Seq<u8>)
    requires
        ss.len() == 32,
        ns.len() == 32,
        nc.len() == 32,
        sid.len() == 16,
        x.len() == 128,
        x.subrange(0, 32) == ss,
        x.subrange(32, 64) == ns,
        x.subrange(64, 96) == nc,
        x.subrange(96, 112) == sid,
        x.subrange(112, 128) == seq![
            0x46u8, 0x49, 0x50, 0x53, 0x32, 0x30, 0x33, 0x2d, 0x54, 0x55, 0x4e, 0x4e, 0x45, 0x4c,
            0x2d, 0x56,
        ],
    ensures
        derive_material(ss, ns, nc, sid) == shake256_spec(x, 152),
{
    let y = ss + ns + nc + sid + derive_label();
    assert(derive_label() =~= x.subrange(112, 128));
    assert(y =~= x);
}

/// The nonce of frame `seq` keeps the first 4 bytes of the 12-byte nonce base, and its last
/// 8 bytes differ from the base's by an XOR that, read big-endian, is `seq`.
pub proof fn lemma_frame_nonce_layout(base: Seq<u8>, seq: u64)
    requires
        base.len() == 12,
    ensures
        ({
            let no = frame_nonce(base, seq);
            &&& no.len() == 12
            &&& no.subrange(0, 4) == base.subrange(0, 4)
            &&& be64_at(Seq::new(8, |k: int| no[4 + k] ^ base[4 + k]), 0) == seq
        }),
{
    let no = frame_nonce(base, seq);
    let e = be64_bytes(seq);
    let delta = Seq::new(8, |k: int| no[4 + k] ^ base[4 + k]);
    assert forall|k: int| 0 <= k < 8 implies #[trigger] delta[k] == e[k] by {
        let a = base[4 + k];
        let b = e[k];
        assert(no[4 + k] == a ^ b);
        assert((a ^ b) ^ a == b) by (bit_vector);
    }
    assert(delta =~= e);
    lemma_be64_value(seq);
    assert(no.subrange(0, 4) =~= base.subrange(0, 4));
}

/// Where the keys of a session come from in its 152 bytes of key material, whatever the
/// role: the client-to-server encryption and MAC keys are bytes 0..64 and its nonce base
/// bytes 128..140; the server-to-client encryption key is bytes 64..96 and its nonce base
/// bytes 140..152. A client transmits client-to-server, a server receives it.
pub proof fn lemma_installed_keys_layout(s: TunnelSession, m: Seq<u8>, client: bool)
    requires
        keys_installed(s, m, client),
        (s.is_client != 0) == client,
    ensures
        c2s_enc(s) == m.subrange(0, 32),
        c2s_mac(s) == m.subrange(32, 64),
        s2c_enc(s) == m.subrange(64, 96),
        client ==> s.txe@ == m.subrange(0, 32) && s.txb@ == m.subrange(128, 140) && s.rxb@
            == m.subrange(140, 152) && s.rxm@ == m.subrange(96, 128),
        !client ==> s.rxe@ == m.subrange(0, 32) && s.rxb@ == m.subrange(128, 140) && s.txb@
            == m.subrange(140, 152) && s.txm@ == m.subrange(96, 128),
{
}

} // verus!
