//! The tunnel protocol: PSK + ML-KEM handshake steps, rekey control messages, record-layer
//! helpers and the parsing of the tunnel's settings. Every step here is a computation; the
//! caller performs the reads, writes and random draws between them.
use vstd::prelude::*;

use crate::byteorder::{be32_at, be32_bytes, lemma_be32_bytes, lemma_be32_value};
use crate::error::{Error, Result};
use crate::fips202::{sha3_256, sha3_256_spec};
use crate::frame::{
    aligned, c2s_enc, c2s_mac, derive_material, derive_tunnel_session, frame_open, frame_seal,
    keys_installed, open_spec, rekey_material, s2c_enc, seal_spec, TunnelSession, MAX_FRAMES,
    MAX_MSG, MAX_WIRE, REKEY_NONCE_SIZE, SESSION_ID_SIZE, TAG,
};
use crate::mlkem::kem::{kem_ct_spec, kem_dec_spec, kem_dk_spec, kem_ek_spec, kem_ss_spec};
use crate::mlkem::indcpa::indcpa_msg_spec;
use crate::mlkem::{
    decaps, encaps, keygen, keypair_coins, Ciphertext, DecapsKey, EncapsKey, MLKEM768_CT_SIZE,
    MLKEM768_EK_SIZE, MLKEM_SEED_SIZE,
};
use crate::util::ct_eq;

pub use crate::util::zeroize;

verus! {

/// Size of a peer label.
pub const PEER_ID_SIZE: usize = 32;

/// Frames sent before the client asks for a rekey, when nothing else is configured.
pub const DEFAULT_REKEY_INTERVAL: u64 = 100_000;

/// Seconds the client waits for a rekey acknowledgement, when nothing else is configured.
pub const DEFAULT_REKEY_ACK_TIMEOUT_SECS: u64 = 30;

/// Seconds allowed to read one wire frame when nothing else is configured; 0 means no deadline.
pub const DEFAULT_WIRE_READ_TIMEOUT_SECS: u64 = 0;

/// Size of the handshake transcript: "CS", both labels, both nonces, the session id, the
/// encapsulation key and the ciphertext.
pub const HS_TRANSCRIPT_BYTES: usize = 2418;

const MAC32_INPUT_MAX: usize = 2450;

/// The four magic bytes `RKY1` that open a rekey control message.
pub const CTRL_MAGIC: [u8; 4] = [0x52, 0x4b, 0x59, 0x31];

/// Control type: rekey request.
pub const CTRL_REQ: u8 = 1;

/// Control type: rekey acknowledgement.
pub const CTRL_ACK: u8 = 2;

/// Size of a control message: magic, type, epoch, nonce.
pub const CTRL_LEN: usize = 41;

/// PSK and peer labels for the handshake transcript MACs.
#[derive(Clone, Debug)]
pub struct HandshakeConfig {
    pub psk: [u8; 32],
    pub client_id: [u8; PEER_ID_SIZE],
    pub server_id: [u8; PEER_ID_SIZE],
}

/// A live session plus the in-band rekey state.
#[derive(Clone, Debug)]
pub struct TunnelRuntime {
    pub session: TunnelSession,
    pub rekey_waiting: bool,
    pub rekey_pending_epoch: u32,
    pub rekey_my_nonce: [u8; REKEY_NONCE_SIZE],
    /// Incremented on each completed rekey.
    pub rekey_count: u64,
}

impl TunnelRuntime {
    /// A runtime with a blank session of the given role and rekey interval.
    pub fn new(is_client: bool, rekey_interval: u64) -> (r: Self)
        ensures
            r.session.is_client == (if is_client { 1u32 } else { 0u32 }),
            r.session.rekey_interval == rekey_interval,
            r.session.txe@ == crate::frame::zeros(32),
            r.session.txm@ == crate::frame::zeros(32),
            r.session.rxe@ == crate::frame::zeros(32),
            r.session.rxm@ == crate::frame::zeros(32),
            r.session.txb@ == crate::frame::zeros(12),
            r.session.rxb@ == crate::frame::zeros(12),
            r.session.session_id@ == crate::frame::zeros(16),
            r.session.txs == 0,
            r.session.rxs == 0,
            r.session.epoch == 0,
            !r.rekey_waiting,
            r.rekey_pending_epoch == 0,
            r.rekey_my_nonce@ == crate::frame::zeros(32),
            r.rekey_count == 0,
    {
        let mut session = TunnelSession::default();
        session.is_client = if is_client {
            1
        } else {
            0
        };
        session.rekey_interval = rekey_interval;
        let r = Self {
            session,
            rekey_waiting: false,
            rekey_pending_epoch: 0,
            rekey_my_nonce: [0u8; REKEY_NONCE_SIZE],
            rekey_count: 0,
        };
        assert(r.rekey_my_nonce@ =~= crate::frame::zeros(32));
        r
    }
}

/// Constant-time comparison of two 32-byte MACs.
pub fn ct_eq_32(a: &[u8; 32], b: &[u8; 32]) -> (r: bool)
    ensures
        r == (a@ == b@),
{
    ct_eq(a, b)
}

fn b32(out: &mut [u8], at: usize, v: u32)
    requires
        at + 4 <= old(out)@.len(),
    ensures
        final(out)@ == old(out)@.subrange(0, at as int) + be32_bytes(v) + old(out)@.subrange(
            at + 4,
            old(out)@.len() as int,
        ),
{
    let ghost o = out@;
    out[at] = (v >> 24u32) as u8;
    out[at + 1] = (v >> 16u32) as u8;
    out[at + 2] = (v >> 8u32) as u8;
    out[at + 3] = v as u8;
    assert(out@ =~= o.subrange(0, at as int) + be32_bytes(v) + o.subrange(at + 4, o.len() as int));
}

/// The big-endian value of four bytes.
pub fn u32_be(in_: &[u8; 4]) -> (r: u32)
    ensures
        r == be32_at(in_@, 0),
{
    (in_[0] as u32) << 24u32 | (in_[1] as u32) << 16u32 | (in_[2] as u32) << 8u32 | (in_[3] as u32)
}

/// The handshake transcript: "CS", client label, server label, server nonce, client nonce,
/// session id, encapsulation key and ciphertext.
pub open spec fn transcript_spec(
    cid: Seq<u8>,
    sid_name: Seq<u8>,
    ns: Seq<u8>,
    nc: Seq<u8>,
    session_id: Seq<u8>,
    ek: Seq<u8>,
    ct: Seq<u8>,
) -> Seq<u8> {
    seq![0x43u8, 0x53u8] + cid + sid_name + ns + nc + session_id + ek + ct
}

/// Layout of the handshake transcript: the bytes "CS", the client id at 2..34, the server id
/// at 34..66, the server nonce at 66..98, the client nonce at 98..130, the session id at
/// 130..146, the encapsulation key at 146..1330 and the ciphertext at 1330..2418.
pub proof fn lemma_transcript_layout(
    cid: Seq<u8>,
    sid_name: Seq<u8>,
    ns: Seq<u8>,
    nc: Seq<u8>,
    session_id: Seq<u8>,
    ek: Seq<u8>,
    ct: Seq<u8>,
)
    requires
        cid.len() == 32,
        sid_name.len() == 32,
        ns.len() == 32,
        nc.len() == 32,
        session_id.len() == 16,
        ek.len() == 1184,
        ct.len() == 1088,
    ensures
        ({
            let t = transcript_spec(cid, sid_name, ns, nc, session_id, ek, ct);
            &&& t.len() == 2418
            &&& t[0] == 0x43u8
            &&& t[1] == 0x53u8
            &&& t.subrange(2, 34) == cid
            &&& t.subrange(34, 66) == sid_name
            &&& t.subrange(66, 98) == ns
            &&& t.subrange(98, 130) == nc
            &&& t.subrange(130, 146) == session_id
            &&& t.subrange(146, 1330) == ek
            &&& t.subrange(1330, 2418) == ct
        }),
{
    let t = transcript_spec(cid, sid_name, ns, nc, session_id, ek, ct);
    assert(t.subrange(2, 34) =~= cid);
    assert(t.subrange(34, 66) =~= sid_name);
    assert(t.subrange(66, 98) =~= ns);
    assert(t.subrange(98, 130) =~= nc);
    assert(t.subrange(130, 146) =~= session_id);
    assert(t.subrange(146, 1330) =~= ek);
    assert(t.subrange(1330, 2418) =~= ct);
}

/// Builds the PSK transcript blob.
pub fn handshake_transcript(
    out: &mut [u8; HS_TRANSCRIPT_BYTES],
    cid: &[u8; PEER_ID_SIZE],
    sid_name: &[u8; PEER_ID_SIZE],
    ns: &[u8; 32],
    nc: &[u8; 32],
    session_id: &[u8; SESSION_ID_SIZE],
    ek: &EncapsKey,
    ct: &Ciphertext,
)
    ensures
        final(out)@ == transcript_spec(cid@, sid_name@, ns@, nc@, session_id@, ek@, ct@),
{
    out[0] = 0x43;
    out[1] = 0x53;
    crate::util::copy_into(out, 2, cid, 0, 32);
    crate::util::copy_into(out, 34, sid_name, 0, 32);
    crate::util::copy_into(out, 66, ns, 0, 32);
    crate::util::copy_into(out, 98, nc, 0, 32);
    crate::util::copy_into(out, 130, session_id, 0, 16);
    crate::util::copy_into(out, 146, ek, 0, 1184);
    crate::util::copy_into(out, 1330, ct, 0, 1088);
    proof {
        assert(cid@.subrange(0, 32) =~= cid@);
        assert(sid_name@.subrange(0, 32) =~= sid_name@);
        assert(ns@.subrange(0, 32) =~= ns@);
        assert(nc@.subrange(0, 32) =~= nc@);
        assert(session_id@.subrange(0, 16) =~= session_id@);
        assert(ek@.subrange(0, 1184) =~= ek@);
        assert(ct@.subrange(0, 1088) =~= ct@);
        assert(out@ =~= transcript_spec(cid@, sid_name@, ns@, nc@, session_id@, ek@, ct@));
    }
}

/// The MAC of `data` under `psk`: SHA3-256(psk || data).
pub open spec fn mac_spec(psk: Seq<u8>, data: Seq<u8>) -> Seq<u8> {
    sha3_256_spec(psk + data)
}

/// The handshake MAC is SHA3-256 of the 32-byte PSK followed by the data.
pub proof fn lemma_mac_input_layout(psk: Seq<u8>, data: Seq<u8>, x: Seq<u8>)
    requires
        psk.len() == 32,
        x.len() == 32 + data.len(),
        x.subrange(0, 32) == psk,
        x.subrange(32, x.len() as int) == data,
    ensures
        mac_spec(psk, data) == sha3_256_spec(x),
{
    assert(x =~= psk + data);
}

/// SHA3-256(PSK || data), for data of at most `HS_TRANSCRIPT_BYTES` bytes.
pub fn mac32(out: &mut [u8; 32], psk: &[u8; 32], data: &[u8]) -> (r: Result<()>)
    ensures
        data@.len() > HS_TRANSCRIPT_BYTES ==> r == Err::<(), Error>(Error::Length) && final(out)@
            == old(out)@,
        data@.len() <= HS_TRANSCRIPT_BYTES ==> r == Ok::<(), Error>(()) && final(out)@ == mac_spec(
            psk@,
            data@,
        ),
{
    if data.len() > HS_TRANSCRIPT_BYTES {
        return Err(Error::Length);
    }
    let mut tmp = [0u8; MAC32_INPUT_MAX];
    crate::util::copy_into(&mut tmp, 0, psk, 0, 32);
    crate::util::copy_into(&mut tmp, 32, data, 0, data.len());
    let n = 32 + data.len();
    let mut input: Vec<u8> = Vec::new();
    let mut i: usize = 0;
    while i < n
        invariant
            i <= n,
            n == 32 + data@.len(),
            n <= 2450,
            tmp@.len() == 2450,
            input@ == tmp@.take(i as int),
        decreases n - i,
    {
        input.push(tmp[i]);
        i = i + 1;
        assert(input@ =~= tmp@.take(i as int));
    }
    proof {
        assert(psk@.subrange(0, 32) =~= psk@);
        assert(data@.subrange(0, data@.len() as int) =~= data@);
        assert(tmp@.take(n as int) =~= psk@ + data@);
    }
    sha3_256(out, input.as_slice());
    zeroize(&mut tmp);
    zeroize(input.as_mut_slice());
    Ok(())
}

/// In-band epoch rekey of a session (see `frame::rekey_apply`).
pub fn rekey_apply(
    s: &mut TunnelSession,
    new_epoch: u32,
    client_nonce: &[u8; REKEY_NONCE_SIZE],
    server_nonce: &[u8; REKEY_NONCE_SIZE],
)
    ensures
        keys_installed(
            *final(s),
            rekey_material(
                c2s_enc(*old(s)),
                c2s_mac(*old(s)),
                s2c_enc(*old(s)),
                new_epoch,
                client_nonce@,
                server_nonce@,
            ),
            old(s).is_client != 0,
        ),
        final(s).epoch == new_epoch,
        final(s).txs == 0,
        final(s).rxs == 0,
        final(s).session_id == old(s).session_id,
        final(s).is_client == old(s).is_client,
        final(s).rekey_interval == old(s).rekey_interval,
{
    crate::frame::rekey_apply(s, new_epoch, client_nonce, server_nonce);
}

/// The control message of type `ty` for `epoch` with `nonce`.
pub open spec fn control_spec(ty: u8, epoch: u32, nonce: Seq<u8>) -> Seq<u8> {
    CTRL_MAGIC@ + seq![ty] + be32_bytes(epoch) + nonce
}

/// `p` is a control message (41 bytes opening with `RKY1`).
pub open spec fn is_control_spec(p: Seq<u8>) -> bool {
    p.len() == CTRL_LEN && p.take(4) == CTRL_MAGIC@
}

/// Recognises a control message and extracts its type, epoch and nonce; other payloads leave
/// the outputs as they are.
pub fn is_control(p: &[u8], ty: &mut u8, epoch: &mut u32, nonce: &mut [u8; REKEY_NONCE_SIZE]) -> (r:
    bool)
    ensures
        r == is_control_spec(p@),
        r ==> *final(ty) == p@[4] && *final(epoch) == be32_at(p@, 5) && final(nonce)@ == p@.subrange(
            9,
            41,
        ),
        !r ==> *final(ty) == *old(ty) && *final(epoch) == *old(epoch) && final(nonce)@ == old(nonce)@,
{
    if p.len() != CTRL_LEN || p[0] != 0x52 || p[1] != 0x4b || p[2] != 0x59 || p[3] != 0x31 {
        proof {
            if p@.len() == CTRL_LEN && p@.take(4) == CTRL_MAGIC@ {
                assert(p@.take(4)[0] == p@[0]);
                assert(p@.take(4)[1] == p@[1]);
                assert(p@.take(4)[2] == p@[2]);
                assert(p@.take(4)[3] == p@[3]);
            }
        }
        return false;
    }
    assert(p@.take(4) =~= CTRL_MAGIC@);
    *ty = p[4];
    let eb: [u8; 4] = [p[5], p[6], p[7], p[8]];
    *epoch = u32_be(&eb);
    let mut k: usize = 0;
    while k < 32
        invariant
            k <= 32,
            p@.len() == 41,
            forall|q: int| 0 <= q < k ==> #[trigger] nonce@[q] == p@[9 + q],
        decreases 32 - k,
    {
        nonce[k] = p[9 + k];
        k = k + 1;
    }
    assert(nonce@ =~= p@.subrange(9, 41));
    true
}

/// Builds the control message of type `ty` for `epoch` with `nonce`.
pub fn build_control(out: &mut [u8; CTRL_LEN], ty: u8, epoch: u32, nonce: &[u8; REKEY_NONCE_SIZE])
    ensures
        final(out)@ == control_spec(ty, epoch, nonce@),
{
    out[0] = 0x52;
    out[1] = 0x4b;
    out[2] = 0x59;
    out[3] = 0x31;
    out[4] = ty;
    b32(out, 5, epoch);
    crate::util::copy_into(out, 9, nonce, 0, 32);
    proof {
        assert(nonce@.subrange(0, 32) =~= nonce@);
        assert(out@ =~= control_spec(ty, epoch, nonce@));
    }
}

/// A control message built for `(ty, epoch, nonce)` is recognised with exactly those values.
pub proof fn lemma_control_roundtrip(ty: u8, epoch: u32, nonce: Seq<u8>)
    requires
        nonce.len() == 32,
    ensures
        is_control_spec(control_spec(ty, epoch, nonce)),
        control_spec(ty, epoch, nonce)[4] == ty,
        be32_at(control_spec(ty, epoch, nonce), 5) == epoch,
        control_spec(ty, epoch, nonce).subrange(9, 41) == nonce,
{
    let m = control_spec(ty, epoch, nonce);
    assert(m.take(4) =~= CTRL_MAGIC@);
    lemma_be32_value(epoch);
    assert(m.subrange(5, 9) =~= be32_bytes(epoch));
    assert(be32_at(m, 5) == be32_at(be32_bytes(epoch), 0));
    assert(m.subrange(9, 41) =~= nonce);
}

/// Seals one plaintext frame (see `frame_seal`).
pub fn seal_plain(session: &mut TunnelSession, plain: &[u8], wire: &mut [u8]) -> (r: Result<usize>)
    ensures
        (plain@.len() > MAX_MSG || old(session).txs >= MAX_FRAMES) ==> {
            &&& r == Err::<usize, Error>(Error::Length)
            &&& final(wire)@ == old(wire)@
            &&& *final(session) == *old(session)
        },
        (plain@.len() <= MAX_MSG && old(session).txs < MAX_FRAMES && old(wire)@.len() < 16
            + plain@.len() + TAG) ==> {
            &&& r == Err::<usize, Error>(Error::BufferTooSmall)
            &&& final(wire)@ == old(wire)@
            &&& *final(session) == *old(session)
        },
        (plain@.len() <= MAX_MSG && old(session).txs < MAX_FRAMES && old(wire)@.len() >= 16
            + plain@.len() + TAG) ==> {
            &&& r == Ok::<usize, Error>((16 + plain@.len() + TAG) as usize)
            &&& final(wire)@ == seal_spec(*old(session), plain@) + old(wire)@.skip(
                16 + plain@.len() + TAG,
            )
            &&& *final(session) == (TunnelSession { txs: (old(session).txs + 1) as u64, ..*old(session) })
        },
{
    frame_seal(session, plain, wire)
}

/// Opens one wire frame (see `frame_open`).
pub fn open_plain(session: &mut TunnelSession, wire: &[u8], plain: &mut [u8]) -> (r: Result<usize>)
    ensures
        match open_spec(*old(session), wire@, old(plain)@.len()) {
            Ok(p) => {
                &&& r == Ok::<usize, Error>(p.len() as usize)
                &&& final(plain)@ == p + old(plain)@.skip(p.len() as int)
                &&& *final(session) == (TunnelSession { rxs: (old(session).rxs + 1) as u64, ..*old(session) })
            },
            Err(e) => {
                &&& r == Err::<usize, Error>(e)
                &&& final(plain)@ == old(plain)@
                &&& *final(session) == *old(session)
            },
        },
{
    frame_open(session, wire, plain)
}

/// A zeroed buffer of the largest wire frame.
pub fn wire_buffer() -> (r: [u8; MAX_WIRE])
    ensures
        r@ == crate::frame::zeros(MAX_WIRE as nat),
{
    let r = [0u8; MAX_WIRE];
    assert(r@ =~= crate::frame::zeros(MAX_WIRE as nat));
    r
}


/// The server's side of a handshake in progress: its nonce, the session id and its key pair.
pub struct ServerHandshake {
    pub ns: [u8; 32],
    pub sid: [u8; SESSION_ID_SIZE],
    pub ek: EncapsKey,
    pub dk: DecapsKey,
}

/// Server, first step: the key pair from `seed`, kept with the server nonce and session id.
/// The server then sends `ns`, `sid` and `ek`.
pub fn server_hello(seed: &[u8; MLKEM_SEED_SIZE], ns: &[u8; 32], sid: &[u8; SESSION_ID_SIZE]) -> (r:
    ServerHandshake)
    ensures
        r.ns@ == ns@,
        r.sid@ == sid@,
        r.ek@ == kem_ek_spec(keypair_coins(seed@)),
        r.dk@ == kem_dk_spec(keypair_coins(seed@)),
{
    let (ek, dk) = match keygen(seed) {
        Ok(kp) => kp,
        Err(_) => ([0u8; 1184], [0u8; 2400]),
    };
    ServerHandshake { ns: *ns, sid: *sid, ek, dk }
}

/// The session that one side derives, as `derive_tunnel_session` leaves it.
pub open spec fn derived(
    s: TunnelSession,
    old: TunnelSession,
    ss: Seq<u8>,
    ns: Seq<u8>,
    nc: Seq<u8>,
    sid: Seq<u8>,
    client: bool,
) -> bool {
    &&& keys_installed(s, derive_material(ss, ns, nc, sid), client)
    &&& s.session_id@ == sid
    &&& s.is_client == (if client { 1u32 } else { 0u32 })
    &&& s.epoch == 0
    &&& s.txs == 0
    &&& s.rxs == 0
    &&& s.rekey_interval == old.rekey_interval
}

/// Server, second step, after reading the client nonce `nc`, the ciphertext `ct` and the
/// client's transcript MAC `ac`: decapsulates, checks `ac` against the transcript, derives the
/// session and returns the server's MAC of the shared secret to send. A wrong MAC fails with
/// `Crypto` and leaves `runtime` as it is.
pub fn server_finish(
    cfg: &HandshakeConfig,
    hs: &ServerHandshake,
    nc: &[u8; 32],
    ct: &Ciphertext,
    ac: &[u8; 32],
    runtime: &mut TunnelRuntime,
) -> (r: Result<[u8; 32]>)
    ensures
        ({
            let ss = kem_dec_spec(ct@, hs.dk@);
            let tr = transcript_spec(cfg.client_id@, cfg.server_id@, hs.ns@, nc@, hs.sid@, hs.ek@, ct@);
            if mac_spec(cfg.psk@, tr) == ac@ {
                &&& (r matches Ok(a) && a@ == mac_spec(cfg.psk@, ss))
                &&& derived(final(runtime).session, old(runtime).session, ss, hs.ns@, nc@, hs.sid@, false)
                &&& *final(runtime) == (TunnelRuntime { session: final(runtime).session, ..*old(runtime) })
            } else {
                &&& r == Err::<[u8; 32], Error>(Error::Crypto)
                &&& *final(runtime) == *old(runtime)
            }
        }),
{
    let ss = match decaps(ct, &hs.dk) {
        Ok(ss) => ss,
        Err(_) => [0u8; 32],
    };
    let mut tr = [0u8; HS_TRANSCRIPT_BYTES];
    handshake_transcript(&mut tr, &cfg.client_id, &cfg.server_id, &hs.ns, nc, &hs.sid, &hs.ek, ct);
    let mut ex = [0u8; 32];
    let _ = mac32(&mut ex, &cfg.psk, &tr);
    if !ct_eq_32(&ex, ac) {
        return Err(Error::Crypto);
    }
    let mut as_ = [0u8; 32];
    let _ = mac32(&mut as_, &cfg.psk, &ss);
    derive_tunnel_session(&mut runtime.session, &ss, &hs.ns, nc, &hs.sid, false);
    Ok(as_)
}

/// The client's side of a handshake in progress.
pub struct ClientHandshake {
    pub ns: [u8; 32],
    pub nc: [u8; 32],
    pub sid: [u8; SESSION_ID_SIZE],
    pub ss: [u8; 32],
}

/// Client, first step, after reading the server nonce `ns`, session id `sid` and
/// encapsulation key `ek`: encapsulates message `m`, and returns the state, the ciphertext and
/// the transcript MAC to send (after the client nonce `nc`).
pub fn client_reply(
    cfg: &HandshakeConfig,
    ns: &[u8; 32],
    sid: &[u8; SESSION_ID_SIZE],
    ek: &EncapsKey,
    nc: &[u8; 32],
    m: &[u8; MLKEM_SEED_SIZE],
) -> (r: (ClientHandshake, Ciphertext, [u8; 32]))
    ensures
        r.0.ns@ == ns@,
        r.0.nc@ == nc@,
        r.0.sid@ == sid@,
        r.0.ss@ == kem_ss_spec(ek@, m@),
        r.1@ == kem_ct_spec(ek@, m@),
        r.2@ == mac_spec(
            cfg.psk@,
            transcript_spec(cfg.client_id@, cfg.server_id@, ns@, nc@, sid@, ek@, kem_ct_spec(ek@, m@)),
        ),
{
    let (ct, ss) = match encaps(ek, m) {
        Ok(r) => r,
        Err(_) => ([0u8; 1088], [0u8; 32]),
    };
    let mut tr = [0u8; HS_TRANSCRIPT_BYTES];
    handshake_transcript(&mut tr, &cfg.client_id, &cfg.server_id, ns, nc, sid, ek, &ct);
    let mut ac = [0u8; 32];
    let _ = mac32(&mut ac, &cfg.psk, &tr);
    (ClientHandshake { ns: *ns, nc: *nc, sid: *sid, ss }, ct, ac)
}

/// Client, last step, after reading the server's MAC `as_`: checks it against the shared
/// secret and derives the session. A wrong MAC fails with `Crypto` and leaves `runtime` as it
/// is.
pub fn client_finish(
    cfg: &HandshakeConfig,
    hs: &ClientHandshake,
    as_: &[u8; 32],
    runtime: &mut TunnelRuntime,
) -> (r: Result<()>)
    ensures
        if mac_spec(cfg.psk@, hs.ss@) == as_@ {
            &&& r == Ok::<(), Error>(())
            &&& derived(final(runtime).session, old(runtime).session, hs.ss@, hs.ns@, hs.nc@, hs.sid@, true)
            &&& *final(runtime) == (TunnelRuntime { session: final(runtime).session, ..*old(runtime) })
        } else {
            &&& r == Err::<(), Error>(Error::Crypto)
            &&& *final(runtime) == *old(runtime)
        },
{
    let mut ex = [0u8; 32];
    let _ = mac32(&mut ex, &cfg.psk, &hs.ss);
    if !ct_eq_32(&ex, as_) {
        return Err(Error::Crypto);
    }
    derive_tunnel_session(&mut runtime.session, &hs.ss, &hs.ns, &hs.nc, &hs.sid, true);
    Ok(())
}

/// When the server decapsulates the client's shared secret, the client accepts the server's
/// MAC and both ends hold aligned sessions: what one seals the other opens.
pub proof fn lemma_handshake_aligns(
    client: TunnelSession,
    server: TunnelSession,
    c0: TunnelSession,
    s0: TunnelSession,
    ss_client: Seq<u8>,
    ss_server: Seq<u8>,
    ns: Seq<u8>,
    nc: Seq<u8>,
    sid: Seq<u8>,
    psk: Seq<u8>,
)
    requires
        ss_client == ss_server,
        ss_client.len() == 32,
        ns.len() == 32,
        nc.len() == 32,
        sid.len() == 16,
        derived(client, c0, ss_client, ns, nc, sid, true),
        derived(server, s0, ss_server, ns, nc, sid, false),
    ensures
        mac_spec(psk, ss_server) == mac_spec(psk, ss_client),
        aligned(client, server),
        aligned(server, client),
{
    crate::fips202::lemma_shake256_len(
        ss_client + ns + nc + sid + crate::frame::derive_label(),
        152,
    );
    crate::frame::lemma_derive_aligns(client, server, derive_material(ss_client, ns, nc, sid));
}

/// A handshake between two ends with the same PSK completes: the server decapsulates the
/// secret the client encapsulated, so the MAC that `server_finish` returns is the one
/// `client_finish` expects, and the sessions the two derive are aligned in both directions.
/// This holds whenever K-PKE decryption under the server's key recovers the client's message,
/// the condition under which decapsulation returns the encapsulated secret.
pub proof fn lemma_handshake_completes(
    cfg: HandshakeConfig,
    seed: Seq<u8>,
    ns: Seq<u8>,
    sid: Seq<u8>,
    nc: Seq<u8>,
    m: Seq<u8>,
    client: TunnelSession,
    server: TunnelSession,
    c0: TunnelSession,
    s0: TunnelSession,
)
    requires
        seed.len() == 32,
        m.len() == 32,
        ns.len() == 32,
        nc.len() == 32,
        sid.len() == 16,
        indcpa_msg_spec(
            kem_ct_spec(kem_ek_spec(keypair_coins(seed)), m),
            kem_dk_spec(keypair_coins(seed)).subrange(0, 1152),
        ) == m,
        derived(client, c0, kem_ss_spec(kem_ek_spec(keypair_coins(seed)), m), ns, nc, sid, true),
        derived(
            server,
            s0,
            kem_dec_spec(
                kem_ct_spec(kem_ek_spec(keypair_coins(seed)), m),
                kem_dk_spec(keypair_coins(seed)),
            ),
            ns,
            nc,
            sid,
            false,
        ),
    ensures
        ({
            let ek = kem_ek_spec(keypair_coins(seed));
            let dk = kem_dk_spec(keypair_coins(seed));
            let ct = kem_ct_spec(ek, m);
            &&& kem_dec_spec(ct, dk) == kem_ss_spec(ek, m)
            &&& mac_spec(cfg.psk@, kem_dec_spec(ct, dk)) == mac_spec(cfg.psk@, kem_ss_spec(ek, m))
            &&& aligned(client, server)
            &&& aligned(server, client)
        }),
{
    let coins = keypair_coins(seed);
    crate::fips202::lemma_shake256_len(seed, 64);
    crate::mlkem::lemma_decaps_of_encaps(coins, m);
    let ek = kem_ek_spec(coins);
    let ss = kem_ss_spec(ek, m);
    crate::fips202::lemma_sha3_512_len(m + crate::fips202::sha3_256_spec(ek));
    lemma_handshake_aligns(client, server, c0, s0, ss, ss, ns, nc, sid, cfg.psk@);
}

} // verus!
