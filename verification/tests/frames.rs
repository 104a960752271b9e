use std::io::{Read, Write};

use fips203_core::{
    begin_wire_frame, build_control, client_finish, client_reply, decode_string_only,
    derive_tunnel_session, frame_open, frame_seal, is_control, pack_line, payload_is_quit,
    rekey_apply, server_finish, server_hello, HandshakeConfig, TunnelRuntime, TunnelSession,
    CTRL_ACK, CTRL_LEN, CTRL_REQ, MAX_MSG, MAX_WIRE, PEER_ID_SIZE, REKEY_NONCE_SIZE,
    SESSION_ID_SIZE,
};

fn peer_id(label: &[u8]) -> [u8; PEER_ID_SIZE] {
    assert!(label.len() <= PEER_ID_SIZE);
    let mut out = [0u8; PEER_ID_SIZE];
    out[..label.len()].copy_from_slice(label);
    out
}

fn test_handshake_config() -> HandshakeConfig {
    HandshakeConfig {
        psk: [0xAB; 32],
        client_id: peer_id(b"test_client"),
        server_id: peer_id(b"test_server"),
    }
}

fn paired_sessions() -> (TunnelSession, TunnelSession) {
    let ss = [0x51u8; 32];
    let ns = [0x52u8; 32];
    let nc = [0x53u8; 32];
    let sid = [0x54u8; SESSION_ID_SIZE];
    let mut client = TunnelSession::default();
    let mut server = TunnelSession::default();
    derive_tunnel_session(&mut client, &ss, &ns, &nc, &sid, true);
    derive_tunnel_session(&mut server, &ss, &ns, &nc, &sid, false);
    assert_eq!(client.is_client, 1);
    assert_eq!(server.is_client, 0);
    (client, server)
}

fn client_to_server_plain(
    client: &mut TunnelSession,
    server: &mut TunnelSession,
    plain: &[u8],
) -> Vec<u8> {
    let mut wire = [0u8; MAX_WIRE];
    let wl = frame_seal(client, plain, &mut wire).expect("seal");
    let mut out = [0u8; MAX_MSG];
    let ol = frame_open(server, &wire[..wl], &mut out).expect("open");
    out[..ol].to_vec()
}

fn server_to_client_plain(
    server: &mut TunnelSession,
    client: &mut TunnelSession,
    plain: &[u8],
) -> Vec<u8> {
    let mut wire = [0u8; MAX_WIRE];
    let wl = frame_seal(server, plain, &mut wire).expect("seal");
    let mut out = [0u8; MAX_MSG];
    let ol = frame_open(client, &wire[..wl], &mut out).expect("open");
    out[..ol].to_vec()
}

struct MemPipe {
    buf: Vec<u8>,
    pos: usize,
}

impl MemPipe {
    fn new() -> Self {
        Self {
            buf: Vec::new(),
            pos: 0,
        }
    }
}

impl Write for MemPipe {
    fn write(&mut self, data: &[u8]) -> std::io::Result<usize> {
        self.buf.extend_from_slice(data);
        Ok(data.len())
    }
    fn flush(&mut self) -> std::io::Result<()> {
        Ok(())
    }
}

impl Read for MemPipe {
    fn read(&mut self, out: &mut [u8]) -> std::io::Result<usize> {
        if self.pos >= self.buf.len() {
            return Ok(0);
        }
        let n = out.len().min(self.buf.len() - self.pos);
        out[..n].copy_from_slice(&self.buf[self.pos..self.pos + n]);
        self.pos += n;
        Ok(n)
    }
}

fn write_wire_frame(wr: &mut impl Write, wire: &[u8], wire_len: usize) -> std::io::Result<()> {
    wr.write_all(&wire[..wire_len])?;
    wr.flush()
}

fn read_wire_frame(rd: &mut impl Read, wire: &mut [u8]) -> std::io::Result<usize> {
    if !fips203_core::wire_capacity_ok(wire.len()) {
        return Err(std::io::Error::other("wire buffer"));
    }
    let mut header = [0u8; 16];
    rd.read_exact(&mut header)?;
    let total = begin_wire_frame(&header, wire).map_err(|e| std::io::Error::other(e.message()))?;
    rd.read_exact(&mut wire[16..total])?;
    Ok(total)
}

#[test]
fn rky1_shaped_opaque_payload_is_not_dropped() {
    let (mut client, mut server) = paired_sessions();
    let mut payload = [0u8; CTRL_LEN];
    payload[..4].copy_from_slice(b"RKY1");
    payload[4] = 0xFF;
    payload[5..9].copy_from_slice(&[0, 0, 0, 1]);
    payload[9..].fill(0xAB);

    let got = client_to_server_plain(&mut client, &mut server, &payload);
    assert_eq!(got, payload.as_slice());
}

#[test]
fn server_sealed_hello_opens_on_client() {
    let ss = [0x11u8; 32];
    let ns = [0x22u8; 32];
    let nc = [0x33u8; 32];
    let sid = [0x44u8; SESSION_ID_SIZE];
    let mut server = TunnelSession::default();
    let mut client = TunnelSession::default();
    derive_tunnel_session(&mut server, &ss, &ns, &nc, &sid, false);
    derive_tunnel_session(&mut client, &ss, &ns, &nc, &sid, true);

    let mut mp = [0u8; 64];
    let plen = pack_line(b"hello", &mut mp).unwrap();
    let mut wire = [0u8; 4096];
    let wl = frame_seal(&mut server, &mp[..plen], &mut wire).unwrap();

    let mut plain = [0u8; 4096];
    let ol = frame_open(&mut client, &wire[..wl], &mut plain).unwrap();
    assert_eq!(&plain[..ol], &mp[..plen]);
}

#[test]
fn frame_roundtrip_matches_c_smoke() {
    let mut s = TunnelSession::default();
    s.txe = [0x42; 32];
    s.txm = [0x43; 32];
    s.rxe = s.txe;
    s.rxm = s.txm;
    s.txb = [0x44; 12];
    s.rxb = s.txb;

    let plain = [1u8, 2, 3, 4, 5];
    let mut wire = [0u8; MAX_WIRE];
    let wl = frame_seal(&mut s, &plain, &mut wire).expect("seal");
    let mut out = [0u8; MAX_MSG];
    let ol = frame_open(&mut s, &wire[..wl], &mut out).expect("open");
    assert_eq!(ol, plain.len());
    assert_eq!(&out[..ol], &plain);
}

#[test]
fn handshake_socket_pair_then_opaque_and_msgpack() {
    let cfg = test_handshake_config();
    let cfg_srv = test_handshake_config();

    let mut server_rt = TunnelRuntime::new(false, 1_000_000);
    let mut client_rt = TunnelRuntime::new(true, 1_000_000);

    let hello = server_hello(&[0x61u8; 32], &[0x62u8; 32], &[0x63u8; SESSION_ID_SIZE]);
    let (chs, ct, ac) = client_reply(&cfg, &hello.ns, &hello.sid, &hello.ek, &[0x64u8; 32], &[0x65u8; 32]);
    let as_ = server_finish(&cfg_srv, &hello, &chs.nc, &ct, &ac, &mut server_rt).expect("server hs");
    client_finish(&cfg, &chs, &as_, &mut client_rt).expect("client hs");

    let mut client = std::mem::take(&mut client_rt.session);
    let mut server = std::mem::take(&mut server_rt.session);

    let opaque = [0x10, 0x20, 0x30, 0x40, 0x50];
    assert_eq!(
        client_to_server_plain(&mut client, &mut server, &opaque),
        opaque.as_slice()
    );

    let mut mp = [0u8; 64];
    let n = pack_line(b"post-handshake", &mut mp).unwrap();
    let echoed = server_to_client_plain(&mut server, &mut client, &mp[..n]);
    assert_eq!(&echoed, &mp[..n]);
    let mut show = [0u8; 256];
    let slen = decode_string_only(&echoed, &mut show).unwrap();
    assert_eq!(&show[..slen], b"post-handshake");
}

#[test]
fn handshake_keeps_rekey_state() {
    let cfg = test_handshake_config();
    let mut server_rt = TunnelRuntime::new(false, 500);
    let mut client_rt = TunnelRuntime::new(true, 500);
    for rt in [&mut server_rt, &mut client_rt] {
        rt.rekey_waiting = true;
        rt.rekey_pending_epoch = 7;
        rt.rekey_my_nonce = [0x5au8; 32];
        rt.rekey_count = 3;
    }
    let hello = server_hello(&[9u8; 32], &[8u8; 32], &[7u8; SESSION_ID_SIZE]);
    let (chs, ct, ac) = client_reply(&cfg, &hello.ns, &hello.sid, &hello.ek, &[6u8; 32], &[5u8; 32]);
    let as_ = server_finish(&cfg, &hello, &chs.nc, &ct, &ac, &mut server_rt).expect("server hs");
    client_finish(&cfg, &chs, &as_, &mut client_rt).expect("client hs");
    for rt in [&server_rt, &client_rt] {
        assert!(rt.rekey_waiting);
        assert_eq!(rt.rekey_pending_epoch, 7);
        assert_eq!(rt.rekey_my_nonce, [0x5au8; 32]);
        assert_eq!(rt.rekey_count, 3);
        assert_eq!(rt.session.rekey_interval, 500);
        assert_ne!(rt.session.txe, [0u8; 32]);
    }
    assert_eq!(server_rt.session.txe, client_rt.session.rxe);
}

#[test]
fn handshake_rejects_wrong_psk() {
    let cfg = test_handshake_config();
    let mut bad = test_handshake_config();
    bad.psk[0] ^= 1;
    let mut server_rt = TunnelRuntime::new(false, 10);
    let hello = server_hello(&[1u8; 32], &[2u8; 32], &[3u8; SESSION_ID_SIZE]);
    let (_chs, ct, ac) = client_reply(&bad, &hello.ns, &hello.sid, &hello.ek, &[4u8; 32], &[5u8; 32]);
    assert_eq!(
        server_finish(&cfg, &hello, &[4u8; 32], &ct, &ac, &mut server_rt).unwrap_err(),
        fips203_core::Error::Crypto
    );
    assert_eq!(server_rt.session.txe, [0u8; 32]);
}

#[test]
fn handshake_client_rejects_forged_server_mac() {
    let cfg = test_handshake_config();
    let mut client_rt = TunnelRuntime::new(true, 10);
    let hello = server_hello(&[1u8; 32], &[2u8; 32], &[3u8; SESSION_ID_SIZE]);
    let (chs, _ct, _ac) = client_reply(&cfg, &hello.ns, &hello.sid, &hello.ek, &[4u8; 32], &[5u8; 32]);
    assert_eq!(
        client_finish(&cfg, &chs, &[0u8; 32], &mut client_rt).unwrap_err(),
        fips203_core::Error::Crypto
    );
    assert_eq!(client_rt.session.epoch, 0);
}

#[test]
fn msgpack_line_and_opaque_both_roundtrip() {
    let (mut client, mut server) = paired_sessions();

    let mut mp = [0u8; 64];
    let plen = pack_line(b"hello", &mut mp).unwrap();
    let got_mp = client_to_server_plain(&mut client, &mut server, &mp[..plen]);
    assert_eq!(&got_mp, &mp[..plen]);

    let opaque = [0x00, 0xFF, 0xA5, b'h'];
    let got_raw = client_to_server_plain(&mut client, &mut server, &opaque);
    assert_eq!(got_raw, opaque);

    let mut ascii = [0u8; MAX_MSG];
    let n = decode_string_only(&got_mp, &mut ascii).expect("msgpack decodes");
    assert_eq!(&ascii[..n], b"hello");
    assert!(decode_string_only(&got_raw, &mut ascii).is_err());
}

#[test]
fn opaque_is_not_treated_as_quit() {
    let (mut client, mut server) = paired_sessions();

    let mut quit_mp = [0u8; 16];
    let qlen = pack_line(b"quit", &mut quit_mp).unwrap();
    assert!(payload_is_quit(&quit_mp[..qlen]));

    let fake = [0xA4, b'q', b'u', b'i', b'X'];
    assert!(!payload_is_quit(&fake));
    let got = client_to_server_plain(&mut client, &mut server, &fake);
    assert_eq!(got, fake);
}

#[test]
fn opaque_single_byte_and_chunk() {
    let (mut client, mut server) = paired_sessions();
    for plain in [
        &[0x00][..],
        &[0xFF, 0x7F, 0x00, 0x01][..],
        &(0u8..=255).collect::<Vec<_>>(),
    ] {
        let got = client_to_server_plain(&mut client, &mut server, plain);
        assert_eq!(got, plain);
    }
}

#[test]
fn opaque_max_plaintext_size() {
    let (mut client, mut server) = paired_sessions();
    let plain: Vec<u8> = (0..MAX_MSG).map(|i| (i & 0xff) as u8).collect();
    let got = client_to_server_plain(&mut client, &mut server, &plain);
    assert_eq!(got, plain);
}

#[test]
fn opaque_bidirectional_without_msgpack() {
    let (mut client, mut server) = paired_sessions();
    let c2s = [0xDE, 0xAD, 0xBE, 0xEF];
    let s2c = [1, 2, 3, 4, 5, 6, 7, 8];
    assert_eq!(
        client_to_server_plain(&mut client, &mut server, &c2s),
        c2s.as_slice()
    );
    assert_eq!(
        server_to_client_plain(&mut server, &mut client, &s2c),
        s2c.as_slice()
    );
}

#[test]
fn opaque_through_wire_framing() {
    let (mut client, mut server) = paired_sessions();
    let plain: Vec<u8> = (0..512).map(|i| (i * 3 & 0xff) as u8).collect();
    let mut wire = [0u8; MAX_WIRE];
    let wl = frame_seal(&mut client, &plain, &mut wire).unwrap();

    let mut pipe = MemPipe::new();
    write_wire_frame(&mut pipe, &wire, wl).unwrap();
    pipe.pos = 0;
    let mut wire2 = [0u8; MAX_WIRE];
    let wl2 = read_wire_frame(&mut pipe, &mut wire2).unwrap();
    assert_eq!(wl2, wl);

    let mut out = [0u8; MAX_MSG];
    let ol = frame_open(&mut server, &wire2[..wl2], &mut out).unwrap();
    assert_eq!(&out[..ol], plain.as_slice());
}

#[test]
fn seal_write_read_open_roundtrip() {
    let mut s = TunnelSession::default();
    s.txe = [0x42; 32];
    s.txm = [0x43; 32];
    s.rxe = s.txe;
    s.rxm = s.txm;
    s.txb = [0x44; 12];
    s.rxb = s.txb;

    let plain = [1u8, 2, 3, 4, 5];
    let mut wire = [0u8; MAX_WIRE];
    let wl = frame_seal(&mut s, &plain, &mut wire).unwrap();

    let mut pipe = MemPipe::new();
    write_wire_frame(&mut pipe, &wire, wl).unwrap();
    pipe.pos = 0;

    let mut wire2 = [0u8; MAX_WIRE];
    let wl2 = read_wire_frame(&mut pipe, &mut wire2).unwrap();
    assert_eq!(wl2, wl);

    let mut out = [0u8; MAX_MSG];
    let ol = frame_open(&mut s, &wire2[..wl2], &mut out).unwrap();
    assert_eq!(&out[..ol], &plain);
}

#[test]
fn wire_frame_header_errors() {
    let mut small = [0u8; MAX_WIRE - 1];
    let header = [0u8; 16];
    assert_eq!(
        begin_wire_frame(&header, &mut small),
        Err(fips203_core::Error::BufferTooSmall)
    );
    let mut wire = [0u8; MAX_WIRE];
    let mut big = [0u8; 16];
    big[..4].copy_from_slice(&((MAX_MSG as u32) + 1).to_be_bytes());
    assert_eq!(
        begin_wire_frame(&big, &mut wire),
        Err(fips203_core::Error::Length)
    );
    assert_eq!(wire[0], 0);
    let mut ok = [0u8; 16];
    ok[..4].copy_from_slice(&5u32.to_be_bytes());
    ok[4] = 9;
    assert_eq!(begin_wire_frame(&ok, &mut wire), Ok(16 + 5 + 16));
    assert_eq!(&wire[..16], &ok);
}

#[test]
fn frame_seal_errors() {
    let (mut client, mut server) = paired_sessions();
    let mut wire = [0u8; MAX_WIRE];
    let too_big = vec![0u8; MAX_MSG + 1];
    assert_eq!(
        frame_seal(&mut client, &too_big, &mut wire),
        Err(fips203_core::Error::Length)
    );
    let mut tiny = [0u8; 16 + 3 + 15];
    assert_eq!(
        frame_seal(&mut client, &[1, 2, 3], &mut tiny),
        Err(fips203_core::Error::BufferTooSmall)
    );
    assert_eq!(client.txs, 0);
    let wl = frame_seal(&mut client, &[1, 2, 3], &mut wire).unwrap();
    wire[20] ^= 1;
    let mut out = [0u8; MAX_MSG];
    assert_eq!(
        frame_open(&mut server, &wire[..wl], &mut out),
        Err(fips203_core::Error::Crypto)
    );
    assert_eq!(server.rxs, 0);
}

#[test]
fn frame_open_rejects_replay() {
    let (mut client, mut server) = paired_sessions();
    let mut wire = [0u8; MAX_WIRE];
    let wl = frame_seal(&mut client, b"once", &mut wire).unwrap();
    let mut out = [0u8; MAX_MSG];
    assert_eq!(frame_open(&mut server, &wire[..wl], &mut out), Ok(4));
    assert!(frame_open(&mut server, &wire[..wl], &mut out).is_err());
}

fn exchange_control(
    client: &mut TunnelSession,
    server: &mut TunnelSession,
    plain: &[u8; CTRL_LEN],
) -> [u8; CTRL_LEN] {
    let got = client_to_server_plain(client, server, plain);
    let mut out = [0u8; CTRL_LEN];
    out.copy_from_slice(&got[..CTRL_LEN]);
    out
}

#[test]
fn rekey_apply_only_keeps_c2s_aligned() {
    let (mut client, mut server) = paired_sessions();
    let cn = [0xC1u8; REKEY_NONCE_SIZE];
    let sn = [0x51u8; REKEY_NONCE_SIZE];
    rekey_apply(&mut client, 1, &cn, &sn);
    rekey_apply(&mut server, 1, &cn, &sn);
    assert_eq!(client.txe, server.rxe);
    assert_eq!(client.txm, server.rxm);
}

#[test]
fn rekey_epoch_bumps_then_opaque_and_msgpack_work() {
    let (mut client, mut server) = paired_sessions();
    assert_eq!(client.epoch, 0);
    assert_eq!(server.epoch, 0);
    assert_eq!(client.txe, server.rxe, "paired c2s before rekey");

    let client_nonce = [0xC1u8; REKEY_NONCE_SIZE];
    let server_nonce = [0x51u8; REKEY_NONCE_SIZE];
    let new_epoch = 1u32;

    let mut req = [0u8; CTRL_LEN];
    build_control(&mut req, CTRL_REQ, new_epoch, &client_nonce);
    let opened = exchange_control(&mut client, &mut server, &req);

    let mut ty = 0u8;
    let mut epoch = 0u32;
    let mut peer_nonce = [0u8; REKEY_NONCE_SIZE];
    assert!(is_control(&opened, &mut ty, &mut epoch, &mut peer_nonce));
    assert_eq!(ty, CTRL_REQ);
    assert_eq!(epoch, new_epoch);
    assert_eq!(peer_nonce, client_nonce);

    let mut ack = [0u8; CTRL_LEN];
    build_control(&mut ack, CTRL_ACK, new_epoch, &server_nonce);
    let ack_opened = server_to_client_plain(&mut server, &mut client, &ack);
    assert!(is_control(&ack_opened, &mut ty, &mut epoch, &mut peer_nonce));
    assert_eq!(ty, CTRL_ACK);

    rekey_apply(&mut server, new_epoch, &client_nonce, &server_nonce);
    rekey_apply(&mut client, new_epoch, &client_nonce, &server_nonce);

    assert_eq!(client.epoch, new_epoch);
    assert_eq!(server.epoch, new_epoch);
    assert_eq!(client.txe, server.rxe, "c2s enc key");
    assert_eq!(client.txm, server.rxm, "c2s mac key");
    assert_eq!(client.txb, server.rxb, "c2s nonce base");

    let opaque = [0xAA, 0xBB, 0xCC, 0xDD];
    assert_eq!(
        client_to_server_plain(&mut client, &mut server, &opaque),
        opaque.as_slice()
    );

    let mut mp = [0u8; 64];
    let plen = pack_line(b"after-rekey", &mut mp).unwrap();
    assert_eq!(
        client_to_server_plain(&mut client, &mut server, &mp[..plen]),
        &mp[..plen]
    );
}

#[test]
fn old_epoch_frame_is_refused_after_rekey() {
    let (mut client, mut server) = paired_sessions();
    let mut wire = [0u8; MAX_WIRE];
    let wl = frame_seal(&mut client, b"stale", &mut wire).unwrap();
    rekey_apply(&mut server, 1, &[1u8; 32], &[2u8; 32]);
    let mut out = [0u8; MAX_MSG];
    assert!(frame_open(&mut server, &wire[..wl], &mut out).is_err());
}

fn seeded_session() -> TunnelSession {
    let mut session = TunnelSession::default();
    session.txe = [1u8; 32];
    session.txm = [2u8; 32];
    session.rxe = [3u8; 32];
    session.rxm = [4u8; 32];
    session.txb = [5u8; 12];
    session.rxb = [6u8; 12];
    session.session_id = [7u8; 16];
    session
}

fn lcg_bytes(seed: &mut u64, n: usize) -> Vec<u8> {
    (0..n)
        .map(|_| {
            *seed = seed.wrapping_mul(6364136223846793005).wrapping_add(1442695040888963407);
            (*seed >> 56) as u8
        })
        .collect()
}

#[test]
fn malformed_input_fails_safely() {
    let mut seed = 0x1234_5678u64;
    for round in 0..200usize {
        let len = (round * 37) % (MAX_WIRE + 64);
        let wire = lcg_bytes(&mut seed, len);
        let mut session = seeded_session();
        let mut plain = [0u8; MAX_MSG];
        assert!(frame_open(&mut session, &wire, &mut plain).is_err());
        assert_eq!(session.rxs, 0);

        let blob = lcg_bytes(&mut seed, round % 250);
        let mut s = TunnelSession::default();
        let _ = fips203_core::session_unpack(&blob, &mut s);
    }
    let mut session = seeded_session();
    let mut wire = [0u8; MAX_WIRE];
    for extra in 1..64usize {
        let plain = vec![0u8; MAX_MSG + extra];
        assert!(frame_seal(&mut session, &plain, &mut wire).is_err());
    }
}
