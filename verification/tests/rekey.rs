use fips203_core::{
    begin_rekey, build_control, complete_rekey, derive_tunnel_session, frame_open, frame_seal,
    on_payload, pack_line, rekey_ack, rekey_due, RecvStep, TunnelRuntime, CTRL_ACK, CTRL_LEN,
    CTRL_REQ, MAX_MSG, MAX_WIRE, SESSION_ID_SIZE,
};

fn runtimes(interval: u64) -> (TunnelRuntime, TunnelRuntime) {
    let mut c = TunnelRuntime::new(true, interval);
    let mut s = TunnelRuntime::new(false, interval);
    let sid = [0x54u8; SESSION_ID_SIZE];
    derive_tunnel_session(&mut c.session, &[1u8; 32], &[2u8; 32], &[3u8; 32], &sid, true);
    derive_tunnel_session(&mut s.session, &[1u8; 32], &[2u8; 32], &[3u8; 32], &sid, false);
    (c, s)
}

fn pass(from: &mut TunnelRuntime, to: &mut TunnelRuntime, plain: &[u8]) -> Vec<u8> {
    let mut wire = [0u8; MAX_WIRE];
    let wl = frame_seal(&mut from.session, plain, &mut wire).unwrap();
    let mut out = [0u8; MAX_MSG];
    let ol = frame_open(&mut to.session, &wire[..wl], &mut out).unwrap();
    out[..ol].to_vec()
}

#[test]
fn rekey_due_only_for_client_after_interval() {
    let (mut c, s) = runtimes(2);
    assert!(!rekey_due(&c.session));
    assert!(!rekey_due(&s.session));
    assert!(begin_rekey(&mut c, &[9u8; 32]).is_none());
    assert!(!c.rekey_waiting);
    c.session.txs = 2;
    assert!(rekey_due(&c.session));
}

#[test]
fn full_rekey_exchange_through_frames() {
    let (mut c, mut s) = runtimes(1);
    let got = pass(&mut c, &mut s, b"data");
    assert!(matches!(on_payload(&mut s, &got), RecvStep::Deliver { quit: false }));

    let cn = [0xC1u8; 32];
    let sn = [0x51u8; 32];
    let req = begin_rekey(&mut c, &cn).expect("due");
    let mut expect = [0u8; CTRL_LEN];
    build_control(&mut expect, CTRL_REQ, 1, &cn);
    assert_eq!(req, expect);
    assert!(c.rekey_waiting);
    assert_eq!(c.rekey_pending_epoch, 1);

    let got = pass(&mut c, &mut s, &req);
    let (epoch, peer) = match on_payload(&mut s, &got) {
        RecvStep::AnswerRekey { epoch, peer_nonce } => (epoch, peer_nonce),
        other => panic!("unexpected {:?}", other),
    };
    assert_eq!(epoch, 1);
    assert_eq!(peer, cn);
    let ack = rekey_ack(epoch, &sn);
    let got = pass(&mut s, &mut c, &ack);
    complete_rekey(&mut s, epoch, &peer, &sn);
    assert_eq!(s.session.epoch, 1);
    assert_eq!(s.rekey_count, 1);

    assert!(matches!(on_payload(&mut c, &got), RecvStep::RekeyDone));
    assert!(!c.rekey_waiting);
    assert_eq!(c.rekey_count, 1);
    assert_eq!(c.session.epoch, 1);
    assert_eq!(c.session.txe, s.session.rxe);
    assert_eq!(c.session.rxe, s.session.txe);

    assert_eq!(pass(&mut c, &mut s, b"after"), b"after".to_vec());
    assert_eq!(pass(&mut s, &mut c, b"back"), b"back".to_vec());
}

#[test]
fn control_payload_decisions() {
    let (mut c, mut s) = runtimes(100);
    let mut m = [0u8; CTRL_LEN];
    build_control(&mut m, CTRL_ACK, 1, &[0u8; 32]);
    assert!(matches!(on_payload(&mut s, &m), RecvStep::Skip));
    assert!(matches!(on_payload(&mut c, &m), RecvStep::Skip));
    build_control(&mut m, 7, 1, &[0u8; 32]);
    assert!(matches!(on_payload(&mut s, &m), RecvStep::Close));
    build_control(&mut m, CTRL_REQ, 5, &[0u8; 32]);
    assert!(matches!(on_payload(&mut s, &m), RecvStep::Close));
    let mut q = [0u8; 16];
    let n = pack_line(b"quit", &mut q).unwrap();
    assert!(matches!(on_payload(&mut s, &q[..n]), RecvStep::Deliver { quit: true }));
    assert!(matches!(on_payload(&mut s, b"raw"), RecvStep::Deliver { quit: false }));
    assert_eq!(s.session.epoch, 0);
}
