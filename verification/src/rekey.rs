//! The decisions of a live tunnel end: when the client asks for a rekey, what each received
//! plaintext means (data, quit, rekey request or acknowledgement), and the key switch that
//! completes a rekey. The caller draws the nonces, seals and sends what these return, and
//! reads the frames.
use vstd::prelude::*;

use crate::byteorder::be32_at;
use crate::frame::{aligned, c2s_enc, c2s_mac, keys_installed, rekey_material, s2c_enc, TunnelSession, REKEY_NONCE_SIZE};
use crate::msgpack::{lone_string, payload_is_quit, quit_bytes, quit_limits};
use crate::tunnel::{
    build_control, control_spec, is_control, is_control_spec, rekey_apply, TunnelRuntime, CTRL_ACK,
    CTRL_LEN, CTRL_REQ,
};

verus! {

/// `s1` is `s0` switched to `epoch` with the client and server nonces `cn` and `sn`.
pub open spec fn rekeyed(s1: TunnelSession, s0: TunnelSession, epoch: u32, cn: Seq<u8>, sn: Seq<u8>) -> bool {
    &&& keys_installed(
        s1,
        rekey_material(c2s_enc(s0), c2s_mac(s0), s2c_enc(s0), epoch, cn, sn),
        s0.is_client != 0,
    )
    &&& s1.epoch == epoch
    &&& s1.txs == 0
    &&& s1.rxs == 0
    &&& s1.session_id == s0.session_id
    &&& s1.is_client == s0.is_client
    &&& s1.rekey_interval == s0.rekey_interval
}

/// The client asks for a rekey once it has sealed `rekey_interval` frames in this epoch.
pub open spec fn rekey_due_spec(s: TunnelSession) -> bool {
    s.is_client != 0 && s.txs >= s.rekey_interval
}

/// Whether the client should ask for a rekey now.
pub fn rekey_due(s: &TunnelSession) -> (r: bool)
    ensures
        r == rekey_due_spec(*s),
{
    s.is_client != 0 && s.txs >= s.rekey_interval
}

/// Client: when a rekey is due, records `my_nonce` and the next epoch, waits for the
/// acknowledgement, and returns the request to seal and send. Otherwise nothing changes.
pub fn begin_rekey(rt: &mut TunnelRuntime, my_nonce: &[u8; REKEY_NONCE_SIZE]) -> (r: Option<
    [u8; CTRL_LEN],
>)
    requires
        rekey_due_spec(old(rt).session) ==> old(rt).session.epoch < u32::MAX,
    ensures
        !rekey_due_spec(old(rt).session) ==> r is None && *final(rt) == *old(rt),
        rekey_due_spec(old(rt).session) ==> {
            &&& r matches Some(req) && req@ == control_spec(
                CTRL_REQ,
                (old(rt).session.epoch + 1) as u32,
                my_nonce@,
            )
            &&& *final(rt) == (TunnelRuntime {
                rekey_waiting: true,
                rekey_pending_epoch: (old(rt).session.epoch + 1) as u32,
                rekey_my_nonce: *my_nonce,
                ..*old(rt)
            })
        },
{
    if !rekey_due(&rt.session) {
        return None;
    }
    let next_epoch = rt.session.epoch + 1;
    let mut req = [0u8; CTRL_LEN];
    build_control(&mut req, CTRL_REQ, next_epoch, my_nonce);
    rt.rekey_my_nonce = *my_nonce;
    rt.rekey_pending_epoch = next_epoch;
    rt.rekey_waiting = true;
    Some(req)
}

/// What a received plaintext asks of the receiving end.
#[derive(Debug, Clone, Copy)]
pub enum RecvStep {
    /// Application data; `quit` when it is the MessagePack string `quit`.
    Deliver { quit: bool },
    /// A control message that needs nothing more.
    Skip,
    /// The acknowledgement the client was waiting for: it has switched keys.
    RekeyDone,
    /// The peer asks to move to `epoch`: acknowledge it and switch keys (`complete_rekey`).
    AnswerRekey { epoch: u32, peer_nonce: [u8; REKEY_NONCE_SIZE] },
    /// A control message of an unknown type, or a request for the wrong epoch: close.
    Close,
}

/// The control message `p` is the acknowledgement that `rt`'s client is waiting for.
pub open spec fn awaited_ack(rt: TunnelRuntime, p: Seq<u8>) -> bool {
    &&& rt.session.is_client != 0
    &&& rt.rekey_waiting
    &&& p[4] == CTRL_ACK
    &&& be32_at(p, 5) == rt.rekey_pending_epoch
}

/// The plaintext `p` is the quit line.
pub open spec fn is_quit_spec(p: Seq<u8>) -> bool {
    lone_string(p, quit_limits()) == Some(quit_bytes())
}

/// Decides what the received plaintext `payload` means. Only the acknowledgement the client
/// is waiting for changes `rt`: it switches the client to the pending epoch.
pub fn on_payload(rt: &mut TunnelRuntime, payload: &[u8]) -> (r: RecvStep)
    requires
        is_control_spec(payload@) && awaited_ack(*old(rt), payload@) ==> old(rt).rekey_count
            < u64::MAX,
        is_control_spec(payload@) && !awaited_ack(*old(rt), payload@) && payload@[4] == CTRL_REQ
            ==> old(rt).session.epoch < u32::MAX,
    ensures
        !is_control_spec(payload@) ==> r == (RecvStep::Deliver { quit: is_quit_spec(payload@) })
            && *final(rt) == *old(rt),
        is_control_spec(payload@) && awaited_ack(*old(rt), payload@) ==> {
            &&& r == RecvStep::RekeyDone
            &&& rekeyed(
                final(rt).session,
                old(rt).session,
                old(rt).rekey_pending_epoch,
                old(rt).rekey_my_nonce@,
                payload@.subrange(9, 41),
            )
            &&& !final(rt).rekey_waiting
            &&& final(rt).rekey_count == old(rt).rekey_count + 1
            &&& final(rt).rekey_pending_epoch == old(rt).rekey_pending_epoch
            &&& final(rt).rekey_my_nonce == old(rt).rekey_my_nonce
        },
        is_control_spec(payload@) && !awaited_ack(*old(rt), payload@) ==> {
            &&& *final(rt) == *old(rt)
            &&& payload@[4] == CTRL_ACK ==> r == RecvStep::Skip
            &&& payload@[4] != CTRL_ACK && payload@[4] != CTRL_REQ ==> r == RecvStep::Close
            &&& payload@[4] == CTRL_REQ && be32_at(payload@, 5) != old(rt).session.epoch + 1 ==> r
                == RecvStep::Close
            &&& payload@[4] == CTRL_REQ && be32_at(payload@, 5) == old(rt).session.epoch + 1 ==> (r is AnswerRekey && r->epoch == be32_at(payload@, 5)
                && r->peer_nonce@ == payload@.subrange(9, 41))
        },
{
    let mut ty: u8 = 0;
    let mut epoch: u32 = 0;
    let mut nonce = [0u8; REKEY_NONCE_SIZE];
    if !is_control(payload, &mut ty, &mut epoch, &mut nonce) {
        return RecvStep::Deliver { quit: payload_is_quit(payload) };
    }
    if rt.session.is_client != 0 && rt.rekey_waiting && ty == CTRL_ACK && epoch
        == rt.rekey_pending_epoch {
        let my_nonce = rt.rekey_my_nonce;
        rekey_apply(&mut rt.session, epoch, &my_nonce, &nonce);
        rt.rekey_waiting = false;
        rt.rekey_count = rt.rekey_count + 1;
        return RecvStep::RekeyDone;
    }
    if ty == CTRL_ACK {
        return RecvStep::Skip;
    }
    if ty != CTRL_REQ {
        return RecvStep::Close;
    }
    if epoch != rt.session.epoch + 1 {
        return RecvStep::Close;
    }
    RecvStep::AnswerRekey { epoch, peer_nonce: nonce }
}

/// The acknowledgement of a rekey request for `epoch`, carrying `my_nonce`.
pub fn rekey_ack(epoch: u32, my_nonce: &[u8; REKEY_NONCE_SIZE]) -> (r: [u8; CTRL_LEN])
    ensures
        r@ == control_spec(CTRL_ACK, epoch, my_nonce@),
{
    let mut ack = [0u8; CTRL_LEN];
    build_control(&mut ack, CTRL_ACK, epoch, my_nonce);
    ack
}

/// After acknowledging the peer's request: switches to `epoch`, with the client's nonce first
/// (ours on the client, the peer's on the server), and counts the rekey.
pub fn complete_rekey(
    rt: &mut TunnelRuntime,
    epoch: u32,
    peer_nonce: &[u8; REKEY_NONCE_SIZE],
    my_nonce: &[u8; REKEY_NONCE_SIZE],
)
    requires
        old(rt).rekey_count < u64::MAX,
    ensures
        old(rt).session.is_client != 0 ==> rekeyed(final(rt).session, old(rt).session, epoch, my_nonce@, peer_nonce@),
        old(rt).session.is_client == 0 ==> rekeyed(final(rt).session, old(rt).session, epoch, peer_nonce@, my_nonce@),
        final(rt).rekey_count == old(rt).rekey_count + 1,
        final(rt).rekey_waiting == old(rt).rekey_waiting,
        final(rt).rekey_pending_epoch == old(rt).rekey_pending_epoch,
        final(rt).rekey_my_nonce == old(rt).rekey_my_nonce,
{
    if rt.session.is_client != 0 {
        rekey_apply(&mut rt.session, epoch, my_nonce, peer_nonce);
    } else {
        rekey_apply(&mut rt.session, epoch, peer_nonce, my_nonce);
    }
    rt.rekey_count = rt.rekey_count + 1;
}

/// One in-band rekey, end to end: the client's request for its pending epoch is, at a server
/// in the client's epoch, a request for the next epoch carrying the client's nonce; the
/// server's acknowledgement is the one the client waits for; and the two sessions switched
/// with those nonces are aligned in both directions.
pub proof fn lemma_rekey_exchange(
    rc: TunnelRuntime,
    rs: TunnelRuntime,
    c0: TunnelSession,
    s0: TunnelSession,
    sn: Seq<u8>,
    c1: TunnelSession,
    s1: TunnelSession,
)
    requires
        rc.session.is_client != 0,
        rs.session.is_client == 0,
        rc.rekey_waiting,
        rc.rekey_pending_epoch == rc.session.epoch + 1,
        rs.session.epoch == rc.session.epoch,
        sn.len() == 32,
        c0.is_client != 0,
        s0.is_client == 0,
        aligned(c0, s0),
        aligned(s0, c0),
        rekeyed(c1, c0, rc.rekey_pending_epoch, rc.rekey_my_nonce@, sn),
        rekeyed(s1, s0, rc.rekey_pending_epoch, rc.rekey_my_nonce@, sn),
    ensures
        ({
            let req = control_spec(CTRL_REQ, rc.rekey_pending_epoch, rc.rekey_my_nonce@);
            &&& is_control_spec(req)
            &&& !awaited_ack(rs, req)
            &&& req[4] == CTRL_REQ
            &&& be32_at(req, 5) == rs.session.epoch + 1
            &&& req.subrange(9, 41) == rc.rekey_my_nonce@
        }),
        ({
            let ack = control_spec(CTRL_ACK, rc.rekey_pending_epoch, sn);
            &&& is_control_spec(ack)
            &&& awaited_ack(rc, ack)
            &&& ack.subrange(9, 41) == sn
        }),
        aligned(c1, s1),
        aligned(s1, c1),
{
    crate::tunnel::lemma_control_roundtrip(CTRL_REQ, rc.rekey_pending_epoch, rc.rekey_my_nonce@);
    crate::tunnel::lemma_control_roundtrip(CTRL_ACK, rc.rekey_pending_epoch, sn);
    crate::frame::lemma_rekey_keeps_aligned(
        c0,
        s0,
        c1,
        s1,
        rc.rekey_pending_epoch,
        rc.rekey_my_nonce@,
        sn,
    );
}

} // verus!
