//! The portable big-endian session blob (pack and unpack).
use vstd::prelude::*;

use crate::byteorder::{be32_at, be32_bytes, be64_at, be64_bytes, lemma_be32_value, lemma_be64_value};
use crate::error::{Error, Result};
use crate::frame::{TunnelSession, MAX_FRAMES, SESSION_ID_SIZE, SESSION_PACKED_BYTES};
use crate::util::copy_into;

verus! {

pub const SESSION_PACK_HEADER_U64: u64 = 0x4632_3033_5331_0001;

/// The 208 meaningful bytes of a packed session: header, keys, nonce bases, counters,
/// session id, epoch, role and rekey interval.
pub open spec fn session_blob(s: TunnelSession) -> Seq<u8> {
    be64_bytes(SESSION_PACK_HEADER_U64) + s.txe@ + s.txm@ + s.rxe@ + s.rxm@ + s.txb@ + s.rxb@
        + be64_bytes(s.txs) + be64_bytes(s.rxs) + s.session_id@ + be32_bytes(s.epoch) + be32_bytes(
        s.is_client,
    ) + be64_bytes(s.rekey_interval)
}

/// A blob that unpacking accepts: long enough, with the header, counters below
/// `MAX_FRAMES` and a role of 0 or 1.
pub open spec fn blob_accepted(b: Seq<u8>) -> bool {
    &&& b.len() >= SESSION_PACKED_BYTES
    &&& be64_at(b, 0) == SESSION_PACK_HEADER_U64
    &&& be64_at(b, 160) < MAX_FRAMES
    &&& be64_at(b, 168) < MAX_FRAMES
    &&& be32_at(b, 196) <= 1
}

/// The error unpacking gives for a blob it refuses.
pub open spec fn blob_error(b: Seq<u8>) -> Error {
    if b.len() < SESSION_PACKED_BYTES {
        Error::Length
    } else {
        Error::Crypto
    }
}

/// Session `s` holds the fields stored in blob `b`.
pub open spec fn holds_blob(s: TunnelSession, b: Seq<u8>) -> bool {
    &&& s.txe@ == b.subrange(8, 40)
    &&& s.txm@ == b.subrange(40, 72)
    &&& s.rxe@ == b.subrange(72, 104)
    &&& s.rxm@ == b.subrange(104, 136)
    &&& s.txb@ == b.subrange(136, 148)
    &&& s.rxb@ == b.subrange(148, 160)
    &&& s.txs == be64_at(b, 160)
    &&& s.rxs == be64_at(b, 168)
    &&& s.session_id@ == b.subrange(176, 192)
    &&& s.epoch == be32_at(b, 192)
    &&& s.is_client == be32_at(b, 196)
    &&& s.rekey_interval == be64_at(b, 200)
}

/// Packs session state into the first 208 bytes of `out` (which must hold 216).
pub fn session_pack(session: &TunnelSession, out: &mut [u8]) -> (r: Result<()>)
    ensures
        old(out)@.len() < SESSION_PACKED_BYTES ==> r == Err::<(), Error>(Error::BufferTooSmall)
            && final(out)@ == old(out)@,
        old(out)@.len() >= SESSION_PACKED_BYTES ==> r == Ok::<(), Error>(()) && final(out)@
            == session_blob(*session) + old(out)@.skip(208),
{
    if out.len() < SESSION_PACKED_BYTES {
        return Err(Error::BufferTooSmall);
    }
    let ghost o0 = out@;
    be_store_u64(out, 0, SESSION_PACK_HEADER_U64);
    copy_into(out, 8, &session.txe, 0, 32);
    copy_into(out, 40, &session.txm, 0, 32);
    copy_into(out, 72, &session.rxe, 0, 32);
    copy_into(out, 104, &session.rxm, 0, 32);
    copy_into(out, 136, &session.txb, 0, 12);
    copy_into(out, 148, &session.rxb, 0, 12);
    be_store_u64(out, 160, session.txs);
    be_store_u64(out, 168, session.rxs);
    copy_into(out, 176, &session.session_id, 0, SESSION_ID_SIZE);
    be_store_u32(out, 192, session.epoch);
    be_store_u32(out, 196, session.is_client);
    be_store_u64(out, 200, session.rekey_interval);
    assert(out@ =~= session_blob(*session) + o0.skip(208));
    Ok(())
}

/// Unpacks a session blob, refusing a short blob (`Length`) and a wrong header, counters at
/// `MAX_FRAMES` or an unknown role (`Crypto`); a refused blob leaves `session` as it was.
pub fn session_unpack(input: &[u8], session: &mut TunnelSession) -> (r: Result<()>)
    ensures
        blob_accepted(input@) ==> r == Ok::<(), Error>(()) && holds_blob(*final(session), input@),
        !blob_accepted(input@) ==> r == Err::<(), Error>(blob_error(input@)) && *final(session)
            == *old(session),
{
    if input.len() < SESSION_PACKED_BYTES {
        return Err(Error::Length);
    }
    if be_load_u64(input, 0) != SESSION_PACK_HEADER_U64 {
        return Err(Error::Crypto);
    }
    let txs = be_load_u64(input, 160);
    let rxs = be_load_u64(input, 168);
    let is_client = be_load_u32(input, 196);
    if txs >= MAX_FRAMES || rxs >= MAX_FRAMES || is_client > 1 {
        return Err(Error::Crypto);
    }
    copy_array(&mut session.txe, input, 8);
    copy_array(&mut session.txm, input, 40);
    copy_array(&mut session.rxe, input, 72);
    copy_array(&mut session.rxm, input, 104);
    copy_array(&mut session.txb, input, 136);
    copy_array(&mut session.rxb, input, 148);
    session.txs = txs;
    session.rxs = rxs;
    copy_array(&mut session.session_id, input, 176);
    session.epoch = be_load_u32(input, 192);
    session.is_client = is_client;
    session.rekey_interval = be_load_u64(input, 200);
    Ok(())
}

fn copy_array<const N: usize>(dst: &mut [u8; N], src: &[u8], from: usize)
    requires
        from + N <= src.len(),
    ensures
        final(dst)@ == src@.subrange(from as int, from + N),
{
    let mut i: usize = 0;
    while i < N
        invariant
            i <= N,
            from + N <= src.len(),
            dst@.len() == N,
            forall|q: int| 0 <= q < i ==> #[trigger] dst@[q] == src@[from + q],
        decreases N - i,
    {
        dst[i] = src[from + i];
        i = i + 1;
    }
    assert(dst@ =~= src@.subrange(from as int, from + N));
}

fn be_store_u64(out: &mut [u8], off: usize, v: u64)
    requires
        off + 8 <= old(out)@.len(),
    ensures
        final(out)@ == old(out)@.subrange(0, off as int) + be64_bytes(v) + old(out)@.subrange(
            off + 8,
            old(out)@.len() as int,
        ),
{
    let ghost o0 = out@;
    out[off] = (v >> 56u64) as u8;
    out[off + 1] = (v >> 48u64) as u8;
    out[off + 2] = (v >> 40u64) as u8;
    out[off + 3] = (v >> 32u64) as u8;
    out[off + 4] = (v >> 24u64) as u8;
    out[off + 5] = (v >> 16u64) as u8;
    out[off + 6] = (v >> 8u64) as u8;
    out[off + 7] = v as u8;
    assert(out@ =~= o0.subrange(0, off as int) + be64_bytes(v) + o0.subrange(off + 8, o0.len() as int));
}

fn be_load_u64(input: &[u8], off: usize) -> (r: u64)
    requires
        off + 8 <= input@.len(),
    ensures
        r == be64_at(input@, off as int),
{
    (input[off] as u64) << 56u64 | (input[off + 1] as u64) << 48u64 | (input[off + 2] as u64)
        << 40u64 | (input[off + 3] as u64) << 32u64 | (input[off + 4] as u64) << 24u64 | (input[off
        + 5] as u64) << 16u64 | (input[off + 6] as u64) << 8u64 | (input[off + 7] as u64)
}

fn be_store_u32(out: &mut [u8], off: usize, v: u32)
    requires
        off + 4 <= old(out)@.len(),
    ensures
        final(out)@ == old(out)@.subrange(0, off as int) + be32_bytes(v) + old(out)@.subrange(
            off + 4,
            old(out)@.len() as int,
        ),
{
    let ghost o0 = out@;
    out[off] = (v >> 24u32) as u8;
    out[off + 1] = (v >> 16u32) as u8;
    out[off + 2] = (v >> 8u32) as u8;
    out[off + 3] = v as u8;
    assert(out@ =~= o0.subrange(0, off as int) + be32_bytes(v) + o0.subrange(off + 4, o0.len() as int));
}

fn be_load_u32(input: &[u8], off: usize) -> (r: u32)
    requires
        off + 4 <= input@.len(),
    ensures
        r == be32_at(input@, off as int),
{
    (input[off] as u32) << 24u32 | (input[off + 1] as u32) << 16u32 | (input[off + 2] as u32)
        << 8u32 | (input[off + 3] as u32)
}

/// A session whose counters are below `MAX_FRAMES` and whose role is 0 or 1 survives packing
/// and unpacking: the blob is accepted and every field comes back as it was.
pub proof fn lemma_pack_unpack(s: TunnelSession, rest: Seq<u8>)
    requires
        s.txs < MAX_FRAMES,
        s.rxs < MAX_FRAMES,
        s.is_client <= 1,
        rest.len() >= 8,
    ensures
        blob_accepted(session_blob(s) + rest),
        forall|s2: TunnelSession| holds_blob(s2, session_blob(s) + rest) ==> s2 == s,
{
    let b = session_blob(s) + rest;
    lemma_be64_value(SESSION_PACK_HEADER_U64);
    lemma_be64_value(s.txs);
    lemma_be64_value(s.rxs);
    lemma_be32_value(s.epoch);
    lemma_be32_value(s.is_client);
    lemma_be64_value(s.rekey_interval);
    assert(b.subrange(0, 8) =~= be64_bytes(SESSION_PACK_HEADER_U64));
    assert(b.subrange(160, 168) =~= be64_bytes(s.txs));
    assert(b.subrange(168, 176) =~= be64_bytes(s.rxs));
    assert(b.subrange(192, 196) =~= be32_bytes(s.epoch));
    assert(b.subrange(196, 200) =~= be32_bytes(s.is_client));
    assert(b.subrange(200, 208) =~= be64_bytes(s.rekey_interval));
    assert(be64_at(b, 0) == be64_at(be64_bytes(SESSION_PACK_HEADER_U64), 0));
    assert(be64_at(b, 160) == be64_at(be64_bytes(s.txs), 0));
    assert(be64_at(b, 168) == be64_at(be64_bytes(s.rxs), 0));
    assert(be32_at(b, 192) == be32_at(be32_bytes(s.epoch), 0));
    assert(be32_at(b, 196) == be32_at(be32_bytes(s.is_client), 0));
    assert(be64_at(b, 200) == be64_at(be64_bytes(s.rekey_interval), 0));
    assert(b.subrange(8, 40) =~= s.txe@);
    assert(b.subrange(40, 72) =~= s.txm@);
    assert(b.subrange(72, 104) =~= s.rxe@);
    assert(b.subrange(104, 136) =~= s.rxm@);
    assert(b.subrange(136, 148) =~= s.txb@);
    assert(b.subrange(148, 160) =~= s.rxb@);
    assert(b.subrange(176, 192) =~= s.session_id@);
    assert forall|s2: TunnelSession| holds_blob(s2, b) implies s2 == s by {
        assert(s2.txe =~= s.txe);
        assert(s2.txm =~= s.txm);
        assert(s2.rxe =~= s.rxe);
        assert(s2.rxm =~= s.rxm);
        assert(s2.txb =~= s.txb);
        assert(s2.rxb =~= s.rxb);
        assert(s2.session_id =~= s.session_id);
    }
}

/// Layout of a packed session: the 8-byte big-endian header 0x4632303353310001, the transmit
/// and receive encryption and MAC keys at 8, 40, 72 and 104, the transmit and receive nonce
/// bases at 136 and 148, the transmit and receive counters (big-endian) at 160 and 168, the
/// session id at 176, the epoch and role (big-endian) at 192 and 196, and the rekey interval
/// (big-endian) at 200, 208 bytes in all.
pub proof fn lemma_session_blob_layout(s: TunnelSession)
    ensures
        ({
            let b = session_blob(s);
            &&& b.len() == 208
            &&& be64_at(b, 0) == 0x4632_3033_5331_0001u64
            &&& b.subrange(8, 40) == s.txe@
            &&& b.subrange(40, 72) == s.txm@
            &&& b.subrange(72, 104) == s.rxe@
            &&& b.subrange(104, 136) == s.rxm@
            &&& b.subrange(136, 148) == s.txb@
            &&& b.subrange(148, 160) == s.rxb@
            &&& be64_at(b, 160) == s.txs
            &&& be64_at(b, 168) == s.rxs
            &&& b.subrange(176, 192) == s.session_id@
            &&& be32_at(b, 192) == s.epoch
            &&& be32_at(b, 196) == s.is_client
            &&& be64_at(b, 200) == s.rekey_interval
        }),
{
    let b = session_blob(s);
    lemma_be64_value(SESSION_PACK_HEADER_U64);
    lemma_be64_value(s.txs);
    lemma_be64_value(s.rxs);
    lemma_be32_value(s.epoch);
    lemma_be32_value(s.is_client);
    lemma_be64_value(s.rekey_interval);
    assert(b.subrange(0, 8) =~= be64_bytes(SESSION_PACK_HEADER_U64));
    assert(b.subrange(160, 168) =~= be64_bytes(s.txs));
    assert(b.subrange(168, 176) =~= be64_bytes(s.rxs));
    assert(b.subrange(192, 196) =~= be32_bytes(s.epoch));
    assert(b.subrange(196, 200) =~= be32_bytes(s.is_client));
    assert(b.subrange(200, 208) =~= be64_bytes(s.rekey_interval));
    assert(be64_at(b, 0) == be64_at(be64_bytes(SESSION_PACK_HEADER_U64), 0));
    assert(be64_at(b, 160) == be64_at(be64_bytes(s.txs), 0));
    assert(be64_at(b, 168) == be64_at(be64_bytes(s.rxs), 0));
    assert(be32_at(b, 192) == be32_at(be32_bytes(s.epoch), 0));
    assert(be32_at(b, 196) == be32_at(be32_bytes(s.is_client), 0));
    assert(be64_at(b, 200) == be64_at(be64_bytes(s.rekey_interval), 0));
    assert(b.subrange(8, 40) =~= s.txe@);
    assert(b.subrange(40, 72) =~= s.txm@);
    assert(b.subrange(72, 104) =~= s.rxe@);
    assert(b.subrange(104, 136) =~= s.rxm@);
    assert(b.subrange(136, 148) =~= s.txb@);
    assert(b.subrange(148, 160) =~= s.rxb@);
    assert(b.subrange(176, 192) =~= s.session_id@);
}

} // verus!
