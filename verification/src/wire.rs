//! Length-prefixed framing of records on a byte stream: a 16-byte header (plaintext length,
//! sequence number, epoch), the ciphertext and the tag. The caller reads the stream; these
//! functions decide how much to read and where it goes.
use vstd::prelude::*;

use crate::byteorder::{be32_at, be32_bytes, lemma_be32_value};
use crate::error::{Error, Result};
use crate::frame::{
    frame_nonce, frame_tag, header_bytes, keystream, seal_spec, xor_bytes, TunnelSession, MAX_MSG,
    MAX_WIRE, TAG,
};

verus! {

/// A receive buffer can hold any frame.
pub fn wire_capacity_ok(len: usize) -> (r: bool)
    ensures
        r == (len >= MAX_WIRE),
{
    len >= MAX_WIRE
}

/// The size of the whole frame announced by a header, when it is acceptable.
pub open spec fn wire_total_spec(header: Seq<u8>, wire_len: nat) -> Result<usize> {
    let n = be32_at(header, 0);
    if wire_len < MAX_WIRE {
        Err(Error::BufferTooSmall)
    } else if n > MAX_MSG {
        Err(Error::Length)
    } else if 16 + n + TAG > wire_len {
        Err(Error::BufferTooSmall)
    } else {
        Ok((16 + n + TAG) as usize)
    }
}

/// After the 16 header bytes of a frame have been read: checks the announced length, stores
/// the header at the start of `wire`, and returns the size of the whole frame; the caller then
/// reads the rest of it into `wire[16..total]`. A buffer smaller than `MAX_WIRE` or an
/// announced length over `MAX_MSG` is refused, and `wire` is left as it is.
pub fn begin_wire_frame(header: &[u8; 16], wire: &mut [u8]) -> (r: Result<usize>)
    ensures
        r == wire_total_spec(header@, old(wire)@.len()),
        r is Ok ==> final(wire)@ == header@ + old(wire)@.skip(16),
        r is Err ==> final(wire)@ == old(wire)@,
{
    if !wire_capacity_ok(wire.len()) {
        return Err(Error::BufferTooSmall);
    }
    let lb: [u8; 4] = [header[0], header[1], header[2], header[3]];
    let n = crate::tunnel::u32_be(&lb);
    assert(n == be32_at(header@, 0));
    if n as usize > MAX_MSG {
        return Err(Error::Length);
    }
    let total = 16 + n as usize + TAG;
    if total > wire.len() {
        return Err(Error::BufferTooSmall);
    }
    crate::util::copy_into(wire, 0, header, 0, 16);
    assert(header@.subrange(0, 16) =~= header@);
    assert(wire@ =~= header@ + old(wire)@.skip(16));
    Ok(total)
}

/// The header of a sealed frame announces exactly that frame: a receive buffer of at least
/// `MAX_WIRE` bytes accepts it, and the total read is the frame's own length.
pub proof fn lemma_sealed_frame_total(s: TunnelSession, p: Seq<u8>, wire_len: nat)
    requires
        p.len() <= MAX_MSG,
        wire_len >= MAX_WIRE,
    ensures
        wire_total_spec(seal_spec(s, p).take(16), wire_len) == Ok::<usize, Error>(
            seal_spec(s, p).len() as usize,
        ),
{
    let n = p.len();
    let hdr = header_bytes(n as u32, s.txs, s.epoch);
    let c = xor_bytes(p, keystream(s.txe@, frame_nonce(s.txb@, s.txs), n));
    let w = seal_spec(s, p);
    assert(frame_tag(s.txm@, hdr + s.session_id@, c).len() == 16) by {
        crate::fips202::lemma_sha3_256_len(s.txm@ + (hdr + s.session_id@) + c);
    }
    lemma_be32_value(n as u32);
    assert(w.take(16) =~= hdr);
    assert(hdr.subrange(0, 4) =~= be32_bytes(n as u32));
    assert(be32_at(hdr, 0) == be32_at(be32_bytes(n as u32), 0));
}

/// A sealed frame written to a stream is read back whole into any receive buffer of at least
/// `MAX_WIRE` bytes: its header is accepted with the frame's own length, and once
/// `begin_wire_frame` has stored the header and the rest of the frame is read into
/// `wire[16..total]`, the buffer starts with exactly the sealed frame and keeps its old bytes
/// after it.
pub proof fn lemma_frame_read_roundtrip(s: TunnelSession, p: Seq<u8>, wire0: Seq<u8>)
    requires
        p.len() <= MAX_MSG,
        wire0.len() >= MAX_WIRE,
    ensures
        ({
            let w = seal_spec(s, p);
            let begun = w.take(16) + wire0.skip(16);
            &&& wire_total_spec(w.take(16), wire0.len()) == Ok::<usize, Error>(w.len() as usize)
            &&& 16 <= w.len() <= wire0.len()
            &&& begun.take(16) + w.subrange(16, w.len() as int) + begun.skip(w.len() as int)
                == w + wire0.skip(w.len() as int)
        }),
{
    let w = seal_spec(s, p);
    lemma_sealed_frame_total(s, p, wire0.len());
    let n = be32_at(w.take(16), 0);
    assert(w.len() == 16 + n + TAG);
    let begun = w.take(16) + wire0.skip(16);
    assert(begun.take(16) =~= w.take(16));
    assert(begun.skip(w.len() as int) =~= wire0.skip(w.len() as int));
    assert(w.take(16) + w.subrange(16, w.len() as int) =~= w);
}

} // verus!
