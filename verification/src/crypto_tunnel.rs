//! Record-layer entry points that report failures as `std::io::Error`, for callers that run
//! the tunnel over a stream.
use vstd::prelude::*;

use crate::frame::{open_spec, seal_spec, TunnelSession, MAX_FRAMES, MAX_MSG, MAX_WIRE, TAG};
use crate::tunnel::{open_plain, seal_plain, wire_buffer, TunnelRuntime};

verus! {

#[verifier::external_type_specification]
#[verifier::external_body]
pub struct ExIoError(std::io::Error);

/// The per-connection tunnel state.
pub type SessionHandle = TunnelRuntime;

/// Calls `std::io::Error::other` with the message `msg`. What the error holds is not visible
/// to Verus, so nothing is stated of it.
#[verifier::external_body]
fn io_error(msg: &'static str) -> std::io::Error {
    std::io::Error::other(msg)
}

/// Seals one plaintext frame (see `seal_plain`); every failure becomes an I/O error.
pub fn seal_frame(s: &mut TunnelSession, plain: &[u8], wire: &mut [u8]) -> (r: std::io::Result<usize>)
    ensures
        (plain@.len() > MAX_MSG || old(s).txs >= MAX_FRAMES || old(wire)@.len() < 16 + plain@.len()
            + TAG) ==> r is Err && final(wire)@ == old(wire)@ && *final(s) == *old(s),
        (plain@.len() <= MAX_MSG && old(s).txs < MAX_FRAMES && old(wire)@.len() >= 16
            + plain@.len() + TAG) ==> {
            &&& r matches Ok(n) && n == 16 + plain@.len() + TAG
            &&& final(wire)@ == seal_spec(*old(s), plain@) + old(wire)@.skip(
                16 + plain@.len() + TAG,
            )
            &&& *final(s) == (TunnelSession { txs: (old(s).txs + 1) as u64, ..*old(s) })
        },
{
    match seal_plain(s, plain, wire) {
        Ok(n) => Ok(n),
        Err(_) => Err(io_error("frame_seal")),
    }
}

/// Opens one wire frame (see `open_plain`); every failure becomes an I/O error.
pub fn open_frame(s: &mut TunnelSession, wire: &[u8], plain: &mut [u8]) -> (r: std::io::Result<usize>)
    ensures
        match open_spec(*old(s), wire@, old(plain)@.len()) {
            Ok(p) => {
                &&& r matches Ok(n) && n == p.len()
                &&& final(plain)@ == p + old(plain)@.skip(p.len() as int)
                &&& *final(s) == (TunnelSession { rxs: (old(s).rxs + 1) as u64, ..*old(s) })
            },
            Err(_) => {
                &&& r is Err
                &&& final(plain)@ == old(plain)@
                &&& *final(s) == *old(s)
            },
        },
{
    match open_plain(s, wire, plain) {
        Ok(n) => Ok(n),
        Err(_) => Err(io_error("frame_open")),
    }
}

/// A zeroed buffer of the largest wire frame.
pub fn wire_buf() -> (r: [u8; MAX_WIRE])
    ensures
        r@ == crate::frame::zeros(MAX_WIRE as nat),
{
    wire_buffer()
}

} // verus!
