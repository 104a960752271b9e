//! The error type shared by the library.
use vstd::prelude::*;

verus! {

/// Why an operation of this library failed.
#[derive(Debug, Clone, Copy, PartialEq, Eq, Structural)]
pub enum Error {
    InvalidArgument,
    BufferTooSmall,
    Length,
    Crypto,
    NotAscii,
    MsgPack,
}

impl Error {
    /// A short human-readable description of the error.
    pub fn message(&self) -> (r: &'static str)
        ensures
            *self == Error::InvalidArgument ==> r == "invalid argument",
            *self == Error::BufferTooSmall ==> r == "buffer too small",
            *self == Error::Length ==> r == "plaintext or wire length out of range",
            *self == Error::Crypto ==> r == "cryptographic verification failed",
            *self == Error::NotAscii ==> r == "not 7-bit ASCII",
            *self == Error::MsgPack ==> r == "MessagePack encode/decode failed",
    {
        match self {
            Error::InvalidArgument => "invalid argument",
            Error::BufferTooSmall => "buffer too small",
            Error::Length => "plaintext or wire length out of range",
            Error::Crypto => "cryptographic verification failed",
            Error::NotAscii => "not 7-bit ASCII",
            Error::MsgPack => "MessagePack encode/decode failed",
        }
    }
}

/// The result type of this library.
pub type Result<T> = core::result::Result<T, Error>;

} // verus!
