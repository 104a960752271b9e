//! How a live tunnel end behaves once its handshake is done.
use vstd::prelude::*;

verus! {

/// How the background tasks of a tunnel end behave after the handshake.
#[derive(Clone, Copy, Debug, Default, PartialEq, Eq, Structural)]
pub enum LinkMode {
    /// The application drives sending and receiving; nothing is echoed or printed.
    #[default]
    Application,
    /// Received lines are printed and stdin lines are sent (the client of the command line).
    StdinClient,
    /// Received plaintexts are printed and echoed back (the server of the command line).
    EchoServer,
}

impl LinkMode {
    /// The sending task stops after it sends the quit line (stdin client only).
    pub fn stops_tx_on_quit(&self) -> (r: bool)
        ensures
            r == (*self == LinkMode::StdinClient),
    {
        match self {
            LinkMode::StdinClient => true,
            _ => false,
        }
    }

    /// Received plaintexts are sent back to the peer (echo server only).
    pub fn echoes(&self) -> (r: bool)
        ensures
            r == (*self == LinkMode::EchoServer),
    {
        match self {
            LinkMode::EchoServer => true,
            _ => false,
        }
    }

    /// The role named when received plaintexts are printed, if they are.
    pub fn display_role(&self) -> (r: Option<&'static str>)
        ensures
            *self == LinkMode::Application ==> r is None,
            *self == LinkMode::StdinClient ==> r == Some("client"),
            *self == LinkMode::EchoServer ==> r == Some("server"),
    {
        match self {
            LinkMode::StdinClient => Some("client"),
            LinkMode::EchoServer => Some("server"),
            LinkMode::Application => None,
        }
    }

    /// Received plaintexts go to the application's queue (every mode but the echo server).
    pub fn forwards_to_application(&self) -> (r: bool)
        ensures
            r == (*self != LinkMode::EchoServer),
    {
        !self.echoes()
    }
}

} // verus!
