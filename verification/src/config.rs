//! The tunnel's run-time configuration: PSK, peer labels, rekey and queue settings, and how
//! they are read from their textual values.
use vstd::prelude::*;
use vstd::string::StringSliceAdditionalSpecFns;

use crate::frame::MAX_MSG;
use crate::settings::{
    flag_setting, flag_value, handshake_config_from_values, handshake_from_values,
    handshake_values_ok, opt_bytes, parse_dec, parse_unsigned, rekey_interval_from,
    rekey_interval_value, u64_setting, u64_setting_value,
};
use crate::tunnel::{
    HandshakeConfig, DEFAULT_REKEY_ACK_TIMEOUT_SECS, DEFAULT_REKEY_INTERVAL,
    DEFAULT_WIRE_READ_TIMEOUT_SECS, PEER_ID_SIZE,
};

verus! {

/// Size of a peer label.
pub const ID_SIZE: usize = PEER_ID_SIZE;

/// Queue depth when none is configured.
pub const QUEUE_DEPTH_DEFAULT: usize = 64;

/// The largest queue depth ever used.
pub const QUEUE_DEPTH_HARD_MAX: usize = 4096;

/// Memory budget of one plaintext queue when none is configured (32 MiB).
pub const QUEUE_BYTES_DEFAULT: usize = 33554432;

/// Bytes one queued plaintext takes: a length word and the largest plaintext.
pub const QUEUE_SLOT_BYTES: usize = 4 + MAX_MSG;

/// The settings of a tunnel end that its configuration's clones share. The PSK is wiped when
/// the last holder goes.
#[derive(Debug)]
pub struct TunnelSecrets {
    pub psk: [u8; 32],
    pub client_id: [u8; ID_SIZE],
    pub server_id: [u8; ID_SIZE],
    pub rekey_interval: u64,
    pub rekey_ack_timeout_secs: u64,
    pub wire_read_timeout_secs: u64,
    pub queue_depth: usize,
    pub queue_clamped: bool,
    pub mlock_psk: bool,
}

impl Drop for TunnelSecrets {
    fn drop(&mut self)
        opens_invariants none
        no_unwind
    {
        let mut i: usize = 0;
        while i < 32
            invariant
                i <= 32,
            decreases 32 - i,
        {
            self.psk[i] = 0;
            i = i + 1;
        }
        crate::secrets::store_fence();
    }
}

/// Calls `std::sync::Arc::get_mut`: a mutable reference to the shared settings when `a` is
/// their only holder, `None` otherwise. Whether other holders exist is not visible to Verus,
/// so the contract states what holds in either case: `None` leaves `a` as it is, and a
/// returned reference starts at the shared value and is what `a` then holds.
#[verifier::external_body]
fn arc_get_mut(a: &mut std::sync::Arc<TunnelSecrets>) -> (r: Option<&mut TunnelSecrets>)
    ensures
        r is None ==> *final(a) == *old(a),
        r matches Some(m) ==> *m == **old(a) && **final(a) == *final(m),
{
    std::sync::Arc::get_mut(a)
}

/// Run-time configuration of a tunnel end. Clones share one set of settings: the PSK is
/// never copied into a second buffer.
#[derive(Clone, Debug)]
pub struct TunnelConfig {
    inner: std::sync::Arc<TunnelSecrets>,
}

impl TunnelConfig {
    /// The shared settings.
    pub closed spec fn secrets(&self) -> TunnelSecrets {
        *self.inner
    }

    /// A configuration with the given PSK and labels and every other setting at its default.
    pub fn new(psk: [u8; 32], client_id: [u8; ID_SIZE], server_id: [u8; ID_SIZE]) -> (r: Self)
        ensures
            r.secrets().psk == psk,
            r.secrets().client_id == client_id,
            r.secrets().server_id == server_id,
            r.secrets().rekey_interval == DEFAULT_REKEY_INTERVAL,
            r.secrets().rekey_ack_timeout_secs == DEFAULT_REKEY_ACK_TIMEOUT_SECS,
            r.secrets().wire_read_timeout_secs == DEFAULT_WIRE_READ_TIMEOUT_SECS,
            r.secrets().queue_depth == QUEUE_DEPTH_DEFAULT,
            !r.secrets().queue_clamped,
            !r.secrets().mlock_psk,
    {
        TunnelConfig {
            inner: std::sync::Arc::new(
                TunnelSecrets {
                    psk,
                    client_id,
                    server_id,
                    rekey_interval: DEFAULT_REKEY_INTERVAL,
                    rekey_ack_timeout_secs: DEFAULT_REKEY_ACK_TIMEOUT_SECS,
                    wire_read_timeout_secs: DEFAULT_WIRE_READ_TIMEOUT_SECS,
                    queue_depth: QUEUE_DEPTH_DEFAULT,
                    queue_clamped: false,
                    mlock_psk: false,
                },
            ),
        }
    }

    /// The pre-shared key.
    pub fn psk(&self) -> (r: &[u8; 32])
        ensures
            *r == self.secrets().psk,
    {
        &self.inner.psk
    }

    /// The client's label.
    pub fn client_id(&self) -> (r: &[u8; ID_SIZE])
        ensures
            *r == self.secrets().client_id,
    {
        &self.inner.client_id
    }

    /// The server's label.
    pub fn server_id(&self) -> (r: &[u8; ID_SIZE])
        ensures
            *r == self.secrets().server_id,
    {
        &self.inner.server_id
    }

    /// Frames the client sends before it asks for a rekey.
    pub fn rekey_interval(&self) -> (r: u64)
        ensures
            r == self.secrets().rekey_interval,
    {
        self.inner.rekey_interval
    }

    /// Seconds to wait for a rekey acknowledgement.
    pub fn rekey_ack_timeout_secs(&self) -> (r: u64)
        ensures
            r == self.secrets().rekey_ack_timeout_secs,
    {
        self.inner.rekey_ack_timeout_secs
    }

    /// Seconds to wait for one wire frame (0: no deadline).
    pub fn wire_read_timeout_secs(&self) -> (r: u64)
        ensures
            r == self.secrets().wire_read_timeout_secs,
    {
        self.inner.wire_read_timeout_secs
    }

    /// Depth of each plaintext queue.
    pub fn queue_depth(&self) -> (r: usize)
        ensures
            r == self.secrets().queue_depth,
    {
        self.inner.queue_depth
    }

    /// Whether the requested queue depth was lowered to fit the limits.
    pub fn queue_clamped(&self) -> (r: bool)
        ensures
            r == self.secrets().queue_clamped,
    {
        self.inner.queue_clamped
    }

    /// Whether the PSK is to be pinned in memory.
    pub fn mlock_psk(&self) -> (r: bool)
        ensures
            r == self.secrets().mlock_psk,
    {
        self.inner.mlock_psk
    }

    /// The PSK and labels as handshake settings.
    pub fn handshake(&self) -> (r: HandshakeConfig)
        ensures
            r.psk == self.secrets().psk,
            r.client_id == self.secrets().client_id,
            r.server_id == self.secrets().server_id,
    {
        HandshakeConfig {
            psk: self.inner.psk,
            client_id: self.inner.client_id,
            server_id: self.inner.server_id,
        }
    }

    /// Replaces the rekey interval when this is the only holder of the shared settings; while
    /// other clones are alive nothing changes. Every other setting stays as it is either way.
    pub fn set_rekey_interval(&mut self, n: u64)
        ensures
            final(self).secrets().rekey_interval == n || final(self).secrets().rekey_interval
                == old(self).secrets().rekey_interval,
            final(self).secrets().psk == old(self).secrets().psk,
            final(self).secrets().client_id == old(self).secrets().client_id,
            final(self).secrets().server_id == old(self).secrets().server_id,
            final(self).secrets().rekey_ack_timeout_secs == old(self).secrets().rekey_ack_timeout_secs,
            final(self).secrets().wire_read_timeout_secs == old(self).secrets().wire_read_timeout_secs,
            final(self).secrets().queue_depth == old(self).secrets().queue_depth,
            final(self).secrets().queue_clamped == old(self).secrets().queue_clamped,
            final(self).secrets().mlock_psk == old(self).secrets().mlock_psk,
    {
        match arc_get_mut(&mut self.inner) {
            Some(s) => {
                s.rekey_interval = n;
            },
            None => {},
        }
    }
}

/// Why the queue settings were refused.
#[derive(Debug, Clone, Copy, PartialEq, Eq, Structural)]
pub enum QueueError {
    MaxBytesInvalid,
    MaxBytesTooSmall,
    MaxMbInvalid,
    MaxMbOutOfRange,
    BudgetTooSmall,
}

impl QueueError {
    /// A short human-readable description.
    pub fn message(&self) -> (r: &'static str)
        ensures
            *self == QueueError::MaxBytesInvalid ==> r == "TUNNEL_MAX_QUEUE_BYTES invalid",
            *self == QueueError::MaxBytesTooSmall ==> r == "TUNNEL_MAX_QUEUE_BYTES too small",
            *self == QueueError::MaxMbInvalid ==> r == "TUNNEL_MAX_QUEUE_MB invalid",
            *self == QueueError::MaxMbOutOfRange ==> r == "TUNNEL_MAX_QUEUE_MB out of range",
            *self == QueueError::BudgetTooSmall ==> r == "queue memory budget too small",
    {
        match self {
            QueueError::MaxBytesInvalid => "TUNNEL_MAX_QUEUE_BYTES invalid",
            QueueError::MaxBytesTooSmall => "TUNNEL_MAX_QUEUE_BYTES too small",
            QueueError::MaxMbInvalid => "TUNNEL_MAX_QUEUE_MB invalid",
            QueueError::MaxMbOutOfRange => "TUNNEL_MAX_QUEUE_MB out of range",
            QueueError::BudgetTooSmall => "queue memory budget too small",
        }
    }
}

/// The queue depth asked for: a depth of 2 to `QUEUE_DEPTH_HARD_MAX`, else the default.
pub open spec fn wanted_depth(depth: Option<Seq<u8>>) -> nat {
    if depth matches Some(d) && parse_unsigned(d, usize::MAX as nat) matches Some(n) && 2 <= n
        <= QUEUE_DEPTH_HARD_MAX {
        parse_unsigned(depth->0, usize::MAX as nat)->0
    } else {
        QUEUE_DEPTH_DEFAULT as nat
    }
}

/// The memory budget of a queue: the byte limit when it is set (and not empty), else the MiB
/// limit when that is set (and not empty), else the default.
pub open spec fn queue_budget(max_bytes: Option<Seq<u8>>, max_mb: Option<Seq<u8>>) -> core::result::Result<
    nat,
    QueueError,
> {
    if max_bytes matches Some(b) && b.len() > 0 {
        match parse_unsigned(max_bytes->0, usize::MAX as nat) {
            None => Err(QueueError::MaxBytesInvalid),
            Some(v) => if v < 2 * QUEUE_SLOT_BYTES {
                Err(QueueError::MaxBytesTooSmall)
            } else {
                Ok(v)
            },
        }
    } else if max_bytes is None && (max_mb matches Some(m) && m.len() > 0) {
        match parse_unsigned(max_mb->0, usize::MAX as nat) {
            None => Err(QueueError::MaxMbInvalid),
            Some(m) => if m == 0 || m > 1024 {
                Err(QueueError::MaxMbOutOfRange)
            } else {
                Ok(m * 1048576)
            },
        }
    } else {
        Ok(QUEUE_BYTES_DEFAULT as nat)
    }
}

/// The smaller of two numbers.
pub open spec fn min_nat(a: nat, b: nat) -> nat {
    if a <= b {
        a
    } else {
        b
    }
}

/// The queue depth and whether it was clamped: the wanted depth, lowered to what the budget
/// holds and to the hard maximum.
pub open spec fn queue_depth_spec(
    depth: Option<Seq<u8>>,
    max_bytes: Option<Seq<u8>>,
    max_mb: Option<Seq<u8>>,
) -> core::result::Result<(usize, bool), QueueError> {
    match queue_budget(max_bytes, max_mb) {
        Err(e) => Err(e),
        Ok(b) => {
            let mem = b / (QUEUE_SLOT_BYTES as nat);
            if mem < 2 {
                Err(QueueError::BudgetTooSmall)
            } else {
                let want = wanted_depth(depth);
                let eff = min_nat(min_nat(want, mem), QUEUE_DEPTH_HARD_MAX as nat);
                Ok((eff as usize, eff != want))
            }
        },
    }
}

/// The queue depth from the depth setting and the two memory limits (bytes, then MiB).
pub fn configure_queue_depth(
    depth: Option<&str>,
    max_bytes: Option<&str>,
    max_mb: Option<&str>,
) -> (r: core::result::Result<(usize, bool), QueueError>)
    ensures
        r == queue_depth_spec(opt_bytes(depth), opt_bytes(max_bytes), opt_bytes(max_mb)),
{
    let mut want: usize = QUEUE_DEPTH_DEFAULT;
    if let Some(dv) = depth {
        if let Some(d) = parse_dec(dv.as_bytes(), usize::MAX as u64) {
            if 2 <= d && d <= 4096 {
                want = d as usize;
            }
        }
    }
    assert(want == wanted_depth(opt_bytes(depth)));
    let mut max_bytes_v: usize = QUEUE_BYTES_DEFAULT;
    let mut from_bytes = false;
    if let Some(be) = max_bytes {
        if be.as_bytes().len() > 0 {
            from_bytes = true;
            match parse_dec(be.as_bytes(), usize::MAX as u64) {
                None => {
                    return Err(QueueError::MaxBytesInvalid);
                },
                Some(v) => {
                    if v < 2 * (QUEUE_SLOT_BYTES as u64) {
                        return Err(QueueError::MaxBytesTooSmall);
                    }
                    max_bytes_v = v as usize;
                },
            }
        }
    } else if let Some(mb) = max_mb {
        if mb.as_bytes().len() > 0 {
            match parse_dec(mb.as_bytes(), usize::MAX as u64) {
                None => {
                    return Err(QueueError::MaxMbInvalid);
                },
                Some(m) => {
                    if m == 0 || m > 1024 {
                        return Err(QueueError::MaxMbOutOfRange);
                    }
                    max_bytes_v = (m as usize) * 1048576;
                },
            }
        }
    }
    assert(queue_budget(opt_bytes(max_bytes), opt_bytes(max_mb)) == Ok::<nat, QueueError>(
        max_bytes_v as nat,
    ));
    let max_depth_mem = max_bytes_v / QUEUE_SLOT_BYTES;
    if max_depth_mem < 2 {
        return Err(QueueError::BudgetTooSmall);
    }
    let mut eff = want;
    if max_depth_mem < eff {
        eff = max_depth_mem;
    }
    if QUEUE_DEPTH_HARD_MAX < eff {
        eff = QUEUE_DEPTH_HARD_MAX;
    }
    Ok((eff, eff != want))
}

/// Why a port number was refused.
#[derive(Debug, Clone, Copy, PartialEq, Eq, Structural)]
pub enum PortError {
    InvalidPort,
}

impl PortError {
    /// A short human-readable description.
    pub fn message(&self) -> (r: &'static str)
        ensures
            r == "invalid port",
    {
        "invalid port"
    }
}

/// A TCP port: a decimal `u32` (as `str::parse` reads it) from 1 to 65535.
pub open spec fn port_value(s: Seq<u8>) -> Option<u16> {
    match parse_unsigned(s, u32::MAX as nat) {
        Some(p) => if 1 <= p <= 65535 {
            Some(p as u16)
        } else {
            None
        },
        None => None,
    }
}

/// Reads a TCP port.
pub fn parse_port(s: &str) -> (r: core::result::Result<u16, PortError>)
    ensures
        match port_value(s.spec_bytes()) {
            Some(p) => r == Ok::<u16, PortError>(p),
            None => r == Err::<u16, PortError>(PortError::InvalidPort),
        },
{
    match parse_dec(s.as_bytes(), 0xffff_ffff) {
        Some(p) => {
            if p == 0 || p > 65535 {
                Err(PortError::InvalidPort)
            } else {
                Ok(p as u16)
            }
        },
        None => Err(PortError::InvalidPort),
    }
}

/// The textual values of the tunnel's settings, each `None` when it is not set.
#[derive(Clone, Debug)]
pub struct TunnelEnvValues {
    pub psk_hex: Option<String>,
    pub client_id: Option<String>,
    pub server_id: Option<String>,
    pub rekey_interval: Option<String>,
    pub rekey_ack_timeout_secs: Option<String>,
    pub wire_read_timeout_secs: Option<String>,
    pub mlock: Option<String>,
    pub queue_depth: Option<String>,
    pub max_queue_bytes: Option<String>,
    pub max_queue_mb: Option<String>,
}

/// The bytes of an optional owned string.
pub open spec fn opt_string_bytes(v: Option<String>) -> Option<Seq<u8>> {
    match v {
        Some(s) => Some(vstd::utf8::encode_utf8(s@)),
        None => None,
    }
}

fn as_opt_str(v: &Option<String>) -> (r: Option<&str>)
    ensures
        opt_bytes(r) == opt_string_bytes(*v),
{
    match v {
        Some(s) => Some(s.as_str()),
        None => None,
    }
}

/// Why the configuration was refused.
#[derive(Debug, Clone, Copy, PartialEq, Eq, Structural)]
pub enum ConfigError {
    Handshake,
    Queue(QueueError),
}

impl ConfigError {
    /// A short human-readable description.
    pub fn message(&self) -> (r: &'static str)
        ensures
            *self == ConfigError::Handshake ==> r == "handshake env vars invalid",
            *self == ConfigError::Queue(QueueError::MaxBytesInvalid) ==> r
                == "TUNNEL_MAX_QUEUE_BYTES invalid",
            *self == ConfigError::Queue(QueueError::MaxBytesTooSmall) ==> r
                == "TUNNEL_MAX_QUEUE_BYTES too small",
            *self == ConfigError::Queue(QueueError::MaxMbInvalid) ==> r == "TUNNEL_MAX_QUEUE_MB invalid",
            *self == ConfigError::Queue(QueueError::MaxMbOutOfRange) ==> r
                == "TUNNEL_MAX_QUEUE_MB out of range",
            *self == ConfigError::Queue(QueueError::BudgetTooSmall) ==> r
                == "queue memory budget too small",
    {
        match self {
            ConfigError::Handshake => "handshake env vars invalid",
            ConfigError::Queue(q) => q.message(),
        }
    }
}

/// The configuration from the settings' textual values: the handshake values must be valid
/// (else `Handshake`), then the queue settings (else their `Queue` error); the rekey interval,
/// the timeouts and the PSK locking flag fall back to their defaults.
pub fn config_from_values(v: &TunnelEnvValues) -> (r: core::result::Result<TunnelConfig, ConfigError>)
    ensures
        ({
            let psk = opt_string_bytes(v.psk_hex);
            let cid = opt_string_bytes(v.client_id);
            let sid = opt_string_bytes(v.server_id);
            let q = queue_depth_spec(
                opt_string_bytes(v.queue_depth),
                opt_string_bytes(v.max_queue_bytes),
                opt_string_bytes(v.max_queue_mb),
            );
            if !handshake_values_ok(psk, cid, sid) {
                r == Err::<TunnelConfig, ConfigError>(ConfigError::Handshake)
            } else if q is Err {
                r == Err::<TunnelConfig, ConfigError>(ConfigError::Queue(q->Err_0))
            } else {
                r matches Ok(c) && {
                    &&& handshake_from_values(
                        HandshakeConfig {
                            psk: c.secrets().psk,
                            client_id: c.secrets().client_id,
                            server_id: c.secrets().server_id,
                        },
                        psk->0,
                        cid->0,
                        sid->0,
                    )
                    &&& c.secrets().rekey_interval == rekey_interval_value(opt_string_bytes(v.rekey_interval))
                    &&& c.secrets().rekey_ack_timeout_secs == u64_setting_value(
                        opt_string_bytes(v.rekey_ack_timeout_secs),
                        DEFAULT_REKEY_ACK_TIMEOUT_SECS,
                    )
                    &&& c.secrets().wire_read_timeout_secs == u64_setting_value(
                        opt_string_bytes(v.wire_read_timeout_secs),
                        DEFAULT_WIRE_READ_TIMEOUT_SECS,
                    )
                    &&& c.secrets().mlock_psk == flag_value(opt_string_bytes(v.mlock))
                    &&& c.secrets().queue_depth == q->Ok_0.0
                    &&& c.secrets().queue_clamped == q->Ok_0.1
                }
            }
        }),
{
    let hs = match handshake_config_from_values(
        as_opt_str(&v.psk_hex),
        as_opt_str(&v.client_id),
        as_opt_str(&v.server_id),
    ) {
        Ok(h) => h,
        Err(_) => {
            return Err(ConfigError::Handshake);
        },
    };
    let rekey_interval = rekey_interval_from(as_opt_str(&v.rekey_interval));
    let rekey_ack_timeout_secs = u64_setting(
        as_opt_str(&v.rekey_ack_timeout_secs),
        DEFAULT_REKEY_ACK_TIMEOUT_SECS,
    );
    let wire_read_timeout_secs = u64_setting(
        as_opt_str(&v.wire_read_timeout_secs),
        DEFAULT_WIRE_READ_TIMEOUT_SECS,
    );
    let mlock_psk = flag_setting(as_opt_str(&v.mlock));
    let (queue_depth, queue_clamped) = match configure_queue_depth(
        as_opt_str(&v.queue_depth),
        as_opt_str(&v.max_queue_bytes),
        as_opt_str(&v.max_queue_mb),
    ) {
        Ok(q) => q,
        Err(e) => {
            return Err(ConfigError::Queue(e));
        },
    };
    Ok(
        TunnelConfig {
            inner: std::sync::Arc::new(
                TunnelSecrets {
                    psk: hs.psk,
                    client_id: hs.client_id,
                    server_id: hs.server_id,
                    rekey_interval,
                    rekey_ack_timeout_secs,
                    wire_read_timeout_secs,
                    queue_depth,
                    queue_clamped,
                    mlock_psk,
                },
            ),
        },
    )
}

} // verus!
