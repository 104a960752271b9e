//! Parsing of the tunnel's textual settings: the hex PSK, the peer labels, decimal numbers as
//! `str::parse` reads them, and the settings built from them.
use vstd::prelude::*;
use vstd::string::StringSliceAdditionalSpecFns;

use crate::error::{Error, Result};
use crate::tunnel::{HandshakeConfig, DEFAULT_REKEY_INTERVAL, PEER_ID_SIZE};

verus! {

/// The value of an ASCII hex digit (either case), if `c` is one.
pub open spec fn hex_value(c: u8) -> Option<u8> {
    if 0x30 <= c <= 0x39 {
        Some((c - 0x30) as u8)
    } else if 0x61 <= c <= 0x66 {
        Some((c - 0x61 + 10) as u8)
    } else if 0x41 <= c <= 0x46 {
        Some((c - 0x41 + 10) as u8)
    } else {
        None
    }
}

/// The value of one hex digit; anything else is a `Length` error.
pub fn hex_nibble(c: u8) -> (r: Result<u8>)
    ensures
        match hex_value(c) {
            Some(v) => r == Ok::<u8, Error>(v),
            None => r == Err::<u8, Error>(Error::Length),
        },
{
    if 0x30 <= c && c <= 0x39 {
        Ok(c - 0x30)
    } else if 0x61 <= c && c <= 0x66 {
        Ok(c - 0x61 + 10)
    } else if 0x41 <= c && c <= 0x46 {
        Ok(c - 0x41 + 10)
    } else {
        Err(Error::Length)
    }
}

/// `s` is 64 hex digits.
pub open spec fn psk_hex_ok(s: Seq<u8>) -> bool {
    s.len() == 64 && forall|i: int| 0 <= i < 64 ==> (#[trigger] hex_value(s[i])) is Some
}

/// Byte `i` of the key written as the hex string `s`: high digit first.
pub open spec fn psk_byte(s: Seq<u8>, i: int) -> u8 {
    (hex_value(s[2 * i])->0 * 16 + hex_value(s[2 * i + 1])->0) as u8
}

/// The 32-byte key written as 64 hex digits; any other length or a non-hex digit is a
/// `Length` error.
pub fn parse_psk_hex(s: &[u8]) -> (r: Result<[u8; 32]>)
    ensures
        psk_hex_ok(s@) ==> (r matches Ok(k) && forall|i: int| 0 <= i < 32 ==> #[trigger] k@[i] == psk_byte(s@, i)),
        !psk_hex_ok(s@) ==> r == Err::<[u8; 32], Error>(Error::Length),
{
    if s.len() != 64 {
        return Err(Error::Length);
    }
    let mut out = [0u8; 32];
    let mut i: usize = 0;
    while i < 32
        invariant
            i <= 32,
            s@.len() == 64,
            forall|q: int| 0 <= q < 2 * i ==> (#[trigger] hex_value(s@[q])) is Some,
            forall|q: int| 0 <= q < i ==> #[trigger] out@[q] == psk_byte(s@, q),
        decreases 32 - i,
    {
        let hi = match hex_nibble(s[2 * i]) {
            Ok(v) => v,
            Err(e) => {
                return Err(e);
            },
        };
        let lo = match hex_nibble(s[2 * i + 1]) {
            Ok(v) => v,
            Err(e) => {
                return Err(e);
            },
        };
        out[i] = hi * 16 + lo;
        i = i + 1;
    }
    Ok(out)
}

/// `v` is a usable peer label: 1 to 32 bytes.
pub open spec fn peer_id_ok(v: Seq<u8>) -> bool {
    0 < v.len() <= PEER_ID_SIZE
}

/// A peer label padded with zero bytes to 32; an empty or longer label is a `Length` error.
pub fn parse_peer_id(v: &[u8]) -> (r: Result<[u8; PEER_ID_SIZE]>)
    ensures
        peer_id_ok(v@) ==> (r matches Ok(id) && id@ == padded_id(v@)),
        !peer_id_ok(v@) ==> r == Err::<[u8; PEER_ID_SIZE], Error>(Error::Length),
{
    if v.len() == 0 || v.len() > PEER_ID_SIZE {
        return Err(Error::Length);
    }
    let mut out = [0u8; PEER_ID_SIZE];
    let ghost z = out@;
    crate::util::copy_into(&mut out, 0, v, 0, v.len());
    proof {
        assert(v@.subrange(0, v@.len() as int) =~= v@);
        assert(out@ =~= padded_id(v@));
    }
    Ok(out)
}

/// The bytes of an optional string setting.
pub open spec fn opt_bytes(v: Option<&str>) -> Option<Seq<u8>> {
    match v {
        Some(s) => Some(s.spec_bytes()),
        None => None,
    }
}

/// A peer label padded with zero bytes to 32.
pub open spec fn padded_id(v: Seq<u8>) -> Seq<u8> {
    v + crate::frame::zeros((PEER_ID_SIZE - v.len()) as nat)
}

/// The handshake settings can be read from these values: all three are set, the PSK is 64
/// hex digits and both labels are 1 to 32 bytes.
pub open spec fn handshake_values_ok(
    psk_hex: Option<Seq<u8>>,
    client_id: Option<Seq<u8>>,
    server_id: Option<Seq<u8>>,
) -> bool {
    &&& psk_hex matches Some(p) && psk_hex_ok(p)
    &&& client_id matches Some(c) && peer_id_ok(c)
    &&& server_id matches Some(s) && peer_id_ok(s)
}

/// `cfg` holds the PSK and labels that these values spell.
pub open spec fn handshake_from_values(
    cfg: HandshakeConfig,
    psk_hex: Seq<u8>,
    client_id: Seq<u8>,
    server_id: Seq<u8>,
) -> bool {
    &&& forall|i: int| 0 <= i < 32 ==> #[trigger] cfg.psk@[i] == psk_byte(psk_hex, i)
    &&& cfg.client_id@ == padded_id(client_id)
    &&& cfg.server_id@ == padded_id(server_id)
}

/// The handshake settings from the PSK hex string and the two peer labels, each `None` when
/// it is not set. A missing or malformed one is a `Length` error.
pub fn handshake_config_from_values(
    psk_hex: Option<&str>,
    client_id: Option<&str>,
    server_id: Option<&str>,
) -> (r: Result<HandshakeConfig>)
    ensures
        !handshake_values_ok(opt_bytes(psk_hex), opt_bytes(client_id), opt_bytes(server_id)) ==> r
            == Err::<HandshakeConfig, Error>(Error::Length),
        handshake_values_ok(opt_bytes(psk_hex), opt_bytes(client_id), opt_bytes(server_id)) ==> (r matches Ok(
            cfg,
        ) && handshake_from_values(
            cfg,
            opt_bytes(psk_hex)->0,
            opt_bytes(client_id)->0,
            opt_bytes(server_id)->0,
        )),
{
    let psk = match psk_hex {
        Some(p) => parse_psk_hex(p.as_bytes())?,
        None => {
            return Err(Error::Length);
        },
    };
    let client_id = match client_id {
        Some(c) => parse_peer_id(c.as_bytes())?,
        None => {
            return Err(Error::Length);
        },
    };
    let server_id = match server_id {
        Some(s) => parse_peer_id(s.as_bytes())?,
        None => {
            return Err(Error::Length);
        },
    };
    Ok(HandshakeConfig { psk, client_id, server_id })
}

/// All bytes of `d` are ASCII decimal digits.
pub open spec fn all_digits(d: Seq<u8>) -> bool {
    forall|i: int| 0 <= i < d.len() ==> 0x30 <= #[trigger] d[i] <= 0x39
}

/// The number that the decimal digits `d` spell.
pub open spec fn digits_value(d: Seq<u8>) -> nat
    decreases d.len(),
{
    if d.len() == 0 {
        0
    } else {
        digits_value(d.drop_last()) * 10 + (d.last() - 0x30) as nat
    }
}

/// The digits of `s` after an optional leading `+`.
pub open spec fn unsigned_digits(s: Seq<u8>) -> Seq<u8> {
    if s.len() > 0 && s[0] == 0x2b {
        s.skip(1)
    } else {
        s
    }
}

/// What `str::parse` gives for an unsigned type whose largest value is `max`: an optional `+`
/// then one or more decimal digits, and a value of at most `max`.
pub open spec fn parse_unsigned(s: Seq<u8>, max: nat) -> Option<nat> {
    let d = unsigned_digits(s);
    if d.len() > 0 && all_digits(d) && digits_value(d) <= max {
        Some(digits_value(d))
    } else {
        None
    }
}

proof fn lemma_digits_prefix(d: Seq<u8>, i: int)
    requires
        0 <= i <= d.len(),
        all_digits(d),
    ensures
        digits_value(d.take(i)) <= digits_value(d),
    decreases d.len(),
{
    if i < d.len() {
        assert(all_digits(d.drop_last()));
        lemma_digits_prefix(d.drop_last(), i);
        assert(d.drop_last().take(i) =~= d.take(i));
    } else {
        assert(d.take(i) =~= d);
    }
}

/// The unsigned decimal number in `s`, as `str::parse` reads it, if it is at most `max`.
pub fn parse_dec(s: &[u8], max: u64) -> (r: Option<u64>)
    ensures
        match parse_unsigned(s@, max as nat) {
            Some(v) => r == Some(v as u64),
            None => r is None,
        },
{
    let start: usize = if s.len() > 0 && s[0] == 0x2b {
        1
    } else {
        0
    };
    let ghost d = unsigned_digits(s@);
    assert(d =~= s@.skip(start as int));
    if start >= s.len() {
        return None;
    }
    let mut acc: u64 = 0;
    let mut i: usize = start;
    assert(d.take(0) =~= Seq::<u8>::empty());
    while i < s.len()
        invariant
            start <= i <= s.len(),
            d == s@.skip(start as int),
            d == unsigned_digits(s@),
            all_digits(d.take(i - start)),
            acc == digits_value(d.take(i - start)),
            acc <= max,
        decreases s.len() - i,
    {
        let c = s[i];
        if c < 0x30 || c > 0x39 {
            assert(d[i - start] == c);
            return None;
        }
        let ghost k = (i - start) as int;
        assert(d.take(k + 1).drop_last() =~= d.take(k));
        assert(all_digits(d.take(k + 1)));
        let dig = (c - 0x30) as u64;
        if dig > max || acc > (max - dig) / 10 {
            proof {
                if dig <= max {
                    assert(acc * 10 + dig > max) by (nonlinear_arith)
                        requires
                            acc > (max - dig) / 10,
                            dig <= max,
                    ;
                }
                if all_digits(d) {
                    lemma_digits_prefix(d, k + 1);
                }
            }
            return None;
        }
        assert(acc * 10 + dig <= max) by (nonlinear_arith)
            requires
                acc <= (max - dig) / 10,
                dig <= max,
        ;
        acc = acc * 10 + dig;
        i = i + 1;
    }
    assert(d.take(i - start) =~= d);
    Some(acc)
}

/// A numeric setting: its value when it is set and reads as a `u64`, else `default`.
pub open spec fn u64_setting_value(v: Option<Seq<u8>>, default: u64) -> u64 {
    match v {
        Some(b) => match parse_unsigned(b, u64::MAX as nat) {
            Some(n) => n as u64,
            None => default,
        },
        None => default,
    }
}

/// A numeric setting read as `str::parse::<u64>` reads it, with `default` when it is unset,
/// empty or malformed.
pub fn u64_setting(v: Option<&str>, default: u64) -> (r: u64)
    ensures
        r == u64_setting_value(opt_bytes(v), default),
{
    match v {
        Some(s) => match parse_dec(s.as_bytes(), u64::MAX) {
            Some(n) => n,
            None => default,
        },
        None => default,
    }
}

/// The rekey interval setting: a positive `u64`, else `DEFAULT_REKEY_INTERVAL`.
pub open spec fn rekey_interval_value(v: Option<Seq<u8>>) -> u64 {
    match v {
        Some(b) => match parse_unsigned(b, u64::MAX as nat) {
            Some(n) => if n > 0 {
                n as u64
            } else {
                DEFAULT_REKEY_INTERVAL
            },
            None => DEFAULT_REKEY_INTERVAL,
        },
        None => DEFAULT_REKEY_INTERVAL,
    }
}

/// The rekey interval from its setting; unset, empty, malformed or zero gives
/// `DEFAULT_REKEY_INTERVAL`.
pub fn rekey_interval_from(v: Option<&str>) -> (r: u64)
    ensures
        r == rekey_interval_value(opt_bytes(v)),
{
    match v {
        Some(s) => match parse_dec(s.as_bytes(), u64::MAX) {
            Some(n) => if n > 0 {
                n
            } else {
                DEFAULT_REKEY_INTERVAL
            },
            None => DEFAULT_REKEY_INTERVAL,
        },
        None => DEFAULT_REKEY_INTERVAL,
    }
}

/// An on/off setting: on exactly when it is set to `1`.
pub open spec fn flag_value(v: Option<Seq<u8>>) -> bool {
    v == Some(seq![0x31u8])
}

/// Reads an on/off setting (`1` is on; anything else, or unset, is off).
pub fn flag_setting(v: Option<&str>) -> (r: bool)
    ensures
        r == flag_value(opt_bytes(v)),
{
    match v {
        Some(s) => {
            let b = s.as_bytes();
            let on = b.len() == 1 && b[0] == 0x31;
            assert(on ==> b@ =~= seq![0x31u8]);
            on
        },
        None => false,
    }
}

} // verus!
