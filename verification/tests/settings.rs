use fips203_core::config::{configure_queue_depth, config_from_values, ConfigError};
use fips203_core::settings::{
    flag_setting, handshake_config_from_values, hex_nibble, parse_dec, parse_peer_id,
    parse_psk_hex, rekey_interval_from, u64_setting,
};
use fips203_core::{
    parse_port, Error, PortError, QueueError, TunnelConfig, TunnelEnvValues,
    DEFAULT_REKEY_ACK_TIMEOUT_SECS, DEFAULT_REKEY_INTERVAL, DEFAULT_WIRE_READ_TIMEOUT_SECS,
    QUEUE_DEPTH_DEFAULT,
};

const PSK_HEX: &str = "000102030405060708090a0b0c0d0e0f101112131415161718191A1B1C1D1E1F";

fn psk_bytes() -> [u8; 32] {
    let mut k = [0u8; 32];
    for (i, b) in k.iter_mut().enumerate() {
        *b = i as u8;
    }
    k
}

#[test]
fn hex_nibble_values() {
    assert_eq!(hex_nibble(b'0'), Ok(0));
    assert_eq!(hex_nibble(b'9'), Ok(9));
    assert_eq!(hex_nibble(b'a'), Ok(10));
    assert_eq!(hex_nibble(b'F'), Ok(15));
    assert_eq!(hex_nibble(b'g'), Err(Error::Length));
}

#[test]
fn psk_hex_parsing() {
    assert_eq!(parse_psk_hex(PSK_HEX.as_bytes()), Ok(psk_bytes()));
    assert_eq!(parse_psk_hex(&PSK_HEX.as_bytes()[..62]), Err(Error::Length));
    let mut bad = PSK_HEX.as_bytes().to_vec();
    bad[63] = b'z';
    assert_eq!(parse_psk_hex(&bad), Err(Error::Length));
}

#[test]
fn peer_id_parsing() {
    let id = parse_peer_id(b"alice").unwrap();
    assert_eq!(&id[..5], b"alice");
    assert_eq!(&id[5..], &[0u8; 27]);
    assert_eq!(parse_peer_id(b""), Err(Error::Length));
    assert_eq!(parse_peer_id(&[b'x'; 33]), Err(Error::Length));
    assert_eq!(parse_peer_id(&[b'x'; 32]).unwrap(), [b'x'; 32]);
}

#[test]
fn handshake_values() {
    let hs = handshake_config_from_values(Some(PSK_HEX), Some("alice"), Some("bob")).unwrap();
    assert_eq!(hs.psk, psk_bytes());
    assert_eq!(&hs.client_id[..5], b"alice");
    assert_eq!(&hs.server_id[..3], b"bob");
    assert_eq!(
        handshake_config_from_values(None, Some("alice"), Some("bob")).unwrap_err(),
        Error::Length
    );
    assert_eq!(
        handshake_config_from_values(Some(PSK_HEX), Some("alice"), None).unwrap_err(),
        Error::Length
    );
}

#[test]
fn decimal_parsing_follows_str_parse() {
    assert_eq!(parse_dec(b"0", u64::MAX), Some(0));
    assert_eq!(parse_dec(b"+42", u64::MAX), Some(42));
    assert_eq!(parse_dec(b"18446744073709551615", u64::MAX), Some(u64::MAX));
    assert_eq!(parse_dec(b"18446744073709551616", u64::MAX), None);
    assert_eq!(parse_dec(b"", u64::MAX), None);
    assert_eq!(parse_dec(b"+", u64::MAX), None);
    assert_eq!(parse_dec(b"-1", u64::MAX), None);
    assert_eq!(parse_dec(b" 1", u64::MAX), None);
    assert_eq!(parse_dec(b"12x", u64::MAX), None);
    assert_eq!(parse_dec(b"65536", 65535), None);
    for s in ["7", "+7", "0099", "4294967295"] {
        assert_eq!(parse_dec(s.as_bytes(), u64::MAX), s.parse::<u64>().ok());
    }
}

#[test]
fn numeric_settings() {
    assert_eq!(rekey_interval_from(None), DEFAULT_REKEY_INTERVAL);
    assert_eq!(rekey_interval_from(Some("")), DEFAULT_REKEY_INTERVAL);
    assert_eq!(rekey_interval_from(Some("0")), DEFAULT_REKEY_INTERVAL);
    assert_eq!(rekey_interval_from(Some("abc")), DEFAULT_REKEY_INTERVAL);
    assert_eq!(rekey_interval_from(Some("5")), 5);
    assert_eq!(u64_setting(Some("0"), 30), 0);
    assert_eq!(u64_setting(Some("x"), 30), 30);
    assert!(flag_setting(Some("1")));
    assert!(!flag_setting(Some("0")));
    assert!(!flag_setting(None));
}

#[test]
fn queue_depth_settings() {
    assert_eq!(configure_queue_depth(None, None, None), Ok((64, false)));
    assert_eq!(configure_queue_depth(Some("128"), None, None), Ok((128, false)));
    assert_eq!(configure_queue_depth(Some("1"), None, None), Ok((64, false)));
    assert_eq!(configure_queue_depth(Some("5000"), None, None), Ok((64, false)));
    assert_eq!(configure_queue_depth(Some("4096"), None, None), Ok((4096, false)));
    assert_eq!(configure_queue_depth(Some("4096"), None, Some("1")), Ok((255, true)));
    assert_eq!(configure_queue_depth(Some("100"), Some("41000"), None), Ok((10, true)));
    assert_eq!(
        configure_queue_depth(None, Some("8199"), None),
        Err(QueueError::MaxBytesTooSmall)
    );
    assert_eq!(
        configure_queue_depth(None, Some("lots"), None),
        Err(QueueError::MaxBytesInvalid)
    );
    assert_eq!(
        configure_queue_depth(None, None, Some("0")),
        Err(QueueError::MaxMbOutOfRange)
    );
    assert_eq!(
        configure_queue_depth(None, None, Some("1025")),
        Err(QueueError::MaxMbOutOfRange)
    );
    assert_eq!(
        configure_queue_depth(None, None, Some("x")),
        Err(QueueError::MaxMbInvalid)
    );
    assert_eq!(configure_queue_depth(None, Some(""), Some("x")), Ok((64, false)));
    assert_eq!(QueueError::MaxBytesTooSmall.message(), "TUNNEL_MAX_QUEUE_BYTES too small");
}

#[test]
fn port_parsing() {
    assert_eq!(parse_port("9999"), Ok(9999));
    assert_eq!(parse_port("65535"), Ok(65535));
    assert_eq!(parse_port("0"), Err(PortError::InvalidPort));
    assert_eq!(parse_port("65536"), Err(PortError::InvalidPort));
    assert_eq!(parse_port("port"), Err(PortError::InvalidPort));
    assert_eq!(PortError::InvalidPort.message(), "invalid port");
}

fn values() -> TunnelEnvValues {
    TunnelEnvValues {
        psk_hex: Some(PSK_HEX.to_string()),
        client_id: Some("alice".to_string()),
        server_id: Some("bob".to_string()),
        rekey_interval: None,
        rekey_ack_timeout_secs: None,
        wire_read_timeout_secs: None,
        mlock: None,
        queue_depth: None,
        max_queue_bytes: None,
        max_queue_mb: None,
    }
}

#[test]
fn config_from_env_values() {
    let cfg = config_from_values(&values()).unwrap();
    assert_eq!(cfg.psk(), &psk_bytes());
    assert_eq!(&cfg.client_id()[..5], b"alice");
    assert_eq!(&cfg.server_id()[..3], b"bob");
    assert_eq!(cfg.rekey_interval(), DEFAULT_REKEY_INTERVAL);
    assert_eq!(cfg.rekey_ack_timeout_secs(), DEFAULT_REKEY_ACK_TIMEOUT_SECS);
    assert_eq!(cfg.wire_read_timeout_secs(), DEFAULT_WIRE_READ_TIMEOUT_SECS);
    assert_eq!(cfg.queue_depth(), QUEUE_DEPTH_DEFAULT);
    assert!(!cfg.queue_clamped());

    let mut v = values();
    v.rekey_interval = Some("7".to_string());
    v.queue_depth = Some("8".to_string());
    v.mlock = Some("1".to_string());
    let cfg = config_from_values(&v).unwrap();
    assert_eq!(cfg.rekey_interval(), 7);
    assert_eq!(cfg.queue_depth(), 8);
    assert!(cfg.mlock_psk());

    let mut v = values();
    v.psk_hex = Some("00".to_string());
    assert_eq!(config_from_values(&v).unwrap_err(), ConfigError::Handshake);
    assert_eq!(ConfigError::Handshake.message(), "handshake env vars invalid");
    let mut v = values();
    v.max_queue_mb = Some("2000".to_string());
    assert_eq!(
        config_from_values(&v).unwrap_err(),
        ConfigError::Queue(QueueError::MaxMbOutOfRange)
    );
}

#[test]
fn tunnel_config_accessors() {
    let mut cfg = TunnelConfig::new([1u8; 32], [2u8; 32], [3u8; 32]);
    assert_eq!(cfg.rekey_interval(), DEFAULT_REKEY_INTERVAL);
    cfg.set_rekey_interval(9);
    assert_eq!(cfg.rekey_interval(), 9);
    let hs = cfg.handshake();
    assert_eq!(hs.psk, [1u8; 32]);
    assert_eq!(hs.client_id, [2u8; 32]);
    assert_eq!(hs.server_id, [3u8; 32]);
    assert_eq!(cfg.queue_depth(), 64);
}

#[test]
fn config_clones_share_settings() {
    let mut cfg = TunnelConfig::new([1u8; 32], [2u8; 32], [3u8; 32]);
    let other = cfg.clone();
    assert!(std::ptr::eq(cfg.psk(), other.psk()));
    cfg.set_rekey_interval(9);
    assert_eq!(cfg.rekey_interval(), DEFAULT_REKEY_INTERVAL);
    assert_eq!(other.rekey_interval(), DEFAULT_REKEY_INTERVAL);
    drop(other);
    cfg.set_rekey_interval(9);
    assert_eq!(cfg.rekey_interval(), 9);
}
