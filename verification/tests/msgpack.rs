use fips203_core::{
    ascii_valid, decode_string_only, decode_string_only_vec, decoded_floats, format_decoded,
    pack_line, pack_line_vec, payload_is_quit, Error, FloatText, MAX_MSG,
};

#[test]
fn decode_fixstr_wire_from_constants() {
    let wire = [0xa5, b'h', b'e', b'l', b'l', b'o'];
    let mut out = [0u8; 16];
    let n = decode_string_only(&wire, &mut out).unwrap();
    assert_eq!(&out[..n], b"hello");
}

#[test]
fn decode_str8_wire_from_constants() {
    let payload = vec![b'z'; 32];
    let mut wire = vec![0xd9, 32];
    wire.extend_from_slice(&payload);
    let mut out = vec![0u8; 64];
    let n = decode_string_only(&wire, &mut out).unwrap();
    assert_eq!(&out[..n], &payload);
}

#[test]
fn pack_then_decode_matches_constants() {
    let mut packed = [0u8; 16];
    let n = pack_line(b"hello", &mut packed).unwrap();
    assert_eq!(&packed[..n], &[0xa5, b'h', b'e', b'l', b'l', b'o']);
    let mut out = [0u8; 16];
    let m = decode_string_only(&packed[..n], &mut out).unwrap();
    assert_eq!(&out[..m], b"hello");
}

#[test]
fn string_uses_raw_path_not_quoted() {
    let mut wire = vec![0u8; 128];
    let wlen = pack_line(b"say \"hi\"", &mut wire).unwrap();
    let mut raw = vec![0u8; 4096];
    assert!(decode_string_only(&wire[..wlen], &mut raw).is_ok());
    let rlen = decode_string_only(&wire[..wlen], &mut raw).unwrap();
    assert_eq!(&raw[..rlen], b"say \"hi\"");

    let mut fmt = vec![0u8; 4096];
    let flen = format_decoded(&wire[..wlen], &mut fmt, &[]).unwrap();
    let formatted = std::str::from_utf8(&fmt[..flen]).unwrap();
    assert!(formatted.contains('\\'));
    assert!(formatted.starts_with('"'));
}

#[test]
fn quit_payload() {
    let mut wire = vec![0u8; 32];
    let wlen = pack_line(b"quit", &mut wire).unwrap();
    assert!(payload_is_quit(&wire[..wlen]));
    let wlen2 = pack_line(b"quitter", &mut wire).unwrap();
    assert!(!payload_is_quit(&wire[..wlen2]));
}

#[test]
fn pack_fixstr_hello() {
    let mut buf = [0u8; 16];
    let n = pack_line(b"hello", &mut buf).unwrap();
    assert_eq!(n, 6);
    assert_eq!(&buf[..n], &[0xa5, b'h', b'e', b'l', b'l', b'o']);
}

#[test]
fn pack_fixstr_empty() {
    let mut buf = [0u8; 8];
    let n = pack_line(b"", &mut buf).unwrap();
    assert_eq!(n, 1);
    assert_eq!(&buf[..n], &[0xa0]);
}

#[test]
fn pack_fixstr_max_len() {
    let payload = vec![b'x'; 31];
    let mut buf = vec![0u8; 64];
    let n = pack_line(&payload, &mut buf).unwrap();
    assert_eq!(n, 32);
    assert_eq!(buf[0], 0xa0 | 31);
    assert_eq!(&buf[1..n], &payload[..]);
}

#[test]
fn pack_str8_min_len() {
    let payload = vec![b'y'; 32];
    let mut buf = vec![0u8; 64];
    let n = pack_line(&payload, &mut buf).unwrap();
    assert_eq!(n, 34);
    assert_eq!(&buf[..2], &[0xd9, 32]);
    assert_eq!(&buf[2..n], &payload[..]);
}

fn roundtrip(line: &str) {
    let ascii = line.as_bytes();
    assert!(ascii_valid(ascii));
    let mut packed = vec![0u8; 4096 + 64];
    let plen = pack_line(ascii, &mut packed).expect("pack_line");
    let mut out = vec![0u8; 4096 + 64];
    let olen = decode_string_only(&packed[..plen], &mut out).expect("decode_string_only");
    assert_eq!(&out[..olen], ascii);
}

#[test]
fn msgpack_ascii_roundtrip() {
    roundtrip("hello");
    roundtrip("a\"b\\c");
    roundtrip("");
    roundtrip("say \"hi\"");
}

#[test]
fn pack_str16_and_limits() {
    let payload = vec![b'k'; 256];
    let v = pack_line_vec(&payload).unwrap();
    assert_eq!(&v[..3], &[0xda, 0x01, 0x00]);
    assert_eq!(v.len(), 259);
    assert_eq!(pack_line_vec(&vec![b'a'; MAX_MSG + 1]), Err(Error::Length));
    assert_eq!(pack_line_vec(&[0x80]), Err(Error::NotAscii));
    let mut small = [0u8; 3];
    assert_eq!(pack_line(b"abcd", &mut small), Err(Error::BufferTooSmall));
    assert!(!ascii_valid(&[b'a', 0xff]));
}

#[test]
fn decode_string_only_errors() {
    let mut out = [0u8; 4];
    assert_eq!(decode_string_only(&[0x01], &mut out), Err(Error::MsgPack));
    assert_eq!(
        decode_string_only(&[0xa5, b'h', b'e', b'l', b'l', b'o'], &mut out),
        Err(Error::MsgPack)
    );
    let mut none: [u8; 0] = [];
    assert_eq!(decode_string_only(&[0xa0], &mut none), Err(Error::InvalidArgument));
    assert_eq!(decode_string_only(&[0xa2, b'h'], &mut out).is_err(), true);
    assert_eq!(decode_string_only_vec(&[0xa2, b'o', b'k']).unwrap(), b"ok".to_vec());
}

#[test]
fn format_decoded_containers_and_scalars() {
    let mut buf = vec![0u8; 256];
    // [1, -1, true, nil]
    let data = [0x94, 0x01, 0xff, 0xc3, 0xc0];
    let n = format_decoded(&data, &mut buf, &[]).unwrap();
    assert_eq!(std::str::from_utf8(&buf[..n]).unwrap(), "[1,-1,true,nil]");
    // {"a": 2}
    let data = [0x81, 0xa1, b'a', 0x02];
    let n = format_decoded(&data, &mut buf, &[]).unwrap();
    assert_eq!(std::str::from_utf8(&buf[..n]).unwrap(), "{\"a\":2}");
    let mut empty: [u8; 0] = [];
    assert_eq!(format_decoded(&data, &mut empty, &[]), Err(Error::InvalidArgument));
}

#[test]
fn format_decoded_uses_given_float_text() {
    // float64 1.5
    let data = [0xcb, 0x3f, 0xf8, 0, 0, 0, 0, 0, 0];
    let floats = decoded_floats(&data).unwrap();
    assert_eq!(floats, vec![(false, 1.5f64.to_bits())]);
    let texts = [FloatText { single: false, bits: 1.5f64.to_bits(), text: b"1.5".to_vec() }];
    let mut buf = vec![0u8; 64];
    let n = format_decoded(&data, &mut buf, &texts).unwrap();
    assert_eq!(&buf[..n], b"1.5");
}

#[test]
fn pack_line_short_buffer_non_ascii_is_not_ascii() {
    let mut empty: [u8; 0] = [];
    assert_eq!(pack_line(&[0x80, b'a'], &mut empty), Err(Error::NotAscii));
    assert_eq!(pack_line(&vec![b'a'; MAX_MSG + 1], &mut empty), Err(Error::Length));
}
