//! ML-KEM-768 (FIPS 203), the FIPS 202 hash functions it is built on, and the
//! FIPS203TUNNEL record layer, session blob, handshake, in-band rekey and MessagePack line
//! helpers, with the settings and decisions of a tunnel end.
pub mod keccak;
pub mod lanes;
pub mod fips202;
pub mod byteorder;
pub mod error;
pub mod util;
pub mod frame;
pub mod session;
pub mod msgpack;
pub mod display;
pub mod tunnel;
pub mod settings;
pub mod config;
pub mod rekey;
pub mod wire;
pub mod secrets;
pub mod crypto_tunnel;
pub mod link;
pub mod mlkem;

pub use config::{
    parse_port, ConfigError, PortError, QueueError, TunnelConfig, TunnelEnvValues, ID_SIZE,
    QUEUE_DEPTH_DEFAULT,
};
pub use crypto_tunnel::{open_frame, seal_frame, wire_buf, SessionHandle};
pub use display::{decoded_floats, format_decoded, FloatText};
pub use error::{Error, Result};
pub use fips202::{sha3_256, shake256};
pub use frame::{
    derive_tunnel_session, frame_open, frame_seal, rekey_apply, TunnelSession, AAD_SIZE,
    MAX_FRAMES, MAX_MSG, MAX_WIRE, REKEY_NONCE_SIZE, SESSION_ID_SIZE, SESSION_PACKED_BYTES,
    SESSION_STATE_BYTES, TAG,
};
pub use link::LinkMode;
pub use mlkem::{
    decaps, encaps, keygen, Ciphertext, DecapsKey, EncapsKey, SharedSecret, MLKEM768_CT_SIZE,
    MLKEM768_DK_SIZE, MLKEM768_EK_SIZE, MLKEM768_SS_SIZE, MLKEM_SEED_SIZE,
};
pub use msgpack::{
    ascii_valid, decode_string_only, decode_string_only_vec, pack_line, pack_line_vec,
    payload_is_quit,
};
pub use rekey::{begin_rekey, complete_rekey, on_payload, rekey_ack, rekey_due, RecvStep};
pub use secrets::secret_zeroize;
pub use session::{session_pack, session_unpack, SESSION_PACK_HEADER_U64};
pub use tunnel::{
    build_control, client_finish, client_reply, ct_eq_32, handshake_transcript, is_control,
    mac32, open_plain, seal_plain, server_finish, server_hello, u32_be, wire_buffer,
    ClientHandshake, HandshakeConfig, ServerHandshake, TunnelRuntime, CTRL_ACK, CTRL_LEN,
    CTRL_MAGIC, CTRL_REQ, DEFAULT_REKEY_ACK_TIMEOUT_SECS, DEFAULT_REKEY_INTERVAL,
    DEFAULT_WIRE_READ_TIMEOUT_SECS, HS_TRANSCRIPT_BYTES, PEER_ID_SIZE,
};
pub use wire::{begin_wire_frame, wire_capacity_ok};
