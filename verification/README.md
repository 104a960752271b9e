# fips203_core

ML-KEM-768 (FIPS 203) with the FIPS 202 sponge functions, and the FIPS203TUNNEL record layer
built on it: PSK + ML-KEM handshake, framed and authenticated records, in-band rekey, session
blobs and MessagePack line helpers. The library is written in Verus: the functions in `src/`
carry `requires`/`ensures` contracts that Verus proves; the only trusted items are the
declaration of `std::io::Error` and three small wrappers of std (a compiler fence,
`Arc::get_mut`, and the construction of an `io::Error`).

Layout:

- `src/keccak.rs`, `src/lanes.rs`, `src/fips202.rs` — Keccak-f[1600], SHAKE128/256, SHA3-256/512
  (one-shot and incremental), specified over a byte-level sponge model.
- `src/mlkem.rs`, `src/mlkem/` — ML-KEM-768: reductions, NTT, polynomials, K-PKE and the KEM,
  each against a mathematical specification; laws such as the NTT inverse, message and byte
  encodings, the decapsulation key layout and implicit rejection.
- `src/frame.rs`, `src/session.rs`, `src/wire.rs` — record sealing/opening, the session blob and
  stream framing, with seal/open, pack/unpack and replay laws.
- `src/tunnel.rs`, `src/rekey.rs` — handshake steps and rekey decisions as functions from state
  and received bytes to the next state and the bytes to send; both ends end up aligned.
- `src/msgpack.rs`, `src/display.rs` — MessagePack line packing, decoding and display text.
- `src/settings.rs`, `src/config.rs`, `src/link.rs` — parsing of the tunnel's settings.
- `app/` — the `fips203_tunnel` command line program (Tokio TCP I/O, signals, randomness, memory
  locking) around the library.
- `tests/` — integration tests.
