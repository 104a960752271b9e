//! FIPS 202 sponge functions over Keccak-f[1600]: SHAKE128, SHAKE256, SHA3-256 and SHA3-512.
use vstd::prelude::*;

use crate::keccak::{keccak_f, keccak_f1600};
use crate::lanes::{
    byte_of, bytes_to_lanes, lanes_to_bytes, le64, lemma_lanes_bytes_roundtrip, lemma_xor_byte,
    lemma_xor_lane, xor_into,
};

verus! {

pub const SHAKE128_RATE: usize = 168;

pub const SHAKE256_RATE: usize = 136;

pub const SHA3_256_RATE: usize = 136;

pub const SHA3_512_RATE: usize = 72;

/// A sponge rate in bytes that this module supports: a positive multiple of 8 below 200.
pub open spec fn valid_rate(rate: int) -> bool {
    0 < rate < 200 && rate % 8 == 0
}

/// Keccak-f[1600] on the 200-byte view of the state.
pub open spec fn f_bytes(b: Seq<u8>) -> Seq<u8> {
    lanes_to_bytes(keccak_f(bytes_to_lanes(b)))
}

/// The all-zero 200-byte state.
pub open spec fn zero_state() -> Seq<u8> {
    Seq::new(200, |j: int| 0u8)
}

/// The last block of the padded message: the leftover bytes, the domain byte `delim`,
/// zeros, and the final bit `0x80` in the last byte of the block (pad10*1).
pub open spec fn pad_last(tail: Seq<u8>, rate: int, delim: u8) -> Seq<u8> {
    Seq::new(
        rate as nat,
        |j: int|
            (if j < tail.len() {
                tail[j]
            } else if j == tail.len() {
                delim
            } else {
                0u8
            }) | (if j == rate - 1 {
                0x80u8
            } else {
                0u8
            }),
    )
}

/// Absorbing phase: every full block of `input` is XORed into the state, each followed by
/// the permutation; the padded last block is XORed in last, without the permutation.
pub open spec fn absorb(b: Seq<u8>, input: Seq<u8>, rate: int, delim: u8) -> Seq<u8>
    recommends
        valid_rate(rate),
    decreases input.len(),
{
    if input.len() < rate || rate <= 0 {
        xor_into(b, pad_last(input, rate, delim))
    } else {
        absorb(f_bytes(xor_into(b, input.take(rate))), input.skip(rate), rate, delim)
    }
}

/// The state after absorbing `input` into the zero state.
pub open spec fn sponge_absorb(input: Seq<u8>, rate: int, delim: u8) -> Seq<u8> {
    absorb(zero_state(), input, rate, delim)
}

/// The permutation applied `n` times.
pub open spec fn f_pow(b: Seq<u8>, n: nat) -> Seq<u8>
    decreases n,
{
    if n == 0 {
        b
    } else {
        f_bytes(f_pow(b, (n - 1) as nat))
    }
}

/// Squeezing phase: `n` output blocks; block `k` is the first `rate` bytes of the state after
/// `k + 1` permutations.
pub open spec fn squeeze(b: Seq<u8>, rate: int, n: nat) -> Seq<u8>
    decreases n,
{
    if n == 0 {
        Seq::empty()
    } else {
        squeeze(b, rate, (n - 1) as nat) + f_pow(b, n).take(rate)
    }
}

/// SHAKE256 with `len` bytes of output.
pub open spec fn shake256_spec(input: Seq<u8>, len: nat) -> Seq<u8> {
    squeeze(sponge_absorb(input, SHAKE256_RATE as int, 0x1f), SHAKE256_RATE as int, len / 136 + 1).take(
        len as int,
    )
}

/// SHAKE128 state after absorbing `input`.
pub open spec fn shake128_absorb_spec(input: Seq<u8>) -> Seq<u8> {
    sponge_absorb(input, SHAKE128_RATE as int, 0x1f)
}

/// SHA3-256.
pub open spec fn sha3_256_spec(input: Seq<u8>) -> Seq<u8> {
    f_pow(sponge_absorb(input, SHA3_256_RATE as int, 0x06), 1).take(32)
}

/// SHA3-512.
pub open spec fn sha3_512_spec(input: Seq<u8>) -> Seq<u8> {
    f_pow(sponge_absorb(input, SHA3_512_RATE as int, 0x06), 1).take(64)
}

pub proof fn lemma_squeeze_len(b: Seq<u8>, rate: int, n: nat)
    requires
        valid_rate(rate),
        b.len() == 200,
    ensures
        squeeze(b, rate, n).len() == n * rate,
        f_pow(b, n).len() == 200,
    decreases n,
{
    if n > 0 {
        lemma_squeeze_len(b, rate, (n - 1) as nat);
        assert(n * rate == (n - 1) * rate + rate) by (nonlinear_arith);
    }
}

pub proof fn lemma_absorb_len(b: Seq<u8>, input: Seq<u8>, rate: int, delim: u8)
    requires
        b.len() == 200,
    ensures
        absorb(b, input, rate, delim).len() == 200,
    decreases input.len(),
{
    if !(input.len() < rate || rate <= 0) {
        lemma_absorb_len(f_bytes(xor_into(b, input.take(rate))), input.skip(rate), rate, delim);
    }
}

/// SHAKE256 gives exactly as many bytes as are asked for.
pub proof fn lemma_shake256_len(input: Seq<u8>, len: nat)
    ensures
        shake256_spec(input, len).len() == len,
{
    let st = sponge_absorb(input, 136, 0x1f);
    lemma_absorb_len(zero_state(), input, 136, 0x1f);
    lemma_squeeze_len(st, 136, len / 136 + 1);
    assert(len <= (len / 136 + 1) * 136) by (nonlinear_arith);
}

/// SHA3-256 gives 32 bytes.
pub proof fn lemma_sha3_256_len(input: Seq<u8>)
    ensures
        sha3_256_spec(input).len() == 32,
{
    let st = sponge_absorb(input, 136, 0x06);
    lemma_absorb_len(zero_state(), input, 136, 0x06);
    lemma_squeeze_len(st, 136, 1);
}

/// SHA3-512 gives 64 bytes.
pub proof fn lemma_sha3_512_len(input: Seq<u8>)
    ensures
        sha3_512_spec(input).len() == 64,
{
    let st = sponge_absorb(input, 72, 0x06);
    lemma_absorb_len(zero_state(), input, 72, 0x06);
    lemma_squeeze_len(st, 72, 1);
}

pub proof fn lemma_squeeze_prefix(b: Seq<u8>, rate: int, n: nat, m: nat)
    requires
        valid_rate(rate),
        b.len() == 200,
        n <= m,
    ensures
        squeeze(b, rate, m).take(n * rate) == squeeze(b, rate, n),
    decreases m,
{
    lemma_squeeze_len(b, rate, m);
    lemma_squeeze_len(b, rate, n);
    if n < m {
        lemma_squeeze_prefix(b, rate, n, (m - 1) as nat);
        lemma_squeeze_len(b, rate, (m - 1) as nat);
        assert(n * rate <= (m - 1) * rate) by (nonlinear_arith)
            requires
                n <= m - 1,
                rate > 0,
        ;
        assert(squeeze(b, rate, m).take(n * rate) =~= squeeze(b, rate, (m - 1) as nat).take(
            n * rate,
        ));
    } else {
        assert(squeeze(b, rate, m).take(n * rate) =~= squeeze(b, rate, n));
    }
}

fn load64(x: &[u8], off: usize) -> (r: u64)
    requires
        off + 8 <= x.len(),
    ensures
        r == le64(x@, off as int),
{
    (x[off] as u64) | ((x[off + 1] as u64) << 8u64) | ((x[off + 2] as u64) << 16u64) | ((x[off
        + 3] as u64) << 24u64) | ((x[off + 4] as u64) << 32u64) | ((x[off + 5] as u64) << 40u64)
        | ((x[off + 6] as u64) << 48u64) | ((x[off + 7] as u64) << 56u64)
}

fn store64(x: &mut [u8], off: usize, u: u64)
    requires
        off + 8 <= old(x).len(),
    ensures
        final(x)@.len() == old(x)@.len(),
        forall|j: int|
            0 <= j < old(x)@.len() ==> #[trigger] final(x)@[j] == if off <= j < off + 8 {
                byte_of(u, j - off)
            } else {
                old(x)@[j]
            },
{
    x[off] = u as u8;
    x[off + 1] = (u >> 8u64) as u8;
    x[off + 2] = (u >> 16u64) as u8;
    x[off + 3] = (u >> 24u64) as u8;
    x[off + 4] = (u >> 32u64) as u8;
    x[off + 5] = (u >> 40u64) as u8;
    x[off + 6] = (u >> 48u64) as u8;
    x[off + 7] = (u >> 56u64) as u8;
    assert(byte_of(u, 0) == u as u8) by {
        assert((u >> 0u64) as u8 == u as u8) by (bit_vector);
    }
}

/// Keccak-f[1600] on the byte view.
proof fn lemma_permute_bytes(s: Seq<u64>)
    requires
        s.len() == 25,
    ensures
        lanes_to_bytes(keccak_f(s)) == f_bytes(lanes_to_bytes(s)),
{
    lemma_lanes_bytes_roundtrip(s);
}

/// XORs `nlanes` little-endian words of `m` (from `off`) into the first lanes of `s`.
fn xor_lanes(s: &mut [u64; 25], m: &[u8], off: usize, nlanes: usize)
    requires
        nlanes <= 25,
        off + 8 * nlanes <= m.len(),
    ensures
        lanes_to_bytes(final(s)@) == xor_into(lanes_to_bytes(old(s)@), m@.subrange(
            off as int,
            off + 8 * nlanes,
        )),
{
    let ghost b0 = lanes_to_bytes(s@);
    let mut i: usize = 0;
    while i < nlanes
        invariant
            i <= nlanes <= 25,
            off + 8 * nlanes <= m.len(),
            b0.len() == 200,
            lanes_to_bytes(s@) == xor_into(b0, m@.subrange(off as int, off + 8 * i)),
        decreases nlanes - i,
    {
        let w = load64(m, off + 8 * i);
        proof {
            lemma_xor_lane(s@, i as int, m@, off + 8 * i);
        }
        let ghost before = lanes_to_bytes(s@);
        s[i] = s[i] ^ w;
        assert(lanes_to_bytes(s@) =~= xor_into(b0, m@.subrange(off as int, off + 8 * (i + 1))));
        i = i + 1;
    }
}

/// Absorbs `input` into a fresh state with domain byte `delim` and the given rate.
fn keccak_absorb(s: &mut [u64; 25], rate: usize, input: &[u8], delim: u8)
    requires
        valid_rate(rate as int),
    ensures
        lanes_to_bytes(final(s)@) == sponge_absorb(input@, rate as int, delim),
{
    let mut k: usize = 0;
    while k < 25
        invariant
            k <= 25,
            forall|j: int| 0 <= j < k ==> s@[j] == 0u64,
        decreases 25 - k,
    {
        s[k] = 0;
        k = k + 1;
    }
    assert(lanes_to_bytes(s@) =~= zero_state()) by {
        assert forall|j: int| 0 <= j < 200 implies #[trigger] lanes_to_bytes(s@)[j] == 0u8 by {
            let z = s@[j / 8];
            let sh = (8 * (j % 8)) as u64;
            assert(z == 0);
            assert(((0u64 >> sh) as u8) == 0u8) by (bit_vector);
        }
    }
    let mut pos: usize = 0;
    assert(input@.skip(0) =~= input@);
    while input.len() - pos >= rate
        invariant
            valid_rate(rate as int),
            pos <= input.len(),
            absorb(lanes_to_bytes(s@), input@.skip(pos as int), rate as int, delim)
                == sponge_absorb(input@, rate as int, delim),
        decreases input.len() - pos,
    {
        let ghost rest = input@.skip(pos as int);
        xor_lanes(s, input, pos, rate / 8);
        let ghost pre = s@;
        keccak_f1600(s);
        proof {
            assert(input@.subrange(pos as int, pos + 8 * (rate / 8)) =~= rest.take(rate as int));
            assert(rest.skip(rate as int) =~= input@.skip(pos + rate));
            lemma_permute_bytes(pre);
        }
        pos = pos + rate;
    }
    let ghost rest = input@.skip(pos as int);
    let mut t = [0u8; 200];
    let n = input.len() - pos;
    let mut j: usize = 0;
    while j < n
        invariant
            j <= n,
            n == input.len() - pos,
            pos <= input.len(),
            t@.len() == 200,
            n < rate,
            rate < 200,
            forall|q: int| 0 <= q < j ==> t@[q] == input@[pos + q],
            forall|q: int| j <= q < 200 ==> t@[q] == 0u8,
        decreases n - j,
    {
        t[j] = input[pos + j];
        j = j + 1;
    }
    t[n] = delim;
    t[rate - 1] = t[rate - 1] | 0x80;
    proof {
        assert forall|q: int| 0 <= q < rate implies #[trigger] t@[q] == pad_last(
            rest,
            rate as int,
            delim,
        )[q] by {
            if q < n {
                let v = input@[pos + q];
                assert(v | 0u8 == v) by (bit_vector);
            } else if q == n {
                assert(delim | 0u8 == delim) by (bit_vector);
            } else {
                assert(0u8 | 0u8 == 0u8) by (bit_vector);
            }
        }
        assert(t@.subrange(0, 8 * (rate / 8) as int) =~= pad_last(rest, rate as int, delim));
    }
    xor_lanes(s, &t, 0, rate / 8);
}

/// Squeezes `nblocks` blocks of `rate` bytes into `out` from position `off`.
fn keccak_squeezeblocks(out: &mut [u8], off: usize, nblocks: usize, s: &mut [u64; 25], rate: usize)
    requires
        valid_rate(rate as int),
        off + nblocks * rate <= old(out).len(),
    ensures
        lanes_to_bytes(final(s)@) == f_pow(lanes_to_bytes(old(s)@), nblocks as nat),
        final(out)@.len() == old(out)@.len(),
        final(out)@.subrange(off as int, off + nblocks * rate) == squeeze(
            lanes_to_bytes(old(s)@),
            rate as int,
            nblocks as nat,
        ),
        forall|j: int|
            0 <= j < old(out)@.len() && !(off <= j < off + nblocks * rate) ==> #[trigger] final(out)@[j] == old(out)@[j],
{
    let ghost b0 = lanes_to_bytes(s@);
    let ghost out0 = out@;
    let mut block: usize = 0;
    proof {
        lemma_squeeze_len(b0, rate as int, 0);
    }
    while block < nblocks
        invariant
            valid_rate(rate as int),
            block <= nblocks,
            off + nblocks * rate <= out.len(),
            out@.len() == out0.len(),
            b0.len() == 200,
            lanes_to_bytes(s@) == f_pow(b0, block as nat),
            out@.subrange(off as int, off + block * rate) == squeeze(b0, rate as int, block as nat),
            forall|j: int|
                0 <= j < out0.len() && !(off <= j < off + block * rate) ==> #[trigger] out@[j]
                    == out0[j],
        decreases nblocks - block,
    {
        proof {
            assert((block + 1) * rate <= nblocks * rate) by (nonlinear_arith)
                requires
                    block + 1 <= nblocks,
                    rate > 0,
            ;
            assert((block + 1) * rate == block * rate + rate) by (nonlinear_arith);
            assert(off + block * rate + rate <= out.len());
        }
        let ghost pre = s@;
        keccak_f1600(s);
        proof {
            lemma_permute_bytes(pre);
        }
        let base = off + block * rate;
        let ghost out_mid = out@;
        let mut i: usize = 0;
        while i < rate / 8
            invariant
                valid_rate(rate as int),
                i <= rate / 8,
                base + rate <= out.len(),
                out@.len() == out0.len(),
                forall|j: int|
                    0 <= j < out@.len() && !(base <= j < base + 8 * i) ==> #[trigger] out@[j]
                        == out_mid[j],
                forall|q: int| 0 <= q < 8 * i ==> #[trigger] out@[base + q] == lanes_to_bytes(s@)[q],
            decreases rate / 8 - i,
        {
            store64(out, base + 8 * i, s[i]);
            i = i + 1;
        }
        proof {
            lemma_squeeze_len(b0, rate as int, (block + 1) as nat);
            lemma_squeeze_len(b0, rate as int, block as nat);
            assert(out@.subrange(off as int, off + (block + 1) * rate) =~= squeeze(
                b0,
                rate as int,
                (block + 1) as nat,
            )) by {
                assert forall|q: int| 0 <= q < (block + 1) * rate implies #[trigger] out@.subrange(
                    off as int,
                    off + (block + 1) * rate,
                )[q] == squeeze(b0, rate as int, (block + 1) as nat)[q] by {
                    if q < block * rate {
                        assert(out@[off + q] == out_mid[off + q]);
                        assert(out_mid.subrange(off as int, off + block * rate)[q] == out_mid[off
                            + q]);
                    } else {
                        assert(out@[base + (q - block * rate)] == lanes_to_bytes(s@)[q - block
                            * rate]);
                    }
                }
            }
        }
        block = block + 1;
    }
}

/// SHAKE256: fills `out` with `out.len()` bytes of output for `input`.
pub fn shake256(out: &mut [u8], input: &[u8])
    ensures
        final(out)@ == shake256_spec(input@, old(out)@.len()),
        final(out)@.len() == old(out)@.len(),
{
    proof {
        lemma_shake256_len(input@, out@.len());
    }
    let rate = SHAKE256_RATE;
    let mut s = [0u64; 25];
    keccak_absorb(&mut s, rate, input, 0x1f);
    let ghost st = lanes_to_bytes(s@);
    let nb = out.len() / rate;
    proof {
        assert(nb * rate <= out.len()) by (nonlinear_arith)
            requires
                nb == out.len() / rate,
                rate > 0,
        ;
    }
    keccak_squeezeblocks(out, 0, nb, &mut s, rate);
    let tail = out.len() - nb * rate;
    let ghost len = out@.len();
    proof {
        lemma_squeeze_len(st, rate as int, (nb + 1) as nat);
        lemma_squeeze_len(st, rate as int, nb as nat);
        assert(tail < rate) by (nonlinear_arith)
            requires
                nb == out.len() / rate,
                tail == out.len() - nb * rate,
                rate > 0,
        ;
        assert(len / 136 + 1 == nb + 1);
    }
    if tail > 0 {
        let mut t = [0u8; SHAKE256_RATE];
        keccak_squeezeblocks(&mut t, 0, 1, &mut s, rate);
        let base = nb * rate;
        let mut j: usize = 0;
        let ghost out_mid = out@;
        while j < tail
            invariant
                j <= tail,
                base + tail == out@.len(),
                base + tail == out.len(),
                out@.len() == out_mid.len(),
                t@.len() == 136,
                tail < 136,
                forall|q: int| 0 <= q < base ==> #[trigger] out@[q] == out_mid[q],
                forall|q: int| 0 <= q < j ==> #[trigger] out@[base + q] == t@[q],
            decreases tail - j,
        {
            out[base + j] = t[j];
            j = j + 1;
        }
        proof {
            let sq = squeeze(st, rate as int, (nb + 1) as nat);
            let y = f_pow(st, nb as nat);
            assert(f_pow(y, 0) == y);
            assert(f_pow(y, 1) == f_pow(st, (nb + 1) as nat));
            assert(t@.subrange(0, 136) =~= f_pow(st, (nb + 1) as nat).take(136));
            let sqn = squeeze(st, rate as int, nb as nat);
            assert(sq == sqn + f_pow(st, (nb + 1) as nat).take(136));
            assert(sqn.len() == base);
            assert forall|q: int| 0 <= q < len implies #[trigger] out@[q] == sq.take(len as int)[q] by {
                if q < base {
                    assert(out@[q] == out_mid[q]);
                    assert(out_mid.subrange(0, base as int)[q] == out_mid[q]);
                    assert(sq[q] == sqn[q]);
                } else {
                    assert(out@[base + (q - base)] == t@[q - base]);
                    assert(t@[q - base] == t@.subrange(0, 136)[q - base]);
                    assert(sq[q] == f_pow(st, (nb + 1) as nat).take(136)[q - base]);
                }
            }
            assert(out@ =~= sq.take(len as int));
        }
    } else {
        proof {
            lemma_squeeze_prefix(st, rate as int, nb as nat, (nb + 1) as nat);
            assert(out@ =~= out@.subrange(0, nb * rate));
        }
    }
}

/// SHA3-256 of `input`.
pub fn sha3_256(out: &mut [u8; 32], input: &[u8])
    ensures
        final(out)@ == sha3_256_spec(input@),
{
    let mut s = [0u64; 25];
    keccak_absorb(&mut s, SHA3_256_RATE, input, 0x06);
    let ghost st = lanes_to_bytes(s@);
    let mut t = [0u8; SHA3_256_RATE];
    keccak_squeezeblocks(&mut t, 0, 1, &mut s, SHA3_256_RATE);
    let mut j: usize = 0;
    while j < 32
        invariant
            j <= 32,
            t@.len() == 136,
            forall|q: int| 0 <= q < j ==> #[trigger] out@[q] == t@[q],
        decreases 32 - j,
    {
        out[j] = t[j];
        j = j + 1;
    }
    proof {
        assert(t@.subrange(0, 136) =~= f_pow(st, 1).take(136));
        assert forall|q: int| 0 <= q < 32 implies #[trigger] out@[q] == sha3_256_spec(input@)[q] by {
            assert(t@[q] == t@.subrange(0, 136)[q]);
        }
        assert(out@ =~= sha3_256_spec(input@));
    }
}

/// SHA3-512 of `input`.
pub fn sha3_512(out: &mut [u8; 64], input: &[u8])
    ensures
        final(out)@ == sha3_512_spec(input@),
{
    let mut s = [0u64; 25];
    keccak_absorb(&mut s, SHA3_512_RATE, input, 0x06);
    let ghost st = lanes_to_bytes(s@);
    let mut t = [0u8; SHA3_512_RATE];
    keccak_squeezeblocks(&mut t, 0, 1, &mut s, SHA3_512_RATE);
    let mut j: usize = 0;
    while j < 64
        invariant
            j <= 64,
            t@.len() == 72,
            forall|q: int| 0 <= q < j ==> #[trigger] out@[q] == t@[q],
        decreases 64 - j,
    {
        out[j] = t[j];
        j = j + 1;
    }
    proof {
        assert(t@.subrange(0, 72) =~= f_pow(st, 1).take(72));
        assert forall|q: int| 0 <= q < 64 implies #[trigger] out@[q] == sha3_512_spec(input@)[q] by {
            assert(t@[q] == t@.subrange(0, 72)[q]);
        }
        assert(out@ =~= sha3_512_spec(input@));
    }
}

/// A SHAKE128 state after absorbing, ready to squeeze blocks.
pub struct Shake128Ctx {
    pub s: [u64; 25],
    pub rate: usize,
}

impl Shake128Ctx {
    /// The 200-byte view of the sponge state.
    pub open spec fn state_bytes(&self) -> Seq<u8> {
        lanes_to_bytes(self.s@)
    }

    /// Absorbs `input` (SHAKE128 domain byte, rate 168).
    pub fn absorb(input: &[u8]) -> (r: Self)
        ensures
            r.rate == SHAKE128_RATE,
            r.state_bytes() == shake128_absorb_spec(input@),
    {
        let mut s = [0u64; 25];
        keccak_absorb(&mut s, SHAKE128_RATE, input, 0x1f);
        Self { s, rate: SHAKE128_RATE }
    }

    /// Squeezes `nblocks` blocks of 168 bytes into the front of `out`.
    pub fn squeeze_blocks(&mut self, out: &mut [u8], nblocks: usize)
        requires
            old(self).rate == SHAKE128_RATE,
            nblocks * SHAKE128_RATE <= old(out).len(),
        ensures
            final(self).rate == SHAKE128_RATE,
            final(self).state_bytes() == f_pow(old(self).state_bytes(), nblocks as nat),
            final(out)@.len() == old(out)@.len(),
            final(out)@.subrange(0, nblocks * SHAKE128_RATE) == squeeze(
                old(self).state_bytes(),
                SHAKE128_RATE as int,
                nblocks as nat,
            ),
            forall|j: int|
                nblocks * SHAKE128_RATE <= j < old(out)@.len() ==> #[trigger] final(out)@[j] == old(out)@[j],
    {
        keccak_squeezeblocks(out, 0, nblocks, &mut self.s, self.rate);
    }
}


/// The state after absorbing `input` block by block without padding: each full block is
/// XORed in and permuted, and a partial last block is XORed in and left pending.
pub open spec fn inc_absorb(b: Seq<u8>, input: Seq<u8>, rate: int) -> Seq<u8>
    decreases input.len(),
{
    if input.len() < rate || rate <= 0 {
        xor_into(b, input)
    } else {
        inc_absorb(f_bytes(xor_into(b, input.take(rate))), input.skip(rate), rate)
    }
}

/// `b` with `x` XORed into byte `i`.
pub open spec fn xor_at(b: Seq<u8>, i: int, x: u8) -> Seq<u8> {
    b.update(i, b[i] ^ x)
}

/// `b` with the bytes of `c` XORed in from byte `p` on.
pub open spec fn xor_at_range(b: Seq<u8>, p: int, c: Seq<u8>) -> Seq<u8> {
    Seq::new(b.len(), |j: int| if p <= j < p + c.len() { b[j] ^ c[j - p] } else { b[j] })
}

proof fn lemma_pad_bits(x: u8, t: u8, d: u8)
    by (bit_vector)
    requires
        d < 0x80,
    ensures
        t | 0u8 == t,
        (x ^ d) ^ 0x80u8 == x ^ (d | 0x80u8),
        x ^ (d | 0u8) == x ^ d,
        x ^ (0u8 | 0x80u8) == x ^ 0x80u8,
        x ^ (0u8 | 0u8) == x,
{
}

proof fn lemma_len_mod_step(n: int, k: int, rate: int)
    requires
        rate > 0,
        n >= 0,
        k >= 0,
        n % rate + k <= rate,
    ensures
        n % rate + k < rate ==> (n + k) % rate == n % rate + k,
        n % rate + k == rate ==> (n + k) % rate == 0,
        n >= rate ==> (n - rate) % rate == n % rate,
{
    let q = n / rate;
    let m = n % rate;
    vstd::arithmetic::div_mod::lemma_fundamental_div_mod(n, rate);
    vstd::arithmetic::div_mod::lemma_mod_pos_bound(n, rate);
    if m + k < rate {
        vstd::arithmetic::div_mod::lemma_fundamental_div_mod_converse(n + k, rate, q, m + k);
    }
    if m + k == rate {
        assert(n + k == (q + 1) * rate) by (nonlinear_arith)
            requires
                n == rate * q + m,
                m + k == rate,
        ;
        vstd::arithmetic::div_mod::lemma_fundamental_div_mod_converse(n + k, rate, q + 1, 0);
    }
    if n >= rate {
        assert(n - rate == rate * (q - 1) + m) by (nonlinear_arith)
            requires
                n == rate * q + m,
        ;
        vstd::arithmetic::div_mod::lemma_fundamental_div_mod_converse(n - rate, rate, q - 1, m);
    }
}

proof fn lemma_inc_len(b: Seq<u8>, t: Seq<u8>, rate: int)
    requires
        b.len() == 200,
    ensures
        inc_absorb(b, t, rate).len() == 200,
    decreases t.len(),
{
    if !(t.len() < rate || rate <= 0) {
        lemma_inc_len(f_bytes(xor_into(b, t.take(rate))), t.skip(rate), rate);
    }
}

/// Absorbing one more byte XORs it in at the pending position, and permutes when that
/// completes a block.
proof fn lemma_inc_push(b: Seq<u8>, t: Seq<u8>, x: u8, rate: int)
    requires
        valid_rate(rate),
        b.len() == 200,
    ensures
        t.len() as int % rate + 1 == rate ==> inc_absorb(b, t.push(x), rate) == f_bytes(
            xor_at(inc_absorb(b, t, rate), t.len() as int % rate, x),
        ),
        t.len() as int % rate + 1 < rate ==> inc_absorb(b, t.push(x), rate) == xor_at(
            inc_absorb(b, t, rate),
            t.len() as int % rate,
            x,
        ),
    decreases t.len(),
{
    vstd::arithmetic::div_mod::lemma_mod_pos_bound(t.len() as int, rate);
    if t.len() < rate {
        vstd::arithmetic::div_mod::lemma_small_mod(t.len(), rate as nat);
        let n = t.len() as int;
        assert(xor_into(b, t.push(x)) =~= xor_at(xor_into(b, t), n, x));
        if n + 1 == rate {
            assert(t.push(x).take(rate) =~= t.push(x));
            assert(t.push(x).skip(rate) =~= Seq::<u8>::empty());
            let y = f_bytes(xor_into(b, t.push(x)));
            assert(xor_into(y, Seq::<u8>::empty()) =~= y);
            assert(inc_absorb(y, Seq::<u8>::empty(), rate) == xor_into(y, Seq::<u8>::empty()));
            assert(inc_absorb(b, t.push(x), rate) == inc_absorb(y, Seq::<u8>::empty(), rate));
            assert(inc_absorb(b, t, rate) == xor_into(b, t));
        } else {
            assert(inc_absorb(b, t.push(x), rate) == xor_into(b, t.push(x)));
            assert(inc_absorb(b, t, rate) == xor_into(b, t));
        }
    } else {
        let b2 = f_bytes(xor_into(b, t.take(rate)));
        lemma_inc_push(b2, t.skip(rate), x, rate);
        assert(t.push(x).take(rate) =~= t.take(rate));
        assert(t.push(x).skip(rate) =~= t.skip(rate).push(x));
        lemma_len_mod_step(t.len() as int, 0, rate);
        assert(t.skip(rate).len() as int % rate == t.len() as int % rate);
        assert(inc_absorb(b, t.push(x), rate) == inc_absorb(b2, t.skip(rate).push(x), rate));
        assert(inc_absorb(b, t, rate) == inc_absorb(b2, t.skip(rate), rate));
    }
}

/// Absorbing a chunk that fits in the pending block XORs it in at the pending position, and
/// permutes when it completes the block.
proof fn lemma_inc_chunk(b: Seq<u8>, t: Seq<u8>, c: Seq<u8>, rate: int)
    requires
        valid_rate(rate),
        b.len() == 200,
        t.len() as int % rate + c.len() <= rate,
    ensures
        t.len() as int % rate + c.len() < rate ==> inc_absorb(b, t + c, rate) == xor_at_range(
            inc_absorb(b, t, rate),
            t.len() as int % rate,
            c,
        ) && (t + c).len() as int % rate == t.len() as int % rate + c.len(),
        t.len() as int % rate + c.len() == rate ==> inc_absorb(b, t + c, rate) == f_bytes(
            xor_at_range(inc_absorb(b, t, rate), t.len() as int % rate, c),
        ) && (t + c).len() as int % rate == 0,
    decreases c.len(),
{
    let p = t.len() as int % rate;
    lemma_inc_len(b, t, rate);
    lemma_len_mod_step(t.len() as int, c.len() as int, rate);
    if c.len() == 0 {
        assert(t + c =~= t);
        assert(xor_at_range(inc_absorb(b, t, rate), p, c) =~= inc_absorb(b, t, rate));
    } else {
        let c0 = c.drop_last();
        lemma_inc_chunk(b, t, c0, rate);
        assert(t + c =~= (t + c0).push(c.last()));
        lemma_inc_push(b, t + c0, c.last(), rate);
        let x0 = inc_absorb(b, t, rate);
        assert(xor_at(xor_at_range(x0, p, c0), p + c0.len(), c.last()) =~= xor_at_range(x0, p, c));
    }
}

/// Padding the pending block with the domain byte `d` and the final bit gives the padded
/// absorption of the whole input.
proof fn lemma_inc_finalize(b: Seq<u8>, t: Seq<u8>, rate: int, d: u8)
    requires
        valid_rate(rate),
        b.len() == 200,
        d < 0x80,
    ensures
        xor_at(xor_at(inc_absorb(b, t, rate), t.len() as int % rate, d), rate - 1, 0x80u8) == absorb(
            b,
            t,
            rate,
            d,
        ),
    decreases t.len(),
{
    if t.len() < rate {
        vstd::arithmetic::div_mod::lemma_small_mod(t.len(), rate as nat);
        let n = t.len() as int;
        let pad = pad_last(t, rate, d);
        let lhs = xor_at(xor_at(xor_into(b, t), n, d), rate - 1, 0x80u8);
        assert forall|j: int| 0 <= j < 200 implies #[trigger] lhs[j] == xor_into(b, pad)[j] by {
            lemma_pad_bits(b[j], if j < n { t[j] } else { 0u8 }, d);
        }
        assert(lhs =~= xor_into(b, pad));
    } else {
        let b2 = f_bytes(xor_into(b, t.take(rate)));
        lemma_inc_finalize(b2, t.skip(rate), rate, d);
        lemma_len_mod_step(t.len() as int, 0, rate);
    }
}

proof fn lemma_squeeze_index(b: Seq<u8>, rate: int, n: nat, k: nat, j: int)
    requires
        valid_rate(rate),
        b.len() == 200,
        1 <= k <= n,
        0 <= j < rate,
    ensures
        squeeze(b, rate, n)[(k - 1) * rate + j] == f_pow(b, k)[j],
        squeeze(b, rate, n).len() == n * rate,
{
    lemma_squeeze_len(b, rate, n);
    lemma_squeeze_len(b, rate, k);
    lemma_squeeze_len(b, rate, (k - 1) as nat);
    lemma_squeeze_prefix(b, rate, k, n);
    assert((k - 1) * rate + j < k * rate) by (nonlinear_arith)
        requires
            j < rate,
            k >= 1,
    ;
    assert(k * rate <= n * rate) by (nonlinear_arith)
        requires
            k <= n,
            rate > 0,
    ;
    assert(squeeze(b, rate, n)[(k - 1) * rate + j] == squeeze(b, rate, n).take(k * rate)[(k - 1)
        * rate + j]);
}

proof fn lemma_stream_index(b0: Seq<u8>, rate: int, r0: int, nn: nat, k: nat, q: int, p: int)
    requires
        valid_rate(rate),
        b0.len() == 200,
        0 <= r0 <= rate,
        k <= nn,
        0 <= p < rate,
        q == r0 + k * rate - rate + p,
        0 <= q,
        k == 0 ==> p >= rate - r0,
    ensures
        (b0.subrange(rate - r0, rate) + squeeze(b0, rate, nn))[q] == f_pow(b0, k)[p],
{
    let a = b0.subrange(rate - r0, rate);
    lemma_squeeze_len(b0, rate, nn);
    if k == 0 {
        assert(q < r0);
        assert((a + squeeze(b0, rate, nn))[q] == a[q]);
    } else {
        lemma_squeeze_index(b0, rate, nn, k, p);
        assert(q - r0 == (k - 1) * rate + p) by (nonlinear_arith)
            requires
                q == r0 + k * rate - rate + p,
        ;
        assert(k * rate <= nn * rate) by (nonlinear_arith)
            requires
                k <= nn,
                rate > 0,
        ;
        assert(q < r0 + nn * rate);
        assert((a + squeeze(b0, rate, nn))[q] == squeeze(b0, rate, nn)[q - r0]);
    }
}

/// An incremental SHAKE256 context: the 25 state lanes and the position in the current block
/// (bytes absorbed while absorbing, bytes left while squeezing).
pub struct Shake256Inc {
    s: [u64; 25],
    pos: usize,
}

impl Shake256Inc {
    /// The 200-byte view of the state.
    pub closed spec fn state_bytes(&self) -> Seq<u8> {
        lanes_to_bytes(self.s@)
    }

    /// The position in the current block.
    pub closed spec fn position(&self) -> nat {
        self.pos as nat
    }

    /// A fresh context: zero state, nothing absorbed.
    pub fn new() -> (r: Self)
        ensures
            r.state_bytes() == zero_state(),
            r.position() == 0,
    {
        let r = Self { s: [0u64; 25], pos: 0 };
        proof {
            lemma_zero_lanes(r.s@);
        }
        r
    }

    fn xor_byte(&mut self, idx: usize, v: u8)
        requires
            idx < 200,
        ensures
            lanes_to_bytes(final(self).s@) == xor_at(lanes_to_bytes(old(self).s@), idx as int, v),
            final(self).pos == old(self).pos,
    {
        proof {
            lemma_xor_byte(self.s@, idx as int, v);
        }
        let sh: u64 = (8 * (idx % 8)) as u64;
        self.s[idx / 8] = self.s[idx / 8] ^ ((v as u64) << sh);
    }

    /// Absorbs `input` after the bytes `t` already absorbed.
    fn absorb(&mut self, input: &[u8], rate: usize, Ghost(t): Ghost<Seq<u8>>)
        requires
            valid_rate(rate as int),
            old(self).pos < rate,
            old(self).pos == t.len() as int % (rate as int),
            lanes_to_bytes(old(self).s@) == inc_absorb(zero_state(), t, rate as int),
        ensures
            final(self).pos < rate,
            final(self).pos == (t + input@).len() as int % (rate as int),
            lanes_to_bytes(final(self).s@) == inc_absorb(zero_state(), t + input@, rate as int),
    {
        let mut at: usize = 0;
        let mut left: usize = input.len();
        while left > 0
            invariant
                valid_rate(rate as int),
                at + left == input.len(),
                self.pos < rate,
                self.pos == (t + input@.take(at as int)).len() as int % (rate as int),
                lanes_to_bytes(self.s@) == inc_absorb(zero_state(), t + input@.take(at as int), rate as int),
            decreases left,
        {
            let ghost done = t + input@.take(at as int);
            let ghost x0 = lanes_to_bytes(self.s@);
            let p = self.pos;
            let avail = rate - p;
            let n = if left >= avail {
                avail
            } else {
                left
            };
            let mut i: usize = 0;
            while i < n
                invariant
                    valid_rate(rate as int),
                    p < rate,
                    p + n <= rate,
                    at + n <= input.len(),
                    i <= n,
                    self.pos == p,
                    lanes_to_bytes(self.s@) == xor_at_range(x0, p as int, input@.subrange(
                        at as int,
                        at + i,
                    )),
                decreases n - i,
            {
                let ghost before = lanes_to_bytes(self.s@);
                self.xor_byte(p + i, input[at + i]);
                assert(xor_at(
                    xor_at_range(x0, p as int, input@.subrange(at as int, at + i)),
                    p + i,
                    input@[at + i],
                ) =~= xor_at_range(x0, p as int, input@.subrange(at as int, at + i + 1)));
                i = i + 1;
            }
            let ghost c = input@.subrange(at as int, at + n);
            proof {
                lemma_inc_chunk(zero_state(), done, c, rate as int);
                assert(done + c =~= t + input@.take(at + n));
            }
            if n == avail {
                let ghost pre = self.s@;
                keccak_f1600(&mut self.s);
                proof {
                    lemma_permute_bytes(pre);
                }
                self.pos = 0;
            } else {
                self.pos = p + n;
            }
            at = at + n;
            left = left - n;
        }
        assert(input@.take(at as int) =~= input@);
    }

    /// Pads the pending block with the domain byte `p` and the final bit.
    fn finalize(&mut self, rate: usize, p: u8, Ghost(t): Ghost<Seq<u8>>)
        requires
            valid_rate(rate as int),
            p < 0x80,
            old(self).pos < rate,
            old(self).pos == t.len() as int % (rate as int),
            lanes_to_bytes(old(self).s@) == inc_absorb(zero_state(), t, rate as int),
        ensures
            final(self).pos == 0,
            lanes_to_bytes(final(self).s@) == absorb(zero_state(), t, rate as int, p),
    {
        let idx = self.pos;
        self.xor_byte(idx, p);
        self.xor_byte(rate - 1, 0x80);
        self.pos = 0;
        proof {
            lemma_inc_finalize(zero_state(), t, rate as int, p);
        }
    }

    /// Squeezes `out.len()` bytes: first what is left of the current block, then whole
    /// permuted blocks.
    fn squeeze(&mut self, out: &mut [u8], rate: usize)
        requires
            valid_rate(rate as int),
            old(self).pos <= rate,
        ensures
            final(out)@.len() == old(out)@.len(),
            final(out)@ == (lanes_to_bytes(old(self).s@).subrange(rate - old(self).pos, rate as int)
                + squeeze(lanes_to_bytes(old(self).s@), rate as int, old(out)@.len() / (rate as nat) + 1)).take(
                old(out)@.len() as int,
            ),
            final(self).pos <= rate,
    {
        let ghost b0 = lanes_to_bytes(self.s@);
        let ghost r0 = self.pos as int;
        let len = out.len();
        let ghost nn: nat = (len / rate + 1) as nat;
        let ghost st = b0.subrange(rate - r0, rate as int) + squeeze(b0, rate as int, nn);
        let ghost mut k: nat = 0;
        proof {
            lemma_squeeze_len(b0, rate as int, nn);
            assert(len < nn * rate) by (nonlinear_arith)
                requires
                    nn == len / rate + 1,
                    rate > 0,
            ;
        }
        let mut done: usize = 0;
        while done < len
            invariant
                valid_rate(rate as int),
                len == out@.len(),
                b0.len() == 200,
                st.len() == r0 + nn * rate,
                st == b0.subrange(rate - r0, rate as int) + squeeze(b0, rate as int, nn),
                nn == len / rate + 1,
                len < nn * rate,
                0 <= r0 <= rate,
                done <= len,
                self.pos <= rate,
                self.pos + done == r0 + k * rate,
                lanes_to_bytes(self.s@) == f_pow(b0, k),
                forall|q: int| 0 <= q < done ==> #[trigger] out@[q] == st[q],
            decreases len - done,
        {
            proof {
                assert(k <= nn) by (nonlinear_arith)
                    requires
                        self.pos + done == r0 + k * rate,
                        self.pos <= rate,
                        done <= len,
                        len < nn * rate,
                        r0 >= 0,
                        rate > 0,
                ;
            }
            if self.pos > 0 {
                let r = self.pos;
                let avail = if r < len - done {
                    r
                } else {
                    len - done
                };
                let mut i: usize = 0;
                while i < avail
                    invariant
                        valid_rate(rate as int),
                        len == out@.len(),
                        b0.len() == 200,
                        st == b0.subrange(rate - r0, rate as int) + squeeze(b0, rate as int, nn),
                        st.len() == r0 + nn * rate,
                        0 <= r0 <= rate,
                        r <= rate,
                        r + done == r0 + k * rate,
                        k <= nn,
                        self.pos == r,
                        i <= avail,
                        avail <= r,
                        done + avail <= len,
                        lanes_to_bytes(self.s@) == f_pow(b0, k),
                        forall|q: int| 0 <= q < done + i ==> #[trigger] out@[q] == st[q],
                    decreases avail - i,
                {
                    let p = rate - r + i;
                    let v = (self.s[p / 8] >> ((8 * (p % 8)) as u64)) as u8;
                    proof {
                        if k == 0 {
                            assert(k * rate == 0);
                        }
                        lemma_stream_index(b0, rate as int, r0, nn, k, done + i, p as int);
                    }
                    out[done + i] = v;
                    i = i + 1;
                }
                done = done + avail;
                self.pos = r - avail;
            }
            if done < len {
                proof {
                    assert(self.pos == 0) by {
                        if self.pos > 0 {
                            assert(done == len);
                        }
                    }
                    assert(k < nn) by (nonlinear_arith)
                        requires
                            done == r0 + k * rate,
                            done < len,
                            len < nn * rate,
                            r0 >= 0,
                            rate > 0,
                    ;
                }
                let ghost pre = self.s@;
                keccak_f1600(&mut self.s);
                proof {
                    lemma_permute_bytes(pre);
                    k = k + 1;
                    assert(f_pow(b0, k) == f_bytes(f_pow(b0, (k - 1) as nat)));
                }
                let take = if len - done < rate {
                    len - done
                } else {
                    rate
                };
                let mut j: usize = 0;
                while j < take
                    invariant
                        valid_rate(rate as int),
                        len == out@.len(),
                        b0.len() == 200,
                        st == b0.subrange(rate - r0, rate as int) + squeeze(b0, rate as int, nn),
                        st.len() == r0 + nn * rate,
                        0 <= r0 <= rate,
                        done == r0 + (k - 1) * rate,
                        1 <= k <= nn,
                        j <= take,
                        take <= rate,
                        done + take <= len,
                        lanes_to_bytes(self.s@) == f_pow(b0, k),
                        forall|q: int| 0 <= q < done + j ==> #[trigger] out@[q] == st[q],
                    decreases take - j,
                {
                    let v = (self.s[j / 8] >> ((8 * (j % 8)) as u64)) as u8;
                    proof {
                        assert((k - 1) * rate == k * rate - rate) by (nonlinear_arith)
                            requires
                                k >= 1,
                        ;
                        lemma_stream_index(b0, rate as int, r0, nn, k, done + j, j as int);
                    }
                    out[done + j] = v;
                    j = j + 1;
                }
                done = done + take;
                self.pos = rate - take;
                proof {
                    assert(self.pos + done == r0 + k * rate) by (nonlinear_arith)
                        requires
                            self.pos == rate - take,
                            done == r0 + (k - 1) * rate + take,
                    ;
                }
            }
        }
        assert(out@ =~= st.take(len as int));
    }

    /// `out = SHAKE256(key || ct)`, 32 bytes; the context is reset first.
    pub fn rkprf(&mut self, key: &[u8], ct: &[u8], out: &mut [u8; 32])
        ensures
            final(out)@ == shake256_spec(key@ + ct@, 32),
    {
        self.s = [0u64; 25];
        self.pos = 0;
        proof {
            lemma_zero_lanes(self.s@);
            assert(xor_into(zero_state(), Seq::<u8>::empty()) =~= zero_state());
            assert(Seq::<u8>::empty() + key@ =~= key@);
        }
        self.absorb(key, SHAKE256_RATE, Ghost(Seq::<u8>::empty()));
        self.absorb(ct, SHAKE256_RATE, Ghost(key@));
        self.finalize(SHAKE256_RATE, 0x1f, Ghost(key@ + ct@));
        let ghost st = lanes_to_bytes(self.s@);
        self.squeeze(out, SHAKE256_RATE);
        proof {
            assert(st.subrange(136, 136) =~= Seq::<u8>::empty());
            lemma_squeeze_len(st, 136, 1);
            assert(Seq::<u8>::empty() + squeeze(st, 136, 1) =~= squeeze(st, 136, 1));
            assert(out@ =~= shake256_spec(key@ + ct@, 32));
        }
    }
}

proof fn lemma_zero_lanes(s: Seq<u64>)
    requires
        s.len() == 25,
        forall|i: int| 0 <= i < 25 ==> s[i] == 0u64,
    ensures
        lanes_to_bytes(s) == zero_state(),
{
    assert forall|j: int| 0 <= j < 200 implies #[trigger] lanes_to_bytes(s)[j] == 0u8 by {
        let z = s[j / 8];
        let sh = (8 * (j % 8)) as u64;
        assert(z == 0);
        assert(((0u64 >> sh) as u8) == 0u8) by (bit_vector);
    }
    assert(lanes_to_bytes(s) =~= zero_state());
}
} // verus!
