//! MessagePack helpers: packing 7-bit ASCII lines as strings, decoding a lone string,
//! recognising the quit line, and rendering any single value for display.
use vstd::prelude::*;

use crate::byteorder::{be32_at, be64_at};
use crate::error::{Error, Result};
use crate::frame::MAX_MSG;

verus! {

pub const DECODE_MAX_DEPTH: usize = 64;

pub const DECODE_MAX_ALLOC: usize = 8 * 1024 * 1024;

pub const QUIT_MAX_DEPTH: usize = 8;

pub const QUIT_MAX_ALLOC: usize = 65536;

pub const FMT_MAX_DEPTH: usize = 48;

/// Bytes charged against the allocation budget for each decoded element of an array
/// (twice that for each entry of a map).
pub const VALUE_SLOT_BYTES: usize = 32;

/// Every byte is 7-bit ASCII.
pub open spec fn is_ascii_bytes(s: Seq<u8>) -> bool {
    forall|i: int| 0 <= i < s.len() ==> #[trigger] s[i] <= 0x7f
}

/// Every byte must be `<= 0x7F` (7-bit ASCII).
pub fn ascii_valid(s: &[u8]) -> (r: bool)
    ensures
        r == is_ascii_bytes(s@),
{
    let mut i: usize = 0;
    while i < s.len()
        invariant
            i <= s.len(),
            forall|q: int| 0 <= q < i ==> #[trigger] s@[q] <= 0x7f,
        decreases s.len() - i,
    {
        if s[i] > 0x7f {
            return false;
        }
        i = i + 1;
    }
    true
}

/// The MessagePack string header for a payload of `len` bytes (fixstr, str8, str16, str32).
pub open spec fn str_header(len: nat) -> Seq<u8> {
    if len <= 31 {
        seq![(0xa0 + len) as u8]
    } else if len <= 255 {
        seq![0xd9u8, len as u8]
    } else if len <= 0xffff {
        seq![0xdau8, (len / 256) as u8, (len % 256) as u8]
    } else {
        seq![
            0xdbu8,
            (len / 0x100_0000) as u8,
            ((len / 0x1_0000) % 256) as u8,
            ((len / 256) % 256) as u8,
            (len % 256) as u8,
        ]
    }
}

fn pack_str(ascii: &[u8], out: &mut [u8]) -> (r: Result<usize>)
    requires
        ascii@.len() <= 0xffff_ffff,
        str_header(ascii@.len()).len() <= old(out)@.len(),
    ensures
        ({
            let h = str_header(ascii@.len());
            if h.len() + ascii@.len() > old(out)@.len() {
                r == Err::<usize, Error>(Error::BufferTooSmall) && final(out)@ == h + old(out)@.skip(h.len() as int)
            } else {
                r == Ok::<usize, Error>((h.len() + ascii@.len()) as usize) && final(out)@ == h
                    + ascii@ + old(out)@.skip((h.len() + ascii@.len()) as int)
            }
        }),
{
    let len = ascii.len();
    let ghost o0 = out@;
    let hdr: usize;
    if len <= 31 {
        assert(str_header(len as nat).len() == 1);
        out[0] = 0xa0 | len as u8;
        assert(0xa0 | (len as u8) == (0xa0 + len) as u8) by (bit_vector)
            requires
                len <= 31,
        ;
        hdr = 1;
    } else if len <= 255 {
        assert(str_header(len as nat).len() == 2);
        out[0] = 0xd9;
        out[1] = len as u8;
        hdr = 2;
    } else if len <= 0xffff {
        assert(str_header(len as nat).len() == 3);
        out[0] = 0xda;
        out[1] = (len >> 8usize) as u8;
        out[2] = len as u8;
        assert((len >> 8usize) as u8 == (len / 256) as u8 && len as u8 == (len % 256) as u8)
            by (bit_vector)
            requires
                len <= 0xffff,
        ;
        hdr = 3;
    } else {
        assert(str_header(len as nat).len() == 5);
        out[0] = 0xdb;
        out[1] = (len >> 24usize) as u8;
        out[2] = (len >> 16usize) as u8;
        out[3] = (len >> 8usize) as u8;
        out[4] = len as u8;
        assert((len >> 24usize) as u8 == (len / 0x100_0000) as u8 && (len >> 16usize) as u8 == ((
        len / 0x1_0000) % 256) as u8 && (len >> 8usize) as u8 == ((len / 256) % 256) as u8
            && len as u8 == (len % 256) as u8) by (bit_vector)
            requires
                len <= 0xffff_ffff,
        ;
        hdr = 5;
    }
    let ghost h = str_header(len as nat);
    assert(out@ =~= h + o0.skip(h.len() as int));
    if len > out.len() || hdr > out.len() - len {
        return Err(Error::BufferTooSmall);
    }
    let mut i: usize = 0;
    while i < len
        invariant
            i <= len,
            len == ascii.len(),
            hdr == h.len(),
            hdr + len <= out.len(),
            out@.len() == o0.len(),
            forall|q: int| 0 <= q < hdr ==> #[trigger] out@[q] == h[q],
            forall|q: int| 0 <= q < i ==> #[trigger] out@[hdr + q] == ascii@[q],
            forall|q: int| hdr + len <= q < o0.len() ==> #[trigger] out@[q] == o0[q],
        decreases len - i,
    {
        out[hdr + i] = ascii[i];
        i = i + 1;
    }
    assert forall|q: int| 0 <= q < o0.len() implies #[trigger] out@[q] == (h + ascii@ + o0.skip(
        (h.len() + ascii@.len()) as int,
    ))[q] by {
        if hdr <= q < hdr + len {
            assert(out@[hdr + (q - hdr)] == ascii@[q - hdr]);
        }
    }
    assert(out@ =~= h + ascii@ + o0.skip((h.len() + ascii@.len()) as int));
    Ok(hdr + len)
}

/// Packs a 7-bit ASCII line (at most `MAX_MSG` bytes) as one MessagePack string.
pub fn pack_line(ascii: &[u8], out: &mut [u8]) -> (r: Result<usize>)
    requires
        ascii@.len() <= MAX_MSG && is_ascii_bytes(ascii@) ==> str_header(ascii@.len()).len()
            <= old(out)@.len(),
    ensures
        ascii@.len() > MAX_MSG ==> r == Err::<usize, Error>(Error::Length) && final(out)@ == old(out)@,
        ascii@.len() <= MAX_MSG && !is_ascii_bytes(ascii@) ==> r == Err::<usize, Error>(
            Error::NotAscii,
        ) && final(out)@ == old(out)@,
        ascii@.len() <= MAX_MSG && is_ascii_bytes(ascii@) ==> {
            let h = str_header(ascii@.len());
            if h.len() + ascii@.len() > old(out)@.len() {
                r == Err::<usize, Error>(Error::BufferTooSmall) && final(out)@ == h + old(out)@.skip(h.len() as int)
            } else {
                r == Ok::<usize, Error>((h.len() + ascii@.len()) as usize) && final(out)@ == h
                    + ascii@ + old(out)@.skip((h.len() + ascii@.len()) as int)
            }
        },
{
    if ascii.len() > MAX_MSG {
        return Err(Error::Length);
    }
    if !ascii_valid(ascii) {
        return Err(Error::NotAscii);
    }
    pack_str(ascii, out)
}

/// A decoded MessagePack object; strings, binaries and extension payloads are byte ranges
/// (start, length) of the input, floats are their IEEE bits (`single` for 32-bit floats).
pub enum MpObj {
    Nil,
    Bool(bool),
    UInt(u64),
    Int(i64),
    Float(bool, u64),
    Str(int, int),
    Bin(int, int),
    Array(Seq<MpObj>),
    Dict(Seq<(MpObj, MpObj)>),
    Timestamp(i64),
    Ext(i8, int, int),
}

/// The limits a decode runs under: maximum nesting depth (0 = none) and allocation budget.
pub struct Limits {
    pub max_depth: nat,
    pub max_alloc: nat,
}

/// Big-endian 16-bit value at `p`.
pub open spec fn be16_at(d: Seq<u8>, p: int) -> u16 {
    (((d[p] as u16) << 8u16) | (d[p + 1] as u16)) as u16
}

/// Charging `size` bytes against budget `lim` with `cur` already spent.
pub open spec fn charge(lim: Limits, cur: nat, size: nat) -> Option<nat> {
    if lim.max_alloc != 0 && (size > lim.max_alloc || cur > lim.max_alloc - size) {
        None
    } else {
        Some(cur + size)
    }
}

/// A byte range of `len` bytes at `p` as the object `mk`, if it lies within the input.
pub open spec fn take_range(d: Seq<u8>, p: int, len: int, alloc: nat, kind: int) -> Option<
    (MpObj, int, nat),
> {
    if p + len > d.len() {
        None
    } else {
        Some(
            (
                if kind == 0 {
                    MpObj::Str(p, len)
                } else {
                    MpObj::Bin(p, len)
                },
                p + len,
                alloc,
            ),
        )
    }
}

/// A fixed-size extension of `size` bytes with type byte at `p`.
pub open spec fn parse_fixext(d: Seq<u8>, p: int, size: int, alloc: nat) -> Option<(MpObj, int, nat)> {
    if p + 1 > d.len() {
        None
    } else {
        let typ = d[p] as i8;
        let q = p + 1;
        if typ == -1 && size == 4 {
            if q + 4 > d.len() {
                None
            } else {
                Some((MpObj::Timestamp(be32_at(d, q) as i64), q + 4, alloc))
            }
        } else if typ == -1 && size == 8 {
            if q + 8 > d.len() {
                None
            } else {
                Some((MpObj::Timestamp(be64_at(d, q) as i64), q + 8, alloc))
            }
        } else if q + size > d.len() {
            None
        } else {
            Some((MpObj::Ext(typ, q, size), q + size, alloc))
        }
    }
}

/// An extension whose size field of `w` bytes starts at `p` (ext8, ext16, ext32).
pub open spec fn parse_ext(d: Seq<u8>, p: int, w: int, alloc: nat) -> Option<(MpObj, int, nat)> {
    if p + w > d.len() {
        None
    } else {
        let size: int = if w == 1 {
            d[p] as int
        } else if w == 2 {
            be16_at(d, p) as int
        } else {
            be32_at(d, p) as int
        };
        let tp = p + w;
        if tp + 1 > d.len() {
            None
        } else {
            let typ = d[tp] as i8;
            let q = tp + 1;
            if w == 1 && typ == -1 && (size == 4 || size == 8 || size == 12) {
                if size == 4 {
                    if q + 4 > d.len() {
                        None
                    } else {
                        Some((MpObj::Timestamp(be32_at(d, q) as i64), q + 4, alloc))
                    }
                } else if size == 8 {
                    if q + 8 > d.len() {
                        None
                    } else {
                        Some((MpObj::Timestamp(be64_at(d, q) as i64), q + 8, alloc))
                    }
                } else {
                    if q + 12 > d.len() {
                        None
                    } else {
                        Some((MpObj::Timestamp(be64_at(d, q + 4) as i64), q + 12, alloc))
                    }
                }
            } else if q + size > d.len() {
                None
            } else {
                Some((MpObj::Ext(typ, q, size), q + size, alloc))
            }
        }
    }
}

/// What the bytes at the start of an object say: a complete scalar object, the start of an
/// array or map of a number of elements, or a malformed object.
pub enum Head {
    Fail,
    Done(MpObj, int, nat),
    Container(bool, int, int, nat),
}

/// A complete object, or failure.
pub open spec fn done(r: Option<(MpObj, int, nat)>) -> Head {
    match r {
        None => Head::Fail,
        Some((o, e, a)) => Head::Done(o, e, a),
    }
}

/// The budget charge for `n` elements (array) or `n` entries (map), saturating.
pub open spec fn container_charge(n: int, is_map: bool) -> nat {
    let unit: int = if is_map { 2 * VALUE_SLOT_BYTES } else { VALUE_SLOT_BYTES as int };
    if n * unit > usize::MAX {
        usize::MAX as nat
    } else {
        (n * unit) as nat
    }
}

/// An array or map of `n` elements (entries) whose first element starts at `p`, after
/// charging the budget.
pub open spec fn container(is_map: bool, n: int, p: int, lim: Limits, alloc: nat) -> Head {
    match charge(lim, alloc, container_charge(n, is_map)) {
        None => Head::Fail,
        Some(a) => Head::Container(is_map, n, p, a),
    }
}

/// The start of the object of `d` at `pos`, at nesting `depth` with `alloc` of the budget
/// spent.
#[verifier::opaque]
pub open spec fn head(d: Seq<u8>, pos: int, depth: nat, lim: Limits, alloc: nat) -> Head {
    if lim.max_depth != 0 && depth > lim.max_depth {
        Head::Fail
    } else if pos < 0 || pos >= d.len() {
        Head::Fail
    } else {
        let b = d[pos];
        let p = pos + 1;
        if b == 0xc0 {
            Head::Done(MpObj::Nil, p, alloc)
        } else if b == 0xc2 {
            Head::Done(MpObj::Bool(false), p, alloc)
        } else if b == 0xc3 {
            Head::Done(MpObj::Bool(true), p, alloc)
        } else if b <= 0x7f {
            Head::Done(MpObj::UInt(b as u64), p, alloc)
        } else if b >= 0xe0 {
            Head::Done(MpObj::Int((b as i8) as i64), p, alloc)
        } else if b & 0xe0 == 0xa0 {
            done(take_range(d, p, (b & 0x1f) as int, alloc, 0))
        } else if b & 0xf0 == 0x90 {
            container(false, (b & 0x0f) as int, p, lim, alloc)
        } else if b & 0xf0 == 0x80 {
            container(true, (b & 0x0f) as int, p, lim, alloc)
        } else if b == 0xcc {
            if p + 1 > d.len() {
                Head::Fail
            } else {
                Head::Done(MpObj::UInt(d[p] as u64), p + 1, alloc)
            }
        } else if b == 0xcd {
            if p + 2 > d.len() {
                Head::Fail
            } else {
                Head::Done(MpObj::UInt(be16_at(d, p) as u64), p + 2, alloc)
            }
        } else if b == 0xce {
            if p + 4 > d.len() {
                Head::Fail
            } else {
                Head::Done(MpObj::UInt(be32_at(d, p) as u64), p + 4, alloc)
            }
        } else if b == 0xcf {
            if p + 8 > d.len() {
                Head::Fail
            } else {
                Head::Done(MpObj::UInt(be64_at(d, p)), p + 8, alloc)
            }
        } else if b == 0xd0 {
            if p + 1 > d.len() {
                Head::Fail
            } else {
                Head::Done(MpObj::Int((d[p] as i8) as i64), p + 1, alloc)
            }
        } else if b == 0xd1 {
            if p + 2 > d.len() {
                Head::Fail
            } else {
                Head::Done(MpObj::Int((be16_at(d, p) as i16) as i64), p + 2, alloc)
            }
        } else if b == 0xd2 {
            if p + 4 > d.len() {
                Head::Fail
            } else {
                Head::Done(MpObj::Int((be32_at(d, p) as i32) as i64), p + 4, alloc)
            }
        } else if b == 0xd3 {
            if p + 8 > d.len() {
                Head::Fail
            } else {
                Head::Done(MpObj::Int(be64_at(d, p) as i64), p + 8, alloc)
            }
        } else if b == 0xca {
            if p + 4 > d.len() {
                Head::Fail
            } else {
                Head::Done(MpObj::Float(true, be32_at(d, p) as u64), p + 4, alloc)
            }
        } else if b == 0xcb {
            if p + 8 > d.len() {
                Head::Fail
            } else {
                Head::Done(MpObj::Float(false, be64_at(d, p)), p + 8, alloc)
            }
        } else if b == 0xd9 || b == 0xc4 {
            if p + 1 > d.len() {
                Head::Fail
            } else {
                done(take_range(d, p + 1, d[p] as int, alloc, if b == 0xd9 { 0 } else { 1 }))
            }
        } else if b == 0xda || b == 0xc5 {
            if p + 2 > d.len() {
                Head::Fail
            } else {
                done(take_range(d, p + 2, be16_at(d, p) as int, alloc, if b == 0xda { 0 } else { 1 }))
            }
        } else if b == 0xdb || b == 0xc6 {
            if p + 4 > d.len() {
                Head::Fail
            } else {
                done(take_range(d, p + 4, be32_at(d, p) as int, alloc, if b == 0xdb { 0 } else { 1 }))
            }
        } else if b == 0xdc || b == 0xde {
            if p + 2 > d.len() {
                Head::Fail
            } else {
                container(b == 0xde, be16_at(d, p) as int, p + 2, lim, alloc)
            }
        } else if b == 0xdd || b == 0xdf {
            if p + 4 > d.len() {
                Head::Fail
            } else {
                container(b == 0xdf, be32_at(d, p) as int, p + 4, lim, alloc)
            }
        } else if b == 0xd4 {
            done(parse_fixext(d, p, 1, alloc))
        } else if b == 0xd5 {
            done(parse_fixext(d, p, 2, alloc))
        } else if b == 0xd6 {
            done(parse_fixext(d, p, 4, alloc))
        } else if b == 0xd7 {
            done(parse_fixext(d, p, 8, alloc))
        } else if b == 0xd8 {
            done(parse_fixext(d, p, 16, alloc))
        } else if b == 0xc7 {
            done(parse_ext(d, p, 1, alloc))
        } else if b == 0xc8 {
            done(parse_ext(d, p, 2, alloc))
        } else if b == 0xc9 {
            done(parse_ext(d, p, 4, alloc))
        } else {
            Head::Fail
        }
    }
}

/// Key/value pairs from a flat sequence of keys and values.
pub open spec fn pairs_of(xs: Seq<MpObj>) -> Seq<(MpObj, MpObj)> {
    Seq::new(xs.len() / 2, |i: int| (xs[2 * i], xs[2 * i + 1]))
}

/// The container object holding decoded elements (an array) or keys and values (a map).
pub open spec fn make_container(is_map: bool, xs: Seq<MpObj>) -> MpObj {
    if is_map {
        MpObj::Dict(pairs_of(xs))
    } else {
        MpObj::Array(xs)
    }
}

/// `x` in front of the result of decoding the rest.
pub open spec fn prepend_items(prefix: Seq<MpObj>, rest: Option<(Seq<MpObj>, int, nat)>) -> Option<
    (Seq<MpObj>, int, nat),
> {
    match rest {
        None => None,
        Some((xs, e, a)) => Some((prefix + xs, e, a)),
    }
}

/// Decoding `n` consecutive objects of `d` from `pos`, each at nesting `depth`: the objects,
/// where the last ends, and the budget spent after them.
pub open spec fn parse_n(d: Seq<u8>, pos: int, n: int, depth: nat, lim: Limits, alloc: nat) -> Option<
    (Seq<MpObj>, int, nat),
>
    decreases d.len() - pos,
{
    if n <= 0 {
        Some((Seq::empty(), pos, alloc))
    } else {
        match head(d, pos, depth, lim, alloc) {
            Head::Fail => None,
            Head::Done(o, q, a) => if q <= pos || q > d.len() {
                None
            } else {
                prepend_items(seq![o], parse_n(d, q, n - 1, depth, lim, a))
            },
            Head::Container(is_map, cnt, start, a) => if start <= pos || start > d.len() {
                None
            } else {
                match parse_n(d, start, if is_map { 2 * cnt } else { cnt }, depth + 1, lim, a) {
                    None => None,
                    Some((xs, q, a2)) => if q < start || q > d.len() {
                        None
                    } else {
                        prepend_items(
                            seq![make_container(is_map, xs)],
                            parse_n(d, q, n - 1, depth, lim, a2),
                        )
                    },
                }
            },
        }
    }
}

/// Decoding one object of `d` at `pos`: the object, where it ends, and the budget spent.
pub open spec fn parse_obj(d: Seq<u8>, pos: int, depth: nat, lim: Limits, alloc: nat) -> Option<
    (MpObj, int, nat),
> {
    match parse_n(d, pos, 1, depth, lim, alloc) {
        None => None,
        Some((xs, e, a)) => Some((xs[0], e, a)),
    }
}

/// Decoding exactly one top-level object that spans all of `d`.
pub open spec fn parse_top(d: Seq<u8>, lim: Limits) -> Option<MpObj> {
    match parse_obj(d, 0, 0, lim, 0) {
        Some((o, end, _)) => if end == d.len() {
            Some(o)
        } else {
            None
        },
        None => None,
    }
}

/// A decoded value; strings, binaries and extension payloads are (start, length) ranges of
/// the decoded input.
pub enum Value {
    Nil,
    Bool(bool),
    UInt(u64),
    Int(i64),
    Float(bool, u64),
    Str(usize, usize),
    Bin(usize, usize),
    Array(Vec<Value>),
    Dict(Vec<(Value, Value)>),
    Timestamp(i64),
    Ext(i8, usize, usize),
}

/// The object that a decoded value stands for.
pub open spec fn obj_of(v: Value) -> MpObj
    decreases v,
{
    match v {
        Value::Nil => MpObj::Nil,
        Value::Bool(b) => MpObj::Bool(b),
        Value::UInt(u) => MpObj::UInt(u),
        Value::Int(i) => MpObj::Int(i),
        Value::Float(single, bits) => MpObj::Float(single, bits),
        Value::Str(o, l) => MpObj::Str(o as int, l as int),
        Value::Bin(o, l) => MpObj::Bin(o as int, l as int),
        Value::Array(a) => MpObj::Array(objs_of(a@)),
        Value::Dict(m) => MpObj::Dict(entries_of(m@)),
        Value::Timestamp(t) => MpObj::Timestamp(t),
        Value::Ext(t, o, l) => MpObj::Ext(t, o as int, l as int),
    }
}

/// The objects that a sequence of decoded values stands for.
pub open spec fn objs_of(v: Seq<Value>) -> Seq<MpObj>
    decreases v,
{
    Seq::new(v.len(), |i: int| if 0 <= i < v.len() { obj_of(v[i]) } else { MpObj::Nil })
}

/// The key/value objects that a sequence of decoded pairs stands for.
pub open spec fn entries_of(v: Seq<(Value, Value)>) -> Seq<(MpObj, MpObj)>
    decreases v,
{
    Seq::new(
        v.len(),
        |i: int|
            if 0 <= i < v.len() {
                (obj_of(v[i].0), obj_of(v[i].1))
            } else {
                (MpObj::Nil, MpObj::Nil)
            },
    )
}

/// The flat sequence of keys and values of decoded pairs.
pub open spec fn flat_entries(v: Seq<(Value, Value)>) -> Seq<MpObj> {
    Seq::new(2 * v.len(), |i: int| if i % 2 == 0 { obj_of(v[i / 2].0) } else { obj_of(v[i / 2].1) })
}

proof fn lemma_objs_push(v: Seq<Value>, x: Value)
    ensures
        objs_of(v.push(x)) == objs_of(v) + seq![obj_of(x)],
{
    assert(objs_of(v.push(x)) =~= objs_of(v) + seq![obj_of(x)]);
}

proof fn lemma_flat_push(v: Seq<(Value, Value)>, k: Value, x: Value)
    ensures
        flat_entries(v.push((k, x))) == flat_entries(v) + seq![obj_of(k), obj_of(x)],
{
    assert(flat_entries(v.push((k, x))) =~= flat_entries(v) + seq![obj_of(k), obj_of(x)]);
}

proof fn lemma_pairs_flat(v: Seq<(Value, Value)>)
    ensures
        pairs_of(flat_entries(v)) == entries_of(v),
{
    assert(pairs_of(flat_entries(v)) =~= entries_of(v));
}

/// One object at `p` followed by `m - 1` more is `m` objects.
proof fn lemma_n_step(d: Seq<u8>, p: int, m: int, depth: nat, lim: Limits, al: nat)
    requires
        m > 0,
        0 <= p <= d.len(),
    ensures
        match parse_obj(d, p, depth, lim, al) {
            None => parse_n(d, p, m, depth, lim, al) is None,
            Some((x, q, a)) => parse_n(d, p, m, depth, lim, al) == prepend_items(
                seq![x],
                parse_n(d, q, m - 1, depth, lim, a),
            ),
        },
{
    match head(d, p, depth, lim, al) {
        Head::Fail => {},
        Head::Done(o, q, a) => {
            if !(q <= p || q > d.len()) {
                assert(parse_n(d, q, 0, depth, lim, a) == Some((Seq::<MpObj>::empty(), q, a)));
                assert(seq![o] + Seq::<MpObj>::empty() =~= seq![o]);
                match parse_n(d, q, m - 1, depth, lim, a) {
                    None => {},
                    Some((xs, e, a2)) => {},
                }
            }
        },
        Head::Container(is_map, cnt, start, a) => {
            if !(start <= p || start > d.len()) {
                match parse_n(d, start, if is_map { 2 * cnt } else { cnt }, depth + 1, lim, a) {
                    None => {},
                    Some((xs, q, a2)) => {
                        if !(q < start || q > d.len()) {
                            let c = make_container(is_map, xs);
                            assert(parse_n(d, q, 0, depth, lim, a2) == Some((Seq::<MpObj>::empty(), q, a2)));
                            assert(seq![c] + Seq::<MpObj>::empty() =~= seq![c]);
                            match parse_n(d, q, m - 1, depth, lim, a2) {
                                None => {},
                                Some((ys, e, a3)) => {},
                            }
                        }
                    },
                }
            }
        },
    }
}

/// One object, by what its head says.
proof fn lemma_obj_head(d: Seq<u8>, pos: int, depth: nat, lim: Limits, al: nat)
    requires
        0 <= pos <= d.len(),
    ensures
        parse_obj(d, pos, depth, lim, al) == match head(d, pos, depth, lim, al) {
            Head::Fail => None,
            Head::Done(o, q, a) => if q <= pos || q > d.len() {
                None
            } else {
                Some((o, q, a))
            },
            Head::Container(is_map, cnt, start, a) => if start <= pos || start > d.len() {
                None
            } else {
                match parse_n(d, start, if is_map { 2 * cnt } else { cnt }, depth + 1, lim, a) {
                    None => None,
                    Some((xs, q, a2)) => if q < start || q > d.len() {
                        None
                    } else {
                        Some((make_container(is_map, xs), q, a2))
                    },
                }
            },
        },
{
    lemma_n_step(d, pos, 1, depth, lim, al);
    match head(d, pos, depth, lim, al) {
        Head::Fail => {},
        Head::Done(o, q, a) => {
            if !(q <= pos || q > d.len()) {
                assert(parse_n(d, q, 0, depth, lim, a) == Some((Seq::<MpObj>::empty(), q, a)));
                assert(seq![o] + Seq::<MpObj>::empty() =~= seq![o]);
            }
        },
        Head::Container(is_map, cnt, start, a) => {
            if !(start <= pos || start > d.len()) {
                match parse_n(d, start, if is_map { 2 * cnt } else { cnt }, depth + 1, lim, a) {
                    None => {},
                    Some((xs, q, a2)) => {
                        if !(q < start || q > d.len()) {
                            let c = make_container(is_map, xs);
                            assert(parse_n(d, q, 0, depth, lim, a2) == Some((Seq::<MpObj>::empty(), q, a2)));
                            assert(seq![c] + Seq::<MpObj>::empty() =~= seq![c]);
                        }
                    },
                }
            }
        },
    }
}

/// Decoding the elements of an array or map that starts at `start`, after charging the
/// budget for it.
pub open spec fn parse_container(
    d: Seq<u8>,
    is_map: bool,
    n: int,
    start: int,
    depth: nat,
    lim: Limits,
    alloc: nat,
) -> Option<(MpObj, int, nat)> {
    match charge(lim, alloc, container_charge(n, is_map)) {
        None => None,
        Some(a) => match parse_n(d, start, if is_map { 2 * n } else { n }, depth + 1, lim, a) {
            None => None,
            Some((xs, q, a2)) => Some((make_container(is_map, xs), q, a2)),
        },
    }
}

struct Reader<'a> {
    data: &'a [u8],
    pos: usize,
    max_depth: usize,
    max_alloc: usize,
    cur_alloc: usize,
}

impl<'a> Reader<'a> {
    spec fn lim(&self) -> Limits {
        Limits { max_depth: self.max_depth as nat, max_alloc: self.max_alloc as nat }
    }

    spec fn wf(&self) -> bool {
        &&& self.pos <= self.data@.len()
        &&& self.data@.len() == self.data.len()
        &&& 0 < self.max_depth <= DECODE_MAX_DEPTH
        &&& 0 < self.max_alloc <= DECODE_MAX_ALLOC
        &&& self.cur_alloc <= self.max_alloc
    }

    spec fn same_input(&self, other: &Self) -> bool {
        &&& self.data == other.data
        &&& self.max_depth == other.max_depth
        &&& self.max_alloc == other.max_alloc
    }

    fn new(data: &'a [u8], max_depth: usize, max_alloc: usize) -> (r: Self)
        requires
            0 < max_depth <= DECODE_MAX_DEPTH,
            0 < max_alloc <= DECODE_MAX_ALLOC,
        ensures
            r.wf(),
            r.data == data,
            r.pos == 0,
            r.cur_alloc == 0,
            r.max_depth == max_depth,
            r.max_alloc == max_alloc,
    {
        Self { data, pos: 0, max_depth, max_alloc, cur_alloc: 0 }
    }

    fn require(&self, need: usize) -> (r: Result<()>)
        requires
            self.wf(),
        ensures
            r.is_ok() == (self.pos + need <= self.data.len()),
            r.is_err() ==> r == Err::<(), Error>(Error::MsgPack),
    {
        if need > self.data.len() || self.pos > self.data.len() - need {
            Err(Error::MsgPack)
        } else {
            Ok(())
        }
    }

    /// Consumes `len` bytes; returns where they start.
    fn read_bytes(&mut self, len: usize) -> (r: Result<usize>)
        requires
            old(self).wf(),
        ensures
            final(self).wf(),
            final(self).same_input(old(self)),
            final(self).cur_alloc == old(self).cur_alloc,
            old(self).pos + len <= old(self).data@.len() ==> r == Ok::<usize, Error>(old(self).pos)
                && final(self).pos == old(self).pos + len,
            old(self).pos + len > old(self).data@.len() ==> r == Err::<usize, Error>(Error::MsgPack),
    {
        self.require(len)?;
        let s = self.pos;
        self.pos = self.pos + len;
        Ok(s)
    }

    fn alloc_check(&mut self, size: usize) -> (r: Result<()>)
        requires
            old(self).wf(),
        ensures
            final(self).same_input(old(self)),
            final(self).pos == old(self).pos,
            final(self).wf(),
            match charge(old(self).lim(), old(self).cur_alloc as nat, size as nat) {
                None => r == Err::<(), Error>(Error::MsgPack),
                Some(a) => r == Ok::<(), Error>(()) && final(self).cur_alloc == a,
            },
    {
        if size > self.max_alloc || self.cur_alloc > self.max_alloc - size {
            return Err(Error::MsgPack);
        }
        self.cur_alloc = self.cur_alloc + size;
        Ok(())
    }

    fn read_u8(&mut self) -> (r: Result<u8>)
        requires
            old(self).wf(),
        ensures
            final(self).wf(),
            final(self).same_input(old(self)),
            final(self).cur_alloc == old(self).cur_alloc,
            old(self).pos + 1 <= old(self).data@.len() ==> r == Ok::<u8, Error>(
                old(self).data@[old(self).pos as int],
            ) && final(self).pos == old(self).pos + 1,
            old(self).pos + 1 > old(self).data@.len() ==> r == Err::<u8, Error>(Error::MsgPack),
    {
        let s = self.read_bytes(1)?;
        Ok(self.data[s])
    }

    fn read_be_u16(&mut self) -> (r: Result<u16>)
        requires
            old(self).wf(),
        ensures
            final(self).wf(),
            final(self).same_input(old(self)),
            final(self).cur_alloc == old(self).cur_alloc,
            old(self).pos + 2 <= old(self).data@.len() ==> r == Ok::<u16, Error>(
                be16_at(old(self).data@, old(self).pos as int),
            ) && final(self).pos == old(self).pos + 2,
            old(self).pos + 2 > old(self).data@.len() ==> r == Err::<u16, Error>(Error::MsgPack),
    {
        let s = self.read_bytes(2)?;
        Ok(((self.data[s] as u16) << 8u16) | (self.data[s + 1] as u16))
    }

    fn read_be_u32(&mut self) -> (r: Result<u32>)
        requires
            old(self).wf(),
        ensures
            final(self).wf(),
            final(self).same_input(old(self)),
            final(self).cur_alloc == old(self).cur_alloc,
            old(self).pos + 4 <= old(self).data@.len() ==> r == Ok::<u32, Error>(
                be32_at(old(self).data@, old(self).pos as int),
            ) && final(self).pos == old(self).pos + 4,
            old(self).pos + 4 > old(self).data@.len() ==> r == Err::<u32, Error>(Error::MsgPack),
    {
        let s = self.read_bytes(4)?;
        let d = self.data;
        Ok(((d[s] as u32) << 24u32) | ((d[s + 1] as u32) << 16u32) | ((d[s + 2] as u32) << 8u32) | (d[s
            + 3] as u32))
    }

    fn read_be_u64(&mut self) -> (r: Result<u64>)
        requires
            old(self).wf(),
        ensures
            final(self).wf(),
            final(self).same_input(old(self)),
            final(self).cur_alloc == old(self).cur_alloc,
            old(self).pos + 8 <= old(self).data@.len() ==> r == Ok::<u64, Error>(
                be64_at(old(self).data@, old(self).pos as int),
            ) && final(self).pos == old(self).pos + 8,
            old(self).pos + 8 > old(self).data@.len() ==> r == Err::<u64, Error>(Error::MsgPack),
    {
        let s = self.read_bytes(8)?;
        let d = self.data;
        Ok(((d[s] as u64) << 56u64) | ((d[s + 1] as u64) << 48u64) | ((d[s + 2] as u64) << 40u64) | ((
        d[s + 3] as u64) << 32u64) | ((d[s + 4] as u64) << 24u64) | ((d[s + 5] as u64) << 16u64) | ((d[s
            + 6] as u64) << 8u64) | (d[s + 7] as u64))
    }

    fn read_be_i16(&mut self) -> (r: Result<i16>)
        requires
            old(self).wf(),
        ensures
            final(self).wf(),
            final(self).same_input(old(self)),
            final(self).cur_alloc == old(self).cur_alloc,
            old(self).pos + 2 <= old(self).data@.len() ==> r == Ok::<i16, Error>(
                be16_at(old(self).data@, old(self).pos as int) as i16,
            ) && final(self).pos == old(self).pos + 2,
            old(self).pos + 2 > old(self).data@.len() ==> r == Err::<i16, Error>(Error::MsgPack),
    {
        Ok(self.read_be_u16()? as i16)
    }

    fn read_be_i32(&mut self) -> (r: Result<i32>)
        requires
            old(self).wf(),
        ensures
            final(self).wf(),
            final(self).same_input(old(self)),
            final(self).cur_alloc == old(self).cur_alloc,
            old(self).pos + 4 <= old(self).data@.len() ==> r == Ok::<i32, Error>(
                be32_at(old(self).data@, old(self).pos as int) as i32,
            ) && final(self).pos == old(self).pos + 4,
            old(self).pos + 4 > old(self).data@.len() ==> r == Err::<i32, Error>(Error::MsgPack),
    {
        Ok(self.read_be_u32()? as i32)
    }

    fn read_be_i64(&mut self) -> (r: Result<i64>)
        requires
            old(self).wf(),
        ensures
            final(self).wf(),
            final(self).same_input(old(self)),
            final(self).cur_alloc == old(self).cur_alloc,
            old(self).pos + 8 <= old(self).data@.len() ==> r == Ok::<i64, Error>(
                be64_at(old(self).data@, old(self).pos as int) as i64,
            ) && final(self).pos == old(self).pos + 8,
            old(self).pos + 8 > old(self).data@.len() ==> r == Err::<i64, Error>(Error::MsgPack),
    {
        Ok(self.read_be_u64()? as i64)
    }

    /// A 32-bit float, as its IEEE bits.
    fn read_f32(&mut self) -> (r: Result<u32>)
        requires
            old(self).wf(),
        ensures
            final(self).wf(),
            final(self).same_input(old(self)),
            final(self).cur_alloc == old(self).cur_alloc,
            old(self).pos + 4 <= old(self).data@.len() ==> r == Ok::<u32, Error>(
                be32_at(old(self).data@, old(self).pos as int),
            ) && final(self).pos == old(self).pos + 4,
            old(self).pos + 4 > old(self).data@.len() ==> r == Err::<u32, Error>(Error::MsgPack),
    {
        self.read_be_u32()
    }

    /// A 64-bit float, as its IEEE bits.
    fn read_f64(&mut self) -> (r: Result<u64>)
        requires
            old(self).wf(),
        ensures
            final(self).wf(),
            final(self).same_input(old(self)),
            final(self).cur_alloc == old(self).cur_alloc,
            old(self).pos + 8 <= old(self).data@.len() ==> r == Ok::<u64, Error>(
                be64_at(old(self).data@, old(self).pos as int),
            ) && final(self).pos == old(self).pos + 8,
            old(self).pos + 8 > old(self).data@.len() ==> r == Err::<u64, Error>(Error::MsgPack),
    {
        self.read_be_u64()
    }

    spec fn decoded(&self, old_r: &Self, r: Result<Value>, spec_r: Option<(MpObj, int, nat)>) -> bool {
        &&& self.wf()
        &&& self.same_input(old_r)
        &&& match spec_r {
            None => r == Err::<Value, Error>(Error::MsgPack),
            Some((o, end, a)) => {
                &&& r matches Ok(v)
                &&& obj_of(r->Ok_0) == o
                &&& self.pos == end
                &&& self.cur_alloc == a
                &&& old_r.pos <= end
            },
        }
    }

    fn read_range(&mut self, n: usize, kind: u8) -> (r: Result<Value>)
        requires
            old(self).wf(),
            0 < old(self).pos,
            kind == 0 || kind == 1,
        ensures
            final(self).decoded(
                old(self),
                r,
                take_range(old(self).data@, old(self).pos as int, n as int, old(self).cur_alloc as nat, kind as int),
            ),
    {
        let s = self.read_bytes(n)?;
        if kind == 0 {
            Ok(Value::Str(s, n))
        } else {
            Ok(Value::Bin(s, n))
        }
    }

    fn read_fixext(&mut self, size: usize, _depth: usize) -> (r: Result<Value>)
        requires
            old(self).wf(),
            0 < old(self).pos,
            size == 1 || size == 2 || size == 4 || size == 8 || size == 16,
        ensures
            final(self).decoded(
                old(self),
                r,
                parse_fixext(old(self).data@, old(self).pos as int, size as int, old(self).cur_alloc as nat),
            ),
    {
        let typ = self.read_u8()? as i8;
        if typ == -1 {
            if size == 4 {
                let sec = self.read_be_u32()? as i64;
                return Ok(Value::Timestamp(sec));
            }
            if size == 8 {
                return Ok(Value::Timestamp(self.read_be_i64()?));
            }
        }
        let s = self.read_bytes(size)?;
        Ok(Value::Ext(typ, s, size))
    }

    fn read_ext8(&mut self) -> (r: Result<Value>)
        requires
            old(self).wf(),
            0 < old(self).pos,
        ensures
            final(self).decoded(
                old(self),
                r,
                parse_ext(old(self).data@, old(self).pos as int, 1, old(self).cur_alloc as nat),
            ),
    {
        let size = self.read_u8()? as usize;
        let typ = self.read_u8()? as i8;
        if typ == -1 && (size == 4 || size == 8 || size == 12) {
            if size == 4 {
                return Ok(Value::Timestamp(self.read_be_u32()? as i64));
            }
            if size == 8 {
                return Ok(Value::Timestamp(self.read_be_i64()?));
            }
            let _ns = self.read_be_u32()?;
            return Ok(Value::Timestamp(self.read_be_i64()?));
        }
        let s = self.read_bytes(size)?;
        Ok(Value::Ext(typ, s, size))
    }

    fn read_ext16(&mut self) -> (r: Result<Value>)
        requires
            old(self).wf(),
            0 < old(self).pos,
        ensures
            final(self).decoded(
                old(self),
                r,
                parse_ext(old(self).data@, old(self).pos as int, 2, old(self).cur_alloc as nat),
            ),
    {
        let size = self.read_be_u16()? as usize;
        let typ = self.read_u8()? as i8;
        let s = self.read_bytes(size)?;
        Ok(Value::Ext(typ, s, size))
    }

    fn read_ext32(&mut self) -> (r: Result<Value>)
        requires
            old(self).wf(),
            0 < old(self).pos,
        ensures
            final(self).decoded(
                old(self),
                r,
                parse_ext(old(self).data@, old(self).pos as int, 4, old(self).cur_alloc as nat),
            ),
    {
        let size = self.read_be_u32()? as usize;
        let typ = self.read_u8()? as i8;
        let s = self.read_bytes(size)?;
        Ok(Value::Ext(typ, s, size))
    }

    fn read_object(&mut self, depth: usize) -> (r: Result<Value>)
        requires
            old(self).wf(),
            depth <= old(self).max_depth + 1,
        ensures
            final(self).decoded(
                old(self),
                r,
                parse_obj(
                    old(self).data@,
                    old(self).pos as int,
                    depth as nat,
                    old(self).lim(),
                    old(self).cur_alloc as nat,
                ),
            ),
            r.is_ok() ==> old(self).pos < final(self).pos,
        decreases old(self).data@.len() - old(self).pos, 0nat, 0nat,
    {
        proof {
            lemma_obj_head(self.data@, self.pos as int, depth as nat, self.lim(), self.cur_alloc as nat);
            reveal(head);
        }
        if self.max_depth != 0 && depth > self.max_depth {
            return Err(Error::MsgPack);
        }
        if self.pos >= self.data.len() {
            return Err(Error::MsgPack);
        }
        let b = self.read_u8()?;
        if b == 0xc0 {
            return Ok(Value::Nil);
        }
        if b == 0xc2 {
            return Ok(Value::Bool(false));
        }
        if b == 0xc3 {
            return Ok(Value::Bool(true));
        }
        if b <= 0x7f {
            return Ok(Value::UInt(b as u64));
        }
        if b >= 0xe0 {
            return Ok(Value::Int(b as i8 as i64));
        }
        if (b & 0xe0) == 0xa0 {
            let n = (b & 0x1f) as usize;
            return self.read_range(n, 0);
        }
        if (b & 0xf0) == 0x90 {
            let n = (b & 0x0f) as usize;
            return self.read_array(n, depth);
        }
        if (b & 0xf0) == 0x80 {
            let n = (b & 0x0f) as usize;
            return self.read_map(n, depth);
        }
        match b {
            0xcc => Ok(Value::UInt(self.read_u8()? as u64)),
            0xcd => Ok(Value::UInt(self.read_be_u16()? as u64)),
            0xce => Ok(Value::UInt(self.read_be_u32()? as u64)),
            0xcf => Ok(Value::UInt(self.read_be_u64()?)),
            0xd0 => Ok(Value::Int(self.read_u8()? as i8 as i64)),
            0xd1 => Ok(Value::Int(self.read_be_i16()? as i64)),
            0xd2 => Ok(Value::Int(self.read_be_i32()? as i64)),
            0xd3 => Ok(Value::Int(self.read_be_i64()?)),
            0xca => Ok(Value::Float(true, self.read_f32()? as u64)),
            0xcb => Ok(Value::Float(false, self.read_f64()?)),
            0xd9 => {
                let n = self.read_u8()? as usize;
                self.read_range(n, 0)
            },
            0xda => {
                let n = self.read_be_u16()? as usize;
                self.read_range(n, 0)
            },
            0xdb => {
                let n = self.read_be_u32()? as usize;
                self.read_range(n, 0)
            },
            0xc4 => {
                let n = self.read_u8()? as usize;
                self.read_range(n, 1)
            },
            0xc5 => {
                let n = self.read_be_u16()? as usize;
                self.read_range(n, 1)
            },
            0xc6 => {
                let n = self.read_be_u32()? as usize;
                self.read_range(n, 1)
            },
            0xdc => {
                let n = self.read_be_u16()? as usize;
                self.read_array(n, depth)
            },
            0xdd => {
                let n = self.read_be_u32()? as usize;
                self.read_array(n, depth)
            },
            0xde => {
                let n = self.read_be_u16()? as usize;
                self.read_map(n, depth)
            },
            0xdf => {
                let n = self.read_be_u32()? as usize;
                self.read_map(n, depth)
            },
            0xd4 => self.read_fixext(1, depth),
            0xd5 => self.read_fixext(2, depth),
            0xd6 => self.read_fixext(4, depth),
            0xd7 => self.read_fixext(8, depth),
            0xd8 => self.read_fixext(16, depth),
            0xc7 => self.read_ext8(),
            0xc8 => self.read_ext16(),
            0xc9 => self.read_ext32(),
            _ => Err(Error::MsgPack),
        }
    }

    fn read_array(&mut self, n: usize, depth: usize) -> (r: Result<Value>)
        requires
            old(self).wf(),
            0 < old(self).pos,
            depth <= old(self).max_depth,
        ensures
            final(self).decoded(
                old(self),
                r,
                parse_container(
                    old(self).data@,
                    false,
                    n as int,
                    old(self).pos as int,
                    depth as nat,
                    old(self).lim(),
                    old(self).cur_alloc as nat,
                ),
            ),
        decreases old(self).data@.len() - old(self).pos, 1nat,
    {
        let size = match n.checked_mul(VALUE_SLOT_BYTES) {
            Some(x) => x,
            None => usize::MAX,
        };
        self.alloc_check(size)?;
        let ghost p0 = self.pos as int;
        let ghost a0 = self.cur_alloc as nat;
        let ghost d = self.data@;
        let ghost lim = self.lim();
        let mut v: Vec<Value> = Vec::with_capacity(n);
        let mut k: usize = 0;
        proof {
            assert(objs_of(v@) =~= Seq::<MpObj>::empty());
            assert(prepend_items(Seq::<MpObj>::empty(), parse_n(d, p0, n as int, (depth + 1) as nat, lim, a0))
                =~= parse_n(d, p0, n as int, (depth + 1) as nat, lim, a0));
        }
        while k < n
            invariant
                self.wf(),
                self.data@ == d,
                self.lim() == lim,
                lim == old(self).lim(),
                self.data == old(self).data,
                self.max_depth == old(self).max_depth,
                self.max_alloc == old(self).max_alloc,
                depth <= self.max_depth,
                k <= n,
                v@.len() == k,
                p0 == old(self).pos,
                p0 <= self.pos,
                charge(lim, old(self).cur_alloc as nat, container_charge(n as int, false)) == Some(a0),
                prepend_items(
                    objs_of(v@),
                    parse_n(d, self.pos as int, (n - k) as int, (depth + 1) as nat, lim, self.cur_alloc as nat),
                ) == parse_n(d, p0, n as int, (depth + 1) as nat, lim, a0),
            decreases n - k,
        {
            let ghost objs = objs_of(v@);
            let ghost pos = self.pos as int;
            let ghost al = self.cur_alloc as nat;
            proof {
                lemma_n_step(d, pos, (n - k) as int, (depth + 1) as nat, lim, al);
            }
            let x = self.read_object(depth + 1)?;
            proof {
                let rest = parse_n(d, self.pos as int, (n - k - 1) as int, (depth + 1) as nat, lim, self.cur_alloc as nat);
                lemma_objs_push(v@, x);
                match rest {
                    None => {},
                    Some((xs, e, a)) => {
                        assert(objs + seq![obj_of(x)] + xs =~= objs + (seq![obj_of(x)] + xs));
                    },
                }
            }
            v.push(x);
            k = k + 1;
        }
        proof {
            assert(objs_of(v@) + Seq::<MpObj>::empty() =~= objs_of(v@));
        }
        Ok(Value::Array(v))
    }

    #[verifier::rlimit(80)]
    fn read_map(&mut self, n: usize, depth: usize) -> (r: Result<Value>)
        requires
            old(self).wf(),
            0 < old(self).pos,
            depth <= old(self).max_depth,
        ensures
            final(self).decoded(
                old(self),
                r,
                parse_container(
                    old(self).data@,
                    true,
                    n as int,
                    old(self).pos as int,
                    depth as nat,
                    old(self).lim(),
                    old(self).cur_alloc as nat,
                ),
            ),
        decreases old(self).data@.len() - old(self).pos, 1nat,
    {
        let size = match n.checked_mul(2 * VALUE_SLOT_BYTES) {
            Some(x) => x,
            None => usize::MAX,
        };
        self.alloc_check(size)?;
        let ghost p0 = self.pos as int;
        let ghost a0 = self.cur_alloc as nat;
        let ghost d = self.data@;
        let ghost lim = self.lim();
        let mut v: Vec<(Value, Value)> = Vec::with_capacity(n);
        let mut k: usize = 0;
        proof {
            assert(flat_entries(v@) =~= Seq::<MpObj>::empty());
            assert(prepend_items(Seq::<MpObj>::empty(), parse_n(d, p0, 2 * n, (depth + 1) as nat, lim, a0))
                =~= parse_n(d, p0, 2 * n, (depth + 1) as nat, lim, a0));
        }
        while k < n
            invariant
                self.wf(),
                self.data@ == d,
                self.lim() == lim,
                lim == old(self).lim(),
                self.data == old(self).data,
                self.max_depth == old(self).max_depth,
                self.max_alloc == old(self).max_alloc,
                depth <= self.max_depth,
                k <= n,
                v@.len() == k,
                p0 == old(self).pos,
                p0 <= self.pos,
                charge(lim, old(self).cur_alloc as nat, container_charge(n as int, true)) == Some(a0),
                prepend_items(
                    flat_entries(v@),
                    parse_n(d, self.pos as int, 2 * (n - k), (depth + 1) as nat, lim, self.cur_alloc as nat),
                ) == parse_n(d, p0, 2 * n, (depth + 1) as nat, lim, a0),
            decreases n - k,
        {
            let ghost es = flat_entries(v@);
            let ghost pos = self.pos as int;
            let ghost al = self.cur_alloc as nat;
            proof {
                lemma_n_step(d, pos, 2 * (n - k), (depth + 1) as nat, lim, al);
            }
            let key = self.read_object(depth + 1)?;
            let ghost pos2 = self.pos as int;
            let ghost al2 = self.cur_alloc as nat;
            proof {
                lemma_n_step(d, pos2, 2 * (n - k) - 1, (depth + 1) as nat, lim, al2);
            }
            let val = self.read_object(depth + 1)?;
            proof {
                let rest = parse_n(d, self.pos as int, 2 * (n - k - 1), (depth + 1) as nat, lim, self.cur_alloc as nat);
                lemma_flat_push(v@, key, val);
                match rest {
                    None => {},
                    Some((xs, e, a)) => {
                        assert(es + seq![obj_of(key), obj_of(val)] + xs =~= es + (seq![obj_of(key)] + (seq![obj_of(val)] + xs)));
                    },
                }
            }
            v.push((key, val));
            k = k + 1;
        }
        proof {
            assert(flat_entries(v@) + Seq::<MpObj>::empty() =~= flat_entries(v@));
            lemma_pairs_flat(v@);
        }
        Ok(Value::Dict(v))
    }

    fn read_top(&mut self) -> (r: Result<Value>)
        requires
            old(self).wf(),
            old(self).pos == 0,
        ensures
            match parse_top(old(self).data@, old(self).lim()) {
                None => r == Err::<Value, Error>(Error::MsgPack),
                Some(o) => r matches Ok(v) && obj_of(v) == o,
            },
    {
        self.cur_alloc = 0;
        let v = self.read_object(0)?;
        if self.pos != self.data.len() {
            return Err(Error::MsgPack);
        }
        Ok(v)
    }
}

/// The limits of a general decode: depth 64, 8 MiB budget.
pub open spec fn decode_limits() -> Limits {
    Limits { max_depth: DECODE_MAX_DEPTH as nat, max_alloc: DECODE_MAX_ALLOC as nat }
}

/// The limits of the quit check: depth 8, 64 KiB budget.
pub open spec fn quit_limits() -> Limits {
    Limits { max_depth: QUIT_MAX_DEPTH as nat, max_alloc: QUIT_MAX_ALLOC as nat }
}

/// The payload of `d` when `d` is exactly one MessagePack string.
pub open spec fn lone_string(d: Seq<u8>, lim: Limits) -> Option<Seq<u8>> {
    match parse_top(d, lim) {
        Some(MpObj::Str(o, l)) => Some(d.subrange(o, o + l)),
        _ => None,
    }
}

/// The four bytes `quit`.
pub open spec fn quit_bytes() -> Seq<u8> {
    seq![0x71u8, 0x75, 0x69, 0x74]
}

proof fn lemma_str_range(d: Seq<u8>, lim: Limits)
    ensures
        parse_top(d, lim) matches Some(MpObj::Str(o, l)) ==> 0 <= o && o + l <= d.len(),
{
    lemma_obj_head(d, 0, 0, lim, 0);
    reveal(head);
}

/// Decodes exactly one MessagePack string; copies its payload and a terminating zero into
/// `buf`, and returns the payload length.
pub fn decode_string_only(data: &[u8], buf: &mut [u8]) -> (r: Result<usize>)
    ensures
        old(buf)@.len() == 0 ==> r == Err::<usize, Error>(Error::InvalidArgument) && final(buf)@ == old(buf)@,
        old(buf)@.len() > 0 ==> match lone_string(data@, decode_limits()) {
            Some(s) => if s.len() < old(buf)@.len() {
                r == Ok::<usize, Error>(s.len() as usize) && final(buf)@ == s + seq![0u8] + old(buf)@.skip(s.len() + 1int)
            } else {
                r == Err::<usize, Error>(Error::MsgPack) && final(buf)@ == old(buf)@
            },
            None => r == Err::<usize, Error>(Error::MsgPack) && final(buf)@ == old(buf)@,
        },
{
    if buf.len() == 0 {
        return Err(Error::InvalidArgument);
    }
    let mut rd = Reader::new(data, DECODE_MAX_DEPTH, DECODE_MAX_ALLOC);
    let obj = rd.read_top()?;
    proof {
        lemma_str_range(data@, decode_limits());
    }
    let (off, len) = match obj {
        Value::Str(o, l) => (o, l),
        _ => {
            return Err(Error::MsgPack);
        },
    };
    if len >= buf.len() {
        return Err(Error::MsgPack);
    }
    let ghost b0 = buf@;
    let mut i: usize = 0;
    while i < len
        invariant
            i <= len,
            len < buf.len(),
            off + len <= data.len(),
            buf@.len() == b0.len(),
            forall|q: int| 0 <= q < i ==> #[trigger] buf@[q] == data@[off + q],
            forall|q: int| len <= q < b0.len() ==> #[trigger] buf@[q] == b0[q],
        decreases len - i,
    {
        buf[i] = data[off + i];
        i = i + 1;
    }
    buf[len] = 0;
    assert(buf@ =~= data@.subrange(off as int, off + len) + seq![0u8] + b0.skip(len + 1));
    Ok(len)
}

/// `true` when the plaintext is the MessagePack string `quit`.
pub fn payload_is_quit(p: &[u8]) -> (r: bool)
    ensures
        r == (lone_string(p@, quit_limits()) == Some(quit_bytes())),
{
    let mut rd = Reader::new(p, QUIT_MAX_DEPTH, QUIT_MAX_ALLOC);
    proof {
        lemma_str_range(p@, quit_limits());
    }
    match rd.read_top() {
        Ok(Value::Str(off, len)) => {
            let is_quit = len == 4 && p[off] == 0x71 && p[off + 1] == 0x75 && p[off + 2] == 0x69
                && p[off + 3] == 0x74;
            proof {
                if is_quit {
                    assert(p@.subrange(off as int, off + len) =~= quit_bytes());
                } else if len == 4 {
                    assert(p@.subrange(off as int, off + len)[0] == p@[off as int]);
                    assert(p@.subrange(off as int, off + len)[1] == p@[off + 1]);
                    assert(p@.subrange(off as int, off + len)[2] == p@[off + 2]);
                    assert(p@.subrange(off as int, off + len)[3] == p@[off + 3]);
                }
            }
            is_quit
        },
        _ => false,
    }
}

/// `pack_line` into a fresh vector.
pub fn pack_line_vec(ascii: &[u8]) -> (r: Result<Vec<u8>>)
    ensures
        ascii@.len() > MAX_MSG ==> r == Err::<Vec<u8>, Error>(Error::Length),
        ascii@.len() <= MAX_MSG && !is_ascii_bytes(ascii@) ==> r == Err::<Vec<u8>, Error>(
            Error::NotAscii,
        ),
        ascii@.len() <= MAX_MSG && is_ascii_bytes(ascii@) ==> (r matches Ok(v) && v@
            == str_header(ascii@.len()) + ascii@),
{
    let mut out = vec![0u8; MAX_MSG + 64];
    let n = pack_line(ascii, out.as_mut_slice())?;
    let ghost o = out@;
    out.truncate(n);
    assert(out@ =~= str_header(ascii@.len()) + ascii@);
    Ok(out)
}

/// `decode_string_only` into a fresh vector (payloads of at most `MAX_MSG` bytes).
pub fn decode_string_only_vec(data: &[u8]) -> (r: Result<Vec<u8>>)
    ensures
        match lone_string(data@, decode_limits()) {
            Some(s) => if s.len() <= MAX_MSG {
                (r matches Ok(v) && v@ == s)
            } else {
                r == Err::<Vec<u8>, Error>(Error::MsgPack)
            },
            None => r == Err::<Vec<u8>, Error>(Error::MsgPack),
        },
{
    let mut buf = vec![0u8; MAX_MSG + 1];
    let n = decode_string_only(data, buf.as_mut_slice())?;
    buf.truncate(n);
    proof {
        match lone_string(data@, decode_limits()) {
            Some(s) => {
                assert(buf@ =~= s);
            },
            None => {},
        }
    }
    Ok(buf)
}


/// Every byte range inside `o` lies within `d`.
pub open spec fn in_bounds(d: Seq<u8>, o: MpObj) -> bool
    decreases o,
{
    match o {
        MpObj::Str(p, l) => 0 <= p && 0 <= l && p + l <= d.len(),
        MpObj::Bin(p, l) => 0 <= p && 0 <= l && p + l <= d.len(),
        MpObj::Ext(_, p, l) => 0 <= p && 0 <= l && p + l <= d.len(),
        MpObj::Array(xs) => all_in_bounds(d, xs),
        MpObj::Dict(es) => entries_in_bounds(d, es),
        _ => true,
    }
}

/// Every object of `xs` has its byte ranges within `d`.
pub open spec fn all_in_bounds(d: Seq<u8>, xs: Seq<MpObj>) -> bool
    decreases xs,
{
    xs.len() == 0 || (all_in_bounds(d, xs.drop_last()) && in_bounds(d, xs.last()))
}

/// Every key and value of `es` has its byte ranges within `d`.
pub open spec fn entries_in_bounds(d: Seq<u8>, es: Seq<(MpObj, MpObj)>) -> bool
    decreases es,
{
    es.len() == 0 || (entries_in_bounds(d, es.drop_last()) && in_bounds(d, es.last().0) && in_bounds(
        d,
        es.last().1,
    ))
}

pub proof fn lemma_all_in_bounds(d: Seq<u8>, xs: Seq<MpObj>)
    ensures
        all_in_bounds(d, xs) <==> forall|i: int| 0 <= i < xs.len() ==> in_bounds(d, #[trigger] xs[i]),
    decreases xs.len(),
{
    if xs.len() > 0 {
        let ys = xs.drop_last();
        lemma_all_in_bounds(d, ys);
        assert forall|i: int| 0 <= i < ys.len() implies ys[i] == xs[i] by {}
        if forall|i: int| 0 <= i < xs.len() ==> in_bounds(d, #[trigger] xs[i]) {
            assert forall|i: int| 0 <= i < ys.len() implies in_bounds(d, #[trigger] ys[i]) by {
                assert(ys[i] == xs[i]);
            }
            assert(in_bounds(d, xs[xs.len() - 1]));
        }
        if all_in_bounds(d, xs) {
            assert forall|i: int| 0 <= i < xs.len() implies in_bounds(d, #[trigger] xs[i]) by {
                if i < ys.len() {
                    assert(ys[i] == xs[i]);
                }
            }
        }
    }
}

pub proof fn lemma_entries_in_bounds(d: Seq<u8>, es: Seq<(MpObj, MpObj)>)
    ensures
        entries_in_bounds(d, es) <==> forall|i: int|
            0 <= i < es.len() ==> in_bounds(d, (#[trigger] es[i]).0) && in_bounds(d, es[i].1),
    decreases es.len(),
{
    if es.len() > 0 {
        let ys = es.drop_last();
        lemma_entries_in_bounds(d, ys);
        if forall|i: int| 0 <= i < es.len() ==> in_bounds(d, (#[trigger] es[i]).0) && in_bounds(d, es[i].1) {
            assert forall|i: int| 0 <= i < ys.len() implies in_bounds(d, (#[trigger] ys[i]).0) && in_bounds(
                d,
                ys[i].1,
            ) by {
                assert(ys[i] == es[i]);
            }
            assert(in_bounds(d, es[es.len() - 1].0));
        }
        if entries_in_bounds(d, es) {
            assert forall|i: int| 0 <= i < es.len() implies in_bounds(d, (#[trigger] es[i]).0) && in_bounds(
                d,
                es[i].1,
            ) by {
                if i < ys.len() {
                    assert(ys[i] == es[i]);
                }
            }
        }
    }
}

proof fn lemma_head_in_bounds(d: Seq<u8>, pos: int, depth: nat, lim: Limits, al: nat)
    requires
        0 <= pos,
    ensures
        head(d, pos, depth, lim, al) matches Head::Done(o, q, a) ==> in_bounds(d, o),
{
    reveal(head);
}

proof fn lemma_parse_n_in_bounds(d: Seq<u8>, pos: int, n: int, depth: nat, lim: Limits, al: nat)
    requires
        0 <= pos,
    ensures
        parse_n(d, pos, n, depth, lim, al) matches Some((xs, e, a)) ==> forall|i: int|
            0 <= i < xs.len() ==> in_bounds(d, #[trigger] xs[i]),
    decreases d.len() - pos,
{
    if n > 0 {
        lemma_head_in_bounds(d, pos, depth, lim, al);
        match head(d, pos, depth, lim, al) {
            Head::Fail => {},
            Head::Done(o, q, a) => {
                if !(q <= pos || q > d.len()) {
                    lemma_parse_n_in_bounds(d, q, n - 1, depth, lim, a);
                    match parse_n(d, q, n - 1, depth, lim, a) {
                        None => {},
                        Some((ys, e, a2)) => {
                            let xs = seq![o] + ys;
                            assert forall|i: int| 0 <= i < xs.len() implies in_bounds(d, #[trigger] xs[i]) by {
                                if i > 0 {
                                    assert(xs[i] == ys[i - 1]);
                                }
                            }
                        },
                    }
                }
            },
            Head::Container(is_map, cnt, start, a) => {
                if !(start <= pos || start > d.len()) {
                    let m = if is_map { 2 * cnt } else { cnt };
                    lemma_parse_n_in_bounds(d, start, m, depth + 1, lim, a);
                    match parse_n(d, start, m, depth + 1, lim, a) {
                        None => {},
                        Some((zs, q, a2)) => {
                            if !(q < start || q > d.len()) {
                                let c = make_container(is_map, zs);
                                if is_map {
                                    let es = pairs_of(zs);
                                    assert forall|i: int| 0 <= i < es.len() implies in_bounds(d, (#[trigger] es[i]).0)
                                        && in_bounds(d, es[i].1) by {
                                        assert(es[i] == (zs[2 * i], zs[2 * i + 1]));
                                    }
                                    lemma_entries_in_bounds(d, es);
                                } else {
                                    lemma_all_in_bounds(d, zs);
                                }
                                assert(in_bounds(d, c));
                                lemma_parse_n_in_bounds(d, q, n - 1, depth, lim, a2);
                                match parse_n(d, q, n - 1, depth, lim, a2) {
                                    None => {},
                                    Some((ys, e, a3)) => {
                                        let xs = seq![c] + ys;
                                        assert forall|i: int| 0 <= i < xs.len() implies in_bounds(d, #[trigger] xs[i]) by {
                                            if i > 0 {
                                                assert(xs[i] == ys[i - 1]);
                                            }
                                        }
                                    },
                                }
                            }
                        },
                    }
                }
            },
        }
    }
}

/// Every byte range of a decoded top-level object lies within the input.
pub proof fn lemma_top_in_bounds(d: Seq<u8>, lim: Limits)
    ensures
        parse_top(d, lim) matches Some(o) ==> in_bounds(d, o),
{
    lemma_parse_n_in_bounds(d, 0, 1, 0, lim, 0);
}

/// Decodes exactly one top-level value under the general limits.
pub(crate) fn decode_value(data: &[u8]) -> (r: Result<Value>)
    ensures
        match parse_top(data@, decode_limits()) {
            None => r == Err::<Value, Error>(Error::MsgPack),
            Some(o) => (r matches Ok(v) && obj_of(v) == o),
        },
{
    let mut rd = Reader::new(data, DECODE_MAX_DEPTH, DECODE_MAX_ALLOC);
    rd.read_top()
}

/// A packed line decodes back to that line: for up to `MAX_MSG` bytes, the string header
/// followed by the bytes is exactly one MessagePack string whose payload is those bytes,
/// under any decode limits.
pub proof fn lemma_pack_decode_roundtrip(a: Seq<u8>, lim: Limits)
    requires
        a.len() <= MAX_MSG,
    ensures
        lone_string(str_header(a.len()) + a, lim) == Some(a),
{
    reveal(head);
    let len = a.len();
    let h = str_header(len);
    let d = h + a;
    let hl: int = if len <= 31 {
        1
    } else if len <= 255 {
        2
    } else {
        3
    };
    assert(h.len() == hl);
    if len <= 31 {
        let b: u8 = d[0];
        let l8 = len as u8;
        assert(b == 0xa0 + l8);
        assert(b & 0xe0u8 == 0xa0u8 && b & 0x1fu8 == l8 && b > 0x7fu8 && b < 0xe0u8) by (bit_vector)
            requires
                l8 <= 31,
                b == 0xa0 + l8,
        ;
    } else {
        assert(0xd9u8 & 0xe0u8 != 0xa0u8 && 0xd9u8 & 0xf0u8 != 0x90u8 && 0xd9u8 & 0xf0u8 != 0x80u8
            && 0xdau8 & 0xe0u8 != 0xa0u8 && 0xdau8 & 0xf0u8 != 0x90u8 && 0xdau8 & 0xf0u8 != 0x80u8)
            by (bit_vector);
        if len > 255 {
            let x = len as u16;
            assert(x as int == len);
            assert(d[1] == ((x / 256) as u8) && d[2] == ((x % 256) as u8));
            assert((((((x / 256) as u8) as u16) << 8u16) | (((x % 256) as u8) as u16)) as u16 == x)
                by (bit_vector);
            assert(be16_at(d, 1) == x);
        }
    }
    assert(head(d, 0, 0, lim, 0) == Head::Done(MpObj::Str(hl, len as int), hl + len, 0));
    assert(parse_n(d, hl + len, 0, 0, lim, 0) == Some((Seq::<MpObj>::empty(), hl + len, 0nat)));
    assert(seq![MpObj::Str(hl, len as int)] + Seq::<MpObj>::empty() =~= seq![MpObj::Str(hl, len as int)]);
    assert(parse_n(d, 0, 1, 0, lim, 0) == Some((seq![MpObj::Str(hl, len as int)], hl + len, 0nat)));
    assert(d.subrange(hl, hl + len) =~= a);
}

/// The integer formats decode to their numbers: a positive fixint byte `b` (up to 0x7f) to
/// `b`, a negative fixint byte (from 0xe0) to `b - 256`, uint 8 (0xcc) and uint 16 (0xcd) to
/// the unsigned value of the following byte(s) (big-endian), and int 8 (0xd0) and int 16
/// (0xd1) to the two's-complement signed value of the following byte(s): `x` if below half the
/// range, `x - 256` (`x - 65536`) otherwise. Each takes the format byte and its payload.
pub proof fn lemma_int_heads(d: Seq<u8>, pos: int, depth: nat, lim: Limits, alloc: nat)
    requires
        0 <= pos < d.len(),
        lim.max_depth == 0 || depth <= lim.max_depth,
    ensures
        d[pos] <= 0x7f ==> head(d, pos, depth, lim, alloc) == Head::Done(
            MpObj::UInt(d[pos] as u64),
            pos + 1,
            alloc,
        ),
        d[pos] >= 0xe0 ==> head(d, pos, depth, lim, alloc) == Head::Done(
            MpObj::Int((d[pos] - 256) as i64),
            pos + 1,
            alloc,
        ),
        d[pos] == 0xcc && pos + 2 <= d.len() ==> head(d, pos, depth, lim, alloc) == Head::Done(
            MpObj::UInt(d[pos + 1] as u64),
            pos + 2,
            alloc,
        ),
        d[pos] == 0xd0 && pos + 2 <= d.len() ==> head(d, pos, depth, lim, alloc) == Head::Done(
            MpObj::Int(
                if d[pos + 1] < 128 {
                    d[pos + 1] as i64
                } else {
                    (d[pos + 1] - 256) as i64
                },
            ),
            pos + 2,
            alloc,
        ),
        d[pos] == 0xcd && pos + 3 <= d.len() ==> head(d, pos, depth, lim, alloc) == Head::Done(
            MpObj::UInt((d[pos + 1] * 256 + d[pos + 2]) as u64),
            pos + 3,
            alloc,
        ),
        d[pos] == 0xd1 && pos + 3 <= d.len() ==> head(d, pos, depth, lim, alloc) == Head::Done(
            MpObj::Int(
                if d[pos + 1] < 128 {
                    (d[pos + 1] * 256 + d[pos + 2]) as i64
                } else {
                    (d[pos + 1] * 256 + d[pos + 2] - 65536) as i64
                },
            ),
            pos + 3,
            alloc,
        ),
{
    reveal(head);
    let b = d[pos];
    assert(0xccu8 & 0xe0u8 == 0xc0u8 && 0xcdu8 & 0xe0u8 == 0xc0u8 && 0xd0u8 & 0xe0u8 == 0xc0u8
        && 0xd1u8 & 0xe0u8 == 0xc0u8 && 0xccu8 & 0xf0u8 == 0xc0u8 && 0xcdu8 & 0xf0u8 == 0xc0u8
        && 0xd0u8 & 0xf0u8 == 0xd0u8 && 0xd1u8 & 0xf0u8 == 0xd0u8) by (bit_vector);
    assert(b >= 0xe0 ==> (b as i8) as i64 + 256 == b as i64) by (bit_vector);
    if pos + 2 <= d.len() {
        let x = d[pos + 1];
        assert((x as i8) as i64 + (if x < 128 { 0i64 } else { 256i64 }) == x as i64) by (bit_vector);
        if pos + 3 <= d.len() {
            let y = d[pos + 2];
            let v = be16_at(d, pos + 1);
            assert(v == (((x as u16) << 8u16) | (y as u16)) as u16);
            assert(v == x as int * 256 + y as int && (v as i16) as i64 + (if x < 128 {
                0i64
            } else {
                65536i64
            }) == v as i64) by (bit_vector)
                requires
                    v == (((x as u16) << 8u16) | (y as u16)) as u16,
            ;
        }
    }
}

/// The two bytes 0xd0 `b` are exactly one MessagePack int 8, whose value is `b` read as a
/// signed byte (`b - 256` from 0x80 on), under any decode limits.
pub proof fn lemma_int8_decodes(b: u8, lim: Limits)
    ensures
        parse_top(seq![0xd0u8, b], lim) == Some(
            MpObj::Int(
                if b < 128 {
                    b as i64
                } else {
                    (b - 256) as i64
                },
            ),
        ),
{
    let d = seq![0xd0u8, b];
    lemma_int_heads(d, 0, 0, lim, 0);
    assert(parse_n(d, 2, 0, 0, lim, 0) == Some((Seq::<MpObj>::empty(), 2int, 0nat)));
    let v = MpObj::Int(
        if b < 128 {
            b as i64
        } else {
            (b - 256) as i64
        },
    );
    assert(head(d, 0, 0, lim, 0) == Head::Done(v, 2, 0));
    assert(seq![v] + Seq::<MpObj>::empty() =~= seq![v]);
    assert(parse_n(d, 0, 1, 0, lim, 0) == Some((seq![v], 2int, 0nat)));
}

/// The string header is MessagePack's: for up to 31 bytes one byte 0xa0 + length (fixstr),
/// for up to 255 bytes 0xd9 then the length (str 8), for up to 65535 bytes 0xda then the
/// length as two big-endian bytes (str 16).
pub proof fn lemma_str_header_layout(len: nat)
    requires
        len <= 0xffff,
    ensures
        len <= 31 ==> str_header(len) == seq![(0xa0 + len) as u8] && 0xa0 + len <= 0xbf,
        32 <= len <= 255 ==> str_header(len).len() == 2 && str_header(len)[0] == 0xd9
            && str_header(len)[1] == len,
        256 <= len ==> str_header(len).len() == 3 && str_header(len)[0] == 0xda && str_header(len)[1]
            * 256 + str_header(len)[2] == len,
{
    if 256 <= len {
        vstd::arithmetic::div_mod::lemma_fundamental_div_mod(len as int, 256);
    }
}

} // verus!
