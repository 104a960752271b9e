//! Rendering a decoded MessagePack value as display text: `nil`, `true`/`false`, decimal
//! integers, quoted and escaped strings, `bin(..)` hex dumps, `timestamp(..)`,
//! `ext(type=..,len=..)`, arrays `[..]` and maps `{k:v}`.
//!
//! Floats are shown by text that the caller supplies for each float value (see
//! [`FloatText`]); everything else is rendered here.
use vstd::prelude::*;

use crate::error::{Error, Result};
use crate::msgpack::{
    decode_limits, decode_value, entries_of, in_bounds, lemma_all_in_bounds, lemma_entries_in_bounds,
    lemma_top_in_bounds, obj_of, objs_of,
    parse_top, MpObj, Value, FMT_MAX_DEPTH,
};

verus! {

/// The display text of one float value: 32-bit (`single`) or 64-bit, by its IEEE bits.
pub struct FloatText {
    pub single: bool,
    pub bits: u64,
    pub text: Vec<u8>,
}

/// The text given for float `(single, bits)`: the first entry of `ft` from index `i` on that
/// matches.
pub open spec fn float_from(ft: Seq<FloatText>, i: int, single: bool, bits: u64) -> Option<
    Seq<u8>,
>
    decreases ft.len() - i,
{
    if i < 0 || i >= ft.len() {
        None
    } else if ft[i].single == single && ft[i].bits == bits {
        Some(ft[i].text@)
    } else {
        float_from(ft, i + 1, single, bits)
    }
}

/// Decimal digits of `n`.
pub open spec fn dec_digits(n: nat) -> Seq<u8>
    decreases n,
{
    if n < 10 {
        seq![(48 + n) as u8]
    } else {
        dec_digits(n / 10).push((48 + n % 10) as u8)
    }
}

/// Decimal text of a signed integer.
pub open spec fn int_text(i: int) -> Seq<u8> {
    if i < 0 {
        seq![0x2du8] + dec_digits((-i) as nat)
    } else {
        dec_digits(i as nat)
    }
}

/// Lower-case hexadecimal digit of `x < 16`.
pub open spec fn hex_digit(x: int) -> u8 {
    if x < 10 {
        (48 + x) as u8
    } else {
        (87 + x) as u8
    }
}

/// Two lower-case hexadecimal digits of a byte.
pub open spec fn hex2(b: u8) -> Seq<u8> {
    seq![hex_digit((b / 16) as int), hex_digit((b % 16) as int)]
}

/// A string byte as shown inside quotes: `\\` and `\"` escaped, printable ASCII as itself,
/// anything else as `\xhh`.
pub open spec fn esc_byte(c: u8) -> Seq<u8> {
    if c == 0x5c || c == 0x22 {
        seq![0x5cu8, c]
    } else if 32 <= c < 127 {
        seq![c]
    } else {
        seq![0x5cu8, 0x78u8] + hex2(c)
    }
}

/// The escaped form of a byte string.
pub open spec fn escape(s: Seq<u8>) -> Seq<u8>
    decreases s.len(),
{
    if s.len() == 0 {
        Seq::empty()
    } else {
        escape(s.drop_last()) + esc_byte(s.last())
    }
}

/// The hexadecimal dump of a byte string.
pub open spec fn hex_dump(s: Seq<u8>) -> Seq<u8>
    decreases s.len(),
{
    if s.len() == 0 {
        Seq::empty()
    } else {
        hex_dump(s.drop_last()) + hex2(s.last())
    }
}

/// At most this many bytes of a binary are dumped.
pub const BIN_SHOWN: usize = 48;

/// `nil`
pub open spec fn nil_text() -> Seq<u8> {
    seq![0x6eu8, 0x69, 0x6c]
}

/// `true` or `false`
pub open spec fn bool_text(b: bool) -> Seq<u8> {
    if b {
        seq![0x74u8, 0x72, 0x75, 0x65]
    } else {
        seq![0x66u8, 0x61, 0x6c, 0x73, 0x65]
    }
}

/// `timestamp(t)`
pub open spec fn timestamp_text(t: i64) -> Seq<u8> {
    seq![0x74u8, 0x69, 0x6d, 0x65, 0x73, 0x74, 0x61, 0x6d, 0x70, 0x28] + int_text(t as int) + seq![
        0x29u8,
    ]
}

/// `ext(type=t,len=l)`
pub open spec fn ext_text(t: i8, l: nat) -> Seq<u8> {
    seq![0x65u8, 0x78, 0x74, 0x28, 0x74, 0x79, 0x70, 0x65, 0x3d] + int_text(t as int) + seq![
        0x2cu8,
        0x6c,
        0x65,
        0x6e,
        0x3d,
    ] + dec_digits(l) + seq![0x29u8]
}

/// `"escaped"`
pub open spec fn str_text(s: Seq<u8>) -> Seq<u8> {
    seq![0x22u8] + escape(s) + seq![0x22u8]
}

/// `bin(hex)`, with `...` after the first 48 bytes of a longer binary.
pub open spec fn bin_text(s: Seq<u8>) -> Seq<u8> {
    let shown = if s.len() > BIN_SHOWN {
        s.take(BIN_SHOWN as int)
    } else {
        s
    };
    seq![0x62u8, 0x69, 0x6e, 0x28] + hex_dump(shown) + (if s.len() > BIN_SHOWN {
        seq![0x2eu8, 0x2e, 0x2e]
    } else {
        Seq::empty()
    }) + seq![0x29u8]
}

/// The display text of a value that holds no other value.
pub open spec fn leaf_text(d: Seq<u8>, o: MpObj, ft: Seq<FloatText>) -> Seq<u8> {
    match o {
        MpObj::Nil => nil_text(),
        MpObj::Bool(b) => bool_text(b),
        MpObj::UInt(u) => dec_digits(u as nat),
        MpObj::Int(i) => int_text(i as int),
        MpObj::Float(single, bits) => match float_from(ft, 0, single, bits) {
            Some(t) => t,
            None => Seq::empty(),
        },
        MpObj::Timestamp(t) => timestamp_text(t),
        MpObj::Str(p, l) => str_text(d.subrange(p, p + l)),
        MpObj::Bin(p, l) => bin_text(d.subrange(p, p + l)),
        MpObj::Ext(t, p, l) => ext_text(t, l as nat),
        _ => Seq::empty(),
    }
}

/// The display text of a decoded object of input `d`.
pub open spec fn render(d: Seq<u8>, o: MpObj, ft: Seq<FloatText>) -> Seq<u8>
    decreases o,
{
    match o {
        MpObj::Array(xs) => seq![0x5bu8] + render_items(d, xs, ft) + seq![0x5du8],
        MpObj::Dict(es) => seq![0x7bu8] + render_entries(d, es, ft) + seq![0x7du8],
        _ => leaf_text(d, o, ft),
    }
}

/// Array elements, separated by commas.
pub open spec fn render_items(d: Seq<u8>, xs: Seq<MpObj>, ft: Seq<FloatText>) -> Seq<u8>
    decreases xs,
{
    if xs.len() == 0 {
        Seq::empty()
    } else {
        render_items(d, xs.drop_last(), ft) + (if xs.len() > 1 {
            seq![0x2cu8]
        } else {
            Seq::empty()
        }) + render(d, xs.last(), ft)
    }
}

/// Map entries `key:value`, separated by commas.
pub open spec fn render_entries(d: Seq<u8>, es: Seq<(MpObj, MpObj)>, ft: Seq<FloatText>) -> Seq<
    u8,
>
    decreases es,
{
    if es.len() == 0 {
        Seq::empty()
    } else {
        let e = es.last();
        render_entries(d, es.drop_last(), ft) + (if es.len() > 1 {
            seq![0x2cu8]
        } else {
            Seq::empty()
        }) + render(d, e.0, ft) + seq![0x3au8] + render(d, e.1, ft)
    }
}

/// An object at nesting `depth` can be rendered: it lies no deeper than 48 levels and every
/// float in it has a text.
pub open spec fn fmt_ok(o: MpObj, ft: Seq<FloatText>, depth: int) -> bool
    decreases o,
{
    depth <= FMT_MAX_DEPTH && match o {
        MpObj::Float(single, bits) => float_from(ft, 0, single, bits) is Some,
        MpObj::Array(xs) => items_ok(xs, ft, depth + 1),
        MpObj::Dict(es) => entries_ok(es, ft, depth + 1),
        _ => true,
    }
}

/// Every element of `xs` can be rendered at nesting `depth`.
pub open spec fn items_ok(xs: Seq<MpObj>, ft: Seq<FloatText>, depth: int) -> bool
    decreases xs,
{
    xs.len() == 0 || (items_ok(xs.drop_last(), ft, depth) && fmt_ok(xs.last(), ft, depth))
}

/// Every key and value of `es` can be rendered at nesting `depth`.
pub open spec fn entries_ok(es: Seq<(MpObj, MpObj)>, ft: Seq<FloatText>, depth: int) -> bool
    decreases es,
{
    es.len() == 0 || (entries_ok(es.drop_last(), ft, depth) && fmt_ok(es.last().0, ft, depth)
        && fmt_ok(es.last().1, ft, depth))
}

proof fn lemma_items_ok(xs: Seq<MpObj>, ft: Seq<FloatText>, depth: int)
    ensures
        items_ok(xs, ft, depth) <==> forall|i: int| 0 <= i < xs.len() ==> fmt_ok(#[trigger] xs[i], ft, depth),
    decreases xs.len(),
{
    if xs.len() > 0 {
        let ys = xs.drop_last();
        lemma_items_ok(ys, ft, depth);
        if forall|i: int| 0 <= i < xs.len() ==> fmt_ok(#[trigger] xs[i], ft, depth) {
            assert forall|i: int| 0 <= i < ys.len() implies fmt_ok(#[trigger] ys[i], ft, depth) by {
                assert(ys[i] == xs[i]);
            }
            assert(fmt_ok(xs[xs.len() - 1], ft, depth));
        }
        if items_ok(xs, ft, depth) {
            assert forall|i: int| 0 <= i < xs.len() implies fmt_ok(#[trigger] xs[i], ft, depth) by {
                if i < ys.len() {
                    assert(ys[i] == xs[i]);
                }
            }
        }
    }
}

proof fn lemma_entries_ok(es: Seq<(MpObj, MpObj)>, ft: Seq<FloatText>, depth: int)
    ensures
        entries_ok(es, ft, depth) <==> forall|i: int|
            0 <= i < es.len() ==> fmt_ok((#[trigger] es[i]).0, ft, depth) && fmt_ok(es[i].1, ft, depth),
    decreases es.len(),
{
    if es.len() > 0 {
        let ys = es.drop_last();
        lemma_entries_ok(ys, ft, depth);
        if forall|i: int| 0 <= i < es.len() ==> fmt_ok((#[trigger] es[i]).0, ft, depth) && fmt_ok(es[i].1, ft, depth) {
            assert forall|i: int| 0 <= i < ys.len() implies fmt_ok((#[trigger] ys[i]).0, ft, depth) && fmt_ok(
                ys[i].1,
                ft,
                depth,
            ) by {
                assert(ys[i] == es[i]);
            }
            assert(fmt_ok(es[es.len() - 1].0, ft, depth));
        }
        if entries_ok(es, ft, depth) {
            assert forall|i: int| 0 <= i < es.len() implies fmt_ok((#[trigger] es[i]).0, ft, depth) && fmt_ok(
                es[i].1,
                ft,
                depth,
            ) by {
                if i < ys.len() {
                    assert(ys[i] == es[i]);
                }
            }
        }
    }
}

/// `new` is `old` with the first `k` bytes of `t` written at `off`.
pub open spec fn wrote(old: Seq<u8>, new: Seq<u8>, off: int, t: Seq<u8>, k: int) -> bool {
    0 <= off && 0 <= k <= t.len() && off + k <= old.len() && new == old.take(off) + t.take(k) + old.skip(
        off + k,
    )
}

/// The outcome of writing text `t` at `off` of `old`: all of it, when `ok` holds and it fits;
/// otherwise an error, with some prefix of `t` written.
pub open spec fn write_outcome(
    old: Seq<u8>,
    new: Seq<u8>,
    off: int,
    t: Seq<u8>,
    ok: bool,
    r: Result<usize>,
) -> bool {
    if ok && off + t.len() <= old.len() {
        (r matches Ok(n) && n == off + t.len()) && wrote(old, new, off, t, t.len() as int)
    } else {
        r == Err::<usize, Error>(Error::MsgPack) && exists|k: int| wrote(old, new, off, t, k)
    }
}

proof fn lemma_wrote_zero(b: Seq<u8>, off: int, t: Seq<u8>)
    requires
        0 <= off <= b.len(),
    ensures
        wrote(b, b, off, t, 0),
{
    assert(b =~= b.take(off) + t.take(0) + b.skip(off));
}

/// Writing `u` after a completely written `t` extends the written prefix of `t + u`.
proof fn lemma_wrote_more(b0: Seq<u8>, b1: Seq<u8>, b2: Seq<u8>, off: int, t: Seq<u8>, u: Seq<u8>, k: int)
    requires
        wrote(b0, b1, off, t, t.len() as int),
        wrote(b1, b2, off + t.len(), u, k),
    ensures
        wrote(b0, b2, off, t + u, t.len() + k),
{
    let n = off + t.len();
    assert(b1.take(n) =~= b0.take(off) + t);
    assert(b1.skip(n + k) =~= b0.skip(n + k));
    assert((t + u).take(t.len() + k) =~= t + u.take(k));
    assert(b2 =~= b0.take(off) + (t + u).take(t.len() + k) + b0.skip(off + t.len() + k));
}

/// A written prefix of `t` is a written prefix of any text that starts with `t`.
proof fn lemma_wrote_prefix(b0: Seq<u8>, b1: Seq<u8>, off: int, t: Seq<u8>, u: Seq<u8>, k: int)
    requires
        wrote(b0, b1, off, t, k),
    ensures
        wrote(b0, b1, off, t + u, k),
{
    assert((t + u).take(k) =~= t.take(k));
}

proof fn lemma_items_prefix(d: Seq<u8>, xs: Seq<MpObj>, ft: Seq<FloatText>, i: int)
    requires
        0 <= i <= xs.len(),
    ensures
        render_items(d, xs, ft) == render_items(d, xs.take(i), ft) + render_items(d, xs, ft).skip(
            render_items(d, xs.take(i), ft).len() as int,
        ),
    decreases xs.len() - i,
{
    if i < xs.len() {
        lemma_items_prefix(d, xs, ft, i + 1);
        let a = xs.take(i + 1);
        assert(a.drop_last() =~= xs.take(i));
        assert(a.last() == xs[i]);
        let full = render_items(d, xs, ft);
        let p1 = render_items(d, a, ft);
        let p0 = render_items(d, xs.take(i), ft);
        assert(p1 == p0 + (if a.len() > 1 {
            seq![0x2cu8]
        } else {
            Seq::empty()
        }) + render(d, xs[i], ft));
        assert(full =~= p0 + full.skip(p0.len() as int));
    } else {
        assert(xs.take(i) =~= xs);
        assert(render_items(d, xs, ft).skip(render_items(d, xs, ft).len() as int) =~= Seq::empty());
        assert(render_items(d, xs, ft) =~= render_items(d, xs, ft) + Seq::<u8>::empty());
    }
}

proof fn lemma_entries_prefix(d: Seq<u8>, es: Seq<(MpObj, MpObj)>, ft: Seq<FloatText>, i: int)
    requires
        0 <= i <= es.len(),
    ensures
        render_entries(d, es, ft) == render_entries(d, es.take(i), ft) + render_entries(
            d,
            es,
            ft,
        ).skip(render_entries(d, es.take(i), ft).len() as int),
    decreases es.len() - i,
{
    if i < es.len() {
        lemma_entries_prefix(d, es, ft, i + 1);
        let a = es.take(i + 1);
        assert(a.drop_last() =~= es.take(i));
        let full = render_entries(d, es, ft);
        let p0 = render_entries(d, es.take(i), ft);
        let p1 = render_entries(d, a, ft);
        assert(p1 == p0 + (if a.len() > 1 {
            seq![0x2cu8]
        } else {
            Seq::empty()
        }) + render(d, es[i].0, ft) + seq![0x3au8] + render(d, es[i].1, ft));
        assert(full =~= p0 + full.skip(p0.len() as int));
    } else {
        assert(es.take(i) =~= es);
        assert(render_entries(d, es, ft) =~= render_entries(d, es, ft) + Seq::<u8>::empty());
    }
}


/// Copies `s` into `buf` at `off` when it fits.
fn append(buf: &mut [u8], off: usize, s: &[u8]) -> (r: Result<usize>)
    requires
        off <= old(buf)@.len(),
    ensures
        final(buf)@.len() == old(buf)@.len(),
        write_outcome(old(buf)@, final(buf)@, off as int, s@, true, r),
        r is Err ==> final(buf)@ == old(buf)@,
{
    let ghost b0 = buf@;
    if s.len() > buf.len() - off {
        proof {
            lemma_wrote_zero(b0, off as int, s@);
        }
        return Err(Error::MsgPack);
    }
    let mut i: usize = 0;
    while i < s.len()
        invariant
            i <= s.len(),
            off + s.len() <= buf.len(),
            buf@.len() == b0.len(),
            forall|q: int| 0 <= q < off ==> #[trigger] buf@[q] == b0[q],
            forall|q: int| off <= q < off + i ==> #[trigger] buf@[q] == s@[q - off],
            forall|q: int| off + i <= q < b0.len() ==> #[trigger] buf@[q] == b0[q],
        decreases s.len() - i,
    {
        buf[off + i] = s[i];
        i = i + 1;
    }
    assert(buf@ =~= b0.take(off as int) + s@.take(s@.len() as int) + b0.skip(off + s@.len()));
    Ok(off + s.len())
}

/// Writes byte `c` into `buf` at `off` when there is room.
fn append_byte(buf: &mut [u8], off: usize, c: u8) -> (r: Result<usize>)
    requires
        off <= old(buf)@.len(),
    ensures
        final(buf)@.len() == old(buf)@.len(),
        write_outcome(old(buf)@, final(buf)@, off as int, seq![c], true, r),
        r is Err ==> final(buf)@ == old(buf)@,
{
    let ghost b0 = buf@;
    if off >= buf.len() {
        proof {
            lemma_wrote_zero(b0, off as int, seq![c]);
        }
        return Err(Error::MsgPack);
    }
    buf[off] = c;
    assert(buf@ =~= b0.take(off as int) + seq![c].take(1) + b0.skip(off + 1));
    Ok(off + 1)
}

fn dec_text(n: u64) -> (r: Vec<u8>)
    ensures
        r@ == dec_digits(n as nat),
    decreases n,
{
    if n < 10 {
        let mut v: Vec<u8> = Vec::new();
        v.push((48 + n) as u8);
        assert(v@ =~= dec_digits(n as nat));
        v
    } else {
        let mut v = dec_text(n / 10);
        v.push((48 + n % 10) as u8);
        v
    }
}

fn int_text_vec(i: i64) -> (r: Vec<u8>)
    ensures
        r@ == int_text(i as int),
{
    if i < 0 {
        let m: u64 = if i == i64::MIN {
            0x8000_0000_0000_0000
        } else {
            (-i) as u64
        };
        let mut v: Vec<u8> = Vec::new();
        v.push(0x2d);
        let mut t = dec_text(m);
        v.append(&mut t);
        v
    } else {
        dec_text(i as u64)
    }
}

fn hex_digit_exec(x: u8) -> (r: u8)
    requires
        x < 16,
    ensures
        r == hex_digit(x as int),
{
    if x < 10 {
        48 + x
    } else {
        87 + x
    }
}

fn push_hex2(v: &mut Vec<u8>, b: u8)
    ensures
        final(v)@ == old(v)@ + hex2(b),
{
    v.push(hex_digit_exec(b / 16));
    v.push(hex_digit_exec(b % 16));
    assert(final(v)@ =~= old(v)@ + hex2(b));
}

fn push_escaped(v: &mut Vec<u8>, c: u8)
    ensures
        final(v)@ == old(v)@ + esc_byte(c),
{
    let ghost v0 = v@;
    if c == 0x5c || c == 0x22 {
        v.push(0x5c);
        v.push(c);
    } else if 32 <= c && c < 127 {
        v.push(c);
    } else {
        v.push(0x5c);
        v.push(0x78);
        push_hex2(v, c);
    }
    assert(v@ =~= v0 + esc_byte(c));
}

fn str_text_vec(d: &[u8], p: usize, l: usize) -> (r: Vec<u8>)
    requires
        p + l <= d@.len(),
    ensures
        r@ == str_text(d@.subrange(p as int, p + l)),
{
    let ghost s = d@.subrange(p as int, p + l);
    let mut v: Vec<u8> = Vec::new();
    v.push(0x22);
    let mut i: usize = 0;
    while i < l
        invariant
            i <= l,
            p + l <= d.len(),
            s == d@.subrange(p as int, p + l),
            v@ == seq![0x22u8] + escape(s.take(i as int)),
        decreases l - i,
    {
        proof {
            assert(s.take(i + 1).drop_last() =~= s.take(i as int));
            assert(s.take(i + 1).last() == d@[p + i]);
        }
        push_escaped(&mut v, d[p + i]);
        assert(v@ =~= seq![0x22u8] + escape(s.take(i + 1)));
        i = i + 1;
    }
    v.push(0x22);
    assert(s.take(l as int) =~= s);
    assert(v@ =~= str_text(s));
    v
}

fn bin_text_vec(d: &[u8], p: usize, l: usize) -> (r: Vec<u8>)
    requires
        p + l <= d@.len(),
    ensures
        r@ == bin_text(d@.subrange(p as int, p + l)),
{
    let ghost s = d@.subrange(p as int, p + l);
    let shown: usize = if l > BIN_SHOWN {
        BIN_SHOWN
    } else {
        l
    };
    let ghost sh = if l > BIN_SHOWN {
        s.take(BIN_SHOWN as int)
    } else {
        s
    };
    let mut v: Vec<u8> = Vec::new();
    v.push(0x62);
    v.push(0x69);
    v.push(0x6e);
    v.push(0x28);
    let mut i: usize = 0;
    while i < shown
        invariant
            i <= shown,
            shown <= l,
            shown == sh.len(),
            p + l <= d.len(),
            s == d@.subrange(p as int, p + l),
            sh == s.take(shown as int),
            v@ == seq![0x62u8, 0x69, 0x6e, 0x28] + hex_dump(sh.take(i as int)),
        decreases shown - i,
    {
        proof {
            assert(sh.take(i + 1).drop_last() =~= sh.take(i as int));
            assert(sh.take(i + 1).last() == d@[p + i]);
        }
        push_hex2(&mut v, d[p + i]);
        assert(v@ =~= seq![0x62u8, 0x69, 0x6e, 0x28] + hex_dump(sh.take(i + 1)));
        i = i + 1;
    }
    assert(sh.take(shown as int) =~= sh);
    let ghost v1 = v@;
    if l > BIN_SHOWN {
        v.push(0x2e);
        v.push(0x2e);
        v.push(0x2e);
    }
    v.push(0x29);
    assert(v@ =~= bin_text(s));
    v
}

fn timestamp_text_vec(t: i64) -> (r: Vec<u8>)
    ensures
        r@ == timestamp_text(t),
{
    let mut v: Vec<u8> = Vec::new();
    v.push(0x74);
    v.push(0x69);
    v.push(0x6d);
    v.push(0x65);
    v.push(0x73);
    v.push(0x74);
    v.push(0x61);
    v.push(0x6d);
    v.push(0x70);
    v.push(0x28);
    let mut n = int_text_vec(t);
    v.append(&mut n);
    v.push(0x29);
    assert(v@ =~= timestamp_text(t));
    v
}

fn ext_text_vec(t: i8, l: usize) -> (r: Vec<u8>)
    ensures
        r@ == ext_text(t, l as nat),
{
    let mut v: Vec<u8> = Vec::new();
    v.push(0x65);
    v.push(0x78);
    v.push(0x74);
    v.push(0x28);
    v.push(0x74);
    v.push(0x79);
    v.push(0x70);
    v.push(0x65);
    v.push(0x3d);
    let mut a = int_text_vec(t as i64);
    v.append(&mut a);
    v.push(0x2c);
    v.push(0x6c);
    v.push(0x65);
    v.push(0x6e);
    v.push(0x3d);
    let mut b = dec_text(l as u64);
    v.append(&mut b);
    v.push(0x29);
    assert(v@ =~= ext_text(t, l as nat));
    v
}

/// The index of the first entry of `ft` for float `(single, bits)`.
fn find_float(ft: &[FloatText], single: bool, bits: u64) -> (r: Option<usize>)
    ensures
        match r {
            Some(i) => i < ft@.len() && float_from(ft@, 0, single, bits) == Some(ft@[i as int].text@),
            None => float_from(ft@, 0, single, bits) is None,
        },
{
    let mut i: usize = 0;
    while i < ft.len()
        invariant
            i <= ft@.len(),
            float_from(ft@, 0, single, bits) == float_from(ft@, i as int, single, bits),
        decreases ft@.len() - i,
    {
        if ft[i].single == single && ft[i].bits == bits {
            return Some(i);
        }
        i = i + 1;
    }
    None
}


/// A failed write inside the part `mid` of `pre + mid + rest`, after `pre` was written,
/// leaves a written prefix of the whole.
proof fn lemma_fail_within(
    b0: Seq<u8>,
    bm: Seq<u8>,
    b1: Seq<u8>,
    off: int,
    pre: Seq<u8>,
    mid: Seq<u8>,
    rest: Seq<u8>,
    k: int,
)
    requires
        wrote(b0, bm, off, pre, pre.len() as int),
        wrote(bm, b1, off + pre.len(), mid, k),
    ensures
        exists|k2: int| wrote(b0, b1, off, pre + mid + rest, k2),
{
    lemma_wrote_more(b0, bm, b1, off, pre, mid, k);
    lemma_wrote_prefix(b0, b1, off, pre + mid, rest, pre.len() + k);
    assert(wrote(b0, b1, off, pre + mid + rest, pre.len() + k));
}

/// The text of a value that holds no other value, or `None` for a float with no text.
fn leaf_vec(v: &Value, d: &[u8], ft: &[FloatText]) -> (r: Option<Vec<u8>>)
    requires
        in_bounds(d@, obj_of(*v)),
        !(v is Array),
        !(v is Dict),
    ensures
        match r {
            Some(t) => t@ == leaf_text(d@, obj_of(*v), ft@) && (obj_of(*v) matches MpObj::Float(
                s,
                b,
            ) ==> float_from(ft@, 0, s, b) is Some),
            None => obj_of(*v) matches MpObj::Float(s, b) && float_from(ft@, 0, s, b) is None,
        },
{
    match v {
        Value::Nil => {
            let mut t: Vec<u8> = Vec::new();
            t.push(0x6e);
            t.push(0x69);
            t.push(0x6c);
            assert(t@ =~= nil_text());
            Some(t)
        },
        Value::Bool(b) => {
            let mut t: Vec<u8> = Vec::new();
            if *b {
                t.push(0x74);
                t.push(0x72);
                t.push(0x75);
                t.push(0x65);
            } else {
                t.push(0x66);
                t.push(0x61);
                t.push(0x6c);
                t.push(0x73);
                t.push(0x65);
            }
            assert(t@ =~= bool_text(*b));
            Some(t)
        },
        Value::UInt(u) => Some(dec_text(*u)),
        Value::Int(i) => Some(int_text_vec(*i)),
        Value::Float(single, bits) => match find_float(ft, *single, *bits) {
            Some(i) => Some(ft[i].text.clone()),
            None => None,
        },
        Value::Timestamp(t) => Some(timestamp_text_vec(*t)),
        Value::Str(p, l) => Some(str_text_vec(d, *p, *l)),
        Value::Bin(p, l) => Some(bin_text_vec(d, *p, *l)),
        Value::Ext(t, _p, l) => Some(ext_text_vec(*t, *l)),
        _ => None,
    }
}

fn fmt_obj(v: &Value, d: &[u8], ft: &[FloatText], buf: &mut [u8], off: usize, depth: usize) -> (r:
    Result<usize>)
    requires
        off <= old(buf)@.len(),
        in_bounds(d@, obj_of(*v)),
    ensures
        final(buf)@.len() == old(buf)@.len(),
        write_outcome(
            old(buf)@,
            final(buf)@,
            off as int,
            render(d@, obj_of(*v), ft@),
            fmt_ok(obj_of(*v), ft@, depth as int),
            r,
        ),
    decreases FMT_MAX_DEPTH + 1 - depth, 1int,
{
    let ghost b0 = buf@;
    if depth > FMT_MAX_DEPTH {
        proof {
            lemma_wrote_zero(b0, off as int, render(d@, obj_of(*v), ft@));
        }
        return Err(Error::MsgPack);
    }
    match v {
        Value::Array(a) => fmt_array(a, d, ft, buf, off, depth),
        Value::Dict(m) => fmt_dict(m, d, ft, buf, off, depth),
        _ => match leaf_vec(v, d, ft) {
            None => {
                proof {
                    lemma_wrote_zero(b0, off as int, render(d@, obj_of(*v), ft@));
                }
                Err(Error::MsgPack)
            },
            Some(t) => append(buf, off, t.as_slice()),
        },
    }
}

fn fmt_array(a: &Vec<Value>, d: &[u8], ft: &[FloatText], buf: &mut [u8], off: usize, depth: usize) -> (r:
    Result<usize>)
    requires
        off <= old(buf)@.len(),
        depth <= FMT_MAX_DEPTH,
        in_bounds(d@, MpObj::Array(objs_of(a@))),
    ensures
        final(buf)@.len() == old(buf)@.len(),
        write_outcome(
            old(buf)@,
            final(buf)@,
            off as int,
            render(d@, MpObj::Array(objs_of(a@)), ft@),
            fmt_ok(MpObj::Array(objs_of(a@)), ft@, depth as int),
            r,
        ),
    decreases FMT_MAX_DEPTH + 1 - depth, 0int,
{
    let ghost xs = objs_of(a@);
    let ghost t = render(d@, MpObj::Array(xs), ft@);
    let ghost items = render_items(d@, xs, ft@);
    let ghost b0 = buf@;
    assert(t == seq![0x5bu8] + items + seq![0x5du8]);
    let r0 = append_byte(buf, off, 0x5b);
    let mut o = match r0 {
        Err(e) => {
            proof {
                lemma_wrote_zero(b0, off as int, t);
            }
            return Err(e);
        },
        Ok(o) => o,
    };
    proof {
        lemma_items_ok(xs, ft@, depth + 1);
        lemma_all_in_bounds(d@, xs);
        assert(xs.take(0) =~= Seq::<MpObj>::empty());
        assert(seq![0x5bu8] + render_items(d@, xs.take(0), ft@) =~= seq![0x5bu8]);
    }
    let mut i: usize = 0;
    while i < a.len()
        invariant
            i <= a.len(),
            depth <= FMT_MAX_DEPTH,
            buf@.len() == b0.len(),
            b0 == old(buf)@,
            xs == objs_of(a@),
            t == seq![0x5bu8] + items + seq![0x5du8],
            items == render_items(d@, xs, ft@),
            forall|j: int| 0 <= j < xs.len() ==> in_bounds(d@, #[trigger] xs[j]),
            fmt_ok(MpObj::Array(xs), ft@, depth as int) <==> forall|j: int|
                0 <= j < xs.len() ==> fmt_ok(#[trigger] xs[j], ft@, depth + 1),
            o == off + 1 + render_items(d@, xs.take(i as int), ft@).len(),
            wrote(
                b0,
                buf@,
                off as int,
                seq![0x5bu8] + render_items(d@, xs.take(i as int), ft@),
                1 + render_items(d@, xs.take(i as int), ft@).len() as int,
            ),
            forall|j: int| 0 <= j < i ==> fmt_ok(#[trigger] xs[j], ft@, depth + 1),
        decreases a.len() - i,
    {
        let ghost pre = seq![0x5bu8] + render_items(d@, xs.take(i as int), ft@);
        let ghost sep: Seq<u8> = if i > 0 {
            seq![0x2cu8]
        } else {
            Seq::empty()
        };
        let ghost next = render_items(d@, xs.take(i + 1), ft@);
        proof {
            let a1 = xs.take(i + 1);
            assert(a1.drop_last() =~= xs.take(i as int));
            assert(a1.last() == xs[i as int]);
            assert(next == render_items(d@, xs.take(i as int), ft@) + sep + render(d@, xs[i as int], ft@));
            lemma_items_prefix(d@, xs, ft@, i + 1);
            assert(t =~= seq![0x5bu8] + next + (items.skip(next.len() as int) + seq![0x5du8]));
            assert(pre + sep + render(d@, xs[i as int], ft@) =~= seq![0x5bu8] + next);
        }
        let ghost bi = buf@;
        if i > 0 {
            match append_byte(buf, o, 0x2c) {
                Err(e) => {
                    proof {
                        lemma_wrote_zero(bi, o as int, sep);
                        lemma_fail_within(
                            b0,
                            bi,
                            buf@,
                            off as int,
                            pre,
                            sep,
                            render(d@, xs[i as int], ft@) + items.skip(next.len() as int) + seq![0x5du8],
                            0,
                        );
                        assert(pre + sep + (render(d@, xs[i as int], ft@) + items.skip(next.len() as int)
                            + seq![0x5du8]) =~= t);
                    }
                    return Err(e);
                },
                Ok(o2) => {
                    o = o2;
                },
            }
        }
        let ghost bs = buf@;
        proof {
            if i > 0 {
                lemma_wrote_more(b0, bi, bs, off as int, pre, sep, 1);
            } else {
                assert(pre + sep =~= pre);
            }
            assert(in_bounds(d@, xs[i as int]));
        }
        match fmt_obj(&a[i], d, ft, buf, o, depth + 1) {
            Err(e) => {
                proof {
                    let k = choose|k: int| wrote(bs, buf@, o as int, render(d@, xs[i as int], ft@), k);
                    lemma_fail_within(
                        b0,
                        bs,
                        buf@,
                        off as int,
                        pre + sep,
                        render(d@, xs[i as int], ft@),
                        items.skip(next.len() as int) + seq![0x5du8],
                        k,
                    );
                    assert(pre + sep + render(d@, xs[i as int], ft@) + (items.skip(next.len() as int)
                        + seq![0x5du8]) =~= t);
                }
                return Err(e);
            },
            Ok(o3) => {
                proof {
                    lemma_wrote_more(
                        b0,
                        bs,
                        buf@,
                        off as int,
                        pre + sep,
                        render(d@, xs[i as int], ft@),
                        render(d@, xs[i as int], ft@).len() as int,
                    );
                }
                o = o3;
            },
        }
        i = i + 1;
    }
    let ghost bl = buf@;
    proof {
        assert(xs.take(a@.len() as int) =~= xs);
    }
    match append_byte(buf, o, 0x5d) {
        Err(e) => {
            proof {
                lemma_wrote_zero(bl, o as int, seq![0x5du8]);
                lemma_fail_within(
                    b0,
                    bl,
                    buf@,
                    off as int,
                    seq![0x5bu8] + items,
                    seq![0x5du8],
                    Seq::empty(),
                    0,
                );
                assert(seq![0x5bu8] + items + seq![0x5du8] + Seq::<u8>::empty() =~= t);
            }
            Err(e)
        },
        Ok(o4) => {
            proof {
                lemma_wrote_more(b0, bl, buf@, off as int, seq![0x5bu8] + items, seq![0x5du8], 1);
            }
            Ok(o4)
        },
    }
}


#[verifier::rlimit(60)]
fn fmt_dict(
    m: &Vec<(Value, Value)>,
    d: &[u8],
    ft: &[FloatText],
    buf: &mut [u8],
    off: usize,
    depth: usize,
) -> (r: Result<usize>)
    requires
        off <= old(buf)@.len(),
        depth <= FMT_MAX_DEPTH,
        in_bounds(d@, MpObj::Dict(entries_of(m@))),
    ensures
        final(buf)@.len() == old(buf)@.len(),
        write_outcome(
            old(buf)@,
            final(buf)@,
            off as int,
            render(d@, MpObj::Dict(entries_of(m@)), ft@),
            fmt_ok(MpObj::Dict(entries_of(m@)), ft@, depth as int),
            r,
        ),
    decreases FMT_MAX_DEPTH + 1 - depth, 0int,
{
    let ghost es = entries_of(m@);
    let ghost t = render(d@, MpObj::Dict(es), ft@);
    let ghost items = render_entries(d@, es, ft@);
    let ghost b0 = buf@;
    assert(t == seq![0x7bu8] + items + seq![0x7du8]);
    let mut o = match append_byte(buf, off, 0x7b) {
        Err(e) => {
            proof {
                lemma_wrote_zero(b0, off as int, t);
            }
            return Err(e);
        },
        Ok(o) => o,
    };
    proof {
        lemma_entries_ok(es, ft@, depth + 1);
        lemma_entries_in_bounds(d@, es);
        assert(es.take(0) =~= Seq::<(MpObj, MpObj)>::empty());
        assert(seq![0x7bu8] + render_entries(d@, es.take(0), ft@) =~= seq![0x7bu8]);
    }
    let mut i: usize = 0;
    while i < m.len()
        invariant
            i <= m.len(),
            depth <= FMT_MAX_DEPTH,
            buf@.len() == b0.len(),
            b0 == old(buf)@,
            es == entries_of(m@),
            t == seq![0x7bu8] + items + seq![0x7du8],
            items == render_entries(d@, es, ft@),
            forall|j: int|
                0 <= j < es.len() ==> in_bounds(d@, (#[trigger] es[j]).0) && in_bounds(d@, es[j].1),
            fmt_ok(MpObj::Dict(es), ft@, depth as int) <==> forall|j: int|
                0 <= j < es.len() ==> fmt_ok((#[trigger] es[j]).0, ft@, depth + 1) && fmt_ok(
                    es[j].1,
                    ft@,
                    depth + 1,
                ),
            o == off + 1 + render_entries(d@, es.take(i as int), ft@).len(),
            wrote(
                b0,
                buf@,
                off as int,
                seq![0x7bu8] + render_entries(d@, es.take(i as int), ft@),
                1 + render_entries(d@, es.take(i as int), ft@).len() as int,
            ),
            forall|j: int|
                0 <= j < i ==> fmt_ok((#[trigger] es[j]).0, ft@, depth + 1) && fmt_ok(
                    es[j].1,
                    ft@,
                    depth + 1,
                ),
        decreases m.len() - i,
    {
        let ghost e = es[i as int];
        let ghost pre = seq![0x7bu8] + render_entries(d@, es.take(i as int), ft@);
        let ghost sep: Seq<u8> = if i > 0 {
            seq![0x2cu8]
        } else {
            Seq::empty()
        };
        let ghost rk = render(d@, e.0, ft@);
        let ghost rv = render(d@, e.1, ft@);
        let ghost next = render_entries(d@, es.take(i + 1), ft@);
        let ghost tail = items.skip(next.len() as int) + seq![0x7du8];
        proof {
            let a1 = es.take(i + 1);
            assert(a1.drop_last() =~= es.take(i as int));
            assert(a1.last() == e);
            assert(next == render_entries(d@, es.take(i as int), ft@) + sep + rk + seq![0x3au8] + rv);
            lemma_entries_prefix(d@, es, ft@, i + 1);
            assert(t =~= pre + sep + rk + seq![0x3au8] + rv + tail);
            assert(in_bounds(d@, e.0) && in_bounds(d@, e.1));
            assert(e.0 == obj_of(m@[i as int].0) && e.1 == obj_of(m@[i as int].1));
        }
        let ghost bi = buf@;
        if i > 0 {
            match append_byte(buf, o, 0x2c) {
                Err(err) => {
                    proof {
                        lemma_wrote_zero(bi, o as int, sep);
                        lemma_fail_within(b0, bi, buf@, off as int, pre, sep, rk + seq![0x3au8] + rv + tail, 0);
                        assert(pre + sep + (rk + seq![0x3au8] + rv + tail) =~= t);
                    }
                    return Err(err);
                },
                Ok(o2) => {
                    o = o2;
                },
            }
        }
        let ghost bs = buf@;
        proof {
            if i > 0 {
                lemma_wrote_more(b0, bi, bs, off as int, pre, sep, 1);
            } else {
                assert(pre + sep =~= pre);
            }
        }
        match fmt_obj(&m[i].0, d, ft, buf, o, depth + 1) {
            Err(err) => {
                proof {
                    let k = choose|k: int| wrote(bs, buf@, o as int, rk, k);
                    lemma_fail_within(b0, bs, buf@, off as int, pre + sep, rk, seq![0x3au8] + rv + tail, k);
                    assert(pre + sep + rk + (seq![0x3au8] + rv + tail) =~= t);
                }
                return Err(err);
            },
            Ok(o3) => {
                proof {
                    lemma_wrote_more(b0, bs, buf@, off as int, pre + sep, rk, rk.len() as int);
                }
                o = o3;
            },
        }
        let ghost bk = buf@;
        match append_byte(buf, o, 0x3a) {
            Err(err) => {
                proof {
                    lemma_wrote_zero(bk, o as int, seq![0x3au8]);
                    lemma_fail_within(b0, bk, buf@, off as int, pre + sep + rk, seq![0x3au8], rv + tail, 0);
                    assert(pre + sep + rk + seq![0x3au8] + (rv + tail) =~= t);
                }
                return Err(err);
            },
            Ok(o4) => {
                proof {
                    lemma_wrote_more(b0, bk, buf@, off as int, pre + sep + rk, seq![0x3au8], 1);
                }
                o = o4;
            },
        }
        let ghost bc = buf@;
        match fmt_obj(&m[i].1, d, ft, buf, o, depth + 1) {
            Err(err) => {
                proof {
                    let k = choose|k: int| wrote(bc, buf@, o as int, rv, k);
                    lemma_fail_within(b0, bc, buf@, off as int, pre + sep + rk + seq![0x3au8], rv, tail, k);
                }
                return Err(err);
            },
            Ok(o5) => {
                proof {
                    lemma_wrote_more(b0, bc, buf@, off as int, pre + sep + rk + seq![0x3au8], rv, rv.len() as int);
                    assert(pre + sep + rk + seq![0x3au8] + rv =~= seq![0x7bu8] + next);
                }
                o = o5;
            },
        }
        i = i + 1;
    }
    let ghost bl = buf@;
    proof {
        assert(es.take(m@.len() as int) =~= es);
    }
    match append_byte(buf, o, 0x7d) {
        Err(err) => {
            proof {
                lemma_wrote_zero(bl, o as int, seq![0x7du8]);
                lemma_fail_within(b0, bl, buf@, off as int, seq![0x7bu8] + items, seq![0x7du8], Seq::empty(), 0);
                assert(seq![0x7bu8] + items + seq![0x7du8] + Seq::<u8>::empty() =~= t);
            }
            Err(err)
        },
        Ok(o6) => {
            proof {
                lemma_wrote_more(b0, bl, buf@, off as int, seq![0x7bu8] + items, seq![0x7du8], 1);
            }
            Ok(o6)
        },
    }
}

/// Formats any single top-level MessagePack value for display into `buf` (quoted, escaped
/// strings; floats by the texts in `floats`) and returns the length of the text.
///
/// Fails with `InvalidArgument` for an empty `buf`, and with `MsgPack` when `data` is not one
/// well-formed value, nests deeper than 48 levels, holds a float with no text in `floats`,
/// or its text does not fit; `buf` then holds some prefix of the text.
pub fn format_decoded(data: &[u8], buf: &mut [u8], floats: &[FloatText]) -> (r: Result<usize>)
    ensures
        final(buf)@.len() == old(buf)@.len(),
        old(buf)@.len() == 0 ==> r == Err::<usize, Error>(Error::InvalidArgument) && final(buf)@
            == old(buf)@,
        old(buf)@.len() > 0 ==> match parse_top(data@, decode_limits()) {
            None => r == Err::<usize, Error>(Error::MsgPack) && final(buf)@ == old(buf)@,
            Some(o) => write_outcome(
                old(buf)@,
                final(buf)@,
                0,
                render(data@, o, floats@),
                fmt_ok(o, floats@, 0),
                r,
            ),
        },
{
    if buf.len() == 0 {
        return Err(Error::InvalidArgument);
    }
    let obj = decode_value(data)?;
    proof {
        lemma_top_in_bounds(data@, decode_limits());
    }
    fmt_obj(&obj, data, floats, buf, 0, 0)
}


/// The floats of an object, `(single, bits)`, in document order.
pub open spec fn floats_of(o: MpObj) -> Seq<(bool, u64)>
    decreases o,
{
    match o {
        MpObj::Float(single, bits) => seq![(single, bits)],
        MpObj::Array(xs) => floats_of_items(xs),
        MpObj::Dict(es) => floats_of_entries(es),
        _ => Seq::empty(),
    }
}

/// The floats of a sequence of objects, in order.
pub open spec fn floats_of_items(xs: Seq<MpObj>) -> Seq<(bool, u64)>
    decreases xs,
{
    if xs.len() == 0 {
        Seq::empty()
    } else {
        floats_of_items(xs.drop_last()) + floats_of(xs.last())
    }
}

/// The floats of a sequence of key/value pairs, in order.
pub open spec fn floats_of_entries(es: Seq<(MpObj, MpObj)>) -> Seq<(bool, u64)>
    decreases es,
{
    if es.len() == 0 {
        Seq::empty()
    } else {
        floats_of_entries(es.drop_last()) + floats_of(es.last().0) + floats_of(es.last().1)
    }
}

fn collect_value_floats(v: &Value, out: &mut Vec<(bool, u64)>)
    ensures
        final(out)@ == old(out)@ + floats_of(obj_of(*v)),
    decreases *v,
{
    match v {
        Value::Float(single, bits) => {
            out.push((*single, *bits));
        },
        Value::Array(a) => {
            let ghost xs = objs_of(a@);
            let ghost o0 = out@;
            let mut i: usize = 0;
            while i < a.len()
                invariant
                    i <= a.len(),
                    xs == objs_of(a@),
                    *v == Value::Array(*a),
                    out@ == o0 + floats_of_items(xs.take(i as int)),
                decreases a.len() - i,
            {
                proof {
                    assert(xs.take(i + 1).drop_last() =~= xs.take(i as int));
                    assert(decreases_to!(*v => v->Array_0));
                    assert(decreases_to!(v->Array_0 => v->Array_0@));
                    assert(decreases_to!(v->Array_0@ => v->Array_0@[i as int]));
                }
                collect_value_floats(&a[i], out);
                assert(out@ =~= o0 + floats_of_items(xs.take(i + 1)));
                i = i + 1;
            }
            assert(xs.take(a@.len() as int) =~= xs);
        },
        Value::Dict(m) => {
            let ghost es = entries_of(m@);
            let ghost o0 = out@;
            let mut i: usize = 0;
            while i < m.len()
                invariant
                    i <= m.len(),
                    es == entries_of(m@),
                    *v == Value::Dict(*m),
                    out@ == o0 + floats_of_entries(es.take(i as int)),
                decreases m.len() - i,
            {
                proof {
                    assert(es.take(i + 1).drop_last() =~= es.take(i as int));
                    assert(decreases_to!(*v => v->Dict_0));
                    assert(decreases_to!(v->Dict_0 => v->Dict_0@));
                    assert(decreases_to!(v->Dict_0@ => v->Dict_0@[i as int]));
                    assert(decreases_to!(v->Dict_0@[i as int] => v->Dict_0@[i as int].0));
                    assert(decreases_to!(v->Dict_0@[i as int] => v->Dict_0@[i as int].1));
                }
                collect_value_floats(&m[i].0, out);
                collect_value_floats(&m[i].1, out);
                assert(out@ =~= o0 + floats_of_entries(es.take(i + 1)));
                i = i + 1;
            }
            assert(es.take(m@.len() as int) =~= es);
        },
        _ => {
            assert(out@ =~= old(out)@ + floats_of(obj_of(*v)));
        },
    }
}

/// The floats of the single MessagePack value `data`, `(single, bits)` in document order;
/// these are the floats whose display text `format_decoded` needs.
pub fn decoded_floats(data: &[u8]) -> (r: Result<Vec<(bool, u64)>>)
    ensures
        match parse_top(data@, decode_limits()) {
            None => r == Err::<Vec<(bool, u64)>, Error>(Error::MsgPack),
            Some(o) => (r matches Ok(v) && v@ == floats_of(o)),
        },
{
    let obj = decode_value(data)?;
    let mut out: Vec<(bool, u64)> = Vec::new();
    collect_value_floats(&obj, &mut out);
    assert(out@ =~= floats_of(obj_of(obj)));
    Ok(out)
}

/// The number that a string of decimal digits (most significant first) writes.
pub open spec fn digits_value(s: Seq<u8>) -> int
    decreases s.len(),
{
    if s.len() == 0 {
        0
    } else {
        digits_value(s.drop_last()) * 10 + (s.last() - 0x30)
    }
}

/// The decimal text of `n` is a non-empty string of ASCII digits, without a leading zero
/// unless `n` is zero, that writes `n`.
pub proof fn lemma_dec_digits(n: nat)
    ensures
        dec_digits(n).len() >= 1,
        forall|k: int| 0 <= k < dec_digits(n).len() ==> 0x30 <= #[trigger] dec_digits(n)[k] <= 0x39,
        n > 0 ==> dec_digits(n)[0] != 0x30,
        n == 0 ==> dec_digits(n) == seq![0x30u8],
        digits_value(dec_digits(n)) == n,
    decreases n,
{
    if n >= 10 {
        let q = n / 10;
        lemma_dec_digits(q);
        let s = dec_digits(n);
        assert(s.drop_last() =~= dec_digits(q));
        assert(s[0] == dec_digits(q)[0]);
        vstd::arithmetic::div_mod::lemma_fundamental_div_mod(n as int, 10);
        assert(0 <= n % 10 < 10);
        assert(s.last() == (48 + n % 10) as u8);
        assert(digits_value(s) == digits_value(dec_digits(q)) * 10 + (n % 10));
        assert(q * 10 + n % 10 == n);
    } else {
        assert(dec_digits(n).drop_last() =~= Seq::<u8>::empty());
        assert(digits_value(dec_digits(n)) == digits_value(Seq::<u8>::empty()) * 10 + n);
    }
}

/// A signed integer displays as its decimal digits, after a minus sign exactly when it is
/// negative: the text of a negative `i` is '-' followed by digits that write `-i`, and the
/// text of any other `i` is digits that write `i`.
pub proof fn lemma_int_rendered(d: Seq<u8>, i: i64, ft: Seq<FloatText>)
    ensures
        ({
            let t = render(d, MpObj::Int(i), ft);
            &&& i < 0 ==> t[0] == 0x2du8 && t.len() >= 2 && digits_value(t.skip(1)) == -i
                && forall|k: int| 1 <= k < t.len() ==> 0x30 <= #[trigger] t[k] <= 0x39
            &&& i >= 0 ==> t.len() >= 1 && digits_value(t) == i
                && forall|k: int| 0 <= k < t.len() ==> 0x30 <= #[trigger] t[k] <= 0x39
        }),
{
    let t = render(d, MpObj::Int(i), ft);
    if i < 0 {
        let n = (-i) as nat;
        lemma_dec_digits(n);
        assert(t == seq![0x2du8] + dec_digits(n));
        assert(t.skip(1) =~= dec_digits(n));
        assert forall|k: int| 1 <= k < t.len() implies 0x30 <= #[trigger] t[k] <= 0x39 by {
            assert(t[k] == dec_digits(n)[k - 1]);
        }
    } else {
        lemma_dec_digits(i as nat);
    }
}

/// An unsigned integer displays as the decimal digits that write it.
pub proof fn lemma_uint_rendered(d: Seq<u8>, u: u64, ft: Seq<FloatText>)
    ensures
        ({
            let t = render(d, MpObj::UInt(u), ft);
            &&& t.len() >= 1
            &&& digits_value(t) == u
            &&& forall|k: int| 0 <= k < t.len() ==> 0x30 <= #[trigger] t[k] <= 0x39
        }),
{
    lemma_dec_digits(u as nat);
}

} // verus!
