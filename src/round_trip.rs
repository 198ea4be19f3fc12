//! Whole streams: what encoding a sequence of values under one model writes, what
//! decoding reads back, and the laws that tie the two together.
use vstd::prelude::*;

use crate::coding::{decoded, step};
use crate::model::Model;
use crate::range::{
    MAX_THRESHOLD, active, admissible, lemma_narrow, lemma_narrowed, lemma_settle, narrowed,
    offset_of, renorm, renormable, settled, settles, shl, top, unit,
};
use crate::stream::{be32, byte_at, code_at, decodable, resolvable};

verus! {

/// Whether `m` holds every value of `vs` and each encodes from the interval `s`
/// and those after it without a precision fault.
pub open spec fn encodes<V, M: Model<V>>(m: &M, threshold: u32, s: (u32, u32), vs: Seq<V>) -> bool
    decreases vs.len(),
{
    vs.len() == 0 || {
        let t = step(m, threshold, s, vs[0]);
        &&& m.holds(vs[0])
        &&& admissible(
            s.0,
            s.1,
            threshold,
            m.total_spec(),
            m.range_spec(vs[0]).0,
            m.range_spec(vs[0]).1,
        )
        &&& encodes(m, threshold, (t.0, t.1), vs.drop_first())
    }
}

/// The bytes settled by encoding `vs` from the interval `s`, the tail word not
/// included.
pub open spec fn emitted<V, M: Model<V>>(m: &M, threshold: u32, s: (u32, u32), vs: Seq<V>) -> Seq<u8>
    decreases vs.len(),
{
    if vs.len() == 0 {
        Seq::empty()
    } else {
        let t = step(m, threshold, s, vs[0]);
        t.2 + emitted(m, threshold, (t.0, t.1), vs.drop_first())
    }
}

/// The interval after encoding `vs` from the interval `s`.
pub open spec fn after<V, M: Model<V>>(m: &M, threshold: u32, s: (u32, u32), vs: Seq<V>) -> (
    u32,
    u32,
)
    decreases vs.len(),
{
    if vs.len() == 0 {
        s
    } else {
        let t = step(m, threshold, s, vs[0]);
        after(m, threshold, (t.0, t.1), vs.drop_first())
    }
}

/// The stream that encoding `vs` from the interval `s` writes: the settled
/// bytes, then the tail word.
pub open spec fn encoding<V, M: Model<V>>(m: &M, threshold: u32, s: (u32, u32), vs: Seq<V>) -> Seq<
    u8,
> {
    emitted(m, threshold, s, vs) + be32(after(m, threshold, s, vs).0)
}

/// Whether `n` values decode without an error from `bytes`, the first after
/// reading `pos` bytes with the interval `s`.
pub open spec fn decodes<V, M: Model<V>>(
    m: &M,
    threshold: u32,
    s: (u32, u32),
    bytes: Seq<u8>,
    pos: int,
    n: nat,
) -> bool
    decreases n,
{
    n == 0 || {
        let v = decoded(m, s, code_at(bytes, pos));
        let t = step(m, threshold, s, v);
        &&& pos <= bytes.len()
        &&& decodable(m, threshold, s, code_at(bytes, pos))
        &&& decodes(m, threshold, (t.0, t.1), bytes, pos + t.2.len(), (n - 1) as nat)
    }
}

/// The `n` values decoded from `bytes`, the first after reading `pos` bytes with
/// the interval `s`.
pub open spec fn decoding<V, M: Model<V>>(
    m: &M,
    threshold: u32,
    s: (u32, u32),
    bytes: Seq<u8>,
    pos: int,
    n: nat,
) -> Seq<V>
    decreases n,
{
    if n == 0 {
        Seq::empty()
    } else {
        let v = decoded(m, s, code_at(bytes, pos));
        let t = step(m, threshold, s, v);
        seq![v] + decoding(m, threshold, (t.0, t.1), bytes, pos + t.2.len(), (n - 1) as nat)
    }
}

/// How many bytes of `bytes` have been read once `n` values are decoded and the
/// bytes they owe are read, the first value after `pos` bytes with the interval `s`.
pub open spec fn consumed<V, M: Model<V>>(
    m: &M,
    threshold: u32,
    s: (u32, u32),
    bytes: Seq<u8>,
    pos: int,
    n: nat,
) -> int
    decreases n,
{
    if n == 0 {
        pos
    } else {
        let v = decoded(m, s, code_at(bytes, pos));
        let t = step(m, threshold, s, v);
        consumed(m, threshold, (t.0, t.1), bytes, pos + t.2.len(), (n - 1) as nat)
    }
}

/// Prepending a byte to an input shifts the code read from its start by a byte.
proof fn lemma_code_at_prepend(b: u8, rest: Seq<u8>)
    ensures
        code_at(seq![b] + rest, 4) == b * 0x0100_0000 + code_at(rest, 4) / 0x100,
{
    let x = seq![b] + rest;
    assert(byte_at(x, 0) == b);
    assert(byte_at(x, 1) == byte_at(rest, 0));
    assert(byte_at(x, 2) == byte_at(rest, 1));
    assert(byte_at(x, 3) == byte_at(rest, 2));
    let r0 = byte_at(rest, 0);
    let r1 = byte_at(rest, 1);
    let r2 = byte_at(rest, 2);
    let r3 = byte_at(rest, 3);
    let bb = b as int;
    assert(0 <= r0 * 0x0100_0000 + r1 * 0x1_0000 + r2 * 0x100 + r3 < 0x1_0000_0000)
        by (nonlinear_arith)
        requires
            0 <= r0 < 256,
            0 <= r1 < 256,
            0 <= r2 < 256,
            0 <= r3 < 256,
    ;
    assert(0 <= bb * 0x0100_0000 + r0 * 0x1_0000 + r1 * 0x100 + r2 < 0x1_0000_0000)
        by (nonlinear_arith)
        requires
            0 <= bb < 256,
            0 <= r0 < 256,
            0 <= r1 < 256,
            0 <= r2 < 256,
    ;
    assert((r0 * 0x0100_0000 + r1 * 0x1_0000 + r2 * 0x100 + r3) / 0x100 == r0 * 0x1_0000 + r1
        * 0x100 + r2) by (nonlinear_arith)
        requires
            0 <= r3 < 256,
    ;
}

/// The code read after a prefix and four more bytes is those four bytes.
proof fn lemma_code_at_after(prefix: Seq<u8>, rest: Seq<u8>)
    requires
        rest.len() >= 4,
    ensures
        code_at(prefix + rest, prefix.len() as int + 4) == code_at(rest, 4),
{
    let x = prefix + rest;
    let p = prefix.len() as int;
    assert(byte_at(x, p) == byte_at(rest, 0));
    assert(byte_at(x, p + 1) == byte_at(rest, 1));
    assert(byte_at(x, p + 2) == byte_at(rest, 2));
    assert(byte_at(x, p + 3) == byte_at(rest, 3));
}

/// The tail word reads back as the code it was written from.
proof fn lemma_code_at_be32(x: u32)
    ensures
        code_at(be32(x), 4) == x,
{
    let t = be32(x);
    assert(byte_at(t, 0) == x / 0x0100_0000);
    assert(byte_at(t, 1) == x / 0x1_0000 % 0x100);
    assert(byte_at(t, 2) == x / 0x100 % 0x100);
    assert(byte_at(t, 3) == x % 0x100);
    assert((x / 0x0100_0000) * 0x0100_0000 + (x / 0x1_0000 % 0x100) * 0x1_0000 + (x / 0x100
        % 0x100) * 0x100 + x % 0x100 == x) by (bit_vector);
}

/// No carry: whatever a renormalized interval holds at the start of the rest of
/// the stream, the interval it came from holds at the start of the settled bytes
/// followed by that rest, so later narrowing never has to revise a settled byte.
pub proof fn lemma_renorm_code(lo: u32, hi: u32, threshold: u32, rest: Seq<u8>)
    requires
        renormable(lo, hi, threshold),
        rest.len() >= 4,
        renorm(lo, hi, threshold).0 <= code_at(rest, 4) < renorm(lo, hi, threshold).1,
    ensures
        lo <= code_at(renorm(lo, hi, threshold).2 + rest, 4) < hi,
        (renorm(lo, hi, threshold).2 + rest).len() >= 4,
    decreases 0x1_0000_0000 - (hi - lo),
{
    let r = renorm(lo, hi, threshold);
    if settles(lo, hi, threshold) {
        lemma_settle(lo, hi, threshold);
        let st = settled(lo, hi);
        let q = renorm(shl(st.0), shl(st.1), threshold);
        lemma_renorm_code(shl(st.0), shl(st.1), threshold, rest);
        let x = q.2 + rest;
        let b = top(st.0) as u8;
        assert(r.2 + rest =~= seq![b] + x);
        lemma_code_at_prepend(b, x);
        let c = code_at(x, 4) as int;
        let a0 = st.0 as int % 0x0100_0000;
        let a1 = st.1 as int % 0x0100_0000;
        assert(shl(st.0) == a0 * 0x100);
        assert(shl(st.1) == a1 * 0x100);
        assert(a0 <= c / 0x100 < a1) by (nonlinear_arith)
            requires
                a0 * 0x100 <= c < a1 * 0x100,
        ;
        assert(st.0 == top(st.0) * 0x0100_0000 + a0);
        assert(st.1 == top(st.0) * 0x0100_0000 + a1);
    } else {
        assert(r.2 + rest =~= rest);
    }
}

/// Encoding from an active interval writes at least a tail word, and the code
/// at its start lies in the interval, within the share of the first value.
pub proof fn lemma_encoding_code<V, M: Model<V>>(m: &M, threshold: u32, s: (u32, u32), vs: Seq<V>)
    requires
        m.inv(),
        active(s, threshold),
        encodes(m, threshold, s, vs),
    ensures
        encoding(m, threshold, s, vs).len() >= 4,
        s.0 <= code_at(encoding(m, threshold, s, vs), 4) < s.1,
        vs.len() > 0 ==> narrowed(
            s.0,
            s.1,
            m.total_spec(),
            m.range_spec(vs[0]).0,
            m.range_spec(vs[0]).1,
        ).0 <= code_at(encoding(m, threshold, s, vs), 4) < narrowed(
            s.0,
            s.1,
            m.total_spec(),
            m.range_spec(vs[0]).0,
            m.range_spec(vs[0]).1,
        ).1,
    decreases vs.len(),
{
    let e = encoding(m, threshold, s, vs);
    if vs.len() == 0 {
        assert(e =~= be32(s.0));
        lemma_code_at_be32(s.0);
    } else {
        let total = m.total_spec();
        let (from, to) = m.range_spec(vs[0]);
        let t = step(m, threshold, s, vs[0]);
        let s2 = (t.0, t.1);
        let rest = vs.drop_first();
        lemma_narrow(s.0, s.1, threshold, total, from, to);
        lemma_narrowed(s.0, s.1, total, from, to);
        lemma_encoding_code(m, threshold, s2, rest);
        let e2 = encoding(m, threshold, s2, rest);
        assert(e =~= t.2 + e2);
        let n = narrowed(s.0, s.1, total, from, to);
        lemma_renorm_code(n.0, n.1, threshold, e2);
    }
}

/// Decoding a stream, after any prefix, gives back every value it encodes and
/// reads it to its end.
pub proof fn lemma_decoding<V, M: Model<V>>(
    m: &M,
    threshold: u32,
    s: (u32, u32),
    prefix: Seq<u8>,
    vs: Seq<V>,
)
    requires
        m.inv(),
        active(s, threshold),
        encodes(m, threshold, s, vs),
    ensures
        decodes(
            m,
            threshold,
            s,
            prefix + encoding(m, threshold, s, vs),
            prefix.len() as int + 4,
            vs.len(),
        ),
        decoding(
            m,
            threshold,
            s,
            prefix + encoding(m, threshold, s, vs),
            prefix.len() as int + 4,
            vs.len(),
        ) == vs,
        consumed(
            m,
            threshold,
            s,
            prefix + encoding(m, threshold, s, vs),
            prefix.len() as int + 4,
            vs.len(),
        ) == prefix.len() + encoding(m, threshold, s, vs).len(),
    decreases vs.len(),
{
    let e = encoding(m, threshold, s, vs);
    let bytes = prefix + e;
    let pos = prefix.len() as int + 4;
    lemma_encoding_code(m, threshold, s, vs);
    if vs.len() == 0 {
        assert(decoding(m, threshold, s, bytes, pos, 0) =~= vs);
    } else {
        let total = m.total_spec();
        let v0 = vs[0];
        let (from, to) = m.range_spec(v0);
        lemma_narrowed(s.0, s.1, total, from, to);
        lemma_narrow(s.0, s.1, threshold, total, from, to);
        lemma_code_at_after(prefix, e);
        let code = code_at(bytes, pos);
        let u = unit(s.0, s.1, total);
        let d = code - s.0;
        assert(from <= d / u < to) by (nonlinear_arith)
            requires
                u * from <= d < u * to,
                u > 0,
        ;
        assert(offset_of(s, total, code) == d / u);
        m.lemma_partition();
        let o = (d / u) as u32;
        assert(m.range_spec(v0).0 <= o && o < m.range_spec(v0).1);
        assert(decoded(m, s, code) == v0);
        assert(resolvable(s, total, code));
        let t = step(m, threshold, s, v0);
        let s2 = (t.0, t.1);
        let rest = vs.drop_first();
        let e2 = encoding(m, threshold, s2, rest);
        assert(e =~= t.2 + e2);
        let prefix2 = prefix + t.2;
        assert(bytes =~= prefix2 + e2);
        lemma_decoding(m, threshold, s2, prefix2, rest);
        assert(decoding(m, threshold, s, bytes, pos, vs.len()) =~= seq![v0] + rest);
    }
}

/// Round trip: a fresh decoder with the same threshold and model reads back from
/// an encoded stream exactly the values encoded, without an error, and reads
/// exactly the bytes written, tail word included.
pub proof fn lemma_round_trip<V, M: Model<V>>(m: &M, threshold: u32, vs: Seq<V>)
    requires
        m.inv(),
        256 < threshold <= MAX_THRESHOLD,
        encodes(m, threshold, (0u32, 0xFFFF_FFFFu32), vs),
    ensures
        decodes(
            m,
            threshold,
            (0u32, 0xFFFF_FFFFu32),
            encoding(m, threshold, (0u32, 0xFFFF_FFFFu32), vs),
            4,
            vs.len(),
        ),
        decoding(
            m,
            threshold,
            (0u32, 0xFFFF_FFFFu32),
            encoding(m, threshold, (0u32, 0xFFFF_FFFFu32), vs),
            4,
            vs.len(),
        ) == vs,
        consumed(
            m,
            threshold,
            (0u32, 0xFFFF_FFFFu32),
            encoding(m, threshold, (0u32, 0xFFFF_FFFFu32), vs),
            4,
            vs.len(),
        ) == encoding(m, threshold, (0u32, 0xFFFF_FFFFu32), vs).len(),
{
    let s = (0u32, 0xFFFF_FFFFu32);
    let e = encoding(m, threshold, s, vs);
    lemma_decoding(m, threshold, s, Seq::empty(), vs);
    assert(Seq::<u8>::empty() + e =~= e);
}

/// Output is append-only: encoding more values after `vs` never changes a byte
/// that `vs` settled; the stream of `vs` followed by `ws` is the bytes `vs`
/// settled, then the stream of `ws` from the interval `vs` left.
pub proof fn lemma_append_only<V, M: Model<V>>(
    m: &M,
    threshold: u32,
    s: (u32, u32),
    vs: Seq<V>,
    ws: Seq<V>,
)
    ensures
        emitted(m, threshold, s, vs + ws) == emitted(m, threshold, s, vs) + emitted(
            m,
            threshold,
            after(m, threshold, s, vs),
            ws,
        ),
        after(m, threshold, s, vs + ws) == after(m, threshold, after(m, threshold, s, vs), ws),
        encoding(m, threshold, s, vs + ws) == emitted(m, threshold, s, vs) + encoding(
            m,
            threshold,
            after(m, threshold, s, vs),
            ws,
        ),
    decreases vs.len(),
{
    if vs.len() == 0 {
        assert(vs + ws =~= ws);
        assert(emitted(m, threshold, s, vs) + emitted(m, threshold, s, ws) =~= emitted(
            m,
            threshold,
            s,
            ws,
        ));
    } else {
        let t = step(m, threshold, s, vs[0]);
        let s2 = (t.0, t.1);
        assert((vs + ws)[0] == vs[0]);
        assert((vs + ws).drop_first() =~= vs.drop_first() + ws);
        lemma_append_only(m, threshold, s2, vs.drop_first(), ws);
        assert(emitted(m, threshold, s, vs + ws) =~= emitted(m, threshold, s, vs) + emitted(
            m,
            threshold,
            after(m, threshold, s, vs),
            ws,
        ));
    }
    assert(encoding(m, threshold, s, vs + ws) =~= emitted(m, threshold, s, vs) + encoding(
        m,
        threshold,
        after(m, threshold, s, vs),
        ws,
    ));
}

/// Encoding one more value appends the bytes of its step and moves the
/// interval by that step: the stream of a sequence grows one encoder call at a
/// time.
pub proof fn lemma_encode_one_more<V, M: Model<V>>(
    m: &M,
    threshold: u32,
    s: (u32, u32),
    vs: Seq<V>,
    v: V,
)
    ensures
        emitted(m, threshold, s, vs.push(v)) == emitted(m, threshold, s, vs) + step(
            m,
            threshold,
            after(m, threshold, s, vs),
            v,
        ).2,
        after(m, threshold, s, vs.push(v)) == (
            step(m, threshold, after(m, threshold, s, vs), v).0,
            step(m, threshold, after(m, threshold, s, vs), v).1,
        ),
{
    let ws = seq![v];
    assert(vs.push(v) =~= vs + ws);
    lemma_append_only(m, threshold, s, vs, ws);
    let a = after(m, threshold, s, vs);
    assert(ws.drop_first() =~= Seq::<V>::empty());
    let t = step(m, threshold, a, v);
    assert(ws[0] == v);
    assert(emitted(m, threshold, (t.0, t.1), ws.drop_first()) == Seq::<u8>::empty());
    assert(after(m, threshold, (t.0, t.1), ws.drop_first()) == (t.0, t.1));
    assert(emitted(m, threshold, a, ws) =~= t.2 + Seq::<u8>::empty());
    assert(t.2 + Seq::<u8>::empty() =~= t.2);
}

/// With a threshold of at least three times the model's total, less one, every
/// sequence of values the model holds encodes without a precision fault from an
/// active interval.
pub proof fn lemma_encodes_within_threshold<V, M: Model<V>>(
    m: &M,
    threshold: u32,
    s: (u32, u32),
    vs: Seq<V>,
)
    requires
        m.inv(),
        active(s, threshold),
        3 * m.total_spec() <= threshold + 1,
        forall|i: int| 0 <= i < vs.len() ==> m.holds(#[trigger] vs[i]),
    ensures
        encodes(m, threshold, s, vs),
    decreases vs.len(),
{
    if vs.len() > 0 {
        let total = m.total_spec();
        m.lemma_partition();
        let v0 = vs[0];
        assert(m.holds(v0));
        let (from, to) = m.range_spec(v0);
        let w = s.1 - s.0;
        let u = unit(s.0, s.1, total);
        assert(u >= 3) by (nonlinear_arith)
            requires
                u == w / (total as int),
                w >= 3 * total,
                total > 0,
        ;
        lemma_narrowed(s.0, s.1, total, from, to);
        assert(u * to - u * from >= 3) by (nonlinear_arith)
            requires
                u >= 3,
                from < to,
        ;
        assert(admissible(s.0, s.1, threshold, total, from, to));
        lemma_narrow(s.0, s.1, threshold, total, from, to);
        let t = step(m, threshold, s, v0);
        let rest = vs.drop_first();
        assert forall|i: int| 0 <= i < rest.len() implies m.holds(#[trigger] rest[i]) by {
            assert(rest[i] == vs[i + 1]);
        }
        lemma_encodes_within_threshold(m, threshold, (t.0, t.1), rest);
    }
}

} // verus!
