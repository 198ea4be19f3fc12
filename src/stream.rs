//! Incremental codecs over byte buffers: the encoder collects the bytes of each
//! value and closes the stream with a tail word; the decoder reads lazily the
//! bytes each value needs.
use vstd::prelude::*;

use crate::RANGE_DEFAULT_THRESHOLD;
use crate::coding::{decoded, step};
use crate::model::Model;
use crate::range::{
    MAX_THRESHOLD, RangeEncoder, active, admissible, lemma_border_bits, offset_of, shl, unit,
};

verus! {

/// Why a value could not be coded.
#[derive(Debug, Clone, Copy, PartialEq, Eq, Structural)]
pub enum CodingError {
    /// The input ended before the bytes the next value needs.
    UnexpectedEnd,
    /// The code read lies outside the interval: the input is corrupt.
    CodeOutOfRange,
    /// The interval is too narrow for the model's total: the threshold does not
    /// fit the model.
    PrecisionFault,
}

/// The four bytes of a tail word, most significant first.
pub open spec fn be32(x: u32) -> Seq<u8> {
    seq![
        (x / 0x0100_0000) as u8,
        (x / 0x1_0000 % 0x100) as u8,
        (x / 0x100 % 0x100) as u8,
        (x % 0x100) as u8,
    ]
}

/// The byte at `i`, or zero outside the input.
pub open spec fn byte_at(bytes: Seq<u8>, i: int) -> int {
    if 0 <= i < bytes.len() {
        bytes[i] as int
    } else {
        0
    }
}

/// The code a decoder holds after reading `pos` bytes: the last four of them,
/// most significant first.
pub open spec fn code_at(bytes: Seq<u8>, pos: int) -> u32 {
    (byte_at(bytes, pos - 4) * 0x0100_0000 + byte_at(bytes, pos - 3) * 0x1_0000 + byte_at(
        bytes,
        pos - 2,
    ) * 0x100 + byte_at(bytes, pos - 1)) as u32
}

/// Whether the interval `s` divides by `total` into offsets of a positive
/// width and holds `code`.
pub open spec fn resolvable(s: (u32, u32), total: u32, code: u32) -> bool {
    &&& 0 < total
    &&& unit(s.0, s.1, total) > 0
    &&& s.0 <= code < s.1
}

/// The edges of an interval: its lowest code falls on offset zero, its highest
/// on the last offset, and its upper bound on none.
pub proof fn lemma_query_edges(s: (u32, u32), total: u32)
    requires
        s.0 < s.1,
        0 < total,
        unit(s.0, s.1, total) > 0,
    ensures
        resolvable(s, total, s.0),
        offset_of(s, total, s.0) == 0,
        resolvable(s, total, (s.1 - 1) as u32),
        offset_of(s, total, (s.1 - 1) as u32) == total - 1,
        !resolvable(s, total, s.1),
{
    let u = unit(s.0, s.1, total);
    let w = s.1 - s.0;
    assert(u * total <= w) by (nonlinear_arith)
        requires
            u == w / (total as int),
            total > 0,
            w >= 0,
    ;
    assert(0int / u == 0);
    let c = (s.1 - 1) as u32;
    assert(c - s.0 == w - 1);
    assert((w - 1) / u >= total - 1) by (nonlinear_arith)
        requires
            u > 0,
            total > 0,
            u * total <= w,
    ;
}

/// Whether `code` decodes under `m` from the interval `s` without a fault.
pub open spec fn decodable<V, M: Model<V>>(m: &M, threshold: u32, s: (u32, u32), code: u32) -> bool {
    &&& resolvable(s, m.total_spec(), code)
    &&& admissible(
        s.0,
        s.1,
        threshold,
        m.total_spec(),
        m.range_spec(decoded(m, s, code)).0,
        m.range_spec(decoded(m, s, code)).1,
    )
}

/// Adding one byte to the code read so far.
proof fn lemma_code_at_next(bytes: Seq<u8>, pos: int)
    requires
        0 <= pos < bytes.len(),
    ensures
        code_at(bytes, pos + 1) == shl(code_at(bytes, pos)) + bytes[pos],
        shl(code_at(bytes, pos)) + bytes[pos] <= 0xFFFF_FFFF,
{
    let b0 = byte_at(bytes, pos - 4);
    let b1 = byte_at(bytes, pos - 3);
    let b2 = byte_at(bytes, pos - 2);
    let b3 = byte_at(bytes, pos - 1);
    let b4 = bytes[pos] as int;
    assert(byte_at(bytes, pos) == b4);
    let rest = b1 * 0x1_0000 + b2 * 0x100 + b3;
    assert(0 <= rest < 0x0100_0000) by (nonlinear_arith)
        requires
            0 <= b1 < 256,
            0 <= b2 < 256,
            0 <= b3 < 256,
            rest == b1 * 0x1_0000 + b2 * 0x100 + b3,
    ;
    assert(0 <= b0 * 0x0100_0000 + rest < 0x1_0000_0000) by (nonlinear_arith)
        requires
            0 <= b0 < 256,
            0 <= rest < 0x0100_0000,
    ;
    assert((b0 * 0x0100_0000 + rest) % 0x0100_0000 == rest) by (nonlinear_arith)
        requires
            0 <= b0,
            0 <= rest < 0x0100_0000,
    ;
    assert(rest * 0x100 + b4 == b1 * 0x0100_0000 + b2 * 0x1_0000 + b3 * 0x100 + b4)
        by (nonlinear_arith)
        requires
            rest == b1 * 0x1_0000 + b2 * 0x100 + b3,
    ;
    assert(rest * 0x100 + b4 < 0x1_0000_0000) by (nonlinear_arith)
        requires
            0 <= rest < 0x0100_0000,
            0 <= b4 < 256,
    ;
}

/// An arithmetic encoder that collects its output in a byte buffer.
pub struct Encoder {
    stream: Vec<u8>,
    range: RangeEncoder,
    buffer: Vec<u8>,
}

impl Encoder {
    /// The bytes written and not yet handed out.
    pub closed spec fn output(&self) -> Seq<u8> {
        self.stream@
    }

    /// The coder's active interval.
    pub closed spec fn interval(&self) -> (u32, u32) {
        (self.range.low_spec(), self.range.high_spec())
    }

    /// The coder's threshold.
    pub closed spec fn threshold_spec(&self) -> u32 {
        self.range.threshold_spec()
    }

    /// An encoder that can take more values.
    pub open spec fn wf(&self) -> bool {
        active(self.interval(), self.threshold_spec())
    }

    /// Create an encoder with the default threshold.
    pub fn new() -> (r: Encoder)
        ensures
            r.wf(),
            r.output() == Seq::<u8>::empty(),
            r.interval() == (0u32, 0xFFFF_FFFFu32),
            r.threshold_spec() == RANGE_DEFAULT_THRESHOLD,
    {
        Encoder::with_threshold(RANGE_DEFAULT_THRESHOLD)
    }

    /// Create an encoder that keeps the interval wider than `max_range`, which
    /// has to exceed the largest total of the models it is given.
    pub fn with_threshold(max_range: u32) -> (r: Encoder)
        requires
            256 < max_range <= MAX_THRESHOLD,
        ensures
            r.wf(),
            r.output() == Seq::<u8>::empty(),
            r.interval() == (0u32, 0xFFFF_FFFFu32),
            r.threshold_spec() == max_range,
    {
        Encoder {
            stream: Vec::new(),
            range: RangeEncoder::new(max_range),
            buffer: Vec::with_capacity(4),
        }
    }

    /// Encode `value` under `model`, writing the bytes it settles. Fails, and
    /// changes nothing, where the interval is too narrow for the model.
    pub fn encode<V: Copy, M: Model<V>>(&mut self, value: V, model: &M) -> (r: Result<(), CodingError>)
        requires
            old(self).wf(),
            model.inv(),
            model.holds(value),
        ensures
            final(self).wf(),
            final(self).threshold_spec() == old(self).threshold_spec(),
            r is Ok <==> admissible(
                old(self).interval().0,
                old(self).interval().1,
                old(self).threshold_spec(),
                model.total_spec(),
                model.range_spec(value).0,
                model.range_spec(value).1,
            ),
            r is Ok ==> final(self).output() == old(self).output() + step(
                model,
                old(self).threshold_spec(),
                old(self).interval(),
                value,
            ).2,
            r is Ok ==> final(self).interval() == (
                step(model, old(self).threshold_spec(), old(self).interval(), value).0,
                step(model, old(self).threshold_spec(), old(self).interval(), value).1,
            ),
            r is Err ==> r == Err::<(), CodingError>(CodingError::PrecisionFault),
            r is Err ==> final(self).output() == old(self).output(),
            r is Err ==> final(self).interval() == old(self).interval(),
    {
        let (lo, hi) = model.get_range(value);
        let total = model.get_denominator();
        if !self.range.can_process(total, lo, hi) {
            return Err(CodingError::PrecisionFault);
        }
        self.buffer.clear();
        crate::coding::encode(value, model, &mut self.range, &mut self.buffer);
        assert(self.buffer@ =~= Seq::<u8>::empty() + self.buffer@);
        self.stream.append(&mut self.buffer);
        Ok(())
    }

    /// Hand out the bytes written so far; the session goes on.
    pub fn flush(&mut self) -> (r: Vec<u8>)
        ensures
            r@ == old(self).output(),
            final(self).output() == Seq::<u8>::empty(),
            final(self).interval() == old(self).interval(),
            final(self).threshold_spec() == old(self).threshold_spec(),
    {
        let mut out: Vec<u8> = Vec::new();
        out.append(&mut self.stream);
        assert(out@ =~= old(self).output());
        out
    }

    /// Finish encoding: the bytes not handed out yet, then the code tail word.
    pub fn finish(self) -> (r: Vec<u8>)
        ensures
            r@ == self.output() + be32(self.interval().0),
    {
        let mut range = self.range;
        let mut stream = self.stream;
        let code = range.get_code_tail();
        stream.push((code / 0x0100_0000) as u8);
        stream.push((code / 0x1_0000 % 0x100) as u8);
        stream.push((code / 0x100 % 0x100) as u8);
        stream.push((code % 0x100) as u8);
        assert(stream@ =~= self.output() + be32(self.interval().0));
        stream
    }
}

/// An arithmetic decoder that reads from a byte buffer.
pub struct Decoder {
    stream: Vec<u8>,
    pos: usize,
    range: RangeEncoder,
    code: u32,
    bytes_pending: usize,
}

impl Decoder {
    /// The input.
    pub closed spec fn input(&self) -> Seq<u8> {
        self.stream@
    }

    /// How many bytes of the input the next value is decoded after: those read,
    /// and those still owed for the values decoded so far.
    pub closed spec fn position(&self) -> int {
        self.pos + self.bytes_pending
    }

    /// The coder's active interval.
    pub closed spec fn interval(&self) -> (u32, u32) {
        (self.range.low_spec(), self.range.high_spec())
    }

    /// The coder's threshold.
    pub closed spec fn threshold_spec(&self) -> u32 {
        self.range.threshold_spec()
    }

    /// A decoder whose code is the last four bytes it read.
    pub closed spec fn wf(&self) -> bool {
        &&& self.range.wf()
        &&& self.pos <= self.stream@.len()
        &&& self.code == code_at(self.stream@, self.pos as int)
    }

    /// Create a decoder with the default threshold on the input `r`.
    pub fn new(r: Vec<u8>) -> (d: Decoder)
        ensures
            d.wf(),
            d.input() == r@,
            d.position() == 4,
            d.interval() == (0u32, 0xFFFF_FFFFu32),
            d.threshold_spec() == RANGE_DEFAULT_THRESHOLD,
    {
        Decoder::with_threshold(r, RANGE_DEFAULT_THRESHOLD)
    }

    /// Create a decoder on the input `r` that keeps the interval wider than
    /// `max_range`.
    pub fn with_threshold(r: Vec<u8>, max_range: u32) -> (d: Decoder)
        requires
            256 < max_range <= MAX_THRESHOLD,
        ensures
            d.wf(),
            d.input() == r@,
            d.position() == 4,
            d.interval() == (0u32, 0xFFFF_FFFFu32),
            d.threshold_spec() == max_range,
    {
        Decoder { stream: r, pos: 0, range: RangeEncoder::new(max_range), code: 0, bytes_pending: 4 }
    }

    /// How many bytes the input lacks for the bytes still owed: those a reader
    /// has to add before the next value can be decoded.
    pub fn bytes_owed(&self) -> (r: usize)
        requires
            self.wf(),
        ensures
            r == if self.position() > self.input().len() {
                self.position() - self.input().len()
            } else {
                0
            },
    {
        let available = self.stream.len() - self.pos;
        if self.bytes_pending > available {
            self.bytes_pending - available
        } else {
            0
        }
    }

    /// Add a byte at the end of the input.
    pub fn push_input(&mut self, b: u8)
        requires
            old(self).wf(),
        ensures
            final(self).wf(),
            final(self).input() == old(self).input().push(b),
            final(self).position() == old(self).position(),
            final(self).interval() == old(self).interval(),
            final(self).threshold_spec() == old(self).threshold_spec(),
    {
        let ghost before = self.stream@;
        self.stream.push(b);
        proof {
            let p = self.pos as int;
            assert(byte_at(self.stream@, p - 1) == byte_at(before, p - 1));
            assert(byte_at(self.stream@, p - 2) == byte_at(before, p - 2));
            assert(byte_at(self.stream@, p - 3) == byte_at(before, p - 3));
            assert(byte_at(self.stream@, p - 4) == byte_at(before, p - 4));
        }
    }

    /// Read the bytes still owed into the code.
    fn feed(&mut self) -> (r: Result<(), CodingError>)
        requires
            old(self).wf(),
        ensures
            final(self).wf(),
            final(self).input() == old(self).input(),
            final(self).position() == old(self).position(),
            final(self).range == old(self).range,
            r is Ok <==> old(self).position() <= old(self).input().len(),
            r is Ok ==> final(self).bytes_pending == 0,
            r is Err ==> r == Err::<(), CodingError>(CodingError::UnexpectedEnd),
    {
        while self.bytes_pending != 0
            invariant
                self.wf(),
                self.input() == old(self).input(),
                self.position() == old(self).position(),
                self.range == old(self).range,
            decreases self.bytes_pending,
        {
            if self.pos >= self.stream.len() {
                return Err(CodingError::UnexpectedEnd);
            }
            let b = self.stream[self.pos];
            proof {
                lemma_code_at_next(self.stream@, self.pos as int);
                lemma_border_bits(self.code, self.code);
            }
            self.code = (self.code << 8) + b as u32;
            self.pos = self.pos + 1;
            self.bytes_pending = self.bytes_pending - 1;
        }
        Ok(())
    }

    /// Decode a value under `model`. Fails where the input ends early, where the
    /// interval is too narrow for the model, or where the code it reads lies
    /// outside the interval; the interval is then unchanged.
    pub fn decode<V: Copy, M: Model<V>>(&mut self, model: &M) -> (r: Result<V, CodingError>)
        requires
            old(self).wf(),
            model.inv(),
        ensures
            final(self).wf(),
            final(self).input() == old(self).input(),
            final(self).threshold_spec() == old(self).threshold_spec(),
            old(self).position() > old(self).input().len() ==> r == Err::<V, CodingError>(
                CodingError::UnexpectedEnd,
            ),
            old(self).position() <= old(self).input().len() && !(0 < model.total_spec() && unit(
                old(self).interval().0,
                old(self).interval().1,
                model.total_spec(),
            ) > 0) ==> r == Err::<V, CodingError>(CodingError::PrecisionFault),
            old(self).position() <= old(self).input().len() && 0 < model.total_spec() && unit(
                old(self).interval().0,
                old(self).interval().1,
                model.total_spec(),
            ) > 0 && !resolvable(
                old(self).interval(),
                model.total_spec(),
                code_at(old(self).input(), old(self).position()),
            ) ==> r == Err::<V, CodingError>(CodingError::CodeOutOfRange),
            old(self).position() <= old(self).input().len() && resolvable(
                old(self).interval(),
                model.total_spec(),
                code_at(old(self).input(), old(self).position()),
            ) && !decodable(
                model,
                old(self).threshold_spec(),
                old(self).interval(),
                code_at(old(self).input(), old(self).position()),
            ) ==> r == Err::<V, CodingError>(CodingError::PrecisionFault),
            r is Err ==> final(self).interval() == old(self).interval(),
            old(self).position() <= old(self).input().len() && decodable(
                model,
                old(self).threshold_spec(),
                old(self).interval(),
                code_at(old(self).input(), old(self).position()),
            ) ==> {
                let v = decoded(
                    model,
                    old(self).interval(),
                    code_at(old(self).input(), old(self).position()),
                );
                let t = step(model, old(self).threshold_spec(), old(self).interval(), v);
                &&& r == Ok::<V, CodingError>(v)
                &&& final(self).interval() == (t.0, t.1)
                &&& final(self).position() == old(self).position() + t.2.len()
            },
    {
        self.feed()?;
        let total = model.get_denominator();
        if total == 0 || self.range.unit(total) == 0 {
            return Err(CodingError::PrecisionFault);
        }
        if !self.range.resolves(total, self.code) {
            return Err(CodingError::CodeOutOfRange);
        }
        let offset = self.range.query(total, self.code);
        let (_, lo, hi) = model.find_value(offset);
        if !self.range.can_process(total, lo, hi) {
            return Err(CodingError::PrecisionFault);
        }
        let (value, shift) = crate::coding::decode(self.code, model, &mut self.range);
        self.bytes_pending = shift;
        Ok(value)
    }

    /// Finish decoding: read the bytes still owed, and report an input that
    /// ends before them.
    pub fn finish(self) -> (r: Result<(), CodingError>)
        requires
            self.wf(),
        ensures
            r is Ok <==> self.position() <= self.input().len(),
            r is Err ==> r == Err::<(), CodingError>(CodingError::UnexpectedEnd),
    {
        let mut d = self;
        d.feed()
    }
}

} // verus!
