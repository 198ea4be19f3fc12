//! The interval state machine: narrowing, carry-less renormalization and the
//! code tail.
use vstd::prelude::*;

use crate::{Border, Symbol};

verus! {

/// Mask of the leading byte of a border value.
pub const BORDER_SYMBOL_MASK: u32 = 0xFF00_0000;

/// The largest threshold the coder accepts: up to this width a clipped
/// interval always lies within one leading byte.
pub const MAX_THRESHOLD: u32 = 0x0100_0000;

/// The leading byte of a border value.
pub open spec fn top(x: u32) -> int {
    x as int / 0x0100_0000
}

/// A border shifted left by one byte, the leading byte dropped.
pub open spec fn shl(x: u32) -> u32 {
    ((x as int % 0x0100_0000) * 0x100) as u32
}

/// `hi` with everything below its leading byte cleared.
pub open spec fn boundary(hi: u32) -> u32 {
    (hi as int - hi as int % 0x0100_0000) as u32
}

/// The carry-less clip of `[lo, hi)` at the leading-byte boundary of `hi`: the
/// larger side is kept, and a tie lowers the upper bound.
pub open spec fn clip(lo: u32, hi: u32) -> (u32, u32) {
    let lim = boundary(hi);
    if hi - lim > lim - lo {
        (lim, hi)
    } else {
        (lo, (lim - 1) as u32)
    }
}

/// Whether renormalization of `[lo, hi)` goes on with one more byte.
pub open spec fn settles(lo: u32, hi: u32, threshold: u32) -> bool {
    top(lo) == top(hi) || hi - lo <= threshold
}

/// The interval whose common leading byte is emitted next.
pub open spec fn settled(lo: u32, hi: u32) -> (u32, u32) {
    if top(lo) == top(hi) {
        (lo, hi)
    } else {
        clip(lo, hi)
    }
}

/// A clip that would leave an empty interval: the precision fault of the coder.
/// It comes when the lower side of the boundary holds a single code and the
/// upper side is no larger.
pub open spec fn clip_fault(lo: u32, hi: u32, threshold: u32) -> bool {
    &&& top(lo) != top(hi)
    &&& hi - lo <= threshold
    &&& boundary(hi) - lo == 1
    &&& hi - boundary(hi) <= 1
}

/// Bounds in different leading bytes lie on either side of the boundary of the
/// upper one.
pub proof fn lemma_boundary(lo: u32, hi: u32)
    requires
        lo < hi,
        top(lo) != top(hi),
    ensures
        lo < boundary(hi) <= hi,
{
    let t = top(hi);
    assert(boundary(hi) == t * 0x0100_0000);
    assert(top(lo) < t);
}

/// The intervals that renormalize without a fault.
pub open spec fn renormable(lo: u32, hi: u32, threshold: u32) -> bool {
    &&& lo < hi
    &&& threshold <= MAX_THRESHOLD
    &&& !clip_fault(lo, hi, threshold)
}

/// Renormalization of `[lo, hi)`: the final bounds and the bytes settled on the way,
/// most significant first.
pub open spec fn renorm(lo: u32, hi: u32, threshold: u32) -> (u32, u32, Seq<u8>)
    decreases 0x1_0000_0000 - (hi - lo) when renormable(lo, hi, threshold)
{
    if !settles(lo, hi, threshold) {
        (lo, hi, Seq::empty())
    } else {
        let s = settled(lo, hi);
        proof {
            lemma_settle(lo, hi, threshold);
        }
        let r = renorm(shl(s.0), shl(s.1), threshold);
        (r.0, r.1, seq![top(s.0) as u8] + r.2)
    }
}

/// One step of renormalization keeps a sub-interval within one leading byte and
/// widens the interval by the shift.
pub proof fn lemma_settle(lo: u32, hi: u32, threshold: u32)
    requires
        renormable(lo, hi, threshold),
        settles(lo, hi, threshold),
    ensures
        lo <= settled(lo, hi).0 < settled(lo, hi).1 <= hi,
        top(settled(lo, hi).0) == top(settled(lo, hi).1),
        shl(settled(lo, hi).1) - shl(settled(lo, hi).0) == 256 * (settled(lo, hi).1
            - settled(lo, hi).0),
        256 * (settled(lo, hi).1 - settled(lo, hi).0) > hi - lo,
        renormable(shl(settled(lo, hi).0), shl(settled(lo, hi).1), threshold),
{
    let s = settled(lo, hi);
    let t = top(hi);
    let lim = boundary(hi);
    assert(lim == t * 0x0100_0000);
    if top(lo) != top(hi) {
        assert(top(lo) < t);
        assert(lo < lim);
        assert(lo as int >= lim - 0x0100_0000);
        assert(top(lo) == t - 1);
        assert(hi - lim < 0x0100_0000);
        if hi - lim > lim - lo {
            assert(top(lim) == t);
        } else {
            assert(lim - lo >= 2);
            assert(top((lim - 1) as u32) == t - 1);
        }
    }
    let a = s.0;
    let b = s.1;
    let ta = top(a);
    assert(a as int == ta * 0x0100_0000 + a as int % 0x0100_0000);
    assert(b as int == ta * 0x0100_0000 + b as int % 0x0100_0000);
    assert(b as int % 0x0100_0000 - a as int % 0x0100_0000 == b - a);
    let ra = a as int % 0x0100_0000;
    let rb = b as int % 0x0100_0000;
    assert(ra * 0x100 < 0x1_0000_0000 && rb * 0x100 < 0x1_0000_0000) by (nonlinear_arith)
        requires
            0 <= ra < 0x0100_0000,
            0 <= rb < 0x0100_0000,
    ;
    assert(rb * 0x100 - ra * 0x100 == 256 * (rb - ra)) by (nonlinear_arith);
}

/// What the exec code computes with masks and shifts, in terms of leading bytes.
pub proof fn lemma_border_bits(lo: u32, hi: u32)
    ensures
        ((lo ^ hi) & BORDER_SYMBOL_MASK != 0) == (top(lo) != top(hi)),
        hi & BORDER_SYMBOL_MASK == boundary(hi),
        (lo >> 24u32) as u8 == top(lo) as u8,
        lo << 8u32 == shl(lo),
        hi << 8u32 == shl(hi),
{
    assert(((lo ^ hi) & 0xFF00_0000u32 != 0) == (lo / 0x0100_0000u32 != hi / 0x0100_0000u32))
        by (bit_vector);
    assert(hi & 0xFF00_0000u32 == hi - hi % 0x0100_0000u32) by (bit_vector);
    assert((lo >> 24u32) == lo / 0x0100_0000u32) by (bit_vector);
    assert(lo << 8u32 == (lo % 0x0100_0000u32) * 0x100u32) by (bit_vector);
    assert(hi << 8u32 == (hi % 0x0100_0000u32) * 0x100u32) by (bit_vector);
}

/// An active interval `s`: non-empty, wider than the threshold, with a threshold
/// the clipping supports.
pub open spec fn active(s: (u32, u32), threshold: u32) -> bool {
    &&& s.0 < s.1
    &&& s.1 - s.0 > threshold
    &&& 256 < threshold <= MAX_THRESHOLD
}

/// The width of one offset when `[lo, hi)` is divided by `total`.
pub open spec fn unit(lo: u32, hi: u32, total: u32) -> int {
    (hi - lo) / (total as int)
}

/// The offset that `code` stands for in the interval `s` divided by `total`:
/// its distance from the lower bound in units of one offset, the last offset
/// taking the remainder of the interval past `unit * total`.
pub open spec fn offset_of(s: (u32, u32), total: u32, code: u32) -> int {
    let o = (code - s.0) / unit(s.0, s.1, total);
    if o < total {
        o
    } else {
        total - 1
    }
}

/// The interval `[lo, hi)` narrowed to `[from, to)` out of `total`, before
/// renormalization.
pub open spec fn narrowed(lo: u32, hi: u32, total: u32, from: u32, to: u32) -> (u32, u32) {
    ((lo + unit(lo, hi, total) * from) as u32, (lo + unit(lo, hi, total) * to) as u32)
}

/// Whether `[lo, hi)` can be narrowed by `[from, to)` out of `total` without a
/// precision fault.
pub open spec fn admissible(lo: u32, hi: u32, threshold: u32, total: u32, from: u32, to: u32) -> bool {
    &&& 0 < total
    &&& from < to <= total
    &&& unit(lo, hi, total) > 0
    &&& !clip_fault(
        narrowed(lo, hi, total, from, to).0,
        narrowed(lo, hi, total, from, to).1,
        threshold,
    )
}

/// The whole narrowing step: the bounds after renormalization and the bytes it
/// settles.
pub open spec fn narrow(lo: u32, hi: u32, threshold: u32, total: u32, from: u32, to: u32) -> (
    u32,
    u32,
    Seq<u8>,
) {
    renorm(
        narrowed(lo, hi, total, from, to).0,
        narrowed(lo, hi, total, from, to).1,
        threshold,
    )
}

/// The bounds of a narrowed interval stay within `[lo, hi)`.
pub proof fn lemma_narrowed(lo: u32, hi: u32, total: u32, from: u32, to: u32)
    requires
        lo < hi,
        0 < total,
        from < to <= total,
        unit(lo, hi, total) > 0,
    ensures
        lo + unit(lo, hi, total) * from < lo + unit(lo, hi, total) * to <= hi,
        narrowed(lo, hi, total, from, to).0 == lo + unit(lo, hi, total) * from,
        narrowed(lo, hi, total, from, to).1 == lo + unit(lo, hi, total) * to,
{
    let u = unit(lo, hi, total);
    let w = hi - lo;
    assert(u * total <= w) by (nonlinear_arith)
        requires
            u == w / (total as int),
            total > 0,
            w >= 0,
    ;
    assert(u * from < u * to <= u * total) by (nonlinear_arith)
        requires
            u > 0,
            from < to <= total,
    ;
}

/// `256` to the power `n`: the factor by which `n` settled bytes widen an interval.
pub open spec fn pow256(n: nat) -> int
    decreases n,
{
    if n == 0 {
        1
    } else {
        256 * pow256((n - 1) as nat)
    }
}

/// Renormalization ends on an interval wider than the threshold whose bounds
/// differ in their leading byte, at most as wide as the interval it started from
/// widened by one byte for each byte it settled.
pub proof fn lemma_renorm(lo: u32, hi: u32, threshold: u32)
    requires
        renormable(lo, hi, threshold),
    ensures
        renorm(lo, hi, threshold).0 < renorm(lo, hi, threshold).1,
        renorm(lo, hi, threshold).1 - renorm(lo, hi, threshold).0 > threshold,
        top(renorm(lo, hi, threshold).0) != top(renorm(lo, hi, threshold).1),
        renorm(lo, hi, threshold).1 - renorm(lo, hi, threshold).0 <= (hi - lo) * pow256(
            renorm(lo, hi, threshold).2.len(),
        ),
    decreases 0x1_0000_0000 - (hi - lo),
{
    let r = renorm(lo, hi, threshold);
    if settles(lo, hi, threshold) {
        lemma_settle(lo, hi, threshold);
        let st = settled(lo, hi);
        lemma_renorm(shl(st.0), shl(st.1), threshold);
        let q = renorm(shl(st.0), shl(st.1), threshold);
        let p = pow256(q.2.len());
        assert(r.2.len() == q.2.len() + 1);
        assert(pow256(r.2.len()) == 256 * p);
        lemma_pow256_nonneg(q.2.len());
        assert(q.1 - q.0 <= (256 * (st.1 - st.0)) * p);
        assert((256 * (st.1 - st.0)) * p <= (hi - lo) * (256 * p)) by (nonlinear_arith)
            requires
                st.1 - st.0 <= hi - lo,
                p >= 0,
        ;
    } else {
        assert(pow256(0) == 1);
    }
}

proof fn lemma_pow256_nonneg(n: nat)
    ensures
        pow256(n) >= 1,
    decreases n,
{
    if n > 0 {
        lemma_pow256_nonneg((n - 1) as nat);
    }
}

/// An admissible narrowing of an active interval leaves an active interval, no
/// wider than its share `unit * (to - from)` of the old one, widened only by a
/// factor of 256 for each byte settled.
pub proof fn lemma_narrow(lo: u32, hi: u32, threshold: u32, total: u32, from: u32, to: u32)
    requires
        active((lo, hi), threshold),
        admissible(lo, hi, threshold, total, from, to),
    ensures
        active(
            (
                narrow(lo, hi, threshold, total, from, to).0,
                narrow(lo, hi, threshold, total, from, to).1,
            ),
            threshold,
        ),
        narrow(lo, hi, threshold, total, from, to).1 - narrow(lo, hi, threshold, total, from, to).0
            <= unit(lo, hi, total) * (to - from) * pow256(
            narrow(lo, hi, threshold, total, from, to).2.len(),
        ),
{
    lemma_narrowed(lo, hi, total, from, to);
    let n = narrowed(lo, hi, total, from, to);
    let u = unit(lo, hi, total);
    assert(n.1 - n.0 == u * to - u * from);
    assert(u * to - u * from == u * (to - from)) by (nonlinear_arith);
    lemma_renorm(n.0, n.1, threshold);
}

/// Range encoder primitive: takes probability ranges and produces whole bytes of
/// code, the code being a fixed-point value inside the resulting range.
pub struct RangeEncoder {
    low: Border,
    hai: Border,
    /// The minimum distance between the bounds kept at all times; it has to be
    /// at least the largest incoming total, and better many times larger.
    pub threshold: Border,
}

impl RangeEncoder {
    /// The lower bound of the active interval.
    pub closed spec fn low_spec(&self) -> u32 {
        self.low
    }

    /// The upper (exclusive) bound of the active interval.
    pub closed spec fn high_spec(&self) -> u32 {
        self.hai
    }

    /// The threshold the coder keeps the interval width above.
    pub closed spec fn threshold_spec(&self) -> u32 {
        self.threshold
    }

    /// An active coder: a non-empty interval wider than the threshold, and a
    /// threshold the clipping supports.
    pub open spec fn wf(&self) -> bool {
        active((self.low_spec(), self.high_spec()), self.threshold_spec())
    }

    /// Whether narrowing by `[from, to)` out of `total` is free of a precision fault.
    pub open spec fn admits(&self, total: u32, from: u32, to: u32) -> bool {
        admissible(self.low_spec(), self.high_spec(), self.threshold_spec(), total, from, to)
    }

    /// Create a coder with the full interval, which keeps the active range above
    /// `max_range` (a typical value is 16k).
    pub fn new(max_range: Border) -> (r: RangeEncoder)
        requires
            256 < max_range <= MAX_THRESHOLD,
        ensures
            r.low_spec() == 0,
            r.high_spec() == 0xFFFF_FFFF,
            r.threshold_spec() == max_range,
            r.wf(),
    {
        RangeEncoder { low: 0, hai: 0xFFFF_FFFF, threshold: max_range }
    }

    /// Restore the full interval.
    pub fn reset(&mut self)
        ensures
            final(self).low_spec() == 0,
            final(self).high_spec() == 0xFFFF_FFFF,
            final(self).threshold_spec() == old(self).threshold_spec(),
    {
        self.low = 0;
        self.hai = 0xFFFF_FFFF;
    }

    /// Narrow the interval to `[from, to)` out of `total` and renormalize it,
    /// appending each settled byte to `out`, most significant first.
    pub fn process(&mut self, total: Border, from: Border, to: Border, out: &mut Vec<Symbol>)
        requires
            old(self).wf(),
            old(self).admits(total, from, to),
        ensures
            final(self).wf(),
            final(self).threshold_spec() == old(self).threshold_spec(),
            final(self).low_spec() == narrow(
                old(self).low_spec(),
                old(self).high_spec(),
                old(self).threshold_spec(),
                total,
                from,
                to,
            ).0,
            final(self).high_spec() == narrow(
                old(self).low_spec(),
                old(self).high_spec(),
                old(self).threshold_spec(),
                total,
                from,
                to,
            ).1,
            final(out)@ == old(out)@ + narrow(
                old(self).low_spec(),
                old(self).high_spec(),
                old(self).threshold_spec(),
                total,
                from,
                to,
            ).2,
    {
        let ghost th = self.threshold;
        let ghost target = narrow(self.low, self.hai, th, total, from, to);
        let range = (self.hai - self.low) / total;
        proof {
            lemma_narrowed(self.low, self.hai, total, from, to);
        }
        let mut lo: u32 = self.low + range * from;
        let mut hi: u32 = self.low + range * to;
        loop
            invariant_except_break
                renormable(lo, hi, th),
                renorm(lo, hi, th).0 == target.0,
                renorm(lo, hi, th).1 == target.1,
                out@ + renorm(lo, hi, th).2 == old(out)@ + target.2,
            invariant
                self.threshold == th,
                256 < th <= MAX_THRESHOLD,
            ensures
                lo < hi,
                hi - lo > th,
                lo == target.0,
                hi == target.1,
                out@ == old(out)@ + target.2,
            decreases 0x1_0000_0000 - (hi - lo),
        {
            proof {
                lemma_border_bits(lo, hi);
            }
            if (lo ^ hi) & BORDER_SYMBOL_MASK != 0 {
                if hi - lo > self.threshold {
                    assert(out@ + Seq::<u8>::empty() =~= out@);
                    break ;
                }
                proof {
                    lemma_settle(lo, hi, th);
                }
                let lim = hi & BORDER_SYMBOL_MASK;
                if hi - lim > lim - lo {
                    lo = lim;
                } else {
                    hi = lim - 1;
                }
            } else {
                proof {
                    lemma_settle(lo, hi, th);
                }
            }
            let ghost rest = renorm(shl(lo), shl(hi), th);
            out.push((lo >> 24) as u8);
            proof {
                lemma_border_bits(lo, hi);
                assert(out@ + rest.2 =~= old(out)@ + target.2);
            }
            lo = lo << 8;
            hi = hi << 8;
        }
        self.low = lo;
        self.hai = hi;
    }

    /// The offset in `[0, total)` that a model inverts to find the value whose
    /// range holds `code`: the distance of `code` from the lower bound, in units
    /// of the interval divided by `total`; codes in the remainder past the last
    /// whole unit fall on the last offset.
    pub fn query(&self, total: Border, code: Border) -> (r: Border)
        requires
            self.wf(),
            0 < total,
            unit(self.low_spec(), self.high_spec(), total) > 0,
            self.low_spec() <= code < self.high_spec(),
        ensures
            r == offset_of((self.low_spec(), self.high_spec()), total, code),
            r < total,
    {
        let range = (self.hai - self.low) / total;
        let offset = (code - self.low) / range;
        if offset < total {
            offset
        } else {
            total - 1
        }
    }

    /// Get the code tail and close the interval; used at the end of encoding.
    pub fn get_code_tail(&mut self) -> (r: Border)
        ensures
            r == old(self).low_spec(),
            final(self).low_spec() == 0,
            final(self).high_spec() == 0,
            final(self).threshold_spec() == old(self).threshold_spec(),
    {
        let tail = self.low;
        self.low = 0;
        self.hai = 0;
        tail
    }

    /// Whether `process` can narrow by `[from, to)` out of `total` without a
    /// precision fault.
    pub fn can_process(&self, total: Border, from: Border, to: Border) -> (r: bool)
        requires
            self.wf(),
        ensures
            r == self.admits(total, from, to),
    {
        if total == 0 || from >= to || to > total {
            return false;
        }
        let range = (self.hai - self.low) / total;
        if range == 0 {
            return false;
        }
        proof {
            lemma_narrowed(self.low, self.hai, total, from, to);
        }
        let lo = self.low + range * from;
        let hi = self.low + range * to;
        proof {
            lemma_border_bits(lo, hi);
        }
        if (lo ^ hi) & BORDER_SYMBOL_MASK != 0 && hi - lo <= self.threshold {
            proof {
                lemma_boundary(lo, hi);
            }
            let lim = hi & BORDER_SYMBOL_MASK;
            !(lim - lo == 1 && hi - lim <= 1)
        } else {
            true
        }
    }

    /// Whether `query` can resolve `code` with `total`: the interval divides by
    /// `total` into offsets of a positive width, and holds `code`.
    pub fn resolves(&self, total: Border, code: Border) -> (r: bool)
        requires
            self.wf(),
        ensures
            r == (0 < total && unit(self.low_spec(), self.high_spec(), total) > 0
                && self.low_spec() <= code < self.high_spec()),
    {
        if total == 0 || code < self.low || code >= self.hai {
            return false;
        }
        (self.hai - self.low) / total > 0
    }

    /// The lower bound of the active interval.
    pub fn low(&self) -> (r: Border)
        ensures
            r == self.low_spec(),
    {
        self.low
    }

    /// The upper (exclusive) bound of the active interval.
    pub fn high(&self) -> (r: Border)
        ensures
            r == self.high_spec(),
    {
        self.hai
    }

    /// The width of one offset when the interval is divided by `total`.
    pub fn unit(&self, total: Border) -> (r: Border)
        requires
            self.wf(),
            0 < total,
        ensures
            r == unit(self.low_spec(), self.high_spec(), total),
    {
        (self.hai - self.low) / total
    }
}

} // verus!
