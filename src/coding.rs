//! Applying a model to the interval state machine: one value in, its bytes out,
//! and the other way round.
use vstd::prelude::*;

use crate::{Border, Symbol};

use crate::model::Model;
use crate::range::{RangeEncoder, narrow, offset_of, unit};

verus! {

/// The narrowing step that encodes `value` under `m` from the interval `s`.
pub open spec fn step<V, M: Model<V>>(m: &M, threshold: u32, s: (u32, u32), value: V) -> (
    u32,
    u32,
    Seq<u8>,
) {
    narrow(s.0, s.1, threshold, m.total_spec(), m.range_spec(value).0, m.range_spec(value).1)
}

/// The value that `m` finds for `code` in the interval `s`.
pub open spec fn decoded<V, M: Model<V>>(m: &M, s: (u32, u32), code: u32) -> V {
    m.value_spec(offset_of(s, m.total_spec(), code) as u32)
}

/// Encode `value` under `model` with the coder `re`, appending the bytes it
/// settles to `accum`.
pub fn encode<V: Copy, M: Model<V>>(value: V, model: &M, re: &mut RangeEncoder, accum: &mut Vec<Symbol>)
    requires
        model.inv(),
        model.holds(value),
        old(re).wf(),
        old(re).admits(model.total_spec(), model.range_spec(value).0, model.range_spec(value).1),
    ensures
        final(re).wf(),
        final(re).threshold_spec() == old(re).threshold_spec(),
        (final(re).low_spec(), final(re).high_spec()) == (
            step(model, old(re).threshold_spec(), (old(re).low_spec(), old(re).high_spec()), value).0,
            step(model, old(re).threshold_spec(), (old(re).low_spec(), old(re).high_spec()), value).1,
        ),
        final(accum)@ == old(accum)@ + step(
            model,
            old(re).threshold_spec(),
            (old(re).low_spec(), old(re).high_spec()),
            value,
        ).2,
{
    let (lo, hi) = model.get_range(value);
    let total = model.get_denominator();
    re.process(total, lo, hi, accum);
}

/// Decode a value from `code` with the coder `re`; returns it with the number of
/// bytes the matching encode settled, which the caller shifts into the code
/// before the next value.
pub fn decode<V: Copy, M: Model<V>>(code: Border, model: &M, re: &mut RangeEncoder) -> (r: (V, usize))
    requires
        model.inv(),
        old(re).wf(),
        0 < model.total_spec(),
        unit(old(re).low_spec(), old(re).high_spec(), model.total_spec()) > 0,
        old(re).low_spec() <= code < old(re).high_spec(),
        old(re).admits(
            model.total_spec(),
            model.range_spec(decoded(model, (old(re).low_spec(), old(re).high_spec()), code)).0,
            model.range_spec(decoded(model, (old(re).low_spec(), old(re).high_spec()), code)).1,
        ),
    ensures
        r.0 == decoded(model, (old(re).low_spec(), old(re).high_spec()), code),
        model.holds(r.0),
        model.range_spec(r.0).0 <= offset_of(
            (old(re).low_spec(), old(re).high_spec()),
            model.total_spec(),
            code,
        ) < model.range_spec(r.0).1,
        final(re).wf(),
        final(re).threshold_spec() == old(re).threshold_spec(),
        (final(re).low_spec(), final(re).high_spec()) == (
            step(model, old(re).threshold_spec(), (old(re).low_spec(), old(re).high_spec()), r.0).0,
            step(model, old(re).threshold_spec(), (old(re).low_spec(), old(re).high_spec()), r.0).1,
        ),
        r.1 == step(
            model,
            old(re).threshold_spec(),
            (old(re).low_spec(), old(re).high_spec()),
            r.0,
        ).2.len(),
{
    let total = model.get_denominator();
    let offset = re.query(total, code);
    let (value, lo, hi) = model.find_value(offset);
    proof {
        model.lemma_partition();
    }
    let mut shifted: Vec<u8> = Vec::new();
    re.process(total, lo, hi, &mut shifted);
    assert(shifted@ =~= Seq::<u8>::empty() + shifted@);
    (value, shifted.len())
}

} // verus!
