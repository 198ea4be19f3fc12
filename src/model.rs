//! What a probability model provides to the coder.
use vstd::prelude::*;

use crate::Border;

verus! {

/// A source of probability ranges: a table, a mix of tables, or a function.
///
/// The ranges of the values a model holds partition `[0, total)`: each is
/// non-empty, together they cover every offset, and the value found for an offset
/// is the one whose range contains it.
pub trait Model<V> {
    /// The sum of all probabilities.
    spec fn total_spec(&self) -> u32;

    /// Whether the model gives `value` a range.
    spec fn holds(&self, value: V) -> bool;

    /// The probability range `[from, to)` of `value`.
    spec fn range_spec(&self, value: V) -> (u32, u32);

    /// The value whose range contains `offset`.
    spec fn value_spec(&self, offset: u32) -> V;

    /// The model's own well-formedness.
    spec fn inv(&self) -> bool;

    /// The ranges of a well-formed model partition `[0, total)`.
    proof fn lemma_partition(&self)
        requires
            self.inv(),
        ensures
            self.total_spec() > 0,
            forall|v: V| #[trigger]
                self.holds(v) ==> self.range_spec(v).0 < self.range_spec(v).1
                    <= self.total_spec(),
            forall|o: u32|
                o < self.total_spec() ==> self.holds(#[trigger] self.value_spec(o))
                    && self.range_spec(self.value_spec(o)).0 <= o < self.range_spec(
                    self.value_spec(o),
                ).1,
            forall|v: V, o: u32|
                self.holds(v) && #[trigger] self.range_spec(v).0 <= o < self.range_spec(v).1
                    ==> #[trigger] self.value_spec(o) == v,
    ;

    /// Get the probability range of a value.
    fn get_range(&self, value: V) -> (r: (Border, Border))
        requires
            self.inv(),
            self.holds(value),
        ensures
            r == self.range_spec(value),
    ;

    /// Find the value by a probability offset, together with its range.
    fn find_value(&self, offset: Border) -> (r: (V, Border, Border))
        requires
            self.inv(),
            offset < self.total_spec(),
        ensures
            r.0 == self.value_spec(offset),
            (r.1, r.2) == self.range_spec(r.0),
    ;

    /// The sum of all probabilities.
    fn get_denominator(&self) -> (r: Border)
        requires
            self.inv(),
        ensures
            r == self.total_spec(),
    ;
}

/// The ranges of a well-formed model cover every offset below the total, and
/// those of two different values never overlap.
pub proof fn lemma_partition_law<V, M: Model<V>>(m: &M)
    requires
        m.inv(),
    ensures
        m.total_spec() > 0,
        forall|o: u32|
            o < m.total_spec() ==> m.holds(#[trigger] m.value_spec(o)) && m.range_spec(
                m.value_spec(o),
            ).0 <= o < m.range_spec(m.value_spec(o)).1,
        forall|v1: V, v2: V|
            m.holds(v1) && m.holds(v2) && v1 != v2 ==> #[trigger] m.range_spec(v1).1
                <= #[trigger] m.range_spec(v2).0 || m.range_spec(v2).1 <= m.range_spec(v1).0,
{
    m.lemma_partition();
    assert forall|v1: V, v2: V|
        m.holds(v1) && m.holds(v2) && v1 != v2 implies #[trigger] m.range_spec(v1).1
        <= #[trigger] m.range_spec(v2).0 || m.range_spec(v2).1 <= m.range_spec(v1).0 by {
        let r1 = m.range_spec(v1);
        let r2 = m.range_spec(v2);
        if !(r1.1 <= r2.0 || r2.1 <= r1.0) {
            let o: u32 = if r1.0 <= r2.0 { r2.0 } else { r1.0 };
            assert(m.value_spec(o) == v1);
            assert(m.value_spec(o) == v2);
        }
    }
}

/// The sum of the first `n` weights.
pub open spec fn cumulative(weights: Seq<u32>, n: int) -> int
    decreases n,
{
    if n <= 0 {
        0
    } else {
        cumulative(weights, n - 1) + weights[n - 1]
    }
}

/// A model of the values `0..n` with fixed positive weights: value `i` has the
/// range from the sum of the weights before it to the sum up to itself.
pub struct FrequencyTable {
    bounds: Vec<u32>,
}

/// Strictly rising bounds starting at zero, at least one range.
pub open spec fn rising(b: Seq<u32>) -> bool {
    &&& b.len() >= 2
    &&& b[0] == 0
    &&& forall|i: int, j: int| 0 <= i < j < b.len() ==> b[i] < b[j]
}

/// Some range of the bounds `b` holds each offset below the last bound.
proof fn lemma_some_range(b: Seq<u32>, o: u32, k: int)
    requires
        rising(b),
        0 <= k < b.len() - 1,
        b[k] <= o < b[b.len() - 1],
    ensures
        exists|i: int| 0 <= i < b.len() - 1 && b[i] <= o < #[trigger] b[i + 1],
    decreases b.len() - k,
{
    if o < b[k + 1] {
        assert(b[k] <= o < b[k + 1]);
    } else {
        lemma_some_range(b, o, k + 1);
    }
}

impl FrequencyTable {
    /// The bounds between the ranges, from zero to the total.
    pub closed spec fn bounds_spec(&self) -> Seq<u32> {
        self.bounds@
    }

    /// Build the table of `weights`; `None` where there is no weight, a weight
    /// is zero, or the total does not fit a border.
    pub fn new(weights: &Vec<u32>) -> (r: Option<FrequencyTable>)
        ensures
            r is Some <==> weights@.len() > 0 && (forall|i: int|
                0 <= i < weights@.len() ==> #[trigger] weights@[i] > 0) && cumulative(
                weights@,
                weights@.len() as int,
            ) <= u32::MAX,
            r is Some ==> r->0.inv() && r->0.total_spec() == cumulative(
                weights@,
                weights@.len() as int,
            ) && (forall|v: usize| #[trigger]
                r->0.holds(v) <==> v < weights@.len()) && (forall|v: usize|
                v < weights@.len() ==> #[trigger] r->0.range_spec(v) == (
                    cumulative(weights@, v as int) as u32,
                    cumulative(weights@, v + 1) as u32,
                )),
    {
        if weights.len() == 0 {
            return None;
        }
        let mut bounds: Vec<u32> = Vec::new();
        bounds.push(0);
        let mut sum: u32 = 0;
        let mut i: usize = 0;
        while i < weights.len()
            invariant
                0 <= i <= weights@.len(),
                bounds@.len() == i + 1,
                sum == cumulative(weights@, i as int),
                forall|k: int| 0 <= k <= i ==> #[trigger] bounds@[k] == cumulative(weights@, k),
                forall|k: int| 0 <= k < i ==> #[trigger] weights@[k] > 0,
                forall|k: int, l: int| 0 <= k < l <= i ==> bounds@[k] < bounds@[l],
            decreases weights@.len() - i,
        {
            let w = weights[i];
            if w == 0 {
                return None;
            }
            if w > u32::MAX - sum {
                proof {
                    lemma_cumulative_grows(weights@, i as int + 1, weights@.len() as int);
                }
                return None;
            }
            let ghost before = bounds@;
            sum = sum + w;
            bounds.push(sum);
            proof {
                assert(bounds@[i as int] == before[i as int]);
                assert forall|k: int, l: int| 0 <= k < l <= i + 1 implies bounds@[k] < bounds@[l] by {
                    assert(bounds@[k] == before[k]);
                    if l <= i {
                        assert(bounds@[l] == before[l]);
                    } else if k < i {
                        assert(before[k] < before[i as int]);
                    }
                }
            }
            i = i + 1;
        }
        let r = FrequencyTable { bounds };
        assert(r.bounds@.len() >= 2);
        assert(r.bounds@[0] == 0);
        assert(r.inv());
        assert(r.total_spec() == cumulative(weights@, weights@.len() as int));
        assert forall|v: usize| v < weights@.len() implies #[trigger] r.range_spec(v) == (
            cumulative(weights@, v as int) as u32,
            cumulative(weights@, v + 1) as u32,
        ) by {
            assert(r.bounds@[v as int] == cumulative(weights@, v as int));
            assert(r.bounds@[v + 1] == cumulative(weights@, v + 1));
        }
        Some(r)
    }
}

/// Sums of non-negative weights only grow with more weights.
proof fn lemma_cumulative_grows(weights: Seq<u32>, n: int, m: int)
    requires
        0 <= n <= m <= weights.len(),
    ensures
        cumulative(weights, n) <= cumulative(weights, m),
    decreases m - n,
{
    if n < m {
        lemma_cumulative_grows(weights, n, m - 1);
    }
}

impl Model<usize> for FrequencyTable {
    open spec fn total_spec(&self) -> u32 {
        self.bounds_spec().last()
    }

    open spec fn holds(&self, value: usize) -> bool {
        value + 1 < self.bounds_spec().len()
    }

    open spec fn range_spec(&self, value: usize) -> (u32, u32) {
        (self.bounds_spec()[value as int], self.bounds_spec()[value + 1])
    }

    open spec fn value_spec(&self, offset: u32) -> usize {
        let b = self.bounds_spec();
        (choose|i: int| 0 <= i < b.len() - 1 && b[i] <= offset < #[trigger] b[i + 1]) as usize
    }

    open spec fn inv(&self) -> bool {
        &&& rising(self.bounds_spec())
        &&& self.bounds_spec().len() <= usize::MAX + 1
    }

    proof fn lemma_partition(&self) {
        let b = self.bounds_spec();
        assert(b[0] < b[b.len() - 1]);
        assert forall|o: u32| o < self.total_spec() implies self.holds(
            #[trigger] self.value_spec(o),
        ) && self.range_spec(self.value_spec(o)).0 <= o < self.range_spec(
            self.value_spec(o),
        ).1 by {
            lemma_some_range(b, o, 0);
        }
        assert forall|v: usize, o: u32|
            self.holds(v) && #[trigger] self.range_spec(v).0 <= o < self.range_spec(v).1
                implies #[trigger] self.value_spec(o) == v by {
            lemma_some_range(b, o, 0);
            let i = choose|i: int| 0 <= i < b.len() - 1 && b[i] <= o < #[trigger] b[i + 1];
            if i < v {
                assert(b[i + 1] <= b[v as int]);
            } else if i > v {
                assert(b[v + 1] <= b[i]);
            }
        }
    }

    fn get_range(&self, value: usize) -> (r: (Border, Border)) {
        (self.bounds[value], self.bounds[value + 1])
    }

    fn find_value(&self, offset: Border) -> (r: (usize, Border, Border)) {
        proof {
            self.lemma_partition();
        }
        let ghost b = self.bounds@;
        let mut i: usize = 0;
        while self.bounds[i + 1] <= offset
            invariant
                rising(b),
                b.len() <= usize::MAX + 1,
                b == self.bounds@,
                offset < b.last(),
                0 <= i < b.len() - 1,
                b[i as int] <= offset,
            decreases b.len() - i,
        {
            i = i + 1;
        }
        proof {
            assert(self.range_spec(i).0 <= offset < self.range_spec(i).1);
        }
        (i, self.bounds[i], self.bounds[i + 1])
    }

    fn get_denominator(&self) -> (r: Border) {
        self.bounds[self.bounds.len() - 1]
    }
}

} // verus!
