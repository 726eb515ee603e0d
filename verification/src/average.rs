//! Running average of wall-clock time per simulation step.
//!
//! Samples are wall-clock durations in milliseconds. The average is kept
//! exactly, as the pair (sum of samples, number of samples): the mean in
//! milliseconds is `total_millis / sample`, and every derived quantity is
//! computed from that exact pair.

use vstd::prelude::*;

verus! {

/// Elapsed wall-clock time per simulation time step, as an exact running
/// average over millisecond samples.
#[derive(Debug, Clone)]
pub struct ElapsedPerStep {
    /// Sum of all samples folded in so far, in milliseconds.
    pub total_millis: u64,
    /// Number of samples folded in so far.
    pub sample: usize,
}

/// Sum of a sequence of millisecond samples.
pub open spec fn sum_of(samples: Seq<u64>) -> int
    decreases samples.len(),
{
    if samples.len() == 0 {
        0
    } else {
        sum_of(samples.drop_last()) + samples.last()
    }
}

/// State (total, count) of a fresh average after folding in `samples`,
/// one `update` call per element, in order.
pub open spec fn folded(samples: Seq<u64>) -> (int, int)
    decreases samples.len(),
{
    if samples.len() == 0 {
        (0, 0)
    } else {
        let prev = folded(samples.drop_last());
        (prev.0 + samples.last(), prev.1 + 1)
    }
}

impl ElapsedPerStep {
    /// Sum of all samples folded in so far, in milliseconds.
    pub open spec fn total(&self) -> int {
        self.total_millis as int
    }

    /// Number of samples folded in so far.
    pub open spec fn count(&self) -> int {
        self.sample as int
    }

    /// An empty average reports zero; otherwise the mean is total/count.
    pub open spec fn inv(&self) -> bool {
        self.count() == 0 ==> self.total() == 0
    }

    /// Mean of the samples rounded to hundredths of a second, half up;
    /// zero while no sample has been folded in.
    pub open spec fn mean_centi(&self) -> int {
        if self.count() == 0 {
            0
        } else {
            (2 * self.total() + 10 * self.count()) / (20 * self.count())
        }
    }

    /// Creates a new, empty average.
    pub fn new() -> (r: Self)
        ensures
            r.total() == 0,
            r.count() == 0,
            r.inv(),
    {
        ElapsedPerStep { total_millis: 0, sample: 0 }
    }

    /// Folds one new sample (in milliseconds) into the mean.
    ///
    /// Keeping the exact sum makes this the incremental-average step: the
    /// mean moves from `total/count` to `(total + value)/(count + 1)`.
    pub fn update(&mut self, value: u64)
        requires
            old(self).total() + value <= u64::MAX,
            old(self).count() + 1 <= usize::MAX,
        ensures
            final(self).total() == old(self).total() + value,
            final(self).count() == old(self).count() + 1,
            final(self).inv(),
    {
        self.total_millis = self.total_millis + value;
        self.sample = self.sample + 1;
    }

    /// Sum of all samples folded in so far, in milliseconds.
    pub fn total_millis(&self) -> (r: u64)
        ensures
            r == self.total(),
    {
        self.total_millis
    }

    /// Number of samples folded in so far.
    pub fn sample_count(&self) -> (r: usize)
        ensures
            r == self.count(),
    {
        self.sample
    }

    /// Current mean in hundredths of a second per step, rounded half up;
    /// `0` if no samples yet.
    pub fn value_centi(&self) -> (r: u64)
        ensures
            r == self.mean_centi(),
    {
        if self.sample == 0 {
            0
        } else {
            let num: u128 = 2 * (self.total_millis as u128) + 10 * (self.sample as u128);
            let den: u128 = 20 * (self.sample as u128);
            let q: u128 = num / den;
            proof {
                assert(q <= self.total_millis) by (nonlinear_arith)
                    requires
                        q == num / den,
                        num == 2 * self.total_millis + 10 * self.sample,
                        den == 20 * self.sample,
                        self.sample >= 1,
                ;
            }
            q as u64
        }
    }
}

impl Default for ElapsedPerStep {
    /// An empty average, as `new` builds it.
    fn default() -> (r: Self)
        ensures
            r.total() == 0,
            r.count() == 0,
            r.inv(),
    {
        ElapsedPerStep { total_millis: 0, sample: 0 }
    }
}

/// A fresh average that receives samples `s_1 .. s_n` through `update` holds
/// exactly their sum and their number, so its mean `total/count` is the plain
/// arithmetic mean `(s_1 + .. + s_n) / n` of the samples.
pub proof fn lemma_folded_is_arithmetic_mean(samples: Seq<u64>)
    ensures
        folded(samples).0 == sum_of(samples),
        folded(samples).1 == samples.len(),
    decreases samples.len(),
{
    if samples.len() > 0 {
        lemma_folded_is_arithmetic_mean(samples.drop_last());
    }
}

/// Removing one element from a sequence removes exactly its value from the sum.
proof fn lemma_sum_of_remove(samples: Seq<u64>, i: int)
    requires
        0 <= i < samples.len(),
    ensures
        sum_of(samples) == sum_of(samples.remove(i)) + samples[i],
    decreases samples.len(),
{
    if i == samples.len() - 1 {
        assert(samples.remove(i) =~= samples.drop_last());
    } else {
        lemma_sum_of_remove(samples.drop_last(), i);
        assert(samples.remove(i).drop_last() =~= samples.drop_last().remove(i));
        assert(samples.remove(i).last() == samples.last());
    }
}

/// The sum of the samples does not depend on the order in which they arrive:
/// two sample sequences with the same multiset of values have the same sum
/// and the same length, so feeding either to a fresh average yields the same
/// mean (commutativity of the equal-weighted mean).
pub proof fn lemma_mean_order_independent(a: Seq<u64>, b: Seq<u64>)
    requires
        a.to_multiset() == b.to_multiset(),
    ensures
        sum_of(a) == sum_of(b),
        a.len() == b.len(),
    decreases a.len(),
{
    a.to_multiset_ensures();
    b.to_multiset_ensures();
    if a.len() == 0 {
        assert(b.to_multiset().len() == 0);
    } else {
        let x = a.last();
        assert(a.to_multiset().contains(x));
        assert(b.to_multiset().contains(x));
        let i = choose|i: int| 0 <= i < b.len() && b[i] == x;
        let a1 = a.drop_last();
        let b1 = b.remove(i);
        assert(a1 =~= a.remove(a.len() - 1));
        a.remove_ensures(a.len() - 1);
        b.remove_ensures(i);
        assert(a1.to_multiset() == b1.to_multiset());
        lemma_mean_order_independent(a1, b1);
        lemma_sum_of_remove(b, i);
    }
}

} // verus!
