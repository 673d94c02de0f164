//! Counters of how often something happened and how long it took.
use vstd::prelude::*;

verus! {

/// The count and the whole time of a counter, in microseconds.
#[derive(Clone, Copy, Debug, PartialEq, Eq, Structural)]
pub struct TimingSnapshot {
    pub count: u64,
    pub total_us: u64,
}

impl Default for TimingSnapshot {
    fn default() -> (r: Self)
        ensures
            r == (TimingSnapshot { count: 0, total_us: 0 }),
    {
        TimingSnapshot { count: 0, total_us: 0 }
    }
}

/// An accumulator of latencies.
///
/// It counts nanoseconds, and converts them only when it is read. That keeps
/// samples below a microsecond observable, where each alone would be cut to
/// zero.
#[derive(Debug)]
pub struct TimingCounter {
    pub count: u64,
    pub total_ns: u64,
}

impl Default for TimingCounter {
    fn default() -> (r: Self)
        ensures
            r.count == 0,
            r.total_ns == 0,
    {
        TimingCounter { count: 0, total_ns: 0 }
    }
}

/// The sum, or the greatest number where the sum does not fit.
pub open spec fn saturated(a: int, b: int) -> int {
    if a + b > u64::MAX {
        u64::MAX as int
    } else {
        a + b
    }
}

/// The sum of two numbers, or the greatest number where the sum does not fit.
pub fn saturating_add(current: u64, amount: u64) -> (r: u64)
    ensures
        r == saturated(current as int, amount as int),
{
    if amount > u64::MAX - current {
        u64::MAX
    } else {
        current + amount
    }
}

impl TimingCounter {
    /// Count one sample, given its nanoseconds.
    pub fn observe(&mut self, elapsed_ns: u128)
        ensures
            final(self).count == saturated(old(self).count as int, 1),
            final(self).total_ns == saturated(old(self).total_ns as int, elapsed_ns as int),
    {
        self.count = saturating_add(self.count, 1);
        let ns: u64 = if elapsed_ns > 18446744073709551615u128 {
            u64::MAX
        } else {
            elapsed_ns as u64
        };
        self.total_ns = saturating_add(self.total_ns, ns);
    }

    /// What was counted so far.
    pub fn snapshot(&self) -> (r: TimingSnapshot)
        ensures
            r.count == self.count,
            r.total_us == self.total_ns as int / 1000,
    {
        TimingSnapshot { count: self.count, total_us: self.total_ns / 1_000 }
    }
}

/// The sum of some samples, in nanoseconds.
pub open spec fn sum_ns(samples: Seq<u128>) -> int
    decreases samples.len(),
{
    if samples.len() == 0 {
        0
    } else {
        sum_ns(samples.drop_last()) + samples.last() as int
    }
}

/// The state of a counter after some samples.
pub open spec fn after_samples(count: int, ns: int, samples: Seq<u128>) -> (int, int)
    decreases samples.len(),
{
    if samples.len() == 0 {
        (count, ns)
    } else {
        let before = after_samples(count, ns, samples.drop_last());
        (saturated(before.0, 1), saturated(before.1, samples.last() as int))
    }
}

/// A counter never goes down and never wraps, and after any samples it holds
/// their number and their sum, each cut off at the greatest number.
pub proof fn lemma_samples(count: u64, ns: u64, samples: Seq<u128>)
    ensures
        after_samples(count as int, ns as int, samples).0 == saturated(
            count as int,
            samples.len() as int,
        ),
        after_samples(count as int, ns as int, samples).1 == saturated(
            ns as int,
            sum_ns(samples),
        ),
        count <= after_samples(count as int, ns as int, samples).0 <= u64::MAX,
        ns <= after_samples(count as int, ns as int, samples).1 <= u64::MAX,
        sum_ns(samples) >= 0,
    decreases samples.len(),
{
    if samples.len() > 0 {
        lemma_samples(count, ns, samples.drop_last());
    }
}

} // verus!
