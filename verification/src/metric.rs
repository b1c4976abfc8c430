//! Counters and timers, the two kinds of metric.
//!
//! A counter is modelled by its value. A timer is modelled by the whole
//! stream of samples it has been given; what it reports is a function of
//! that stream, although it stores only a bounded part of it.

use std::collections::VecDeque;
use vstd::prelude::*;
use vstd::relations::*;
use vstd::seq_lib::*;

verus! {

/// How many of the latest samples a timer keeps for its quantiles.
pub const RESERVOIR_CAPACITY: usize = 1024;

/// `n` cut off at the ends of the 64-bit range.
pub open spec fn saturate(n: int) -> u64 {
    if n >= u64::MAX {
        u64::MAX
    } else if n <= 0 {
        0
    } else {
        n as u64
    }
}

/// The sum of `values`.
pub open spec fn total(values: Seq<u64>) -> nat
    decreases values.len(),
{
    if values.len() == 0 {
        0
    } else {
        total(values.drop_last()) + values.last() as nat
    }
}

/// The value of a counter that stood at `start` and was then incremented by
/// each of `deltas` in turn.
pub open spec fn after_increments(start: u64, deltas: Seq<u64>) -> u64
    decreases deltas.len(),
{
    if deltas.len() == 0 {
        start
    } else {
        after_increments(start, deltas.drop_last()).saturating_add(deltas.last())
    }
}

/// A count of events that never goes down.
#[derive(Debug)]
pub struct Counter {
    value: u64,
}

impl View for Counter {
    type V = u64;

    closed spec fn view(&self) -> u64 {
        self.value
    }
}

impl Counter {
    pub fn new() -> (counter: Counter)
        ensures
            counter@ == 0,
    {
        Counter { value: 0 }
    }

    /// Adds `delta`. A counter that would pass the largest 64-bit value
    /// stays there.
    pub fn increment(&mut self, delta: u64)
        ensures
            final(self)@ == old(self)@.saturating_add(delta),
            final(self)@ >= old(self)@,
    {
        self.value = self.value.saturating_add(delta);
    }

    pub fn value(&self) -> (value: u64)
        ensures
            value == self@,
    {
        self.value
    }
}

/// Increments add up: whatever their number and size, the counter ends at
/// the sum of its start and all increments, cut off at the largest value.
pub proof fn lemma_increments_add_up(start: u64, deltas: Seq<u64>)
    ensures
        after_increments(start, deltas) == saturate(start + total(deltas)),
        start + total(deltas) <= u64::MAX ==> after_increments(start, deltas) == start + total(
            deltas,
        ),
    decreases deltas.len(),
{
    if deltas.len() > 0 {
        lemma_increments_add_up(start, deltas.drop_last());
    }
}

proof fn lemma_total_without(values: Seq<u64>, at: int)
    requires
        0 <= at < values.len(),
    ensures
        total(values) == total(values.remove(at)) + values[at],
    decreases values.len(),
{
    if at == values.len() - 1 {
        assert(values.remove(at) =~= values.drop_last());
    } else {
        lemma_total_without(values.drop_last(), at);
        assert(values.remove(at).drop_last() =~= values.drop_last().remove(at));
    }
}

/// The sum of a sequence does not depend on the order of its items.
pub proof fn lemma_total_ignores_order(a: Seq<u64>, b: Seq<u64>)
    requires
        a.to_multiset() == b.to_multiset(),
    ensures
        total(a) == total(b),
    decreases a.len(),
{
    broadcast use group_to_multiset_ensures;

    to_multiset_len(a);
    to_multiset_len(b);
    if a.len() == 0 {
    } else {
        let x = a.last();
        assert(a.drop_last().push(x) =~= a);
        assert(b.to_multiset().count(x) > 0);
        let at = choose|at: int| 0 <= at < b.len() && b[at] == x;
        assert(a.drop_last() =~= a.remove(a.len() - 1));
        assert(a.drop_last().to_multiset() =~= b.remove(at).to_multiset());
        lemma_total_ignores_order(a.drop_last(), b.remove(at));
        lemma_total_without(b, at);
    }
}

/// However the increments of several writers are interleaved, a counter
/// that starts at `start` ends at the same value: no increment is lost and
/// none counts twice.
pub proof fn lemma_interleaving_is_irrelevant(start: u64, one: Seq<u64>, other: Seq<u64>)
    requires
        one.to_multiset() == other.to_multiset(),
    ensures
        after_increments(start, one) == after_increments(start, other),
{
    lemma_increments_add_up(start, one);
    lemma_increments_add_up(start, other);
    lemma_total_ignores_order(one, other);
}

/// `times` increments of `delta` each add up to their product.
pub proof fn lemma_uniform_increments(times: nat, delta: u64)
    ensures
        total(Seq::new(times, |i: int| delta)) == times * delta,
    decreases times,
{
    let all = Seq::new(times, |i: int| delta);
    if times > 0 {
        lemma_uniform_increments((times - 1) as nat, delta);
        assert(all.drop_last() =~= Seq::new((times - 1) as nat, |i: int| delta));
        assert(all.last() == delta);
        assert(times * delta == (times - 1) * delta + delta) by (nonlinear_arith);
    } else {
        assert(times * delta == 0) by (nonlinear_arith)
            requires
                times == 0,
        ;
    }
}

/// The least of `samples`; 0 where there is none.
pub open spec fn smallest(samples: Seq<u64>) -> u64
    decreases samples.len(),
{
    if samples.len() == 0 {
        0
    } else if samples.len() == 1 {
        samples[0]
    } else {
        let rest = smallest(samples.drop_last());
        if samples.last() < rest {
            samples.last()
        } else {
            rest
        }
    }
}

/// The greatest of `samples`; 0 where there is none.
pub open spec fn largest(samples: Seq<u64>) -> u64
    decreases samples.len(),
{
    if samples.len() == 0 {
        0
    } else {
        let rest = largest(samples.drop_last());
        if samples.last() > rest {
            samples.last()
        } else {
            rest
        }
    }
}

/// The part of a stream of samples that a timer still holds: the latest
/// `RESERVOIR_CAPACITY` of them.
pub open spec fn recent(samples: Seq<u64>) -> Seq<u64> {
    if samples.len() <= RESERVOIR_CAPACITY {
        samples
    } else {
        samples.subrange(samples.len() - RESERVOIR_CAPACITY, samples.len() as int)
    }
}

/// The order by which samples are ranked.
pub open spec fn at_most() -> spec_fn(u64, u64) -> bool {
    |a: u64, b: u64| a <= b
}

/// `samples` from the least to the greatest.
pub open spec fn ascending(samples: Seq<u64>) -> Seq<u64> {
    samples.sort_by(at_most())
}

/// The place, among `len` samples in ascending order, of the sample that
/// `percent` of them do not exceed (the nearest-rank method).
pub open spec fn rank_index(len: nat, percent: nat) -> int {
    let rank = (percent * len + 99) / 100;
    if rank < 1 {
        0
    } else if rank > len {
        len - 1
    } else {
        rank - 1
    }
}

/// The `percent`-th percentile of `samples`; 0 where there is none.
pub open spec fn quantile(samples: Seq<u64>, percent: nat) -> u64 {
    if samples.len() == 0 {
        0
    } else {
        ascending(samples)[rank_index(samples.len(), percent)]
    }
}

/// What a timer reports.
#[derive(Clone, Copy, Debug, PartialEq, Eq, Structural)]
pub struct TimerStats {
    /// How many samples were recorded.
    pub count: u64,
    /// The sum of all samples.
    pub sum: u64,
    /// The least sample.
    pub min: u64,
    /// The greatest sample.
    pub max: u64,
    /// The median of the latest samples.
    pub p50: u64,
    /// The 95th percentile of the latest samples.
    pub p95: u64,
    /// The 99th percentile of the latest samples.
    pub p99: u64,
}

/// What a timer reports after it was given `samples`, in this order. Count
/// and sum stop at the largest 64-bit value; the quantiles are taken from
/// the latest `RESERVOIR_CAPACITY` samples.
pub open spec fn stats_of(samples: Seq<u64>) -> TimerStats {
    TimerStats {
        count: saturate(samples.len() as int),
        sum: saturate(total(samples) as int),
        min: smallest(samples),
        max: largest(samples),
        p50: quantile(recent(samples), 50),
        p95: quantile(recent(samples), 95),
        p99: quantile(recent(samples), 99),
    }
}

/// The distribution of a stream of durations, in milliseconds.
pub struct Timer {
    count: u64,
    sum: u64,
    min: u64,
    max: u64,
    window: VecDeque<u64>,
    samples: Ghost<Seq<u64>>,
}

impl View for Timer {
    type V = Seq<u64>;

    /// Every sample recorded so far, oldest first.
    closed spec fn view(&self) -> Seq<u64> {
        self.samples@
    }
}

spec fn in_order(values: Seq<u64>) -> bool {
    forall|i: int, j: int| 0 <= i < j < values.len() ==> values[i] <= values[j]
}

proof fn lemma_at_most_is_total()
    ensures
        total_ordering(at_most()),
{
    let leq = at_most();
    assert(reflexive(leq));
    assert(antisymmetric(leq));
    assert(transitive(leq));
    assert(strongly_connected(leq));
}

/// Copies `window` into ascending order.
fn ascending_copy(window: &VecDeque<u64>) -> (sorted: Vec<u64>)
    ensures
        sorted@ == ascending(window@),
{
    let mut sorted: Vec<u64> = Vec::new();
    let mut taken: usize = 0;
    assert(sorted@ =~= window@.subrange(0, 0));
    while taken < window.len()
        invariant
            taken <= window.len(),
            in_order(sorted@),
            sorted@.to_multiset() == window@.subrange(0, taken as int).to_multiset(),
        decreases window.len() - taken,
    {
        let sample = window[taken];
        let mut place: usize = 0;
        while place < sorted.len() && sorted[place] <= sample
            invariant
                place <= sorted.len(),
                forall|i: int| 0 <= i < place ==> sorted@[i] <= sample,
            decreases sorted.len() - place,
        {
            place += 1;
        }
        proof {
            to_multiset_insert(sorted@, place as int, sample);
            to_multiset_build(window@.subrange(0, taken as int), sample);
            assert(window@.subrange(0, taken + 1) =~= window@.subrange(0, taken as int).push(
                sample,
            ));
        }
        sorted.insert(place, sample);
        taken += 1;
    }
    proof {
        assert(window@.subrange(0, taken as int) =~= window@);
        lemma_at_most_is_total();
        window@.lemma_sort_by_ensures(at_most());
        assert(sorted_by(sorted@, at_most()));
        lemma_sorted_unique(sorted@, ascending(window@), at_most());
    }
    sorted
}

/// The place of the `percent`-th percentile among `len` ascending samples.
fn rank_of(len: usize, percent: u64) -> (index: usize)
    requires
        0 < len <= RESERVOIR_CAPACITY,
        percent <= 100,
    ensures
        index == rank_index(len as nat, percent as nat),
        index < len,
{
    assert(percent * len <= 102400) by (nonlinear_arith)
        requires
            percent <= 100,
            len <= 1024,
    ;
    let rank: u64 = (percent * (len as u64) + 99) / 100;
    if rank < 1 {
        0
    } else if rank > len as u64 {
        len - 1
    } else {
        (rank - 1) as usize
    }
}

impl Timer {
    /// What holds of every timer: its figures are those of the samples it
    /// was given, and it keeps the latest of them.
    pub closed spec fn wf(&self) -> bool {
        &&& self.count == saturate(self.samples@.len() as int)
        &&& self.sum == saturate(total(self.samples@) as int)
        &&& self.min == smallest(self.samples@)
        &&& self.max == largest(self.samples@)
        &&& self.window@ == recent(self.samples@)
    }

    pub fn new() -> (timer: Timer)
        ensures
            timer.wf(),
            timer@ == Seq::<u64>::empty(),
    {
        Timer {
            count: 0,
            sum: 0,
            min: 0,
            max: 0,
            window: VecDeque::new(),
            samples: Ghost(Seq::empty()),
        }
    }

    /// Records one duration.
    pub fn record(&mut self, duration_ms: u64)
        requires
            old(self).wf(),
        ensures
            final(self).wf(),
            final(self)@ == old(self)@.push(duration_ms),
    {
        let ghost before = self.samples@;
        let ghost after = before.push(duration_ms);
        proof {
            assert(after.drop_last() =~= before);
            assert(after.last() == duration_ms);
        }
        if self.count == 0 {
            self.min = duration_ms;
            self.max = duration_ms;
        } else {
            if duration_ms < self.min {
                self.min = duration_ms;
            }
            if duration_ms > self.max {
                self.max = duration_ms;
            }
        }
        self.count = self.count.saturating_add(1);
        self.sum = self.sum.saturating_add(duration_ms);
        if self.window.len() >= RESERVOIR_CAPACITY {
            let _ = self.window.pop_front();
        }
        self.window.push_back(duration_ms);
        self.samples = Ghost(after);
        proof {
            assert(self.window@ =~= recent(after));
        }
    }

    /// How many samples were recorded, up to the largest 64-bit value.
    pub fn count(&self) -> (count: u64)
        requires
            self.wf(),
        ensures
            count == stats_of(self@).count,
    {
        self.count
    }

    /// The figures that the timer reports.
    pub fn stats(&self) -> (stats: TimerStats)
        requires
            self.wf(),
        ensures
            stats == stats_of(self@),
    {
        let sorted = ascending_copy(&self.window);
        let len = sorted.len();
        proof {
            lemma_at_most_is_total();
            self.window@.lemma_sort_by_ensures(at_most());
            to_multiset_len(self.window@);
            to_multiset_len(sorted@);
        }
        if len == 0 {
            TimerStats {
                count: self.count,
                sum: self.sum,
                min: self.min,
                max: self.max,
                p50: 0,
                p95: 0,
                p99: 0,
            }
        } else {
            TimerStats {
                count: self.count,
                sum: self.sum,
                min: self.min,
                max: self.max,
                p50: sorted[rank_of(len, 50)],
                p95: sorted[rank_of(len, 95)],
                p99: sorted[rank_of(len, 99)],
            }
        }
    }
}

/// Once a timer has a sample, its least sample is one of them and none is
/// below it.
pub proof fn lemma_smallest_bounds(samples: Seq<u64>, at: int)
    requires
        0 <= at < samples.len(),
    ensures
        smallest(samples) <= samples[at],
        samples.contains(smallest(samples)),
    decreases samples.len(),
{
    if samples.len() == 1 {
        assert(samples[0] == smallest(samples));
    } else {
        let rest = samples.drop_last();
        lemma_smallest_bounds(rest, 0);
        let found = choose|i: int| 0 <= i < rest.len() && rest[i] == smallest(rest);
        assert(samples[found] == smallest(rest));
        assert(samples[samples.len() - 1] == samples.last());
        if at < rest.len() {
            lemma_smallest_bounds(rest, at);
        }
    }
}

/// Once a timer has a sample, its greatest sample is one of them and none
/// is above it.
pub proof fn lemma_largest_bounds(samples: Seq<u64>, at: int)
    requires
        0 <= at < samples.len(),
    ensures
        samples[at] <= largest(samples),
        samples.contains(largest(samples)),
    decreases samples.len(),
{
    let rest = samples.drop_last();
    assert(samples[samples.len() - 1] == samples.last());
    if samples.len() == 1 {
        assert(largest(rest) == 0);
    } else {
        lemma_largest_bounds(rest, 0);
        let found = choose|i: int| 0 <= i < rest.len() && rest[i] == largest(rest);
        assert(samples[found] == largest(rest));
        if at < rest.len() {
            lemma_largest_bounds(rest, at);
        }
    }
}

/// A timer's figures are consistent with every sample it was given: each
/// lies between the least and the greatest, and so does every quantile.
pub proof fn lemma_stats_bound_samples(samples: Seq<u64>, at: int)
    requires
        0 <= at < samples.len(),
    ensures
        stats_of(samples).min <= samples[at] <= stats_of(samples).max,
        stats_of(samples).count > 0,
        stats_of(samples).min <= stats_of(samples).p50 <= stats_of(samples).max,
        stats_of(samples).min <= stats_of(samples).p95 <= stats_of(samples).max,
        stats_of(samples).min <= stats_of(samples).p99 <= stats_of(samples).max,
{
    lemma_smallest_bounds(samples, at);
    lemma_largest_bounds(samples, at);
    lemma_quantile_is_a_sample(recent(samples), 50);
    lemma_quantile_is_a_sample(recent(samples), 95);
    lemma_quantile_is_a_sample(recent(samples), 99);
    let kept = recent(samples);
    assert forall|v: u64| kept.contains(v) implies smallest(samples) <= v <= largest(samples) by {
        let i = choose|i: int| 0 <= i < kept.len() && kept[i] == v;
        if samples.len() <= RESERVOIR_CAPACITY {
            lemma_smallest_bounds(samples, i);
            lemma_largest_bounds(samples, i);
        } else {
            let j = samples.len() - RESERVOIR_CAPACITY + i;
            assert(samples[j] == kept[i]);
            lemma_smallest_bounds(samples, j);
            lemma_largest_bounds(samples, j);
        }
    }
}

/// `ascending(samples)` is the one arrangement of the samples in which
/// none is followed by a smaller one.
pub proof fn lemma_ascending_is_the_ordered_arrangement(samples: Seq<u64>, ordered: Seq<u64>)
    requires
        ordered.to_multiset() == samples.to_multiset(),
        forall|i: int, j: int| 0 <= i < j < ordered.len() ==> ordered[i] <= ordered[j],
    ensures
        ascending(samples) == ordered,
{
    lemma_at_most_is_total();
    samples.lemma_sort_by_ensures(at_most());
    assert(sorted_by(ordered, at_most()));
    lemma_sorted_unique(ordered, ascending(samples), at_most());
}

/// A higher percentile is no smaller sample.
pub proof fn lemma_quantiles_are_ordered(samples: Seq<u64>, lower: nat, higher: nat)
    requires
        lower <= higher,
    ensures
        quantile(samples, lower) <= quantile(samples, higher),
{
    if samples.len() > 0 {
        lemma_at_most_is_total();
        samples.lemma_sort_by_ensures(at_most());
        to_multiset_len(samples);
        to_multiset_len(ascending(samples));
        let len = samples.len();
        assert(lower * len <= higher * len) by (nonlinear_arith)
            requires
                lower <= higher,
        ;
        let low = rank_index(len, lower);
        let high = rank_index(len, higher);
        assert(low <= high);
        if low < high {
            assert(at_most()(ascending(samples)[low], ascending(samples)[high]));
        }
    }
}

/// A quantile of a non-empty reservoir is one of its samples.
pub proof fn lemma_quantile_is_a_sample(samples: Seq<u64>, percent: nat)
    requires
        samples.len() > 0,
    ensures
        samples.contains(quantile(samples, percent)),
{
    broadcast use group_to_multiset_ensures;

    lemma_at_most_is_total();
    samples.lemma_sort_by_ensures(at_most());
    let sorted = ascending(samples);
    to_multiset_len(samples);
    to_multiset_len(sorted);
    let index = rank_index(samples.len(), percent);
    assert(sorted.contains(sorted[index]));
}

} // verus!
