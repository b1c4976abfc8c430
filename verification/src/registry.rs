//! The registry that owns every metric, and the snapshots taken of it.
//!
//! A registry is modelled by the sequence of its entries in the order of
//! their registration: each has a name, which no other entry has, and the
//! state of a counter or of a timer. Handles are places in that sequence;
//! entries are never removed, so a handle stays good for the registry that
//! gave it out.

use crate::error::PipelineError;
use crate::metric::{
    lemma_total_ignores_order, recent, saturate, stats_of, total, Counter, Timer, TimerStats,
};
use vstd::prelude::*;

verus! {

/// The two kinds of metric.
#[derive(Clone, Copy, Debug, PartialEq, Eq, Structural)]
pub enum MetricKind {
    Counter,
    Timer,
}

/// The value of one metric, as a snapshot shows it.
#[derive(Clone, Copy, Debug, PartialEq, Eq, Structural)]
pub enum MetricValue {
    Counter { value: u64 },
    Timer(TimerStats),
}

/// The state of one metric: the value of a counter, or every sample that a
/// timer was given.
pub enum MetricModel {
    Counter(u64),
    Timer(Seq<u64>),
}

/// One entry of a registry.
pub struct EntryModel {
    pub name: Seq<char>,
    pub metric: MetricModel,
}

impl MetricModel {
    pub open spec fn kind(self) -> MetricKind {
        match self {
            MetricModel::Counter(_) => MetricKind::Counter,
            MetricModel::Timer(_) => MetricKind::Timer,
        }
    }

    /// A metric of the given kind to which nothing was written yet.
    pub open spec fn fresh(kind: MetricKind) -> MetricModel {
        match kind {
            MetricKind::Counter => MetricModel::Counter(0),
            MetricKind::Timer => MetricModel::Timer(Seq::empty()),
        }
    }

    /// What a snapshot shows of the metric.
    pub open spec fn value(self) -> MetricValue {
        match self {
            MetricModel::Counter(value) => MetricValue::Counter { value },
            MetricModel::Timer(samples) => MetricValue::Timer(stats_of(samples)),
        }
    }
}

/// Whether no two entries have the same name.
pub open spec fn distinct_names(model: Seq<EntryModel>) -> bool {
    forall|i: int, j: int|
        0 <= i < model.len() && 0 <= j < model.len() && i != j ==> model[i].name != model[j].name
}

/// Whether some entry is called `name`.
pub open spec fn has_name(model: Seq<EntryModel>, name: Seq<char>) -> bool {
    exists|i: int| 0 <= i < model.len() && #[trigger] model[i].name == name
}

/// Whether `name` is taken by a metric of another kind than `kind`.
pub open spec fn conflicting(model: Seq<EntryModel>, name: Seq<char>, kind: MetricKind) -> bool {
    exists|i: int|
        0 <= i < model.len() && #[trigger] model[i].name == name && model[i].metric.kind() != kind
}

/// The registry after `name` was asked for: as before where the name is
/// known, and with a fresh metric at the end where it is not.
pub open spec fn registered(model: Seq<EntryModel>, name: Seq<char>, kind: MetricKind) -> Seq<
    EntryModel,
> {
    if has_name(model, name) {
        model
    } else {
        model.push(EntryModel { name, metric: MetricModel::fresh(kind) })
    }
}

/// Whether place `slot` holds the metric called `name`, of kind `kind`.
pub open spec fn holds(model: Seq<EntryModel>, slot: int, name: Seq<char>, kind: MetricKind) -> bool {
    0 <= slot < model.len() && model[slot].name == name && model[slot].metric.kind() == kind
}

/// Whether place `slot` holds a metric of kind `kind`.
pub open spec fn holds_kind(model: Seq<EntryModel>, slot: int, kind: MetricKind) -> bool {
    0 <= slot < model.len() && model[slot].metric.kind() == kind
}

/// The registry after the counter at `slot` was incremented by `delta`. A
/// place that holds no counter leaves the registry as it is.
pub open spec fn incremented(model: Seq<EntryModel>, slot: int, delta: u64) -> Seq<EntryModel> {
    if 0 <= slot < model.len() {
        match model[slot].metric {
            MetricModel::Counter(value) => model.update(
                slot,
                EntryModel {
                    name: model[slot].name,
                    metric: MetricModel::Counter(value.saturating_add(delta)),
                },
            ),
            MetricModel::Timer(_) => model,
        }
    } else {
        model
    }
}

/// The registry after the timer at `slot` was given one more sample. A
/// place that holds no timer leaves the registry as it is.
pub open spec fn timed(model: Seq<EntryModel>, slot: int, duration_ms: u64) -> Seq<EntryModel> {
    if 0 <= slot < model.len() {
        match model[slot].metric {
            MetricModel::Timer(samples) => model.update(
                slot,
                EntryModel {
                    name: model[slot].name,
                    metric: MetricModel::Timer(samples.push(duration_ms)),
                },
            ),
            MetricModel::Counter(_) => model,
        }
    } else {
        model
    }
}

/// What a snapshot of the registry holds: each name with its value, in the
/// order of registration.
pub open spec fn snapshot_of(model: Seq<EntryModel>) -> Seq<(Seq<char>, MetricValue)> {
    Seq::new(model.len(), |i: int| (model[i].name, model[i].metric.value()))
}

/// The value that `entries` give for `name`, where they have one.
pub open spec fn value_of(entries: Seq<(Seq<char>, MetricValue)>, name: Seq<char>) -> Option<
    MetricValue,
> {
    if exists|i: int| 0 <= i < entries.len() && #[trigger] entries[i].0 == name {
        let i = choose|i: int| 0 <= i < entries.len() && #[trigger] entries[i].0 == name;
        Some(entries[i].1)
    } else {
        None
    }
}

/// Whether no two entries of a snapshot have the same name.
pub open spec fn distinct_entries(entries: Seq<(Seq<char>, MetricValue)>) -> bool {
    forall|i: int, j: int|
        0 <= i < entries.len() && 0 <= j < entries.len() && i != j ==> entries[i].0 != entries[j].0
}

/// What keeps the name of every entry keeps the names distinct.
proof fn lemma_same_names(before: Seq<EntryModel>, after: Seq<EntryModel>)
    requires
        distinct_names(before),
        after.len() == before.len(),
        forall|i: int| 0 <= i < before.len() ==> after[i].name == before[i].name,
    ensures
        distinct_names(after),
{
    assert forall|i: int, j: int|
        0 <= i < after.len() && 0 <= j < after.len() && i != j implies after[i].name
        != after[j].name by {
        assert(after[i].name == before[i].name);
        assert(after[j].name == before[j].name);
    }
}

enum Metric {
    Counter(Counter),
    Timer(Timer),
}

impl Metric {
    spec fn model(&self) -> MetricModel {
        match self {
            Metric::Counter(counter) => MetricModel::Counter(counter@),
            Metric::Timer(timer) => MetricModel::Timer(timer@),
        }
    }

    spec fn wf(&self) -> bool {
        match self {
            Metric::Counter(_) => true,
            Metric::Timer(timer) => timer.wf(),
        }
    }
}

struct Entry {
    name: String,
    metric: Metric,
}

impl Entry {
    spec fn model(&self) -> EntryModel {
        EntryModel { name: self.name@, metric: self.metric.model() }
    }
}

/// Refers to one counter of the registry that gave it out.
#[derive(Clone, Copy, Debug)]
pub struct CounterHandle {
    slot: usize,
}

/// Refers to one timer of the registry that gave it out.
#[derive(Clone, Copy, Debug)]
pub struct TimerHandle {
    slot: usize,
}

impl CounterHandle {
    /// The place of the counter in its registry.
    pub closed spec fn slot(self) -> int {
        self.slot as int
    }
}

impl TimerHandle {
    /// The place of the timer in its registry.
    pub closed spec fn slot(self) -> int {
        self.slot as int
    }
}

/// One name of a snapshot with its value.
#[derive(Debug)]
pub struct SnapshotEntry {
    pub name: String,
    pub value: MetricValue,
}

impl View for SnapshotEntry {
    type V = (Seq<char>, MetricValue);

    open spec fn view(&self) -> (Seq<char>, MetricValue) {
        (self.name@, self.value)
    }
}

/// A copy of every metric's value at one moment.
#[derive(Debug)]
pub struct Snapshot {
    pub entries: Vec<SnapshotEntry>,
}

impl View for Snapshot {
    type V = Seq<(Seq<char>, MetricValue)>;

    open spec fn view(&self) -> Seq<(Seq<char>, MetricValue)> {
        Seq::new(self.entries@.len(), |i: int| self.entries@[i]@)
    }
}

impl Snapshot {
    /// The number of metrics in the snapshot.
    pub fn len(&self) -> (len: usize)
        ensures
            len == self@.len(),
    {
        self.entries.len()
    }

    /// The value recorded under `name`: that of the first entry so called.
    pub fn get(&self, name: &str) -> (value: Option<MetricValue>)
        ensures
            value is Some <==> exists|i: int| 0 <= i < self@.len() && #[trigger] self@[i].0 == name@,
            value matches Some(v) ==> exists|i: int|
                0 <= i < self@.len() && #[trigger] self@[i].0 == name@ && self@[i].1 == v && forall|
                    j: int,
                | 0 <= j < i ==> #[trigger] self@[j].0 != name@,
            distinct_entries(self@) ==> value == value_of(self@, name@),
    {
        let wanted = name.to_owned();
        let mut i: usize = 0;
        while i < self.entries.len()
            invariant
                i <= self.entries.len(),
                wanted@ == name@,
                forall|j: int| 0 <= j < i ==> #[trigger] self@[j].0 != name@,
            decreases self.entries.len() - i,
        {
            if self.entries[i].name == wanted {
                assert(self@[i as int].0 == name@);
                return Some(self.entries[i].value);
            }
            i += 1;
        }
        None
    }
}

/// Owns every metric of a process.
pub struct MetricsRegistry {
    entries: Vec<Entry>,
}

impl View for MetricsRegistry {
    type V = Seq<EntryModel>;

    closed spec fn view(&self) -> Seq<EntryModel> {
        Seq::new(self.entries@.len(), |i: int| self.entries@[i].model())
    }
}

impl MetricsRegistry {
    /// What holds of every registry: no name occurs twice, and every timer
    /// is consistent with its samples.
    pub closed spec fn wf(&self) -> bool {
        &&& distinct_names(self@)
        &&& forall|i: int| 0 <= i < self.entries@.len() ==> (#[trigger] self.entries@[i]).metric.wf()
    }

    /// In a registry no name occurs twice.
    pub proof fn lemma_names_are_distinct(&self)
        requires
            self.wf(),
        ensures
            distinct_names(self@),
    {
    }

    /// A registry without metrics.
    pub fn new() -> (registry: MetricsRegistry)
        ensures
            registry.wf(),
            registry@ == Seq::<EntryModel>::empty(),
    {
        let registry = MetricsRegistry { entries: Vec::new() };
        assert(registry@ =~= Seq::<EntryModel>::empty());
        registry
    }

    /// The number of metrics.
    pub fn len(&self) -> (len: usize)
        ensures
            len == self@.len(),
    {
        self.entries.len()
    }

    fn find(&self, name: &String) -> (found: Option<usize>)
        ensures
            match found {
                Some(slot) => slot < self@.len() && self@[slot as int].name == name@,
                None => !has_name(self@, name@),
            },
    {
        let mut i: usize = 0;
        while i < self.entries.len()
            invariant
                i <= self.entries.len(),
                forall|j: int| 0 <= j < i ==> (#[trigger] self@[j]).name != name@,
            decreases self.entries.len() - i,
        {
            if self.entries[i].name == *name {
                return Some(i);
            }
            i += 1;
        }
        None
    }

    fn kind_at(&self, slot: usize) -> (kind: MetricKind)
        requires
            slot < self@.len(),
        ensures
            kind == self@[slot as int].metric.kind(),
    {
        match &self.entries[slot].metric {
            Metric::Counter(_) => MetricKind::Counter,
            Metric::Timer(_) => MetricKind::Timer,
        }
    }

    fn get_or_create(&mut self, name: &str, kind: MetricKind) -> (slot: Result<
        usize,
        PipelineError,
    >)
        requires
            old(self).wf(),
        ensures
            final(self).wf(),
            slot is Err <==> conflicting(old(self)@, name@, kind),
            slot matches Err(e) ==> e == PipelineError::TypeMismatch && final(self)@ == old(self)@,
            slot matches Ok(s) ==> final(self)@ == registered(old(self)@, name@, kind) && holds(
                final(self)@,
                s as int,
                name@,
                kind,
            ),
    {
        let owned = name.to_owned();
        match self.find(&owned) {
            Some(slot) => {
                if self.kind_at(slot) == kind {
                    Ok(slot)
                } else {
                    Err(PipelineError::TypeMismatch)
                }
            },
            None => {
                let metric = match kind {
                    MetricKind::Counter => Metric::Counter(Counter::new()),
                    MetricKind::Timer => Metric::Timer(Timer::new()),
                };
                let slot = self.entries.len();
                self.entries.push(Entry { name: owned, metric });
                proof {
                    assert(self@ =~= old(self)@.push(
                        EntryModel { name: name@, metric: MetricModel::fresh(kind) },
                    ));
                }
                Ok(slot)
            },
        }
    }

    /// The counter called `name`, which is created at zero if the name is
    /// new. Fails, and changes nothing, if the name belongs to a timer.
    pub fn get_or_create_counter(&mut self, name: &str) -> (handle: Result<
        CounterHandle,
        PipelineError,
    >)
        requires
            old(self).wf(),
        ensures
            final(self).wf(),
            handle is Err <==> conflicting(old(self)@, name@, MetricKind::Counter),
            handle matches Err(e) ==> e == PipelineError::TypeMismatch && final(self)@ == old(
                self,
            )@,
            handle matches Ok(h) ==> final(self)@ == registered(
                old(self)@,
                name@,
                MetricKind::Counter,
            ) && holds(final(self)@, h.slot(), name@, MetricKind::Counter),
    {
        match self.get_or_create(name, MetricKind::Counter) {
            Ok(slot) => Ok(CounterHandle { slot }),
            Err(e) => Err(e),
        }
    }

    /// The timer called `name`, which is created without samples if the
    /// name is new. Fails, and changes nothing, if the name belongs to a
    /// counter.
    pub fn get_or_create_timer(&mut self, name: &str) -> (handle: Result<
        TimerHandle,
        PipelineError,
    >)
        requires
            old(self).wf(),
        ensures
            final(self).wf(),
            handle is Err <==> conflicting(old(self)@, name@, MetricKind::Timer),
            handle matches Err(e) ==> e == PipelineError::TypeMismatch && final(self)@ == old(
                self,
            )@,
            handle matches Ok(h) ==> final(self)@ == registered(
                old(self)@,
                name@,
                MetricKind::Timer,
            ) && holds(final(self)@, h.slot(), name@, MetricKind::Timer),
    {
        match self.get_or_create(name, MetricKind::Timer) {
            Ok(slot) => Ok(TimerHandle { slot }),
            Err(e) => Err(e),
        }
    }

    /// The kind of the metric called `name`, if there is one.
    pub fn kind_of(&self, name: &str) -> (kind: Option<MetricKind>)
        requires
            self.wf(),
        ensures
            kind is Some <==> has_name(self@, name@),
            kind matches Some(k) ==> !conflicting(self@, name@, k) && exists|i: int|
                0 <= i < self@.len() && #[trigger] self@[i].name == name@ && self@[i].metric.kind()
                    == k,
    {
        let owned = name.to_owned();
        match self.find(&owned) {
            Some(slot) => {
                let kind = self.kind_at(slot);
                assert(self@[slot as int].name == name@);
                Some(kind)
            },
            None => None,
        }
    }

    /// Adds `delta` to the counter that `handle` refers to. A handle that
    /// refers to no counter of this registry is an instrumentation fault,
    /// and nothing changes.
    pub fn increment(&mut self, handle: CounterHandle, delta: u64) -> (done: Result<
        (),
        PipelineError,
    >)
        requires
            old(self).wf(),
        ensures
            final(self).wf(),
            final(self)@ == incremented(old(self)@, handle.slot(), delta),
            done is Ok <==> holds_kind(old(self)@, handle.slot(), MetricKind::Counter),
            done matches Err(e) ==> e == PipelineError::InstrumentationFault,
    {
        let slot = handle.slot;
        if slot >= self.entries.len() {
            return Err(PipelineError::InstrumentationFault);
        }
        if self.kind_at(slot) != MetricKind::Counter {
            return Err(PipelineError::InstrumentationFault);
        }
        if let Metric::Counter(counter) = &mut self.entries[slot].metric {
            counter.increment(delta);
        }
        proof {
            assert(self@ =~= incremented(old(self)@, handle.slot(), delta));
            lemma_same_names(old(self)@, self@);
            assert forall|i: int| 0 <= i < self.entries@.len() implies (
            #[trigger] self.entries@[i]).metric.wf() by {
                if i != slot {
                    assert(self.entries@[i] == old(self).entries@[i]);
                }
            }
        }
        Ok(())
    }

    /// Gives one more sample to the timer that `handle` refers to. A handle
    /// that refers to no timer of this registry is an instrumentation
    /// fault, and nothing changes.
    pub fn record_duration(&mut self, handle: TimerHandle, duration_ms: u64) -> (done: Result<
        (),
        PipelineError,
    >)
        requires
            old(self).wf(),
        ensures
            final(self).wf(),
            final(self)@ == timed(old(self)@, handle.slot(), duration_ms),
            done is Ok <==> holds_kind(old(self)@, handle.slot(), MetricKind::Timer),
            done matches Err(e) ==> e == PipelineError::InstrumentationFault,
    {
        let slot = handle.slot;
        if slot >= self.entries.len() {
            return Err(PipelineError::InstrumentationFault);
        }
        if self.kind_at(slot) != MetricKind::Timer {
            return Err(PipelineError::InstrumentationFault);
        }
        assert(old(self).entries@[slot as int].metric.wf());
        if let Metric::Timer(timer) = &mut self.entries[slot].metric {
            timer.record(duration_ms);
        }
        proof {
            assert(self@ =~= timed(old(self)@, handle.slot(), duration_ms));
            lemma_same_names(old(self)@, self@);
            assert forall|i: int| 0 <= i < self.entries@.len() implies (
            #[trigger] self.entries@[i]).metric.wf() by {
                if i != slot {
                    assert(self.entries@[i] == old(self).entries@[i]);
                }
            }
        }
        Ok(())
    }

    /// The value of the counter that `handle` refers to, if it refers to one.
    pub fn counter_value(&self, handle: CounterHandle) -> (value: Option<u64>)
        ensures
            match value {
                Some(v) => holds_kind(self@, handle.slot(), MetricKind::Counter) && self@[handle.slot()].metric
                    == MetricModel::Counter(v),
                None => !holds_kind(self@, handle.slot(), MetricKind::Counter),
            },
    {
        if handle.slot >= self.entries.len() {
            return None;
        }
        match &self.entries[handle.slot].metric {
            Metric::Counter(counter) => Some(counter.value()),
            Metric::Timer(_) => None,
        }
    }

    /// The figures of the timer that `handle` refers to, if it refers to one.
    pub fn timer_stats(&self, handle: TimerHandle) -> (stats: Option<TimerStats>)
        requires
            self.wf(),
        ensures
            match stats {
                Some(s) => holds_kind(self@, handle.slot(), MetricKind::Timer)
                    && MetricValue::Timer(s) == self@[handle.slot()].metric.value(),
                None => !holds_kind(self@, handle.slot(), MetricKind::Timer),
            },
    {
        if handle.slot >= self.entries.len() {
            return None;
        }
        assert(self.entries@[handle.slot as int].metric.wf());
        match &self.entries[handle.slot].metric {
            Metric::Timer(timer) => Some(timer.stats()),
            Metric::Counter(_) => None,
        }
    }

    /// Copies the value of every metric.
    pub fn snapshot(&self) -> (snapshot: Snapshot)
        requires
            self.wf(),
        ensures
            snapshot@ == snapshot_of(self@),
            distinct_entries(snapshot@),
    {
        let mut entries: Vec<SnapshotEntry> = Vec::new();
        let mut i: usize = 0;
        while i < self.entries.len()
            invariant
                self.wf(),
                i <= self.entries.len(),
                entries@.len() == i,
                forall|j: int| 0 <= j < i ==> (#[trigger] entries@[j])@ == snapshot_of(self@)[j],
            decreases self.entries.len() - i,
        {
            assert(self.entries@[i as int].metric.wf());
            let value = match &self.entries[i].metric {
                Metric::Counter(counter) => MetricValue::Counter { value: counter.value() },
                Metric::Timer(timer) => MetricValue::Timer(timer.stats()),
            };
            entries.push(SnapshotEntry { name: self.entries[i].name.clone(), value });
            i += 1;
        }
        let snapshot = Snapshot { entries };
        assert(snapshot@ =~= snapshot_of(self@));
        snapshot
    }
}

/// The registry after the counter at `slot` was incremented by each of
/// `deltas` in turn.
pub open spec fn incremented_by_each(model: Seq<EntryModel>, slot: int, deltas: Seq<u64>) -> Seq<
    EntryModel,
>
    decreases deltas.len(),
{
    if deltas.len() == 0 {
        model
    } else {
        incremented(incremented_by_each(model, slot, deltas.drop_last()), slot, deltas.last())
    }
}

/// No increment is lost: after any number of increments a counter stands at
/// its old value plus the sum of them all, cut off at the largest 64-bit
/// value, and nothing else in the registry has changed.
pub proof fn lemma_no_increment_is_lost(model: Seq<EntryModel>, slot: int, deltas: Seq<u64>)
    requires
        holds_kind(model, slot, MetricKind::Counter),
    ensures
        ({
            let after = incremented_by_each(model, slot, deltas);
            &&& after.len() == model.len()
            &&& after[slot].name == model[slot].name
            &&& after[slot].metric == MetricModel::Counter(
                saturate(model[slot].metric->Counter_0 + total(deltas)),
            )
            &&& model[slot].metric->Counter_0 + total(deltas) <= u64::MAX ==> after[slot].metric
                == MetricModel::Counter((model[slot].metric->Counter_0 + total(deltas)) as u64)
            &&& forall|other: int| 0 <= other < model.len() && other != slot ==> after[other] == model[other]
        }),
    decreases deltas.len(),
{
    if deltas.len() > 0 {
        lemma_no_increment_is_lost(model, slot, deltas.drop_last());
    }
}

/// However the increments of several writers to one counter are
/// interleaved, the registry ends up the same.
pub proof fn lemma_writers_may_interleave(
    model: Seq<EntryModel>,
    slot: int,
    one: Seq<u64>,
    other: Seq<u64>,
)
    requires
        holds_kind(model, slot, MetricKind::Counter),
        one.to_multiset() == other.to_multiset(),
    ensures
        incremented_by_each(model, slot, one) == incremented_by_each(model, slot, other),
{
    lemma_no_increment_is_lost(model, slot, one);
    lemma_no_increment_is_lost(model, slot, other);
    lemma_total_ignores_order(one, other);
    assert(incremented_by_each(model, slot, one) =~= incremented_by_each(model, slot, other));
}

/// The registry that a sequence of requests builds from nothing. A request
/// for a name that another kind has taken fails and changes nothing.
pub open spec fn after_requests(requests: Seq<(Seq<char>, MetricKind)>) -> Seq<EntryModel>
    decreases requests.len(),
{
    if requests.len() == 0 {
        Seq::empty()
    } else {
        let before = after_requests(requests.drop_last());
        let (name, kind) = requests.last();
        if conflicting(before, name, kind) {
            before
        } else {
            registered(before, name, kind)
        }
    }
}

/// Whether the value is that of a metric to which nothing was written: a
/// counter at zero, or a timer without samples, whose figures are all zero.
pub open spec fn is_zero(value: MetricValue) -> bool {
    match value {
        MetricValue::Counter { value } => value == 0,
        MetricValue::Timer(stats) => stats == (TimerStats {
            count: 0,
            sum: 0,
            min: 0,
            max: 0,
            p50: 0,
            p95: 0,
            p99: 0,
        }),
    }
}

/// Whether nothing was written to any metric.
pub open spec fn untouched(model: Seq<EntryModel>) -> bool {
    forall|i: int|
        0 <= i < model.len() ==> (#[trigger] model[i]).metric == MetricModel::fresh(
            model[i].metric.kind(),
        )
}

/// A snapshot of a registry to which nothing was written shows zero for
/// every metric.
pub proof fn lemma_untouched_snapshot_is_zero(model: Seq<EntryModel>, at: int)
    requires
        untouched(model),
        0 <= at < model.len(),
    ensures
        is_zero(snapshot_of(model)[at].1),
{
    assert(model[at].metric == MetricModel::fresh(model[at].metric.kind()));
    assert(recent(Seq::<u64>::empty()) =~= Seq::<u64>::empty());
}

/// Whatever names are registered, in whatever order, as long as nothing is
/// written, a snapshot shows every registered name with the value zero, and
/// every request that did not meet a name of the other kind is among them.
pub proof fn lemma_registration_starts_at_zero(requests: Seq<(Seq<char>, MetricKind)>)
    ensures
        untouched(after_requests(requests)),
        distinct_names(after_requests(requests)),
        forall|at: int|
            0 <= at < after_requests(requests).len() ==> is_zero(
                #[trigger] snapshot_of(after_requests(requests))[at].1,
            ),
        forall|k: int|
            0 <= k < requests.len() && !conflicting(
                after_requests(requests.subrange(0, k)),
                requests[k].0,
                requests[k].1,
            ) ==> has_name(after_requests(requests), (#[trigger] requests[k]).0),
    decreases requests.len(),
{
    let model = after_requests(requests);
    if requests.len() > 0 {
        let earlier = requests.drop_last();
        lemma_registration_starts_at_zero(earlier);
        let before = after_requests(earlier);
        let (name, kind) = requests.last();
        assert forall|k: int|
            0 <= k < requests.len() && !conflicting(
                after_requests(requests.subrange(0, k)),
                requests[k].0,
                requests[k].1,
            ) implies has_name(model, (#[trigger] requests[k]).0) by {
            if k < earlier.len() {
                assert(earlier.subrange(0, k) =~= requests.subrange(0, k));
                assert(earlier[k] == requests[k]);
                assert(has_name(before, earlier[k].0));
                let i = choose|i: int| 0 <= i < before.len() && #[trigger] before[i].name == requests[k].0;
                assert(model[i].name == requests[k].0);
            } else {
                assert(requests.subrange(0, k) =~= earlier);
                if !has_name(before, name) {
                    assert(model[before.len() as int].name == name);
                }
            }
        }
    }
    assert forall|at: int| 0 <= at < model.len() implies is_zero(
        #[trigger] snapshot_of(model)[at].1,
    ) by {
        lemma_untouched_snapshot_is_zero(model, at);
    }
}

/// Asking for a metric is idempotent: asking again for the same name and
/// kind changes nothing, does not fail, and, as no name occurs twice, leads
/// to the same place.
pub proof fn lemma_registration_is_idempotent(
    model: Seq<EntryModel>,
    name: Seq<char>,
    kind: MetricKind,
)
    requires
        distinct_names(model),
        !conflicting(model, name, kind),
    ensures
        ({
            let after = registered(model, name, kind);
            &&& distinct_names(after)
            &&& !conflicting(after, name, kind)
            &&& registered(after, name, kind) == after
            &&& forall|one: int, other: int|
                holds(after, one, name, kind) && holds(after, other, name, kind) ==> one == other
            &&& forall|slot: int| 0 <= slot < model.len() ==> after[slot] == model[slot]
        }),
{
    let after = registered(model, name, kind);
    if has_name(model, name) {
        let i = choose|i: int| 0 <= i < model.len() && #[trigger] model[i].name == name;
        assert(after[i].name == name);
    } else {
        assert(after[model.len() as int].name == name);
        assert forall|i: int, j: int|
            0 <= i < after.len() && 0 <= j < after.len() && i != j implies after[i].name
            != after[j].name by {
            if i < model.len() {
                assert(model[i].name == after[i].name);
            }
            if j < model.len() {
                assert(model[j].name == after[j].name);
            }
        }
        assert forall|i: int|
            0 <= i < after.len() && #[trigger] after[i].name == name implies after[i].metric.kind()
            == kind by {
            if i < model.len() {
                assert(model[i].name == name);
            }
        }
    }
}

/// A name that was registered as a timer cannot be had as a counter, and
/// the other way round: the second request is a type mismatch.
pub proof fn lemma_kind_is_fixed(model: Seq<EntryModel>, name: Seq<char>, first: MetricKind, second: MetricKind)
    requires
        !conflicting(model, name, first),
        first != second,
    ensures
        conflicting(registered(model, name, first), name, second),
{
    let after = registered(model, name, first);
    if has_name(model, name) {
        let i = choose|i: int| 0 <= i < model.len() && #[trigger] model[i].name == name;
        assert(model[i].metric.kind() == first);
    } else {
        assert(after[model.len() as int].name == name);
    }
}

} // verus!
