//! The bookkeeping around one handled request.
//!
//! The transport layer calls `begin` before it invokes a handler and
//! `complete` once the handler is done, however it ended. Completing a
//! request records its duration in the timer of its route and counts it
//! twice: among all requests, and among those of its status class.

use crate::error::PipelineError;
use crate::registry::{
    conflicting, holds, holds_kind, incremented, registered, timed, CounterHandle, EntryModel,
    MetricKind, MetricModel, MetricsRegistry, TimerHandle,
};
use vstd::prelude::*;
use vstd::string::*;

verus! {

/// How a handler ended.
#[derive(Clone, Copy, Debug, PartialEq, Eq, Structural)]
pub enum Outcome {
    /// It returned a response with this status code.
    Responded(u16),
    /// It returned an error instead of a response.
    HandlerError,
    /// It panicked.
    Fault,
    /// It was dropped before it finished.
    Cancelled,
}

/// The classes by which completed requests are counted.
#[derive(Clone, Copy, Debug, PartialEq, Eq, Structural)]
pub enum StatusClass {
    Informational,
    Success,
    Redirection,
    ClientError,
    ServerError,
    /// No response, or one whose status code is no HTTP status.
    Error,
}

/// The class of an outcome: that of the status code's hundreds for a
/// response with a code from 100 to 599, and `Error` for everything else.
pub open spec fn class_of(outcome: Outcome) -> StatusClass {
    match outcome {
        Outcome::Responded(status) => if 100 <= status < 200 {
            StatusClass::Informational
        } else if 200 <= status < 300 {
            StatusClass::Success
        } else if 300 <= status < 400 {
            StatusClass::Redirection
        } else if 400 <= status < 500 {
            StatusClass::ClientError
        } else if 500 <= status < 600 {
            StatusClass::ServerError
        } else {
            StatusClass::Error
        },
        _ => StatusClass::Error,
    }
}

pub fn classify(outcome: Outcome) -> (class: StatusClass)
    ensures
        class == class_of(outcome),
{
    match outcome {
        Outcome::Responded(status) => {
            let hundreds: u16 = status / 100;
            if hundreds == 1 {
                StatusClass::Informational
            } else if hundreds == 2 {
                StatusClass::Success
            } else if hundreds == 3 {
                StatusClass::Redirection
            } else if hundreds == 4 {
                StatusClass::ClientError
            } else if hundreds == 5 {
                StatusClass::ServerError
            } else {
                StatusClass::Error
            }
        },
        _ => StatusClass::Error,
    }
}

/// The last part of the name of the counter of a class.
pub open spec fn class_label(class: StatusClass) -> Seq<char> {
    match class {
        StatusClass::Informational => "1xx"@,
        StatusClass::Success => "2xx"@,
        StatusClass::Redirection => "3xx"@,
        StatusClass::ClientError => "4xx"@,
        StatusClass::ServerError => "5xx"@,
        StatusClass::Error => "error"@,
    }
}

/// The last part of the name of the counter of all requests.
pub open spec fn total_label() -> Seq<char> {
    "total"@
}

/// The name of a request counter: `<basename>.requests.<label>`.
pub open spec fn counter_name(basename: Seq<char>, label: Seq<char>) -> Seq<char> {
    basename + ".requests."@ + label
}

/// The name of the timer of a route: `<basename>.latency.<route>`.
pub open spec fn timer_name(basename: Seq<char>, route: Seq<char>) -> Seq<char> {
    basename + ".latency."@ + route
}

impl StatusClass {
    pub fn label(self) -> (label: &'static str)
        ensures
            label@ == class_label(self),
    {
        match self {
            StatusClass::Informational => "1xx",
            StatusClass::Success => "2xx",
            StatusClass::Redirection => "3xx",
            StatusClass::ClientError => "4xx",
            StatusClass::ServerError => "5xx",
            StatusClass::Error => "error",
        }
    }
}

/// One request for a metric, made of a registry and of whether every
/// earlier request succeeded: the first request that meets a name of the
/// other kind fails, and nothing is registered from then on.
pub open spec fn request_step(state: (Seq<EntryModel>, bool), name: Seq<char>, kind: MetricKind) -> (
    Seq<EntryModel>,
    bool,
) {
    if !state.1 || conflicting(state.0, name, kind) {
        (state.0, false)
    } else {
        (registered(state.0, name, kind), true)
    }
}

/// The registry after the metrics of a route were asked for, and whether
/// all of them could be had: first the timer of the route, then the counter
/// of all requests, then the counter of each class.
pub open spec fn installation(model: Seq<EntryModel>, basename: Seq<char>, route: Seq<char>) -> (
    Seq<EntryModel>,
    bool,
) {
    let s = request_step((model, true), timer_name(basename, route), MetricKind::Timer);
    let s = request_step(s, counter_name(basename, total_label()), MetricKind::Counter);
    let s = request_step(
        s,
        counter_name(basename, class_label(StatusClass::Informational)),
        MetricKind::Counter,
    );
    let s = request_step(
        s,
        counter_name(basename, class_label(StatusClass::Success)),
        MetricKind::Counter,
    );
    let s = request_step(
        s,
        counter_name(basename, class_label(StatusClass::Redirection)),
        MetricKind::Counter,
    );
    let s = request_step(
        s,
        counter_name(basename, class_label(StatusClass::ClientError)),
        MetricKind::Counter,
    );
    let s = request_step(
        s,
        counter_name(basename, class_label(StatusClass::ServerError)),
        MetricKind::Counter,
    );
    request_step(s, counter_name(basename, class_label(StatusClass::Error)), MetricKind::Counter)
}

/// A request that has begun and is not yet completed.
#[derive(Debug)]
pub struct RequestSpan {
    started_ms: u64,
}

impl RequestSpan {
    /// When the request began.
    pub closed spec fn started(self) -> u64 {
        self.started_ms
    }
}

/// What completing a request recorded.
#[derive(Clone, Copy, Debug, PartialEq, Eq, Structural)]
pub struct Completion {
    /// The duration that was recorded.
    pub elapsed_ms: u64,
    /// The class under which the request was counted.
    pub class: StatusClass,
    /// How many of the three updates could not be made. They are not the
    /// request's concern: the caller logs them and goes on.
    pub faults: u8,
}

/// The metrics of one route.
#[derive(Clone, Copy, Debug)]
pub struct InstrumentationMiddleware {
    timer: TimerHandle,
    total: CounterHandle,
    informational: CounterHandle,
    success: CounterHandle,
    redirection: CounterHandle,
    client_error: CounterHandle,
    server_error: CounterHandle,
    error: CounterHandle,
}

fn series_name(basename: &str, label: &str) -> (name: String)
    ensures
        name@ == counter_name(basename@, label@),
{
    let mut name = String::from_str(basename);
    name.append(".requests.");
    name.append(label);
    name
}

fn class_counter(registry: &mut MetricsRegistry, basename: &str, class: StatusClass) -> (handle:
    Result<CounterHandle, PipelineError>)
    requires
        old(registry).wf(),
    ensures
        final(registry).wf(),
        (final(registry)@, handle is Ok) == request_step(
            (old(registry)@, true),
            counter_name(basename@, class_label(class)),
            MetricKind::Counter,
        ),
        handle matches Err(e) ==> e == PipelineError::TypeMismatch,
        handle matches Ok(h) ==> holds(
            final(registry)@,
            h.slot(),
            counter_name(basename@, class_label(class)),
            MetricKind::Counter,
        ),
{
    let name = series_name(basename, class.label());
    registry.get_or_create_counter(name.as_str())
}

/// Asking for a metric leaves every metric where it was.
proof fn lemma_request_keeps(
    model: Seq<EntryModel>,
    name: Seq<char>,
    kind: MetricKind,
    slot: int,
    held: Seq<char>,
    held_kind: MetricKind,
)
    requires
        holds(model, slot, held, held_kind),
    ensures
        holds(request_step((model, true), name, kind).0, slot, held, held_kind),
{
}

/// The labels of the request counters differ in their first character.
proof fn lemma_labels_differ()
    ensures
        total_label().len() > 0,
        forall|class: StatusClass| #[trigger] class_label(class).len() > 0,
        forall|class: StatusClass| #[trigger] class_label(class)[0] != total_label()[0],
        forall|a: StatusClass, b: StatusClass|
            a != b ==> #[trigger] class_label(a)[0] != #[trigger] class_label(b)[0],
{
    reveal_strlit("total");
    reveal_strlit("1xx");
    reveal_strlit("2xx");
    reveal_strlit("3xx");
    reveal_strlit("4xx");
    reveal_strlit("5xx");
    reveal_strlit("error");
}

/// Counters with different labels have different names.
proof fn lemma_names_differ(basename: Seq<char>, a: Seq<char>, b: Seq<char>)
    requires
        a.len() > 0,
        b.len() > 0,
        a[0] != b[0],
    ensures
        counter_name(basename, a) != counter_name(basename, b),
{
    let at = (basename + ".requests."@).len() as int;
    assert(counter_name(basename, a)[at] == a[0]);
    assert(counter_name(basename, b)[at] == b[0]);
}

impl InstrumentationMiddleware {
    /// The place of the route's timer.
    pub closed spec fn timer_slot(self) -> int {
        self.timer.slot()
    }

    /// The place of the counter of all requests.
    pub closed spec fn total_slot(self) -> int {
        self.total.slot()
    }

    /// The place of the counter of a class.
    pub closed spec fn class_slot(self, class: StatusClass) -> int {
        match class {
            StatusClass::Informational => self.informational.slot(),
            StatusClass::Success => self.success.slot(),
            StatusClass::Redirection => self.redirection.slot(),
            StatusClass::ClientError => self.client_error.slot(),
            StatusClass::ServerError => self.server_error.slot(),
            StatusClass::Error => self.error.slot(),
        }
    }

    /// Whether `model` holds the metrics of the route `route` under
    /// `basename` where this middleware looks for them.
    pub open spec fn installed_in(self, model: Seq<EntryModel>, basename: Seq<char>, route: Seq<char>) -> bool {
        &&& holds(model, self.timer_slot(), timer_name(basename, route), MetricKind::Timer)
        &&& holds(
            model,
            self.total_slot(),
            counter_name(basename, total_label()),
            MetricKind::Counter,
        )
        &&& forall|class: StatusClass|
            holds(
                model,
                #[trigger] self.class_slot(class),
                counter_name(basename, class_label(class)),
                MetricKind::Counter,
            )
    }

    /// The registry after a request of class `class` that took
    /// `elapsed_ms` was completed.
    pub open spec fn completed(self, model: Seq<EntryModel>, elapsed_ms: u64, class: StatusClass) -> Seq<
        EntryModel,
    > {
        incremented(
            incremented(timed(model, self.timer_slot(), elapsed_ms), self.total_slot(), 1),
            self.class_slot(class),
            1,
        )
    }

    /// How many of the three metrics of a request of class `class` are not
    /// where this middleware looks for them.
    pub open spec fn missing(self, model: Seq<EntryModel>, class: StatusClass) -> int {
        (if holds_kind(model, self.timer_slot(), MetricKind::Timer) {
            0int
        } else {
            1int
        }) + (if holds_kind(model, self.total_slot(), MetricKind::Counter) {
            0int
        } else {
            1int
        }) + (if holds_kind(model, self.class_slot(class), MetricKind::Counter) {
            0int
        } else {
            1int
        })
    }

    /// Registers the metrics of the route `route` under `basename`: the
    /// timer `<basename>.latency.<route>` and the counters
    /// `<basename>.requests.total`, `.1xx`, `.2xx`, `.3xx`, `.4xx`, `.5xx`
    /// and `.error`. Fails at the first of these names that a metric of the
    /// other kind has taken; what was registered until then stays.
    pub fn install(registry: &mut MetricsRegistry, basename: &str, route: &str) -> (middleware:
        Result<InstrumentationMiddleware, PipelineError>)
        requires
            old(registry).wf(),
        ensures
            final(registry).wf(),
            (final(registry)@, middleware is Ok) == installation(
                old(registry)@,
                basename@,
                route@,
            ),
            middleware matches Err(e) ==> e == PipelineError::TypeMismatch,
            middleware matches Ok(m) ==> m.installed_in(final(registry)@, basename@, route@),
    {
        let mut name = String::from_str(basename);
        name.append(".latency.");
        name.append(route);
        let timer = match registry.get_or_create_timer(name.as_str()) {
            Ok(handle) => handle,
            Err(e) => {
                return Err(e);
            },
        };
        let ghost m0 = registry@;
        let total_name = series_name(basename, "total");
        let total = match registry.get_or_create_counter(total_name.as_str()) {
            Ok(handle) => handle,
            Err(e) => {
                return Err(e);
            },
        };
        let ghost m1 = registry@;
        let informational = match class_counter(registry, basename, StatusClass::Informational) {
            Ok(handle) => handle,
            Err(e) => {
                return Err(e);
            },
        };
        let ghost m2 = registry@;
        let success = match class_counter(registry, basename, StatusClass::Success) {
            Ok(handle) => handle,
            Err(e) => {
                return Err(e);
            },
        };
        let ghost m3 = registry@;
        let redirection = match class_counter(registry, basename, StatusClass::Redirection) {
            Ok(handle) => handle,
            Err(e) => {
                return Err(e);
            },
        };
        let ghost m4 = registry@;
        let client_error = match class_counter(registry, basename, StatusClass::ClientError) {
            Ok(handle) => handle,
            Err(e) => {
                return Err(e);
            },
        };
        let ghost m5 = registry@;
        let server_error = match class_counter(registry, basename, StatusClass::ServerError) {
            Ok(handle) => handle,
            Err(e) => {
                return Err(e);
            },
        };
        let ghost m6 = registry@;
        let error = match class_counter(registry, basename, StatusClass::Error) {
            Ok(handle) => handle,
            Err(e) => {
                return Err(e);
            },
        };
        let middleware = InstrumentationMiddleware {
            timer,
            total,
            informational,
            success,
            redirection,
            client_error,
            server_error,
            error,
        };
        proof {
            let b = basename@;
            let counter = MetricKind::Counter;
            let n_timer = timer_name(b, route@);
            let n_total = counter_name(b, total_label());
            let n1 = counter_name(b, class_label(StatusClass::Informational));
            let n2 = counter_name(b, class_label(StatusClass::Success));
            let n3 = counter_name(b, class_label(StatusClass::Redirection));
            let n4 = counter_name(b, class_label(StatusClass::ClientError));
            let n5 = counter_name(b, class_label(StatusClass::ServerError));
            let n6 = counter_name(b, class_label(StatusClass::Error));
            let m7 = registry@;
            lemma_request_keeps(m0, n_total, counter, timer.slot(), n_timer, MetricKind::Timer);
            lemma_request_keeps(m1, n1, counter, timer.slot(), n_timer, MetricKind::Timer);
            lemma_request_keeps(m2, n2, counter, timer.slot(), n_timer, MetricKind::Timer);
            lemma_request_keeps(m3, n3, counter, timer.slot(), n_timer, MetricKind::Timer);
            lemma_request_keeps(m4, n4, counter, timer.slot(), n_timer, MetricKind::Timer);
            lemma_request_keeps(m5, n5, counter, timer.slot(), n_timer, MetricKind::Timer);
            lemma_request_keeps(m6, n6, counter, timer.slot(), n_timer, MetricKind::Timer);
            lemma_request_keeps(m1, n1, counter, total.slot(), n_total, counter);
            lemma_request_keeps(m2, n2, counter, total.slot(), n_total, counter);
            lemma_request_keeps(m3, n3, counter, total.slot(), n_total, counter);
            lemma_request_keeps(m4, n4, counter, total.slot(), n_total, counter);
            lemma_request_keeps(m5, n5, counter, total.slot(), n_total, counter);
            lemma_request_keeps(m6, n6, counter, total.slot(), n_total, counter);
            lemma_request_keeps(m2, n2, counter, informational.slot(), n1, counter);
            lemma_request_keeps(m3, n3, counter, informational.slot(), n1, counter);
            lemma_request_keeps(m4, n4, counter, informational.slot(), n1, counter);
            lemma_request_keeps(m5, n5, counter, informational.slot(), n1, counter);
            lemma_request_keeps(m6, n6, counter, informational.slot(), n1, counter);
            lemma_request_keeps(m3, n3, counter, success.slot(), n2, counter);
            lemma_request_keeps(m4, n4, counter, success.slot(), n2, counter);
            lemma_request_keeps(m5, n5, counter, success.slot(), n2, counter);
            lemma_request_keeps(m6, n6, counter, success.slot(), n2, counter);
            lemma_request_keeps(m4, n4, counter, redirection.slot(), n3, counter);
            lemma_request_keeps(m5, n5, counter, redirection.slot(), n3, counter);
            lemma_request_keeps(m6, n6, counter, redirection.slot(), n3, counter);
            lemma_request_keeps(m5, n5, counter, client_error.slot(), n4, counter);
            lemma_request_keeps(m6, n6, counter, client_error.slot(), n4, counter);
            lemma_request_keeps(m6, n6, counter, server_error.slot(), n5, counter);
            assert forall|class: StatusClass|
                holds(
                    m7,
                    #[trigger] middleware.class_slot(class),
                    counter_name(b, class_label(class)),
                    counter,
                ) by {
                match class {
                    StatusClass::Informational => {},
                    StatusClass::Success => {},
                    StatusClass::Redirection => {},
                    StatusClass::ClientError => {},
                    StatusClass::ServerError => {},
                    StatusClass::Error => {},
                }
            }
        }
        Ok(middleware)
    }

    /// Notes when a request begins. `now_ms` is the reading of a clock that
    /// keeps running while the handler waits.
    pub fn begin(&self, now_ms: u64) -> (span: RequestSpan)
        ensures
            span.started() == now_ms,
    {
        RequestSpan { started_ms: now_ms }
    }

    fn class_handle(&self, class: StatusClass) -> (handle: CounterHandle)
        ensures
            handle.slot() == self.class_slot(class),
    {
        match class {
            StatusClass::Informational => self.informational,
            StatusClass::Success => self.success,
            StatusClass::Redirection => self.redirection,
            StatusClass::ClientError => self.client_error,
            StatusClass::ServerError => self.server_error,
            StatusClass::Error => self.error,
        }
    }

    /// Completes a request, however its handler ended: records the time
    /// since `span` began in the route's timer, and adds one to the counter
    /// of all requests and to the counter of the outcome's class. A clock
    /// that went backwards gives the duration 0. An update that cannot be
    /// made is counted in the result and otherwise ignored.
    pub fn complete(
        &self,
        registry: &mut MetricsRegistry,
        span: RequestSpan,
        now_ms: u64,
        outcome: Outcome,
    ) -> (completion: Completion)
        requires
            old(registry).wf(),
        ensures
            final(registry).wf(),
            completion.elapsed_ms == now_ms.saturating_sub(span.started()),
            completion.class == class_of(outcome),
            final(registry)@ == self.completed(
                old(registry)@,
                completion.elapsed_ms,
                completion.class,
            ),
            completion.faults == self.missing(old(registry)@, completion.class),
    {
        let elapsed_ms = now_ms.saturating_sub(span.started_ms);
        let class = classify(outcome);
        let mut faults: u8 = 0;
        if registry.record_duration(self.timer, elapsed_ms).is_err() {
            faults = faults + 1;
        }
        if registry.increment(self.total, 1).is_err() {
            faults = faults + 1;
        }
        if registry.increment(self.class_handle(class), 1).is_err() {
            faults = faults + 1;
        }
        Completion { elapsed_ms, class, faults }
    }
}

/// Completing a request counts it exactly once. Where the metrics of the
/// route are installed, the route's timer gains the one sample, the counter
/// of all requests and the counter of the request's class each go up by
/// one, and no other metric changes: in particular a request whose handler
/// failed or panicked adds one to the `error` counter and to no other
/// class.
pub proof fn lemma_completion_counts_once(
    middleware: InstrumentationMiddleware,
    model: Seq<EntryModel>,
    basename: Seq<char>,
    route: Seq<char>,
    elapsed_ms: u64,
    class: StatusClass,
)
    requires
        middleware.installed_in(model, basename, route),
    ensures
        middleware.missing(model, class) == 0,
        middleware.installed_in(middleware.completed(model, elapsed_ms, class), basename, route),
        ({
            let after = middleware.completed(model, elapsed_ms, class);
            &&& after.len() == model.len()
            &&& after[middleware.timer_slot()].metric == MetricModel::Timer(
                model[middleware.timer_slot()].metric->Timer_0.push(elapsed_ms),
            )
            &&& after[middleware.total_slot()].metric == MetricModel::Counter(
                model[middleware.total_slot()].metric->Counter_0.saturating_add(1),
            )
            &&& after[middleware.class_slot(class)].metric == MetricModel::Counter(
                model[middleware.class_slot(class)].metric->Counter_0.saturating_add(1),
            )
            &&& forall|slot: int|
                0 <= slot < model.len() && slot != middleware.timer_slot() && slot
                    != middleware.total_slot() && slot != middleware.class_slot(class)
                    ==> after[slot] == model[slot]
        }),
{
    lemma_labels_differ();
    lemma_names_differ(basename, class_label(class), total_label());
    let after = middleware.completed(model, elapsed_ms, class);
    assert(holds(model, middleware.class_slot(class), counter_name(basename, class_label(class)), MetricKind::Counter));
    assert(middleware.class_slot(class) != middleware.total_slot());
    assert forall|other: StatusClass|
        holds(
            after,
            #[trigger] middleware.class_slot(other),
            counter_name(basename, class_label(other)),
            MetricKind::Counter,
        ) by {
        assert(holds(model, middleware.class_slot(other), counter_name(basename, class_label(other)), MetricKind::Counter));
    }
}

} // verus!
