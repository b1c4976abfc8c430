//! When a reporter flushes.
//!
//! Each reporter has a scheduler of its own, so no reporter waits for
//! another. A scheduler neither sleeps nor flushes: it is told what happened
//! and when, and answers with what its reporter's task is to do next.

use crate::config::ReporterConfig;
use crate::error::PipelineError;
use vstd::prelude::*;

verus! {

/// What a scheduler is told.
#[derive(Clone, Copy, Debug, PartialEq, Eq)]
pub enum Event {
    /// `start()` was called at this time.
    Start(u64),
    /// The task woke up at this time.
    Wake(u64),
    /// The flush that the scheduler asked for has ended like this.
    FlushFinished(Result<(), PipelineError>),
    /// `stop()` was called at this time.
    Stop(u64),
}

/// What the task of a reporter is to do next.
#[derive(Clone, Copy, Debug, PartialEq, Eq, Structural)]
pub enum Action {
    /// Sleep until the given time, then wake the scheduler.
    Sleep { until: u64 },
    /// Take a snapshot and flush it, then report how it ended.
    Flush,
    /// The scheduler is stopped while a flush is under way: let it finish,
    /// but wake the scheduler at the given time if it has not.
    AwaitFlush { until: u64 },
    /// The flush under way has had its time: give it up and end.
    Abandon,
    /// End.
    Exit,
}

/// The state of a scheduler.
pub struct Schedule {
    /// The time between two flushes.
    pub interval_ms: u64,
    /// How long a flush may go on after `stop()`.
    pub grace_ms: u64,
    pub running: bool,
    /// While running: when the next flush is due.
    pub due_at: u64,
    /// Whether a flush was asked for and has not ended.
    pub in_flight: bool,
    /// While stopped with a flush under way: when to give it up.
    pub abandon_at: u64,
    /// How many flushes have ended.
    pub flushes: u64,
    /// How many of them failed.
    pub failures: u64,
}

/// The time of the flush after the one that was due at `due_at` and is
/// begun at `now`: one interval after `due_at`, or, where that has passed
/// already, one interval from now.
pub open spec fn next_due(due_at: u64, now: u64, interval_ms: u64) -> u64 {
    if due_at.saturating_add(interval_ms) > now {
        due_at.saturating_add(interval_ms)
    } else {
        now.saturating_add(interval_ms)
    }
}

/// What the scheduler does while it runs or while a flush is under way.
pub open spec fn waiting(s: Schedule) -> Action {
    if s.running {
        Action::Sleep { until: s.due_at }
    } else if s.in_flight {
        Action::AwaitFlush { until: s.abandon_at }
    } else {
        Action::Exit
    }
}

/// The state after an event, and the action that answers it.
pub open spec fn next(s: Schedule, event: Event) -> (Schedule, Action) {
    match event {
        Event::Start(now) => {
            if s.running {
                (s, waiting(s))
            } else {
                let started = Schedule {
                    running: true,
                    due_at: now.saturating_add(s.interval_ms),
                    ..s
                };
                (started, waiting(started))
            }
        },
        Event::Wake(now) => {
            if s.running {
                if now < s.due_at {
                    (s, waiting(s))
                } else {
                    let due_at = next_due(s.due_at, now, s.interval_ms);
                    if s.in_flight {
                        let skipped = Schedule { due_at, ..s };
                        (skipped, waiting(skipped))
                    } else {
                        (Schedule { due_at, in_flight: true, ..s }, Action::Flush)
                    }
                }
            } else if s.in_flight && now >= s.abandon_at {
                (Schedule { in_flight: false, ..s }, Action::Abandon)
            } else {
                (s, waiting(s))
            }
        },
        Event::FlushFinished(result) => {
            if s.in_flight {
                let finished = Schedule {
                    in_flight: false,
                    flushes: s.flushes.saturating_add(1),
                    failures: if result is Err {
                        s.failures.saturating_add(1)
                    } else {
                        s.failures
                    },
                    ..s
                };
                (finished, waiting(finished))
            } else {
                (s, waiting(s))
            }
        },
        Event::Stop(now) => {
            if s.running {
                let stopped = Schedule {
                    running: false,
                    abandon_at: now.saturating_add(s.grace_ms),
                    ..s
                };
                (stopped, waiting(stopped))
            } else {
                (s, waiting(s))
            }
        },
    }
}

/// The failure that an event brings to the log, if any: that of a flush
/// that was under way and has failed.
pub open spec fn failure_of(s: Schedule, event: Event) -> Option<PipelineError> {
    match event {
        Event::FlushFinished(Err(e)) => if s.in_flight {
            Some(e)
        } else {
            None
        },
        _ => None,
    }
}

/// What a scheduler answers: what to do next, and what to write to the log.
#[derive(Clone, Copy, Debug, PartialEq, Eq)]
pub struct Step {
    pub action: Action,
    pub failure: Option<PipelineError>,
}

/// Decides when one reporter flushes.
#[derive(Debug)]
pub struct ReporterScheduler {
    interval_ms: u64,
    grace_ms: u64,
    running: bool,
    due_at: u64,
    in_flight: bool,
    abandon_at: u64,
    flushes: u64,
    failures: u64,
}

impl View for ReporterScheduler {
    type V = Schedule;

    closed spec fn view(&self) -> Schedule {
        Schedule {
            interval_ms: self.interval_ms,
            grace_ms: self.grace_ms,
            running: self.running,
            due_at: self.due_at,
            in_flight: self.in_flight,
            abandon_at: self.abandon_at,
            flushes: self.flushes,
            failures: self.failures,
        }
    }
}

impl ReporterScheduler {
    /// A stopped scheduler for a reporter with the given configuration. A
    /// flush that is under way when `stop()` is called has `grace_ms`
    /// milliseconds to end.
    pub fn new(config: &ReporterConfig, grace_ms: u64) -> (scheduler: ReporterScheduler)
        ensures
            scheduler@ == (Schedule {
                interval_ms: if config.interval() * 1000 > u64::MAX {
                    u64::MAX
                } else {
                    (config.interval() * 1000) as u64
                },
                grace_ms,
                running: false,
                due_at: 0,
                in_flight: false,
                abandon_at: 0,
                flushes: 0,
                failures: 0,
            }),
            scheduler@.interval_ms >= 1000,
    {
        ReporterScheduler {
            interval_ms: config.interval_ms(),
            grace_ms,
            running: false,
            due_at: 0,
            in_flight: false,
            abandon_at: 0,
            flushes: 0,
            failures: 0,
        }
    }

    fn waiting(&self) -> (action: Action)
        ensures
            action == waiting(self@),
    {
        if self.running {
            Action::Sleep { until: self.due_at }
        } else if self.in_flight {
            Action::AwaitFlush { until: self.abandon_at }
        } else {
            Action::Exit
        }
    }

    /// Starts the scheduler: the first flush is due one interval from
    /// `now_ms`, not at once. A running scheduler stays as it is.
    pub fn start(&mut self, now_ms: u64) -> (action: Action)
        ensures
            (final(self)@, action) == next(old(self)@, Event::Start(now_ms)),
    {
        if !self.running {
            self.running = true;
            self.due_at = now_ms.saturating_add(self.interval_ms);
        }
        self.waiting()
    }

    /// Tells the scheduler that its task woke up. While it runs, a flush
    /// that is due is asked for unless one is still under way, and the next
    /// one is put off by an interval. While it is stopped, nothing is asked
    /// for; a flush under way past its time is given up.
    pub fn wake(&mut self, now_ms: u64) -> (action: Action)
        ensures
            (final(self)@, action) == next(old(self)@, Event::Wake(now_ms)),
    {
        if self.running {
            if now_ms >= self.due_at {
                let after = self.due_at.saturating_add(self.interval_ms);
                self.due_at = if after > now_ms {
                    after
                } else {
                    now_ms.saturating_add(self.interval_ms)
                };
                if !self.in_flight {
                    self.in_flight = true;
                    return Action::Flush;
                }
            }
        } else if self.in_flight && now_ms >= self.abandon_at {
            self.in_flight = false;
            return Action::Abandon;
        }
        self.waiting()
    }

    /// Tells the scheduler how the flush it asked for has ended. A failure
    /// is counted and handed back for the log; the schedule goes on as if
    /// the flush had succeeded, and what was not delivered is not sent
    /// again.
    pub fn flush_finished(&mut self, result: Result<(), PipelineError>) -> (step: Step)
        ensures
            (final(self)@, step.action) == next(old(self)@, Event::FlushFinished(result)),
            step.failure == failure_of(old(self)@, Event::FlushFinished(result)),
    {
        let mut failure: Option<PipelineError> = None;
        if self.in_flight {
            self.in_flight = false;
            self.flushes = self.flushes.saturating_add(1);
            if let Err(e) = result {
                self.failures = self.failures.saturating_add(1);
                failure = Some(e);
            }
        }
        Step { action: self.waiting(), failure }
    }

    /// Stops the scheduler: the flush that was due next is not asked for. A
    /// flush under way is not interrupted; it has the grace period to end.
    pub fn stop(&mut self, now_ms: u64) -> (action: Action)
        ensures
            (final(self)@, action) == next(old(self)@, Event::Stop(now_ms)),
    {
        if self.running {
            self.running = false;
            self.abandon_at = now_ms.saturating_add(self.grace_ms);
        }
        self.waiting()
    }

    /// Tells the scheduler of any event.
    pub fn handle(&mut self, event: Event) -> (step: Step)
        ensures
            (final(self)@, step.action) == next(old(self)@, event),
            step.failure == failure_of(old(self)@, event),
    {
        match event {
            Event::Start(now_ms) => Step { action: self.start(now_ms), failure: None },
            Event::Wake(now_ms) => Step { action: self.wake(now_ms), failure: None },
            Event::FlushFinished(result) => self.flush_finished(result),
            Event::Stop(now_ms) => Step { action: self.stop(now_ms), failure: None },
        }
    }

    pub fn is_running(&self) -> (running: bool)
        ensures
            running == self@.running,
    {
        self.running
    }

    /// How many flushes have ended.
    pub fn flushes(&self) -> (flushes: u64)
        ensures
            flushes == self@.flushes,
    {
        self.flushes
    }

    /// How many flushes have failed.
    pub fn failures(&self) -> (failures: u64)
        ensures
            failures == self@.failures,
    {
        self.failures
    }
}

/// The state after the task woke up at each of `times` in turn, where every
/// flush that was asked for ended with `result` before the next wake.
pub open spec fn after_wakes(s: Schedule, times: Seq<u64>, result: Result<(), PipelineError>) -> Schedule
    decreases times.len(),
{
    if times.len() == 0 {
        s
    } else {
        let before = after_wakes(s, times.drop_last(), result);
        let (woken, action) = next(before, Event::Wake(times.last()));
        if action is Flush {
            next(woken, Event::FlushFinished(result)).0
        } else {
            woken
        }
    }
}

/// A scheduler that is not running asks for no flush, whenever and however
/// often it is woken: nothing fires before `start()` or after `stop()`.
pub proof fn lemma_stopped_never_fires(s: Schedule, times: Seq<u64>, result: Result<(), PipelineError>)
    requires
        !s.running,
    ensures
        !after_wakes(s, times, result).running,
        after_wakes(s, times, result).flushes == s.flushes,
        after_wakes(s, times, result).failures == s.failures,
        forall|now: u64| !(#[trigger] next(s, Event::Wake(now)).1 is Flush),
    decreases times.len(),
{
    if times.len() > 0 {
        lemma_stopped_never_fires(s, times.drop_last(), result);
    }
}

/// A flush that failed leaves the schedule as one that succeeded: the
/// reporter goes on, the next flush is due when it was, and nothing is
/// tried again before. Only the count of failures tells the two apart.
pub proof fn lemma_failure_keeps_the_schedule(s: Schedule, failure: PipelineError)
    ensures
        ({
            let (failed, after_failure) = next(s, Event::FlushFinished(Err(failure)));
            let (succeeded, after_success) = next(s, Event::FlushFinished(Ok(())));
            &&& after_failure == after_success
            &&& !(after_failure is Flush)
            &&& failed == Schedule { failures: failed.failures, ..succeeded }
            &&& failed.running == s.running
            &&& failed.due_at == s.due_at
            &&& failed.failures == if s.in_flight {
                s.failures.saturating_add(1)
            } else {
                s.failures
            }
        }),
{
}

/// A started scheduler asks for its first flush one interval after the
/// start and not before.
pub proof fn lemma_first_flush_after_an_interval(s: Schedule, started_at: u64, now: u64)
    requires
        !s.running,
        !s.in_flight,
        started_at + s.interval_ms <= u64::MAX,
    ensures
        ({
            let started = next(s, Event::Start(started_at)).0;
            &&& started.running
            &&& started.due_at == started_at + s.interval_ms
            &&& next(started, Event::Wake(now)).1 is Flush <==> now >= started_at + s.interval_ms
        }),
{
}

/// A running scheduler that is woken once in every interval, at or after
/// the time a flush is due and before the next is, asks for a flush every
/// time: after `n` such wakes `n` more flushes have ended, the next is due
/// `n` intervals later, and each failed flush has been counted, no more and
/// no less.
pub proof fn lemma_fires_every_interval(s: Schedule, times: Seq<u64>, result: Result<(), PipelineError>)
    requires
        s.running,
        !s.in_flight,
        s.interval_ms >= 1,
        s.due_at + times.len() * s.interval_ms <= u64::MAX,
        s.flushes + times.len() <= u64::MAX,
        s.failures + times.len() <= u64::MAX,
        forall|k: int|
            0 <= k < times.len() ==> s.due_at + k * s.interval_ms <= #[trigger] times[k] < s.due_at
                + (k + 1) * s.interval_ms,
    ensures
        ({
            let after = after_wakes(s, times, result);
            &&& after.running
            &&& !after.in_flight
            &&& after.interval_ms == s.interval_ms
            &&& after.due_at == s.due_at + times.len() * s.interval_ms
            &&& after.flushes == s.flushes + times.len()
            &&& after.failures == if result is Err {
                s.failures + times.len()
            } else {
                s.failures as int
            }
        }),
    decreases times.len(),
{
    let n = times.len() as int;
    let i = s.interval_ms as int;
    if n > 0 {
        let earlier = times.drop_last();
        assert((n - 1) * i + i == n * i) by (nonlinear_arith);
        assert((n - 1) * i >= 0) by (nonlinear_arith)
            requires
                n >= 1,
                i >= 1,
        ;
        assert forall|k: int| 0 <= k < earlier.len() implies s.due_at + k * s.interval_ms
            <= #[trigger] earlier[k] < s.due_at + (k + 1) * s.interval_ms by {
            assert(earlier[k] == times[k]);
        }
        lemma_fires_every_interval(s, earlier, result);
        let before = after_wakes(s, earlier, result);
        let now = times.last();
        assert(now == times[n - 1]);
        assert(before.due_at == s.due_at + (n - 1) * i);
        assert(before.due_at <= now < before.due_at + i);
    } else {
        assert(n * i == 0) by (nonlinear_arith)
            requires
                n == 0,
        ;
    }
}

} // verus!
