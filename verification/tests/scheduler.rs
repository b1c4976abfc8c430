use metrics_pipeline::config::ReporterConfig;
use metrics_pipeline::error::PipelineError;
use metrics_pipeline::registry::{MetricValue, MetricsRegistry};
use metrics_pipeline::reporter::{Reporter, TimeSeriesReporter};
use metrics_pipeline::scheduler::{Action, Event, ReporterScheduler, Step};

fn every_second() -> ReporterScheduler {
    ReporterScheduler::new(&ReporterConfig::for_log(1, "").unwrap(), 250)
}

#[test]
fn a_new_scheduler_is_stopped() {
    let scheduler = every_second();
    assert!(!scheduler.is_running());
    assert_eq!(scheduler.flushes(), 0);
    assert_eq!(scheduler.failures(), 0);
}

#[test]
fn nothing_fires_before_start() {
    let mut scheduler = every_second();
    for now in [0u64, 1, 999, 1000, 1001, 5000, u64::MAX] {
        assert_eq!(scheduler.wake(now), Action::Exit);
    }
    assert_eq!(scheduler.flushes(), 0);
    assert!(!scheduler.is_running());
}

#[test]
fn the_first_flush_is_due_one_interval_after_start() {
    let mut scheduler = every_second();
    assert_eq!(scheduler.start(5_000), Action::Sleep { until: 6_000 });
    assert!(scheduler.is_running());
    assert_eq!(scheduler.wake(5_000), Action::Sleep { until: 6_000 });
    assert_eq!(scheduler.wake(5_999), Action::Sleep { until: 6_000 });
    assert_eq!(scheduler.wake(6_000), Action::Flush);
}

#[test]
fn fires_every_second() {
    let mut scheduler = every_second();
    scheduler.start(0);
    let mut fired_at: Vec<u64> = Vec::new();
    // The task wakes every 100 ms for ten seconds, and 3 ms late.
    let mut now: u64 = 3;
    while now <= 10_003 {
        if scheduler.wake(now) == Action::Flush {
            fired_at.push(now);
            let step = scheduler.flush_finished(Ok(()));
            assert_eq!(step.failure, None);
        }
        now += 100;
    }
    assert_eq!(
        fired_at,
        vec![1003, 2003, 3003, 4003, 5003, 6003, 7003, 8003, 9003, 10_003]
    );
    assert_eq!(scheduler.flushes(), 10);
    assert_eq!(scheduler.failures(), 0);
}

#[test]
fn a_late_wake_does_not_shift_the_schedule() {
    let mut scheduler = every_second();
    scheduler.start(0);
    assert_eq!(scheduler.wake(1_400), Action::Flush);
    assert_eq!(
        scheduler.flush_finished(Ok(())),
        Step { action: Action::Sleep { until: 2_000 }, failure: None }
    );
    assert_eq!(scheduler.wake(2_000), Action::Flush);
}

#[test]
fn a_wake_that_missed_whole_intervals_fires_once() {
    let mut scheduler = every_second();
    scheduler.start(0);
    assert_eq!(scheduler.wake(4_500), Action::Flush);
    assert_eq!(
        scheduler.flush_finished(Ok(())).action,
        Action::Sleep { until: 5_500 }
    );
    assert_eq!(scheduler.wake(4_600), Action::Sleep { until: 5_500 });
    assert_eq!(scheduler.flushes(), 1);
}

#[test]
fn start_twice_is_start_once() {
    let mut scheduler = every_second();
    assert_eq!(scheduler.start(0), Action::Sleep { until: 1_000 });
    assert_eq!(scheduler.start(700), Action::Sleep { until: 1_000 });
    assert_eq!(scheduler.wake(1_000), Action::Flush);
}

#[test]
fn no_second_flush_while_one_is_under_way() {
    let mut scheduler = every_second();
    scheduler.start(0);
    assert_eq!(scheduler.wake(1_000), Action::Flush);
    assert_eq!(scheduler.wake(1_500), Action::Sleep { until: 2_000 });
    // The flush is still going on when the next is due: that one is skipped.
    assert_eq!(scheduler.wake(2_000), Action::Sleep { until: 3_000 });
    assert_eq!(
        scheduler.flush_finished(Ok(())).action,
        Action::Sleep { until: 3_000 }
    );
    assert_eq!(scheduler.wake(3_000), Action::Flush);
    assert_eq!(scheduler.flushes(), 1);
}

#[test]
fn stop_cancels_the_pending_flush() {
    let mut scheduler = every_second();
    scheduler.start(0);
    assert_eq!(scheduler.stop(500), Action::Exit);
    assert!(!scheduler.is_running());
    assert_eq!(scheduler.wake(1_000), Action::Exit);
    assert_eq!(scheduler.wake(2_000), Action::Exit);
    assert_eq!(scheduler.flushes(), 0);
}

#[test]
fn stop_lets_a_flush_finish() {
    let mut scheduler = every_second();
    scheduler.start(0);
    assert_eq!(scheduler.wake(1_000), Action::Flush);
    assert_eq!(scheduler.stop(1_100), Action::AwaitFlush { until: 1_350 });
    assert_eq!(scheduler.wake(1_200), Action::AwaitFlush { until: 1_350 });
    assert_eq!(
        scheduler.flush_finished(Ok(())),
        Step { action: Action::Exit, failure: None }
    );
    assert_eq!(scheduler.flushes(), 1);
    assert_eq!(scheduler.wake(2_000), Action::Exit);
}

#[test]
fn a_flush_that_outlasts_the_grace_period_is_abandoned() {
    let mut scheduler = every_second();
    scheduler.start(0);
    assert_eq!(scheduler.wake(1_000), Action::Flush);
    assert_eq!(scheduler.stop(1_100), Action::AwaitFlush { until: 1_350 });
    assert_eq!(scheduler.wake(1_349), Action::AwaitFlush { until: 1_350 });
    assert_eq!(scheduler.wake(1_350), Action::Abandon);
    assert_eq!(scheduler.wake(1_351), Action::Exit);
    // The flush that was given up is not counted when it ends after all.
    assert_eq!(
        scheduler.flush_finished(Err(PipelineError::SinkUnavailable)),
        Step { action: Action::Exit, failure: None }
    );
    assert_eq!(scheduler.flushes(), 0);
    assert_eq!(scheduler.failures(), 0);
}

#[test]
fn a_stopped_scheduler_can_be_started_again() {
    let mut scheduler = every_second();
    scheduler.start(0);
    scheduler.stop(100);
    assert_eq!(scheduler.start(10_000), Action::Sleep { until: 11_000 });
    assert_eq!(scheduler.wake(10_999), Action::Sleep { until: 11_000 });
    assert_eq!(scheduler.wake(11_000), Action::Flush);
}

#[test]
fn stop_of_a_stopped_scheduler_changes_nothing() {
    let mut scheduler = every_second();
    assert_eq!(scheduler.stop(5), Action::Exit);
    assert!(!scheduler.is_running());
}

#[test]
fn a_result_nobody_asked_for_is_ignored() {
    let mut scheduler = every_second();
    scheduler.start(0);
    assert_eq!(
        scheduler.flush_finished(Err(PipelineError::SinkUnavailable)),
        Step { action: Action::Sleep { until: 1_000 }, failure: None }
    );
    assert_eq!(scheduler.flushes(), 0);
    assert_eq!(scheduler.failures(), 0);
}

#[test]
fn events_are_the_calls() {
    let mut scheduler = every_second();
    assert_eq!(
        scheduler.handle(Event::Wake(10)),
        Step { action: Action::Exit, failure: None }
    );
    assert_eq!(
        scheduler.handle(Event::Start(0)),
        Step { action: Action::Sleep { until: 1_000 }, failure: None }
    );
    assert_eq!(
        scheduler.handle(Event::Wake(1_000)),
        Step { action: Action::Flush, failure: None }
    );
    assert_eq!(
        scheduler.handle(Event::FlushFinished(Err(PipelineError::SerializationError))),
        Step {
            action: Action::Sleep { until: 2_000 },
            failure: Some(PipelineError::SerializationError)
        }
    );
    assert_eq!(
        scheduler.handle(Event::Stop(1_500)),
        Step { action: Action::Exit, failure: None }
    );
}

#[test]
fn times_near_the_end_of_the_clock_do_not_overflow() {
    let mut scheduler = every_second();
    assert_eq!(
        scheduler.start(u64::MAX - 10),
        Action::Sleep { until: u64::MAX }
    );
    assert_eq!(scheduler.wake(u64::MAX), Action::Flush);
    assert_eq!(
        scheduler.flush_finished(Ok(())).action,
        Action::Sleep { until: u64::MAX }
    );
    assert_eq!(
        scheduler.stop(u64::MAX),
        Action::Exit
    );
}

#[test]
fn an_unreachable_sink_fails_three_ticks_and_nothing_else() {
    let mut registry = MetricsRegistry::new();
    let hits = registry.get_or_create_counter("hits").unwrap();
    registry.increment(hits, 41).unwrap();
    let config = ReporterConfig::for_time_series(1, "127.0.0.1:9009", "qdb", "").unwrap();
    let mut scheduler = ReporterScheduler::new(&config, 0);
    let reporter = TimeSeriesReporter::new(config).unwrap();

    let mut logged: Vec<PipelineError> = Vec::new();
    scheduler.start(0);
    for tick in 1..=3u64 {
        assert_eq!(scheduler.wake(tick * 1_000), Action::Flush);
        let payload = reporter.encode(&registry.snapshot(), tick * 1_000).unwrap();
        assert!(payload.starts_with("hits,kind=counter value=41i "));
        // The sink cannot be reached: the payload is dropped.
        let step = scheduler.flush_finished(Err(PipelineError::SinkUnavailable));
        assert_eq!(step.action, Action::Sleep { until: (tick + 1) * 1_000 });
        if let Some(failure) = step.failure {
            logged.push(failure);
        }
    }
    assert_eq!(logged, vec![PipelineError::SinkUnavailable; 3]);
    assert_eq!(scheduler.failures(), 3);
    assert_eq!(scheduler.flushes(), 3);
    assert!(scheduler.is_running());
    // The registry is as it was, and still takes writes.
    assert_eq!(
        registry.snapshot().get("hits"),
        Some(MetricValue::Counter { value: 41 })
    );
    registry.increment(hits, 1).unwrap();
    assert_eq!(registry.counter_value(hits), Some(42));
    // The next tick succeeds and is no failure.
    assert_eq!(scheduler.wake(4_000), Action::Flush);
    assert_eq!(scheduler.flush_finished(Ok(())).failure, None);
    assert_eq!(scheduler.failures(), 3);
    assert_eq!(scheduler.flushes(), 4);
}

#[test]
fn reporters_do_not_share_a_schedule() {
    let mut fast = ReporterScheduler::new(&ReporterConfig::for_log(10, "").unwrap(), 0);
    let mut slow = ReporterScheduler::new(&ReporterConfig::for_log(30, "").unwrap(), 0);
    fast.start(0);
    slow.start(0);
    assert_eq!(fast.wake(10_000), Action::Flush);
    // The fast reporter's flush is slow to end; the other is not held up.
    assert_eq!(slow.wake(29_999), Action::Sleep { until: 30_000 });
    assert_eq!(slow.wake(30_000), Action::Flush);
    assert_eq!(slow.flush_finished(Ok(())).action, Action::Sleep { until: 60_000 });
    assert_eq!(fast.flush_finished(Err(PipelineError::SinkUnavailable)).failure,
        Some(PipelineError::SinkUnavailable));
    assert_eq!(slow.failures(), 0);
    assert_eq!(fast.failures(), 1);
}
