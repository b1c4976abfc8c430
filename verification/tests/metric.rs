use metrics_pipeline::metric::{Counter, Timer, TimerStats, RESERVOIR_CAPACITY};

#[test]
fn new_counter_is_zero() {
    assert_eq!(Counter::new().value(), 0);
}

#[test]
fn increments_add_up() {
    let mut counter = Counter::new();
    counter.increment(3);
    counter.increment(0);
    counter.increment(39);
    assert_eq!(counter.value(), 42);
}

#[test]
fn many_writers_lose_no_increment() {
    // 8 writers, 1000 increments each, in an interleaved order.
    let writers: u64 = 8;
    let rounds: u64 = 1000;
    let mut counter = Counter::new();
    for _round in 0..rounds {
        for _writer in 0..writers {
            counter.increment(1);
        }
    }
    assert_eq!(counter.value(), writers * rounds);
}

#[test]
fn order_of_increments_is_irrelevant() {
    let deltas: Vec<u64> = vec![5, 1, 9, 2, 7];
    let mut forward = Counter::new();
    for delta in deltas.iter() {
        forward.increment(*delta);
    }
    let mut backward = Counter::new();
    for delta in deltas.iter().rev() {
        backward.increment(*delta);
    }
    assert_eq!(forward.value(), 24);
    assert_eq!(backward.value(), 24);
}

#[test]
fn counter_stops_at_the_largest_value() {
    let mut counter = Counter::new();
    counter.increment(u64::MAX - 1);
    counter.increment(1);
    assert_eq!(counter.value(), u64::MAX);
    counter.increment(7);
    assert_eq!(counter.value(), u64::MAX);
}

#[test]
fn timer_without_samples_reports_zero() {
    let timer = Timer::new();
    assert_eq!(timer.count(), 0);
    assert_eq!(
        timer.stats(),
        TimerStats { count: 0, sum: 0, min: 0, max: 0, p50: 0, p95: 0, p99: 0 }
    );
}

#[test]
fn timer_of_three_samples() {
    let mut timer = Timer::new();
    timer.record(10);
    timer.record(20);
    timer.record(30);
    let stats = timer.stats();
    assert_eq!(stats.count, 3);
    assert_eq!(stats.sum, 60);
    assert_eq!(stats.min, 10);
    assert_eq!(stats.max, 30);
    assert_eq!(stats.p50, 20);
    assert_eq!(stats.p95, 30);
    assert_eq!(stats.p99, 30);
}

#[test]
fn timer_ranks_samples_whatever_their_order() {
    let mut timer = Timer::new();
    for sample in [30u64, 10, 20, 50, 40] {
        timer.record(sample);
    }
    let stats = timer.stats();
    assert_eq!(stats.min, 10);
    assert_eq!(stats.max, 50);
    assert_eq!(stats.p50, 30);
    assert_eq!(stats.p95, 50);
    assert_eq!(stats.sum, 150);
}

#[test]
fn timer_of_one_sample() {
    let mut timer = Timer::new();
    timer.record(7);
    assert_eq!(
        timer.stats(),
        TimerStats { count: 1, sum: 7, min: 7, max: 7, p50: 7, p95: 7, p99: 7 }
    );
}

#[test]
fn timer_of_a_hundred_samples() {
    let mut timer = Timer::new();
    for sample in 1..=100u64 {
        timer.record(sample);
    }
    let stats = timer.stats();
    assert_eq!(stats.count, 100);
    assert_eq!(stats.sum, 5050);
    assert_eq!(stats.p50, 50);
    assert_eq!(stats.p95, 95);
    assert_eq!(stats.p99, 99);
}

#[test]
fn timer_keeps_the_latest_samples_for_its_quantiles() {
    assert_eq!(RESERVOIR_CAPACITY, 1024);
    let mut timer = Timer::new();
    for sample in 1..=2000u64 {
        timer.record(sample);
    }
    let stats = timer.stats();
    // Count, sum, least and greatest are those of all samples.
    assert_eq!(stats.count, 2000);
    assert_eq!(stats.sum, 2_001_000);
    assert_eq!(stats.min, 1);
    assert_eq!(stats.max, 2000);
    // The quantiles are those of 977..=2000.
    assert_eq!(stats.p50, 1488);
    assert_eq!(stats.p95, 1949);
    assert_eq!(stats.p99, 1990);
}

#[test]
fn timer_sum_stops_at_the_largest_value() {
    let mut timer = Timer::new();
    timer.record(u64::MAX);
    timer.record(5);
    let stats = timer.stats();
    assert_eq!(stats.count, 2);
    assert_eq!(stats.sum, u64::MAX);
    assert_eq!(stats.min, 5);
    assert_eq!(stats.max, u64::MAX);
    assert_eq!(stats.p50, 5);
    assert_eq!(stats.p99, u64::MAX);
}
