use metrics_pipeline::config::ReporterConfig;
use metrics_pipeline::error::PipelineError;
use metrics_pipeline::metric::TimerStats;
use metrics_pipeline::registry::{MetricValue, MetricsRegistry, Snapshot, SnapshotEntry};
use metrics_pipeline::reporter::{
    collect_log_fields, delivery_result, has_distinct_names, log_record, LogReporter, Reporter,
    TimeSeriesReporter,
};

fn time_series(prefix: &str) -> TimeSeriesReporter {
    let config = ReporterConfig::for_time_series(10, "127.0.0.1:9009", "qdb", prefix).unwrap();
    TimeSeriesReporter::new(config).unwrap()
}

fn log(prefix: &str) -> LogReporter {
    LogReporter::new(ReporterConfig::for_log(30, prefix).unwrap())
}

fn sample_registry() -> MetricsRegistry {
    let mut registry = MetricsRegistry::new();
    let total = registry.get_or_create_counter("requests.total").unwrap();
    let latency = registry.get_or_create_timer("latency.index").unwrap();
    registry.increment(total, 3).unwrap();
    registry.record_duration(latency, 10).unwrap();
    registry.record_duration(latency, 20).unwrap();
    registry.record_duration(latency, 30).unwrap();
    registry
}

fn named(name: &str, value: u64) -> Snapshot {
    Snapshot {
        entries: vec![SnapshotEntry {
            name: String::from(name),
            value: MetricValue::Counter { value },
        }],
    }
}

#[test]
fn line_protocol_of_a_counter_and_a_timer() {
    let snapshot = sample_registry().snapshot();
    let payload = time_series("weatherapp.").encode(&snapshot, 1_700_000_000_123).unwrap();
    assert_eq!(
        payload,
        "weatherapp.requests.total,kind=counter value=3i 1700000000123\n\
         weatherapp.latency.index,kind=timer \
         count=3i,sum=60i,min=10i,max=30i,p50=20i,p95=30i,p99=30i 1700000000123\n"
    );
}

#[test]
fn line_protocol_of_an_empty_snapshot_is_empty() {
    let snapshot = MetricsRegistry::new().snapshot();
    assert_eq!(time_series("p.").encode(&snapshot, 5).unwrap(), "");
}

#[test]
fn line_protocol_escapes_commas_and_spaces() {
    let payload = time_series("my app,").encode(&named("hits, all", 1), 0).unwrap();
    assert_eq!(payload, "my\\ app\\,hits\\,\\ all,kind=counter value=1i 0\n");
}

#[test]
fn line_protocol_carries_other_characters_as_they_are() {
    let payload = time_series("").encode(&named("a=b/c\\d.é", u64::MAX), u64::MAX).unwrap();
    assert_eq!(
        payload,
        "a=b/c\\d.é,kind=counter value=18446744073709551615i 18446744073709551615\n"
    );
}

#[test]
fn a_name_with_a_line_break_cannot_be_encoded() {
    let reporter = time_series("p.");
    assert_eq!(
        reporter.encode(&named("two\nlines", 1), 0),
        Err(PipelineError::SerializationError)
    );
    assert_eq!(
        reporter.encode(&named("tab\there", 1), 0),
        Err(PipelineError::SerializationError)
    );
    assert_eq!(
        reporter.encode(&named("del\u{7f}", 1), 0),
        Err(PipelineError::SerializationError)
    );
}

#[test]
fn a_metric_without_any_name_cannot_be_encoded() {
    assert_eq!(
        time_series("").encode(&named("", 1), 0),
        Err(PipelineError::SerializationError)
    );
    assert_eq!(
        time_series("p").encode(&named("", 1), 0).unwrap(),
        "p,kind=counter value=1i 0\n"
    );
}

#[test]
fn a_prefix_with_a_control_character_fails_every_metric() {
    let reporter = time_series("bad\r");
    assert_eq!(
        reporter.encode(&named("fine", 1), 0),
        Err(PipelineError::SerializationError)
    );
    // There is nothing to fail in an empty snapshot.
    assert_eq!(reporter.encode(&MetricsRegistry::new().snapshot(), 0).unwrap(), "");
}

#[test]
fn one_bad_name_fails_the_whole_snapshot() {
    let mut registry = MetricsRegistry::new();
    registry.get_or_create_counter("good").unwrap();
    registry.get_or_create_counter("bad\n").unwrap();
    registry.get_or_create_counter("good too").unwrap();
    assert_eq!(
        time_series("").encode(&registry.snapshot(), 0),
        Err(PipelineError::SerializationError)
    );
}

#[test]
fn a_time_series_reporter_needs_a_time_series_sink() {
    assert!(TimeSeriesReporter::new(ReporterConfig::for_log(30, "").unwrap()).is_none());
    let reporter = time_series("p.");
    assert_eq!(reporter.config().interval_secs(), 10);
    assert_eq!(reporter.config().prefix(), "p.");
}

#[test]
fn log_fields_of_a_counter_and_a_timer() {
    let snapshot = sample_registry().snapshot();
    let fields = collect_log_fields("weatherapp.", &snapshot, 99);
    let expected: Vec<(String, u64)> = vec![
        (String::from("weatherapp.requests.total"), 3),
        (String::from("weatherapp.latency.index.count"), 3),
        (String::from("weatherapp.latency.index.sum"), 60),
        (String::from("weatherapp.latency.index.min"), 10),
        (String::from("weatherapp.latency.index.max"), 30),
        (String::from("weatherapp.latency.index.p50"), 20),
        (String::from("weatherapp.latency.index.p95"), 30),
        (String::from("weatherapp.latency.index.p99"), 30),
        (String::from("timestamp"), 99),
    ];
    assert_eq!(fields, expected);
}

#[test]
fn log_fields_of_an_empty_snapshot_are_the_timestamp() {
    let fields = collect_log_fields("p.", &MetricsRegistry::new().snapshot(), 7);
    assert_eq!(fields, vec![(String::from("timestamp"), 7)]);
}

#[test]
fn log_record_is_one_json_object() {
    let record = log("app.").encode(&named("hits", 4), 1234).unwrap();
    assert_eq!(record, "{\"app.hits\":4,\"timestamp\":1234}");
}

#[test]
fn log_record_maps_each_name_to_its_value() {
    let snapshot = sample_registry().snapshot();
    let record = log("weatherapp.").encode(&snapshot, 1_700_000_000_123).unwrap();
    assert!(!record.contains('\n'));
    let parsed: serde_json::Value = serde_json::from_str(&record).unwrap();
    let object = parsed.as_object().unwrap();
    assert_eq!(object.len(), 9);
    for (name, value) in [
        ("weatherapp.requests.total", 3u64),
        ("weatherapp.latency.index.count", 3),
        ("weatherapp.latency.index.sum", 60),
        ("weatherapp.latency.index.min", 10),
        ("weatherapp.latency.index.max", 30),
        ("weatherapp.latency.index.p50", 20),
        ("weatherapp.latency.index.p95", 30),
        ("weatherapp.latency.index.p99", 30),
        ("timestamp", 1_700_000_000_123),
    ] {
        assert_eq!(object.get(name), Some(&serde_json::Value::from(value)), "{}", name);
    }
}

#[test]
fn log_record_escapes_what_json_cannot_carry() {
    let record = log("").encode(&named("two\n\"lines\"", u64::MAX), 0).unwrap();
    assert!(!record.contains('\n'));
    let parsed: serde_json::Value = serde_json::from_str(&record).unwrap();
    assert_eq!(
        parsed.get("two\n\"lines\""),
        Some(&serde_json::Value::from(u64::MAX))
    );
}

#[test]
fn log_record_of_a_timer_without_samples() {
    let mut registry = MetricsRegistry::new();
    registry.get_or_create_timer("t").unwrap();
    let snapshot = registry.snapshot();
    assert_eq!(
        snapshot.get("t"),
        Some(MetricValue::Timer(TimerStats {
            count: 0,
            sum: 0,
            min: 0,
            max: 0,
            p50: 0,
            p95: 0,
            p99: 0
        }))
    );
    let record = log("").encode(&snapshot, 1).unwrap();
    let parsed: serde_json::Value = serde_json::from_str(&record).unwrap();
    assert_eq!(parsed.get("t.count"), Some(&serde_json::Value::from(0u64)));
    assert_eq!(parsed.get("t.p99"), Some(&serde_json::Value::from(0u64)));
    assert_eq!(parsed.get("timestamp"), Some(&serde_json::Value::from(1u64)));
}

#[test]
fn a_failed_rendering_is_a_serialization_error() {
    let failure = serde_json::from_str::<serde_json::Value>("{").unwrap_err();
    assert_eq!(log_record(Err(failure)), Err(PipelineError::SerializationError));
    assert_eq!(log_record(Ok(String::from("{}"))), Ok(String::from("{}")));
}

#[test]
fn a_log_reporter_keeps_its_configuration() {
    let reporter = log("p.");
    assert_eq!(reporter.config().interval_secs(), 30);
    assert_eq!(reporter.config().prefix(), "p.");
}

#[test]
fn a_sink_that_took_nothing_is_unavailable() {
    assert_eq!(delivery_result(true), Ok(()));
    assert_eq!(delivery_result(false), Err(PipelineError::SinkUnavailable));
}

#[test]
fn every_metric_is_one_line_whatever_its_name() {
    let mut registry = MetricsRegistry::new();
    let names = ["plain", "with space", "with,comma", "back\\slash", "quote\"d", "雨 量", "a=b"];
    for (i, name) in names.iter().enumerate() {
        if i % 2 == 0 {
            registry.get_or_create_counter(name).unwrap();
        } else {
            let timer = registry.get_or_create_timer(name).unwrap();
            registry.record_duration(timer, 12).unwrap();
        }
    }
    let payload = time_series("p ").encode(&registry.snapshot(), 77).unwrap();
    assert_eq!(payload.matches('\n').count(), names.len());
    assert!(payload.ends_with('\n'));
    for line in payload.lines() {
        assert!(line.starts_with("p\\ "));
        assert!(line.ends_with(" 77"));
        assert!(!line.chars().any(|c| c.is_control()));
    }
}

#[test]
fn field_names_are_told_apart() {
    let field = |name: &str, value: u64| (String::from(name), value);
    assert!(has_distinct_names(&Vec::new()));
    assert!(has_distinct_names(&vec![field("a", 1)]));
    assert!(has_distinct_names(&vec![field("a", 1), field("b", 1), field("", 1)]));
    assert!(has_distinct_names(&vec![field("a", 1), field("A", 1), field("a ", 1)]));
    assert!(!has_distinct_names(&vec![field("a", 1), field("a", 2)]));
    assert!(!has_distinct_names(&vec![field("a", 1), field("b", 2), field("a", 1)]));
    assert!(!has_distinct_names(&vec![field("b", 1), field("a", 2), field("c", 3), field("a", 4)]));
}

#[test]
fn a_metric_called_as_a_figure_of_a_timer_fails_the_log_record() {
    let mut registry = MetricsRegistry::new();
    let counter = registry.get_or_create_counter("t.count").unwrap();
    registry.increment(counter, 9).unwrap();
    registry.get_or_create_timer("t").unwrap();
    let snapshot = registry.snapshot();
    assert_eq!(
        log("").encode(&snapshot, 5),
        Err(PipelineError::SerializationError)
    );
    // The records of the time-series sink keep the two apart.
    assert_eq!(
        time_series("").encode(&snapshot, 5).unwrap(),
        "t.count,kind=counter value=9i 5\n\
         t,kind=timer count=0i,sum=0i,min=0i,max=0i,p50=0i,p95=0i,p99=0i 5\n"
    );
}

#[test]
fn a_metric_called_timestamp_fails_the_log_record() {
    assert_eq!(
        log("").encode(&named("timestamp", 1), 5),
        Err(PipelineError::SerializationError)
    );
    assert_eq!(
        log("time").encode(&named("stamp", 1), 5),
        Err(PipelineError::SerializationError)
    );
    // Behind a prefix the name is another.
    assert_eq!(
        log("app.").encode(&named("timestamp", 1), 5).unwrap(),
        "{\"app.timestamp\":1,\"timestamp\":5}"
    );
}

#[test]
fn a_log_record_is_owed_for_every_other_snapshot() {
    assert_eq!(
        log("").encode(&MetricsRegistry::new().snapshot(), 3).unwrap(),
        "{\"timestamp\":3}"
    );
    let mut registry = MetricsRegistry::new();
    for name in ["", "a", "a.b", "t.counts", "Timestamp", "two\nlines", "雨"] {
        registry.get_or_create_timer(name).unwrap();
    }
    let record = log("").encode(&registry.snapshot(), 3).unwrap();
    let parsed: serde_json::Value = serde_json::from_str(&record).unwrap();
    assert_eq!(parsed.as_object().unwrap().len(), 7 * 7 + 1);
}
