use metrics_pipeline::config::{
    parse_sink_address, ReporterConfig, Settings, SinkConfig,
};
use metrics_pipeline::error::ConfigError;

fn defaults() -> Settings {
    Settings {
        reporter_interval_secs: 30,
        sink_url: String::from("127.0.0.1:9009"),
        sink_database: String::from("qdb"),
        metric_basename: String::from("weatherapp"),
    }
}

fn option(key: &str, value: &str) -> (String, String) {
    (String::from(key), String::from(value))
}

#[test]
fn address_of_host_and_port() {
    let address = parse_sink_address("127.0.0.1:9009").unwrap();
    assert_eq!(address.host, "127.0.0.1");
    assert_eq!(address.port, 9009);
    let address = parse_sink_address("influx-1.example.org:8086").unwrap();
    assert_eq!(address.host, "influx-1.example.org");
    assert_eq!(address.port, 8086);
    assert_eq!(parse_sink_address("a:1").unwrap().port, 1);
    assert_eq!(parse_sink_address("a:65535").unwrap().port, 65535);
    assert_eq!(parse_sink_address("a:00080").unwrap().port, 80);
}

#[test]
fn malformed_addresses_are_refused() {
    for text in [
        "",
        ":",
        "localhost",
        "localhost:",
        ":9009",
        "localhost:0",
        "localhost:65536",
        "localhost:99999999999999999999999",
        "localhost:80a",
        "localhost:-1",
        "local host:80",
        "http://localhost:80",
        "localhost:80:81",
        "[::1]:80",
        "localhost:80/db",
        "löcalhost:80",
    ] {
        assert!(parse_sink_address(text).is_none(), "{:?} was accepted", text);
    }
}

#[test]
fn log_reporter_configuration() {
    let config = ReporterConfig::for_log(30, "weatherapp.").unwrap();
    assert_eq!(config.interval_secs(), 30);
    assert_eq!(config.interval_ms(), 30_000);
    assert_eq!(config.prefix(), "weatherapp.");
    assert!(matches!(config.sink(), SinkConfig::Log));
}

#[test]
fn an_interval_of_zero_is_refused() {
    assert_eq!(
        ReporterConfig::for_log(0, "").unwrap_err(),
        ConfigError::InvalidInterval
    );
    assert_eq!(
        ReporterConfig::for_time_series(0, "not an address", "", "").unwrap_err(),
        ConfigError::InvalidInterval
    );
}

#[test]
fn an_interval_of_one_second_is_the_least() {
    let config = ReporterConfig::for_log(1, "").unwrap();
    assert_eq!(config.interval_secs(), 1);
    assert_eq!(config.interval_ms(), 1000);
}

#[test]
fn a_very_long_interval_is_cut_off_in_milliseconds() {
    let config = ReporterConfig::for_log(u64::MAX, "").unwrap();
    assert_eq!(config.interval_secs(), u64::MAX);
    assert_eq!(config.interval_ms(), u64::MAX);
    let config = ReporterConfig::for_log(u64::MAX / 1000, "").unwrap();
    assert_eq!(config.interval_ms(), u64::MAX / 1000 * 1000);
}

#[test]
fn time_series_reporter_configuration() {
    let config = ReporterConfig::for_time_series(10, "127.0.0.1:9009", "qdb", "").unwrap();
    assert_eq!(config.interval_secs(), 10);
    assert_eq!(config.prefix(), "");
    match config.sink() {
        SinkConfig::TimeSeries { address, database } => {
            assert_eq!(address.host, "127.0.0.1");
            assert_eq!(address.port, 9009);
            assert_eq!(database, "qdb");
        }
        SinkConfig::Log => panic!("the sink is the log"),
    }
}

#[test]
fn a_malformed_sink_address_is_refused_at_construction() {
    assert_eq!(
        ReporterConfig::for_time_series(10, "127.0.0.1", "qdb", "").unwrap_err(),
        ConfigError::MalformedSinkAddress
    );
    assert_eq!(
        ReporterConfig::for_time_series(10, "127.0.0.1:port", "", "").unwrap_err(),
        ConfigError::MalformedSinkAddress
    );
}

#[test]
fn a_database_without_a_name_is_refused() {
    assert_eq!(
        ReporterConfig::for_time_series(10, "127.0.0.1:9009", "", "").unwrap_err(),
        ConfigError::EmptyDatabase
    );
}

#[test]
fn options_override_the_defaults() {
    let options = vec![
        option("reporter_interval_secs", "5"),
        option("sink_url", "tsdb:8086"),
        option("sink_database", "metrics"),
        option("metric_basename", "shop"),
    ];
    let settings = defaults().apply(&options).unwrap();
    assert_eq!(settings.reporter_interval_secs, 5);
    assert_eq!(settings.sink_url, "tsdb:8086");
    assert_eq!(settings.sink_database, "metrics");
    assert_eq!(settings.metric_basename, "shop");
}

#[test]
fn no_options_leave_the_defaults() {
    let settings = defaults().apply(&Vec::new()).unwrap();
    assert_eq!(settings.reporter_interval_secs, 30);
    assert_eq!(settings.sink_url, "127.0.0.1:9009");
    assert_eq!(settings.sink_database, "qdb");
    assert_eq!(settings.metric_basename, "weatherapp");
}

#[test]
fn unknown_options_are_ignored() {
    let options = vec![option("PATH", "/usr/bin"), option("Sink_Url", "nonsense")];
    let settings = defaults().apply(&options).unwrap();
    assert_eq!(settings.sink_url, "127.0.0.1:9009");
    assert_eq!(settings.reporter_interval_secs, 30);
}

#[test]
fn a_later_option_overrides_an_earlier_one() {
    let options = vec![
        option("reporter_interval_secs", "5"),
        option("reporter_interval_secs", "7"),
    ];
    assert_eq!(defaults().apply(&options).unwrap().reporter_interval_secs, 7);
}

#[test]
fn the_interval_option_is_a_positive_integer() {
    for value in ["0", "", "-5", "1.5", "ten", "18446744073709551616"] {
        let refused = defaults().set("reporter_interval_secs", value);
        assert_eq!(refused.unwrap_err(), ConfigError::InvalidInterval, "{:?}", value);
    }
    assert_eq!(
        defaults().set("reporter_interval_secs", "1").unwrap().reporter_interval_secs,
        1
    );
}

#[test]
fn the_first_refused_option_ends_it() {
    let options = vec![
        option("metric_basename", "shop"),
        option("sink_url", "nowhere"),
        option("reporter_interval_secs", "0"),
    ];
    assert_eq!(
        defaults().apply(&options).unwrap_err(),
        ConfigError::MalformedSinkAddress
    );
    assert_eq!(
        defaults().set("sink_database", "").unwrap_err(),
        ConfigError::EmptyDatabase
    );
}

#[test]
fn the_basename_may_be_empty() {
    assert_eq!(defaults().set("metric_basename", "").unwrap().metric_basename, "");
}
