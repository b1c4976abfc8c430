//! The configuration of reporters, checked when it is made.

use crate::error::ConfigError;
use crate::text::{decimal_value, is_decimal, parse_decimal};
use vstd::prelude::*;
use vstd::string::*;

verus! {

/// The characters of which host names and addresses are made.
pub open spec fn is_host_char(c: char) -> bool {
    ||| 'a' <= c && c <= 'z'
    ||| 'A' <= c && c <= 'Z'
    ||| '0' <= c && c <= '9'
    ||| c == '.'
    ||| c == '-'
}

/// Whether `text` can name a host: it is not empty and made of letters,
/// digits, dots and hyphens.
pub open spec fn is_host(text: Seq<char>) -> bool {
    text.len() > 0 && forall|i: int| 0 <= i < text.len() ==> is_host_char(#[trigger] text[i])
}

/// Whether `text` is a port number: decimal digits that denote a number
/// from 1 to 65535.
pub open spec fn is_port(text: Seq<char>) -> bool {
    is_decimal(text) && 1 <= decimal_value(text) <= 65535
}

/// Whether `text` is a host, a colon at place `colon`, and a port.
pub open spec fn splits_at(text: Seq<char>, colon: int) -> bool {
    &&& 0 <= colon < text.len()
    &&& text[colon] == ':'
    &&& is_host(text.subrange(0, colon))
    &&& is_port(text.subrange(colon + 1, text.len() as int))
}

/// Whether `text` has the form `host:port`.
pub open spec fn well_formed_address(text: Seq<char>) -> bool {
    exists|colon: int| splits_at(text, colon)
}

/// Where a sink listens.
#[derive(Debug)]
pub struct SinkAddress {
    pub host: String,
    pub port: u16,
}

fn host_char(c: char) -> (b: bool)
    ensures
        b == is_host_char(c),
{
    (c >= 'a' && c <= 'z') || (c >= 'A' && c <= 'Z') || (c >= '0' && c <= '9') || c == '.' || c
        == '-'
}

/// Reads an address of the form `host:port`.
pub fn parse_sink_address(text: &str) -> (address: Option<SinkAddress>)
    ensures
        address is Some <==> well_formed_address(text@),
        address matches Some(a) ==> {
            &&& splits_at(text@, a.host@.len() as int)
            &&& a.host@ == text@.subrange(0, a.host@.len() as int)
            &&& a.port == decimal_value(text@.subrange(a.host@.len() as int + 1, text@.len() as int))
        },
{
    let len = text.unicode_len();
    let mut colon: usize = 0;
    while colon < len && host_char(text.get_char(colon))
        invariant
            colon <= len,
            len == text@.len(),
            forall|i: int| 0 <= i < colon ==> is_host_char(#[trigger] text@[i]),
        decreases len - colon,
    {
        colon += 1;
    }
    proof {
        // A host holds no colon, so only the first character that cannot
        // belong to a host can part host and port.
        assert forall|other: int| splits_at(text@, other) implies other == colon by {
            if other < colon {
                assert(is_host_char(text@[other]));
            } else if other > colon {
                assert(text@.subrange(0, other)[colon as int] == text@[colon as int]);
            }
        }
    }
    if colon == 0 || colon >= len || text.get_char(colon) != ':' {
        return None;
    }
    let host = text.substring_char(0, colon);
    let port_text = text.substring_char(colon + 1, len);
    proof {
        assert forall|i: int| 0 <= i < host@.len() implies is_host_char(#[trigger] host@[i]) by {
            assert(host@[i] == text@[i]);
        }
    }
    match parse_decimal(port_text) {
        Some(port) => {
            if 1 <= port && port <= 65535 {
                assert(splits_at(text@, colon as int));
                Some(SinkAddress { host: String::from_str(host), port: port as u16 })
            } else {
                None
            }
        },
        None => None,
    }
}

/// Where a reporter writes.
#[derive(Debug)]
pub enum SinkConfig {
    /// The log of the process.
    Log,
    /// A database of a time-series store.
    TimeSeries { address: SinkAddress, database: String },
}

/// The configuration of one reporter. It can only be made valid: the
/// interval is at least one second, and a time-series sink has a host, a
/// port other than 0 and a database name.
#[derive(Debug)]
pub struct ReporterConfig {
    interval_secs: u64,
    prefix: String,
    sink: SinkConfig,
}

impl ReporterConfig {
    #[verifier::type_invariant]
    spec fn valid(&self) -> bool {
        &&& self.interval_secs >= 1
        &&& self.sink matches SinkConfig::TimeSeries { address, database } ==> {
            &&& is_host(address.host@)
            &&& address.port >= 1
            &&& database@.len() > 0
        }
    }

    /// The seconds between two reports.
    pub closed spec fn interval(&self) -> u64 {
        self.interval_secs
    }

    /// What is put before the name of every metric.
    pub closed spec fn name_prefix(&self) -> Seq<char> {
        self.prefix@
    }

    /// Whether the reporter writes to the log.
    pub closed spec fn logs(&self) -> bool {
        self.sink is Log
    }

    /// The host of the time-series sink.
    pub closed spec fn host(&self) -> Seq<char>
        recommends
            !self.logs(),
    {
        self.sink->address.host@
    }

    /// The port of the time-series sink.
    pub closed spec fn port(&self) -> u16
        recommends
            !self.logs(),
    {
        self.sink->address.port
    }

    /// The database of the time-series sink.
    pub closed spec fn database(&self) -> Seq<char>
        recommends
            !self.logs(),
    {
        self.sink->database@
    }

    /// The configuration of a reporter that writes to the log every
    /// `interval_secs` seconds. An interval of 0 is refused.
    pub fn for_log(interval_secs: u64, prefix: &str) -> (config: Result<
        ReporterConfig,
        ConfigError,
    >)
        ensures
            config is Ok <==> interval_secs >= 1,
            config matches Err(e) ==> e == ConfigError::InvalidInterval,
            config matches Ok(c) ==> c.logs() && c.interval() == interval_secs && c.name_prefix()
                == prefix@,
    {
        if interval_secs == 0 {
            return Err(ConfigError::InvalidInterval);
        }
        Ok(
            ReporterConfig {
                interval_secs,
                prefix: String::from_str(prefix),
                sink: SinkConfig::Log,
            },
        )
    }

    /// The configuration of a reporter that writes to the database
    /// `database` at `sink_url` every `interval_secs` seconds. Refused are,
    /// in this order: an interval of 0, an address that is not of the form
    /// `host:port`, and an empty database name.
    pub fn for_time_series(interval_secs: u64, sink_url: &str, database: &str, prefix: &str) -> (config:
        Result<ReporterConfig, ConfigError>)
        ensures
            config is Ok <==> interval_secs >= 1 && well_formed_address(sink_url@) && database@.len()
                > 0,
            config matches Err(e) ==> e == (if interval_secs == 0 {
                ConfigError::InvalidInterval
            } else if !well_formed_address(sink_url@) {
                ConfigError::MalformedSinkAddress
            } else {
                ConfigError::EmptyDatabase
            }),
            config matches Ok(c) ==> {
                &&& !c.logs()
                &&& c.interval() == interval_secs
                &&& c.name_prefix() == prefix@
                &&& c.database() == database@
                &&& splits_at(sink_url@, c.host().len() as int)
                &&& c.host() == sink_url@.subrange(0, c.host().len() as int)
                &&& c.port() == decimal_value(
                    sink_url@.subrange(c.host().len() as int + 1, sink_url@.len() as int),
                )
            },
    {
        if interval_secs == 0 {
            return Err(ConfigError::InvalidInterval);
        }
        let address = match parse_sink_address(sink_url) {
            Some(address) => address,
            None => {
                return Err(ConfigError::MalformedSinkAddress);
            },
        };
        if database.unicode_len() == 0 {
            return Err(ConfigError::EmptyDatabase);
        }
        Ok(
            ReporterConfig {
                interval_secs,
                prefix: String::from_str(prefix),
                sink: SinkConfig::TimeSeries { address, database: String::from_str(database) },
            },
        )
    }

    /// The seconds between two reports: at least one.
    pub fn interval_secs(&self) -> (secs: u64)
        ensures
            secs == self.interval(),
            secs >= 1,
    {
        proof {
            use_type_invariant(self);
        }
        self.interval_secs
    }

    /// The time between two reports in milliseconds, cut off at the largest
    /// 64-bit value.
    pub fn interval_ms(&self) -> (ms: u64)
        ensures
            ms == if self.interval() * 1000 > u64::MAX {
                u64::MAX
            } else {
                (self.interval() * 1000) as u64
            },
            ms >= 1000,
    {
        proof {
            use_type_invariant(self);
        }
        if self.interval_secs > u64::MAX / 1000 {
            u64::MAX
        } else {
            self.interval_secs * 1000
        }
    }

    pub fn prefix(&self) -> (prefix: &str)
        ensures
            prefix@ == self.name_prefix(),
    {
        self.prefix.as_str()
    }

    /// The sink. A time-series sink has a host name, a port other than 0
    /// and a database name.
    pub fn sink(&self) -> (sink: &SinkConfig)
        ensures
            sink is Log <==> self.logs(),
            sink matches SinkConfig::TimeSeries { address, database } ==> {
                &&& address.host@ == self.host()
                &&& address.port == self.port()
                &&& database@ == self.database()
                &&& is_host(address.host@)
                &&& address.port >= 1
                &&& database@.len() > 0
            },
    {
        proof {
            use_type_invariant(self);
        }
        &self.sink
    }
}

/// The options that the environment can set.
#[derive(Debug)]
pub struct Settings {
    pub reporter_interval_secs: u64,
    pub sink_url: String,
    pub sink_database: String,
    pub metric_basename: String,
}

/// What `Settings` stand for.
pub struct SettingsView {
    pub reporter_interval_secs: u64,
    pub sink_url: Seq<char>,
    pub sink_database: Seq<char>,
    pub metric_basename: Seq<char>,
}

impl View for Settings {
    type V = SettingsView;

    open spec fn view(&self) -> SettingsView {
        SettingsView {
            reporter_interval_secs: self.reporter_interval_secs,
            sink_url: self.sink_url@,
            sink_database: self.sink_database@,
            metric_basename: self.metric_basename@,
        }
    }
}

/// Whether `text` is a positive number of seconds that fits in 64 bits.
pub open spec fn is_interval(text: Seq<char>) -> bool {
    is_decimal(text) && 1 <= decimal_value(text) <= u64::MAX
}

/// The settings after the option `key` was set to `value`. The recognised
/// keys are `reporter_interval_secs`, `sink_url`, `sink_database` and
/// `metric_basename`; a value that the option cannot take is refused, and
/// any other key changes nothing.
pub open spec fn with_option(settings: SettingsView, key: Seq<char>, value: Seq<char>) -> Result<
    SettingsView,
    ConfigError,
> {
    if key == "reporter_interval_secs"@ {
        if is_interval(value) {
            Ok(SettingsView { reporter_interval_secs: decimal_value(value) as u64, ..settings })
        } else {
            Err(ConfigError::InvalidInterval)
        }
    } else if key == "sink_url"@ {
        if well_formed_address(value) {
            Ok(SettingsView { sink_url: value, ..settings })
        } else {
            Err(ConfigError::MalformedSinkAddress)
        }
    } else if key == "sink_database"@ {
        if value.len() > 0 {
            Ok(SettingsView { sink_database: value, ..settings })
        } else {
            Err(ConfigError::EmptyDatabase)
        }
    } else if key == "metric_basename"@ {
        Ok(SettingsView { metric_basename: value, ..settings })
    } else {
        Ok(settings)
    }
}

/// The settings after each of `options` was set, in order: a later option
/// overrides an earlier one, and the first refused value ends it all.
pub open spec fn with_options(settings: SettingsView, options: Seq<(Seq<char>, Seq<char>)>) -> Result<
    SettingsView,
    ConfigError,
>
    decreases options.len(),
{
    if options.len() == 0 {
        Ok(settings)
    } else {
        match with_option(settings, options[0].0, options[0].1) {
            Ok(next) => with_options(next, options.drop_first()),
            Err(e) => Err(e),
        }
    }
}

impl Settings {
    /// Sets one option.
    pub fn set(self, key: &str, value: &str) -> (settings: Result<Settings, ConfigError>)
        ensures
            match (settings, with_option(self@, key@, value@)) {
                (Ok(s), Ok(v)) => s@ == v,
                (Err(e), Err(f)) => e == f,
                _ => false,
            },
    {
        let key = String::from_str(key);
        let mut settings = self;
        if key == String::from_str("reporter_interval_secs") {
            match parse_decimal(value) {
                Some(secs) => {
                    if secs == 0 {
                        return Err(ConfigError::InvalidInterval);
                    }
                    settings.reporter_interval_secs = secs;
                },
                None => {
                    return Err(ConfigError::InvalidInterval);
                },
            }
        } else if key == String::from_str("sink_url") {
            if parse_sink_address(value).is_none() {
                return Err(ConfigError::MalformedSinkAddress);
            }
            settings.sink_url = String::from_str(value);
        } else if key == String::from_str("sink_database") {
            if value.unicode_len() == 0 {
                return Err(ConfigError::EmptyDatabase);
            }
            settings.sink_database = String::from_str(value);
        } else if key == String::from_str("metric_basename") {
            settings.metric_basename = String::from_str(value);
        }
        Ok(settings)
    }

    /// Sets each of `options`, in order.
    pub fn apply(self, options: &Vec<(String, String)>) -> (settings: Result<
        Settings,
        ConfigError,
    >)
        ensures
            match (settings, with_options(self@, options.deep_view())) {
                (Ok(s), Ok(v)) => s@ == v,
                (Err(e), Err(f)) => e == f,
                _ => false,
            },
    {
        let mut settings = self;
        let mut i: usize = 0;
        assert(options.deep_view().subrange(0, options.len() as int) =~= options.deep_view());
        while i < options.len()
            invariant
                i <= options.len(),
                with_options(self@, options.deep_view()) == with_options(
                    settings@,
                    options.deep_view().subrange(i as int, options.len() as int),
                ),
            decreases options.len() - i,
        {
            let ghost rest = options.deep_view().subrange(i as int, options.len() as int);
            proof {
                assert(rest[0] == options.deep_view()[i as int]);
                assert(options.deep_view()[i as int] == (options@[i as int].0@, options@[i as int].1@));
                assert(rest.drop_first() =~= options.deep_view().subrange(
                    i + 1,
                    options.len() as int,
                ));
            }
            match settings.set(options[i].0.as_str(), options[i].1.as_str()) {
                Ok(next) => {
                    settings = next;
                },
                Err(e) => {
                    return Err(e);
                },
            }
            i += 1;
        }
        Ok(settings)
    }
}

} // verus!
