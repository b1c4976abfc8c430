//! What reporters make of a snapshot.
//!
//! A flush has two halves. The first, here, turns a snapshot into the text
//! that the sink is to receive, or finds that it cannot be encoded. The
//! second, writing that text to the log or to the network, is the caller's;
//! what it could not deliver is dropped.

use crate::config::{ReporterConfig, SinkConfig};
use crate::error::PipelineError;
use crate::metric::TimerStats;
use crate::registry::{MetricValue, Snapshot};
use crate::text::{
    append_decimal, append_percent_encoded, decimal, digit_char, percent_encoded, push_char,
};
use vstd::prelude::*;
use vstd::string::*;

verus! {

/// The capability of every reporter: to encode a snapshot for its sink.
pub trait Reporter {
    /// The text that the sink is to receive for a snapshot taken at
    /// `timestamp_ms`.
    spec fn payload(&self, entries: Seq<(Seq<char>, MetricValue)>, timestamp_ms: u64) -> Seq<char>;

    /// Encodes `snapshot`. The only failure is a snapshot that cannot be
    /// encoded; the report of that interval is then skipped.
    fn encode(&self, snapshot: &Snapshot, timestamp_ms: u64) -> (encoded: Result<
        String,
        PipelineError,
    >)
        ensures
            encoded matches Ok(text) ==> text@ == self.payload(snapshot@, timestamp_ms),
            encoded matches Err(e) ==> e == PipelineError::SerializationError,
    ;
}

/// The result of a flush whose text was handed to the sink. A sink that
/// could not be reached, or that did not take the text, is unavailable; the
/// text is dropped, and the next flush starts afresh.
pub fn delivery_result(accepted: bool) -> (result: Result<(), PipelineError>)
    ensures
        result == if accepted {
            Ok::<(), PipelineError>(())
        } else {
            Err::<(), PipelineError>(PipelineError::SinkUnavailable)
        },
{
    if accepted {
        Ok(())
    } else {
        Err(PipelineError::SinkUnavailable)
    }
}

/// Characters that no line can carry.
pub open spec fn is_control(c: char) -> bool {
    c < ' ' || c == '\x7f'
}

/// Whether `text` holds no control character.
pub open spec fn printable(text: Seq<char>) -> bool {
    forall|i: int| 0 <= i < text.len() ==> !is_control(#[trigger] text[i])
}

/// Whether a metric called `name` can be written under `prefix`: the two
/// together are not empty and hold no control character.
pub open spec fn encodable(prefix: Seq<char>, name: Seq<char>) -> bool {
    prefix.len() + name.len() > 0 && printable(prefix) && printable(name)
}

/// Whether every metric of a snapshot can be written under `prefix`.
pub open spec fn all_encodable(prefix: Seq<char>, entries: Seq<(Seq<char>, MetricValue)>) -> bool {
    forall|i: int| 0 <= i < entries.len() ==> encodable(prefix, (#[trigger] entries[i]).0)
}

/// One character of a measurement: commas and spaces get a backslash.
pub open spec fn escaped_char(c: char) -> Seq<char> {
    if c == ',' || c == ' ' {
        seq!['\\', c]
    } else {
        seq![c]
    }
}

/// `text` as part of a measurement.
pub open spec fn escaped(text: Seq<char>) -> Seq<char>
    decreases text.len(),
{
    if text.len() == 0 {
        Seq::empty()
    } else {
        escaped(text.drop_last()) + escaped_char(text.last())
    }
}

/// The value of the tag `kind`.
pub open spec fn kind_text(value: MetricValue) -> Seq<char> {
    match value {
        MetricValue::Counter { .. } => "counter"@,
        MetricValue::Timer(_) => "timer"@,
    }
}

/// One integer field: `key=<value>i`.
pub open spec fn field_text(key: Seq<char>, value: u64) -> Seq<char> {
    key + "="@ + decimal(value as nat) + "i"@
}

/// The fields of a timer, separated by commas.
pub open spec fn stats_text(stats: TimerStats) -> Seq<char> {
    field_text("count"@, stats.count) + ","@ + field_text("sum"@, stats.sum) + ","@ + field_text(
        "min"@,
        stats.min,
    ) + ","@ + field_text("max"@, stats.max) + ","@ + field_text("p50"@, stats.p50) + ","@
        + field_text("p95"@, stats.p95) + ","@ + field_text("p99"@, stats.p99)
}

/// The fields of a metric.
pub open spec fn fields_text(value: MetricValue) -> Seq<char> {
    match value {
        MetricValue::Counter { value } => field_text("value"@, value),
        MetricValue::Timer(stats) => stats_text(stats),
    }
}

/// The record of one metric:
/// `<prefix><name>,kind=<kind> <fields> <timestamp>` and a line feed.
pub open spec fn line_text(prefix: Seq<char>, entry: (Seq<char>, MetricValue), timestamp_ms: u64) -> Seq<
    char,
> {
    escaped(prefix) + escaped(entry.0) + ",kind="@ + kind_text(entry.1) + " "@ + fields_text(
        entry.1,
    ) + " "@ + decimal(timestamp_ms as nat) + "\n"@
}

/// The records of all metrics of a snapshot, in its order.
pub open spec fn lines_text(
    prefix: Seq<char>,
    entries: Seq<(Seq<char>, MetricValue)>,
    timestamp_ms: u64,
) -> Seq<char>
    decreases entries.len(),
{
    if entries.len() == 0 {
        Seq::empty()
    } else {
        lines_text(prefix, entries.drop_last(), timestamp_ms) + line_text(
            prefix,
            entries.last(),
            timestamp_ms,
        )
    }
}

fn is_printable(text: &str) -> (ok: bool)
    ensures
        ok == printable(text@),
{
    let len = text.unicode_len();
    let mut i: usize = 0;
    while i < len
        invariant
            i <= len,
            len == text@.len(),
            forall|j: int| 0 <= j < i ==> !is_control(#[trigger] text@[j]),
        decreases len - i,
    {
        let c = text.get_char(i);
        if c < ' ' || c == '\x7f' {
            return false;
        }
        i += 1;
    }
    true
}

fn append_escaped(out: &mut String, text: &str)
    ensures
        final(out)@ == old(out)@ + escaped(text@),
{
    let len = text.unicode_len();
    let mut i: usize = 0;
    assert(text@.subrange(0, 0) =~= Seq::<char>::empty());
    while i < len
        invariant
            i <= len,
            len == text@.len(),
            out@ == old(out)@ + escaped(text@.subrange(0, i as int)),
        decreases len - i,
    {
        let c = text.get_char(i);
        proof {
            assert(text@.subrange(0, i + 1).drop_last() =~= text@.subrange(0, i as int));
            assert(text@.subrange(0, i + 1).last() == c);
        }
        let ghost before = out@;
        if c == ',' || c == ' ' {
            push_char(out, '\\');
        }
        push_char(out, c);
        assert(out@ =~= before + escaped_char(c));
        i += 1;
    }
    assert(text@.subrange(0, len as int) =~= text@);
}

fn append_field(out: &mut String, key: &str, value: u64)
    ensures
        final(out)@ == old(out)@ + field_text(key@, value),
{
    out.append(key);
    out.append("=");
    append_decimal(out, value);
    out.append("i");
    assert(out@ =~= old(out)@ + field_text(key@, value));
}

fn append_stats(out: &mut String, stats: &TimerStats)
    ensures
        final(out)@ == old(out)@ + stats_text(*stats),
{
    append_field(out, "count", stats.count);
    out.append(",");
    append_field(out, "sum", stats.sum);
    out.append(",");
    append_field(out, "min", stats.min);
    out.append(",");
    append_field(out, "max", stats.max);
    out.append(",");
    append_field(out, "p50", stats.p50);
    out.append(",");
    append_field(out, "p95", stats.p95);
    out.append(",");
    append_field(out, "p99", stats.p99);
    assert(out@ =~= old(out)@ + stats_text(*stats));
}

fn append_line(out: &mut String, prefix: &str, name: &str, value: &MetricValue, timestamp_ms: u64)
    ensures
        final(out)@ == old(out)@ + line_text(prefix@, (name@, *value), timestamp_ms),
{
    append_escaped(out, prefix);
    append_escaped(out, name);
    out.append(",kind=");
    let ghost head = out@;
    match value {
        MetricValue::Counter { value: count } => {
            out.append("counter");
            out.append(" ");
            append_field(out, "value", *count);
        },
        MetricValue::Timer(stats) => {
            out.append("timer");
            out.append(" ");
            append_stats(out, stats);
        },
    }
    assert(out@ == head + kind_text(*value) + " "@ + fields_text(*value));
    out.append(" ");
    append_decimal(out, timestamp_ms);
    out.append("\n");
    assert(out@ =~= old(out)@ + line_text(prefix@, (name@, *value), timestamp_ms));
}

/// The path and query of a write to `database`:
/// `/write?db=<database>&precision=ms`, the name of the database in UTF-8
/// and percent-encoded.
pub open spec fn write_path_text(database: Seq<char>) -> Seq<char> {
    "/write?db="@ + percent_encoded(vstd::utf8::encode_utf8(database)) + "&precision=ms"@
}

/// The URL of a write to `database` at `host` and `port`.
pub open spec fn write_url_text(host: Seq<char>, port: u16, database: Seq<char>) -> Seq<char> {
    "http://"@ + host + ":"@ + decimal(port as nat) + write_path_text(database)
}

/// Writes a snapshot as one record per metric, each a line of the form
/// `measurement,tag=value field=value timestamp`.
pub struct TimeSeriesReporter {
    config: ReporterConfig,
}

impl TimeSeriesReporter {
    #[verifier::type_invariant]
    spec fn valid(&self) -> bool {
        !self.config.logs()
    }

    /// The configuration of the reporter.
    pub closed spec fn settings(&self) -> ReporterConfig {
        self.config
    }

    /// A reporter for a time-series sink; none for a configuration that
    /// names the log.
    pub fn new(config: ReporterConfig) -> (reporter: Option<TimeSeriesReporter>)
        ensures
            reporter is Some <==> !config.logs(),
            reporter matches Some(r) ==> r.settings() == config,
    {
        let to_log = match config.sink() {
            SinkConfig::Log => true,
            SinkConfig::TimeSeries { .. } => false,
        };
        if to_log {
            None
        } else {
            Some(TimeSeriesReporter { config })
        }
    }

    /// The configuration of the reporter, which names a time-series sink.
    pub fn config(&self) -> (config: &ReporterConfig)
        ensures
            *config == self.settings(),
            !config.logs(),
    {
        proof {
            use_type_invariant(self);
        }
        &self.config
    }

    /// The URL of the request that writes one batch to the sink's
    /// database, with timestamps in milliseconds.
    pub fn write_url(&self) -> (url: String)
        ensures
            url@ == write_url_text(
                self.settings().host(),
                self.settings().port(),
                self.settings().database(),
            ),
    {
        proof {
            use_type_invariant(self);
        }
        let mut url = String::from_str("http://");
        if let SinkConfig::TimeSeries { address, database } = self.config.sink() {
            url.append(address.host.as_str());
            url.append(":");
            append_decimal(&mut url, address.port as u64);
            let ghost head = url@;
            url.append("/write?db=");
            append_percent_encoded(&mut url, database.as_str());
            url.append("&precision=ms");
            assert(url@ =~= head + write_path_text(database@));
        }
        url
    }
}

impl Reporter for TimeSeriesReporter {
    open spec fn payload(&self, entries: Seq<(Seq<char>, MetricValue)>, timestamp_ms: u64) -> Seq<
        char,
    > {
        lines_text(self.settings().name_prefix(), entries, timestamp_ms)
    }

    /// Fails if and only if some metric cannot be written: its name and
    /// the prefix are both empty, or one of them holds a control character.
    fn encode(&self, snapshot: &Snapshot, timestamp_ms: u64) -> (encoded: Result<
        String,
        PipelineError,
    >)
        ensures
            encoded is Ok <==> all_encodable(self.settings().name_prefix(), snapshot@),
    {
        let prefix = self.config.prefix();
        let prefix_len = prefix.unicode_len();
        let prefix_ok = is_printable(prefix);
        let mut out = String::new();
        let mut i: usize = 0;
        assert(snapshot@.subrange(0, 0) =~= Seq::<(Seq<char>, MetricValue)>::empty());
        while i < snapshot.entries.len()
            invariant
                i <= snapshot.entries.len(),
                prefix@ == self.settings().name_prefix(),
                prefix_len == prefix@.len(),
                prefix_ok == printable(prefix@),
                all_encodable(prefix@, snapshot@.subrange(0, i as int)),
                out@ == lines_text(prefix@, snapshot@.subrange(0, i as int), timestamp_ms),
            decreases snapshot.entries.len() - i,
        {
            let entry = &snapshot.entries[i];
            let name = entry.name.as_str();
            assert(snapshot@[i as int] == (name@, entry.value));
            if !prefix_ok || !is_printable(name) || (prefix_len == 0 && name.unicode_len() == 0) {
                assert(!encodable(prefix@, snapshot@[i as int].0));
                return Err(PipelineError::SerializationError);
            }
            proof {
                let taken = snapshot@.subrange(0, i + 1);
                assert(taken.drop_last() =~= snapshot@.subrange(0, i as int));
                assert(taken.last() == snapshot@[i as int]);
                assert forall|j: int| 0 <= j < taken.len() implies encodable(
                    prefix@,
                    (#[trigger] taken[j]).0,
                ) by {
                    if j < i {
                        assert(taken[j] == snapshot@.subrange(0, i as int)[j]);
                    }
                }
            }
            append_line(&mut out, prefix, name, &entry.value, timestamp_ms);
            i += 1;
        }
        assert(snapshot@.subrange(0, i as int) =~= snapshot@);
        Ok(out)
    }
}

/// How many line feeds `text` holds.
pub open spec fn line_feeds(text: Seq<char>) -> nat
    decreases text.len(),
{
    if text.len() == 0 {
        0
    } else {
        line_feeds(text.drop_last()) + if text.last() == '\n' {
            1nat
        } else {
            0nat
        }
    }
}

proof fn lemma_printable_concat(a: Seq<char>, b: Seq<char>)
    requires
        printable(a),
        printable(b),
    ensures
        printable(a + b),
{
    assert forall|i: int| 0 <= i < (a + b).len() implies !is_control(#[trigger] (a + b)[i]) by {
        if i < a.len() {
            assert((a + b)[i] == a[i]);
        } else {
            assert((a + b)[i] == b[i - a.len()]);
        }
    }
}

proof fn lemma_escaped_is_printable(text: Seq<char>)
    requires
        printable(text),
    ensures
        printable(escaped(text)),
    decreases text.len(),
{
    if text.len() > 0 {
        assert forall|i: int| 0 <= i < text.drop_last().len() implies !is_control(
            #[trigger] text.drop_last()[i],
        ) by {
            assert(text.drop_last()[i] == text[i]);
        }
        lemma_escaped_is_printable(text.drop_last());
        assert(!is_control(text[text.len() - 1]));
        lemma_printable_concat(escaped(text.drop_last()), escaped_char(text.last()));
    }
}

proof fn lemma_decimal_is_printable(n: nat)
    ensures
        printable(decimal(n)),
    decreases n,
{
    if n >= 10 {
        lemma_decimal_is_printable(n / 10);
        lemma_printable_concat(decimal(n / 10), seq![digit_char(n % 10)]);
        assert(decimal(n) =~= decimal(n / 10) + seq![digit_char(n % 10)]);
    }
}

proof fn lemma_field_is_printable(key: Seq<char>, value: u64)
    requires
        printable(key),
    ensures
        printable(field_text(key, value)),
{
    reveal_strlit("=");
    reveal_strlit("i");
    lemma_decimal_is_printable(value as nat);
    lemma_printable_concat(key, "="@);
    lemma_printable_concat(key + "="@, decimal(value as nat));
    lemma_printable_concat(key + "="@ + decimal(value as nat), "i"@);
}

proof fn lemma_fields_are_printable(value: MetricValue)
    ensures
        printable(fields_text(value)),
        printable(kind_text(value)),
{
    reveal_strlit("counter");
    reveal_strlit("timer");
    reveal_strlit("value");
    reveal_strlit("count");
    reveal_strlit("sum");
    reveal_strlit("min");
    reveal_strlit("max");
    reveal_strlit("p50");
    reveal_strlit("p95");
    reveal_strlit("p99");
    reveal_strlit(",");
    match value {
        MetricValue::Counter { value } => {
            lemma_field_is_printable("value"@, value);
        },
        MetricValue::Timer(stats) => {
            let comma = ","@;
            let f1 = field_text("count"@, stats.count);
            let f2 = field_text("sum"@, stats.sum);
            let f3 = field_text("min"@, stats.min);
            let f4 = field_text("max"@, stats.max);
            let f5 = field_text("p50"@, stats.p50);
            let f6 = field_text("p95"@, stats.p95);
            let f7 = field_text("p99"@, stats.p99);
            lemma_field_is_printable("count"@, stats.count);
            lemma_field_is_printable("sum"@, stats.sum);
            lemma_field_is_printable("min"@, stats.min);
            lemma_field_is_printable("max"@, stats.max);
            lemma_field_is_printable("p50"@, stats.p50);
            lemma_field_is_printable("p95"@, stats.p95);
            lemma_field_is_printable("p99"@, stats.p99);
            lemma_printable_concat(f1, comma);
            lemma_printable_concat(f1 + comma, f2);
            lemma_printable_concat(f1 + comma + f2, comma);
            lemma_printable_concat(f1 + comma + f2 + comma, f3);
            lemma_printable_concat(f1 + comma + f2 + comma + f3, comma);
            lemma_printable_concat(f1 + comma + f2 + comma + f3 + comma, f4);
            lemma_printable_concat(f1 + comma + f2 + comma + f3 + comma + f4, comma);
            lemma_printable_concat(f1 + comma + f2 + comma + f3 + comma + f4 + comma, f5);
            lemma_printable_concat(f1 + comma + f2 + comma + f3 + comma + f4 + comma + f5, comma);
            lemma_printable_concat(
                f1 + comma + f2 + comma + f3 + comma + f4 + comma + f5 + comma,
                f6,
            );
            lemma_printable_concat(
                f1 + comma + f2 + comma + f3 + comma + f4 + comma + f5 + comma + f6,
                comma,
            );
            lemma_printable_concat(
                f1 + comma + f2 + comma + f3 + comma + f4 + comma + f5 + comma + f6 + comma,
                f7,
            );
        },
    }
}

/// The record of a metric that can be written is one line: it ends with a
/// line feed and holds no control character before it, whatever the name
/// of the metric.
pub proof fn lemma_record_is_one_line(
    prefix: Seq<char>,
    entry: (Seq<char>, MetricValue),
    timestamp_ms: u64,
)
    requires
        encodable(prefix, entry.0),
    ensures
        line_text(prefix, entry, timestamp_ms).len() > 0,
        line_text(prefix, entry, timestamp_ms).last() == '\n',
        printable(line_text(prefix, entry, timestamp_ms).drop_last()),
{
    reveal_strlit(",kind=");
    reveal_strlit(" ");
    reveal_strlit("\n");
    lemma_escaped_is_printable(prefix);
    lemma_escaped_is_printable(entry.0);
    lemma_fields_are_printable(entry.1);
    lemma_decimal_is_printable(timestamp_ms as nat);
    let p1 = escaped(prefix) + escaped(entry.0);
    let p2 = p1 + ",kind="@;
    let p3 = p2 + kind_text(entry.1);
    let p4 = p3 + " "@;
    let p5 = p4 + fields_text(entry.1);
    let p6 = p5 + " "@;
    let p7 = p6 + decimal(timestamp_ms as nat);
    lemma_printable_concat(escaped(prefix), escaped(entry.0));
    lemma_printable_concat(p1, ",kind="@);
    lemma_printable_concat(p2, kind_text(entry.1));
    lemma_printable_concat(p3, " "@);
    lemma_printable_concat(p4, fields_text(entry.1));
    lemma_printable_concat(p5, " "@);
    lemma_printable_concat(p6, decimal(timestamp_ms as nat));
    assert(line_text(prefix, entry, timestamp_ms).drop_last() =~= p7);
}

proof fn lemma_line_feeds_concat(a: Seq<char>, b: Seq<char>)
    ensures
        line_feeds(a + b) == line_feeds(a) + line_feeds(b),
    decreases b.len(),
{
    if b.len() == 0 {
        assert(a + b =~= a);
    } else {
        lemma_line_feeds_concat(a, b.drop_last());
        assert((a + b).drop_last() =~= a + b.drop_last());
    }
}

proof fn lemma_printable_has_no_line_feed(text: Seq<char>)
    requires
        printable(text),
    ensures
        line_feeds(text) == 0,
    decreases text.len(),
{
    if text.len() > 0 {
        assert forall|i: int| 0 <= i < text.drop_last().len() implies !is_control(
            #[trigger] text.drop_last()[i],
        ) by {
            assert(text.drop_last()[i] == text[i]);
        }
        lemma_printable_has_no_line_feed(text.drop_last());
        assert(!is_control(text[text.len() - 1]));
    }
}

/// A snapshot that can be written gives one line for each metric and no
/// more: no name can break a record in two or add one of its own.
pub proof fn lemma_one_record_per_metric(
    prefix: Seq<char>,
    entries: Seq<(Seq<char>, MetricValue)>,
    timestamp_ms: u64,
)
    requires
        all_encodable(prefix, entries),
    ensures
        line_feeds(lines_text(prefix, entries, timestamp_ms)) == entries.len(),
    decreases entries.len(),
{
    if entries.len() > 0 {
        let earlier = entries.drop_last();
        assert forall|i: int| 0 <= i < earlier.len() implies encodable(
            prefix,
            (#[trigger] earlier[i]).0,
        ) by {
            assert(earlier[i] == entries[i]);
        }
        lemma_one_record_per_metric(prefix, earlier, timestamp_ms);
        let line = line_text(prefix, entries.last(), timestamp_ms);
        assert(entries.last() == entries[entries.len() - 1]);
        lemma_record_is_one_line(prefix, entries.last(), timestamp_ms);
        lemma_printable_has_no_line_feed(line.drop_last());
        lemma_line_feeds_concat(lines_text(prefix, earlier, timestamp_ms), line);
    }
}

/// The fields that the log shows of one metric: the value of a counter
/// under its name, and each figure of a timer under the name and the
/// figure's own.
pub open spec fn value_fields(name: Seq<char>, value: MetricValue) -> Seq<(Seq<char>, u64)> {
    match value {
        MetricValue::Counter { value } => seq![(name, value)],
        MetricValue::Timer(stats) => seq![
            (name + ".count"@, stats.count),
            (name + ".sum"@, stats.sum),
            (name + ".min"@, stats.min),
            (name + ".max"@, stats.max),
            (name + ".p50"@, stats.p50),
            (name + ".p95"@, stats.p95),
            (name + ".p99"@, stats.p99),
        ],
    }
}

/// The fields of all metrics of a snapshot, in its order, each name behind
/// `prefix`.
pub open spec fn metric_fields(prefix: Seq<char>, entries: Seq<(Seq<char>, MetricValue)>) -> Seq<
    (Seq<char>, u64),
>
    decreases entries.len(),
{
    if entries.len() == 0 {
        Seq::empty()
    } else {
        metric_fields(prefix, entries.drop_last()) + value_fields(
            prefix + entries.last().0,
            entries.last().1,
        )
    }
}

/// The fields of one record of the log: those of the metrics, then the time
/// of the snapshot as `timestamp`.
pub open spec fn log_fields(
    prefix: Seq<char>,
    entries: Seq<(Seq<char>, MetricValue)>,
    timestamp_ms: u64,
) -> Seq<(Seq<char>, u64)> {
    metric_fields(prefix, entries).push(("timestamp"@, timestamp_ms))
}

fn push_field(fields: &mut Vec<(String, u64)>, name: &String, suffix: &str, value: u64)
    ensures
        final(fields).deep_view() == old(fields).deep_view().push((name@ + suffix@, value)),
{
    let mut key = name.clone();
    key.append(suffix);
    fields.push((key, value));
    assert(fields.deep_view() =~= old(fields).deep_view().push((name@ + suffix@, value)));
}

fn push_value_fields(fields: &mut Vec<(String, u64)>, name: String, value: &MetricValue)
    ensures
        final(fields).deep_view() == old(fields).deep_view() + value_fields(name@, *value),
{
    match value {
        MetricValue::Counter { value: count } => {
            fields.push((name, *count));
        },
        MetricValue::Timer(stats) => {
            push_field(fields, &name, ".count", stats.count);
            push_field(fields, &name, ".sum", stats.sum);
            push_field(fields, &name, ".min", stats.min);
            push_field(fields, &name, ".max", stats.max);
            push_field(fields, &name, ".p50", stats.p50);
            push_field(fields, &name, ".p95", stats.p95);
            push_field(fields, &name, ".p99", stats.p99);
        },
    }
    assert(fields.deep_view() =~= old(fields).deep_view() + value_fields(name@, *value));
}

/// The fields of one record of the log.
pub fn collect_log_fields(prefix: &str, snapshot: &Snapshot, timestamp_ms: u64) -> (fields: Vec<
    (String, u64),
>)
    ensures
        fields.deep_view() == log_fields(prefix@, snapshot@, timestamp_ms),
{
    let mut fields: Vec<(String, u64)> = Vec::new();
    let mut i: usize = 0;
    assert(snapshot@.subrange(0, 0) =~= Seq::<(Seq<char>, MetricValue)>::empty());
    assert(fields.deep_view() =~= Seq::<(Seq<char>, u64)>::empty());
    while i < snapshot.entries.len()
        invariant
            i <= snapshot.entries.len(),
            fields.deep_view() == metric_fields(prefix@, snapshot@.subrange(0, i as int)),
        decreases snapshot.entries.len() - i,
    {
        let entry = &snapshot.entries[i];
        proof {
            let taken = snapshot@.subrange(0, i + 1);
            assert(taken.drop_last() =~= snapshot@.subrange(0, i as int));
            assert(taken.last() == (entry.name@, entry.value));
        }
        let mut name = String::from_str(prefix);
        name.append(entry.name.as_str());
        push_value_fields(&mut fields, name, &entry.value);
        i += 1;
    }
    assert(snapshot@.subrange(0, i as int) =~= snapshot@);
    let ghost metrics = fields.deep_view();
    fields.push((String::from_str("timestamp"), timestamp_ms));
    assert(fields.deep_view() =~= metrics.push(("timestamp"@, timestamp_ms)));
    fields
}

/// Whether no two fields have the same name.
pub open spec fn distinct_field_names(fields: Seq<(Seq<char>, u64)>) -> bool {
    forall|i: int, j: int| 0 <= i < j < fields.len() ==> fields[i].0 != fields[j].0
}

/// Whether no two of `fields` have the same name.
pub fn has_distinct_names(fields: &Vec<(String, u64)>) -> (distinct: bool)
    ensures
        distinct == distinct_field_names(fields.deep_view()),
{
    let ghost names = fields.deep_view();
    let mut later: usize = 0;
    while later < fields.len()
        invariant
            later <= fields.len(),
            names == fields.deep_view(),
            forall|i: int, j: int| 0 <= i < j < later ==> names[i].0 != names[j].0,
        decreases fields.len() - later,
    {
        let mut earlier: usize = 0;
        while earlier < later
            invariant
                earlier <= later < fields.len(),
                names == fields.deep_view(),
                forall|i: int| 0 <= i < earlier ==> names[i].0 != names[later as int].0,
            decreases later - earlier,
        {
            proof {
                assert(names[earlier as int].0 == fields@[earlier as int].0@);
                assert(names[later as int].0 == fields@[later as int].0@);
            }
            if fields[earlier].0 == fields[later].0 {
                return false;
            }
            earlier += 1;
        }
        later += 1;
    }
    true
}

/// The JSON text of the object whose members are `fields`, in the order and
/// with the escapes that `serde_json` chooses.
pub uninterp spec fn json_object_text(fields: Seq<(Seq<char>, u64)>) -> Seq<char>;

/// `serde_json::Error`: why a value could not be written. Nothing is read
/// from it.
#[verifier::external_type_specification]
#[verifier::external_body]
pub struct ExJsonError(serde_json::Error);

/// Writes `fields`, whose names differ, as one JSON object.
///
/// Trusted: the fields are put into a `serde_json::Map` with
/// `Map::insert`, each value as a `serde_json::Value` number made by
/// `Value::from`, and the map is written by `serde_json::to_string`. Two
/// things are claimed. The call succeeds: `to_string` writes into a byte
/// vector, which takes every write, and fails otherwise only on a key that
/// is no string or a value that refuses to be written, and here every key
/// is a `String` and every value a number made of a `u64`. And the text is
/// a function of the fields, which `json_object_text` names. As the names
/// differ, every field becomes one member of the object.
#[verifier::external_body]
fn render_json_object(fields: &Vec<(String, u64)>) -> (rendered: Result<String, serde_json::Error>)
    requires
        distinct_field_names(fields.deep_view()),
    ensures
        rendered is Ok,
        rendered matches Ok(text) ==> text@ == json_object_text(fields.deep_view()),
{
    let mut object = serde_json::Map::new();
    for field in fields.iter() {
        object.insert(field.0.clone(), serde_json::Value::from(field.1));
    }
    serde_json::to_string(&object)
}

/// The record that a rendering gives: the text as it is, and a
/// serialization error in place of a failure of the encoder.
pub fn log_record(rendered: Result<String, serde_json::Error>) -> (record: Result<
    String,
    PipelineError,
>)
    ensures
        match rendered {
            Ok(text) => record == Ok::<String, PipelineError>(text),
            Err(_) => record == Err::<String, PipelineError>(PipelineError::SerializationError),
        },
{
    match rendered {
        Ok(text) => Ok(text),
        Err(_) => Err(PipelineError::SerializationError),
    }
}

/// Writes a snapshot as one line for the log: a JSON object that maps the
/// name of each metric, behind the reporter's prefix, to its value, and
/// `timestamp` to the time of the snapshot. A timer takes seven names, its
/// own with `.count`, `.sum`, `.min`, `.max`, `.p50`, `.p95` and `.p99`
/// behind it.
pub struct LogReporter {
    config: ReporterConfig,
}

impl LogReporter {
    /// The configuration of the reporter.
    pub closed spec fn settings(&self) -> ReporterConfig {
        self.config
    }

    pub fn new(config: ReporterConfig) -> (reporter: LogReporter)
        ensures
            reporter.settings() == config,
    {
        LogReporter { config }
    }

    pub fn config(&self) -> (config: &ReporterConfig)
        ensures
            *config == self.settings(),
    {
        &self.config
    }
}

impl Reporter for LogReporter {
    open spec fn payload(&self, entries: Seq<(Seq<char>, MetricValue)>, timestamp_ms: u64) -> Seq<
        char,
    > {
        json_object_text(log_fields(self.settings().name_prefix(), entries, timestamp_ms))
    }

    /// Fails if and only if two fields of the record would have the same
    /// name: a metric that is called as a figure of a timer is, or as the
    /// time of the snapshot. Nothing is written then, so that no value
    /// stands in for another.
    fn encode(&self, snapshot: &Snapshot, timestamp_ms: u64) -> (encoded: Result<
        String,
        PipelineError,
    >)
        ensures
            encoded is Ok <==> distinct_field_names(
                log_fields(self.settings().name_prefix(), snapshot@, timestamp_ms),
            ),
    {
        let fields = collect_log_fields(self.config.prefix(), snapshot, timestamp_ms);
        if !has_distinct_names(&fields) {
            return Err(PipelineError::SerializationError);
        }
        log_record(render_json_object(&fields))
    }
}

} // verus!
