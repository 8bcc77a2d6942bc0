//! The counters of an edge node, kept in a Prometheus registry.
use vstd::prelude::*;

use crate::binary64::Double;
use crate::metric_id::{lemma_metric_ids, metric_id};
use crate::text::{decimal_text, parts};

verus! {

// ---------------------------------------------------------------------------
// Prometheus handles
// ---------------------------------------------------------------------------
/// A registry of Prometheus collectors.
#[verifier::external_type_specification]
#[verifier::external_body]
pub struct ExRegistry(prometheus::Registry);

/// A Prometheus histogram.
#[verifier::external_type_specification]
#[verifier::external_body]
pub struct ExHistogram(prometheus::Histogram);

/// The error that Prometheus reports.
#[verifier::external_type_specification]
#[verifier::external_body]
pub struct ExPrometheusError(prometheus::Error);

/// A Prometheus integer counter. The handle is changed through the functions below alone; the
/// registry holds a second handle to the same cell, through which it only reads.
#[verifier::external_body]
pub struct EdgeCounter {
    cell: prometheus::IntCounter,
}

/// A Prometheus integer gauge, held in the same way.
#[verifier::external_body]
pub struct EdgeGauge {
    cell: prometheus::IntGauge,
}

/// A Prometheus floating-point counter. What it has counted is not modelled: the front end adds
/// to it, as cost is a floating-point number.
#[verifier::external_body]
pub struct CostCounter {
    pub cell: prometheus::Counter,
}

/// The count that an integer counter holds.
pub uninterp spec fn counter_total(c: EdgeCounter) -> u64;

/// The metric name that an integer counter was made with.
pub uninterp spec fn counter_name(c: EdgeCounter) -> Seq<char>;

/// The help text that an integer counter was made with.
pub uninterp spec fn counter_help(c: EdgeCounter) -> Seq<char>;

/// The level that an integer gauge holds.
pub uninterp spec fn gauge_level(g: EdgeGauge) -> i64;

/// The metric name that an integer gauge was made with.
pub uninterp spec fn gauge_name(g: EdgeGauge) -> Seq<char>;

/// The help text that an integer gauge was made with.
pub uninterp spec fn gauge_help(g: EdgeGauge) -> Seq<char>;

/// The metric name that a floating-point counter was made with.
pub uninterp spec fn cost_name(c: CostCounter) -> Seq<char>;

/// The help text that a floating-point counter was made with.
pub uninterp spec fn cost_help(c: CostCounter) -> Seq<char>;

/// The durations that a histogram has been given, in order, as seconds and nanoseconds.
pub uninterp spec fn latencies(h: prometheus::Histogram) -> Seq<(u64, u32)>;

/// The metric name that a histogram was made with.
pub uninterp spec fn latency_name(h: prometheus::Histogram) -> Seq<char>;

/// The help text that a histogram was made with.
pub uninterp spec fn latency_help(h: prometheus::Histogram) -> Seq<char>;

/// Whether a histogram was made with the default buckets.
pub uninterp spec fn has_default_buckets(h: prometheus::Histogram) -> bool;

/// The bits of the number of seconds that a duration of so many seconds and nanoseconds is.
pub uninterp spec fn seconds_bits(secs: u64, nanos: u32) -> u64;

/// What a metric is: its name, its help text and its type.
pub struct MetricInfo {
    pub name: Seq<char>,
    pub help: Seq<char>,
    pub kind: Seq<char>,
}

/// The label-free metrics that a registry holds, by their descriptor identifiers.
pub uninterp spec fn registered(r: prometheus::Registry) -> Map<u64, MetricInfo>;

/// Whether a registry has neither prefix nor labels and holds nothing but label-free counters,
/// gauges and histograms.
pub uninterp spec fn registry_is_plain(r: prometheus::Registry) -> bool;

/// Which cell an integer counter counts in.
pub uninterp spec fn counter_cell(c: EdgeCounter) -> int;

/// Which cell an integer gauge keeps its level in.
pub uninterp spec fn gauge_cell(g: EdgeGauge) -> int;

/// Which cell a floating-point counter counts in.
pub uninterp spec fn cost_cell(c: CostCounter) -> int;

/// Which cell a histogram records in.
pub uninterp spec fn latency_cell(h: prometheus::Histogram) -> int;

/// The cells of the metrics that a registry holds, by the descriptor identifiers of these metrics.
pub uninterp spec fn registered_cells(r: prometheus::Registry) -> Map<u64, int>;

/// A letter, an underscore or a colon.
pub open spec fn name_char(c: char) -> bool {
    ('a' <= c && c <= 'z') || ('A' <= c && c <= 'Z') || c == '_' || c == ':'
}

/// What Prometheus accepts as the name of a metric.
pub open spec fn valid_metric_name(s: Seq<char>) -> bool {
    &&& s.len() > 0
    &&& name_char(s[0])
    &&& forall|i: int|
        0 <= i < s.len() ==> name_char(#[trigger] s[i]) || ('0' <= s[i] && s[i] <= '9')
}

/// `v` modulo two to the power of 64.
pub open spec fn wrap_u64(v: int) -> u64 {
    (v % 0x1_0000_0000_0000_0000) as u64
}

/// The 64-bit two's complement number that is congruent to `v`.
pub open spec fn wrap_i64(v: int) -> i64 {
    ((v + 0x8000_0000_0000_0000) % 0x1_0000_0000_0000_0000 - 0x8000_0000_0000_0000) as i64
}

/// `prometheus::IntCounter::new`: fails exactly where the name is not a metric name or the help
/// text is empty; the new counter stands at zero.
#[verifier::external_body]
fn counter_new(name: &str, help: &str) -> (r: Result<EdgeCounter, prometheus::Error>)
    ensures
        r is Ok <==> (valid_metric_name(name@) && help@.len() != 0),
        r matches Ok(c) ==> counter_total(c) == 0 && counter_name(c) == name@ && counter_help(c)
            == help@,
{
    prometheus::IntCounter::new(name, help).map(|cell| EdgeCounter { cell })
}

/// `prometheus::IntCounter::inc`: adds one, wrapping around at the end of the range.
#[verifier::external_body]
fn counter_inc(c: &mut EdgeCounter)
    ensures
        counter_total(*final(c)) == wrap_u64(counter_total(*old(c)) + 1),
        counter_name(*final(c)) == counter_name(*old(c)),
        counter_cell(*final(c)) == counter_cell(*old(c)),
{
    c.cell.inc()
}

/// `prometheus::IntCounter::inc_by`: adds `n`, wrapping around at the end of the range.
#[verifier::external_body]
fn counter_inc_by(c: &mut EdgeCounter, n: u64)
    ensures
        counter_total(*final(c)) == wrap_u64(counter_total(*old(c)) + n),
        counter_name(*final(c)) == counter_name(*old(c)),
        counter_cell(*final(c)) == counter_cell(*old(c)),
{
    c.cell.inc_by(n)
}

/// `prometheus::IntCounter::get`: the count.
#[verifier::external_body]
fn counter_get(c: &EdgeCounter) -> (n: u64)
    ensures
        n == counter_total(*c),
{
    c.cell.get()
}

/// `prometheus::IntGauge::new`: fails exactly where the name is not a metric name or the help
/// text is empty; the new gauge stands at zero.
#[verifier::external_body]
fn gauge_new(name: &str, help: &str) -> (r: Result<EdgeGauge, prometheus::Error>)
    ensures
        r is Ok <==> (valid_metric_name(name@) && help@.len() != 0),
        r matches Ok(g) ==> gauge_level(g) == 0 && gauge_name(g) == name@ && gauge_help(g)
            == help@,
{
    prometheus::IntGauge::new(name, help).map(|cell| EdgeGauge { cell })
}

/// `prometheus::IntGauge::set`: the level becomes `n`.
#[verifier::external_body]
fn gauge_set(g: &mut EdgeGauge, n: i64)
    ensures
        gauge_level(*final(g)) == n,
        gauge_name(*final(g)) == gauge_name(*old(g)),
        gauge_cell(*final(g)) == gauge_cell(*old(g)),
{
    g.cell.set(n)
}

/// `prometheus::IntGauge::inc`: the level rises by one, wrapping around at the end of the range.
#[verifier::external_body]
fn gauge_inc(g: &mut EdgeGauge)
    ensures
        gauge_level(*final(g)) == wrap_i64(gauge_level(*old(g)) + 1),
        gauge_name(*final(g)) == gauge_name(*old(g)),
        gauge_cell(*final(g)) == gauge_cell(*old(g)),
{
    g.cell.inc()
}

/// `prometheus::IntGauge::dec`: the level falls by one, wrapping around at the end of the range.
#[verifier::external_body]
fn gauge_dec(g: &mut EdgeGauge)
    ensures
        gauge_level(*final(g)) == wrap_i64(gauge_level(*old(g)) - 1),
        gauge_name(*final(g)) == gauge_name(*old(g)),
        gauge_cell(*final(g)) == gauge_cell(*old(g)),
{
    g.cell.dec()
}

/// `prometheus::IntGauge::get`: the level.
#[verifier::external_body]
fn gauge_get(g: &EdgeGauge) -> (n: i64)
    ensures
        n == gauge_level(*g),
{
    g.cell.get()
}

/// `prometheus::Counter::new`: fails exactly where the name is not a metric name or the help
/// text is empty.
#[verifier::external_body]
fn cost_new(name: &str, help: &str) -> (r: Result<CostCounter, prometheus::Error>)
    ensures
        r is Ok <==> (valid_metric_name(name@) && help@.len() != 0),
        r matches Ok(c) ==> cost_name(c) == name@ && cost_help(c) == help@,
{
    prometheus::Counter::new(name, help).map(|cell| CostCounter { cell })
}

/// `prometheus::Histogram::with_opts` on the options of `prometheus::HistogramOpts::new`, whose
/// buckets are 5, 10, 25, 50, 100, 250 and 500 milliseconds and 1, 2.5, 5 and 10 seconds: fails
/// exactly where the name is not a metric name or the help text is empty; nothing has been
/// observed yet.
#[verifier::external_body]
fn latency_new(name: &str, help: &str) -> (r: Result<prometheus::Histogram, prometheus::Error>)
    ensures
        r is Ok <==> (valid_metric_name(name@) && help@.len() != 0),
        r matches Ok(h) ==> latencies(h) == Seq::<(u64, u32)>::empty() && latency_name(h) == name@
            && latency_help(h) == help@ && has_default_buckets(h),
{
    prometheus::Histogram::with_opts(prometheus::HistogramOpts::new(name, help))
}

/// `prometheus::Histogram::observe`: one more duration, in seconds, is recorded.
#[verifier::external_body]
fn latency_observe(h: &mut prometheus::Histogram, secs: u64, nanos: u32)
    requires
        nanos < 1_000_000_000,
    ensures
        latencies(*final(h)) == latencies(*old(h)).push((secs, nanos)),
        latency_name(*final(h)) == latency_name(*old(h)),
        latency_cell(*final(h)) == latency_cell(*old(h)),
        has_default_buckets(*final(h)) == has_default_buckets(*old(h)),
{
    h.observe(std::time::Duration::new(secs, nanos).as_secs_f64())
}

/// `prometheus::Registry::new`: a registry without prefix, labels and collectors.
#[verifier::external_body]
fn registry_new() -> (r: prometheus::Registry)
    ensures
        (registered(r) == Map::<u64, MetricInfo>::empty()),
        (registered_cells(r) == Map::<u64, int>::empty()),
        registry_is_plain(r),
{
    prometheus::Registry::new()
}

/// `prometheus::Registry::register` on an integer counter: refused exactly where a collector of
/// the same descriptor identifier is held already, and then nothing changes.
#[verifier::external_body]
fn register_counter(r: &mut prometheus::Registry, c: &EdgeCounter) -> (res: Result<
    (),
    prometheus::Error,
>)
    requires
        registry_is_plain(*old(r)),
    ensures
        registry_is_plain(*final(r)),
        res is Ok <==> !registered(*old(r)).contains_key(metric_id(counter_name(*c))),
        res is Ok ==> registered(*final(r)) == registered(*old(r)).insert(
            metric_id(counter_name(*c)),
            (MetricInfo { name: counter_name(*c), help: counter_help(*c), kind: "counter"@ }),
        ),
        res is Ok ==> registered_cells(*final(r)) == registered_cells(*old(r)).insert(
            metric_id(counter_name(*c)),
            counter_cell(*c),
        ),
        res is Err ==> registered(*final(r)) == registered(*old(r)),
        res is Err ==> registered_cells(*final(r)) == registered_cells(*old(r)),
{
    r.register(Box::new(c.cell.clone()))
}

/// `prometheus::Registry::register` on an integer gauge, as for a counter.
#[verifier::external_body]
fn register_gauge(r: &mut prometheus::Registry, g: &EdgeGauge) -> (res: Result<
    (),
    prometheus::Error,
>)
    requires
        registry_is_plain(*old(r)),
    ensures
        registry_is_plain(*final(r)),
        res is Ok <==> !registered(*old(r)).contains_key(metric_id(gauge_name(*g))),
        res is Ok ==> registered(*final(r)) == registered(*old(r)).insert(
            metric_id(gauge_name(*g)),
            (MetricInfo { name: gauge_name(*g), help: gauge_help(*g), kind: "gauge"@ }),
        ),
        res is Ok ==> registered_cells(*final(r)) == registered_cells(*old(r)).insert(
            metric_id(gauge_name(*g)),
            gauge_cell(*g),
        ),
        res is Err ==> registered(*final(r)) == registered(*old(r)),
        res is Err ==> registered_cells(*final(r)) == registered_cells(*old(r)),
{
    r.register(Box::new(g.cell.clone()))
}

/// `prometheus::Registry::register` on a floating-point counter, as for an integer counter.
#[verifier::external_body]
fn register_cost(r: &mut prometheus::Registry, c: &CostCounter) -> (res: Result<
    (),
    prometheus::Error,
>)
    requires
        registry_is_plain(*old(r)),
    ensures
        registry_is_plain(*final(r)),
        res is Ok <==> !registered(*old(r)).contains_key(metric_id(cost_name(*c))),
        res is Ok ==> registered(*final(r)) == registered(*old(r)).insert(
            metric_id(cost_name(*c)),
            (MetricInfo { name: cost_name(*c), help: cost_help(*c), kind: "counter"@ }),
        ),
        res is Ok ==> registered_cells(*final(r)) == registered_cells(*old(r)).insert(
            metric_id(cost_name(*c)),
            cost_cell(*c),
        ),
        res is Err ==> registered(*final(r)) == registered(*old(r)),
        res is Err ==> registered_cells(*final(r)) == registered_cells(*old(r)),
{
    r.register(Box::new(c.cell.clone()))
}

/// `prometheus::Registry::register` on a histogram, as for a counter.
#[verifier::external_body]
fn register_latency(r: &mut prometheus::Registry, h: &prometheus::Histogram) -> (res: Result<
    (),
    prometheus::Error,
>)
    requires
        registry_is_plain(*old(r)),
    ensures
        registry_is_plain(*final(r)),
        res is Ok <==> !registered(*old(r)).contains_key(metric_id(latency_name(*h))),
        res is Ok ==> registered(*final(r)) == registered(*old(r)).insert(
            metric_id(latency_name(*h)),
            (MetricInfo { name: latency_name(*h), help: latency_help(*h), kind: "histogram"@ }),
        ),
        res is Ok ==> registered_cells(*final(r)) == registered_cells(*old(r)).insert(
            metric_id(latency_name(*h)),
            latency_cell(*h),
        ),
        res is Err ==> registered(*final(r)) == registered(*old(r)),
        res is Err ==> registered_cells(*final(r)) == registered_cells(*old(r)),
{
    r.register(Box::new(h.clone()))
}

/// Whether `word` stands somewhere in `text`.
pub open spec fn mentions(text: Seq<char>, word: Seq<char>) -> bool {
    exists|i: int|
        0 <= i <= text.len() - word.len() && #[trigger] text.subrange(i, i + word.len()) == word
}

/// Whether a text has a line.
pub open spec fn has_line(text: Seq<char>, line: Seq<char>) -> bool {
    parts(text, '\n').contains(line)
}

/// A whole number in decimal digits.
pub open spec fn integer_text(v: int) -> Seq<char> {
    if v < 0 {
        seq!['-'] + decimal_text((-v) as nat)
    } else {
        decimal_text(v as nat)
    }
}

/// Whether a page of metrics gives a value for a metric: one of its lines is the name of the
/// metric, a blank and the value.
pub open spec fn shows(text: Seq<char>, name: Seq<char>, value: int) -> bool {
    has_line(text, name.push(' ') + integer_text(value))
}

/// Whether a whole number is so small that it is a floating-point number, so that its digits are
/// exact.
pub open spec fn is_exact(v: int) -> bool {
    -0x20_0000_0000_0000 <= v <= 0x20_0000_0000_0000
}

/// Whether a page of metrics names a metric and tells its type and, where nothing in it needs to
/// be escaped, its help text.
pub open spec fn describes(text: Seq<char>, m: MetricInfo) -> bool {
    &&& mentions(text, m.name)
    &&& has_line(text, "# TYPE "@ + m.name.push(' ') + m.kind)
    &&& is_plain(m.help) ==> has_line(text, help_line(m))
}

/// The line of a page of metrics that tells the help text of a metric.
pub open spec fn help_line(m: MetricInfo) -> Seq<char> {
    "# HELP "@ + m.name.push(' ') + m.help
}

/// Whether nothing in a help text needs to be escaped: it has neither backslashes nor line ends.
pub open spec fn is_plain(help: Seq<char>) -> bool {
    forall|i: int| 0 <= i < help.len() ==> #[trigger] help[i] != '\\' && help[i] != '\n'
}

/// The default buckets of a histogram: the upper bound of each, as it is written, and the number
/// that it is.
pub open spec fn default_buckets() -> Seq<(Seq<char>, Double)> {
    seq![
        ("0.005"@, Double { bits: 0x3f74_7ae1_47ae_147b }),
        ("0.01"@, Double { bits: 0x3f84_7ae1_47ae_147b }),
        ("0.025"@, Double { bits: 0x3f99_9999_9999_999a }),
        ("0.05"@, Double { bits: 0x3fa9_9999_9999_999a }),
        ("0.1"@, Double { bits: 0x3fb9_9999_9999_999a }),
        ("0.25"@, Double { bits: 0x3fd0_0000_0000_0000 }),
        ("0.5"@, Double { bits: 0x3fe0_0000_0000_0000 }),
        ("1"@, Double { bits: 0x3ff0_0000_0000_0000 }),
        ("2.5"@, Double { bits: 0x4004_0000_0000_0000 }),
        ("5"@, Double { bits: 0x4014_0000_0000_0000 }),
        ("10"@, Double { bits: 0x4024_0000_0000_0000 }),
    ]
}

/// How a page of metrics calls the bucket of a histogram that has an upper bound.
pub open spec fn bucket_name(name: Seq<char>, bound: Seq<char>) -> Seq<char> {
    name + "_bucket{le=\""@ + bound + "\"}"@
}

/// `prometheus::Registry::gather` and `prometheus::TextEncoder::encode_to_string`: the text form
/// of a registry that holds label-free counters, gauges and histograms; encoding them does not
/// fail, and each of them is described in the text. Each of the given counters and gauges that the
/// registry holds has a line with its value. Each of the given histograms that it holds has a line
/// with the number of its observations, and the same for the bucket without bound; where it has
/// the default buckets, each of them has a line with the number of observations that do not exceed
/// its bound. All this as long as the number is small enough to be exact as a floating-point
/// number. An observation is the number of seconds that `std::time::Duration::as_secs_f64` gives.
/// The sums of histograms and the values of floating-point counters are left unsaid.
#[verifier::external_body]
fn gather_text(
    r: &prometheus::Registry,
    counters: &[&EdgeCounter],
    gauges: &[&EdgeGauge],
    histograms: &[&prometheus::Histogram],
) -> (res: Result<String, prometheus::Error>)
    requires
        registry_is_plain(*r),
    ensures
        res is Ok,
        res matches Ok(text) ==> forall|id: u64| #[trigger]
            registered(*r).contains_key(id) ==> describes(text@, registered(*r)[id]),
        res matches Ok(text) ==> forall|i: int|
            #![trigger counters@[i]]
            (0 <= i && i < counters@.len() && registered_cells(*r).contains_pair(
                metric_id(counter_name(*counters@[i])),
                counter_cell(*counters@[i]),
            ) && is_exact(counter_total(*counters@[i]) as int)) ==> shows(
                text@,
                counter_name(*counters@[i]),
                counter_total(*counters@[i]) as int,
            ),
        res matches Ok(text) ==> forall|i: int|
            #![trigger gauges@[i]]
            (0 <= i && i < gauges@.len() && registered_cells(*r).contains_pair(
                metric_id(gauge_name(*gauges@[i])),
                gauge_cell(*gauges@[i]),
            ) && is_exact(gauge_level(*gauges@[i]) as int)) ==> shows(
                text@,
                gauge_name(*gauges@[i]),
                gauge_level(*gauges@[i]) as int,
            ),
        res matches Ok(text) ==> forall|i: int|
            #![trigger histograms@[i]]
            (0 <= i && i < histograms@.len() && registered_cells(*r).contains_pair(
                metric_id(latency_name(*histograms@[i])),
                latency_cell(*histograms@[i]),
            ) && is_exact(latencies(*histograms@[i]).len() as int)) ==> shows(
                text@,
                latency_name(*histograms@[i]) + "_count"@,
                latencies(*histograms@[i]).len() as int,
            ) && shows(
                text@,
                bucket_name(latency_name(*histograms@[i]), "+Inf"@),
                latencies(*histograms@[i]).len() as int,
            ),
        res matches Ok(text) ==> forall|i: int, k: int|
            #![trigger histograms@[i], default_buckets()[k]]
            (0 <= i && i < histograms@.len() && registered_cells(*r).contains_pair(
                metric_id(latency_name(*histograms@[i])),
                latency_cell(*histograms@[i]),
            ) && has_default_buckets(*histograms@[i]) && 0 <= k && k < default_buckets().len()
                && is_exact(latencies(*histograms@[i]).len() as int)) ==> shows(
                text@,
                bucket_name(latency_name(*histograms@[i]), default_buckets()[k].0),
                latencies(*histograms@[i]).filter(
                    |l: (u64, u32)| !default_buckets()[k].1.lt(
                        (Double { bits: seconds_bits(l.0, l.1) }),
                    ),
                ).len() as int,
            ),
{
    let _ = (counters, gauges, histograms);
    prometheus::TextEncoder::new().encode_to_string(&r.gather())
}

// ---------------------------------------------------------------------------
// The metrics of an edge
// ---------------------------------------------------------------------------
/// What the metrics of an edge stand at.
pub struct MetricsView {
    pub bytes_served: u64,
    pub latencies: Seq<(u64, u32)>,
    pub hits: u64,
    pub misses: u64,
    pub origin_fetches: u64,
    pub coalesced: u64,
    pub evictions: u64,
    pub cache_bytes: i64,
    pub inflight: i64,
}

/// The metrics of an edge that has served nothing.
pub open spec fn no_traffic() -> MetricsView {
    MetricsView {
        bytes_served: 0,
        latencies: Seq::empty(),
        hits: 0,
        misses: 0,
        origin_fetches: 0,
        coalesced: 0,
        evictions: 0,
        cache_bytes: 0,
        inflight: 0,
    }
}

/// The metrics of an edge, in the order in which they are registered.
pub open spec fn metric_table() -> Seq<MetricInfo> {
    seq![
        MetricInfo {
            name: "edge_bytes_served_total"@,
            help: "Total response bytes actually served by this edge node"@,
            kind: "counter"@,
        },
        MetricInfo {
            name: "edge_request_duration_seconds"@,
            help: "Edge request latency"@,
            kind: "histogram"@,
        },
        MetricInfo {
            name: "edge_cache_hits_total"@,
            help: "Cache hits"@,
            kind: "counter"@,
        },
        MetricInfo {
            name: "edge_cache_misses_total"@,
            help: "Cache misses that led origin fetch"@,
            kind: "counter"@,
        },
        MetricInfo {
            name: "edge_origin_fetches_total"@,
            help: "Origin fetches issued"@,
            kind: "counter"@,
        },
        MetricInfo {
            name: "edge_inflight_coalesced_total"@,
            help: "Requests that waited on an in-flight origin fetch"@,
            kind: "counter"@,
        },
        MetricInfo {
            name: "edge_cache_evictions_total"@,
            help: "LRU evictions"@,
            kind: "counter"@,
        },
        MetricInfo {
            name: "edge_cache_bytes"@,
            help: "Bytes currently stored in cache"@,
            kind: "gauge"@,
        },
        MetricInfo {
            name: "edge_inflight_requests"@,
            help: "In-flight client requests"@,
            kind: "gauge"@,
        },
        MetricInfo {
            name: "edge_cost_units_total"@,
            help: "Synthetic bandwidth cost: bytes served times node bandwidth_price"@,
            kind: "counter"@,
        },
    ]
}

/// The metrics of an edge have names and help texts such as Prometheus accepts, in which nothing
/// needs to be escaped.
proof fn lemma_metric_table()
    ensures
        metric_table().len() == 10,
        forall|i: int|
            0 <= i < metric_table().len() ==> valid_metric_name((#[trigger] metric_table()[i]).name)
                && metric_table()[i].help.len() > 0 && is_plain(metric_table()[i].help),
{
    reveal_strlit("edge_bytes_served_total");
    reveal_strlit("edge_request_duration_seconds");
    reveal_strlit("edge_cache_hits_total");
    reveal_strlit("edge_cache_misses_total");
    reveal_strlit("edge_origin_fetches_total");
    reveal_strlit("edge_inflight_coalesced_total");
    reveal_strlit("edge_cache_evictions_total");
    reveal_strlit("edge_cache_bytes");
    reveal_strlit("edge_inflight_requests");
    reveal_strlit("edge_cost_units_total");
    reveal_strlit("Total response bytes actually served by this edge node");
    reveal_strlit("Edge request latency");
    reveal_strlit("Cache hits");
    reveal_strlit("Cache misses that led origin fetch");
    reveal_strlit("Origin fetches issued");
    reveal_strlit("Requests that waited on an in-flight origin fetch");
    reveal_strlit("LRU evictions");
    reveal_strlit("Bytes currently stored in cache");
    reveal_strlit("In-flight client requests");
    reveal_strlit("Synthetic bandwidth cost: bytes served times node bandwidth_price");
    assert(valid_metric_name("edge_bytes_served_total"@));
    assert(valid_metric_name("edge_request_duration_seconds"@));
    assert(valid_metric_name("edge_cache_hits_total"@));
    assert(valid_metric_name("edge_cache_misses_total"@));
    assert(valid_metric_name("edge_origin_fetches_total"@));
    assert(valid_metric_name("edge_inflight_coalesced_total"@));
    assert(valid_metric_name("edge_cache_evictions_total"@));
    assert(valid_metric_name("edge_cache_bytes"@));
    assert(valid_metric_name("edge_inflight_requests"@));
    assert(valid_metric_name("edge_cost_units_total"@));
    assert(is_plain("Total response bytes actually served by this edge node"@));
    assert(is_plain("Edge request latency"@));
    assert(is_plain("Cache hits"@));
    assert(is_plain("Cache misses that led origin fetch"@));
    assert(is_plain("Origin fetches issued"@));
    assert(is_plain("Requests that waited on an in-flight origin fetch"@));
    assert(is_plain("LRU evictions"@));
    assert(is_plain("Bytes currently stored in cache"@));
    assert(is_plain("In-flight client requests"@));
    assert(is_plain("Synthetic bandwidth cost: bytes served times node bandwidth_price"@));
}

/// Whether a registry holds a counter under a name.
spec fn holds_counter(r: prometheus::Registry, c: EdgeCounter, name: Seq<char>) -> bool {
    counter_name(c) == name && registered_cells(r).contains_pair(metric_id(name), counter_cell(c))
}

/// Whether a registry holds a gauge under a name.
spec fn holds_gauge(r: prometheus::Registry, g: EdgeGauge, name: Seq<char>) -> bool {
    gauge_name(g) == name && registered_cells(r).contains_pair(metric_id(name), gauge_cell(g))
}

/// Whether a registry holds a floating-point counter under a name.
spec fn holds_cost(r: prometheus::Registry, c: CostCounter, name: Seq<char>) -> bool {
    cost_name(c) == name && registered_cells(r).contains_pair(metric_id(name), cost_cell(c))
}

/// Whether a registry holds a histogram under a name.
spec fn holds_latency(r: prometheus::Registry, h: prometheus::Histogram, name: Seq<char>) -> bool {
    latency_name(h) == name && registered_cells(r).contains_pair(metric_id(name), latency_cell(h))
}

/// Whether a page of metrics gives a value for a metric, where the value is in the range in which
/// its digits are exact.
pub open spec fn shows_if_exact(text: Seq<char>, name: Seq<char>, value: int) -> bool {
    is_exact(value) ==> shows(text, name, value)
}

/// How many of some durations do not exceed a number of seconds.
pub open spec fn within(durations: Seq<(u64, u32)>, bound: Double) -> nat {
    durations.filter(|l: (u64, u32)| !bound.lt(Double { bits: seconds_bits(l.0, l.1) })).len()
}

/// Whether a page of metrics tells what the metrics of an edge stand at.
pub open spec fn shows_metrics(text: Seq<char>, m: MetricsView) -> bool {
    &&& forall|i: int|
        0 <= i < metric_table().len() ==> describes(text, #[trigger] metric_table()[i])
            && has_line(text, help_line(metric_table()[i]))
    &&& shows_if_exact(text, "edge_bytes_served_total"@, m.bytes_served as int)
    &&& shows_if_exact(
        text,
        "edge_request_duration_seconds_count"@,
        m.latencies.len() as int,
    )
    &&& shows_if_exact(
        text,
        bucket_name("edge_request_duration_seconds"@, "+Inf"@),
        m.latencies.len() as int,
    )
    &&& is_exact(m.latencies.len() as int) ==> forall|k: int|
        0 <= k < default_buckets().len() ==> shows(
            text,
            bucket_name("edge_request_duration_seconds"@, (#[trigger] default_buckets()[k]).0),
            within(m.latencies, default_buckets()[k].1) as int,
        )
    &&& shows_if_exact(text, "edge_cache_hits_total"@, m.hits as int)
    &&& shows_if_exact(text, "edge_cache_misses_total"@, m.misses as int)
    &&& shows_if_exact(text, "edge_origin_fetches_total"@, m.origin_fetches as int)
    &&& shows_if_exact(text, "edge_inflight_coalesced_total"@, m.coalesced as int)
    &&& shows_if_exact(text, "edge_cache_evictions_total"@, m.evictions as int)
    &&& shows_if_exact(text, "edge_cache_bytes"@, m.cache_bytes as int)
    &&& shows_if_exact(text, "edge_inflight_requests"@, m.inflight as int)
}

/// The counters of an edge node.
pub struct EdgeMetrics {
    registry: prometheus::Registry,
    bytes_served_total: EdgeCounter,
    request_duration_seconds: prometheus::Histogram,
    cache_hits_total: EdgeCounter,
    cache_misses_total: EdgeCounter,
    origin_fetches_total: EdgeCounter,
    inflight_coalesced_total: EdgeCounter,
    cache_evictions_total: EdgeCounter,
    cache_bytes: EdgeGauge,
    inflight_requests: EdgeGauge,
    cost_units_total: CostCounter,
}

impl View for EdgeMetrics {
    type V = MetricsView;

    closed spec fn view(&self) -> MetricsView {
        MetricsView {
            bytes_served: counter_total(self.bytes_served_total),
            latencies: latencies(self.request_duration_seconds),
            hits: counter_total(self.cache_hits_total),
            misses: counter_total(self.cache_misses_total),
            origin_fetches: counter_total(self.origin_fetches_total),
            coalesced: counter_total(self.inflight_coalesced_total),
            evictions: counter_total(self.cache_evictions_total),
            cache_bytes: gauge_level(self.cache_bytes),
            inflight: gauge_level(self.inflight_requests),
        }
    }
}

impl Default for EdgeMetrics {
    /// The metrics of an edge, all at zero.
    fn default() -> (r: Self)
        ensures
            r.wf(),
            r@ == no_traffic(),
    {
        EdgeMetrics::new()
    }
}

impl EdgeMetrics {
    /// Whether all metrics of an edge are registered, each through the handle that is held here.
    pub closed spec fn wf(&self) -> bool {
        &&& registry_is_plain(self.registry)
        &&& forall|i: int|
            0 <= i < metric_table().len() ==> {
                let id = metric_id((#[trigger] metric_table()[i]).name);
                registered(self.registry).contains_key(id) && registered(self.registry)[id]
                    == metric_table()[i]
            }
        &&& has_default_buckets(self.request_duration_seconds)
        &&& holds_counter(self.registry, self.bytes_served_total, "edge_bytes_served_total"@)
        &&& holds_latency(
            self.registry,
            self.request_duration_seconds,
            "edge_request_duration_seconds"@,
        )
        &&& holds_counter(self.registry, self.cache_hits_total, "edge_cache_hits_total"@)
        &&& holds_counter(self.registry, self.cache_misses_total, "edge_cache_misses_total"@)
        &&& holds_counter(self.registry, self.origin_fetches_total, "edge_origin_fetches_total"@)
        &&& holds_counter(
            self.registry,
            self.inflight_coalesced_total,
            "edge_inflight_coalesced_total"@,
        )
        &&& holds_counter(self.registry, self.cache_evictions_total, "edge_cache_evictions_total"@)
        &&& holds_gauge(self.registry, self.cache_bytes, "edge_cache_bytes"@)
        &&& holds_gauge(self.registry, self.inflight_requests, "edge_inflight_requests"@)
        &&& holds_cost(self.registry, self.cost_units_total, "edge_cost_units_total"@)
    }

    /// The counter of synthetic cost.
    pub closed spec fn cost(&self) -> CostCounter {
        self.cost_units_total
    }

    /// The cell that the page of metrics reads for a metric.
    pub closed spec fn cell_on_page(&self, name: Seq<char>) -> int {
        registered_cells(self.registry)[metric_id(name)]
    }

    /// Whether the registry and the counter of cost are as they were before.
    pub open spec fn same_setup(&self, before: EdgeMetrics) -> bool {
        self.wf() == before.wf() && self.cost() == before.cost()
    }

    /// Sets up the metrics of an edge, all at zero, in a registry of their own.
    pub fn new() -> (r: EdgeMetrics)
        ensures
            r.wf(),
            r@ == no_traffic(),
    {
        proof {
            lemma_metric_table();
            lemma_metric_ids();
            assert(metric_table()[0].name == "edge_bytes_served_total"@);
            assert(metric_table()[1].name == "edge_request_duration_seconds"@);
            assert(metric_table()[2].name == "edge_cache_hits_total"@);
            assert(metric_table()[3].name == "edge_cache_misses_total"@);
            assert(metric_table()[4].name == "edge_origin_fetches_total"@);
            assert(metric_table()[5].name == "edge_inflight_coalesced_total"@);
            assert(metric_table()[6].name == "edge_cache_evictions_total"@);
            assert(metric_table()[7].name == "edge_cache_bytes"@);
            assert(metric_table()[8].name == "edge_inflight_requests"@);
            assert(metric_table()[9].name == "edge_cost_units_total"@);
            assert(metric_table()[0].help
                == "Total response bytes actually served by this edge node"@);
            assert(metric_table()[1].help == "Edge request latency"@);
            assert(metric_table()[2].help == "Cache hits"@);
            assert(metric_table()[3].help == "Cache misses that led origin fetch"@);
            assert(metric_table()[4].help == "Origin fetches issued"@);
            assert(metric_table()[5].help == "Requests that waited on an in-flight origin fetch"@);
            assert(metric_table()[6].help == "LRU evictions"@);
            assert(metric_table()[7].help == "Bytes currently stored in cache"@);
            assert(metric_table()[8].help == "In-flight client requests"@);
            assert(metric_table()[9].help
                == "Synthetic bandwidth cost: bytes served times node bandwidth_price"@);
        }
        let mut registry = registry_new();
        let bytes_served_total = counter_new(
            "edge_bytes_served_total",
            "Total response bytes actually served by this edge node",
        ).unwrap();
        let request_duration_seconds = latency_new(
            "edge_request_duration_seconds",
            "Edge request latency",
        ).unwrap();
        let cache_hits_total = counter_new(
            "edge_cache_hits_total",
            "Cache hits",
        ).unwrap();
        let cache_misses_total = counter_new(
            "edge_cache_misses_total",
            "Cache misses that led origin fetch",
        ).unwrap();
        let origin_fetches_total = counter_new(
            "edge_origin_fetches_total",
            "Origin fetches issued",
        ).unwrap();
        let inflight_coalesced_total = counter_new(
            "edge_inflight_coalesced_total",
            "Requests that waited on an in-flight origin fetch",
        ).unwrap();
        let cache_evictions_total = counter_new(
            "edge_cache_evictions_total",
            "LRU evictions",
        ).unwrap();
        let cache_bytes = gauge_new(
            "edge_cache_bytes",
            "Bytes currently stored in cache",
        ).unwrap();
        let inflight_requests = gauge_new(
            "edge_inflight_requests",
            "In-flight client requests",
        ).unwrap();
        let cost_units_total = cost_new(
            "edge_cost_units_total",
            "Synthetic bandwidth cost: bytes served times node bandwidth_price",
        ).unwrap();
        register_counter(&mut registry, &bytes_served_total).unwrap();
        register_latency(&mut registry, &request_duration_seconds).unwrap();
        register_counter(&mut registry, &cache_hits_total).unwrap();
        register_counter(&mut registry, &cache_misses_total).unwrap();
        register_counter(&mut registry, &origin_fetches_total).unwrap();
        register_counter(&mut registry, &inflight_coalesced_total).unwrap();
        register_counter(&mut registry, &cache_evictions_total).unwrap();
        register_gauge(&mut registry, &cache_bytes).unwrap();
        register_gauge(&mut registry, &inflight_requests).unwrap();
        register_cost(&mut registry, &cost_units_total).unwrap();
        proof {
            assert forall|i: int| 0 <= i < metric_table().len() implies {
                let id = metric_id((#[trigger] metric_table()[i]).name);
                registered(registry).contains_key(id) && registered(registry)[id]
                    == metric_table()[i]
            } by {
                assert(i == 0 || i == 1 || i == 2 || i == 3 || i == 4 || i == 5 || i == 6 || i == 7
                    || i == 8 || i == 9);
            }
        }
        EdgeMetrics {
            registry,
            bytes_served_total,
            request_duration_seconds,
            cache_hits_total,
            cache_misses_total,
            origin_fetches_total,
            inflight_coalesced_total,
            cache_evictions_total,
            cache_bytes,
            inflight_requests,
            cost_units_total,
        }
    }

    /// Counts bytes that were served, and says whether there is a cost to charge for them.
    pub fn add_bytes(&mut self, bytes: u64) -> (charge: bool)
        ensures
            final(self).same_setup(*old(self)),
            final(self)@ == (MetricsView {
                bytes_served: wrap_u64(old(self)@.bytes_served + bytes),
                ..old(self)@
            }),
            charge == (bytes > 0),
    {
        counter_inc_by(&mut self.bytes_served_total, bytes);
        bytes > 0
    }

    /// Records how long a request took, in seconds and nanoseconds.
    pub fn observe_latency(&mut self, secs: u64, nanos: u32)
        requires
            nanos < 1_000_000_000,
        ensures
            final(self).same_setup(*old(self)),
            final(self)@ == (MetricsView {
                latencies: old(self)@.latencies.push((secs, nanos)),
                ..old(self)@
            }),
    {
        latency_observe(&mut self.request_duration_seconds, secs, nanos);
    }

    /// Counts a cache hit.
    pub fn hit(&mut self)
        ensures
            final(self).same_setup(*old(self)),
            final(self)@ == (MetricsView {
                hits: wrap_u64(old(self)@.hits + 1),
                ..old(self)@
            }),
    {
        counter_inc(&mut self.cache_hits_total);
    }

    /// Counts a cache miss that leads to an origin fetch.
    pub fn miss(&mut self)
        ensures
            final(self).same_setup(*old(self)),
            final(self)@ == (MetricsView {
                misses: wrap_u64(old(self)@.misses + 1),
                ..old(self)@
            }),
    {
        counter_inc(&mut self.cache_misses_total);
    }

    /// Counts an origin fetch.
    pub fn origin_fetch(&mut self)
        ensures
            final(self).same_setup(*old(self)),
            final(self)@ == (MetricsView {
                origin_fetches: wrap_u64(old(self)@.origin_fetches + 1),
                ..old(self)@
            }),
    {
        counter_inc(&mut self.origin_fetches_total);
    }

    /// Counts a request that waits on the origin fetch of another one.
    pub fn coalesced(&mut self)
        ensures
            final(self).same_setup(*old(self)),
            final(self)@ == (MetricsView {
                coalesced: wrap_u64(old(self)@.coalesced + 1),
                ..old(self)@
            }),
    {
        counter_inc(&mut self.inflight_coalesced_total);
    }

    /// Counts `n` evictions.
    pub fn add_evictions(&mut self, n: u64)
        ensures
            final(self).same_setup(*old(self)),
            final(self)@ == (MetricsView {
                evictions: wrap_u64(old(self)@.evictions + n),
                ..old(self)@
            }),
    {
        counter_inc_by(&mut self.cache_evictions_total, n);
    }

    /// Sets the number of bytes that the cache holds.
    pub fn set_cache_bytes(&mut self, bytes: u64)
        ensures
            final(self).same_setup(*old(self)),
            final(self)@ == (MetricsView {
                cache_bytes: wrap_i64(bytes as int),
                ..old(self)@
            }),
    {
        let level: i64 = #[verifier::truncate] (bytes as i64);
        assert(level == wrap_i64(bytes as int)) by {
            assert(bytes < 0x8000_0000_0000_0000 ==> (bytes as i64) == bytes) by (bit_vector);
            assert(bytes >= 0x8000_0000_0000_0000 ==> (bytes as i64) == bytes
                - 0x1_0000_0000_0000_0000) by (bit_vector);
        }
        gauge_set(&mut self.cache_bytes, level);
    }

    /// A client request begins.
    pub fn inc_inflight(&mut self)
        ensures
            final(self).same_setup(*old(self)),
            final(self)@ == (MetricsView {
                inflight: wrap_i64(old(self)@.inflight + 1),
                ..old(self)@
            }),
    {
        gauge_inc(&mut self.inflight_requests);
    }

    /// A client request ends.
    pub fn dec_inflight(&mut self)
        ensures
            final(self).same_setup(*old(self)),
            final(self)@ == (MetricsView {
                inflight: wrap_i64(old(self)@.inflight - 1),
                ..old(self)@
            }),
    {
        gauge_dec(&mut self.inflight_requests);
    }

    /// The number of client requests under way; never negative.
    pub fn inflight(&self) -> (n: u64)
        ensures
            n == (if self@.inflight < 0 {
                0
            } else {
                self@.inflight as int
            }),
    {
        let level: i64 = gauge_get(&self.inflight_requests);
        if level < 0 {
            0
        } else {
            level as u64
        }
    }

    /// The number of cache hits.
    pub fn hits(&self) -> (n: u64)
        ensures
            n == self@.hits,
    {
        counter_get(&self.cache_hits_total)
    }

    /// The number of cache misses.
    pub fn misses(&self) -> (n: u64)
        ensures
            n == self@.misses,
    {
        counter_get(&self.cache_misses_total)
    }

    /// The counter of synthetic cost, which is the one that the page of metrics reads.
    pub fn cost_units(&self) -> (c: &CostCounter)
        requires
            self.wf(),
        ensures
            *c == self.cost(),
            cost_cell(*c) == self.cell_on_page("edge_cost_units_total"@),
    {
        &self.cost_units_total
    }

    /// The metrics in the Prometheus text format: every metric of an edge is named there, and
    /// every counter and gauge stands there with its value.
    pub fn render(&self) -> (text: String)
        requires
            self.wf(),
        ensures
            shows_metrics(text@, self@),
    {
        let counters: [&EdgeCounter; 6] = [
            &self.bytes_served_total,
            &self.cache_hits_total,
            &self.cache_misses_total,
            &self.origin_fetches_total,
            &self.inflight_coalesced_total,
            &self.cache_evictions_total,
        ];
        let gauges: [&EdgeGauge; 2] = [&self.cache_bytes, &self.inflight_requests];
        let histograms: [&prometheus::Histogram; 1] = [&self.request_duration_seconds];
        assert(counters@[0] == self.bytes_served_total);
        assert(counters@[1] == self.cache_hits_total);
        assert(counters@[2] == self.cache_misses_total);
        assert(counters@[3] == self.origin_fetches_total);
        assert(counters@[4] == self.inflight_coalesced_total);
        assert(counters@[5] == self.cache_evictions_total);
        assert(gauges@[0] == self.cache_bytes);
        assert(gauges@[1] == self.inflight_requests);
        assert(histograms@[0] == self.request_duration_seconds);
        proof {
            reveal_strlit("edge_request_duration_seconds");
            reveal_strlit("_count");
            reveal_strlit("edge_request_duration_seconds_count");
            assert("edge_request_duration_seconds"@ + "_count"@
                == "edge_request_duration_seconds_count"@);
        }
        let text = gather_text(
            &self.registry,
            counters.as_slice(),
            gauges.as_slice(),
            histograms.as_slice(),
        ).unwrap();
        proof {
            lemma_metric_table();
            let seen = self@.latencies;
            assert forall|k: int| is_exact(seen.len() as int) && 0 <= k < default_buckets().len()
                implies shows(
                text@,
                bucket_name("edge_request_duration_seconds"@, (#[trigger] default_buckets()[k]).0),
                within(seen, default_buckets()[k].1) as int,
            ) by {
                let bound = default_buckets()[k].1;
                let f = |l: (u64, u32)| !bound.lt(Double { bits: seconds_bits(l.0, l.1) });
                let g = |l: (u64, u32)|
                    !default_buckets()[k].1.lt(Double { bits: seconds_bits(l.0, l.1) });
                assert(f =~= g);
                assert(histograms@[0] == self.request_duration_seconds);
            }
        }
        text
    }
}

/// As long as a count stays within 64 bits, counting does not wrap around.
pub proof fn law_wrap_is_exact_in_range(v: int)
    ensures
        0 <= v < 0x1_0000_0000_0000_0000 ==> wrap_u64(v) == v,
        -0x8000_0000_0000_0000 <= v < 0x8000_0000_0000_0000 ==> wrap_i64(v) == v,
{
}

/// Counting wraps around at two to the power of 64: what is counted differs from the count by a
/// multiple of it.
pub proof fn law_wrap_is_congruent(v: int)
    ensures
        (v - wrap_u64(v)) % 0x1_0000_0000_0000_0000 == 0,
        (v - wrap_i64(v)) % 0x1_0000_0000_0000_0000 == 0,
{
}

/// Whether a page has a line of a name, a blank and a whole number that is not negative.
pub open spec fn has_count(text: Seq<char>, name: Seq<char>, value: int) -> bool {
    exists|i: int|
        0 <= i < parts(text, '\n').len() && #[trigger] parts(text, '\n')[i] == name + seq![' ']
            + decimal_text(value as nat)
}

proof fn lemma_count_is_shown(text: Seq<char>, name: Seq<char>, value: int)
    requires
        shows_if_exact(text, name, value),
        0 <= value <= 0x20_0000_0000_0000,
    ensures
        has_count(text, name, value),
{
    let line = name.push(' ') + integer_text(value);
    assert(line == name + seq![' '] + decimal_text(value as nat));
    let i = choose|i: int| 0 <= i < parts(text, '\n').len() && parts(text, '\n')[i] == line;
    assert(parts(text, '\n')[i] == name + seq![' '] + decimal_text(value as nat));
}

/// A page of metrics tells every count under its name, as long as the counts are small enough to be
/// exact: what was counted as a hit stands there as hits, and so on.
pub proof fn law_page_tells_the_counts(text: Seq<char>, m: MetricsView)
    requires
        shows_metrics(text, m),
        m.bytes_served <= 0x20_0000_0000_0000,
        m.latencies.len() <= 0x20_0000_0000_0000,
        m.hits <= 0x20_0000_0000_0000,
        m.misses <= 0x20_0000_0000_0000,
        m.origin_fetches <= 0x20_0000_0000_0000,
        m.coalesced <= 0x20_0000_0000_0000,
        m.evictions <= 0x20_0000_0000_0000,
        0 <= m.cache_bytes <= 0x20_0000_0000_0000,
        0 <= m.inflight <= 0x20_0000_0000_0000,
    ensures
        has_count(text, "edge_bytes_served_total"@, m.bytes_served as int),
        has_count(text, "edge_request_duration_seconds_count"@, m.latencies.len() as int),
        has_count(text, "edge_cache_hits_total"@, m.hits as int),
        has_count(text, "edge_cache_misses_total"@, m.misses as int),
        has_count(text, "edge_origin_fetches_total"@, m.origin_fetches as int),
        has_count(text, "edge_inflight_coalesced_total"@, m.coalesced as int),
        has_count(text, "edge_cache_evictions_total"@, m.evictions as int),
        has_count(text, "edge_cache_bytes"@, m.cache_bytes as int),
        has_count(text, "edge_inflight_requests"@, m.inflight as int),
{
    lemma_count_is_shown(text, "edge_bytes_served_total"@, m.bytes_served as int);
    lemma_count_is_shown(
        text,
        "edge_request_duration_seconds_count"@,
        m.latencies.len() as int,
    );
    lemma_count_is_shown(text, "edge_cache_hits_total"@, m.hits as int);
    lemma_count_is_shown(text, "edge_cache_misses_total"@, m.misses as int);
    lemma_count_is_shown(text, "edge_origin_fetches_total"@, m.origin_fetches as int);
    lemma_count_is_shown(text, "edge_inflight_coalesced_total"@, m.coalesced as int);
    lemma_count_is_shown(text, "edge_cache_evictions_total"@, m.evictions as int);
    lemma_count_is_shown(text, "edge_cache_bytes"@, m.cache_bytes as int);
    lemma_count_is_shown(text, "edge_inflight_requests"@, m.inflight as int);
}

/// A gauge below zero is told with a sign.
pub proof fn law_how_a_number_is_told(v: int)
    ensures
        v >= 0 ==> integer_text(v) == decimal_text(v as nat),
        v < 0 ==> integer_text(v) == seq!['-'] + decimal_text((-v) as nat),
{
}

/// A page of metrics names each metric of an edge, with its type and its help text on lines of
/// their own.
pub proof fn law_page_describes_each_metric(text: Seq<char>, m: MetricsView, k: int)
    requires
        shows_metrics(text, m),
        0 <= k < metric_table().len(),
    ensures
        metric_table().len() == 10,
        parts(text, '\n').contains(
            "# TYPE "@ + metric_table()[k].name + seq![' '] + metric_table()[k].kind,
        ),
        parts(text, '\n').contains(
            "# HELP "@ + metric_table()[k].name + seq![' '] + metric_table()[k].help,
        ),
{
    let info = metric_table()[k];
    assert(describes(text, info));
    assert("# TYPE "@ + info.name.push(' ') + info.kind == "# TYPE "@ + info.name + seq![' ']
        + info.kind);
    assert("# HELP "@ + info.name.push(' ') + info.help == "# HELP "@ + info.name + seq![' ']
        + info.help);
}

/// Durations are counted one by one into a bucket: each of them counts exactly if the bound of the
/// bucket is not less than it.
pub proof fn law_durations_are_counted_one_by_one(
    durations: Seq<(u64, u32)>,
    d: (u64, u32),
    bound: Double,
)
    ensures
        within(Seq::<(u64, u32)>::empty(), bound) == 0,
        within(durations.push(d), bound) == within(durations, bound) + (if bound.lt(
            Double { bits: seconds_bits(d.0, d.1) },
        ) {
            0int
        } else {
            1int
        }),
{
    reveal(Seq::filter);
    assert(durations.push(d).drop_last() == durations);
    assert(durations.push(d).last() == d);
}

/// A page of metrics tells how many requests took no longer than the bound of each bucket, and the
/// bounds of the buckets ascend.
pub proof fn law_page_tells_the_buckets(text: Seq<char>, m: MetricsView, k: int)
    requires
        shows_metrics(text, m),
        m.latencies.len() <= 0x20_0000_0000_0000,
        0 <= k < default_buckets().len(),
    ensures
        has_count(
            text,
            "edge_request_duration_seconds_bucket{le=\""@ + default_buckets()[k].0 + "\"}"@,
            within(m.latencies, default_buckets()[k].1) as int,
        ),
        has_count(
            text,
            "edge_request_duration_seconds_bucket{le=\""@ + "+Inf"@ + "\"}"@,
            m.latencies.len() as int,
        ),
        default_buckets().len() == 11,
        k > 0 ==> default_buckets()[k - 1].1.lt(default_buckets()[k].1),
{
    reveal_strlit("edge_request_duration_seconds");
    reveal_strlit("_bucket{le=\"");
    reveal_strlit("edge_request_duration_seconds_bucket{le=\"");
    assert("edge_request_duration_seconds"@ + "_bucket{le=\""@
        == "edge_request_duration_seconds_bucket{le=\""@);
    let n = within(m.latencies, default_buckets()[k].1) as int;
    assert(n <= m.latencies.len()) by {
        lemma_within_bounded(m.latencies, default_buckets()[k].1);
    }
    lemma_count_is_shown(
        text,
        bucket_name("edge_request_duration_seconds"@, default_buckets()[k].0),
        n,
    );
    lemma_count_is_shown(
        text,
        bucket_name("edge_request_duration_seconds"@, "+Inf"@),
        m.latencies.len() as int,
    );
}

proof fn lemma_within_bounded(durations: Seq<(u64, u32)>, bound: Double)
    ensures
        within(durations, bound) <= durations.len(),
    decreases durations.len(),
{
    reveal(Seq::filter);
    if durations.len() > 0 {
        lemma_within_bounded(durations.drop_last(), bound);
    }
}

/// An edge that has served nothing has counted nothing.
pub proof fn law_nothing_is_counted_at_first()
    ensures
        no_traffic().bytes_served == 0,
        no_traffic().latencies.len() == 0,
        no_traffic().hits == 0,
        no_traffic().misses == 0,
        no_traffic().origin_fetches == 0,
        no_traffic().coalesced == 0,
        no_traffic().evictions == 0,
        no_traffic().cache_bytes == 0,
        no_traffic().inflight == 0,
{
}

} // verus!
