//! An edge node: what it does with a request, with the origin's answer, and what it reports.
use tokio::sync::broadcast;
use vstd::prelude::*;

use crate::binary64::Double;
use crate::cache::{
    bytes_from, bytes_slice, has_key, lookup, status_cacheable, total, ByteLru, CachedObject,
    LruView, ObjectView,
};
use crate::edge_laws::law_whole_success_is_cached;
use crate::singleflight::{
    channels_differ, flight_step, is_new_channel, receiver_channel, FetchOutcome, Flight,
    FlightEvent, GuardView, LeaderGuard, OutcomeView, SingleFlight,
};
use crate::telemetry::{
    cost_cell, no_traffic, shows_metrics, wrap_i64, wrap_u64, CostCounter, EdgeMetrics, MetricsView,
};
use crate::text::{copied, is_lowered, lowered, strings, trim_end, trimmed_end};

verus! {

// ---------------------------------------------------------------------------
// Configuration and reports
// ---------------------------------------------------------------------------
/// The configuration of an edge node.
#[derive(Debug)]
pub struct EdgeConfig {
    pub node_id: String,
    /// Where the origin listens.
    pub origin: String,
    /// Where the edge listens.
    pub listen: String,
    pub cache_max_bytes: u64,
    pub cache_max_object_bytes: u64,
    pub bandwidth_price: Double,
    pub capacity: u64,
    pub ewma_rtt_ms: Double,
    /// Where the control plane listens, if there is one.
    pub control_plane: Option<String>,
}

impl EdgeConfig {
    /// An edge before the given origin, on a free port, with 64 MiB of cache for objects of up to
    /// 8 MiB, of price one, of a round trip of one millisecond, and without a control plane.
    pub fn for_origin(origin: String) -> (r: Self)
        ensures
            r.node_id@ == "edge"@,
            r.origin@ == origin@,
            r.listen@ == "127.0.0.1:0"@,
            r.cache_max_bytes == 64 * 1024 * 1024,
            r.cache_max_object_bytes == 8 * 1024 * 1024,
            r.bandwidth_price == Double::spec_one(),
            r.capacity == 1024,
            r.ewma_rtt_ms == Double::spec_one(),
            r.control_plane is None,
    {
        EdgeConfig {
            node_id: "edge".to_owned(),
            origin,
            listen: "127.0.0.1:0".to_owned(),
            cache_max_bytes: 64 * 1024 * 1024,
            cache_max_object_bytes: 8 * 1024 * 1024,
            bandwidth_price: Double::one(),
            capacity: 1024,
            ewma_rtt_ms: Double::one(),
            control_plane: None,
        }
    }
}

impl Clone for EdgeConfig {
    fn clone(&self) -> (r: Self)
        ensures
            r == *self,
    {
        EdgeConfig {
            node_id: self.node_id.clone(),
            origin: self.origin.clone(),
            listen: self.listen.clone(),
            cache_max_bytes: self.cache_max_bytes,
            cache_max_object_bytes: self.cache_max_object_bytes,
            bandwidth_price: self.bandwidth_price,
            capacity: self.capacity,
            ewma_rtt_ms: self.ewma_rtt_ms,
            control_plane: match &self.control_plane {
                Some(addr) => Some(addr.clone()),
                None => None,
            },
        }
    }
}

/// What an edge tells of itself.
#[derive(Debug)]
pub struct HealthSnapshot {
    pub node_id: String,
    pub addr: String,
    pub healthy: bool,
    pub inflight: u64,
    pub capacity: u64,
    pub cache_bytes: u64,
    pub hits: u64,
    pub misses: u64,
    pub bandwidth_price: Double,
    pub ewma_rtt_ms: Double,
    /// The keys of the cache, the least recently used first.
    pub hot_keys: Vec<String>,
}

impl Clone for HealthSnapshot {
    fn clone(&self) -> (r: Self)
        ensures
            r.node_id == self.node_id,
            r.addr == self.addr,
            r.healthy == self.healthy,
            r.inflight == self.inflight,
            r.capacity == self.capacity,
            r.cache_bytes == self.cache_bytes,
            r.hits == self.hits,
            r.misses == self.misses,
            r.bandwidth_price == self.bandwidth_price,
            r.ewma_rtt_ms == self.ewma_rtt_ms,
            strings(r.hot_keys@) == strings(self.hot_keys@),
    {
        HealthSnapshot {
            node_id: self.node_id.clone(),
            addr: self.addr.clone(),
            healthy: self.healthy,
            inflight: self.inflight,
            capacity: self.capacity,
            cache_bytes: self.cache_bytes,
            hits: self.hits,
            misses: self.misses,
            bandwidth_price: self.bandwidth_price,
            ewma_rtt_ms: self.ewma_rtt_ms,
            hot_keys: copied(&self.hot_keys),
        }
    }
}

/// Whether a snapshot tells of an edge what its configuration, metrics and cache are.
pub open spec fn tells_of(
    s: HealthSnapshot,
    config: EdgeConfig,
    metrics: MetricsView,
    cache: LruView,
) -> bool {
    &&& s.node_id@ == config.node_id@
    &&& s.addr@ == config.listen@
    &&& s.healthy
    &&& s.inflight == (if metrics.inflight < 0 {
        0
    } else {
        metrics.inflight as int
    })
    &&& s.capacity == config.capacity
    &&& s.cache_bytes == total(cache.entries)
    &&& s.hits == metrics.hits
    &&& s.misses == metrics.misses
    &&& s.bandwidth_price == config.bandwidth_price
    &&& s.ewma_rtt_ms == config.ewma_rtt_ms
    &&& s.hot_keys@.len() == cache.entries.len()
    &&& forall|i: int|
        0 <= i < s.hot_keys@.len() ==> (#[trigger] s.hot_keys@[i])@ == cache.entries[i].0
}

/// What an edge with this configuration, these metrics and this cache tells of itself.
pub fn snapshot_from_metrics(config: &EdgeConfig, metrics: &EdgeMetrics, cache: &ByteLru) -> (r:
    HealthSnapshot)
    requires
        cache.wf(),
    ensures
        tells_of(r, *config, metrics@, cache@),
{
    HealthSnapshot {
        node_id: config.node_id.clone(),
        addr: config.listen.clone(),
        healthy: true,
        inflight: metrics.inflight(),
        capacity: config.capacity,
        cache_bytes: cache.bytes(),
        hits: metrics.hits(),
        misses: metrics.misses(),
        bandwidth_price: config.bandwidth_price,
        ewma_rtt_ms: config.ewma_rtt_ms,
        hot_keys: cache.keys(),
    }
}

/// Where an edge reports to, given where its control plane is.
pub fn heartbeat_url(control: &str) -> (r: String)
    ensures
        r@ == trimmed_end(control@, '/') + "/heartbeat"@,
{
    let mut r = trim_end(control, '/').to_owned();
    r.append("/heartbeat");
    r
}

/// What a request asks the origin for: its path and query, or the root where it has neither.
pub open spec fn target(path_and_query: Option<&str>) -> Seq<char> {
    match path_and_query {
        Some(t) => t@,
        None => "/"@,
    }
}

/// Where the origin is asked for a request.
pub fn upstream_url(config: &EdgeConfig, path_and_query: Option<&str>) -> (r: String)
    ensures
        r@ == "http://"@ + config.origin@ + target(path_and_query),
{
    let mut r = "http://".to_owned();
    r.append(config.origin.as_str());
    match path_and_query {
        Some(t) => r.append(t),
        None => r.append("/"),
    }
    r
}

// ---------------------------------------------------------------------------
// Headers
// ---------------------------------------------------------------------------
/// Whether a header concerns one connection only, whatever the case of its letters.
pub open spec fn hop_by_hop(name: Seq<char>) -> bool {
    let n = lowered(name);
    ||| n == "connection"@
    ||| n == "keep-alive"@
    ||| n == "proxy-authenticate"@
    ||| n == "proxy-authorization"@
    ||| n == "te"@
    ||| n == "trailer"@
    ||| n == "transfer-encoding"@
    ||| n == "upgrade"@
}

/// Whether a header concerns one connection only, whatever the case of its letters.
pub fn is_hop_by_hop(name: &str) -> (r: bool)
    ensures
        r == hop_by_hop(name@),
{
    is_lowered(name, "connection") || is_lowered(name, "keep-alive") || is_lowered(
        name,
        "proxy-authenticate",
    ) || is_lowered(name, "proxy-authorization") || is_lowered(name, "te") || is_lowered(
        name,
        "trailer",
    ) || is_lowered(name, "transfer-encoding") || is_lowered(name, "upgrade")
}

/// A header: its name and its value.
pub type HeaderView = (Seq<char>, Seq<u8>);

/// Whether the edge hands a header of the origin on: not if it concerns one connection only, nor
/// if it tells how long the body is.
pub open spec fn handed_on(h: HeaderView) -> bool {
    !hop_by_hop(h.0) && lowered(h.0) != "content-length"@ && lowered(h.0) != "transfer-encoding"@
}

/// The headers that the edge hands on, in their order.
pub open spec fn headers_handed_on(headers: Seq<HeaderView>) -> Seq<HeaderView> {
    headers.filter(|h: HeaderView| handed_on(h))
}

/// The names and values of some headers.
pub open spec fn header_views(headers: Seq<(String, Vec<u8>)>) -> Seq<HeaderView> {
    headers.map_values(|h: (String, Vec<u8>)| (h.0@, h.1@))
}

/// The headers of the origin that the edge hands on.
pub fn forward_headers(headers: &[(String, Vec<u8>)]) -> (r: Vec<(String, Vec<u8>)>)
    ensures
        header_views(r@) == headers_handed_on(header_views(headers@)),
{
    let mut r: Vec<(String, Vec<u8>)> = Vec::new();
    let mut i: usize = 0;
    proof {
        reveal(Seq::filter);
        assert(header_views(headers@).take(0) == Seq::<HeaderView>::empty());
        assert(header_views(r@) == Seq::<HeaderView>::empty());
    }
    while i < headers.len()
        invariant
            i <= headers@.len(),
            header_views(r@) == headers_handed_on(header_views(headers@).take(i as int)),
        decreases headers@.len() - i,
    {
        let name = headers[i].0.as_str();
        let ghost views = header_views(headers@);
        let ghost before = r@;
        proof {
            reveal(Seq::filter);
            assert(views.take(i + 1).drop_last() == views.take(i as int));
            assert(views.take(i + 1).last() == views[i as int]);
        }
        if !is_hop_by_hop(name) && !is_lowered(name, "content-length") && !is_lowered(
            name,
            "transfer-encoding",
        ) {
            r.push((headers[i].0.clone(), headers[i].1.clone()));
            assert(r@.last().1@ == headers@[i as int].1@);
            assert(header_views(r@) == header_views(before).push(views[i as int]));
        }
        i += 1;
    }
    assert(header_views(headers@).take(headers@.len() as int) == header_views(headers@));
    r
}

// ---------------------------------------------------------------------------
// The state of an edge
// ---------------------------------------------------------------------------
/// What an edge stands at.
pub struct EdgeView {
    pub metrics: MetricsView,
    pub cache: LruView,
    /// The keys that are being fetched, each with the channel over which its waiters are served.
    pub flights: Map<Seq<char>, int>,
}

/// How long a request took, in seconds and nanoseconds.
pub type Elapsed = (u64, u32);

impl EdgeView {
    /// The edge after a request came in. A hit makes its key the most recently used; a request
    /// that finds its key neither cached nor being fetched leads a fetch, whose waiters are
    /// served over `channel`. Only `GET` requests are looked up.
    pub open spec fn after_request(self, is_get: bool, path: Seq<char>, channel: int) -> EdgeView {
        let m = MetricsView { inflight: wrap_i64(self.metrics.inflight + 1), ..self.metrics };
        if !is_get {
            EdgeView { metrics: m, ..self }
        } else if has_key(self.cache.entries, path) {
            EdgeView {
                metrics: MetricsView { hits: wrap_u64(m.hits + 1), ..m },
                cache: self.cache.after_get(path),
                ..self
            }
        } else if self.flights.contains_key(path) {
            EdgeView {
                metrics: MetricsView { coalesced: wrap_u64(m.coalesced + 1), ..m },
                ..self
            }
        } else {
            EdgeView {
                metrics: MetricsView {
                    misses: wrap_u64(m.misses + 1),
                    origin_fetches: wrap_u64(m.origin_fetches + 1),
                    ..m
                },
                flights: self.flights.insert(path, channel),
                ..self
            }
        }
    }

    /// The edge after a client request is over.
    pub open spec fn after_response(self) -> EdgeView {
        EdgeView {
            metrics: MetricsView {
                inflight: wrap_i64(self.metrics.inflight - 1),
                ..self.metrics
            },
            ..self
        }
    }

    /// The edge after `bytes` bytes were served, which took as long as given.
    pub open spec fn after_serving(self, bytes: nat, elapsed: Elapsed) -> EdgeView {
        EdgeView {
            metrics: MetricsView {
                bytes_served: wrap_u64(self.metrics.bytes_served + bytes),
                latencies: self.metrics.latencies.push(elapsed),
                ..self.metrics
            },
            ..self
        }
    }

    /// The edge after a request failed, which took as long as given.
    pub open spec fn after_failure(self, elapsed: Elapsed) -> EdgeView {
        EdgeView {
            metrics: MetricsView {
                latencies: self.metrics.latencies.push(elapsed),
                ..self.metrics
            },
            ..self
        }
    }

    /// The edge after the fetch that a request leads is over; a request that leads none changes
    /// nothing.
    pub open spec fn after_fetch(self, guard: Option<GuardView>) -> EdgeView {
        match guard {
            Some(g) => EdgeView {
                flights: flight_step(self.flights, FlightEvent::Complete { key: g.key }),
                ..self
            },
            None => self,
        }
    }

    /// The edge after an object was offered to its cache, for which `n` entries were evicted.
    pub open spec fn after_storing(self, key: Seq<char>, obj: ObjectView, n: int) -> EdgeView {
        let cache = if self.cache.storable(obj) {
            self.cache.after_insert(key, obj, n)
        } else {
            self.cache
        };
        EdgeView {
            metrics: MetricsView {
                evictions: wrap_u64(self.metrics.evictions + n),
                cache_bytes: wrap_i64(total(cache.entries) as int),
                ..self.metrics
            },
            cache,
            ..self
        }
    }
}

/// What a request has to do.
pub enum Route {
    /// Ask the origin, and hand its answer through.
    Uncached,
    /// Serve this object.
    Hit(CachedObject),
    /// Wait for the outcome of the fetch of another request.
    Wait(broadcast::Receiver<FetchOutcome>),
    /// Fetch from the origin, for this request and for those that will wait for it.
    Lead(LeaderGuard),
}

impl Route {
    /// Whether this is what a request has to do at the given edge.
    pub open spec fn is_due(&self, edge: EdgeView, is_get: bool, path: Seq<char>) -> bool {
        match self {
            Route::Uncached => !is_get,
            Route::Hit(obj) => is_get && lookup(edge.cache.entries, path) == Some(obj@),
            Route::Wait(rx) => {
                &&& is_get
                &&& !has_key(edge.cache.entries, path)
                &&& edge.flights.contains_key(path)
                &&& edge.flights[path] == receiver_channel(*rx)
            },
            Route::Lead(guard) => {
                &&& is_get
                &&& !has_key(edge.cache.entries, path)
                &&& !edge.flights.contains_key(path)
                &&& guard@.key == path
                &&& !guard@.completed
                &&& guard@.sent == Seq::<OutcomeView>::empty()
                &&& is_new_channel(edge.flights, guard@.channel)
            },
        }
    }

    /// The channel over which the waiters of the request are served, if it leads a fetch.
    pub open spec fn channel(&self) -> int {
        match self {
            Route::Lead(guard) => guard@.channel,
            _ => 0,
        }
    }
}

/// A response that needs no origin.
pub struct CachedReply {
    pub status: u16,
    pub content_type: String,
    pub body: bytes::Bytes,
    /// The bytes to charge for, if any were served.
    pub charge: Option<u64>,
}

/// The bytes to charge for.
pub open spec fn charged(bytes: nat) -> Option<nat> {
    if bytes > 0 {
        Some(bytes)
    } else {
        None
    }
}

/// Whether some bytes to charge for are the given ones.
pub open spec fn is_charge(charge: Option<u64>, expected: Option<nat>) -> bool {
    match (charge, expected) {
        (Some(n), Some(m)) => n == m,
        (None, None) => true,
        _ => false,
    }
}

impl CachedReply {
    /// Whether this is the response that hands out an object.
    pub open spec fn hands_out(&self, obj: ObjectView) -> bool {
        &&& self.status == obj.status
        &&& self.content_type@ == "application/octet-stream"@
        &&& crate::cache::content(self.body) == obj.body
        &&& is_charge(self.charge, charged(obj.body.len()))
    }
}

/// The status of a request for which the origin gave nothing.
pub const BAD_GATEWAY: u16 = 502;

/// An edge node.
pub struct EdgeState {
    config: EdgeConfig,
    metrics: EdgeMetrics,
    cache: ByteLru,
    singleflight: SingleFlight,
}

impl View for EdgeState {
    type V = EdgeView;

    closed spec fn view(&self) -> EdgeView {
        EdgeView {
            metrics: self.metrics@,
            cache: self.cache@,
            flights: self.singleflight@,
        }
    }
}

impl EdgeState {
    /// Whether the edge is in order.
    pub closed spec fn wf(&self) -> bool {
        self.metrics.wf() && self.cache.wf() && channels_differ(self.singleflight@)
    }

    /// How the edge is configured.
    pub closed spec fn settings(&self) -> EdgeConfig {
        self.config
    }

    /// The counter of synthetic cost.
    pub closed spec fn cost(&self) -> CostCounter {
        self.metrics.cost()
    }

    /// The cell that the page of metrics reads for a metric.
    pub closed spec fn cell_on_page(&self, name: Seq<char>) -> int {
        self.metrics.cell_on_page(name)
    }

    /// Whether the configuration and the counter of cost are as they were before.
    pub open spec fn same_setup(&self, before: EdgeState) -> bool {
        self.settings() == before.settings() && self.cost() == before.cost()
    }

    /// What holds of every edge: its cache is valid, and the keys that are being fetched have
    /// channels of their own.
    pub proof fn lemma_valid(&self)
        requires
            self.wf(),
        ensures
            self@.cache.valid(),
            channels_differ(self@.flights),
    {
        self.cache.lemma_valid();
    }

    /// An edge that has served nothing.
    pub fn new(config: EdgeConfig) -> (r: EdgeState)
        ensures
            r.wf(),
            r.settings() == config,
            r@ == (EdgeView {
                metrics: no_traffic(),
                cache: LruView {
                    entries: Seq::empty(),
                    max_bytes: if config.cache_max_bytes == 0 {
                        1
                    } else {
                        config.cache_max_bytes
                    },
                    max_object_bytes: if config.cache_max_object_bytes == 0 {
                        1
                    } else {
                        config.cache_max_object_bytes
                    },
                },
                flights: Map::empty(),
            }),
    {
        let cache = ByteLru::new(config.cache_max_bytes, config.cache_max_object_bytes);
        EdgeState {
            config,
            metrics: EdgeMetrics::new(),
            cache,
            singleflight: SingleFlight::new(),
        }
    }

    /// A client request comes in.
    pub fn request(&mut self, is_get: bool, path: &str) -> (r: Route)
        requires
            old(self).wf(),
        ensures
            final(self).wf(),
            final(self).same_setup(*old(self)),
            r.is_due(old(self)@, is_get, path@),
            final(self)@ == old(self)@.after_request(is_get, path@, r.channel()),
    {
        self.metrics.inc_inflight();
        if !is_get {
            return Route::Uncached;
        }
        if let Some(obj) = self.cache.get(path) {
            self.metrics.hit();
            return Route::Hit(obj);
        }
        match self.singleflight.join(path) {
            Flight::Waiter(rx) => {
                self.metrics.coalesced();
                Route::Wait(rx)
            },
            Flight::Leader(guard) => {
                self.metrics.miss();
                self.metrics.origin_fetch();
                Route::Lead(guard)
            },
        }
    }

    /// A client request is over.
    pub fn response_done(&mut self)
        requires
            old(self).wf(),
        ensures
            final(self).wf(),
            final(self).same_setup(*old(self)),
            final(self)@ == old(self)@.after_response(),
    {
        self.metrics.dec_inflight();
    }

    /// The response to a request for an object that is at hand.
    pub fn cached_response(&mut self, obj: CachedObject, elapsed: Elapsed) -> (r: CachedReply)
        requires
            old(self).wf(),
            elapsed.1 < 1_000_000_000,
        ensures
            final(self).wf(),
            final(self).same_setup(*old(self)),
            r.hands_out(obj@),
            r.status == obj.status,
            crate::cache::content(r.body) == crate::cache::content(obj.body),
            final(self)@ == old(self)@.after_serving(obj@.body.len(), elapsed),
    {
        let bytes: u64 = obj.len();
        let charge = if self.metrics.add_bytes(bytes) {
            Some(bytes)
        } else {
            None
        };
        self.metrics.observe_latency(elapsed.0, elapsed.1);
        CachedReply {
            status: obj.status,
            content_type: "application/octet-stream".to_owned(),
            body: obj.body,
            charge,
        }
    }

    /// The response to a request that waited for the fetch of another one, given the outcome of
    /// that fetch, if one came. Without an object the request fails.
    pub fn waiter_response(&mut self, outcome: Option<FetchOutcome>, elapsed: Elapsed) -> (r:
        Result<CachedReply, u16>)
        requires
            old(self).wf(),
            elapsed.1 < 1_000_000_000,
        ensures
            final(self).wf(),
            final(self).same_setup(*old(self)),
            match outcome {
                Some(FetchOutcome::Object(obj)) => {
                    &&& r matches Ok(reply) && reply.hands_out(obj@) && reply.status == obj.status
                        && crate::cache::content(reply.body) == crate::cache::content(obj.body)
                    &&& final(self)@ == old(self)@.after_serving(obj@.body.len(), elapsed)
                },
                _ => {
                    &&& r matches Err(status) && status == BAD_GATEWAY
                    &&& final(self)@ == old(self)@.after_failure(elapsed)
                },
            },
    {
        match outcome {
            Some(FetchOutcome::Object(obj)) => Ok(self.cached_response(obj, elapsed)),
            _ => {
                self.metrics.observe_latency(elapsed.0, elapsed.1);
                Err(BAD_GATEWAY)
            },
        }
    }

    /// The origin did not answer a request that leads no fetch.
    pub fn origin_unreachable(&mut self, elapsed: Elapsed) -> (status: u16)
        requires
            old(self).wf(),
            elapsed.1 < 1_000_000_000,
        ensures
            final(self).wf(),
            final(self).same_setup(*old(self)),
            status == BAD_GATEWAY,
            final(self)@ == old(self)@.after_failure(elapsed),
    {
        self.metrics.observe_latency(elapsed.0, elapsed.1);
        BAD_GATEWAY
    }

    /// The origin did not answer a request that leads a fetch: its waiters get an error.
    pub fn fetch_failed(&mut self, guard: &mut LeaderGuard, elapsed: Elapsed) -> (status: u16)
        requires
            old(self).wf(),
            !old(guard)@.completed,
            elapsed.1 < 1_000_000_000,
        ensures
            final(self).wf(),
            final(self).same_setup(*old(self)),
            status == BAD_GATEWAY,
            final(guard)@ == old(guard)@.after_complete(OutcomeView::Error),
            final(self)@ == old(self)@.after_fetch(Some(old(guard)@)).after_failure(elapsed),
    {
        guard.complete(&mut self.singleflight, FetchOutcome::Error);
        self.metrics.observe_latency(elapsed.0, elapsed.1);
        BAD_GATEWAY
    }

    /// A request that leads a fetch was given up: its waiters get an error, unless the fetch was
    /// over already.
    pub fn abandon(&mut self, guard: &mut LeaderGuard)
        requires
            old(self).wf(),
        ensures
            final(self).wf(),
            final(self).same_setup(*old(self)),
            old(guard)@.completed ==> final(guard)@ == old(guard)@ && final(self)@ == old(self)@,
            !old(guard)@.completed ==> final(guard)@ == old(guard)@.after_complete(
                OutcomeView::Error,
            ) && final(self)@ == old(self)@.after_fetch(Some(old(guard)@)),
    {
        guard.abandon(&mut self.singleflight);
    }

    /// The metrics page: the metrics, with the size that the cache has now.
    pub fn metrics_page(&mut self) -> (text: String)
        requires
            old(self).wf(),
        ensures
            final(self).wf(),
            final(self).same_setup(*old(self)),
            final(self)@ == (EdgeView {
                metrics: MetricsView {
                    cache_bytes: wrap_i64(total(old(self)@.cache.entries) as int),
                    ..old(self)@.metrics
                },
                ..old(self)@
            }),
            shows_metrics(text@, final(self)@.metrics),
    {
        let bytes: u64 = self.cache.bytes();
        self.metrics.set_cache_bytes(bytes);
        self.metrics.render()
    }

    /// What the edge tells of itself.
    pub fn snapshot(&self) -> (r: HealthSnapshot)
        requires
            self.wf(),
        ensures
            tells_of(r, self.settings(), self@.metrics, self@.cache),
    {
        snapshot_from_metrics(&self.config, &self.metrics, &self.cache)
    }

    /// How the edge is configured.
    pub fn config(&self) -> (r: &EdgeConfig)
        ensures
            *r == self.settings(),
    {
        &self.config
    }

    /// The counter of synthetic cost, which is the one that the page of metrics reads.
    pub fn cost_units(&self) -> (r: &CostCounter)
        requires
            self.wf(),
        ensures
            *r == self.cost(),
            cost_cell(*r) == self.cell_on_page("edge_cost_units_total"@),
    {
        self.metrics.cost_units()
    }
}

// ---------------------------------------------------------------------------
// Handing an answer of the origin through
// ---------------------------------------------------------------------------
/// An answer of the origin on its way to the client.
pub struct TeeView {
    pub status: u16,
    /// The bytes that were handed through.
    pub bytes: u64,
    /// The body so far.
    pub body: Seq<u8>,
    pub finished: bool,
    pub max_object: u64,
    /// The key to cache the answer under, if it may be cached.
    pub cache_key: Option<Seq<char>>,
    /// The fetch that the answer ends, if there is one.
    pub guard: Option<GuardView>,
}

impl TeeView {
    /// What came of the fetch if the answer ends here.
    pub open spec fn outcome(self, error: bool) -> OutcomeView {
        if error {
            OutcomeView::Error
        } else {
            OutcomeView::Object(ObjectView { status: self.status, body: self.body })
        }
    }

    /// Whether the answer is offered to the cache if it ends here: it is whole, it has a key, a
    /// success status, and it is not too large.
    pub open spec fn offered(self, error: bool) -> bool {
        &&& !error
        &&& self.cache_key is Some
        &&& status_cacheable(self.status)
        &&& self.body.len() <= self.max_object
    }

    /// The answer after a further piece of its body.
    pub open spec fn after_chunk(self, chunk: Seq<u8>) -> TeeView {
        TeeView { bytes: (self.bytes + chunk.len()) as u64, body: self.body + chunk, ..self }
    }

    /// The answer after its end. What was a whole answer is in the cache and with the waiters.
    pub open spec fn after_finish(self, error: bool) -> TeeView {
        if self.finished {
            self
        } else {
            let guard = match self.guard {
                Some(g) => Some(g.after_complete(self.outcome(error))),
                None => None,
            };
            TeeView {
                finished: true,
                body: if error {
                    self.body
                } else {
                    Seq::empty()
                },
                cache_key: if error {
                    self.cache_key
                } else {
                    None
                },
                guard,
                ..self
            }
        }
    }
}

impl EdgeView {
    /// The edge after an answer of the origin ended, for which `n` entries were evicted. An
    /// answer ends once.
    pub open spec fn after_finish(self, tee: TeeView, error: bool, elapsed: Elapsed, n: int) ->
        EdgeView {
        if tee.finished {
            self
        } else {
            let served = self.after_serving(tee.bytes as nat, elapsed);
            let stored = if tee.offered(error) {
                served.after_storing(
                    tee.cache_key->0,
                    ObjectView { status: tee.status, body: tee.body },
                    n,
                )
            } else {
                served
            };
            stored.after_fetch(tee.guard)
        }
    }

    /// Whether `n` is the number of entries that are evicted when an answer of the origin ends.
    pub open spec fn finish_evictions(self, tee: TeeView, error: bool, n: int) -> bool {
        let obj = ObjectView { status: tee.status, body: tee.body };
        if !tee.finished && tee.offered(error) && self.cache.storable(obj) {
            self.cache.evictions(tee.cache_key->0, obj, n)
        } else {
            n == 0
        }
    }
}

/// What the origin gives when it is asked for more of an answer.
pub enum PollView {
    Pending,
    Chunk(Seq<u8>),
    Failed,
    Ended,
}

impl TeeView {
    /// The answer after the origin was asked for more of it.
    pub open spec fn after_poll(self, polled: PollView) -> TeeView {
        match polled {
            PollView::Pending => self,
            PollView::Chunk(chunk) => self.after_chunk(chunk),
            PollView::Failed => self.after_finish(true),
            PollView::Ended => self.after_finish(false),
        }
    }

    /// The bytes to charge for after the origin was asked for more: those of the whole answer, when
    /// it ends.
    pub open spec fn charge_due(self, polled: PollView) -> Option<nat> {
        if !self.finished && (polled is Failed || polled is Ended) {
            charged(self.bytes as nat)
        } else {
            None
        }
    }
}

impl EdgeView {
    /// The edge after the origin was asked for more of an answer, for which `n` entries were
    /// evicted. Nothing changes before the answer ends.
    pub open spec fn after_poll(
        self,
        tee: TeeView,
        polled: PollView,
        elapsed: Elapsed,
        n: int,
    ) -> EdgeView {
        match polled {
            PollView::Failed => self.after_finish(tee, true, elapsed, n),
            PollView::Ended => self.after_finish(tee, false, elapsed, n),
            _ => self,
        }
    }

    /// Whether `n` is the number of entries that are evicted when the origin was asked for more of
    /// an answer.
    pub open spec fn poll_evictions(self, tee: TeeView, polled: PollView, n: int) -> bool {
        match polled {
            PollView::Failed => self.finish_evictions(tee, true, n),
            PollView::Ended => self.finish_evictions(tee, false, n),
            _ => n == 0,
        }
    }
}

/// What the origin gives when it is asked for more of an answer.
pub enum Polled {
    /// Nothing yet.
    Pending,
    /// A further piece.
    Chunk(bytes::Bytes),
    /// An error.
    Failed,
    /// The end.
    Ended,
}

impl View for Polled {
    type V = PollView;

    open spec fn view(&self) -> PollView {
        match self {
            Polled::Pending => PollView::Pending,
            Polled::Chunk(chunk) => PollView::Chunk(crate::cache::content(*chunk)),
            Polled::Failed => PollView::Failed,
            Polled::Ended => PollView::Ended,
        }
    }
}

/// An answer of the origin on its way to the client, which is kept for the cache and for those
/// who wait for it.
pub struct TeeStream {
    bytes: u64,
    finished: bool,
    status: u16,
    buf: Vec<u8>,
    max_object: u64,
    cache_key: Option<String>,
    guard: Option<LeaderGuard>,
}

impl View for TeeStream {
    type V = TeeView;

    closed spec fn view(&self) -> TeeView {
        TeeView {
            status: self.status,
            bytes: self.bytes,
            body: self.buf@,
            finished: self.finished,
            max_object: self.max_object,
            cache_key: match self.cache_key {
                Some(key) => Some(key@),
                None => None,
            },
            guard: match self.guard {
                Some(guard) => Some(guard@),
                None => None,
            },
        }
    }
}

impl TeeView {
    /// Whether the answer is in order: every byte of its body was handed through, and the fetch
    /// that it ends is under way as long as it is.
    pub open spec fn valid(self) -> bool {
        &&& self.body.len() <= self.bytes
        &&& self.guard matches Some(g) ==> g.completed == self.finished
    }
}

impl TeeStream {
    /// The answer to a request that leads no fetch.
    pub fn uncached(edge: &EdgeState, status: u16) -> (r: Self)
        ensures
            r@ == (TeeView {
                status,
                bytes: 0,
                body: Seq::empty(),
                finished: false,
                max_object: edge@.cache.max_object_bytes,
                cache_key: None,
                guard: None,
            }),
            r@.valid(),
    {
        TeeStream {
            bytes: 0,
            finished: false,
            status,
            buf: Vec::new(),
            max_object: edge.cache.max_object_bytes(),
            cache_key: None,
            guard: None,
        }
    }

    /// The answer to a request that leads the fetch of a key.
    pub fn leading(edge: &EdgeState, status: u16, key: String, guard: LeaderGuard) -> (r: Self)
        requires
            !guard@.completed,
        ensures
            r@ == (TeeView {
                status,
                bytes: 0,
                body: Seq::empty(),
                finished: false,
                max_object: edge@.cache.max_object_bytes,
                cache_key: Some(key@),
                guard: Some(guard@),
            }),
            r@.valid(),
    {
        TeeStream {
            bytes: 0,
            finished: false,
            status,
            buf: Vec::new(),
            max_object: edge.cache.max_object_bytes(),
            cache_key: Some(key),
            guard: Some(guard),
        }
    }

    /// A further piece of the body comes from the origin.
    pub fn push_chunk(&mut self, chunk: &[u8])
        requires
            old(self)@.valid(),
            old(self)@.bytes + chunk@.len() <= isize::MAX,
        ensures
            final(self)@ == old(self)@.after_chunk(chunk@),
            final(self)@.valid(),
    {
        self.bytes += chunk.len() as u64;
        self.buf.extend_from_slice(chunk);
        assert(self.buf@ =~= old(self)@.body + chunk@);
    }

    /// The bytes that were handed through.
    pub fn bytes(&self) -> (n: u64)
        ensures
            n == self@.bytes,
    {
        self.bytes
    }

    /// The answer ends, with or without an error. A whole answer is offered to the cache, and
    /// whoever waits for it gets it; after an error they get an error. An answer ends once: what
    /// comes later changes nothing. The result is the number of bytes to charge for, if any.
    pub fn finish(&mut self, edge: &mut EdgeState, error: bool, elapsed: Elapsed) -> (charge:
        Option<u64>)
        requires
            old(edge).wf(),
            old(self)@.valid(),
            elapsed.1 < 1_000_000_000,
        ensures
            final(edge).wf(),
            final(edge).same_setup(*old(edge)),
            final(self)@.valid(),
            final(self)@ == old(self)@.after_finish(error),
            exists|n: int| #[trigger]
                old(edge)@.finish_evictions(old(self)@, error, n) && final(edge)@ == old(
                    edge,
                )@.after_finish(old(self)@, error, elapsed, n),
            old(self)@.finished ==> charge is None,
            !old(self)@.finished ==> is_charge(charge, charged(old(self)@.bytes as nat)),
            !old(self)@.finished && !error ==> (old(self)@.cache_key matches Some(key) ==> (200
                <= old(self)@.status && old(self)@.status <= 299 && old(self)@.body.len() <= old(
                self,
            )@.max_object && old(self)@.body.len() <= old(edge)@.cache.max_object_bytes && old(
                self,
            )@.body.len() <= old(edge)@.cache.max_bytes ==> lookup(
                final(edge)@.cache.entries,
                key,
            ) == Some((ObjectView { status: old(self)@.status, body: old(self)@.body })))),
    {
        if self.finished {
            assert(old(edge)@.finish_evictions(old(self)@, error, 0));
            return None;
        }
        self.finished = true;
        let charge = if edge.metrics.add_bytes(self.bytes) {
            Some(self.bytes)
        } else {
            None
        };
        edge.metrics.observe_latency(elapsed.0, elapsed.1);
        let ghost mut evicted: int = 0;
        let outcome = if error {
            FetchOutcome::Error
        } else {
            let mut body: Vec<u8> = Vec::new();
            std::mem::swap(&mut body, &mut self.buf);
            let obj = CachedObject { status: self.status, body: bytes_from(body) };
            if let Some(key) = self.cache_key.take() {
                if obj.cacheable() && obj.len() <= self.max_object {
                    let n: u64 = edge.cache.insert(key, obj.clone());
                    edge.metrics.add_evictions(n);
                    let bytes: u64 = edge.cache.bytes();
                    edge.metrics.set_cache_bytes(bytes);
                    proof {
                        evicted = n as int;
                    }
                }
            }
            FetchOutcome::Object(obj)
        };
        if let Some(guard) = &mut self.guard {
            guard.complete(&mut edge.singleflight, outcome);
        }
        assert(old(edge)@.finish_evictions(old(self)@, error, evicted));
        proof {
            let tee = old(self)@;
            let before = old(edge)@;
            if !error && tee.offered(error) && before.cache.storable(
                ObjectView { status: tee.status, body: tee.body },
            ) {
                old(edge).lemma_valid();
                law_whole_success_is_cached(before, tee, tee.cache_key->0, elapsed, evicted);
            }
        }
        charge
    }

    /// The origin was asked for more of the answer. What it gave goes to the client as it is. The
    /// second result is the number of bytes to charge for, if any.
    pub fn poll_next(&mut self, edge: &mut EdgeState, polled: Polled, elapsed: Elapsed) -> (r: (
        Polled,
        Option<u64>,
    ))
        requires
            old(edge).wf(),
            old(self)@.valid(),
            elapsed.1 < 1_000_000_000,
            polled@ matches PollView::Chunk(chunk) ==> old(self)@.bytes + chunk.len() <= isize::MAX,
        ensures
            final(edge).wf(),
            final(edge).same_setup(*old(edge)),
            final(self)@.valid(),
            r.0@ == polled@,
            is_charge(r.1, old(self)@.charge_due(polled@)),
            final(self)@ == old(self)@.after_poll(polled@),
            exists|n: int| #[trigger]
                old(edge)@.poll_evictions(old(self)@, polled@, n) && final(edge)@ == old(
                    edge,
                )@.after_poll(old(self)@, polled@, elapsed, n),
    {
        match polled {
            Polled::Pending => {
                assert(old(edge)@.poll_evictions(old(self)@, PollView::Pending, 0));
                (Polled::Pending, None)
            },
            Polled::Chunk(chunk) => {
                self.push_chunk(bytes_slice(&chunk));
                assert(old(edge)@.poll_evictions(
                    old(self)@,
                    PollView::Chunk(crate::cache::content(chunk)),
                    0,
                ));
                (Polled::Chunk(chunk), None)
            },
            Polled::Failed => {
                let charge = self.finish(edge, true, elapsed);
                let ghost n = choose|n: int| #[trigger]
                    old(edge)@.finish_evictions(old(self)@, true, n) && final(edge)@ == old(
                        edge,
                    )@.after_finish(old(self)@, true, elapsed, n);
                assert(old(edge)@.poll_evictions(old(self)@, PollView::Failed, n));
                (Polled::Failed, charge)
            },
            Polled::Ended => {
                let charge = self.finish(edge, false, elapsed);
                let ghost n = choose|n: int| #[trigger]
                    old(edge)@.finish_evictions(old(self)@, false, n) && final(edge)@ == old(
                        edge,
                    )@.after_finish(old(self)@, false, elapsed, n);
                assert(old(edge)@.poll_evictions(old(self)@, PollView::Ended, n));
                (Polled::Ended, charge)
            },
        }
    }
}

} // verus!
