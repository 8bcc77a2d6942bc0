//! The control plane: which edges there are, and which of them should serve an object.
use vstd::prelude::*;

use crate::binary64::Double;
use crate::cache::{has_key, LruView};
use crate::edge::{tells_of, EdgeConfig, HealthSnapshot};
use crate::steering::{can_serve, choose_index, chosen, views, NodeSnapshot, NodeView};
use crate::steering_laws::{law_choice_exists, law_choice_is_a_heavy_viable_node};
use crate::telemetry::MetricsView;
use crate::text::{copied, same_text, strings};

verus! {

// ---------------------------------------------------------------------------
// Configuration and messages
// ---------------------------------------------------------------------------
/// The configuration of a control plane.
#[derive(Debug, Clone, Copy, PartialEq, Eq, Structural)]
pub struct ControlConfig {
    /// How many replicas a key has.
    pub replica_factor: usize,
    /// How long an edge counts as alive after it was heard of, in nanoseconds.
    pub stale_after: u128,
}

impl Default for ControlConfig {
    /// Two replicas of a key; an edge is dropped after three seconds of silence.
    fn default() -> (r: Self)
        ensures
            r.replica_factor == 2,
            r.stale_after == 3_000_000_000,
    {
        ControlConfig { replica_factor: 2, stale_after: 3_000_000_000 }
    }
}

/// What an edge reports.
#[derive(Debug)]
pub struct Heartbeat {
    pub node_id: String,
    pub addr: String,
    pub healthy: bool,
    pub inflight: u64,
    pub capacity: u64,
    pub cache_bytes: u64,
    pub hits: u64,
    pub misses: u64,
    pub bandwidth_price: Double,
    pub ewma_rtt_ms: Double,
    /// The keys of the objects that the edge holds.
    pub hot_keys: Vec<String>,
}

impl Clone for Heartbeat {
    fn clone(&self) -> (r: Self)
        ensures
            r.node_id == self.node_id,
            r.addr == self.addr,
            r.healthy == self.healthy,
            r.inflight == self.inflight,
            r.capacity == self.capacity,
            r.cache_bytes == self.cache_bytes,
            r.hits == self.hits,
            r.misses == self.misses,
            r.bandwidth_price == self.bandwidth_price,
            r.ewma_rtt_ms == self.ewma_rtt_ms,
            strings(r.hot_keys@) == strings(self.hot_keys@),
    {
        Heartbeat {
            node_id: self.node_id.clone(),
            addr: self.addr.clone(),
            healthy: self.healthy,
            inflight: self.inflight,
            capacity: self.capacity,
            cache_bytes: self.cache_bytes,
            hits: self.hits,
            misses: self.misses,
            bandwidth_price: self.bandwidth_price,
            ewma_rtt_ms: self.ewma_rtt_ms,
            hot_keys: copied(&self.hot_keys),
        }
    }
}

/// Where an object should be asked for.
#[derive(Debug)]
pub struct LocateResponse {
    pub node_id: String,
    pub addr: String,
    pub score: Double,
}

impl Clone for LocateResponse {
    fn clone(&self) -> (r: Self)
        ensures
            r == *self,
    {
        LocateResponse {
            node_id: self.node_id.clone(),
            addr: self.addr.clone(),
            score: self.score,
        }
    }
}

// ---------------------------------------------------------------------------
// The registry
// ---------------------------------------------------------------------------
/// The last that was heard of an edge.
pub struct RecordView {
    pub node: NodeView,
    pub hot_keys: Seq<Seq<char>>,
    /// When it was heard of, in nanoseconds.
    pub last_seen: u128,
}

/// What a report tells of an edge. Whether the edge has the object that will be asked for is not
/// known yet.
pub open spec fn reported(beat: Heartbeat, now: u128) -> RecordView {
    RecordView {
        node: NodeView {
            node_id: beat.node_id@,
            addr: beat.addr@,
            healthy: beat.healthy,
            inflight: beat.inflight,
            capacity: beat.capacity,
            cache_bytes: beat.cache_bytes,
            hits: beat.hits,
            misses: beat.misses,
            bandwidth_price: beat.bandwidth_price,
            ewma_rtt_ms: beat.ewma_rtt_ms,
            has_key: false,
        },
        hot_keys: strings(beat.hot_keys@),
        last_seen: now,
    }
}

impl RecordView {
    /// How long ago the edge was heard of.
    pub open spec fn age(self, now: u128) -> int {
        if now >= self.last_seen {
            now - self.last_seen
        } else {
            0
        }
    }

    /// Whether the edge counts as alive.
    pub open spec fn is_fresh(self, now: u128, stale_after: u128) -> bool {
        self.age(now) < stale_after
    }

    /// The edge, for one who asks for an object.
    pub open spec fn seen_for(self, key: Seq<char>) -> NodeView {
        NodeView { has_key: self.hot_keys.contains(key), ..self.node }
    }
}

/// The index of the edge of a name, if it is known.
pub open spec fn index_of_node(records: Seq<RecordView>, id: Seq<char>) -> Option<int> {
    if exists|i: int| 0 <= i < records.len() && (#[trigger] records[i]).node.node_id == id {
        Some(choose|i: int| 0 <= i < records.len() && (#[trigger] records[i]).node.node_id == id)
    } else {
        None
    }
}

/// No edge is listed twice.
pub open spec fn nodes_differ(records: Seq<RecordView>) -> bool {
    forall|i: int, j: int|
        0 <= i < j < records.len() ==> (#[trigger] records[i]).node.node_id != (
        #[trigger] records[j]).node.node_id
}

/// The registry after a report: it takes the place of the last one of the same edge.
pub open spec fn after_report(records: Seq<RecordView>, r: RecordView) -> Seq<RecordView> {
    match index_of_node(records, r.node.node_id) {
        Some(i) => records.update(i, r),
        None => records.push(r),
    }
}

/// The edges that count as alive.
pub open spec fn alive(records: Seq<RecordView>, now: u128, stale_after: u128) -> Seq<RecordView> {
    records.filter(|r: RecordView| r.is_fresh(now, stale_after))
}

/// The edges, for one who asks for an object.
pub open spec fn seen_for(records: Seq<RecordView>, key: Seq<char>) -> Seq<NodeView> {
    Seq::new(records.len(), |i: int| records[i].seen_for(key))
}

/// The last that was heard of an edge.
struct Record {
    snapshot: NodeSnapshot,
    hot_keys: Vec<String>,
    last_seen: u128,
}

impl View for Record {
    type V = RecordView;

    closed spec fn view(&self) -> RecordView {
        RecordView {
            node: self.snapshot@,
            hot_keys: strings(self.hot_keys@),
            last_seen: self.last_seen,
        }
    }
}

/// The edges that were heard of.
pub struct NodeRegistry {
    nodes: Vec<Record>,
}

impl View for NodeRegistry {
    type V = Seq<RecordView>;

    closed spec fn view(&self) -> Seq<RecordView> {
        Seq::new(self.nodes@.len(), |i: int| self.nodes@[i]@)
    }
}

impl NodeRegistry {
    /// A registry without edges.
    pub fn new() -> (r: Self)
        ensures
            r@ == Seq::<RecordView>::empty(),
            nodes_differ(r@),
    {
        let r = NodeRegistry { nodes: Vec::new() };
        assert(r@ == Seq::<RecordView>::empty());
        r
    }

    /// Takes a report in.
    pub fn heartbeat(&mut self, beat: Heartbeat, now: u128)
        requires
            nodes_differ(old(self)@),
        ensures
            final(self)@ == after_report(old(self)@, reported(beat, now)),
            nodes_differ(final(self)@),
    {
        let ghost before = self@;
        let ghost report = reported(beat, now);
        let rec = Record {
            snapshot: NodeSnapshot {
                node_id: beat.node_id,
                addr: beat.addr,
                healthy: beat.healthy,
                inflight: beat.inflight,
                capacity: beat.capacity,
                cache_bytes: beat.cache_bytes,
                hits: beat.hits,
                misses: beat.misses,
                bandwidth_price: beat.bandwidth_price,
                ewma_rtt_ms: beat.ewma_rtt_ms,
                has_key: false,
            },
            hot_keys: beat.hot_keys,
            last_seen: now,
        };
        assert(rec@ == report);
        let mut i: usize = 0;
        while i < self.nodes.len()
            invariant
                i <= self.nodes@.len(),
                before == self@,
                before == old(self)@,
                nodes_differ(before),
                rec@ == report,
                report == reported(beat, now),
                forall|j: int|
                    0 <= j < i ==> (#[trigger] before[j]).node.node_id != report.node.node_id,
            decreases self.nodes@.len() - i,
        {
            assert(before[i as int] == self.nodes@[i as int]@);
            if same_text(
                self.nodes[i].snapshot.node_id.as_str(),
                rec.snapshot.node_id.as_str(),
            ) {
                self.nodes.set(i, rec);
                proof {
                    lemma_index_of_node(before, i as int);
                    assert(self@ == before.update(i as int, report));
                    lemma_nodes_differ_after_report(before, report);
                }
                return;
            }
            i += 1;
        }
        self.nodes.push(rec);
        proof {
            assert(self@ == before.push(report));
            lemma_nodes_differ_after_report(before, report);
        }
    }

    /// The edges that count as alive, for one who asks for an object. The others are dropped.
    pub fn snapshots_for(&mut self, config: &ControlConfig, key: &str, now: u128) -> (r: Vec<
        NodeSnapshot,
    >)
        requires
            nodes_differ(old(self)@),
        ensures
            final(self)@ == alive(old(self)@, now, config.stale_after),
            nodes_differ(final(self)@),
            views(r@) == seen_for(final(self)@, key@),
    {
        self.drop_stale(config, now);
        let mut r: Vec<NodeSnapshot> = Vec::new();
        let mut i: usize = 0;
        while i < self.nodes.len()
            invariant
                i <= self.nodes@.len(),
                views(r@) == seen_for(self@, key@).take(i as int),
            decreases self.nodes@.len() - i,
        {
            let ghost before = r@;
            let mut snap = self.nodes[i].snapshot.clone();
            snap.has_key = holds(&self.nodes[i].hot_keys, key);
            r.push(snap);
            assert(snap@ == self@[i as int].seen_for(key@));
            assert(views(r@) == views(before).push(snap@));
            assert(views(r@) == seen_for(self@, key@).take(i + 1));
            i += 1;
        }
        assert(views(r@) == seen_for(self@, key@));
        r
    }

    fn drop_stale(&mut self, config: &ControlConfig, now: u128)
        requires
            nodes_differ(old(self)@),
        ensures
            final(self)@ == alive(old(self)@, now, config.stale_after),
            nodes_differ(final(self)@),
    {
        let ghost all = self@;
        let ghost mut p: int = 0;
        let mut i: usize = 0;
        proof {
            reveal(Seq::filter);
            assert(all.take(0) == Seq::<RecordView>::empty());
            assert(self@ == alive(all.take(0), now, config.stale_after) + all.skip(0));
        }
        while i < self.nodes.len()
            invariant
                0 <= p <= all.len(),
                i == alive(all.take(p), now, config.stale_after).len(),
                self@ == alive(all.take(p), now, config.stale_after) + all.skip(p),
            decreases self.nodes@.len() - i,
        {
            let ghost before = self@;
            let ghost kept = alive(all.take(p), now, config.stale_after);
            proof {
                reveal(Seq::filter);
                assert(before.len() == self.nodes@.len());
                assert(before[i as int] == all[p]);
                assert(before[i as int] == self.nodes@[i as int]@);
                assert(all.take(p + 1).drop_last() == all.take(p));
                assert(all.take(p + 1).last() == all[p]);
            }
            let last: u128 = self.nodes[i].last_seen;
            let age: u128 = if now >= last {
                now - last
            } else {
                0
            };
            if age < config.stale_after {
                i += 1;
                proof {
                    assert(alive(all.take(p + 1), now, config.stale_after) == kept.push(all[p]));
                    assert(self@ == kept.push(all[p]) + all.skip(p + 1));
                }
            } else {
                self.nodes.remove(i);
                proof {
                    assert(alive(all.take(p + 1), now, config.stale_after) == kept);
                    assert(self@ == before.remove(i as int));
                    assert(self@ == kept + all.skip(p + 1));
                }
            }
            proof {
                p = p + 1;
            }
        }
        proof {
            assert(self@.len() == self.nodes@.len());
            assert(all.skip(p).len() == 0);
            assert(all.take(p) == all);
            assert(self@ == alive(all, now, config.stale_after));
            lemma_alive(all, now, config.stale_after);
        }
    }
}

/// Whether a key is among some keys.
fn holds(keys: &Vec<String>, key: &str) -> (r: bool)
    ensures
        r == strings(keys@).contains(key@),
{
    let mut i: usize = 0;
    while i < keys.len()
        invariant
            i <= keys@.len(),
            forall|j: int| 0 <= j < i ==> #[trigger] strings(keys@)[j] != key@,
        decreases keys@.len() - i,
    {
        if same_text(keys[i].as_str(), key) {
            assert(strings(keys@)[i as int] == key@);
            return true;
        }
        i += 1;
    }
    false
}

/// The index of an edge is where it is listed.
proof fn lemma_index_of_node(records: Seq<RecordView>, i: int)
    requires
        nodes_differ(records),
        0 <= i < records.len(),
    ensures
        index_of_node(records, records[i].node.node_id) == Some(i),
{
    let id = records[i].node.node_id;
    let j = choose|j: int| 0 <= j < records.len() && (#[trigger] records[j]).node.node_id == id;
    assert(0 <= j < records.len() && records[j].node.node_id == id);
    if j < i {
        assert(records[j].node.node_id != records[i].node.node_id);
    } else if i < j {
        assert(records[i].node.node_id != records[j].node.node_id);
    }
}

proof fn lemma_nodes_differ_after_report(records: Seq<RecordView>, r: RecordView)
    requires
        nodes_differ(records),
    ensures
        nodes_differ(after_report(records, r)),
{
    let after = after_report(records, r);
    assert forall|i: int, j: int| 0 <= i < j < after.len() implies (
    #[trigger] after[i]).node.node_id != (#[trigger] after[j]).node.node_id by {
        if j < records.len() {
            assert(records[i].node.node_id != records[j].node.node_id);
        } else {
            assert(records[i].node.node_id != r.node.node_id);
        }
    }
}

/// Those who count as alive were listed, and are fresh; and whoever is listed and fresh counts.
proof fn lemma_alive(records: Seq<RecordView>, now: u128, stale_after: u128)
    requires
        nodes_differ(records),
    ensures
        nodes_differ(alive(records, now, stale_after)),
        forall|j: int|
            0 <= j < alive(records, now, stale_after).len() ==> (#[trigger] alive(
                records,
                now,
                stale_after,
            )[j]).is_fresh(now, stale_after) && records.contains(
                alive(records, now, stale_after)[j],
            ),
        forall|i: int|
            0 <= i < records.len() && (#[trigger] records[i]).is_fresh(now, stale_after)
                ==> alive(records, now, stale_after).contains(records[i]),
    decreases records.len(),
{
    reveal(Seq::filter);
    if records.len() > 0 {
        let front = records.drop_last();
        lemma_alive(front, now, stale_after);
        let a = alive(front, now, stale_after);
        let b = alive(records, now, stale_after);
        assert forall|j: int| 0 <= j < b.len() implies (#[trigger] b[j]).is_fresh(now, stale_after)
            && records.contains(b[j]) by {
            if j < a.len() {
                assert(b[j] == a[j]);
                let i = choose|i: int| 0 <= i < front.len() && front[i] == a[j];
                assert(records[i] == b[j]);
            } else {
                assert(records[records.len() - 1] == b[j]);
            }
        }
        assert forall|i: int|
            0 <= i < records.len() && (#[trigger] records[i]).is_fresh(
                now,
                stale_after,
            ) implies b.contains(records[i]) by {
            if i < front.len() {
                assert(front[i] == records[i]);
                let j = choose|j: int| 0 <= j < a.len() && a[j] == front[i];
                assert(b[j] == records[i]);
            } else {
                assert(b[b.len() - 1] == records[i]);
            }
        }
        assert forall|i: int, j: int| 0 <= i < j < b.len() implies (
        #[trigger] b[i]).node.node_id != (#[trigger] b[j]).node.node_id by {
            assert(a[i] == b[i]);
            if j < a.len() {
                assert(a[j] == b[j]);
            } else {
                let h = choose|h: int| 0 <= h < front.len() && front[h] == a[i];
                assert(records[h] == b[i]);
                assert(records[records.len() - 1] == b[j]);
            }
        }
    }
}

// ---------------------------------------------------------------------------
// Locating an object
// ---------------------------------------------------------------------------
/// What a request asks for: its key, else its path, else the host.
pub open spec fn asked_for(key: Option<Seq<char>>, path: Option<Seq<char>>) -> Seq<char> {
    match (key, path) {
        (Some(k), _) => k,
        (None, Some(p)) => p,
        (None, None) => "cdn.local"@,
    }
}

/// The text of a string that may be absent.
pub open spec fn text_of(s: Option<String>) -> Option<Seq<char>> {
    match s {
        Some(t) => Some(t@),
        None => None,
    }
}

/// What a request asks for: its key, else its path, else the host.
pub fn locate_target(key: Option<String>, path: Option<String>) -> (r: String)
    ensures
        r@ == asked_for(text_of(key), text_of(path)),
{
    match key {
        Some(k) => k,
        None => match path {
            Some(p) => p,
            None => "cdn.local".to_owned(),
        },
    }
}

/// Whether a response names the edge at an index, or there is neither.
pub open spec fn names_node(
    r: Option<LocateResponse>,
    nodes: Seq<NodeView>,
    scores: Seq<Double>,
    i: Option<int>,
) -> bool {
    match i {
        Some(k) => r matches Some(l) && l.node_id@ == nodes[k].node_id && l.addr@ == nodes[k].addr
            && l.score == scores[k],
        None => r is None,
    }
}

/// The edge to ask for an object, given the edges and their scores, if one can serve it.
pub fn locate_key(
    config: &ControlConfig,
    key: &str,
    nodes: &[NodeSnapshot],
    scores: &[Double],
) -> (r: Option<LocateResponse>)
    requires
        nodes@.len() == scores@.len(),
    ensures
        names_node(
            r,
            views(nodes@),
            scores@,
            chosen(key@, views(nodes@), scores@, config.replica_factor as int),
        ),
{
    match choose_index(key, nodes, scores, config.replica_factor) {
        Some(i) => Some(
            LocateResponse {
                node_id: nodes[i].node_id.clone(),
                addr: nodes[i].addr.clone(),
                score: scores[i],
            },
        ),
        None => None,
    }
}

/// The status of a request for an object that no edge can serve.
pub const SERVICE_UNAVAILABLE: u16 = 503;

/// How a request for the edge of an object is answered: with the edge, or, where none can serve
/// the object, with a failure.
pub fn locate_reply(found: Option<LocateResponse>) -> (r: Result<LocateResponse, u16>)
    ensures
        match found {
            Some(l) => r == Ok::<LocateResponse, u16>(l),
            None => r == Err::<LocateResponse, u16>(SERVICE_UNAVAILABLE),
        },
{
    match found {
        Some(l) => Ok(l),
        None => Err(SERVICE_UNAVAILABLE),
    }
}

// ---------------------------------------------------------------------------
// Laws
// ---------------------------------------------------------------------------
/// The edges among which an object is located.
pub open spec fn candidates(
    records: Seq<RecordView>,
    key: Seq<char>,
    now: u128,
    config: ControlConfig,
) -> Seq<NodeView> {
    seen_for(alive(records, now, config.stale_after), key)
}

/// An object is located exactly if some edge is alive and can serve it, and the edge that is
/// named is such an edge: when an edge dies its objects go to a live peer, and only where no peer
/// is left there is no answer.
pub proof fn law_objects_go_to_live_nodes(
    records: Seq<RecordView>,
    key: Seq<char>,
    scores: Seq<Double>,
    now: u128,
    config: ControlConfig,
)
    requires
        nodes_differ(records),
        scores.len() == candidates(records, key, now, config).len(),
    ensures
        ({
            let nodes = candidates(records, key, now, config);
            let c = chosen(key, nodes, scores, config.replica_factor as int);
            &&& c is Some <==> exists|h: int|
                0 <= h < records.len() && (#[trigger] records[h]).is_fresh(now, config.stale_after)
                    && can_serve(records[h].node)
            &&& c matches Some(i) ==> 0 <= i < nodes.len() && exists|h: int|
                0 <= h < records.len() && (#[trigger] records[h]).is_fresh(now, config.stale_after)
                    && can_serve(records[h].node) && records[h].seen_for(key) == nodes[i]
        }),
{
    let live = alive(records, now, config.stale_after);
    let nodes = candidates(records, key, now, config);
    let c = chosen(key, nodes, scores, config.replica_factor as int);
    lemma_alive(records, now, config.stale_after);
    law_choice_exists(key, nodes, scores, config.replica_factor as int);
    if exists|h: int|
        0 <= h < records.len() && (#[trigger] records[h]).is_fresh(now, config.stale_after)
            && can_serve(records[h].node) {
        let h = choose|h: int|
            0 <= h < records.len() && (#[trigger] records[h]).is_fresh(now, config.stale_after)
                && can_serve(records[h].node);
        let j = choose|j: int| 0 <= j < live.len() && live[j] == records[h];
        assert(can_serve(nodes[j]));
    }
    if let Some(i) = c {
        assert(nodes[i] == live[i].seen_for(key));
        assert(live[i].is_fresh(now, config.stale_after));
        let h = choose|h: int| 0 <= h < records.len() && records[h] == live[i];
        assert(records[h].is_fresh(now, config.stale_after));
        assert(can_serve(records[h].node));
    }
}

/// An edge that was not heard of for too long is not named.
pub proof fn law_silent_node_is_not_located(
    records: Seq<RecordView>,
    key: Seq<char>,
    scores: Seq<Double>,
    now: u128,
    config: ControlConfig,
    silent: int,
)
    requires
        nodes_differ(records),
        scores.len() == candidates(records, key, now, config).len(),
        0 <= silent < records.len(),
        !records[silent].is_fresh(now, config.stale_after),
    ensures
        ({
            let nodes = candidates(records, key, now, config);
            chosen(key, nodes, scores, config.replica_factor as int) matches Some(i)
                ==> nodes[i].node_id != records[silent].node.node_id
        }),
{
    law_objects_go_to_live_nodes(records, key, scores, now, config);
    let nodes = candidates(records, key, now, config);
    if let Some(i) = chosen(key, nodes, scores, config.replica_factor as int) {
        let h = choose|h: int|
            0 <= h < records.len() && (#[trigger] records[h]).is_fresh(now, config.stale_after)
                && can_serve(records[h].node) && records[h].seen_for(key) == nodes[i];
        if h < silent {
            assert(records[h].node.node_id != records[silent].node.node_id);
        } else {
            assert(records[silent].node.node_id != records[h].node.node_id);
        }
    }
}

/// Silence is final until the next report: an edge that is not alive does not come alive with
/// time.
pub proof fn law_silence_lasts(r: RecordView, now: u128, later: u128, stale_after: u128)
    requires
        now <= later,
        !r.is_fresh(now, stale_after),
    ensures
        !r.is_fresh(later, stale_after),
{
}

/// The last report counts: after a report the edge is listed with it, once, and the other edges
/// are listed as before.
pub proof fn law_last_report_counts(records: Seq<RecordView>, r: RecordView, other: Seq<char>)
    requires
        nodes_differ(records),
        other != r.node.node_id,
    ensures
        ({
            let after = after_report(records, r);
            &&& nodes_differ(after)
            &&& index_of_node(after, r.node.node_id) matches Some(i) && after[i] == r
            &&& match index_of_node(records, other) {
                Some(j) => index_of_node(after, other) == Some(j) && after[j] == records[j],
                None => index_of_node(after, other) is None,
            }
        }),
{
    let after = after_report(records, r);
    lemma_nodes_differ_after_report(records, r);
    match index_of_node(records, r.node.node_id) {
        Some(i) => {
            assert(0 <= i < records.len() && records[i].node.node_id == r.node.node_id);
            lemma_index_of_node(after, i);
        },
        None => {
            lemma_index_of_node(after, records.len() as int);
        },
    }
    match index_of_node(records, other) {
        Some(j) => {
            assert(0 <= j < records.len() && records[j].node.node_id == other);
            assert(after[j] == records[j]);
            lemma_index_of_node(after, j);
        },
        None => {
            if index_of_node(after, other) is Some {
                let j = choose|j: int|
                    0 <= j < after.len() && (#[trigger] after[j]).node.node_id == other;
                assert(after[j] == records[j]);
            }
        },
    }
}

/// An edge that has just reported is a candidate, as it reported itself, with the hint whether it
/// holds the object.
pub proof fn law_reporting_node_is_a_candidate(
    records: Seq<RecordView>,
    r: RecordView,
    key: Seq<char>,
    now: u128,
    config: ControlConfig,
)
    requires
        nodes_differ(records),
        r.is_fresh(now, config.stale_after),
    ensures
        candidates(after_report(records, r), key, now, config).contains(r.seen_for(key)),
        r.seen_for(key).has_key == r.hot_keys.contains(key),
{
    let after = after_report(records, r);
    assert(r.node.node_id.push('/').len() != r.node.node_id.len());
    law_last_report_counts(records, r, r.node.node_id.push('/'));
    let i = index_of_node(after, r.node.node_id)->0;
    assert(0 <= i < after.len() && after[i] == r);
    lemma_alive(after, now, config.stale_after);
    let live = alive(after, now, config.stale_after);
    let j = choose|j: int| 0 <= j < live.len() && live[j] == r;
    assert(seen_for(live, key)[j] == r.seen_for(key));
}

/// The hint is true when it is given: where an edge reports what it tells of itself, it counts as
/// holding an object exactly if the object is in its cache.
pub proof fn law_hint_tells_what_is_cached(
    told: HealthSnapshot,
    config: EdgeConfig,
    metrics: MetricsView,
    cache: LruView,
    beat: Heartbeat,
    key: Seq<char>,
    now: u128,
)
    requires
        tells_of(told, config, metrics, cache),
        strings(beat.hot_keys@) == strings(told.hot_keys@),
    ensures
        reported(beat, now).seen_for(key).has_key == has_key(cache.entries, key),
{
    let keys = strings(told.hot_keys@);
    if keys.contains(key) {
        let i = choose|i: int| 0 <= i < keys.len() && keys[i] == key;
        assert(told.hot_keys@[i]@ == cache.entries[i].0);
        assert(has_key(cache.entries, key));
    }
    if has_key(cache.entries, key) {
        let i = choose|i: int|
            0 <= i < cache.entries.len() && (#[trigger] cache.entries[i]).0 == key;
        assert(told.hot_keys@[i]@ == cache.entries[i].0);
        assert(keys[i] == key);
    }
}

/// The registry after some reports, each with the time at which it came.
pub open spec fn after_beats(records: Seq<RecordView>, beats: Seq<(Heartbeat, u128)>) -> Seq<
    RecordView,
>
    decreases beats.len(),
{
    if beats.len() == 0 {
        records
    } else {
        let (beat, at) = beats.last();
        after_report(after_beats(records, beats.drop_last()), reported(beat, at))
    }
}

/// Whether a candidate for an object has exactly the fields of a report.
pub open spec fn is_as_reported(node: NodeView, beat: Heartbeat, key: Seq<char>) -> bool {
    &&& node.node_id == beat.node_id@
    &&& node.addr == beat.addr@
    &&& node.healthy == beat.healthy
    &&& node.inflight == beat.inflight
    &&& node.capacity == beat.capacity
    &&& node.cache_bytes == beat.cache_bytes
    &&& node.hits == beat.hits
    &&& node.misses == beat.misses
    &&& node.bandwidth_price == beat.bandwidth_price
    &&& node.ewma_rtt_ms == beat.ewma_rtt_ms
    &&& node.has_key <==> exists|i: int|
        0 <= i < beat.hot_keys@.len() && (#[trigger] beat.hot_keys@[i])@ == key
}

proof fn lemma_report_stays(
    records: Seq<RecordView>,
    beat: Heartbeat,
    at: u128,
    later: Seq<(Heartbeat, u128)>,
)
    requires
        nodes_differ(records),
        forall|i: int|
            0 <= i < later.len() ==> (#[trigger] later[i]).0.node_id@ != beat.node_id@,
    ensures
        ({
            let after = after_beats(after_report(records, reported(beat, at)), later);
            &&& nodes_differ(after)
            &&& after.contains(reported(beat, at))
        }),
    decreases later.len(),
{
    let r = reported(beat, at);
    let first = after_report(records, r);
    if later.len() == 0 {
        assert(r.node.node_id.push('/').len() != r.node.node_id.len());
        law_last_report_counts(records, r, r.node.node_id.push('/'));
        let i = index_of_node(first, r.node.node_id)->0;
        assert(0 <= i < first.len() && first[i] == r);
    } else {
        let front = later.drop_last();
        assert forall|i: int| 0 <= i < front.len() implies (#[trigger] front[i]).0.node_id@
            != beat.node_id@ by {
            assert(front[i] == later[i]);
        }
        lemma_report_stays(records, beat, at, front);
        let before = after_beats(first, front);
        let (next, when) = later.last();
        assert(later[later.len() - 1] == (next, when));
        let j = choose|j: int| 0 <= j < before.len() && before[j] == r;
        lemma_index_of_node(before, j);
        law_last_report_counts(before, reported(next, when), beat.node_id@);
        let after = after_beats(first, later);
        assert(after[j] == r);
    }
}

/// An edge is a candidate exactly as it last reported itself: as long as it is not silent for too
/// long, whatever others report meanwhile, it is among the candidates once, with its health, load,
/// capacity, price, round trip and address as reported; and no candidate of its name is otherwise.
pub proof fn law_candidate_is_as_reported(
    records: Seq<RecordView>,
    beat: Heartbeat,
    at: u128,
    later: Seq<(Heartbeat, u128)>,
    key: Seq<char>,
    now: u128,
    config: ControlConfig,
)
    requires
        nodes_differ(records),
        forall|i: int|
            0 <= i < later.len() ==> (#[trigger] later[i]).0.node_id@ != beat.node_id@,
    ensures
        ({
            let nodes = candidates(
                after_beats(after_report(records, reported(beat, at)), later),
                key,
                now,
                config,
            );
            &&& config.stale_after > 0 && now < at + config.stale_after ==> exists|i: int|
                0 <= i < nodes.len() && is_as_reported(#[trigger] nodes[i], beat, key)
            &&& forall|i: int|
                0 <= i < nodes.len() && (#[trigger] nodes[i]).node_id == beat.node_id@
                    ==> is_as_reported(nodes[i], beat, key) && config.stale_after > 0 && now < at
                    + config.stale_after
            &&& forall|i: int, j: int|
                0 <= i < j < nodes.len() ==> (#[trigger] nodes[i]).node_id != (
                #[trigger] nodes[j]).node_id
        }),
{
    let r = reported(beat, at);
    let after = after_beats(after_report(records, r), later);
    lemma_report_stays(records, beat, at, later);
    lemma_alive(after, now, config.stale_after);
    let live = alive(after, now, config.stale_after);
    let nodes = candidates(after, key, now, config);
    let h = choose|h: int| 0 <= h < after.len() && after[h] == r;
    let keys = strings(beat.hot_keys@);
    assert(is_as_reported(r.seen_for(key), beat, key)) by {
        if keys.contains(key) {
            let i = choose|i: int| 0 <= i < keys.len() && keys[i] == key;
            assert(beat.hot_keys@[i]@ == key);
        }
        if exists|i: int| 0 <= i < beat.hot_keys@.len() && (#[trigger] beat.hot_keys@[i])@ == key {
            let i = choose|i: int|
                0 <= i < beat.hot_keys@.len() && (#[trigger] beat.hot_keys@[i])@ == key;
            assert(keys[i] == key);
        }
    }
    if config.stale_after > 0 && now < at + config.stale_after {
        assert(after[h].is_fresh(now, config.stale_after));
        let j = choose|j: int| 0 <= j < live.len() && live[j] == after[h];
        assert(is_as_reported(nodes[j], beat, key));
    }
    assert forall|i: int| 0 <= i < nodes.len() && (#[trigger] nodes[i]).node_id
        == beat.node_id@ implies is_as_reported(nodes[i], beat, key) && config.stale_after > 0
        && now < at + config.stale_after by {
        assert(live[i].is_fresh(now, config.stale_after));
        let g = choose|g: int| 0 <= g < after.len() && after[g] == live[i];
        if g < h {
            assert(after[g].node.node_id != after[h].node.node_id);
        } else if h < g {
            assert(after[h].node.node_id != after[g].node.node_id);
        }
        assert(nodes[i] == r.seen_for(key));
    }
    assert forall|i: int, j: int| 0 <= i < j < nodes.len() implies (#[trigger] nodes[i]).node_id
        != (#[trigger] nodes[j]).node_id by {
        assert(live[i].node.node_id != live[j].node.node_id);
    }
}

/// An edge that last reported itself unhealthy, or as busy as it can be, is never named, whatever
/// others report meanwhile and whatever its score. An edge that is named has the address that it
/// last reported, and was heard of not too long ago.
pub proof fn law_unfit_edge_is_not_located(
    records: Seq<RecordView>,
    beat: Heartbeat,
    at: u128,
    later: Seq<(Heartbeat, u128)>,
    key: Seq<char>,
    now: u128,
    config: ControlConfig,
    scores: Seq<Double>,
    found: Option<LocateResponse>,
)
    requires
        nodes_differ(records),
        forall|i: int|
            0 <= i < later.len() ==> (#[trigger] later[i]).0.node_id@ != beat.node_id@,
        ({
            let nodes = candidates(
                after_beats(after_report(records, reported(beat, at)), later),
                key,
                now,
                config,
            );
            names_node(
                found,
                nodes,
                scores,
                chosen(key, nodes, scores, config.replica_factor as int),
            )
        }),
    ensures
        !beat.healthy || beat.inflight >= beat.capacity ==> (found matches Some(l) ==> l.node_id@
            != beat.node_id@),
        now >= at + config.stale_after ==> (found matches Some(l) ==> l.node_id@
            != beat.node_id@),
        found matches Some(l) ==> (l.node_id@ == beat.node_id@ ==> l.addr@ == beat.addr@),
        beat.healthy && beat.inflight < beat.capacity && config.stale_after > 0 && now < at
            + config.stale_after ==> found is Some,
{
    law_candidate_is_as_reported(records, beat, at, later, key, now, config);
    let nodes = candidates(
        after_beats(after_report(records, reported(beat, at)), later),
        key,
        now,
        config,
    );
    law_choice_is_a_heavy_viable_node(key, nodes, scores, config.replica_factor as int);
    if let Some(k) = chosen(key, nodes, scores, config.replica_factor as int) {
        if nodes[k].node_id == beat.node_id@ {
            assert(is_as_reported(nodes[k], beat, key));
        }
    } else if config.stale_after > 0 && now < at + config.stale_after {
        let i = choose|i: int|
            0 <= i < nodes.len() && is_as_reported(#[trigger] nodes[i], beat, key);
        assert(nodes[i].healthy == beat.healthy);
    }
}

/// A record is what was reported, heard of when it was, and tells nothing of the object yet.
pub proof fn law_what_a_report_is(beat: Heartbeat, now: u128, i: int)
    ensures
        reported(beat, now).node.node_id == beat.node_id@,
        reported(beat, now).node.addr == beat.addr@,
        reported(beat, now).node.healthy == beat.healthy,
        reported(beat, now).node.inflight == beat.inflight,
        reported(beat, now).node.capacity == beat.capacity,
        reported(beat, now).node.cache_bytes == beat.cache_bytes,
        reported(beat, now).node.hits == beat.hits,
        reported(beat, now).node.misses == beat.misses,
        reported(beat, now).node.bandwidth_price == beat.bandwidth_price,
        reported(beat, now).node.ewma_rtt_ms == beat.ewma_rtt_ms,
        !reported(beat, now).node.has_key,
        reported(beat, now).last_seen == now,
        reported(beat, now).hot_keys.len() == beat.hot_keys@.len(),
        0 <= i < beat.hot_keys@.len() ==> reported(beat, now).hot_keys[i] == beat.hot_keys@[i]@,
{
}

/// An edge counts as alive as long as less than the time to be dropped has passed since it was last
/// heard of; a clock that goes back makes nobody older.
pub proof fn law_when_an_edge_is_alive(r: RecordView, now: u128, stale_after: u128)
    ensures
        r.is_fresh(now, stale_after) <==> stale_after > 0 && now < r.last_seen + stale_after,
        now >= r.last_seen ==> r.last_seen + r.age(now) == now,
        now < r.last_seen ==> r.age(now) == 0,
{
}

/// Whether an edge counts as alive is its own affair: those that do stay in their order, and what
/// becomes of some edges does not depend on the others.
pub proof fn law_edges_live_one_by_one(
    a: Seq<RecordView>,
    b: Seq<RecordView>,
    r: RecordView,
    now: u128,
    stale_after: u128,
)
    ensures
        alive(seq![r], now, stale_after) == (if stale_after > 0 && now < r.last_seen
            + stale_after {
            seq![r]
        } else {
            Seq::<RecordView>::empty()
        }),
        alive(Seq::<RecordView>::empty(), now, stale_after) == Seq::<RecordView>::empty(),
        alive(a + b, now, stale_after) == alive(a, now, stale_after) + alive(b, now, stale_after),
    decreases b.len(),
{
    reveal(Seq::filter);
    let none = Seq::<RecordView>::empty();
    assert(alive(none, now, stale_after) == none);
    assert(seq![r].drop_last() == none);
    assert(seq![r].last() == r);
    assert(none.push(r) == seq![r]);
    if b.len() == 0 {
        assert(a + b == a);
        assert(b == none);
        assert(alive(a, now, stale_after) + none == alive(a, now, stale_after));
    } else {
        let front = b.drop_last();
        law_edges_live_one_by_one(a, front, r, now, stale_after);
        assert((a + b).drop_last() == a + front);
        assert((a + b).last() == b.last());
        if b.last().is_fresh(now, stale_after) {
            assert((alive(a, now, stale_after) + alive(front, now, stale_after)).push(b.last())
                == alive(a, now, stale_after) + alive(front, now, stale_after).push(b.last()));
        }
    }
}

/// Who asks for an object sees the edges one for one, as they were reported, each with the hint
/// whether the object is among those that it reported.
pub proof fn law_what_is_seen_of_an_edge(records: Seq<RecordView>, key: Seq<char>, i: int)
    requires
        0 <= i < records.len(),
    ensures
        seen_for(records, key).len() == records.len(),
        seen_for(records, key)[i] == (NodeView {
            has_key: seen_for(records, key)[i].has_key,
            ..records[i].node
        }),
        seen_for(records, key)[i].has_key <==> exists|k: int|
            0 <= k < records[i].hot_keys.len() && #[trigger] records[i].hot_keys[k] == key,
{
}

/// A report takes the place of the last one of the same edge, where there is one, and stands at the
/// end where there is none; the other records keep their places.
pub proof fn law_where_a_report_stands(records: Seq<RecordView>, r: RecordView, i: int)
    requires
        nodes_differ(records),
        0 <= i < records.len(),
    ensures
        records[i].node.node_id == r.node.node_id ==> after_report(records, r) == records.update(
            i,
            r,
        ) && index_of_node(records, r.node.node_id) == Some(i),
        records[i].node.node_id != r.node.node_id ==> after_report(records, r)[i] == records[i],
        (forall|j: int| 0 <= j < records.len() ==> (#[trigger] records[j]).node.node_id
            != r.node.node_id) ==> after_report(records, r) == records.push(r),
{
    if records[i].node.node_id == r.node.node_id {
        lemma_index_of_node(records, i);
    }
}

/// The first report of all is the only one that is listed, and the edges of a registry differ
/// exactly if no name is listed twice.
pub proof fn law_what_a_registry_is(records: Seq<RecordView>, r: RecordView)
    ensures
        after_report(Seq::<RecordView>::empty(), r) == seq![r],
        nodes_differ(records) <==> forall|i: int, j: int|
            0 <= i < j < records.len() ==> (#[trigger] records[i]).node.node_id != (
            #[trigger] records[j]).node.node_id,
{
    assert(Seq::<RecordView>::empty().push(r) == seq![r]);
}

/// A request is for its key, if it has one, else for its path, if it has one, else for the host of
/// the network.
pub proof fn law_what_is_asked_for(key: String, path: Option<String>)
    ensures
        asked_for(text_of(Some(key)), text_of(path)) == key@,
        path matches Some(p) ==> asked_for(text_of(None), text_of(path)) == p@,
        path is None ==> asked_for(text_of(None), text_of(path)) == "cdn.local"@,
{
}

/// An answer names the edge that was chosen, with its address and its score, and nothing where none
/// was; then the service is unavailable.
pub proof fn law_what_an_answer_names(
    found: Option<LocateResponse>,
    nodes: Seq<NodeView>,
    scores: Seq<Double>,
    i: Option<int>,
)
    requires
        names_node(found, nodes, scores, i),
    ensures
        found is Some <==> i is Some,
        i matches Some(k) ==> (found matches Some(l) && l.node_id@ == nodes[k].node_id && l.addr@
            == nodes[k].addr && l.score == scores[k]),
        SERVICE_UNAVAILABLE == 503,
{
}

} // verus!
