//! What holds of an edge over several requests.
use vstd::prelude::*;

use crate::cache::{
    are_the_others, content, has_key, law_get_keeps_objects, law_insert_keeps_limits,
    law_insert_then_get, law_storing_evicts_as_few_as_it_must, lookup, status_cacheable, total,
    CachedObject, Entry, LruView, ObjectView,
};
use crate::edge::{
    charged, handed_on, headers_handed_on, hop_by_hop, is_charge, target, tells_of, CachedReply,
    EdgeConfig, EdgeView, Elapsed, HeaderView, HealthSnapshot, PollView, Polled, Route, TeeView,
    BAD_GATEWAY,
};
use crate::origin::OriginView;
use crate::singleflight::{
    channels_differ, is_new_channel, receiver_channel, GuardView, OutcomeView,
};
use crate::telemetry::{wrap_i64, wrap_u64, MetricsView};
use crate::text::lowered;

verus! {

/// What was fetched is served from memory: once a whole answer that the cache can hold has
/// ended, the next request for its key is a hit, finds the body as the origin sent it, and asks
/// the origin for nothing.
pub proof fn law_fetched_object_is_a_hit(
    edge: EdgeView,
    tee: TeeView,
    key: Seq<char>,
    elapsed: Elapsed,
    n: int,
    channel: int,
)
    requires
        edge.cache.valid(),
        !tee.finished,
        tee.cache_key == Some(key),
        tee.offered(false),
        edge.cache.storable((ObjectView { status: tee.status, body: tee.body })),
        edge.finish_evictions(tee, false, n),
    ensures
        ({
            let after = edge.after_finish(tee, false, elapsed, n);
            let next = after.after_request(true, key, channel);
            &&& lookup(after.cache.entries, key) == Some(
                (ObjectView { status: tee.status, body: tee.body }),
            )
            &&& next.metrics.hits == wrap_u64(after.metrics.hits + 1)
            &&& next.metrics.misses == after.metrics.misses
            &&& next.metrics.origin_fetches == after.metrics.origin_fetches
            &&& next.flights == after.flights
        }),
{
    law_insert_then_get(
        edge.cache,
        key,
        ObjectView { status: tee.status, body: tee.body },
        n,
    );
}

/// Only whole successes are cached: an answer that broke off, has no success status or is too
/// large, or answers a request that is not looked up, leaves the cache as it is.
pub proof fn law_only_successes_are_cached(
    edge: EdgeView,
    tee: TeeView,
    error: bool,
    elapsed: Elapsed,
    n: int,
)
    requires
        error || !status_cacheable(tee.status) || tee.body.len() > tee.max_object || tee.cache_key
            is None,
    ensures
        edge.after_finish(tee, error, elapsed, n).cache == edge.cache,
{
}

/// The cache stays within its limits, whatever requests come and however answers end.
pub proof fn law_cache_stays_valid(
    edge: EdgeView,
    is_get: bool,
    path: Seq<char>,
    channel: int,
    tee: TeeView,
    error: bool,
    elapsed: Elapsed,
    n: int,
)
    requires
        edge.cache.valid(),
        edge.finish_evictions(tee, error, n),
    ensures
        edge.after_request(is_get, path, channel).cache.valid(),
        edge.after_finish(tee, error, elapsed, n).cache.valid(),
{
    law_get_keeps_objects(edge.cache, path, path);
    let obj = ObjectView { status: tee.status, body: tee.body };
    if !tee.finished && tee.offered(error) && edge.cache.storable(obj) {
        let key = tee.cache_key->0;
        assert(key.push('/').len() != key.len());
        law_insert_keeps_limits(edge.cache, key, obj, n, key.push('/'));
    }
}

/// Nobody gets the answer of another path: paths that are being fetched have channels of their own,
/// whatever requests come and however fetches end, where a request that leads opens a new channel.
pub proof fn law_paths_have_channels_of_their_own(
    edge: EdgeView,
    is_get: bool,
    path: Seq<char>,
    channel: int,
    guard: Option<GuardView>,
    tee: TeeView,
    error: bool,
    elapsed: Elapsed,
    n: int,
)
    requires
        channels_differ(edge.flights),
        edge.flights.contains_key(path) || is_new_channel(edge.flights, channel),
    ensures
        channels_differ(edge.after_request(is_get, path, channel).flights),
        channels_differ(edge.after_fetch(guard).flights),
        channels_differ(edge.after_finish(tee, error, elapsed, n).flights),
{
}

/// A request is counted once: a `GET` as a hit, as coalesced, or as a miss together with an
/// origin fetch, and any other request as none of these.
pub proof fn law_request_is_counted_once(
    edge: EdgeView,
    is_get: bool,
    path: Seq<char>,
    channel: int,
)
    ensures
        ({
            let m = edge.metrics;
            let r = edge.after_request(is_get, path, channel).metrics;
            let hit: int = if is_get && has_key(edge.cache.entries, path) {
                1
            } else {
                0
            };
            let wait: int = if is_get && hit == 0 && edge.flights.contains_key(path) {
                1
            } else {
                0
            };
            let lead: int = if is_get {
                1 - hit - wait
            } else {
                0
            };
            &&& r.hits == wrap_u64(m.hits + hit)
            &&& r.coalesced == wrap_u64(m.coalesced + wait)
            &&& r.misses == wrap_u64(m.misses + lead)
            &&& r.origin_fetches == wrap_u64(m.origin_fetches + lead)
            &&& r.bytes_served == m.bytes_served
            &&& r.latencies == m.latencies
        }),
{
}

/// A request that is over leaves the number of requests under way as it was before it came.
pub proof fn law_requests_under_way_balance(
    edge: EdgeView,
    is_get: bool,
    path: Seq<char>,
    channel: int,
)
    ensures
        edge.after_request(is_get, path, channel).after_response().metrics.inflight
            == edge.metrics.inflight,
{
}

/// The edge after `n` requests for one path.
pub open spec fn after_requests(edge: EdgeView, path: Seq<char>, channel: int, n: nat) -> EdgeView
    decreases n,
{
    if n == 0 {
        edge
    } else {
        after_requests(edge, path, channel, (n - 1) as nat).after_request(true, path, channel)
    }
}

/// Wrapping around before one more is counted makes no difference.
proof fn lemma_wrap_step(v: int)
    ensures
        wrap_u64(wrap_u64(v) + 1) == wrap_u64(v + 1),
{
}

/// Concurrent requests for one path share one fetch: as long as it is under way, `n` requests for
/// a path that is neither cached nor being fetched ask the origin once, and all but the first are
/// coalesced.
pub proof fn law_concurrent_requests_share_a_fetch(
    edge: EdgeView,
    path: Seq<char>,
    channel: int,
    n: nat,
)
    requires
        !has_key(edge.cache.entries, path),
        !edge.flights.contains_key(path),
        n >= 1,
    ensures
        ({
            let after = after_requests(edge, path, channel, n);
            &&& after.metrics.origin_fetches == wrap_u64(edge.metrics.origin_fetches + 1)
            &&& after.metrics.misses == wrap_u64(edge.metrics.misses + 1)
            &&& after.metrics.coalesced == wrap_u64(edge.metrics.coalesced + n - 1)
            &&& after.metrics.hits == edge.metrics.hits
            &&& after.flights == edge.flights.insert(path, channel)
            &&& after.cache == edge.cache
        }),
    decreases n,
{
    if n > 1 {
        law_concurrent_requests_share_a_fetch(edge, path, channel, (n - 1) as nat);
        lemma_wrap_step(edge.metrics.coalesced + n - 2);
        let before = after_requests(edge, path, channel, (n - 1) as nat);
        assert(before.flights.contains_key(path));
        assert(after_requests(edge, path, channel, n) == before.after_request(true, path, channel));
    } else {
        assert(after_requests(edge, path, channel, 0) == edge);
        assert(after_requests(edge, path, channel, 1) == edge.after_request(true, path, channel));
    }
}

/// Once a fetch is over, however it ended, its key can be fetched again: a request that does not
/// find it cached leads.
pub proof fn law_key_can_be_fetched_again(
    edge: EdgeView,
    tee: TeeView,
    guard: GuardView,
    error: bool,
    elapsed: Elapsed,
    n: int,
)
    requires
        !tee.finished,
        tee.guard == Some(guard),
    ensures
        !edge.after_finish(tee, error, elapsed, n).flights.contains_key(guard.key),
        !edge.after_fetch(Some(guard)).flights.contains_key(guard.key),
{
}

/// The pieces of a body, one after the other.
pub open spec fn joined(chunks: Seq<Seq<u8>>) -> Seq<u8>
    decreases chunks.len(),
{
    if chunks.len() == 0 {
        Seq::empty()
    } else {
        joined(chunks.drop_last()) + chunks.last()
    }
}

/// An answer after the pieces of its body.
pub open spec fn after_chunks(tee: TeeView, chunks: Seq<Seq<u8>>) -> TeeView
    decreases chunks.len(),
{
    if chunks.len() == 0 {
        tee
    } else {
        after_chunks(tee, chunks.drop_last()).after_chunk(chunks.last())
    }
}

proof fn lemma_after_chunks(tee: TeeView, chunks: Seq<Seq<u8>>)
    requires
        tee.bytes + joined(chunks).len() <= u64::MAX,
    ensures
        after_chunks(tee, chunks) == (TeeView {
            bytes: (tee.bytes + joined(chunks).len()) as u64,
            body: tee.body + joined(chunks),
            ..tee
        }),
    decreases chunks.len(),
{
    if chunks.len() > 0 {
        lemma_after_chunks(tee, chunks.drop_last());
        assert(tee.body + joined(chunks.drop_last()) + chunks.last() == tee.body + joined(chunks));
    } else {
        assert(tee.body + joined(chunks) == tee.body);
    }
}

/// The pieces that the origin gave, in their order.
pub open spec fn chunks_in(polls: Seq<PollView>) -> Seq<Seq<u8>>
    decreases polls.len(),
{
    if polls.len() == 0 {
        Seq::empty()
    } else {
        match polls.last() {
            PollView::Chunk(chunk) => chunks_in(polls.drop_last()).push(chunk),
            _ => chunks_in(polls.drop_last()),
        }
    }
}

/// An answer after the origin was asked for more of it some times.
pub open spec fn after_polls(tee: TeeView, polls: Seq<PollView>) -> TeeView
    decreases polls.len(),
{
    if polls.len() == 0 {
        tee
    } else {
        after_polls(tee, polls.drop_last()).after_poll(polls.last())
    }
}

/// An edge after the origin was asked for more of an answer some times, where `n` entries were
/// evicted at its end.
pub open spec fn edge_after_polls(
    edge: EdgeView,
    tee: TeeView,
    polls: Seq<PollView>,
    elapsed: Elapsed,
    n: int,
) -> EdgeView
    decreases polls.len(),
{
    if polls.len() == 0 {
        edge
    } else {
        edge_after_polls(edge, tee, polls.drop_last(), elapsed, n).after_poll(
            after_polls(tee, polls.drop_last()),
            polls.last(),
            elapsed,
            n,
        )
    }
}

proof fn lemma_after_polls(
    edge: EdgeView,
    tee: TeeView,
    polls: Seq<PollView>,
    elapsed: Elapsed,
    n: int,
)
    requires
        forall|i: int|
            0 <= i < polls.len() ==> #[trigger] polls[i] is Pending || polls[i] is Chunk,
    ensures
        after_polls(tee, polls) == after_chunks(tee, chunks_in(polls)),
        edge_after_polls(edge, tee, polls, elapsed, n) == edge,
    decreases polls.len(),
{
    if polls.len() > 0 {
        let front = polls.drop_last();
        assert forall|i: int| 0 <= i < front.len() implies #[trigger] front[i] is Pending
            || front[i] is Chunk by {
            assert(front[i] == polls[i]);
        }
        lemma_after_polls(edge, tee, front, elapsed, n);
        assert(polls[polls.len() - 1] == polls.last());
        if let PollView::Chunk(chunk) = polls.last() {
            assert(chunks_in(polls).drop_last() == chunks_in(front));
        }
    }
}

/// An answer goes through whole: as long as the origin gives pieces, with whatever waiting between
/// them, nothing changes at the edge; once it ends, its bytes are counted, once, those who wait and
/// the cache get all pieces in their order, and whatever is asked for later changes nothing.
pub proof fn law_answer_goes_through_whole(
    edge: EdgeView,
    tee: TeeView,
    polls: Seq<PollView>,
    later: PollView,
    elapsed: Elapsed,
    n: int,
)
    requires
        tee.bytes == 0,
        tee.body == Seq::<u8>::empty(),
        !tee.finished,
        joined(chunks_in(polls)).len() <= u64::MAX,
        forall|i: int|
            0 <= i < polls.len() ==> #[trigger] polls[i] is Pending || polls[i] is Chunk,
    ensures
        edge_after_polls(edge, tee, polls, elapsed, n) == edge,
        ({
            let whole = after_polls(tee, polls);
            let ended = edge_after_polls(edge, tee, polls.push(PollView::Ended), elapsed, n);
            let object = ObjectView { status: tee.status, body: joined(chunks_in(polls)) };
            &&& ended == edge.after_finish(whole, false, elapsed, n)
            &&& ended.metrics.bytes_served == wrap_u64(
                edge.metrics.bytes_served + joined(chunks_in(polls)).len(),
            )
            &&& ended.metrics.latencies == edge.metrics.latencies.push(elapsed)
            &&& whole.status == object.status && whole.body == object.body
            &&& whole.outcome(false) == OutcomeView::Object(object)
            &&& tee.guard matches Some(g) ==> whole.after_poll(PollView::Ended).guard == Some(
                g.after_complete(OutcomeView::Object(object)),
            )
            &&& ended.after_poll(whole.after_poll(PollView::Ended), later, elapsed, n) == ended
        }),
{
    let all = polls.push(PollView::Ended);
    assert(all.drop_last() == polls);
    lemma_after_polls(edge, tee, polls, elapsed, n);
    lemma_after_chunks(tee, chunks_in(polls));
    assert(tee.body + joined(chunks_in(polls)) == joined(chunks_in(polls)));
}

/// An answer ends once: whatever comes after its end changes neither the edge nor the answer.
pub proof fn law_answer_ends_once(
    edge: EdgeView,
    tee: TeeView,
    first: bool,
    again: bool,
    elapsed: Elapsed,
    n: int,
)
    ensures
        tee.after_finish(first).after_finish(again) == tee.after_finish(first),
        edge.after_finish(tee.after_finish(first), again, elapsed, n) == edge,
{
}

// ---------------------------------------------------------------------------
// Edges before one origin
// ---------------------------------------------------------------------------
/// What can happen at an edge.
pub enum EdgeEvent {
    /// A client asks for a path.
    Request { path: Seq<char>, channel: int },
    /// A client request is over.
    Response,
    /// An object was served from memory.
    Serve { bytes: nat, elapsed: Elapsed },
    /// A request failed.
    Failure { elapsed: Elapsed },
    /// A fetch failed or was given up.
    Lost { guard: GuardView },
    /// An answer of the origin ended.
    Finish { tee: TeeView, error: bool, elapsed: Elapsed, n: int },
}

/// An edge after an event.
pub open spec fn edge_step(edge: EdgeView, event: EdgeEvent) -> EdgeView {
    match event {
        EdgeEvent::Request { path, channel } => edge.after_request(true, path, channel),
        EdgeEvent::Response => edge.after_response(),
        EdgeEvent::Serve { bytes, elapsed } => edge.after_serving(bytes, elapsed),
        EdgeEvent::Failure { elapsed } => edge.after_failure(elapsed),
        EdgeEvent::Lost { guard } => edge.after_fetch(Some(guard)),
        EdgeEvent::Finish { tee, error, elapsed, n } => edge.after_finish(tee, error, elapsed, n),
    }
}

/// The origin after an event at an edge: it is asked exactly by the requests that lead a fetch.
pub open spec fn origin_step(origin: OriginView, edge: EdgeView, event: EdgeEvent) -> OriginView {
    match event {
        EdgeEvent::Request { path, .. } => if !has_key(edge.cache.entries, path)
            && !edge.flights.contains_key(path) {
            origin.after_record(path)
        } else {
            origin
        },
        _ => origin,
    }
}

/// Some edges and their origin.
pub struct NetworkView {
    pub edges: Seq<EdgeView>,
    pub origin: OriginView,
}

/// The network after events, each with the edge that it happens at.
pub open spec fn network_run(net: NetworkView, events: Seq<(int, EdgeEvent)>) -> NetworkView
    decreases events.len(),
{
    if events.len() == 0 {
        net
    } else {
        let before = network_run(net, events.drop_last());
        let (k, event) = events.last();
        NetworkView {
            edges: before.edges.update(k, edge_step(before.edges[k], event)),
            origin: origin_step(before.origin, before.edges[k], event),
        }
    }
}

/// The origin fetches that some edges have counted together.
pub open spec fn fetches(edges: Seq<EdgeView>) -> int
    decreases edges.len(),
{
    if edges.len() == 0 {
        0
    } else {
        fetches(edges.drop_last()) + edges.last().metrics.origin_fetches
    }
}

proof fn lemma_fetches_update(edges: Seq<EdgeView>, k: int, edge: EdgeView)
    requires
        0 <= k < edges.len(),
    ensures
        fetches(edges.update(k, edge)) == fetches(edges) - edges[k].metrics.origin_fetches
            + edge.metrics.origin_fetches,
    decreases edges.len(),
{
    let after = edges.update(k, edge);
    if k < edges.len() - 1 {
        assert(after.drop_last() == edges.drop_last().update(k, edge));
        lemma_fetches_update(edges.drop_last(), k, edge);
    } else {
        assert(after.drop_last() == edges.drop_last());
    }
}

/// The origin and its edges agree: where every fetch reaches the origin, the requests that it has
/// counted are the origin fetches that the edges have counted together, and at every edge misses
/// and origin fetches are the same.
pub proof fn law_origin_agrees_with_edges(net: NetworkView, events: Seq<(int, EdgeEvent)>)
    requires
        net.origin.total == wrap_u64(fetches(net.edges)),
        forall|k: int|
            0 <= k < net.edges.len() ==> (#[trigger] net.edges[k]).metrics.misses
                == net.edges[k].metrics.origin_fetches,
        forall|i: int| 0 <= i < events.len() ==> 0 <= (#[trigger] events[i]).0 < net.edges.len(),
    ensures
        ({
            let after = network_run(net, events);
            &&& after.edges.len() == net.edges.len()
            &&& after.origin.total == wrap_u64(fetches(after.edges))
            &&& forall|k: int|
                0 <= k < after.edges.len() ==> (#[trigger] after.edges[k]).metrics.misses
                    == after.edges[k].metrics.origin_fetches
        }),
    decreases events.len(),
{
    if events.len() > 0 {
        let front = events.drop_last();
        assert forall|i: int| 0 <= i < front.len() implies 0 <= (#[trigger] front[i]).0
            < net.edges.len() by {
            assert(events[i] == front[i]);
        }
        law_origin_agrees_with_edges(net, front);
        let before = network_run(net, front);
        let (k, event) = events.last();
        assert(events[events.len() - 1].0 == k);
        let edge = edge_step(before.edges[k], event);
        lemma_fetches_update(before.edges, k, edge);
        assert(before.edges[k].metrics.misses == before.edges[k].metrics.origin_fetches);
    }
}

// ---------------------------------------------------------------------------
// What is cached and what is answered, field by field
// ---------------------------------------------------------------------------
/// A whole success is cached, whatever its length, as long as the cache may hold an object of that
/// length: an answer that ends without an error, has a key, a status from 200 to 299 and a body
/// within the limits is in the cache afterwards, as its most recently used entry, with its status
/// and its body.
pub proof fn law_whole_success_is_cached(
    edge: EdgeView,
    tee: TeeView,
    key: Seq<char>,
    elapsed: Elapsed,
    n: int,
)
    requires
        edge.cache.valid(),
        !tee.finished,
        tee.cache_key == Some(key),
        200 <= tee.status && tee.status <= 299,
        tee.body.len() <= tee.max_object,
        tee.body.len() <= edge.cache.max_object_bytes,
        tee.body.len() <= edge.cache.max_bytes,
        edge.finish_evictions(tee, false, n),
    ensures
        ({
            let object = ObjectView { status: tee.status, body: tee.body };
            let after = edge.after_finish(tee, false, elapsed, n);
            &&& after.cache.entries.len() > 0
            &&& after.cache.entries.last() == (key, object)
            &&& lookup(after.cache.entries, key) == Some(object)
            &&& after.cache.max_bytes == edge.cache.max_bytes
            &&& after.cache.max_object_bytes == edge.cache.max_object_bytes
            &&& forall|route: Route| #[trigger]
                route.is_due(after, true, key) ==> (route matches Route::Hit(obj) && obj.status
                    == tee.status && content(obj.body) == tee.body)
        }),
{
    let object = ObjectView { status: tee.status, body: tee.body };
    let after = edge.after_finish(tee, false, elapsed, n);
    law_insert_then_get(edge.cache, key, object, n);
    assert forall|route: Route| #[trigger] route.is_due(after, true, key) implies (
    route matches Route::Hit(obj) && obj.status == tee.status && content(obj.body)
        == tee.body) by {
        assert(lookup(after.cache.entries, key) == Some(object));
        assert(has_key(after.cache.entries, key));
    }
}

/// Storing a whole success counts the entries that it evicts, of which there are no more than must
/// go: the others stay, in their order, and the size of the cache is told.
pub proof fn law_storing_counts_what_it_evicts(
    edge: EdgeView,
    tee: TeeView,
    key: Seq<char>,
    elapsed: Elapsed,
    n: int,
    others: Seq<Entry>,
)
    requires
        edge.cache.valid(),
        !tee.finished,
        tee.cache_key == Some(key),
        200 <= tee.status && tee.status <= 299,
        tee.body.len() <= tee.max_object,
        tee.body.len() <= edge.cache.max_object_bytes,
        tee.body.len() <= edge.cache.max_bytes,
        edge.finish_evictions(tee, false, n),
        are_the_others(edge.cache, key, others),
    ensures
        ({
            let after = edge.after_finish(tee, false, elapsed, n);
            let gone = others.len() + 1 - after.cache.entries.len();
            &&& 0 <= gone <= others.len()
            &&& after.cache.entries == others.subrange(gone, others.len() as int).push(
                (key, ObjectView { status: tee.status, body: tee.body }),
            )
            &&& gone > 0 ==> total(others.subrange(gone - 1, others.len() as int))
                + tee.body.len() > edge.cache.max_bytes
            &&& after.metrics.evictions == wrap_u64(edge.metrics.evictions + gone)
            &&& after.metrics.cache_bytes == wrap_i64(total(after.cache.entries) as int)
        }),
{
    law_storing_evicts_as_few_as_it_must(
        edge.cache,
        key,
        ObjectView { status: tee.status, body: tee.body },
        n,
        others,
    );
}

/// An answer that is not cached evicts nothing: one that broke off, has no key, no status from 200
/// to 299, or is too large.
pub proof fn law_what_is_not_cached_evicts_nothing(
    edge: EdgeView,
    tee: TeeView,
    error: bool,
    elapsed: Elapsed,
    n: int,
)
    requires
        tee.finished || error || tee.cache_key is None || tee.status < 200 || tee.status > 299
            || tee.body.len() > tee.max_object || tee.body.len() > edge.cache.max_object_bytes
            || tee.body.len() > edge.cache.max_bytes,
        edge.finish_evictions(tee, error, n),
    ensures
        n == 0,
        edge.after_finish(tee, error, elapsed, n).cache == edge.cache,
        edge.after_finish(tee, error, elapsed, n).metrics.evictions == edge.metrics.evictions,
{
}

/// The end of an answer counts its bytes and its time, once, ends its fetch and no other, and
/// leaves the counts of requests as they are.
pub proof fn law_what_an_end_changes(
    edge: EdgeView,
    tee: TeeView,
    error: bool,
    elapsed: Elapsed,
    n: int,
    path: Seq<char>,
)
    requires
        !tee.finished,
    ensures
        ({
            let after = edge.after_finish(tee, error, elapsed, n);
            &&& after.metrics.bytes_served == wrap_u64(edge.metrics.bytes_served + tee.bytes)
            &&& after.metrics.latencies == edge.metrics.latencies.push(elapsed)
            &&& after.metrics.hits == edge.metrics.hits
            &&& after.metrics.misses == edge.metrics.misses
            &&& after.metrics.origin_fetches == edge.metrics.origin_fetches
            &&& after.metrics.coalesced == edge.metrics.coalesced
            &&& after.metrics.inflight == edge.metrics.inflight
            &&& tee.guard is None ==> after.flights == edge.flights
            &&& tee.guard matches Some(g) ==> {
                &&& !after.flights.contains_key(g.key)
                &&& path != g.key ==> after.flights.contains_key(path)
                    == edge.flights.contains_key(path)
                &&& path != g.key && edge.flights.contains_key(path) ==> after.flights[path]
                    == edge.flights[path]
            }
        }),
{
}

/// Whoever waits for a fetch gets what it gave: the status and the body that the leader's client
/// got, after a whole answer of any status and any length, and an error after one that broke off.
/// The channel stays the same, and nothing is sent twice.
pub proof fn law_waiters_get_the_answer(tee: TeeView, guard: GuardView, error: bool)
    requires
        !tee.finished,
        tee.guard == Some(guard),
    ensures
        tee.after_finish(error).guard matches Some(after) && {
            &&& after.key == guard.key
            &&& after.channel == guard.channel
            &&& after.completed
            &&& after.sent.len() == guard.sent.len() + 1
            &&& after.sent.take(guard.sent.len() as int) == guard.sent
            &&& error ==> after.sent.last() is Error
            &&& !error ==> (after.sent.last() matches OutcomeView::Object(obj) && obj.status
                == tee.status && obj.body == tee.body)
        },
        tee.after_finish(error).finished,
        tee.after_finish(error).status == tee.status,
        tee.after_finish(error).bytes == tee.bytes,
{
    let after = tee.after_finish(error).guard->0;
    assert(after.sent.take(guard.sent.len() as int) == guard.sent);
}

/// A response from memory is the object: its status, whatever that is, its bytes, as a stream of
/// octets, and its length to charge for, if it has any.
pub proof fn law_response_is_the_object(reply: CachedReply, obj: CachedObject)
    requires
        reply.hands_out(obj@),
    ensures
        reply.status == obj.status,
        content(reply.body) == content(obj.body),
        reply.content_type@ == "application/octet-stream"@,
        content(obj.body).len() == 0 ==> reply.charge is None,
        content(obj.body).len() > 0 ==> (reply.charge matches Some(n) && n == content(
            obj.body,
        ).len()),
{
}

/// The leader of a fetch and those who wait for it see the same: whoever is answered with what the
/// fetch sent gets the status and the body that went to the leader's client.
pub proof fn law_leader_and_waiters_see_the_same(
    tee: TeeView,
    guard: GuardView,
    obj: CachedObject,
    reply: CachedReply,
)
    requires
        !tee.finished,
        tee.guard == Some(guard),
        tee.after_finish(false).guard->0.sent.last() == OutcomeView::Object(obj@),
        reply.hands_out(obj@),
    ensures
        reply.status == tee.status,
        content(reply.body) == tee.body,
{
    law_waiters_get_the_answer(tee, guard, false);
    law_response_is_the_object(reply, obj);
}

/// A hit after a fetch is answered with the status and the body that the origin gave.
pub proof fn law_hit_is_answered_as_the_origin_answered(
    edge: EdgeView,
    tee: TeeView,
    key: Seq<char>,
    elapsed: Elapsed,
    n: int,
    obj: CachedObject,
    reply: CachedReply,
)
    requires
        edge.cache.valid(),
        !tee.finished,
        tee.cache_key == Some(key),
        200 <= tee.status && tee.status <= 299,
        tee.body.len() <= tee.max_object,
        tee.body.len() <= edge.cache.max_object_bytes,
        tee.body.len() <= edge.cache.max_bytes,
        edge.finish_evictions(tee, false, n),
        Route::Hit(obj).is_due(edge.after_finish(tee, false, elapsed, n), true, key),
        reply.hands_out(obj@),
    ensures
        reply.status == tee.status,
        content(reply.body) == tee.body,
{
    law_whole_success_is_cached(edge, tee, key, elapsed, n);
    law_response_is_the_object(reply, obj);
}

/// What is charged for is what was served: as many bytes, and nothing where there were none.
pub proof fn law_what_is_served_is_charged_for(
    charge: Option<u64>,
    bytes: nat,
    tee: TeeView,
    polled: PollView,
)
    ensures
        is_charge(charge, charged(bytes)) <==> (match charge {
            Some(n) => n == bytes && n > 0,
            None => bytes == 0,
        }),
        is_charge(charge, tee.charge_due(polled)) <==> (match charge {
            Some(n) => n == tee.bytes && n > 0 && !tee.finished && (polled is Failed
                || polled is Ended),
            None => tee.bytes == 0 || tee.finished || polled is Pending || polled is Chunk,
        }),
{
}

/// A piece of a body is handed on as it is and put behind those before it; it changes nothing else
/// of an answer. Waiting for a piece changes nothing.
pub proof fn law_what_a_piece_changes(tee: TeeView, chunk: Seq<u8>)
    requires
        tee.bytes + chunk.len() <= u64::MAX,
    ensures
        ({
            let after = tee.after_poll(PollView::Chunk(chunk));
            &&& after == tee.after_chunk(chunk)
            &&& after.bytes == tee.bytes + chunk.len()
            &&& after.body.len() == tee.body.len() + chunk.len()
            &&& after.body.take(tee.body.len() as int) == tee.body
            &&& after.body.skip(tee.body.len() as int) == chunk
            &&& after.status == tee.status
            &&& after.finished == tee.finished
            &&& after.max_object == tee.max_object
            &&& after.cache_key == tee.cache_key
            &&& after.guard == tee.guard
        }),
        tee.after_poll(PollView::Pending) == tee,
        tee.after_poll(PollView::Ended) == tee.after_finish(false),
        tee.after_poll(PollView::Failed) == tee.after_finish(true),
{
    let after = tee.after_chunk(chunk);
    assert(after.body.take(tee.body.len() as int) == tee.body);
    assert(after.body.skip(tee.body.len() as int) == chunk);
}

/// Before an answer ends nothing changes at the edge, and its end is its end, however it is found.
pub proof fn law_what_asking_for_more_changes(
    edge: EdgeView,
    tee: TeeView,
    chunk: Seq<u8>,
    elapsed: Elapsed,
    n: int,
)
    ensures
        edge.after_poll(tee, PollView::Pending, elapsed, n) == edge,
        edge.after_poll(tee, PollView::Chunk(chunk), elapsed, n) == edge,
        edge.after_poll(tee, PollView::Ended, elapsed, n) == edge.after_finish(
            tee,
            false,
            elapsed,
            n,
        ),
        edge.after_poll(tee, PollView::Failed, elapsed, n) == edge.after_finish(
            tee,
            true,
            elapsed,
            n,
        ),
        edge.poll_evictions(tee, PollView::Ended, n) <==> edge.finish_evictions(tee, false, n),
        edge.poll_evictions(tee, PollView::Failed, n) <==> edge.finish_evictions(tee, true, n),
{
}

/// What the origin gives is what it gave.
pub proof fn law_what_the_origin_gives(polled: Polled)
    ensures
        polled is Pending <==> polled@ is Pending,
        polled is Failed <==> polled@ is Failed,
        polled is Ended <==> polled@ is Ended,
        polled matches Polled::Chunk(chunk) ==> polled@ == PollView::Chunk(content(chunk)),
{
}

/// What a request does, by its route: other methods than `GET` go to the origin; a key with an
/// entry is answered with the object of the entry; a key that is being fetched is waited for on the
/// channel of its fetch; any other is fetched, with a new channel on which nothing was sent.
pub proof fn law_what_a_route_means(route: Route, edge: EdgeView, is_get: bool, path: Seq<char>)
    requires
        edge.cache.valid(),
        route.is_due(edge, is_get, path),
    ensures
        route is Uncached <==> !is_get,
        route is Hit <==> is_get && exists|i: int|
            0 <= i < edge.cache.entries.len() && (#[trigger] edge.cache.entries[i]).0 == path,
        route is Lead ==> !edge.flights.contains_key(path),
        route is Wait ==> edge.flights.contains_key(path),
        route matches Route::Hit(obj) ==> exists|i: int|
            0 <= i < edge.cache.entries.len() && #[trigger] edge.cache.entries[i] == (
                path,
                ObjectView { status: obj.status, body: content(obj.body) },
            ),
        route matches Route::Wait(rx) ==> edge.flights[path] == receiver_channel(rx),
        route matches Route::Lead(guard) ==> {
            &&& guard@.key == path
            &&& !guard@.completed
            &&& guard@.sent.len() == 0
            &&& route.channel() == guard@.channel
            &&& forall|k: Seq<char>| #[trigger]
                edge.flights.contains_key(k) ==> edge.flights[k] != guard@.channel
        },
{
    if let Route::Hit(obj) = route {
        assert(has_key(edge.cache.entries, path));
        let i = choose|i: int|
            0 <= i < edge.cache.entries.len() && (#[trigger] edge.cache.entries[i]).0 == path;
        assert(edge.cache.entries[i] == (path, obj@));
    }
}

/// A request counts itself as under way, and changes nothing but what its route calls for: a hit
/// makes its entry the most recently used, a lead adds its fetch.
pub proof fn law_what_a_request_changes(
    edge: EdgeView,
    is_get: bool,
    path: Seq<char>,
    channel: int,
)
    ensures
        ({
            let after = edge.after_request(is_get, path, channel);
            let hit = is_get && exists|i: int|
                0 <= i < edge.cache.entries.len() && (#[trigger] edge.cache.entries[i]).0 == path;
            let lead = is_get && !hit && !edge.flights.contains_key(path);
            &&& after.metrics.inflight == wrap_i64(edge.metrics.inflight + 1)
            &&& after.metrics.bytes_served == edge.metrics.bytes_served
            &&& after.metrics.latencies == edge.metrics.latencies
            &&& after.metrics.evictions == edge.metrics.evictions
            &&& after.metrics.cache_bytes == edge.metrics.cache_bytes
            &&& after.metrics.hits == wrap_u64(
                edge.metrics.hits + if hit {
                    1int
                } else {
                    0int
                },
            )
            &&& after.metrics.misses == wrap_u64(
                edge.metrics.misses + if lead {
                    1int
                } else {
                    0int
                },
            )
            &&& after.metrics.origin_fetches == wrap_u64(
                edge.metrics.origin_fetches + if lead {
                    1int
                } else {
                    0int
                },
            )
            &&& after.metrics.coalesced == wrap_u64(
                edge.metrics.coalesced + if is_get && !hit && !lead {
                    1int
                } else {
                    0int
                },
            )
            &&& hit ==> after.cache == edge.cache.after_get(path)
            &&& !hit ==> after.cache == edge.cache
            &&& lead ==> after.flights == edge.flights.insert(path, channel)
            &&& !lead ==> after.flights == edge.flights
        }),
{
}

/// A request that is over is counted as under way no longer; serving counts bytes and time, and a
/// failure counts its time; nothing else changes.
pub proof fn law_what_a_response_changes(edge: EdgeView, bytes: nat, elapsed: Elapsed)
    ensures
        edge.after_response() == (EdgeView {
            metrics: MetricsView {
                inflight: wrap_i64(edge.metrics.inflight - 1),
                ..edge.metrics
            },
            ..edge
        }),
        edge.after_serving(bytes, elapsed).cache == edge.cache,
        edge.after_serving(bytes, elapsed).flights == edge.flights,
        edge.after_serving(bytes, elapsed).metrics == (MetricsView {
            bytes_served: wrap_u64(edge.metrics.bytes_served + bytes),
            latencies: edge.metrics.latencies.push(elapsed),
            ..edge.metrics
        }),
        edge.after_failure(elapsed).cache == edge.cache,
        edge.after_failure(elapsed).flights == edge.flights,
        edge.after_failure(elapsed).metrics == (MetricsView {
            latencies: edge.metrics.latencies.push(elapsed),
            ..edge.metrics
        }),
{
}

/// The end of a fetch frees its key and no other, and changes nothing else.
pub proof fn law_what_the_end_of_a_fetch_changes(
    edge: EdgeView,
    guard: GuardView,
    path: Seq<char>,
)
    ensures
        edge.after_fetch(None) == edge,
        edge.after_fetch(Some(guard)).cache == edge.cache,
        edge.after_fetch(Some(guard)).metrics == edge.metrics,
        edge.after_fetch(Some(guard)).flights.contains_key(path) <==> path != guard.key
            && edge.flights.contains_key(path),
        path != guard.key && edge.flights.contains_key(path) ==> edge.after_fetch(
            Some(guard),
        ).flights[path] == edge.flights[path],
{
}

/// An answer is in order exactly if every byte of its body was handed through and its fetch, if it
/// has one, is over when it is.
pub proof fn law_what_an_answer_in_order_is(tee: TeeView)
    ensures
        tee.valid() <==> tee.body.len() <= tee.bytes && (match tee.guard {
            Some(guard) => guard.completed <==> tee.finished,
            None => true,
        }),
{
}

/// An edge tells of itself what it is configured to, what it has counted and what it has cached: it
/// is healthy, its requests under way are never below zero, and its keys are those of its entries.
pub proof fn law_snapshot_tells_what_the_edge_is(
    s: HealthSnapshot,
    config: EdgeConfig,
    metrics: MetricsView,
    cache: LruView,
)
    requires
        tells_of(s, config, metrics, cache),
    ensures
        s.node_id@ == config.node_id@,
        s.addr@ == config.listen@,
        s.healthy,
        metrics.inflight >= 0 ==> s.inflight == metrics.inflight,
        metrics.inflight < 0 ==> s.inflight == 0,
        s.capacity == config.capacity,
        s.cache_bytes == total(cache.entries),
        s.hits == metrics.hits,
        s.misses == metrics.misses,
        s.bandwidth_price == config.bandwidth_price,
        s.ewma_rtt_ms == config.ewma_rtt_ms,
        s.hot_keys@.len() == cache.entries.len(),
        forall|i: int|
            0 <= i < cache.entries.len() ==> #[trigger] s.hot_keys@[i]@ == cache.entries[i].0,
{
}

/// The origin is asked for the path and query of a request, and for the root where it has neither.
pub proof fn law_what_the_origin_is_asked_for(t: &str)
    ensures
        target(Some(t)) == t@,
        target(None) == seq!['/'],
{
    reveal_strlit("/");
    assert(target(None) == seq!['/']);
}

/// A request for which the origin gave nothing fails as a bad gateway.
pub proof fn law_failures_are_bad_gateways()
    ensures
        BAD_GATEWAY == 502,
{
}

/// A header is kept back exactly if its name, whatever the case of its letters, is one of those of
/// one connection or tells the length of the body.
pub proof fn law_which_headers_are_kept_back(h: HeaderView)
    ensures
        !handed_on(h) <==> seq![
            "connection"@,
            "keep-alive"@,
            "proxy-authenticate"@,
            "proxy-authorization"@,
            "te"@,
            "trailer"@,
            "transfer-encoding"@,
            "upgrade"@,
            "content-length"@,
        ].contains(lowered(h.0)),
        hop_by_hop(h.0) <==> seq![
            "connection"@,
            "keep-alive"@,
            "proxy-authenticate"@,
            "proxy-authorization"@,
            "te"@,
            "trailer"@,
            "transfer-encoding"@,
            "upgrade"@,
        ].contains(lowered(h.0)),
{
    let n = lowered(h.0);
    let hop = seq![
        "connection"@,
        "keep-alive"@,
        "proxy-authenticate"@,
        "proxy-authorization"@,
        "te"@,
        "trailer"@,
        "transfer-encoding"@,
        "upgrade"@,
    ];
    let all = seq![
        "connection"@,
        "keep-alive"@,
        "proxy-authenticate"@,
        "proxy-authorization"@,
        "te"@,
        "trailer"@,
        "transfer-encoding"@,
        "upgrade"@,
        "content-length"@,
    ];
    if hop_by_hop(h.0) {
        let i: int = if n == "connection"@ {
            0
        } else if n == "keep-alive"@ {
            1
        } else if n == "proxy-authenticate"@ {
            2
        } else if n == "proxy-authorization"@ {
            3
        } else if n == "te"@ {
            4
        } else if n == "trailer"@ {
            5
        } else if n == "transfer-encoding"@ {
            6
        } else {
            7
        };
        assert(hop[i] == n);
        assert(all[i] == n);
    }
    if n == "content-length"@ {
        assert(all[8] == n);
    }
}

/// Headers are handed on one by one, in their order, with their values: what becomes of some
/// headers does not depend on what stands before or behind them.
pub proof fn law_headers_are_handed_on_one_by_one(
    a: Seq<HeaderView>,
    b: Seq<HeaderView>,
    h: HeaderView,
)
    ensures
        headers_handed_on(Seq::<HeaderView>::empty()) == Seq::<HeaderView>::empty(),
        headers_handed_on(seq![h]) == (if handed_on(h) {
            seq![h]
        } else {
            Seq::<HeaderView>::empty()
        }),
        headers_handed_on(a + b) == headers_handed_on(a) + headers_handed_on(b),
    decreases b.len(),
{
    reveal(Seq::filter);
    let none = Seq::<HeaderView>::empty();
    assert(headers_handed_on(none) == none);
    assert(seq![h].drop_last() == none);
    assert(seq![h].last() == h);
    assert(none.push(h) == seq![h]);
    if b.len() == 0 {
        assert(a + b == a);
        assert(b == none);
        assert(headers_handed_on(a) + none == headers_handed_on(a));
    } else {
        law_headers_are_handed_on_one_by_one(a, b.drop_last(), h);
        assert((a + b).drop_last() == a + b.drop_last());
        assert((a + b).last() == b.last());
        if handed_on(b.last()) {
            assert((headers_handed_on(a) + headers_handed_on(b.drop_last())).push(b.last())
                == headers_handed_on(a) + headers_handed_on(b.drop_last()).push(b.last()));
        }
    }
}

/// The end of an answer leaves it over, and leaves what happened so far; a whole answer gives its
/// body and its key away. An answer that is over stays as it is.
pub proof fn law_what_an_end_leaves(tee: TeeView, error: bool)
    ensures
        tee.finished ==> tee.after_finish(error) == tee,
        tee.after_finish(error).finished,
        tee.after_finish(error).status == tee.status,
        tee.after_finish(error).bytes == tee.bytes,
        tee.after_finish(error).max_object == tee.max_object,
        tee.guard is None ==> tee.after_finish(error).guard is None,
        error ==> tee.after_finish(error).body == tee.body && tee.after_finish(error).cache_key
            == tee.cache_key,
        !error && !tee.finished ==> tee.after_finish(error).body.len() == 0 && tee.after_finish(
            error,
        ).cache_key is None,
{
}

} // verus!
