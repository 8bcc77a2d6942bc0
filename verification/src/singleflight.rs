//! One origin fetch per key at a time: the first request leads, the others wait for its outcome.
use tokio::sync::broadcast;
use vstd::hash_map::StringHashMap;
use vstd::prelude::*;

use crate::cache::{content, CachedObject, ObjectView};

verus! {

// ---------------------------------------------------------------------------
// Outcomes
// ---------------------------------------------------------------------------
/// What came of an origin fetch.
pub enum OutcomeView {
    Object(ObjectView),
    Error,
}

/// What came of an origin fetch.
#[derive(Debug)]
pub enum FetchOutcome {
    Object(CachedObject),
    Error,
}

impl View for FetchOutcome {
    type V = OutcomeView;

    open spec fn view(&self) -> OutcomeView {
        match self {
            FetchOutcome::Object(obj) => OutcomeView::Object(obj@),
            FetchOutcome::Error => OutcomeView::Error,
        }
    }
}

impl Clone for FetchOutcome {
    fn clone(&self) -> (r: Self)
        ensures
            r@ == self@,
    {
        match self {
            FetchOutcome::Object(obj) => FetchOutcome::Object(obj.clone()),
            FetchOutcome::Error => FetchOutcome::Error,
        }
    }
}

// ---------------------------------------------------------------------------
// Broadcast channels
// ---------------------------------------------------------------------------
/// The sending half of a broadcast channel.
#[verifier::external_type_specification]
#[verifier::external_body]
#[verifier::reject_recursive_types(T)]
pub struct ExSender<T>(broadcast::Sender<T>);

/// The receiving half of a broadcast channel.
#[verifier::external_type_specification]
#[verifier::external_body]
#[verifier::reject_recursive_types(T)]
pub struct ExReceiver<T>(broadcast::Receiver<T>);

/// The channel that a sending handle belongs to.
pub uninterp spec fn sender_channel(tx: broadcast::Sender<FetchOutcome>) -> int;

/// The channel that a receiving handle belongs to.
pub uninterp spec fn receiver_channel(rx: broadcast::Receiver<FetchOutcome>) -> int;

/// The outcomes that were handed to this sending handle, in order.
pub uninterp spec fn sent(tx: broadcast::Sender<FetchOutcome>) -> Seq<OutcomeView>;

/// `tokio::sync::broadcast::channel`: two handles of one new channel, on which nothing was sent. It
/// is none of the channels that the given handles belong to.
#[verifier::external_body]
fn open_channel(
    capacity: usize,
    others: &StringHashMap<broadcast::Sender<FetchOutcome>>,
) -> (r: (broadcast::Sender<FetchOutcome>, broadcast::Receiver<FetchOutcome>))
    requires
        0 < capacity <= 1024,
    ensures
        forall|k: Seq<char>| #[trigger]
            others@.contains_key(k) ==> sender_channel(others@[k]) != sender_channel(r.0),
        receiver_channel(r.1) == sender_channel(r.0),
        sent(r.0) == Seq::<OutcomeView>::empty(),
{
    let _ = others;
    broadcast::channel(capacity)
}

/// `tokio::sync::broadcast::Sender::subscribe`: a receiving handle of the same channel.
#[verifier::external_body]
fn subscribe(tx: &broadcast::Sender<FetchOutcome>) -> (r: broadcast::Receiver<FetchOutcome>)
    ensures
        receiver_channel(r) == sender_channel(*tx),
{
    tx.subscribe()
}

/// `tokio::sync::broadcast::Sender::clone`: a further sending handle of the same channel, which
/// has sent nothing itself.
#[verifier::external_body]
fn another_sender(tx: &broadcast::Sender<FetchOutcome>) -> (r: broadcast::Sender<FetchOutcome>)
    ensures
        sender_channel(r) == sender_channel(*tx),
        sent(r) == Seq::<OutcomeView>::empty(),
{
    tx.clone()
}

/// `tokio::sync::broadcast::Sender::send`: hands the outcome to the receivers that are there; it
/// is no failure if there are none.
#[verifier::external_body]
fn send(tx: &mut broadcast::Sender<FetchOutcome>, outcome: FetchOutcome)
    ensures
        sender_channel(*final(tx)) == sender_channel(*old(tx)),
        sent(*final(tx)) == sent(*old(tx)).push(outcome@),
{
    let _ = tx.send(outcome);
}

// ---------------------------------------------------------------------------
// Flights
// ---------------------------------------------------------------------------
/// What can happen to the fetches under way.
pub enum FlightEvent {
    /// A request for a key. If it leads, waiters are served over the channel.
    Join { key: Seq<char>, channel: int },
    /// The fetch of a key is over.
    Complete { key: Seq<char> },
}

/// The fetches under way (each key with its channel) after an event.
pub open spec fn flight_step(f: Map<Seq<char>, int>, e: FlightEvent) -> Map<Seq<char>, int> {
    match e {
        FlightEvent::Join { key, channel } => if f.contains_key(key) {
            f
        } else {
            f.insert(key, channel)
        },
        FlightEvent::Complete { key } => f.remove(key),
    }
}

/// Whether a channel serves none of the fetches under way.
pub open spec fn is_new_channel(f: Map<Seq<char>, int>, channel: int) -> bool {
    forall|k: Seq<char>| #[trigger] f.contains_key(k) ==> f[k] != channel
}

/// Whether no two of the fetches under way share a channel.
pub open spec fn channels_differ(f: Map<Seq<char>, int>) -> bool {
    forall|j: Seq<char>, k: Seq<char>|
        #![trigger f.contains_key(j), f.contains_key(k)]
        f.contains_key(j) && f.contains_key(k) && j != k ==> f[j] != f[k]
}

/// The state of the leader of a fetch.
pub struct GuardView {
    pub key: Seq<char>,
    pub channel: int,
    pub sent: Seq<OutcomeView>,
    pub completed: bool,
}

/// Held by the request that leads a fetch, until the fetch is over.
pub struct LeaderGuard {
    key: String,
    tx: broadcast::Sender<FetchOutcome>,
    completed: bool,
}

impl View for LeaderGuard {
    type V = GuardView;

    closed spec fn view(&self) -> GuardView {
        GuardView {
            key: self.key@,
            channel: sender_channel(self.tx),
            sent: sent(self.tx),
            completed: self.completed,
        }
    }
}

impl GuardView {
    /// The leader after its fetch ended with an outcome.
    pub open spec fn after_complete(self, outcome: OutcomeView) -> GuardView {
        GuardView { sent: self.sent.push(outcome), completed: true, ..self }
    }
}

impl LeaderGuard {
    /// Ends the fetch: its waiters get the outcome, and the key is free for a new fetch. A fetch
    /// ends once.
    pub fn complete(&mut self, flights: &mut SingleFlight, outcome: FetchOutcome)
        requires
            !old(self)@.completed,
        ensures
            final(self)@ == old(self)@.after_complete(outcome@),
            final(flights)@ == flight_step(
                old(flights)@,
                FlightEvent::Complete { key: old(self)@.key },
            ),
    {
        send(&mut self.tx, outcome);
        self.completed = true;
        flights.inflight.remove(self.key.as_str());
        assert(final(flights)@ =~= old(flights)@.remove(old(self)@.key));
    }

    /// Ends a fetch that was given up: its waiters get an error. Nothing happens where the fetch
    /// is over already.
    pub fn abandon(&mut self, flights: &mut SingleFlight)
        ensures
            old(self)@.completed ==> final(self)@ == old(self)@ && final(flights)@ == old(
                flights,
            )@,
            !old(self)@.completed ==> final(self)@ == old(self)@.after_complete(
                OutcomeView::Error,
            ) && final(flights)@ == flight_step(
                old(flights)@,
                FlightEvent::Complete { key: old(self)@.key },
            ),
    {
        if !self.completed {
            self.complete(flights, FetchOutcome::Error);
        }
    }
}

/// The part that a request plays in the fetch of its key.
pub enum Flight {
    /// It performs the fetch.
    Leader(LeaderGuard),
    /// It waits for the outcome.
    Waiter(broadcast::Receiver<FetchOutcome>),
}

impl Flight {
    /// The channel over which the outcome goes.
    pub open spec fn channel(&self) -> int {
        match self {
            Flight::Leader(guard) => guard@.channel,
            Flight::Waiter(rx) => receiver_channel(*rx),
        }
    }
}

/// The fetches under way.
pub struct SingleFlight {
    inflight: StringHashMap<broadcast::Sender<FetchOutcome>>,
}

impl View for SingleFlight {
    type V = Map<Seq<char>, int>;

    closed spec fn view(&self) -> Map<Seq<char>, int> {
        self.inflight@.map_values(|tx: broadcast::Sender<FetchOutcome>| sender_channel(tx))
    }
}

impl Default for SingleFlight {
    /// No fetch is under way.
    fn default() -> (r: Self)
        ensures
            r@ == Map::<Seq<char>, int>::empty(),
            channels_differ(r@),
    {
        SingleFlight::new()
    }
}

impl SingleFlight {
    /// No fetch is under way.
    pub fn new() -> (r: Self)
        ensures
            r@ == Map::<Seq<char>, int>::empty(),
            channels_differ(r@),
    {
        let r = SingleFlight { inflight: StringHashMap::new() };
        assert(r@ =~= Map::<Seq<char>, int>::empty());
        r
    }

    /// Joins the fetch of a key: as its leader where there is none under way, else as a waiter
    /// on the one that is.
    pub fn join(&mut self, key: &str) -> (r: Flight)
        ensures
            final(self)@ == flight_step(
                old(self)@,
                FlightEvent::Join { key: key@, channel: r.channel() },
            ),
            r is Leader <==> !old(self)@.contains_key(key@),
            r.channel() == final(self)@[key@],
            r is Leader ==> is_new_channel(old(self)@, r.channel()),
            channels_differ(old(self)@) ==> channels_differ(final(self)@),
            r matches Flight::Leader(guard) ==> guard@.key == key@ && !guard@.completed
                && guard@.sent == Seq::<OutcomeView>::empty(),
    {
        if let Some(tx) = self.inflight.get(key) {
            return Flight::Waiter(subscribe(tx));
        }
        let (tx, _rx) = open_channel(1, &self.inflight);
        let guard = LeaderGuard { key: key.to_owned(), tx: another_sender(&tx), completed: false };
        assert(is_new_channel(old(self)@, guard@.channel)) by {
            assert forall|k: Seq<char>| #[trigger] old(self)@.contains_key(k) implies old(self)@[k]
                != guard@.channel by {
                assert(old(self).inflight@.contains_key(k));
            }
        }
        self.inflight.insert(key.to_owned(), tx);
        assert(final(self)@ =~= old(self)@.insert(key@, guard@.channel));
        Flight::Leader(guard)
    }
}

// ---------------------------------------------------------------------------
// Laws
// ---------------------------------------------------------------------------
/// The fetches under way after a run of events.
pub open spec fn flight_run(f: Map<Seq<char>, int>, events: Seq<FlightEvent>) -> Map<
    Seq<char>,
    int,
>
    decreases events.len(),
{
    if events.len() == 0 {
        f
    } else {
        flight_step(flight_run(f, events.drop_last()), events.last())
    }
}

/// How many requests for a key led a fetch in a run of events: those that found none under way.
pub open spec fn leads(f: Map<Seq<char>, int>, events: Seq<FlightEvent>, key: Seq<char>) -> nat
    decreases events.len(),
{
    if events.len() == 0 {
        0
    } else {
        let before = flight_run(f, events.drop_last());
        let now: nat = if events.last() matches FlightEvent::Join { key: k, .. } && k == key
            && !before.contains_key(key) {
            1
        } else {
            0
        };
        leads(f, events.drop_last(), key) + now
    }
}

/// How many fetches of a key ended in a run of events.
pub open spec fn completions(events: Seq<FlightEvent>, key: Seq<char>) -> nat
    decreases events.len(),
{
    if events.len() == 0 {
        0
    } else {
        let now: nat = if events.last() == (FlightEvent::Complete { key }) {
            1
        } else {
            0
        };
        completions(events.drop_last(), key) + now
    }
}

/// One fetch per key at a time: whatever requests come and go for whatever keys, the fetches of
/// a key that were started are at most one more than those that ended, and as long as none ended
/// there is exactly one if any request for the key came at all.
pub proof fn law_one_fetch_at_a_time(
    f: Map<Seq<char>, int>,
    events: Seq<FlightEvent>,
    key: Seq<char>,
)
    requires
        !f.contains_key(key),
    ensures
        leads(f, events, key) <= completions(events, key) + 1,
        completions(events, key) == 0 ==> (leads(f, events, key) == 1 <==> exists|i: int|
            0 <= i < events.len() && (#[trigger] events[i] matches FlightEvent::Join {
                key: k,
                ..
            } && k == key)),
{
    lemma_leads(f, events, key);
}

proof fn lemma_leads(f: Map<Seq<char>, int>, events: Seq<FlightEvent>, key: Seq<char>)
    requires
        !f.contains_key(key),
    ensures
        flight_run(f, events).contains_key(key) ==> leads(f, events, key) <= completions(
            events,
            key,
        ) + 1,
        !flight_run(f, events).contains_key(key) ==> leads(f, events, key) <= completions(
            events,
            key,
        ),
        completions(events, key) == 0 ==> (flight_run(f, events).contains_key(key) <==> leads(
            f,
            events,
            key,
        ) == 1),
        completions(events, key) == 0 ==> (leads(f, events, key) == 1 <==> exists|i: int|
            0 <= i < events.len() && (#[trigger] events[i] matches FlightEvent::Join {
                key: k,
                ..
            } && k == key)),
    decreases events.len(),
{
    if events.len() > 0 {
        let front = events.drop_last();
        lemma_leads(f, front, key);
        if completions(events, key) == 0 {
            if exists|i: int|
                0 <= i < front.len() && (#[trigger] front[i] matches FlightEvent::Join {
                    key: k,
                    ..
                } && k == key) {
                let i = choose|i: int|
                    0 <= i < front.len() && (#[trigger] front[i] matches FlightEvent::Join {
                        key: k,
                        ..
                    } && k == key);
                assert(events[i] == front[i]);
            }
            if exists|i: int|
                0 <= i < events.len() && (#[trigger] events[i] matches FlightEvent::Join {
                    key: k,
                    ..
                } && k == key) {
                let i = choose|i: int|
                    0 <= i < events.len() && (#[trigger] events[i] matches FlightEvent::Join {
                        key: k,
                        ..
                    } && k == key);
                if i < front.len() {
                    assert(front[i] == events[i]);
                } else {
                    assert(events[i] == events.last());
                }
            }
        }
    }
}

/// Waiters get the outcome of the fetch that they found: as long as the fetch of a key is under
/// way its channel stays the same, whatever else happens.
pub proof fn law_waiters_share_the_channel(
    f: Map<Seq<char>, int>,
    events: Seq<FlightEvent>,
    key: Seq<char>,
)
    requires
        f.contains_key(key),
        completions(events, key) == 0,
    ensures
        flight_run(f, events).contains_key(key),
        flight_run(f, events)[key] == f[key],
    decreases events.len(),
{
    if events.len() > 0 {
        law_waiters_share_the_channel(f, events.drop_last(), key);
    }
}

/// Nobody gets the outcome of another key: fetches of different keys have different channels,
/// whatever requests come and whatever fetches end, where every request that leads opens a new
/// channel.
pub proof fn law_keys_have_channels_of_their_own(f: Map<Seq<char>, int>, events: Seq<FlightEvent>)
    requires
        channels_differ(f),
        forall|i: int|
            0 <= i < events.len() ==> (#[trigger] events[i] matches FlightEvent::Join {
                key,
                channel,
            } ==> flight_run(f, events.take(i)).contains_key(key) || is_new_channel(
                flight_run(f, events.take(i)),
                channel,
            )),
    ensures
        channels_differ(flight_run(f, events)),
    decreases events.len(),
{
    if events.len() > 0 {
        let front = events.drop_last();
        assert forall|i: int| 0 <= i < front.len() implies (
        #[trigger] front[i] matches FlightEvent::Join { key, channel } ==> flight_run(
            f,
            front.take(i),
        ).contains_key(key) || is_new_channel(flight_run(f, front.take(i)), channel)) by {
            assert(events[i] == front[i]);
            assert(events.take(i) == front.take(i));
        }
        law_keys_have_channels_of_their_own(f, front);
        assert(events.take(events.len() - 1) == front);
        assert(events[events.len() - 1] == events.last());
    }
}

/// Once a fetch is over the next request for its key leads again.
pub proof fn law_key_is_free_after_completion(f: Map<Seq<char>, int>, key: Seq<char>)
    ensures
        !flight_step(f, FlightEvent::Complete { key }).contains_key(key),
{
}

/// A request for a key starts a fetch where none is under way, over its channel, and else changes
/// nothing; the end of a fetch takes its key away; neither touches another key.
pub proof fn law_what_an_event_changes(
    f: Map<Seq<char>, int>,
    key: Seq<char>,
    channel: int,
    other: Seq<char>,
)
    requires
        other != key,
    ensures
        ({
            let joined = flight_step(f, FlightEvent::Join { key, channel });
            let over = flight_step(f, FlightEvent::Complete { key });
            &&& joined.contains_key(key)
            &&& joined[key] == (if f.contains_key(key) {
                f[key]
            } else {
                channel
            })
            &&& joined.contains_key(other) <==> f.contains_key(other)
            &&& f.contains_key(other) ==> joined[other] == f[other]
            &&& !over.contains_key(key)
            &&& over.contains_key(other) <==> f.contains_key(other)
            &&& f.contains_key(other) ==> over[other] == f[other]
        }),
{
}

/// The end of a fetch sends one outcome, behind what was sent before, over the channel of its key.
pub proof fn law_what_an_end_sends(guard: GuardView, outcome: OutcomeView)
    ensures
        guard.after_complete(outcome).key == guard.key,
        guard.after_complete(outcome).channel == guard.channel,
        guard.after_complete(outcome).completed,
        guard.after_complete(outcome).sent.len() == guard.sent.len() + 1,
        guard.after_complete(outcome).sent.last() == outcome,
        guard.after_complete(outcome).sent.drop_last() == guard.sent,
{
    assert(guard.after_complete(outcome).sent.drop_last() == guard.sent);
}

/// An outcome is an object, with its status and its bytes, or an error.
pub proof fn law_what_an_outcome_is(outcome: FetchOutcome)
    ensures
        outcome is Error <==> outcome@ is Error,
        outcome matches FetchOutcome::Object(obj) ==> (outcome@ matches OutcomeView::Object(o)
            && o.status == obj.status && o.body == content(obj.body)),
{
}

/// A channel is new exactly if no fetch is served over it, and channels differ exactly if no two
/// fetches share one.
pub proof fn law_what_channels_of_their_own_are(
    f: Map<Seq<char>, int>,
    channel: int,
    j: Seq<char>,
    k: Seq<char>,
)
    ensures
        is_new_channel(f, channel) && f.contains_key(k) ==> f[k] != channel,
        !is_new_channel(f, channel) ==> exists|i: Seq<char>| #[trigger]
            f.contains_key(i) && f[i] == channel,
        channels_differ(f) && f.contains_key(j) && f.contains_key(k) && f[j] == f[k] ==> j == k,
        !channels_differ(f) ==> exists|i: Seq<char>, h: Seq<char>| #[trigger]
            f.contains_key(i) && #[trigger] f.contains_key(h) && i != h && f[i] == f[h],
{
}

/// Those who take part in a fetch are served over its channel.
pub proof fn law_which_channel_serves(flight: Flight)
    ensures
        flight matches Flight::Leader(guard) ==> flight.channel() == guard@.channel,
        flight matches Flight::Waiter(rx) ==> flight.channel() == receiver_channel(rx),
{
}

} // verus!
