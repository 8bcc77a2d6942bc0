//! Which edge should serve an object.
use std::collections::hash_map::DefaultHasher;
use std::hash::{Hash, Hasher};
use vstd::prelude::*;
use vstd::relations::*;
use vstd::seq_lib::*;
use vstd::std_specs::hash::*;

use crate::binary64::Double;
use crate::text::{
    lemma_text_lt_irreflexive, lemma_text_lt_total, lemma_text_lt_transitive, same_text, text_less,
    text_lt,
};

verus! {

// ---------------------------------------------------------------------------
// Nodes
// ---------------------------------------------------------------------------
/// What is known of an edge.
pub struct NodeView {
    pub node_id: Seq<char>,
    pub addr: Seq<char>,
    pub healthy: bool,
    pub inflight: u64,
    pub capacity: u64,
    pub cache_bytes: u64,
    pub hits: u64,
    pub misses: u64,
    pub bandwidth_price: Double,
    pub ewma_rtt_ms: Double,
    pub has_key: bool,
}

/// An edge as the control plane sees it.
#[derive(Debug)]
pub struct NodeSnapshot {
    pub node_id: String,
    pub addr: String,
    pub healthy: bool,
    pub inflight: u64,
    pub capacity: u64,
    pub cache_bytes: u64,
    pub hits: u64,
    pub misses: u64,
    pub bandwidth_price: Double,
    pub ewma_rtt_ms: Double,
    /// Whether the edge holds the object that is asked for.
    pub has_key: bool,
}

impl View for NodeSnapshot {
    type V = NodeView;

    open spec fn view(&self) -> NodeView {
        NodeView {
            node_id: self.node_id@,
            addr: self.addr@,
            healthy: self.healthy,
            inflight: self.inflight,
            capacity: self.capacity,
            cache_bytes: self.cache_bytes,
            hits: self.hits,
            misses: self.misses,
            bandwidth_price: self.bandwidth_price,
            ewma_rtt_ms: self.ewma_rtt_ms,
            has_key: self.has_key,
        }
    }
}

impl Clone for NodeSnapshot {
    fn clone(&self) -> (r: Self)
        ensures
            r == *self,
    {
        NodeSnapshot {
            node_id: self.node_id.clone(),
            addr: self.addr.clone(),
            healthy: self.healthy,
            inflight: self.inflight,
            capacity: self.capacity,
            cache_bytes: self.cache_bytes,
            hits: self.hits,
            misses: self.misses,
            bandwidth_price: self.bandwidth_price,
            ewma_rtt_ms: self.ewma_rtt_ms,
            has_key: self.has_key,
        }
    }
}

impl NodeView {
    /// Whether two nodes are equal in everything; figures are compared as numbers.
    pub open spec fn same(self, other: NodeView) -> bool {
        &&& self.node_id == other.node_id
        &&& self.addr == other.addr
        &&& self.healthy == other.healthy
        &&& self.inflight == other.inflight
        &&& self.capacity == other.capacity
        &&& self.cache_bytes == other.cache_bytes
        &&& self.hits == other.hits
        &&& self.misses == other.misses
        &&& self.bandwidth_price.same(other.bandwidth_price)
        &&& self.ewma_rtt_ms.same(other.ewma_rtt_ms)
        &&& self.has_key == other.has_key
    }
}

impl PartialEq for NodeSnapshot {
    fn eq(&self, other: &NodeSnapshot) -> (r: bool) {
        same_text(self.node_id.as_str(), other.node_id.as_str()) && same_text(
            self.addr.as_str(),
            other.addr.as_str(),
        ) && self.healthy == other.healthy && self.inflight == other.inflight && self.capacity
            == other.capacity && self.cache_bytes == other.cache_bytes && self.hits == other.hits
            && self.misses == other.misses && self.bandwidth_price.equals(
            other.bandwidth_price,
        ) && self.ewma_rtt_ms.equals(other.ewma_rtt_ms) && self.has_key == other.has_key
    }
}

impl vstd::std_specs::cmp::PartialEqSpecImpl for NodeSnapshot {
    open spec fn obeys_eq_spec() -> bool {
        true
    }

    open spec fn eq_spec(&self, other: &NodeSnapshot) -> bool {
        self@.same(other@)
    }
}

/// The views of some nodes.
pub open spec fn views(nodes: Seq<NodeSnapshot>) -> Seq<NodeView> {
    Seq::new(nodes.len(), |i: int| nodes[i]@)
}

/// A node can take a request: it is healthy and below its capacity.
pub open spec fn can_serve(node: NodeView) -> bool {
    node.healthy && node.inflight < node.capacity
}

/// Whether a node can take a request.
pub fn viable(node: &NodeSnapshot) -> (r: bool)
    ensures
        r == can_serve(node@),
{
    node.healthy && node.inflight < node.capacity
}

// ---------------------------------------------------------------------------
// Rendezvous hashing
// ---------------------------------------------------------------------------
/// What the standard hash of a string feeds to a hasher.
pub uninterp spec fn hashed_writes(s: Seq<char>) -> Seq<Seq<u8>>;

/// `<str as std::hash::Hash>::hash`: feeds the string to the hasher, in writes that depend on
/// the string alone.
#[verifier::external_body]
fn hash_text(hasher: &mut DefaultHasher, s: &str)
    ensures
        final(hasher)@ == old(hasher)@ + hashed_writes(s@),
{
    s.hash(hasher)
}

/// The weight of a node for a key.
pub open spec fn weight(key: Seq<char>, node_id: Seq<char>) -> u64 {
    DefaultHasher::spec_finish(hashed_writes(key) + hashed_writes(node_id))
}

/// The weight of a node for a key: the hash of the two.
pub fn rendezvous_hash(key: &str, node_id: &str) -> (r: u64)
    ensures
        r == weight(key@, node_id@),
{
    let mut hasher = DefaultHasher::new();
    hash_text(&mut hasher, key);
    hash_text(&mut hasher, node_id);
    assert(hasher@ == hashed_writes(key@) + hashed_writes(node_id@));
    hasher.finish()
}

/// One node ranks no lower than another for a key: it weighs more, or it weighs the same and its
/// name does not come later.
pub open spec fn ranks_with(key: Seq<char>, a: Seq<char>, b: Seq<char>) -> bool {
    weight(key, a) > weight(key, b) || (weight(key, a) == weight(key, b) && !text_lt(b, a))
}

/// The order of nodes for a key.
pub open spec fn ranking_order(key: Seq<char>) -> spec_fn(Seq<char>, Seq<char>) -> bool {
    |a: Seq<char>, b: Seq<char>| ranks_with(key, a, b)
}

/// The nodes in their order for a key.
pub open spec fn ranking(key: Seq<char>, ids: Seq<Seq<char>>) -> Seq<Seq<char>> {
    ids.sort_by(ranking_order(key))
}

/// The `r` highest-ranking nodes, or all of them where there are fewer.
pub open spec fn top_ranked(key: Seq<char>, ids: Seq<Seq<char>>, r: int) -> Seq<Seq<char>> {
    ranking(key, ids).take(
        if r < ids.len() {
            r
        } else {
            ids.len() as int
        },
    )
}

/// The order of nodes for a key is total.
pub proof fn lemma_ranking_total(key: Seq<char>)
    ensures
        total_ordering(ranking_order(key)),
{
    let leq = ranking_order(key);
    assert(reflexive(leq)) by {
        assert forall|a: Seq<char>| #[trigger] leq(a, a) by {
            lemma_text_lt_irreflexive(a);
        }
    }
    assert(antisymmetric(leq)) by {
        assert forall|a: Seq<char>, b: Seq<char>| #[trigger] leq(a, b) && #[trigger] leq(
            b,
            a,
        ) implies a == b by {
            lemma_text_lt_total(a, b);
        }
    }
    assert(transitive(leq)) by {
        assert forall|a: Seq<char>, b: Seq<char>, c: Seq<char>| #[trigger] leq(a, b)
            && #[trigger] leq(b, c) implies leq(a, c) by {
            lemma_text_lt_total(a, b);
            lemma_text_lt_total(b, c);
            if text_lt(a, b) && text_lt(b, c) {
                lemma_text_lt_transitive(a, b, c);
            }
            if text_lt(c, a) && text_lt(a, c) {
                lemma_text_lt_transitive(a, c, a);
                lemma_text_lt_irreflexive(a);
            }
        }
    }
    assert(strongly_connected(leq)) by {
        assert forall|a: Seq<char>, b: Seq<char>| #[trigger] leq(a, b) || #[trigger] leq(b, a) by {
            if text_lt(a, b) && text_lt(b, a) {
                lemma_text_lt_transitive(a, b, a);
                lemma_text_lt_irreflexive(a);
            }
        }
    }
}

/// The characters of some names.
pub open spec fn texts(ids: Seq<&str>) -> Seq<Seq<char>> {
    Seq::new(ids.len(), |i: int| ids[i]@)
}

/// The names of weighed nodes.
spec fn names(ranked: Seq<(u64, &str)>) -> Seq<Seq<char>> {
    Seq::new(ranked.len(), |i: int| ranked[i].1@)
}

/// The names are in order, and each of them has its weight.
spec fn in_order(key: Seq<char>, ranked: Seq<(u64, &str)>) -> bool {
    &&& sorted_by(names(ranked), ranking_order(key))
    &&& forall|i: int| 0 <= i < ranked.len() ==> (#[trigger] ranked[i]).0 == weight(
        key,
        ranked[i].1@,
    )
}

/// Where a node goes among nodes that are in order: behind all that rank no lower.
fn place_for(key: &str, ranked: &Vec<(u64, &str)>, w: u64, id: &str) -> (p: usize)
    requires
        in_order(key@, ranked@),
        w == weight(key@, id@),
    ensures
        p <= ranked@.len(),
        forall|i: int| 0 <= i < p ==> ranks_with(key@, #[trigger] names(ranked@)[i], id@),
        forall|i: int|
            p <= i < ranked@.len() ==> ranks_with(key@, id@, #[trigger] names(ranked@)[i]),
{
    let mut p: usize = 0;
    while p < ranked.len()
        invariant
            p <= ranked@.len(),
            in_order(key@, ranked@),
            w == weight(key@, id@),
            forall|i: int| 0 <= i < p ==> ranks_with(key@, #[trigger] names(ranked@)[i], id@),
        decreases ranked@.len() - p,
    {
        let (v, other) = ranked[p];
        let stays: bool = v > w || (v == w && !text_less(id, other));
        if !stays {
            proof {
                let leq = ranking_order(key@);
                let s = names(ranked@);
                lemma_ranking_total(key@);
                assert(s[p as int] == other@);
                assert(leq(s[p as int], id@) || leq(id@, s[p as int]));
                assert forall|i: int| p <= i < ranked@.len() implies ranks_with(
                    key@,
                    id@,
                    #[trigger] s[i],
                ) by {
                    if i > p {
                        assert(leq(s[p as int], s[i]));
                        assert(leq(id@, s[i]));
                    }
                }
            }
            return p;
        }
        assert(names(ranked@)[p as int] == other@);
        p += 1;
    }
    p
}

/// The nodes that keep an object: those of the highest weights for its key, `r` of them where
/// there are so many. They come in the order of their ranks.
pub fn replica_set<'a>(key: &str, node_ids: &[&'a str], r: usize) -> (result: Vec<&'a str>)
    ensures
        texts(result@) == top_ranked(key@, texts(node_ids@), r as int),
{
    let ghost leq = ranking_order(key@);
    let ghost all = texts(node_ids@);
    let mut ranked: Vec<(u64, &'a str)> = Vec::new();
    let mut i: usize = 0;
    proof {
        lemma_ranking_total(key@);
        assert(names(ranked@) == all.take(0));
    }
    while i < node_ids.len()
        invariant
            i <= node_ids@.len(),
            all == texts(node_ids@),
            leq == ranking_order(key@),
            in_order(key@, ranked@),
            ranked@.len() == i,
            names(ranked@).to_multiset() == all.take(i as int).to_multiset(),
        decreases node_ids@.len() - i,
    {
        let id: &'a str = node_ids[i];
        let w: u64 = rendezvous_hash(key, id);
        let p: usize = place_for(key, &ranked, w, id);
        let ghost before = ranked@;
        ranked.insert(p, (w, id));
        proof {
            broadcast use group_to_multiset_ensures;

            assert(names(ranked@) == names(before).insert(p as int, id@));
            assert(all.take(i + 1) == all.take(i as int).push(id@));
            let s = names(ranked@);
            assert forall|j: int, k: int| 0 <= j < k < s.len() implies #[trigger] leq(
                s[j],
                s[k],
            ) by {
                let j1 = if j < p {
                    j
                } else {
                    j - 1
                };
                let k1 = if k < p {
                    k
                } else {
                    k - 1
                };
                if j != p && k != p {
                    assert(s[j] == names(before)[j1] && s[k] == names(before)[k1]);
                    assert(leq(names(before)[j1], names(before)[k1]));
                } else if j == p {
                    assert(s[k] == names(before)[k1]);
                } else {
                    assert(s[j] == names(before)[j1]);
                }
            }
        }
        i += 1;
    }
    proof {
        assert(all.take(i as int) == all);
        all.lemma_sort_by_ensures(leq);
        lemma_sorted_unique(names(ranked@), ranking(key@, all), leq);
    }
    let mut result: Vec<&'a str> = Vec::new();
    let mut j: usize = 0;
    while j < r && j < ranked.len()
        invariant
            j <= r,
            j <= ranked@.len(),
            result@.len() == j,
            texts(result@) == names(ranked@).take(j as int),
        decreases r - j,
    {
        let (_, id) = ranked[j];
        result.push(id);
        assert(texts(result@) == names(ranked@).take(j + 1));
        j += 1;
    }
    result
}

// ---------------------------------------------------------------------------
// Choosing
// ---------------------------------------------------------------------------
/// The names of some nodes.
pub open spec fn ids_of(nodes: Seq<NodeView>) -> Seq<Seq<char>> {
    Seq::new(nodes.len(), |i: int| nodes[i].node_id)
}

/// Node `x` comes after node `y`: its figure is greater, or neither figure is less (they are
/// equal, or one of them is not a number) and its name comes later.
pub open spec fn exceeds(nodes: Seq<NodeView>, figures: Seq<Double>, x: int, y: int) -> bool {
    figures[y].lt(figures[x]) || (!figures[x].lt(figures[y]) && text_lt(
        nodes[y].node_id,
        nodes[x].node_id,
    ))
}

/// The least of the eligible nodes among the first `n`: going through them in order, a node gives
/// way to one that it comes after.
pub open spec fn least(
    nodes: Seq<NodeView>,
    figures: Seq<Double>,
    eligible: Seq<bool>,
    n: int,
) -> Option<int>
    decreases n,
{
    if n <= 0 {
        None
    } else {
        let so_far = least(nodes, figures, eligible, n - 1);
        if !eligible[n - 1] {
            so_far
        } else {
            match so_far {
                None => Some(n - 1),
                Some(i) => if exceeds(nodes, figures, i, n - 1) {
                    Some(n - 1)
                } else {
                    Some(i)
                },
            }
        }
    }
}

/// Which nodes can take a request.
pub open spec fn viable_mask(nodes: Seq<NodeView>) -> Seq<bool> {
    Seq::new(nodes.len(), |i: int| can_serve(nodes[i]))
}

/// Which nodes are among the replicas and can take a request.
pub open spec fn replica_mask(nodes: Seq<NodeView>, replicas: Seq<Seq<char>>) -> Seq<bool> {
    Seq::new(
        nodes.len(),
        |i: int| replicas.contains(nodes[i].node_id) && can_serve(nodes[i]),
    )
}

/// The least viable node by a figure, the name deciding between equals.
pub open spec fn least_viable(nodes: Seq<NodeView>, figures: Seq<Double>) -> Option<int> {
    least(nodes, figures, viable_mask(nodes), nodes.len() as int)
}

/// The replicas of a key among some nodes; there is always room for one.
pub open spec fn replicas_of(key: Seq<char>, nodes: Seq<NodeView>, replica_factor: int) -> Seq<
    Seq<char>,
> {
    top_ranked(
        key,
        ids_of(nodes),
        if replica_factor < 1 {
            1
        } else {
            replica_factor
        },
    )
}

/// The node that should serve a key: the viable replica of the lowest score, or, where no replica
/// is viable, the viable node of the lowest score.
pub open spec fn chosen(
    key: Seq<char>,
    nodes: Seq<NodeView>,
    scores: Seq<Double>,
    replica_factor: int,
) -> Option<int> {
    let mask = replica_mask(nodes, replicas_of(key, nodes, replica_factor));
    match least(nodes, scores, mask, nodes.len() as int) {
        Some(i) => Some(i),
        None => least_viable(nodes, scores),
    }
}

/// The prices of some nodes.
pub open spec fn prices(nodes: Seq<NodeView>) -> Seq<Double> {
    Seq::new(nodes.len(), |i: int| nodes[i].bandwidth_price)
}

/// The round-trip times of some nodes.
pub open spec fn round_trips(nodes: Seq<NodeView>) -> Seq<Double> {
    Seq::new(nodes.len(), |i: int| nodes[i].ewma_rtt_ms)
}

/// The same figure for all of some nodes.
pub open spec fn no_figures(nodes: Seq<NodeView>) -> Seq<Double> {
    Seq::new(nodes.len(), |i: int| Double::spec_one())
}

/// The first viable node of the given name.
pub open spec fn first_viable(nodes: Seq<NodeView>, id: Seq<char>, n: int) -> Option<int>
    decreases n,
{
    if n <= 0 {
        None
    } else {
        match first_viable(nodes, id, n - 1) {
            Some(i) => Some(i),
            None => if nodes[n - 1].node_id == id && can_serve(nodes[n - 1]) {
                Some(n - 1)
            } else {
                None
            },
        }
    }
}

/// The first viable node in the order of the first `k` replicas.
pub open spec fn first_replica(nodes: Seq<NodeView>, replicas: Seq<Seq<char>>, k: int) -> Option<
    int,
>
    decreases k,
{
    if k <= 0 {
        None
    } else {
        match first_replica(nodes, replicas, k - 1) {
            Some(i) => Some(i),
            None => first_viable(nodes, replicas[k - 1], nodes.len() as int),
        }
    }
}

/// The node that hashing alone chooses: the first viable replica, or, where none is viable, the
/// viable node of the first name.
pub open spec fn chosen_by_hash(
    key: Seq<char>,
    nodes: Seq<NodeView>,
    replica_factor: int,
) -> Option<int> {
    let replicas = replicas_of(key, nodes, replica_factor);
    match first_replica(nodes, replicas, replicas.len() as int) {
        Some(i) => Some(i),
        None => least_viable(nodes, no_figures(nodes)),
    }
}

/// Whether a result is the node at an index, or nothing where there is no index.
pub open spec fn is_node_at(
    r: Option<&NodeSnapshot>,
    nodes: Seq<NodeSnapshot>,
    i: Option<int>,
) -> bool {
    match i {
        Some(k) => 0 <= k < nodes.len() && (r matches Some(node) && *node == nodes[k]),
        None => r is None,
    }
}

/// The least of the eligible nodes by a figure.
fn pick_min(nodes: &[NodeSnapshot], figures: &[Double], eligible: &[bool]) -> (r: Option<usize>)
    requires
        nodes@.len() == figures@.len(),
        nodes@.len() == eligible@.len(),
    ensures
        match r {
            Some(i) => i < nodes@.len() && least(
                views(nodes@),
                figures@,
                eligible@,
                nodes@.len() as int,
            ) == Some(i as int),
            None => least(views(nodes@), figures@, eligible@, nodes@.len() as int) is None,
        },
{
    let mut best: Option<usize> = None;
    let mut i: usize = 0;
    while i < nodes.len()
        invariant
            i <= nodes@.len(),
            nodes@.len() == figures@.len(),
            nodes@.len() == eligible@.len(),
            match best {
                Some(k) => k < i && least(views(nodes@), figures@, eligible@, i as int) == Some(
                    k as int,
                ),
                None => least(views(nodes@), figures@, eligible@, i as int) is None,
            },
        decreases nodes@.len() - i,
    {
        if eligible[i] {
            match best {
                None => {
                    best = Some(i);
                },
                Some(k) => {
                    let after: bool = figures[i].less(figures[k]) || (!figures[k].less(figures[i])
                        && text_less(nodes[i].node_id.as_str(), nodes[k].node_id.as_str()));
                    if after {
                        best = Some(i);
                    }
                },
            }
        }
        i += 1;
    }
    best
}

/// Which nodes can take a request.
fn viable_nodes(nodes: &[NodeSnapshot]) -> (r: Vec<bool>)
    ensures
        r@ == viable_mask(views(nodes@)),
{
    let mut r: Vec<bool> = Vec::new();
    let mut i: usize = 0;
    while i < nodes.len()
        invariant
            i <= nodes@.len(),
            r@ == viable_mask(views(nodes@)).take(i as int),
        decreases nodes@.len() - i,
    {
        r.push(viable(&nodes[i]));
        assert(r@ == viable_mask(views(nodes@)).take(i + 1));
        i += 1;
    }
    r
}

/// Whether a name is among some names.
fn is_among(ids: &Vec<&str>, id: &str) -> (r: bool)
    ensures
        r == texts(ids@).contains(id@),
{
    let mut i: usize = 0;
    while i < ids.len()
        invariant
            i <= ids@.len(),
            forall|j: int| 0 <= j < i ==> #[trigger] texts(ids@)[j] != id@,
        decreases ids@.len() - i,
    {
        if same_text(ids[i], id) {
            assert(texts(ids@)[i as int] == id@);
            return true;
        }
        i += 1;
    }
    false
}

/// The replicas of a key among some nodes.
fn find_replicas<'a>(key: &str, nodes: &'a [NodeSnapshot], replica_factor: usize) -> (r: Vec<
    &'a str,
>)
    ensures
        texts(r@) == replicas_of(key@, views(nodes@), replica_factor as int),
{
    let mut ids: Vec<&'a str> = Vec::new();
    let mut i: usize = 0;
    while i < nodes.len()
        invariant
            i <= nodes@.len(),
            texts(ids@) == ids_of(views(nodes@)).take(i as int),
        decreases nodes@.len() - i,
    {
        let ghost before = ids@;
        ids.push(nodes[i].node_id.as_str());
        assert(texts(ids@) == texts(before).push(nodes@[i as int]@.node_id));
        assert(texts(ids@) == ids_of(views(nodes@)).take(i + 1));
        i += 1;
    }
    assert(texts(ids@) == ids_of(views(nodes@)));
    replica_set(
        key,
        ids.as_slice(),
        if replica_factor < 1 {
            1
        } else {
            replica_factor
        },
    )
}

/// The index of the node that should serve a key, by the scores of the nodes: the lowest score
/// among the viable replicas of the key, else the lowest among all viable nodes. The first name
/// decides between equal scores.
pub fn choose_index(
    key: &str,
    nodes: &[NodeSnapshot],
    scores: &[Double],
    replica_factor: usize,
) -> (r: Option<usize>)
    requires
        nodes@.len() == scores@.len(),
    ensures
        match r {
            Some(i) => i < nodes@.len() && chosen(
                key@,
                views(nodes@),
                scores@,
                replica_factor as int,
            ) == Some(i as int),
            None => chosen(key@, views(nodes@), scores@, replica_factor as int) is None,
        },
{
    let replicas = find_replicas(key, nodes, replica_factor);
    let ghost mask = replica_mask(views(nodes@), texts(replicas@));
    let mut candidates: Vec<bool> = Vec::new();
    let mut i: usize = 0;
    while i < nodes.len()
        invariant
            i <= nodes@.len(),
            mask == replica_mask(views(nodes@), texts(replicas@)),
            candidates@ == mask.take(i as int),
        decreases nodes@.len() - i,
    {
        candidates.push(is_among(&replicas, nodes[i].node_id.as_str()) && viable(&nodes[i]));
        assert(candidates@ == mask.take(i + 1));
        i += 1;
    }
    assert(candidates@ == mask);
    match pick_min(nodes, scores, candidates.as_slice()) {
        Some(k) => Some(k),
        None => {
            let all = viable_nodes(nodes);
            pick_min(nodes, scores, all.as_slice())
        },
    }
}

/// Chooses the node that should serve a key, by the scores of the nodes: the lowest score among
/// the viable replicas of the key, else the lowest among all viable nodes. The first name decides
/// between equal scores.
pub fn choose_node<'a>(
    key: &str,
    nodes: &'a [NodeSnapshot],
    scores: &[Double],
    replica_factor: usize,
) -> (r: Option<&'a NodeSnapshot>)
    requires
        nodes@.len() == scores@.len(),
    ensures
        is_node_at(r, nodes@, chosen(key@, views(nodes@), scores@, replica_factor as int)),
{
    match choose_index(key, nodes, scores, replica_factor) {
        Some(k) => Some(&nodes[k]),
        None => None,
    }
}

/// The viable node of the lowest bandwidth price, wherever the object may be cached.
pub fn choose_cheapest(nodes: &[NodeSnapshot]) -> (r: Option<&NodeSnapshot>)
    ensures
        is_node_at(r, nodes@, least_viable(views(nodes@), prices(views(nodes@)))),
{
    let mut figures: Vec<Double> = Vec::new();
    let mut i: usize = 0;
    while i < nodes.len()
        invariant
            i <= nodes@.len(),
            figures@ == prices(views(nodes@)).take(i as int),
        decreases nodes@.len() - i,
    {
        figures.push(nodes[i].bandwidth_price);
        assert(figures@ == prices(views(nodes@)).take(i + 1));
        i += 1;
    }
    assert(figures@ == prices(views(nodes@)));
    let all = viable_nodes(nodes);
    match pick_min(nodes, figures.as_slice(), all.as_slice()) {
        Some(k) => Some(&nodes[k]),
        None => None,
    }
}

/// The viable node of the shortest round trip.
pub fn choose_nearest(nodes: &[NodeSnapshot]) -> (r: Option<&NodeSnapshot>)
    ensures
        is_node_at(r, nodes@, least_viable(views(nodes@), round_trips(views(nodes@)))),
{
    let mut figures: Vec<Double> = Vec::new();
    let mut i: usize = 0;
    while i < nodes.len()
        invariant
            i <= nodes@.len(),
            figures@ == round_trips(views(nodes@)).take(i as int),
        decreases nodes@.len() - i,
    {
        figures.push(nodes[i].ewma_rtt_ms);
        assert(figures@ == round_trips(views(nodes@)).take(i + 1));
        i += 1;
    }
    assert(figures@ == round_trips(views(nodes@)));
    let all = viable_nodes(nodes);
    match pick_min(nodes, figures.as_slice(), all.as_slice()) {
        Some(k) => Some(&nodes[k]),
        None => None,
    }
}

/// The first viable node of the given name.
fn find_viable(nodes: &[NodeSnapshot], id: &str) -> (r: Option<usize>)
    ensures
        match r {
            Some(i) => i < nodes@.len() && first_viable(views(nodes@), id@, nodes@.len() as int)
                == Some(i as int),
            None => first_viable(views(nodes@), id@, nodes@.len() as int) is None,
        },
{
    let mut found: Option<usize> = None;
    let mut i: usize = 0;
    while i < nodes.len()
        invariant
            i <= nodes@.len(),
            match found {
                Some(k) => k < i && first_viable(views(nodes@), id@, i as int) == Some(k as int),
                None => first_viable(views(nodes@), id@, i as int) is None,
            },
        decreases nodes@.len() - i,
    {
        if found.is_none() && same_text(nodes[i].node_id.as_str(), id) && viable(&nodes[i]) {
            found = Some(i);
        }
        i += 1;
    }
    found
}

/// The first viable replica of a key, without regard to cost or cache; where no replica is
/// viable, the viable node of the first name.
pub fn choose_hash_only<'a>(
    key: &str,
    nodes: &'a [NodeSnapshot],
    replica_factor: usize,
) -> (r: Option<&'a NodeSnapshot>)
    ensures
        is_node_at(r, nodes@, chosen_by_hash(key@, views(nodes@), replica_factor as int)),
{
    let replicas = find_replicas(key, nodes, replica_factor);
    let mut k: usize = 0;
    while k < replicas.len()
        invariant
            k <= replicas@.len(),
            texts(replicas@) == replicas_of(key@, views(nodes@), replica_factor as int),
            first_replica(views(nodes@), texts(replicas@), k as int) is None,
        decreases replicas@.len() - k,
    {
        assert(texts(replicas@)[k as int] == replicas@[k as int]@);
        match find_viable(nodes, replicas[k]) {
            Some(i) => {
                proof {
                    lemma_first_replica(views(nodes@), texts(replicas@), k + 1);
                }
                return Some(&nodes[i]);
            },
            None => {},
        }
        k += 1;
    }
    let mut figures: Vec<Double> = Vec::new();
    let mut i: usize = 0;
    while i < nodes.len()
        invariant
            i <= nodes@.len(),
            figures@ == no_figures(views(nodes@)).take(i as int),
        decreases nodes@.len() - i,
    {
        figures.push(Double::one());
        assert(figures@ == no_figures(views(nodes@)).take(i + 1));
        i += 1;
    }
    assert(figures@ == no_figures(views(nodes@)));
    let all = viable_nodes(nodes);
    match pick_min(nodes, figures.as_slice(), all.as_slice()) {
        Some(i) => Some(&nodes[i]),
        None => None,
    }
}

/// Once a replica is found, further ones do not matter.
proof fn lemma_first_replica(nodes: Seq<NodeView>, replicas: Seq<Seq<char>>, k: int)
    requires
        0 <= k <= replicas.len(),
        first_replica(nodes, replicas, k) is Some,
    ensures
        first_replica(nodes, replicas, replicas.len() as int) == first_replica(nodes, replicas, k),
    decreases replicas.len() - k,
{
    if k < replicas.len() {
        lemma_first_replica(nodes, replicas, k + 1);
    }
}

} // verus!
