//! What holds of replica sets and of the choice of an edge.
use std::collections::hash_map::DefaultHasher;
use vstd::prelude::*;
use vstd::relations::*;
use vstd::seq_lib::*;
use vstd::std_specs::hash::*;

use crate::binary64::Double;
use crate::steering::{
    can_serve, chosen, chosen_by_hash, exceeds, first_replica, first_viable, hashed_writes, ids_of,
    is_node_at, least, least_viable, lemma_ranking_total, no_figures, prices, ranking,
    ranking_order, ranks_with, replica_mask, replicas_of, round_trips, texts, top_ranked,
    viable_mask, views, weight, NodeSnapshot, NodeView,
};
use crate::text::{
    lemma_text_lt_irreflexive, lemma_text_lt_total, lemma_text_lt_transitive, text_lt,
};

verus! {

// ---------------------------------------------------------------------------
// Replica sets
// ---------------------------------------------------------------------------
/// A ranking holds the nodes that it ranks, and is in order.
proof fn lemma_ranking(key: Seq<char>, ids: Seq<Seq<char>>)
    ensures
        ranking(key, ids).len() == ids.len(),
        ranking(key, ids).to_multiset() == ids.to_multiset(),
        sorted_by(ranking(key, ids), ranking_order(key)),
        forall|id: Seq<char>| ranking(key, ids).contains(id) <==> #[trigger] ids.contains(id),
{
    broadcast use group_to_multiset_ensures;

    lemma_ranking_total(key);
    ids.lemma_sort_by_ensures(ranking_order(key));
    assert(ids.to_multiset().len() == ids.len());
    assert(ranking(key, ids).to_multiset().len() == ranking(key, ids).len());
    assert forall|id: Seq<char>| ranking(key, ids).contains(id) <==> #[trigger] ids.contains(
        id,
    ) by {
        assert(ids.contains(id) <==> ids.to_multiset().count(id) > 0);
        assert(ranking(key, ids).contains(id) <==> ranking(key, ids).to_multiset().count(id) > 0);
    }
}

/// A replica set has as many nodes as it should, all of them nodes that are there.
pub proof fn law_replica_set_size(key: Seq<char>, ids: Seq<Seq<char>>, r: int, id: Seq<char>)
    requires
        0 <= r,
    ensures
        top_ranked(key, ids, r).len() == (if r < ids.len() {
            r
        } else {
            ids.len() as int
        }),
        top_ranked(key, ids, r).contains(id) ==> ids.contains(id),
        r >= ids.len() && ids.contains(id) ==> top_ranked(key, ids, r).contains(id),
{
    lemma_ranking(key, ids);
    let s = ranking(key, ids);
    let t = top_ranked(key, ids, r);
    if t.contains(id) {
        let i = choose|i: int| 0 <= i < t.len() && t[i] == id;
        assert(s[i] == id);
    }
    if r >= ids.len() {
        assert(t == s);
    }
}

/// Asking for more replicas only adds to them.
pub proof fn law_replica_set_grows(key: Seq<char>, ids: Seq<Seq<char>>, r: int, more: int)
    requires
        0 <= r <= more,
    ensures
        top_ranked(key, ids, r).is_prefix_of(top_ranked(key, ids, more)),
{
    lemma_ranking(key, ids);
    let t = top_ranked(key, ids, r);
    let u = top_ranked(key, ids, more);
    assert(t == u.subrange(0, t.len() as int));
}

/// The replica set of a key depends on which nodes there are, not on the order in which they are
/// listed.
pub proof fn law_replica_set_ignores_order(
    key: Seq<char>,
    a: Seq<Seq<char>>,
    b: Seq<Seq<char>>,
    r: int,
)
    requires
        a.to_multiset() == b.to_multiset(),
    ensures
        top_ranked(key, a, r) == top_ranked(key, b, r),
{
    broadcast use group_to_multiset_ensures;

    lemma_ranking(key, a);
    lemma_ranking(key, b);
    lemma_ranking_total(key);
    lemma_sorted_unique(ranking(key, a), ranking(key, b), ranking_order(key));
}

/// A node that leaves takes no other with it: the ranking of the nodes that stay is the ranking
/// as it was, without the one that left.
pub proof fn law_departure_keeps_ranking(key: Seq<char>, ids: Seq<Seq<char>>, i: int, p: int)
    requires
        0 <= i < ids.len(),
        0 <= p < ids.len(),
        ranking(key, ids)[p] == ids[i],
    ensures
        ranking(key, ids.remove(i)) == ranking(key, ids).remove(p),
{
    broadcast use group_to_multiset_ensures;

    let leq = ranking_order(key);
    let s = ranking(key, ids);
    let t = s.remove(p);
    lemma_ranking(key, ids);
    lemma_ranking(key, ids.remove(i));
    lemma_ranking_total(key);
    assert(t.to_multiset() == ids.remove(i).to_multiset());
    assert(sorted_by(t, leq)) by {
        assert forall|j: int, k: int| 0 <= j < k < t.len() implies #[trigger] leq(t[j], t[k]) by {
            let j1 = if j < p {
                j
            } else {
                j + 1
            };
            let k1 = if k < p {
                k
            } else {
                k + 1
            };
            assert(leq(s[j1], s[k1]));
        }
    }
    lemma_sorted_unique(ranking(key, ids.remove(i)), t, leq);
}

/// The replicas of a key stay where they are when another node leaves.
pub proof fn law_departure_of_another(key: Seq<char>, ids: Seq<Seq<char>>, i: int, r: int)
    requires
        0 <= i < ids.len(),
        0 <= r,
        !top_ranked(key, ids, r).contains(ids[i]),
    ensures
        top_ranked(key, ids.remove(i), r) == top_ranked(key, ids, r),
{
    lemma_ranking(key, ids);
    let s = ranking(key, ids);
    assert(ids.contains(ids[i]));
    let p = choose|p: int| 0 <= p < s.len() && s[p] == ids[i];
    law_departure_keeps_ranking(key, ids, i, p);
    let t = top_ranked(key, ids, r);
    if p < t.len() {
        assert(t[p] == ids[i]);
        assert(false);
    }
    assert(r < ids.len());
    assert(s.remove(p).take(r) == s.take(r));
}

// ---------------------------------------------------------------------------
// The least of some nodes
// ---------------------------------------------------------------------------
/// Whether none of the eligible nodes has a figure that is not a number.
pub open spec fn figures_are_numbers(figures: Seq<Double>, eligible: Seq<bool>) -> bool {
    forall|i: int|
        0 <= i < figures.len() && #[trigger] eligible[i] ==> !figures[i].is_nan()
}

/// Between numbers, coming after is transitive.
proof fn lemma_exceeds_transitive(
    nodes: Seq<NodeView>,
    figures: Seq<Double>,
    x: int,
    y: int,
    z: int,
)
    requires
        !figures[x].is_nan(),
        !figures[y].is_nan(),
        !figures[z].is_nan(),
        exceeds(nodes, figures, x, y),
        exceeds(nodes, figures, y, z),
    ensures
        exceeds(nodes, figures, x, z),
{
    if text_lt(nodes[z].node_id, nodes[y].node_id) && text_lt(
        nodes[y].node_id,
        nodes[x].node_id,
    ) {
        lemma_text_lt_transitive(nodes[z].node_id, nodes[y].node_id, nodes[x].node_id);
    }
}

/// Between numbers, of two nodes at most one comes after the other, and where neither does they
/// agree in figure and name.
proof fn lemma_exceeds_asymmetric(nodes: Seq<NodeView>, figures: Seq<Double>, x: int, y: int)
    requires
        !figures[x].is_nan(),
        !figures[y].is_nan(),
    ensures
        !(exceeds(nodes, figures, x, y) && exceeds(nodes, figures, y, x)),
        !exceeds(nodes, figures, x, y) && !exceeds(nodes, figures, y, x) ==> nodes[x].node_id
            == nodes[y].node_id && figures[x].rank() == figures[y].rank(),
{
    let a = nodes[x].node_id;
    let b = nodes[y].node_id;
    lemma_text_lt_total(a, b);
    if text_lt(a, b) && text_lt(b, a) {
        lemma_text_lt_transitive(a, b, a);
        lemma_text_lt_irreflexive(a);
    }
}

/// The least node is there exactly if a node is eligible, and is eligible itself.
proof fn lemma_least_exists(
    nodes: Seq<NodeView>,
    figures: Seq<Double>,
    eligible: Seq<bool>,
    n: int,
)
    requires
        0 <= n <= eligible.len(),
    ensures
        least(nodes, figures, eligible, n) is Some <==> exists|i: int|
            0 <= i < n && #[trigger] eligible[i],
        least(nodes, figures, eligible, n) matches Some(i) ==> 0 <= i < n && eligible[i],
    decreases n,
{
    if n > 0 {
        lemma_least_exists(nodes, figures, eligible, n - 1);
    }
}

/// Between numbers, the least node comes after none of the eligible ones.
pub proof fn law_least_is_least(
    nodes: Seq<NodeView>,
    figures: Seq<Double>,
    eligible: Seq<bool>,
    n: int,
    j: int,
)
    requires
        0 <= j < n <= eligible.len(),
        nodes.len() == eligible.len(),
        figures.len() == eligible.len(),
        figures_are_numbers(figures, eligible),
        eligible[j],
    ensures
        least(nodes, figures, eligible, n) matches Some(i) && !exceeds(nodes, figures, i, j),
    decreases n,
{
    lemma_least_exists(nodes, figures, eligible, n);
    lemma_least_exists(nodes, figures, eligible, n - 1);
    let i = least(nodes, figures, eligible, n)->0;
    if j < n - 1 {
        law_least_is_least(nodes, figures, eligible, n - 1, j);
        let h = least(nodes, figures, eligible, n - 1)->0;
        if i != h {
            assert(i == n - 1 && exceeds(nodes, figures, h, i));
            if exceeds(nodes, figures, i, j) {
                lemma_exceeds_transitive(nodes, figures, h, i, j);
            }
        }
    } else {
        lemma_exceeds_asymmetric(nodes, figures, j, j);
        if i != j {
            assert(!exceeds(nodes, figures, i, j));
        }
    }
}

// ---------------------------------------------------------------------------
// The choice of an edge
// ---------------------------------------------------------------------------
/// Whether node `i` competes for a key: it is viable, and it is a replica unless no replica is
/// viable.
pub open spec fn competes(
    key: Seq<char>,
    nodes: Seq<NodeView>,
    replica_factor: int,
    i: int,
) -> bool {
    let replicas = replicas_of(key, nodes, replica_factor);
    &&& 0 <= i < nodes.len()
    &&& can_serve(nodes[i])
    &&& replicas.contains(nodes[i].node_id) || forall|j: int|
        0 <= j < nodes.len() && can_serve(#[trigger] nodes[j]) ==> !replicas.contains(
            nodes[j].node_id,
        )
}

/// A node is chosen exactly if one is viable, and the one that is chosen is viable: no request is
/// turned away as long as one node can serve it.
pub proof fn law_choice_exists(
    key: Seq<char>,
    nodes: Seq<NodeView>,
    scores: Seq<Double>,
    replica_factor: int,
)
    ensures
        chosen(key, nodes, scores, replica_factor) is Some <==> exists|i: int|
            0 <= i < nodes.len() && can_serve(#[trigger] nodes[i]),
        chosen(key, nodes, scores, replica_factor) matches Some(i) ==> competes(
            key,
            nodes,
            replica_factor,
            i,
        ),
{
    let n = nodes.len() as int;
    let replicas = replicas_of(key, nodes, replica_factor);
    let first = replica_mask(nodes, replicas);
    let all = viable_mask(nodes);
    lemma_least_exists(nodes, scores, first, n);
    lemma_least_exists(nodes, scores, all, n);
    if exists|i: int| 0 <= i < nodes.len() && can_serve(#[trigger] nodes[i]) {
        let i = choose|i: int| 0 <= i < nodes.len() && can_serve(#[trigger] nodes[i]);
        assert(all[i]);
    }
    if let Some(i) = chosen(key, nodes, scores, replica_factor) {
        if least(nodes, scores, first, n) is None {
            assert(all[i]);
            assert forall|j: int|
                0 <= j < n && can_serve(#[trigger] nodes[j]) implies !replicas.contains(
                nodes[j].node_id,
            ) by {
                assert(!first[j]);
            }
        } else {
            assert(first[i]);
        }
    }
}

/// The lowest score wins: where scores are numbers, no competing node has a lower score than the
/// one that is chosen, and none of the same score has an earlier name.
pub proof fn law_lowest_score_wins(
    key: Seq<char>,
    nodes: Seq<NodeView>,
    scores: Seq<Double>,
    replica_factor: int,
    j: int,
)
    requires
        nodes.len() == scores.len(),
        forall|i: int| 0 <= i < scores.len() ==> !(#[trigger] scores[i]).is_nan(),
        competes(key, nodes, replica_factor, j),
    ensures
        chosen(key, nodes, scores, replica_factor) matches Some(i) && !scores[j].lt(scores[i])
            && (scores[i].lt(scores[j]) || !text_lt(nodes[j].node_id, nodes[i].node_id)),
{
    let n = nodes.len() as int;
    let replicas = replicas_of(key, nodes, replica_factor);
    let first = replica_mask(nodes, replicas);
    let all = viable_mask(nodes);
    law_choice_exists(key, nodes, scores, replica_factor);
    lemma_least_exists(nodes, scores, first, n);
    if replicas.contains(nodes[j].node_id) {
        assert(first[j]);
        law_least_is_least(nodes, scores, first, n, j);
    } else {
        assert forall|k: int| 0 <= k < n implies !(#[trigger] first[k]) by {
            if can_serve(nodes[k]) {
                assert(!replicas.contains(nodes[k].node_id));
            }
        }
        assert(all[j]);
        law_least_is_least(nodes, scores, all, n, j);
    }
}

/// Whether no two nodes share a name.
pub open spec fn names_differ(nodes: Seq<NodeView>) -> bool {
    forall|i: int, j: int|
        0 <= i < j < nodes.len() ==> (#[trigger] nodes[i]).node_id != (#[trigger] nodes[j]).node_id
}

/// Whether every node of the first list is in the second, with its score.
pub open spec fn listed_in(
    a: Seq<NodeView>,
    a_scores: Seq<Double>,
    b: Seq<NodeView>,
    b_scores: Seq<Double>,
) -> bool {
    forall|i: int| #![trigger a[i]]
        0 <= i < a.len() ==> exists|j: int|
            0 <= j < b.len() && #[trigger] b[j] == a[i] && b_scores[j] == a_scores[i]
}

proof fn lemma_same_ids(
    a: Seq<NodeView>,
    a_scores: Seq<Double>,
    b: Seq<NodeView>,
    b_scores: Seq<Double>,
)
    requires
        names_differ(a),
        names_differ(b),
        listed_in(a, a_scores, b, b_scores),
        listed_in(b, b_scores, a, a_scores),
    ensures
        ids_of(a).to_multiset() == ids_of(b).to_multiset(),
{
    broadcast use group_to_multiset_ensures;

    let x = ids_of(a);
    let y = ids_of(b);
    assert(x.no_duplicates()) by {
        assert forall|i: int, j: int| 0 <= i < x.len() && 0 <= j < x.len() && i != j implies x[i]
            != x[j] by {
            if i < j {
                assert(a[i].node_id != a[j].node_id);
            } else {
                assert(a[j].node_id != a[i].node_id);
            }
        }
    }
    assert(y.no_duplicates()) by {
        assert forall|i: int, j: int| 0 <= i < y.len() && 0 <= j < y.len() && i != j implies y[i]
            != y[j] by {
            if i < j {
                assert(b[i].node_id != b[j].node_id);
            } else {
                assert(b[j].node_id != b[i].node_id);
            }
        }
    }
    x.lemma_multiset_has_no_duplicates();
    y.lemma_multiset_has_no_duplicates();
    assert forall|id: Seq<char>| x.contains(id) <==> y.contains(id) by {
        if x.contains(id) {
            let i = choose|i: int| 0 <= i < x.len() && x[i] == id;
            assert(a[i].node_id == id);
            let j = choose|j: int|
                0 <= j < b.len() && #[trigger] b[j] == a[i] && b_scores[j] == a_scores[i];
            assert(y[j] == id);
        }
        if y.contains(id) {
            let i = choose|i: int| 0 <= i < y.len() && y[i] == id;
            assert(b[i].node_id == id);
            let j = choose|j: int|
                0 <= j < a.len() && #[trigger] a[j] == b[i] && a_scores[j] == b_scores[i];
            assert(x[j] == id);
        }
    }
    assert forall|id: Seq<char>| x.to_multiset().count(id) == y.to_multiset().count(id) by {
        assert(x.contains(id) <==> x.to_multiset().count(id) > 0);
        assert(y.contains(id) <==> y.to_multiset().count(id) > 0);
        if x.to_multiset().count(id) > 0 {
            assert(x.to_multiset().contains(id));
        }
        if y.to_multiset().count(id) > 0 {
            assert(y.to_multiset().contains(id));
        }
    }
    assert(x.to_multiset() =~= y.to_multiset());
}

/// A node that competes in one list competes in every other with the same nodes.
proof fn lemma_competes_in_both(
    key: Seq<char>,
    a: Seq<NodeView>,
    a_scores: Seq<Double>,
    b: Seq<NodeView>,
    b_scores: Seq<Double>,
    replica_factor: int,
    i: int,
    j: int,
)
    requires
        listed_in(b, b_scores, a, a_scores),
        replicas_of(key, a, replica_factor) == replicas_of(key, b, replica_factor),
        competes(key, a, replica_factor, i),
        0 <= j < b.len(),
        b[j] == a[i],
    ensures
        competes(key, b, replica_factor, j),
{
    let replicas = replicas_of(key, a, replica_factor);
    if !replicas.contains(b[j].node_id) {
        assert forall|k: int|
            0 <= k < b.len() && can_serve(#[trigger] b[k]) implies !replicas.contains(
            b[k].node_id,
        ) by {
            let h = choose|h: int|
                0 <= h < a.len() && #[trigger] a[h] == b[k] && a_scores[h] == b_scores[k];
            assert(can_serve(a[h]));
        }
    }
}

/// The choice depends on the nodes and their scores, not on the order in which they are listed.
pub proof fn law_choice_ignores_order(
    key: Seq<char>,
    a: Seq<NodeView>,
    a_scores: Seq<Double>,
    b: Seq<NodeView>,
    b_scores: Seq<Double>,
    replica_factor: int,
)
    requires
        a.len() == a_scores.len(),
        b.len() == b_scores.len(),
        names_differ(a),
        names_differ(b),
        listed_in(a, a_scores, b, b_scores),
        listed_in(b, b_scores, a, a_scores),
        forall|i: int| 0 <= i < a_scores.len() ==> !(#[trigger] a_scores[i]).is_nan(),
        forall|i: int| 0 <= i < b_scores.len() ==> !(#[trigger] b_scores[i]).is_nan(),
    ensures
        match (
            chosen(key, a, a_scores, replica_factor),
            chosen(key, b, b_scores, replica_factor),
        ) {
            (Some(i), Some(j)) => a[i] == b[j],
            (None, None) => true,
            _ => false,
        },
{
    assert(replicas_of(key, a, replica_factor) == replicas_of(key, b, replica_factor)) by {
        lemma_same_ids(a, a_scores, b, b_scores);
        let r = if replica_factor < 1 {
            1
        } else {
            replica_factor
        };
        law_replica_set_ignores_order(key, ids_of(a), ids_of(b), r);
    }
    law_choice_exists(key, a, a_scores, replica_factor);
    law_choice_exists(key, b, b_scores, replica_factor);
    if let Some(i) = chosen(key, a, a_scores, replica_factor) {
        let j = choose|j: int|
            0 <= j < b.len() && #[trigger] b[j] == a[i] && b_scores[j] == a_scores[i];
        lemma_competes_in_both(key, a, a_scores, b, b_scores, replica_factor, i, j);
        law_lowest_score_wins(key, b, b_scores, replica_factor, j);
        let w = chosen(key, b, b_scores, replica_factor)->0;
        let v = choose|v: int|
            0 <= v < a.len() && #[trigger] a[v] == b[w] && a_scores[v] == b_scores[w];
        lemma_competes_in_both(key, b, b_scores, a, a_scores, replica_factor, w, v);
        law_lowest_score_wins(key, a, a_scores, replica_factor, v);
        lemma_text_lt_total(a[i].node_id, a[v].node_id);
        assert(a[i].node_id == a[v].node_id);
        if i < v {
            assert(a[i].node_id != a[v].node_id);
        } else if v < i {
            assert(a[v].node_id != a[i].node_id);
        }
    } else if chosen(key, b, b_scores, replica_factor) is Some {
        let k = choose|k: int| 0 <= k < b.len() && can_serve(#[trigger] b[k]);
        let h = choose|h: int|
            0 <= h < a.len() && #[trigger] a[h] == b[k] && a_scores[h] == b_scores[k];
        assert(can_serve(a[h]));
    }
}

/// Whether two lists hold the same nodes but for the hints which of them hold the object.
pub open spec fn differ_in_hints(a: Seq<NodeView>, b: Seq<NodeView>) -> bool {
    &&& a.len() == b.len()
    &&& forall|i: int|
        0 <= i < a.len() ==> (#[trigger] b[i]) == (NodeView { has_key: b[i].has_key, ..a[i] })
}

/// A better score keeps the choice: where the score of the node that is chosen does not rise and
/// that of no other node falls, as when the chosen node comes to hold the object or others lose
/// it, the same node is chosen again.
pub proof fn law_better_score_keeps_the_choice(
    key: Seq<char>,
    a: Seq<NodeView>,
    a_scores: Seq<Double>,
    b: Seq<NodeView>,
    b_scores: Seq<Double>,
    replica_factor: int,
    i: int,
)
    requires
        a.len() == a_scores.len(),
        b.len() == b_scores.len(),
        names_differ(a),
        differ_in_hints(a, b),
        forall|j: int| 0 <= j < a_scores.len() ==> !(#[trigger] a_scores[j]).is_nan(),
        forall|j: int| 0 <= j < b_scores.len() ==> !(#[trigger] b_scores[j]).is_nan(),
        chosen(key, a, a_scores, replica_factor) == Some(i),
        !a_scores[i].lt(b_scores[i]),
        forall|j: int|
            0 <= j < b_scores.len() && j != i ==> !(#[trigger] b_scores[j]).lt(a_scores[j]),
    ensures
        chosen(key, b, b_scores, replica_factor) == Some(i),
{
    assert(ids_of(a) == ids_of(b));
    let replicas = replicas_of(key, a, replica_factor);
    assert(replicas == replicas_of(key, b, replica_factor));
    law_choice_exists(key, a, a_scores, replica_factor);
    assert(b[i].node_id == a[i].node_id && can_serve(b[i]));
    assert(competes(key, b, replica_factor, i)) by {
        if !replicas.contains(b[i].node_id) {
            assert forall|j: int|
                0 <= j < b.len() && can_serve(#[trigger] b[j]) implies !replicas.contains(
                b[j].node_id,
            ) by {
                assert(can_serve(a[j]));
            }
        }
    }
    law_lowest_score_wins(key, b, b_scores, replica_factor, i);
    law_choice_exists(key, b, b_scores, replica_factor);
    let w = chosen(key, b, b_scores, replica_factor)->0;
    assert(b[w].node_id == a[w].node_id && can_serve(a[w]));
    assert(competes(key, a, replica_factor, w)) by {
        if !replicas.contains(a[w].node_id) {
            assert forall|j: int|
                0 <= j < a.len() && can_serve(#[trigger] a[j]) implies !replicas.contains(
                a[j].node_id,
            ) by {
                assert(can_serve(b[j]));
            }
        }
    }
    law_lowest_score_wins(key, a, a_scores, replica_factor, w);
    if w != i {
        assert(!b_scores[w].lt(a_scores[w]));
        lemma_text_lt_total(a[i].node_id, a[w].node_id);
        if i < w {
            assert(a[i].node_id != a[w].node_id);
        } else {
            assert(a[w].node_id != a[i].node_id);
        }
    }
}

/// The scores of some nodes.
pub open spec fn scored(nodes: Seq<NodeView>, score: spec_fn(NodeView) -> Double) -> Seq<Double> {
    nodes.map_values(score)
}

/// A hint never turns the traffic away from the node that has it: where scores are numbers
/// and a hint does not raise them, and where the node that is chosen comes to hold the object
/// and others, if any, no longer do, the same node is chosen again.
pub proof fn law_hint_keeps_the_choice(
    key: Seq<char>,
    nodes: Seq<NodeView>,
    hinted: Seq<NodeView>,
    score: spec_fn(NodeView) -> Double,
    replica_factor: int,
    i: int,
)
    requires
        names_differ(nodes),
        forall|j: int| 0 <= j < nodes.len() ==> !score(#[trigger] nodes[j]).is_nan(),
        forall|j: int| 0 <= j < hinted.len() ==> !score(#[trigger] hinted[j]).is_nan(),
        forall|j: int|
            0 <= j < nodes.len() ==> !score((NodeView { has_key: false, ..nodes[j] })).lt(
                score((NodeView { has_key: true, ..#[trigger] nodes[j] })),
            ),
        chosen(key, nodes, scored(nodes, score), replica_factor) == Some(i),
        differ_in_hints(nodes, hinted),
        hinted[i].has_key,
        forall|j: int|
            0 <= j < nodes.len() && j != i && (#[trigger] hinted[j]).has_key ==> nodes[j].has_key,
    ensures
        chosen(key, hinted, scored(hinted, score), replica_factor) == Some(i),
{
    let a = scored(nodes, score);
    let b = scored(hinted, score);
    law_choice_exists(key, nodes, a, replica_factor);
    assert forall|j: int| 0 <= j < nodes.len() implies {
        &&& !(#[trigger] a[j]).is_nan()
        &&& !b[j].is_nan()
        &&& j == i ==> !a[j].lt(b[j])
        &&& j != i ==> !b[j].lt(a[j])
    } by {
        let n = nodes[j];
        assert(a[j] == score(n));
        assert(b[j] == score(hinted[j]));
        assert(hinted[j] == (NodeView { has_key: hinted[j].has_key, ..n }));
        let with = NodeView { has_key: true, ..n };
        let without = NodeView { has_key: false, ..n };
        assert(!score(without).lt(score(with)));
        assert(n == with || n == without);
        assert(hinted[j] == with || hinted[j] == without);
    }
    assert forall|j: int| 0 <= j < b.len() implies !(#[trigger] b[j]).is_nan() && (j != i
        ==> !b[j].lt(a[j])) by {
        assert(!a[j].is_nan());
    }
    law_better_score_keeps_the_choice(key, nodes, a, hinted, b, replica_factor, i);
}

/// A viable node of the given name is found exactly if there is one.
proof fn lemma_first_viable(nodes: Seq<NodeView>, id: Seq<char>, n: int)
    requires
        0 <= n <= nodes.len(),
    ensures
        first_viable(nodes, id, n) matches Some(i) ==> 0 <= i < n && nodes[i].node_id == id
            && can_serve(nodes[i]),
        first_viable(nodes, id, n) is None ==> forall|i: int|
            0 <= i < n && can_serve(#[trigger] nodes[i]) ==> nodes[i].node_id != id,
    decreases n,
{
    if n > 0 {
        lemma_first_viable(nodes, id, n - 1);
    }
}

proof fn lemma_first_replica_viable(nodes: Seq<NodeView>, replicas: Seq<Seq<char>>, k: int)
    requires
        0 <= k <= replicas.len(),
    ensures
        first_replica(nodes, replicas, k) matches Some(i) ==> 0 <= i < nodes.len() && can_serve(
            nodes[i],
        ) && replicas.contains(nodes[i].node_id),
    decreases k,
{
    if k > 0 {
        lemma_first_replica_viable(nodes, replicas, k - 1);
        lemma_first_viable(nodes, replicas[k - 1], nodes.len() as int);
    }
}

/// Hashing alone, too, finds a viable node exactly if there is one.
pub proof fn law_hash_choice_exists(key: Seq<char>, nodes: Seq<NodeView>, replica_factor: int)
    ensures
        chosen_by_hash(key, nodes, replica_factor) is Some <==> exists|i: int|
            0 <= i < nodes.len() && can_serve(#[trigger] nodes[i]),
        chosen_by_hash(key, nodes, replica_factor) matches Some(i) ==> 0 <= i < nodes.len()
            && can_serve(nodes[i]),
{
    let replicas = replicas_of(key, nodes, replica_factor);
    let all = viable_mask(nodes);
    lemma_first_replica_viable(nodes, replicas, replicas.len() as int);
    lemma_least_exists(nodes, no_figures(nodes), all, nodes.len() as int);
    if exists|i: int| 0 <= i < nodes.len() && can_serve(#[trigger] nodes[i]) {
        let i = choose|i: int| 0 <= i < nodes.len() && can_serve(#[trigger] nodes[i]);
        assert(all[i]);
    }
}

/// The baselines, too, find a viable node exactly if there is one, and, where their figures are
/// numbers, one than which no viable node has a lower figure.
pub proof fn law_baseline_choice(nodes: Seq<NodeView>, figures: Seq<Double>, j: int)
    requires
        nodes.len() == figures.len(),
        figures_are_numbers(figures, viable_mask(nodes)),
        0 <= j < nodes.len(),
        can_serve(nodes[j]),
    ensures
        least_viable(nodes, figures) matches Some(i) && 0 <= i < nodes.len() && can_serve(nodes[i])
            && !figures[j].lt(figures[i]),
{
    let all = viable_mask(nodes);
    assert(all[j]);
    lemma_least_exists(nodes, figures, all, nodes.len() as int);
    law_least_is_least(nodes, figures, all, nodes.len() as int, j);
}

// ---------------------------------------------------------------------------
// What a choice is, by weights and counts
// ---------------------------------------------------------------------------
/// Whether one name goes before another for a key: it weighs more, or it weighs the same and comes
/// earlier.
pub open spec fn goes_before(key: Seq<char>, a: Seq<char>, b: Seq<char>) -> bool {
    weight(key, a) > weight(key, b) || (weight(key, a) == weight(key, b) && text_lt(a, b))
}

/// How many of some names go before a name for a key.
pub open spec fn ahead(key: Seq<char>, ids: Seq<Seq<char>>, id: Seq<char>) -> nat
    decreases ids.len(),
{
    if ids.len() == 0 {
        0
    } else {
        ahead(key, ids.drop_last(), id) + if goes_before(key, ids.last(), id) {
            1nat
        } else {
            0nat
        }
    }
}

/// The names of some nodes, one for one.
pub open spec fn names_of(nodes: Seq<NodeView>) -> Seq<Seq<char>> {
    Seq::new(nodes.len(), |i: int| nodes[i].node_id)
}

proof fn lemma_ahead_add(key: Seq<char>, a: Seq<Seq<char>>, b: Seq<Seq<char>>, id: Seq<char>)
    ensures
        ahead(key, a + b, id) == ahead(key, a, id) + ahead(key, b, id),
    decreases b.len(),
{
    if b.len() == 0 {
        assert(a + b == a);
    } else {
        assert((a + b).drop_last() == a + b.drop_last());
        lemma_ahead_add(key, a, b.drop_last(), id);
    }
}

proof fn lemma_ahead_remove(key: Seq<char>, ids: Seq<Seq<char>>, i: int, id: Seq<char>)
    requires
        0 <= i < ids.len(),
    ensures
        ahead(key, ids, id) == ahead(key, ids.remove(i), id) + if goes_before(key, ids[i], id) {
            1nat
        } else {
            0nat
        },
{
    let a = ids.take(i);
    let b = ids.skip(i + 1);
    lemma_ahead_add(key, a, b, id);
    lemma_ahead_add(key, a.push(ids[i]), b, id);
    assert(a.push(ids[i]).drop_last() == a);
    assert(a.push(ids[i]) + b == ids);
    assert(a + b == ids.remove(i));
}

/// Counting does not depend on the order.
proof fn lemma_ahead_permuted(
    key: Seq<char>,
    a: Seq<Seq<char>>,
    b: Seq<Seq<char>>,
    id: Seq<char>,
)
    requires
        a.to_multiset() == b.to_multiset(),
    ensures
        ahead(key, a, id) == ahead(key, b, id),
    decreases a.len(),
{
    broadcast use group_to_multiset_ensures;

    assert(a.to_multiset().len() == a.len());
    assert(b.to_multiset().len() == b.len());
    if a.len() > 0 {
        let n = a.len() - 1;
        assert(a.contains(a[n]));
        assert(a.to_multiset().count(a[n]) > 0);
        assert(b.contains(a[n]));
        let j = choose|j: int| 0 <= j < b.len() && b[j] == a[n];
        lemma_ahead_remove(key, a, n, id);
        lemma_ahead_remove(key, b, j, id);
        assert(a.remove(n).to_multiset() == a.to_multiset().remove(a[n]));
        assert(b.remove(j).to_multiset() == b.to_multiset().remove(b[j]));
        lemma_ahead_permuted(key, a.remove(n), b.remove(j), id);
    }
}

/// All of some names that go before a name are counted.
proof fn lemma_ahead_all(key: Seq<char>, ids: Seq<Seq<char>>, id: Seq<char>)
    ensures
        ahead(key, ids, id) <= ids.len(),
        (forall|i: int| 0 <= i < ids.len() ==> goes_before(key, #[trigger] ids[i], id)) ==> ahead(
            key,
            ids,
            id,
        ) == ids.len(),
        (forall|i: int| 0 <= i < ids.len() ==> !goes_before(key, #[trigger] ids[i], id))
            ==> ahead(key, ids, id) == 0,
    decreases ids.len(),
{
    if ids.len() > 0 {
        let front = ids.drop_last();
        lemma_ahead_all(key, front, id);
        assert(forall|i: int| 0 <= i < front.len() ==> #[trigger] front[i] == ids[i]);
        if forall|i: int| 0 <= i < ids.len() ==> goes_before(key, #[trigger] ids[i], id) {
            assert forall|i: int| 0 <= i < front.len() implies goes_before(
                key,
                #[trigger] front[i],
                id,
            ) by {
                assert(goes_before(key, ids[i], id));
            }
            assert(goes_before(key, ids[ids.len() - 1], id));
        }
        if forall|i: int| 0 <= i < ids.len() ==> !goes_before(key, #[trigger] ids[i], id) {
            assert forall|i: int| 0 <= i < front.len() implies !goes_before(
                key,
                #[trigger] front[i],
                id,
            ) by {
                assert(!goes_before(key, ids[i], id));
            }
            assert(!goes_before(key, ids[ids.len() - 1], id));
        }
    }
}

/// In a ranking a name stands, for the first time, behind as many as go before it.
proof fn lemma_place_in_ranking(key: Seq<char>, ids: Seq<Seq<char>>, id: Seq<char>) -> (p: int)
    requires
        ids.contains(id),
    ensures
        0 <= p < ids.len(),
        p == ahead(key, ids, id),
        ranking(key, ids)[p] == id,
        forall|q: int| 0 <= q < p ==> #[trigger] ranking(key, ids)[q] != id,
{
    let s = ranking(key, ids);
    lemma_ranking(key, ids);
    assert(s.contains(id));
    let at = choose|q: int| 0 <= q < s.len() && s[q] == id;
    let p = lemma_first_place(s, id, at);
    assert forall|q: int| 0 <= q < p implies goes_before(key, #[trigger] s.take(p)[q], id) by {
        assert(ranking_order(key)(s[q], s[p]));
        assert(ranks_with(key, s[q], id));
        lemma_text_lt_total(s[q], id);
    }
    assert forall|q: int| 0 <= q < s.skip(p).len() implies !goes_before(
        key,
        #[trigger] s.skip(p)[q],
        id,
    ) by {
        lemma_text_lt_irreflexive(id);
        if q > 0 {
            assert(ranking_order(key)(s[p], s[p + q]));
            assert(ranks_with(key, id, s[p + q]));
        }
    }
    lemma_ahead_all(key, s.take(p), id);
    lemma_ahead_all(key, s.skip(p), id);
    lemma_ahead_add(key, s.take(p), s.skip(p), id);
    assert(s.take(p) + s.skip(p) == s);
    lemma_ahead_permuted(key, s, ids, id);
    p
}

proof fn lemma_first_place(s: Seq<Seq<char>>, id: Seq<char>, at: int) -> (p: int)
    requires
        0 <= at < s.len(),
        s[at] == id,
    ensures
        0 <= p <= at,
        s[p] == id,
        forall|q: int| 0 <= q < p ==> #[trigger] s[q] != id,
    decreases at,
{
    if exists|q: int| 0 <= q < at && #[trigger] s[q] == id {
        let q = choose|q: int| 0 <= q < at && #[trigger] s[q] == id;
        lemma_first_place(s, id, q)
    } else {
        at
    }
}

/// The replicas of a key are the nodes of the highest weights: a node is among the first `r`
/// exactly if it is there and fewer than `r` of the others go before it.
pub proof fn law_replicas_are_the_heaviest(
    key: Seq<char>,
    ids: Seq<Seq<char>>,
    r: int,
    id: Seq<char>,
)
    requires
        0 <= r,
    ensures
        top_ranked(key, ids, r).contains(id) <==> ids.contains(id) && ahead(key, ids, id) < r,
        forall|p: int, q: int|
            0 <= p < q < top_ranked(key, ids, r).len() ==> !goes_before(
                key,
                #[trigger] top_ranked(key, ids, r)[q],
                #[trigger] top_ranked(key, ids, r)[p],
            ),
{
    let s = ranking(key, ids);
    let t = top_ranked(key, ids, r);
    lemma_ranking(key, ids);
    if ids.contains(id) {
        let p = lemma_place_in_ranking(key, ids, id);
        if p < r {
            assert(t[p] == id);
        }
        if t.contains(id) {
            let q = choose|q: int| 0 <= q < t.len() && t[q] == id;
            assert(s[q] == id);
        }
    } else if t.contains(id) {
        law_replica_set_size(key, ids, r, id);
    }
    assert forall|p: int, q: int| 0 <= p < q < t.len() implies !goes_before(
        key,
        #[trigger] t[q],
        #[trigger] t[p],
    ) by {
        assert(ranking_order(key)(s[p], s[q]));
        assert(ranks_with(key, s[p], s[q]));
    }
}

/// Whether a node is viable and one of the `r` heaviest for a key, where `r` is at least one.
pub open spec fn is_viable_replica(
    key: Seq<char>,
    nodes: Seq<NodeView>,
    replica_factor: int,
    i: int,
) -> bool {
    &&& 0 <= i < nodes.len()
    &&& nodes[i].healthy
    &&& nodes[i].inflight < nodes[i].capacity
    &&& ahead(key, names_of(nodes), nodes[i].node_id) < (if replica_factor > 1 {
        replica_factor
    } else {
        1
    })
}

proof fn lemma_viable_replica(
    key: Seq<char>,
    nodes: Seq<NodeView>,
    replica_factor: int,
    i: int,
)
    requires
        0 <= i < nodes.len(),
    ensures
        is_viable_replica(key, nodes, replica_factor, i) <==> can_serve(nodes[i]) && replicas_of(
            key,
            nodes,
            replica_factor,
        ).contains(nodes[i].node_id),
{
    let r = if replica_factor > 1 {
        replica_factor
    } else {
        1
    };
    assert(ids_of(nodes) == names_of(nodes));
    assert(names_of(nodes)[i] == nodes[i].node_id);
    law_replicas_are_the_heaviest(key, names_of(nodes), r, nodes[i].node_id);
}

/// The node that is chosen for a key is healthy and below its capacity. It is one of the `r` nodes
/// of the highest weights for the key, where `r` is the replica factor and at least one, unless
/// none of these is healthy and below its capacity. Some node is chosen wherever one is healthy and
/// below its capacity.
pub proof fn law_choice_is_a_heavy_viable_node(
    key: Seq<char>,
    nodes: Seq<NodeView>,
    scores: Seq<Double>,
    replica_factor: int,
)
    ensures
        chosen(key, nodes, scores, replica_factor) matches Some(i) ==> {
            &&& 0 <= i < nodes.len()
            &&& nodes[i].healthy
            &&& nodes[i].inflight < nodes[i].capacity
            &&& is_viable_replica(key, nodes, replica_factor, i) || forall|j: int|
                !is_viable_replica(key, nodes, replica_factor, j)
        },
        chosen(key, nodes, scores, replica_factor) is None ==> forall|j: int|
            0 <= j < nodes.len() && (#[trigger] nodes[j]).healthy ==> nodes[j].inflight
                >= nodes[j].capacity,
{
    law_choice_exists(key, nodes, scores, replica_factor);
    let replicas = replicas_of(key, nodes, replica_factor);
    if let Some(i) = chosen(key, nodes, scores, replica_factor) {
        lemma_viable_replica(key, nodes, replica_factor, i);
        if !is_viable_replica(key, nodes, replica_factor, i) {
            assert forall|j: int| !is_viable_replica(key, nodes, replica_factor, j) by {
                if 0 <= j < nodes.len() {
                    lemma_viable_replica(key, nodes, replica_factor, j);
                    if can_serve(nodes[j]) {
                        assert(!replicas.contains(nodes[j].node_id));
                    }
                }
            }
        }
    } else {
        assert forall|j: int| 0 <= j < nodes.len() && (
        #[trigger] nodes[j]).healthy implies nodes[j].inflight >= nodes[j].capacity by {
            assert(!can_serve(nodes[j]));
        }
    }
}

/// Among those who compete, the lowest score wins, and of equal scores the earliest name: no viable
/// replica has a lower score than the one that is chosen, nor an equal one and an earlier name;
/// where no replica is viable, no viable node has.
pub proof fn law_choice_has_the_lowest_score(
    key: Seq<char>,
    nodes: Seq<NodeView>,
    scores: Seq<Double>,
    replica_factor: int,
    j: int,
)
    requires
        nodes.len() == scores.len(),
        forall|i: int| 0 <= i < scores.len() ==> !(#[trigger] scores[i]).is_nan(),
        0 <= j < nodes.len(),
        nodes[j].healthy,
        nodes[j].inflight < nodes[j].capacity,
        is_viable_replica(key, nodes, replica_factor, j) || forall|k: int|
            !is_viable_replica(key, nodes, replica_factor, k),
    ensures
        chosen(key, nodes, scores, replica_factor) matches Some(i) && 0 <= i < nodes.len()
            && !scores[j].lt(scores[i]) && (scores[i].lt(scores[j]) || !text_lt(
            nodes[j].node_id,
            nodes[i].node_id,
        )),
{
    let replicas = replicas_of(key, nodes, replica_factor);
    lemma_viable_replica(key, nodes, replica_factor, j);
    assert(competes(key, nodes, replica_factor, j)) by {
        if !replicas.contains(nodes[j].node_id) {
            assert forall|k: int|
                0 <= k < nodes.len() && can_serve(#[trigger] nodes[k]) implies !replicas.contains(
                nodes[k].node_id,
            ) by {
                lemma_viable_replica(key, nodes, replica_factor, k);
                assert(!is_viable_replica(key, nodes, replica_factor, k));
            }
        }
    }
    law_lowest_score_wins(key, nodes, scores, replica_factor, j);
    law_choice_exists(key, nodes, scores, replica_factor);
}

/// The cheapest node has the lowest price of those that are healthy and below their capacity, and
/// the nearest the shortest round trip; the earliest name decides between equals.
pub proof fn law_cheapest_and_nearest(nodes: Seq<NodeView>, j: int)
    requires
        forall|i: int|
            0 <= i < nodes.len() ==> !(#[trigger] nodes[i]).bandwidth_price.is_nan()
                && !nodes[i].ewma_rtt_ms.is_nan(),
        0 <= j < nodes.len(),
        nodes[j].healthy,
        nodes[j].inflight < nodes[j].capacity,
    ensures
        least_viable(nodes, prices(nodes)) matches Some(i) && {
            &&& 0 <= i < nodes.len()
            &&& nodes[i].healthy && nodes[i].inflight < nodes[i].capacity
            &&& !nodes[j].bandwidth_price.lt(nodes[i].bandwidth_price)
            &&& nodes[i].bandwidth_price.lt(nodes[j].bandwidth_price) || !text_lt(
                nodes[j].node_id,
                nodes[i].node_id,
            )
        },
        least_viable(nodes, round_trips(nodes)) matches Some(i) && {
            &&& 0 <= i < nodes.len()
            &&& nodes[i].healthy && nodes[i].inflight < nodes[i].capacity
            &&& !nodes[j].ewma_rtt_ms.lt(nodes[i].ewma_rtt_ms)
            &&& nodes[i].ewma_rtt_ms.lt(nodes[j].ewma_rtt_ms) || !text_lt(
                nodes[j].node_id,
                nodes[i].node_id,
            )
        },
{
    let all = viable_mask(nodes);
    let n = nodes.len() as int;
    assert(all[j]);
    assert(figures_are_numbers(prices(nodes), all)) by {
        assert forall|i: int| 0 <= i < prices(nodes).len() && #[trigger] all[i] implies !prices(
            nodes,
        )[i].is_nan() by {
            assert(!nodes[i].bandwidth_price.is_nan());
        }
    }
    assert(figures_are_numbers(round_trips(nodes), all)) by {
        assert forall|i: int|
            0 <= i < round_trips(nodes).len() && #[trigger] all[i] implies !round_trips(
            nodes,
        )[i].is_nan() by {
            assert(!nodes[i].ewma_rtt_ms.is_nan());
        }
    }
    lemma_least_exists(nodes, prices(nodes), all, n);
    law_least_is_least(nodes, prices(nodes), all, n, j);
    lemma_least_exists(nodes, round_trips(nodes), all, n);
    law_least_is_least(nodes, round_trips(nodes), all, n, j);
}

/// Where no node is healthy and below its capacity, no baseline finds one.
pub proof fn law_baselines_find_nothing_where_nothing_is_viable(
    nodes: Seq<NodeView>,
    figures: Seq<Double>,
)
    requires
        forall|i: int|
            0 <= i < nodes.len() && (#[trigger] nodes[i]).healthy ==> nodes[i].inflight
                >= nodes[i].capacity,
    ensures
        least_viable(nodes, figures) is None,
{
    let all = viable_mask(nodes);
    lemma_least_exists(nodes, figures, all, nodes.len() as int);
    assert forall|i: int| 0 <= i < nodes.len() implies !(#[trigger] all[i]) by {
        assert(!can_serve(nodes[i]));
    }
}

/// One more node at the end of a list takes the place of the one that was chosen exactly if it is
/// healthy and below its capacity and its figure is less, or neither figure is less and its name is
/// earlier. This holds of figures that are no numbers too.
pub proof fn law_one_more_node(
    nodes: Seq<NodeView>,
    figures: Seq<Double>,
    node: NodeView,
    figure: Double,
)
    requires
        nodes.len() == figures.len(),
    ensures
        ({
            let fits = node.healthy && node.inflight < node.capacity;
            least_viable(nodes.push(node), figures.push(figure)) == (match least_viable(
                nodes,
                figures,
            ) {
                None => if fits {
                    Some(nodes.len() as int)
                } else {
                    None
                },
                Some(i) => if fits && (figure.lt(figures[i]) || (!figures[i].lt(figure) && text_lt(
                    node.node_id,
                    nodes[i].node_id,
                ))) {
                    Some(nodes.len() as int)
                } else {
                    Some(i)
                },
            })
        }),
{
    let n = nodes.len() as int;
    let more = nodes.push(node);
    let all = viable_mask(nodes);
    lemma_least_exists(nodes, figures, all, n);
    lemma_least_prefix(nodes, figures, all, more, figures.push(figure), viable_mask(more), n);
}

proof fn lemma_least_prefix(
    a: Seq<NodeView>,
    f: Seq<Double>,
    m: Seq<bool>,
    b: Seq<NodeView>,
    g: Seq<Double>,
    k: Seq<bool>,
    n: int,
)
    requires
        0 <= n <= a.len(),
        a.len() == f.len(),
        a.len() == m.len(),
        b.len() >= a.len(),
        g.len() == b.len(),
        k.len() == b.len(),
        forall|i: int| 0 <= i < a.len() ==> #[trigger] b[i] == a[i] && g[i] == f[i] && k[i] == m[i],
    ensures
        least(b, g, k, n) == least(a, f, m, n),
    decreases n,
{
    if n > 0 {
        lemma_least_prefix(a, f, m, b, g, k, n - 1);
        lemma_least_exists(a, f, m, n - 1);
        assert(b[n - 1] == a[n - 1]);
        if let Some(i) = least(a, f, m, n - 1) {
            assert(b[i] == a[i]);
        }
    }
}

/// A viable replica is found at its place in the ranking, and before it there is none.
proof fn lemma_first_replica_place(nodes: Seq<NodeView>, replicas: Seq<Seq<char>>, k: int)
    requires
        0 <= k <= replicas.len(),
    ensures
        first_replica(nodes, replicas, k) matches Some(i) ==> exists|p: int|
            0 <= p < k && #[trigger] replicas[p] == nodes[i].node_id && forall|q: int, j: int|
                0 <= q < p && 0 <= j < nodes.len() && can_serve(#[trigger] nodes[j])
                    ==> #[trigger] replicas[q] != nodes[j].node_id,
        first_replica(nodes, replicas, k) is None ==> forall|q: int, j: int|
            0 <= q < k && 0 <= j < nodes.len() && can_serve(#[trigger] nodes[j])
                ==> #[trigger] replicas[q] != nodes[j].node_id,
    decreases k,
{
    if k > 0 {
        lemma_first_replica_place(nodes, replicas, k - 1);
        lemma_first_viable(nodes, replicas[k - 1], nodes.len() as int);
        if first_replica(nodes, replicas, k - 1) is None {
            if let Some(i) = first_viable(nodes, replicas[k - 1], nodes.len() as int) {
                assert(replicas[k - 1] == nodes[i].node_id);
            }
        } else {
            let i = first_replica(nodes, replicas, k - 1)->0;
            let p = choose|p: int|
                0 <= p < k - 1 && #[trigger] replicas[p] == nodes[i].node_id && forall|
                    q: int,
                    j: int,
                |
                    0 <= q < p && 0 <= j < nodes.len() && can_serve(#[trigger] nodes[j])
                        ==> #[trigger] replicas[q] != nodes[j].node_id;
            assert(0 <= p < k && replicas[p] == nodes[i].node_id);
        }
    }
}

/// Hashing alone chooses the heaviest viable node where one of the `r` heaviest is viable, and else
/// the viable node of the earliest name; cost plays no part.
pub proof fn law_hash_choice_is_the_heaviest(
    key: Seq<char>,
    nodes: Seq<NodeView>,
    replica_factor: int,
    j: int,
)
    requires
        0 <= j < nodes.len(),
        nodes[j].healthy,
        nodes[j].inflight < nodes[j].capacity,
    ensures
        chosen_by_hash(key, nodes, replica_factor) matches Some(i) && {
            &&& 0 <= i < nodes.len()
            &&& nodes[i].healthy && nodes[i].inflight < nodes[i].capacity
            &&& if is_viable_replica(key, nodes, replica_factor, i) {
                ahead(key, names_of(nodes), nodes[i].node_id) <= ahead(
                    key,
                    names_of(nodes),
                    nodes[j].node_id,
                )
            } else {
                !is_viable_replica(key, nodes, replica_factor, j) && !text_lt(
                    nodes[j].node_id,
                    nodes[i].node_id,
                )
            }
        },
{
    let ids = names_of(nodes);
    assert(ids_of(nodes) == ids);
    let r = if replica_factor > 1 {
        replica_factor
    } else {
        1
    };
    let replicas = replicas_of(key, nodes, replica_factor);
    assert(replicas == top_ranked(key, ids, r));
    assert(can_serve(nodes[j]));
    law_hash_choice_exists(key, nodes, replica_factor);
    lemma_first_replica_viable(nodes, replicas, replicas.len() as int);
    lemma_first_replica_place(nodes, replicas, replicas.len() as int);
    lemma_ranking(key, ids);
    assert(ids[j] == nodes[j].node_id);
    let pj = lemma_place_in_ranking(key, ids, nodes[j].node_id);
    let i = chosen_by_hash(key, nodes, replica_factor)->0;
    lemma_viable_replica(key, nodes, replica_factor, i);
    lemma_viable_replica(key, nodes, replica_factor, j);
    if first_replica(nodes, replicas, replicas.len() as int) is Some {
        assert(ids[i] == nodes[i].node_id);
        let pi = lemma_place_in_ranking(key, ids, nodes[i].node_id);
        let p = choose|p: int|
            0 <= p < replicas.len() && #[trigger] replicas[p] == nodes[i].node_id && forall|
                q: int,
                h: int,
            |
                0 <= q < p && 0 <= h < nodes.len() && can_serve(#[trigger] nodes[h])
                    ==> #[trigger] replicas[q] != nodes[h].node_id;
        assert(ranking(key, ids)[p] == nodes[i].node_id);
        assert(pi <= p);
        if pj < pi {
            assert(replicas[pj] == nodes[j].node_id);
            assert(false);
        }
    } else {
        let all = viable_mask(nodes);
        let n = nodes.len() as int;
        assert(all[j]);
        lemma_least_exists(nodes, no_figures(nodes), all, n);
        law_least_is_least(nodes, no_figures(nodes), all, n, j);
        assert(!replicas.contains(nodes[j].node_id));
        assert(can_serve(nodes[i]));
        assert(!replicas.contains(nodes[i].node_id));
    }
}

/// A node is viable exactly if it is healthy and below its capacity.
pub proof fn law_what_viable_means(node: NodeView)
    ensures
        can_serve(node) <==> node.healthy && node.inflight < node.capacity,
{
}

/// A node is what its fields say, and a list of nodes is told one for one.
pub proof fn law_what_a_node_is(nodes: Seq<NodeSnapshot>, i: int)
    requires
        0 <= i < nodes.len(),
    ensures
        views(nodes).len() == nodes.len(),
        views(nodes)[i].node_id == nodes[i].node_id@,
        views(nodes)[i].addr == nodes[i].addr@,
        views(nodes)[i].healthy == nodes[i].healthy,
        views(nodes)[i].inflight == nodes[i].inflight,
        views(nodes)[i].capacity == nodes[i].capacity,
        views(nodes)[i].cache_bytes == nodes[i].cache_bytes,
        views(nodes)[i].hits == nodes[i].hits,
        views(nodes)[i].misses == nodes[i].misses,
        views(nodes)[i].bandwidth_price == nodes[i].bandwidth_price,
        views(nodes)[i].ewma_rtt_ms == nodes[i].ewma_rtt_ms,
        views(nodes)[i].has_key == nodes[i].has_key,
{
}

/// What a chooser hands out is the node that was chosen.
pub proof fn law_the_chosen_node_is_handed_out(
    r: Option<&NodeSnapshot>,
    nodes: Seq<NodeSnapshot>,
    i: Option<int>,
)
    requires
        is_node_at(r, nodes, i),
    ensures
        i matches Some(k) ==> 0 <= k < nodes.len() && r == Some(&nodes[k]),
        i is None ==> r is None,
{
}

/// A node that competes is put against the one that is best so far: it takes its place exactly if
/// its figure is less, or neither figure is less and its name is earlier. A node that does not
/// compete changes nothing.
pub proof fn law_one_more_competitor(
    nodes: Seq<NodeView>,
    figures: Seq<Double>,
    eligible: Seq<bool>,
    n: int,
)
    requires
        0 <= n < nodes.len(),
    ensures
        least(nodes, figures, eligible, 0) is None,
        !eligible[n] ==> least(nodes, figures, eligible, n + 1) == least(
            nodes,
            figures,
            eligible,
            n,
        ),
        eligible[n] ==> (match least(nodes, figures, eligible, n) {
            None => least(nodes, figures, eligible, n + 1) == Some(n),
            Some(i) => least(nodes, figures, eligible, n + 1) == Some(
                if figures[n].lt(figures[i]) || (!figures[i].lt(figures[n]) && text_lt(
                    nodes[n].node_id,
                    nodes[i].node_id,
                )) {
                    n
                } else {
                    i
                },
            ),
        }),
{
}

/// The choice is made among those who compete, and nobody else: the viable ones of the `r` heaviest
/// nodes, or all viable nodes where none of these is viable. This holds of scores that are no
/// numbers too.
pub proof fn law_choice_is_among_competitors(
    key: Seq<char>,
    nodes: Seq<NodeView>,
    scores: Seq<Double>,
    replica_factor: int,
    eligible: Seq<bool>,
)
    requires
        eligible.len() == nodes.len(),
        forall|i: int|
            0 <= i < nodes.len() ==> (#[trigger] eligible[i] <==> is_viable_replica(
                key,
                nodes,
                replica_factor,
                i,
            ) || (nodes[i].healthy && nodes[i].inflight < nodes[i].capacity && forall|j: int|
                !is_viable_replica(key, nodes, replica_factor, j))),
    ensures
        chosen(key, nodes, scores, replica_factor) == least(
            nodes,
            scores,
            eligible,
            nodes.len() as int,
        ),
{
    let replicas = replicas_of(key, nodes, replica_factor);
    let mask = replica_mask(nodes, replicas);
    let n = nodes.len() as int;
    lemma_least_exists(nodes, scores, mask, n);
    if forall|j: int| !is_viable_replica(key, nodes, replica_factor, j) {
        assert forall|i: int| 0 <= i < n implies !(#[trigger] mask[i]) by {
            lemma_viable_replica(key, nodes, replica_factor, i);
            assert(!is_viable_replica(key, nodes, replica_factor, i));
        }
        assert(least(nodes, scores, mask, n) is None);
        assert(eligible =~= viable_mask(nodes)) by {
            assert forall|i: int| 0 <= i < n implies eligible[i] == #[trigger] viable_mask(
                nodes,
            )[i] by {
                assert(!is_viable_replica(key, nodes, replica_factor, i));
            }
        }
    } else {
        let j = choose|j: int| is_viable_replica(key, nodes, replica_factor, j);
        lemma_viable_replica(key, nodes, replica_factor, j);
        assert(mask[j]);
        assert(eligible =~= mask) by {
            assert forall|i: int| 0 <= i < n implies eligible[i] == #[trigger] mask[i] by {
                lemma_viable_replica(key, nodes, replica_factor, i);
            }
        }
    }
}

/// The weight of a node for a key is the hash of what the key and then the name of the node feed to
/// the hasher.
pub proof fn law_weight_hashes_both(key: Seq<char>, node_id: Seq<char>)
    ensures
        weight(key, node_id) == DefaultHasher::spec_finish(
            hashed_writes(key) + hashed_writes(node_id),
        ),
{
}

/// Nodes are equal exactly if they are in everything: names, addresses, health, counts and hints as
/// they are, figures as numbers.
pub proof fn law_when_nodes_are_equal(a: NodeSnapshot, b: NodeSnapshot)
    ensures
        a@.same(b@) <==> {
            &&& a.node_id@ == b.node_id@ && a.addr@ == b.addr@
            &&& a.healthy == b.healthy && a.has_key == b.has_key
            &&& a.inflight == b.inflight && a.capacity == b.capacity
            &&& a.cache_bytes == b.cache_bytes && a.hits == b.hits && a.misses == b.misses
            &&& a.bandwidth_price.same(b.bandwidth_price)
            &&& a.ewma_rtt_ms.same(b.ewma_rtt_ms)
        },
{
}

/// The texts of names, one for one.
pub proof fn law_texts_of_names(ids: Seq<&str>, i: int)
    requires
        0 <= i < ids.len(),
    ensures
        texts(ids).len() == ids.len(),
        texts(ids)[i] == ids[i]@,
{
}

/// A key has as many replicas as it should, at least one, or all nodes where there are fewer; they
/// are the heaviest.
pub proof fn law_how_many_replicas(
    key: Seq<char>,
    nodes: Seq<NodeView>,
    replica_factor: int,
    i: int,
)
    ensures
        ({
            let r = if replica_factor > 1 {
                replica_factor
            } else {
                1
            };
            let replicas = replicas_of(key, nodes, replica_factor);
            &&& replicas == top_ranked(key, names_of(nodes), r)
            &&& r <= nodes.len() ==> replicas.len() == r
            &&& r > nodes.len() ==> replicas.len() == nodes.len()
            &&& 0 <= i < nodes.len() ==> (replicas.contains(nodes[i].node_id) <==> ahead(
                key,
                names_of(nodes),
                nodes[i].node_id,
            ) < r)
        }),
{
    let r = if replica_factor > 1 {
        replica_factor
    } else {
        1
    };
    assert(ids_of(nodes) == names_of(nodes));
    law_replica_set_size(key, names_of(nodes), r, key);
    if 0 <= i < nodes.len() {
        assert(names_of(nodes)[i] == nodes[i].node_id);
        law_replicas_are_the_heaviest(key, names_of(nodes), r, nodes[i].node_id);
    }
}

} // verus!
