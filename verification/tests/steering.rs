use skynet::binary64::Double;
use skynet::steering::{
    choose_cheapest, choose_hash_only, choose_index, choose_nearest, choose_node, replica_set,
    rendezvous_hash, viable, NodeSnapshot,
};
use std::collections::hash_map::DefaultHasher;
use std::hash::{Hash, Hasher};

struct Weights {
    price: f64,
    latency: f64,
    load: f64,
    hit: f64,
}

impl Default for Weights {
    fn default() -> Self {
        Self {
            price: 1.0,
            latency: 0.01,
            load: 1.0,
            hit: 5.0,
        }
    }
}

fn double(v: f64) -> Double {
    Double { bits: v.to_bits() }
}

fn number(d: Double) -> f64 {
    f64::from_bits(d.bits)
}

fn score(node: &NodeSnapshot, weights: &Weights) -> f64 {
    let hit = if node.has_key { 1.0 } else { 0.0 };
    let utilization = if node.capacity == 0 {
        1.0
    } else {
        node.inflight as f64 / node.capacity as f64
    };
    weights.price * number(node.bandwidth_price)
        + weights.latency * number(node.ewma_rtt_ms)
        + weights.load * utilization
        - weights.hit * hit
}

fn pick<'a>(
    key: &str,
    nodes: &'a [NodeSnapshot],
    weights: &Weights,
    replica_factor: usize,
) -> Option<&'a NodeSnapshot> {
    let scores: Vec<Double> = nodes.iter().map(|n| double(score(n, weights))).collect();
    choose_node(key, nodes, &scores, replica_factor)
}

fn node(id: &str, price: f64, healthy: bool, inflight: u64, has_key: bool) -> NodeSnapshot {
    NodeSnapshot {
        node_id: id.into(),
        addr: format!("{id}:80"),
        healthy,
        inflight,
        capacity: 10,
        cache_bytes: 0,
        hits: 0,
        misses: 0,
        bandwidth_price: double(price),
        ewma_rtt_ms: double(10.0),
        has_key,
    }
}

fn node_rtt(id: &str, price: f64, rtt: f64, has_key: bool) -> NodeSnapshot {
    let mut n = node(id, price, true, 0, has_key);
    n.ewma_rtt_ms = double(rtt);
    n
}

#[test]
fn skips_unhealthy_and_over_capacity() {
    let nodes = vec![
        node("a", 0.1, false, 0, false),
        node("b", 5.0, true, 10, false),
        node("c", 1.0, true, 0, false),
    ];
    let chosen = pick("k", &nodes, &Weights::default(), 3).unwrap();
    assert_eq!(chosen.node_id, "c");
}

#[test]
fn prefers_local_hit_hint() {
    let nodes = vec![
        node("cheap", 0.1, true, 0, false),
        node("warm", 1.0, true, 0, true),
    ];
    let mut weights = Weights::default();
    weights.hit = 100.0;
    weights.price = 1.0;
    let chosen = pick("obj", &nodes, &weights, 2).unwrap();
    assert_eq!(chosen.node_id, "warm");
}

#[test]
fn replica_set_is_stable() {
    let ids = ["edge-a", "edge-b", "edge-c"];
    let a = replica_set("hot-key", &ids, 2);
    let b = replica_set("hot-key", &ids, 2);
    assert_eq!(a, b);
    assert_eq!(a.len(), 2);
}

#[test]
fn returns_none_when_none_viable() {
    let nodes = vec![node("a", 1.0, false, 0, false)];
    assert!(pick("k", &nodes, &Weights::default(), 1).is_none());
}

#[test]
fn cheapest_among_replicas_when_no_hit() {
    let nodes = vec![
        node("a", 9.0, true, 0, false),
        node("b", 1.0, true, 0, false),
        node("c", 3.0, true, 0, false),
    ];
    let chosen = pick("only-price", &nodes, &Weights::default(), 3).unwrap();
    assert_eq!(chosen.node_id, "b");
}

#[test]
fn cache_aware_choose_differs_from_cheapest_when_warm() {
    let nodes = vec![
        node_rtt("cheap", 0.1, 50.0, false),
        node_rtt("warm", 1.0, 10.0, true),
    ];
    let mut weights = Weights::default();
    weights.hit = 100.0;
    weights.price = 1.0;

    let cheapest = choose_cheapest(&nodes).unwrap();
    let nearest = choose_nearest(&nodes).unwrap();
    let hash = choose_hash_only("obj", &nodes, 2).unwrap();
    let product = pick("obj", &nodes, &weights, 2).unwrap();

    assert_eq!(cheapest.node_id, "cheap");
    assert_eq!(nearest.node_id, "warm");
    assert!(hash.node_id == "cheap" || hash.node_id == "warm");
    assert_eq!(product.node_id, "warm");
    assert_ne!(cheapest.node_id, product.node_id);
}

fn standard_weight(key: &str, id: &str) -> u64 {
    let mut hasher = DefaultHasher::new();
    key.hash(&mut hasher);
    id.hash(&mut hasher);
    hasher.finish()
}

#[test]
fn weights_are_standard_hashes() {
    for (key, id) in [("hot-key", "edge-a"), ("", ""), ("/obj/1", "caf\u{e9}")] {
        assert_eq!(rendezvous_hash(key, id), standard_weight(key, id));
    }
    assert_ne!(rendezvous_hash("ab", "c"), rendezvous_hash("a", "bc"));
}

#[test]
fn replicas_are_the_nodes_of_the_highest_weights() {
    let ids = ["n1", "n2", "n3", "n4", "n5", "n6"];
    for key in ["/obj/0", "/obj/1", "/obj/2", "/obj/3"] {
        let mut ranked = ids.to_vec();
        ranked.sort_by(|a, b| {
            standard_weight(key, b)
                .cmp(&standard_weight(key, a))
                .then_with(|| a.cmp(b))
        });
        for r in 0..8 {
            let expected: Vec<&str> = ranked.iter().copied().take(r).collect();
            assert_eq!(replica_set(key, &ids, r), expected);
        }
    }
    assert!(replica_set("k", &[], 3).is_empty());
}

#[test]
fn the_order_of_nodes_does_not_matter() {
    let ids = ["n1", "n2", "n3", "n4"];
    let other = ["n3", "n1", "n4", "n2"];
    assert_eq!(replica_set("k", &ids, 2), replica_set("k", &other, 2));
    let mut nodes = vec![
        node("b", 1.0, true, 0, false),
        node("a", 1.0, true, 0, false),
        node("c", 2.0, true, 0, false),
    ];
    let first = pick("k", &nodes, &Weights::default(), 3).unwrap().node_id.clone();
    nodes.reverse();
    let second = pick("k", &nodes, &Weights::default(), 3).unwrap().node_id.clone();
    assert_eq!(first, "a");
    assert_eq!(second, "a");
}

#[test]
fn a_departure_leaves_the_other_replicas() {
    let ids = ["n1", "n2", "n3", "n4", "n5"];
    let all = replica_set("key", &ids, 2);
    for gone in ids {
        let left: Vec<&str> = ids.iter().copied().filter(|id| *id != gone).collect();
        let now = replica_set("key", &left, 2);
        let kept: Vec<&str> = all.iter().copied().filter(|id| *id != gone).collect();
        assert_eq!(&now[..kept.len()], &kept[..]);
    }
}

#[test]
fn more_replicas_only_add() {
    let ids = ["n1", "n2", "n3", "n4", "n5"];
    let few = replica_set("key", &ids, 2);
    let many = replica_set("key", &ids, 4);
    assert_eq!(few[..], many[..2]);
}

#[test]
fn replicas_come_before_cheaper_nodes() {
    let ids = ["n1", "n2", "n3"];
    let replica = replica_set("obj", &ids, 1)[0];
    let nodes: Vec<NodeSnapshot> = ids
        .iter()
        .map(|id| node(id, if *id == replica { 9.0 } else { 0.1 }, true, 0, false))
        .collect();
    let chosen = pick("obj", &nodes, &Weights::default(), 1).unwrap();
    assert_eq!(chosen.node_id, replica);
    let zero = pick("obj", &nodes, &Weights::default(), 0).unwrap();
    assert_eq!(zero.node_id, replica);
}

#[test]
fn a_dead_replica_set_falls_back_to_any_viable_node() {
    let ids = ["n1", "n2", "n3"];
    let replica = replica_set("obj", &ids, 1)[0];
    let nodes: Vec<NodeSnapshot> = ids
        .iter()
        .map(|id| node(id, 1.0, *id != replica, 0, false))
        .collect();
    let expected = ids.iter().copied().filter(|id| *id != replica).min().unwrap();
    assert_eq!(pick("obj", &nodes, &Weights::default(), 1).unwrap().node_id, expected);
    assert_eq!(choose_hash_only("obj", &nodes, 1).unwrap().node_id, expected);
}

#[test]
fn hashing_alone_takes_the_first_viable_replica() {
    let ids = ["n1", "n2", "n3", "n4"];
    let ranked = replica_set("obj", &ids, 4);
    let mut nodes: Vec<NodeSnapshot> =
        ids.iter().map(|id| node(id, 1.0, true, 0, false)).collect();
    assert_eq!(choose_hash_only("obj", &nodes, 4).unwrap().node_id, ranked[0]);
    for n in nodes.iter_mut() {
        if n.node_id == ranked[0] {
            n.inflight = n.capacity;
        }
    }
    assert_eq!(choose_hash_only("obj", &nodes, 4).unwrap().node_id, ranked[1]);
    assert!(choose_hash_only("obj", &[], 4).is_none());
}

#[test]
fn a_node_is_viable_below_its_capacity() {
    assert!(viable(&node("a", 1.0, true, 9, false)));
    assert!(!viable(&node("a", 1.0, true, 10, false)));
    assert!(!viable(&node("a", 1.0, false, 0, false)));
}

#[test]
fn nothing_is_chosen_among_no_nodes() {
    assert!(pick("k", &[], &Weights::default(), 2).is_none());
    assert!(choose_cheapest(&[]).is_none());
    assert!(choose_nearest(&[]).is_none());
    assert!(choose_index("k", &[], &[], 2).is_none());
}

#[test]
fn names_decide_between_equal_figures() {
    let nodes = vec![
        node("z", 1.0, true, 0, false),
        node("m", 1.0, true, 0, false),
        node("q", 1.0, true, 0, false),
    ];
    assert_eq!(choose_cheapest(&nodes).unwrap().node_id, "m");
    assert_eq!(choose_nearest(&nodes).unwrap().node_id, "m");
    let scores = vec![double(0.0), double(-0.0), double(0.0)];
    assert_eq!(choose_index("k", &nodes, &scores, 3), Some(1));
}

#[test]
fn what_is_no_number_is_neither_less_nor_more() {
    let nodes = vec![node("b", f64::NAN, true, 0, false), node("a", 1.0, true, 0, false)];
    assert_eq!(choose_cheapest(&nodes).unwrap().node_id, "a");
    let nodes = vec![node("a", f64::NAN, true, 0, false), node("b", 1.0, true, 0, false)];
    assert_eq!(choose_cheapest(&nodes).unwrap().node_id, "a");
}

#[test]
fn doubles_compare_as_numbers() {
    let values = [
        0.0,
        -0.0,
        1.0,
        -1.0,
        0.1,
        -5.25,
        1e300,
        -1e300,
        f64::MIN_POSITIVE,
        -f64::MIN_POSITIVE,
        5e-324,
        f64::MAX,
        f64::MIN,
        f64::INFINITY,
        f64::NEG_INFINITY,
        f64::NAN,
        -f64::NAN,
    ];
    for a in values {
        for b in values {
            assert_eq!(double(a).less(double(b)), a < b, "{a} {b}");
        }
    }
    assert_eq!(number(Double::one()), 1.0);
}

#[test]
fn a_hint_does_not_turn_traffic_away() {
    for key in ["/obj/0", "/obj/1", "/obj/2", "/obj/3", "/obj/4"] {
        let mut nodes = vec![
            node("a", 2.0, true, 1, true),
            node("b", 1.5, true, 2, true),
            node("c", 1.0, true, 3, false),
            node("d", 0.5, true, 9, true),
        ];
        let first = pick(key, &nodes, &Weights::default(), 2).unwrap().node_id.clone();
        for n in nodes.iter_mut() {
            n.has_key = n.node_id == first;
        }
        let second = pick(key, &nodes, &Weights::default(), 2).unwrap().node_id.clone();
        assert_eq!(first, second);
    }
}

#[test]
fn nodes_are_equal_as_numbers_are() {
    assert!(node("a", 1.0, true, 0, false) == node("a", 1.0, true, 0, false));
    assert!(node("a", 0.0, true, 0, false) == node("a", -0.0, true, 0, false));
    assert!(node("a", f64::NAN, true, 0, false) != node("a", f64::NAN, true, 0, false));
    assert!(node("a", 1.0, true, 0, false) != node("b", 1.0, true, 0, false));
    assert!(node("a", 1.0, true, 0, false) != node("a", 2.0, true, 0, false));
    assert!(node("a", 1.0, true, 0, false) != node("a", 1.0, false, 0, false));
    assert!(node("a", 1.0, true, 0, false) != node("a", 1.0, true, 1, false));
    assert!(node("a", 1.0, true, 0, false) != node("a", 1.0, true, 0, true));
    for a in [0.0, -0.0, 1.0, -1.0, f64::INFINITY, f64::NEG_INFINITY, f64::NAN, 5e-324] {
        for b in [0.0, -0.0, 1.0, -1.0, f64::INFINITY, f64::NEG_INFINITY, f64::NAN, 5e-324] {
            assert_eq!(double(a).equals(double(b)), a == b, "{a} {b}");
        }
    }
}
