use skynet::binary64::Double;
use skynet::control::{
    locate_key, locate_reply, locate_target, ControlConfig, Heartbeat, LocateResponse, NodeRegistry,
};
use skynet::steering::NodeSnapshot;

const MILLI: u128 = 1_000_000;

fn double(v: f64) -> Double {
    Double { bits: v.to_bits() }
}

fn beat(id: &str, addr: &str, price: f64, inflight: u64, hot: &[&str]) -> Heartbeat {
    Heartbeat {
        node_id: id.into(),
        addr: addr.into(),
        healthy: true,
        inflight,
        capacity: 10,
        cache_bytes: 3,
        hits: 2,
        misses: 1,
        bandwidth_price: double(price),
        ewma_rtt_ms: double(5.0),
        hot_keys: hot.iter().map(|k| k.to_string()).collect(),
    }
}

fn score(n: &NodeSnapshot) -> Double {
    let hit = if n.has_key { 5.0 } else { 0.0 };
    let price = f64::from_bits(n.bandwidth_price.bits);
    let rtt = f64::from_bits(n.ewma_rtt_ms.bits);
    double(price + 0.01 * rtt + n.inflight as f64 / n.capacity as f64 - hit)
}

fn locate(
    registry: &mut NodeRegistry,
    config: &ControlConfig,
    key: &str,
    now: u128,
) -> Option<LocateResponse> {
    let nodes = registry.snapshots_for(config, key, now);
    let scores: Vec<Double> = nodes.iter().map(score).collect();
    locate_key(config, key, &nodes, &scores)
}

#[test]
fn a_control_plane_has_defaults() {
    let config = ControlConfig::default();
    assert_eq!(config.replica_factor, 2);
    assert_eq!(config.stale_after, 3000 * MILLI);
}

#[test]
fn a_viable_node_is_located() {
    let config = ControlConfig::default();
    let mut registry = NodeRegistry::new();
    for (id, addr) in [
        ("edge-a", "10.0.0.1:80"),
        ("edge-b", "10.0.0.2:80"),
        ("edge-c", "10.0.0.3:80"),
    ] {
        registry.heartbeat(beat(id, addr, 1.0, 0, &[]), 0);
    }
    let found = locate(&mut registry, &config, "/obj/x", 10).unwrap();
    assert!(found.addr.starts_with("10.0.0."));
    assert_eq!(found.score, double(1.0 + 0.01 * 5.0 + 0.0 - 0.0));
}

#[test]
fn a_hit_hint_overrides_the_price() {
    let config = ControlConfig::default();
    let mut registry = NodeRegistry::new();
    registry.heartbeat(beat("cheap", "10.0.0.1:80", 0.1, 0, &[]), 0);
    registry.heartbeat(beat("warm", "10.0.0.2:80", 1.0, 0, &["/obj/cold", "/obj/hot"]), 0);
    assert_eq!(locate(&mut registry, &config, "/obj/hot", 1).unwrap().node_id, "warm");
    assert_eq!(locate(&mut registry, &config, "/obj/other", 1).unwrap().node_id, "cheap");
}

#[test]
fn a_full_node_is_not_located() {
    let config = ControlConfig::default();
    let mut registry = NodeRegistry::new();
    registry.heartbeat(beat("full", "10.0.0.1:80", 0.1, 10, &[]), 0);
    registry.heartbeat(beat("free", "10.0.0.2:80", 9.0, 0, &[]), 0);
    assert_eq!(locate(&mut registry, &config, "/x", 1).unwrap().node_id, "free");
}

#[test]
fn a_silent_node_ages_out() {
    let config = ControlConfig {
        replica_factor: 2,
        stale_after: 200 * MILLI,
    };
    let mut registry = NodeRegistry::new();
    registry.heartbeat(beat("only", "10.0.0.9:80", 1.0, 0, &[]), 1000 * MILLI);
    assert!(locate(&mut registry, &config, "/x", 1000 * MILLI + 200 * MILLI - 1).is_some());
    assert!(locate(&mut registry, &config, "/x", 1200 * MILLI).is_none());
    assert!(registry.snapshots_for(&config, "", 1000 * MILLI).is_empty());
}

#[test]
fn a_dead_node_is_replaced_by_a_live_peer() {
    let config = ControlConfig {
        replica_factor: 2,
        stale_after: 300 * MILLI,
    };
    let mut registry = NodeRegistry::new();
    let ids = ["edge-a", "edge-b", "edge-c"];
    for id in ids {
        registry.heartbeat(beat(id, "10.0.0.1:80", 1.0, 0, &[]), 0);
    }
    let first = locate(&mut registry, &config, "/obj/x", 1).unwrap().node_id;
    for id in ids {
        if id != first {
            registry.heartbeat(beat(id, "10.0.0.1:80", 1.0, 0, &[]), 250 * MILLI);
        }
    }
    let second = locate(&mut registry, &config, "/obj/x", 400 * MILLI).unwrap().node_id;
    assert_ne!(first, second);
}

#[test]
fn the_last_report_of_a_node_counts() {
    let config = ControlConfig::default();
    let mut registry = NodeRegistry::new();
    registry.heartbeat(beat("a", "10.0.0.1:80", 1.0, 0, &["/k"]), 0);
    registry.heartbeat(beat("b", "10.0.0.2:80", 2.0, 0, &[]), 0);
    registry.heartbeat(beat("a", "10.0.0.3:80", 4.0, 7, &[]), 5);
    let nodes = registry.snapshots_for(&config, "/k", 6);
    assert_eq!(nodes.len(), 2);
    assert_eq!(nodes[0].node_id, "a");
    assert_eq!(nodes[0].addr, "10.0.0.3:80");
    assert_eq!(nodes[0].inflight, 7);
    assert_eq!(nodes[0].capacity, 10);
    assert_eq!(nodes[0].cache_bytes, 3);
    assert_eq!(nodes[0].hits, 2);
    assert_eq!(nodes[0].misses, 1);
    assert!(nodes[0].healthy);
    assert!(!nodes[0].has_key);
    assert_eq!(nodes[0].bandwidth_price, double(4.0));
    assert_eq!(nodes[1].node_id, "b");
}

#[test]
fn a_clock_that_goes_back_ages_nothing() {
    let config = ControlConfig::default();
    let mut registry = NodeRegistry::new();
    registry.heartbeat(beat("a", "10.0.0.1:80", 1.0, 0, &[]), 100);
    assert_eq!(registry.snapshots_for(&config, "", 50).len(), 1);
    let never = ControlConfig {
        replica_factor: 2,
        stale_after: 0,
    };
    assert!(registry.snapshots_for(&never, "", 100).is_empty());
}

#[test]
fn a_key_goes_before_a_path() {
    assert_eq!(locate_target(Some("k".into()), Some("p".into())), "k");
    assert_eq!(locate_target(None, Some("p".into())), "p");
    assert_eq!(locate_target(Some("k".into()), None), "k");
    assert_eq!(locate_target(None, None), "cdn.local");
}

#[test]
fn a_report_carries_what_is_cached() {
    let config = skynet::edge::EdgeConfig::for_origin("127.0.0.1:9".into());
    let metrics = skynet::telemetry::EdgeMetrics::new();
    let mut cache = skynet::cache::ByteLru::new(100, 100);
    cache.insert(
        "/obj/hot".into(),
        skynet::cache::CachedObject {
            status: 200,
            body: bytes::Bytes::from_static(b"x"),
        },
    );
    let told = skynet::edge::snapshot_from_metrics(&config, &metrics, &cache);
    let mut report = beat("edge", &told.addr, 1.0, 0, &[]);
    report.hot_keys = told.hot_keys;
    let mut registry = NodeRegistry::new();
    registry.heartbeat(report, 0);
    let config = ControlConfig::default();
    assert!(registry.snapshots_for(&config, "/obj/hot", 1)[0].has_key);
    assert!(!registry.snapshots_for(&config, "/obj/cold", 1)[0].has_key);
}

#[test]
fn where_no_edge_can_serve_the_service_is_unavailable() {
    let config = ControlConfig::default();
    let mut registry = NodeRegistry::new();
    match locate_reply(locate(&mut registry, &config, "/x", 0)) {
        Err(status) => assert_eq!(status, 503),
        Ok(_) => panic!("located"),
    }
    registry.heartbeat(beat("only", "10.0.0.9:80", 1.0, 0, &[]), 0);
    match locate_reply(locate(&mut registry, &config, "/x", 0)) {
        Err(_) => panic!("not located"),
        Ok(found) => assert_eq!(found.node_id, "only"),
    }
}

#[test]
fn messages_are_cloned_as_they_are() {
    let report = beat("a", "10.0.0.1:80", 1.5, 7, &["/x", "/y"]);
    let copy = report.clone();
    assert_eq!(format!("{report:?}"), format!("{copy:?}"));
    let found = LocateResponse {
        node_id: "a".into(),
        addr: "10.0.0.1:80".into(),
        score: double(2.5),
    };
    assert_eq!(format!("{found:?}"), format!("{:?}", found.clone()));
    let mut config = skynet::edge::EdgeConfig::for_origin("127.0.0.1:9".into());
    assert_eq!(format!("{config:?}"), format!("{:?}", config.clone()));
    config.control_plane = Some("http://c:1".into());
    assert_eq!(format!("{config:?}"), format!("{:?}", config.clone()));
    let told = skynet::edge::EdgeState::new(config).snapshot();
    assert_eq!(format!("{told:?}"), format!("{:?}", told.clone()));
}
