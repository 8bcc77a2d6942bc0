use bytes::Bytes;
use skynet::binary64::Double;
use skynet::edge::{
    forward_headers, heartbeat_url, is_hop_by_hop, snapshot_from_metrics, upstream_url,
    EdgeConfig, EdgeState, Polled, Route, TeeStream, BAD_GATEWAY,
};
use skynet::cache::{ByteLru, CachedObject};
use skynet::singleflight::{FetchOutcome, LeaderGuard};
use skynet::telemetry::EdgeMetrics;

const QUICK: (u64, u32) = (0, 1_000_000);

fn edge_with(cache_max_bytes: u64, cache_max_object_bytes: u64) -> EdgeState {
    let mut config = EdgeConfig::for_origin("127.0.0.1:9".into());
    config.cache_max_bytes = cache_max_bytes;
    config.cache_max_object_bytes = cache_max_object_bytes;
    EdgeState::new(config)
}

fn edge() -> EdgeState {
    edge_with(1024, 512)
}

fn lead(edge: &mut EdgeState, path: &str) -> LeaderGuard {
    match edge.request(true, path) {
        Route::Lead(guard) => guard,
        _ => panic!("not a leader"),
    }
}

fn fetch(edge: &mut EdgeState, path: &str, status: u16, chunks: &[&[u8]]) -> Option<u64> {
    let guard = lead(edge, path);
    let mut tee = TeeStream::leading(edge, status, path.into(), guard);
    for chunk in chunks {
        tee.push_chunk(chunk);
    }
    let charge = tee.finish(edge, false, QUICK);
    edge.response_done();
    charge
}

fn shows(edge: &mut EdgeState, line: &str) -> bool {
    edge.metrics_page().lines().any(|l| l == line)
}

#[test]
fn an_edge_has_defaults() {
    let config = EdgeConfig::for_origin("10.0.0.7:80".into());
    assert_eq!(config.node_id, "edge");
    assert_eq!(config.origin, "10.0.0.7:80");
    assert_eq!(config.listen, "127.0.0.1:0");
    assert_eq!(config.cache_max_bytes, 67_108_864);
    assert_eq!(config.cache_max_object_bytes, 8_388_608);
    assert_eq!(config.bandwidth_price, Double::one());
    assert_eq!(config.capacity, 1024);
    assert_eq!(config.ewma_rtt_ms, Double::one());
    assert!(config.control_plane.is_none());
}

#[test]
fn a_hit_bypasses_the_origin() {
    let mut edge = edge();
    assert_eq!(fetch(&mut edge, "/obj/a", 200, &[b"hello ", b"world"]), Some(11));
    match edge.request(true, "/obj/a") {
        Route::Hit(obj) => {
            let reply = edge.cached_response(obj, QUICK);
            assert_eq!(reply.status, 200);
            assert_eq!(reply.content_type, "application/octet-stream");
            assert_eq!(&reply.body[..], b"hello world");
            assert_eq!(reply.charge, Some(11));
        }
        _ => panic!("not a hit"),
    }
    edge.response_done();
    assert!(shows(&mut edge, "edge_cache_hits_total 1"));
    assert!(shows(&mut edge, "edge_cache_misses_total 1"));
    assert!(shows(&mut edge, "edge_origin_fetches_total 1"));
    assert!(shows(&mut edge, "edge_bytes_served_total 22"));
    assert!(shows(&mut edge, "edge_request_duration_seconds_count 2"));
    assert!(shows(&mut edge, "edge_cache_bytes 11"));
    assert!(shows(&mut edge, "edge_inflight_requests 0"));
}

#[test]
fn concurrent_requests_share_one_fetch() {
    let mut edge = edge();
    let guard = lead(&mut edge, "/obj/hot");
    let mut waiters = Vec::new();
    for _ in 0..49 {
        match edge.request(true, "/obj/hot") {
            Route::Wait(rx) => waiters.push(rx),
            _ => panic!("not a waiter"),
        }
    }
    assert!(shows(&mut edge, "edge_inflight_requests 50"));
    let mut tee = TeeStream::leading(&edge, 200, "/obj/hot".into(), guard);
    tee.push_chunk(b"payload");
    assert_eq!(tee.bytes(), 7);
    assert_eq!(tee.finish(&mut edge, false, QUICK), Some(7));
    for mut rx in waiters {
        let reply = match edge.waiter_response(rx.try_recv().ok(), QUICK) {
            Ok(reply) => reply,
            Err(_) => panic!("failed"),
        };
        assert_eq!(reply.status, 200);
        assert_eq!(&reply.body[..], b"payload");
        assert_eq!(reply.charge, Some(7));
    }
    assert!(shows(&mut edge, "edge_origin_fetches_total 1"));
    assert!(shows(&mut edge, "edge_inflight_coalesced_total 49"));
    assert!(shows(&mut edge, "edge_bytes_served_total 350"));
    assert!(matches!(edge.request(true, "/obj/hot"), Route::Hit(_)));
}

#[test]
fn failures_of_the_origin_are_not_cached() {
    let mut edge = edge();
    fetch(&mut edge, "/obj/fail", 503, &[b"origin error"]);
    fetch(&mut edge, "/obj/fail", 404, &[b"gone"]);
    fetch(&mut edge, "/obj/fail", 500, &[]);
    assert!(shows(&mut edge, "edge_origin_fetches_total 3"));
    assert!(shows(&mut edge, "edge_cache_bytes 0"));
    assert!(edge.snapshot().hot_keys.is_empty());
}

#[test]
fn an_empty_success_is_cached() {
    let mut edge = edge();
    assert_eq!(fetch(&mut edge, "/obj/e", 200, &[]), None);
    assert_eq!(edge.snapshot().hot_keys, vec!["/obj/e".to_string()]);
    match edge.request(true, "/obj/e") {
        Route::Hit(obj) => {
            let reply = edge.cached_response(obj, QUICK);
            assert_eq!(reply.status, 200);
            assert!(reply.body.is_empty());
            assert_eq!(reply.charge, None);
        }
        _ => panic!("not a hit"),
    }
}

#[test]
fn an_answer_goes_through_as_it_comes() {
    let mut edge = edge();
    let guard = lead(&mut edge, "/obj/x");
    let mut waiter = match edge.request(true, "/obj/x") {
        Route::Wait(rx) => rx,
        _ => panic!("not a waiter"),
    };
    let mut tee = TeeStream::leading(&edge, 200, "/obj/x".into(), guard);
    assert!(matches!(tee.poll_next(&mut edge, Polled::Pending, QUICK), (Polled::Pending, None)));
    for piece in ["ab", "", "cde"] {
        match tee.poll_next(&mut edge, Polled::Chunk(Bytes::from(piece)), QUICK) {
            (Polled::Chunk(chunk), None) => assert_eq!(chunk, Bytes::from(piece)),
            _ => panic!("not handed on"),
        }
        assert!(shows(&mut edge, "edge_bytes_served_total 0"));
    }
    assert!(matches!(tee.poll_next(&mut edge, Polled::Ended, QUICK), (Polled::Ended, Some(5))));
    assert!(matches!(tee.poll_next(&mut edge, Polled::Ended, QUICK), (Polled::Ended, None)));
    assert!(matches!(tee.poll_next(&mut edge, Polled::Failed, QUICK), (Polled::Failed, None)));
    assert!(shows(&mut edge, "edge_bytes_served_total 5"));
    match waiter.try_recv() {
        Ok(FetchOutcome::Object(obj)) => assert_eq!(&obj.body[..], b"abcde"),
        _ => panic!("no object"),
    }
}

#[test]
fn an_error_goes_through_and_ends_the_answer() {
    let mut edge = edge();
    let guard = lead(&mut edge, "/obj/x");
    let mut tee = TeeStream::leading(&edge, 200, "/obj/x".into(), guard);
    tee.push_chunk(b"half");
    assert!(matches!(tee.poll_next(&mut edge, Polled::Failed, QUICK), (Polled::Failed, Some(4))));
    assert!(edge.snapshot().hot_keys.is_empty());
    assert!(matches!(edge.request(true, "/obj/x"), Route::Lead(_)));
}

#[test]
fn waiters_get_the_object_of_their_own_path() {
    let mut edge = edge();
    let mut tees = Vec::new();
    let mut waiters = Vec::new();
    for path in ["/obj/a", "/obj/b", "/obj/c"] {
        let guard = lead(&mut edge, path);
        tees.push(TeeStream::leading(&edge, 200, path.into(), guard));
        match edge.request(true, path) {
            Route::Wait(rx) => waiters.push((path, rx)),
            _ => panic!("not a waiter"),
        }
    }
    for (tee, body) in tees.iter_mut().zip(["/obj/a", "/obj/b", "/obj/c"]) {
        tee.push_chunk(body.as_bytes());
        tee.finish(&mut edge, false, QUICK);
    }
    for (path, rx) in waiters.iter_mut() {
        match rx.try_recv() {
            Ok(FetchOutcome::Object(obj)) => assert_eq!(&obj.body[..], path.as_bytes()),
            _ => panic!("no object"),
        }
    }
}

#[test]
fn oversized_objects_are_not_cached() {
    let mut edge = edge_with(1024, 8);
    assert_eq!(fetch(&mut edge, "/obj/big", 200, &[b"123456789"]), Some(9));
    assert!(edge.snapshot().hot_keys.is_empty());
    fetch(&mut edge, "/obj/fits", 200, &[b"12345678"]);
    assert_eq!(edge.snapshot().hot_keys, vec!["/obj/fits".to_string()]);
}

#[test]
fn a_full_cache_evicts_the_least_recently_used() {
    let mut edge = edge_with(20, 20);
    fetch(&mut edge, "/obj/a", 200, &[&[1; 8]]);
    fetch(&mut edge, "/obj/b", 200, &[&[2; 8]]);
    assert!(matches!(edge.request(true, "/obj/a"), Route::Hit(_)));
    fetch(&mut edge, "/obj/c", 200, &[&[3; 8]]);
    let told = edge.snapshot();
    assert_eq!(told.hot_keys, vec!["/obj/a".to_string(), "/obj/c".to_string()]);
    assert_eq!(told.cache_bytes, 16);
    assert!(shows(&mut edge, "edge_cache_evictions_total 1"));
}

#[test]
fn an_object_larger_than_the_cache_is_offered_in_vain() {
    let mut edge = edge_with(4, 100);
    fetch(&mut edge, "/obj/a", 200, &[b"abc"]);
    fetch(&mut edge, "/obj/b", 200, &[b"abcdef"]);
    assert_eq!(edge.snapshot().hot_keys, vec!["/obj/a".to_string()]);
    assert!(shows(&mut edge, "edge_cache_bytes 3"));
    assert!(shows(&mut edge, "edge_cache_evictions_total 0"));
}

#[test]
fn an_unreachable_origin_is_a_bad_gateway() {
    let mut edge = edge();
    let mut guard = lead(&mut edge, "/obj/x");
    let mut waiter = match edge.request(true, "/obj/x") {
        Route::Wait(rx) => rx,
        _ => panic!("not a waiter"),
    };
    assert_eq!(edge.fetch_failed(&mut guard, QUICK), 502);
    assert_eq!(BAD_GATEWAY, 502);
    match edge.waiter_response(waiter.try_recv().ok(), QUICK) {
        Err(status) => assert_eq!(status, 502),
        Ok(_) => panic!("served"),
    }
    match edge.waiter_response(None, QUICK) {
        Err(status) => assert_eq!(status, 502),
        Ok(_) => panic!("served"),
    }
    assert_eq!(edge.origin_unreachable(QUICK), 502);
    assert!(shows(&mut edge, "edge_request_duration_seconds_count 4"));
    assert!(shows(&mut edge, "edge_bytes_served_total 0"));
    assert!(matches!(edge.request(true, "/obj/x"), Route::Lead(_)));
}

#[test]
fn an_answer_that_breaks_off_fails_its_waiters() {
    let mut edge = edge();
    let guard = lead(&mut edge, "/obj/x");
    let mut waiter = match edge.request(true, "/obj/x") {
        Route::Wait(rx) => rx,
        _ => panic!("not a waiter"),
    };
    let mut tee = TeeStream::leading(&edge, 200, "/obj/x".into(), guard);
    tee.push_chunk(b"half");
    assert_eq!(tee.finish(&mut edge, true, QUICK), Some(4));
    assert!(matches!(waiter.try_recv(), Ok(FetchOutcome::Error)));
    assert!(edge.snapshot().hot_keys.is_empty());
    assert!(shows(&mut edge, "edge_bytes_served_total 4"));
}

#[test]
fn an_answer_ends_only_once() {
    let mut edge = edge();
    let guard = lead(&mut edge, "/obj/x");
    let mut tee = TeeStream::leading(&edge, 200, "/obj/x".into(), guard);
    tee.push_chunk(b"whole");
    assert_eq!(tee.finish(&mut edge, false, QUICK), Some(5));
    assert_eq!(tee.finish(&mut edge, true, QUICK), None);
    assert_eq!(tee.finish(&mut edge, false, QUICK), None);
    assert!(shows(&mut edge, "edge_bytes_served_total 5"));
    assert!(shows(&mut edge, "edge_request_duration_seconds_count 1"));
    assert_eq!(edge.snapshot().hot_keys, vec!["/obj/x".to_string()]);
}

#[test]
fn an_abandoned_leader_frees_its_key() {
    let mut edge = edge();
    let mut guard = lead(&mut edge, "/obj/x");
    let mut waiter = match edge.request(true, "/obj/x") {
        Route::Wait(rx) => rx,
        _ => panic!("not a waiter"),
    };
    edge.abandon(&mut guard);
    assert!(matches!(waiter.try_recv(), Ok(FetchOutcome::Error)));
    assert!(matches!(edge.request(true, "/obj/x"), Route::Lead(_)));
    edge.abandon(&mut guard);
    assert!(matches!(edge.request(true, "/obj/x"), Route::Wait(_)));
}

#[test]
fn other_methods_pass_through() {
    let mut edge = edge();
    fetch(&mut edge, "/obj/a", 200, &[b"x"]);
    assert!(matches!(edge.request(false, "/obj/a"), Route::Uncached));
    let mut tee = TeeStream::uncached(&edge, 200);
    tee.push_chunk(b"posted");
    assert_eq!(tee.finish(&mut edge, false, QUICK), Some(6));
    assert_eq!(edge.snapshot().hits, 0);
    assert_eq!(edge.snapshot().misses, 1);
    assert_eq!(edge.snapshot().cache_bytes, 1);
    let mut empty = TeeStream::uncached(&edge, 204);
    assert_eq!(empty.finish(&mut edge, false, QUICK), None);
}

#[test]
fn caches_are_independent() {
    let mut a = edge();
    let mut b = edge();
    fetch(&mut a, "/obj/shared", 200, &[b"x"]);
    assert!(matches!(a.request(true, "/obj/shared"), Route::Hit(_)));
    assert!(matches!(b.request(true, "/obj/shared"), Route::Lead(_)));
}

#[test]
fn a_snapshot_tells_what_there_is() {
    let mut config = EdgeConfig::for_origin("127.0.0.1:9".into());
    config.node_id = "edge-a".into();
    config.listen = "127.0.0.1:18081".into();
    config.capacity = 7;
    config.bandwidth_price = Double { bits: 2.5f64.to_bits() };
    let mut metrics = EdgeMetrics::new();
    let mut cache = ByteLru::new(100, 100);
    metrics.hit();
    metrics.hit();
    metrics.miss();
    metrics.inc_inflight();
    cache.insert(
        "/obj/1".into(),
        CachedObject {
            status: 200,
            body: Bytes::from_static(b"12345"),
        },
    );
    let told = snapshot_from_metrics(&config, &metrics, &cache);
    assert_eq!(told.node_id, "edge-a");
    assert_eq!(told.addr, "127.0.0.1:18081");
    assert!(told.healthy);
    assert_eq!(told.inflight, 1);
    assert_eq!(told.capacity, 7);
    assert_eq!(told.cache_bytes, 5);
    assert_eq!(told.hits, 2);
    assert_eq!(told.misses, 1);
    assert_eq!(told.bandwidth_price.bits, 2.5f64.to_bits());
    assert_eq!(told.ewma_rtt_ms, Double::one());
    assert_eq!(told.hot_keys, vec!["/obj/1".to_string()]);
}

#[test]
fn an_edge_keeps_its_configuration() {
    let edge = edge();
    assert_eq!(edge.config().origin, "127.0.0.1:9");
    edge.cost_units().cell.inc_by(1.5);
    let mut edge = edge;
    assert!(shows(&mut edge, "edge_cost_units_total 1.5"));
}

#[test]
fn urls_are_put_together() {
    assert_eq!(heartbeat_url("http://ctl:1"), "http://ctl:1/heartbeat");
    assert_eq!(heartbeat_url("http://ctl:1//"), "http://ctl:1/heartbeat");
    assert_eq!(heartbeat_url(""), "/heartbeat");
    let config = EdgeConfig::for_origin("127.0.0.1:9".into());
    assert_eq!(upstream_url(&config, Some("/obj/a?size=4")), "http://127.0.0.1:9/obj/a?size=4");
    assert_eq!(upstream_url(&config, None), "http://127.0.0.1:9/");
}

#[test]
fn headers_of_one_hop_are_known() {
    for name in [
        "connection",
        "keep-alive",
        "proxy-authenticate",
        "proxy-authorization",
        "te",
        "trailer",
        "transfer-encoding",
        "upgrade",
        "Connection",
        "TE",
        "Transfer-Encoding",
    ] {
        assert!(is_hop_by_hop(name), "{name}");
    }
    for name in ["content-type", "content-length", "tea", "t", "", "upgrade-insecure-requests"] {
        assert!(!is_hop_by_hop(name), "{name}");
    }
}

#[test]
fn headers_are_handed_on_in_order() {
    let headers: Vec<(String, Vec<u8>)> = [
        ("content-type", "text/plain"),
        ("connection", "close"),
        ("x-a", "1"),
        ("content-length", "10"),
        ("x-a", "2"),
        ("transfer-encoding", "chunked"),
        ("etag", "z"),
    ]
    .iter()
    .map(|(n, v)| (n.to_string(), v.as_bytes().to_vec()))
    .collect();
    let kept = forward_headers(&headers);
    let names: Vec<&str> = kept.iter().map(|h| h.0.as_str()).collect();
    assert_eq!(names, vec!["content-type", "x-a", "x-a", "etag"]);
    assert_eq!(kept[1].1, b"1".to_vec());
    assert_eq!(kept[2].1, b"2".to_vec());
}

#[test]
fn the_origin_agrees_with_its_edges() {
    let mut origin = skynet::origin::OriginHandle::new();
    let mut edges = vec![edge(), edge()];
    for (k, path) in [(0, "/a"), (1, "/a"), (0, "/a"), (0, "/b"), (1, "/b"), (1, "/a"), (0, "/b")] {
        match edges[k].request(true, path) {
            Route::Lead(guard) => {
                origin.record(path);
                let mut tee = TeeStream::leading(&edges[k], 200, path.into(), guard);
                tee.push_chunk(b"x");
                tee.finish(&mut edges[k], false, QUICK);
            }
            Route::Hit(_) => {}
            _ => panic!("neither a hit nor a lead"),
        }
    }
    assert_eq!(origin.total_hits(), 4);
    for edge in edges.iter_mut() {
        assert!(shows(edge, "edge_origin_fetches_total 2"));
        assert!(shows(edge, "edge_cache_misses_total 2"));
    }
}
