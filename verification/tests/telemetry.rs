use skynet::telemetry::EdgeMetrics;

#[test]
fn metrics_start_at_zero() {
    let metrics = EdgeMetrics::new();
    assert_eq!(metrics.hits(), 0);
    assert_eq!(metrics.misses(), 0);
    assert_eq!(metrics.inflight(), 0);
    let text = metrics.render();
    for name in [
        "edge_bytes_served_total",
        "edge_cache_hits_total",
        "edge_cache_misses_total",
        "edge_origin_fetches_total",
        "edge_inflight_coalesced_total",
        "edge_cache_evictions_total",
        "edge_cache_bytes",
        "edge_inflight_requests",
        "edge_cost_units_total",
        "edge_request_duration_seconds_count",
    ] {
        assert!(text.lines().any(|l| l == format!("{name} 0")), "{name}");
    }
    assert_eq!(EdgeMetrics::default().render(), text);
}

#[test]
fn every_metric_is_on_the_page() {
    let text = EdgeMetrics::new().render();
    for name in [
        "edge_bytes_served_total",
        "edge_request_duration_seconds",
        "edge_cache_hits_total",
        "edge_cache_misses_total",
        "edge_origin_fetches_total",
        "edge_inflight_coalesced_total",
        "edge_cache_evictions_total",
        "edge_cache_bytes",
        "edge_inflight_requests",
        "edge_cost_units_total",
    ] {
        assert!(text.contains(name), "{name}");
    }
    assert!(text.contains("# HELP edge_cache_hits_total Cache hits"));
    assert!(text.contains("# TYPE edge_inflight_requests gauge"));
    assert!(text.contains("# TYPE edge_request_duration_seconds histogram"));
}

#[test]
fn counts_show_on_the_page() {
    let mut metrics = EdgeMetrics::new();
    assert!(metrics.add_bytes(300));
    assert!(metrics.add_bytes(24));
    assert!(!metrics.add_bytes(0));
    metrics.hit();
    metrics.hit();
    metrics.miss();
    metrics.origin_fetch();
    metrics.coalesced();
    metrics.coalesced();
    metrics.coalesced();
    metrics.add_evictions(4);
    metrics.set_cache_bytes(4096);
    assert_eq!(metrics.hits(), 2);
    assert_eq!(metrics.misses(), 1);
    let text = metrics.render();
    assert!(text.contains("edge_bytes_served_total 324\n"));
    assert!(text.contains("edge_cache_hits_total 2\n"));
    assert!(text.contains("edge_cache_misses_total 1\n"));
    assert!(text.contains("edge_origin_fetches_total 1\n"));
    assert!(text.contains("edge_inflight_coalesced_total 3\n"));
    assert!(text.contains("edge_cache_evictions_total 4\n"));
    assert!(text.contains("edge_cache_bytes 4096\n"));
}

#[test]
fn latencies_fall_into_buckets() {
    let mut metrics = EdgeMetrics::new();
    metrics.observe_latency(0, 7_000_000);
    metrics.observe_latency(3, 500_000_000);
    let text = metrics.render();
    assert!(text.contains("edge_request_duration_seconds_bucket{le=\"0.005\"} 0\n"));
    assert!(text.contains("edge_request_duration_seconds_bucket{le=\"0.01\"} 1\n"));
    assert!(text.contains("edge_request_duration_seconds_bucket{le=\"2.5\"} 1\n"));
    assert!(text.contains("edge_request_duration_seconds_bucket{le=\"5\"} 2\n"));
    assert!(text.contains("edge_request_duration_seconds_bucket{le=\"10\"} 2\n"));
    assert!(text.contains("edge_request_duration_seconds_sum 3.507\n"));
    assert!(text.contains("edge_request_duration_seconds_count 2\n"));
}

#[test]
fn requests_under_way_are_never_negative() {
    let mut metrics = EdgeMetrics::new();
    metrics.inc_inflight();
    metrics.inc_inflight();
    assert_eq!(metrics.inflight(), 2);
    metrics.dec_inflight();
    assert_eq!(metrics.inflight(), 1);
    metrics.dec_inflight();
    metrics.dec_inflight();
    assert_eq!(metrics.inflight(), 0);
    assert!(metrics.render().contains("edge_inflight_requests -1\n"));
}

#[test]
fn cost_is_charged_through_its_counter() {
    let metrics = EdgeMetrics::new();
    metrics.cost_units().cell.inc_by(2.5);
    assert!(metrics.render().contains("edge_cost_units_total 2.5\n"));
}

#[test]
fn counters_wrap_around() {
    let mut metrics = EdgeMetrics::new();
    metrics.add_bytes(u64::MAX);
    metrics.add_bytes(3);
    assert!(metrics.render().contains("edge_bytes_served_total 2\n"));
}

#[test]
fn nodes_have_metrics_of_their_own() {
    let mut a = EdgeMetrics::new();
    let b = EdgeMetrics::new();
    a.hit();
    assert_eq!(a.hits(), 1);
    assert_eq!(b.hits(), 0);
}

#[test]
fn every_metric_is_described() {
    let text = EdgeMetrics::new().render();
    for (name, help, kind) in [
        (
            "edge_bytes_served_total",
            "Total response bytes actually served by this edge node",
            "counter",
        ),
        ("edge_request_duration_seconds", "Edge request latency", "histogram"),
        ("edge_cache_hits_total", "Cache hits", "counter"),
        ("edge_cache_misses_total", "Cache misses that led origin fetch", "counter"),
        ("edge_origin_fetches_total", "Origin fetches issued", "counter"),
        (
            "edge_inflight_coalesced_total",
            "Requests that waited on an in-flight origin fetch",
            "counter",
        ),
        ("edge_cache_evictions_total", "LRU evictions", "counter"),
        ("edge_cache_bytes", "Bytes currently stored in cache", "gauge"),
        ("edge_inflight_requests", "In-flight client requests", "gauge"),
        (
            "edge_cost_units_total",
            "Synthetic bandwidth cost: bytes served times node bandwidth_price",
            "counter",
        ),
    ] {
        assert!(text.lines().any(|l| l == format!("# HELP {name} {help}")), "{name}");
        assert!(text.lines().any(|l| l == format!("# TYPE {name} {kind}")), "{name}");
    }
}

#[test]
fn every_bucket_has_a_line() {
    let mut metrics = EdgeMetrics::new();
    let bounds = [
        ("0.005", 0.005),
        ("0.01", 0.01),
        ("0.025", 0.025),
        ("0.05", 0.05),
        ("0.1", 0.1),
        ("0.25", 0.25),
        ("0.5", 0.5),
        ("1", 1.0),
        ("2.5", 2.5),
        ("5", 5.0),
        ("10", 10.0),
    ];
    let seen = [
        (0, 0),
        (0, 5_000_000),
        (0, 5_000_001),
        (0, 100_000_000),
        (1, 0),
        (1, 1),
        (2, 500_000_000),
        (9, 999_999_999),
        (10, 0),
        (11, 0),
    ];
    for (secs, nanos) in seen {
        metrics.observe_latency(secs, nanos);
    }
    let text = metrics.render();
    for (written, bound) in bounds {
        let n = seen
            .iter()
            .filter(|(s, n)| std::time::Duration::new(*s, *n).as_secs_f64() <= bound)
            .count();
        let line = format!("edge_request_duration_seconds_bucket{{le=\"{written}\"}} {n}");
        assert!(text.lines().any(|l| l == line), "{line}");
    }
    assert!(text.contains("edge_request_duration_seconds_bucket{le=\"+Inf\"} 10\n"));
}
