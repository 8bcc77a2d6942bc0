use skynet::text::{chars_of, is_lowered, same_text, split, text_less, trim, trim_end, write_decimal};
use skynet::traffic::{
    locate_url, nodes_url, object_url, parse_edges, scrape, zipf_key, zipf_slot, Tally,
};

#[test]
fn slots_repeat_in_every_run() {
    assert_eq!(zipf_slot(0), 0);
    assert_eq!(zipf_slot(1), 5761);
    assert_eq!(zipf_slot(2), 1522);
    let big = 1u64 << 40;
    assert_eq!(zipf_slot(big), big.wrapping_mul(2654435761) % 10_000);
    assert_eq!(zipf_slot(u64::MAX), u64::MAX.wrapping_mul(2654435761) % 10_000);
}

#[test]
fn keys_are_in_range() {
    assert_eq!(zipf_key(7, 5), 2);
    assert_eq!(zipf_key(7, 0), 0);
    assert_eq!(zipf_key(7, 1), 0);
    assert_eq!(zipf_key(4, 5), 4);
}

#[test]
fn urls_of_a_run() {
    assert_eq!(locate_url("http://c:1/", 12), "http://c:1/locate?key=/obj/12");
    assert_eq!(object_url("10.0.0.1:80", 0, 8192), "http://10.0.0.1:80/obj/0?size=8192");
    assert_eq!(nodes_url("http://c:1"), "http://c:1/nodes");
}

#[test]
fn a_tally_adds_up() {
    let mut tally = Tally::new();
    assert_eq!(tally.percentile(3), 0);
    tally.record(30, true);
    tally.record(10, true);
    tally.record(20, false);
    tally.record(20, true);
    assert_eq!(tally.ok(), 3);
    assert_eq!(tally.fail(), 1);
    assert_eq!(tally.recorded(), 4);
    let ranked: Vec<u128> = (0..6).map(|i| tally.percentile(i)).collect();
    assert_eq!(ranked, vec![10, 20, 20, 30, 30, 30]);
}

#[test]
fn the_mix_is_in_the_order_of_names() {
    let mut tally = Tally::new();
    for id in ["edge-b", "edge-a", "edge-b", "edge-c", "edge-a", "edge-b"] {
        tally.steer(id.into());
    }
    assert_eq!(
        tally.mix(),
        vec![
            ("edge-a".to_string(), 2),
            ("edge-b".to_string(), 3),
            ("edge-c".to_string(), 1),
        ]
    );
    assert!(Tally::new().mix().is_empty());
}

#[test]
fn edges_are_listed_by_place() {
    assert!(parse_edges("").is_none());
    let rows = parse_edges(" 10.0.0.1:80,,10.0.0.2:80\t,  ,x").unwrap();
    let told: Vec<(String, String)> = rows.into_iter().map(|r| (r.node_id, r.addr)).collect();
    assert_eq!(
        told,
        vec![
            ("edge-0".to_string(), "10.0.0.1:80".to_string()),
            ("edge-1".to_string(), "10.0.0.2:80".to_string()),
            ("edge-2".to_string(), "".to_string()),
            ("edge-3".to_string(), "x".to_string()),
        ]
    );
    assert!(parse_edges(",,").unwrap().is_empty());
    assert_eq!(parse_edges("a,b,c,d,e,f,g,h,i,j,k").unwrap()[10].node_id, "edge-10");
}

#[test]
fn values_are_scraped() {
    let text = "# HELP hits Cache hits\n# TYPE hits counter\nhits_total 3\nhits 4 \r\nhits 5\nsum\t1.5e3\nlast 9";
    assert_eq!(scrape(text, "hits"), Some("4".to_string()));
    assert_eq!(scrape(text, "hits_total"), Some("3".to_string()));
    assert_eq!(scrape(text, "sum"), Some("1.5e3".to_string()));
    assert_eq!(scrape(text, "last"), Some("9".to_string()));
    assert_eq!(scrape(text, "las"), None);
    assert_eq!(scrape(text, "none"), None);
    assert_eq!(scrape("", "none"), None);
    assert_eq!(scrape("# x 1", "#"), None);
}

#[test]
fn a_page_of_an_edge_is_scraped() {
    let mut metrics = skynet::telemetry::EdgeMetrics::new();
    metrics.hit();
    metrics.add_bytes(4096);
    let text = metrics.render();
    assert_eq!(scrape(&text, "edge_cache_hits_total"), Some("1".to_string()));
    assert_eq!(scrape(&text, "edge_bytes_served_total"), Some("4096".to_string()));
    assert_eq!(scrape(&text, "edge_cost_units_total"), Some("0".to_string()));
}

#[test]
fn text_is_handled_as_std_does() {
    let samples = [
        "", " ", "a", "A b", "\u{e9}t\u{e9}", "\u{3000}x\u{a0}", "\t\r\n", "Zz[`", "//", "a/b//",
        "\u{200b}", "\u{1f600}", "z,\u{85}",
    ];
    for s in samples {
        assert_eq!(trim(s), s.trim());
        assert_eq!(trim_end(s, '/'), s.trim_end_matches('/'));
        assert_eq!(chars_of(s), s.chars().collect::<Vec<char>>());
        assert_eq!(split(s, ','), s.split(',').map(|p| p.to_string()).collect::<Vec<String>>());
        assert!(is_lowered(s, &s.to_ascii_lowercase()));
        for t in samples {
            assert_eq!(same_text(s, t), s == t);
            assert_eq!(text_less(s, t), s < t);
            assert_eq!(is_lowered(s, t), s.to_ascii_lowercase() == t);
        }
    }
    for c in '\u{0}'..='\u{3100}' {
        let s = c.to_string();
        assert_eq!(trim(&s), s.trim());
    }
    for n in [0u64, 7, 10, 99, 100, 1234567890, u64::MAX] {
        assert_eq!(write_decimal(n), n.to_string());
    }
}
