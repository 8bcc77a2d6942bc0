use skynet::binary64::Double;
use skynet::control::{ControlConfig, LocateResponse};
use skynet::dns::{answer_query, build_dns_reply, parse_ipv4, parse_qname};
use skynet::steering::NodeSnapshot;

fn query(id: u16, name: &str, qtype: u16) -> Vec<u8> {
    let mut q = Vec::new();
    q.extend_from_slice(&id.to_be_bytes());
    q.extend_from_slice(&[0x01, 0x00, 0, 1, 0, 0, 0, 0, 0, 0]);
    for label in name.split('.') {
        q.push(label.len() as u8);
        q.extend_from_slice(label.as_bytes());
    }
    q.push(0);
    q.extend_from_slice(&qtype.to_be_bytes());
    q.extend_from_slice(&1u16.to_be_bytes());
    q
}

fn at(addr: &str) -> LocateResponse {
    LocateResponse {
        node_id: "edge-a".into(),
        addr: addr.into(),
        score: Double::one(),
    }
}

#[test]
fn an_address_query_gets_an_address() {
    let q = query(0x1234, "cdn.local", 1);
    let host = at("10.1.2.3:18081");
    let reply = answer_query(&q, Some(&host)).unwrap();
    let mut expected = vec![0x12, 0x34, 0x81, 0x80, 0, 1, 0, 1, 0, 0, 0, 0];
    expected.extend_from_slice(&q[12..]);
    expected.extend_from_slice(&[0xC0, 0x0C, 0, 1, 0, 1, 0, 0, 0, 5, 0, 4, 10, 1, 2, 3]);
    assert_eq!(reply, expected);
}

#[test]
fn without_a_host_the_server_fails() {
    let q = query(7, "cdn.local", 1);
    let reply = answer_query(&q, None).unwrap();
    let mut expected = vec![0, 7, 0x81, 0x82, 0, 1, 0, 0, 0, 0, 0, 0];
    expected.extend_from_slice(&q[12..]);
    assert_eq!(reply, expected);
}

#[test]
fn other_questions_get_no_answer() {
    let q = query(7, "cdn.local", 28);
    let host = at("10.1.2.3:18081");
    let reply = answer_query(&q, Some(&host)).unwrap();
    assert_eq!(&reply[..12], &[0, 7, 0x81, 0x80, 0, 1, 0, 0, 0, 0, 0, 0]);
    assert_eq!(&reply[12..], &q[12..]);
    let q = query(7, "cdn.local", 0x0101);
    assert_eq!(answer_query(&q, Some(&host)).unwrap()[7], 0);
}

#[test]
fn a_host_without_an_address_is_answered_with_none() {
    let q = query(7, "cdn.local", 1);
    let host = at("edge.example:80");
    let reply = answer_query(&q, Some(&host)).unwrap();
    assert_eq!(&reply[reply.len() - 4..], &[0, 0, 0, 0]);
    assert_eq!(reply[7], 1);
}

#[test]
fn what_is_no_query_gets_no_reply() {
    let q = query(7, "cdn.local", 1);
    for n in 0..q.len() {
        assert!(answer_query(&q[..n], None).is_none(), "{n}");
    }
    let mut compressed = query(7, "cdn.local", 1);
    compressed[12] = 192;
    assert!(answer_query(&compressed, None).is_none());
    let mut rd = query(7, "cdn.local", 1);
    rd[2] = 0xFE;
    rd[3] = 0x01;
    let reply = answer_query(&rd, None).unwrap();
    assert_eq!(&reply[2..4], &[0x80, 0x82]);
}

#[test]
fn trailing_bytes_are_left_out() {
    let mut q = query(7, "a.b", 1);
    let len = q.len();
    q.extend_from_slice(&[9, 9, 9]);
    let reply = answer_query(&q, None).unwrap();
    assert_eq!(reply.len(), len);
}

#[test]
fn names_are_read() {
    let q = query(7, "www.cdn.local", 1);
    assert_eq!(parse_qname(&q, 12), Some(("www.cdn.local".to_string(), q.len() - 4)));
    assert_eq!(parse_qname(&[0], 0), Some((String::new(), 1)));
    assert_eq!(parse_qname(&[1, b'x', 0], 0), Some(("x".to_string(), 3)));
    assert_eq!(parse_qname(&[1, b'x'], 0), None);
    assert_eq!(parse_qname(&[2, b'x'], 0), None);
    assert_eq!(parse_qname(&[192, 0], 0), None);
    assert_eq!(parse_qname(&[], 0), None);
    assert_eq!(parse_qname(&[0], 5), None);
}

#[test]
fn long_labels_are_read() {
    let mut msg = vec![191];
    msg.extend_from_slice(&[b'z'; 191]);
    msg.push(0);
    assert_eq!(parse_qname(&msg, 0), Some(("z".repeat(191), 193)));
}

#[test]
fn what_is_no_text_is_replaced() {
    let (name, end) = parse_qname(&[3, b'a', 0xFF, b'b', 2, 0xC3, 0xA9, 0], 0).unwrap();
    assert_eq!(name, "a\u{fffd}b.\u{e9}");
    assert_eq!(end, 8);
}

#[test]
fn addresses_are_read() {
    assert_eq!(parse_ipv4("10.1.2.3:18081"), Some([10, 1, 2, 3]));
    assert_eq!(parse_ipv4("127.0.0.1"), Some([127, 0, 0, 1]));
    assert_eq!(parse_ipv4("255.255.255.255:0"), Some([255, 255, 255, 255]));
    for bad in [
        "", ":80", "1.2.3", "1.2.3.4.5", "1.2.3.256", "01.2.3.4", "1.2.3.", "a.b.c.d",
        "1.2.3.4 ", "+1.2.3.4", "1..2.3", "0000.0.0.0", "[::1]:80",
    ] {
        assert_eq!(parse_ipv4(bad), None, "{bad}");
    }
}

#[test]
fn written_addresses_are_read_back() {
    for a in [0u8, 1, 9, 10, 42, 99, 100, 199, 200, 249, 255] {
        for b in [0u8, 7, 11, 101, 255] {
            let text = format!("{a}.{b}.{b}.{a}:8080");
            assert_eq!(parse_ipv4(&text), Some([a, b, b, a]));
        }
    }
}

fn node(id: &str, addr: &str, healthy: bool) -> NodeSnapshot {
    NodeSnapshot {
        node_id: id.into(),
        addr: addr.into(),
        healthy,
        inflight: 0,
        capacity: 10,
        cache_bytes: 0,
        hits: 0,
        misses: 0,
        bandwidth_price: Double::one(),
        ewma_rtt_ms: Double::one(),
        has_key: false,
    }
}

#[test]
fn a_query_is_answered_with_the_chosen_edge() {
    let config = ControlConfig::default();
    let q = query(9, "cdn.local", 1);
    let nodes = vec![
        node("edge-a", "10.0.0.1:80", false),
        node("edge-b", "10.0.0.2:80", true),
    ];
    let scores = vec![Double::one(), Double::one()];
    let reply = build_dns_reply(&q, &config, &nodes, &scores).unwrap();
    assert_eq!(&reply[reply.len() - 4..], &[10, 0, 0, 2]);
    let failed = build_dns_reply(&q, &config, &[], &[]).unwrap();
    assert_eq!(failed[3], 0x82);
    assert!(build_dns_reply(&q[..11], &config, &nodes, &scores).is_none());
}

#[test]
fn the_result_code_of_a_query_does_not_matter() {
    let q = [0x12, 0x34, 0x01, 0x01, 0, 1, 0, 0, 0, 0, 0, 0, 0, 0, 1, 0, 1];
    let config = ControlConfig::default();
    let failed = build_dns_reply(&q, &config, &[], &[]).unwrap();
    assert_eq!(failed[3] & 0x0f, 2);
    let host = at("10.1.2.3:80");
    assert_eq!(answer_query(&q, Some(&host)).unwrap()[3], 0x80);
}

#[test]
fn written_names_are_read_back() {
    let labels = ["a", "\u{e9}t\u{e9}", "local"];
    let mut msg = vec![7, 7, 7, 0];
    for label in labels {
        msg.push(label.len() as u8);
        msg.extend_from_slice(label.as_bytes());
    }
    msg.push(0);
    let end = msg.len();
    msg.extend_from_slice(&[1, 2, 200]);
    assert_eq!(parse_qname(&msg, 4), Some((labels.join("."), end)));
}
