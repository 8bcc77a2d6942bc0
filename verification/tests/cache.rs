use bytes::Bytes;
use skynet::cache::{ByteLru, CachedObject};

fn object(status: u16, size: usize, fill: u8) -> CachedObject {
    CachedObject {
        status,
        body: Bytes::from(vec![fill; size]),
    }
}

#[test]
fn evicts_oldest_when_over_capacity() {
    let mut lru = ByteLru::new(10, 10);
    lru.insert(
        "a".into(),
        CachedObject {
            status: 200,
            body: Bytes::from(vec![1; 6]),
        },
    );
    lru.insert(
        "b".into(),
        CachedObject {
            status: 200,
            body: Bytes::from(vec![2; 6]),
        },
    );
    assert!(lru.get("a").is_none());
    assert!(lru.get("b").is_some());
    assert_eq!(lru.bytes(), 6);
}

#[test]
fn refuses_objects_over_max() {
    let mut lru = ByteLru::new(100, 4);
    let evicted = lru.insert(
        "big".into(),
        CachedObject {
            status: 200,
            body: Bytes::from(vec![1; 8]),
        },
    );
    assert_eq!(evicted, 0);
    assert!(lru.get("big").is_none());
}

#[test]
fn does_not_cache_5xx() {
    let mut lru = ByteLru::new(100, 100);
    lru.insert(
        "err".into(),
        CachedObject {
            status: 500,
            body: Bytes::from_static(b"nope"),
        },
    );
    assert!(lru.get("err").is_none());
}

#[test]
fn limits_are_at_least_one_byte() {
    let mut lru = ByteLru::new(0, 0);
    assert_eq!(lru.max_object_bytes(), 1);
    assert_eq!(lru.insert("one".into(), object(200, 1, 1)), 0);
    assert_eq!(lru.bytes(), 1);
    assert_eq!(lru.insert("two".into(), object(200, 2, 1)), 0);
    assert!(lru.get("two").is_none());
    assert_eq!(lru.keys(), vec!["one".to_string()]);
}

#[test]
fn statuses_of_success_are_cacheable() {
    assert!(!object(199, 1, 0).cacheable());
    assert!(object(200, 1, 0).cacheable());
    assert!(object(299, 1, 0).cacheable());
    assert!(!object(300, 1, 0).cacheable());
    assert_eq!(object(200, 7, 0).len(), 7);
}

#[test]
fn what_was_stored_is_read_back() {
    let mut lru = ByteLru::new(100, 100);
    lru.insert("k".into(), object(206, 5, 9));
    let obj = lru.get("k").unwrap();
    assert_eq!(obj.status, 206);
    assert_eq!(&obj.body[..], &[9, 9, 9, 9, 9]);
}

#[test]
fn a_use_saves_a_key_from_eviction() {
    let mut lru = ByteLru::new(30, 30);
    lru.insert("a".into(), object(200, 10, 1));
    lru.insert("b".into(), object(200, 10, 2));
    lru.insert("c".into(), object(200, 10, 3));
    assert!(lru.get("a").is_some());
    assert_eq!(lru.keys(), vec!["b".to_string(), "c".to_string(), "a".to_string()]);
    assert_eq!(lru.insert("d".into(), object(200, 15, 4)), 2);
    assert_eq!(lru.keys(), vec!["a".to_string(), "d".to_string()]);
    assert_eq!(lru.bytes(), 25);
}

#[test]
fn storing_again_replaces_and_evicts_no_more_than_needed() {
    let mut lru = ByteLru::new(20, 20);
    lru.insert("a".into(), object(200, 12, 1));
    lru.insert("b".into(), object(200, 8, 2));
    assert_eq!(lru.insert("a".into(), object(200, 10, 3)), 0);
    assert_eq!(lru.bytes(), 18);
    assert_eq!(lru.keys(), vec!["b".to_string(), "a".to_string()]);
    assert_eq!(&lru.get("a").unwrap().body[..], &[3; 10]);
}

#[test]
fn an_object_that_fills_the_cache_evicts_all() {
    let mut lru = ByteLru::new(20, 20);
    lru.insert("a".into(), object(200, 5, 1));
    lru.insert("b".into(), object(200, 5, 2));
    assert_eq!(lru.insert("c".into(), object(200, 20, 3)), 2);
    assert_eq!(lru.keys(), vec!["c".to_string()]);
    assert_eq!(lru.bytes(), 20);
}

#[test]
fn a_missing_key_changes_nothing() {
    let mut lru = ByteLru::new(20, 20);
    lru.insert("a".into(), object(200, 5, 1));
    lru.insert("b".into(), object(200, 5, 2));
    assert!(lru.get("c").is_none());
    assert_eq!(lru.keys(), vec!["a".to_string(), "b".to_string()]);
}

#[test]
fn a_clone_holds_the_same_object() {
    let obj = object(201, 3, 7);
    let copy = obj.clone();
    assert_eq!(copy.status, 201);
    assert_eq!(copy.body, Bytes::from(vec![7, 7, 7]));
}
