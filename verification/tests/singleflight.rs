use bytes::Bytes;
use skynet::cache::CachedObject;
use skynet::singleflight::{FetchOutcome, Flight, SingleFlight};

fn body_of(outcome: FetchOutcome) -> Vec<u8> {
    match outcome {
        FetchOutcome::Object(obj) => obj.body.to_vec(),
        FetchOutcome::Error => panic!("an error came"),
    }
}

#[test]
fn the_first_leads_and_the_others_get_its_outcome() {
    let mut flights = SingleFlight::new();
    let mut guard = match flights.join("k") {
        Flight::Leader(guard) => guard,
        Flight::Waiter(_) => panic!("nothing to wait for"),
    };
    let mut first = match flights.join("k") {
        Flight::Waiter(rx) => rx,
        Flight::Leader(_) => panic!("two leaders"),
    };
    let mut second = match flights.join("k") {
        Flight::Waiter(rx) => rx,
        Flight::Leader(_) => panic!("two leaders"),
    };
    assert!(first.try_recv().is_err());
    guard.complete(
        &mut flights,
        FetchOutcome::Object(CachedObject {
            status: 200,
            body: Bytes::from_static(b"payload"),
        }),
    );
    assert_eq!(body_of(first.try_recv().unwrap()), b"payload".to_vec());
    assert_eq!(body_of(second.try_recv().unwrap()), b"payload".to_vec());
}

#[test]
fn a_key_is_free_once_its_fetch_is_over() {
    let mut flights = SingleFlight::new();
    let mut guard = match flights.join("k") {
        Flight::Leader(guard) => guard,
        Flight::Waiter(_) => panic!("nothing to wait for"),
    };
    guard.complete(&mut flights, FetchOutcome::Error);
    assert!(matches!(flights.join("k"), Flight::Leader(_)));
    assert!(matches!(flights.join("k"), Flight::Waiter(_)));
}

#[test]
fn keys_do_not_wait_for_each_other() {
    let mut flights = SingleFlight::new();
    assert!(matches!(flights.join("a"), Flight::Leader(_)));
    assert!(matches!(flights.join("b"), Flight::Leader(_)));
    assert!(matches!(flights.join("a"), Flight::Waiter(_)));
}

#[test]
fn an_abandoned_fetch_is_an_error() {
    let mut flights = SingleFlight::new();
    let mut guard = match flights.join("k") {
        Flight::Leader(guard) => guard,
        Flight::Waiter(_) => panic!("nothing to wait for"),
    };
    let mut waiter = match flights.join("k") {
        Flight::Waiter(rx) => rx,
        Flight::Leader(_) => panic!("two leaders"),
    };
    guard.abandon(&mut flights);
    assert!(matches!(waiter.try_recv(), Ok(FetchOutcome::Error)));
    assert!(matches!(flights.join("k"), Flight::Leader(_)));
}

#[test]
fn abandoning_a_fetch_that_is_over_changes_nothing() {
    let mut flights = SingleFlight::new();
    let mut guard = match flights.join("k") {
        Flight::Leader(guard) => guard,
        Flight::Waiter(_) => panic!("nothing to wait for"),
    };
    let mut waiter = match flights.join("k") {
        Flight::Waiter(rx) => rx,
        Flight::Leader(_) => panic!("two leaders"),
    };
    guard.complete(&mut flights, FetchOutcome::Error);
    let next = flights.join("k");
    assert!(matches!(next, Flight::Leader(_)));
    guard.abandon(&mut flights);
    assert!(matches!(waiter.try_recv(), Ok(FetchOutcome::Error)));
    assert!(waiter.try_recv().is_err());
    assert!(matches!(flights.join("k"), Flight::Waiter(_)));
}

#[test]
fn an_outcome_is_cloned_as_it_is() {
    let outcome = FetchOutcome::Object(CachedObject {
        status: 404,
        body: Bytes::from_static(b"gone"),
    });
    match outcome.clone() {
        FetchOutcome::Object(obj) => {
            assert_eq!(obj.status, 404);
            assert_eq!(&obj.body[..], b"gone");
        }
        FetchOutcome::Error => panic!("an error came"),
    }
    assert!(matches!(FetchOutcome::Error.clone(), FetchOutcome::Error));
}

#[test]
fn by_default_nothing_is_fetched() {
    assert!(matches!(SingleFlight::default().join("k"), Flight::Leader(_)));
}
