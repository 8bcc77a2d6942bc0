use skynet::origin::{
    plan_object, ChunkStep, ChunkStream, ObjectPlan, OriginConfig, OriginHandle,
};

fn drain(stream: &mut ChunkStream) -> (Vec<usize>, Vec<u64>, bool) {
    let mut sizes = Vec::new();
    let mut pauses = Vec::new();
    let mut only_letters = true;
    loop {
        match stream.poll_next() {
            ChunkStep::Done => return (sizes, pauses, only_letters),
            ChunkStep::Sleep(ms) => {
                pauses.push(ms);
                stream.wake();
            }
            ChunkStep::Chunk(piece) => {
                only_letters = only_letters && piece.iter().all(|b| *b == b'a');
                sizes.push(piece.len());
            }
        }
    }
}

#[test]
fn the_origin_counts_by_path() {
    let mut handle = OriginHandle::new();
    assert_eq!(handle.path_hits("/obj/x"), 0);
    handle.record("/obj/x");
    handle.record("/obj/y");
    handle.record("/obj/x");
    assert_eq!(handle.path_hits("/obj/x"), 2);
    assert_eq!(handle.path_hits("/obj/y"), 1);
    assert_eq!(handle.path_hits("/obj/z"), 0);
    assert_eq!(handle.total_hits(), 3);
    assert_eq!(handle.stats().total_hits, 3);
    assert_eq!(OriginHandle::default().total_hits(), 0);
}

#[test]
fn the_origin_has_defaults() {
    let config = OriginConfig::default();
    assert_eq!(config.default_size, 65536);
    assert_eq!(config.chunk_size, 8192);
    assert_eq!(config.delay_ms, 0);
    assert_eq!(config.error_status, None);
}

#[test]
fn an_object_comes_in_pieces() {
    let (sizes, pauses, only_letters) = drain(&mut ChunkStream::new(1000, 256, 0));
    assert_eq!(sizes, vec![256, 256, 256, 232]);
    assert!(pauses.is_empty());
    assert!(only_letters);
}

#[test]
fn pieces_are_never_empty() {
    let (sizes, _, _) = drain(&mut ChunkStream::new(3, 0, 0));
    assert_eq!(sizes, vec![1, 1, 1]);
    let (none, _, _) = drain(&mut ChunkStream::new(0, 16, 5));
    assert!(none.is_empty());
}

#[test]
fn a_pause_stands_before_each_piece() {
    let (sizes, pauses, _) = drain(&mut ChunkStream::new(1024, 256, 50));
    assert_eq!(sizes.len(), 4);
    assert_eq!(pauses, vec![50, 50, 50, 50]);
}

#[test]
fn an_object_request_is_counted_and_answered() {
    let mut handle = OriginHandle::new();
    let config = OriginConfig {
        default_size: 10,
        chunk_size: 4,
        delay_ms: 0,
        error_status: None,
    };
    match plan_object(&config, &mut handle, "/obj/a", None) {
        ObjectPlan::Stream { chunks: mut s, .. } => assert_eq!(drain(&mut s).0, vec![4, 4, 2]),
        ObjectPlan::Failure { .. } => panic!("failed"),
    }
    match plan_object(&config, &mut handle, "/obj/a", Some(5)) {
        ObjectPlan::Stream { chunks: mut s, .. } => assert_eq!(drain(&mut s).0, vec![4, 1]),
        ObjectPlan::Failure { .. } => panic!("failed"),
    }
    assert_eq!(handle.path_hits("/obj/a"), 2);
}

#[test]
fn an_origin_can_be_set_to_fail() {
    let mut handle = OriginHandle::new();
    let mut config = OriginConfig::default();
    for (set, status) in [(503, 503), (100, 100), (999, 999), (99, 500), (1000, 500), (0, 500)] {
        config.error_status = Some(set);
        match plan_object(&config, &mut handle, "/obj/fail", None) {
            ObjectPlan::Failure { status: code, body } => {
                assert_eq!(code, status);
                assert_eq!(body, "origin error");
            }
            ObjectPlan::Stream { .. } => panic!("answered"),
        }
    }
    assert_eq!(handle.path_hits("/obj/fail"), 6);
}

#[test]
fn the_total_is_the_sum_over_the_paths() {
    let mut handle = OriginHandle::new();
    let paths = ["/a", "/b", "/a", "/c", "/a", "/b"];
    for path in paths {
        handle.record(path);
    }
    let sum: u64 = ["/a", "/b", "/c", "/d"].iter().map(|p| handle.path_hits(p)).sum();
    assert_eq!(handle.stats().total_hits, sum);
    assert_eq!(handle.total_hits(), 6);
}

#[test]
fn there_are_as_many_pieces_as_are_needed() {
    for (size, chunk) in [(0usize, 4usize), (1, 4), (4, 4), (5, 4), (8, 4), (9, 4), (7, 1)] {
        let mut stream = ChunkStream::new(size, chunk, 3);
        let (sizes, pauses, _) = drain(&mut stream);
        assert_eq!(sizes.len(), (size + chunk - 1) / chunk);
        assert_eq!(pauses.len(), sizes.len());
        assert!(matches!(stream.poll_next(), ChunkStep::Done));
        assert!(matches!(stream.poll_next(), ChunkStep::Done));
    }
}

#[test]
fn an_object_is_a_success_of_bytes() {
    let mut handle = OriginHandle::new();
    match plan_object(&OriginConfig::default(), &mut handle, "/obj/a", Some(1)) {
        ObjectPlan::Stream {
            status,
            content_type,
            ..
        } => {
            assert_eq!(status, 200);
            assert_eq!(content_type, "application/octet-stream");
        }
        ObjectPlan::Failure { .. } => panic!("failed"),
    }
}
