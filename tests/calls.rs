use groundwork::call::{BodyEvent, BodyReader, Buffer, Call, CallResponse, STREAM_ERROR_CODE};

#[test]
fn call_constructors() {
    let ok = Call::successfull(5, 7, "/a".to_string(), 12);
    assert_eq!((ok.timestamp_ms, ok.duration_us, ok.path.as_str()), (5, 7, "/a"));
    assert_eq!(ok.response, CallResponse::Success { length: 12 });
    let err = Call::error(6, 8, "/b".to_string(), 404);
    assert_eq!((err.timestamp_ms, err.duration_us, err.path.as_str()), (6, 8, "/b"));
    assert_eq!(err.response, CallResponse::Failure { code: 404 });
}

#[test]
fn call_ring_capacity() {
    let mut b = Buffer::<3>::new();
    for i in 0..5u64 {
        b.record_success(i, i * 10, format!("/call{i}"), i as usize);
    }
    let snap = b.snapshot();
    assert_eq!(b.len(), 3);
    let stamps: Vec<u64> = snap.iter().map(|c| c.timestamp_ms).collect();
    assert_eq!(stamps, vec![2, 3, 4]);
    assert_eq!(snap[0].path, "/call2");
    assert_eq!(snap[2].response, CallResponse::Success { length: 4 });
}

#[test]
fn immediate_failure_is_recorded() {
    let mut b = Buffer::<4>::new();
    b.record_failure(100, 250, "/missing".to_string(), 404);
    let snap = b.snapshot();
    assert_eq!(snap.len(), 1);
    assert_eq!(snap[0].response, CallResponse::Failure { code: 404 });
    assert_eq!(snap[0].duration_us, 250);
}

#[test]
fn streaming_success_counts_all_chunks() {
    let mut b = Buffer::<4>::new();
    let mut r = BodyReader::new(1000, "/stream".to_string());
    b.observe(&mut r, BodyEvent::Chunk(10), 5);
    b.observe(&mut r, BodyEvent::Chunk(0), 6);
    b.observe(&mut r, BodyEvent::Chunk(15), 7);
    assert_eq!(b.len(), 0);
    assert_eq!(r.length(), 25);
    b.observe(&mut r, BodyEvent::End, 900);
    let snap = b.snapshot();
    assert_eq!(snap.len(), 1);
    assert_eq!(snap[0].response, CallResponse::Success { length: 25 });
    assert_eq!(snap[0].duration_us, 900);
    assert_eq!(snap[0].timestamp_ms, 1000);
    assert_eq!(snap[0].path, "/stream");
}

#[test]
fn stream_read_error_uses_sentinel_code() {
    let mut r = BodyReader::new(1, "/x".to_string());
    assert!(r.on_event(BodyEvent::Chunk(3), 1).is_none());
    let c = r.on_event(BodyEvent::Failed, 2).unwrap();
    assert_eq!(c.response, CallResponse::Failure { code: STREAM_ERROR_CODE });
    assert_eq!(STREAM_ERROR_CODE, u16::MAX);
    assert_eq!(c.path, "/x");
    assert!(r.is_recorded());
}

#[test]
fn finished_exchange_emits_nothing_more() {
    let mut r = BodyReader::new(1, "/x".to_string());
    assert!(r.on_event(BodyEvent::End, 2).is_some());
    assert!(r.on_event(BodyEvent::End, 3).is_none());
    assert!(r.on_event(BodyEvent::Failed, 3).is_none());
    assert!(r.on_event(BodyEvent::Chunk(4), 3).is_none());
}

#[test]
fn zero_length_body_is_a_success() {
    let mut r = BodyReader::new(1, "/empty".to_string());
    let c = r.on_event(BodyEvent::End, 2).unwrap();
    assert_eq!(c.response, CallResponse::Success { length: 0 });
}

#[test]
fn at_most_one_record_per_exchange() {
    let mut b = Buffer::<16>::new();
    b.record_failure(0, 1, "/fail".to_string(), 500);
    let mut readers: Vec<BodyReader> =
        (0..4).map(|i| BodyReader::new(i, format!("/r{i}"))).collect();
    let scripts: Vec<Vec<BodyEvent>> = vec![
        vec![BodyEvent::Chunk(3), BodyEvent::Chunk(4), BodyEvent::End, BodyEvent::End],
        vec![BodyEvent::End],
        vec![BodyEvent::Chunk(2), BodyEvent::Failed, BodyEvent::Chunk(9)],
        vec![BodyEvent::Chunk(8), BodyEvent::Chunk(1)],
    ];
    // interleave the exchanges step by step
    for step in 0..4 {
        for (i, script) in scripts.iter().enumerate() {
            if let Some(e) = script.get(step) {
                b.observe(&mut readers[i], *e, step as u64);
            }
        }
    }
    let snap = b.snapshot();
    assert_eq!(snap.len(), 4);
    let mut paths: Vec<&str> = snap.iter().map(|c| c.path.as_str()).collect();
    paths.sort();
    assert_eq!(paths, vec!["/fail", "/r0", "/r1", "/r2"]);
    let r0 = snap.iter().find(|c| c.path == "/r0").unwrap();
    assert_eq!(r0.response, CallResponse::Success { length: 7 });
    let r2 = snap.iter().find(|c| c.path == "/r2").unwrap();
    assert_eq!(r2.response, CallResponse::Failure { code: u16::MAX });
    assert!(!readers[3].is_recorded());
}

#[test]
fn chunk_lengths_saturate() {
    let mut r = BodyReader::new(1, "/big".to_string());
    r.on_event(BodyEvent::Chunk(usize::MAX), 1);
    r.on_event(BodyEvent::Chunk(5), 1);
    assert_eq!(r.length(), usize::MAX);
}
