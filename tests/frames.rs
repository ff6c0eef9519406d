use groundwork::trace::{decode_log_bytes, decode_trace_bytes, read_hex, Buffer, LogError};

fn log_bytes(timestamp: u64, level: u8, message: &str) -> Vec<u8> {
    let mut out = vec![0u8];
    out.extend_from_slice(format!("{timestamp:016X}{level:X}").as_bytes());
    out.extend_from_slice(message.as_bytes());
    out
}

#[test]
fn ring_overwrite_keeps_last_bytes() {
    let mut b = Buffer::<8>::new();
    let data: Vec<u8> = (1u8..=12).collect();
    b.write(&data);
    assert_eq!(b.contents(), vec![5, 6, 7, 8, 9, 10, 11, 12]);
}

#[test]
fn ring_overwrite_across_writes() {
    let mut b = Buffer::<4>::new();
    b.write(&[1, 2, 3]);
    b.write(&[4, 5]);
    assert_eq!(b.contents(), vec![2, 3, 4, 5]);
    b.write(&[]);
    assert_eq!(b.contents(), vec![2, 3, 4, 5]);
}

#[test]
fn zero_capacity_ring_holds_nothing() {
    let mut b = Buffer::<0>::new();
    b.write(&[1, 2, 3]);
    b.write_log(1, "x", 5);
    assert!(b.contents().is_empty());
    assert!(b.get_logs().unwrap().is_empty());
}

#[test]
fn log_frame_layout() {
    let mut b = Buffer::<64>::new();
    b.write_log(2, "boot", 1700000000);
    assert_eq!(b.contents(), log_bytes(1700000000, 2, "boot"));
    assert_eq!(&b.contents()[..18], b"\x00000000006553F1002");
}

#[test]
fn log_round_trip() {
    let mut b = Buffer::<256>::new();
    let lines = [(10u64, 1u8, "first"), (11, 3, "second line"), (u64::MAX, 15, "")];
    for (t, l, m) in lines {
        b.write_log(l, m, t);
    }
    let got = b.get_logs().unwrap();
    assert_eq!(got.len(), 3);
    for (g, (t, l, m)) in got.iter().zip(lines) {
        assert_eq!(g.timestamp, t);
        assert_eq!(g.level, l);
        assert_eq!(g.message, m);
    }
}

#[test]
fn concrete_scenario_boot_ready() {
    let mut b = Buffer::<64>::new();
    b.write_log(2, "boot", 1700000000);
    b.write_log(0, "ready", 1700000005);
    let got = b.get_logs().unwrap();
    assert_eq!(got.len(), 2);
    assert_eq!((got[0].timestamp, got[0].level, got[0].message.as_str()), (1700000000, 2, "boot"));
    assert_eq!((got[1].timestamp, got[1].level, got[1].message.as_str()), (1700000005, 0, "ready"));

    b.write_log(1, "third line!", 1700000009);
    let got = b.get_logs().unwrap();
    assert_eq!(got.len(), 2);
    assert_eq!((got[0].timestamp, got[0].level, got[0].message.as_str()), (1700000005, 0, "ready"));
    assert_eq!(
        (got[1].timestamp, got[1].level, got[1].message.as_str()),
        (1700000009, 1, "third line!")
    );
}

#[test]
fn truncated_leading_frame_is_skipped() {
    let mut b = Buffer::<60>::new();
    for i in 0..3u64 {
        b.write_log(3, "abcdefgh", 100 + i);
    }
    // three frames of 26 bytes in 60: the first one lost its start
    let got = b.get_logs().unwrap();
    assert_eq!(got.len(), 2);
    assert_eq!(got[0].timestamp, 101);
    assert_eq!(got[1].timestamp, 102);
    assert!(got.iter().all(|l| l.message == "abcdefgh" && l.level == 3));
}

#[test]
fn no_sentinel_decodes_to_nothing() {
    assert!(decode_log_bytes(&b"ABCDEF".to_vec()).unwrap().is_empty());
    assert!(decode_log_bytes(&vec![]).unwrap().is_empty());
    assert!(decode_trace_bytes(&b"xyz".to_vec()).unwrap().is_empty());
}

#[test]
fn non_hex_timestamp_is_an_error() {
    let mut bytes = log_bytes(1, 1, "m");
    bytes[3] = b'g';
    assert!(matches!(decode_log_bytes(&bytes), Err(LogError::UnexpectedTimestampValue)));
    let mut lower = log_bytes(0xABC, 1, "m");
    lower[14] = b'a';
    assert!(matches!(decode_log_bytes(&lower), Err(LogError::UnexpectedTimestampValue)));
}

#[test]
fn truncated_header_is_an_error() {
    let bytes = log_bytes(1, 1, "m");
    assert!(matches!(decode_log_bytes(&bytes[..10].to_vec()), Err(LogError::ValueExpected)));
    assert!(matches!(decode_log_bytes(&vec![7, 0]), Err(LogError::ValueExpected)));
}

#[test]
fn invalid_text_is_an_error() {
    let mut bytes = log_bytes(1, 1, "");
    bytes.extend_from_slice(&[0xff, 0xfe]);
    assert!(matches!(decode_log_bytes(&bytes), Err(LogError::Utf8(_))));
    assert!(matches!(decode_trace_bytes(&vec![0, 0xc3]), Err(LogError::Utf8(_))));
}

#[test]
fn non_ascii_text_round_trips() {
    let mut b = Buffer::<128>::new();
    b.write_log(4, "héllo wörld", 42);
    b.write_trace("ünïcode");
    let logs = decode_log_bytes(&log_bytes(42, 4, "héllo wörld")).unwrap();
    assert_eq!(logs[0].message, "héllo wörld");
    let mut t = Buffer::<32>::new();
    t.write_trace("ünïcode");
    assert_eq!(t.get_traces().unwrap(), vec!["ünïcode".to_string()]);
}

#[test]
fn traces_round_trip() {
    let mut b = Buffer::<64>::new();
    b.write_trace("one");
    b.write_trace("two");
    b.write_trace("");
    assert_eq!(b.get_traces().unwrap(), vec!["one".to_string(), "two".to_string(), String::new()]);
}

#[test]
fn traces_skip_truncated_remnant() {
    let mut b = Buffer::<10>::new();
    b.write_trace("abcdef");
    b.write_trace("ghij");
    // 12 bytes in 10: the first frame lost its sentinel and "a"
    assert_eq!(b.get_traces().unwrap(), vec!["ghij".to_string()]);
}

#[test]
fn read_hex_digits() {
    assert_eq!(read_hex(b'0').unwrap(), 0);
    assert_eq!(read_hex(b'9').unwrap(), 9);
    assert_eq!(read_hex(b'A').unwrap(), 10);
    assert_eq!(read_hex(b'F').unwrap(), 15);
    assert!(matches!(read_hex(b'a'), Err(LogError::UnexpectedTimestampValue)));
    assert!(matches!(read_hex(b'G'), Err(LogError::UnexpectedTimestampValue)));
    assert!(matches!(read_hex(0), Err(LogError::UnexpectedTimestampValue)));
}
