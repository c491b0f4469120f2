use waly::{
    compact, decode_line, encode_line, frame_records, read_records, recover_next_id, LogEntry,
    LogState, ReadMode, WalError,
};

fn append(state: &mut LogState, log: &mut Vec<u8>, data: &[u8], timestamp: u64) -> LogEntry {
    let (entry, bytes) = state.prepare_append(data.to_vec(), timestamp).unwrap();
    log.extend_from_slice(&bytes);
    state.commit_append();
    entry
}

fn line(id: u64, timestamp: u64, data: &[u8]) -> Vec<u8> {
    let items: Vec<String> = data.iter().map(|b| b.to_string()).collect();
    format!("{{\"id\":{},\"timestamp\":{},\"data\":[{}]}}", id, timestamp, items.join(",")).into_bytes()
}

#[test]
fn ids_follow_call_order() {
    let mut log = Vec::new();
    let mut state = LogState::open(&log, ReadMode::Lenient).unwrap();
    for i in 0..6u64 {
        let e = append(&mut state, &mut log, &[i as u8], 100 + i);
        assert_eq!(e.id, i);
    }
    assert_eq!(state.next_id(), 6);
}

#[test]
fn append_then_read_all_round_trip() {
    let mut log = Vec::new();
    let mut state = LogState::open(&log, ReadMode::Strict).unwrap();
    append(&mut state, &mut log, b"first", 1);
    let e = append(&mut state, &mut log, b"payload P", 42);
    let all = state.read_all(&log).unwrap();
    let last = all.last().unwrap();
    assert_eq!(last.id, e.id);
    assert_eq!(last.data, b"payload P".to_vec());
    assert_eq!(last.timestamp, 42);
    assert_eq!(all.len(), 2);
}

#[test]
fn reopen_resumes_after_last_id() {
    let mut log = Vec::new();
    let mut state = LogState::open(&log, ReadMode::Lenient).unwrap();
    for _ in 0..4 {
        append(&mut state, &mut log, b"x", 7);
    }
    let reopened = LogState::open(&log, ReadMode::Lenient).unwrap();
    assert_eq!(reopened.next_id(), 4);
    assert_eq!(recover_next_id(&log, ReadMode::Strict).unwrap(), 4);
}

#[test]
fn recovery_takes_the_largest_id() {
    let mut log = line(5, 0, b"a");
    log.push(b'\n');
    log.extend_from_slice(&line(2, 0, b"b"));
    log.push(b'\n');
    assert_eq!(recover_next_id(&log, ReadMode::Lenient).unwrap(), 6);
}

#[test]
fn recovery_with_no_id_left_fails() {
    let log = line(u64::MAX, 0, b"");
    assert!(matches!(recover_next_id(&log, ReadMode::Lenient), Err(WalError::InvalidEntry)));
}

#[test]
fn append_with_no_id_left_fails() {
    let log = line(u64::MAX - 1, 0, b"");
    let state = LogState::open(&log, ReadMode::Lenient).unwrap();
    assert_eq!(state.next_id(), u64::MAX);
    assert!(matches!(state.prepare_append(vec![1], 0), Err(WalError::InvalidEntry)));
}

#[test]
fn remove_deletes_exactly_one() {
    let mut log = Vec::new();
    let mut state = LogState::open(&log, ReadMode::Lenient).unwrap();
    for i in 0..4u8 {
        append(&mut state, &mut log, &[i], 0);
    }
    let log = state.remove(&log, 2).unwrap();
    let ids: Vec<u64> = state.read_all(&log).unwrap().iter().map(|e| e.id).collect();
    assert_eq!(ids, vec![0, 1, 3]);
    let datas: Vec<Vec<u8>> = state.read_all(&log).unwrap().into_iter().map(|e| e.data).collect();
    assert_eq!(datas, vec![vec![0], vec![1], vec![3]]);
}

#[test]
fn remove_absent_id_keeps_content() {
    let mut log = Vec::new();
    let mut state = LogState::open(&log, ReadMode::Lenient).unwrap();
    append(&mut state, &mut log, b"a", 1);
    append(&mut state, &mut log, b"b", 2);
    let after = state.remove(&log, 99).unwrap();
    assert_eq!(after, log);
    assert_eq!(state.next_id(), 2);
}

#[test]
fn clear_then_append_is_observable() {
    let mut log = Vec::new();
    let mut state = LogState::open(&log, ReadMode::Lenient).unwrap();
    append(&mut state, &mut log, b"a", 1);
    log.clear();
    assert!(state.read_all(&log).unwrap().is_empty());
    let e = append(&mut state, &mut log, b"after", 3);
    assert_eq!(e.id, 1);
    let all = state.read_all(&log).unwrap();
    assert_eq!(all.len(), 1);
    assert_eq!(all[0].data, b"after".to_vec());
}

#[test]
fn remove_first_of_two() {
    let mut log = Vec::new();
    let mut state = LogState::open(&log, ReadMode::Lenient).unwrap();
    assert_eq!(append(&mut state, &mut log, b"A", 1).id, 0);
    assert_eq!(append(&mut state, &mut log, b"B", 1).id, 1);
    let log = state.remove(&log, 0).unwrap();
    let all = state.read_all(&log).unwrap();
    assert_eq!(all.len(), 1);
    assert_eq!(all[0].id, 1);
    assert_eq!(all[0].data, b"B".to_vec());
}

#[test]
fn corrupted_line_is_skipped_when_lenient() {
    let mut log = line(0, 10, b"A");
    log.extend_from_slice(b"\n{\"id\":1,\"timest\n");
    log.extend_from_slice(&line(2, 12, b"C"));
    log.push(b'\n');
    let all = read_records(&log, ReadMode::Lenient).unwrap();
    assert_eq!(all.len(), 2);
    assert_eq!((all[0].id, all[0].data.clone()), (0, b"A".to_vec()));
    assert_eq!((all[1].id, all[1].data.clone()), (2, b"C".to_vec()));
    assert!(matches!(read_records(&log, ReadMode::Strict), Err(WalError::InvalidEntry)));
    assert!(matches!(compact(&log, 0, ReadMode::Strict), Err(WalError::InvalidEntry)));
}

#[test]
fn fresh_store_is_empty_and_starts_at_zero() {
    let mut log = Vec::new();
    let mut state = LogState::open(&log, ReadMode::Strict).unwrap();
    assert!(state.read_all(&log).unwrap().is_empty());
    assert_eq!(append(&mut state, &mut log, b"first", 0).id, 0);
}

#[test]
fn encoded_line_is_compact_json() {
    let e = LogEntry { id: 12, timestamp: 1700000000, data: vec![72, 105, 0, 255] };
    let bytes = encode_line(&e).unwrap();
    assert_eq!(
        String::from_utf8(bytes).unwrap(),
        "{\"id\":12,\"timestamp\":1700000000,\"data\":[72,105,0,255]}"
    );
    let empty = LogEntry { id: 0, timestamp: 0, data: vec![] };
    assert_eq!(encode_line(&empty).unwrap(), b"{\"id\":0,\"timestamp\":0,\"data\":[]}".to_vec());
}

#[test]
fn decode_reads_back_encoded_lines() {
    let e = LogEntry { id: u64::MAX, timestamp: 3, data: vec![1, 2, 3] };
    let d = decode_line(&encode_line(&e).unwrap()).unwrap();
    assert_eq!((d.id, d.timestamp, d.data), (u64::MAX, 3, vec![1, 2, 3]));
}

#[test]
fn decode_rejects_other_text() {
    assert!(decode_line(b"").is_none());
    assert!(decode_line(b"{\"id\":01,\"timestamp\":0,\"data\":[]}").is_none());
    assert!(decode_line(b"{\"id\": 1,\"timestamp\":0,\"data\":[]}").is_none());
    assert!(decode_line(b"{\"id\":1,\"timestamp\":0,\"data\":[256]}").is_none());
    assert!(decode_line(b"{\"id\":1,\"timestamp\":0,\"data\":[1,]}").is_none());
    assert!(decode_line(b"{\"id\":18446744073709551616,\"timestamp\":0,\"data\":[]}").is_none());
    assert!(decode_line(b"{\"id\":1,\"timestamp\":0,\"data\":[]}x").is_none());
    assert!(decode_line(b"{\"id\":1,\"timestamp\":0,\"data\":[]}").is_some());
}

#[test]
fn last_line_without_delimiter_is_read() {
    let log = line(3, 0, b"z");
    let all = read_records(&log, ReadMode::Strict).unwrap();
    assert_eq!(all.len(), 1);
    assert_eq!(all[0].id, 3);
}

#[test]
fn empty_lines_are_ignored() {
    let mut log = b"\n\n".to_vec();
    log.extend_from_slice(&line(1, 0, b"q"));
    log.extend_from_slice(b"\n\n");
    assert_eq!(read_records(&log, ReadMode::Strict).unwrap().len(), 1);
}

#[test]
fn frame_records_writes_one_line_each() {
    let entries = vec![
        LogEntry { id: 0, timestamp: 1, data: vec![9] },
        LogEntry { id: 4, timestamp: 2, data: vec![] },
    ];
    let mut expected = line(0, 1, &[9]);
    expected.push(b'\n');
    expected.extend_from_slice(&line(4, 2, &[]));
    expected.push(b'\n');
    assert_eq!(frame_records(&entries).unwrap(), expected);
}

#[test]
fn error_descriptions() {
    assert_eq!(WalError::InvalidEntry.describe(), "invalid log entry");
    let io = std::io::Error::new(std::io::ErrorKind::Other, "disk");
    assert_eq!(WalError::Io(io).describe(), "io error");
    assert_eq!(LogState::open(b"", ReadMode::Strict).unwrap().mode(), ReadMode::Strict);
}

#[test]
fn removing_an_id_twice_succeeds_and_changes_nothing_more() {
    let mut log = Vec::new();
    let mut state = LogState::open(&log, ReadMode::Strict).unwrap();
    append(&mut state, &mut log, b"A", 1);
    append(&mut state, &mut log, b"B", 2);
    let once = state.remove(&log, 0).unwrap();
    let twice = state.remove(&once, 0).unwrap();
    assert_eq!(once, twice);
    assert_eq!(state.next_id(), 2);
    assert_eq!(state.read_all(&twice).unwrap().len(), 1);
}
