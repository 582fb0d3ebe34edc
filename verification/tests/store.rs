use kvlog::codec::{decode_record, encode_record, NL, SEP};
use kvlog::engine::StoreEngine;
use kvlog::errors::StoreError;
use kvlog::index::Index;
use kvlog::log::{replay, snapshot_bytes};

fn b(s: &str) -> Vec<u8> {
    s.as_bytes().to_vec()
}

#[test]
fn encode_record_exact_bytes() {
    let rec = encode_record(&b("a"), &b("1")).unwrap();
    assert_eq!(rec, vec![97u8, SEP, 49u8, NL]);
}

#[test]
fn encode_rejects_separator_in_key() {
    let key = vec![97u8, SEP, 98u8];
    assert_eq!(encode_record(&key, &b("1")), Err(StoreError::EncodingError));
}

#[test]
fn encode_rejects_newline_in_value() {
    let value = vec![49u8, NL];
    assert_eq!(encode_record(&b("a"), &value), Err(StoreError::EncodingError));
}

#[test]
fn decode_splits_at_first_separator() {
    let line = vec![97u8, SEP, 98u8, SEP, 99u8];
    let (key, value) = decode_record(&line).unwrap();
    assert_eq!(key, b("a"));
    assert_eq!(value, vec![98u8, SEP, 99u8]);
}

#[test]
fn decode_rejects_missing_separator() {
    assert_eq!(decode_record(&b("ab")), Err(StoreError::CorruptRecordError));
}

#[test]
fn codec_round_trip() {
    let mut rec = encode_record(&b("key"), &b("value")).unwrap();
    assert_eq!(rec.pop(), Some(NL));
    let (key, value) = decode_record(&rec).unwrap();
    assert_eq!(key, b("key"));
    assert_eq!(value, b("value"));
}

#[test]
fn replay_reads_records_in_file_order() {
    let mut log = Vec::new();
    log.extend_from_slice(&encode_record(&b("a"), &b("1")).unwrap());
    log.extend_from_slice(&encode_record(&b("b"), &b("2")).unwrap());
    let entries = replay(&log).unwrap();
    assert_eq!(entries, vec![(b("a"), b("1")), (b("b"), b("2"))]);
}

#[test]
fn replay_rejects_unterminated_trailing_record() {
    let mut log = encode_record(&b("a"), &b("1")).unwrap();
    log.extend_from_slice(&[97u8, SEP, 50u8]);
    assert_eq!(replay(&log), Err(StoreError::CorruptRecordError));
}

#[test]
fn start_on_empty_log_finds_nothing() {
    let engine = StoreEngine::start(&Vec::new()).unwrap();
    assert_eq!(engine.get(&b("a")), None);
}

#[test]
fn start_rejects_line_without_separator() {
    let log = vec![97u8, 98u8, NL];
    assert!(matches!(StoreEngine::start(&log), Err(StoreError::CorruptRecordError)));
}

#[test]
fn start_rejects_value_with_stray_separator() {
    let log = vec![97u8, SEP, 98u8, SEP, 99u8, NL];
    assert!(matches!(StoreEngine::start(&log), Err(StoreError::CorruptRecordError)));
}

#[test]
fn set_then_get_returns_the_value() {
    let mut engine = StoreEngine::start(&Vec::new()).unwrap();
    engine.set(b("k"), b("v")).unwrap();
    assert_eq!(engine.get(&b("k")), Some(b("v")));
}

#[test]
fn never_set_key_is_not_found() {
    let mut engine = StoreEngine::start(&Vec::new()).unwrap();
    engine.set(b("k"), b("v")).unwrap();
    assert_eq!(engine.get(&b("other")), None);
}

#[test]
fn last_write_wins_in_memory_and_across_restart() {
    let mut engine = StoreEngine::start(&Vec::new()).unwrap();
    let mut file = Vec::new();
    file.extend_from_slice(&engine.set(b("k"), b("v1")).unwrap());
    file.extend_from_slice(&engine.set(b("k"), b("v2")).unwrap());
    assert_eq!(engine.get(&b("k")), Some(b("v2")));
    let replayed = StoreEngine::start(&file).unwrap();
    assert_eq!(replayed.get(&b("k")), Some(b("v2")));
}

#[test]
fn replay_of_distinct_keys_restores_every_pair() {
    let mut log = Vec::new();
    log.extend_from_slice(&encode_record(&b("a"), &b("1")).unwrap());
    log.extend_from_slice(&encode_record(&b("b"), &b("2")).unwrap());
    log.extend_from_slice(&encode_record(&b("c"), &b("3")).unwrap());
    let engine = StoreEngine::start(&log).unwrap();
    assert_eq!(engine.get(&b("a")), Some(b("1")));
    assert_eq!(engine.get(&b("b")), Some(b("2")));
    assert_eq!(engine.get(&b("c")), Some(b("3")));
    assert_eq!(engine.get(&b("d")), None);
}

#[test]
fn replay_of_duplicate_key_keeps_last_value_in_file_order() {
    let mut log = Vec::new();
    log.extend_from_slice(&encode_record(&b("a"), &b("old")).unwrap());
    log.extend_from_slice(&encode_record(&b("b"), &b("2")).unwrap());
    log.extend_from_slice(&encode_record(&b("a"), &b("new")).unwrap());
    let engine = StoreEngine::start(&log).unwrap();
    assert_eq!(engine.get(&b("a")), Some(b("new")));
    assert_eq!(engine.get(&b("b")), Some(b("2")));
}

#[test]
fn set_rejects_unencodable_value_and_changes_nothing() {
    let mut engine = StoreEngine::start(&Vec::new()).unwrap();
    engine.set(b("k"), b("v")).unwrap();
    let bad = vec![118u8, SEP, 119u8];
    assert_eq!(engine.set(b("k"), bad), Err(StoreError::EncodingError));
    assert_eq!(engine.get(&b("k")), Some(b("v")));
    assert_eq!(engine.shutdown(), encode_record(&b("k"), &b("v")).unwrap());
}

#[test]
fn set_request_rejects_zero_parameters() {
    let mut engine = StoreEngine::start(&Vec::new()).unwrap();
    engine.set(b("k"), b("v")).unwrap();
    assert_eq!(engine.set_request(Vec::new()), Err(StoreError::MalformedRequest));
    assert_eq!(engine.get(&b("k")), Some(b("v")));
    assert_eq!(engine.shutdown(), encode_record(&b("k"), &b("v")).unwrap());
}

#[test]
fn set_request_rejects_two_parameters() {
    let mut engine = StoreEngine::start(&Vec::new()).unwrap();
    let params = vec![(b("a"), b("1")), (b("b"), b("2"))];
    assert_eq!(engine.set_request(params), Err(StoreError::MalformedRequest));
    assert_eq!(engine.get(&b("a")), None);
    assert_eq!(engine.get(&b("b")), None);
}

#[test]
fn set_request_with_one_parameter_updates_the_store() {
    let mut engine = StoreEngine::start(&Vec::new()).unwrap();
    let rec = engine.set_request(vec![(b("a"), b("1"))]).unwrap();
    assert_eq!(rec, encode_record(&b("a"), &b("1")).unwrap());
    assert_eq!(engine.get(&b("a")), Some(b("1")));
}

#[test]
fn compaction_round_trip_reproduces_the_index() {
    let mut engine = StoreEngine::start(&Vec::new()).unwrap();
    engine.set(b("a"), b("1")).unwrap();
    engine.set(b("b"), b("2")).unwrap();
    engine.set(b("a"), b("3")).unwrap();
    engine.set(b("c"), b("4")).unwrap();
    engine.set(b("b"), b("5")).unwrap();
    let snapshot = engine.compact();
    let entries = replay(&snapshot).unwrap();
    assert_eq!(entries.len(), 3);
    let replayed = StoreEngine::start(&snapshot).unwrap();
    assert_eq!(replayed.get(&b("a")), Some(b("3")));
    assert_eq!(replayed.get(&b("b")), Some(b("5")));
    assert_eq!(replayed.get(&b("c")), Some(b("4")));
    for (key, _) in &entries {
        assert_eq!(entries.iter().filter(|(k, _)| k == key).count(), 1);
    }
}

#[test]
fn end_to_end_scenario() {
    let mut engine = StoreEngine::start(&Vec::new()).unwrap();
    assert!(engine.set(b("a"), b("1")).is_ok());
    assert_eq!(engine.get(&b("a")), Some(b("1")));
    assert!(engine.set(b("a"), b("2")).is_ok());
    assert_eq!(engine.get(&b("a")), Some(b("2")));
    assert_eq!(engine.set_request(Vec::new()), Err(StoreError::MalformedRequest));
    assert_eq!(engine.get(&b("a")), Some(b("2")));
    let file = engine.shutdown();
    assert_eq!(file, vec![97u8, SEP, 50u8, NL]);
}

#[test]
fn index_mirrors_every_live_pair() {
    let mut index = Index::new();
    index.set(b("a"), b("1"));
    index.set(b("b"), b("2"));
    index.set(b("a"), b("3"));
    assert_eq!(index.get(&b("a")), Some(&b("3")));
    assert_eq!(index.get(&b("b")), Some(&b("2")));
    assert_eq!(index.get(&b("c")), None);
    let entries = index.iterate();
    assert_eq!(entries.len(), 2);
}

#[test]
fn snapshot_writes_one_record_per_entry() {
    let entries = vec![(b("x"), b("7")), (b("y"), b("8"))];
    let bytes = snapshot_bytes(&entries);
    let mut expected = Vec::new();
    expected.extend_from_slice(&encode_record(&b("x"), &b("7")).unwrap());
    expected.extend_from_slice(&encode_record(&b("y"), &b("8")).unwrap());
    assert_eq!(bytes, expected);
}
