use harmonic::pathcmp::{lex_compare, PathOrdering};
use harmonic::snapshot::{generate_state, lookup_path, FingerprintBuilder, ScanRecord, SyncState};

fn readable(path: &str, content: &[u8], ts: i64) -> ScanRecord {
    ScanRecord { path: path.as_bytes().to_vec(), content: Some(content.to_vec()), modified_ts: ts }
}

fn unreadable(path: &str) -> ScanRecord {
    ScanRecord { path: path.as_bytes().to_vec(), content: None, modified_ts: 0 }
}

#[test]
fn scan_fingerprints_match_the_content_digest() {
    let result = generate_state(vec![readable("a.txt", b"abc", 7)]);
    let meta = lookup_path(&result.state, &b"a.txt".to_vec()).expect("entry recorded");
    let expected = u128::from_le_bytes(md5::compute(b"abc").into());
    assert_eq!(meta.hash, expected);
    assert_eq!(meta.modified_ts, 7);
    assert!(result.unreadable.is_empty());
}

#[test]
fn different_content_gives_a_different_fingerprint() {
    let result = generate_state(vec![readable("a", b"abc", 1), readable("b", b"abd", 1)]);
    let ha = lookup_path(&result.state, &b"a".to_vec()).unwrap().hash;
    let hb = lookup_path(&result.state, &b"b".to_vec()).unwrap().hash;
    assert_ne!(ha, hb);
}

#[test]
fn unreadable_files_are_recorded_and_skipped() {
    let result = generate_state(vec![
        readable("ok.txt", b"data", 1),
        unreadable("locked.txt"),
        readable("ok2.txt", b"more", 2),
    ]);
    assert_eq!(result.unreadable, vec![b"locked.txt".to_vec()]);
    assert_eq!(result.state.tree.len(), 2);
    assert!(lookup_path(&result.state, &b"locked.txt".to_vec()).is_none());
    assert!(lookup_path(&result.state, &b"ok.txt".to_vec()).is_some());
    assert!(lookup_path(&result.state, &b"ok2.txt".to_vec()).is_some());
}

#[test]
fn entries_come_out_in_lexicographic_order() {
    let result = generate_state(vec![
        readable("c", b"3", 3),
        readable("a", b"1", 1),
        readable("b", b"2", 2),
    ]);
    let paths: Vec<_> = result.state.tree.iter().map(|e| e.path.clone()).collect();
    assert_eq!(paths, vec![b"a".to_vec(), b"b".to_vec(), b"c".to_vec()]);
}

#[test]
fn a_later_record_for_the_same_path_wins() {
    let result = generate_state(vec![readable("a", b"old", 1), readable("a", b"new", 2)]);
    assert_eq!(result.state.tree.len(), 1);
    let meta = lookup_path(&result.state, &b"a".to_vec()).unwrap();
    assert_eq!(meta.modified_ts, 2);
    assert_eq!(meta.hash, u128::from_le_bytes(md5::compute(b"new").into()));
}

#[test]
fn empty_snapshot_has_no_entries() {
    let s = SyncState::empty();
    assert_eq!(s.last_sync_timestamp_micros, 0);
    assert!(s.tree.is_empty());
    assert!(lookup_path(&s, &b"anything".to_vec()).is_none());
}

#[test]
fn streaming_hash_equals_whole_input_digest() {
    let mut hasher = FingerprintBuilder::new();
    hasher.add_chunk(&b"hello ".to_vec());
    hasher.add_chunk(&b"wor".to_vec());
    hasher.add_chunk(&b"ld".to_vec());
    let streamed = hasher.finish();
    let expected = u128::from_le_bytes(md5::compute(b"hello world").into());
    assert_eq!(streamed, expected);
}

#[test]
fn path_comparison_is_lexicographic() {
    let cmp = |a: &[u8], b: &[u8]| lex_compare(&a.to_vec(), &b.to_vec());
    assert_eq!(cmp(b"a", b"b"), PathOrdering::Less);
    assert_eq!(cmp(b"b", b"a"), PathOrdering::Greater);
    assert_eq!(cmp(b"a", b"a"), PathOrdering::Equal);
    assert_eq!(cmp(b"a", b"ab"), PathOrdering::Less);
    assert_eq!(cmp(b"ab", b"a"), PathOrdering::Greater);
    assert_eq!(cmp(b"", b""), PathOrdering::Equal);
    assert_eq!(cmp(b"", b"x"), PathOrdering::Less);
}
