use harmonic::diff::{compare_states, ChangeType, Diff};
use harmonic::snapshot::{FileMetadata, SnapshotEntry, SyncState};

fn entry(path: &str, hash: u128, ts: i64) -> SnapshotEntry {
    SnapshotEntry { path: path.as_bytes().to_vec(), meta: FileMetadata { hash, modified_ts: ts } }
}

fn state(ts: i64, entries: Vec<SnapshotEntry>) -> SyncState {
    SyncState { last_sync_timestamp_micros: ts, tree: entries }
}

fn diff_tuple(d: &Diff) -> (String, ChangeType, u128, i64) {
    (
        String::from_utf8(d.path.clone()).unwrap(),
        d.change,
        d.hash,
        d.modified_ts,
    )
}

#[test]
fn added_when_baseline_empty() {
    let baseline = state(0, vec![]);
    let current = state(10, vec![entry("a.txt", 1, 5)]);
    let diffs = compare_states(&baseline, &current);
    assert_eq!(diffs.len(), 1);
    assert_eq!(
        diff_tuple(&diffs[0]),
        ("a.txt".to_string(), ChangeType::Added, 1, 5)
    );
}

#[test]
fn unchanged_file_yields_empty_diff() {
    let baseline = state(0, vec![entry("a.txt", 1, 5)]);
    let current = state(10, vec![entry("a.txt", 1, 5)]);
    let diffs = compare_states(&baseline, &current);
    assert!(diffs.is_empty());
}

#[test]
fn modified_resolves_last_writer_wins() {
    let baseline = state(0, vec![entry("a.txt", 1, 5)]);
    let current = state(10, vec![entry("a.txt", 2, 9)]);
    let diffs = compare_states(&baseline, &current);
    assert_eq!(diffs.len(), 1);
    assert_eq!(
        diff_tuple(&diffs[0]),
        ("a.txt".to_string(), ChangeType::Modified, 2, 9)
    );
}

#[test]
fn modified_keeps_baseline_when_it_is_newer() {
    let baseline = state(0, vec![entry("a.txt", 1, 9)]);
    let current = state(10, vec![entry("a.txt", 2, 5)]);
    let diffs = compare_states(&baseline, &current);
    assert_eq!(diffs.len(), 1);
    assert_eq!(
        diff_tuple(&diffs[0]),
        ("a.txt".to_string(), ChangeType::Modified, 1, 9)
    );
}

#[test]
fn removed_when_current_empty() {
    let baseline = state(0, vec![entry("a.txt", 1, 5)]);
    let current = state(10, vec![]);
    let diffs = compare_states(&baseline, &current);
    assert_eq!(diffs.len(), 1);
    assert_eq!(
        diff_tuple(&diffs[0]),
        ("a.txt".to_string(), ChangeType::Removed, 1, 5)
    );
}

#[test]
fn identical_snapshots_diff_empty() {
    let mk = || {
        state(
            3,
            vec![entry("a.txt", 1, 1), entry("b.txt", 2, 2), entry("c/d.txt", 3, 3)],
        )
    };
    let diffs = compare_states(&mk(), &mk());
    assert!(diffs.is_empty());
}

#[test]
fn added_and_removed_mirror_when_swapped() {
    let a = state(0, vec![entry("a.txt", 1, 1), entry("b.txt", 2, 2)]);
    let b = state(0, vec![entry("b.txt", 2, 2), entry("c.txt", 3, 3)]);
    let fwd = compare_states(&a, &b);
    let bwd = compare_states(&b, &a);
    let fwd_added: Vec<_> = fwd
        .iter()
        .filter(|d| d.change == ChangeType::Added)
        .map(|d| d.path.clone())
        .collect();
    let bwd_removed: Vec<_> = bwd
        .iter()
        .filter(|d| d.change == ChangeType::Removed)
        .map(|d| d.path.clone())
        .collect();
    assert_eq!(fwd_added, vec![b"c.txt".to_vec()]);
    assert_eq!(bwd_removed, vec![b"c.txt".to_vec()]);
    let fwd_removed: Vec<_> = fwd
        .iter()
        .filter(|d| d.change == ChangeType::Removed)
        .map(|d| d.path.clone())
        .collect();
    let bwd_added: Vec<_> = bwd
        .iter()
        .filter(|d| d.change == ChangeType::Added)
        .map(|d| d.path.clone())
        .collect();
    assert_eq!(fwd_removed, vec![b"a.txt".to_vec()]);
    assert_eq!(bwd_added, vec![b"a.txt".to_vec()]);
}

#[test]
fn diff_paths_are_the_expected_union() {
    // only in baseline: a.txt; only in current: d.txt;
    // shared, differing hash: b.txt; shared, equal hash: c.txt.
    let baseline = state(
        0,
        vec![entry("a.txt", 1, 1), entry("b.txt", 2, 2), entry("c.txt", 3, 3)],
    );
    let current = state(
        9,
        vec![entry("b.txt", 20, 8), entry("c.txt", 3, 3), entry("d.txt", 4, 4)],
    );
    let diffs = compare_states(&baseline, &current);
    let paths: Vec<_> = diffs.iter().map(|d| d.path.clone()).collect();
    assert_eq!(
        paths,
        vec![b"a.txt".to_vec(), b"b.txt".to_vec(), b"d.txt".to_vec()]
    );
    assert_eq!(diffs[0].change, ChangeType::Removed);
    assert_eq!(diffs[1].change, ChangeType::Modified);
    assert_eq!(diffs[1].hash, 20);
    assert_eq!(diffs[1].modified_ts, 8);
    assert_eq!(diffs[2].change, ChangeType::Added);
}

#[test]
fn diff_emitted_in_lexicographic_path_order() {
    let baseline = state(0, vec![entry("b.txt", 1, 1), entry("d.txt", 2, 2)]);
    let current = state(0, vec![entry("a.txt", 3, 3), entry("c.txt", 4, 4)]);
    let diffs = compare_states(&baseline, &current);
    let paths: Vec<_> = diffs.iter().map(|d| d.path.clone()).collect();
    assert_eq!(
        paths,
        vec![
            b"a.txt".to_vec(),
            b"b.txt".to_vec(),
            b"c.txt".to_vec(),
            b"d.txt".to_vec()
        ]
    );
}
