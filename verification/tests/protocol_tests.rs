use harmonic::diff::{ChangeType, Diff};
use harmonic::protocol::{
    build_diff_report, handle_response, paths_to_pull, resolve_strategies, DiffReport,
    ReportedChange, StrategyDecision, UpdateStrategy,
};
use harmonic::snapshot::{FileMetadata, SnapshotEntry, SyncState};

fn entry(path: &str, hash: u128, ts: i64) -> SnapshotEntry {
    SnapshotEntry { path: path.as_bytes().to_vec(), meta: FileMetadata { hash, modified_ts: ts } }
}

fn change(path: &str, hash: u128, ts: i64) -> ReportedChange {
    ReportedChange {
        path: path.as_bytes().to_vec(),
        timestamp_micros: ts,
        content_hash: hash,
        change: ChangeType::Modified,
    }
}

#[test]
fn report_carries_every_change_in_order() {
    let diffs = vec![
        Diff { path: b"a".to_vec(), change: ChangeType::Added, hash: 1, modified_ts: 10 },
        Diff { path: b"b".to_vec(), change: ChangeType::Removed, hash: 2, modified_ts: 20 },
    ];
    let report = build_diff_report(99, 5, &diffs);
    assert_eq!(report.session_id, 99);
    assert_eq!(report.last_sync_timestamp_micros, 5);
    assert_eq!(report.changes.len(), 2);
    assert_eq!(report.changes[0].path, b"a".to_vec());
    assert_eq!(report.changes[0].content_hash, 1);
    assert_eq!(report.changes[0].timestamp_micros, 10);
    assert_eq!(report.changes[0].change, ChangeType::Added);
    assert_eq!(report.changes[1].path, b"b".to_vec());
    assert_eq!(report.changes[1].change, ChangeType::Removed);
}

#[test]
fn unknown_path_resolves_to_client_send() {
    let baseline = SyncState { last_sync_timestamp_micros: 0, tree: vec![] };
    let report = DiffReport {
        session_id: 1,
        last_sync_timestamp_micros: 0,
        changes: vec![change("new.txt", 5, 50)],
    };
    let decisions = resolve_strategies(&baseline, &report);
    assert_eq!(decisions.len(), 1);
    assert_eq!(decisions[0].path, b"new.txt".to_vec());
    assert_eq!(decisions[0].strategy, UpdateStrategy::ClientSend);
}

#[test]
fn agreeing_hash_resolves_to_skip() {
    let baseline = SyncState { last_sync_timestamp_micros: 0, tree: vec![entry("a", 5, 10)] };
    let report = DiffReport {
        session_id: 1,
        last_sync_timestamp_micros: 7,
        changes: vec![change("a", 5, 50)],
    };
    let decisions = resolve_strategies(&baseline, &report);
    assert_eq!(decisions[0].strategy, UpdateStrategy::Skip);
}

#[test]
fn newer_server_copy_resolves_to_client_pull() {
    let baseline = SyncState { last_sync_timestamp_micros: 0, tree: vec![entry("a", 5, 100)] };
    let report = DiffReport {
        session_id: 1,
        last_sync_timestamp_micros: 7,
        changes: vec![change("a", 6, 50)],
    };
    let decisions = resolve_strategies(&baseline, &report);
    assert_eq!(decisions[0].strategy, UpdateStrategy::ClientPull);
}

#[test]
fn stale_server_copy_resolves_to_client_send() {
    let baseline = SyncState { last_sync_timestamp_micros: 0, tree: vec![entry("a", 5, 3)] };
    let report = DiffReport {
        session_id: 1,
        last_sync_timestamp_micros: 7,
        changes: vec![change("a", 6, 50)],
    };
    let decisions = resolve_strategies(&baseline, &report);
    assert_eq!(decisions[0].strategy, UpdateStrategy::ClientSend);
}

#[test]
fn resubmitting_the_same_report_yields_the_same_decisions() {
    let baseline = SyncState {
        last_sync_timestamp_micros: 0,
        tree: vec![entry("a", 5, 100), entry("b", 2, 1)],
    };
    let report = DiffReport {
        session_id: 1,
        last_sync_timestamp_micros: 7,
        changes: vec![change("a", 6, 50), change("b", 2, 1), change("c", 9, 9)],
    };
    let first = resolve_strategies(&baseline, &report);
    let second = resolve_strategies(&baseline, &report);
    assert_eq!(first.len(), second.len());
    for (x, y) in first.iter().zip(second.iter()) {
        assert_eq!(x.path, y.path);
        assert_eq!(x.strategy, y.strategy);
    }
}

#[test]
fn response_partitions_into_send_and_pull() {
    let decisions = vec![
        StrategyDecision { path: b"a".to_vec(), strategy: UpdateStrategy::ClientSend },
        StrategyDecision { path: b"b".to_vec(), strategy: UpdateStrategy::Skip },
        StrategyDecision { path: b"c".to_vec(), strategy: UpdateStrategy::ClientPull },
        StrategyDecision { path: b"d".to_vec(), strategy: UpdateStrategy::ClientSend },
    ];
    let to_send = handle_response(&decisions);
    assert_eq!(to_send, vec![b"a".to_vec(), b"d".to_vec()]);
    let to_pull = paths_to_pull(&decisions);
    assert_eq!(to_pull, vec![b"c".to_vec()]);
}
