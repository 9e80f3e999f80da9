use harmonic::config::{config_file_path, Config};
use harmonic::session::{advance_phase, SyncError, SyncEvent, SyncPhase, SyncSession};

#[test]
fn happy_path_walks_every_phase_and_returns_to_idle() {
    let mut phase = SyncPhase::Idle;
    let steps = [
        (SyncEvent::RoundTriggered, SyncPhase::Scanning),
        (SyncEvent::ScanFinished, SyncPhase::Diffing),
        (SyncEvent::DiffFinished { is_empty: false }, SyncPhase::ReportingToServer),
        (SyncEvent::ReportSent, SyncPhase::AwaitingStrategy),
        (SyncEvent::StrategyReceived, SyncPhase::Transferring),
        (SyncEvent::TransferFinished, SyncPhase::Persisting),
        (SyncEvent::BaselinePersisted, SyncPhase::Idle),
    ];
    for (event, expected) in steps {
        phase = advance_phase(phase, event);
        assert_eq!(phase, expected);
    }
}

#[test]
fn empty_diff_short_circuits_to_idle() {
    let mut phase = SyncPhase::Idle;
    phase = advance_phase(phase, SyncEvent::RoundTriggered);
    phase = advance_phase(phase, SyncEvent::ScanFinished);
    phase = advance_phase(phase, SyncEvent::DiffFinished { is_empty: true });
    assert_eq!(phase, SyncPhase::Idle);
}

#[test]
fn any_failure_moves_to_failed_and_a_trigger_retries() {
    for start in [
        SyncPhase::Scanning,
        SyncPhase::Diffing,
        SyncPhase::ReportingToServer,
        SyncPhase::AwaitingStrategy,
        SyncPhase::Transferring,
        SyncPhase::Persisting,
    ] {
        let failed = advance_phase(start, SyncEvent::RoundFailed { error: SyncError::Network });
        assert_eq!(failed, SyncPhase::Failed);
        let retried = advance_phase(failed, SyncEvent::RoundTriggered);
        assert_eq!(retried, SyncPhase::Scanning);
    }
}

#[test]
fn an_event_out_of_order_is_a_failure() {
    assert_eq!(
        advance_phase(SyncPhase::Idle, SyncEvent::TransferFinished),
        SyncPhase::Failed
    );
    assert_eq!(
        advance_phase(SyncPhase::Scanning, SyncEvent::BaselinePersisted),
        SyncPhase::Failed
    );
}

#[test]
fn sessions_get_distinct_identifiers() {
    let a = SyncSession::open();
    let b = SyncSession::open();
    assert_ne!(a.session_id, b.session_id);
}

#[test]
fn new_config_keeps_the_sync_root() {
    let cfg = Config::new(b"/opt/sync".to_vec());
    assert_eq!(cfg.sync_path, b"/opt/sync".to_vec());
    let other = Config::new(b"/opt/sync".to_vec());
    assert_ne!(cfg.uuid, other.uuid);
}

#[test]
fn config_file_path_ends_with_the_expected_components() {
    if let Some(p) = config_file_path() {
        let s = String::from_utf8(p).unwrap();
        assert!(s.ends_with("/harmonic/config.toml"), "{}", s);
    }
}
