//! One synchronization round: its session, its error taxonomy, and the
//! client orchestrator's state machine.
//!
//! A round runs scan, diff, report, strategy, transfer and persist in that
//! order; persisting the new baseline is strictly the last step, so a
//! failure anywhere leaves the old baseline in place and the next trigger
//! retries from a known-good state.
use vstd::prelude::*;

verus! {

/// Why a round (or one of its steps) failed.
#[derive(Clone, Copy, PartialEq, Eq, Structural, Debug)]
pub enum SyncError {
    /// The configuration is missing or corrupt; fatal before scanning.
    Config,
    /// A per-file read or stat failed during a scan; non-fatal, the file is
    /// recorded and the scan continues.
    ScanIo,
    /// The persisted baseline cannot be parsed; fatal, the round aborts
    /// before any transfer.
    StateCorrupt,
    /// Connecting or streaming failed; the round aborts with the baseline
    /// untouched and is retried on the next trigger.
    Network,
    /// A malformed transfer: a gap or overlap in chunk offsets, a missing
    /// end-of-file mark, or an unknown strategy value.
    Protocol,
}

/// The scope of one reconciliation round: a fresh unique identifier and
/// when the round started. Never persisted beyond the round.
pub struct SyncSession {
    pub session_id: u128,
    pub started_at_micros: i64,
}

/// Relies on uuid::Uuid::new_v4: a freshly generated random identifier.
/// Nothing is promised of its value.
#[verifier::external_body]
pub(crate) fn new_uuid() -> u128 {
    uuid::Uuid::new_v4().as_u128()
}

impl SyncSession {
    /// Opens the session for a new round with a freshly generated
    /// identifier and the current wall-clock time.
    pub fn open() -> SyncSession {
        SyncSession {
            session_id: new_uuid(),
            started_at_micros: crate::snapshot::wall_clock_micros(),
        }
    }
}

/// Where the client orchestrator stands in a round.
#[derive(Clone, Copy, PartialEq, Eq, Structural, Debug)]
pub enum SyncPhase {
    Idle,
    Scanning,
    Diffing,
    ReportingToServer,
    AwaitingStrategy,
    Transferring,
    Persisting,
    Failed,
}

/// What happened since the orchestrator last advanced.
#[derive(Clone, Copy, PartialEq, Eq, Structural, Debug)]
pub enum SyncEvent {
    /// The watcher (or a retry) asked for a round.
    RoundTriggered,
    /// The current snapshot is ready.
    ScanFinished,
    /// The diff against the baseline is ready; an empty diff lets the
    /// round end without opening a session.
    DiffFinished { is_empty: bool },
    /// The diff report went out.
    ReportSent,
    /// The server's per-path decisions arrived.
    StrategyReceived,
    /// Both transfer tasks finished without error.
    TransferFinished,
    /// The new baseline was persisted.
    BaselinePersisted,
    /// A round-level failure; the baseline stays untouched.
    RoundFailed { error: SyncError },
}

/// The orchestrator's transition function. A failure moves any phase to
/// `Failed`; a trigger starts a round from `Idle` or retries from `Failed`;
/// an event out of order is itself a failure. Persisting the baseline is
/// the last step before returning to `Idle`.
pub open spec fn next_phase(phase: SyncPhase, event: SyncEvent) -> SyncPhase {
    match event {
        SyncEvent::RoundFailed { error: _ } => SyncPhase::Failed,
        SyncEvent::RoundTriggered => match phase {
            SyncPhase::Idle => SyncPhase::Scanning,
            SyncPhase::Failed => SyncPhase::Scanning,
            _ => SyncPhase::Failed,
        },
        SyncEvent::ScanFinished => match phase {
            SyncPhase::Scanning => SyncPhase::Diffing,
            _ => SyncPhase::Failed,
        },
        SyncEvent::DiffFinished { is_empty } => match phase {
            SyncPhase::Diffing => if is_empty {
                SyncPhase::Idle
            } else {
                SyncPhase::ReportingToServer
            },
            _ => SyncPhase::Failed,
        },
        SyncEvent::ReportSent => match phase {
            SyncPhase::ReportingToServer => SyncPhase::AwaitingStrategy,
            _ => SyncPhase::Failed,
        },
        SyncEvent::StrategyReceived => match phase {
            SyncPhase::AwaitingStrategy => SyncPhase::Transferring,
            _ => SyncPhase::Failed,
        },
        SyncEvent::TransferFinished => match phase {
            SyncPhase::Transferring => SyncPhase::Persisting,
            _ => SyncPhase::Failed,
        },
        SyncEvent::BaselinePersisted => match phase {
            SyncPhase::Persisting => SyncPhase::Idle,
            _ => SyncPhase::Failed,
        },
    }
}

/// Advances the orchestrator by one event, exactly as `next_phase` says.
pub fn advance_phase(phase: SyncPhase, event: SyncEvent) -> (r: SyncPhase)
    ensures
        r == next_phase(phase, event),
{
    match event {
        SyncEvent::RoundFailed { error: _ } => SyncPhase::Failed,
        SyncEvent::RoundTriggered => match phase {
            SyncPhase::Idle => SyncPhase::Scanning,
            SyncPhase::Failed => SyncPhase::Scanning,
            _ => SyncPhase::Failed,
        },
        SyncEvent::ScanFinished => match phase {
            SyncPhase::Scanning => SyncPhase::Diffing,
            _ => SyncPhase::Failed,
        },
        SyncEvent::DiffFinished { is_empty } => match phase {
            SyncPhase::Diffing => if is_empty {
                SyncPhase::Idle
            } else {
                SyncPhase::ReportingToServer
            },
            _ => SyncPhase::Failed,
        },
        SyncEvent::ReportSent => match phase {
            SyncPhase::ReportingToServer => SyncPhase::AwaitingStrategy,
            _ => SyncPhase::Failed,
        },
        SyncEvent::StrategyReceived => match phase {
            SyncPhase::AwaitingStrategy => SyncPhase::Transferring,
            _ => SyncPhase::Failed,
        },
        SyncEvent::TransferFinished => match phase {
            SyncPhase::Transferring => SyncPhase::Persisting,
            _ => SyncPhase::Failed,
        },
        SyncEvent::BaselinePersisted => match phase {
            SyncPhase::Persisting => SyncPhase::Idle,
            _ => SyncPhase::Failed,
        },
    }
}

} // verus!
