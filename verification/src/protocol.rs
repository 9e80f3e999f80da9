//! The messages of one synchronization round and the server's per-path
//! transfer decisions.
//!
//! The client reports its diff; the server answers with one decision per
//! reported path: the client sends its copy, the client pulls the server's
//! copy, or nothing moves. Resolution is a pure function of the server's
//! recorded baseline and the report, so resubmitting an identical report
//! yields identical decisions.
use crate::diff::{ChangeType, Diff, DiffV};
use crate::snapshot::{clone_bytes, lookup, lookup_path, FileMetadata, SyncState};
use vstd::prelude::*;

verus! {

/// The server's decision for one reported path.
#[derive(Clone, Copy, PartialEq, Eq, Structural, Debug)]
pub enum UpdateStrategy {
    /// The client's copy wins: the client must send its content.
    ClientSend,
    /// The server's copy wins: the client must pull the server's content.
    ClientPull,
    /// The copies agree: nothing moves.
    Skip,
}

/// One reported change in a diff report.
pub struct ReportedChange {
    pub path: Vec<u8>,
    pub timestamp_micros: i64,
    pub content_hash: u128,
    pub change: ChangeType,
}

/// Mathematical value of a reported change.
pub struct ReportedChangeV {
    pub path: Seq<u8>,
    pub timestamp_micros: i64,
    pub content_hash: u128,
    pub change: ChangeType,
}

impl View for ReportedChange {
    type V = ReportedChangeV;

    open spec fn view(&self) -> ReportedChangeV {
        ReportedChangeV {
            path: self.path@,
            timestamp_micros: self.timestamp_micros,
            content_hash: self.content_hash,
            change: self.change,
        }
    }
}

/// The diff report a client sends to open a round: the session, the
/// client's last agreed timestamp, and one entry per changed path.
pub struct DiffReport {
    pub session_id: u128,
    pub last_sync_timestamp_micros: i64,
    pub changes: Vec<ReportedChange>,
}

/// The wire form of one computed change.
pub open spec fn report_of(d: DiffV) -> ReportedChangeV {
    ReportedChangeV {
        path: d.path,
        timestamp_micros: d.modified_ts,
        content_hash: d.hash,
        change: d.change,
    }
}

/// The changes of a report, as mathematical values.
pub open spec fn changes_view(changes: Seq<ReportedChange>) -> Seq<ReportedChangeV> {
    changes.map_values(|c: ReportedChange| c@)
}

/// Builds the diff report for one round: every computed change, in order,
/// carried with the session id and the client's last agreed timestamp.
pub fn build_diff_report(session_id: u128, last_sync_timestamp_micros: i64, diffs: &Vec<Diff>) -> (r:
    DiffReport)
    ensures
        r.session_id == session_id,
        r.last_sync_timestamp_micros == last_sync_timestamp_micros,
        changes_view(r.changes@) == diffs@.map_values(|d: Diff| report_of(d@)),
{
    let ghost goal = diffs@.map_values(|d: Diff| report_of(d@));
    let mut changes: Vec<ReportedChange> = Vec::new();
    let mut i: usize = 0;
    while i < diffs.len()
        invariant
            i <= diffs.len(),
            goal == diffs@.map_values(|d: Diff| report_of(d@)),
            changes_view(changes@) == goal.subrange(0, i as int),
        decreases diffs.len() - i,
    {
        let ghost prev = changes@;
        let d = &diffs[i];
        changes.push(
            ReportedChange {
                path: clone_bytes(&d.path),
                timestamp_micros: d.modified_ts,
                content_hash: d.hash,
                change: d.change,
            },
        );
        proof {
            let cv = changes_view(changes@);
            assert(changes_view(prev).len() == i);
            assert(prev.len() == i);
            assert(changes@.len() == i + 1);
            assert(changes@ == prev.push(changes@[i as int]));
            assert(cv[i as int] == changes@[i as int]@);
            assert(changes@[i as int]@ == report_of(diffs@[i as int]@));
            assert(goal[i as int] == report_of(diffs@[i as int]@));
            assert forall|k: int| 0 <= k < i implies cv[k] == goal[k] by {
                assert(changes@[k] == prev[k]);
                assert(changes_view(prev)[k] == goal.subrange(0, i as int)[k]);
            }
            assert(cv =~= goal.subrange(0, i + 1));
        }
        i = i + 1;
    }
    proof {
        assert(goal.subrange(0, diffs@.len() as int) =~= goal);
    }
    DiffReport { session_id, last_sync_timestamp_micros, changes }
}

/// The server's decision for one reported path, given the fingerprint the
/// server has recorded for it: with no record, or a record no newer than
/// the client's last agreed timestamp, the client sends; with a strictly
/// newer record, the client pulls; with agreeing hashes, nothing moves.
pub open spec fn decide(
    server: Option<FileMetadata>,
    reported: ReportedChangeV,
    client_last_sync_micros: i64,
) -> UpdateStrategy {
    match server {
        None => UpdateStrategy::ClientSend,
        Some(m) => if m.hash == reported.content_hash {
            UpdateStrategy::Skip
        } else if m.modified_ts > client_last_sync_micros {
            UpdateStrategy::ClientPull
        } else {
            UpdateStrategy::ClientSend
        },
    }
}

/// One per-path decision in a strategy response.
pub struct StrategyDecision {
    pub path: Vec<u8>,
    pub strategy: UpdateStrategy,
}

/// Mathematical value of a per-path decision.
pub struct StrategyDecisionV {
    pub path: Seq<u8>,
    pub strategy: UpdateStrategy,
}

impl View for StrategyDecision {
    type V = StrategyDecisionV;

    open spec fn view(&self) -> StrategyDecisionV {
        StrategyDecisionV { path: self.path@, strategy: self.strategy }
    }
}

/// The decisions of a response, as mathematical values.
pub open spec fn decisions_view(decisions: Seq<StrategyDecision>) -> Seq<StrategyDecisionV> {
    decisions.map_values(|d: StrategyDecision| d@)
}

/// Resolves a client's diff report against the server's recorded baseline
/// for that client: one decision per reported path, in report order. The
/// result is a pure function of the baseline and the report, so an
/// identical resubmission yields identical decisions.
pub fn resolve_strategies(baseline: &SyncState, report: &DiffReport) -> (r: Vec<StrategyDecision>)
    ensures
        r@.len() == report.changes@.len(),
        forall|i: int|
            0 <= i < r@.len() ==> (#[trigger] r@[i])@ == (StrategyDecisionV {
                path: report.changes@[i]@.path,
                strategy: decide(
                    lookup(baseline.entries(), report.changes@[i]@.path),
                    report.changes@[i]@,
                    report.last_sync_timestamp_micros,
                ),
            }),
{
    let mut out: Vec<StrategyDecision> = Vec::new();
    let mut i: usize = 0;
    while i < report.changes.len()
        invariant
            i <= report.changes.len(),
            out@.len() == i,
            forall|k: int|
                0 <= k < i ==> (#[trigger] out@[k])@ == (StrategyDecisionV {
                    path: report.changes@[k]@.path,
                    strategy: decide(
                        lookup(baseline.entries(), report.changes@[k]@.path),
                        report.changes@[k]@,
                        report.last_sync_timestamp_micros,
                    ),
                }),
        decreases report.changes.len() - i,
    {
        let c = &report.changes[i];
        let recorded = lookup_path(baseline, &c.path);
        let strategy = match recorded {
            None => UpdateStrategy::ClientSend,
            Some(m) => if m.hash == c.content_hash {
                UpdateStrategy::Skip
            } else if m.modified_ts > report.last_sync_timestamp_micros {
                UpdateStrategy::ClientPull
            } else {
                UpdateStrategy::ClientSend
            },
        };
        out.push(StrategyDecision { path: clone_bytes(&c.path), strategy });
        i = i + 1;
    }
    out
}

/// The paths the client must send, in response order.
pub open spec fn send_paths(decisions: Seq<StrategyDecisionV>) -> Seq<Seq<u8>>
    decreases decisions.len(),
{
    if decisions.len() == 0 {
        Seq::empty()
    } else {
        let last = decisions[decisions.len() - 1];
        send_paths(decisions.drop_last()) + (if last.strategy == UpdateStrategy::ClientSend {
            seq![last.path]
        } else {
            Seq::<Seq<u8>>::empty()
        })
    }
}

/// The paths the client must pull from the server, in response order.
pub open spec fn pull_paths(decisions: Seq<StrategyDecisionV>) -> Seq<Seq<u8>>
    decreases decisions.len(),
{
    if decisions.len() == 0 {
        Seq::empty()
    } else {
        let last = decisions[decisions.len() - 1];
        pull_paths(decisions.drop_last()) + (if last.strategy == UpdateStrategy::ClientPull {
            seq![last.path]
        } else {
            Seq::<Seq<u8>>::empty()
        })
    }
}

/// Extracts from the server's response the paths this client must send.
pub fn handle_response(decisions: &Vec<StrategyDecision>) -> (r: Vec<Vec<u8>>)
    ensures
        r@.map_values(|p: Vec<u8>| p@) == send_paths(decisions_view(decisions@)),
{
    let ghost dv = decisions_view(decisions@);
    let mut out: Vec<Vec<u8>> = Vec::new();
    let mut i: usize = 0;
    proof {
        assert(out@.map_values(|p: Vec<u8>| p@) =~= Seq::<Seq<u8>>::empty());
        assert(dv.subrange(0, 0) =~= Seq::<StrategyDecisionV>::empty());
    }
    while i < decisions.len()
        invariant
            i <= decisions.len(),
            dv == decisions_view(decisions@),
            dv.len() == decisions.len(),
            out@.map_values(|p: Vec<u8>| p@) == send_paths(dv.subrange(0, i as int)),
        decreases decisions.len() - i,
    {
        let ghost prefix = dv.subrange(0, i as int);
        let ghost acc = out@.map_values(|p: Vec<u8>| p@);
        proof {
            assert(dv.subrange(0, i + 1) =~= prefix.push(dv[i as int]));
            assert(prefix.push(dv[i as int]).drop_last() =~= prefix);
        }
        match decisions[i].strategy {
            UpdateStrategy::ClientSend => {
                out.push(clone_bytes(&decisions[i].path));
                proof {
                    assert(out@.map_values(|p: Vec<u8>| p@) =~= acc + seq![dv[i as int].path]);
                }
            },
            _ => {
                proof {
                    assert(acc + Seq::<Seq<u8>>::empty() =~= acc);
                }
            },
        }
        i = i + 1;
    }
    proof {
        assert(dv.subrange(0, dv.len() as int) =~= dv);
    }
    out
}

/// Extracts from the server's response the paths this client must pull.
pub fn paths_to_pull(decisions: &Vec<StrategyDecision>) -> (r: Vec<Vec<u8>>)
    ensures
        r@.map_values(|p: Vec<u8>| p@) == pull_paths(decisions_view(decisions@)),
{
    let ghost dv = decisions_view(decisions@);
    let mut out: Vec<Vec<u8>> = Vec::new();
    let mut i: usize = 0;
    proof {
        assert(out@.map_values(|p: Vec<u8>| p@) =~= Seq::<Seq<u8>>::empty());
        assert(dv.subrange(0, 0) =~= Seq::<StrategyDecisionV>::empty());
    }
    while i < decisions.len()
        invariant
            i <= decisions.len(),
            dv == decisions_view(decisions@),
            dv.len() == decisions.len(),
            out@.map_values(|p: Vec<u8>| p@) == pull_paths(dv.subrange(0, i as int)),
        decreases decisions.len() - i,
    {
        let ghost prefix = dv.subrange(0, i as int);
        let ghost acc = out@.map_values(|p: Vec<u8>| p@);
        proof {
            assert(dv.subrange(0, i + 1) =~= prefix.push(dv[i as int]));
            assert(prefix.push(dv[i as int]).drop_last() =~= prefix);
        }
        match decisions[i].strategy {
            UpdateStrategy::ClientPull => {
                out.push(clone_bytes(&decisions[i].path));
                proof {
                    assert(out@.map_values(|p: Vec<u8>| p@) =~= acc + seq![dv[i as int].path]);
                }
            },
            _ => {
                proof {
                    assert(acc + Seq::<Seq<u8>>::empty() =~= acc);
                }
            },
        }
        i = i + 1;
    }
    proof {
        assert(dv.subrange(0, dv.len() as int) =~= dv);
    }
    out
}

} // verus!
