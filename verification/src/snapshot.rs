//! Content-addressed snapshots of a directory tree.
//!
//! A snapshot maps each canonical path to a fingerprint of the file's bytes
//! and modification time. Entries are kept in strict lexicographic path
//! order, so iteration is deterministic. Building a snapshot from scan
//! records is tolerant of per-file read failures: an unreadable file is
//! recorded in an error list and the scan continues.
use crate::pathcmp::{lemma_lex_lt_neq, lemma_lex_lt_transitive, lex_compare, lex_lt, PathOrdering};
use vstd::prelude::*;

verus! {

/// Fingerprint of one file: a 128-bit content digest and the file's
/// modification time in microseconds since the Unix epoch.
#[derive(Clone, Copy, PartialEq, Eq, Structural, Debug)]
pub struct FileMetadata {
    pub hash: u128,
    pub modified_ts: i64,
}

/// One snapshot entry: a canonical path and the file's fingerprint.
pub struct SnapshotEntry {
    pub path: Vec<u8>,
    pub meta: FileMetadata,
}

/// Mathematical value of a snapshot entry.
pub struct EntryV {
    pub path: Seq<u8>,
    pub meta: FileMetadata,
}

impl View for SnapshotEntry {
    type V = EntryV;

    open spec fn view(&self) -> EntryV {
        EntryV { path: self.path@, meta: self.meta }
    }
}

/// A snapshot of the tree under the sync root: the time the scan finished
/// and one entry per regular file, in strict lexicographic path order.
pub struct SyncState {
    pub last_sync_timestamp_micros: i64,
    pub tree: Vec<SnapshotEntry>,
}

/// The entries of a sequence of snapshot entries, as mathematical values.
pub open spec fn entries_view(tree: Seq<SnapshotEntry>) -> Seq<EntryV> {
    tree.map_values(|e: SnapshotEntry| e@)
}

/// Entries are in strictly increasing lexicographic path order; in
/// particular, paths are unique.
pub open spec fn strictly_sorted(tree: Seq<EntryV>) -> bool {
    forall|i: int, j: int|
        0 <= i < j < tree.len() ==> lex_lt(#[trigger] tree[i].path, #[trigger] tree[j].path)
}

/// The fingerprint recorded for path `q`, if any: the first entry whose
/// path equals `q`.
pub open spec fn lookup(tree: Seq<EntryV>, q: Seq<u8>) -> Option<FileMetadata>
    decreases tree.len(),
{
    if tree.len() == 0 {
        None
    } else if tree[0].path == q {
        Some(tree[0].meta)
    } else {
        lookup(tree.skip(1), q)
    }
}

impl SyncState {
    /// The snapshot's entries as mathematical values.
    pub open spec fn entries(&self) -> Seq<EntryV> {
        entries_view(self.tree@)
    }

    /// Well-formedness: entries are strictly sorted by path.
    pub open spec fn wf(&self) -> bool {
        strictly_sorted(self.entries())
    }

    /// The empty snapshot: the baseline before any round has completed.
    pub fn empty() -> (r: SyncState)
        ensures
            r.wf(),
            r.entries() == Seq::<EntryV>::empty(),
            r.last_sync_timestamp_micros == 0,
    {
        let r = SyncState { last_sync_timestamp_micros: 0, tree: Vec::new() };
        proof {
            assert(r.entries() =~= Seq::<EntryV>::empty());
        }
        r
    }
}

/// Looks a path up in a snapshot, returning its fingerprint if recorded.
pub fn lookup_path(state: &SyncState, path: &Vec<u8>) -> (r: Option<FileMetadata>)
    ensures
        r == lookup(state.entries(), path@),
{
    let ghost tv = state.entries();
    let mut i: usize = 0;
    proof {
        assert(tv.skip(0) =~= tv);
    }
    while i < state.tree.len()
        invariant
            i <= state.tree.len(),
            tv == state.entries(),
            lookup(tv, path@) == lookup(tv.skip(i as int), path@),
        decreases state.tree.len() - i,
    {
        match lex_compare(&state.tree[i].path, path) {
            PathOrdering::Equal => {
                return Some(state.tree[i].meta);
            },
            _ => {
                proof {
                    assert(tv.skip(i as int).skip(1) =~= tv.skip(i + 1));
                }
                i = i + 1;
            },
        }
    }
    None
}

/// After inserting `e` between the entries below and above its path, a
/// lookup finds `e` at its path and is unchanged elsewhere.
proof fn lemma_lookup_insert(tree: Seq<EntryV>, idx: int, e: EntryV, q: Seq<u8>)
    requires
        0 <= idx <= tree.len(),
        forall|k: int| 0 <= k < idx ==> lex_lt(#[trigger] tree[k].path, e.path),
        forall|k: int| idx <= k < tree.len() ==> lex_lt(e.path, #[trigger] tree[k].path),
    ensures
        lookup(tree.insert(idx, e), q) == if q == e.path {
            Some(e.meta)
        } else {
            lookup(tree, q)
        },
    decreases idx,
{
    let new = tree.insert(idx, e);
    tree.insert_ensures(idx, e);
    if idx == 0 {
        assert(new[0] == e);
        assert(new.skip(1) =~= tree);
    } else {
        assert(new[0] == tree[0]);
        lemma_lex_lt_neq(tree[0].path, e.path);
        if q == tree[0].path {
            assert(lookup(new, q) == Some(tree[0].meta));
            assert(lookup(tree, q) == Some(tree[0].meta));
        } else {
            assert(new.skip(1) =~= tree.skip(1).insert(idx - 1, e));
            tree.skip(1).insert_ensures(idx - 1, e);
            assert forall|k: int| 0 <= k < idx - 1 implies lex_lt(
                #[trigger] tree.skip(1)[k].path,
                e.path,
            ) by {
                assert(tree.skip(1)[k] == tree[k + 1]);
            }
            assert forall|k: int| idx - 1 <= k < tree.skip(1).len() implies lex_lt(
                e.path,
                #[trigger] tree.skip(1)[k].path,
            ) by {
                assert(tree.skip(1)[k] == tree[k + 1]);
            }
            lemma_lookup_insert(tree.skip(1), idx - 1, e, q);
        }
    }
}

/// Inserting `e` between the entries below and above its path keeps the
/// entries strictly sorted.
proof fn lemma_sorted_insert(tree: Seq<EntryV>, idx: int, e: EntryV)
    requires
        strictly_sorted(tree),
        0 <= idx <= tree.len(),
        forall|k: int| 0 <= k < idx ==> lex_lt(#[trigger] tree[k].path, e.path),
        forall|k: int| idx <= k < tree.len() ==> lex_lt(e.path, #[trigger] tree[k].path),
    ensures
        strictly_sorted(tree.insert(idx, e)),
{
    let new = tree.insert(idx, e);
    tree.insert_ensures(idx, e);
    assert forall|i: int, j: int| 0 <= i < j < new.len() implies lex_lt(
        #[trigger] new[i].path,
        #[trigger] new[j].path,
    ) by {
        if i < idx && j < idx {
            assert(new[i] == tree[i] && new[j] == tree[j]);
        } else if i < idx && j == idx {
            assert(new[i] == tree[i] && new[j] == e);
        } else if i < idx && j > idx {
            assert(new[i] == tree[i] && new[j] == tree[j - 1]);
        } else if i == idx {
            assert(new[i] == e && new[j] == tree[j - 1]);
        } else {
            assert(new[i] == tree[i - 1] && new[j] == tree[j - 1]);
        }
    }
}

/// Replacing the entry at `idx` by one with the same path leaves lookups
/// at other paths unchanged and makes the lookup at that path return the
/// new fingerprint.
proof fn lemma_lookup_update(tree: Seq<EntryV>, idx: int, e: EntryV, q: Seq<u8>)
    requires
        strictly_sorted(tree),
        0 <= idx < tree.len(),
        tree[idx].path == e.path,
    ensures
        lookup(tree.update(idx, e), q) == if q == e.path {
            Some(e.meta)
        } else {
            lookup(tree, q)
        },
    decreases idx,
{
    let new = tree.update(idx, e);
    if idx == 0 {
        assert(new[0] == e);
        assert(new.skip(1) =~= tree.skip(1));
    } else {
        assert(new[0] == tree[0]);
        lemma_lex_lt_neq(tree[0].path, tree[idx].path);
        if q != tree[0].path {
            assert(new.skip(1) =~= tree.skip(1).update(idx - 1, e));
            assert forall|i: int, j: int| 0 <= i < j < tree.skip(1).len() implies lex_lt(
                #[trigger] tree.skip(1)[i].path,
                #[trigger] tree.skip(1)[j].path,
            ) by {
                assert(tree.skip(1)[i] == tree[i + 1]);
                assert(tree.skip(1)[j] == tree[j + 1]);
            }
            assert(tree.skip(1)[idx - 1] == tree[idx]);
            lemma_lookup_update(tree.skip(1), idx - 1, e, q);
        }
    }
}

/// Finds the insertion position for `path`: the index of the first entry
/// whose path is not below `path`, and whether that entry's path equals it.
fn find_position(tree: &Vec<SnapshotEntry>, path: &Vec<u8>) -> (r: (usize, bool))
    ensures
        r.0 <= tree.len(),
        forall|k: int| 0 <= k < r.0 ==> lex_lt(#[trigger] entries_view(tree@)[k].path, path@),
        r.1 ==> r.0 < tree.len() && entries_view(tree@)[r.0 as int].path == path@,
        !r.1 && r.0 < tree.len() ==> lex_lt(path@, entries_view(tree@)[r.0 as int].path),
{
    let mut idx: usize = 0;
    while idx < tree.len()
        invariant
            idx <= tree.len(),
            forall|k: int| 0 <= k < idx ==> lex_lt(#[trigger] entries_view(tree@)[k].path, path@),
        decreases tree.len() - idx,
    {
        match lex_compare(&tree[idx].path, path) {
            PathOrdering::Less => {
                idx = idx + 1;
            },
            PathOrdering::Equal => {
                return (idx, true);
            },
            PathOrdering::Greater => {
                return (idx, false);
            },
        }
    }
    (idx, false)
}

/// Inserts an entry into a sorted entry list, replacing any entry that
/// already records the same path.
pub fn insert_entry(tree: &mut Vec<SnapshotEntry>, entry: SnapshotEntry)
    requires
        strictly_sorted(entries_view(old(tree)@)),
    ensures
        strictly_sorted(entries_view(final(tree)@)),
        forall|q: Seq<u8>|
            #[trigger] lookup(entries_view(final(tree)@), q) == if q == entry.path@ {
                Some(entry.meta)
            } else {
                lookup(entries_view(old(tree)@), q)
            },
{
    let ghost tv = entries_view(tree@);
    let ghost ev = entry@;
    let (idx, exact) = find_position(tree, &entry.path);
    if exact {
        assert forall|q: Seq<u8>| #[trigger]
            lookup(tv.update(idx as int, ev), q) == (if q == ev.path {
                Some(ev.meta)
            } else {
                lookup(tv, q)
            }) by {
            lemma_lookup_update(tv, idx as int, ev, q);
        }
        assert forall|i: int, j: int| 0 <= i < j < tv.update(idx as int, ev).len() implies lex_lt(
            #[trigger] tv.update(idx as int, ev)[i].path,
            #[trigger] tv.update(idx as int, ev)[j].path,
        ) by {
            assert(tv.update(idx as int, ev)[i].path == tv[i].path);
            assert(tv.update(idx as int, ev)[j].path == tv[j].path);
        }
        tree.remove(idx);
        tree.insert(idx, entry);
        proof {
            vstd::seq_lib::lemma_update_is_remove_insert(tv, idx as int, ev);
            assert(entries_view(tree@) =~= tv.remove(idx as int).insert(idx as int, ev));
        }
    } else {
        proof {
            assert forall|k: int| idx <= k < tv.len() implies lex_lt(
                ev.path,
                #[trigger] tv[k].path,
            ) by {
                if k > idx {
                    lemma_lex_lt_transitive(ev.path, tv[idx as int].path, tv[k].path);
                }
            }
            lemma_sorted_insert(tv, idx as int, ev);
            assert forall|q: Seq<u8>| #[trigger]
                lookup(tv.insert(idx as int, ev), q) == (if q == ev.path {
                    Some(ev.meta)
                } else {
                    lookup(tv, q)
                }) by {
                lemma_lookup_insert(tv, idx as int, ev, q);
            }
        }
        tree.insert(idx, entry);
        proof {
            assert(entries_view(tree@) =~= tv.insert(idx as int, ev));
        }
    }
}

/// One file met during a scan: its canonical path, its bytes if they could
/// be read, and its modification time in microseconds since the Unix epoch.
/// `content == None` records a per-file read or stat failure.
pub struct ScanRecord {
    pub path: Vec<u8>,
    pub content: Option<Vec<u8>>,
    pub modified_ts: i64,
}

/// Mathematical value of a scan record.
pub struct ScanRecordV {
    pub path: Seq<u8>,
    pub content: Option<Seq<u8>>,
    pub modified_ts: i64,
}

impl View for ScanRecord {
    type V = ScanRecordV;

    open spec fn view(&self) -> ScanRecordV {
        ScanRecordV {
            path: self.path@,
            content: match self.content {
                Some(c) => Some(c@),
                None => None,
            },
            modified_ts: self.modified_ts,
        }
    }
}

/// The records of a scan, as mathematical values.
pub open spec fn records_view(records: Seq<ScanRecord>) -> Seq<ScanRecordV> {
    records.map_values(|r: ScanRecord| r@)
}

/// The fingerprint that a scan yields for path `q`: that of the latest
/// readable record for `q`, if any. Unreadable records never contribute.
pub open spec fn scan_lookup(records: Seq<ScanRecordV>, q: Seq<u8>) -> Option<FileMetadata>
    decreases records.len(),
{
    if records.len() == 0 {
        None
    } else {
        let last = records[records.len() - 1];
        match last.content {
            Some(data) => if last.path == q {
                Some(FileMetadata { hash: md5_of(data), modified_ts: last.modified_ts })
            } else {
                scan_lookup(records.drop_last(), q)
            },
            None => scan_lookup(records.drop_last(), q),
        }
    }
}

/// The paths of the unreadable records, in scan order.
pub open spec fn failed_paths(records: Seq<ScanRecordV>) -> Seq<Seq<u8>>
    decreases records.len(),
{
    if records.len() == 0 {
        Seq::empty()
    } else {
        let last = records[records.len() - 1];
        failed_paths(records.drop_last()) + (match last.content {
            Some(_) => Seq::<Seq<u8>>::empty(),
            None => seq![last.path],
        })
    }
}

/// The 128-bit MD5 digest of a byte string.
pub uninterp spec fn md5_of(data: Seq<u8>) -> u128;

#[verifier::external_type_specification]
#[verifier::external_body]
pub struct ExMd5Context(md5::Context);

/// The bytes a digest context has consumed so far.
pub uninterp spec fn ctx_bytes(ctx: md5::Context) -> Seq<u8>;

/// Relies on md5::Context::new: a fresh context has consumed nothing.
#[verifier::external_body]
fn md5_context_new() -> (r: md5::Context)
    ensures
        ctx_bytes(r) == Seq::<u8>::empty(),
{
    md5::Context::new()
}

/// Relies on md5::Context::consume: feeding bytes appends them to what the
/// context has consumed.
#[verifier::external_body]
fn md5_context_consume(ctx: &mut md5::Context, data: &Vec<u8>)
    ensures
        ctx_bytes(*final(ctx)) == ctx_bytes(*old(ctx)) + data@,
{
    ctx.consume(data.as_slice());
}

/// Relies on md5::Context::compute: the digest is a function of the
/// consumed bytes alone.
#[verifier::external_body]
fn md5_context_compute(ctx: md5::Context) -> (r: u128)
    ensures
        r == md5_of(ctx_bytes(ctx)),
{
    u128::from_le_bytes(ctx.compute().into())
}

/// Streaming content hasher: a file's digest is computed chunk by chunk,
/// so no file ever has to be buffered whole in memory.
pub struct FingerprintBuilder {
    ctx: md5::Context,
    bytes_seen: Ghost<Seq<u8>>,
}

impl FingerprintBuilder {
    /// The bytes fed so far.
    pub closed spec fn consumed(&self) -> Seq<u8> {
        self.bytes_seen@
    }

    /// Well-formedness: the ghost record of fed bytes matches the context.
    pub closed spec fn wf(&self) -> bool {
        ctx_bytes(self.ctx) == self.bytes_seen@
    }

    /// Starts hashing a new file.
    pub fn new() -> (r: FingerprintBuilder)
        ensures
            r.wf(),
            r.consumed() == Seq::<u8>::empty(),
    {
        FingerprintBuilder { ctx: md5_context_new(), bytes_seen: Ghost(Seq::empty()) }
    }

    /// Feeds the next chunk of the file's bytes.
    pub fn add_chunk(&mut self, data: &Vec<u8>)
        requires
            old(self).wf(),
        ensures
            final(self).wf(),
            final(self).consumed() == old(self).consumed() + data@,
    {
        let ghost prev = self.bytes_seen@;
        md5_context_consume(&mut self.ctx, data);
        proof {
            self.bytes_seen@ = prev + data@;
        }
    }

    /// Finishes and returns the digest of everything fed.
    pub fn finish(self) -> (r: u128)
        requires
            self.wf(),
        ensures
            r == md5_of(self.consumed()),
    {
        md5_context_compute(self.ctx)
    }
}

/// Relies on chrono::Utc::now: the wall-clock time in microseconds since
/// the Unix epoch. Nothing is promised of its value.
#[verifier::external_body]
pub(crate) fn wall_clock_micros() -> i64 {
    chrono::Utc::now().timestamp_micros()
}

/// Copies a byte string.
pub(crate) fn clone_bytes(v: &Vec<u8>) -> (r: Vec<u8>)
    ensures
        r@ == v@,
{
    let r = v.clone();
    proof {
        assert(r@ =~= v@);
    }
    r
}

/// A freshly scanned snapshot together with the paths that could not be
/// read; read failures are non-fatal and never abort a scan.
pub struct ScanResult {
    pub state: SyncState,
    pub unreadable: Vec<Vec<u8>>,
}

/// Builds a snapshot from the records of a directory scan. Each readable
/// file is fingerprinted by its content digest and modification time;
/// unreadable files are reported in `unreadable` and skipped. The
/// snapshot's timestamp is the wall-clock time at completion.
pub fn generate_state(records: Vec<ScanRecord>) -> (r: ScanResult)
    ensures
        r.state.wf(),
        forall|q: Seq<u8>|
            #[trigger] lookup(r.state.entries(), q) == scan_lookup(records_view(records@), q),
        r.unreadable@.map_values(|p: Vec<u8>| p@) == failed_paths(records_view(records@)),
{
    let ghost rv = records_view(records@);
    let mut tree: Vec<SnapshotEntry> = Vec::new();
    let mut unreadable: Vec<Vec<u8>> = Vec::new();
    let mut i: usize = 0;
    proof {
        assert(entries_view(tree@) =~= Seq::<EntryV>::empty());
        assert(rv.subrange(0, 0) =~= Seq::<ScanRecordV>::empty());
        assert(unreadable@.map_values(|p: Vec<u8>| p@) =~= Seq::<Seq<u8>>::empty());
    }
    while i < records.len()
        invariant
            i <= records.len(),
            rv == records_view(records@),
            rv.len() == records.len(),
            forall|k: int| 0 <= k < records.len() ==> rv[k] == #[trigger] records@[k]@,
            strictly_sorted(entries_view(tree@)),
            forall|q: Seq<u8>|
                #[trigger] lookup(entries_view(tree@), q) == scan_lookup(
                    rv.subrange(0, i as int),
                    q,
                ),
            unreadable@.map_values(|p: Vec<u8>| p@) == failed_paths(rv.subrange(0, i as int)),
        decreases records.len() - i,
    {
        let ghost prefix = rv.subrange(0, i as int);
        let ghost old_unreadable = unreadable@.map_values(|p: Vec<u8>| p@);
        proof {
            assert(rv.subrange(0, i + 1) =~= prefix.push(rv[i as int]));
            assert(prefix.push(rv[i as int]).drop_last() =~= prefix);
        }
        let rec = &records[i];
        match &rec.content {
            Some(data) => {
                let mut hasher = FingerprintBuilder::new();
                hasher.add_chunk(data);
                proof {
                    assert(Seq::<u8>::empty() + data@ =~= data@);
                }
                let hash = hasher.finish();
                let entry = SnapshotEntry {
                    path: clone_bytes(&rec.path),
                    meta: FileMetadata { hash, modified_ts: rec.modified_ts },
                };
                insert_entry(&mut tree, entry);
            },
            None => {
                unreadable.push(clone_bytes(&rec.path));
                proof {
                    assert(unreadable@.map_values(|p: Vec<u8>| p@) =~= old_unreadable + seq![
                        rv[i as int].path,
                    ]);
                }
            },
        }
        i = i + 1;
    }
    proof {
        assert(rv.subrange(0, rv.len() as int) =~= rv);
    }
    ScanResult {
        state: SyncState { last_sync_timestamp_micros: wall_clock_micros(), tree },
        unreadable,
    }
}

} // verus!
