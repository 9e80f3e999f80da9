//! Deterministic diffing of two snapshots.
//!
//! `compare_states` walks the sorted path union of a baseline and a current
//! snapshot and emits one change per path that is present on only one side
//! or whose content hash differs. A modified path resolves its hash and
//! timestamp by last-writer-wins: the fingerprint with the larger
//! modification time is reported.
use crate::pathcmp::{
    lemma_lex_lt_asymmetric, lemma_lex_lt_neq, lemma_lex_lt_total, lemma_lex_lt_transitive,
    lex_compare, lex_le, lex_lt,
    PathOrdering,
};
use crate::snapshot::{clone_bytes, lookup, strictly_sorted, EntryV, SyncState};
use vstd::prelude::*;

verus! {

/// How a path changed between the baseline and the current snapshot.
#[derive(Clone, Copy, PartialEq, Eq, Structural, Debug)]
pub enum ChangeType {
    Added,
    Removed,
    Modified,
}

/// One reported change: the path, the kind of change, and the resulting
/// hash and modification time after last-writer-wins resolution.
pub struct Diff {
    pub path: Vec<u8>,
    pub change: ChangeType,
    pub hash: u128,
    pub modified_ts: i64,
}

/// Mathematical value of a reported change.
pub struct DiffV {
    pub path: Seq<u8>,
    pub change: ChangeType,
    pub hash: u128,
    pub modified_ts: i64,
}

impl View for Diff {
    type V = DiffV;

    open spec fn view(&self) -> DiffV {
        DiffV { path: self.path@, change: self.change, hash: self.hash, modified_ts: self.modified_ts }
    }
}

/// The changes of a diff, as mathematical values.
pub open spec fn diffs_view(diffs: Seq<Diff>) -> Seq<DiffV> {
    diffs.map_values(|d: Diff| d@)
}

/// The change reported for a path present only in the current snapshot.
pub open spec fn added_of(e: EntryV) -> DiffV {
    DiffV {
        path: e.path,
        change: ChangeType::Added,
        hash: e.meta.hash,
        modified_ts: e.meta.modified_ts,
    }
}

/// The change reported for a path present only in the baseline.
pub open spec fn removed_of(e: EntryV) -> DiffV {
    DiffV {
        path: e.path,
        change: ChangeType::Removed,
        hash: e.meta.hash,
        modified_ts: e.meta.modified_ts,
    }
}

/// The change reported for a path whose hash differs between the two
/// snapshots: last-writer-wins, the fingerprint with the larger
/// modification time is reported.
pub open spec fn modified_of(before: EntryV, now: EntryV) -> DiffV {
    if now.meta.modified_ts > before.meta.modified_ts {
        DiffV {
            path: now.path,
            change: ChangeType::Modified,
            hash: now.meta.hash,
            modified_ts: now.meta.modified_ts,
        }
    } else {
        DiffV {
            path: before.path,
            change: ChangeType::Modified,
            hash: before.meta.hash,
            modified_ts: before.meta.modified_ts,
        }
    }
}

/// The diff of two snapshots' entry lists: a merge over the sorted path
/// union, one change per path present on one side only or changed in
/// content.
pub open spec fn diff_of(before: Seq<EntryV>, now: Seq<EntryV>) -> Seq<DiffV>
    decreases before.len() + now.len(),
{
    if before.len() == 0 && now.len() == 0 {
        Seq::empty()
    } else if before.len() == 0 {
        seq![added_of(now[0])] + diff_of(before, now.skip(1))
    } else if now.len() == 0 {
        seq![removed_of(before[0])] + diff_of(before.skip(1), now)
    } else if before[0].path == now[0].path {
        if before[0].meta.hash != now[0].meta.hash {
            seq![modified_of(before[0], now[0])] + diff_of(before.skip(1), now.skip(1))
        } else {
            diff_of(before.skip(1), now.skip(1))
        }
    } else if lex_lt(before[0].path, now[0].path) {
        seq![removed_of(before[0])] + diff_of(before.skip(1), now)
    } else {
        seq![added_of(now[0])] + diff_of(before, now.skip(1))
    }
}

/// Whether a diff reports a change of kind `c` at path `p`.
pub open spec fn contains_kind(diffs: Seq<DiffV>, c: ChangeType, p: Seq<u8>) -> bool {
    exists|i: int| 0 <= i < diffs.len() && diffs[i].change == c && (#[trigger] diffs[i]).path == p
}

/// Whether a diff reports any change at path `p`.
pub open spec fn contains_path(diffs: Seq<DiffV>, p: Seq<u8>) -> bool {
    exists|i: int| 0 <= i < diffs.len() && (#[trigger] diffs[i]).path == p
}

/// Whether path `p` belongs to the diff's path domain: present on one side
/// only, or present on both with differing hashes.
pub open spec fn in_diff_domain(before: Seq<EntryV>, now: Seq<EntryV>, p: Seq<u8>) -> bool {
    match (lookup(before, p), lookup(now, p)) {
        (None, None) => false,
        (Some(_), None) => true,
        (None, Some(_)) => true,
        (Some(b), Some(n)) => b.hash != n.hash,
    }
}

/// A change of kind `c` at path `p` is reported by `seq![x] + rest` exactly
/// when `x` is such a change or `rest` reports one.
proof fn lemma_contains_kind_cons(x: DiffV, rest: Seq<DiffV>, c: ChangeType, p: Seq<u8>)
    ensures
        contains_kind(seq![x] + rest, c, p) <==> ((x.change == c && x.path == p) || contains_kind(
            rest,
            c,
            p,
        )),
{
    let s = seq![x] + rest;
    assert(s[0] == x);
    if contains_kind(s, c, p) {
        let i = choose|i: int| 0 <= i < s.len() && s[i].change == c && (#[trigger] s[i]).path == p;
        if i > 0 {
            assert(rest[i - 1] == s[i]);
            assert(contains_kind(rest, c, p));
        }
    }
    if contains_kind(rest, c, p) {
        let i = choose|i: int|
            0 <= i < rest.len() && rest[i].change == c && (#[trigger] rest[i]).path == p;
        assert(s[i + 1] == rest[i]);
        assert(contains_kind(s, c, p));
    }
}

/// A change at path `p` is reported by `seq![x] + rest` exactly when `x`
/// is at `p` or `rest` reports one.
proof fn lemma_contains_path_cons(x: DiffV, rest: Seq<DiffV>, p: Seq<u8>)
    ensures
        contains_path(seq![x] + rest, p) <==> (x.path == p || contains_path(rest, p)),
{
    let s = seq![x] + rest;
    assert(s[0] == x);
    if contains_path(s, p) {
        let i = choose|i: int| 0 <= i < s.len() && (#[trigger] s[i]).path == p;
        if i > 0 {
            assert(rest[i - 1] == s[i]);
            assert(contains_path(rest, p));
        }
    }
    if contains_path(rest, p) {
        let i = choose|i: int| 0 <= i < rest.len() && (#[trigger] rest[i]).path == p;
        assert(s[i + 1] == rest[i]);
        assert(contains_path(s, p));
    }
}

/// The diff of a snapshot against itself is empty, whatever the snapshot.
pub proof fn lemma_compare_self_empty(entries: Seq<EntryV>)
    ensures
        diff_of(entries, entries) == Seq::<DiffV>::empty(),
    decreases entries.len(),
{
    if entries.len() > 0 {
        lemma_compare_self_empty(entries.skip(1));
    }
}

/// Swapping the two snapshots turns every Added into a Removed at the same
/// path and with the same fingerprint, and conversely.
pub proof fn lemma_added_removed_symmetry(a: Seq<EntryV>, b: Seq<EntryV>, p: Seq<u8>)
    ensures
        contains_kind(diff_of(a, b), ChangeType::Added, p) <==> contains_kind(
            diff_of(b, a),
            ChangeType::Removed,
            p,
        ),
    decreases a.len() + b.len(),
{
    if a.len() == 0 && b.len() == 0 {
    } else if a.len() == 0 {
        lemma_contains_kind_cons(added_of(b[0]), diff_of(a, b.skip(1)), ChangeType::Added, p);
        lemma_contains_kind_cons(removed_of(b[0]), diff_of(b.skip(1), a), ChangeType::Removed, p);
        lemma_added_removed_symmetry(a, b.skip(1), p);
    } else if b.len() == 0 {
        lemma_contains_kind_cons(removed_of(a[0]), diff_of(a.skip(1), b), ChangeType::Added, p);
        lemma_contains_kind_cons(added_of(a[0]), diff_of(b, a.skip(1)), ChangeType::Removed, p);
        lemma_added_removed_symmetry(a.skip(1), b, p);
    } else if a[0].path == b[0].path {
        if a[0].meta.hash != b[0].meta.hash {
            lemma_contains_kind_cons(
                modified_of(a[0], b[0]),
                diff_of(a.skip(1), b.skip(1)),
                ChangeType::Added,
                p,
            );
            lemma_contains_kind_cons(
                modified_of(b[0], a[0]),
                diff_of(b.skip(1), a.skip(1)),
                ChangeType::Removed,
                p,
            );
        }
        lemma_added_removed_symmetry(a.skip(1), b.skip(1), p);
    } else if lex_lt(a[0].path, b[0].path) {
        lemma_lex_lt_neq(a[0].path, b[0].path);
        lemma_lex_lt_asymmetric(a[0].path, b[0].path);
        lemma_contains_kind_cons(removed_of(a[0]), diff_of(a.skip(1), b), ChangeType::Added, p);
        lemma_contains_kind_cons(added_of(a[0]), diff_of(b, a.skip(1)), ChangeType::Removed, p);
        lemma_added_removed_symmetry(a.skip(1), b, p);
    } else {
        lemma_lex_lt_total(a[0].path, b[0].path);
        lemma_contains_kind_cons(added_of(b[0]), diff_of(a, b.skip(1)), ChangeType::Added, p);
        lemma_contains_kind_cons(removed_of(b[0]), diff_of(b.skip(1), a), ChangeType::Removed, p);
        lemma_added_removed_symmetry(a, b.skip(1), p);
    }
}

/// The tail of a strictly sorted entry list is strictly sorted.
proof fn lemma_sorted_skip(entries: Seq<EntryV>)
    requires
        strictly_sorted(entries),
        entries.len() > 0,
    ensures
        strictly_sorted(entries.skip(1)),
{
    assert forall|i: int, j: int| 0 <= i < j < entries.skip(1).len() implies lex_lt(
        #[trigger] entries.skip(1)[i].path,
        #[trigger] entries.skip(1)[j].path,
    ) by {
        assert(entries.skip(1)[i] == entries[i + 1]);
        assert(entries.skip(1)[j] == entries[j + 1]);
    }
}

/// A path below every entry's path is not recorded.
proof fn lemma_lookup_all_above(entries: Seq<EntryV>, p: Seq<u8>)
    requires
        forall|k: int| 0 <= k < entries.len() ==> lex_lt(p, (#[trigger] entries[k]).path),
    ensures
        lookup(entries, p) == None::<crate::snapshot::FileMetadata>,
    decreases entries.len(),
{
    if entries.len() > 0 {
        lemma_lex_lt_neq(p, entries[0].path);
        assert forall|k: int| 0 <= k < entries.skip(1).len() implies lex_lt(
            p,
            (#[trigger] entries.skip(1)[k]).path,
        ) by {
            assert(entries.skip(1)[k] == entries[k + 1]);
        }
        lemma_lookup_all_above(entries.skip(1), p);
    }
}

/// The head's path of a strictly sorted entry list does not recur in its
/// tail.
proof fn lemma_head_not_in_tail(entries: Seq<EntryV>)
    requires
        strictly_sorted(entries),
        entries.len() > 0,
    ensures
        lookup(entries.skip(1), entries[0].path) == None::<crate::snapshot::FileMetadata>,
{
    assert forall|k: int| 0 <= k < entries.skip(1).len() implies lex_lt(
        entries[0].path,
        (#[trigger] entries.skip(1)[k]).path,
    ) by {
        assert(entries.skip(1)[k] == entries[k + 1]);
    }
    lemma_lookup_all_above(entries.skip(1), entries[0].path);
}

/// The diff's path domain is exactly: paths recorded only in the baseline,
/// paths recorded only in the current snapshot, and paths recorded in both
/// whose hashes differ.
pub proof fn lemma_diff_domain(a: Seq<EntryV>, b: Seq<EntryV>, p: Seq<u8>)
    requires
        strictly_sorted(a),
        strictly_sorted(b),
    ensures
        contains_path(diff_of(a, b), p) <==> in_diff_domain(a, b, p),
    decreases a.len() + b.len(),
{
    if a.len() == 0 && b.len() == 0 {
    } else if a.len() == 0 {
        lemma_contains_path_cons(added_of(b[0]), diff_of(a, b.skip(1)), p);
        lemma_sorted_skip(b);
        lemma_diff_domain(a, b.skip(1), p);
        if p == b[0].path {
        } else {
            assert(lookup(b, p) == lookup(b.skip(1), p));
        }
    } else if b.len() == 0 {
        lemma_contains_path_cons(removed_of(a[0]), diff_of(a.skip(1), b), p);
        lemma_sorted_skip(a);
        lemma_diff_domain(a.skip(1), b, p);
        if p == a[0].path {
        } else {
            assert(lookup(a, p) == lookup(a.skip(1), p));
        }
    } else if a[0].path == b[0].path {
        lemma_sorted_skip(a);
        lemma_sorted_skip(b);
        lemma_diff_domain(a.skip(1), b.skip(1), p);
        if a[0].meta.hash != b[0].meta.hash {
            lemma_contains_path_cons(
                modified_of(a[0], b[0]),
                diff_of(a.skip(1), b.skip(1)),
                p,
            );
        }
        if p == a[0].path {
            lemma_head_not_in_tail(a);
            lemma_head_not_in_tail(b);
        } else {
            assert(lookup(a, p) == lookup(a.skip(1), p));
            assert(lookup(b, p) == lookup(b.skip(1), p));
        }
    } else if lex_lt(a[0].path, b[0].path) {
        lemma_contains_path_cons(removed_of(a[0]), diff_of(a.skip(1), b), p);
        lemma_sorted_skip(a);
        lemma_diff_domain(a.skip(1), b, p);
        if p == a[0].path {
            assert forall|k: int| 0 <= k < b.len() implies lex_lt(
                p,
                (#[trigger] b[k]).path,
            ) by {
                if k > 0 {
                    lemma_lex_lt_transitive(p, b[0].path, b[k].path);
                }
            }
            lemma_lookup_all_above(b, p);
        } else {
            assert(lookup(a, p) == lookup(a.skip(1), p));
        }
    } else {
        lemma_contains_path_cons(added_of(b[0]), diff_of(a, b.skip(1)), p);
        lemma_sorted_skip(b);
        lemma_diff_domain(a, b.skip(1), p);
        if p == b[0].path {
            lemma_lex_lt_total(a[0].path, b[0].path);
            assert forall|k: int| 0 <= k < a.len() implies lex_lt(
                p,
                (#[trigger] a[k]).path,
            ) by {
                if k > 0 {
                    lemma_lex_lt_transitive(p, a[0].path, a[k].path);
                }
            }
            lemma_lookup_all_above(a, p);
        } else {
            assert(lookup(b, p) == lookup(b.skip(1), p));
        }
    }
}

/// Changes are in strictly increasing lexicographic path order; in
/// particular, no path is reported twice.
pub open spec fn diffs_sorted(diffs: Seq<DiffV>) -> bool {
    forall|i: int, j: int|
        0 <= i < j < diffs.len() ==> lex_lt(#[trigger] diffs[i].path, #[trigger] diffs[j].path)
}

/// Putting a change whose path is below every path in a sorted diff in
/// front of it keeps the diff sorted.
proof fn lemma_prepend_sorted(x: DiffV, rest: Seq<DiffV>)
    requires
        diffs_sorted(rest),
        rest.len() > 0 ==> lex_lt(x.path, rest[0].path),
    ensures
        diffs_sorted(seq![x] + rest),
{
    let s = seq![x] + rest;
    assert(s[0] == x);
    assert forall|i: int, j: int| 0 <= i < j < s.len() implies lex_lt(
        #[trigger] s[i].path,
        #[trigger] s[j].path,
    ) by {
        assert(s[j] == rest[j - 1]);
        if i == 0 {
            if j > 1 {
                lemma_lex_lt_transitive(x.path, rest[0].path, rest[j - 1].path);
            }
        } else {
            assert(s[i] == rest[i - 1]);
        }
    }
}

/// The diff of two sorted snapshots is itself sorted: its changes come in
/// strictly increasing path order, one per path, and none stands below the
/// first remaining path of either snapshot.
pub proof fn lemma_diff_sorted(a: Seq<EntryV>, b: Seq<EntryV>)
    requires
        strictly_sorted(a),
        strictly_sorted(b),
    ensures
        diffs_sorted(diff_of(a, b)),
        diff_of(a, b).len() > 0 ==> ((a.len() > 0 && lex_le(a[0].path, diff_of(a, b)[0].path)) || (
        b.len() > 0 && lex_le(b[0].path, diff_of(a, b)[0].path))),
    decreases a.len() + b.len(),
{
    let d = diff_of(a, b);
    if a.len() == 0 && b.len() == 0 {
    } else if a.len() == 0 {
        lemma_sorted_skip(b);
        lemma_diff_sorted(a, b.skip(1));
        let rest = diff_of(a, b.skip(1));
        assert(d == seq![added_of(b[0])] + rest);
        if rest.len() > 0 {
            assert(b.skip(1)[0] == b[1]);
            if lex_le(b.skip(1)[0].path, rest[0].path) && b[0].path != rest[0].path {
                if lex_lt(b[1].path, rest[0].path) {
                    lemma_lex_lt_transitive(b[0].path, b[1].path, rest[0].path);
                }
            }
            assert(lex_lt(b[0].path, rest[0].path));
        }
        lemma_prepend_sorted(added_of(b[0]), rest);
        assert(d[0] == added_of(b[0]));
    } else if b.len() == 0 {
        lemma_sorted_skip(a);
        lemma_diff_sorted(a.skip(1), b);
        let rest = diff_of(a.skip(1), b);
        assert(d == seq![removed_of(a[0])] + rest);
        if rest.len() > 0 {
            assert(a.skip(1)[0] == a[1]);
            if lex_lt(a[1].path, rest[0].path) {
                lemma_lex_lt_transitive(a[0].path, a[1].path, rest[0].path);
            }
            assert(lex_lt(a[0].path, rest[0].path));
        }
        lemma_prepend_sorted(removed_of(a[0]), rest);
        assert(d[0] == removed_of(a[0]));
    } else if a[0].path == b[0].path {
        lemma_sorted_skip(a);
        lemma_sorted_skip(b);
        lemma_diff_sorted(a.skip(1), b.skip(1));
        let rest = diff_of(a.skip(1), b.skip(1));
        assert(rest.len() > 0 ==> lex_lt(a[0].path, rest[0].path)) by {
            if rest.len() > 0 {
                if a.skip(1).len() > 0 && lex_le(a.skip(1)[0].path, rest[0].path) {
                    assert(a.skip(1)[0] == a[1]);
                    if lex_lt(a[1].path, rest[0].path) {
                        lemma_lex_lt_transitive(a[0].path, a[1].path, rest[0].path);
                    }
                } else {
                    assert(b.skip(1).len() > 0 && lex_le(b.skip(1)[0].path, rest[0].path));
                    assert(b.skip(1)[0] == b[1]);
                    if lex_lt(b[1].path, rest[0].path) {
                        lemma_lex_lt_transitive(b[0].path, b[1].path, rest[0].path);
                    }
                }
            }
        }
        if a[0].meta.hash != b[0].meta.hash {
            let m = modified_of(a[0], b[0]);
            assert(m.path == a[0].path);
            assert(d == seq![m] + rest);
            lemma_prepend_sorted(m, rest);
            assert(d[0] == m);
        } else {
            assert(d == rest);
            if d.len() > 0 {
                assert(lex_le(a[0].path, d[0].path));
            }
        }
    } else if lex_lt(a[0].path, b[0].path) {
        lemma_sorted_skip(a);
        lemma_diff_sorted(a.skip(1), b);
        let rest = diff_of(a.skip(1), b);
        assert(d == seq![removed_of(a[0])] + rest);
        if rest.len() > 0 {
            if a.skip(1).len() > 0 && lex_le(a.skip(1)[0].path, rest[0].path) {
                assert(a.skip(1)[0] == a[1]);
                if lex_lt(a[1].path, rest[0].path) {
                    lemma_lex_lt_transitive(a[0].path, a[1].path, rest[0].path);
                }
            } else {
                assert(lex_le(b[0].path, rest[0].path));
                if lex_lt(b[0].path, rest[0].path) {
                    lemma_lex_lt_transitive(a[0].path, b[0].path, rest[0].path);
                }
            }
            assert(lex_lt(a[0].path, rest[0].path));
        }
        lemma_prepend_sorted(removed_of(a[0]), rest);
        assert(d[0] == removed_of(a[0]));
    } else {
        lemma_lex_lt_total(a[0].path, b[0].path);
        lemma_sorted_skip(b);
        lemma_diff_sorted(a, b.skip(1));
        let rest = diff_of(a, b.skip(1));
        assert(d == seq![added_of(b[0])] + rest);
        if rest.len() > 0 {
            if a.len() > 0 && lex_le(a[0].path, rest[0].path) && lex_lt(b[0].path, a[0].path) {
                if lex_lt(a[0].path, rest[0].path) {
                    lemma_lex_lt_transitive(b[0].path, a[0].path, rest[0].path);
                }
            }
            if b.skip(1).len() > 0 && lex_le(b.skip(1)[0].path, rest[0].path) {
                assert(b.skip(1)[0] == b[1]);
                if lex_lt(b[1].path, rest[0].path) {
                    lemma_lex_lt_transitive(b[0].path, b[1].path, rest[0].path);
                }
            }
            assert(lex_lt(b[0].path, rest[0].path));
        }
        lemma_prepend_sorted(added_of(b[0]), rest);
        assert(d[0] == added_of(b[0]));
    }
}

/// Computes the ordered list of changes between the baseline and the
/// current snapshot. The result is a pure function of the two snapshots'
/// contents.
pub fn compare_states(before_state: &SyncState, now_state: &SyncState) -> (r: Vec<Diff>)
    ensures
        diffs_view(r@) == diff_of(before_state.entries(), now_state.entries()),
{
    let ghost bv = before_state.entries();
    let ghost nv = now_state.entries();
    let before = &before_state.tree;
    let now = &now_state.tree;
    let mut out: Vec<Diff> = Vec::new();
    let mut i: usize = 0;
    let mut j: usize = 0;
    proof {
        assert(bv.skip(0) =~= bv);
        assert(nv.skip(0) =~= nv);
        assert(diffs_view(out@) =~= Seq::<DiffV>::empty());
    }
    while i < before.len() || j < now.len()
        invariant
            i <= before.len(),
            j <= now.len(),
            bv == before_state.entries(),
            nv == now_state.entries(),
            before == before_state.tree,
            now == now_state.tree,
            bv.len() == before.len(),
            nv.len() == now.len(),
            diffs_view(out@) + diff_of(bv.skip(i as int), nv.skip(j as int)) == diff_of(bv, nv),
        decreases before.len() - i + now.len() - j,
    {
        let ghost rest = diff_of(bv.skip(i as int), nv.skip(j as int));
        let ghost acc = diffs_view(out@);
        if i >= before.len() {
            let e = &now[j];
            out.push(
                Diff {
                    path: clone_bytes(&e.path),
                    change: ChangeType::Added,
                    hash: e.meta.hash,
                    modified_ts: e.meta.modified_ts,
                },
            );
            proof {
                assert(bv.skip(i as int).len() == 0);
                assert(nv.skip(j as int)[0] == nv[j as int]);
                assert(nv.skip(j as int).skip(1) =~= nv.skip(j + 1));
                assert(rest == seq![added_of(nv[j as int])] + diff_of(
                    bv.skip(i as int),
                    nv.skip(j + 1),
                ));
                assert(diffs_view(out@) =~= acc + seq![added_of(nv[j as int])]);
                assert(diffs_view(out@) + diff_of(bv.skip(i as int), nv.skip(j + 1)) =~= acc
                    + rest);
            }
            j = j + 1;
        } else if j >= now.len() {
            let e = &before[i];
            out.push(
                Diff {
                    path: clone_bytes(&e.path),
                    change: ChangeType::Removed,
                    hash: e.meta.hash,
                    modified_ts: e.meta.modified_ts,
                },
            );
            proof {
                assert(nv.skip(j as int).len() == 0);
                assert(bv.skip(i as int)[0] == bv[i as int]);
                assert(bv.skip(i as int).skip(1) =~= bv.skip(i + 1));
                assert(rest == seq![removed_of(bv[i as int])] + diff_of(
                    bv.skip(i + 1),
                    nv.skip(j as int),
                ));
                assert(diffs_view(out@) =~= acc + seq![removed_of(bv[i as int])]);
                assert(diffs_view(out@) + diff_of(bv.skip(i + 1), nv.skip(j as int)) =~= acc
                    + rest);
            }
            i = i + 1;
        } else {
            proof {
                assert(bv.skip(i as int)[0] == bv[i as int]);
                assert(nv.skip(j as int)[0] == nv[j as int]);
                assert(bv.skip(i as int).skip(1) =~= bv.skip(i + 1));
                assert(nv.skip(j as int).skip(1) =~= nv.skip(j + 1));
            }
            match lex_compare(&before[i].path, &now[j].path) {
                PathOrdering::Equal => {
                    if before[i].meta.hash != now[j].meta.hash {
                        let winner = if now[j].meta.modified_ts > before[i].meta.modified_ts {
                            &now[j]
                        } else {
                            &before[i]
                        };
                        out.push(
                            Diff {
                                path: clone_bytes(&winner.path),
                                change: ChangeType::Modified,
                                hash: winner.meta.hash,
                                modified_ts: winner.meta.modified_ts,
                            },
                        );
                        proof {
                            let m = modified_of(bv[i as int], nv[j as int]);
                            assert(rest == seq![m] + diff_of(bv.skip(i + 1), nv.skip(j + 1)));
                            assert(diffs_view(out@) =~= acc + seq![m]);
                            assert(diffs_view(out@) + diff_of(bv.skip(i + 1), nv.skip(j + 1))
                                =~= acc + rest);
                        }
                    } else {
                        proof {
                            assert(rest == diff_of(bv.skip(i + 1), nv.skip(j + 1)));
                        }
                    }
                    i = i + 1;
                    j = j + 1;
                },
                PathOrdering::Less => {
                    let e = &before[i];
                    out.push(
                        Diff {
                            path: clone_bytes(&e.path),
                            change: ChangeType::Removed,
                            hash: e.meta.hash,
                            modified_ts: e.meta.modified_ts,
                        },
                    );
                    proof {
                        assert(rest == seq![removed_of(bv[i as int])] + diff_of(
                            bv.skip(i + 1),
                            nv.skip(j as int),
                        ));
                        assert(diffs_view(out@) =~= acc + seq![removed_of(bv[i as int])]);
                        assert(diffs_view(out@) + diff_of(bv.skip(i + 1), nv.skip(j as int))
                            =~= acc + rest);
                    }
                    i = i + 1;
                },
                PathOrdering::Greater => {
                    let e = &now[j];
                    out.push(
                        Diff {
                            path: clone_bytes(&e.path),
                            change: ChangeType::Added,
                            hash: e.meta.hash,
                            modified_ts: e.meta.modified_ts,
                        },
                    );
                    proof {
                        assert(rest == seq![added_of(nv[j as int])] + diff_of(
                            bv.skip(i as int),
                            nv.skip(j + 1),
                        ));
                        assert(diffs_view(out@) =~= acc + seq![added_of(nv[j as int])]);
                        assert(diffs_view(out@) + diff_of(bv.skip(i as int), nv.skip(j + 1))
                            =~= acc + rest);
                    }
                    j = j + 1;
                },
            }
        }
    }
    proof {
        assert(bv.skip(bv.len() as int).len() == 0);
        assert(nv.skip(nv.len() as int).len() == 0);
        assert(diffs_view(out@) + diff_of(bv.skip(i as int), nv.skip(j as int)) =~= diffs_view(
            out@,
        ));
    }
    out
}

} // verus!
