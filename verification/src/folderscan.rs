//! Scanning a directory tree for directories whose base name matches a
//! pattern, pruning traversal beneath every match; and partitioning a batch
//! removal into the paths that were removed and the paths that failed.
//!
//! A path is modelled as its components, root-most first, so that "`b` lies
//! beneath `a`" is exactly "`a`'s components are a prefix of `b`'s".

use vstd::prelude::*;
use crate::filters::Filters;

verus! {

/// `a`'s components are a prefix of `b`'s: `b` names `a` itself or
/// something beneath `a`.
pub open spec fn is_prefix_of(a: Seq<Seq<char>>, b: Seq<Seq<char>>) -> bool {
    a.len() <= b.len() && forall|k: int| 0 <= k < a.len() ==> a[k] == b[k]
}

/// `b` names a strict descendant of `a`.
pub open spec fn is_strict_ancestor_of(a: Seq<Seq<char>>, b: Seq<Seq<char>>) -> bool {
    a.len() < b.len() && is_prefix_of(a, b)
}

/// What a walk reports one filesystem entry to be. A symlink is reported
/// as `Symlink` even when its target is a directory: it is never descended
/// into and never matched.
#[derive(Clone, Copy)]
pub enum EntryKind {
    Directory,
    File,
    Symlink,
}

/// One visited filesystem entry: its path as components from the walk
/// root, root-most first, and its kind.
pub struct Entry {
    pub path: Vec<String>,
    pub kind: EntryKind,
}

/// The entry is a directory whose base name equals one of the patterns.
pub open spec fn entry_matches(e: Entry, patterns: Seq<Seq<char>>) -> bool {
    &&& e.kind is Directory
    &&& e.path.deep_view().len() > 0
    &&& patterns.contains(e.path.deep_view().last())
}

/// Entry `j` lies at or beneath an earlier matching entry.
pub open spec fn pruned_at(entries: Seq<Entry>, patterns: Seq<Seq<char>>, j: int) -> bool {
    exists|i: int|
        0 <= i < j && #[trigger] entry_matches(entries[i], patterns) && is_prefix_of(
            entries[i].path.deep_view(),
            entries[j].path.deep_view(),
        )
}

/// Entry `j` is recorded by a scan: it matches and no earlier matching
/// entry covers it.
pub open spec fn kept_at(entries: Seq<Entry>, patterns: Seq<Seq<char>>, j: int) -> bool {
    entry_matches(entries[j], patterns) && !pruned_at(entries, patterns, j)
}

/// The indices of the entries a scan records, in discovery order.
pub open spec fn kept_indices(entries: Seq<Entry>, patterns: Seq<Seq<char>>) -> Seq<int>
    decreases entries.len(),
{
    if entries.len() == 0 {
        Seq::empty()
    } else if kept_at(entries, patterns, entries.len() - 1) {
        kept_indices(entries.drop_last(), patterns).push(entries.len() - 1)
    } else {
        kept_indices(entries.drop_last(), patterns)
    }
}

/// What a scan of `entries` under `patterns` reports: the recorded
/// entries' paths, in discovery order.
pub open spec fn spec_scan(entries: Seq<Entry>, patterns: Seq<Seq<char>>) -> Seq<Seq<Seq<char>>> {
    kept_indices(entries, patterns).map_values(|j: int| entries[j].path.deep_view())
}

/// No entry is a strict ancestor of an entry that came before it: what any
/// walk that yields a directory before its contents guarantees.
pub open spec fn ancestors_first(entries: Seq<Entry>) -> bool {
    forall|i: int, j: int|
        0 <= i < j < entries.len() ==> !is_strict_ancestor_of(
            #[trigger] entries[j].path.deep_view(),
            #[trigger] entries[i].path.deep_view(),
        )
}

/// No two entries report the same path: what any walk of a tree that
/// visits each entry once guarantees.
pub open spec fn distinct_paths(entries: Seq<Entry>) -> bool {
    forall|i: int, j: int|
        0 <= i < entries.len() && 0 <= j < entries.len() && i != j
            ==> #[trigger] entries[i].path.deep_view() != #[trigger] entries[j].path.deep_view()
}

/// Whether `a`'s components are a prefix of `b`'s.
pub fn path_is_prefix_of(a: &Vec<String>, b: &Vec<String>) -> (r: bool)
    ensures
        r == is_prefix_of(a.deep_view(), b.deep_view()),
{
    if a.len() > b.len() {
        return false;
    }
    let mut k: usize = 0;
    while k < a.len()
        invariant
            k <= a.len() <= b.len(),
            forall|t: int| 0 <= t < k ==> a.deep_view()[t] == b.deep_view()[t],
        decreases a.len() - k,
    {
        if !(a[k] == b[k]) {
            proof {
                assert(a.deep_view()[k as int] != b.deep_view()[k as int]);
            }
            return false;
        }
        k += 1;
    }
    true
}

/// Whether some already recorded path covers `path`: equals it or is an
/// ancestor of it.
fn covered_by_any(recorded: &Vec<Vec<String>>, path: &Vec<String>) -> (r: bool)
    ensures
        r == exists|n: int|
            0 <= n < recorded.deep_view().len() && is_prefix_of(
                #[trigger] recorded.deep_view()[n],
                path.deep_view(),
            ),
{
    let mut n: usize = 0;
    while n < recorded.len()
        invariant
            n <= recorded.len(),
            forall|t: int|
                0 <= t < n ==> !is_prefix_of(#[trigger] recorded.deep_view()[t], path.deep_view()),
        decreases recorded.len() - n,
    {
        if path_is_prefix_of(&recorded[n], path) {
            proof {
                assert(recorded.deep_view()[n as int] == recorded@[n as int].deep_view());
            }
            return true;
        }
        n += 1;
    }
    false
}

/// Whether `name` equals one of the patterns.
fn name_matches(filters: &Filters, name: &String) -> (r: bool)
    ensures
        r == filters@.contains(name@),
{
    let values = filters.list();
    let mut t: usize = 0;
    while t < values.len()
        invariant
            t <= values.len(),
            values.deep_view() == filters@,
            forall|k: int| 0 <= k < t ==> filters@[k] != name@,
        decreases values.len() - t,
    {
        if values[t] == *name {
            proof {
                assert(filters@[t as int] == name@);
            }
            return true;
        }
        proof {
            assert(filters@[t as int] == values@[t as int]@);
        }
        t += 1;
    }
    false
}

proof fn lemma_prefix_transitive(a: Seq<Seq<char>>, b: Seq<Seq<char>>, c: Seq<Seq<char>>)
    requires
        is_prefix_of(a, b),
        is_prefix_of(b, c),
    ensures
        is_prefix_of(a, c),
{
}

/// `kept_at` and `pruned_at` at `j` read only the entries up to `j`, so any
/// extension of the list agrees with it there.
proof fn lemma_kept_stable(e1: Seq<Entry>, e2: Seq<Entry>, patterns: Seq<Seq<char>>, j: int)
    requires
        0 <= j < e1.len(),
        e1.len() <= e2.len(),
        forall|k: int| 0 <= k < e1.len() ==> e1[k] == e2[k],
    ensures
        pruned_at(e1, patterns, j) == pruned_at(e2, patterns, j),
        kept_at(e1, patterns, j) == kept_at(e2, patterns, j),
{
    if pruned_at(e1, patterns, j) {
        let i = choose|i: int|
            0 <= i < j && #[trigger] entry_matches(e1[i], patterns) && is_prefix_of(
                e1[i].path.deep_view(),
                e1[j].path.deep_view(),
            );
        assert(entry_matches(e2[i], patterns));
        assert(pruned_at(e2, patterns, j));
    }
    if pruned_at(e2, patterns, j) {
        let i = choose|i: int|
            0 <= i < j && #[trigger] entry_matches(e2[i], patterns) && is_prefix_of(
                e2[i].path.deep_view(),
                e2[j].path.deep_view(),
            );
        assert(entry_matches(e1[i], patterns));
        assert(pruned_at(e1, patterns, j));
    }
}

/// Every recorded index is in range, is genuinely kept, and the indices
/// come in strictly increasing order.
proof fn lemma_kept_indices_props(entries: Seq<Entry>, patterns: Seq<Seq<char>>)
    ensures
        forall|n: int|
            0 <= n < kept_indices(entries, patterns).len() ==> 0 <= #[trigger] kept_indices(
                entries,
                patterns,
            )[n] < entries.len() && kept_at(entries, patterns, kept_indices(entries, patterns)[n]),
        forall|n1: int, n2: int|
            0 <= n1 < n2 < kept_indices(entries, patterns).len() ==> #[trigger] kept_indices(
                entries,
                patterns,
            )[n1] < #[trigger] kept_indices(entries, patterns)[n2],
    decreases entries.len(),
{
    if entries.len() == 0 {
        assert(kept_indices(entries, patterns) =~= Seq::<int>::empty());
    } else {
        let last = entries.len() - 1;
        let prev = entries.drop_last();
        lemma_kept_indices_props(prev, patterns);
        assert forall|j: int| 0 <= j < prev.len() implies #[trigger] kept_at(prev, patterns, j)
            == kept_at(entries, patterns, j) by {
            lemma_kept_stable(prev, entries, patterns, j);
        }
        let ki = kept_indices(entries, patterns);
        let kp = kept_indices(prev, patterns);
        if kept_at(entries, patterns, last) {
            assert(ki == kp.push(last));
            assert forall|n: int| 0 <= n < ki.len() implies 0 <= #[trigger] ki[n] < entries.len()
                && kept_at(entries, patterns, ki[n]) by {
                if n < kp.len() {
                    assert(ki[n] == kp[n]);
                } else {
                    assert(ki[n] == last);
                }
            }
            assert forall|n1: int, n2: int| 0 <= n1 < n2 < ki.len() implies #[trigger] ki[n1]
                < #[trigger] ki[n2] by {
                if n2 < kp.len() {
                    assert(ki[n1] == kp[n1] && ki[n2] == kp[n2]);
                } else {
                    assert(ki[n2] == last);
                    assert(ki[n1] == kp[n1] && 0 <= kp[n1] < prev.len());
                }
            }
        } else {
            assert(ki == kp);
            assert forall|n: int| 0 <= n < ki.len() implies 0 <= #[trigger] ki[n] < entries.len()
                && kept_at(entries, patterns, ki[n]) by {
                assert(ki[n] == kp[n]);
            }
        }
    }
}

/// Every kept entry's index is recorded.
proof fn lemma_kept_indices_complete(entries: Seq<Entry>, patterns: Seq<Seq<char>>, j: int)
    requires
        0 <= j < entries.len(),
        kept_at(entries, patterns, j),
    ensures
        kept_indices(entries, patterns).contains(j),
    decreases entries.len(),
{
    let ki = kept_indices(entries, patterns);
    if j == entries.len() - 1 {
        assert(ki.last() == j);
        assert(ki[ki.len() - 1] == j);
    } else {
        let prev = entries.drop_last();
        lemma_kept_stable(prev, entries, patterns, j);
        lemma_kept_indices_complete(prev, patterns, j);
        let n = choose|n: int|
            0 <= n < kept_indices(prev, patterns).len() && kept_indices(prev, patterns)[n] == j;
        assert(ki[n] == j);
    }
}

/// Every matching entry is covered by some recorded path: itself, or a
/// recorded ancestor.
proof fn lemma_scan_covered(entries: Seq<Entry>, patterns: Seq<Seq<char>>, j: int)
    requires
        0 <= j < entries.len(),
        entry_matches(entries[j], patterns),
    ensures
        exists|n: int|
            0 <= n < kept_indices(entries, patterns).len() && is_prefix_of(
                entries[#[trigger] kept_indices(entries, patterns)[n]].path.deep_view(),
                entries[j].path.deep_view(),
            ),
    decreases j,
{
    let ki = kept_indices(entries, patterns);
    if kept_at(entries, patterns, j) {
        lemma_kept_indices_complete(entries, patterns, j);
        let n = choose|n: int| 0 <= n < ki.len() && ki[n] == j;
        assert(is_prefix_of(entries[ki[n]].path.deep_view(), entries[j].path.deep_view()));
    } else {
        let i = choose|i: int|
            0 <= i < j && #[trigger] entry_matches(entries[i], patterns) && is_prefix_of(
                entries[i].path.deep_view(),
                entries[j].path.deep_view(),
            );
        lemma_scan_covered(entries, patterns, i);
        let n = choose|n: int|
            0 <= n < ki.len() && is_prefix_of(
                entries[ki[n]].path.deep_view(),
                entries[i].path.deep_view(),
            );
        lemma_prefix_transitive(
            entries[ki[n]].path.deep_view(),
            entries[i].path.deep_view(),
            entries[j].path.deep_view(),
        );
        assert(is_prefix_of(entries[ki[n]].path.deep_view(), entries[j].path.deep_view()));
    }
}

/// The recorded paths of the first `i` entries cover entry `i` exactly when
/// some earlier matching entry covers it.
proof fn lemma_prune_check(entries: Seq<Entry>, patterns: Seq<Seq<char>>, i: int)
    requires
        0 <= i < entries.len(),
    ensures
        (exists|n: int|
            0 <= n < spec_scan(entries.take(i), patterns).len() && is_prefix_of(
                #[trigger] spec_scan(entries.take(i), patterns)[n],
                entries[i].path.deep_view(),
            )) <==> pruned_at(entries, patterns, i),
{
    let s = entries.take(i);
    let ki = kept_indices(s, patterns);
    lemma_kept_indices_props(s, patterns);
    if exists|n: int|
        0 <= n < spec_scan(s, patterns).len() && is_prefix_of(
            #[trigger] spec_scan(s, patterns)[n],
            entries[i].path.deep_view(),
        ) {
        let n = choose|n: int|
            0 <= n < spec_scan(s, patterns).len() && is_prefix_of(
                #[trigger] spec_scan(s, patterns)[n],
                entries[i].path.deep_view(),
            );
        let j = ki[n];
        assert(s[j] == entries[j]);
        assert(entry_matches(entries[j], patterns));
        assert(spec_scan(s, patterns)[n] == entries[j].path.deep_view());
        assert(pruned_at(entries, patterns, i));
    }
    if pruned_at(entries, patterns, i) {
        let j = choose|j: int|
            0 <= j < i && #[trigger] entry_matches(entries[j], patterns) && is_prefix_of(
                entries[j].path.deep_view(),
                entries[i].path.deep_view(),
            );
        assert(s[j] == entries[j]);
        lemma_scan_covered(s, patterns, j);
        let n = choose|n: int|
            0 <= n < ki.len() && is_prefix_of(
                s[ki[n]].path.deep_view(),
                s[j].path.deep_view(),
            );
        lemma_prefix_transitive(
            s[ki[n]].path.deep_view(),
            s[j].path.deep_view(),
            entries[i].path.deep_view(),
        );
        assert(spec_scan(s, patterns)[n] == s[ki[n]].path.deep_view());
        assert(is_prefix_of(spec_scan(s, patterns)[n], entries[i].path.deep_view()));
    }
}

/// Extending the scanned prefix by one entry extends the result by that
/// entry's path exactly when the entry is kept.
proof fn lemma_scan_step(entries: Seq<Entry>, patterns: Seq<Seq<char>>, i: int)
    requires
        0 <= i < entries.len(),
    ensures
        spec_scan(entries.take(i + 1), patterns) == (if kept_at(entries, patterns, i) {
            spec_scan(entries.take(i), patterns).push(entries[i].path.deep_view())
        } else {
            spec_scan(entries.take(i), patterns)
        }),
{
    let s1 = entries.take(i + 1);
    let s0 = entries.take(i);
    assert(s1.drop_last() =~= s0);
    assert(s1.drop_last() == s0);
    lemma_kept_stable(s1, entries, patterns, i);
    assert(kept_indices(s1, patterns) == (if kept_at(s1, patterns, i) {
        kept_indices(s0, patterns).push(i)
    } else {
        kept_indices(s0, patterns)
    }));
    lemma_kept_indices_props(s0, patterns);
    if kept_at(entries, patterns, i) {
        assert(spec_scan(s1, patterns) =~= spec_scan(s0, patterns).push(
            entries[i].path.deep_view(),
        ));
    } else {
        assert(spec_scan(s1, patterns) =~= spec_scan(s0, patterns));
    }
}

/// Scans a list of walked entries: records every directory entry whose base
/// name matches a pattern and which no earlier recorded match covers, in
/// discovery order.
pub fn scan_entries(entries: &Vec<Entry>, filters: &Filters) -> (matches: Vec<Vec<String>>)
    ensures
        matches.deep_view() == spec_scan(entries@, filters@),
{
    let mut matches: Vec<Vec<String>> = Vec::new();
    proof {
        assert(entries@.take(0) =~= Seq::<Entry>::empty());
        assert(matches.deep_view() =~= spec_scan(entries@.take(0), filters@));
    }
    let mut i: usize = 0;
    while i < entries.len()
        invariant
            i <= entries.len(),
            matches.deep_view() == spec_scan(entries@.take(i as int), filters@),
        decreases entries.len() - i,
    {
        let e = &entries[i];
        let pruned = covered_by_any(&matches, &e.path);
        proof {
            lemma_prune_check(entries@, filters@, i as int);
            assert(pruned == pruned_at(entries@, filters@, i as int));
        }
        let mut recorded = false;
        if !pruned {
            if matches!(e.kind, EntryKind::Directory) && e.path.len() > 0 {
                let name = &e.path[e.path.len() - 1];
                proof {
                    assert(name@ == e.path.deep_view().last());
                }
                if name_matches(filters, name) {
                    let ghost before = matches.deep_view();
                    matches.push(e.path.clone());
                    recorded = true;
                    proof {
                        assert(matches.deep_view() =~= before.push(e.path.deep_view()));
                    }
                }
            }
        }
        proof {
            assert(recorded == kept_at(entries@, filters@, i as int));
            lemma_scan_step(entries@, filters@, i as int);
        }
        i += 1;
    }
    proof {
        assert(entries@.take(entries@.len() as int) =~= entries@);
    }
    matches
}

/// Pruning invariant: when the walk yields every directory before its
/// contents, no reported path equals another or lies beneath another.
pub proof fn lemma_scan_pruning_invariant(entries: Seq<Entry>, patterns: Seq<Seq<char>>)
    requires
        ancestors_first(entries),
    ensures
        forall|n1: int, n2: int|
            0 <= n1 < spec_scan(entries, patterns).len() && 0 <= n2 < spec_scan(
                entries,
                patterns,
            ).len() && n1 != n2 ==> !is_prefix_of(
                #[trigger] spec_scan(entries, patterns)[n1],
                #[trigger] spec_scan(entries, patterns)[n2],
            ),
{
    let ki = kept_indices(entries, patterns);
    lemma_kept_indices_props(entries, patterns);
    assert forall|n1: int, n2: int|
        0 <= n1 < spec_scan(entries, patterns).len() && 0 <= n2 < spec_scan(entries, patterns).len()
            && n1 != n2 implies !is_prefix_of(
        #[trigger] spec_scan(entries, patterns)[n1],
        #[trigger] spec_scan(entries, patterns)[n2],
    ) by {
        let j1 = ki[n1];
        let j2 = ki[n2];
        let a = entries[j1].path.deep_view();
        let b = entries[j2].path.deep_view();
        if is_prefix_of(a, b) {
            if n1 < n2 {
                assert(j1 < j2);
                assert(pruned_at(entries, patterns, j2));
            } else {
                assert(j2 < j1);
                if a.len() == b.len() {
                    assert(a =~= b);
                    assert(is_prefix_of(b, a));
                    assert(pruned_at(entries, patterns, j1));
                } else {
                    assert(is_strict_ancestor_of(a, b));
                }
            }
        }
    }
}

/// A scan never reports the same path twice.
pub proof fn lemma_scan_no_duplicates(entries: Seq<Entry>, patterns: Seq<Seq<char>>)
    ensures
        forall|n1: int, n2: int|
            0 <= n1 < spec_scan(entries, patterns).len() && 0 <= n2 < spec_scan(
                entries,
                patterns,
            ).len() && n1 != n2 ==> #[trigger] spec_scan(entries, patterns)[n1]
                != #[trigger] spec_scan(entries, patterns)[n2],
{
    let ki = kept_indices(entries, patterns);
    lemma_kept_indices_props(entries, patterns);
    assert forall|n1: int, n2: int|
        0 <= n1 < spec_scan(entries, patterns).len() && 0 <= n2 < spec_scan(entries, patterns).len()
            && n1 != n2 implies #[trigger] spec_scan(entries, patterns)[n1]
        != #[trigger] spec_scan(entries, patterns)[n2] by {
        let low = if n1 < n2 { n1 } else { n2 };
        let high = if n1 < n2 { n2 } else { n1 };
        let j1 = ki[low];
        let j2 = ki[high];
        assert(j1 < j2);
        if spec_scan(entries, patterns)[n1] == spec_scan(entries, patterns)[n2] {
            assert(entries[j1].path.deep_view() == entries[j2].path.deep_view());
            assert(is_prefix_of(entries[j1].path.deep_view(), entries[j2].path.deep_view()));
            assert(pruned_at(entries, patterns, j2));
        }
    }
}

/// Soundness: the `n`th reported path is the path of a matching directory
/// entry that no earlier matching entry covers.
pub proof fn lemma_scan_sound(entries: Seq<Entry>, patterns: Seq<Seq<char>>, n: int)
    requires
        0 <= n < spec_scan(entries, patterns).len(),
    ensures
        0 <= kept_indices(entries, patterns)[n] < entries.len(),
        kept_at(entries, patterns, kept_indices(entries, patterns)[n]),
        spec_scan(entries, patterns)[n] == entries[kept_indices(
            entries,
            patterns,
        )[n]].path.deep_view(),
{
    lemma_kept_indices_props(entries, patterns);
}

/// Completeness: when no two entries share a path, every directory entry
/// whose name matches and which lies beneath no other matching entry is
/// reported.
pub proof fn lemma_scan_complete(entries: Seq<Entry>, patterns: Seq<Seq<char>>, j: int)
    requires
        distinct_paths(entries),
        0 <= j < entries.len(),
        entry_matches(entries[j], patterns),
        forall|i: int|
            0 <= i < entries.len() && #[trigger] entry_matches(entries[i], patterns)
                ==> !is_strict_ancestor_of(
                entries[i].path.deep_view(),
                entries[j].path.deep_view(),
            ),
    ensures
        spec_scan(entries, patterns).contains(entries[j].path.deep_view()),
{
    let ki = kept_indices(entries, patterns);
    if pruned_at(entries, patterns, j) {
        let i = choose|i: int|
            0 <= i < j && #[trigger] entry_matches(entries[i], patterns) && is_prefix_of(
                entries[i].path.deep_view(),
                entries[j].path.deep_view(),
            );
        let a = entries[i].path.deep_view();
        let b = entries[j].path.deep_view();
        if a.len() == b.len() {
            assert(a =~= b);
            assert(false);
        } else {
            assert(is_strict_ancestor_of(a, b));
            assert(false);
        }
    }
    lemma_kept_indices_complete(entries, patterns, j);
    lemma_kept_indices_props(entries, patterns);
    let n = choose|n: int| 0 <= n < ki.len() && ki[n] == j;
    assert(spec_scan(entries, patterns)[n] == entries[j].path.deep_view());
}

/// `pruned_at` depends only on the entries' path views and on which entries
/// are directories.
proof fn lemma_pruned_deterministic(e1: Seq<Entry>, e2: Seq<Entry>, patterns: Seq<Seq<char>>, j: int)
    requires
        e1.len() == e2.len(),
        0 <= j < e1.len(),
        forall|i: int|
            0 <= i < e1.len() ==> #[trigger] e1[i].path.deep_view() == e2[i].path.deep_view(),
        forall|i: int| 0 <= i < e1.len() ==> ((#[trigger] e1[i].kind) is Directory <==> e2[i].kind is Directory),
    ensures
        pruned_at(e1, patterns, j) == pruned_at(e2, patterns, j),
        entry_matches(e1[j], patterns) == entry_matches(e2[j], patterns),
{
    assert forall|i: int| 0 <= i < e1.len() implies #[trigger] entry_matches(e1[i], patterns)
        == entry_matches(e2[i], patterns) by {
        assert(e1[i].path.deep_view() == e2[i].path.deep_view());
    }
    if pruned_at(e1, patterns, j) {
        let i = choose|i: int|
            0 <= i < j && #[trigger] entry_matches(e1[i], patterns) && is_prefix_of(
                e1[i].path.deep_view(),
                e1[j].path.deep_view(),
            );
        assert(entry_matches(e2[i], patterns) && is_prefix_of(
            e2[i].path.deep_view(),
            e2[j].path.deep_view(),
        ));
        assert(pruned_at(e2, patterns, j));
    }
    if pruned_at(e2, patterns, j) {
        let i = choose|i: int|
            0 <= i < j && #[trigger] entry_matches(e2[i], patterns) && is_prefix_of(
                e2[i].path.deep_view(),
                e2[j].path.deep_view(),
            );
        assert(entry_matches(e1[i], patterns) && is_prefix_of(
            e1[i].path.deep_view(),
            e1[j].path.deep_view(),
        ));
        assert(pruned_at(e1, patterns, j));
    }
}

proof fn lemma_kept_indices_deterministic(e1: Seq<Entry>, e2: Seq<Entry>, patterns: Seq<Seq<char>>)
    requires
        e1.len() == e2.len(),
        forall|i: int|
            0 <= i < e1.len() ==> #[trigger] e1[i].path.deep_view() == e2[i].path.deep_view(),
        forall|i: int| 0 <= i < e1.len() ==> ((#[trigger] e1[i].kind) is Directory <==> e2[i].kind is Directory),
    ensures
        kept_indices(e1, patterns) == kept_indices(e2, patterns),
    decreases e1.len(),
{
    if e1.len() == 0 {
        assert(kept_indices(e1, patterns) =~= kept_indices(e2, patterns));
    } else {
        let last = e1.len() - 1;
        lemma_kept_indices_deterministic(e1.drop_last(), e2.drop_last(), patterns);
        lemma_pruned_deterministic(e1, e2, patterns, last);
        assert(kept_at(e1, patterns, last) == kept_at(e2, patterns, last));
    }
}

/// Idempotent re-scan: two walks that report the same paths and the same
/// directories, in the same order, are pruned to the same result, whatever
/// else differs between the two runs.
pub proof fn lemma_scan_deterministic(e1: Seq<Entry>, e2: Seq<Entry>, patterns: Seq<Seq<char>>)
    requires
        e1.len() == e2.len(),
        forall|i: int|
            0 <= i < e1.len() ==> #[trigger] e1[i].path.deep_view() == e2[i].path.deep_view(),
        forall|i: int| 0 <= i < e1.len() ==> ((#[trigger] e1[i].kind) is Directory <==> e2[i].kind is Directory),
    ensures
        spec_scan(e1, patterns) == spec_scan(e2, patterns),
{
    lemma_kept_indices_deterministic(e1, e2, patterns);
    lemma_kept_indices_props(e1, patterns);
    assert(spec_scan(e1, patterns) =~= spec_scan(e2, patterns));
}

/// Relies on `walkdir::WalkDir`: a depth-first walk of the tree rooted at
/// the joined components of `root`, yielding each reachable entry exactly
/// once and every directory before its contents, never following symlinked
/// directories, and silently skipping entries it cannot read. Each entry is
/// handed back as its path components plus its kind; an entry whose path is
/// not valid Unicode is skipped.
#[verifier::external_body]
fn walk_tree(root: &Vec<String>) -> (entries: Vec<Entry>)
    ensures
        ancestors_first(entries@),
        distinct_paths(entries@),
{
    let root_path: std::path::PathBuf = root.iter().collect();
    walkdir::WalkDir::new(&root_path).follow_links(false).into_iter().filter_map(|r| r.ok())
        .filter_map(|e| {
            let ft = e.file_type();
            let kind = if ft.is_dir() {
                EntryKind::Directory
            } else if ft.is_symlink() {
                EntryKind::Symlink
            } else {
                EntryKind::File
            };
            let p: Option<Vec<String>> =
                e.path().iter().map(|c| c.to_str().map(|s| s.to_string())).collect();
            p.map(|path| Entry { path, kind })
        }).collect()
}

/// Walks the tree rooted at `root` (a path given as its components) and
/// reports every directory whose base name equals one of the patterns and
/// which does not lie beneath another reported directory, in discovery
/// order. A root that does not exist yields no matches; unreadable entries
/// are skipped, not fatal.
pub fn scan_folders(root: &Vec<String>, filters: &Filters) -> (matches: Vec<Vec<String>>)
    ensures
        exists|entries: Seq<Entry>|
            ancestors_first(entries) && distinct_paths(entries) && matches.deep_view()
                == spec_scan(entries, filters@),
        forall|n1: int, n2: int|
            0 <= n1 < matches.deep_view().len() && 0 <= n2 < matches.deep_view().len() && n1 != n2
                ==> !is_prefix_of(
                #[trigger] matches.deep_view()[n1],
                #[trigger] matches.deep_view()[n2],
            ),
{
    let entries = walk_tree(root);
    let matches = scan_entries(&entries, filters);
    proof {
        lemma_scan_pruning_invariant(entries@, filters@);
        assert(ancestors_first(entries@) && distinct_paths(entries@) && matches.deep_view()
            == spec_scan(entries@, filters@));
    }
    matches
}

/// The paths among `paths` whose outcome equals `ok`, in input order.
pub open spec fn picked(paths: Seq<Seq<Seq<char>>>, outcomes: Seq<bool>, ok: bool) -> Seq<
    Seq<Seq<char>>,
>
    decreases paths.len(),
{
    if paths.len() == 0 || outcomes.len() == 0 {
        Seq::empty()
    } else if outcomes.last() == ok {
        picked(paths.drop_last(), outcomes.drop_last(), ok).push(paths.last())
    } else {
        picked(paths.drop_last(), outcomes.drop_last(), ok)
    }
}

/// Partitions a batch of removal attempts: the paths whose attempt
/// succeeded, then the paths whose attempt failed, each in input order.
pub fn partition_removals(paths: &Vec<Vec<String>>, outcomes: &Vec<bool>) -> (r: (
    Vec<Vec<String>>,
    Vec<Vec<String>>,
))
    requires
        paths@.len() == outcomes@.len(),
    ensures
        r.0.deep_view() == picked(paths.deep_view(), outcomes@, true),
        r.1.deep_view() == picked(paths.deep_view(), outcomes@, false),
{
    let ghost all = paths.deep_view();
    let mut removed: Vec<Vec<String>> = Vec::new();
    let mut failed: Vec<Vec<String>> = Vec::new();
    proof {
        assert(all.take(0) =~= Seq::<Seq<Seq<char>>>::empty());
        assert(outcomes@.take(0) =~= Seq::<bool>::empty());
        assert(removed.deep_view() =~= picked(all.take(0), outcomes@.take(0), true));
        assert(failed.deep_view() =~= picked(all.take(0), outcomes@.take(0), false));
    }
    let mut i: usize = 0;
    while i < paths.len()
        invariant
            i <= paths.len(),
            paths@.len() == outcomes@.len(),
            all == paths.deep_view(),
            removed.deep_view() == picked(all.take(i as int), outcomes@.take(i as int), true),
            failed.deep_view() == picked(all.take(i as int), outcomes@.take(i as int), false),
        decreases paths.len() - i,
    {
        proof {
            assert(all[i as int] == paths@[i as int].deep_view());
        }
        if outcomes[i] {
            let ghost before = removed.deep_view();
            removed.push(paths[i].clone());
            proof {
                assert(removed.deep_view() =~= before.push(all[i as int]));
            }
        } else {
            let ghost before = failed.deep_view();
            failed.push(paths[i].clone());
            proof {
                assert(failed.deep_view() =~= before.push(all[i as int]));
            }
        }
        proof {
            let p1 = all.take(i as int + 1);
            let o1 = outcomes@.take(i as int + 1);
            assert(p1.drop_last() =~= all.take(i as int));
            assert(p1.drop_last() == all.take(i as int));
            assert(o1.drop_last() =~= outcomes@.take(i as int));
            assert(o1.drop_last() == outcomes@.take(i as int));
            assert(p1.last() == all[i as int]);
            assert(o1.last() == outcomes@[i as int]);
            assert(removed.deep_view() == picked(p1, o1, true));
            assert(failed.deep_view() == picked(p1, o1, false));
        }
        i += 1;
    }
    proof {
        assert(all.take(paths@.len() as int) =~= all);
        assert(outcomes@.take(paths@.len() as int) =~= outcomes@);
    }
    (removed, failed)
}

/// Partition laws: one attempt per input path, so the two output lengths
/// sum to the input length; together the outputs hold exactly the input
/// paths, each exactly as often as it was passed in; and every output path
/// is an input path.
pub proof fn lemma_partition_counts(paths: Seq<Seq<Seq<char>>>, outcomes: Seq<bool>)
    requires
        paths.len() == outcomes.len(),
    ensures
        picked(paths, outcomes, true).len() + picked(paths, outcomes, false).len() == paths.len(),
        picked(paths, outcomes, true).to_multiset().add(picked(paths, outcomes, false).to_multiset())
            == paths.to_multiset(),
        forall|q: Seq<Seq<char>>|
            #[trigger] picked(paths, outcomes, true).contains(q) ==> paths.contains(q),
        forall|q: Seq<Seq<char>>|
            #[trigger] picked(paths, outcomes, false).contains(q) ==> paths.contains(q),
    decreases paths.len(),
{
    broadcast use vstd::seq_lib::group_to_multiset_ensures;
    broadcast use vstd::multiset::group_multiset_axioms;

    let t = picked(paths, outcomes, true);
    let f = picked(paths, outcomes, false);
    if paths.len() == 0 {
        assert(t.to_multiset().add(f.to_multiset()) =~= paths.to_multiset());
    } else {
        let pd = paths.drop_last();
        let od = outcomes.drop_last();
        lemma_partition_counts(pd, od);
        assert(pd.push(paths.last()) =~= paths);
        assert(pd.push(paths.last()).to_multiset() == pd.to_multiset().insert(paths.last()));
        if outcomes.last() {
            assert(t == picked(pd, od, true).push(paths.last()));
            assert(t.to_multiset() == picked(pd, od, true).to_multiset().insert(paths.last()));
            assert(t.to_multiset().add(f.to_multiset()) =~= paths.to_multiset());
        } else {
            assert(f == picked(pd, od, false).push(paths.last()));
            assert(f.to_multiset() == picked(pd, od, false).to_multiset().insert(paths.last()));
            assert(t.to_multiset().add(f.to_multiset()) =~= paths.to_multiset());
        }
        assert forall|q: Seq<Seq<char>>| #[trigger] t.contains(q) implies paths.contains(q) by {
            assert(t.to_multiset().count(q) > 0);
            assert(paths.to_multiset().count(q) > 0);
        }
        assert forall|q: Seq<Seq<char>>| #[trigger] f.contains(q) implies paths.contains(q) by {
            assert(f.to_multiset().count(q) > 0);
            assert(paths.to_multiset().count(q) > 0);
        }
    }
}

/// When no input path is passed twice, no path lands both among the
/// removed and among the failed.
pub proof fn lemma_partition_disjoint(paths: Seq<Seq<Seq<char>>>, outcomes: Seq<bool>)
    requires
        paths.len() == outcomes.len(),
        paths.no_duplicates(),
    ensures
        forall|q: Seq<Seq<char>>|
            #[trigger] picked(paths, outcomes, true).contains(q) ==> !picked(
                paths,
                outcomes,
                false,
            ).contains(q),
{
    broadcast use vstd::seq_lib::group_to_multiset_ensures;
    broadcast use vstd::multiset::group_multiset_axioms;

    lemma_partition_counts(paths, outcomes);
    paths.lemma_multiset_has_no_duplicates();
    let t = picked(paths, outcomes, true);
    let f = picked(paths, outcomes, false);
    assert forall|q: Seq<Seq<char>>| #[trigger] t.contains(q) implies !f.contains(q) by {
        if f.contains(q) {
            assert(t.to_multiset().count(q) > 0);
            assert(f.to_multiset().count(q) > 0);
            assert(paths.to_multiset().count(q) >= 2);
            assert(paths.to_multiset().contains(q));
        }
    }
}

/// Narrows a scan result to the entries at the chosen indices, in the
/// order the indices are given.
pub fn select_by_indices(matches: &Vec<Vec<String>>, indices: &Vec<usize>) -> (selected: Vec<
    Vec<String>,
>)
    requires
        forall|t: int| 0 <= t < indices@.len() ==> #[trigger] indices@[t] < matches@.len(),
    ensures
        selected.deep_view().len() == indices@.len(),
        forall|t: int|
            0 <= t < indices@.len() ==> #[trigger] selected.deep_view()[t]
                == matches.deep_view()[indices@[t] as int],
{
    let mut selected: Vec<Vec<String>> = Vec::new();
    let mut t: usize = 0;
    while t < indices.len()
        invariant
            t <= indices.len(),
            forall|k: int| 0 <= k < indices@.len() ==> #[trigger] indices@[k] < matches@.len(),
            selected.deep_view().len() == t as int,
            forall|k: int|
                0 <= k < t ==> #[trigger] selected.deep_view()[k]
                    == matches.deep_view()[indices@[k] as int],
        decreases indices.len() - t,
    {
        let idx = indices[t];
        let ghost before = selected.deep_view();
        selected.push(matches[idx].clone());
        proof {
            assert(selected.deep_view() =~= before.push(matches@[idx as int].deep_view()));
            assert(matches.deep_view()[idx as int] == matches@[idx as int].deep_view());
        }
        t += 1;
    }
    selected
}

} // verus!
