//! What holds of the reports over every input: stated and proved here.
use vstd::prelude::*;
use crate::aggregate::{EntryView, Message, admitted, seen_after, lemma_admitted_fresh};
use crate::lex::{lex_lt, lemma_lex_irreflexive, lemma_sorted_exists, sorted_of, sorted_strict};
use crate::rolling::{seen_before, rep_before, rolling_over, rolling_rows};
use crate::report::{Mode, RowView, joined, digests_of, paths_of, group, tagged, rows_for, rows_over, report_rows};

verus! {

/// No path occurs in two entries.
pub open spec fn paths_unique(e: Seq<EntryView>) -> bool {
    forall|i: int, j: int| 0 <= i < j < e.len() ==> #[trigger] e[i].1 != #[trigger] e[j].1
}

proof fn lemma_sets_finite(e: Seq<EntryView>, d: Seq<char>)
    ensures
        digests_of(e).finite(),
        paths_of(e, d).finite(),
{
    let ds = e.map_values(|x: EntryView| x.0);
    let ps = e.map_values(|x: EntryView| x.1);
    assert(digests_of(e) =~= ds.to_set().intersect(digests_of(e))) by {
        assert forall|x: Seq<char>| digests_of(e).contains(x) implies ds.to_set().contains(x) by {
            let i = choose|i: int| 0 <= i < e.len() && #[trigger] e[i].0 == x;
            assert(ds[i] == x);
        }
    }
    assert(paths_of(e, d) =~= ps.to_set().intersect(paths_of(e, d))) by {
        assert forall|x: Seq<char>| paths_of(e, d).contains(x) implies ps.to_set().contains(x) by {
            let i = choose|i: int| 0 <= i < e.len() && #[trigger] e[i] == (d, x);
            assert(ps[i] == x);
        }
    }
}

/// The group of a digest is its paths, strictly sorted.
pub proof fn lemma_group(e: Seq<EntryView>, d: Seq<char>)
    ensures
        sorted_strict(group(e, d)),
        group(e, d).to_set() == paths_of(e, d),
        sorted_strict(sorted_of(digests_of(e))),
        sorted_of(digests_of(e)).to_set() == digests_of(e),
{
    lemma_sets_finite(e, d);
    lemma_sorted_exists(paths_of(e, d));
    lemma_sorted_exists(digests_of(e));
}

/// With unique paths, a path belongs to one digest only.
proof fn lemma_one_digest(e: Seq<EntryView>, d1: Seq<char>, d2: Seq<char>, p: Seq<char>)
    requires
        paths_unique(e),
        paths_of(e, d1).contains(p),
        paths_of(e, d2).contains(p),
    ensures
        d1 == d2,
{
    let i = choose|i: int| 0 <= i < e.len() && #[trigger] e[i] == (d1, p);
    let j = choose|j: int| 0 <= j < e.len() && #[trigger] e[j] == (d2, p);
    if i < j {
        assert(e[i].1 != e[j].1);
    } else if j < i {
        assert(e[j].1 != e[i].1);
    }
}

/// What a row of one digest's rows is, mode by mode.
proof fn lemma_row_facts(mode: Mode, d: Seq<char>, ps: Seq<Seq<char>>, r: RowView)
    requires
        sorted_strict(ps),
        rows_for(mode, d, ps).contains(r),
    ensures
        r.0 == d,
        ps.contains(r.1),
        mode == Mode::Uniques ==> ps.len() == 1 && r.1 == ps[0] && r.2 is None,
        mode == Mode::Duplicates ==> ps.len() > 1 && r.2 is None,
        mode == Mode::Firsts ==> r.1 == ps[0] && r.2 is None,
        mode == Mode::Replicas ==> ps.len() > 1 && r.1 != ps[0] && r.2 is None,
        mode == Mode::Plan ==> ps.len() > 1 && r.1 != ps[0] && r.2 == Some(ps[0]),
{
    let rf = rows_for(mode, d, ps);
    let k = choose|k: int| 0 <= k < rf.len() && rf[k] == r;
    match mode {
        Mode::Uniques => {
            assert(r.1 == ps[k]);
        },
        Mode::Duplicates => {
            assert(r.1 == ps[k]);
        },
        Mode::Firsts => {
            assert(r.1 == ps.take(1)[k]);
        },
        Mode::Replicas => {
            assert(r.1 == ps[k + 1]);
            assert(lex_lt(ps[0], ps[k + 1]));
            lemma_lex_irreflexive(ps[0]);
        },
        Mode::Plan => {
            assert(r.1 == ps[k + 1]);
            assert(lex_lt(ps[0], ps[k + 1]));
            lemma_lex_irreflexive(ps[0]);
        },
    }
}

/// The rows of one digest name distinct paths.
proof fn lemma_rows_for_distinct(mode: Mode, d: Seq<char>, ps: Seq<Seq<char>>)
    requires
        sorted_strict(ps),
    ensures
        forall|a: int, b: int| 0 <= a < b < rows_for(mode, d, ps).len() ==> #[trigger] rows_for(mode, d, ps)[a].1 != #[trigger] rows_for(mode, d, ps)[b].1,
{
    let rf = rows_for(mode, d, ps);
    assert forall|a: int, b: int| 0 <= a < b < rf.len() implies #[trigger] rf[a].1 != #[trigger] rf[b].1 by {
        match mode {
            Mode::Replicas => {
                assert(lex_lt(ps[a + 1], ps[b + 1]));
                lemma_lex_irreflexive(ps[a + 1]);
            },
            Mode::Plan => {
                assert(lex_lt(ps[a + 1], ps[b + 1]));
                lemma_lex_irreflexive(ps[a + 1]);
            },
            Mode::Duplicates => {
                assert(lex_lt(ps[a], ps[b]));
                lemma_lex_irreflexive(ps[a]);
            },
            _ => {},
        }
    }
}

/// Each row over `ds` is a row of one of the digests in `ds`.
proof fn lemma_rows_over_member(mode: Mode, e: Seq<EntryView>, ds: Seq<Seq<char>>, a: int)
    requires
        0 <= a < rows_over(mode, e, ds).len(),
    ensures
        ds.contains(rows_over(mode, e, ds)[a].0),
        rows_for(mode, rows_over(mode, e, ds)[a].0, group(e, rows_over(mode, e, ds)[a].0)).contains(rows_over(mode, e, ds)[a]),
    decreases ds.len(),
{
    let pre = rows_over(mode, e, ds.drop_last());
    let d = ds.last();
    let last = rows_for(mode, d, group(e, d));
    let r = rows_over(mode, e, ds)[a];
    if a < pre.len() {
        lemma_rows_over_member(mode, e, ds.drop_last(), a);
        assert(r == pre[a]);
        let j = choose|j: int| 0 <= j < ds.len() - 1 && ds.drop_last()[j] == r.0;
        assert(ds[j] == r.0);
    } else {
        assert(r == last[a - pre.len()]);
        lemma_group(e, d);
        lemma_row_facts(mode, d, group(e, d), r);
        assert(ds[ds.len() - 1] == r.0);
    }
}

/// Every row of a digest in `ds` is among the rows over `ds`.
proof fn lemma_rows_over_has(mode: Mode, e: Seq<EntryView>, ds: Seq<Seq<char>>, j: int, r: RowView)
    requires
        0 <= j < ds.len(),
        rows_for(mode, ds[j], group(e, ds[j])).contains(r),
    ensures
        rows_over(mode, e, ds).contains(r),
    decreases ds.len(),
{
    let pre = rows_over(mode, e, ds.drop_last());
    let last = rows_for(mode, ds.last(), group(e, ds.last()));
    let all = rows_over(mode, e, ds);
    if j < ds.len() - 1 {
        assert(ds.drop_last()[j] == ds[j]);
        lemma_rows_over_has(mode, e, ds.drop_last(), j, r);
        let k = choose|k: int| 0 <= k < pre.len() && pre[k] == r;
        assert(all[k] == r);
    } else {
        let k = choose|k: int| 0 <= k < last.len() && last[k] == r;
        assert(all[pre.len() + k] == r);
    }
}

/// With unique paths, the rows over distinct digests name distinct paths.
proof fn lemma_rows_over_distinct(mode: Mode, e: Seq<EntryView>, ds: Seq<Seq<char>>)
    requires
        paths_unique(e),
        ds.no_duplicates(),
    ensures
        forall|a: int, b: int| 0 <= a < b < rows_over(mode, e, ds).len() ==> #[trigger] rows_over(mode, e, ds)[a].1 != #[trigger] rows_over(mode, e, ds)[b].1,
    decreases ds.len(),
{
    if ds.len() > 0 {
        let pre = rows_over(mode, e, ds.drop_last());
        let d = ds.last();
        let last = rows_for(mode, d, group(e, d));
        let all = rows_over(mode, e, ds);
        assert(ds.drop_last().no_duplicates());
        lemma_rows_over_distinct(mode, e, ds.drop_last());
        lemma_group(e, d);
        lemma_rows_for_distinct(mode, d, group(e, d));
        assert forall|a: int, b: int| 0 <= a < b < all.len() implies #[trigger] all[a].1 != #[trigger] all[b].1 by {
            if b < pre.len() {
                assert(all[a] == pre[a] && all[b] == pre[b]);
            } else if a >= pre.len() {
                assert(all[a] == last[a - pre.len()] && all[b] == last[b - pre.len()]);
            } else {
                assert(all[a] == pre[a] && all[b] == last[b - pre.len()]);
                lemma_rows_over_member(mode, e, ds.drop_last(), a);
                let d1 = pre[a].0;
                lemma_group(e, d1);
                lemma_row_facts(mode, d1, group(e, d1), pre[a]);
                assert(last.contains(last[b - pre.len()]));
                lemma_row_facts(mode, d, group(e, d), all[b]);
                if all[a].1 == all[b].1 {
                    assert(group(e, d1).to_set().contains(all[a].1));
                    assert(group(e, d).to_set().contains(all[b].1));
                    lemma_one_digest(e, d1, d, all[a].1);
                    let j = choose|j: int| 0 <= j < ds.len() - 1 && ds.drop_last()[j] == d1;
                    assert(ds[j] == ds[ds.len() - 1]);
                }
            }
        }
    }
}

/// The guard's record after the batches of successive roots.
pub open spec fn run_seen(seen: Set<Seq<char>>, batches: Seq<Seq<Message>>) -> Set<Seq<char>>
    decreases batches.len(),
{
    if batches.len() == 0 {
        seen
    } else {
        seen_after(run_seen(seen, batches.drop_last()), batches.last())
    }
}

/// The entries of each root when the batches of successive roots are folded
/// through one guard.
pub open spec fn run_roots(seen: Set<Seq<char>>, batches: Seq<Seq<Message>>) -> Seq<Seq<EntryView>>
    decreases batches.len(),
{
    if batches.len() == 0 {
        Seq::empty()
    } else {
        run_roots(seen, batches.drop_last()).push(admitted(run_seen(seen, batches.drop_last()), batches.last()))
    }
}

/// The paths of the entries.
pub open spec fn entry_paths(e: Seq<EntryView>) -> Seq<Seq<char>> {
    e.map_values(|x: EntryView| x.1)
}

/// The paths of the rows.
pub open spec fn row_paths(r: Seq<RowView>) -> Seq<Seq<char>> {
    r.map_values(|x: RowView| x.1)
}

/// Folding the results of successive roots through one guard admits every
/// canonical path at most once over the whole run, and none that the guard
/// held before the run; each admitted path is then held by the guard.
pub proof fn lemma_run_admits_each_path_once(seen: Set<Seq<char>>, batches: Seq<Seq<Message>>)
    ensures
        paths_unique(joined(run_roots(seen, batches))),
        forall|i: int| 0 <= i < joined(run_roots(seen, batches)).len() ==> !seen.contains(#[trigger] joined(run_roots(seen, batches))[i].1),
        forall|i: int| 0 <= i < joined(run_roots(seen, batches)).len() ==> run_seen(seen, batches).contains(#[trigger] joined(run_roots(seen, batches))[i].1),
        seen.subset_of(run_seen(seen, batches)),
    decreases batches.len(),
{
    if batches.len() > 0 {
        let pre = batches.drop_last();
        lemma_run_admits_each_path_once(seen, pre);
        let s0 = run_seen(seen, pre);
        let j0 = joined(run_roots(seen, pre));
        let a = admitted(s0, batches.last());
        lemma_admitted_fresh(s0, batches.last());
        assert(run_roots(seen, batches).drop_last() =~= run_roots(seen, pre));
        let all = joined(run_roots(seen, batches));
        assert(all == j0 + a);
        assert forall|i: int| 0 <= i < all.len() implies !seen.contains(#[trigger] all[i].1) && run_seen(seen, batches).contains(all[i].1) by {
            if i < j0.len() {
                assert(all[i] == j0[i]);
            } else {
                assert(all[i] == a[i - j0.len()]);
            }
        }
        assert forall|i: int, j: int| 0 <= i < j < all.len() implies #[trigger] all[i].1 != #[trigger] all[j].1 by {
            if j < j0.len() {
                assert(all[i] == j0[i] && all[j] == j0[j]);
            } else if i >= j0.len() {
                assert(all[i] == a[i - j0.len()] && all[j] == a[j - j0.len()]);
            } else {
                assert(all[i] == j0[i] && all[j] == a[j - j0.len()]);
            }
        }
    }
}

/// In every global mode, no two rows name the same path, and each row's path
/// is an entry under the row's digest.
pub proof fn lemma_rows_name_each_path_once(mode: Mode, e: Seq<EntryView>)
    requires
        paths_unique(e),
    ensures
        forall|a: int, b: int| 0 <= a < b < report_rows(mode, e).len() ==> #[trigger] report_rows(mode, e)[a].1 != #[trigger] report_rows(mode, e)[b].1,
        forall|a: int| 0 <= a < report_rows(mode, e).len() ==> paths_of(e, (#[trigger] report_rows(mode, e)[a]).0).contains(report_rows(mode, e)[a].1),
{
    let ds = sorted_of(digests_of(e));
    lemma_group(e, Seq::empty());
    assert(ds.no_duplicates()) by {
        assert forall|i: int, j: int| 0 <= i < ds.len() && 0 <= j < ds.len() && i != j implies ds[i] != ds[j] by {
            if i < j {
                assert(lex_lt(ds[i], ds[j]));
                lemma_lex_irreflexive(ds[i]);
            } else {
                assert(lex_lt(ds[j], ds[i]));
                lemma_lex_irreflexive(ds[j]);
            }
        }
    }
    lemma_rows_over_distinct(mode, e, ds);
    let rows = report_rows(mode, e);
    assert forall|a: int| 0 <= a < rows.len() implies paths_of(e, (#[trigger] rows[a]).0).contains(rows[a].1) by {
        lemma_rows_over_member(mode, e, ds, a);
        lemma_group(e, rows[a].0);
        lemma_row_facts(mode, rows[a].0, group(e, rows[a].0), rows[a]);
    }
}

/// A digest that is in the entries, and each of its paths, reach the rows of
/// `mode` through its group.
proof fn lemma_digest_listed(e: Seq<EntryView>, d: Seq<char>, p: Seq<char>)
    requires
        paths_of(e, d).contains(p),
    ensures
        sorted_of(digests_of(e)).contains(d),
        group(e, d).contains(p),
        group(e, d).len() >= 1,
{
    lemma_group(e, d);
    let i = choose|i: int| 0 <= i < e.len() && #[trigger] e[i] == (d, p);
    assert(e[i].0 == d);
    assert(digests_of(e).contains(d));
    assert(sorted_of(digests_of(e)).to_set().contains(d));
    assert(group(e, d).to_set().contains(p));
}

/// A digest whose group holds a single path: `uniques` lists that path
/// exactly once, and no row of `duplicates`, `replicas` or `plan` names it,
/// neither as its path nor as its target.
pub proof fn lemma_single_path_is_unique(e: Seq<EntryView>, d: Seq<char>, m: Mode)
    requires
        paths_unique(e),
        group(e, d).len() == 1,
        m == Mode::Duplicates || m == Mode::Replicas || m == Mode::Plan,
    ensures
        report_rows(Mode::Uniques, e).contains((d, group(e, d)[0], None)),
        forall|a: int, b: int| 0 <= a < report_rows(Mode::Uniques, e).len() && 0 <= b < report_rows(Mode::Uniques, e).len()
            && #[trigger] report_rows(Mode::Uniques, e)[a].1 == group(e, d)[0] && #[trigger] report_rows(Mode::Uniques, e)[b].1 == group(e, d)[0] ==> a == b,
        forall|a: int| 0 <= a < report_rows(m, e).len() ==> (#[trigger] report_rows(m, e)[a]).1 != group(e, d)[0] && report_rows(m, e)[a].2 != Some(group(e, d)[0]),
{
    let p = group(e, d)[0];
    let ds = sorted_of(digests_of(e));
    lemma_group(e, d);
    assert(group(e, d).to_set().contains(p));
    lemma_digest_listed(e, d, p);
    let j = choose|j: int| 0 <= j < ds.len() && ds[j] == d;
    assert(rows_for(Mode::Uniques, d, group(e, d))[0] == (d, p, None::<Seq<char>>));
    lemma_rows_over_has(Mode::Uniques, e, ds, j, (d, p, None));
    lemma_rows_name_each_path_once(Mode::Uniques, e);
    let u = report_rows(Mode::Uniques, e);
    assert forall|a: int, b: int| 0 <= a < u.len() && 0 <= b < u.len() && #[trigger] u[a].1 == p && #[trigger] u[b].1 == p implies a == b by {
        if a < b {
            assert(u[a].1 != u[b].1);
        } else if b < a {
            assert(u[b].1 != u[a].1);
        }
    }
    let rows = report_rows(m, e);
    assert forall|a: int| 0 <= a < rows.len() implies (#[trigger] rows[a]).1 != p && rows[a].2 != Some(p) by {
        lemma_rows_over_member(m, e, ds, a);
        let d1 = rows[a].0;
        lemma_group(e, d1);
        lemma_row_facts(m, d1, group(e, d1), rows[a]);
        assert(group(e, d1).to_set().contains(rows[a].1));
        if rows[a].1 == p {
            lemma_one_digest(e, d1, d, p);
        }
        if rows[a].2 == Some(p) {
            assert(group(e, d1).to_set().contains(group(e, d1)[0]));
            lemma_one_digest(e, d1, d, p);
        }
    }
}

/// `plan` is a perfect matching: each row maps a path other than the
/// representative of its digest to that representative, every such path of a
/// duplicated digest has its row, and no path is the source of two rows.
pub proof fn lemma_plan_matching(e: Seq<EntryView>)
    requires
        paths_unique(e),
    ensures
        forall|a: int| 0 <= a < report_rows(Mode::Plan, e).len() ==> {
            let r = #[trigger] report_rows(Mode::Plan, e)[a];
            &&& r.2 == Some(group(e, r.0)[0])
            &&& r.1 != group(e, r.0)[0]
            &&& paths_of(e, r.0).contains(r.1)
        },
        forall|d: Seq<char>, p: Seq<char>| #[trigger] paths_of(e, d).contains(p) && p != group(e, d)[0] ==> report_rows(Mode::Plan, e).contains((d, p, Some(group(e, d)[0]))),
        forall|a: int, b: int| 0 <= a < b < report_rows(Mode::Plan, e).len() ==> #[trigger] report_rows(Mode::Plan, e)[a].1 != #[trigger] report_rows(Mode::Plan, e)[b].1,
{
    let ds = sorted_of(digests_of(e));
    let rows = report_rows(Mode::Plan, e);
    lemma_rows_name_each_path_once(Mode::Plan, e);
    assert forall|a: int| 0 <= a < rows.len() implies {
        let r = #[trigger] rows[a];
        &&& r.2 == Some(group(e, r.0)[0])
        &&& r.1 != group(e, r.0)[0]
        &&& paths_of(e, r.0).contains(r.1)
    } by {
        lemma_rows_over_member(Mode::Plan, e, ds, a);
        lemma_group(e, rows[a].0);
        lemma_row_facts(Mode::Plan, rows[a].0, group(e, rows[a].0), rows[a]);
    }
    assert forall|d: Seq<char>, p: Seq<char>| #[trigger] paths_of(e, d).contains(p) && p != group(e, d)[0] implies rows.contains((d, p, Some(group(e, d)[0]))) by {
        lemma_digest_listed(e, d, p);
        let g = group(e, d);
        let k = choose|k: int| 0 <= k < g.len() && g[k] == p;
        assert(k >= 1);
        assert(rows_for(Mode::Plan, d, g)[k - 1] == (d, p, Some(g[0])));
        let j = choose|j: int| 0 <= j < ds.len() && ds[j] == d;
        lemma_rows_over_has(Mode::Plan, e, ds, j, (d, p, Some(g[0])));
    }
}

/// `uniques` and `duplicates` split the paths of the entries: each path is in
/// one of the two, none is in both, and neither names any other path.
pub proof fn lemma_uniques_duplicates_partition(e: Seq<EntryView>)
    requires
        paths_unique(e),
    ensures
        forall|p: Seq<char>| #[trigger] entry_paths(e).contains(p) <==> (row_paths(report_rows(Mode::Uniques, e)).contains(p) || row_paths(report_rows(Mode::Duplicates, e)).contains(p)),
        forall|p: Seq<char>| !(#[trigger] row_paths(report_rows(Mode::Uniques, e)).contains(p) && row_paths(report_rows(Mode::Duplicates, e)).contains(p)),
{
    let ds = sorted_of(digests_of(e));
    let u = report_rows(Mode::Uniques, e);
    let dd = report_rows(Mode::Duplicates, e);
    lemma_rows_name_each_path_once(Mode::Uniques, e);
    lemma_rows_name_each_path_once(Mode::Duplicates, e);
    assert forall|p: Seq<char>| #[trigger] entry_paths(e).contains(p) implies (row_paths(u).contains(p) || row_paths(dd).contains(p)) by {
        let i = choose|i: int| 0 <= i < e.len() && entry_paths(e)[i] == p;
        let d = e[i].0;
        assert(e[i] == (d, p));
        assert(paths_of(e, d).contains(p));
        lemma_digest_listed(e, d, p);
        let g = group(e, d);
        let k = choose|k: int| 0 <= k < g.len() && g[k] == p;
        let j = choose|j: int| 0 <= j < ds.len() && ds[j] == d;
        if g.len() == 1 {
            assert(rows_for(Mode::Uniques, d, g)[k] == (d, p, None::<Seq<char>>));
            lemma_rows_over_has(Mode::Uniques, e, ds, j, (d, p, None));
            let a = choose|a: int| 0 <= a < u.len() && u[a] == (d, p, None::<Seq<char>>);
            assert(row_paths(u)[a] == p);
        } else {
            assert(rows_for(Mode::Duplicates, d, g)[k] == (d, p, None::<Seq<char>>));
            lemma_rows_over_has(Mode::Duplicates, e, ds, j, (d, p, None));
            let a = choose|a: int| 0 <= a < dd.len() && dd[a] == (d, p, None::<Seq<char>>);
            assert(row_paths(dd)[a] == p);
        }
    }
    assert forall|p: Seq<char>| (row_paths(u).contains(p) || row_paths(dd).contains(p)) implies #[trigger] entry_paths(e).contains(p) by {
        if row_paths(u).contains(p) {
            let a = choose|a: int| 0 <= a < u.len() && row_paths(u)[a] == p;
            assert(u[a].1 == p);
            let i = choose|i: int| 0 <= i < e.len() && #[trigger] e[i] == (u[a].0, p);
            assert(entry_paths(e)[i] == p);
        } else {
            let a = choose|a: int| 0 <= a < dd.len() && row_paths(dd)[a] == p;
            assert(dd[a].1 == p);
            let i = choose|i: int| 0 <= i < e.len() && #[trigger] e[i] == (dd[a].0, p);
            assert(entry_paths(e)[i] == p);
        }
    }
    assert forall|p: Seq<char>| !(#[trigger] row_paths(u).contains(p) && row_paths(dd).contains(p)) by {
        if row_paths(u).contains(p) && row_paths(dd).contains(p) {
            let a = choose|a: int| 0 <= a < u.len() && row_paths(u)[a] == p;
            let b = choose|b: int| 0 <= b < dd.len() && row_paths(dd)[b] == p;
            assert(u[a].1 == p && dd[b].1 == p);
            lemma_rows_over_member(Mode::Uniques, e, ds, a);
            lemma_rows_over_member(Mode::Duplicates, e, ds, b);
            let d1 = u[a].0;
            let d2 = dd[b].0;
            lemma_group(e, d1);
            lemma_group(e, d2);
            lemma_row_facts(Mode::Uniques, d1, group(e, d1), u[a]);
            lemma_row_facts(Mode::Duplicates, d2, group(e, d2), dd[b]);
            assert(group(e, d1).to_set().contains(p));
            assert(group(e, d2).to_set().contains(p));
            lemma_one_digest(e, d1, d2, p);
        }
    }
}

proof fn lemma_rows_over_same(mode: Mode, e1: Seq<EntryView>, e2: Seq<EntryView>, ds: Seq<Seq<char>>)
    requires
        forall|d: Seq<char>| #[trigger] paths_of(e1, d) == paths_of(e2, d),
    ensures
        rows_over(mode, e1, ds) == rows_over(mode, e2, ds),
    decreases ds.len(),
{
    if ds.len() > 0 {
        lemma_rows_over_same(mode, e1, e2, ds.drop_last());
        assert(paths_of(e1, ds.last()) == paths_of(e2, ds.last()));
    }
}

/// Entries with the same pairs have the same digests and the same paths under each.
proof fn lemma_same_pairs(e1: Seq<EntryView>, e2: Seq<EntryView>)
    requires
        e1.to_set() == e2.to_set(),
    ensures
        digests_of(e1) == digests_of(e2),
        forall|d: Seq<char>| #[trigger] paths_of(e1, d) == paths_of(e2, d),
{
    assert forall|d: Seq<char>| #[trigger] paths_of(e1, d) == paths_of(e2, d) by {
        assert forall|p: Seq<char>| paths_of(e1, d).contains(p) implies paths_of(e2, d).contains(p) by {
            let i = choose|i: int| 0 <= i < e1.len() && #[trigger] e1[i] == (d, p);
            assert(e1.to_set().contains((d, p)));
            assert(e2.to_set().contains((d, p)));
        }
        assert forall|p: Seq<char>| paths_of(e2, d).contains(p) implies paths_of(e1, d).contains(p) by {
            let i = choose|i: int| 0 <= i < e2.len() && #[trigger] e2[i] == (d, p);
            assert(e2.to_set().contains((d, p)));
            assert(e1.to_set().contains((d, p)));
        }
        assert(paths_of(e1, d) =~= paths_of(e2, d));
    }
    assert(digests_of(e1) =~= digests_of(e2)) by {
        assert forall|d: Seq<char>| digests_of(e1).contains(d) implies digests_of(e2).contains(d) by {
            let i = choose|i: int| 0 <= i < e1.len() && #[trigger] e1[i].0 == d;
            assert(e1.to_set().contains(e1[i]));
            assert(e2.to_set().contains(e1[i]));
        }
        assert forall|d: Seq<char>| digests_of(e2).contains(d) implies digests_of(e1).contains(d) by {
            let i = choose|i: int| 0 <= i < e2.len() && #[trigger] e2[i].0 == d;
            assert(e2.to_set().contains(e2[i]));
            assert(e1.to_set().contains(e2[i]));
        }
    }
}

/// The output of a global mode depends only on which (digest, path) pairs
/// are present: not on their order, nor on repeats.
pub proof fn lemma_report_deterministic(mode: Mode, e1: Seq<EntryView>, e2: Seq<EntryView>)
    requires
        e1.to_set() == e2.to_set(),
    ensures
        report_rows(mode, e1) == report_rows(mode, e2),
{
    lemma_same_pairs(e1, e2);
    lemma_rows_over_same(mode, e1, e2, sorted_of(digests_of(e1)));
}

/// Roots that hold the same pairs, root by root.
pub open spec fn same_roots(rs1: Seq<Seq<EntryView>>, rs2: Seq<Seq<EntryView>>) -> bool {
    &&& rs1.len() == rs2.len()
    &&& forall|j: int| 0 <= j < rs1.len() ==> (#[trigger] rs1[j]).to_set() == rs2[j].to_set()
}

proof fn lemma_history_same(rs1: Seq<Seq<EntryView>>, rs2: Seq<Seq<EntryView>>, i: int)
    requires
        same_roots(rs1, rs2),
        0 <= i <= rs1.len(),
    ensures
        seen_before(rs1, i) == seen_before(rs2, i),
        forall|d: Seq<char>| #[trigger] rep_before(rs1, i, d) == rep_before(rs2, i, d),
    decreases i,
{
    if i > 0 {
        lemma_history_same(rs1, rs2, i - 1);
        lemma_same_pairs(rs1[i - 1], rs2[i - 1]);
        assert forall|d: Seq<char>| #[trigger] rep_before(rs1, i, d) == rep_before(rs2, i, d) by {
            assert(paths_of(rs1[i - 1], d) == paths_of(rs2[i - 1], d));
            assert(rep_before(rs1, i - 1, d) == rep_before(rs2, i - 1, d));
        }
    }
}

proof fn lemma_rolling_over_same(rs1: Seq<Seq<EntryView>>, rs2: Seq<Seq<EntryView>>, i: int, ds: Seq<Seq<char>>, dup: bool)
    requires
        same_roots(rs1, rs2),
        0 <= i < rs1.len(),
    ensures
        rolling_over(rs1, i, ds, dup) == rolling_over(rs2, i, ds, dup),
    decreases ds.len(),
{
    if ds.len() > 0 {
        lemma_rolling_over_same(rs1, rs2, i, ds.drop_last(), dup);
        lemma_history_same(rs1, rs2, i);
        lemma_same_pairs(rs1[i], rs2[i]);
        assert(paths_of(rs1[i], ds.last()) == paths_of(rs2[i], ds.last()));
        assert(rep_before(rs1, i, ds.last()) == rep_before(rs2, i, ds.last()));
    }
}

/// The rolling output at each root depends only on which (digest, path)
/// pairs each root holds: not on their order within a root, nor on repeats.
pub proof fn lemma_rolling_deterministic(rs1: Seq<Seq<EntryView>>, rs2: Seq<Seq<EntryView>>, i: int, dup: bool)
    requires
        same_roots(rs1, rs2),
        0 <= i < rs1.len(),
    ensures
        rolling_rows(rs1, i, dup) == rolling_rows(rs2, i, dup),
{
    lemma_same_pairs(rs1[i], rs2[i]);
    lemma_rolling_over_same(rs1, rs2, i, sorted_of(digests_of(rs1[i])), dup);
}

} // verus!
