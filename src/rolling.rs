//! The rolling modes: roots taken in order, each measured against the roots
//! before it.
use vstd::prelude::*;
use crate::aggregate::{Entry, EntryView, entry_views};
use crate::lex::{sort_unique, sorted_of, views};
use crate::report::{root_views, opt_view, Row, RowView, row_views, digests_of, paths_of, group, tagged, collect_paths, collect_digests_of, emit_tagged};

verus! {

/// The rolling output at one root.
pub struct RollingRoot {
    /// Paths of digests that no earlier root holds.
    pub uniques: Vec<Row>,
    /// Paths of digests that an earlier root holds, each towards the
    /// representative fixed when the digest was first seen.
    pub duplicates: Vec<Row>,
}

/// The digests held by the roots before root `i`.
pub open spec fn seen_before(rs: Seq<Seq<EntryView>>, i: int) -> Set<Seq<char>>
    decreases i,
{
    if i <= 0 {
        Set::empty()
    } else {
        seen_before(rs, i - 1).union(digests_of(rs[i - 1]))
    }
}

/// The representative of `d` as it stands before root `i`: the least path of
/// `d` in the first root that holds it.
pub open spec fn rep_before(rs: Seq<Seq<EntryView>>, i: int, d: Seq<char>) -> Seq<char>
    decreases i,
{
    if i <= 0 {
        Seq::empty()
    } else if seen_before(rs, i - 1).contains(d) {
        rep_before(rs, i - 1, d)
    } else {
        group(rs[i - 1], d)[0]
    }
}

/// The rows of digest `d` at root `i`: its paths there, in increasing order,
/// among the duplicates (towards the representative) when an earlier root
/// holds it, else among the uniques.
pub open spec fn rolling_rows_for(rs: Seq<Seq<EntryView>>, i: int, d: Seq<char>, dup: bool) -> Seq<RowView> {
    let ps = group(rs[i], d);
    if seen_before(rs, i).contains(d) {
        if dup {
            tagged(d, ps, Some(rep_before(rs, i, d)))
        } else {
            Seq::empty()
        }
    } else {
        if dup {
            Seq::empty()
        } else {
            tagged(d, ps, None)
        }
    }
}

/// The rows at root `i` for the digests `ds`, in that order.
pub open spec fn rolling_over(rs: Seq<Seq<EntryView>>, i: int, ds: Seq<Seq<char>>, dup: bool) -> Seq<RowView>
    decreases ds.len(),
{
    if ds.len() == 0 {
        Seq::empty()
    } else {
        rolling_over(rs, i, ds.drop_last(), dup) + rolling_rows_for(rs, i, ds.last(), dup)
    }
}

/// The rolling uniques (`dup` false) or duplicates (`dup` true) at root `i`,
/// digests in increasing order.
pub open spec fn rolling_rows(rs: Seq<Seq<EntryView>>, i: int, dup: bool) -> Seq<RowView> {
    rolling_over(rs, i, sorted_of(digests_of(rs[i])), dup)
}

/// The representative recorded for `d`, if any.
fn find_rep(loc: &Vec<Entry>, d: &String) -> (r: Option<String>)
    ensures
        r matches Some(p) ==> exists|k: int| 0 <= k < loc@.len() && #[trigger] entry_views(loc@)[k] == (d@, p@),
        r is None ==> forall|k: int| 0 <= k < loc@.len() ==> (#[trigger] entry_views(loc@)[k]).0 != d@,
{
    let mut k: usize = 0;
    while k < loc.len()
        invariant
            k <= loc@.len(),
            forall|j: int| 0 <= j < k ==> (#[trigger] entry_views(loc@)[j]).0 != d@,
        decreases loc.len() - k,
    {
        if loc[k].digest == *d {
            let p = loc[k].path.clone();
            assert(entry_views(loc@)[k as int] == (d@, p@));
            return Some(p);
        }
        k = k + 1;
    }
    None
}

/// The rolling output at each root, in the order given: at each root, its
/// digests in increasing order, each with its paths there in increasing order.
pub fn rolling_report(roots: &Vec<Vec<Entry>>) -> (r: Vec<RollingRoot>)
    ensures
        r@.len() == roots@.len(),
        forall|i: int| 0 <= i < r@.len() ==> row_views((#[trigger] r@[i]).uniques@) == rolling_rows(root_views(roots@), i, false),
        forall|i: int| 0 <= i < r@.len() ==> row_views((#[trigger] r@[i]).duplicates@) == rolling_rows(root_views(roots@), i, true),
{
    let ghost rs = root_views(roots@);
    let mut out: Vec<RollingRoot> = Vec::new();
    let mut loc: Vec<Entry> = Vec::new();
    let mut i: usize = 0;
    while i < roots.len()
        invariant
            i <= roots@.len(),
            rs == root_views(roots@),
            out@.len() == i,
            forall|j: int| 0 <= j < i ==> row_views((#[trigger] out@[j]).uniques@) == rolling_rows(rs, j, false),
            forall|j: int| 0 <= j < i ==> row_views((#[trigger] out@[j]).duplicates@) == rolling_rows(rs, j, true),
            forall|k: int| 0 <= k < loc@.len() ==> seen_before(rs, i as int).contains(#[trigger] entry_views(loc@)[k].0),
            forall|k: int| 0 <= k < loc@.len() ==> #[trigger] entry_views(loc@)[k].1 == rep_before(rs, i as int, entry_views(loc@)[k].0),
            forall|d: Seq<char>| #[trigger] seen_before(rs, i as int).contains(d) ==> exists|k: int| 0 <= k < loc@.len() && #[trigger] entry_views(loc@)[k].0 == d,
        decreases roots.len() - i,
    {
        let root = &roots[i];
        let ghost ev = entry_views(root@);
        assert(ev == rs[i as int]);
        let ds = sort_unique(&collect_digests_of(root));
        let mut uniques: Vec<Row> = Vec::new();
        let mut duplicates: Vec<Row> = Vec::new();
        let mut fresh: Vec<Entry> = Vec::new();
        let mut k: usize = 0;
        while k < ds.len()
            invariant
                k <= ds@.len(),
                i < roots@.len(),
                rs == root_views(roots@),
                ev == rs[i as int],
                ev == entry_views(root@),
                views(ds@) == sorted_of(digests_of(ev)),
                views(ds@).to_set() == digests_of(ev),
                row_views(uniques@) == rolling_over(rs, i as int, views(ds@).take(k as int), false),
                row_views(duplicates@) == rolling_over(rs, i as int, views(ds@).take(k as int), true),
                forall|m: int| 0 <= m < loc@.len() ==> seen_before(rs, i as int).contains(#[trigger] entry_views(loc@)[m].0),
                forall|m: int| 0 <= m < loc@.len() ==> #[trigger] entry_views(loc@)[m].1 == rep_before(rs, i as int, entry_views(loc@)[m].0),
                forall|d: Seq<char>| #[trigger] seen_before(rs, i as int).contains(d) ==> exists|m: int| 0 <= m < loc@.len() && #[trigger] entry_views(loc@)[m].0 == d,
                forall|m: int| 0 <= m < fresh@.len() ==> digests_of(ev).contains(#[trigger] entry_views(fresh@)[m].0) && !seen_before(rs, i as int).contains(entry_views(fresh@)[m].0),
                forall|m: int| 0 <= m < fresh@.len() ==> #[trigger] entry_views(fresh@)[m].1 == group(ev, entry_views(fresh@)[m].0)[0],
                forall|j: int| 0 <= j < k && !seen_before(rs, i as int).contains(#[trigger] views(ds@)[j]) ==> exists|m: int| 0 <= m < fresh@.len() && #[trigger] entry_views(fresh@)[m].0 == views(ds@)[j],
            decreases ds.len() - k,
        {
            let d = &ds[k];
            let found = collect_paths(root, d);
            let ps = sort_unique(&found);
            let ghost g = views(ps@);
            assert(g == group(ev, d@));
            proof {
                assert(views(ds@)[k as int] == d@);
                assert(views(ds@).to_set().contains(d@));
                let e = choose|e: int| 0 <= e < ev.len() && #[trigger] ev[e].0 == d@;
                assert(ev[e] == (d@, ev[e].1));
                assert(paths_of(ev, d@).contains(ev[e].1));
                assert(g.to_set().contains(ev[e].1));
            }
            let n = ps.len();
            let ghost seen = seen_before(rs, i as int);
            let ghost u0 = row_views(uniques@);
            let ghost d0 = row_views(duplicates@);
            match find_rep(&loc, d) {
                Some(rep) => {
                    let t = Some(rep);
                    proof {
                        let m = choose|m: int| 0 <= m < loc@.len() && #[trigger] entry_views(loc@)[m] == (d@, t.unwrap()@);
                        assert(entry_views(loc@)[m].0 == d@);
                        assert(entry_views(loc@)[m].1 == t.unwrap()@);
                        assert(seen.contains(d@));
                        assert(t.unwrap()@ == rep_before(rs, i as int, d@));
                        assert(opt_view(t) == Some(rep_before(rs, i as int, d@)));
                        assert(views(ds@)[k as int] == d@);
                    }
                    emit_tagged(d, &ps, 0, n, &t, &mut duplicates);
                },
                None => {
                    let none: Option<String> = None;
                    emit_tagged(d, &ps, 0, n, &none, &mut uniques);
                    let ghost f0 = entry_views(fresh@);
                    fresh.push(Entry { digest: d.clone(), path: ps[0].clone() });
                    assert(entry_views(fresh@) =~= f0.push((d@, g[0])));
                    assert(entry_views(fresh@)[f0.len() as int].0 == views(ds@)[k as int]);
                    proof {
                        if seen.contains(d@) {
                            let m = choose|m: int| 0 <= m < loc@.len() && #[trigger] entry_views(loc@)[m].0 == d@;
                        }
                        assert forall|j: int| 0 <= j < k + 1 && !seen.contains(#[trigger] views(ds@)[j]) implies exists|m: int| 0 <= m < fresh@.len() && #[trigger] entry_views(fresh@)[m].0 == views(ds@)[j] by {
                            if j < k {
                                let m = choose|m: int| 0 <= m < f0.len() && #[trigger] f0[m].0 == views(ds@)[j];
                                assert(entry_views(fresh@)[m] == f0[m]);
                            } else {
                                assert(entry_views(fresh@)[f0.len() as int].0 == views(ds@)[j]);
                            }
                        }
                        assert forall|m: int| 0 <= m < fresh@.len() implies #[trigger] entry_views(fresh@)[m].1 == group(ev, entry_views(fresh@)[m].0)[0] by {
                            if m < f0.len() {
                                assert(entry_views(fresh@)[m] == f0[m]);
                            }
                        }
                        assert forall|m: int| 0 <= m < fresh@.len() implies digests_of(ev).contains(#[trigger] entry_views(fresh@)[m].0) && !seen_before(rs, i as int).contains(entry_views(fresh@)[m].0) by {
                            if m < f0.len() {
                                assert(entry_views(fresh@)[m] == f0[m]);
                            } else {
                                assert(views(ds@).to_set().contains(d@));
                            }
                        }
                    }
                },
            }
            proof {
                assert(g.subrange(0, n as int) =~= g);
                assert(views(ds@).take(k + 1).drop_last() =~= views(ds@).take(k as int));
                assert(views(ds@).take(k + 1).last() == d@);
                assert(row_views(uniques@) =~= u0 + rolling_rows_for(rs, i as int, d@, false));
                assert(row_views(duplicates@) =~= d0 + rolling_rows_for(rs, i as int, d@, true));
            }
            k = k + 1;
        }
        assert(views(ds@).take(ds@.len() as int) =~= views(ds@));
        out.push(RollingRoot { uniques, duplicates });
        let ghost l0 = entry_views(loc@);
        let ghost fv = entry_views(fresh@);
        loc.append(&mut fresh);
        proof {
            assert(entry_views(loc@) =~= l0 + fv);
            let ni = i + 1;
            assert(seen_before(rs, ni as int) == seen_before(rs, i as int).union(digests_of(rs[i as int])));
            assert forall|m: int| 0 <= m < loc@.len() implies seen_before(rs, ni as int).contains(#[trigger] entry_views(loc@)[m].0) by {
                if m >= l0.len() {
                    assert(entry_views(loc@)[m] == fv[m - l0.len()]);
                }
            }
            assert forall|m: int| 0 <= m < loc@.len() implies #[trigger] entry_views(loc@)[m].1 == rep_before(rs, ni as int, entry_views(loc@)[m].0) by {
                if m >= l0.len() {
                    assert(entry_views(loc@)[m] == fv[m - l0.len()]);
                } else {
                    assert(entry_views(loc@)[m] == l0[m]);
                }
            }
            assert forall|d: Seq<char>| #[trigger] seen_before(rs, ni as int).contains(d) implies exists|m: int| 0 <= m < loc@.len() && #[trigger] entry_views(loc@)[m].0 == d by {
                if seen_before(rs, i as int).contains(d) {
                    let m = choose|m: int| 0 <= m < l0.len() && #[trigger] l0[m].0 == d;
                    assert(entry_views(loc@)[m] == l0[m]);
                } else {
                    assert(views(ds@).to_set().contains(d));
                    let j = choose|j: int| 0 <= j < ds@.len() && #[trigger] views(ds@)[j] == d;
                    let m = choose|m: int| 0 <= m < fv.len() && #[trigger] fv[m].0 == views(ds@)[j];
                    assert(entry_views(loc@)[l0.len() + m] == fv[m]);
                }
            }
        }
        i = i + 1;
    }
    out
}

} // verus!
