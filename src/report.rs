//! The global reporting modes over the entries of all roots together.
use vstd::prelude::*;
use crate::aggregate::{Entry, EntryView, entry_views};
use crate::lex::{sort_unique, sorted_of, sorted_strict, views};

verus! {

/// A reporting mode over the global fold of all roots.
#[derive(Clone, Copy, PartialEq, Eq, Structural)]
pub enum Mode {
    /// Digests held by exactly one path: that path.
    Uniques,
    /// Digests held by more than one path: every path.
    Duplicates,
    /// Every digest: its representative, the least path.
    Firsts,
    /// Digests held by more than one path: every path but the representative.
    Replicas,
    /// Digests held by more than one path: every other path, towards the representative.
    Plan,
}

/// One output row: a path, under its digest, and for a plan the path it maps to.
pub struct Row {
    pub digest: String,
    pub path: String,
    pub target: Option<String>,
}

/// A row as character sequences.
pub type RowView = (Seq<char>, Seq<char>, Option<Seq<char>>);

/// The view of an optional string.
pub open spec fn opt_view(t: Option<String>) -> Option<Seq<char>> {
    match t {
        Some(s) => Some(s@),
        None => None,
    }
}

impl View for Row {
    type V = RowView;

    open spec fn view(&self) -> RowView {
        (self.digest@, self.path@, opt_view(self.target))
    }
}

/// The rows that a vector holds, as views.
pub open spec fn row_views(r: Seq<Row>) -> Seq<RowView> {
    r.map_values(|x: Row| x@)
}

/// The digests that occur among the entries.
pub open spec fn digests_of(e: Seq<EntryView>) -> Set<Seq<char>> {
    Set::new(|d: Seq<char>| exists|i: int| 0 <= i < e.len() && e[i].0 == d)
}

/// The paths that the entries hold under digest `d`.
pub open spec fn paths_of(e: Seq<EntryView>, d: Seq<char>) -> Set<Seq<char>> {
    Set::new(|p: Seq<char>| exists|i: int| 0 <= i < e.len() && e[i] == (d, p))
}

/// The group of digest `d`: its paths in increasing order; the first is the
/// representative.
pub open spec fn group(e: Seq<EntryView>, d: Seq<char>) -> Seq<Seq<char>> {
    sorted_of(paths_of(e, d))
}

/// One row for each of `ps`, under digest `d` and with target `t`.
pub open spec fn tagged(d: Seq<char>, ps: Seq<Seq<char>>, t: Option<Seq<char>>) -> Seq<RowView> {
    ps.map_values(|p: Seq<char>| (d, p, t))
}

/// The rows that `mode` gives for digest `d`, whose group is `ps`.
pub open spec fn rows_for(mode: Mode, d: Seq<char>, ps: Seq<Seq<char>>) -> Seq<RowView> {
    match mode {
        Mode::Uniques => if ps.len() == 1 {
            tagged(d, ps, None)
        } else {
            Seq::empty()
        },
        Mode::Duplicates => if ps.len() > 1 {
            tagged(d, ps, None)
        } else {
            Seq::empty()
        },
        Mode::Firsts => if ps.len() >= 1 {
            tagged(d, ps.take(1), None)
        } else {
            Seq::empty()
        },
        Mode::Replicas => if ps.len() > 1 {
            tagged(d, ps.skip(1), None)
        } else {
            Seq::empty()
        },
        Mode::Plan => if ps.len() > 1 {
            tagged(d, ps.skip(1), Some(ps[0]))
        } else {
            Seq::empty()
        },
    }
}

/// The rows that `mode` gives for the digests `ds`, in that order.
pub open spec fn rows_over(mode: Mode, e: Seq<EntryView>, ds: Seq<Seq<char>>) -> Seq<RowView>
    decreases ds.len(),
{
    if ds.len() == 0 {
        Seq::empty()
    } else {
        rows_over(mode, e, ds.drop_last()) + rows_for(mode, ds.last(), group(e, ds.last()))
    }
}

/// The output of `mode`: digests in increasing order, each with its rows.
pub open spec fn report_rows(mode: Mode, e: Seq<EntryView>) -> Seq<RowView> {
    rows_over(mode, e, sorted_of(digests_of(e)))
}

/// The entries of each root, as views.
pub open spec fn root_views(rs: Seq<Vec<Entry>>) -> Seq<Seq<EntryView>> {
    rs.map_values(|v: Vec<Entry>| entry_views(v@))
}

/// The entries of all roots, root after root.
pub open spec fn joined(rs: Seq<Seq<EntryView>>) -> Seq<EntryView>
    decreases rs.len(),
{
    if rs.len() == 0 {
        Seq::empty()
    } else {
        joined(rs.drop_last()) + rs.last()
    }
}

/// The digests of the entries, each once or more.
pub(crate) fn collect_digests_of(entries: &Vec<Entry>) -> (r: Vec<String>)
    ensures
        views(r@).to_set() == digests_of(entry_views(entries@)),
{
    let ghost ev = entry_views(entries@);
    let mut r: Vec<String> = Vec::new();
    let mut k: usize = 0;
    while k < entries.len()
        invariant
            k <= entries@.len(),
            ev == entry_views(entries@),
            views(r@).to_set() == digests_of(ev.take(k as int)),
        decreases entries.len() - k,
    {
        let ghost before = views(r@);
        r.push(entries[k].digest.clone());
        proof {
            assert(views(r@) =~= before.push(ev[k as int].0));
            before.lemma_push_to_set_commute(ev[k as int].0);
            assert(digests_of(ev.take(k + 1)) =~= digests_of(ev.take(k as int)).insert(ev[k as int].0)) by {
                assert forall|d: Seq<char>| digests_of(ev.take(k + 1)).contains(d) implies digests_of(ev.take(k as int)).insert(ev[k as int].0).contains(d) by {
                    let i = choose|i: int| 0 <= i < k + 1 && #[trigger] ev.take(k + 1)[i].0 == d;
                    if i < k {
                        assert(ev.take(k as int)[i].0 == d);
                    }
                }
                assert forall|d: Seq<char>| digests_of(ev.take(k as int)).insert(ev[k as int].0).contains(d) implies digests_of(ev.take(k + 1)).contains(d) by {
                    if d == ev[k as int].0 {
                        assert(ev.take(k + 1)[k as int].0 == d);
                    } else {
                        let i = choose|i: int| 0 <= i < k && #[trigger] ev.take(k as int)[i].0 == d;
                        assert(ev.take(k + 1)[i].0 == d);
                    }
                }
            }
        }
        k = k + 1;
    }
    assert(ev.take(entries@.len() as int) =~= ev);
    r
}

/// The paths that the entries hold under `d`, each once or more.
pub(crate) fn collect_paths(entries: &Vec<Entry>, d: &String) -> (r: Vec<String>)
    ensures
        views(r@).to_set() == paths_of(entry_views(entries@), d@),
{
    let ghost ev = entry_views(entries@);
    let mut r: Vec<String> = Vec::new();
    let mut k: usize = 0;
    while k < entries.len()
        invariant
            k <= entries@.len(),
            ev == entry_views(entries@),
            views(r@).to_set() == paths_of(ev.take(k as int), d@),
        decreases entries.len() - k,
    {
        let ghost before = views(r@);
        let ghost x = ev[k as int];
        if entries[k].digest == *d {
            r.push(entries[k].path.clone());
            proof {
                assert(views(r@) =~= before.push(x.1));
                before.lemma_push_to_set_commute(x.1);
            }
        }
        proof {
            let want = if x.0 == d@ {
                paths_of(ev.take(k as int), d@).insert(x.1)
            } else {
                paths_of(ev.take(k as int), d@)
            };
            assert(paths_of(ev.take(k + 1), d@) =~= want) by {
                assert forall|p: Seq<char>| paths_of(ev.take(k + 1), d@).contains(p) implies want.contains(p) by {
                    let i = choose|i: int| 0 <= i < k + 1 && #[trigger] ev.take(k + 1)[i] == (d@, p);
                    if i < k {
                        assert(ev.take(k as int)[i] == (d@, p));
                    }
                }
                assert forall|p: Seq<char>| want.contains(p) implies paths_of(ev.take(k + 1), d@).contains(p) by {
                    if x.0 == d@ && p == x.1 {
                        assert(ev.take(k + 1)[k as int] == (d@, p));
                    } else {
                        let i = choose|i: int| 0 <= i < k && #[trigger] ev.take(k as int)[i] == (d@, p);
                        assert(ev.take(k + 1)[i] == (d@, p));
                    }
                }
            }
        }
        k = k + 1;
    }
    assert(ev.take(entries@.len() as int) =~= ev);
    r
}

/// One digest with its paths, in increasing order.
pub struct Group {
    pub digest: String,
    pub paths: Vec<String>,
}

/// The digest group table of the entries: one group per digest, digests in
/// increasing order, each group's paths in increasing order.
pub fn groups(entries: &Vec<Entry>) -> (r: Vec<Group>)
    ensures
        r@.len() == sorted_of(digests_of(entry_views(entries@))).len(),
        forall|k: int| 0 <= k < r@.len() ==> (#[trigger] r@[k]).digest@ == sorted_of(digests_of(entry_views(entries@)))[k],
        forall|k: int| 0 <= k < r@.len() ==> views((#[trigger] r@[k]).paths@) == group(entry_views(entries@), r@[k].digest@),
{
    let ghost ev = entry_views(entries@);
    let all = collect_digests_of(entries);
    let ds = sort_unique(&all);
    let mut out: Vec<Group> = Vec::new();
    let mut k: usize = 0;
    while k < ds.len()
        invariant
            k <= ds@.len(),
            ev == entry_views(entries@),
            views(ds@) == sorted_of(digests_of(ev)),
            out@.len() == k,
            forall|j: int| 0 <= j < k ==> (#[trigger] out@[j]).digest@ == views(ds@)[j],
            forall|j: int| 0 <= j < k ==> views((#[trigger] out@[j]).paths@) == group(ev, out@[j].digest@),
        decreases ds.len() - k,
    {
        let found = collect_paths(entries, &ds[k]);
        let paths = sort_unique(&found);
        out.push(Group { digest: ds[k].clone(), paths });
        k = k + 1;
    }
    out
}

/// The entries of all roots in one sequence, root after root: the global
/// fold that the modes of [`report`] read.
pub fn combine(roots: &Vec<Vec<Entry>>) -> (r: Vec<Entry>)
    ensures
        entry_views(r@) == joined(root_views(roots@)),
{
    let ghost rs = root_views(roots@);
    let mut r: Vec<Entry> = Vec::new();
    let mut i: usize = 0;
    while i < roots.len()
        invariant
            i <= roots@.len(),
            rs == root_views(roots@),
            entry_views(r@) == joined(rs.take(i as int)),
        decreases roots.len() - i,
    {
        let root = &roots[i];
        let mut k: usize = 0;
        let ghost start = entry_views(r@);
        while k < root.len()
            invariant
                k <= root@.len(),
                entry_views(r@) == start + entry_views(root@).take(k as int),
            decreases root.len() - k,
        {
            let ghost before = entry_views(r@);
            r.push(Entry { digest: root[k].digest.clone(), path: root[k].path.clone() });
            assert(entry_views(r@) =~= before.push(root@[k as int]@));
            assert(entry_views(root@).take(k + 1) =~= entry_views(root@).take(k as int).push(root@[k as int]@));
            k = k + 1;
        }
        assert(entry_views(root@).take(root@.len() as int) =~= entry_views(root@));
        assert(rs.take(i + 1).drop_last() =~= rs.take(i as int));
        assert(rs.take(i + 1).last() == entry_views(root@));
        i = i + 1;
    }
    assert(rs.take(roots@.len() as int) =~= rs);
    r
}

/// Appends one row for each of `ps[from..to]`, under `d` and with `target`.
pub(crate) fn emit_tagged(d: &String, ps: &Vec<String>, from: usize, to: usize, target: &Option<String>, out: &mut Vec<Row>)
    requires
        from <= to <= ps@.len(),
    ensures
        row_views(final(out)@) == row_views(old(out)@) + tagged(d@, views(ps@).subrange(from as int, to as int), opt_view(*target)),
{
    let ghost start = row_views(out@);
    let ghost t = opt_view(*target);
    let mut j: usize = from;
    while j < to
        invariant
            from <= j <= to,
            to <= ps@.len(),
            t == opt_view(*target),
            row_views(out@) == start + tagged(d@, views(ps@).subrange(from as int, j as int), t),
        decreases to - j,
    {
        let ghost before = row_views(out@);
        let tc = match target {
            Some(s) => Some(s.clone()),
            None => None,
        };
        out.push(Row { digest: d.clone(), path: ps[j].clone(), target: tc });
        assert(row_views(out@) =~= before.push((d@, ps@[j as int]@, t)));
        assert(tagged(d@, views(ps@).subrange(from as int, j + 1), t) =~= tagged(d@, views(ps@).subrange(from as int, j as int), t).push((d@, ps@[j as int]@, t)));
        j = j + 1;
    }
}

/// The output of `mode` over the entries: digests in increasing order, and
/// within a digest its paths in increasing order, so that the output depends
/// on which (digest, path) pairs are present and not on their arrival order.
pub fn report(mode: Mode, entries: &Vec<Entry>) -> (r: Vec<Row>)
    ensures
        row_views(r@) == report_rows(mode, entry_views(entries@)),
{
    let ghost ev = entry_views(entries@);
    let all = collect_digests_of(entries);
    let ds = sort_unique(&all);
    let mut out: Vec<Row> = Vec::new();
    let mut k: usize = 0;
    while k < ds.len()
        invariant
            k <= ds@.len(),
            ev == entry_views(entries@),
            views(ds@) == sorted_of(digests_of(ev)),
            views(ds@).to_set() == digests_of(ev),
            row_views(out@) == rows_over(mode, ev, views(ds@).take(k as int)),
        decreases ds.len() - k,
    {
        let d = &ds[k];
        let found = collect_paths(entries, d);
        let ps = sort_unique(&found);
        let ghost g = views(ps@);
        assert(g == group(ev, d@));
        proof {
            assert(views(ds@)[k as int] == d@);
            assert(views(ds@).to_set().contains(d@));
            let i = choose|i: int| 0 <= i < ev.len() && #[trigger] ev[i].0 == d@;
            assert(ev[i] == (d@, ev[i].1));
            assert(paths_of(ev, d@).contains(ev[i].1));
            assert(g.to_set().contains(ev[i].1));
        }
        let n = ps.len();
        let none: Option<String> = None;
        match mode {
            Mode::Uniques => {
                if n == 1 {
                    emit_tagged(d, &ps, 0, n, &none, &mut out);
                }
            },
            Mode::Duplicates => {
                if n > 1 {
                    emit_tagged(d, &ps, 0, n, &none, &mut out);
                }
            },
            Mode::Firsts => {
                emit_tagged(d, &ps, 0, 1, &none, &mut out);
            },
            Mode::Replicas => {
                if n > 1 {
                    emit_tagged(d, &ps, 1, n, &none, &mut out);
                }
            },
            Mode::Plan => {
                if n > 1 {
                    let first = Some(ps[0].clone());
                    emit_tagged(d, &ps, 1, n, &first, &mut out);
                }
            },
        }
        proof {
            assert(g.subrange(0, n as int) =~= g);
            assert(g.subrange(0, 0) =~= g.take(0));
            assert(g.subrange(0, 1) =~= g.take(1));
            assert(g.subrange(1, n as int) =~= g.skip(1));
            assert(tagged(d@, g.subrange(0, 0), None) =~= Seq::empty());
            assert(views(ds@).take(k + 1).drop_last() =~= views(ds@).take(k as int));
            assert(views(ds@).take(k + 1).last() == d@);
        }
        k = k + 1;
    }
    assert(views(ds@).take(ds@.len() as int) =~= views(ds@));
    out
}

} // verus!
