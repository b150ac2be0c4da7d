//! Folding one root's worker results into its digest group, through the guard.
use vstd::prelude::*;
use crate::guard::Guard;

verus! {

/// What a hash worker reports for one discovered file.
pub enum Hashed {
    /// The file's digest and its canonical path.
    Res(String, String),
    /// The file could not be read, or its path could not be resolved.
    Failed,
}

/// A worker's report, tagged with the index of the root it was discovered under.
pub struct Message {
    pub root: usize,
    pub hashed: Hashed,
}

/// One admitted file: its digest and its canonical path.
pub struct Entry {
    pub digest: String,
    pub path: String,
}

/// A (digest, path) pair as character sequences.
pub type EntryView = (Seq<char>, Seq<char>);

impl View for Entry {
    type V = EntryView;

    open spec fn view(&self) -> EntryView {
        (self.digest@, self.path@)
    }
}

/// The pairs that a sequence of entries holds.
pub open spec fn entry_views(e: Seq<Entry>) -> Seq<EntryView> {
    e.map_values(|x: Entry| x@)
}

/// The result of folding one root.
pub struct RootScan {
    /// The files admitted for this root.
    pub entries: Vec<Entry>,
    /// How many reports were failures.
    pub failures: usize,
}

/// A breach of the channel protocol between the workers and the aggregator.
pub enum ProtocolError {
    /// Another number of reports arrived than files were discovered.
    CountMismatch { expected: usize, received: usize },
    /// The report at `index` belongs to another root.
    ForeignRoot { index: usize, found: usize },
}

/// The paths recorded once `msgs` have passed the guard, starting from `seen`.
pub open spec fn seen_after(seen: Set<Seq<char>>, msgs: Seq<Message>) -> Set<Seq<char>>
    decreases msgs.len(),
{
    if msgs.len() == 0 {
        seen
    } else {
        let s = seen_after(seen, msgs.drop_last());
        match msgs.last().hashed {
            Hashed::Res(_, p) => s.insert(p@),
            Hashed::Failed => s,
        }
    }
}

/// The (digest, path) pairs that the guard lets through, in arrival order.
pub open spec fn admitted(seen: Set<Seq<char>>, msgs: Seq<Message>) -> Seq<EntryView>
    decreases msgs.len(),
{
    if msgs.len() == 0 {
        Seq::empty()
    } else {
        let prev = admitted(seen, msgs.drop_last());
        match msgs.last().hashed {
            Hashed::Res(d, p) => if seen_after(seen, msgs.drop_last()).contains(p@) {
                prev
            } else {
                prev.push((d@, p@))
            },
            Hashed::Failed => prev,
        }
    }
}

/// How many of `msgs` are failures.
pub open spec fn failure_count(msgs: Seq<Message>) -> nat
    decreases msgs.len(),
{
    if msgs.len() == 0 {
        0
    } else {
        failure_count(msgs.drop_last()) + if msgs.last().hashed is Failed {
            1nat
        } else {
            0nat
        }
    }
}

/// The admitted paths are new to the run, pairwise distinct, and recorded.
pub proof fn lemma_admitted_fresh(seen: Set<Seq<char>>, msgs: Seq<Message>)
    ensures
        forall|i: int| 0 <= i < admitted(seen, msgs).len() ==> !seen.contains(#[trigger] admitted(seen, msgs)[i].1),
        forall|i: int| 0 <= i < admitted(seen, msgs).len() ==> seen_after(seen, msgs).contains(#[trigger] admitted(seen, msgs)[i].1),
        forall|i: int, j: int| 0 <= i < j < admitted(seen, msgs).len() ==> #[trigger] admitted(seen, msgs)[i].1 != #[trigger] admitted(seen, msgs)[j].1,
        seen.subset_of(seen_after(seen, msgs)),
    decreases msgs.len(),
{
    if msgs.len() > 0 {
        let pre = msgs.drop_last();
        lemma_admitted_fresh(seen, pre);
        let a0 = admitted(seen, pre);
        let s0 = seen_after(seen, pre);
        match msgs.last().hashed {
            Hashed::Res(d, p) => {
                assert(s0.subset_of(s0.insert(p@)));
                if !s0.contains(p@) {
                    let a1 = a0.push((d@, p@));
                    assert(a1 == admitted(seen, msgs));
                    assert forall|i: int| 0 <= i < a1.len() implies seen_after(seen, msgs).contains(#[trigger] a1[i].1) by {
                        if i < a0.len() {
                            assert(a1[i] == a0[i]);
                        }
                    }
                    assert forall|i: int, j: int| 0 <= i < j < a1.len() implies #[trigger] a1[i].1 != #[trigger] a1[j].1 by {
                        assert(a1[i] == a0[i]);
                        if j < a0.len() {
                            assert(a1[j] == a0[j]);
                        }
                    }
                    assert forall|i: int| 0 <= i < a1.len() implies !seen.contains(#[trigger] a1[i].1) by {
                        if i < a0.len() {
                            assert(a1[i] == a0[i]);
                        }
                    }
                }
            },
            Hashed::Failed => {},
        }
    }
}

/// Folds the reports drained for root `root`, of which `expected` were
/// announced. The count and the root tags are checked first; on a breach
/// nothing is recorded. Otherwise every successful report passes the guard,
/// and those it admits become the root's entries, in arrival order.
pub fn fold_root(guard: &mut Guard, root: usize, expected: usize, msgs: &Vec<Message>) -> (r: Result<RootScan, ProtocolError>)
    ensures
        msgs@.len() != expected <==> r == Err::<RootScan, ProtocolError>(
            ProtocolError::CountMismatch { expected, received: msgs@.len() as usize },
        ),
        r matches Err(ProtocolError::ForeignRoot { index, found }) ==> {
            &&& msgs@.len() == expected
            &&& index < msgs@.len()
            &&& msgs@[index as int].root == found
            &&& found != root
            &&& forall|j: int| 0 <= j < index ==> (#[trigger] msgs@[j]).root == root
        },
        r is Ok <==> (msgs@.len() == expected && forall|j: int| 0 <= j < msgs@.len() ==> (#[trigger] msgs@[j]).root == root),
        r is Err ==> final(guard)@ == old(guard)@,
        r matches Ok(scan) ==> {
            &&& entry_views(scan.entries@) == admitted(old(guard)@, msgs@)
            &&& scan.failures == failure_count(msgs@)
            &&& final(guard)@ == seen_after(old(guard)@, msgs@)
        },
{
    if msgs.len() != expected {
        return Err(ProtocolError::CountMismatch { expected, received: msgs.len() });
    }
    let mut i: usize = 0;
    while i < msgs.len()
        invariant
            i <= msgs@.len(),
            msgs@.len() == expected,
            forall|j: int| 0 <= j < i ==> (#[trigger] msgs@[j]).root == root,
        decreases msgs.len() - i,
    {
        if msgs[i].root != root {
            return Err(ProtocolError::ForeignRoot { index: i, found: msgs[i].root });
        }
        i = i + 1;
    }
    let mut entries: Vec<Entry> = Vec::new();
    let mut failures: usize = 0;
    let mut k: usize = 0;
    while k < msgs.len()
        invariant
            k <= msgs@.len(),
            entry_views(entries@) == admitted(old(guard)@, msgs@.take(k as int)),
            failures == failure_count(msgs@.take(k as int)),
            failures <= k,
            guard@ == seen_after(old(guard)@, msgs@.take(k as int)),
        decreases msgs.len() - k,
    {
        assert(msgs@.take(k + 1).drop_last() =~= msgs@.take(k as int));
        let ghost before = entry_views(entries@);
        match &msgs[k].hashed {
            Hashed::Res(d, p) => {
                if guard.record(p) {
                    entries.push(Entry { digest: d.clone(), path: p.clone() });
                    assert(entry_views(entries@) =~= before.push((d@, p@)));
                }
            },
            Hashed::Failed => {
                failures = failures + 1;
            },
        }
        k = k + 1;
    }
    assert(msgs@.take(msgs@.len() as int) =~= msgs@);
    Ok(RootScan { entries, failures })
}

} // verus!
