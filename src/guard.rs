//! The canonicalization guard: one record of canonical paths for a whole run.
use vstd::prelude::*;
use crate::lex::views;

verus! {

/// The canonical paths recorded so far in a run, across all roots.
pub struct Guard {
    seen: Vec<String>,
}

impl View for Guard {
    type V = Set<Seq<char>>;

    closed spec fn view(&self) -> Set<Seq<char>> {
        views(self.seen@).to_set()
    }
}

impl Guard {
    /// A guard that has recorded nothing.
    pub fn new() -> (g: Guard)
        ensures
            g@ == Set::<Seq<char>>::empty(),
    {
        let g = Guard { seen: Vec::new() };
        assert(g@ =~= Set::<Seq<char>>::empty());
        g
    }

    /// Whether `path` has been recorded.
    pub fn contains(&self, path: &String) -> (r: bool)
        ensures
            r == self@.contains(path@),
    {
        let mut i: usize = 0;
        while i < self.seen.len()
            invariant
                i <= self.seen.len(),
                forall|j: int| 0 <= j < i ==> #[trigger] views(self.seen@)[j] != path@,
            decreases self.seen.len() - i,
        {
            if self.seen[i] == *path {
                assert(views(self.seen@)[i as int] == path@);
                return true;
            }
            i = i + 1;
        }
        false
    }

    /// Records `path` and says whether it was new; a path already recorded is
    /// refused.
    pub fn record(&mut self, path: &String) -> (r: bool)
        ensures
            r == !old(self)@.contains(path@),
            final(self)@ == old(self)@.insert(path@),
    {
        if self.contains(path) {
            assert(self@ =~= self@.insert(path@));
            false
        } else {
            let ghost before = views(self.seen@);
            self.seen.push(path.clone());
            assert(views(self.seen@) =~= before.push(path@));
            assert(views(self.seen@).to_set() =~= before.to_set().insert(path@)) by {
                assert forall|y: Seq<char>| #[trigger] before.push(path@).contains(y) <==> before.to_set().insert(path@).contains(y) by {
                    if before.push(path@).contains(y) && y != path@ {
                        let j = choose|j: int| 0 <= j < before.len() + 1 && before.push(path@)[j] == y;
                        assert(before[j] == y);
                    }
                    if y == path@ {
                        assert(before.push(path@)[before.len() as int] == y);
                    } else if before.contains(y) {
                        let j = choose|j: int| 0 <= j < before.len() && before[j] == y;
                        assert(before.push(path@)[j] == y);
                    }
                }
            }
            true
        }
    }
}

} // verus!
