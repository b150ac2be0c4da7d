//! Lexicographic order on paths and digests, and sorting into that order.
use vstd::prelude::*;
use vstd::string::*;

verus! {

/// `a` comes strictly before `b`, comparing characters by code point.
pub open spec fn lex_lt(a: Seq<char>, b: Seq<char>) -> bool
    decreases a.len(),
{
    if a.len() == 0 {
        b.len() > 0
    } else if b.len() == 0 {
        false
    } else if a[0] != b[0] {
        a[0] < b[0]
    } else {
        lex_lt(a.drop_first(), b.drop_first())
    }
}

/// Every element comes strictly before each later one.
pub open spec fn sorted_strict(s: Seq<Seq<char>>) -> bool {
    forall|i: int, j: int| 0 <= i < j < s.len() ==> #[trigger] lex_lt(s[i], s[j])
}

/// The elements of `s` in strictly increasing order.
pub open spec fn sorted_of(s: Set<Seq<char>>) -> Seq<Seq<char>> {
    choose|q: Seq<Seq<char>>| sorted_strict(q) && q.to_set() == s
}

/// The character sequences that a vector of strings holds.
pub open spec fn views(v: Seq<String>) -> Seq<Seq<char>> {
    v.map_values(|s: String| s@)
}

pub proof fn lemma_lex_irreflexive(a: Seq<char>)
    ensures
        !lex_lt(a, a),
    decreases a.len(),
{
    if a.len() > 0 {
        lemma_lex_irreflexive(a.drop_first());
    }
}

pub proof fn lemma_lex_transitive(a: Seq<char>, b: Seq<char>, c: Seq<char>)
    requires
        lex_lt(a, b),
        lex_lt(b, c),
    ensures
        lex_lt(a, c),
    decreases a.len(),
{
    if a.len() > 0 && b.len() > 0 && c.len() > 0 && a[0] == b[0] && b[0] == c[0] {
        lemma_lex_transitive(a.drop_first(), b.drop_first(), c.drop_first());
    }
}

pub proof fn lemma_lex_total(a: Seq<char>, b: Seq<char>)
    requires
        a != b,
    ensures
        lex_lt(a, b) || lex_lt(b, a),
    decreases a.len(),
{
    if a.len() > 0 && b.len() > 0 {
        if a[0] == b[0] {
            if a.drop_first() == b.drop_first() {
                assert(a =~= seq![a[0]] + a.drop_first());
                assert(b =~= seq![b[0]] + b.drop_first());
            }
            lemma_lex_total(a.drop_first(), b.drop_first());
        }
    } else if a.len() == 0 && b.len() == 0 {
        assert(a =~= b);
    }
}

/// The first element of a strictly sorted sequence precedes all others.
proof fn lemma_sorted_drop_first_set(s: Seq<Seq<char>>)
    requires
        sorted_strict(s),
        s.len() > 0,
    ensures
        s.drop_first().to_set() == s.to_set().remove(s[0]),
        forall|x: Seq<char>| s.to_set().contains(x) && x != s[0] ==> lex_lt(s[0], x),
{
    assert forall|x: Seq<char>| s.to_set().contains(x) && x != s[0] implies lex_lt(s[0], x) by {
        let j = choose|j: int| 0 <= j < s.len() && s[j] == x;
        assert(j != 0);
        assert(lex_lt(s[0], s[j]));
    }
    assert forall|x: Seq<char>| #[trigger] s.drop_first().to_set().contains(x) <==> s.to_set().remove(
        s[0],
    ).contains(x) by {
        if s.drop_first().to_set().contains(x) {
            let j = choose|j: int| 0 <= j < s.len() - 1 && s.drop_first()[j] == x;
            assert(s[j + 1] == x);
            assert(lex_lt(s[0], s[j + 1]));
            lemma_lex_irreflexive(x);
            assert(s.to_set().contains(x));
        }
        if s.to_set().remove(s[0]).contains(x) {
            let j = choose|j: int| 0 <= j < s.len() && s[j] == x;
            assert(j != 0);
            assert(s.drop_first()[j - 1] == x);
        }
    }
    assert(s.drop_first().to_set() =~= s.to_set().remove(s[0]));
}

/// Two strictly sorted sequences with the same elements are equal.
pub proof fn lemma_sorted_unique(a: Seq<Seq<char>>, b: Seq<Seq<char>>)
    requires
        sorted_strict(a),
        sorted_strict(b),
        a.to_set() == b.to_set(),
    ensures
        a == b,
    decreases a.len(),
{
    if a.len() == 0 {
        if b.len() > 0 {
            assert(b.to_set().contains(b[0]));
        }
        assert(a =~= b);
    } else {
        assert(a.to_set().contains(a[0]));
        if b.len() == 0 {
            assert(false);
        }
        assert(b.to_set().contains(b[0]));
        lemma_sorted_drop_first_set(a);
        lemma_sorted_drop_first_set(b);
        if a[0] != b[0] {
            lemma_lex_transitive(a[0], b[0], a[0]);
            lemma_lex_irreflexive(a[0]);
        }
        assert(sorted_strict(a.drop_first()) && sorted_strict(b.drop_first())) by {
            assert forall|i: int, j: int| 0 <= i < j < a.drop_first().len() implies #[trigger] lex_lt(
                a.drop_first()[i],
                a.drop_first()[j],
            ) by {
                assert(lex_lt(a[i + 1], a[j + 1]));
            }
            assert forall|i: int, j: int| 0 <= i < j < b.drop_first().len() implies #[trigger] lex_lt(
                b.drop_first()[i],
                b.drop_first()[j],
            ) by {
                assert(lex_lt(b[i + 1], b[j + 1]));
            }
        }
        lemma_sorted_unique(a.drop_first(), b.drop_first());
        assert(a =~= seq![a[0]] + a.drop_first());
        assert(b =~= seq![b[0]] + b.drop_first());
    }
}

/// An element missing from a strictly sorted sequence can be put in its place.
proof fn lemma_sorted_insert(q: Seq<Seq<char>>, x: Seq<char>) -> (pos: int)
    requires
        sorted_strict(q),
        !q.contains(x),
    ensures
        0 <= pos <= q.len(),
        sorted_strict(q.insert(pos, x)),
    decreases q.len(),
{
    if q.len() == 0 {
        0
    } else if lex_lt(x, q[0]) {
        let r = q.insert(0, x);
        assert forall|i: int, j: int| 0 <= i < j < r.len() implies #[trigger] lex_lt(r[i], r[j]) by {
            if i == 0 {
                if j > 1 {
                    lemma_lex_transitive(x, q[0], q[j - 1]);
                }
            } else {
                assert(lex_lt(q[i - 1], q[j - 1]));
            }
        }
        0
    } else {
        assert(q[0] != x);
        lemma_lex_total(q[0], x);
        let t = q.drop_first();
        assert(sorted_strict(t)) by {
            assert forall|i: int, j: int| 0 <= i < j < t.len() implies #[trigger] lex_lt(t[i], t[j]) by {
                assert(lex_lt(q[i + 1], q[j + 1]));
            }
        }
        assert(!t.contains(x)) by {
            if t.contains(x) {
                let k = choose|k: int| 0 <= k < t.len() && t[k] == x;
                assert(q[k + 1] == x);
            }
        }
        let p = lemma_sorted_insert(t, x);
        let ti = t.insert(p, x);
        let r = q.insert(p + 1, x);
        assert(r =~= seq![q[0]] + ti);
        assert forall|i: int, j: int| 0 <= i < j < r.len() implies #[trigger] lex_lt(r[i], r[j]) by {
            if i == 0 {
                assert(r[j] == ti[j - 1]);
                if j - 1 < p {
                    assert(lex_lt(q[0], q[j]));
                } else if j - 1 > p {
                    assert(lex_lt(q[0], q[j - 1]));
                }
            } else {
                assert(r[i] == ti[i - 1] && r[j] == ti[j - 1]);
            }
        }
        p + 1
    }
}

/// Every finite set of character sequences has a strictly sorted form.
pub proof fn lemma_sorted_exists(s: Set<Seq<char>>)
    requires
        s.finite(),
    ensures
        sorted_strict(sorted_of(s)),
        sorted_of(s).to_set() == s,
    decreases s.len(),
{
    if s.len() == 0 {
        let q = Seq::<Seq<char>>::empty();
        assert(q.to_set() =~= s);
    } else {
        let x = s.choose();
        let rest = s.remove(x);
        lemma_sorted_exists(rest);
        let q0 = sorted_of(rest);
        assert(!q0.contains(x)) by {
            if q0.contains(x) {
                assert(q0.to_set().contains(x));
            }
        }
        let p = lemma_sorted_insert(q0, x);
        let q = q0.insert(p, x);
        assert(q.to_set() =~= s) by {
            assert forall|y: Seq<char>| q.to_set().contains(y) implies s.contains(y) by {
                let j = choose|j: int| 0 <= j < q.len() && q[j] == y;
                if j < p {
                    assert(q0[j] == y);
                    assert(q0.to_set().contains(y));
                } else if j > p {
                    assert(q0[j - 1] == y);
                    assert(q0.to_set().contains(y));
                }
            }
            assert forall|y: Seq<char>| s.contains(y) implies q.to_set().contains(y) by {
                if y == x {
                    assert(q[p] == y);
                } else {
                    assert(q0.to_set().contains(y));
                    let j = choose|j: int| 0 <= j < q0.len() && q0[j] == y;
                    if j < p {
                        assert(q[j] == y);
                    } else {
                        assert(q[j + 1] == y);
                    }
                }
            }
        }
        assert(exists|r: Seq<Seq<char>>| sorted_strict(r) && r.to_set() == s);
    }
}

/// A strictly sorted sequence is the sorted form of its own elements.
pub proof fn lemma_sorted_of(q: Seq<Seq<char>>)
    requires
        sorted_strict(q),
    ensures
        sorted_of(q.to_set()) == q,
{
    let s = q.to_set();
    assert(exists|r: Seq<Seq<char>>| sorted_strict(r) && r.to_set() == s);
    let r = sorted_of(s);
    lemma_sorted_unique(r, q);
}

/// Whether `a` comes strictly before `b`.
pub fn str_lt(a: &String, b: &String) -> (r: bool)
    ensures
        r == lex_lt(a@, b@),
{
    let sa = a.as_str();
    let sb = b.as_str();
    let na = sa.unicode_len();
    let nb = sb.unicode_len();
    let mut i: usize = 0;
    assert(a@.skip(0) =~= a@);
    assert(b@.skip(0) =~= b@);
    while i < na && i < nb
        invariant
            i <= na,
            i <= nb,
            na == a@.len(),
            nb == b@.len(),
            sa@ == a@,
            sb@ == b@,
            lex_lt(a@, b@) == lex_lt(a@.skip(i as int), b@.skip(i as int)),
        decreases na - i,
    {
        let ca = sa.get_char(i);
        let cb = sb.get_char(i);
        if ca != cb {
            return ca < cb;
        }
        assert(a@.skip(i as int).drop_first() =~= a@.skip(i + 1));
        assert(b@.skip(i as int).drop_first() =~= b@.skip(i + 1));
        i = i + 1;
    }
    i < nb
}

/// The distinct elements of `v`, in strictly increasing order.
pub fn sort_unique(v: &Vec<String>) -> (r: Vec<String>)
    ensures
        sorted_strict(views(r@)),
        views(r@).to_set() == views(v@).to_set(),
        views(r@) == sorted_of(views(v@).to_set()),
{
    let mut r: Vec<String> = Vec::new();
    let mut k: usize = 0;
    while k < v.len()
        invariant
            k <= v.len(),
            sorted_strict(views(r@)),
            views(r@).to_set() == views(v@.subrange(0, k as int)).to_set(),
        decreases v.len() - k,
    {
        let x = &v[k];
        let mut pos: usize = 0;
        while pos < r.len() && str_lt(&r[pos], x)
            invariant
                pos <= r.len(),
                forall|m: int| 0 <= m < pos ==> lex_lt(#[trigger] views(r@)[m], x@),
            decreases r.len() - pos,
        {
            pos = pos + 1;
        }
        let ghost before = views(r@);
        if pos < r.len() && r[pos] == *x {
            assert(views(r@)[pos as int] == x@);
            assert(views(r@).to_set() =~= before.to_set().insert(x@));
        } else {
            proof {
                if pos < r.len() {
                    lemma_lex_total(before[pos as int], x@);
                }
            }
            r.insert(pos, x.clone());
            assert(views(r@) =~= before.insert(pos as int, x@));
            assert forall|i: int, j: int| 0 <= i < j < views(r@).len() implies #[trigger] lex_lt(
                views(r@)[i],
                views(r@)[j],
            ) by {
                if j < pos {
                } else if j == pos {
                } else if i < pos {
                    lemma_lex_transitive(before[i], x@, before[pos as int]);
                    if j - 1 > pos {
                        lemma_lex_transitive(before[i], before[pos as int], before[j - 1]);
                    }
                } else if i == pos {
                    if j - 1 > pos {
                        lemma_lex_transitive(x@, before[pos as int], before[j - 1]);
                    }
                } else {
                    assert(lex_lt(before[i - 1], before[j - 1]));
                }
            }
            assert(views(r@).to_set() =~= before.to_set().insert(x@)) by {
                assert forall|y: Seq<char>| views(r@).to_set().contains(y) implies before.to_set().insert(x@).contains(y) by {
                    let j = choose|j: int| 0 <= j < views(r@).len() && views(r@)[j] == y;
                    if j < pos {
                        assert(before[j] == y);
                    } else if j > pos {
                        assert(before[j - 1] == y);
                    }
                }
                assert forall|y: Seq<char>| before.to_set().insert(x@).contains(y) implies views(r@).to_set().contains(y) by {
                    if y == x@ {
                        assert(views(r@)[pos as int] == y);
                    } else {
                        let j = choose|j: int| 0 <= j < before.len() && before[j] == y;
                        if j < pos {
                            assert(views(r@)[j] == y);
                        } else {
                            assert(views(r@)[j + 1] == y);
                        }
                    }
                }
            }
        }
        assert(views(v@.subrange(0, k + 1)) =~= views(v@.subrange(0, k as int)).push(x@));
        assert(views(v@.subrange(0, k + 1)).to_set() =~= views(v@.subrange(0, k as int)).to_set().insert(x@)) by {
            assert forall|y: Seq<char>| views(v@.subrange(0, k + 1)).to_set().contains(y) <==> 
                #[trigger] views(v@.subrange(0, k as int)).to_set().insert(x@).contains(y) by {
                let s0 = views(v@.subrange(0, k as int));
                if s0.push(x@).contains(y) {
                    let j = choose|j: int| 0 <= j < s0.len() + 1 && s0.push(x@)[j] == y;
                    if j < s0.len() {
                        assert(s0[j] == y);
                    }
                }
                if s0.to_set().insert(x@).contains(y) {
                    if y == x@ {
                        assert(s0.push(x@)[s0.len() as int] == y);
                    } else {
                        let j = choose|j: int| 0 <= j < s0.len() && s0[j] == y;
                        assert(s0.push(x@)[j] == y);
                    }
                }
            }
        }
        k = k + 1;
    }
    assert(v@.subrange(0, v@.len() as int) =~= v@);
    proof {
        lemma_sorted_of(views(r@));
    }
    r
}

} // verus!
