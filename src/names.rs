use vstd::prelude::*;

use crate::term::{Henk, Term};

verus! {

impl Term {
    /// Names that occur as a variable with no enclosing binder for them.
    pub open spec fn free(self) -> Set<Seq<char>>
        decreases self,
    {
        match self {
            Term::Universe(_) => Set::empty(),
            Term::Var(x) => set![x],
            Term::App(a, b) => a.free().union(b.free()),
            Term::Lam(x, d, e) => d.free().union(e.free().remove(x)),
            Term::Pi(x, d, e) => d.free().union(e.free().remove(x)),
        }
    }
}

/// The names held by a list of strings.
pub open spec fn names_of(v: Seq<String>) -> Set<Seq<char>> {
    Set::new(|s: Seq<char>| exists|i: int| 0 <= i < v.len() && v[i]@ == s)
}

/// No name appears twice in the list.
pub open spec fn distinct_names(v: Seq<String>) -> bool {
    forall|i: int, j: int| 0 <= i < j < v.len() ==> v[i]@ != v[j]@
}

/// Number of names in `used` at least as long as `cand`.
pub open spec fn longer_names(cand: Seq<char>, used: Set<Seq<char>>) -> nat {
    used.filter(|s: Seq<char>| s.len() >= cand.len()).len()
}

/// The first of `cand`, `cand'`, `cand''`, ... that is not in `used`.
pub open spec fn fresh_from(cand: Seq<char>, used: Set<Seq<char>>) -> Seq<char>
    decreases longer_names(cand, used),
    when used.finite()
{
    if used.contains(cand) {
        proof {
            lemma_longer_names_decrease(cand, used);
        }
        fresh_from(cand.push('\''), used)
    } else {
        cand
    }
}

/// The name that replaces the binder `y` when it would capture a name of `used`:
/// `y` followed by the fewest primes, at least one, that make it unused.
pub open spec fn fresh_name(y: Seq<char>, used: Set<Seq<char>>) -> Seq<char> {
    fresh_from(y.push('\''), used)
}

/// Each step of the search leaves fewer used names to pass.
pub proof fn lemma_longer_names_decrease(cand: Seq<char>, used: Set<Seq<char>>)
    requires
        used.finite(),
        used.contains(cand),
    ensures
        longer_names(cand.push('\''), used) < longer_names(cand, used),
{
    let f = |s: Seq<char>| s.len() >= cand.len();
    let g = |s: Seq<char>| s.len() >= cand.push('\'').len();
    let big = used.filter(f);
    let small = used.filter(g);
    assert(small.subset_of(big.remove(cand)));
    used.lemma_len_filter(f);
    vstd::set_lib::lemma_len_subset(small, big.remove(cand));
}

/// The name that the search ends on is unused.
pub proof fn lemma_fresh_from_unused(cand: Seq<char>, used: Set<Seq<char>>)
    requires
        used.finite(),
    ensures
        !used.contains(fresh_from(cand, used)),
    decreases longer_names(cand, used),
{
    if used.contains(cand) {
        lemma_longer_names_decrease(cand, used);
        lemma_fresh_from_unused(cand.push('\''), used);
    }
}

/// A term has finitely many free names.
pub proof fn lemma_free_finite(t: Term)
    ensures
        t.free().finite(),
    decreases t,
{
    match t {
        Term::Universe(_) => {},
        Term::Var(_) => {},
        Term::App(a, b) => {
            lemma_free_finite(*a);
            lemma_free_finite(*b);
        },
        Term::Lam(_, d, e) => {
            lemma_free_finite(*d);
            lemma_free_finite(*e);
        },
        Term::Pi(_, d, e) => {
            lemma_free_finite(*d);
            lemma_free_finite(*e);
        },
    }
}

/// Whether `x` is among the names of `v`.
pub fn contains_name(v: &Vec<String>, x: &String) -> (r: bool)
    ensures
        r == names_of(v@).contains(x@),
{
    let mut i: usize = 0;
    while i < v.len()
        invariant
            i <= v.len(),
            forall|j: int| 0 <= j < i ==> v@[j]@ != x@,
        decreases v.len() - i,
    {
        if v[i] == *x {
            return true;
        }
        i = i + 1;
    }
    proof {
        assert(!names_of(v@).contains(x@));
    }
    false
}

/// Adds to `acc` the names of `more` that it does not hold yet.
pub(crate) fn add_names(acc: &mut Vec<String>, more: &Vec<String>)
    requires
        distinct_names(old(acc)@),
    ensures
        names_of(final(acc)@) == names_of(old(acc)@).union(names_of(more@)),
        distinct_names(final(acc)@),
{
    let ghost start = acc@;
    let mut i: usize = 0;
    while i < more.len()
        invariant
            i <= more.len(),
            names_of(acc@) =~= names_of(start).union(names_of(more@.take(i as int))),
            distinct_names(acc@),
        decreases more.len() - i,
    {
        let ghost before = acc@;
        if !contains_name(acc, &more[i]) {
            acc.push(more[i].clone());
            assert forall|p: int, q: int| 0 <= p < q < acc@.len() implies acc@[p]@ != acc@[q]@ by {
                if q == before.len() {
                    assert(acc@[p] == before[p]);
                    assert(names_of(before).contains(before[p]@));
                } else {
                    assert(acc@[p] == before[p] && acc@[q] == before[q]);
                }
            }
            assert(names_of(acc@) =~= names_of(before).insert(more@[i as int]@)) by {
                assert(acc@[before.len() as int] == more@[i as int]);
                assert forall|s: Seq<char>| names_of(before).contains(s) implies names_of(acc@).contains(s) by {
                    let k = choose|k: int| 0 <= k < before.len() && before[k]@ == s;
                    assert(acc@[k] == before[k]);
                }
            }
        }
        assert(names_of(more@.take(i as int + 1)) =~= names_of(more@.take(i as int)).insert(more@[i as int]@)) by {
            assert forall|s: Seq<char>| names_of(more@.take(i as int)).contains(s) implies names_of(more@.take(i as int + 1)).contains(s) by {
                let k = choose|k: int| 0 <= k < i && more@.take(i as int)[k]@ == s;
                assert(more@.take(i as int + 1)[k] == more@.take(i as int)[k]);
            }
            assert(more@.take(i as int + 1)[i as int] == more@[i as int]);
        }
        i = i + 1;
    }
    assert(more@.take(more.len() as int) =~= more@);
}

/// Takes out of `v` every copy of the name `x`.
fn without_name(v: Vec<String>, x: &String) -> (r: Vec<String>)
    requires
        distinct_names(v@),
    ensures
        names_of(r@) == names_of(v@).remove(x@),
        distinct_names(r@),
{
    let mut r: Vec<String> = Vec::new();
    let mut i: usize = 0;
    while i < v.len()
        invariant
            i <= v.len(),
            names_of(r@) =~= names_of(v@.take(i as int)).remove(x@),
            distinct_names(v@),
            distinct_names(r@),
        decreases v.len() - i,
    {
        let ghost before = r@;
        assert(names_of(v@.take(i as int + 1)) =~= names_of(v@.take(i as int)).insert(v@[i as int]@)) by {
            assert forall|s: Seq<char>| names_of(v@.take(i as int)).contains(s) implies names_of(v@.take(i as int + 1)).contains(s) by {
                let k = choose|k: int| 0 <= k < i && v@.take(i as int)[k]@ == s;
                assert(v@.take(i as int + 1)[k] == v@.take(i as int)[k]);
            }
            assert(v@.take(i as int + 1)[i as int] == v@[i as int]);
        }
        if v[i] != *x {
            r.push(v[i].clone());
            assert(!names_of(before).contains(v@[i as int]@)) by {
                if names_of(before).contains(v@[i as int]@) {
                    assert(names_of(v@.take(i as int)).contains(v@[i as int]@));
                    let k = choose|k: int| 0 <= k < i && v@.take(i as int)[k]@ == v@[i as int]@;
                    assert(v@.take(i as int)[k] == v@[k]);
                }
            }
            assert forall|p: int, q: int| 0 <= p < q < r@.len() implies r@[p]@ != r@[q]@ by {
                if q == before.len() {
                    assert(r@[p] == before[p]);
                    assert(names_of(before).contains(before[p]@));
                } else {
                    assert(r@[p] == before[p] && r@[q] == before[q]);
                }
            }
            assert(names_of(r@) =~= names_of(before).insert(v@[i as int]@)) by {
                assert(r@[before.len() as int] == v@[i as int]);
                assert forall|s: Seq<char>| names_of(before).contains(s) implies names_of(r@).contains(s) by {
                    let k = choose|k: int| 0 <= k < before.len() && before[k]@ == s;
                    assert(r@[k] == before[k]);
                }
            }
        }
        i = i + 1;
    }
    assert(v@.take(v.len() as int) =~= v@);
    r
}

impl Henk {
    /// The free names of this term, each once.
    pub fn free_vars(&self) -> (r: Vec<String>)
        ensures
            names_of(r@) == self@.free(),
            distinct_names(r@),
        decreases self,
    {
        match self {
            Henk::Universe(_) => {
                let r: Vec<String> = Vec::new();
                assert(names_of(r@) =~= Set::empty());
                r
            },
            Henk::Variable(x) => {
                let r: Vec<String> = vec![x.clone()];
                assert(names_of(r@) =~= set![x@]) by {
                    assert(r@[0] == *x);
                }
                r
            },
            Henk::App(a, b) => {
                let mut r = a.free_vars();
                add_names(&mut r, &b.free_vars());
                r
            },
            Henk::Lambda(x, d, e) => {
                let mut r = d.free_vars();
                add_names(&mut r, &without_name(e.free_vars(), x));
                r
            },
            Henk::Forall(x, d, e) => {
                let mut r = d.free_vars();
                add_names(&mut r, &without_name(e.free_vars(), x));
                r
            },
        }
    }
}

/// The name that replaces `y` when it would capture one of `used`.
pub fn fresh(y: &String, used: &Vec<String>) -> (r: String)
    ensures
        r@ == fresh_name(y@, names_of(used@)),
        !names_of(used@).contains(r@),
{
    let ghost u = names_of(used@);
    proof {
        lemma_names_finite(used@);
        reveal_strlit("'");
    }
    let mut cand = y.clone();
    cand.append("'");
    assert(cand@ =~= y@.push('\''));
    while contains_name(used, &cand)
        invariant
            u == names_of(used@),
            u.finite(),
            fresh_from(cand@, u) == fresh_name(y@, u),
        decreases longer_names(cand@, u),
    {
        proof {
            lemma_longer_names_decrease(cand@, u);
            reveal_strlit("'");
        }
        let ghost prev = cand@;
        cand.append("'");
        assert(cand@ =~= prev.push('\''));
    }
    proof {
        lemma_fresh_from_unused(cand@, u);
    }
    cand
}

proof fn lemma_names_finite(v: Seq<String>)
    ensures
        names_of(v).finite(),
    decreases v.len(),
{
    if v.len() == 0 {
        assert(names_of(v) =~= Set::empty());
    } else {
        let w = v.drop_last();
        lemma_names_finite(w);
        assert(names_of(v) =~= names_of(w).insert(v.last()@)) by {
            assert forall|s: Seq<char>| names_of(w).contains(s) implies names_of(v).contains(s) by {
                let k = choose|k: int| 0 <= k < w.len() && w[k]@ == s;
                assert(v[k] == w[k]);
            }
            assert forall|s: Seq<char>| names_of(v).contains(s) implies names_of(w).insert(v.last()@).contains(s) by {
                let k = choose|k: int| 0 <= k < v.len() && v[k]@ == s;
                if k < w.len() {
                    assert(w[k] == v[k]);
                }
            }
        }
    }
}

} // verus!
