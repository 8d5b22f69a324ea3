use vstd::prelude::*;

use crate::names::{add_names, contains_name, fresh, fresh_name};
use crate::term::{Henk, Term};

verus! {

impl Term {
    /// `self` with every free `x` replaced by `u`, renaming binders that would capture.
    /// The domain of a binder lies in the outer scope: it is substituted, never renamed.
    pub open spec fn subst(self, x: Seq<char>, u: Term) -> Term
        decreases self.size(), 1nat,
    {
        match self {
            Term::Universe(_) => self,
            Term::Var(y) => if y == x {
                u
            } else {
                self
            },
            Term::App(a, b) => Term::App(Box::new(a.subst(x, u)), Box::new(b.subst(x, u))),
            Term::Lam(y, d, e) => {
                let (y2, e2) = subst_under(y, *e, x, u);
                Term::Lam(y2, Box::new(d.subst(x, u)), Box::new(e2))
            },
            Term::Pi(y, d, e) => {
                let (y2, e2) = subst_under(y, *e, x, u);
                Term::Pi(y2, Box::new(d.subst(x, u)), Box::new(e2))
            },
        }
    }
}

/// The binder name and the body that result from substituting `u` for `x` in the
/// scope `e` of a binder `y`. When `y` is free in `u` it is renamed to a name free
/// neither in `e` nor in `u`; if that name is `x`, `x` is then bound and the body
/// is only renamed.
pub open spec fn subst_under(y: Seq<char>, e: Term, x: Seq<char>, u: Term) -> (Seq<char>, Term)
    decreases e.size() + 1, 0nat,
{
    if y == x {
        (y, e)
    } else if !u.free().contains(y) {
        (y, e.subst(x, u))
    } else {
        let y2 = fresh_name(y, e.free().union(u.free()));
        let e1 = e.subst(y, Term::Var(y2));
        // Renaming keeps the size (`lemma_subst_var_size`), so the last branch
        // is never taken; comparing sizes lets termination rest on that fact.
        if y2 == x {
            (y2, e1)
        } else if e1.size() == e.size() {
            (y2, e1.subst(x, u))
        } else {
            (y2, e1)
        }
    }
}

/// Substituting a variable keeps the size of a term.
pub proof fn lemma_subst_var_size(t: Term, x: Seq<char>, z: Seq<char>)
    ensures
        t.subst(x, Term::Var(z)).size() == t.size(),
    decreases t.size(), 1nat,
{
    match t {
        Term::Universe(_) => {},
        Term::Var(_) => {},
        Term::App(a, b) => {
            lemma_subst_var_size(*a, x, z);
            lemma_subst_var_size(*b, x, z);
        },
        Term::Lam(y, d, e) => {
            lemma_subst_var_size(*d, x, z);
            lemma_under_var_size(y, *e, x, z);
        },
        Term::Pi(y, d, e) => {
            lemma_subst_var_size(*d, x, z);
            lemma_under_var_size(y, *e, x, z);
        },
    }
}

proof fn lemma_under_var_size(y: Seq<char>, e: Term, x: Seq<char>, z: Seq<char>)
    ensures
        subst_under(y, e, x, Term::Var(z)).1.size() == e.size(),
    decreases e.size() + 1, 0nat,
{
    let u = Term::Var(z);
    if y == x {
    } else if !u.free().contains(y) {
        lemma_subst_var_size(e, x, z);
    } else {
        let y2 = fresh_name(y, e.free().union(u.free()));
        let e1 = e.subst(y, Term::Var(y2));
        lemma_subst_var_size(e, y, y2);
        if y2 != x {
            lemma_subst_var_size(e1, x, z);
        }
    }
}

impl Henk {
    /// Replaces the free occurrences of `from` by `to`, renaming any binder that
    /// would capture a free name of `to`.
    pub fn subst(self, from: &String, to: &Henk) -> (r: Henk)
        ensures
            r@ == self@.subst(from@, to@),
        decreases self@.size(), 1nat,
    {
        match self {
            Henk::Universe(n) => Henk::Universe(n),
            Henk::Variable(v) => {
                if v == *from {
                    to.clone()
                } else {
                    Henk::Variable(v)
                }
            },
            Henk::App(a, b) => Henk::App(Box::new((*a).subst(from, to)), Box::new((*b).subst(from, to))),
            Henk::Lambda(y, d, e) => {
                let d2 = (*d).subst(from, to);
                let (y2, e2) = subst_under_exec(y, *e, from, to);
                Henk::Lambda(y2, Box::new(d2), Box::new(e2))
            },
            Henk::Forall(y, d, e) => {
                let d2 = (*d).subst(from, to);
                let (y2, e2) = subst_under_exec(y, *e, from, to);
                Henk::Forall(y2, Box::new(d2), Box::new(e2))
            },
        }
    }
}

fn subst_under_exec(y: String, e: Henk, from: &String, to: &Henk) -> (r: (String, Henk))
    ensures
        (r.0@, r.1@) == subst_under(y@, e@, from@, to@),
    decreases e@.size() + 1, 0nat,
{
    if y == *from {
        (y, e)
    } else if !contains_name(&to.free_vars(), &y) {
        (y, e.subst(from, to))
    } else {
        let mut used = e.free_vars();
        add_names(&mut used, &to.free_vars());
        let y2 = fresh(&y, &used);
        assert(y2@ == fresh_name(y@, e@.free().union(to@.free())));
        let ghost e_model = e@;
        let e1 = e.subst(&y, &Henk::Variable(y2.clone()));
        proof {
            lemma_subst_var_size(e_model, y@, y2@);
        }
        if y2 == *from {
            (y2, e1)
        } else {
            (y2, e1.subst(from, to))
        }
    }
}

} // verus!

verus! {

/// The free names of `t[x := u]`, given `f` the free names of `t` and `g` those of `u`.
pub open spec fn free_after(f: Set<Seq<char>>, x: Seq<char>, g: Set<Seq<char>>) -> Set<Seq<char>> {
    if f.contains(x) {
        f.remove(x).union(g)
    } else {
        f
    }
}

/// Substituting `x` by `x` itself changes nothing.
pub proof fn lemma_subst_same_var(t: Term, x: Seq<char>)
    ensures
        t.subst(x, Term::Var(x)) == t,
    decreases t,
{
    assert(Term::Var(x).free() =~= set![x]);
    match t {
        Term::Universe(_) => {},
        Term::Var(_) => {},
        Term::App(a, b) => {
            lemma_subst_same_var(*a, x);
            lemma_subst_same_var(*b, x);
        },
        Term::Lam(y, d, e) => {
            lemma_subst_same_var(*d, x);
            lemma_subst_same_var(*e, x);
            assert(subst_under(y, *e, x, Term::Var(x)) == (y, *e));
        },
        Term::Pi(y, d, e) => {
            lemma_subst_same_var(*d, x);
            lemma_subst_same_var(*e, x);
            assert(subst_under(y, *e, x, Term::Var(x)) == (y, *e));
        },
    }
}

/// The free names of a substitution: those of `t` but `x`, and, when `x` occurs
/// free in `t`, those of `u`.
pub proof fn lemma_subst_free(t: Term, x: Seq<char>, u: Term)
    ensures
        t.subst(x, u).free() == free_after(t.free(), x, u.free()),
    decreases t.size(), 1nat,
{
    match t {
        Term::Universe(_) => {
            assert(t.subst(x, u).free() =~= free_after(t.free(), x, u.free()));
        },
        Term::Var(y) => {
            assert(t.subst(x, u).free() =~= free_after(t.free(), x, u.free()));
        },
        Term::App(a, b) => {
            lemma_subst_free(*a, x, u);
            lemma_subst_free(*b, x, u);
            assert(t.subst(x, u).free() =~= free_after(t.free(), x, u.free()));
        },
        Term::Lam(y, d, e) => {
            lemma_subst_free(*d, x, u);
            lemma_under_free(y, *e, x, u);
            assert(t.subst(x, u).free() =~= free_after(t.free(), x, u.free()));
        },
        Term::Pi(y, d, e) => {
            lemma_subst_free(*d, x, u);
            lemma_under_free(y, *e, x, u);
            assert(t.subst(x, u).free() =~= free_after(t.free(), x, u.free()));
        },
    }
}

proof fn lemma_under_free(y: Seq<char>, e: Term, x: Seq<char>, u: Term)
    ensures
        ({
            let (y2, e2) = subst_under(y, e, x, u);
            e2.free().remove(y2) == free_after(e.free().remove(y), x, u.free())
        }),
    decreases e.size() + 1, 0nat,
{
    let (y2, e2) = subst_under(y, e, x, u);
    if y == x {
        assert(e2.free().remove(y2) =~= free_after(e.free().remove(y), x, u.free()));
    } else if !u.free().contains(y) {
        lemma_subst_free(e, x, u);
        assert(e2.free().remove(y2) =~= free_after(e.free().remove(y), x, u.free()));
    } else {
        let used = e.free().union(u.free());
        crate::names::lemma_free_finite(e);
        crate::names::lemma_free_finite(u);
        crate::names::lemma_fresh_from_unused(y.push('\''), used);
        let e1 = e.subst(y, Term::Var(y2));
        lemma_subst_free(e, y, Term::Var(y2));
        lemma_subst_var_size(e, y, y2);
        if y2 != x {
            lemma_subst_free(e1, x, u);
        }
        assert(e2.free().remove(y2) =~= free_after(e.free().remove(y), x, u.free()));
    }
}

/// Freshness: the free names of `t[x := u]` are those of `t` but `x`, and those of
/// `u` only when `x` occurs free in `t`.
pub proof fn lemma_subst_free_within(t: Term, x: Seq<char>, u: Term)
    ensures
        t.subst(x, u).free().subset_of(
            t.free().remove(x).union(if t.free().contains(x) { u.free() } else { Set::empty() }),
        ),
{
    lemma_subst_free(t, x, u);
}

/// Capture avoidance: where `x` occurs free in `t`, every free name of `u` is still
/// free in `t[x := u]`; no binder of `t` captures it.
pub proof fn lemma_subst_no_capture(t: Term, x: Seq<char>, u: Term)
    requires
        t.free().contains(x),
    ensures
        u.free().subset_of(t.subst(x, u).free()),
{
    lemma_subst_free(t, x, u);
}

} // verus!
