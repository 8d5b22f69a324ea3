use vstd::prelude::*;

use crate::subst::{lemma_subst_free, lemma_subst_same_var, lemma_subst_var_size, subst_under};
use crate::term::{Henk, Term};

verus! {

impl Term {
    /// Structural equality up to the names of binders: the scope of the right-hand
    /// binder is renamed to the left-hand name before the bodies are compared.
    pub open spec fn alpha_eq(self, o: Term) -> bool
        decreases self.size(),
    {
        match self {
            Term::Universe(n) => o matches Term::Universe(m) && n == m,
            Term::Var(x) => o matches Term::Var(y) && x == y,
            Term::App(a, b) => match o {
                Term::App(a2, b2) => a.alpha_eq(*a2) && b.alpha_eq(*b2),
                _ => false,
            },
            Term::Lam(x, d, e) => match o {
                Term::Lam(y, d2, e2) => d.alpha_eq(*d2) && e.alpha_eq(e2.subst(y, Term::Var(x))),
                _ => false,
            },
            Term::Pi(x, d, e) => match o {
                Term::Pi(y, d2, e2) => d.alpha_eq(*d2) && e.alpha_eq(e2.subst(y, Term::Var(x))),
                _ => false,
            },
        }
    }
}

impl Term {
    /// β-equivalence: both normal forms exist within `fuel` β-steps and are
    /// α-equivalent. `None` when a normalization runs out of steps.
    pub open spec fn beta_eq(self, o: Term, fuel: nat) -> Option<bool> {
        match (self.nf(fuel), o.nf(fuel)) {
            (Some(a), Some(b)) => Some(a.alpha_eq(b)),
            _ => None,
        }
    }
}

/// Every term is α-equivalent to itself.
pub proof fn lemma_alpha_refl(t: Term)
    ensures
        t.alpha_eq(t),
    decreases t,
{
    match t {
        Term::Universe(_) => {},
        Term::Var(_) => {},
        Term::App(a, b) => {
            lemma_alpha_refl(*a);
            lemma_alpha_refl(*b);
        },
        Term::Lam(x, d, e) => {
            lemma_alpha_refl(*d);
            lemma_alpha_refl(*e);
            lemma_subst_same_var(*e, x);
        },
        Term::Pi(x, d, e) => {
            lemma_alpha_refl(*d);
            lemma_alpha_refl(*e);
            lemma_subst_same_var(*e, x);
        },
    }
}

/// Every term whose normal form exists within `fuel` steps is β-equivalent to itself.
pub proof fn lemma_beta_refl(t: Term, fuel: nat)
    requires
        t.nf(fuel) is Some,
    ensures
        t.beta_eq(t, fuel) == Some(true),
{
    lemma_alpha_refl(t.nf(fuel).unwrap());
}

/// Substituting a variable for itself gives an α-equivalent term.
pub proof fn lemma_subst_identity(t: Term, x: Seq<char>)
    ensures
        t.subst(x, Term::Var(x)).alpha_eq(t),
{
    lemma_subst_same_var(t, x);
    lemma_alpha_refl(t);
}

/// Substituting for a name that is not free gives an α-equivalent term.
pub proof fn lemma_subst_not_free(t: Term, x: Seq<char>, u: Term)
    requires
        !t.free().contains(x),
    ensures
        t.subst(x, u).alpha_eq(t),
    decreases t.size(), 1nat,
{
    match t {
        Term::Universe(_) => {},
        Term::Var(_) => {},
        Term::App(a, b) => {
            lemma_subst_not_free(*a, x, u);
            lemma_subst_not_free(*b, x, u);
        },
        Term::Lam(y, d, e) => {
            lemma_subst_not_free(*d, x, u);
            lemma_under_not_free(y, *e, x, u);
        },
        Term::Pi(y, d, e) => {
            lemma_subst_not_free(*d, x, u);
            lemma_under_not_free(y, *e, x, u);
        },
    }
}

proof fn lemma_under_not_free(y: Seq<char>, e: Term, x: Seq<char>, u: Term)
    requires
        !e.free().remove(y).contains(x),
    ensures
        ({
            let (y2, e2) = subst_under(y, e, x, u);
            e2.alpha_eq(e.subst(y, Term::Var(y2)))
        }),
    decreases e.size() + 1, 0nat,
{
    let (y2, e2) = subst_under(y, e, x, u);
    if y == x {
        lemma_subst_same_var(e, y);
        lemma_alpha_refl(e);
    } else if !u.free().contains(y) {
        lemma_subst_same_var(e, y);
        lemma_subst_not_free(e, x, u);
    } else {
        let e1 = e.subst(y, Term::Var(y2));
        crate::names::lemma_free_finite(e);
        crate::names::lemma_free_finite(u);
        crate::names::lemma_fresh_from_unused(y.push('\''), e.free().union(u.free()));
        lemma_subst_var_size(e, y, y2);
        if y2 == x {
            lemma_alpha_refl(e1);
        } else {
            lemma_subst_free(e, y, Term::Var(y2));
            assert(!e1.free().contains(x));
            lemma_subst_not_free(e1, x, u);
        }
    }
}

/// Normalization preserves β-equivalence: a normal form found within `fuel`
/// steps is β-equivalent to the term.
pub proof fn lemma_nf_beta(t: Term, fuel: nat)
    requires
        t.nf(fuel) is Some,
    ensures
        t.nf(fuel).unwrap().beta_eq(t, fuel) == Some(true),
{
    crate::reduce::lemma_nf_idempotent(t, fuel, fuel);
}

/// Weak-head reduction preserves β-equivalence: where the weak head normal form
/// and the normal form are found within `fuel` steps, the former is
/// β-equivalent to the term.
pub proof fn lemma_whnf_beta(t: Term, fuel: nat)
    requires
        t.whnf(fuel) is Some,
        t.nf(fuel) is Some,
    ensures
        t.whnf(fuel).unwrap().beta_eq(t, fuel) == Some(true),
{
    crate::reduce::lemma_whnf_spine_nf(t, seq![], fuel);
    lemma_alpha_refl(t.nf(fuel).unwrap());
}

impl Henk {
    /// Whether the two terms are equal up to the names of their binders.
    pub fn alpha_eq(&self, another: &Henk) -> (r: bool)
        ensures
            r == self@.alpha_eq(another@),
        decreases self@.size(),
    {
        match (self, another) {
            (Henk::Universe(n), Henk::Universe(m)) => *n == *m,
            (Henk::Variable(x), Henk::Variable(y)) => *x == *y,
            (Henk::App(a, b), Henk::App(a2, b2)) => a.alpha_eq(a2) && b.alpha_eq(b2),
            (Henk::Lambda(x, d, e), Henk::Lambda(y, d2, e2)) => {
                d.alpha_eq(d2) && e.alpha_eq(&(**e2).clone().subst(y, &Henk::Variable(x.clone())))
            },
            (Henk::Forall(x, d, e), Henk::Forall(y, d2, e2)) => {
                d.alpha_eq(d2) && e.alpha_eq(&(**e2).clone().subst(y, &Henk::Variable(x.clone())))
            },
            _ => false,
        }
    }

    /// Whether the normal forms of the two terms, each within `fuel` β-steps, are
    /// α-equivalent; `None` when a normalization runs out of steps.
    pub fn beta_eq(&self, another: &Henk, fuel: u64) -> (r: Option<bool>)
        ensures
            r == self@.beta_eq(another@, fuel as nat),
    {
        match (self.clone().nf(fuel), another.clone().nf(fuel)) {
            (Some(a), Some(b)) => Some(a.alpha_eq(&b)),
            _ => None,
        }
    }
}

} // verus!
