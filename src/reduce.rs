use vstd::prelude::*;

use crate::term::{Henk, Term};

verus! {

/// The head applied to the pending arguments of a spine. The stack holds the
/// first argument last: `apply(h, [a2, a1]) == App(App(h, a1), a2)`.
pub open spec fn apply(h: Term, stack: Seq<Term>) -> Term
    decreases stack.len(),
{
    if stack.len() == 0 {
        h
    } else {
        Term::App(Box::new(apply(h, stack.subrange(1, stack.len() as int))), Box::new(stack[0]))
    }
}

/// Total size of the terms on a stack.
pub open spec fn stack_size(stack: Seq<Term>) -> nat
    decreases stack.len(),
{
    if stack.len() == 0 {
        0
    } else {
        stack_size(stack.drop_last()) + stack.last().size()
    }
}

/// Weak-head reduction of `h` applied to `stack`, with at most `fuel` β-steps;
/// `None` when the steps run out.
pub open spec fn whnf_spine(h: Term, stack: Seq<Term>, fuel: nat) -> Option<Term>
    decreases fuel, h.size(),
{
    match h {
        Term::App(f, a) => whnf_spine(*f, stack.push(*a), fuel),
        Term::Lam(x, _, b) => if stack.len() == 0 {
            Some(h)
        } else if fuel == 0 {
            None
        } else {
            whnf_spine(b.subst(x, stack.last()), stack.drop_last(), (fuel - 1) as nat)
        },
        _ => Some(apply(h, stack)),
    }
}

/// Full normalization of `h` applied to `stack`: β-steps at the head, then the
/// same under binders and in arguments. Each path may take `fuel` β-steps.
pub open spec fn nf_spine(h: Term, stack: Seq<Term>, fuel: nat) -> Option<Term>
    decreases fuel, h.size() + stack_size(stack), 1nat,
{
    match h {
        Term::App(f, a) => {
            proof {
                assert(stack.push(*a).drop_last() =~= stack);
            }
            nf_spine(*f, stack.push(*a), fuel)
        },
        Term::Lam(x, d, b) => if stack.len() == 0 {
            match (nf_spine(*d, seq![], fuel), nf_spine(*b, seq![], fuel)) {
                (Some(d2), Some(b2)) => Some(Term::Lam(x, Box::new(d2), Box::new(b2))),
                _ => None,
            }
        } else if fuel == 0 {
            None
        } else {
            nf_spine(b.subst(x, stack.last()), stack.drop_last(), (fuel - 1) as nat)
        },
        Term::Pi(x, d, c) => match (nf_spine(*d, seq![], fuel), nf_spine(*c, seq![], fuel)) {
            (Some(d2), Some(c2)) => nf_args(Term::Pi(x, Box::new(d2), Box::new(c2)), stack, fuel),
            _ => None,
        },
        _ => nf_args(h, stack, fuel),
    }
}

/// `h` applied, first argument first, to the normal form of each entry of `stack`.
pub open spec fn nf_args(h: Term, stack: Seq<Term>, fuel: nat) -> Option<Term>
    decreases fuel, stack_size(stack) + 1, 0nat,
{
    if stack.len() == 0 {
        Some(h)
    } else {
        match nf_spine(stack.last(), seq![], fuel) {
            Some(a) => nf_args(Term::App(Box::new(h), Box::new(a)), stack.drop_last(), fuel),
            None => None,
        }
    }
}

impl Term {
    /// Weak head normal form, within `fuel` β-steps.
    pub open spec fn whnf(self, fuel: nat) -> Option<Term> {
        whnf_spine(self, seq![], fuel)
    }

    /// Normal form, within `fuel` β-steps along each path of the reduction.
    pub open spec fn nf(self, fuel: nat) -> Option<Term> {
        nf_spine(self, seq![], fuel)
    }
}

/// The models of the terms on an executable stack.
pub open spec fn views(stack: Seq<Henk>) -> Seq<Term> {
    stack.map_values(|h: Henk| h@)
}

fn empty_stack() -> (r: Vec<Henk>)
    ensures
        views(r@) == Seq::<Term>::empty(),
        r@.len() == 0,
{
    let r: Vec<Henk> = Vec::new();
    assert(views(r@) =~= Seq::<Term>::empty());
    r
}

fn apply_exec(h: Henk, stack: Vec<Henk>) -> (r: Henk)
    ensures
        r@ == apply(h@, views(stack@)),
{
    let mut r = h;
    let mut stack = stack;
    let ghost whole = views(stack@);
    while stack.len() > 0
        invariant
            apply(r@, views(stack@)) == apply(h@, whole),
        decreases stack.len(),
    {
        let ghost before = views(stack@);
        let a = stack.pop().unwrap();
        proof {
            lemma_apply_last(r@, before);
            assert(views(stack@) =~= before.drop_last());
        }
        r = Henk::App(Box::new(r), Box::new(a));
    }
    proof {
        assert(views(stack@) =~= seq![]);
    }
    r
}

/// Applying to a stack is applying to its last entry, the first argument, then
/// to the rest.
pub proof fn lemma_apply_last(h: Term, stack: Seq<Term>)
    requires
        stack.len() > 0,
    ensures
        apply(h, stack) == apply(Term::App(Box::new(h), Box::new(stack.last())), stack.drop_last()),
    decreases stack.len(),
{
    if stack.len() > 1 {
        let rest = stack.subrange(1, stack.len() as int);
        lemma_apply_last(h, rest);
        assert(rest.drop_last() =~= stack.drop_last().subrange(1, stack.len() - 1));
        assert(rest.last() == stack.last());
        assert(stack.drop_last()[0] == stack[0]);
        let g = Term::App(Box::new(h), Box::new(stack.last()));
        assert(apply(g, stack.drop_last()) == Term::App(
            Box::new(apply(g, stack.drop_last().subrange(1, stack.len() - 1))),
            Box::new(stack[0]),
        ));
    } else {
        assert(stack.drop_last() =~= seq![]);
        assert(stack.subrange(1, 1) =~= seq![]);
        assert(apply(h, stack.subrange(1, 1)) == h);
        assert(apply(Term::App(Box::new(h), Box::new(stack.last())), stack.drop_last())
            == Term::App(Box::new(h), Box::new(stack.last())));
    }
}

fn whnf_spine_exec(h: Henk, stack: Vec<Henk>, fuel: u64) -> (r: Option<Henk>)
    ensures
        r matches Some(t) ==> whnf_spine(h@, views(stack@), fuel as nat) == Some(t@),
        r is None ==> whnf_spine(h@, views(stack@), fuel as nat) is None,
    decreases fuel, h@.size(),
{
    let mut stack = stack;
    match h {
        Henk::App(f, a) => {
            let ghost before = views(stack@);
            stack.push(*a);
            proof {
                assert(views(stack@) =~= before.push(a@));
            }
            whnf_spine_exec(*f, stack, fuel)
        },
        Henk::Lambda(x, d, b) => {
            if stack.len() == 0 {
                Some(Henk::Lambda(x, d, b))
            } else if fuel == 0 {
                None
            } else {
                let ghost before = views(stack@);
                let a = stack.pop().unwrap();
                proof {
                    assert(views(stack@) =~= before.drop_last());
                    assert(before.last() == a@);
                }
                whnf_spine_exec((*b).subst(&x, &a), stack, fuel - 1)
            }
        },
        _ => Some(apply_exec(h, stack)),
    }
}

fn nf_spine_exec(h: Henk, stack: Vec<Henk>, fuel: u64) -> (r: Option<Henk>)
    ensures
        r matches Some(t) ==> nf_spine(h@, views(stack@), fuel as nat) == Some(t@),
        r is None ==> nf_spine(h@, views(stack@), fuel as nat) is None,
    decreases fuel, h@.size() + stack_size(views(stack@)), 1nat,
{
    let mut stack = stack;
    match h {
        Henk::App(f, a) => {
            let ghost before = views(stack@);
            stack.push(*a);
            proof {
                assert(views(stack@) =~= before.push(a@));
                assert(views(stack@).drop_last() =~= before);
            }
            nf_spine_exec(*f, stack, fuel)
        },
        Henk::Lambda(x, d, b) => {
            if stack.len() == 0 {
                assert(views(stack@) =~= seq![]);
                let d2 = match nf_spine_exec(*d, empty_stack(), fuel) {
                    Some(t) => t,
                    None => return None,
                };
                let b2 = match nf_spine_exec(*b, empty_stack(), fuel) {
                    Some(t) => t,
                    None => return None,
                };
                Some(Henk::Lambda(x, Box::new(d2), Box::new(b2)))
            } else if fuel == 0 {
                None
            } else {
                let ghost before = views(stack@);
                let a = stack.pop().unwrap();
                proof {
                    assert(views(stack@) =~= before.drop_last());
                    assert(before.last() == a@);
                }
                nf_spine_exec((*b).subst(&x, &a), stack, fuel - 1)
            }
        },
        Henk::Forall(x, d, c) => {
            let d2 = match nf_spine_exec(*d, empty_stack(), fuel) {
                Some(t) => t,
                None => return None,
            };
            let c2 = match nf_spine_exec(*c, empty_stack(), fuel) {
                Some(t) => t,
                None => return None,
            };
            nf_args_exec(Henk::Forall(x, Box::new(d2), Box::new(c2)), stack, fuel)
        },
        _ => nf_args_exec(h, stack, fuel),
    }
}

fn nf_args_exec(h: Henk, stack: Vec<Henk>, fuel: u64) -> (r: Option<Henk>)
    ensures
        r matches Some(t) ==> nf_args(h@, views(stack@), fuel as nat) == Some(t@),
        r is None ==> nf_args(h@, views(stack@), fuel as nat) is None,
    decreases fuel, stack_size(views(stack@)) + 1, 0nat,
{
    let mut stack = stack;
    if stack.len() == 0 {
        Some(h)
    } else {
        let ghost before = views(stack@);
        let a = stack.pop().unwrap();
        proof {
            assert(views(stack@) =~= before.drop_last());
            assert(before.last() == a@);
        }
        match nf_spine_exec(a, empty_stack(), fuel) {
            Some(a2) => nf_args_exec(Henk::App(Box::new(h), Box::new(a2)), stack, fuel),
            None => None,
        }
    }
}

impl Henk {
    /// Weak head normal form within `fuel` β-steps; `None` when they run out.
    pub fn whnf(self, fuel: u64) -> (r: Option<Henk>)
        ensures
            r matches Some(t) ==> self@.whnf(fuel as nat) == Some(t@),
            r is None ==> self@.whnf(fuel as nat) is None,
    {
        whnf_spine_exec(self, empty_stack(), fuel)
    }

    /// Normal form within `fuel` β-steps along each path; `None` when they run out.
    pub fn nf(self, fuel: u64) -> (r: Option<Henk>)
        ensures
            r matches Some(t) ==> self@.nf(fuel as nat) == Some(t@),
            r is None ==> self@.nf(fuel as nat) is None,
    {
        nf_spine_exec(self, empty_stack(), fuel)
    }
}

} // verus!

verus! {

/// Whether `t` is an abstraction.
pub open spec fn is_abstraction(t: Term) -> bool {
    t matches Term::Lam(_, _, _)
}

impl Term {
    /// No β-redex: no application has an abstraction in function position.
    pub open spec fn is_normal(self) -> bool
        decreases self,
    {
        match self {
            Term::Universe(_) => true,
            Term::Var(_) => true,
            Term::App(f, a) => f.is_normal() && a.is_normal() && !is_abstraction(*f),
            Term::Lam(_, d, b) => d.is_normal() && b.is_normal(),
            Term::Pi(_, d, c) => d.is_normal() && c.is_normal(),
        }
    }
}

proof fn lemma_stack_size_push(s: Seq<Term>, a: Term)
    ensures
        stack_size(s.push(a)) == stack_size(s) + a.size(),
{
    assert(s.push(a).drop_last() =~= s);
}

/// What normalization returns is normal.
pub proof fn lemma_nf_spine_normal(h: Term, s: Seq<Term>, fuel: nat)
    ensures
        nf_spine(h, s, fuel) matches Some(n) ==> n.is_normal(),
    decreases fuel, h.size() + stack_size(s), 1nat,
{
    match h {
        Term::App(f, a) => {
            lemma_stack_size_push(s, *a);
            lemma_nf_spine_normal(*f, s.push(*a), fuel);
        },
        Term::Lam(x, d, b) => {
            if s.len() == 0 {
                lemma_nf_spine_normal(*d, seq![], fuel);
                lemma_nf_spine_normal(*b, seq![], fuel);
            } else if fuel > 0 {
                lemma_nf_spine_normal(b.subst(x, s.last()), s.drop_last(), (fuel - 1) as nat);
            }
        },
        Term::Pi(x, d, c) => {
            lemma_nf_spine_normal(*d, seq![], fuel);
            lemma_nf_spine_normal(*c, seq![], fuel);
            if let (Some(d2), Some(c2)) = (nf_spine(*d, seq![], fuel), nf_spine(*c, seq![], fuel)) {
                lemma_nf_args_normal(Term::Pi(x, Box::new(d2), Box::new(c2)), s, fuel);
            }
        },
        _ => {
            lemma_nf_args_normal(h, s, fuel);
        },
    }
}

proof fn lemma_nf_args_normal(h: Term, s: Seq<Term>, fuel: nat)
    requires
        h.is_normal(),
        !is_abstraction(h),
    ensures
        nf_args(h, s, fuel) matches Some(n) ==> n.is_normal(),
    decreases fuel, stack_size(s) + 1, 0nat,
{
    if s.len() > 0 {
        lemma_nf_spine_normal(s.last(), seq![], fuel);
        if let Some(a) = nf_spine(s.last(), seq![], fuel) {
            lemma_nf_args_normal(Term::App(Box::new(h), Box::new(a)), s.drop_last(), fuel);
        }
    }
}

/// The parts of a normal spine are normal, and its head is no abstraction when
/// it has arguments.
proof fn lemma_normal_spine_parts(h: Term, s: Seq<Term>)
    requires
        apply(h, s).is_normal(),
    ensures
        h.is_normal(),
        s.len() > 0 ==> !is_abstraction(h),
        forall|i: int| 0 <= i < s.len() ==> (#[trigger] s[i]).is_normal(),
    decreases s.len(),
{
    if s.len() > 0 {
        let rest = s.subrange(1, s.len() as int);
        lemma_normal_spine_parts(h, rest);
        assert forall|i: int| 0 <= i < s.len() implies (#[trigger] s[i]).is_normal() by {
            if i > 0 {
                assert(s[i] == rest[i - 1]);
            }
        }
        if rest.len() == 0 {
            assert(apply(h, rest) == h);
        }
    }
}

/// Normalizing a normal spine returns it unchanged, whatever the fuel.
proof fn lemma_nf_spine_fixed(h: Term, s: Seq<Term>, fuel: nat)
    requires
        apply(h, s).is_normal(),
    ensures
        nf_spine(h, s, fuel) == Some(apply(h, s)),
    decreases fuel, h.size() + stack_size(s), 1nat,
{
    lemma_normal_spine_parts(h, s);
    match h {
        Term::App(f, a) => {
            lemma_stack_size_push(s, *a);
            lemma_apply_last(*f, s.push(*a));
            assert(s.push(*a).drop_last() =~= s);
            lemma_nf_spine_fixed(*f, s.push(*a), fuel);
        },
        Term::Lam(x, d, b) => {
            assert(s.len() == 0);
            assert(apply(*d, seq![]) == *d);
            assert(apply(*b, seq![]) == *b);
            lemma_nf_spine_fixed(*d, seq![], fuel);
            lemma_nf_spine_fixed(*b, seq![], fuel);
        },
        Term::Pi(x, d, c) => {
            assert(apply(*d, seq![]) == *d);
            assert(apply(*c, seq![]) == *c);
            lemma_nf_spine_fixed(*d, seq![], fuel);
            lemma_nf_spine_fixed(*c, seq![], fuel);
            lemma_nf_args_fixed(h, s, fuel);
        },
        _ => {
            lemma_nf_args_fixed(h, s, fuel);
        },
    }
}

proof fn lemma_nf_args_fixed(h: Term, s: Seq<Term>, fuel: nat)
    requires
        apply(h, s).is_normal(),
    ensures
        nf_args(h, s, fuel) == Some(apply(h, s)),
    decreases fuel, stack_size(s) + 1, 0nat,
{
    lemma_normal_spine_parts(h, s);
    if s.len() > 0 {
        let a = s.last();
        assert(a.is_normal());
        assert(apply(a, seq![]) == a);
        lemma_nf_spine_fixed(a, seq![], fuel);
        lemma_apply_last(h, s);
        lemma_nf_args_fixed(Term::App(Box::new(h), Box::new(a)), s.drop_last(), fuel);
    } else {
        assert(apply(h, s) == h);
    }
}

/// A normal term is its own normal form, with any fuel.
pub proof fn lemma_normal_is_fixed(t: Term, fuel: nat)
    requires
        t.is_normal(),
    ensures
        t.nf(fuel) == Some(t),
{
    assert(apply(t, seq![]) == t);
    lemma_nf_spine_fixed(t, seq![], fuel);
}

/// Normalization is idempotent: the normal form of a normal form is itself.
pub proof fn lemma_nf_idempotent(t: Term, fuel: nat, fuel2: nat)
    requires
        t.nf(fuel) is Some,
    ensures
        t.nf(fuel).unwrap().nf(fuel2) == t.nf(fuel),
        t.nf(fuel).unwrap().nf(fuel2).unwrap().alpha_eq(t.nf(fuel).unwrap()),
{
    let n = t.nf(fuel).unwrap();
    lemma_nf_spine_normal(t, seq![], fuel);
    lemma_normal_is_fixed(n, fuel2);
    crate::equiv::lemma_alpha_refl(n);
}

} // verus!

verus! {

/// More fuel does not change a normal form that was found.
pub proof fn lemma_nf_spine_more_fuel(h: Term, s: Seq<Term>, fuel: nat, fuel2: nat)
    requires
        nf_spine(h, s, fuel) is Some,
        fuel <= fuel2,
    ensures
        nf_spine(h, s, fuel2) == nf_spine(h, s, fuel),
    decreases fuel, h.size() + stack_size(s), 1nat,
{
    match h {
        Term::App(f, a) => {
            lemma_stack_size_push(s, *a);
            lemma_nf_spine_more_fuel(*f, s.push(*a), fuel, fuel2);
        },
        Term::Lam(x, d, b) => {
            if s.len() == 0 {
                lemma_nf_spine_more_fuel(*d, seq![], fuel, fuel2);
                lemma_nf_spine_more_fuel(*b, seq![], fuel, fuel2);
            } else {
                lemma_nf_spine_more_fuel(
                    b.subst(x, s.last()),
                    s.drop_last(),
                    (fuel - 1) as nat,
                    (fuel2 - 1) as nat,
                );
            }
        },
        Term::Pi(x, d, c) => {
            lemma_nf_spine_more_fuel(*d, seq![], fuel, fuel2);
            lemma_nf_spine_more_fuel(*c, seq![], fuel, fuel2);
            let head = Term::Pi(
                x,
                Box::new(nf_spine(*d, seq![], fuel).unwrap()),
                Box::new(nf_spine(*c, seq![], fuel).unwrap()),
            );
            lemma_nf_args_more_fuel(head, s, fuel, fuel2);
        },
        _ => {
            lemma_nf_args_more_fuel(h, s, fuel, fuel2);
        },
    }
}

proof fn lemma_nf_args_more_fuel(h: Term, s: Seq<Term>, fuel: nat, fuel2: nat)
    requires
        nf_args(h, s, fuel) is Some,
        fuel <= fuel2,
    ensures
        nf_args(h, s, fuel2) == nf_args(h, s, fuel),
    decreases fuel, stack_size(s) + 1, 0nat,
{
    if s.len() > 0 {
        lemma_nf_spine_more_fuel(s.last(), seq![], fuel, fuel2);
        let a = nf_spine(s.last(), seq![], fuel).unwrap();
        lemma_nf_args_more_fuel(Term::App(Box::new(h), Box::new(a)), s.drop_last(), fuel, fuel2);
    }
}

/// Normalizing a rebuilt spine descends it again: the arguments of `apply(h, s)`
/// go back on the stack.
proof fn lemma_nf_spine_unwind(h: Term, s: Seq<Term>, t: Seq<Term>, fuel: nat)
    ensures
        nf_spine(apply(h, s), t, fuel) == nf_spine(h, t + s, fuel),
    decreases s.len(),
{
    if s.len() == 0 {
        assert(t + s =~= t);
    } else {
        let rest = s.subrange(1, s.len() as int);
        lemma_nf_spine_unwind(h, rest, t.push(s[0]), fuel);
        assert(t.push(s[0]) + rest =~= t + s);
    }
}

/// The head steps of weak-head reduction are the first steps of normalization:
/// where both succeed, the weak head normal form has the same normal form.
pub proof fn lemma_whnf_spine_nf(h: Term, s: Seq<Term>, fuel: nat)
    requires
        whnf_spine(h, s, fuel) is Some,
        nf_spine(h, s, fuel) is Some,
    ensures
        nf_spine(whnf_spine(h, s, fuel).unwrap(), seq![], fuel) == nf_spine(h, s, fuel),
    decreases fuel, h.size(),
{
    match h {
        Term::App(f, a) => {
            lemma_whnf_spine_nf(*f, s.push(*a), fuel);
        },
        Term::Lam(x, d, b) => {
            if s.len() > 0 {
                let f1 = (fuel - 1) as nat;
                let h2 = b.subst(x, s.last());
                lemma_whnf_spine_nf(h2, s.drop_last(), f1);
                lemma_nf_spine_more_fuel(whnf_spine(h2, s.drop_last(), f1).unwrap(), seq![], f1, fuel);
            }
        },
        _ => {
            lemma_nf_spine_unwind(h, s, seq![], fuel);
            assert(seq![] + s =~= s);
        },
    }
}

} // verus!
