use vstd::prelude::*;

use crate::term::{Henk, Term};

verus! {

/// The β-steps that `type_check` allows each normalization.
pub const STEP_LIMIT: u64 = 10000;

/// Why a term has no type.
#[derive(Debug, PartialEq, Eq)]
pub enum TypeError {
    /// A variable that the context does not declare.
    UnknownVariable(String),
    /// The argument's type (second) is not β-equivalent to the domain (first).
    ArgTypeMismatch(Henk, Henk),
    /// The function position has this type, in weak head normal form, which is no product.
    NotAFunction(Henk),
    /// A domain or codomain has this type, in weak head normal form, which is no universe.
    NotAType(Henk),
    /// A normalization ran out of β-steps.
    OutOfFuel,
}

/// The model of a `TypeError`.
pub enum Fault {
    UnknownVariable(Seq<char>),
    ArgTypeMismatch(Term, Term),
    NotAFunction(Term),
    NotAType(Term),
    OutOfFuel,
}

impl View for TypeError {
    type V = Fault;

    open spec fn view(&self) -> Fault {
        match self {
            TypeError::UnknownVariable(x) => Fault::UnknownVariable(x@),
            TypeError::ArgTypeMismatch(a, b) => Fault::ArgTypeMismatch(a@, b@),
            TypeError::NotAFunction(t) => Fault::NotAFunction(t@),
            TypeError::NotAType(t) => Fault::NotAType(t@),
            TypeError::OutOfFuel => Fault::OutOfFuel,
        }
    }
}

/// The model of a typing outcome.
pub open spec fn result_view(r: Result<Henk, TypeError>) -> Result<Term, Fault> {
    match r {
        Ok(t) => Ok(t@),
        Err(e) => Err(e@),
    }
}

/// The typing context that a list of declarations stands for: a later declaration
/// of a name overrides an earlier one.
pub open spec fn context_map(c: Seq<(String, Henk)>) -> Map<Seq<char>, Term>
    decreases c.len(),
{
    if c.len() == 0 {
        Map::empty()
    } else {
        context_map(c.drop_last()).insert(c.last().0@, c.last().1@)
    }
}

impl Term {
    /// Every universe level in the term leaves room for the level above it.
    pub open spec fn levels_fit(self) -> bool
        decreases self,
    {
        match self {
            Term::Universe(n) => n < i64::MAX,
            Term::Var(_) => true,
            Term::App(a, b) => a.levels_fit() && b.levels_fit(),
            Term::Lam(_, d, e) => d.levels_fit() && e.levels_fit(),
            Term::Pi(_, d, e) => d.levels_fit() && e.levels_fit(),
        }
    }
}

/// The type of `t` in the context `g`; each normalization may take `fuel` β-steps.
pub open spec fn type_of(t: Term, g: Map<Seq<char>, Term>, fuel: nat) -> Result<Term, Fault>
    decreases t.size(), 0nat,
{
    match t {
        Term::Universe(n) => Ok(Term::Universe(n + 1)),
        Term::Var(x) => if g.contains_key(x) {
            Ok(g[x])
        } else {
            Err(Fault::UnknownVariable(x))
        },
        Term::App(f, a) => match type_of(*f, g, fuel) {
            Err(e) => Err(e),
            Ok(tf) => match tf.whnf(fuel) {
                None => Err(Fault::OutOfFuel),
                Some(Term::Pi(y, tin, tout)) => match type_of(*a, g, fuel) {
                    Err(e) => Err(e),
                    Ok(ta) => match ta.beta_eq(*tin, fuel) {
                        None => Err(Fault::OutOfFuel),
                        Some(true) => Ok(tout.subst(y, *a)),
                        Some(false) => Err(Fault::ArgTypeMismatch(*tin, ta)),
                    },
                },
                Some(other) => Err(Fault::NotAFunction(other)),
            },
        },
        Term::Lam(x, d, e) => match sort_of(*d, g, fuel) {
            Err(err) => Err(err),
            Ok(_) => match type_of(*e, g.insert(x, *d), fuel) {
                Err(err) => Err(err),
                Ok(te) => Ok(Term::Pi(x, d, Box::new(te))),
            },
        },
        Term::Pi(x, d, c) => match type_of(*d, g, fuel) {
            Err(err) => Err(err),
            Ok(td) => match type_of(*c, g.insert(x, *d), fuel) {
                Err(err) => Err(err),
                Ok(tc) => match universe_level(td, fuel) {
                    Err(err) => Err(err),
                    Ok(i) => match universe_level(tc, fuel) {
                        Err(err) => Err(err),
                        Ok(j) => Ok(Term::Universe(if i >= j { i } else { j })),
                    },
                },
            },
        },
    }
}

/// The level of the universe that `t` lives in: its type must reduce to a universe.
pub open spec fn sort_of(t: Term, g: Map<Seq<char>, Term>, fuel: nat) -> Result<int, Fault>
    decreases t.size(), 1nat,
{
    match type_of(t, g, fuel) {
        Err(e) => Err(e),
        Ok(ty) => universe_level(ty, fuel),
    }
}

/// The level of the universe that the type `ty` reduces to in weak head normal form.
pub open spec fn universe_level(ty: Term, fuel: nat) -> Result<int, Fault> {
    match ty.whnf(fuel) {
        None => Err(Fault::OutOfFuel),
        Some(Term::Universe(i)) => Ok(i),
        Some(other) => Err(Fault::NotAType(other)),
    }
}

/// A universe at level `n` has the universe one level up as its type.
pub proof fn lemma_universe_type(n: int, fuel: nat)
    requires
        n >= 0,
    ensures
        type_of(Term::Universe(n), Map::empty(), fuel) == Ok::<Term, Fault>(Term::Universe(n + 1)),
{
}

/// Declarations after index `i` that do not declare `x` leave its entry alone.
proof fn lemma_context_tail(c: Seq<(String, Henk)>, i: int, x: Seq<char>)
    requires
        0 <= i <= c.len(),
        forall|j: int| i <= j < c.len() ==> c[j].0@ != x,
    ensures
        context_map(c).contains_key(x) == context_map(c.take(i)).contains_key(x),
        context_map(c).contains_key(x) ==> context_map(c)[x] == context_map(c.take(i))[x],
    decreases c.len(),
{
    if c.len() > i {
        lemma_context_tail(c.drop_last(), i, x);
        assert(c.drop_last().take(i) =~= c.take(i));
    } else {
        assert(c.take(i) =~= c);
    }
}

/// The declared type of `x`, the latest declaration winning.
fn lookup(ctx: &Vec<(String, Henk)>, x: &String) -> (r: Option<Henk>)
    ensures
        r is None ==> !context_map(ctx@).contains_key(x@),
        r matches Some(t) ==> context_map(ctx@).contains_key(x@) && context_map(ctx@)[x@] == t@,
{
    let mut i: usize = ctx.len();
    while i > 0
        invariant
            i <= ctx.len(),
            forall|j: int| i <= j < ctx.len() ==> ctx@[j].0@ != x@,
        decreases i,
    {
        if ctx[i - 1].0 == *x {
            proof {
                lemma_context_tail(ctx@, i as int, x@);
                let c = ctx@.take(i as int);
                assert(c.drop_last() =~= ctx@.take(i - 1));
                assert(c.last() == ctx@[i - 1]);
            }
            return Some(ctx[i - 1].1.clone());
        }
        i = i - 1;
    }
    proof {
        lemma_context_tail(ctx@, 0, x@);
    }
    None
}

/// The level of the universe that `ty` reduces to within `fuel` β-steps.
fn level_exec(ty: Henk, fuel: u64) -> (r: Result<i64, TypeError>)
    ensures
        r matches Ok(i) ==> universe_level(ty@, fuel as nat) == Ok::<int, Fault>(i as int),
        r matches Err(e) ==> universe_level(ty@, fuel as nat) == Err::<int, Fault>(e@),
{
    match ty.whnf(fuel) {
        None => Err(TypeError::OutOfFuel),
        Some(Henk::Universe(i)) => Ok(i),
        Some(other) => Err(TypeError::NotAType(other)),
    }
}

impl Henk {
    /// Whether every universe level in the term leaves room for the level above it,
    /// as type checking needs.
    pub fn levels_fit(&self) -> (r: bool)
        ensures
            r == self@.levels_fit(),
        decreases self,
    {
        match self {
            Henk::Universe(n) => *n < i64::MAX,
            Henk::Variable(_) => true,
            Henk::App(a, b) => a.levels_fit() && b.levels_fit(),
            Henk::Lambda(_, d, e) => d.levels_fit() && e.levels_fit(),
            Henk::Forall(_, d, e) => d.levels_fit() && e.levels_fit(),
        }
    }

    fn sort_of_exec(&self, ctx: &mut Vec<(String, Henk)>, fuel: u64) -> (r: Result<i64, TypeError>)
        requires
            self@.levels_fit(),
        ensures
            final(ctx)@ == old(ctx)@,
            r matches Ok(i) ==> sort_of(self@, context_map(old(ctx)@), fuel as nat) == Ok::<int, Fault>(i as int),
            r matches Err(e) ==> sort_of(self@, context_map(old(ctx)@), fuel as nat) == Err::<int, Fault>(e@),
        decreases self@.size(), 1nat,
    {
        match self.synth(ctx, fuel) {
            Ok(ty) => level_exec(ty, fuel),
            Err(e) => Err(e),
        }
    }

    fn synth(&self, ctx: &mut Vec<(String, Henk)>, fuel: u64) -> (r: Result<Henk, TypeError>)
        requires
            self@.levels_fit(),
        ensures
            final(ctx)@ == old(ctx)@,
            result_view(r) == type_of(self@, context_map(old(ctx)@), fuel as nat),
        decreases self@.size(), 0nat,
    {
        match self {
            Henk::Universe(n) => Ok(Henk::Universe(*n + 1)),
            Henk::Variable(x) => match lookup(ctx, x) {
                Some(t) => Ok(t),
                None => Err(TypeError::UnknownVariable(x.clone())),
            },
            Henk::App(f, a) => {
                let tf = match f.synth(ctx, fuel) {
                    Ok(t) => t,
                    Err(e) => return Err(e),
                };
                match tf.whnf(fuel) {
                    None => Err(TypeError::OutOfFuel),
                    Some(Henk::Forall(y, tin, tout)) => {
                        let ta = match a.synth(ctx, fuel) {
                            Ok(t) => t,
                            Err(e) => return Err(e),
                        };
                        match ta.beta_eq(&tin, fuel) {
                            None => Err(TypeError::OutOfFuel),
                            Some(true) => Ok((*tout).subst(&y, &**a)),
                            Some(false) => Err(TypeError::ArgTypeMismatch(*tin, ta)),
                        }
                    },
                    Some(other) => Err(TypeError::NotAFunction(other)),
                }
            },
            Henk::Lambda(x, d, e) => {
                match d.sort_of_exec(ctx, fuel) {
                    Ok(_) => {},
                    Err(err) => return Err(err),
                }
                let ghost before = ctx@;
                ctx.push((x.clone(), (**d).clone()));
                proof {
                    assert(ctx@.drop_last() =~= before);
                }
                let te = e.synth(ctx, fuel);
                ctx.pop();
                proof {
                    assert(ctx@ =~= before);
                }
                match te {
                    Ok(te) => Ok(Henk::Forall(x.clone(), Box::new((**d).clone()), Box::new(te))),
                    Err(err) => Err(err),
                }
            },
            Henk::Forall(x, d, c) => {
                let td = match d.synth(ctx, fuel) {
                    Ok(t) => t,
                    Err(err) => return Err(err),
                };
                let ghost before = ctx@;
                ctx.push((x.clone(), (**d).clone()));
                proof {
                    assert(ctx@.drop_last() =~= before);
                }
                let tc = c.synth(ctx, fuel);
                ctx.pop();
                proof {
                    assert(ctx@ =~= before);
                }
                let tc = match tc {
                    Ok(t) => t,
                    Err(err) => return Err(err),
                };
                let i = match level_exec(td, fuel) {
                    Ok(i) => i,
                    Err(err) => return Err(err),
                };
                match level_exec(tc, fuel) {
                    Ok(j) => Ok(Henk::Universe(if i >= j { i } else { j })),
                    Err(err) => Err(err),
                }
            },
        }
    }

    /// The type of this term in `context`, where a later declaration of a name
    /// overrides an earlier one; each normalization may take `fuel` β-steps.
    pub fn type_check_with_context(self, context: Vec<(String, Henk)>, fuel: u64) -> (r: Result<Henk, TypeError>)
        requires
            self@.levels_fit(),
        ensures
            result_view(r) == type_of(self@, context_map(context@), fuel as nat),
    {
        let mut context = context;
        self.synth(&mut context, fuel)
    }

    /// The type of this closed term, each normalization taking up to `STEP_LIMIT` β-steps.
    pub fn type_check(self) -> (r: Result<Henk, TypeError>)
        requires
            self@.levels_fit(),
        ensures
            result_view(r) == type_of(self@, Map::empty(), STEP_LIMIT as nat),
    {
        let context: Vec<(String, Henk)> = Vec::new();
        proof {
            assert(context_map(context@) == Map::<Seq<char>, Term>::empty());
        }
        self.type_check_with_context(context, STEP_LIMIT)
    }
}

} // verus!
