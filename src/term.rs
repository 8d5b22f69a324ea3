use vstd::prelude::*;

verus! {

/// A term of the calculus, as the executable code holds it.
#[derive(Debug, PartialEq, Eq)]
pub enum Henk {
    Universe(i64),
    Variable(String),
    App(Box<Henk>, Box<Henk>),
    Lambda(String, Box<Henk>, Box<Henk>),
    Forall(String, Box<Henk>, Box<Henk>),
}

/// The mathematical model of a term: names as character sequences, levels as integers.
pub enum Term {
    Universe(int),
    Var(Seq<char>),
    App(Box<Term>, Box<Term>),
    Lam(Seq<char>, Box<Term>, Box<Term>),
    Pi(Seq<char>, Box<Term>, Box<Term>),
}

impl Henk {
    /// The model of this term.
    pub open spec fn to_term(&self) -> Term
        decreases self,
    {
        match self {
            Henk::Universe(n) => Term::Universe(*n as int),
            Henk::Variable(v) => Term::Var(v@),
            Henk::App(a, b) => Term::App(Box::new(a.to_term()), Box::new(b.to_term())),
            Henk::Lambda(x, d, e) => Term::Lam(x@, Box::new(d.to_term()), Box::new(e.to_term())),
            Henk::Forall(x, d, e) => Term::Pi(x@, Box::new(d.to_term()), Box::new(e.to_term())),
        }
    }
}

impl Term {
    /// Number of nodes; renaming a bound name keeps it.
    pub open spec fn size(self) -> nat
        decreases self,
    {
        match self {
            Term::Universe(_) => 1,
            Term::Var(_) => 1,
            Term::App(a, b) => 1 + a.size() + b.size(),
            Term::Lam(_, d, e) => 1 + d.size() + e.size(),
            Term::Pi(_, d, e) => 1 + d.size() + e.size(),
        }
    }
}

impl View for Henk {
    type V = Term;

    open spec fn view(&self) -> Term {
        self.to_term()
    }
}

impl Clone for Henk {
    fn clone(&self) -> (r: Self)
        ensures
            r == *self,
        decreases self,
    {
        match self {
            Henk::Universe(n) => Henk::Universe(*n),
            Henk::Variable(v) => Henk::Variable(v.clone()),
            Henk::App(a, b) => Henk::App(Box::new((**a).clone()), Box::new((**b).clone())),
            Henk::Lambda(x, d, e) => Henk::Lambda(x.clone(), Box::new((**d).clone()), Box::new((**e).clone())),
            Henk::Forall(x, d, e) => Henk::Forall(x.clone(), Box::new((**d).clone()), Box::new((**e).clone())),
        }
    }
}

} // verus!
