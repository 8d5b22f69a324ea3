//! A type checker and normalizer for a small dependently typed lambda calculus
//! with named binders: capture-avoiding substitution, weak-head and full
//! normalization, α- and β-equivalence, and type synthesis.
use vstd::prelude::*;

pub mod equiv;
pub mod names;
pub mod reduce;
pub mod render;
pub mod subst;
pub mod term;
pub mod typing;

verus! {

} // verus!
