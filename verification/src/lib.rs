//! First-order term unification over an arity-tagged alphabet.
//!
//! The crate computes most general unifiers: `unify::unify` decomposes two
//! terms pair by pair while a union-find [`subst::Substitution`] merges
//! variable equivalence classes and records bindings.

pub mod subst;
pub mod term;
pub mod unify;
