//! Abstract interpretation of a small dynamic language.
//!
//! The crate statically approximates the set of runtime value shapes that a
//! program's variables may hold, without executing the program.  Abstract
//! values form a join semilattice (`types::AbstractValue`, joined by
//! `interpret::merge_values`); an analysis state maps variable and function
//! names to abstract bindings (`types::AbstractState`); and a tree-walking
//! evaluator (`interpret::interpret`) threads abstract values and states
//! through sequencing, branching, looping and constrained generic calls.

pub mod ast;
pub mod interpret;
pub mod laws;
pub mod order;
pub mod shape;
pub mod types;
