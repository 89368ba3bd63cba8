//! A brute-force boolean satisfiability solver over named variables.
//!
//! Clauses are disjunctions of literals; the solver enumerates every
//! assignment over the sorted, deduplicated set of variable labels and
//! returns each one that satisfies all registered clauses.

pub mod order;
pub mod clause;
pub mod solver;

pub use clause::Clause;
pub use solver::{Satisfiability, Solver};
