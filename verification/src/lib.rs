//! A minimal DPLL-based SAT solver, verified end to end.
//!
//! The crate decides satisfiability of CNF formulas.  `solve` carries a full
//! functional contract: a `Sat` answer comes with a model that satisfies every
//! clause, and an `Unsat` answer guarantees that no total assignment
//! satisfies the formula.

pub mod types;
pub mod parser;
pub mod pigeonhole;
pub mod solver;

pub use solver::dpll::solve;
