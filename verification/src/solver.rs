//! SAT solving: unit propagation and the DPLL backtracking search.

pub mod unit;
pub mod dpll;
