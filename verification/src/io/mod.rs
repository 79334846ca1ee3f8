//! Reading formulas from text.

pub mod cnf;
