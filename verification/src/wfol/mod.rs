//! Formulas as values: an expression tree with names in it, as it is written
//! down before it is entered into an arena.

pub mod expr;
pub mod fmt;
pub mod nnf;

pub use expr::{all, and, any, equivalent, imply, not, or, predicate, var, Expression};
pub use nnf::to_nnf;
