//! Finite domains and the enumeration of assignments.

pub mod bits;
pub mod domain;
pub mod naive;
