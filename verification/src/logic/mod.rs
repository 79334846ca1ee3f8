//! The three fragments that share the arena: propositional logic,
//! first-order logic and probabilistic circuits.

pub mod circuit;
pub mod first_order;
pub mod propositional;
pub mod semantic;

pub use semantic::{Eval, Semantic, SemanticNode};
