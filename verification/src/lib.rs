//! Weighted model counting by compilation: first-order sentences over
//! finite domains are grounded into propositional formulas, and those are
//! compiled into arithmetic circuits of products and weighted sums.
//!
//! All three languages live in one kind of arena, [`tree::Tree`]: a
//! contiguous store of nodes that are addressed by position, each with a
//! link to its parent and slots for its children, together with a symbol
//! table of names.
//!
//! - [`tree`] is the arena: addresses, link records, the symbol table,
//!   building from the leaves up, swap-remove, and rewriting in place.
//! - [`logic::propositional`] has propositional formulas with their truth
//!   values, negation normal form, disjunctive normal form and model count.
//! - [`logic::first_order`] has first-order formulas, their grounding over
//!   integer domains, and their expansion into propositional formulas.
//! - [`logic::circuit`] has the circuits and the compilers into them.
//! - [`solver`] has the finite domains and the naive enumeration of
//!   assignments.
//! - [`io::cnf`] reads conjunctive normal forms in the DIMACS format.
//! - [`wfol`] has formulas as plain values, with names in them.
//!
//! What a function computes is stated over what a walk through the arena
//! reads, [`tree::reading::Reading`]; the laws that connect the functions
//! are the proof functions whose names begin with `law_`.

pub mod io;
pub mod logic;
pub mod solver;
pub mod text;
pub mod tree;
pub mod wfol;
