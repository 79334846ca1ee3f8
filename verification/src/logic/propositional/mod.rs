//! Propositional logic: variables, negation, conjunction, disjunction.

pub mod builder;
pub mod clause;
pub mod count;
pub mod distribute;
pub mod dnf;
pub mod eval;
pub mod nnf;
pub mod node;

pub use builder::PMut;
pub use count::count_propositional;
pub use dnf::nnf_to_dnf;
pub use nnf::propositional_to_nnf;
pub use node::PRef;

use vstd::prelude::*;
use crate::logic::semantic::Semantic;
use crate::tree::reading::{reads, Reading};
use crate::tree::{Addr, Node, Tree};

verus! {

/// The symbols of propositional logic.
#[derive(Clone, Copy, Debug, PartialEq)]
pub enum PLogic {
    Variable { id: Addr },
    Not,
    And,
    Or,
}

/// The symbols of propositional logic, under their long name.
pub type PropositionalLogic = PLogic;

/// An arena of propositional nodes.
pub type PropositionalTree = Tree<PLogic, 2>;

impl Semantic for PLogic {
    type Tree = Tree<PLogic, 2>;

    type Node = Node<2>;

    fn symbol(&self) -> (s: Self) {
        *self
    }
}

/// A reading is a formula: a variable without children, a negation of one
/// formula, or a conjunction or disjunction of two.
pub open spec fn is_formula(t: Reading<PLogic>) -> bool
    decreases t,
{
    match t {
        Reading::Empty => false,
        Reading::Node(PLogic::Variable { id }, l, r) => *l is Empty && *r is Empty,
        Reading::Node(PLogic::Not, l, r) => is_formula(*l) && *r is Empty,
        Reading::Node(_, l, r) => is_formula(*l) && is_formula(*r),
    }
}

/// Every variable of the formula is one of the first `n`.
pub open spec fn in_scope(t: Reading<PLogic>, n: nat) -> bool
    decreases t,
{
    match t {
        Reading::Empty => true,
        Reading::Node(PLogic::Variable { id }, l, r) => id.addr < n,
        Reading::Node(_, l, r) => in_scope(*l, n) && in_scope(*r, n),
    }
}

/// The truth value of the formula under `assignment`.
pub open spec fn truth(t: Reading<PLogic>, assignment: Seq<bool>) -> bool
    decreases t,
{
    match t {
        Reading::Empty => false,
        Reading::Node(PLogic::Variable { id }, l, r) => id.addr < assignment.len()
            && assignment[id.addr as int],
        Reading::Node(PLogic::Not, l, r) => !truth(*l, assignment),
        Reading::Node(PLogic::And, l, r) => truth(*l, assignment) && truth(*r, assignment),
        Reading::Node(PLogic::Or, l, r) => truth(*l, assignment) || truth(*r, assignment),
    }
}

/// The variable `id`, as a formula.
pub open spec fn var_of(id: Addr) -> Reading<PLogic> {
    Reading::Node(PLogic::Variable { id }, Box::new(Reading::Empty), Box::new(Reading::Empty))
}

/// The negation of `f`.
pub open spec fn not_of(f: Reading<PLogic>) -> Reading<PLogic> {
    Reading::Node(PLogic::Not, Box::new(f), Box::new(Reading::Empty))
}

/// The conjunction of `f` and `g`.
pub open spec fn and_of(f: Reading<PLogic>, g: Reading<PLogic>) -> Reading<PLogic> {
    Reading::Node(PLogic::And, Box::new(f), Box::new(g))
}

/// The disjunction of `f` and `g`.
pub open spec fn or_of(f: Reading<PLogic>, g: Reading<PLogic>) -> Reading<PLogic> {
    Reading::Node(PLogic::Or, Box::new(f), Box::new(g))
}

/// The formula that stands at `at` in `nodes`, if one does.
pub open spec fn formula_at(
    nodes: Seq<crate::tree::NodeValue<Node<2>, PLogic>>,
    at: Addr,
) -> Reading<PLogic> {
    choose|t: Reading<PLogic>| reads(nodes, at, t)
}

/// A formula stands at `at` in `nodes`.
pub open spec fn has_formula(
    nodes: Seq<crate::tree::NodeValue<Node<2>, PLogic>>,
    at: Addr,
) -> bool {
    exists|t: Reading<PLogic>| reads(nodes, at, t) && is_formula(t)
}

} // verus!
