//! Probabilistic circuits: variable leaves, products and weighted sums.

pub mod builder;
pub mod compile;
pub mod eval;
pub mod node;

pub use builder::PCMut;
pub use compile::{enumerate_variables, first_order_to_circuit, propositional_to_circuit};
pub use node::PCRef;

use vstd::prelude::*;
use crate::logic::semantic::Semantic;
use crate::tree::reading::{reads, Reading};
use crate::tree::{Addr, Node, NodeValue, Tree};

verus! {

/// The weight one, as the bit pattern of a single-precision number.
pub const UNIT_WEIGHT: u32 = 0x3F80_0000;

/// The symbols of a probabilistic circuit.  A variable leaf is positive or
/// negated; a sum weighs each of its two inputs.  A weight is a
/// single-precision number, held by its bit pattern.
#[derive(Clone, Copy, Debug, PartialEq)]
pub enum PCicruit {
    Variable { id: Addr, neg: bool },
    Product,
    Sum { left: u32, right: u32 },
}

/// The symbols of a probabilistic circuit, under their long name.
pub type ProbabilisticCircuit = PCicruit;

/// An arena of circuit nodes.
pub type ProbabilisticCircuitTree = Tree<PCicruit, 2>;

impl Semantic for PCicruit {
    type Tree = Tree<PCicruit, 2>;

    type Node = Node<2>;

    fn symbol(&self) -> (s: Self) {
        *self
    }
}

/// The symbol of a sum whose weights are both one.
pub open spec fn plain_sum() -> PCicruit {
    PCicruit::Sum { left: UNIT_WEIGHT, right: UNIT_WEIGHT }
}

/// A reading is a circuit: a variable leaf, or a product or sum of two.
pub open spec fn is_circuit(t: Reading<PCicruit>) -> bool
    decreases t,
{
    match t {
        Reading::Empty => false,
        Reading::Node(PCicruit::Variable { id, neg }, l, r) => *l is Empty && *r is Empty,
        Reading::Node(_, l, r) => is_circuit(*l) && is_circuit(*r),
    }
}

/// Every weight of the circuit is one.
pub open spec fn is_plain(t: Reading<PCicruit>) -> bool
    decreases t,
{
    match t {
        Reading::Empty => true,
        Reading::Node(PCicruit::Sum { left, right }, l, r) => left == UNIT_WEIGHT && right
            == UNIT_WEIGHT && is_plain(*l) && is_plain(*r),
        Reading::Node(_, l, r) => is_plain(*l) && is_plain(*r),
    }
}

/// Every variable of the circuit is one of the first `n`.
pub open spec fn in_range(t: Reading<PCicruit>, n: nat) -> bool
    decreases t,
{
    match t {
        Reading::Empty => true,
        Reading::Node(PCicruit::Variable { id, neg }, l, r) => id.addr < n,
        Reading::Node(_, l, r) => in_range(*l, n) && in_range(*r, n),
    }
}

/// The value of a circuit whose weights are all one: a leaf is worth one if
/// its variable is assigned as the leaf says and nothing otherwise, a
/// product the product of its inputs, a sum their sum.
pub open spec fn worth(t: Reading<PCicruit>, assignment: Seq<bool>) -> nat
    decreases t,
{
    match t {
        Reading::Empty => 0,
        Reading::Node(PCicruit::Variable { id, neg }, l, r) => if id.addr < assignment.len()
            && assignment[id.addr as int] != neg {
            1
        } else {
            0
        },
        Reading::Node(PCicruit::Product, l, r) => worth(*l, assignment) * worth(*r, assignment),
        Reading::Node(PCicruit::Sum { left, right }, l, r) => worth(*l, assignment) + worth(
            *r,
            assignment,
        ),
    }
}

/// The circuit that stands at `at` in `nodes`, if one does.
pub open spec fn circuit_at(nodes: Seq<NodeValue<Node<2>, PCicruit>>, at: Addr) -> Reading<
    PCicruit,
> {
    choose|t: Reading<PCicruit>| reads(nodes, at, t)
}

/// A circuit stands at `at` in `nodes`.
pub open spec fn has_circuit(nodes: Seq<NodeValue<Node<2>, PCicruit>>, at: Addr) -> bool {
    exists|t: Reading<PCicruit>| reads(nodes, at, t) && is_circuit(t)
}

impl ProbabilisticCircuitTree {
    /// The circuit at the output.
    pub open spec fn circuit(&self) -> Reading<PCicruit> {
        circuit_at(self.nodes(), self.root())
    }

    /// A circuit stands at the output.
    pub open spec fn is_circuit(&self) -> bool {
        has_circuit(self.nodes(), self.root())
    }
}

} // verus!
