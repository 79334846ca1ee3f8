//! The exact value of a circuit whose weights are all one.  A circuit with
//! another weight has no value here.

use vstd::prelude::*;
use super::{
    circuit_at, in_range, is_circuit, is_plain, worth, PCicruit, ProbabilisticCircuitTree, UNIT_WEIGHT,
};
use crate::logic::semantic::Eval;
use crate::tree::reading::{depth, lemma_reads_unique, reads, Reading};
use crate::tree::Mapping;
use crate::tree::{Addr, IndexedRef};

verus! {

/// The value `v`, if sixty-four bits hold it.
pub open spec fn held(v: nat) -> Option<u64> {
    if v <= u64::MAX {
        Some(v as u64)
    } else {
        None
    }
}

/// A product of two numbers that are not zero is at least each of them.
proof fn lemma_product_bounds(a: nat, b: nat)
    requires
        a >= 1,
        b >= 1,
    ensures
        a * b >= a,
        a * b >= b,
{
    assert(a * b >= a) by (nonlinear_arith)
        requires
            a >= 1,
            b >= 1,
    ;
    assert(a * b >= b) by (nonlinear_arith)
        requires
            a >= 1,
            b >= 1,
    ;
}

/// The value of the circuit at `at`, if sixty-four bits hold it.
fn eval_at(
    tree: &ProbabilisticCircuitTree,
    at: Addr,
    assignment: &Vec<bool>,
    Ghost(t): Ghost<Reading<PCicruit>>,
) -> (v: Option<u64>)
    requires
        reads(tree.nodes(), at, t),
        is_circuit(t),
        in_range(t, assignment@.len()),
    ensures
        v == held(worth(t, assignment@)),
    decreases t,
{
    let cell = tree.get(at);
    let ghost l: Reading<PCicruit> = *t->Node_1;
    let ghost r: Reading<PCicruit> = *t->Node_2;
    match cell.value {
        PCicruit::Variable { id, neg } => {
            if assignment[id.addr] != neg {
                Some(1)
            } else {
                Some(0)
            }
        },
        PCicruit::Product => {
            let a = eval_at(tree, cell.node.childs[0], assignment, Ghost(l));
            let b = eval_at(tree, cell.node.childs[1], assignment, Ghost(r));
            let ghost x = worth(l, assignment@);
            let ghost y = worth(r, assignment@);
            proof {
                assert(x * 0 == 0 && 0 * y == 0) by (nonlinear_arith);
                if x >= 1 && y >= 1 {
                    lemma_product_bounds(x, y);
                }
            }
            match (a, b) {
                (Some(0), _) => Some(0),
                (_, Some(0)) => Some(0),
                (Some(p), Some(q)) => p.checked_mul(q),
                _ => None,
            }
        },
        PCicruit::Sum { left, right } => {
            let a = eval_at(tree, cell.node.childs[0], assignment, Ghost(l));
            let b = eval_at(tree, cell.node.childs[1], assignment, Ghost(r));
            match (a, b) {
                (Some(p), Some(q)) => p.checked_add(q),
                _ => None,
            }
        },
    }
}

/// Whether every weight of the circuit at `at` is one.
fn plain_at(tree: &ProbabilisticCircuitTree, at: Addr, Ghost(t): Ghost<Reading<PCicruit>>) -> (fine:
    bool)
    requires
        reads(tree.nodes(), at, t),
        is_circuit(t),
    ensures
        fine == is_plain(t),
    decreases t,
{
    let cell = tree.get(at);
    let ghost l: Reading<PCicruit> = *t->Node_1;
    let ghost r: Reading<PCicruit> = *t->Node_2;
    match cell.value {
        PCicruit::Variable { id, neg } => {
            proof {
                reveal_with_fuel(is_plain, 2);
            }
            true
        },
        PCicruit::Product => {
            let a = plain_at(tree, cell.node.childs[0], Ghost(l));
            let b = plain_at(tree, cell.node.childs[1], Ghost(r));
            a && b
        },
        PCicruit::Sum { left, right } => {
            let a = plain_at(tree, cell.node.childs[0], Ghost(l));
            let b = plain_at(tree, cell.node.childs[1], Ghost(r));
            left == UNIT_WEIGHT && right == UNIT_WEIGHT && a && b
        },
    }
}

/// The circuit `t` stands at `at` and has its variables among the first
/// `n`.
pub open spec fn stands(
    nodes: Seq<crate::tree::NodeValue<crate::tree::Node<2>, PCicruit>>,
    at: Addr,
    n: nat,
    t: Reading<PCicruit>,
) -> bool {
    reads(nodes, at, t) && is_circuit(t) && in_range(t, n)
}

impl<'a> Eval<bool> for IndexedRef<'a, ProbabilisticCircuitTree> {
    type Output = Option<u64>;

    open spec fn covers(&self, assignment: Seq<bool>) -> bool {
        &&& exists|t: Reading<PCicruit>|
            #[trigger] stands(self.array.nodes(), self.idx, assignment.len(), t)
        &&& is_plain(circuit_at(self.array.nodes(), self.idx))
    }

    open spec fn value(&self, assignment: Seq<bool>) -> Option<u64> {
        held(worth(circuit_at(self.array.nodes(), self.idx), assignment))
    }

    /// The value of the circuit under the cursor, whose weights are all
    /// one; `None` if sixty-four bits do not hold it.
    fn eval(&self, assignment: &Vec<bool>) -> (r: Option<u64>) {
        proof {
            assert(self.covers(assignment@));
            assert(exists|t: Reading<PCicruit>|
                #[trigger] stands(self.array.nodes(), self.idx, assignment@.len(), t));
        }
        let ghost t = choose|t: Reading<PCicruit>|
            #[trigger] stands(self.array.nodes(), self.idx, assignment@.len(), t);
        proof {
            assert(stands(self.array.nodes(), self.idx, assignment@.len(), t));
            lemma_reads_unique(
                self.array.nodes(),
                self.idx,
                t,
                circuit_at(self.array.nodes(), self.idx),
            );
        }
        let r = eval_at(self.array, self.idx, assignment, Ghost(t));
        proof {
            assert(t == circuit_at(self.array.nodes(), self.idx));
            assert(self.value(assignment@) == held(worth(t, assignment@)));
        }
        r
    }
}

impl Eval<bool> for ProbabilisticCircuitTree {
    type Output = Option<u64>;

    open spec fn covers(&self, assignment: Seq<bool>) -> bool {
        &&& exists|t: Reading<PCicruit>| #[trigger]
            stands(self.nodes(), self.root(), assignment.len(), t)
        &&& is_plain(self.circuit())
    }

    open spec fn value(&self, assignment: Seq<bool>) -> Option<u64> {
        held(worth(self.circuit(), assignment))
    }

    /// The value of the circuit at the output, whose weights are all one;
    /// `None` if sixty-four bits do not hold it.
    fn eval(&self, assignment: &Vec<bool>) -> (r: Option<u64>) {
        let cursor = self.output();
        proof {
            assert(self.covers(assignment@));
            assert(exists|t: Reading<PCicruit>|
                #[trigger] stands(self.nodes(), self.root(), assignment@.len(), t));
            assert(cursor.covers(assignment@));
        }
        cursor.eval(assignment)
    }
}

/// A circuit no deeper than `budget` stands at `at`, with its variables
/// among the first `n`.
pub open spec fn stands_within(
    nodes: Seq<crate::tree::NodeValue<crate::tree::Node<2>, PCicruit>>,
    at: Addr,
    n: nat,
    budget: nat,
) -> bool {
    exists|t: Reading<PCicruit>| #[trigger] stands(nodes, at, n, t) && depth(t) <= budget
}

/// Whether a circuit no deeper than `budget` stands at `at`, with its
/// variables among the first `n`; and the circuit, if one does.
fn check_at(tree: &ProbabilisticCircuitTree, at: Addr, n: usize, budget: usize) -> (r: (
    bool,
    Ghost<Reading<PCicruit>>,
))
    ensures
        r.0 == stands_within(tree.nodes(), at, n as nat, budget as nat),
        r.0 ==> stands(tree.nodes(), at, n as nat, r.1@) && depth(r.1@) <= budget,
    decreases budget,
{
    let ghost nodes = tree.nodes();
    let ghost none: Reading<PCicruit> = Reading::Empty;
    if budget == 0 || at.addr >= tree.len() {
        proof {
            tree.lemma_bounded();
            assert forall|t: Reading<PCicruit>| #[trigger]
                stands(nodes, at, n as nat, t) implies depth(t) > budget by {}
        }
        return (false, Ghost(none));
    }
    proof {
        tree.lemma_bounded();
    }
    let cell = tree.get(at);
    let c0 = cell.node.childs[0];
    let c1 = cell.node.childs[1];
    match cell.value {
        PCicruit::Variable { id, neg } => {
            let fine = id.addr < n && c0.is_none() && c1.is_none();
            let ghost t = crate::tree::builder::leaf_of(cell.value);
            proof {
                if fine {
                    assert(reads(nodes, c0, Reading::<PCicruit>::Empty));
                    assert(reads(nodes, c1, Reading::<PCicruit>::Empty));
                    assert(reads(nodes, at, t));
                    assert(is_circuit(t));
                    assert(in_range(t, n as nat));
                    assert(stands(nodes, at, n as nat, t));
                    assert(depth(t) == 1) by {
                        reveal_with_fuel(depth, 2);
                    }
                } else {
                    assert forall|u: Reading<PCicruit>| !#[trigger] stands(nodes, at, n as nat, u) by {
                        if stands(nodes, at, n as nat, u) {
                            assert(reads(nodes, c0, *u->Node_1));
                            assert(reads(nodes, c1, *u->Node_2));
                        }
                    }
                }
            }
            (fine, Ghost(t))
        },
        _ => {
            let (left, l) = check_at(tree, c0, n, budget - 1);
            let (right, r) = check_at(tree, c1, n, budget - 1);
            let ghost t = crate::tree::builder::join_of(cell.value, l@, r@);
            proof {
                if left && right {
                    assert(stands(nodes, at, n as nat, t));
                } else {
                    assert forall|u: Reading<PCicruit>| #[trigger]
                        stands(nodes, at, n as nat, u) implies depth(u) > budget by {
                        assert(stands(nodes, c0, n as nat, *u->Node_1));
                        assert(stands(nodes, c1, n as nat, *u->Node_2));
                    }
                }
            }
            (left && right, Ghost(t))
        },
    }
}

impl ProbabilisticCircuitTree {
    /// Whether every weight of the circuit at the output is one.
    pub fn unweighted(&self) -> (fine: bool)
        requires
            self.is_circuit(),
        ensures
            fine == is_plain(self.circuit()),
    {
        let ghost t = choose|t: Reading<PCicruit>|
            reads(self.nodes(), self.root(), t) && is_circuit(t);
        proof {
            lemma_reads_unique(self.nodes(), self.root(), t, self.circuit());
        }
        plain_at(self, self.output_addr(), Ghost(t))
    }

    /// Whether a circuit stands at the output that is no deeper than the
    /// arena has nodes and has its variables in the symbol table.  A tree
    /// that passes can be shown, and evaluated if its weights are all one.
    pub fn check(&self) -> (fine: bool)
        ensures
            fine == stands_within(
                self.nodes(),
                self.root(),
                self.table().len(),
                self.nodes().len(),
            ),
            fine ==> self.is_circuit() && in_range(self.circuit(), self.table().len()),
            fine && is_plain(self.circuit()) ==> forall|a: Seq<bool>|
                a.len() == self.table().len() ==> #[trigger] self.covers(a),
    {
        let n: usize = self.num_named();
        let (fine, t) = check_at(self, self.output_addr(), n, self.len());
        proof {
            if fine {
                assert(stands(self.nodes(), self.root(), n as nat, t@));
                lemma_reads_unique(self.nodes(), self.root(), t@, self.circuit());
            }
            if fine && is_plain(self.circuit()) {
                assert forall|a: Seq<bool>| a.len() == self.table().len() implies #[trigger] self.covers(
                    a,
                ) by {
                    assert(stands(self.nodes(), self.root(), a.len(), t@));
                }
            }
        }
        fine
    }
}

} // verus!
