//! The truth value of a formula under an assignment.

use vstd::prelude::*;
use super::{formula_at, in_scope, is_formula, truth, PLogic, PropositionalTree};
use crate::logic::semantic::Eval;
use crate::tree::reading::{depth, lemma_reads_unique, reads, Reading};
use crate::tree::Mapping;
use crate::tree::{Addr, IndexedRef};

verus! {

/// The truth value of the formula at `at`.
fn eval_at(
    tree: &PropositionalTree,
    at: Addr,
    assignment: &Vec<bool>,
    Ghost(t): Ghost<Reading<PLogic>>,
) -> (b: bool)
    requires
        reads(tree.nodes(), at, t),
        is_formula(t),
        in_scope(t, assignment@.len()),
    ensures
        b == truth(t, assignment@),
    decreases t,
{
    let cell = tree.get(at);
    let ghost l: Reading<PLogic> = *t->Node_1;
    let ghost r: Reading<PLogic> = *t->Node_2;
    match cell.value {
        PLogic::Variable { id } => assignment[id.addr],
        PLogic::Not => !eval_at(tree, cell.node.childs[0], assignment, Ghost(l)),
        PLogic::And => eval_at(tree, cell.node.childs[0], assignment, Ghost(l)) && eval_at(
            tree,
            cell.node.childs[1],
            assignment,
            Ghost(r),
        ),
        PLogic::Or => eval_at(tree, cell.node.childs[0], assignment, Ghost(l)) || eval_at(
            tree,
            cell.node.childs[1],
            assignment,
            Ghost(r),
        ),
    }
}

/// The formula `t` stands at `at` and has its variables among the first
/// `n`.
pub open spec fn stands(
    nodes: Seq<crate::tree::NodeValue<crate::tree::Node<2>, PLogic>>,
    at: Addr,
    n: nat,
    t: Reading<PLogic>,
) -> bool {
    reads(nodes, at, t) && is_formula(t) && in_scope(t, n)
}

impl<'a> Eval<bool> for IndexedRef<'a, PropositionalTree> {
    type Output = bool;

    open spec fn covers(&self, assignment: Seq<bool>) -> bool {
        exists|t: Reading<PLogic>|
            #[trigger] stands(self.array.nodes(), self.idx, assignment.len(), t)
    }

    open spec fn value(&self, assignment: Seq<bool>) -> bool {
        truth(formula_at(self.array.nodes(), self.idx), assignment)
    }

    fn eval(&self, assignment: &Vec<bool>) -> (r: bool) {
        proof {
            assert(self.covers(assignment@));
            assert(exists|t: Reading<PLogic>|
                #[trigger] stands(self.array.nodes(), self.idx, assignment@.len(), t));
        }
        let ghost t = choose|t: Reading<PLogic>|
            #[trigger] stands(self.array.nodes(), self.idx, assignment@.len(), t);
        proof {
            assert(stands(self.array.nodes(), self.idx, assignment@.len(), t));
            lemma_reads_unique(
                self.array.nodes(),
                self.idx,
                t,
                formula_at(self.array.nodes(), self.idx),
            );
        }
        let r = eval_at(self.array, self.idx, assignment, Ghost(t));
        proof {
            assert(t == formula_at(self.array.nodes(), self.idx));
            assert(self.value(assignment@) == truth(t, assignment@));
        }
        r
    }
}

impl Eval<bool> for PropositionalTree {
    type Output = bool;

    open spec fn covers(&self, assignment: Seq<bool>) -> bool {
        exists|t: Reading<PLogic>| #[trigger] stands(self.nodes(), self.root(), assignment.len(), t)
    }

    open spec fn value(&self, assignment: Seq<bool>) -> bool {
        truth(self.formula(), assignment)
    }

    fn eval(&self, assignment: &Vec<bool>) -> (r: bool) {
        let cursor = self.output();
        proof {
            assert(self.covers(assignment@));
            assert(exists|t: Reading<PLogic>|
                #[trigger] stands(self.nodes(), self.root(), assignment@.len(), t));
            assert(cursor.covers(assignment@));
        }
        cursor.eval(assignment)
    }
}

/// A formula no deeper than `budget` stands at `at`, with its variables
/// among the first `n`.
pub open spec fn stands_within(
    nodes: Seq<crate::tree::NodeValue<crate::tree::Node<2>, PLogic>>,
    at: Addr,
    n: nat,
    budget: nat,
) -> bool {
    exists|t: Reading<PLogic>| #[trigger] stands(nodes, at, n, t) && depth(t) <= budget
}

/// Whether a formula no deeper than `budget` stands at `at`, with its
/// variables among the first `n`; and the formula, if one does.
fn check_at(tree: &PropositionalTree, at: Addr, n: usize, budget: usize) -> (r: (
    bool,
    Ghost<Reading<PLogic>>,
))
    ensures
        r.0 == stands_within(tree.nodes(), at, n as nat, budget as nat),
        r.0 ==> stands(tree.nodes(), at, n as nat, r.1@) && depth(r.1@) <= budget,
    decreases budget,
{
    let ghost nodes = tree.nodes();
    let ghost none: Reading<PLogic> = Reading::Empty;
    if budget == 0 || at.addr >= tree.len() {
        proof {
            tree.lemma_bounded();
            assert forall|t: Reading<PLogic>| #[trigger]
                stands(nodes, at, n as nat, t) implies depth(t) > budget by {}
        }
        return (false, Ghost(none));
    }
    proof {
        tree.lemma_bounded();
    }
    let cell = tree.get(at);
    let c0 = cell.node.childs[0];
    let c1 = cell.node.childs[1];
    match cell.value {
        PLogic::Variable { id } => {
            let fine = id.addr < n && c0.is_none() && c1.is_none();
            let ghost t = super::var_of(id);
            proof {
                if fine {
                    assert(reads(nodes, c0, Reading::<PLogic>::Empty));
                    assert(reads(nodes, c1, Reading::<PLogic>::Empty));
                    assert(reads(nodes, at, t));
                    assert(is_formula(t));
                    assert(in_scope(t, n as nat));
                    assert(stands(nodes, at, n as nat, t));
                    assert(depth(t) == 1) by {
                        reveal_with_fuel(depth, 2);
                    }
                } else {
                    assert forall|u: Reading<PLogic>| !#[trigger] stands(nodes, at, n as nat, u) by {
                        if stands(nodes, at, n as nat, u) {
                            assert(reads(nodes, c0, *u->Node_1));
                            assert(reads(nodes, c1, *u->Node_2));
                        }
                    }
                }
            }
            (fine, Ghost(t))
        },
        PLogic::Not => {
            let (inner, l) = check_at(tree, c0, n, budget - 1);
            let fine = inner && c1.is_none();
            let ghost t = super::not_of(l@);
            proof {
                if fine {
                    assert(stands(nodes, c0, n as nat, l@));
                    assert(reads(nodes, c1, Reading::<PLogic>::Empty));
                    assert(reads(nodes, at, t));
                    assert(is_formula(t));
                    assert(in_scope(t, n as nat)) by {
                        reveal_with_fuel(in_scope, 2);
                    }
                    assert(stands(nodes, at, n as nat, t));
                    assert(depth(t) == 1 + depth(l@)) by {
                        reveal_with_fuel(depth, 2);
                    }
                } else {
                    assert forall|u: Reading<PLogic>| #[trigger]
                        stands(nodes, at, n as nat, u) implies depth(u) > budget by {
                        assert(reads(nodes, c0, *u->Node_1));
                        assert(reads(nodes, c1, *u->Node_2));
                        assert(stands(nodes, c0, n as nat, *u->Node_1));
                    }
                }
            }
            (fine, Ghost(t))
        },
        PLogic::And => {
            let (left, l) = check_at(tree, c0, n, budget - 1);
            let (right, r) = check_at(tree, c1, n, budget - 1);
            let ghost t = super::and_of(l@, r@);
            proof {
                if left && right {
                    assert(stands(nodes, at, n as nat, t));
                } else {
                    assert forall|u: Reading<PLogic>| #[trigger]
                        stands(nodes, at, n as nat, u) implies depth(u) > budget by {
                        assert(stands(nodes, c0, n as nat, *u->Node_1));
                        assert(stands(nodes, c1, n as nat, *u->Node_2));
                    }
                }
            }
            (left && right, Ghost(t))
        },
        PLogic::Or => {
            let (left, l) = check_at(tree, c0, n, budget - 1);
            let (right, r) = check_at(tree, c1, n, budget - 1);
            let ghost t = super::or_of(l@, r@);
            proof {
                if left && right {
                    assert(stands(nodes, at, n as nat, t));
                } else {
                    assert forall|u: Reading<PLogic>| #[trigger]
                        stands(nodes, at, n as nat, u) implies depth(u) > budget by {
                        assert(stands(nodes, c0, n as nat, *u->Node_1));
                        assert(stands(nodes, c1, n as nat, *u->Node_2));
                    }
                }
            }
            (left && right, Ghost(t))
        },
    }
}

impl PropositionalTree {
    /// Whether a formula stands at the output that is no deeper than the
    /// arena has nodes and has its variables in the symbol table.  A tree
    /// that passes can be shown, evaluated, enumerated and counted.
    pub fn check(&self) -> (fine: bool)
        ensures
            fine == stands_within(
                self.nodes(),
                self.root(),
                self.table().len(),
                self.nodes().len(),
            ),
            fine ==> self.is_formula() && in_scope(self.formula(), self.table().len()),
            fine ==> forall|a: Seq<bool>| a.len() == self.table().len() ==> #[trigger] self.covers(a),
    {
        let n: usize = self.num_named();
        let (fine, t) = check_at(self, self.output_addr(), n, self.len());
        proof {
            if fine {
                assert(stands(self.nodes(), self.root(), n as nat, t@));
                lemma_reads_unique(self.nodes(), self.root(), t@, self.formula());
                assert forall|a: Seq<bool>| a.len() == self.table().len() implies #[trigger] self.covers(
                    a,
                ) by {
                    assert(stands(self.nodes(), self.root(), a.len(), t@));
                }
            }
        }
        fine
    }
}

} // verus!
