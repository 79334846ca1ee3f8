//! Negation normal form: negations pushed down to the variables.

use vstd::prelude::*;
use super::{
    and_of, in_scope, is_formula, not_of, or_of, truth, var_of, PLogic, PRef, PropositionalTree,
};
use crate::tree::builder::{
    lemma_planted_above, lemma_planted_links, lemma_planted_reads, planted, size_of, top_of,
};
use crate::tree::reading::{lemma_reads_unique, reads, well_linked, Reading};
use crate::tree::tree::lemma_merged_onto_empty;
use crate::tree::{Addr, IndexedRef, Node, NodeValue, Tree};

verus! {

/// The negation normal form of `t`, or of its negation if `reverse` is set:
/// a negation flips `reverse`, a variable under `reverse` is negated, and a
/// conjunction or disjunction under `reverse` becomes the other.
pub open spec fn nnf(t: Reading<PLogic>, reverse: bool) -> Reading<PLogic>
    decreases t,
{
    match t {
        Reading::Empty => Reading::Empty,
        Reading::Node(PLogic::Variable { id }, l, r) => if reverse {
            not_of(var_of(id))
        } else {
            var_of(id)
        },
        Reading::Node(PLogic::Not, l, r) => nnf(*l, !reverse),
        Reading::Node(PLogic::And, l, r) => if reverse {
            or_of(nnf(*l, reverse), nnf(*r, reverse))
        } else {
            and_of(nnf(*l, reverse), nnf(*r, reverse))
        },
        Reading::Node(PLogic::Or, l, r) => if reverse {
            and_of(nnf(*l, reverse), nnf(*r, reverse))
        } else {
            or_of(nnf(*l, reverse), nnf(*r, reverse))
        },
    }
}

/// The formula is in negation normal form: only variables are negated.
pub open spec fn is_nnf(t: Reading<PLogic>) -> bool
    decreases t,
{
    match t {
        Reading::Empty => false,
        Reading::Node(PLogic::Variable { id }, l, r) => *l is Empty && *r is Empty,
        Reading::Node(PLogic::Not, l, r) => *l matches Reading::Node(PLogic::Variable { id }, a, b)
            && *a is Empty && *b is Empty && *r is Empty,
        Reading::Node(_, l, r) => is_nnf(*l) && is_nnf(*r),
    }
}

/// The normal form of a formula is a formula in negation normal form.
pub proof fn lemma_nnf_is_nnf(t: Reading<PLogic>, reverse: bool)
    requires
        is_formula(t),
    ensures
        is_formula(nnf(t, reverse)),
        is_nnf(nnf(t, reverse)),
    decreases t,
{
    match t {
        Reading::Empty => {},
        Reading::Node(v, l, r) => {
            match v {
                PLogic::Variable { id } => {
                    assert(is_formula(var_of(id)));
                    assert(is_nnf(var_of(id)));
                    assert(is_formula(not_of(var_of(id))));
                    assert(is_nnf(not_of(var_of(id))));
                },
                PLogic::Not => {
                    lemma_nnf_is_nnf(*l, !reverse);
                },
                _ => {
                    lemma_nnf_is_nnf(*l, reverse);
                    lemma_nnf_is_nnf(*r, reverse);
                },
            }
        },
    }
}

/// The normal form of a formula has no variable that the formula has not.
pub proof fn lemma_nnf_in_scope(t: Reading<PLogic>, reverse: bool, n: nat)
    requires
        is_formula(t),
        in_scope(t, n),
    ensures
        in_scope(nnf(t, reverse), n),
    decreases t,
{
    match t {
        Reading::Empty => {},
        Reading::Node(v, l, r) => {
            match v {
                PLogic::Variable { id } => {
                    reveal_with_fuel(in_scope, 3);
                },
                PLogic::Not => {
                    lemma_nnf_in_scope(*l, !reverse, n);
                },
                _ => {
                    lemma_nnf_in_scope(*l, reverse, n);
                    lemma_nnf_in_scope(*r, reverse, n);
                },
            }
        },
    }
}

/// A formula in negation normal form is a formula.
pub proof fn lemma_nnf_is_formula(t: Reading<PLogic>)
    requires
        is_nnf(t),
    ensures
        is_formula(t),
    decreases t,
{
    match t {
        Reading::Empty => {},
        Reading::Node(v, l, r) => {
            match v {
                PLogic::Variable { id } => {},
                PLogic::Not => {
                    assert(is_formula(*l));
                },
                _ => {
                    lemma_nnf_is_formula(*l);
                    lemma_nnf_is_formula(*r);
                },
            }
        },
    }
}

/// A formula in negation normal form is its own normal form.
pub proof fn lemma_nnf_of_nnf(t: Reading<PLogic>)
    requires
        is_nnf(t),
    ensures
        nnf(t, false) == t,
    decreases t,
{
    match t {
        Reading::Empty => {},
        Reading::Node(v, l, r) => {
            match v {
                PLogic::Variable { id } => {
                    assert(*l == Reading::<PLogic>::Empty && *r == Reading::<PLogic>::Empty);
                    assert(t == var_of(id));
                },
                PLogic::Not => {
                    let id = (*l)->Node_0->id;
                    assert(*l == var_of(id));
                    assert(nnf(*l, true) == not_of(var_of(id)));
                    assert(t == not_of(var_of(id)));
                },
                _ => {
                    lemma_nnf_of_nnf(*l);
                    lemma_nnf_of_nnf(*r);
                },
            }
        },
    }
}

/// Normal form is idempotent: the normal form of a normal form is that
/// normal form, node for node.
pub proof fn law_nnf_idempotent(t: Reading<PLogic>, reverse: bool)
    requires
        is_formula(t),
    ensures
        nnf(nnf(t, reverse), false) == nnf(t, reverse),
{
    lemma_nnf_is_nnf(t, reverse);
    lemma_nnf_of_nnf(nnf(t, reverse));
}

/// Normal form preserves meaning: under every assignment the normal form of
/// `t` is true exactly if `t` is, and that of its negation exactly if `t` is
/// not.
pub proof fn law_nnf_preserves_truth(t: Reading<PLogic>, reverse: bool, assignment: Seq<bool>)
    requires
        is_formula(t),
    ensures
        truth(nnf(t, reverse), assignment) == (truth(t, assignment) != reverse),
    decreases t,
{
    match t {
        Reading::Empty => {},
        Reading::Node(PLogic::Variable { id }, l, r) => {},
        Reading::Node(PLogic::Not, l, r) => {
            law_nnf_preserves_truth(*l, !reverse, assignment);
        },
        Reading::Node(_, l, r) => {
            law_nnf_preserves_truth(*l, reverse, assignment);
            law_nnf_preserves_truth(*r, reverse, assignment);
        },
    }
}

/// The symbol of a conjunction, or of a disjunction.
fn connective(conjoin: bool) -> (v: PLogic)
    ensures
        v == (if conjoin {
            PLogic::And
        } else {
            PLogic::Or
        }),
{
    if conjoin {
        PLogic::And
    } else {
        PLogic::Or
    }
}

/// Builds on `dst` the literal of the variable `id`: the variable, or its
/// negation if `reverse` is set.
fn literal(dst: &mut PropositionalTree, id: Addr, reverse: bool) -> (a: Addr)
    ensures
        a == top_of(old(dst).nodes().len(), nnf(var_of(id), reverse)),
        final(dst).nodes() == planted(old(dst).nodes(), nnf(var_of(id), reverse)),
        final(dst).nodes().len() == old(dst).nodes().len() + size_of(nnf(var_of(id), reverse)),
        final(dst).symbols() == old(dst).symbols(),
        final(dst).root() == old(dst).root(),
{
    let ghost start = dst.nodes();
    let inner = dst.plant_leaf(PLogic::Variable { id });
    if reverse {
        dst.plant_over(PLogic::Not, inner, Ghost(start), Ghost(var_of(id)))
    } else {
        inner
    }
}

/// Builds on `dst` the normal form of the formula under `src`, or of its
/// negation if `reverse` is set.
fn p2nnf_recusive(
    src: IndexedRef<PropositionalTree>,
    dst: &mut PropositionalTree,
    reverse: bool,
    Ghost(t): Ghost<Reading<PLogic>>,
) -> (a: Addr)
    requires
        reads(src.array.nodes(), src.idx, t),
        is_formula(t),
    ensures
        a == top_of(old(dst).nodes().len(), nnf(t, reverse)),
        final(dst).nodes() == planted(old(dst).nodes(), nnf(t, reverse)),
        final(dst).nodes().len() == old(dst).nodes().len() + size_of(nnf(t, reverse)),
        final(dst).symbols() == old(dst).symbols(),
        final(dst).root() == old(dst).root(),
    decreases t,
{
    let ghost start = dst.nodes();
    let ghost l: Reading<PLogic> = *t->Node_1;
    let ghost r: Reading<PLogic> = *t->Node_2;
    match src.array.get(src.idx).value {
        PLogic::Variable { id } => {
            assert(t == var_of(id));
            literal(dst, id, reverse)
        },
        PLogic::Not => p2nnf_recusive(src.inner(), dst, !reverse, Ghost(l)),
        PLogic::And => {
            proof {
                lemma_nnf_is_nnf(l, reverse);
                lemma_nnf_is_nnf(r, reverse);
            }
            let left = p2nnf_recusive(src.left(), dst, reverse, Ghost(l));
            let right = p2nnf_recusive(src.right(), dst, reverse, Ghost(r));
            dst.plant_join(
                connective(!reverse),
                left,
                right,
                Ghost(start),
                Ghost(nnf(l, reverse)),
                Ghost(nnf(r, reverse)),
            )
        },
        PLogic::Or => {
            proof {
                lemma_nnf_is_nnf(l, reverse);
                lemma_nnf_is_nnf(r, reverse);
            }
            let left = p2nnf_recusive(src.left(), dst, reverse, Ghost(l));
            let right = p2nnf_recusive(src.right(), dst, reverse, Ghost(r));
            dst.plant_join(
                connective(reverse),
                left,
                right,
                Ghost(start),
                Ghost(nnf(l, reverse)),
                Ghost(nnf(r, reverse)),
            )
        },
    }
}

/// The negation normal form of `tree`, as a tree of its own with the same
/// symbol table: the normal form is built from its leaves up, and its root
/// is the output.
pub fn propositional_to_nnf(tree: &PropositionalTree) -> (out: PropositionalTree)
    requires
        tree.wf(),
        tree.is_formula(),
    ensures
        out.wf(),
        out.table() == tree.table(),
        out.nodes() == planted(Seq::empty(), nnf(tree.formula(), false)),
        out.root() == top_of(0, nnf(tree.formula(), false)),
        out.is_formula(),
        out.formula() == nnf(tree.formula(), false),
        is_nnf(out.formula()),
        well_linked(out.nodes()),
        forall|n: nat| in_scope(tree.formula(), n) ==> #[trigger] in_scope(out.formula(), n),
        forall|assignment: Seq<bool>|
            truth(out.formula(), assignment) == truth(tree.formula(), assignment),
{
    let ghost t = choose|t: Reading<PLogic>|
        reads(tree.nodes(), tree.root(), t) && is_formula(t);
    proof {
        lemma_reads_unique(tree.nodes(), tree.root(), t, tree.formula());
        tree.symbols().lemma_entries_apart();
        lemma_merged_onto_empty(tree.table());
    }
    let mut out: PropositionalTree = Tree::new();
    out.copy_named(tree);
    let root = p2nnf_recusive(tree.output(), &mut out, false, Ghost(t));
    out.set_output(root);
    let n: usize = out.len();
    proof {
        let normal = nnf(t, false);
        let empty = Seq::<NodeValue<Node<2>, PLogic>>::empty();
        lemma_nnf_is_nnf(t, false);
        lemma_planted_above(empty, normal);
        lemma_planted_reads(empty, normal);
        lemma_planted_links(empty, normal);
        lemma_reads_unique(out.nodes(), out.root(), normal, out.formula());
        assert forall|n: nat| in_scope(tree.formula(), n) implies #[trigger] in_scope(
            out.formula(),
            n,
        ) by {
            lemma_nnf_in_scope(t, false, n);
        }
        assert forall|assignment: Seq<bool>|
            truth(out.formula(), assignment) == truth(tree.formula(), assignment) by {
            law_nnf_preserves_truth(t, false, assignment);
        }
    }
    out
}

} // verus!
