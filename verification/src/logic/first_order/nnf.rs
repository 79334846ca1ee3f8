//! Negation normal form of first-order formulas: negations pushed down to
//! the predicates, quantifiers flipped on the way.

use vstd::prelude::*;
use super::{card_of, holds, holds_below, is_args, is_formula, FOLogic, FirstOrderTree};
use crate::solver::domain::Integer;
use crate::tree::builder::{
    join_of, lemma_planted_above, lemma_planted_links, lemma_planted_reads, over_of, planted,
    size_of, top_of,
};
use crate::tree::reading::{lemma_reads_unique, reads, well_linked, Reading};
use crate::tree::tree::lemma_merged_onto_empty;
use crate::tree::{Addr, IndexedRef, Node, NodeValue, Tree};

verus! {

/// The quantifier over `id`: the universal one, or the existential one.
pub open spec fn quantifier(all: bool, id: Addr) -> FOLogic {
    if all {
        FOLogic::Universal { id }
    } else {
        FOLogic::Existential { id }
    }
}

/// The conjunction, or the disjunction.
pub open spec fn connective(conjoin: bool) -> FOLogic {
    if conjoin {
        FOLogic::And
    } else {
        FOLogic::Or
    }
}

/// The negation normal form of `t`, or of its negation if `reverse` is set:
/// a negation flips `reverse`; a predicate under `reverse` is negated;
/// under `reverse` a conjunction becomes a disjunction, a universal
/// quantifier an existential one, and the other way round.
pub open spec fn nnf(t: Reading<FOLogic>, reverse: bool) -> Reading<FOLogic>
    decreases t,
{
    match t {
        Reading::Empty => Reading::Empty,
        Reading::Node(FOLogic::Predicate { id }, l, r) => if reverse {
            over_of(FOLogic::Not, t)
        } else {
            t
        },
        Reading::Node(FOLogic::Not, l, r) => nnf(*l, !reverse),
        Reading::Node(FOLogic::And, l, r) => join_of(
            connective(!reverse),
            nnf(*l, reverse),
            nnf(*r, reverse),
        ),
        Reading::Node(FOLogic::Or, l, r) => join_of(
            connective(reverse),
            nnf(*l, reverse),
            nnf(*r, reverse),
        ),
        Reading::Node(FOLogic::Universal { id }, l, r) => over_of(
            quantifier(!reverse, id),
            nnf(*l, reverse),
        ),
        Reading::Node(FOLogic::Existential { id }, l, r) => over_of(
            quantifier(reverse, id),
            nnf(*l, reverse),
        ),
    }
}

/// The formula is in negation normal form: only predicates are negated.
pub open spec fn is_nnf(t: Reading<FOLogic>) -> bool
    decreases t,
{
    match t {
        Reading::Empty => false,
        Reading::Node(FOLogic::Predicate { id }, l, r) => is_args(*l) && *r is Empty,
        Reading::Node(FOLogic::Not, l, r) => *l is Node && (*l)->Node_0 is Predicate && is_formula(
            *l,
        ) && *r is Empty,
        Reading::Node(FOLogic::And, l, r) => is_nnf(*l) && is_nnf(*r),
        Reading::Node(FOLogic::Or, l, r) => is_nnf(*l) && is_nnf(*r),
        Reading::Node(_, l, r) => is_nnf(*l) && *r is Empty,
    }
}

/// The normal form of a formula is a formula in negation normal form.
pub proof fn lemma_nnf_is_nnf(t: Reading<FOLogic>, reverse: bool)
    requires
        is_formula(t),
    ensures
        is_formula(nnf(t, reverse)),
        is_nnf(nnf(t, reverse)),
    decreases t,
{
    match t {
        Reading::Empty => {},
        Reading::Node(v, l, r) => {
            match v {
                FOLogic::Predicate { id } => {
                    assert(is_formula(over_of(FOLogic::Not, t)));
                    assert(is_nnf(over_of(FOLogic::Not, t)));
                },
                FOLogic::Not => {
                    lemma_nnf_is_nnf(*l, !reverse);
                },
                FOLogic::And => {
                    lemma_nnf_is_nnf(*l, reverse);
                    lemma_nnf_is_nnf(*r, reverse);
                },
                FOLogic::Or => {
                    lemma_nnf_is_nnf(*l, reverse);
                    lemma_nnf_is_nnf(*r, reverse);
                },
                _ => {
                    lemma_nnf_is_nnf(*l, reverse);
                },
            }
        },
    }
}

/// A formula in negation normal form is its own normal form.
pub proof fn lemma_nnf_of_nnf(t: Reading<FOLogic>)
    requires
        is_nnf(t),
    ensures
        nnf(t, false) == t,
    decreases t,
{
    match t {
        Reading::Empty => {},
        Reading::Node(v, l, r) => {
            match v {
                FOLogic::Predicate { id } => {},
                FOLogic::Not => {
                    assert(nnf(*l, true) == over_of(FOLogic::Not, *l));
                },
                FOLogic::And => {
                    lemma_nnf_of_nnf(*l);
                    lemma_nnf_of_nnf(*r);
                },
                FOLogic::Or => {
                    lemma_nnf_of_nnf(*l);
                    lemma_nnf_of_nnf(*r);
                },
                _ => {
                    lemma_nnf_of_nnf(*l);
                },
            }
        },
    }
}

/// Normal form is idempotent.
pub proof fn law_nnf_idempotent(t: Reading<FOLogic>, reverse: bool)
    requires
        is_formula(t),
    ensures
        nnf(nnf(t, reverse), false) == nnf(t, reverse),
{
    lemma_nnf_is_nnf(t, reverse);
    lemma_nnf_of_nnf(nnf(t, reverse));
}

/// Normal form preserves meaning: in every model the normal form of a
/// formula holds exactly if the formula does, and that of its negation
/// exactly if it does not.
pub proof fn law_nnf_preserves_truth(
    t: Reading<FOLogic>,
    reverse: bool,
    env: Map<usize, usize>,
    domains: Seq<Integer>,
    model: spec_fn(Addr, Seq<usize>) -> bool,
)
    requires
        is_formula(t),
    ensures
        holds(nnf(t, reverse), env, domains, model) == (holds(t, env, domains, model) != reverse),
    decreases t, 0nat,
{
    match t {
        Reading::Empty => {},
        Reading::Node(v, l, r) => {
            match v {
                FOLogic::Predicate { id } => {},
                FOLogic::Not => {
                    law_nnf_preserves_truth(*l, !reverse, env, domains, model);
                },
                FOLogic::And => {
                    law_nnf_preserves_truth(*l, reverse, env, domains, model);
                    law_nnf_preserves_truth(*r, reverse, env, domains, model);
                },
                FOLogic::Or => {
                    law_nnf_preserves_truth(*l, reverse, env, domains, model);
                    law_nnf_preserves_truth(*r, reverse, env, domains, model);
                },
                FOLogic::Universal { id } => {
                    lemma_below(*l, reverse, env, id, card_of(domains, id), domains, model, true);
                },
                FOLogic::Existential { id } => {
                    lemma_below(*l, reverse, env, id, card_of(domains, id), domains, model, false);
                },
            }
        },
    }
}

/// The normal form of a body holds at every value, or at some value, as the
/// body does; that of its negation holds at some value where the body does
/// not hold at every value, and at every value where it holds at none.
proof fn lemma_below(
    body: Reading<FOLogic>,
    reverse: bool,
    env: Map<usize, usize>,
    x: Addr,
    k: nat,
    domains: Seq<Integer>,
    model: spec_fn(Addr, Seq<usize>) -> bool,
    all: bool,
)
    requires
        is_formula(body),
    ensures
        holds_below(nnf(body, reverse), env, x, k, domains, model, all != reverse) == (
        holds_below(body, env, x, k, domains, model, all) != reverse),
    decreases body, k,
{
    if k > 0 {
        lemma_below(body, reverse, env, x, (k - 1) as nat, domains, model, all);
        law_nnf_preserves_truth(
            body,
            reverse,
            env.insert(x.addr, (k - 1) as usize),
            domains,
            model,
        );
    }
}

/// The symbol of the quantifier over `id`.
fn quantifier_of(all: bool, id: Addr) -> (v: FOLogic)
    ensures
        v == quantifier(all, id),
{
    if all {
        FOLogic::Universal { id }
    } else {
        FOLogic::Existential { id }
    }
}

/// The symbol of the conjunction, or of the disjunction.
fn connective_of(conjoin: bool) -> (v: FOLogic)
    ensures
        v == connective(conjoin),
{
    if conjoin {
        FOLogic::And
    } else {
        FOLogic::Or
    }
}

/// Builds on `dst` the normal form of the formula under `src`, or of its
/// negation if `reverse` is set.
fn to_nnf_recursive(
    src: IndexedRef<FirstOrderTree>,
    dst: &mut FirstOrderTree,
    reverse: bool,
    Ghost(t): Ghost<Reading<FOLogic>>,
) -> (a: Addr)
    requires
        reads(src.array.nodes(), src.idx, t),
        is_formula(t),
    ensures
        a == top_of(old(dst).nodes().len(), nnf(t, reverse)),
        final(dst).nodes() == planted(old(dst).nodes(), nnf(t, reverse)),
        final(dst).nodes().len() == old(dst).nodes().len() + size_of(nnf(t, reverse)),
        final(dst).symbols() == old(dst).symbols(),
        final(dst).root() == old(dst).root(),
    decreases t,
{
    let ghost start = dst.nodes();
    let ghost l: Reading<FOLogic> = *t->Node_1;
    let ghost r: Reading<FOLogic> = *t->Node_2;
    let tree = src.array;
    let cell = tree.get(src.idx);
    proof {
        lemma_nnf_is_nnf(t, reverse);
        if !(cell.value is Predicate) {
            lemma_nnf_is_nnf(l, reverse);
            lemma_nnf_is_nnf(l, !reverse);
        }
        if cell.value is And || cell.value is Or {
            lemma_nnf_is_nnf(r, reverse);
        }
    }
    match cell.value {
        FOLogic::Predicate { id } => {
            let atom = dst.copy_from(tree, src.idx, Ghost(t));
            if reverse {
                dst.plant_over(FOLogic::Not, atom, Ghost(start), Ghost(t))
            } else {
                atom
            }
        },
        FOLogic::Not => to_nnf_recursive(
            IndexedRef { array: tree, idx: cell.node.childs[0] },
            dst,
            !reverse,
            Ghost(l),
        ),
        FOLogic::And => {
            let left = to_nnf_recursive(
                IndexedRef { array: tree, idx: cell.node.childs[0] },
                dst,
                reverse,
                Ghost(l),
            );
            let right = to_nnf_recursive(
                IndexedRef { array: tree, idx: cell.node.childs[1] },
                dst,
                reverse,
                Ghost(r),
            );
            dst.plant_join(
                connective_of(!reverse),
                left,
                right,
                Ghost(start),
                Ghost(nnf(l, reverse)),
                Ghost(nnf(r, reverse)),
            )
        },
        FOLogic::Or => {
            let left = to_nnf_recursive(
                IndexedRef { array: tree, idx: cell.node.childs[0] },
                dst,
                reverse,
                Ghost(l),
            );
            let right = to_nnf_recursive(
                IndexedRef { array: tree, idx: cell.node.childs[1] },
                dst,
                reverse,
                Ghost(r),
            );
            dst.plant_join(
                connective_of(reverse),
                left,
                right,
                Ghost(start),
                Ghost(nnf(l, reverse)),
                Ghost(nnf(r, reverse)),
            )
        },
        FOLogic::Universal { id } => {
            let inner = to_nnf_recursive(
                IndexedRef { array: tree, idx: cell.node.childs[0] },
                dst,
                reverse,
                Ghost(l),
            );
            dst.plant_over(quantifier_of(!reverse, id), inner, Ghost(start), Ghost(nnf(l, reverse)))
        },
        FOLogic::Existential { id } => {
            let inner = to_nnf_recursive(
                IndexedRef { array: tree, idx: cell.node.childs[0] },
                dst,
                reverse,
                Ghost(l),
            );
            dst.plant_over(quantifier_of(reverse, id), inner, Ghost(start), Ghost(nnf(l, reverse)))
        },
    }
}

/// The negation normal form of `tree`, as a tree of its own with the same
/// symbol table: the normal form is built from its leaves up, and its root
/// is the output.
pub fn to_nnf(tree: &FirstOrderTree) -> (out: FirstOrderTree)
    requires
        tree.wf(),
        tree.is_formula(),
    ensures
        out.wf(),
        out.table() == tree.table(),
        out.nodes() == planted(Seq::empty(), nnf(tree.formula(), false)),
        out.root() == top_of(0, nnf(tree.formula(), false)),
        out.is_formula(),
        out.formula() == nnf(tree.formula(), false),
        is_nnf(out.formula()),
        well_linked(out.nodes()),
{
    let ghost t = choose|t: Reading<FOLogic>|
        reads(tree.nodes(), tree.root(), t) && is_formula(t);
    proof {
        lemma_reads_unique(tree.nodes(), tree.root(), t, tree.formula());
        tree.symbols().lemma_entries_apart();
        lemma_merged_onto_empty(tree.table());
    }
    let mut out: FirstOrderTree = Tree::new();
    out.copy_named(tree);
    let root = to_nnf_recursive(tree.output(), &mut out, false, Ghost(t));
    out.set_output(root);
    let n: usize = out.len();
    proof {
        let normal = nnf(t, false);
        let empty = Seq::<NodeValue<Node<2>, FOLogic>>::empty();
        lemma_nnf_is_nnf(t, false);
        lemma_planted_above(empty, normal);
        lemma_planted_reads(empty, normal);
        lemma_planted_links(empty, normal);
        lemma_reads_unique(out.nodes(), out.root(), normal, out.formula());
        assert(reads(out.nodes(), out.root(), normal) && is_formula(normal));
    }
    out
}

} // verus!
