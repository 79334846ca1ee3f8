//! Disjunctive normal form: what the distributive law makes of a formula
//! in negation normal form, and the tree of it.

use vstd::prelude::*;
use crate::tree::Mapping;
use crate::tree::{Addr, Node, NodeValue, Tree};
use crate::tree::builder::{
    lemma_planted_above, lemma_planted_links, lemma_planted_reads, planted, top_of,
};
use crate::tree::reading::{Reading, lemma_reads_unique, reads, size, well_linked};
use crate::tree::tree::lemma_merged_onto_empty;
use super::{PLogic, PropositionalTree, and_of, in_scope, is_formula, not_of, or_of, truth, var_of};
use super::clause::{
    agrees, allowed, collect_clauses, fixed, gathered, lemma_gathered, lemma_gathered_fixes,
    lemma_gathered_len, rows,
};
use super::distribute::{distribute_nodes, operand};
use super::nnf::{is_nnf, lemma_nnf_is_formula};

verus! {

/// The formula is a literal: a variable or the negation of one.
pub open spec fn is_literal(t: Reading<PLogic>) -> bool {
    is_nnf(t) && (t->Node_0 is Variable || t->Node_0 is Not)
}

/// The formula is a term: a conjunction of literals, however it is
/// bracketed.
pub open spec fn is_term(t: Reading<PLogic>) -> bool
    decreases t,
{
    match t {
        Reading::Node(PLogic::And, l, r) => is_term(*l) && is_term(*r),
        _ => is_literal(t),
    }
}

/// The formula is in disjunctive normal form: a disjunction of terms,
/// however it is bracketed; no conjunction is over a disjunction.
pub open spec fn is_dnf(t: Reading<PLogic>) -> bool
    decreases t,
{
    match t {
        Reading::Node(PLogic::Or, l, r) => is_dnf(*l) && is_dnf(*r),
        _ => is_term(t),
    }
}

/// What one use of the distributive law at the top makes of a formula: a
/// conjunction whose first operand is a disjunction is distributed over
/// that; else one whose second operand is a disjunction, over that; any
/// other formula is left.
pub open spec fn step(t: Reading<PLogic>) -> Option<Reading<PLogic>> {
    match t {
        Reading::Node(PLogic::And, l, r) => match (*l, *r) {
            (Reading::Node(PLogic::Or, x, y), b) => Some(or_of(and_of(*x, b), and_of(*y, b))),
            (a, Reading::Node(PLogic::Or, x, y)) => Some(or_of(and_of(a, *x), and_of(a, *y))),
            _ => None,
        },
        _ => None,
    }
}

/// The conjunction of two disjunctive normal forms, distributed.
pub open spec fn dist(a: Reading<PLogic>, b: Reading<PLogic>) -> Reading<PLogic>
    decreases a, b,
{
    match a {
        Reading::Node(PLogic::Or, x, y) => or_of(dist(*x, b), dist(*y, b)),
        _ => match b {
            Reading::Node(PLogic::Or, x, y) => or_of(dist(a, *x), dist(a, *y)),
            _ => and_of(a, b),
        },
    }
}

/// The disjunctive normal form that the distributive law makes of a formula
/// in negation normal form.
pub open spec fn dnf(t: Reading<PLogic>) -> Reading<PLogic>
    decreases t,
{
    match t {
        Reading::Node(PLogic::And, l, r) => dist(dnf(*l), dnf(*r)),
        Reading::Node(PLogic::Or, l, r) => or_of(dnf(*l), dnf(*r)),
        _ => t,
    }
}

/// The weight of a formula: it falls with every use of the distributive
/// law.
pub open spec fn weight(t: Reading<PLogic>) -> nat
    decreases t,
{
    match t {
        Reading::Node(PLogic::And, l, r) => weight(*l) * weight(*r),
        Reading::Node(PLogic::Or, l, r) => weight(*l) + weight(*r) + 1,
        _ => 2,
    }
}

/// Every formula weighs at least two.
pub proof fn lemma_weight_least(t: Reading<PLogic>)
    ensures
        weight(t) >= 2,
    decreases t,
{
    match t {
        Reading::Empty => {},
        Reading::Node(v, l, r) => {
            match v {
                PLogic::And => {
                    lemma_weight_least(*l);
                    lemma_weight_least(*r);
                    let a = weight(*l);
                    let b = weight(*r);
                    assert(weight(t) == a * b);
                    assert(a * b >= 2) by (nonlinear_arith)
                        requires
                            a >= 2,
                            b >= 2,
                    ;
                },
                PLogic::Or => {
                    lemma_weight_least(*l);
                    lemma_weight_least(*r);
                },
                _ => {},
            }
        },
    }
}

/// A formula in negation normal form weighs no less than its operands.
pub proof fn lemma_weight_of_parts(t: Reading<PLogic>)
    requires
        is_nnf(t),
    ensures
        weight(*t->Node_1) <= weight(t),
        weight(*t->Node_2) <= weight(t),
{
    let l = *t->Node_1;
    let r = *t->Node_2;
    lemma_weight_least(l);
    lemma_weight_least(r);
    lemma_weight_least(t);
    let a = weight(l);
    let b = weight(r);
    match t {
        Reading::Empty => {},
        Reading::Node(v, x, y) => {
            match v {
                PLogic::And => {
                    assert(weight(t) == a * b);
                    assert(a <= a * b && b <= a * b) by (nonlinear_arith)
                        requires
                            a >= 2,
                            b >= 2,
                    ;
                },
                PLogic::Or => {
                    assert(weight(t) == a + b + 1);
                },
                _ => {},
            }
        },
    }
}

/// The first operand of the conjunction is a disjunction.
pub open spec fn left_splits(t: Reading<PLogic>) -> bool {
    t is Node && t->Node_0 is And && *t->Node_1 is Node && (*t->Node_1)->Node_0 is Or
}

/// The first operand of the conjunction is no disjunction and the second
/// is one.
pub open spec fn right_splits(t: Reading<PLogic>) -> bool {
    t is Node && t->Node_0 is And && !left_splits(t) && *t->Node_2 is Node && (
    *t->Node_2)->Node_0 is Or
}

/// What one use of the distributive law makes of a formula.
pub proof fn lemma_step(t: Reading<PLogic>)
    ensures
        step(t) is Some <==> left_splits(t) || right_splits(t),
        left_splits(t) ==> step(t) == Some(
            or_of(
                and_of(*(*t->Node_1)->Node_1, *t->Node_2),
                and_of(*(*t->Node_1)->Node_2, *t->Node_2),
            ),
        ),
        right_splits(t) ==> step(t) == Some(
            or_of(
                and_of(*t->Node_1, *(*t->Node_2)->Node_1),
                and_of(*t->Node_1, *(*t->Node_2)->Node_2),
            ),
        ),
{
    match t {
        Reading::Empty => {},
        Reading::Node(v, l, r) => {
            match v {
                PLogic::And => {
                    match *l {
                        Reading::Empty => {
                            match *r {
                                Reading::Empty => {},
                                Reading::Node(w, x, y) => {},
                            }
                        },
                        Reading::Node(u, p, q) => {
                            match *r {
                                Reading::Empty => {},
                                Reading::Node(w, x, y) => {},
                            }
                        },
                    }
                },
                _ => {},
            }
        },
    }
}

/// One use of the distributive law makes a formula lighter.
pub proof fn lemma_step_lighter(t: Reading<PLogic>)
    requires
        step(t) is Some,
    ensures
        weight(step(t)->0) < weight(t),
{
    lemma_step(t);
    let l = *t->Node_1;
    let r = *t->Node_2;
    assert(weight(t) == weight(l) * weight(r));
    if left_splits(t) {
        let x = *l->Node_1;
        let y = *l->Node_2;
        lemma_weight_least(x);
        lemma_weight_least(y);
        lemma_weight_least(r);
        let a = weight(x);
        let b = weight(y);
        let c = weight(r);
        assert(weight(l) == a + b + 1);
        assert(weight(and_of(x, r)) == a * c);
        assert(weight(and_of(y, r)) == b * c);
        assert(weight(or_of(and_of(x, r), and_of(y, r))) == a * c + b * c + 1);
        assert(a * c + b * c + 1 < (a + b + 1) * c) by (nonlinear_arith)
            requires
                c >= 2,
        ;
    } else {
        let x = *r->Node_1;
        let y = *r->Node_2;
        lemma_weight_least(x);
        lemma_weight_least(y);
        lemma_weight_least(l);
        let a = weight(x);
        let b = weight(y);
        let c = weight(l);
        assert(weight(r) == a + b + 1);
        assert(weight(and_of(l, x)) == c * a);
        assert(weight(and_of(l, y)) == c * b);
        assert(weight(or_of(and_of(l, x), and_of(l, y))) == c * a + c * b + 1);
        assert(c * a + c * b + 1 < c * (a + b + 1)) by (nonlinear_arith)
            requires
                c >= 2,
        ;
    }
}

/// The formula is a disjunction.
pub open spec fn is_or(t: Reading<PLogic>) -> bool {
    t is Node && t->Node_0 is Or
}

/// What distributing makes of two formulas.
pub proof fn lemma_dist_cases(a: Reading<PLogic>, b: Reading<PLogic>)
    ensures
        is_or(a) ==> dist(a, b) == or_of(dist(*a->Node_1, b), dist(*a->Node_2, b)),
        !is_or(a) && is_or(b) ==> dist(a, b) == or_of(dist(a, *b->Node_1), dist(a, *b->Node_2)),
        !is_or(a) && !is_or(b) ==> dist(a, b) == and_of(a, b),
{
    match a {
        Reading::Empty => {
            match b {
                Reading::Empty => {},
                Reading::Node(w, x, y) => {},
            }
        },
        Reading::Node(u, p, q) => {
            match b {
                Reading::Empty => {},
                Reading::Node(w, x, y) => {},
            }
        },
    }
}

/// Distributing two disjunctive normal forms gives one that is no heavier
/// than their conjunction.
pub proof fn lemma_dist(a: Reading<PLogic>, b: Reading<PLogic>)
    requires
        is_dnf(a),
        is_dnf(b),
    ensures
        is_dnf(dist(a, b)),
        weight(dist(a, b)) <= weight(a) * weight(b),
    decreases a, b,
{
    lemma_weight_least(a);
    lemma_weight_least(b);
    lemma_dist_cases(a, b);
    if is_or(a) {
        let x = *a->Node_1;
        let y = *a->Node_2;
        lemma_dist(x, b);
        lemma_dist(y, b);
        let p = weight(x);
        let q = weight(y);
        let c = weight(b);
        let u = weight(dist(x, b));
        let v = weight(dist(y, b));
        assert(weight(a) == p + q + 1);
        assert(weight(dist(a, b)) == u + v + 1);
        assert(u + v + 1 <= (p + q + 1) * c) by (nonlinear_arith)
            requires
                u <= p * c,
                v <= q * c,
                c >= 2,
        ;
    } else if is_or(b) {
        let x = *b->Node_1;
        let y = *b->Node_2;
        lemma_dist(a, x);
        lemma_dist(a, y);
        let p = weight(x);
        let q = weight(y);
        let c = weight(a);
        let u = weight(dist(a, x));
        let v = weight(dist(a, y));
        assert(weight(b) == p + q + 1);
        assert(weight(dist(a, b)) == u + v + 1);
        assert(u + v + 1 <= c * (p + q + 1)) by (nonlinear_arith)
            requires
                u <= c * p,
                v <= c * q,
                c >= 2,
        ;
    } else {
        assert(is_term(a) && is_term(b));
        assert(is_term(and_of(a, b)));
        assert(weight(and_of(a, b)) == weight(a) * weight(b));
    }
}

/// Distributing keeps the variables.
pub proof fn lemma_dist_scope(a: Reading<PLogic>, b: Reading<PLogic>, n: nat)
    requires
        in_scope(a, n),
        in_scope(b, n),
    ensures
        in_scope(dist(a, b), n),
    decreases a, b,
{
    lemma_dist_cases(a, b);
    if is_or(a) {
        lemma_dist_scope(*a->Node_1, b, n);
        lemma_dist_scope(*a->Node_2, b, n);
    } else if is_or(b) {
        lemma_dist_scope(a, *b->Node_1, n);
        lemma_dist_scope(a, *b->Node_2, n);
    }
}

/// What two formulas make when distributed is true exactly where both are.
pub proof fn lemma_dist_truth(a: Reading<PLogic>, b: Reading<PLogic>, s: Seq<bool>)
    ensures
        truth(dist(a, b), s) == (truth(a, s) && truth(b, s)),
    decreases a, b,
{
    lemma_dist_cases(a, b);
    if is_or(a) {
        lemma_dist_truth(*a->Node_1, b, s);
        lemma_dist_truth(*a->Node_2, b, s);
    } else if is_or(b) {
        lemma_dist_truth(a, *b->Node_1, s);
        lemma_dist_truth(a, *b->Node_2, s);
    }
}

/// A disjunctive normal form is in negation normal form.
pub proof fn lemma_term_is_nnf(t: Reading<PLogic>)
    requires
        is_dnf(t),
    ensures
        is_nnf(t),
        is_formula(t),
    decreases t,
{
    match t {
        Reading::Empty => {},
        Reading::Node(v, l, r) => {
            match v {
                PLogic::Or => {
                    lemma_term_is_nnf(*l);
                    lemma_term_is_nnf(*r);
                },
                PLogic::And => {
                    assert(is_term(t));
                    assert(is_dnf(*l) && is_dnf(*r)) by {
                        assert(is_term(*l) && is_term(*r));
                        lemma_term_is_dnf(*l);
                        lemma_term_is_dnf(*r);
                    }
                    lemma_term_is_nnf(*l);
                    lemma_term_is_nnf(*r);
                },
                _ => {
                    lemma_nnf_is_formula(t);
                },
            }
        },
    }
}

/// A term is a disjunctive normal form.
pub proof fn lemma_term_is_dnf(t: Reading<PLogic>)
    requires
        is_term(t),
    ensures
        is_dnf(t),
{
    match t {
        Reading::Empty => {},
        Reading::Node(v, l, r) => {},
    }
}

/// The disjunctive normal form of a formula in negation normal form is in
/// disjunctive normal form and no heavier.
pub proof fn lemma_dnf(t: Reading<PLogic>)
    requires
        is_nnf(t),
    ensures
        is_dnf(dnf(t)),
        weight(dnf(t)) <= weight(t),
    decreases t,
{
    match t {
        Reading::Empty => {},
        Reading::Node(v, l, r) => {
            match v {
                PLogic::And => {
                    lemma_dnf(*l);
                    lemma_dnf(*r);
                    lemma_dist(dnf(*l), dnf(*r));
                    let a = weight(dnf(*l));
                    let b = weight(dnf(*r));
                    let c = weight(*l);
                    let d = weight(*r);
                    assert(weight(t) == c * d);
                    assert(a * b <= c * d) by (nonlinear_arith)
                        requires
                            a <= c,
                            b <= d,
                    ;
                },
                PLogic::Or => {
                    lemma_dnf(*l);
                    lemma_dnf(*r);
                    assert(weight(t) == weight(*l) + weight(*r) + 1);
                    assert(weight(dnf(t)) == weight(dnf(*l)) + weight(dnf(*r)) + 1);
                },
                _ => {
                    assert(is_literal(t));
                },
            }
        },
    }
}

/// The disjunctive normal form keeps the variables.
pub proof fn lemma_dnf_scope(t: Reading<PLogic>, n: nat)
    requires
        in_scope(t, n),
    ensures
        in_scope(dnf(t), n),
    decreases t,
{
    match t {
        Reading::Empty => {},
        Reading::Node(v, l, r) => {
            match v {
                PLogic::And => {
                    lemma_dnf_scope(*l, n);
                    lemma_dnf_scope(*r, n);
                    lemma_dist_scope(dnf(*l), dnf(*r), n);
                },
                PLogic::Or => {
                    lemma_dnf_scope(*l, n);
                    lemma_dnf_scope(*r, n);
                },
                _ => {},
            }
        },
    }
}

/// The disjunctive normal form is true exactly where the formula is.
pub proof fn law_dnf_preserves_truth(t: Reading<PLogic>, s: Seq<bool>)
    ensures
        truth(dnf(t), s) == truth(t, s),
    decreases t,
{
    match t {
        Reading::Empty => {},
        Reading::Node(v, l, r) => {
            match v {
                PLogic::And => {
                    law_dnf_preserves_truth(*l, s);
                    law_dnf_preserves_truth(*r, s);
                    lemma_dist_truth(dnf(*l), dnf(*r), s);
                },
                PLogic::Or => {
                    law_dnf_preserves_truth(*l, s);
                    law_dnf_preserves_truth(*r, s);
                },
                _ => {},
            }
        },
    }
}

/// A disjunctive normal form is its own disjunctive normal form.
pub proof fn lemma_dnf_fixed(t: Reading<PLogic>)
    requires
        is_dnf(t),
    ensures
        dnf(t) == t,
    decreases t,
{
    match t {
        Reading::Empty => {},
        Reading::Node(v, l, r) => {
            match v {
                PLogic::Or => {
                    lemma_dnf_fixed(*l);
                    lemma_dnf_fixed(*r);
                },
                PLogic::And => {
                    assert(is_term(*l) && is_term(*r));
                    lemma_term_is_dnf(*l);
                    lemma_term_is_dnf(*r);
                    lemma_dnf_fixed(*l);
                    lemma_dnf_fixed(*r);
                    lemma_term_not_or(*l);
                    lemma_term_not_or(*r);
                    lemma_dist_cases(*l, *r);
                },
                _ => {},
            }
        },
    }
}

/// A term is no disjunction.
pub proof fn lemma_term_not_or(t: Reading<PLogic>)
    requires
        is_term(t),
    ensures
        !is_or(t),
{
    match t {
        Reading::Empty => {},
        Reading::Node(v, l, r) => {},
    }
}

/// One use of the distributive law leaves the disjunctive normal form of a
/// conjunction of two disjunctive normal forms as it is.
pub proof fn lemma_step_keeps_dnf(t: Reading<PLogic>)
    requires
        step(t) is Some,
        is_dnf(*t->Node_1),
        is_dnf(*t->Node_2),
    ensures
        is_nnf(step(t)->0),
        dnf(step(t)->0) == dist(*t->Node_1, *t->Node_2),
{
    lemma_step(t);
    let l = *t->Node_1;
    let r = *t->Node_2;
    lemma_term_is_nnf(l);
    lemma_term_is_nnf(r);
    lemma_dnf_fixed(l);
    lemma_dnf_fixed(r);
    lemma_dist_cases(l, r);
    if left_splits(t) {
        let x = *l->Node_1;
        let y = *l->Node_2;
        assert(is_dnf(x) && is_dnf(y));
        lemma_term_is_nnf(x);
        lemma_term_is_nnf(y);
        lemma_dnf_fixed(x);
        lemma_dnf_fixed(y);
        assert(dnf(and_of(x, r)) == dist(dnf(x), dnf(r)));
        assert(dnf(and_of(y, r)) == dist(dnf(y), dnf(r)));
        assert(is_nnf(and_of(x, r)) && is_nnf(and_of(y, r)));
    } else {
        let x = *r->Node_1;
        let y = *r->Node_2;
        assert(is_dnf(x) && is_dnf(y));
        lemma_term_is_nnf(x);
        lemma_term_is_nnf(y);
        lemma_dnf_fixed(x);
        lemma_dnf_fixed(y);
        assert(dnf(and_of(l, x)) == dist(dnf(l), dnf(x)));
        assert(dnf(and_of(l, y)) == dist(dnf(l), dnf(y)));
        assert(is_nnf(and_of(l, x)) && is_nnf(and_of(l, y)));
    }
}

/// The literal that fixes the variable `j` to `sign`.
pub open spec fn literal_of(j: nat, sign: bool) -> Reading<PLogic> {
    if sign {
        var_of(Addr { addr: j as usize })
    } else {
        not_of(var_of(Addr { addr: j as usize }))
    }
}

/// The term of what a clause fixes among its first `k` variables: the
/// conjunction of the literals in the order of the variables, associated to
/// the left; nothing if it fixes none of them.
pub open spec fn term_of(row: Seq<Option<bool>>, k: nat) -> Reading<PLogic>
    decreases k,
{
    if k == 0 {
        Reading::Empty
    } else {
        let front = term_of(row, (k - 1) as nat);
        match row[k - 1] {
            Some(b) => if front is Empty {
                literal_of((k - 1) as nat, b)
            } else {
                and_of(front, literal_of((k - 1) as nat, b))
            },
            None => front,
        }
    }
}

/// The disjunction of the terms of the first `i` clauses in their order,
/// associated to the left; a clause that fixes nothing is left out, and
/// there is nothing if no clause is left.
pub open spec fn shape_of(found: Seq<Seq<Option<bool>>>, i: nat) -> Reading<PLogic>
    decreases i,
{
    if i == 0 {
        Reading::Empty
    } else {
        let front = shape_of(found, (i - 1) as nat);
        let term = term_of(found[i - 1], found[i - 1].len());
        if term is Empty {
            front
        } else if front is Empty {
            term
        } else {
            or_of(front, term)
        }
    }
}

/// The clause fixes one of its first `k` variables.
pub open spec fn fixes_some(row: Seq<Option<bool>>, k: nat) -> bool {
    exists|j: int| 0 <= j < k && j < row.len() && (#[trigger] row[j]) is Some
}

/// The term of a clause is a formula exactly if the clause fixes a
/// variable, and it is true exactly under the assignments that give the
/// fixed variables their values.
pub proof fn lemma_term_of(row: Seq<Option<bool>>, k: nat, s: Seq<bool>)
    requires
        k <= row.len(),
        row.len() == s.len(),
        row.len() <= usize::MAX,
    ensures
        !(term_of(row, k) is Empty) <==> fixes_some(row, k),
        fixes_some(row, k) ==> is_formula(term_of(row, k)) && in_scope(term_of(row, k), row.len()),
        fixes_some(row, k) ==> (truth(term_of(row, k), s) <==> forall|j: int|
            0 <= j < k && (#[trigger] row[j]) is Some ==> s[j] == row[j]->0),
    decreases k,
{
    if k > 0 {
        let j0 = (k - 1) as nat;
        lemma_term_of(row, j0, s);
        let front = term_of(row, j0);
        match row[k - 1] {
            Some(b) => {
                let lit = literal_of(j0, b);
                assert(is_formula(lit) && in_scope(lit, row.len())) by {
                    reveal_with_fuel(is_formula, 3);
                    reveal_with_fuel(in_scope, 3);
                }
                assert(truth(lit, s) == (s[k - 1] == b)) by {
                    reveal_with_fuel(truth, 3);
                }
                assert(fixes_some(row, k)) by {
                    assert(row[k - 1] is Some);
                }
                if front is Empty {
                    assert(!fixes_some(row, j0));
                    assert forall|j: int| 0 <= j < j0 implies !((#[trigger] row[j]) is Some) by {}
                } else {
                    assert(fixes_some(row, j0));
                }
            },
            None => {
                if fixes_some(row, k) {
                    let j = choose|j: int| 0 <= j < k && j < row.len() && (#[trigger] row[j]) is Some;
                    assert(j < j0);
                    assert(fixes_some(row, j0));
                }
                if fixes_some(row, j0) {
                    let j = choose|j: int| 0 <= j < j0 && j < row.len() && (#[trigger] row[j]) is Some;
                    assert(fixes_some(row, k));
                }
            },
        }
    } else {
        assert(!fixes_some(row, 0));
    }
}

/// The disjunction of the terms is a formula if it is anything, and it is
/// true exactly under the assignments that some clause allows, where every
/// clause fixes a variable.
pub proof fn lemma_shape_of(found: Seq<Seq<Option<bool>>>, i: nat, n: nat, s: Seq<bool>)
    requires
        i <= found.len(),
        s.len() == n,
        n <= usize::MAX,
        forall|k: int| 0 <= k < found.len() ==> (#[trigger] found[k]).len() == n,
    ensures
        !(shape_of(found, i) is Empty) ==> is_formula(shape_of(found, i)) && in_scope(
            shape_of(found, i),
            n,
        ),
        (forall|k: int| 0 <= k < i ==> fixes_some(#[trigger] found[k], n)) ==> (truth(
            shape_of(found, i),
            s,
        ) <==> allowed(found.take(i as int), s)),
        (forall|k: int| 0 <= k < i ==> fixes_some(#[trigger] found[k], n)) && i > 0 ==> !(shape_of(
            found,
            i,
        ) is Empty),
    decreases i,
{
    if i > 0 {
        let last = (i - 1) as nat;
        lemma_shape_of(found, last, n, s);
        let row = found[i - 1];
        lemma_term_of(row, n, s);
        let before = found.take(last as int);
        let now = found.take(i as int);
        assert(now =~= before.push(row));
        if forall|k: int| 0 <= k < i ==> fixes_some(#[trigger] found[k], n) {
            assert(fixes_some(found[i - 1], n));
            assert(agrees(row, s) <==> truth(term_of(row, n), s)) by {
                if agrees(row, s) {
                    assert forall|j: int| 0 <= j < n && (#[trigger] row[j]) is Some implies s[j]
                        == row[j]->0 by {}
                }
            }
            if allowed(before, s) {
                let k = choose|k: int| 0 <= k < before.len() && agrees(#[trigger] before[k], s);
                assert(now[k] == before[k]);
            }
            if agrees(row, s) {
                assert(now[i - 1] == row);
            }
            if allowed(now, s) {
                let k = choose|k: int| 0 <= k < now.len() && agrees(#[trigger] now[k], s);
                if k < i - 1 {
                    assert(before[k] == now[k]);
                }
            }
        }
    } else {
        assert(!allowed(found.take(0), s));
    }
}

/// Builds on `dst` the literal that fixes the variable `j` to `sign`.
fn plant_literal(dst: &mut PropositionalTree, j: usize, sign: bool) -> (a: Addr)
    ensures
        a == top_of(old(dst).nodes().len(), literal_of(j as nat, sign)),
        final(dst).nodes() == planted(old(dst).nodes(), literal_of(j as nat, sign)),
        final(dst).nodes().len() == old(dst).nodes().len() + size(literal_of(j as nat, sign)),
        !(literal_of(j as nat, sign) is Empty),
        final(dst).symbols() == old(dst).symbols(),
        final(dst).root() == old(dst).root(),
{
    let ghost start = dst.nodes();
    let id = Addr::new(j);
    let leaf = dst.plant_leaf(PLogic::Variable { id });
    if sign {
        leaf
    } else {
        dst.plant_over(PLogic::Not, leaf, Ghost(start), Ghost(var_of(id)))
    }
}

/// Builds on `dst` the term of the clause `clause`.
fn plant_term(dst: &mut PropositionalTree, clause: &Vec<Option<bool>>) -> (a: Addr)
    ensures
        a == top_of(old(dst).nodes().len(), term_of(clause@, clause@.len())),
        final(dst).nodes() == planted(old(dst).nodes(), term_of(clause@, clause@.len())),
        final(dst).nodes().len() == old(dst).nodes().len() + size(
            term_of(clause@, clause@.len()),
        ),
        final(dst).symbols() == old(dst).symbols(),
        final(dst).root() == old(dst).root(),
{
    let ghost start = dst.nodes();
    let mut current: Addr = Addr::none();
    let mut j: usize = 0;
    while j < clause.len()
        invariant
            j <= clause@.len(),
            current == top_of(start.len(), term_of(clause@, j as nat)),
            dst.nodes() == planted(start, term_of(clause@, j as nat)),
            dst.nodes().len() == start.len() + size(term_of(clause@, j as nat)),
            dst.symbols() == old(dst).symbols(),
            dst.root() == old(dst).root(),
        decreases clause@.len() - j,
    {
        let ghost front = term_of(clause@, j as nat);
        match clause[j] {
            Some(b) => {
                let lit = plant_literal(dst, j, b);
                if current.is_none() {
                    proof {
                        dst.lemma_bounded();
                        assert(front is Empty);
                    }
                    current = lit;
                } else {
                    proof {
                        assert(!(front is Empty));
                    }
                    current = dst.plant_join(
                        PLogic::And,
                        current,
                        lit,
                        Ghost(start),
                        Ghost(front),
                        Ghost(literal_of(j as nat, b)),
                    );
                }
            },
            None => {},
        }
        j += 1;
    }
    current
}

/// The disjunctive normal form of the formula in negation normal form that
/// `tree` holds, as a tree of its own with the same symbol table: the
/// distributive law is used on a copy until no conjunction is over a
/// disjunction, the clauses of the terms are gathered, and the disjunction
/// of the terms of the clauses is built.  The result has no output where
/// every term contradicts itself.
pub fn nnf_to_dnf(tree: &PropositionalTree) -> (out: PropositionalTree)
    requires
        tree.wf(),
        tree.is_formula(),
        is_nnf(tree.formula()),
        in_scope(tree.formula(), tree.table().len()),
    ensures
        out.wf(),
        out.table() == tree.table(),
        ({
            let found = gathered(dnf(tree.formula()), tree.table().len(), Seq::empty());
            let shape = shape_of(found, found.len());
            &&& out.nodes() == planted(Seq::empty(), shape)
            &&& out.root() == top_of(0, shape)
            &&& well_linked(out.nodes())
            &&& found.len() > 0 ==> out.is_formula() && out.formula() == shape && forall|
                s: Seq<bool>,
            |
                s.len() == tree.table().len() ==> #[trigger] truth(out.formula(), s) == truth(
                    tree.formula(),
                    s,
                )
        }),
{
    let ghost f = tree.formula();
    let n: usize = tree.num_named();
    let mut work = tree.duplicate();
    proof {
        let t = choose|t: Reading<PLogic>| reads(tree.nodes(), tree.root(), t) && is_formula(t);
        lemma_reads_unique(tree.nodes(), tree.root(), t, f);
        lemma_dnf(f);
        lemma_dnf_scope(f, n as nat);
        work.lemma_bounded();
    }
    let root = work.output_addr();
    if !work.links_hold() {
        // a tree whose links are not those of a forest cannot be rewritten
        // in place: it is built again from its leaves first
        let mut fresh: PropositionalTree = Tree::new();
        proof {
            tree.symbols().lemma_entries_apart();
            lemma_merged_onto_empty(tree.table());
        }
        fresh.copy_named(tree);
        let top = fresh.copy_from(tree, tree.output_addr(), Ghost(f));
        fresh.set_output(top);
        let len: usize = fresh.len();
        proof {
            let empty = Seq::<NodeValue<Node<2>, PLogic>>::empty();
            lemma_planted_above(empty, f);
            lemma_planted_reads(empty, f);
            lemma_planted_links(empty, f);
        }
        work = fresh;
    }
    let root = work.output_addr();
    distribute_nodes(&mut work, root, Ghost(f));
    let mut clauses: Vec<Vec<Option<bool>>> = Vec::new();
    assert(rows(clauses@) =~= Seq::<Seq<Option<bool>>>::empty());
    collect_clauses(&work, root, &mut clauses, n, Ghost(dnf(f)));
    let ghost found = rows(clauses@);
    proof {
        lemma_gathered_len(dnf(f), n as nat, Seq::empty());
        lemma_gathered_fixes(dnf(f), n as nat, Seq::empty());
    }
    let mut out: PropositionalTree = Tree::new();
    proof {
        tree.symbols().lemma_entries_apart();
        lemma_merged_onto_empty(tree.table());
    }
    out.copy_named(tree);
    let ghost empty = Seq::<NodeValue<Node<2>, PLogic>>::empty();
    let mut current: Addr = Addr::none();
    let mut i: usize = 0;
    while i < clauses.len()
        invariant
            i <= clauses@.len(),
            found == rows(clauses@),
            forall|k: int| 0 <= k < found.len() ==> (#[trigger] found[k]).len() == n,
            forall|k: int| 0 <= k < found.len() ==> fixes_some(#[trigger] found[k], n as nat),
            out.wf(),
            out.table() == tree.table(),
            out.root() == Addr::nil(),
            empty == Seq::<NodeValue<Node<2>, PLogic>>::empty(),
            current == top_of(0, shape_of(found, i as nat)),
            out.nodes() == planted(empty, shape_of(found, i as nat)),
            out.nodes().len() == size(shape_of(found, i as nat)),
        decreases clauses@.len() - i,
    {
        let ghost front = shape_of(found, i as nat);
        let ghost row = found[i as int];
        proof {
            assert(clauses@[i as int]@ == row);
            assert(row.len() == n);
            lemma_term_of(row, n as nat, Seq::new(n as nat, |j: int| false));
            assert(fixes_some(row, n as nat));
        }
        let term = plant_term(&mut out, &clauses[i]);
        if current.is_none() {
            proof {
                out.lemma_bounded();
                if !(front is Empty) {
                    assert(current.addr == size(front) - 1);
                }
            }
            current = term;
        } else {
            proof {
                assert(empty.len() == 0);
                assert(!(front is Empty));
                assert(!(term_of(row, n as nat) is Empty));
                assert(planted(empty, front).len() == size(front));
            }
            current = out.plant_join(
                PLogic::Or,
                current,
                term,
                Ghost(empty),
                Ghost(front),
                Ghost(term_of(row, n as nat)),
            );
        }
        i += 1;
    }
    out.set_output(current);
    let len: usize = out.len();
    proof {
        let shape = shape_of(found, found.len());
        lemma_planted_links(empty, shape);
        if found.len() > 0 {
            let zero = Seq::new(n as nat, |j: int| false);
            lemma_shape_of(found, found.len(), n as nat, zero);
            lemma_planted_above(empty, shape);
            lemma_planted_reads(empty, shape);
            lemma_reads_unique(out.nodes(), out.root(), shape, out.formula());
            assert forall|s: Seq<bool>| s.len() == tree.table().len() implies #[trigger] truth(
                out.formula(),
                s,
            ) == truth(tree.formula(), s) by {
                lemma_shape_of(found, found.len(), n as nat, s);
                assert(found.take(found.len() as int) =~= found);
                lemma_gathered(dnf(f), n as nat, Seq::empty(), s);
                assert(!allowed(Seq::<Seq<Option<bool>>>::empty(), s));
                law_dnf_preserves_truth(f, s);
            }
        }
    }
    out
}

} // verus!
