//! Negation normal form of expressions.

use vstd::prelude::*;
use super::expr::{Expression, Syntax};

verus! {

/// The negation normal form of `s`, or of its negation if `reverse` is set:
/// a negation flips `reverse`; a variable or predicate under `reverse` is
/// negated; under `reverse` a conjunction becomes a disjunction, a
/// universal quantifier an existential one, and the other way round.
pub open spec fn normal(s: Syntax, reverse: bool) -> Syntax
    decreases s,
{
    match s {
        Syntax::Variable { name } => if reverse {
            Syntax::Not { expr: Box::new(s) }
        } else {
            s
        },
        Syntax::Predicate { name, vars } => if reverse {
            Syntax::Not { expr: Box::new(s) }
        } else {
            s
        },
        Syntax::Not { expr } => normal(*expr, !reverse),
        Syntax::And { left, right } => if reverse {
            Syntax::Or {
                left: Box::new(normal(*left, reverse)),
                right: Box::new(normal(*right, reverse)),
            }
        } else {
            Syntax::And {
                left: Box::new(normal(*left, reverse)),
                right: Box::new(normal(*right, reverse)),
            }
        },
        Syntax::Or { left, right } => if reverse {
            Syntax::And {
                left: Box::new(normal(*left, reverse)),
                right: Box::new(normal(*right, reverse)),
            }
        } else {
            Syntax::Or {
                left: Box::new(normal(*left, reverse)),
                right: Box::new(normal(*right, reverse)),
            }
        },
        Syntax::All { var, expr } => if reverse {
            Syntax::Any { var, expr: Box::new(normal(*expr, reverse)) }
        } else {
            Syntax::All { var, expr: Box::new(normal(*expr, reverse)) }
        },
        Syntax::Any { var, expr } => if reverse {
            Syntax::All { var, expr: Box::new(normal(*expr, reverse)) }
        } else {
            Syntax::Any { var, expr: Box::new(normal(*expr, reverse)) }
        },
    }
}

/// Only variables and predicates are negated.
pub open spec fn is_normal(s: Syntax) -> bool
    decreases s,
{
    match s {
        Syntax::Variable { name } => true,
        Syntax::Predicate { name, vars } => true,
        Syntax::Not { expr } => *expr is Variable || *expr is Predicate,
        Syntax::And { left, right } => is_normal(*left) && is_normal(*right),
        Syntax::Or { left, right } => is_normal(*left) && is_normal(*right),
        Syntax::All { var, expr } => is_normal(*expr),
        Syntax::Any { var, expr } => is_normal(*expr),
    }
}

/// The normal form is in normal form.
pub proof fn lemma_normal_is_normal(s: Syntax, reverse: bool)
    ensures
        is_normal(normal(s, reverse)),
    decreases s,
{
    match s {
        Syntax::Variable { name } => {},
        Syntax::Predicate { name, vars } => {},
        Syntax::Not { expr } => {
            lemma_normal_is_normal(*expr, !reverse);
        },
        Syntax::And { left, right } => {
            lemma_normal_is_normal(*left, reverse);
            lemma_normal_is_normal(*right, reverse);
        },
        Syntax::Or { left, right } => {
            lemma_normal_is_normal(*left, reverse);
            lemma_normal_is_normal(*right, reverse);
        },
        Syntax::All { var, expr } => {
            lemma_normal_is_normal(*expr, reverse);
        },
        Syntax::Any { var, expr } => {
            lemma_normal_is_normal(*expr, reverse);
        },
    }
}

/// What is in normal form is its own normal form.
pub proof fn lemma_normal_fixed(s: Syntax)
    requires
        is_normal(s),
    ensures
        normal(s, false) == s,
    decreases s,
{
    match s {
        Syntax::Variable { name } => {},
        Syntax::Predicate { name, vars } => {},
        Syntax::Not { expr } => {
            assert(normal(*expr, true) == (Syntax::Not { expr: Box::new(*expr) }));
        },
        Syntax::And { left, right } => {
            lemma_normal_fixed(*left);
            lemma_normal_fixed(*right);
        },
        Syntax::Or { left, right } => {
            lemma_normal_fixed(*left);
            lemma_normal_fixed(*right);
        },
        Syntax::All { var, expr } => {
            lemma_normal_fixed(*expr);
        },
        Syntax::Any { var, expr } => {
            lemma_normal_fixed(*expr);
        },
    }
}

/// Normal form is idempotent.
pub proof fn law_normal_idempotent(s: Syntax, reverse: bool)
    ensures
        normal(normal(s, reverse), false) == normal(s, reverse),
{
    lemma_normal_is_normal(s, reverse);
    lemma_normal_fixed(normal(s, reverse));
}

/// The normal form of `node`, or of its negation if `reverse` is set.
fn to_nnf_recursive(node: &Expression, reverse: bool) -> (r: Expression)
    ensures
        r@ == normal(node@, reverse),
    decreases node,
{
    match node {
        Expression::Variable { name } => {
            if reverse {
                Expression::Not { expr: Box::new(node.duplicate()) }
            } else {
                node.duplicate()
            }
        },
        Expression::Predicate { name, vars } => {
            if reverse {
                Expression::Not { expr: Box::new(node.duplicate()) }
            } else {
                node.duplicate()
            }
        },
        Expression::Not { expr } => to_nnf_recursive(expr, !reverse),
        Expression::And { left, right } => {
            let l = to_nnf_recursive(left, reverse);
            let r = to_nnf_recursive(right, reverse);
            if reverse {
                Expression::Or { left: Box::new(l), right: Box::new(r) }
            } else {
                Expression::And { left: Box::new(l), right: Box::new(r) }
            }
        },
        Expression::Or { left, right } => {
            let l = to_nnf_recursive(left, reverse);
            let r = to_nnf_recursive(right, reverse);
            if reverse {
                Expression::And { left: Box::new(l), right: Box::new(r) }
            } else {
                Expression::Or { left: Box::new(l), right: Box::new(r) }
            }
        },
        Expression::All { var, expr } => {
            let body = to_nnf_recursive(expr, reverse);
            if reverse {
                Expression::Any { var: var.clone(), expr: Box::new(body) }
            } else {
                Expression::All { var: var.clone(), expr: Box::new(body) }
            }
        },
        Expression::Any { var, expr } => {
            let body = to_nnf_recursive(expr, reverse);
            if reverse {
                Expression::All { var: var.clone(), expr: Box::new(body) }
            } else {
                Expression::Any { var: var.clone(), expr: Box::new(body) }
            }
        },
    }
}

/// The negation normal form of `node`: negations pushed down to the
/// variables and predicates, quantifiers flipped on the way.
pub fn to_nnf(node: &Expression) -> (r: Expression)
    ensures
        r@ == normal(node@, false),
        is_normal(r@),
{
    proof {
        lemma_normal_is_normal(node@, false);
    }
    to_nnf_recursive(node, false)
}

} // verus!
