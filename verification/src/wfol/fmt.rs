//! Expressions as text.

use vstd::prelude::*;
use vstd::string::*;
use super::expr::{texts, Expression, Syntax};

verus! {

/// The names, with `, ` between them.
pub open spec fn listed(names: Seq<Seq<char>>) -> Seq<char>
    decreases names.len(),
{
    if names.len() == 0 {
        Seq::empty()
    } else if names.len() == 1 {
        names[0]
    } else {
        listed(names.drop_last()) + ", "@ + names.last()
    }
}

/// The text of an expression: a variable by its name; a predicate by its
/// name with its arguments in brackets; a negation with `¬` in front; a
/// conjunction and a disjunction in brackets around `∧` and `∨`; a
/// quantifier as `∀` or `∃`, the variable, a colon, and the body in
/// brackets.
pub open spec fn shown(s: Syntax) -> Seq<char>
    decreases s,
{
    match s {
        Syntax::Variable { name } => name,
        Syntax::Predicate { name, vars } => name + "("@ + listed(vars) + ")"@,
        Syntax::Not { expr } => "\u{00AC}"@ + shown(*expr),
        Syntax::And { left, right } => "("@ + shown(*left) + "\u{2227}"@ + shown(*right) + ")"@,
        Syntax::Or { left, right } => "("@ + shown(*left) + "\u{2228}"@ + shown(*right) + ")"@,
        Syntax::All { var, expr } => "\u{2200}"@ + var + ":("@ + shown(*expr) + ")"@,
        Syntax::Any { var, expr } => "\u{2203}"@ + var + ":("@ + shown(*expr) + ")"@,
    }
}

/// Appends the names, with `, ` between them.
fn fmt_names(names: &Vec<String>, out: &mut String)
    ensures
        final(out)@ == old(out)@ + listed(texts(names@)),
{
    let ghost all = texts(names@);
    let mut i: usize = 0;
    assert(all.take(0) =~= Seq::<Seq<char>>::empty());
    assert(out@ =~= old(out)@ + listed(all.take(0)));
    while i < names.len()
        invariant
            i <= names@.len(),
            all == texts(names@),
            out@ == old(out)@ + listed(all.take(i as int)),
        decreases names@.len() - i,
    {
        proof {
            let next = all.take(i + 1);
            assert(next.drop_last() =~= all.take(i as int));
            assert(next.last() == names@[i as int]@);
            if i == 0 {
                assert(next[0] == names@[0]@);
                assert(listed(all.take(0)) =~= Seq::<char>::empty());
            }
        }
        if i > 0 {
            out.append(", ");
        }
        out.append(names[i].as_str());
        proof {
            assert(out@ =~= old(out)@ + listed(all.take(i + 1)));
        }
        i += 1;
    }
    assert(all.take(names@.len() as int) =~= all);
}

/// Appends the text of `expr`.
fn fmt_recursive(expr: &Expression, out: &mut String)
    ensures
        final(out)@ == old(out)@ + shown(expr@),
    decreases expr,
{
    match expr {
        Expression::Variable { name } => {
            out.append(name.as_str());
        },
        Expression::Predicate { name, vars } => {
            out.append(name.as_str());
            out.append("(");
            fmt_names(vars, out);
            out.append(")");
            assert(out@ =~= old(out)@ + shown(expr@));
        },
        Expression::Not { expr: inner } => {
            out.append("\u{00AC}");
            fmt_recursive(inner, out);
            assert(out@ =~= old(out)@ + shown(expr@));
        },
        Expression::And { left, right } => {
            out.append("(");
            fmt_recursive(left, out);
            out.append("\u{2227}");
            fmt_recursive(right, out);
            out.append(")");
            assert(out@ =~= old(out)@ + shown(expr@));
        },
        Expression::Or { left, right } => {
            out.append("(");
            fmt_recursive(left, out);
            out.append("\u{2228}");
            fmt_recursive(right, out);
            out.append(")");
            assert(out@ =~= old(out)@ + shown(expr@));
        },
        Expression::All { var, expr: inner } => {
            out.append("\u{2200}");
            out.append(var.as_str());
            out.append(":(");
            fmt_recursive(inner, out);
            out.append(")");
            assert(out@ =~= old(out)@ + shown(expr@));
        },
        Expression::Any { var, expr: inner } => {
            out.append("\u{2203}");
            out.append(var.as_str());
            out.append(":(");
            fmt_recursive(inner, out);
            out.append(")");
            assert(out@ =~= old(out)@ + shown(expr@));
        },
    }
}

impl Expression {
    /// The text of the expression.
    pub fn to_string(&self) -> (s: String)
        ensures
            s@ == shown(self@),
    {
        let mut s = String::new();
        fmt_recursive(self, &mut s);
        assert(s@ =~= shown(self@));
        s
    }
}

} // verus!
