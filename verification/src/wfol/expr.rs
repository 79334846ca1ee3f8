//! Expressions and their constructors.

use vstd::prelude::*;
use vstd::string::*;

verus! {

/// A first-order formula with names in it.
#[derive(Debug)]
pub enum Expression {
    Variable { name: String },
    Predicate { name: String, vars: Vec<String> },
    Not { expr: Box<Expression> },
    And { left: Box<Expression>, right: Box<Expression> },
    Or { left: Box<Expression>, right: Box<Expression> },
    All { var: String, expr: Box<Expression> },
    Any { var: String, expr: Box<Expression> },
}

/// What an expression is: the same tree, with texts for names.
pub enum Syntax {
    Variable { name: Seq<char> },
    Predicate { name: Seq<char>, vars: Seq<Seq<char>> },
    Not { expr: Box<Syntax> },
    And { left: Box<Syntax>, right: Box<Syntax> },
    Or { left: Box<Syntax>, right: Box<Syntax> },
    All { var: Seq<char>, expr: Box<Syntax> },
    Any { var: Seq<char>, expr: Box<Syntax> },
}

/// The texts of names.
pub open spec fn texts(names: Seq<String>) -> Seq<Seq<char>> {
    Seq::new(names.len(), |i: int| names[i]@)
}

/// What the expression `e` is.
pub open spec fn syntax_of(e: Expression) -> Syntax
    decreases e,
{
    match e {
        Expression::Variable { name } => Syntax::Variable { name: name@ },
        Expression::Predicate { name, vars } => Syntax::Predicate { name: name@, vars: texts(vars@) },
        Expression::Not { expr } => Syntax::Not { expr: Box::new(syntax_of(*expr)) },
        Expression::And { left, right } => Syntax::And {
            left: Box::new(syntax_of(*left)),
            right: Box::new(syntax_of(*right)),
        },
        Expression::Or { left, right } => Syntax::Or {
            left: Box::new(syntax_of(*left)),
            right: Box::new(syntax_of(*right)),
        },
        Expression::All { var, expr } => Syntax::All {
            var: var@,
            expr: Box::new(syntax_of(*expr)),
        },
        Expression::Any { var, expr } => Syntax::Any {
            var: var@,
            expr: Box::new(syntax_of(*expr)),
        },
    }
}

impl View for Expression {
    type V = Syntax;

    open spec fn view(&self) -> Syntax {
        syntax_of(*self)
    }
}

/// Whether two names are the same text.
fn same_text(a: &String, b: &String) -> (r: bool)
    ensures
        r == (a@ == b@),
{
    a.eq(b)
}

/// Whether two lists of names hold the same names in the same order.
fn same_names(a: &Vec<String>, b: &Vec<String>) -> (r: bool)
    ensures
        r == (texts(a@) == texts(b@)),
{
    if a.len() != b.len() {
        assert(texts(a@).len() != texts(b@).len());
        return false;
    }
    let mut i: usize = 0;
    while i < a.len()
        invariant
            i <= a@.len(),
            a@.len() == b@.len(),
            forall|j: int| 0 <= j < i ==> a@[j]@ == b@[j]@,
        decreases a@.len() - i,
    {
        if !same_text(&a[i], &b[i]) {
            assert(texts(a@)[i as int] != texts(b@)[i as int]);
            return false;
        }
        i += 1;
    }
    assert(texts(a@) =~= texts(b@));
    true
}

/// A copy of a list of names.
fn copy_names(a: &Vec<String>) -> (r: Vec<String>)
    ensures
        texts(r@) == texts(a@),
{
    let mut r: Vec<String> = Vec::new();
    let mut i: usize = 0;
    while i < a.len()
        invariant
            i <= a@.len(),
            r@.len() == i,
            forall|j: int| 0 <= j < i ==> r@[j]@ == a@[j]@,
        decreases a@.len() - i,
    {
        r.push(a[i].clone());
        i += 1;
    }
    assert(texts(r@) =~= texts(a@));
    r
}

impl Expression {
    /// Whether the two expressions are the same tree with the same names.
    pub fn same_as(&self, other: &Expression) -> (r: bool)
        ensures
            r == (self@ == other@),
        decreases self,
    {
        match (self, other) {
            (
                Expression::Variable { name: self_name },
                Expression::Variable { name: other_name },
            ) => same_text(self_name, other_name),
            (
                Expression::Predicate { name: self_name, vars: self_vars },
                Expression::Predicate { name: other_name, vars: other_vars },
            ) => same_text(self_name, other_name) && same_names(self_vars, other_vars),
            (Expression::Not { expr: self_expr }, Expression::Not { expr: other_expr }) => {
                self_expr.same_as(other_expr)
            },
            (
                Expression::And { left: self_left, right: self_right },
                Expression::And { left: other_left, right: other_right },
            ) => self_left.same_as(other_left) && self_right.same_as(other_right),
            (
                Expression::Or { left: self_left, right: self_right },
                Expression::Or { left: other_left, right: other_right },
            ) => self_left.same_as(other_left) && self_right.same_as(other_right),
            (
                Expression::All { var: self_var, expr: self_expr },
                Expression::All { var: other_var, expr: other_expr },
            ) => same_text(self_var, other_var) && self_expr.same_as(other_expr),
            (
                Expression::Any { var: self_var, expr: self_expr },
                Expression::Any { var: other_var, expr: other_expr },
            ) => same_text(self_var, other_var) && self_expr.same_as(other_expr),
            _ => false,
        }
    }

    /// A copy of the expression.
    pub fn duplicate(&self) -> (r: Expression)
        ensures
            r@ == self@,
        decreases self,
    {
        match self {
            Expression::Variable { name } => Expression::Variable { name: name.clone() },
            Expression::Predicate { name, vars } => Expression::Predicate {
                name: name.clone(),
                vars: copy_names(vars),
            },
            Expression::Not { expr } => Expression::Not { expr: Box::new(expr.duplicate()) },
            Expression::And { left, right } => Expression::And {
                left: Box::new(left.duplicate()),
                right: Box::new(right.duplicate()),
            },
            Expression::Or { left, right } => Expression::Or {
                left: Box::new(left.duplicate()),
                right: Box::new(right.duplicate()),
            },
            Expression::All { var, expr } => Expression::All {
                var: var.clone(),
                expr: Box::new(expr.duplicate()),
            },
            Expression::Any { var, expr } => Expression::Any {
                var: var.clone(),
                expr: Box::new(expr.duplicate()),
            },
        }
    }
}

impl Clone for Expression {
    /// A copy of the expression.
    fn clone(&self) -> (r: Expression)
        ensures
            r@ == self@,
    {
        self.duplicate()
    }
}

impl PartialEq for Expression {
    /// Two expressions are equal if they are the same tree with the same
    /// names.
    fn eq(&self, other: &Expression) -> (r: bool) {
        self.same_as(other)
    }
}

impl vstd::std_specs::cmp::PartialEqSpecImpl for Expression {
    open spec fn obeys_eq_spec() -> bool {
        true
    }

    open spec fn eq_spec(&self, other: &Expression) -> bool {
        self@ == other@
    }
}

impl Eq for Expression {

}

/// The propositional variable called `name`.
pub fn var(name: &str) -> (e: Expression)
    ensures
        e@ == (Syntax::Variable { name: name@ }),
{
    Expression::Variable { name: String::from_str(name) }
}

/// The predicate called `name` applied to the variables called `vars`.
pub fn predicate(name: &str, vars: &[&str]) -> (e: Expression)
    ensures
        e@ == (Syntax::Predicate { name: name@, vars: Seq::new(vars@.len(), |i: int| vars@[i]@) }),
{
    let mut names: Vec<String> = Vec::new();
    let mut i: usize = 0;
    while i < vars.len()
        invariant
            i <= vars@.len(),
            names@.len() == i,
            forall|j: int| 0 <= j < i ==> names@[j]@ == vars@[j]@,
        decreases vars@.len() - i,
    {
        names.push(String::from_str(vars[i]));
        i += 1;
    }
    assert(texts(names@) =~= Seq::new(vars@.len(), |i: int| vars@[i]@));
    Expression::Predicate { name: String::from_str(name), vars: names }
}

/// The negation of `expr`.
pub fn not(expr: Expression) -> (e: Expression)
    ensures
        e@ == (Syntax::Not { expr: Box::new(expr@) }),
{
    Expression::Not { expr: Box::new(expr) }
}

/// The conjunction of `left` and `right`.
pub fn and(left: Expression, right: Expression) -> (e: Expression)
    ensures
        e@ == (Syntax::And { left: Box::new(left@), right: Box::new(right@) }),
{
    Expression::And { left: Box::new(left), right: Box::new(right) }
}

/// The disjunction of `left` and `right`.
pub fn or(left: Expression, right: Expression) -> (e: Expression)
    ensures
        e@ == (Syntax::Or { left: Box::new(left@), right: Box::new(right@) }),
{
    Expression::Or { left: Box::new(left), right: Box::new(right) }
}

/// The universal quantification of `expr` over the variable called `name`.
pub fn all(name: &str, expr: Expression) -> (e: Expression)
    ensures
        e@ == (Syntax::All { var: name@, expr: Box::new(expr@) }),
{
    Expression::All { var: String::from_str(name), expr: Box::new(expr) }
}

/// `left` implies `right`: the disjunction of the negation of `left` and
/// `right`.
pub fn imply(left: Expression, right: Expression) -> (e: Expression)
    ensures
        e@ == (Syntax::Or {
            left: Box::new(Syntax::Not { expr: Box::new(left@) }),
            right: Box::new(right@),
        }),
{
    or(not(left), right)
}

/// `left` and `right` are equivalent: each implies the other.
pub fn equivalent(left: Expression, right: Expression) -> (e: Expression)
    ensures
        e@ == (Syntax::And {
            left: Box::new(
                Syntax::Or {
                    left: Box::new(Syntax::Not { expr: Box::new(left@) }),
                    right: Box::new(right@),
                },
            ),
            right: Box::new(
                Syntax::Or {
                    left: Box::new(left@),
                    right: Box::new(Syntax::Not { expr: Box::new(right@) }),
                },
            ),
        }),
{
    let left_copy = left.duplicate();
    let right_copy = right.duplicate();
    and(or(not(left_copy), right_copy), or(left, not(right)))
}

/// The existential quantification of `expr` over the variable called
/// `name`.
pub fn any(name: &str, expr: Expression) -> (e: Expression)
    ensures
        e@ == (Syntax::Any { var: name@, expr: Box::new(expr@) }),
{
    Expression::Any { var: String::from_str(name), expr: Box::new(expr) }
}

} // verus!
