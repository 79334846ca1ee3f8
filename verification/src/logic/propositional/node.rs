//! Reading propositional nodes: the cursor's moves, arity and display.

use vstd::prelude::*;
use vstd::string::*;
use super::{formula_at, has_formula, is_formula, PLogic, PropositionalTree};
use crate::logic::semantic::SemanticNode;
use crate::tree::reading::{lemma_reads_unique, reads, slot, Reading};
use crate::tree::traits::shown_name;
use crate::tree::{Addr, IndexedRef, Mapping, Node, NodeValue};

verus! {

/// The moves of a cursor over a propositional arena.
pub trait PRef: Sized {
    /// The cursor stands on a node.
    spec fn on_node(&self) -> bool;

    /// The cursor moved to what slot `c` of its node holds.
    spec fn child(&self, c: int) -> Self;

    /// The first operand of a conjunction or disjunction.
    fn left(&self) -> (r: Self)
        requires
            self.on_node(),
        ensures
            r == self.child(0),
    ;

    /// The second operand of a conjunction or disjunction.
    fn right(&self) -> (r: Self)
        requires
            self.on_node(),
        ensures
            r == self.child(1),
    ;

    /// The operand of a negation.
    fn inner(&self) -> (r: Self)
        requires
            self.on_node(),
        ensures
            r == self.child(0),
    ;
}

impl<'a> PRef for IndexedRef<'a, PropositionalTree> {
    open spec fn on_node(&self) -> bool {
        self.idx.addr < self.array.nodes().len()
    }

    open spec fn child(&self, c: int) -> Self {
        IndexedRef { array: self.array, idx: slot(self.array.nodes(), self.idx.addr as int, c) }
    }

    fn left(&self) -> (r: Self) {
        IndexedRef { array: self.array, idx: self.array.get(self.idx).node.childs[0] }
    }

    fn right(&self) -> (r: Self) {
        IndexedRef { array: self.array, idx: self.array.get(self.idx).node.childs[1] }
    }

    fn inner(&self) -> (r: Self) {
        IndexedRef { array: self.array, idx: self.array.get(self.idx).node.childs[0] }
    }
}

impl SemanticNode for NodeValue<Node<2>, PLogic> {
    open spec fn child_count(&self) -> nat {
        match self.value {
            PLogic::Variable { id } => 0,
            PLogic::Not => 1,
            PLogic::And => 2,
            PLogic::Or => 2,
        }
    }

    fn arity(&self) -> (n: usize) {
        match self.value {
            PLogic::Variable { id: _ } => 0,
            PLogic::Not => 1,
            PLogic::And => 2,
            PLogic::Or => 2,
        }
    }
}

/// The text of a formula: a variable by its name, a negation with `¬` in
/// front, a conjunction and a disjunction in brackets around `∧` and `∨`.
pub open spec fn shown(t: Reading<PLogic>, names: Seq<Option<Seq<char>>>) -> Seq<char>
    decreases t,
{
    match t {
        Reading::Empty => Seq::empty(),
        Reading::Node(PLogic::Variable { id }, l, r) => shown_name(names, id),
        Reading::Node(PLogic::Not, l, r) => "\u{00AC}"@ + shown(*l, names),
        Reading::Node(PLogic::And, l, r) => "("@ + shown(*l, names) + "\u{2227}"@ + shown(
            *r,
            names,
        ) + ")"@,
        Reading::Node(PLogic::Or, l, r) => "("@ + shown(*l, names) + "\u{2228}"@ + shown(
            *r,
            names,
        ) + ")"@,
    }
}

/// Appends the text of the formula at `at` to `out`.
fn fmt_at(tree: &PropositionalTree, at: Addr, out: &mut String, Ghost(t): Ghost<Reading<PLogic>>)
    requires
        reads(tree.nodes(), at, t),
        is_formula(t),
    ensures
        final(out)@ == old(out)@ + shown(t, tree.table()),
    decreases t,
{
    let cell = tree.get(at);
    let ghost l: Reading<PLogic> = *t->Node_1;
    let ghost r: Reading<PLogic> = *t->Node_2;
    match cell.value {
        PLogic::Variable { id } => {
            let name = tree.fmt_named(id);
            out.append(name.as_str());
        },
        PLogic::Not => {
            out.append("\u{00AC}");
            fmt_at(tree, cell.node.childs[0], out, Ghost(l));
            assert(out@ =~= old(out)@ + shown(t, tree.table()));
        },
        PLogic::And => {
            out.append("(");
            fmt_at(tree, cell.node.childs[0], out, Ghost(l));
            out.append("\u{2227}");
            fmt_at(tree, cell.node.childs[1], out, Ghost(r));
            out.append(")");
            assert(out@ =~= old(out)@ + shown(t, tree.table()));
        },
        PLogic::Or => {
            out.append("(");
            fmt_at(tree, cell.node.childs[0], out, Ghost(l));
            out.append("\u{2228}");
            fmt_at(tree, cell.node.childs[1], out, Ghost(r));
            out.append(")");
            assert(out@ =~= old(out)@ + shown(t, tree.table()));
        },
    }
}

impl<'a> IndexedRef<'a, PropositionalTree> {
    /// The text of the formula under the cursor.
    pub fn to_string(&self) -> (s: String)
        requires
            has_formula(self.array.nodes(), self.idx),
        ensures
            s@ == shown(formula_at(self.array.nodes(), self.idx), self.array.table()),
    {
        let ghost t = choose|t: Reading<PLogic>|
            reads(self.array.nodes(), self.idx, t) && is_formula(t);
        proof {
            lemma_reads_unique(
                self.array.nodes(),
                self.idx,
                t,
                formula_at(self.array.nodes(), self.idx),
            );
        }
        let mut s = String::new();
        fmt_at(self.array, self.idx, &mut s, Ghost(t));
        assert(s@ =~= shown(t, self.array.table()));
        s
    }
}

impl PropositionalTree {
    /// The formula at the output.
    pub open spec fn formula(&self) -> Reading<PLogic> {
        formula_at(self.nodes(), self.root())
    }

    /// A formula stands at the output.
    pub open spec fn is_formula(&self) -> bool {
        has_formula(self.nodes(), self.root())
    }

    /// The text of the formula at the output.
    pub fn to_string(&self) -> (s: String)
        requires
            self.is_formula(),
        ensures
            s@ == shown(self.formula(), self.table()),
    {
        self.output().to_string()
    }
}

} // verus!
