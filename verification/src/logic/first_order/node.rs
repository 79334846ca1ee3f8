//! Reading first-order nodes: the cursor's moves, the arguments of a
//! predicate, arity and display.

use vstd::prelude::*;
use vstd::string::*;
use super::{args_of, formula_at, has_formula, is_args, is_formula, FOLogic, FirstOrderTree};
use crate::logic::semantic::SemanticNode;
use crate::tree::reading::{depth, lemma_reads_unique, reads, slot, Reading};
use crate::tree::traits::shown_name;
use crate::tree::{Addr, IndexedRef, Mapping, Node, NodeValue};

verus! {

/// The moves of a cursor over a first-order arena.  A move to an empty slot
/// gives nothing.
pub trait FORef: Sized {
    /// The cursor stands on a node.
    spec fn on_node(&self) -> bool;

    /// The cursor moved to what slot `c` of its node holds; nothing if the
    /// slot is empty.
    spec fn child(&self, c: int) -> Option<Self>;

    /// The first operand of a conjunction or disjunction.
    fn left(&self) -> (r: Option<Self>)
        requires
            self.on_node(),
        ensures
            r == self.child(0),
    ;

    /// The second operand of a conjunction or disjunction.
    fn right(&self) -> (r: Option<Self>)
        requires
            self.on_node(),
        ensures
            r == self.child(1),
    ;

    /// The operand of a negation or quantifier; the next link of a chain of
    /// arguments.
    fn inner(&self) -> (r: Option<Self>)
        requires
            self.on_node(),
        ensures
            r == self.child(0),
    ;
}

impl<'a> FORef for IndexedRef<'a, FirstOrderTree> {
    open spec fn on_node(&self) -> bool {
        self.idx.addr < self.array.nodes().len()
    }

    open spec fn child(&self, c: int) -> Option<Self> {
        let to = slot(self.array.nodes(), self.idx.addr as int, c);
        if to.absent() {
            None
        } else {
            Some(IndexedRef { array: self.array, idx: to })
        }
    }

    fn left(&self) -> (r: Option<Self>) {
        let to = self.array.get(self.idx).node.childs[0];
        if to.is_addr() {
            Some(IndexedRef { array: self.array, idx: to })
        } else {
            None
        }
    }

    fn right(&self) -> (r: Option<Self>) {
        let to = self.array.get(self.idx).node.childs[1];
        if to.is_addr() {
            Some(IndexedRef { array: self.array, idx: to })
        } else {
            None
        }
    }

    fn inner(&self) -> (r: Option<Self>) {
        let to = self.array.get(self.idx).node.childs[0];
        if to.is_addr() {
            Some(IndexedRef { array: self.array, idx: to })
        } else {
            None
        }
    }
}

/// Something that has a chain of arguments.
pub trait Args<'a, T> {
    /// A chain of arguments hangs under the node.
    spec fn has_args(&self) -> bool;

    /// The walk along the arguments at its start.
    spec fn first_arg(&self) -> ArgsIter<'a, T>;

    /// A walk along the arguments.
    fn args(&self) -> (it: ArgsIter<'a, T>)
        requires
            self.has_args(),
        ensures
            it == self.first_arg(),
    ;
}

/// A walk along the arguments of a predicate: the arena, and the address of
/// the argument that comes next.
pub struct ArgsIter<'a, T> {
    pub array: &'a T,
    pub idx: Addr,
}

impl<'a> Args<'a, FirstOrderTree> for IndexedRef<'a, FirstOrderTree> {
    open spec fn has_args(&self) -> bool {
        self.idx.addr < self.array.nodes().len()
    }

    open spec fn first_arg(&self) -> ArgsIter<'a, FirstOrderTree> {
        ArgsIter { array: self.array, idx: slot(self.array.nodes(), self.idx.addr as int, 0) }
    }

    fn args(&self) -> (it: ArgsIter<'a, FirstOrderTree>) {
        ArgsIter { array: self.array, idx: self.array.get(self.idx).node.childs[0] }
    }
}

impl<'a> ArgsIter<'a, FirstOrderTree> {
    /// The arguments that the walk has still to come by.
    pub open spec fn remaining(&self) -> Seq<Addr> {
        args_of(formula_at(self.array.nodes(), self.idx))
    }

    /// A chain of arguments lies ahead.
    pub open spec fn on_chain(&self) -> bool {
        exists|t: Reading<FOLogic>| reads(self.array.nodes(), self.idx, t) && is_args(t)
    }

    /// The next argument; nothing at the end of the chain.
    pub fn next(&mut self) -> (arg: Option<Addr>)
        requires
            old(self).on_chain(),
        ensures
            final(self).on_chain(),
            final(self).array == old(self).array,
            match arg {
                Some(id) => old(self).remaining().len() > 0 && id == old(self).remaining()[0]
                    && final(self).remaining() == old(self).remaining().skip(1),
                None => old(self).remaining().len() == 0 && final(self).idx == old(self).idx,
            },
    {
        let ghost t = choose|t: Reading<FOLogic>|
            reads(self.array.nodes(), self.idx, t) && is_args(t);
        proof {
            lemma_reads_unique(
                self.array.nodes(),
                self.idx,
                t,
                formula_at(self.array.nodes(), self.idx),
            );
        }
        if self.idx.is_none() {
            return None;
        }
        let cell = self.array.get(self.idx);
        let id = match cell.value {
            FOLogic::Predicate { id } => id,
            _ => Addr::none(),
        };
        let ghost rest: Reading<FOLogic> = *t->Node_1;
        self.idx = cell.node.childs[0];
        proof {
            assert(reads(self.array.nodes(), self.idx, rest) && is_args(rest));
            lemma_reads_unique(
                self.array.nodes(),
                self.idx,
                rest,
                formula_at(self.array.nodes(), self.idx),
            );
            assert(args_of(t).skip(1) =~= args_of(rest));
        }
        Some(id)
    }
}

impl SemanticNode for NodeValue<Node<2>, FOLogic> {
    open spec fn child_count(&self) -> nat {
        match self.value {
            FOLogic::Predicate { id } => 0,
            FOLogic::Universal { id } => 1,
            FOLogic::Existential { id } => 1,
            FOLogic::Not => 1,
            FOLogic::And => 2,
            FOLogic::Or => 2,
        }
    }

    fn arity(&self) -> (n: usize) {
        match self.value {
            FOLogic::Predicate { id: _ } => 0,
            FOLogic::Universal { id: _ } => 1,
            FOLogic::Existential { id: _ } => 1,
            FOLogic::Not => 1,
            FOLogic::And => 2,
            FOLogic::Or => 2,
        }
    }
}

/// The text of a chain of arguments: the names, with `, ` between them.
pub open spec fn shown_args(t: Reading<FOLogic>, names: Seq<Option<Seq<char>>>) -> Seq<char>
    decreases t,
{
    match t {
        Reading::Empty => Seq::empty(),
        Reading::Node(FOLogic::Predicate { id }, rest, r) => if *rest is Empty {
            shown_name(names, id)
        } else {
            shown_name(names, id) + ", "@ + shown_args(*rest, names)
        },
        Reading::Node(_, rest, r) => Seq::empty(),
    }
}

/// The text of a formula: a predicate by its name with its arguments in
/// brackets; a negation with `¬` in front; a quantifier as `∀` or `∃`, the
/// variable and a colon in front; a conjunction and a disjunction in
/// brackets around `∧` and `∨`.
pub open spec fn shown(t: Reading<FOLogic>, names: Seq<Option<Seq<char>>>) -> Seq<char>
    decreases t,
{
    match t {
        Reading::Empty => Seq::empty(),
        Reading::Node(FOLogic::Predicate { id }, l, r) => shown_name(names, id) + "("@
            + shown_args(*l, names) + ")"@,
        Reading::Node(FOLogic::Not, l, r) => "\u{00AC}"@ + shown(*l, names),
        Reading::Node(FOLogic::And, l, r) => "("@ + shown(*l, names) + "\u{2227}"@ + shown(
            *r,
            names,
        ) + ")"@,
        Reading::Node(FOLogic::Or, l, r) => "("@ + shown(*l, names) + "\u{2228}"@ + shown(
            *r,
            names,
        ) + ")"@,
        Reading::Node(FOLogic::Universal { id }, l, r) => "\u{2200}"@ + shown_name(names, id)
            + ":"@ + shown(*l, names),
        Reading::Node(FOLogic::Existential { id }, l, r) => "\u{2203}"@ + shown_name(names, id)
            + ":"@ + shown(*l, names),
    }
}

/// Appends the text of the chain of arguments at `at` to `out`.
fn fmt_args(tree: &FirstOrderTree, at: Addr, out: &mut String, Ghost(t): Ghost<Reading<FOLogic>>)
    requires
        reads(tree.nodes(), at, t),
        is_args(t),
    ensures
        final(out)@ == old(out)@ + shown_args(t, tree.table()),
    decreases t,
{
    if at.is_none() {
        assert(out@ =~= old(out)@ + shown_args(t, tree.table()));
        return ;
    }
    let cell = tree.get(at);
    let ghost rest: Reading<FOLogic> = *t->Node_1;
    let id = match cell.value {
        FOLogic::Predicate { id } => id,
        _ => Addr::none(),
    };
    let name = tree.fmt_named(id);
    out.append(name.as_str());
    let next = cell.node.childs[0];
    assert(reads(tree.nodes(), next, rest) && is_args(rest));
    if next.is_addr() {
        assert(!(rest is Empty));
        out.append(", ");
        fmt_args(tree, next, out, Ghost(rest));
    } else {
        assert(rest is Empty);
    }
    assert(out@ =~= old(out)@ + shown_args(t, tree.table()));
}

/// Appends the text of the formula at `at` to `out`.
fn fmt_at(tree: &FirstOrderTree, at: Addr, out: &mut String, Ghost(t): Ghost<Reading<FOLogic>>)
    requires
        reads(tree.nodes(), at, t),
        is_formula(t),
    ensures
        final(out)@ == old(out)@ + shown(t, tree.table()),
    decreases t,
{
    let cell = tree.get(at);
    let ghost l: Reading<FOLogic> = *t->Node_1;
    let ghost r: Reading<FOLogic> = *t->Node_2;
    match cell.value {
        FOLogic::Predicate { id } => {
            let name = tree.fmt_named(id);
            out.append(name.as_str());
            out.append("(");
            fmt_args(tree, cell.node.childs[0], out, Ghost(l));
            out.append(")");
            assert(out@ =~= old(out)@ + shown(t, tree.table()));
        },
        FOLogic::Not => {
            out.append("\u{00AC}");
            fmt_at(tree, cell.node.childs[0], out, Ghost(l));
            assert(out@ =~= old(out)@ + shown(t, tree.table()));
        },
        FOLogic::And => {
            out.append("(");
            fmt_at(tree, cell.node.childs[0], out, Ghost(l));
            out.append("\u{2227}");
            fmt_at(tree, cell.node.childs[1], out, Ghost(r));
            out.append(")");
            assert(out@ =~= old(out)@ + shown(t, tree.table()));
        },
        FOLogic::Or => {
            out.append("(");
            fmt_at(tree, cell.node.childs[0], out, Ghost(l));
            out.append("\u{2228}");
            fmt_at(tree, cell.node.childs[1], out, Ghost(r));
            out.append(")");
            assert(out@ =~= old(out)@ + shown(t, tree.table()));
        },
        FOLogic::Universal { id } => {
            out.append("\u{2200}");
            let name = tree.fmt_named(id);
            out.append(name.as_str());
            out.append(":");
            fmt_at(tree, cell.node.childs[0], out, Ghost(l));
            assert(out@ =~= old(out)@ + shown(t, tree.table()));
        },
        FOLogic::Existential { id } => {
            out.append("\u{2203}");
            let name = tree.fmt_named(id);
            out.append(name.as_str());
            out.append(":");
            fmt_at(tree, cell.node.childs[0], out, Ghost(l));
            assert(out@ =~= old(out)@ + shown(t, tree.table()));
        },
    }
}

impl<'a> IndexedRef<'a, FirstOrderTree> {
    /// The text of the formula under the cursor.
    pub fn to_string(&self) -> (s: String)
        requires
            has_formula(self.array.nodes(), self.idx),
        ensures
            s@ == shown(formula_at(self.array.nodes(), self.idx), self.array.table()),
    {
        let ghost t = choose|t: Reading<FOLogic>|
            reads(self.array.nodes(), self.idx, t) && is_formula(t);
        proof {
            lemma_reads_unique(
                self.array.nodes(),
                self.idx,
                t,
                formula_at(self.array.nodes(), self.idx),
            );
        }
        let mut s = String::new();
        fmt_at(self.array, self.idx, &mut s, Ghost(t));
        assert(s@ =~= shown(t, self.array.table()));
        s
    }
}

impl FirstOrderTree {
    /// The text of the formula at the output.
    pub fn to_string(&self) -> (s: String)
        requires
            self.is_formula(),
        ensures
            s@ == shown(self.formula(), self.table()),
    {
        self.output().to_string()
    }
}

/// A chain of arguments no longer than `budget` stands at `at`.
pub open spec fn chain_within(
    nodes: Seq<NodeValue<Node<2>, FOLogic>>,
    at: Addr,
    budget: nat,
) -> bool {
    exists|t: Reading<FOLogic>| #[trigger] reads(nodes, at, t) && is_args(t) && depth(t) <= budget
}

/// A formula no deeper than `budget` stands at `at`.
pub open spec fn stands_within(
    nodes: Seq<NodeValue<Node<2>, FOLogic>>,
    at: Addr,
    budget: nat,
) -> bool {
    exists|t: Reading<FOLogic>|
        #[trigger] reads(nodes, at, t) && is_formula(t) && depth(t) <= budget
}

/// Whether a chain of arguments no longer than `budget` stands at `at`;
/// and the chain, if one does.
fn check_args(tree: &FirstOrderTree, at: Addr, budget: usize) -> (r: (
    bool,
    Ghost<Reading<FOLogic>>,
))
    ensures
        r.0 == chain_within(tree.nodes(), at, budget as nat),
        r.0 ==> reads(tree.nodes(), at, r.1@) && is_args(r.1@) && depth(r.1@) <= budget,
    decreases budget,
{
    let ghost nodes = tree.nodes();
    let ghost none: Reading<FOLogic> = Reading::Empty;
    proof {
        tree.lemma_bounded();
    }
    if at.is_none() {
        assert(reads(nodes, at, none) && is_args(none) && depth(none) <= budget);
        return (true, Ghost(none));
    }
    if budget == 0 || at.addr >= tree.len() {
        proof {
            assert forall|t: Reading<FOLogic>| #[trigger]
                reads(nodes, at, t) && is_args(t) implies depth(t) > budget by {}
        }
        return (false, Ghost(none));
    }
    let cell = tree.get(at);
    let c0 = cell.node.childs[0];
    let c1 = cell.node.childs[1];
    match cell.value {
        FOLogic::Predicate { id } => {
            let (rest, l) = check_args(tree, c0, budget - 1);
            let fine = rest && c1.is_none();
            let ghost t = crate::tree::builder::over_of(cell.value, l@);
            proof {
                if fine {
                    assert(reads(nodes, c1, Reading::<FOLogic>::Empty));
                    assert(reads(nodes, at, t));
                    assert(is_args(t));
                    assert(depth(t) == 1 + depth(l@)) by {
                        reveal_with_fuel(depth, 2);
                    }
                } else {
                    assert forall|u: Reading<FOLogic>| #[trigger]
                        reads(nodes, at, u) && is_args(u) implies depth(u) > budget by {
                        assert(reads(nodes, c0, *u->Node_1));
                        assert(reads(nodes, c1, *u->Node_2));
                    }
                }
            }
            (fine, Ghost(t))
        },
        _ => {
            proof {
                assert forall|u: Reading<FOLogic>| !(#[trigger] reads(nodes, at, u) && is_args(u)) by {}
            }
            (false, Ghost(none))
        },
    }
}

/// Whether a formula no deeper than `budget` stands at `at`; and the
/// formula, if one does.
fn check_at(tree: &FirstOrderTree, at: Addr, budget: usize) -> (r: (
    bool,
    Ghost<Reading<FOLogic>>,
))
    ensures
        r.0 == stands_within(tree.nodes(), at, budget as nat),
        r.0 ==> reads(tree.nodes(), at, r.1@) && is_formula(r.1@) && depth(r.1@) <= budget,
    decreases budget, 1nat,
{
    let ghost nodes = tree.nodes();
    let ghost none: Reading<FOLogic> = Reading::Empty;
    if budget == 0 || at.addr >= tree.len() {
        proof {
            tree.lemma_bounded();
            assert forall|t: Reading<FOLogic>| #[trigger]
                reads(nodes, at, t) && is_formula(t) implies depth(t) > budget by {}
        }
        return (false, Ghost(none));
    }
    proof {
        tree.lemma_bounded();
    }
    let cell = tree.get(at);
    let c0 = cell.node.childs[0];
    let c1 = cell.node.childs[1];
    match cell.value {
        FOLogic::Predicate { id } => {
            let (rest, l) = check_args(tree, c0, budget - 1);
            let fine = rest && c1.is_none();
            let ghost t = crate::tree::builder::over_of(cell.value, l@);
            proof {
                if fine {
                    assert(reads(nodes, c1, Reading::<FOLogic>::Empty));
                    assert(reads(nodes, at, t));
                    assert(is_formula(t));
                    assert(depth(t) == 1 + depth(l@)) by {
                        reveal_with_fuel(depth, 2);
                    }
                } else {
                    assert forall|u: Reading<FOLogic>| #[trigger]
                        reads(nodes, at, u) && is_formula(u) implies depth(u) > budget by {
                        assert(reads(nodes, c0, *u->Node_1));
                        assert(reads(nodes, c1, *u->Node_2));
                    }
                }
            }
            (fine, Ghost(t))
        },
        FOLogic::And => check_pair(tree, at, budget),
        FOLogic::Or => check_pair(tree, at, budget),
        _ => {
            let (inner, l) = check_at(tree, c0, budget - 1);
            let fine = inner && c1.is_none();
            let ghost t = crate::tree::builder::over_of(cell.value, l@);
            proof {
                if fine {
                    assert(reads(nodes, c1, Reading::<FOLogic>::Empty));
                    assert(reads(nodes, at, t));
                    assert(is_formula(t));
                    assert(depth(t) == 1 + depth(l@)) by {
                        reveal_with_fuel(depth, 2);
                    }
                } else {
                    assert forall|u: Reading<FOLogic>| #[trigger]
                        reads(nodes, at, u) && is_formula(u) implies depth(u) > budget by {
                        assert(reads(nodes, c0, *u->Node_1));
                        assert(reads(nodes, c1, *u->Node_2));
                    }
                }
            }
            (fine, Ghost(t))
        },
    }
}

/// Whether a conjunction or disjunction no deeper than `budget` stands at
/// `at`.
fn check_pair(tree: &FirstOrderTree, at: Addr, budget: usize) -> (r: (
    bool,
    Ghost<Reading<FOLogic>>,
))
    requires
        budget > 0,
        at.addr < tree.nodes().len(),
        tree.nodes()[at.addr as int].value is And || tree.nodes()[at.addr as int].value is Or,
    ensures
        r.0 == stands_within(tree.nodes(), at, budget as nat),
        r.0 ==> reads(tree.nodes(), at, r.1@) && is_formula(r.1@) && depth(r.1@) <= budget,
    decreases budget, 0nat,
{
    let ghost nodes = tree.nodes();
    proof {
        tree.lemma_bounded();
    }
    let cell = tree.get(at);
    let c0 = cell.node.childs[0];
    let c1 = cell.node.childs[1];
    let (left, l) = check_at(tree, c0, budget - 1);
    let (right, r) = check_at(tree, c1, budget - 1);
    let ghost t = crate::tree::builder::join_of(cell.value, l@, r@);
    proof {
        if left && right {
            assert(reads(nodes, at, t));
            assert(is_formula(t));
        } else {
            assert forall|u: Reading<FOLogic>| #[trigger]
                reads(nodes, at, u) && is_formula(u) implies depth(u) > budget by {
                assert(reads(nodes, c0, *u->Node_1));
                assert(reads(nodes, c1, *u->Node_2));
            }
        }
    }
    (left && right, Ghost(t))
}

impl FirstOrderTree {
    /// Whether a formula stands at the output that is no deeper than the
    /// arena has nodes.  A tree that passes can be shown, grounded and
    /// compiled.
    pub fn check(&self) -> (fine: bool)
        ensures
            fine == stands_within(self.nodes(), self.root(), self.nodes().len()),
            fine ==> self.is_formula(),
    {
        let (fine, t) = check_at(self, self.output_addr(), self.len());
        proof {
            if fine {
                assert(reads(self.nodes(), self.root(), t@) && is_formula(t@));
            }
        }
        fine
    }
}

} // verus!
