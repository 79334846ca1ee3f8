//! Building propositional formulas on an arena.

use vstd::prelude::*;
use vstd::string::*;
use super::{PLogic, PropositionalTree};
use crate::tree::builder::{chain_top, chained, grown, kids_within, planted, top_of};
use crate::tree::reading::{reads, Reading};
use crate::tree::tree::{added, with_parent};
use crate::tree::{Addr, IndexedRef, Mapping, Node, NodeAllocator, NodeValue};

verus! {

/// `nodes` after the node at `at` has been turned into one that carries
/// `value` over `a` and `b`: `a` and `b` have `at` as their parent, and the
/// node at `at` keeps its own unless it is `a` or `b` itself.
pub open spec fn turned<T>(
    nodes: Seq<NodeValue<Node<2>, T>>,
    at: Addr,
    value: T,
    a: Addr,
    b: Addr,
) -> Seq<NodeValue<Node<2>, T>> {
    Seq::new(
        nodes.len(),
        |i: int|
            if i == at.addr {
                NodeValue {
                    node: Node {
                        parent: if a == at || b == at {
                            at
                        } else {
                            nodes[i].node.parent
                        },
                        childs: [a, b],
                    },
                    value,
                }
            } else if (a.addr == i && !a.absent()) || (b.addr == i && !b.absent()) {
                with_parent(nodes[i], at)
            } else {
                nodes[i]
            },
    )
}

/// The constructors of propositional formulas.  Each appends a node over
/// children that are there already and makes itself their parent; the
/// `into_` forms rewrite a node in place.
pub trait PMut: NodeAllocator<Value = PLogic, Node = Node<2>> + Mapping + Sized {
    /// The variable `id`.
    fn var(&mut self, id: Addr) -> (a: Addr)
        ensures
            a.addr == old(self).cells().len(),
            final(self).cells() == grown(
                old(self).cells(),
                PLogic::Variable { id },
                Addr::nil(),
                Addr::nil(),
            ),
            final(self).names() == old(self).names(),
            final(self).valid() == old(self).valid(),
    ;

    /// The variable called `name`, entered into the symbol table if it is
    /// not there.
    fn var_named(&mut self, name: &str) -> (a: Addr)
        requires
            old(self).valid(),
        ensures
            final(self).valid(),
            final(self).names() == added(old(self).names(), Some(name@)),
            a.addr == old(self).cells().len(),
            final(self).cells() == grown(
                old(self).cells(),
                final(self).cells().last().value,
                Addr::nil(),
                Addr::nil(),
            ),
            final(self).cells().last().value matches PLogic::Variable { id }
                && id.addr < final(self).names().len()
                && final(self).names()[id.addr as int] == Some(name@),
    ;

    /// The negation of the formula at `inner`.
    fn not(&mut self, inner: Addr) -> (a: Addr)
        requires
            inner.absent() || inner.addr < old(self).cells().len(),
        ensures
            a.addr == old(self).cells().len(),
            final(self).cells() == grown(old(self).cells(), PLogic::Not, inner, Addr::nil()),
            final(self).names() == old(self).names(),
            final(self).valid() == old(self).valid(),
    ;

    /// The conjunction of the formulas at `left` and `right`.
    fn and(&mut self, left: Addr, right: Addr) -> (a: Addr)
        requires
            left.absent() || left.addr < old(self).cells().len(),
            right.absent() || right.addr < old(self).cells().len(),
        ensures
            a.addr == old(self).cells().len(),
            final(self).cells() == grown(old(self).cells(), PLogic::And, left, right),
            final(self).names() == old(self).names(),
            final(self).valid() == old(self).valid(),
    ;

    /// The disjunction of the formulas at `left` and `right`.
    fn or(&mut self, left: Addr, right: Addr) -> (a: Addr)
        requires
            left.absent() || left.addr < old(self).cells().len(),
            right.absent() || right.addr < old(self).cells().len(),
        ensures
            a.addr == old(self).cells().len(),
            final(self).cells() == grown(old(self).cells(), PLogic::Or, left, right),
            final(self).names() == old(self).names(),
            final(self).valid() == old(self).valid(),
    ;

    /// The conjunction of the formulas at `items`, associated to the left
    /// and in their order; the sentinel if there are none.
    fn conjunction(&mut self, items: &[Addr]) -> (a: Addr)
        requires
            kids_within(items@, old(self).cells().len()),
        ensures
            a == chain_top(old(self).cells().len(), items@),
            final(self).cells() == chained(old(self).cells(), PLogic::And, items@),
            final(self).names() == old(self).names(),
            final(self).valid() == old(self).valid(),
    ;

    /// The disjunction of the formulas at `items`, associated to the left
    /// and in their order; the sentinel if there are none.
    fn disjunction(&mut self, items: &[Addr]) -> (a: Addr)
        requires
            kids_within(items@, old(self).cells().len()),
        ensures
            a == chain_top(old(self).cells().len(), items@),
            final(self).cells() == chained(old(self).cells(), PLogic::Or, items@),
            final(self).names() == old(self).names(),
            final(self).valid() == old(self).valid(),
    ;

    /// A copy of the subtree under the cursor `node`, which may stand in
    /// another arena, built at the end of this arena.
    fn clone(&mut self, node: &IndexedRef<PropositionalTree>) -> (a: Addr)
        requires
            node.array.readable_at(node.idx),
        ensures
            a == top_of(old(self).cells().len(), node.array.reading_at(node.idx)),
            final(self).cells() == planted(
                old(self).cells(),
                node.array.reading_at(node.idx),
            ),
            final(self).names() == old(self).names(),
            final(self).valid() == old(self).valid(),
    ;

    /// A copy of the subtree at `id`, built at the end of the arena.
    fn clone_id(&mut self, id: Addr) -> (a: Addr)
        requires
            exists|t: Reading<PLogic>| reads(old(self).cells(), id, t),
        ensures
            a == top_of(
                old(self).cells().len(),
                choose|t: Reading<PLogic>| reads(old(self).cells(), id, t),
            ),
            final(self).cells() == planted(
                old(self).cells(),
                choose|t: Reading<PLogic>| reads(old(self).cells(), id, t),
            ),
            final(self).names() == old(self).names(),
            final(self).valid() == old(self).valid(),
    ;

    /// Turns the node at `at` into the variable `id`.
    fn into_var(&mut self, at: Addr, id: Addr)
        requires
            at.addr < old(self).cells().len(),
        ensures
            final(self).cells() == turned(
                old(self).cells(),
                at,
                PLogic::Variable { id },
                Addr::nil(),
                Addr::nil(),
            ),
            final(self).names() == old(self).names(),
            final(self).valid() == old(self).valid(),
    ;

    /// Turns the node at `at` into the negation of the formula at `inner`.
    fn into_not(&mut self, at: Addr, inner: Addr)
        requires
            at.addr < old(self).cells().len(),
            inner.absent() || inner.addr < old(self).cells().len(),
        ensures
            final(self).cells() == turned(old(self).cells(), at, PLogic::Not, inner, Addr::nil()),
            final(self).names() == old(self).names(),
            final(self).valid() == old(self).valid(),
    ;

    /// Turns the node at `at` into the conjunction of the formulas at `left`
    /// and `right`.
    fn into_and(&mut self, at: Addr, left: Addr, right: Addr)
        requires
            at.addr < old(self).cells().len(),
            left.absent() || left.addr < old(self).cells().len(),
            right.absent() || right.addr < old(self).cells().len(),
        ensures
            final(self).cells() == turned(old(self).cells(), at, PLogic::And, left, right),
            final(self).names() == old(self).names(),
            final(self).valid() == old(self).valid(),
    ;

    /// Turns the node at `at` into the disjunction of the formulas at `left`
    /// and `right`.
    fn into_or(&mut self, at: Addr, left: Addr, right: Addr)
        requires
            at.addr < old(self).cells().len(),
            left.absent() || left.addr < old(self).cells().len(),
            right.absent() || right.addr < old(self).cells().len(),
        ensures
            final(self).cells() == turned(old(self).cells(), at, PLogic::Or, left, right),
            final(self).names() == old(self).names(),
            final(self).valid() == old(self).valid(),
    ;
}

impl<T: Copy> crate::tree::Tree<T, 2> {
    /// Turns the node at `at` into one that carries `value` over `left` and
    /// `right`, and makes it their parent.
    pub fn turn(&mut self, at: Addr, value: T, left: Addr, right: Addr)
        requires
            at.addr < old(self).nodes().len(),
            left.absent() || left.addr < old(self).nodes().len(),
            right.absent() || right.addr < old(self).nodes().len(),
        ensures
            final(self).nodes() == turned(old(self).nodes(), at, value, left, right),
            final(self).symbols() == old(self).symbols(),
            final(self).root() == old(self).root(),
    {
        let ghost start = self.nodes();
        proof {
            self.lemma_bounded();
        }
        if left.is_addr() {
            self.replace_parent(left, at);
        }
        let ghost first = self.nodes();
        if right.is_addr() {
            self.replace_parent(right, at);
        }
        let ghost second = self.nodes();
        let operands = [left, right];
        self.rewrite(at, value, operands.as_slice());
        proof {
            let want = turned(start, at, value, left, right);
            let have = self.nodes();
            assert(operands@ =~= seq![left, right]);
            assert(crate::tree::node::padded(operands@, 2) =~= seq![left, right]);
            assert(have.len() == want.len());
            assert forall|i: int| 0 <= i < have.len() implies have[i] == want[i] by {
                if i == at.addr {
                    assert(have[i].node.childs@ =~= want[i].node.childs@);
                    assert(have[i].node.childs =~= want[i].node.childs);
                    assert(have[i].node.parent == second[i].node.parent);
                    assert(have[i].value == want[i].value);
                    assert(first[i].node.parent == (if left == at {
                        at
                    } else {
                        start[i].node.parent
                    }));
                    assert(second[i].node.parent == (if right == at {
                        at
                    } else {
                        first[i].node.parent
                    }));
                    assert(have[i].node.parent == want[i].node.parent);
                    assert(have[i].node == want[i].node);
                } else {
                    assert(have[i] == second[i]);
                    if right.addr == i && !right.absent() {
                        assert(second[i] == with_parent(first[i], at));
                    } else {
                        assert(second[i] == first[i]);
                    }
                    if left.addr == i && !left.absent() {
                        assert(first[i] == with_parent(start[i], at));
                    } else {
                        assert(first[i] == start[i]);
                    }
                    assert(have[i] == want[i]);
                }
            }
            assert(have =~= want);
        }
    }
}

impl PMut for PropositionalTree {
    fn var(&mut self, id: Addr) -> (a: Addr)
        ensures
            final(self).symbols() == old(self).symbols(),
            final(self).root() == old(self).root(),
    {
        self.attach_pair(PLogic::Variable { id }, Addr::none(), Addr::none())
    }

    fn var_named(&mut self, name: &str) -> (a: Addr)
        ensures
            final(self).root() == old(self).root(),
    {
        let owned = String::from_str(name);
        let id = self.add_named(&owned);
        self.attach_pair(PLogic::Variable { id }, Addr::none(), Addr::none())
    }

    fn not(&mut self, inner: Addr) -> (a: Addr)
        ensures
            final(self).symbols() == old(self).symbols(),
            final(self).root() == old(self).root(),
    {
        self.attach_pair(PLogic::Not, inner, Addr::none())
    }

    fn and(&mut self, left: Addr, right: Addr) -> (a: Addr)
        ensures
            final(self).symbols() == old(self).symbols(),
            final(self).root() == old(self).root(),
    {
        self.attach_pair(PLogic::And, left, right)
    }

    fn or(&mut self, left: Addr, right: Addr) -> (a: Addr)
        ensures
            final(self).symbols() == old(self).symbols(),
            final(self).root() == old(self).root(),
    {
        self.attach_pair(PLogic::Or, left, right)
    }

    fn conjunction(&mut self, items: &[Addr]) -> (a: Addr)
        ensures
            final(self).symbols() == old(self).symbols(),
            final(self).root() == old(self).root(),
    {
        self.chain(PLogic::And, items)
    }

    fn disjunction(&mut self, items: &[Addr]) -> (a: Addr)
        ensures
            final(self).symbols() == old(self).symbols(),
            final(self).root() == old(self).root(),
    {
        self.chain(PLogic::Or, items)
    }

    fn clone(&mut self, node: &IndexedRef<PropositionalTree>) -> (a: Addr)
        ensures
            final(self).symbols() == old(self).symbols(),
            final(self).root() == old(self).root(),
    {
        self.graft(node)
    }

    fn clone_id(&mut self, id: Addr) -> (a: Addr)
        ensures
            final(self).symbols() == old(self).symbols(),
            final(self).root() == old(self).root(),
    {
        self.copy(id)
    }

    fn into_var(&mut self, at: Addr, id: Addr)
        ensures
            final(self).symbols() == old(self).symbols(),
            final(self).root() == old(self).root(),
    {
        self.turn(at, PLogic::Variable { id }, Addr::none(), Addr::none())
    }

    fn into_not(&mut self, at: Addr, inner: Addr)
        ensures
            final(self).symbols() == old(self).symbols(),
            final(self).root() == old(self).root(),
    {
        self.turn(at, PLogic::Not, inner, Addr::none())
    }

    fn into_and(&mut self, at: Addr, left: Addr, right: Addr)
        ensures
            final(self).symbols() == old(self).symbols(),
            final(self).root() == old(self).root(),
    {
        self.turn(at, PLogic::And, left, right)
    }

    fn into_or(&mut self, at: Addr, left: Addr, right: Addr)
        ensures
            final(self).symbols() == old(self).symbols(),
            final(self).root() == old(self).root(),
    {
        self.turn(at, PLogic::Or, left, right)
    }
}

} // verus!
