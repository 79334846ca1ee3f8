//! Building on an arena: a new parent over given children, with the
//! children's back-pointers set.

use vstd::prelude::*;
use super::addr::{Addr, IndexedRef};
use super::node::{padded, Node};
use super::reading::{lemma_reads_grown, reaches, reads, slot, well_linked, Reading};
use super::traits::NodeAllocator;
use super::tree::{with_parent, NodeValue, Tree};

verus! {

/// `after` is `nodes` with one node more: a root that carries `value` and
/// whose slots hold `kids`; the nodes that `kids` names have the new node as
/// their parent; everything else is as it was.
pub open spec fn built<T, const N: usize>(
    nodes: Seq<NodeValue<Node<N>, T>>,
    after: Seq<NodeValue<Node<N>, T>>,
    value: T,
    kids: Seq<Addr>,
) -> bool {
    &&& after.len() == nodes.len() + 1
    &&& after.last().value == value
    &&& after.last().node.parent == Addr::nil()
    &&& after.last().node.childs@ == kids
    &&& forall|i: int|
        0 <= i < nodes.len() ==> #[trigger] after[i] == (if kids.contains(
            Addr { addr: i as usize },
        ) {
            with_parent(nodes[i], Addr { addr: nodes.len() as usize })
        } else {
            nodes[i]
        })
}

/// Every entry of `kids` is the sentinel or a node of an arena of `len`
/// nodes.
pub open spec fn kids_within(kids: Seq<Addr>, len: nat) -> bool {
    forall|i: int| 0 <= i < kids.len() ==> (#[trigger] kids[i]).absent() || kids[i].addr < len
}

/// Every node that `kids` names is a root of `nodes`, and none is named
/// twice.
pub open spec fn kids_free<T, const N: usize>(
    nodes: Seq<NodeValue<Node<N>, T>>,
    kids: Seq<Addr>,
) -> bool {
    &&& forall|i: int|
        0 <= i < kids.len() && !(#[trigger] kids[i]).absent() ==> kids[i].addr < nodes.len()
            && nodes[kids[i].addr as int].node.parent.absent()
    &&& forall|i: int, j: int|
        0 <= i < kids.len() && 0 <= j < kids.len() && i != j && !(#[trigger] kids[i]).absent()
            ==> kids[i] != #[trigger] kids[j]
}

impl<T: Copy, const MAX_CHILDS: usize> Tree<T, MAX_CHILDS> {
    /// Appends a node that carries `symbol` over the children `operands` and
    /// makes it the parent of each of them.  Returns its address.
    pub fn attach(&mut self, symbol: T, operands: &[Addr]) -> (a: Addr)
        requires
            kids_within(operands@, old(self).nodes().len()),
        ensures
            a.addr == old(self).nodes().len(),
            !a.absent(),
            built(
                old(self).nodes(),
                final(self).nodes(),
                symbol,
                padded(operands@, MAX_CHILDS as nat),
            ),
            final(self).symbols() == old(self).symbols(),
            final(self).root() == old(self).root(),
    {
        let ghost before = self.nodes();
        let ghost kids = padded(operands@, MAX_CHILDS as nat);
        let a = self.push(symbol, operands);
        let len: usize = self.len();
        assert(a.addr < len);
        let mut i: usize = 0;
        while i < MAX_CHILDS && i < operands.len()
            invariant
                i <= MAX_CHILDS,
                i <= operands@.len(),
                a.addr == before.len(),
                kids == padded(operands@, MAX_CHILDS as nat),
                kids_within(operands@, before.len()),
                self.nodes().len() == before.len() + 1,
                self.nodes().last().value == symbol,
                self.nodes().last().node.parent == Addr::nil(),
                self.nodes().last().node.childs@ == kids,
                forall|k: int|
                    0 <= k < before.len() ==> #[trigger] self.nodes()[k] == (if kids.take(
                        i as int,
                    ).contains(Addr { addr: k as usize }) {
                        with_parent(before[k], a)
                    } else {
                        before[k]
                    }),
                self.symbols() == old(self).symbols(),
                self.root() == old(self).root(),
            decreases MAX_CHILDS - i,
        {
            let c: Addr = operands[i];
            let ghost seen = kids.take(i as int);
            let ghost next = kids.take(i + 1);
            proof {
                assert(kids[i as int] == c);
                assert(next =~= seen.push(c));
                assert forall|x: Addr| next.contains(x) <==> (seen.contains(x) || x == c) by {
                    if seen.contains(x) {
                        let j = choose|j: int| 0 <= j < seen.len() && seen[j] == x;
                        assert(next[j] == x);
                    }
                    if x == c {
                        assert(next[i as int] == x);
                    }
                }
            }
            if c.is_addr() {
                self.replace_parent(c, a);
            }
            i += 1;
        }
        proof {
            let seen = kids.take(i as int);
            assert forall|x: Addr| x.addr < before.len() implies (seen.contains(x)
                <==> kids.contains(x)) by {
                if kids.contains(x) {
                    let j = choose|j: int| 0 <= j < kids.len() && kids[j] == x;
                    assert(j < i);
                    assert(seen[j] == x);
                }
                if seen.contains(x) {
                    let j = choose|j: int| 0 <= j < seen.len() && seen[j] == x;
                    assert(kids[j] == x);
                }
            }
        }
        a
    }
}

/// Building keeps the links in order: where the links of an arena are those
/// of a forest and the children are distinct roots of it, the links are those
/// of a forest again after a parent has been built over them.
pub proof fn law_built_keeps_links<T, const N: usize>(
    nodes: Seq<NodeValue<Node<N>, T>>,
    after: Seq<NodeValue<Node<N>, T>>,
    value: T,
    kids: Seq<Addr>,
)
    requires
        well_linked(nodes),
        after.len() <= usize::MAX,
        kids.len() == N,
        kids_free(nodes, kids),
        built(nodes, after, value, kids),
    ensures
        well_linked(after),
{
    let top = nodes.len() as int;
    assert forall|p: int, c: int| 0 <= p < after.len() && 0 <= c < N implies {
        &&& (!(#[trigger] slot(after, p, c)).absent() ==> slot(after, p, c).addr < after.len()
            && after[slot(after, p, c).addr as int].node.parent == (Addr { addr: p as usize }))
        &&& slot(after, p, c).addr != p
        &&& forall|d: int|
            0 <= d < N && c != d && !slot(after, p, c).absent() ==> slot(after, p, c) != slot(
                after,
                p,
                d,
            )
    } by {
        let q = slot(after, p, c);
        if p == top {
            assert(q == kids[c]);
            if !q.absent() {
                assert(kids.contains(Addr { addr: q.addr as int as usize }));
            }
            assert forall|d: int| 0 <= d < N && c != d && !q.absent() implies q != slot(
                after,
                p,
                d,
            ) by {
                assert(slot(after, p, d) == kids[d]);
            }
        } else {
            assert(after[p].node.childs == nodes[p].node.childs);
            assert(q == slot(nodes, p, c));
            if !q.absent() {
                if kids.contains(Addr { addr: q.addr as int as usize }) {
                    let j = choose|j: int| 0 <= j < kids.len() && kids[j] == q;
                    assert(nodes[kids[j].addr as int].node.parent.absent());
                }
            }
            assert forall|d: int| 0 <= d < N && c != d && !q.absent() implies q != slot(
                after,
                p,
                d,
            ) by {
                assert(slot(after, p, d) == slot(nodes, p, d));
            }
        }
    }
}

/// A root with two child slots that carries `value` over `a` and `b`.
pub open spec fn branch<T>(value: T, a: Addr, b: Addr) -> NodeValue<Node<2>, T> {
    NodeValue { node: Node { parent: Addr::nil(), childs: [a, b] }, value }
}

/// `nodes` after a parent that carries `value` has been built over `a` and
/// `b`: the new node is appended, and `a` and `b` have it as their parent.
pub open spec fn grown<T>(
    nodes: Seq<NodeValue<Node<2>, T>>,
    value: T,
    a: Addr,
    b: Addr,
) -> Seq<NodeValue<Node<2>, T>> {
    Seq::new(
        nodes.len(),
        |i: int|
            if (a.addr == i && !a.absent()) || (b.addr == i && !b.absent()) {
                with_parent(nodes[i], Addr { addr: nodes.len() as usize })
            } else {
                nodes[i]
            },
    ).push(branch(value, a, b))
}

/// With two child slots, what `built` describes is `grown`.
pub proof fn lemma_built_is_grown<T>(
    nodes: Seq<NodeValue<Node<2>, T>>,
    after: Seq<NodeValue<Node<2>, T>>,
    value: T,
    a: Addr,
    b: Addr,
)
    requires
        nodes.len() < usize::MAX,
    ensures
        built(nodes, after, value, seq![a, b]) <==> after == grown(nodes, value, a, b),
{
    let kids = seq![a, b];
    let g = grown(nodes, value, a, b);
    assert(branch(value, a, b).node.childs@ =~= kids);
    if built(nodes, after, value, kids) {
        assert(after.last().node.childs =~= branch(value, a, b).node.childs);
        assert forall|i: int| 0 <= i < nodes.len() implies #[trigger] after[i] == g[i] by {
            lemma_pair_contains(a, b, i);
        }
        assert(after =~= g);
    }
    if after == g {
        assert(g.last() == branch(value, a, b));
        assert forall|i: int| 0 <= i < nodes.len() implies #[trigger] g[i] == (if kids.contains(
            Addr { addr: i as usize },
        ) {
            with_parent(nodes[i], Addr { addr: nodes.len() as usize })
        } else {
            nodes[i]
        }) by {
            lemma_pair_contains(a, b, i);
        }
    }
}

/// The pair of `a` and `b` names the node `i` exactly if one of them is its
/// address.
proof fn lemma_pair_contains(a: Addr, b: Addr, i: int)
    requires
        0 <= i < usize::MAX,
    ensures
        seq![a, b].contains(Addr { addr: i as usize }) <==> ((a.addr == i && !a.absent()) || (
        b.addr == i && !b.absent())),
{
    let kids = seq![a, b];
    let x = Addr { addr: i as usize };
    if kids.contains(x) {
        let j = choose|j: int| 0 <= j < kids.len() && kids[j] == x;
        assert(j == 0 || j == 1);
    }
    if a.addr == i {
        assert(kids[0] == x);
    }
    if b.addr == i {
        assert(kids[1] == x);
    }
}

/// The address at which the root of `t` stands once `t` has been planted on
/// an arena of `len` nodes.
pub open spec fn top_of<T>(len: nat, t: Reading<T>) -> Addr {
    if t is Empty {
        Addr::nil()
    } else {
        Addr { addr: (len + size_of(t) - 1) as usize }
    }
}

/// The number of nodes of `t`.
pub open spec fn size_of<T>(t: Reading<T>) -> nat {
    super::reading::size(t)
}

/// `nodes` after `t` has been built on top of it from the leaves up: first
/// what is under the first slot, then what is under the second, then the
/// node over both.
pub open spec fn planted<T>(
    nodes: Seq<NodeValue<Node<2>, T>>,
    t: Reading<T>,
) -> Seq<NodeValue<Node<2>, T>>
    decreases t,
{
    match t {
        Reading::Empty => nodes,
        Reading::Node(v, l, r) => {
            let first = planted(nodes, *l);
            let second = planted(first, *r);
            grown(second, v, top_of(nodes.len(), *l), top_of(first.len(), *r))
        },
    }
}

/// A leaf is planted by appending it.
pub proof fn lemma_planted_leaf<T>(nodes: Seq<NodeValue<Node<2>, T>>, v: T)
    ensures
        planted(nodes, Reading::Node(v, Box::new(Reading::Empty), Box::new(Reading::Empty)))
            == grown(nodes, v, Addr::nil(), Addr::nil()),
        size_of(Reading::Node(v, Box::new(Reading::Empty), Box::new(Reading::Empty))) == 1,
{
    reveal_with_fuel(planted, 2);
    reveal_with_fuel(super::reading::size, 2);
}

/// A node over one child is planted by planting the child and building the
/// node over it.
pub proof fn lemma_planted_unary<T>(nodes: Seq<NodeValue<Node<2>, T>>, v: T, l: Reading<T>)
    ensures
        planted(nodes, Reading::Node(v, Box::new(l), Box::new(Reading::Empty))) == grown(
            planted(nodes, l),
            v,
            top_of(nodes.len(), l),
            Addr::nil(),
        ),
        size_of(Reading::Node(v, Box::new(l), Box::new(Reading::Empty))) == 1 + size_of(l),
{
    reveal_with_fuel(planted, 2);
    reveal_with_fuel(super::reading::size, 2);
}

/// A node over two children is planted by planting the first, then the
/// second, and building the node over both.
pub proof fn lemma_planted_binary<T>(
    nodes: Seq<NodeValue<Node<2>, T>>,
    v: T,
    l: Reading<T>,
    r: Reading<T>,
)
    ensures
        planted(nodes, Reading::Node(v, Box::new(l), Box::new(r))) == grown(
            planted(planted(nodes, l), r),
            v,
            top_of(nodes.len(), l),
            top_of(planted(nodes, l).len(), r),
        ),
        size_of(Reading::Node(v, Box::new(l), Box::new(r))) == 1 + size_of(l) + size_of(r),
{
}

/// Planting appends one node for each node of the reading and leaves the
/// arena below as it was.
pub proof fn lemma_planted_above<T>(nodes: Seq<NodeValue<Node<2>, T>>, t: Reading<T>)
    requires
        nodes.len() + size_of(t) <= usize::MAX,
    ensures
        planted(nodes, t).len() == nodes.len() + size_of(t),
        forall|i: int| 0 <= i < nodes.len() ==> #[trigger] planted(nodes, t)[i] == nodes[i],
        !(t is Empty) ==> planted(nodes, t).last().node.parent.absent(),
    decreases t,
{
    match t {
        Reading::Empty => {},
        Reading::Node(v, l, r) => {
            let first = planted(nodes, *l);
            lemma_planted_above(nodes, *l);
            let second = planted(first, *r);
            lemma_planted_above(first, *r);
            let a = top_of(nodes.len(), *l);
            let b = top_of(first.len(), *r);
            assert forall|i: int| 0 <= i < nodes.len() implies #[trigger] planted(nodes, t)[i]
                == nodes[i] by {
                assert(second[i] == first[i]);
            }
        },
    }
}

/// From the top of what was planted a walk finds what was planted; every
/// walk of the arena below finds what it found.
pub proof fn lemma_planted_reads<T>(nodes: Seq<NodeValue<Node<2>, T>>, t: Reading<T>)
    requires
        nodes.len() + size_of(t) <= usize::MAX,
    ensures
        reads(planted(nodes, t), top_of(nodes.len(), t), t),
        forall|x: Addr| #[trigger]
            reaches(planted(nodes, t), top_of(nodes.len(), t), t, x) ==> x.addr >= nodes.len(),
    decreases t,
{
    match t {
        Reading::Empty => {},
        Reading::Node(v, l, r) => {
            let first = planted(nodes, *l);
            lemma_planted_above(nodes, *l);
            lemma_planted_reads(nodes, *l);
            let second = planted(first, *r);
            lemma_planted_above(first, *r);
            lemma_planted_reads(first, *r);
            let a = top_of(nodes.len(), *l);
            let b = top_of(first.len(), *r);
            let whole = planted(nodes, t);
            assert forall|i: int| 0 <= i < first.len() implies (#[trigger] second[i]).value
                == first[i].value && second[i].node.childs@ == first[i].node.childs@ by {}
            lemma_reads_grown(first, second, a, *l);
            assert forall|i: int| 0 <= i < second.len() implies (#[trigger] whole[i]).value
                == second[i].value && whole[i].node.childs@ == second[i].node.childs@ by {}
            lemma_reads_grown(second, whole, a, *l);
            lemma_reads_grown(second, whole, b, *r);
            let at = top_of(nodes.len(), t);
            assert(at.addr == second.len());
            assert(whole[at.addr as int] == branch(v, a, b));
            assert(slot(whole, at.addr as int, 0) == a);
            assert(slot(whole, at.addr as int, 1) == b);
            assert forall|x: Addr| #[trigger] reaches(whole, at, t, x) implies x.addr
                >= nodes.len() by {
                if reaches(whole, a, *l, x) {
                    assert(reaches(first, a, *l, x));
                } else if reaches(whole, b, *r, x) {
                    assert(reaches(second, b, *r, x));
                }
            }
        },
    }
}

/// Planting keeps the links in order.
pub proof fn lemma_planted_links<T>(nodes: Seq<NodeValue<Node<2>, T>>, t: Reading<T>)
    requires
        nodes.len() + size_of(t) <= usize::MAX,
        well_linked(nodes),
    ensures
        well_linked(planted(nodes, t)),
    decreases t,
{
    match t {
        Reading::Empty => {},
        Reading::Node(v, l, r) => {
            let first = planted(nodes, *l);
            lemma_planted_above(nodes, *l);
            lemma_planted_links(nodes, *l);
            let second = planted(first, *r);
            lemma_planted_above(first, *r);
            lemma_planted_links(first, *r);
            let a = top_of(nodes.len(), *l);
            let b = top_of(first.len(), *r);
            let whole = planted(nodes, t);
            let kids = seq![a, b];
            lemma_built_is_grown(second, whole, v, a, b);
            if !a.absent() {
                assert(second[a.addr as int] == first[a.addr as int]);
                assert(first.last() == first[a.addr as int]);
            }
            assert(kids_free(second, kids));
            law_built_keeps_links(second, whole, v, kids);
        },
    }
}

/// The arena after the nodes of `items` have been chained from the left by
/// nodes that carry `op`: nothing is built for fewer than two items.
pub open spec fn chained<T>(
    nodes: Seq<NodeValue<Node<2>, T>>,
    op: T,
    items: Seq<Addr>,
) -> Seq<NodeValue<Node<2>, T>>
    decreases items.len(),
{
    if items.len() <= 1 {
        nodes
    } else {
        grown(
            chained(nodes, op, items.drop_last()),
            op,
            chain_top(nodes.len(), items.drop_last()),
            items.last(),
        )
    }
}

/// The address of the top of such a chain on an arena of `len` nodes: the
/// sentinel for no item, the item itself for one.
pub open spec fn chain_top(len: nat, items: Seq<Addr>) -> Addr {
    if items.len() == 0 {
        Addr::nil()
    } else if items.len() == 1 {
        items[0]
    } else {
        Addr { addr: (len + items.len() - 2) as usize }
    }
}

/// A chain over `n` items appends `n - 1` nodes.
pub proof fn lemma_chained_len<T>(nodes: Seq<NodeValue<Node<2>, T>>, op: T, items: Seq<Addr>)
    ensures
        chained(nodes, op, items).len() == nodes.len() + (if items.len() <= 1 {
            0
        } else {
            items.len() - 1
        }),
    decreases items.len(),
{
    if items.len() > 1 {
        lemma_chained_len(nodes, op, items.drop_last());
    }
}

impl<T: Copy> Tree<T, 2> {
    /// A walk from `at` finds something.
    pub open spec fn readable_at(&self, at: Addr) -> bool {
        exists|t: Reading<T>| reads(self.nodes(), at, t)
    }

    /// What a walk from `at` finds.
    pub open spec fn reading_at(&self, at: Addr) -> Reading<T> {
        choose|t: Reading<T>| reads(self.nodes(), at, t)
    }

    /// What a walk from the output finds.
    pub open spec fn reading(&self) -> Reading<T> {
        self.reading_at(self.root())
    }

    /// Appends a node that carries `symbol` over `left` and `right` and makes
    /// it their parent.
    pub fn attach_pair(&mut self, symbol: T, left: Addr, right: Addr) -> (a: Addr)
        requires
            left.absent() || left.addr < old(self).nodes().len(),
            right.absent() || right.addr < old(self).nodes().len(),
        ensures
            a.addr == old(self).nodes().len(),
            !a.absent(),
            final(self).nodes() == grown(old(self).nodes(), symbol, left, right),
            final(self).symbols() == old(self).symbols(),
            final(self).root() == old(self).root(),
    {
        let operands = [left, right];
        assert(operands@ =~= seq![left, right]);
        let a = self.attach(symbol, operands.as_slice());
        proof {
            assert(padded(operands@, 2) =~= seq![left, right]);
            lemma_built_is_grown(old(self).nodes(), self.nodes(), symbol, left, right);
        }
        a
    }

    /// Chains the nodes of `items` from the left by nodes that carry `op`.
    /// Returns the top of the chain: the sentinel for no item, the item
    /// itself for one.
    pub fn chain(&mut self, op: T, items: &[Addr]) -> (a: Addr)
        requires
            kids_within(items@, old(self).nodes().len()),
        ensures
            a == chain_top(old(self).nodes().len(), items@),
            final(self).nodes() == chained(old(self).nodes(), op, items@),
            final(self).symbols() == old(self).symbols(),
            final(self).root() == old(self).root(),
    {
        if items.len() == 0 {
            return Addr::none();
        }
        let mut current: Addr = items[0];
        let mut i: usize = 1;
        assert(items@.take(1).len() == 1);
        while i < items.len()
            invariant
                1 <= i <= items@.len(),
                kids_within(items@, old(self).nodes().len()),
                current == chain_top(old(self).nodes().len(), items@.take(i as int)),
                self.nodes() == chained(old(self).nodes(), op, items@.take(i as int)),
                self.symbols() == old(self).symbols(),
                self.root() == old(self).root(),
            decreases items@.len() - i,
        {
            proof {
                let next = items@.take(i + 1);
                assert(next.drop_last() =~= items@.take(i as int));
                assert(next.last() == items@[i as int]);
                lemma_chained_len(old(self).nodes(), op, items@.take(i as int));
            }
            current = self.attach_pair(op, current, items[i]);
            i += 1;
        }
        assert(items@.take(items@.len() as int) =~= items@);
        current
    }

    /// Copies what a walk from `at` finds to the end of the arena.
    pub(crate) fn copy_reading(&mut self, at: Addr, Ghost(t): Ghost<Reading<T>>) -> (a: Addr)
        requires
            reads(old(self).nodes(), at, t),
        ensures
            a == top_of(old(self).nodes().len(), t),
            final(self).nodes() == planted(old(self).nodes(), t),
            final(self).nodes().len() == old(self).nodes().len() + size_of(t),
            final(self).symbols() == old(self).symbols(),
            final(self).root() == old(self).root(),
        decreases t,
    {
        if at.is_none() {
            return Addr::none();
        }
        let ghost start = self.nodes();
        let ghost l: Reading<T> = *t->Node_1;
        let ghost r: Reading<T> = *t->Node_2;
        let cell = *self.get(at);
        let left = self.copy_reading(cell.node.childs[0], Ghost(l));
        let ghost first = self.nodes();
        let grown_to: usize = self.len();
        proof {
            lemma_planted_above(start, l);
            assert forall|i: int| 0 <= i < start.len() implies (#[trigger] first[i]).value
                == start[i].value && first[i].node.childs@ == start[i].node.childs@ by {}
            lemma_reads_grown(start, first, slot(start, at.addr as int, 1), r);
        }
        let right = self.copy_reading(cell.node.childs[1], Ghost(r));
        let len: usize = self.len();
        self.attach_pair(cell.value, left, right)
    }

    /// Copies what a walk from `at` in `other` finds to the end of this
    /// arena.
    pub(crate) fn copy_from(
        &mut self,
        other: &Tree<T, 2>,
        at: Addr,
        Ghost(t): Ghost<Reading<T>>,
    ) -> (a: Addr)
        requires
            reads(other.nodes(), at, t),
        ensures
            a == top_of(old(self).nodes().len(), t),
            final(self).nodes() == planted(old(self).nodes(), t),
            final(self).nodes().len() == old(self).nodes().len() + size_of(t),
            final(self).symbols() == old(self).symbols(),
            final(self).root() == old(self).root(),
        decreases t,
    {
        if at.is_none() {
            return Addr::none();
        }
        let ghost l: Reading<T> = *t->Node_1;
        let ghost r: Reading<T> = *t->Node_2;
        let cell = other.get(at);
        let left = self.copy_from(other, cell.node.childs[0], Ghost(l));
        let grown_to: usize = self.len();
        let right = self.copy_from(other, cell.node.childs[1], Ghost(r));
        let len: usize = self.len();
        self.attach_pair(cell.value, left, right)
    }

    /// Copies the subtree under the cursor `node`, which may stand in
    /// another arena, to the end of this arena, from its leaves up, and
    /// returns the address of the copy's root.
    pub fn graft(&mut self, node: &IndexedRef<Tree<T, 2>>) -> (a: Addr)
        requires
            node.array.readable_at(node.idx),
        ensures
            a == top_of(old(self).nodes().len(), node.array.reading_at(node.idx)),
            final(self).nodes() == planted(
                old(self).nodes(),
                node.array.reading_at(node.idx),
            ),
            final(self).symbols() == old(self).symbols(),
            final(self).root() == old(self).root(),
    {
        self.copy_from(node.array, node.idx, Ghost(node.array.reading_at(node.idx)))
    }

    /// Copies the subtree at `at` to the end of the arena, from its leaves
    /// up, and returns the address of the copy's root.
    pub fn copy(&mut self, at: Addr) -> (a: Addr)
        requires
            old(self).readable_at(at),
        ensures
            a == top_of(old(self).nodes().len(), old(self).reading_at(at)),
            final(self).nodes() == planted(old(self).nodes(), old(self).reading_at(at)),
            final(self).symbols() == old(self).symbols(),
            final(self).root() == old(self).root(),
    {
        self.copy_reading(at, Ghost(self.reading_at(at)))
    }

    /// Whether the links of the arena are those of a forest: every node in
    /// a slot is a node of the arena that names the holder of the slot as its
    /// parent, and no node is in two slots of a node or in a slot of its own.
    pub fn links_hold(&self) -> (fine: bool)
        ensures
            fine == well_linked(self.nodes()),
    {
        proof {
            self.lemma_bounded();
        }
        let len: usize = self.len();
        let ghost nodes = self.nodes();
        let mut p: usize = 0;
        while p < len
            invariant
                p <= len,
                len == nodes.len(),
                nodes == self.nodes(),
                forall|q: int, c: int|
                    0 <= q < p && 0 <= c < 2 ==> {
                        &&& (!(#[trigger] slot(nodes, q, c)).absent() ==> slot(nodes, q, c).addr
                            < nodes.len() && nodes[slot(nodes, q, c).addr as int].node.parent == (Addr {
                            addr: q as usize,
                        }))
                        &&& slot(nodes, q, c).addr != q
                        &&& (!slot(nodes, q, c).absent() ==> slot(nodes, q, c) != slot(nodes, q, 1 - c))
                    },
            decreases len - p,
        {
            let cell = self.get(Addr::new(p));
            let c0 = cell.node.childs[0];
            let c1 = cell.node.childs[1];
            let mut fine = c0.addr != p && c1.addr != p;
            if c0.is_addr() {
                fine = fine && c0.addr < len && c0.addr != c1.addr;
                if fine {
                    fine = self.get(c0).node.parent.addr == p;
                }
            }
            if fine && c1.is_addr() {
                fine = c1.addr < len && c0.addr != c1.addr;
                if fine {
                    fine = self.get(c1).node.parent.addr == p;
                }
            }
            if !fine {
                proof {
                    assert(slot(nodes, p as int, 0) == c0);
                    assert(slot(nodes, p as int, 1) == c1);
                    if well_linked(nodes) {
                        assert(!slot(nodes, p as int, 0).absent() ==> slot(nodes, p as int, 0).addr
                            < nodes.len());
                        assert(!slot(nodes, p as int, 1).absent() ==> slot(nodes, p as int, 1).addr
                            < nodes.len());
                    }
                }
                return false;
            }
            proof {
                assert forall|c: int| 0 <= c < 2 implies {
                    &&& (!(#[trigger] slot(nodes, p as int, c)).absent() ==> slot(
                        nodes,
                        p as int,
                        c,
                    ).addr < nodes.len() && nodes[slot(nodes, p as int, c).addr as int].node.parent
                        == (Addr { addr: p }))
                    &&& slot(nodes, p as int, c).addr != p
                    &&& (!slot(nodes, p as int, c).absent() ==> slot(nodes, p as int, c) != slot(
                        nodes,
                        p as int,
                        1 - c,
                    ))
                } by {
                    assert(slot(nodes, p as int, 0) == c0);
                    assert(slot(nodes, p as int, 1) == c1);
                }
            }
            p += 1;
        }
        proof {
            assert forall|q: int, c: int, d: int|
                0 <= q < nodes.len() && 0 <= c < 2 && 0 <= d < 2 && c != d && !(#[trigger] slot(
                    nodes,
                    q,
                    c,
                )).absent() implies slot(nodes, q, c) != #[trigger] slot(nodes, q, d) by {
                assert(d == 1 - c);
            }
        }
        true
    }

    /// Plants the leaf that carries `value`.
    pub fn plant_leaf(&mut self, value: T) -> (a: Addr)
        ensures
            a == top_of(old(self).nodes().len(), leaf_of(value)),
            final(self).nodes() == planted(old(self).nodes(), leaf_of(value)),
            final(self).nodes().len() == old(self).nodes().len() + 1,
            size_of(leaf_of(value)) == 1,
            final(self).symbols() == old(self).symbols(),
            final(self).root() == old(self).root(),
    {
        proof {
            self.lemma_bounded();
            lemma_planted_leaf(self.nodes(), value);
        }
        let a = self.attach_pair(value, Addr::none(), Addr::none());
        proof {
            self.lemma_bounded();
        }
        a
    }

    /// Builds the node that carries `value` over `child`, the top of what
    /// has been planted last.
    pub(crate) fn plant_over(
        &mut self,
        value: T,
        child: Addr,
        Ghost(start): Ghost<Seq<NodeValue<Node<2>, T>>>,
        Ghost(f): Ghost<Reading<T>>,
    ) -> (a: Addr)
        requires
            !(f is Empty),
            child == top_of(start.len(), f),
            old(self).nodes() == planted(start, f),
            old(self).nodes().len() == start.len() + size_of(f),
        ensures
            a == top_of(start.len(), over_of(value, f)),
            final(self).nodes() == planted(start, over_of(value, f)),
            final(self).nodes().len() == start.len() + size_of(over_of(value, f)),
            size_of(over_of(value, f)) == 1 + size_of(f),
            final(self).symbols() == old(self).symbols(),
            final(self).root() == old(self).root(),
    {
        proof {
            self.lemma_bounded();
            lemma_planted_unary(start, value, f);
        }
        let a = self.attach_pair(value, child, Addr::none());
        proof {
            self.lemma_bounded();
        }
        a
    }

    /// Builds the node that carries `value` over `left` and `right`, the
    /// tops of what has been planted last but one and last.
    pub(crate) fn plant_join(
        &mut self,
        value: T,
        left: Addr,
        right: Addr,
        Ghost(start): Ghost<Seq<NodeValue<Node<2>, T>>>,
        Ghost(f): Ghost<Reading<T>>,
        Ghost(g): Ghost<Reading<T>>,
    ) -> (a: Addr)
        requires
            !(f is Empty),
            !(g is Empty),
            left == top_of(start.len(), f),
            right == top_of(planted(start, f).len(), g),
            planted(start, f).len() == start.len() + size_of(f),
            old(self).nodes() == planted(planted(start, f), g),
            old(self).nodes().len() == start.len() + size_of(f) + size_of(g),
        ensures
            a == top_of(start.len(), join_of(value, f, g)),
            final(self).nodes() == planted(start, join_of(value, f, g)),
            final(self).nodes().len() == start.len() + size_of(join_of(value, f, g)),
            size_of(join_of(value, f, g)) == 1 + size_of(f) + size_of(g),
            final(self).symbols() == old(self).symbols(),
            final(self).root() == old(self).root(),
    {
        proof {
            self.lemma_bounded();
            lemma_planted_binary(start, value, f, g);
        }
        let a = self.attach_pair(value, left, right);
        proof {
            self.lemma_bounded();
        }
        a
    }
}

/// The leaf that carries `value`.
pub open spec fn leaf_of<T>(value: T) -> Reading<T> {
    Reading::Node(value, Box::new(Reading::Empty), Box::new(Reading::Empty))
}

/// The node that carries `value` over `f`.
pub open spec fn over_of<T>(value: T, f: Reading<T>) -> Reading<T> {
    Reading::Node(value, Box::new(f), Box::new(Reading::Empty))
}

/// The node that carries `value` over `f` and `g`.
pub open spec fn join_of<T>(value: T, f: Reading<T>, g: Reading<T>) -> Reading<T> {
    Reading::Node(value, Box::new(f), Box::new(g))
}

} // verus!
