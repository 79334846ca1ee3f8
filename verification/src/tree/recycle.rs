//! Rewriting in place: a subtree is cut out, its nodes are handed out again
//! one by one for what is built in its place, and what is left over is
//! removed.

use vstd::prelude::*;
use super::addr::Addr;

use super::node::{
    cleared, first_occupied, first_present, lemma_first_match_contains, padded, popped,
    LinkingNode, Node,
};
use super::traits::NodeAllocator;
use super::tree::{output_after, relocated, swap_removed, with_parent, NodeValue, Tree};

verus! {

/// The number of occupied slots among `slots`.
pub open spec fn filled(slots: Seq<Addr>) -> nat
    decreases slots.len(),
{
    if slots.len() == 0 {
        0
    } else {
        filled(slots.drop_last()) + (if slots.last().absent() {
            0nat
        } else {
            1nat
        })
    }
}

/// The number of occupied slots in the arena.
pub open spec fn occupied<T, const N: usize>(nodes: Seq<NodeValue<Node<N>, T>>) -> nat
    decreases nodes.len(),
{
    if nodes.len() == 0 {
        0
    } else {
        occupied(nodes.drop_last()) + filled(nodes.last().node.childs@)
    }
}

/// Emptying an occupied slot leaves one occupied slot less.
pub proof fn lemma_filled_less(slots: Seq<Addr>, k: int)
    requires
        0 <= k < slots.len(),
        !slots[k].absent(),
    ensures
        filled(slots.update(k, Addr::nil())) + 1 == filled(slots),
    decreases slots.len(),
{
    let after = slots.update(k, Addr::nil());
    if k == slots.len() - 1 {
        assert(after.drop_last() =~= slots.drop_last());
    } else {
        assert(after.drop_last() =~= slots.drop_last().update(k, Addr::nil()));
        lemma_filled_less(slots.drop_last(), k);
    }
}

/// Changing the slots of one node changes the number of occupied slots of
/// the arena by what it changes for the node.
pub proof fn lemma_occupied_update<T, const N: usize>(
    nodes: Seq<NodeValue<Node<N>, T>>,
    i: int,
    cell: NodeValue<Node<N>, T>,
)
    requires
        0 <= i < nodes.len(),
    ensures
        occupied(nodes.update(i, cell)) + filled(nodes[i].node.childs@) == occupied(nodes)
            + filled(cell.node.childs@),
    decreases nodes.len(),
{
    let after = nodes.update(i, cell);
    if i == nodes.len() - 1 {
        assert(after.drop_last() =~= nodes.drop_last());
    } else {
        assert(after.drop_last() =~= nodes.drop_last().update(i, cell));
        lemma_occupied_update(nodes.drop_last(), i, cell);
    }
}

/// The node `cell` with its first occupied slot emptied.
pub open spec fn pop_cell<T, const N: usize>(cell: NodeValue<Node<N>, T>) -> NodeValue<
    Node<N>,
    T,
> {
    NodeValue {
        node: Node {
            parent: cell.node.parent,
            childs: if first_occupied(cell.node.childs@) < N {
                vstd::array::spec_array_update(
                    cell.node.childs,
                    first_occupied(cell.node.childs@),
                    Addr::nil(),
                )
            } else {
                cell.node.childs
            },
        },
        value: cell.value,
    }
}

/// The node `cell` without a parent.
pub open spec fn bare_cell<T, const N: usize>(cell: NodeValue<Node<N>, T>) -> NodeValue<
    Node<N>,
    T,
> {
    with_parent(cell, Addr::nil())
}

/// What one step of the walk through a cut subtree gives, from the node at
/// `cur`: the walk goes down through first occupied slots, emptying each as
/// it passes, until it stands on a node without occupied slots; that node
/// is given out, its parent link is forgotten, and the walk stands on what
/// was its parent.  A slot that holds no node of the arena is emptied and
/// passed over.  The result is the arena afterwards, the node given out,
/// and where the walk stands; nothing is given out when the walk stands on
/// no node.
pub open spec fn drained<T, const N: usize>(
    nodes: Seq<NodeValue<Node<N>, T>>,
    cur: Addr,
) -> (Seq<NodeValue<Node<N>, T>>, Option<Addr>, Addr)
    decreases occupied(nodes),
{
    if cur.addr >= nodes.len() {
        (nodes, None, Addr::nil())
    } else {
        let cell = nodes[cur.addr as int];
        let slots = cell.node.childs@;
        if first_occupied(slots) < slots.len() {
            proof {
                lemma_pop_cell(cell);
                lemma_filled_less(slots, first_occupied(slots));
                lemma_occupied_update(nodes, cur.addr as int, pop_cell(cell));
            }
            let child = first_present(slots);
            drained(
                nodes.update(cur.addr as int, pop_cell(cell)),
                if child.addr < nodes.len() {
                    child
                } else {
                    cur
                },
            )
        } else {
            (nodes.update(cur.addr as int, bare_cell(cell)), Some(cur), cell.node.parent)
        }
    }
}

/// The slots of a popped node.
pub proof fn lemma_pop_cell<T, const N: usize>(cell: NodeValue<Node<N>, T>)
    ensures
        pop_cell(cell).node.childs@ == popped(cell.node.childs@),
        first_occupied(cell.node.childs@) < cell.node.childs@.len() ==> !cell.node.childs@[first_occupied(
            cell.node.childs@,
        )].absent(),
        0 <= first_occupied(cell.node.childs@) <= cell.node.childs@.len(),
{
    lemma_first_occupied_finds(cell.node.childs@);
}

/// What `first_occupied` finds.
pub proof fn lemma_first_occupied_finds(slots: Seq<Addr>)
    ensures
        0 <= first_occupied(slots) <= slots.len(),
        first_occupied(slots) < slots.len() ==> !slots[first_occupied(slots)].absent(),
        forall|j: int| 0 <= j < first_occupied(slots) ==> (#[trigger] slots[j]).absent(),
    decreases slots.len(),
{
    if !(slots.len() == 0 || !slots[0].absent()) {
        let rest = slots.skip(1);
        lemma_first_occupied_finds(rest);
        let k = first_occupied(rest);
        if k < rest.len() {
            assert(slots[k + 1] == rest[k]);
        }
        assert forall|j: int| 0 <= j < 1 + k implies (#[trigger] slots[j]).absent() by {
            if j > 0 {
                assert(rest[j - 1] == slots[j]);
            }
        }
    }
}

/// One step of the walk keeps the number of nodes and their symbols, and
/// the node that it gives out has no links left.
pub proof fn law_drained_is_bare<T, const N: usize>(nodes: Seq<NodeValue<Node<N>, T>>, cur: Addr)
    ensures
        drained(nodes, cur).0.len() == nodes.len(),
        forall|i: int|
            0 <= i < nodes.len() ==> (#[trigger] drained(nodes, cur).0[i]).value == nodes[i].value,
        occupied(drained(nodes, cur).0) <= occupied(nodes),
        drained(nodes, cur).1 is Some <==> cur.addr < nodes.len(),
        drained(nodes, cur).1 matches Some(a) ==> {
            &&& a.addr < nodes.len()
            &&& drained(nodes, cur).0[a.addr as int].node.parent.absent()
            &&& drained(nodes, cur).0[a.addr as int].node.childs@ =~= cleared(N as nat)
        },
    decreases occupied(nodes),
{
    if cur.addr < nodes.len() {
        let cell = nodes[cur.addr as int];
        let slots = cell.node.childs@;
        lemma_first_occupied_finds(slots);
        if first_occupied(slots) < slots.len() {
            lemma_pop_cell(cell);
            lemma_filled_less(slots, first_occupied(slots));
            lemma_occupied_update(nodes, cur.addr as int, pop_cell(cell));
            let child = first_present(slots);
            let next = if child.addr < nodes.len() {
                child
            } else {
                cur
            };
            let after = nodes.update(cur.addr as int, pop_cell(cell));
            law_drained_is_bare(after, next);
            assert forall|i: int| 0 <= i < nodes.len() implies (#[trigger] drained(
                nodes,
                cur,
            ).0[i]).value == nodes[i].value by {
                assert(drained(after, next).0[i].value == after[i].value);
            }
        } else {
            lemma_occupied_update(nodes, cur.addr as int, bare_cell(cell));
        }
    }
}

/// What keeps a subtree from being cut out.
pub enum CutFault {
    /// The node to cut at, or a survivor, is no node of the arena.
    NoNode,
    /// The parent of the node to cut at does not hold it, or a survivor
    /// has no parent in the arena.
    NoLink,
}

/// The message of a fault.
pub open spec fn cut_text(f: CutFault) -> Seq<char> {
    match f {
        CutFault::NoNode => "This node doesn't exist"@,
        CutFault::NoLink => "input not found"@,
    }
}

/// What is wrong with the survivors from the first on, if anything.
pub open spec fn survivors_fault<T, const N: usize>(
    nodes: Seq<NodeValue<Node<N>, T>>,
    survivors: Seq<Addr>,
) -> Option<CutFault>
    decreases survivors.len(),
{
    if survivors.len() == 0 {
        None
    } else if survivors[0].addr >= nodes.len() {
        Some(CutFault::NoNode)
    } else if nodes[survivors[0].addr as int].node.parent.addr >= nodes.len() {
        Some(CutFault::NoLink)
    } else {
        survivors_fault(nodes, survivors.skip(1))
    }
}

/// What keeps the subtree at `from` from being cut out with the survivors
/// `survivors`, if anything.
pub open spec fn cut_fault<T, const N: usize>(
    nodes: Seq<NodeValue<Node<N>, T>>,
    from: Addr,
    survivors: Seq<Addr>,
) -> Option<CutFault> {
    if from.addr >= nodes.len() {
        Some(CutFault::NoNode)
    } else {
        let p = nodes[from.addr as int].node.parent;
        if !p.absent() && (p.addr >= nodes.len() || !nodes[p.addr as int].node.childs@.contains(
            from,
        )) {
            Some(CutFault::NoLink)
        } else {
            survivors_fault(nodes, survivors)
        }
    }
}

/// The node `cell` with every slot emptied.
pub open spec fn empty_cell<T, const N: usize>(cell: NodeValue<Node<N>, T>) -> NodeValue<
    Node<N>,
    T,
> {
    NodeValue {
        node: Node {
            parent: cell.node.parent,
            childs: vstd::array::spec_array_fill_for_copy_type::<Addr, N>(Addr::nil()),
        },
        value: cell.value,
    }
}

/// The node `cell` with the first slot that holds `from` emptied.
pub open spec fn unhook_cell<T, const N: usize>(
    cell: NodeValue<Node<N>, T>,
    from: Addr,
) -> NodeValue<Node<N>, T> {
    NodeValue {
        node: Node {
            parent: cell.node.parent,
            childs: if super::node::first_match(cell.node.childs@, from) < N {
                vstd::array::spec_array_update(
                    cell.node.childs,
                    super::node::first_match(cell.node.childs@, from),
                    Addr::nil(),
                )
            } else {
                cell.node.childs
            },
        },
        value: cell.value,
    }
}

/// The arena with the slots of the parents `parents` emptied, one after
/// the other.
pub open spec fn orphaned<T, const N: usize>(
    nodes: Seq<NodeValue<Node<N>, T>>,
    parents: Seq<Addr>,
) -> Seq<NodeValue<Node<N>, T>>
    decreases parents.len(),
{
    if parents.len() == 0 {
        nodes
    } else {
        let before = orphaned(nodes, parents.drop_last());
        before.update(parents.last().addr as int, empty_cell(before[parents.last().addr as int]))
    }
}

/// The parents that the nodes `list` have in `nodes`.
pub open spec fn parents_of<T, const N: usize>(
    nodes: Seq<NodeValue<Node<N>, T>>,
    list: Seq<Addr>,
) -> Seq<Addr> {
    Seq::new(list.len(), |i: int| nodes[list[i].addr as int].node.parent)
}

/// The arena after the subtree at `from` has been cut out: the slot of its
/// parent that held it is empty, it has no parent, and the slots of the
/// parent of every survivor are empty, so that the walk through the cut
/// subtree stops above the survivors.
pub open spec fn cut_arena<T, const N: usize>(
    nodes: Seq<NodeValue<Node<N>, T>>,
    from: Addr,
    survivors: Seq<Addr>,
) -> Seq<NodeValue<Node<N>, T>> {
    let p = nodes[from.addr as int].node.parent;
    let unhooked = if p.absent() {
        nodes
    } else {
        nodes.update(p.addr as int, unhook_cell(nodes[p.addr as int], from))
    };
    let detached = unhooked.update(from.addr as int, bare_cell(unhooked[from.addr as int]));
    orphaned(detached, parents_of(nodes, survivors))
}

/// A rewriting in place.  A subtree is cut out of the arena; its nodes are
/// given out again, from the leaves up, to whoever builds in its place; and
/// the nodes that are left over are removed in the end.
pub struct Recycle<'a, T: Copy, const MAX_CHILDS: usize> {
    tree: &'a mut Tree<T, MAX_CHILDS>,
    root: Addr,
    current_idx: Addr,
}

impl<'a, T: Copy, const MAX_CHILDS: usize> Recycle<'a, T, MAX_CHILDS> {
    /// The arena that is rewritten.
    pub closed spec fn arena(&self) -> Tree<T, MAX_CHILDS> {
        *self.tree
    }

    /// The node on which the walk through the cut subtree stands.
    pub closed spec fn position(&self) -> Addr {
        self.current_idx
    }

    /// The node under which the rewriting takes place.
    pub closed spec fn target(&self) -> Addr {
        self.root
    }

    /// The node under which the rewriting takes place: what was the parent
    /// of the cut subtree; the sentinel if the subtree was cut at a root.
    pub fn root(&self) -> (a: Addr)
        ensures
            a == self.target(),
    {
        self.root
    }

    /// A rewriting of `tree` that has cut nothing yet.
    pub fn new(tree: &'a mut Tree<T, MAX_CHILDS>) -> (r: Self)
        ensures
            r.arena() == *old(tree),
            r.position() == Addr::nil(),
            r.target() == Addr::nil(),
    {
        Recycle { tree, root: Addr::none(), current_idx: Addr::none() }
    }

    /// Cuts the subtree at `from_node` out of the arena; the subtrees at
    /// `until_nodes`, the survivors, are not part of what is cut.  Returns
    /// the parent of the cut subtree, the sentinel if it was a root.
    /// Fails, and changes nothing, where a node is missing or a link does
    /// not hold.
    #[verifier::loop_isolation(false)]
    pub fn cut(&mut self, from_node: Addr, until_nodes: &[Addr]) -> (r: Result<
        Addr,
        &'static str,
    >)
        ensures
            r is Ok <==> cut_fault(old(self).arena().nodes(), from_node, until_nodes@) is None,
            match r {
                Ok(p) => {
                    &&& p == old(self).arena().nodes()[from_node.addr as int].node.parent
                    &&& final(self).arena().nodes() == cut_arena(
                        old(self).arena().nodes(),
                        from_node,
                        until_nodes@,
                    )
                    &&& final(self).target() == p
                    &&& final(self).position() == from_node
                },
                Err(e) => {
                    &&& e@ == cut_text(
                        cut_fault(old(self).arena().nodes(), from_node, until_nodes@)->0,
                    )
                    &&& final(self).arena().nodes() == old(self).arena().nodes()
                    &&& final(self).target() == old(self).target()
                    &&& final(self).position() == old(self).position()
                },
            },
            final(self).arena().symbols() == old(self).arena().symbols(),
            final(self).arena().root() == old(self).arena().root(),
    {
        let ghost n0 = self.tree.nodes();
        let len: usize = self.tree.len();
        if from_node.addr >= len {
            return Err("This node doesn't exist");
        }
        let parent = self.tree.get(from_node).node.parent;
        if parent.is_addr() {
            if parent.addr >= len {
                return Err("input not found");
            }
            let mut probe = *self.tree.get(parent);
            proof {
                lemma_first_match_contains(probe.node.childs@, from_node);
            }
            if probe.node.replace_operand(from_node, Addr::none()).is_err() {
                return Err("input not found");
            }
        }
        let mut parents: Vec<Addr> = Vec::new();
        let mut i: usize = 0;
        proof {
            assert(until_nodes@.skip(0) =~= until_nodes@);
            assert(parents@ =~= parents_of(n0, until_nodes@.take(0)));
        }
        while i < until_nodes.len()
            invariant
                i <= until_nodes@.len(),
                parents@ == parents_of(n0, until_nodes@.take(i as int)),
                survivors_fault(n0, until_nodes@) == survivors_fault(n0, until_nodes@.skip(i as int)),
                forall|k: int| 0 <= k < i ==> (#[trigger] parents@[k]).addr < len,
            decreases until_nodes@.len() - i,
        {
            let s = until_nodes[i];
            proof {
                let rest = until_nodes@.skip(i as int);
                assert(rest[0] == s);
                assert(rest.skip(1) =~= until_nodes@.skip(i + 1));
            }
            if s.addr >= len {
                return Err("This node doesn't exist");
            }
            let q = self.tree.get(s).node.parent;
            if q.addr >= len {
                return Err("input not found");
            }
            parents.push(q);
            proof {
                assert(parents@ =~= parents_of(n0, until_nodes@.take(i + 1)));
            }
            i += 1;
        }
        proof {
            assert(until_nodes@.take(until_nodes@.len() as int) =~= until_nodes@);
            assert(until_nodes@.skip(until_nodes@.len() as int) =~= Seq::<Addr>::empty());
        }
        if parent.is_addr() {
            let mut cell = *self.tree.get(parent);
            let _ = cell.node.replace_operand(from_node, Addr::none());
            proof {
                lemma_first_match_contains(n0[parent.addr as int].node.childs@, from_node);
                assert(cell.node.childs =~= unhook_cell(n0[parent.addr as int], from_node).node.childs);
            }
            self.tree.set(parent, cell);
        }
        self.tree.replace_parent(from_node, Addr::none());
        let ghost detached = self.tree.nodes();
        let mut k: usize = 0;
        assert(parents@.take(0) =~= Seq::<Addr>::empty());
        while k < parents.len()
            invariant
                k <= parents@.len(),
                self.tree.nodes().len() == len,
                self.tree.nodes() == orphaned(detached, parents@.take(k as int)),
                self.tree.symbols() == old(self).tree.symbols(),
                self.tree.root() == old(self).tree.root(),
            decreases parents@.len() - k,
        {
            proof {
                let next = parents@.take(k + 1);
                assert(next.drop_last() =~= parents@.take(k as int));
                assert(next.last() == parents@[k as int]);
            }
            let mut cell = *self.tree.get(parents[k]);
            cell.node.remove_operands();
            proof {
                let before = self.tree.nodes()[parents@[k as int].addr as int];
                assert(cell.node.childs =~= empty_cell(before).node.childs) by {
                    assert(cell.node.childs@ =~= empty_cell(before).node.childs@);
                }
            }
            self.tree.set(parents[k], cell);
            k += 1;
        }
        assert(parents@.take(parents@.len() as int) =~= parents@);
        self.root = parent;
        self.current_idx = from_node;
        Ok(parent)
    }

    /// The next node of the cut subtree that can be used again; nothing
    /// when the walk has come to its end.
    pub fn next(&mut self) -> (r: Option<Addr>)
        ensures
            final(self).arena().nodes() == drained(
                old(self).arena().nodes(),
                old(self).position(),
            ).0,
            r == drained(old(self).arena().nodes(), old(self).position()).1,
            final(self).position() == drained(old(self).arena().nodes(), old(self).position()).2,
            final(self).target() == old(self).target(),
            final(self).arena().symbols() == old(self).arena().symbols(),
            final(self).arena().root() == old(self).arena().root(),
    {
        let len: usize = self.tree.len();
        loop
            invariant
                len == self.tree.nodes().len(),
                drained(self.tree.nodes(), self.current_idx) == drained(
                    old(self).tree.nodes(),
                    old(self).current_idx,
                ),
                self.root == old(self).root,
                self.tree.symbols() == old(self).tree.symbols(),
                self.tree.root() == old(self).tree.root(),
            decreases occupied(self.tree.nodes()),
        {
            let cur = self.current_idx;
            if cur.addr >= len {
                self.current_idx = Addr::none();
                return None;
            }
            let ghost before = self.tree.nodes();
            let mut cell = *self.tree.get(cur);
            proof {
                lemma_pop_cell(before[cur.addr as int]);
                lemma_first_occupied_finds(before[cur.addr as int].node.childs@);
            }
            let child = cell.node.pop_operand();
            if child.is_addr() {
                proof {
                    let slots = before[cur.addr as int].node.childs@;
                    lemma_filled_less(slots, first_occupied(slots));
                    lemma_occupied_update(before, cur.addr as int, pop_cell(before[cur.addr as int]));
                    assert(cell.node.childs =~= pop_cell(before[cur.addr as int]).node.childs);
                }
                self.tree.set(cur, cell);
                if child.addr < len {
                    self.current_idx = child;
                }
            } else {
                let up = cell.node.parent;
                proof {
                    assert(cell.node.childs@ =~= before[cur.addr as int].node.childs@);
                    assert(cell.node.childs =~= before[cur.addr as int].node.childs);
                }
                cell.node.unlink_parent();
                proof {
                    assert(cell == bare_cell(before[cur.addr as int]));
                }
                self.tree.set(cur, cell);
                self.current_idx = up;
                return Some(cur);
            }
        }
    }

    /// A node that carries `symbol` over `operands`: the next node of the
    /// cut subtree that can be used again, or a new node at the end of the
    /// arena when there is none.  The parent links of the operands are left
    /// as they are.
    pub fn push(&mut self, symbol: T, operands: &[Addr]) -> (a: Addr)
        ensures
            ({
                let step = drained(old(self).arena().nodes(), old(self).position());
                &&& final(self).position() == step.2
                &&& final(self).arena().nodes().len() == (if step.1 is Some {
                    step.0.len()
                } else {
                    step.0.len() + 1
                })
                &&& a == (match step.1 {
                    Some(idx) => idx,
                    None => Addr { addr: step.0.len() as usize },
                })
                &&& a.addr < final(self).arena().nodes().len()
                &&& final(self).arena().nodes()[a.addr as int].value == symbol
                &&& final(self).arena().nodes()[a.addr as int].node.parent == Addr::nil()
                &&& final(self).arena().nodes()[a.addr as int].node.childs@ == padded(
                    operands@,
                    MAX_CHILDS as nat,
                )
                &&& forall|i: int|
                    0 <= i < step.0.len() && i != a.addr
                        ==> #[trigger] final(self).arena().nodes()[i] == step.0[i]
            }),
            final(self).target() == old(self).target(),
            final(self).arena().symbols() == old(self).arena().symbols(),
            final(self).arena().root() == old(self).arena().root(),
    {
        proof {
            law_drained_is_bare(self.tree.nodes(), self.current_idx);
        }
        match self.next() {
            Some(idx) => {
                self.tree.set(idx, NodeValue { node: Node::new(operands), value: symbol });
                idx
            },
            None => {
                let a = self.tree.push(symbol, operands);
                proof {
                    self.tree.lemma_bounded();
                }
                a
            },
        }
    }

    /// A node that carries `symbol` over `operands`, as `push` gives it,
    /// made the parent of each of its operands.
    pub fn attach(&mut self, symbol: T, operands: &[Addr]) -> (a: Addr)
        ensures
            ({
                let step = drained(old(self).arena().nodes(), old(self).position());
                let kids = padded(operands@, MAX_CHILDS as nat);
                &&& final(self).position() == step.2
                &&& final(self).arena().nodes().len() == (if step.1 is Some {
                    step.0.len()
                } else {
                    step.0.len() + 1
                })
                &&& a == (match step.1 {
                    Some(idx) => idx,
                    None => Addr { addr: step.0.len() as usize },
                })
                &&& a.addr < final(self).arena().nodes().len()
                &&& final(self).arena().nodes()[a.addr as int].value == symbol
                &&& final(self).arena().nodes()[a.addr as int].node.childs@ == kids
                &&& final(self).arena().nodes()[a.addr as int].node.parent == (if kids.contains(a) {
                    a
                } else {
                    Addr::nil()
                })
                &&& forall|i: int|
                    0 <= i < step.0.len() && i != a.addr
                        ==> #[trigger] final(self).arena().nodes()[i] == (if kids.contains(
                        Addr { addr: i as usize },
                    ) {
                        with_parent(step.0[i], a)
                    } else {
                        step.0[i]
                    })
            }),
            final(self).target() == old(self).target(),
            final(self).arena().symbols() == old(self).arena().symbols(),
            final(self).arena().root() == old(self).arena().root(),
    {
        let ghost step = drained(self.tree.nodes(), self.current_idx);
        let ghost kids = padded(operands@, MAX_CHILDS as nat);
        let a = self.push(symbol, operands);
        let ghost pushed = self.tree.nodes();
        let len: usize = self.tree.len();
        let mut i: usize = 0;
        while i < MAX_CHILDS && i < operands.len()
            invariant
                i <= MAX_CHILDS,
                i <= operands@.len(),
                kids == padded(operands@, MAX_CHILDS as nat),
                a.addr < len,
                len == pushed.len(),
                self.tree.nodes().len() == len,
                self.current_idx == step.2,
                self.root == old(self).root,
                self.tree.symbols() == old(self).tree.symbols(),
                self.tree.root() == old(self).tree.root(),
                forall|k: int|
                    0 <= k < len ==> #[trigger] self.tree.nodes()[k] == (if kids.take(
                        i as int,
                    ).contains(Addr { addr: k as usize }) {
                        with_parent(pushed[k], a)
                    } else {
                        pushed[k]
                    }),
            decreases MAX_CHILDS - i,
        {
            let c: Addr = operands[i];
            let ghost seen = kids.take(i as int);
            let ghost next = kids.take(i + 1);
            proof {
                assert(kids[i as int] == c);
                assert(next =~= seen.push(c));
                assert forall|x: Addr| next.contains(x) <==> (seen.contains(x) || x == c) by {
                    if seen.contains(x) {
                        let j = choose|j: int| 0 <= j < seen.len() && seen[j] == x;
                        assert(next[j] == x);
                    }
                    if x == c {
                        assert(next[i as int] == x);
                    }
                }
            }
            if c.addr < len {
                self.tree.replace_parent(c, a);
            }
            i += 1;
        }
        proof {
            let seen = kids.take(i as int);
            assert forall|x: Addr| x.addr < len implies (seen.contains(x) <==> kids.contains(x)) by {
                if kids.contains(x) {
                    let j = choose|j: int| 0 <= j < kids.len() && kids[j] == x;
                    assert(j < i);
                    assert(seen[j] == x);
                }
                if seen.contains(x) {
                    let j = choose|j: int| 0 <= j < seen.len() && seen[j] == x;
                    assert(kids[j] == x);
                }
            }
        }
        a
    }

    /// Removes the node at `idx` by moving the last node into its place.
    /// The walk and the target follow a node that is moved.  Returns the
    /// address from which the node was moved.
    pub fn remove(&mut self, idx: Addr) -> (r: Result<Addr, &'static str>)
        ensures
            r is Ok <==> idx.addr < old(self).arena().nodes().len(),
            match r {
                Ok(moved) => {
                    &&& moved.addr == old(self).arena().nodes().len() - 1
                    &&& swap_removed(old(self).arena().nodes(), idx, final(self).arena().nodes())
                    &&& final(self).arena().root() == output_after(
                        old(self).arena().nodes().len(),
                        idx,
                        old(self).arena().root(),
                    )
                    &&& final(self).position() == relocated(
                        old(self).arena().nodes().len(),
                        idx,
                        old(self).position(),
                    )
                    &&& final(self).target() == relocated(
                        old(self).arena().nodes().len(),
                        idx,
                        old(self).target(),
                    )
                },
                Err(e) => {
                    &&& e@ == "This node doesn't exist"@
                    &&& final(self).arena().nodes() == old(self).arena().nodes()
                    &&& final(self).arena().root() == old(self).arena().root()
                    &&& final(self).position() == old(self).position()
                    &&& final(self).target() == old(self).target()
                },
            },
            final(self).arena().symbols() == old(self).arena().symbols(),
    {
        let len: usize = self.tree.len();
        match self.tree.remove(idx) {
            Ok(moved) => {
                if self.current_idx.addr == idx.addr {
                    self.current_idx = Addr::none();
                } else if self.current_idx.addr == moved.addr {
                    self.current_idx = idx;
                }
                if self.root.addr == idx.addr {
                    self.root = Addr::none();
                } else if self.root.addr == moved.addr {
                    self.root = idx;
                }
                Ok(moved)
            },
            Err(e) => Err(e),
        }
    }

    /// Ends the rewriting: removes the nodes of the cut subtree that were
    /// not used again, and hangs the node at `output`, the root of what was
    /// built, in the place of what was cut: under the target, in its first
    /// empty slot, or as the output of the arena if the cut was at a root.
    /// Returns the address of that node, which a removal may have moved;
    /// the sentinel if it is no node of the arena.
    pub fn finish(&mut self, output: Addr) -> (a: Addr)
        ensures
            ({
                let end = swept(
                    old(self).arena().nodes(),
                    old(self).position(),
                    old(self).target(),
                    output,
                    old(self).arena().root(),
                );
                &&& final(self).arena().nodes() == hung(end.0, end.1, end.2)
                &&& final(self).target() == end.1
                &&& a == (if end.2.addr < end.0.len() {
                    end.2
                } else {
                    Addr::nil()
                })
                &&& final(self).arena().root() == (if end.2.addr < end.0.len() && end.1.absent() {
                    end.2
                } else {
                    end.3
                })
                &&& final(self).position() == Addr::nil()
            }),
            final(self).arena().symbols() == old(self).arena().symbols(),
    {
        let mut out = output;
        loop
            invariant_except_break
                self.tree.symbols() == old(self).tree.symbols(),
                swept(
                    self.tree.nodes(),
                    self.current_idx,
                    self.root,
                    out,
                    self.tree.root(),
                ) == swept(
                    old(self).tree.nodes(),
                    old(self).current_idx,
                    old(self).root,
                    output,
                    old(self).tree.root(),
                ),
            ensures
                self.tree.symbols() == old(self).tree.symbols(),
                self.current_idx == Addr::nil(),
                (self.tree.nodes(), self.root, out, self.tree.root()) == swept(
                    old(self).tree.nodes(),
                    old(self).current_idx,
                    old(self).root,
                    output,
                    old(self).tree.root(),
                ),
            decreases self.tree.nodes().len(),
        {
            let ghost before = self.tree.nodes();
            let ghost cur = self.current_idx;
            proof {
                law_drained_is_bare(before, cur);
            }
            match self.next() {
                Some(idx) => {
                    let ghost mid = self.tree.nodes();
                    match self.remove(idx) {
                        Ok(moved) => {
                            proof {
                                lemma_swap_remove_map(mid, idx, self.tree.nodes());
                            }
                            if out.addr == idx.addr {
                                out = Addr::none();
                            } else if out.addr == moved.addr {
                                out = idx;
                            }
                        },
                        Err(_) => {},
                    }
                },
                None => {
                    break ;
                },
            }
        }
        let len: usize = self.tree.len();
        let ghost swept_nodes = self.tree.nodes();
        if out.addr >= len {
            return Addr::none();
        }
        if self.root.addr < len {
            self.tree.replace_parent(out, self.root);
            let mut cell = *self.tree.get(self.root);
            let ghost was = cell;
            let _ = cell.node.replace_operand(Addr::none(), out);
            proof {
                lemma_first_match_contains(was.node.childs@, Addr::nil());
                assert(cell.node.childs =~= hook_cell(was, out).node.childs);
            }
            self.tree.set(self.root, cell);
        } else if self.root.is_none() {
            self.tree.replace_parent(out, Addr::none());
            self.tree.set_output(out);
        }
        out
    }
}

/// The child slots of the node that is at `i` once the node at `a` has been
/// removed from `nodes` by moving the last node into its place.
pub open spec fn childs_after<T, const N: usize>(
    nodes: Seq<NodeValue<Node<N>, T>>,
    a: Addr,
    i: int,
) -> [Addr; N] {
    let moved = nodes.last();
    let last = Addr { addr: (nodes.len() - 1) as usize };
    if a.addr == nodes.len() - 1 {
        nodes[i].node.childs
    } else if i == a.addr {
        moved.node.childs
    } else if i == moved.node.parent.addr && super::node::first_match(
        nodes[i].node.childs@,
        last,
    ) < N {
        vstd::array::spec_array_update(
            nodes[i].node.childs,
            super::node::first_match(nodes[i].node.childs@, last),
            a,
        )
    } else {
        nodes[i].node.childs
    }
}

/// The arena after the node at `a` has been removed by moving the last
/// node into its place.
pub open spec fn swap_remove_map<T, const N: usize>(
    nodes: Seq<NodeValue<Node<N>, T>>,
    a: Addr,
) -> Seq<NodeValue<Node<N>, T>> {
    Seq::new(
        (nodes.len() - 1) as nat,
        |i: int|
            NodeValue {
                node: Node {
                    parent: super::tree::parent_after(nodes, a, i),
                    childs: childs_after(nodes, a, i),
                },
                value: super::tree::value_after(nodes, a, i),
            },
    )
}

/// What a swap-remove leaves is what `swap_remove_map` says.
pub proof fn lemma_swap_remove_map<T, const N: usize>(
    nodes: Seq<NodeValue<Node<N>, T>>,
    a: Addr,
    after: Seq<NodeValue<Node<N>, T>>,
)
    requires
        a.addr < nodes.len(),
        swap_removed(nodes, a, after),
    ensures
        after == swap_remove_map(nodes, a),
{
    let want = swap_remove_map(nodes, a);
    assert forall|i: int| 0 <= i < after.len() implies after[i] == want[i] by {
        assert(after[i].node.childs@ == super::tree::slots_after(nodes, a, i));
        let last = Addr { addr: (nodes.len() - 1) as usize };
        lemma_first_match_contains(nodes[i].node.childs@, last);
        assert(want[i].node.childs@ =~= super::tree::slots_after(nodes, a, i));
        assert(after[i].node.childs =~= want[i].node.childs);
    }
    assert(after =~= want);
}

/// The arena after the walk has come to its end and every node that it
/// gave out has been removed, with the places to which the target, the
/// node that was built and the output of the arena have been moved.
pub open spec fn swept<T, const N: usize>(
    nodes: Seq<NodeValue<Node<N>, T>>,
    cur: Addr,
    root: Addr,
    out: Addr,
    top: Addr,
) -> (Seq<NodeValue<Node<N>, T>>, Addr, Addr, Addr)
    decreases nodes.len(),
{
    let step = drained(nodes, cur);
    match step.1 {
        None => (step.0, root, out, top),
        Some(idx) => {
            proof {
                law_drained_is_bare(nodes, cur);
            }
            let len = step.0.len();
            swept(
                swap_remove_map(step.0, idx),
                relocated(len, idx, step.2),
                relocated(len, idx, root),
                relocated(len, idx, out),
                output_after(len, idx, top),
            )
        },
    }
}

/// The node `cell` with `out` in its first empty slot.
pub open spec fn hook_cell<T, const N: usize>(
    cell: NodeValue<Node<N>, T>,
    out: Addr,
) -> NodeValue<Node<N>, T> {
    NodeValue {
        node: Node {
            parent: cell.node.parent,
            childs: if super::node::first_match(cell.node.childs@, Addr::nil()) < N {
                vstd::array::spec_array_update(
                    cell.node.childs,
                    super::node::first_match(cell.node.childs@, Addr::nil()),
                    out,
                )
            } else {
                cell.node.childs
            },
        },
        value: cell.value,
    }
}

/// The arena with the node at `out` hung under the node at `root`: it has
/// `root` as its parent, and the first empty slot of `root` holds it.
/// Where `out` is no node nothing is hung; where `root` is the sentinel the
/// node at `out` becomes a root.
pub open spec fn hung<T, const N: usize>(
    nodes: Seq<NodeValue<Node<N>, T>>,
    root: Addr,
    out: Addr,
) -> Seq<NodeValue<Node<N>, T>> {
    if out.addr >= nodes.len() {
        nodes
    } else if root.addr < nodes.len() {
        let linked = nodes.update(out.addr as int, with_parent(nodes[out.addr as int], root));
        linked.update(root.addr as int, hook_cell(linked[root.addr as int], out))
    } else if root.absent() {
        nodes.update(out.addr as int, with_parent(nodes[out.addr as int], Addr::nil()))
    } else {
        nodes
    }
}

} // verus!
