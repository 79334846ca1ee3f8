//! The arena: a contiguous store of nodes with a symbol table and an output.

use vstd::prelude::*;
use vstd::hash_map::StringHashMap;
use vstd::string::*;
use super::addr::{Addr, IndexedMutRef, IndexedRef};
use super::node::{padded, replace_first, LinkingNode, Node};
use super::traits::{anon_name, Mapping, NodeAllocator};
use crate::text::push_decimal;

verus! {

/// A node of an arena: its link record and the symbol it carries.
#[derive(Clone, Copy, Debug, PartialEq)]
pub struct NodeValue<N: LinkingNode, T> {
    pub node: N,
    pub value: T,
}

/// The names of a table, as text.
pub open spec fn name_seq(named: Seq<Option<String>>) -> Seq<Option<Seq<char>>> {
    Seq::new(
        named.len(),
        |i: int|
            match named[i] {
                Some(s) => Some(s@),
                None => None,
            },
    )
}

/// The table and the way back from names agree: a name leads to the entry
/// that carries it, and every named entry is found under its name.
pub open spec fn in_sync(named: Seq<Option<String>>, mapping: Map<Seq<char>, usize>) -> bool {
    &&& forall|s: Seq<char>| #[trigger]
        mapping.contains_key(s) ==> mapping[s] < named.len() && name_seq(named)[mapping[s] as int]
            == Some(s)
    &&& forall|i: int|
        0 <= i < named.len() && (#[trigger] named[i]) is Some ==> mapping.contains_key(
            named[i]->0@,
        ) && mapping[named[i]->0@] == i
}

/// A name is in the table exactly if the way back knows it.
pub proof fn lemma_sync_contains(
    named: Seq<Option<String>>,
    mapping: Map<Seq<char>, usize>,
    name: Seq<char>,
)
    requires
        in_sync(named, mapping),
    ensures
        name_seq(named).contains(Some(name)) <==> mapping.contains_key(name),
{
    if name_seq(named).contains(Some(name)) {
        let i = choose|i: int| 0 <= i < name_seq(named).len() && name_seq(named)[i] == Some(name);
        assert(named[i] is Some);
    }
    if mapping.contains_key(name) {
        assert(name_seq(named)[mapping[name] as int] == Some(name));
    }
}

/// The table `base` after the entry `entry` has been added: a name that is
/// there already adds nothing.
pub open spec fn added(
    base: Seq<Option<Seq<char>>>,
    entry: Option<Seq<char>>,
) -> Seq<Option<Seq<char>>> {
    if entry is Some && base.contains(entry) {
        base
    } else {
        base.push(entry)
    }
}

/// The table `base` after the entries of `extra` have been added in order.
pub open spec fn merged(
    base: Seq<Option<Seq<char>>>,
    extra: Seq<Option<Seq<char>>>,
) -> Seq<Option<Seq<char>>>
    decreases extra.len(),
{
    if extra.len() == 0 {
        base
    } else {
        added(merged(base, extra.drop_last()), extra.last())
    }
}

/// No name stands twice in `names`.
pub open spec fn names_apart(names: Seq<Option<Seq<char>>>) -> bool {
    forall|i: int, j: int|
        0 <= i < names.len() && 0 <= j < names.len() && (#[trigger] names[i]) is Some && names[i]
            == #[trigger] names[j] ==> i == j
}

/// Adding the entries of a table without repeated names to the empty table
/// gives that table.
pub proof fn lemma_merged_onto_empty(extra: Seq<Option<Seq<char>>>)
    requires
        names_apart(extra),
    ensures
        merged(Seq::empty(), extra) == extra,
    decreases extra.len(),
{
    if extra.len() > 0 {
        let front = extra.drop_last();
        assert forall|i: int, j: int|
            0 <= i < front.len() && 0 <= j < front.len() && (#[trigger] front[i]) is Some
                && front[i] == #[trigger] front[j] implies i == j by {
            assert(extra[i] == front[i] && extra[j] == front[j]);
        }
        lemma_merged_onto_empty(front);
        if extra.last() is Some && front.contains(extra.last()) {
            let i = choose|i: int| 0 <= i < front.len() && front[i] == extra.last();
            assert(extra[i] == front[i]);
            assert(extra[extra.len() - 1] == extra.last());
        }
        assert(front.push(extra.last()) =~= extra);
    }
}

/// The node `cell` with the parent `p`.
pub open spec fn with_parent<T, const N: usize>(
    cell: NodeValue<Node<N>, T>,
    p: Addr,
) -> NodeValue<Node<N>, T> {
    NodeValue { node: Node { parent: p, childs: cell.node.childs }, value: cell.value }
}

/// The parent of the node that is at `i` once the node at `a` has been
/// removed from `nodes` by moving the last node into its place.
pub open spec fn parent_after<T, const N: usize>(
    nodes: Seq<NodeValue<Node<N>, T>>,
    a: Addr,
    i: int,
) -> Addr {
    let moved = nodes.last();
    if a.addr == nodes.len() - 1 {
        nodes[i].node.parent
    } else if i == a.addr {
        moved.node.parent
    } else if moved.node.childs@.contains(Addr { addr: i as usize }) {
        a
    } else {
        nodes[i].node.parent
    }
}

/// The child slots of the node that is at `i` after that removal.
pub open spec fn slots_after<T, const N: usize>(
    nodes: Seq<NodeValue<Node<N>, T>>,
    a: Addr,
    i: int,
) -> Seq<Addr> {
    let moved = nodes.last();
    if a.addr == nodes.len() - 1 {
        nodes[i].node.childs@
    } else if i == a.addr {
        moved.node.childs@
    } else if i == moved.node.parent.addr {
        replace_first(nodes[i].node.childs@, Addr { addr: (nodes.len() - 1) as usize }, a)
    } else {
        nodes[i].node.childs@
    }
}

/// The symbol of the node that is at `i` after that removal.
pub open spec fn value_after<T, const N: usize>(
    nodes: Seq<NodeValue<Node<N>, T>>,
    a: Addr,
    i: int,
) -> T {
    if i == a.addr {
        nodes.last().value
    } else {
        nodes[i].value
    }
}

/// `after` is `nodes` once the node at `a` has been removed by moving the
/// last node into its place: there is one node less; slot `a` holds the
/// moved node; the children of the moved node have `a` as their parent; the
/// first slot of its parent that held its old address holds `a`; everything
/// else is as it was.
pub open spec fn swap_removed<T, const N: usize>(
    nodes: Seq<NodeValue<Node<N>, T>>,
    a: Addr,
    after: Seq<NodeValue<Node<N>, T>>,
) -> bool {
    &&& after.len() == nodes.len() - 1
    &&& forall|i: int|
        0 <= i < after.len() ==> {
            &&& (#[trigger] after[i]).value == value_after(nodes, a, i)
            &&& after[i].node.parent == parent_after(nodes, a, i)
            &&& after[i].node.childs@ == slots_after(nodes, a, i)
        }
}

/// Where the address `r` of a node is found after the node at `a` has been
/// removed from an arena of `len` nodes: the removed node is nowhere, the
/// last node is at `a`, every other node is where it was.
pub open spec fn relocated(len: nat, a: Addr, r: Addr) -> Addr {
    if r == a {
        Addr::nil()
    } else if r.addr == len - 1 {
        a
    } else {
        r
    }
}

/// The output of an arena of `len` nodes after the node at `a` has been
/// removed: an output that was the last node follows it to `a`, any other
/// output is what it was.
pub open spec fn output_after(len: nat, a: Addr, r: Addr) -> Addr {
    if r.addr == len - 1 {
        a
    } else {
        r
    }
}

/// The symbol table of an arena: the entries in order, and the way back
/// from a name to its entry.
pub struct SymbolTable {
    named: Vec<Option<String>>,
    mapping: StringHashMap<usize>,
}

/// An arena of nodes that carry symbols of type `T` and have `MAX_CHILDS`
/// child slots, with the symbol table of the names they refer to and the
/// address of the output node.
pub struct Tree<T: Copy, const MAX_CHILDS: usize> {
    symbols: SymbolTable,
    nodes: Vec<NodeValue<Node<MAX_CHILDS>, T>>,
    output: Addr,
}

/// The entry of the table called `name`, made now if there was none.
fn table_add(
    named: &mut Vec<Option<String>>,
    mapping: &mut StringHashMap<usize>,
    name: &String,
) -> (a: Addr)
    requires
        in_sync(old(named)@, old(mapping)@),
    ensures
        in_sync(final(named)@, final(mapping)@),
        name_seq(final(named)@) == (if name_seq(old(named)@).contains(Some(name@)) {
            name_seq(old(named)@)
        } else {
            name_seq(old(named)@).push(Some(name@))
        }),
        a.addr < final(named)@.len(),
        name_seq(final(named)@)[a.addr as int] == Some(name@),
        name_seq(old(named)@).contains(Some(name@)) ==> name_seq(old(named)@)[a.addr as int]
            == Some(name@),
        !name_seq(old(named)@).contains(Some(name@)) ==> a.addr == old(named)@.len(),
{
    proof {
        lemma_sync_contains(named@, mapping@, name@);
    }
    let found: Option<usize> = match mapping.get(name.as_str()) {
        Some(i) => Some(*i),
        None => None,
    };
    match found {
        Some(i) => Addr::new(i),
        None => {
            let id: usize = named.len();
            named.push(Some(name.clone()));
            mapping.insert(name.clone(), id);
            assert(name_seq(named@) =~= name_seq(old(named)@).push(Some(name@)));
            assert forall|i: int|
                0 <= i < named@.len() && (#[trigger] named@[i]) is Some implies mapping@.contains_key(
                named@[i]->0@,
            ) && mapping@[named@[i]->0@] == i by {
                if i < id {
                    assert(old(named)@[i] is Some);
                    assert(name_seq(old(named)@)[i] == Some(named@[i]->0@));
                }
            }
            assert forall|s: Seq<char>| #[trigger] mapping@.contains_key(s) implies mapping@[s]
                < named@.len() && name_seq(named@)[mapping@[s] as int] == Some(s) by {
                if s != name@ {
                    assert(old(mapping)@.contains_key(s));
                }
            }
            Addr::new(id)
        },
    }
}

impl SymbolTable {
    /// The entries in order: the name of each, or `None` for an anonymous one.
    pub closed spec fn entries(&self) -> Seq<Option<Seq<char>>> {
        name_seq(self.named@)
    }

    /// Names and entries lead to each other.
    pub closed spec fn in_order(&self) -> bool {
        in_sync(self.named@, self.mapping@)
    }

    /// In a table that is in order no name stands twice.
    pub proof fn lemma_entries_apart(&self)
        requires
            self.in_order(),
        ensures
            names_apart(self.entries()),
    {
        let names = self.entries();
        assert forall|i: int, j: int|
            0 <= i < names.len() && 0 <= j < names.len() && (#[trigger] names[i]) is Some
                && names[i] == #[trigger] names[j] implies i == j by {
            assert(self.named@[i] is Some);
            assert(self.named@[j] is Some);
        }
    }

    /// The empty table.
    pub fn new() -> (t: Self)
        ensures
            t.in_order(),
            t.entries() == Seq::<Option<Seq<char>>>::empty(),
    {
        let t = SymbolTable { named: Vec::new(), mapping: StringHashMap::new() };
        assert(t.entries() =~= Seq::<Option<Seq<char>>>::empty());
        t
    }
}

impl Mapping for SymbolTable {
    open spec fn names(&self) -> Seq<Option<Seq<char>>> {
        self.entries()
    }

    open spec fn valid(&self) -> bool {
        self.in_order()
    }

    fn add_named(&mut self, name: &String) -> (a: Addr) {
        table_add(&mut self.named, &mut self.mapping, name)
    }

    fn add_anon(&mut self) -> (a: Addr) {
        let id: usize = self.named.len();
        self.named.push(None);
        proof {
            assert(name_seq(self.named@) =~= name_seq(old(self).named@).push(None));
            assert forall|i: int|
                0 <= i < self.named@.len() && (#[trigger] self.named@[i])
                    is Some implies self.mapping@.contains_key(self.named@[i]->0@)
                && self.mapping@[self.named@[i]->0@] == i by {
                assert(old(self).named@[i] is Some);
            }
        }
        Addr::new(id)
    }

    fn get_id(&self, name: &String) -> (a: Addr) {
        proof {
            lemma_sync_contains(self.named@, self.mapping@, name@);
        }
        let len: usize = self.named.len();
        match self.mapping.get(name.as_str()) {
            Some(i) => {
                assert(*i < len);
                Addr::new(*i)
            },
            None => Addr::none(),
        }
    }

    fn get_named(&self, id: Addr) -> (name: Option<&String>) {
        if id.addr < self.named.len() {
            self.named[id.addr].as_ref()
        } else {
            None
        }
    }

    fn num_named(&self) -> (n: usize) {
        self.named.len()
    }

    fn fmt_named(&self, id: Addr) -> (s: String) {
        match self.get_named(id) {
            Some(name) => name.clone(),
            None => {
                let mut s = String::from_str("x");
                proof {
                    reveal_strlit("x");
                }
                push_decimal(&mut s, id.addr as u128 + 1);
                assert(s@ =~= anon_name(id.addr));
                s
            },
        }
    }
}

impl<T: Copy, const MAX_CHILDS: usize> Tree<T, MAX_CHILDS> {
    /// The nodes in order of address.
    pub closed spec fn nodes(&self) -> Seq<NodeValue<Node<MAX_CHILDS>, T>> {
        self.nodes@
    }

    /// The address of the output node; the sentinel while there is none.
    pub closed spec fn root(&self) -> Addr {
        self.output
    }

    /// The symbol table.
    pub closed spec fn symbols(&self) -> SymbolTable {
        self.symbols
    }

    /// The names of the symbol table: one per entry, `None` for an anonymous
    /// entry.
    pub open spec fn table(&self) -> Seq<Option<Seq<char>>> {
        self.symbols().entries()
    }

    /// The symbol table's invariant holds.
    pub open spec fn wf(&self) -> bool {
        self.symbols().in_order()
    }

    /// An arena has no more nodes than a machine word can count, so the
    /// sentinel is the address of none of them.
    pub proof fn lemma_bounded(&self)
        ensures
            self.nodes().len() <= usize::MAX,
    {
        assert(self.nodes@.len() == self.nodes.len());
    }

    /// An arena without nodes or names, and without an output.
    pub fn new() -> (tree: Self)
        ensures
            tree.wf(),
            tree.nodes() == Seq::<NodeValue<Node<MAX_CHILDS>, T>>::empty(),
            tree.table() == Seq::<Option<Seq<char>>>::empty(),
            tree.root() == Addr::nil(),
    {
        Tree { symbols: SymbolTable::new(), nodes: Vec::new(), output: Addr::none() }
    }

    /// A cursor at the output node.
    pub fn output<'a>(&'a self) -> (r: IndexedRef<'a, Self>)
        ensures
            *r.array == *self,
            r.idx == self.root(),
    {
        IndexedRef { array: self, idx: self.output }
    }

    /// The address of the output node.
    pub fn output_addr(&self) -> (a: Addr)
        ensures
            a == self.root(),
    {
        self.output
    }

    /// Makes `a` the output.
    pub fn set_output(&mut self, a: Addr)
        ensures
            final(self).root() == a,
            final(self).nodes() == old(self).nodes(),
            final(self).symbols() == old(self).symbols(),
    {
        self.output = a;
    }

    /// Adds the entries of the symbol table of `other`, in order: a name
    /// that is there already is not added again.
    pub fn copy_named<U: Copy, const M: usize>(&mut self, other: &Tree<U, M>)
        requires
            old(self).wf(),
        ensures
            final(self).wf(),
            final(self).table() == merged(old(self).table(), other.table()),
            final(self).nodes() == old(self).nodes(),
            final(self).root() == old(self).root(),
    {
        let n: usize = other.num_named();
        let mut i: usize = 0;
        assert(other.table().take(0) =~= Seq::<Option<Seq<char>>>::empty());
        while i < n
            invariant
                i <= n,
                n == other.table().len(),
                self.wf(),
                self.table() == merged(old(self).table(), other.table().take(i as int)),
                self.nodes() == old(self).nodes(),
                self.root() == old(self).root(),
            decreases n - i,
        {
            proof {
                let next = other.table().take(i + 1);
                assert(next.drop_last() =~= other.table().take(i as int));
                assert(next.last() == other.table()[i as int]);
            }
            match other.get_named(Addr::new(i)) {
                Some(name) => {
                    self.add_named(name);
                },
                None => {
                    self.add_anon();
                },
            }
            i += 1;
        }
        assert(other.table().take(n as int) =~= other.table());
    }

    /// A copy of the arena: the same nodes, the same symbol table, the same
    /// output.
    pub fn duplicate(&self) -> (copy: Self)
        requires
            self.wf(),
        ensures
            copy.wf(),
            copy.nodes() == self.nodes(),
            copy.table() == self.table(),
            copy.root() == self.root(),
    {
        let mut copy: Self = Tree::new();
        proof {
            self.symbols().lemma_entries_apart();
            lemma_merged_onto_empty(self.table());
        }
        copy.copy_named(self);
        let mut i: usize = 0;
        while i < self.nodes.len()
            invariant
                i <= self.nodes@.len(),
                copy.wf(),
                copy.table() == self.table(),
                copy.nodes@ == self.nodes@.take(i as int),
                copy.output == Addr::nil(),
            decreases self.nodes@.len() - i,
        {
            copy.nodes.push(self.nodes[i]);
            proof {
                assert(self.nodes@.take(i + 1) =~= self.nodes@.take(i as int).push(self.nodes@[i as int]));
            }
            i += 1;
        }
        assert(self.nodes@.take(self.nodes@.len() as int) =~= self.nodes@);
        copy.output = self.output;
        copy
    }

    /// The number of nodes.
    pub fn len(&self) -> (n: usize)
        ensures
            n == self.nodes().len(),
    {
        self.nodes.len()
    }

    /// The node at `a`.
    pub fn get(&self, a: Addr) -> (cell: &NodeValue<Node<MAX_CHILDS>, T>)
        requires
            a.addr < self.nodes().len(),
        ensures
            *cell == self.nodes()[a.addr as int],
    {
        &self.nodes[a.addr]
    }

    /// Replaces the node at `a` by `cell`.
    pub fn set(&mut self, a: Addr, cell: NodeValue<Node<MAX_CHILDS>, T>)
        requires
            a.addr < old(self).nodes().len(),
        ensures
            final(self).nodes() == old(self).nodes().update(a.addr as int, cell),
            final(self).symbols() == old(self).symbols(),
            final(self).root() == old(self).root(),
    {
        self.nodes[a.addr] = cell;
    }

    /// Sets the parent of the node at `a`.
    pub fn replace_parent(&mut self, a: Addr, parent: Addr)
        requires
            a.addr < old(self).nodes().len(),
        ensures
            final(self).nodes() == old(self).nodes().update(
                a.addr as int,
                with_parent(old(self).nodes()[a.addr as int], parent),
            ),
            final(self).symbols() == old(self).symbols(),
            final(self).root() == old(self).root(),
    {
        let mut cell = self.nodes[a.addr];
        cell.node.replace_parent(parent);
        self.set(a, cell);
    }

    /// Gives the node at `a` the symbol `value` and the children `operands`,
    /// padded with the sentinel; its parent stays.
    pub fn rewrite(&mut self, a: Addr, value: T, operands: &[Addr])
        requires
            a.addr < old(self).nodes().len(),
            operands@.len() <= MAX_CHILDS,
        ensures
            final(self).nodes().len() == old(self).nodes().len(),
            forall|i: int|
                0 <= i < old(self).nodes().len() && i != a.addr ==> final(self).nodes()[i] == old(
                    self,
                ).nodes()[i],
            final(self).nodes()[a.addr as int].value == value,
            final(self).nodes()[a.addr as int].node.parent == old(self).nodes()[a.addr
                as int].node.parent,
            final(self).nodes()[a.addr as int].node.childs@ == padded(
                operands@,
                MAX_CHILDS as nat,
            ),
            final(self).symbols() == old(self).symbols(),
            final(self).root() == old(self).root(),
    {
        let mut cell = self.nodes[a.addr];
        cell.node.replace_operands(operands);
        cell.value = value;
        self.set(a, cell);
    }
}

impl<'a, T: Copy, const MAX_CHILDS: usize> IndexedRef<'a, Tree<T, MAX_CHILDS>> {
    /// The cursor stands on a node of its arena.
    pub open spec fn on_cell(&self) -> bool {
        self.idx.addr < self.array.nodes().len()
    }

    /// The node under the cursor.
    pub fn as_ref(&self) -> (cell: &'a NodeValue<Node<MAX_CHILDS>, T>)
        requires
            self.on_cell(),
        ensures
            *cell == self.array.nodes()[self.idx.addr as int],
    {
        self.array.get(self.idx)
    }
}

impl<'a, T: Copy, const MAX_CHILDS: usize> IndexedMutRef<'a, Tree<T, MAX_CHILDS>> {
    /// The cursor stands on a node of its arena.
    pub open spec fn on_cell(&self) -> bool {
        self.idx.addr < self.arena().nodes().len()
    }

    /// The node under the cursor.
    pub fn as_ref(&self) -> (cell: &NodeValue<Node<MAX_CHILDS>, T>)
        requires
            self.on_cell(),
        ensures
            *cell == self.arena().nodes()[self.idx.addr as int],
    {
        self.array.get(self.idx)
    }

    /// Gives the node under the cursor the symbol `value`.
    pub fn set_value(&mut self, value: T)
        requires
            old(self).on_cell(),
        ensures
            final(self).idx == old(self).idx,
            final(self).arena().nodes() == old(self).arena().nodes().update(
                old(self).idx.addr as int,
                NodeValue { node: old(self).arena().nodes()[old(self).idx.addr as int].node, value },
            ),
            final(self).arena().symbols() == old(self).arena().symbols(),
            final(self).arena().root() == old(self).arena().root(),
    {
        let mut cell = *self.array.get(self.idx);
        cell.value = value;
        self.array.set(self.idx, cell);
    }
}

impl<T: Copy, const MAX_CHILDS: usize> Default for Tree<T, MAX_CHILDS> {
    /// The empty arena.
    fn default() -> (tree: Self)
        ensures
            tree.wf(),
            tree.nodes() == Seq::<NodeValue<Node<MAX_CHILDS>, T>>::empty(),
            tree.table() == Seq::<Option<Seq<char>>>::empty(),
            tree.root() == Addr::nil(),
    {
        Tree::new()
    }
}

impl<T: Copy, const MAX_CHILDS: usize> std::ops::Index<Addr> for Tree<T, MAX_CHILDS> {
    type Output = NodeValue<Node<MAX_CHILDS>, T>;

    /// The node at `index`.
    #[inline]
    fn index(&self, index: Addr) -> (cell: &Self::Output)
        ensures
            *cell == self.nodes()[index.addr as int],
    {
        &self.nodes[index.addr]
    }
}

impl<T: Copy, const MAX_CHILDS: usize> vstd::std_specs::core::IndexSpecImpl<Addr> for Tree<T, MAX_CHILDS> {
    open spec fn index_req(&self, index: &Addr) -> bool {
        index.addr < self.nodes().len()
    }
}

impl<T: Copy, const MAX_CHILDS: usize> NodeAllocator for Tree<T, MAX_CHILDS> {
    type Value = T;

    type Node = Node<MAX_CHILDS>;

    open spec fn cells(&self) -> Seq<NodeValue<Node<MAX_CHILDS>, T>> {
        self.nodes()
    }

    fn push(&mut self, symbol: T, operands: &[Addr]) -> (a: Addr)
        ensures
            final(self).nodes() == old(self).nodes().push(
                NodeValue {
                    node: Node { parent: Addr::nil(), childs: final(self).nodes().last().node.childs },
                    value: symbol,
                },
            ),
            final(self).nodes().last().node.childs@ == padded(operands@, MAX_CHILDS as nat),
            final(self).symbols() == old(self).symbols(),
            final(self).root() == old(self).root(),
    {
        let idx: usize = self.nodes.len();
        self.nodes.push(NodeValue { node: Node::new(operands), value: symbol });
        assert(self.nodes@.drop_last() =~= old(self).nodes@);
        Addr::new(idx)
    }

    fn remove(&mut self, idx: Addr) -> (r: Result<Addr, &'static str>)
        ensures
            r is Ok ==> swap_removed(old(self).nodes(), idx, final(self).nodes()),
            r is Ok ==> final(self).root() == output_after(
                old(self).nodes().len(),
                idx,
                old(self).root(),
            ),
            r is Err ==> final(self).root() == old(self).root(),
            final(self).symbols() == old(self).symbols(),
    {
        let len: usize = self.nodes.len();
        if idx.addr >= len {
            return Err("This node doesn't exist");
        }
        let last: usize = len - 1;
        let moved = self.nodes[last];
        self.nodes.pop();
        let ghost before = old(self).nodes@;
        assert(self.nodes@ =~= before.drop_last());
        if idx.addr < last {
            let mut i: usize = 0;
            while i < MAX_CHILDS
                invariant
                    i <= MAX_CHILDS,
                    idx.addr < last,
                    last == before.len() - 1,
                    moved == before.last(),
                    moved.node.childs@.len() == MAX_CHILDS,
                    self.nodes@.len() == last,
                    forall|k: int|
                        0 <= k < last ==> {
                            &&& (#[trigger] self.nodes@[k]).value == before[k].value
                            &&& self.nodes@[k].node.childs == before[k].node.childs
                            &&& self.nodes@[k].node.parent == (if moved.node.childs@.take(
                                i as int,
                            ).contains(Addr { addr: k as usize }) {
                                idx
                            } else {
                                before[k].node.parent
                            })
                        },
                    self.symbols == old(self).symbols,
                    self.output == old(self).output,
                decreases MAX_CHILDS - i,
            {
                let c: Addr = moved.node.childs[i];
                let ghost seen = moved.node.childs@.take(i as int);
                let ghost next = moved.node.childs@.take(i + 1);
                assert(next =~= seen.push(c));
                assert forall|a: Addr| next.contains(a) <==> (seen.contains(a) || a == c) by {
                    if seen.contains(a) {
                        let j = choose|j: int| 0 <= j < seen.len() && seen[j] == a;
                        assert(next[j] == a);
                    }
                    if a == c {
                        assert(next[i as int] == a);
                    }
                }
                if c.addr < last {
                    let mut cell = self.nodes[c.addr];
                    cell.node.replace_parent(idx);
                    self.nodes[c.addr] = cell;
                }
                i += 1;
            }
            assert(moved.node.childs@.take(MAX_CHILDS as int) =~= moved.node.childs@);
            let p: Addr = moved.node.parent;
            if p.addr < last {
                let mut cell = self.nodes[p.addr];
                let _ = cell.node.replace_operand(Addr::new(last), idx);
                self.nodes[p.addr] = cell;
            }
            self.nodes[idx.addr] = moved;
        }
        if self.output.addr == last {
            self.output = idx;
        }
        Ok(Addr::new(last))
    }
}

impl<T: Copy, const MAX_CHILDS: usize> Mapping for Tree<T, MAX_CHILDS> {
    open spec fn names(&self) -> Seq<Option<Seq<char>>> {
        self.table()
    }

    open spec fn valid(&self) -> bool {
        self.wf()
    }

    fn add_named(&mut self, name: &String) -> (a: Addr)
        ensures
            final(self).nodes() == old(self).nodes(),
            final(self).root() == old(self).root(),
    {
        self.symbols.add_named(name)
    }

    fn add_anon(&mut self) -> (a: Addr)
        ensures
            final(self).nodes() == old(self).nodes(),
            final(self).root() == old(self).root(),
    {
        self.symbols.add_anon()
    }

    fn get_id(&self, name: &String) -> (a: Addr) {
        self.symbols.get_id(name)
    }

    fn get_named(&self, id: Addr) -> (name: Option<&String>) {
        self.symbols.get_named(id)
    }

    fn num_named(&self) -> (n: usize) {
        self.symbols.num_named()
    }

    fn fmt_named(&self, id: Addr) -> (s: String) {
        self.symbols.fmt_named(id)
    }
}

} // verus!
