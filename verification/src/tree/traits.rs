//! What an arena offers: a symbol table and a store of nodes.

use vstd::prelude::*;
use super::addr::Addr;
use super::node::{padded, LinkingNode};
use super::tree::NodeValue;

verus! {

/// The display name of the entry `id` of a symbol table that has no name of
/// its own: `x` and the entry's number, counted from one.
pub open spec fn anon_name(id: usize) -> Seq<char> {
    seq!['x'] + crate::text::decimal(id as nat + 1)
}

/// What `fmt_named` shows for entry `id` of the table `names`.
pub open spec fn shown_name(names: Seq<Option<Seq<char>>>, id: Addr) -> Seq<char> {
    if id.addr < names.len() && names[id.addr as int] is Some {
        names[id.addr as int]->0
    } else {
        anon_name(id.addr)
    }
}

/// A symbol table: entries numbered from zero, each with a name or anonymous,
/// and the way back from a name to its entry.
pub trait Mapping {
    /// The entries in order: the name of each, or `None` for an anonymous one.
    spec fn names(&self) -> Seq<Option<Seq<char>>>;

    /// The table's invariant: names and entries lead to each other.
    spec fn valid(&self) -> bool;

    /// The entry called `name`, made now if there was none.
    fn add_named(&mut self, name: &String) -> (a: Addr)
        requires
            old(self).valid(),
        ensures
            final(self).valid(),
            final(self).names() == (if old(self).names().contains(Some(name@)) {
                old(self).names()
            } else {
                old(self).names().push(Some(name@))
            }),
            a.addr < final(self).names().len(),
            final(self).names()[a.addr as int] == Some(name@),
            old(self).names().contains(Some(name@)) ==> old(self).names()[a.addr as int] == Some(
                name@,
            ),
            !old(self).names().contains(Some(name@)) ==> a.addr == old(self).names().len(),
    ;

    /// A new anonymous entry.
    fn add_anon(&mut self) -> (a: Addr)
        requires
            old(self).valid(),
        ensures
            final(self).valid(),
            final(self).names() == old(self).names().push(None),
            a.addr == old(self).names().len(),
    ;

    /// The entry called `name`; the sentinel if there is none.
    fn get_id(&self, name: &String) -> (a: Addr)
        requires
            self.valid(),
        ensures
            a.absent() <==> !self.names().contains(Some(name@)),
            !a.absent() ==> a.addr < self.names().len() && self.names()[a.addr as int] == Some(
                name@,
            ),
    ;

    /// The name of entry `id`; `None` for an anonymous entry and for an `id`
    /// that is no entry.
    fn get_named(&self, id: Addr) -> (name: Option<&String>)
        ensures
            match name {
                Some(s) => id.addr < self.names().len() && self.names()[id.addr as int] == Some(
                    s@,
                ),
                None => id.addr >= self.names().len() || self.names()[id.addr as int] is None,
            },
    ;

    /// The name under which entry `id` is displayed.
    fn fmt_named(&self, id: Addr) -> (s: String)
        ensures
            s@ == shown_name(self.names(), id),
    ;

    /// The number of entries, anonymous ones included.
    fn num_named(&self) -> (n: usize)
        ensures
            n == self.names().len(),
    ;
}

/// A store of nodes, each a link record with a symbol, addressed by position.
pub trait NodeAllocator {
    /// The symbols that nodes carry.
    type Value: Copy;

    /// The link records.
    type Node: LinkingNode;

    /// The nodes in order of address.
    spec fn cells(&self) -> Seq<NodeValue<Self::Node, Self::Value>>;

    /// Appends a root that carries `symbol` and whose slots hold `operands`,
    /// padded with the sentinel.  The parent links of the operands are left
    /// as they are.
    fn push(&mut self, symbol: Self::Value, operands: &[Addr]) -> (a: Addr)
        ensures
            a.addr == old(self).cells().len(),
            final(self).cells().len() == old(self).cells().len() + 1,
            final(self).cells().drop_last() == old(self).cells(),
            final(self).cells().last().value == symbol,
            final(self).cells().last().node.up() == Addr::nil(),
            final(self).cells().last().node.slots() == padded(
                operands@,
                final(self).cells().last().node.slots().len(),
            ),
    ;

    /// Removes the node at `idx` by moving the last node into its place.
    /// Returns the address that the moved node had.  Fails, and changes
    /// nothing, when `idx` is no node.
    fn remove(&mut self, idx: Addr) -> (r: Result<Addr, &'static str>)
        ensures
            r is Ok <==> idx.addr < old(self).cells().len(),
            r matches Ok(a) ==> a.addr == old(self).cells().len() - 1 && final(self).cells().len()
                == old(self).cells().len() - 1,
            r matches Err(e) ==> e@ == "This node doesn't exist"@ && final(self).cells() == old(self).cells(),
    ;
}

} // verus!
