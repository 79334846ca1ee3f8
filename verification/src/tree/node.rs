//! The link record of a node: its parent and its child slots.

use vstd::prelude::*;
use super::addr::Addr;

verus! {

/// What the arena needs of a link record.  Every change of a parent or child
/// link goes through these operations.
pub trait LinkingNode: Sized {
    /// The parent link.
    spec fn up(&self) -> Addr;

    /// The child slots, in order.
    spec fn slots(&self) -> Seq<Addr>;

    /// The parent, or the sentinel for a root.
    fn parent(&self) -> (p: Addr)
        ensures
            p == self.up(),
    ;

    /// Forgets the parent.
    fn unlink_parent(&mut self)
        ensures
            final(self).up() == Addr::nil(),
            final(self).slots() == old(self).slots(),
    ;

    /// Sets the parent.
    fn replace_parent(&mut self, idx: Addr)
        ensures
            final(self).up() == idx,
            final(self).slots() == old(self).slots(),
    ;

    /// The child slots.
    fn operands(&self) -> (ops: &[Addr])
        ensures
            ops@ == self.slots(),
    ;

    /// Empties every child slot.
    fn remove_operands(&mut self)
        ensures
            final(self).up() == old(self).up(),
            final(self).slots() == cleared(old(self).slots().len()),
    ;

    /// Puts `new` into the first slot that holds `from`; an error, and no
    /// change, if none does.
    fn replace_operand(&mut self, from: Addr, new: Addr) -> (r: Result<(), &'static str>)
        ensures
            final(self).up() == old(self).up(),
            final(self).slots() == replace_first(old(self).slots(), from, new),
            r is Ok <==> old(self).slots().contains(from),
            r matches Err(e) ==> e@ == "input not found"@,
    ;

    /// Puts `new` into the slot at position `pos`.
    fn replace_operand_at(&mut self, pos: usize, new: Addr)
        requires
            pos < old(self).slots().len(),
        ensures
            final(self).up() == old(self).up(),
            final(self).slots() == old(self).slots().update(pos as int, new),
    ;

    /// Fills the slots with `new`, padded with the sentinel.
    fn replace_operands(&mut self, new: &[Addr])
        requires
            new@.len() <= old(self).slots().len(),
        ensures
            final(self).up() == old(self).up(),
            final(self).slots() == padded(new@, old(self).slots().len()),
    ;

    /// Empties the first occupied slot and returns what it held; the sentinel
    /// if every slot was empty.
    fn pop_operand(&mut self) -> (a: Addr)
        ensures
            final(self).up() == old(self).up(),
            a == first_present(old(self).slots()),
            final(self).slots() == popped(old(self).slots()),
    ;
}

/// `n` empty slots.
pub open spec fn cleared(n: nat) -> Seq<Addr> {
    Seq::new(n, |i: int| Addr::nil())
}

/// `ops` cut or padded with empty slots to length `n`.
pub open spec fn padded(ops: Seq<Addr>, n: nat) -> Seq<Addr> {
    Seq::new(n, |i: int| if i < ops.len() { ops[i] } else { Addr::nil() })
}

/// The position of the first slot that holds `from`; the number of slots if
/// none does.
pub open spec fn first_match(slots: Seq<Addr>, from: Addr) -> int
    decreases slots.len(),
{
    if slots.len() == 0 || slots[0] == from {
        0
    } else {
        1 + first_match(slots.skip(1), from)
    }
}

/// `slots` with its first occurrence of `from` replaced by `new`; `slots`
/// itself if `from` does not occur.
pub open spec fn replace_first(slots: Seq<Addr>, from: Addr, new: Addr) -> Seq<Addr> {
    if first_match(slots, from) < slots.len() {
        slots.update(first_match(slots, from), new)
    } else {
        slots
    }
}

/// The position of the first occupied slot; the number of slots if all are
/// empty.
pub open spec fn first_occupied(slots: Seq<Addr>) -> int
    decreases slots.len(),
{
    if slots.len() == 0 || !slots[0].absent() {
        0
    } else {
        1 + first_occupied(slots.skip(1))
    }
}

/// `slots` with its first occupied slot emptied.
pub open spec fn popped(slots: Seq<Addr>) -> Seq<Addr> {
    if first_occupied(slots) < slots.len() {
        slots.update(first_occupied(slots), Addr::nil())
    } else {
        slots
    }
}

/// The content of the first occupied slot; the sentinel if there is none.
pub open spec fn first_present(slots: Seq<Addr>) -> Addr {
    if first_occupied(slots) < slots.len() {
        slots[first_occupied(slots)]
    } else {
        Addr::nil()
    }
}

/// `first_match` is the first position that holds `from`.
pub proof fn lemma_first_match(slots: Seq<Addr>, from: Addr, i: int)
    requires
        0 <= i <= slots.len(),
        forall|j: int| 0 <= j < i ==> slots[j] != from,
        i < slots.len() ==> slots[i] == from,
    ensures
        first_match(slots, from) == i,
    decreases i,
{
    if i > 0 {
        let rest = slots.skip(1);
        assert forall|j: int| 0 <= j < i - 1 implies rest[j] != from by {
            assert(rest[j] == slots[j + 1]);
        }
        lemma_first_match(rest, from, i - 1);
    }
}

/// `first_occupied` is the first position that does not hold the sentinel.
pub proof fn lemma_first_occupied(slots: Seq<Addr>, i: int)
    requires
        0 <= i <= slots.len(),
        forall|j: int| 0 <= j < i ==> slots[j].absent(),
        i < slots.len() ==> !slots[i].absent(),
    ensures
        first_occupied(slots) == i,
    decreases i,
{
    if i > 0 {
        let rest = slots.skip(1);
        assert forall|j: int| 0 <= j < i - 1 implies rest[j].absent() by {
            assert(rest[j] == slots[j + 1]);
        }
        lemma_first_occupied(rest, i - 1);
    }
}

/// `slots` holds `from` exactly if `first_match` points into it.
pub proof fn lemma_first_match_contains(slots: Seq<Addr>, from: Addr)
    ensures
        0 <= first_match(slots, from) <= slots.len(),
        first_match(slots, from) < slots.len() <==> slots.contains(from),
        first_match(slots, from) < slots.len() ==> slots[first_match(slots, from)] == from,
        forall|j: int| 0 <= j < first_match(slots, from) ==> slots[j] != from,
    decreases slots.len(),
{
    if slots.len() == 0 || slots[0] == from {
        if slots.len() > 0 {
            assert(slots[0] == from);
        }
    } else {
        let rest = slots.skip(1);
        lemma_first_match_contains(rest, from);
        let k = first_match(rest, from);
        if k < rest.len() {
            assert(slots[k + 1] == rest[k]);
        }
        if slots.contains(from) {
            let j = choose|j: int| 0 <= j < slots.len() && slots[j] == from;
            assert(rest[j - 1] == from);
        }
        assert forall|j: int| 0 <= j < 1 + k implies slots[j] != from by {
            if j > 0 {
                assert(rest[j - 1] == slots[j]);
            }
        }
    }
}

/// A link record with `MAX_CHILDS` child slots.  Unused slots hold the
/// sentinel.
#[derive(Clone, Copy, Debug, PartialEq)]
pub struct Node<const MAX_CHILDS: usize> {
    pub parent: Addr,
    pub childs: [Addr; MAX_CHILDS],
}

impl<const MAX_CHILDS: usize> Node<MAX_CHILDS> {
    /// A root whose first slots hold `operands`, in order, and whose other
    /// slots are empty.  Operands beyond the last slot are left out.
    #[inline(always)]
    pub fn new(operands: &[Addr]) -> (n: Self)
        ensures
            n.parent == Addr::nil(),
            n.childs@ == padded(operands@, MAX_CHILDS as nat),
    {
        let mut childs = [Addr::none(); MAX_CHILDS];
        let mut i: usize = 0;
        while i < MAX_CHILDS
            invariant
                i <= MAX_CHILDS,
                childs@.len() == MAX_CHILDS,
                forall|j: int| 0 <= j < i ==> childs@[j] == padded(operands@, MAX_CHILDS as nat)[j],
            decreases MAX_CHILDS - i,
        {
            if i < operands.len() {
                childs[i] = operands[i];
            } else {
                childs[i] = Addr::none();
            }
            i += 1;
        }
        assert(childs@ =~= padded(operands@, MAX_CHILDS as nat));
        Node { parent: Addr::none(), childs }
    }
}

impl<const MAX_CHILDS: usize> Default for Node<MAX_CHILDS> {
    /// A root without children.
    #[inline(always)]
    fn default() -> (n: Self)
        ensures
            n.parent == Addr::nil(),
            n.childs@ == cleared(MAX_CHILDS as nat),
    {
        let mut n = Node { parent: Addr::none(), childs: [Addr::none(); MAX_CHILDS] };
        n.remove_operands();
        n
    }
}

impl<const MAX_CHILDS: usize> LinkingNode for Node<MAX_CHILDS> {
    open spec fn up(&self) -> Addr {
        self.parent
    }

    open spec fn slots(&self) -> Seq<Addr> {
        self.childs@
    }

    #[inline(always)]
    fn parent(&self) -> (p: Addr) {
        self.parent
    }

    #[inline(always)]
    fn unlink_parent(&mut self)
        ensures
            final(self).childs == old(self).childs,
    {
        self.parent = Addr::none();
    }

    #[inline(always)]
    fn replace_parent(&mut self, idx: Addr)
        ensures
            final(self).childs == old(self).childs,
    {
        self.parent = idx;
    }

    #[inline(always)]
    fn operands(&self) -> (ops: &[Addr]) {
        self.childs.as_slice()
    }

    #[inline(always)]
    fn remove_operands(&mut self) {
        let mut i: usize = 0;
        while i < MAX_CHILDS
            invariant
                i <= MAX_CHILDS,
                self.parent == old(self).parent,
                self.childs@.len() == MAX_CHILDS,
                forall|j: int| 0 <= j < i ==> self.childs@[j] == Addr::nil(),
            decreases MAX_CHILDS - i,
        {
            self.childs[i] = Addr::none();
            i += 1;
        }
        assert(self.childs@ =~= cleared(MAX_CHILDS as nat));
    }

    #[inline(always)]
    fn replace_operand(&mut self, from: Addr, new: Addr) -> (r: Result<(), &'static str>) {
        let mut i: usize = 0;
        while i < MAX_CHILDS
            invariant
                i <= MAX_CHILDS,
                *self == *old(self),
                self.childs@.len() == MAX_CHILDS,
                forall|j: int| 0 <= j < i ==> self.childs@[j] != from,
            decreases MAX_CHILDS - i,
        {
            if self.childs[i] == from {
                proof {
                    lemma_first_match(self.childs@, from, i as int);
                    lemma_first_match_contains(self.childs@, from);
                }
                self.childs[i] = new;
                return Ok(());
            }
            i += 1;
        }
        proof {
            lemma_first_match(self.childs@, from, MAX_CHILDS as int);
            lemma_first_match_contains(self.childs@, from);
        }
        Err("input not found")
    }

    #[inline(always)]
    fn replace_operand_at(&mut self, pos: usize, new: Addr) {
        self.childs[pos] = new;
    }

    #[inline(always)]
    fn replace_operands(&mut self, new: &[Addr]) {
        let mut i: usize = 0;
        while i < MAX_CHILDS
            invariant
                i <= MAX_CHILDS,
                new@.len() <= MAX_CHILDS,
                self.parent == old(self).parent,
                self.childs@.len() == MAX_CHILDS,
                forall|j: int| 0 <= j < i ==> self.childs@[j] == padded(new@, MAX_CHILDS as nat)[j],
            decreases MAX_CHILDS - i,
        {
            if i < new.len() {
                self.childs[i] = new[i];
            } else {
                self.childs[i] = Addr::none();
            }
            i += 1;
        }
        assert(self.childs@ =~= padded(new@, MAX_CHILDS as nat));
    }

    #[inline(always)]
    fn pop_operand(&mut self) -> (a: Addr) {
        let mut i: usize = 0;
        while i < MAX_CHILDS
            invariant
                i <= MAX_CHILDS,
                *self == *old(self),
                self.childs@.len() == MAX_CHILDS,
                forall|j: int| 0 <= j < i ==> self.childs@[j].absent(),
            decreases MAX_CHILDS - i,
        {
            if self.childs[i].is_addr() {
                proof {
                    lemma_first_occupied(self.childs@, i as int);
                }
                let held = self.childs[i];
                self.childs[i] = Addr::none();
                return held;
            }
            i += 1;
        }
        proof {
            lemma_first_occupied(self.childs@, MAX_CHILDS as int);
        }
        Addr::none()
    }
}

} // verus!
