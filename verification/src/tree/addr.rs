//! Addresses: opaque indices into an arena of nodes.

use vstd::prelude::*;
use vstd::std_specs::convert::FromSpecImpl;

verus! {

/// An index into an arena, or the sentinel that stands for "no node".
///
/// The sentinel is the largest machine word, so that every index a vector can
/// really have is a proper address.
#[derive(Debug, PartialEq, Eq, Clone, Copy, PartialOrd, Ord, Hash, Structural)]
pub struct Addr {
    pub addr: usize,
}

impl Addr {
    /// The sentinel, as a specification value.
    pub open spec fn nil() -> Addr {
        Addr { addr: usize::MAX }
    }

    /// Whether this address is the sentinel.
    pub open spec fn absent(&self) -> bool {
        self.addr == usize::MAX
    }

    /// Whether this address names slot `self.addr` of an arena of `len` slots.
    pub open spec fn within(&self, len: nat) -> bool {
        self.addr < len
    }

    /// The sentinel: "no child", "no parent", "no node".
    #[verifier::when_used_as_spec(nil)]
    pub fn none() -> (a: Addr)
        ensures
            a == Addr::nil(),
    {
        Addr { addr: usize::MAX }
    }

    /// The address of slot `addr`.
    #[inline(always)]
    pub fn new(addr: usize) -> (a: Addr)
        ensures
            a.addr == addr,
    {
        Addr { addr }
    }

    /// Whether this is the sentinel.
    #[inline(always)]
    #[verifier::when_used_as_spec(absent)]
    pub fn is_none(&self) -> (b: bool)
        ensures
            b == self.absent(),
    {
        self.addr == usize::MAX
    }

    /// Whether this is a proper address.
    #[inline(always)]
    pub fn is_addr(&self) -> (b: bool)
        ensures
            b == !self.absent(),
    {
        self.addr != usize::MAX
    }

    /// The numeric projection of the address.
    #[inline(always)]
    pub fn addr(&self) -> (n: usize)
        ensures
            n == self.addr,
    {
        self.addr
    }
}

impl Default for Addr {
    /// The default address is the sentinel.
    fn default() -> (a: Self)
        ensures
            a == Addr::nil(),
    {
        Addr::none()
    }
}

impl From<Option<usize>> for Addr {
    /// `Some(i)` is slot `i`; `None` is the sentinel.
    fn from(value: Option<usize>) -> (a: Self) {
        match value {
            Some(i) => Addr { addr: i },
            None => Addr::none(),
        }
    }
}

impl FromSpecImpl<Option<usize>> for Addr {
    open spec fn obeys_from_spec() -> bool {
        true
    }

    open spec fn from_spec(value: Option<usize>) -> Self {
        match value {
            Some(i) => Addr { addr: i },
            None => Addr::nil(),
        }
    }
}

impl From<Addr> for Option<usize> {
    /// A proper address is `Some` of its index; the sentinel is `None`.
    fn from(value: Addr) -> (o: Self) {
        if value.is_addr() {
            Some(value.addr)
        } else {
            None
        }
    }
}

impl FromSpecImpl<Addr> for Option<usize> {
    open spec fn obeys_from_spec() -> bool {
        true
    }

    open spec fn from_spec(value: Addr) -> Self {
        if value.absent() {
            None
        } else {
            Some(value.addr)
        }
    }
}

/// A read-only cursor: an arena together with the address of one of its nodes.
pub struct IndexedRef<'a, T> {
    pub array: &'a T,
    pub idx: Addr,
}

/// A cursor through which the arena can be changed.
pub struct IndexedMutRef<'a, T> {
    pub array: &'a mut T,
    pub idx: Addr,
}

impl<'a, T> IndexedMutRef<'a, T> {
    /// The arena behind the cursor.
    pub open spec fn arena(&self) -> T {
        *self.array
    }

    /// A read-only cursor at the same node of the same arena.
    pub fn get_ref(&self) -> (r: IndexedRef<'_, T>)
        ensures
            *r.array == self.arena(),
            r.idx == self.idx,
    {
        IndexedRef { array: &*self.array, idx: self.idx }
    }
}

} // verus!
