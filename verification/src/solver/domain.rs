//! Finite domains.

use vstd::prelude::*;
use crate::tree::Addr;

verus! {

/// A finite domain: how many values it has, and all of them in order.
pub trait Domain {
    /// The type of the values.
    type Type;

    /// The values in order.
    spec fn values(&self) -> Seq<Self::Type>;

    /// All values of the domain, in order.
    fn iter(&self) -> (all: Vec<Self::Type>)
        ensures
            all@ == self.values(),
    ;

    /// The number of values.
    fn card(&self) -> (n: usize)
        ensures
            n == self.values().len(),
    ;
}

/// The domain of the two truth values.
pub struct Boolean {}

impl Domain for Boolean {
    type Type = bool;

    open spec fn values(&self) -> Seq<bool> {
        seq![false, true]
    }

    fn iter(&self) -> (all: Vec<bool>) {
        let mut all: Vec<bool> = Vec::new();
        all.push(false);
        all.push(true);
        assert(all@ =~= seq![false, true]);
        all
    }

    fn card(&self) -> (n: usize) {
        2
    }
}

/// The logical variables `vars` range over the numbers below `card`.
#[derive(Debug, Clone)]
pub struct Integer {
    pub vars: Vec<Addr>,
    pub card: usize,
}

/// What an integer domain is: its variables in order, and its size.
pub struct Range {
    pub vars: Seq<Addr>,
    pub card: nat,
}

impl View for Integer {
    type V = Range;

    open spec fn view(&self) -> Range {
        Range { vars: self.vars@, card: self.card as nat }
    }
}

impl Integer {
    /// The domain has `var` among its variables.
    pub open spec fn has(&self, var: Addr) -> bool {
        self.vars@.contains(var)
    }

    /// The two domains have the same variables in the same order and the
    /// same number of values.
    pub open spec fn same(&self, other: &Integer) -> bool {
        self@ == other@
    }

    /// Whether `var` is among the variables of the domain.
    pub fn contains(&self, var: Addr) -> (b: bool)
        ensures
            b == self.has(var),
    {
        let mut i: usize = 0;
        while i < self.vars.len()
            invariant
                i <= self.vars@.len(),
                forall|j: int| 0 <= j < i ==> self.vars@[j] != var,
            decreases self.vars@.len() - i,
        {
            if self.vars[i].addr == var.addr {
                return true;
            }
            i += 1;
        }
        false
    }

    /// Whether the two domains have the same variables in the same order and
    /// the same number of values.
    pub fn same_as(&self, other: &Integer) -> (b: bool)
        ensures
            b == self.same(other),
    {
        if self.card != other.card || self.vars.len() != other.vars.len() {
            return false;
        }
        let mut i: usize = 0;
        while i < self.vars.len()
            invariant
                i <= self.vars@.len(),
                self.vars@.len() == other.vars@.len(),
                forall|j: int| 0 <= j < i ==> self.vars@[j] == other.vars@[j],
            decreases self.vars@.len() - i,
        {
            if self.vars[i].addr != other.vars[i].addr {
                return false;
            }
            i += 1;
        }
        assert(self.vars@ =~= other.vars@);
        true
    }

    /// A copy of the domain.
    pub fn copy(&self) -> (d: Integer)
        ensures
            d.same(self),
    {
        let mut vars: Vec<Addr> = Vec::new();
        let mut i: usize = 0;
        while i < self.vars.len()
            invariant
                i <= self.vars@.len(),
                vars@ == self.vars@.take(i as int),
            decreases self.vars@.len() - i,
        {
            vars.push(self.vars[i]);
            assert(self.vars@.take(i + 1) =~= self.vars@.take(i as int).push(self.vars@[i as int]));
            i += 1;
        }
        assert(self.vars@.take(self.vars@.len() as int) =~= self.vars@);
        Integer { vars, card: self.card }
    }
}

impl PartialEq for Integer {
    fn eq(&self, other: &Integer) -> (b: bool) {
        self.same_as(other)
    }
}

impl vstd::std_specs::cmp::PartialEqSpecImpl for Integer {
    open spec fn obeys_eq_spec() -> bool {
        true
    }

    open spec fn eq_spec(&self, other: &Integer) -> bool {
        self.same(other)
    }
}

impl Domain for Integer {
    type Type = usize;

    open spec fn values(&self) -> Seq<usize> {
        Seq::new(self.card as nat, |i: int| i as usize)
    }

    fn iter(&self) -> (all: Vec<usize>) {
        let mut all: Vec<usize> = Vec::new();
        let mut i: usize = 0;
        while i < self.card
            invariant
                i <= self.card,
                all@.len() == i,
                forall|j: int| 0 <= j < i ==> all@[j] == j,
            decreases self.card - i,
        {
            all.push(i);
            i += 1;
        }
        assert(all@ =~= self.values());
        all
    }

    fn card(&self) -> (n: usize) {
        self.card
    }
}

} // verus!
