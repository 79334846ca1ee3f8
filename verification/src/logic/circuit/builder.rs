//! Building circuits on an arena.

use vstd::prelude::*;
use vstd::string::*;
use super::{PCicruit, ProbabilisticCircuitTree, UNIT_WEIGHT};
use crate::tree::builder::{chain_top, chained, grown, kids_within};
use crate::tree::tree::added;
use crate::tree::{Addr, Mapping, Node, NodeAllocator, NodeValue};

verus! {

/// The addresses of weighted items.
pub open spec fn addrs_of(items: Seq<(Addr, u32)>) -> Seq<Addr> {
    Seq::new(items.len(), |i: int| items[i].0)
}

/// The symbol of the sum that takes the item `k` of a weighted chain into
/// it: its right weight is that of the item; its left weight is that of the
/// first item where it is the first sum of the chain, and one after that.
pub open spec fn link_sum(items: Seq<(Addr, u32)>, k: int) -> PCicruit {
    PCicruit::Sum {
        left: if k == 1 {
            items[0].1
        } else {
            UNIT_WEIGHT
        },
        right: items[k].1,
    }
}

/// The arena after the weighted items have been chained from the left by
/// sums: nothing is built for fewer than two items.
pub open spec fn summed(
    nodes: Seq<NodeValue<Node<2>, PCicruit>>,
    items: Seq<(Addr, u32)>,
) -> Seq<NodeValue<Node<2>, PCicruit>>
    decreases items.len(),
{
    if items.len() <= 1 {
        nodes
    } else {
        grown(
            summed(nodes, items.drop_last()),
            link_sum(items, items.len() - 1),
            chain_top(nodes.len(), addrs_of(items.drop_last())),
            items.last().0,
        )
    }
}

/// A weighted chain over `n` items appends `n - 1` nodes.
pub proof fn lemma_summed_len(nodes: Seq<NodeValue<Node<2>, PCicruit>>, items: Seq<(Addr, u32)>)
    ensures
        summed(nodes, items).len() == nodes.len() + (if items.len() <= 1 {
            0
        } else {
            items.len() - 1
        }),
    decreases items.len(),
{
    if items.len() > 1 {
        lemma_summed_len(nodes, items.drop_last());
    }
}

/// The constructors of circuits.  Each appends a node over children that are
/// there already and makes itself their parent.
pub trait PCMut: NodeAllocator<Value = PCicruit, Node = Node<2>> + Mapping + Sized {
    /// The positive leaf of the variable `id`.
    fn var(&mut self, id: Addr) -> (a: Addr)
        ensures
            a.addr == old(self).cells().len(),
            final(self).cells() == grown(
                old(self).cells(),
                PCicruit::Variable { id, neg: false },
                Addr::nil(),
                Addr::nil(),
            ),
            final(self).names() == old(self).names(),
            final(self).valid() == old(self).valid(),
    ;

    /// The negated leaf of the variable `id`.
    fn not_var(&mut self, id: Addr) -> (a: Addr)
        ensures
            a.addr == old(self).cells().len(),
            final(self).cells() == grown(
                old(self).cells(),
                PCicruit::Variable { id, neg: true },
                Addr::nil(),
                Addr::nil(),
            ),
            final(self).names() == old(self).names(),
            final(self).valid() == old(self).valid(),
    ;

    /// The leaf of the variable called `name`, negated if `neg` is set; the
    /// name is entered into the symbol table if it is not there.
    fn var_named(&mut self, name: &str, neg: bool) -> (a: Addr)
        requires
            old(self).valid(),
        ensures
            final(self).valid(),
            final(self).names() == added(old(self).names(), Some(name@)),
            a.addr == old(self).cells().len(),
            final(self).cells() == grown(
                old(self).cells(),
                final(self).cells().last().value,
                Addr::nil(),
                Addr::nil(),
            ),
            final(self).cells().last().value matches PCicruit::Variable { id, neg: sign }
                && sign == neg && id.addr < final(self).names().len()
                && final(self).names()[id.addr as int] == Some(name@),
    ;

    /// The product of the circuits at `left` and `right`.
    fn prod(&mut self, left: Addr, right: Addr) -> (a: Addr)
        requires
            left.absent() || left.addr < old(self).cells().len(),
            right.absent() || right.addr < old(self).cells().len(),
        ensures
            a.addr == old(self).cells().len(),
            final(self).cells() == grown(old(self).cells(), PCicruit::Product, left, right),
            final(self).names() == old(self).names(),
            final(self).valid() == old(self).valid(),
    ;

    /// The sum of the circuits at `left` and `right`, each with weight one.
    fn sum(&mut self, left: Addr, right: Addr) -> (a: Addr)
        requires
            left.absent() || left.addr < old(self).cells().len(),
            right.absent() || right.addr < old(self).cells().len(),
        ensures
            a.addr == old(self).cells().len(),
            final(self).cells() == grown(
                old(self).cells(),
                PCicruit::Sum { left: UNIT_WEIGHT, right: UNIT_WEIGHT },
                left,
                right,
            ),
            final(self).names() == old(self).names(),
            final(self).valid() == old(self).valid(),
    ;

    /// The sum of the circuits at `left` and `right` with the given weights.
    fn sum_w(&mut self, weight_left: u32, left: Addr, weight_right: u32, right: Addr) -> (a: Addr)
        requires
            left.absent() || left.addr < old(self).cells().len(),
            right.absent() || right.addr < old(self).cells().len(),
        ensures
            a.addr == old(self).cells().len(),
            final(self).cells() == grown(
                old(self).cells(),
                PCicruit::Sum { left: weight_left, right: weight_right },
                left,
                right,
            ),
            final(self).names() == old(self).names(),
            final(self).valid() == old(self).valid(),
    ;

    /// The product of the circuits at `items`, associated to the left and in
    /// their order; the sentinel if there are none.
    fn prod_n(&mut self, items: &[Addr]) -> (a: Addr)
        requires
            kids_within(items@, old(self).cells().len()),
        ensures
            a == chain_top(old(self).cells().len(), items@),
            final(self).cells() == chained(old(self).cells(), PCicruit::Product, items@),
            final(self).names() == old(self).names(),
            final(self).valid() == old(self).valid(),
    ;

    /// The sum of the weighted circuits at `items`, associated to the left
    /// and in their order; the sentinel if there are none.  The weight of
    /// the first item is the left weight of the first sum; every later sum
    /// has the left weight one.
    fn sum_n(&mut self, items: &[(Addr, u32)]) -> (a: Addr)
        requires
            kids_within(addrs_of(items@), old(self).cells().len()),
        ensures
            a == chain_top(old(self).cells().len(), addrs_of(items@)),
            final(self).cells() == summed(old(self).cells(), items@),
            final(self).names() == old(self).names(),
            final(self).valid() == old(self).valid(),
    ;
}

impl PCMut for ProbabilisticCircuitTree {
    #[inline(always)]
    fn var(&mut self, id: Addr) -> (a: Addr)
        ensures
            final(self).symbols() == old(self).symbols(),
            final(self).root() == old(self).root(),
    {
        self.attach_pair(PCicruit::Variable { id, neg: false }, Addr::none(), Addr::none())
    }

    #[inline(always)]
    fn not_var(&mut self, id: Addr) -> (a: Addr)
        ensures
            final(self).symbols() == old(self).symbols(),
            final(self).root() == old(self).root(),
    {
        self.attach_pair(PCicruit::Variable { id, neg: true }, Addr::none(), Addr::none())
    }

    fn var_named(&mut self, name: &str, neg: bool) -> (a: Addr)
        ensures
            final(self).root() == old(self).root(),
    {
        let owned = String::from_str(name);
        let id = self.add_named(&owned);
        self.attach_pair(PCicruit::Variable { id, neg }, Addr::none(), Addr::none())
    }

    #[inline(always)]
    fn prod(&mut self, left: Addr, right: Addr) -> (a: Addr)
        ensures
            final(self).symbols() == old(self).symbols(),
            final(self).root() == old(self).root(),
    {
        self.attach_pair(PCicruit::Product, left, right)
    }

    #[inline(always)]
    fn sum(&mut self, left: Addr, right: Addr) -> (a: Addr)
        ensures
            final(self).symbols() == old(self).symbols(),
            final(self).root() == old(self).root(),
    {
        self.attach_pair(PCicruit::Sum { left: UNIT_WEIGHT, right: UNIT_WEIGHT }, left, right)
    }

    #[inline(always)]
    fn sum_w(&mut self, weight_left: u32, left: Addr, weight_right: u32, right: Addr) -> (a: Addr)
        ensures
            final(self).symbols() == old(self).symbols(),
            final(self).root() == old(self).root(),
    {
        self.attach_pair(PCicruit::Sum { left: weight_left, right: weight_right }, left, right)
    }

    fn prod_n(&mut self, items: &[Addr]) -> (a: Addr)
        ensures
            final(self).symbols() == old(self).symbols(),
            final(self).root() == old(self).root(),
    {
        self.chain(PCicruit::Product, items)
    }

    fn sum_n(&mut self, items: &[(Addr, u32)]) -> (a: Addr)
        ensures
            final(self).symbols() == old(self).symbols(),
            final(self).root() == old(self).root(),
    {
        if items.len() == 0 {
            assert(addrs_of(items@).len() == 0);
            return Addr::none();
        }
        let mut current: Addr = items[0].0;
        let mut weight: u32 = items[0].1;
        let mut i: usize = 1;
        assert(addrs_of(items@.take(1)).len() == 1);
        while i < items.len()
            invariant
                1 <= i <= items@.len(),
                kids_within(addrs_of(items@), old(self).nodes().len()),
                current == chain_top(old(self).nodes().len(), addrs_of(items@.take(i as int))),
                weight == (if i == 1 {
                    items@[0].1
                } else {
                    UNIT_WEIGHT
                }),
                self.nodes() == summed(old(self).nodes(), items@.take(i as int)),
                self.symbols() == old(self).symbols(),
                self.root() == old(self).root(),
            decreases items@.len() - i,
        {
            proof {
                let next = items@.take(i + 1);
                assert(next.drop_last() =~= items@.take(i as int));
                assert(next.last() == items@[i as int]);
                assert(next[0] == items@[0]);
                lemma_summed_len(old(self).nodes(), items@.take(i as int));
                assert(addrs_of(items@)[i as int] == items@[i as int].0);
                assert(addrs_of(items@.take(i as int)).len() == i);
                if i > 1 {
                } else {
                    assert(addrs_of(items@.take(i as int))[0] == items@[0].0);
                    assert(addrs_of(items@)[0] == items@[0].0);
                }
            }
            let (inner, inner_weight) = items[i];
            current = self.attach_pair(
                PCicruit::Sum { left: weight, right: inner_weight },
                current,
                inner,
            );
            weight = UNIT_WEIGHT;
            i += 1;
            proof {
                assert(addrs_of(items@.take(i as int)).len() == i);
            }
        }
        assert(items@.take(items@.len() as int) =~= items@);
        current
    }
}

} // verus!
