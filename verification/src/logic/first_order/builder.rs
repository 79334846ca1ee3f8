//! Building first-order formulas on an arena.

use vstd::prelude::*;
use vstd::string::*;
use super::{atom_of, chain_of, FOLogic, FirstOrderTree};
use crate::tree::builder::{grown, lemma_planted_unary, planted, size_of, top_of};

use crate::tree::tree::{added, merged};
use crate::tree::{Addr, Mapping, Node, NodeAllocator};

verus! {

/// The number of nodes of a chain of arguments is the number of arguments.
pub proof fn lemma_chain_size(vars: Seq<Addr>)
    ensures
        size_of(chain_of(vars)) == vars.len(),
        vars.len() > 0 ==> !(chain_of(vars) is Empty),
    decreases vars.len(),
{
    reveal_with_fuel(crate::tree::reading::size, 2);
    if vars.len() > 0 {
        lemma_chain_size(vars.skip(1));
    }
}

/// The constructors of first-order formulas.  Each appends a node over
/// children that are there already and makes itself their parent.
pub trait FOMut: NodeAllocator<Value = FOLogic, Node = Node<2>> + Mapping + Sized {
    /// The predicate `id` applied to the variables `vars_id`: the last
    /// argument is built first, the head last.
    fn pred(&mut self, id: Addr, vars_id: &[Addr]) -> (a: Addr)
        ensures
            a == top_of(old(self).cells().len(), atom_of(id, vars_id@)),
            final(self).cells() == planted(old(self).cells(), atom_of(id, vars_id@)),
            final(self).cells().len() == old(self).cells().len() + vars_id@.len() + 1,
            final(self).names() == old(self).names(),
            final(self).valid() == old(self).valid(),
    ;

    /// The universal quantification of the formula at `inner` over the
    /// variable `id`.
    fn every(&mut self, id: Addr, inner: Addr) -> (a: Addr)
        requires
            inner.absent() || inner.addr < old(self).cells().len(),
        ensures
            a.addr == old(self).cells().len(),
            final(self).cells() == grown(
                old(self).cells(),
                FOLogic::Universal { id },
                inner,
                Addr::nil(),
            ),
            final(self).names() == old(self).names(),
            final(self).valid() == old(self).valid(),
    ;

    /// The existential quantification of the formula at `inner` over the
    /// variable `id`.
    fn exist(&mut self, id: Addr, inner: Addr) -> (a: Addr)
        requires
            inner.absent() || inner.addr < old(self).cells().len(),
        ensures
            a.addr == old(self).cells().len(),
            final(self).cells() == grown(
                old(self).cells(),
                FOLogic::Existential { id },
                inner,
                Addr::nil(),
            ),
            final(self).names() == old(self).names(),
            final(self).valid() == old(self).valid(),
    ;

    /// The negation of the formula at `inner`.
    fn not(&mut self, inner: Addr) -> (a: Addr)
        requires
            inner.absent() || inner.addr < old(self).cells().len(),
        ensures
            a.addr == old(self).cells().len(),
            final(self).cells() == grown(old(self).cells(), FOLogic::Not, inner, Addr::nil()),
            final(self).names() == old(self).names(),
            final(self).valid() == old(self).valid(),
    ;

    /// The conjunction of the formulas at `left` and `right`.
    fn and(&mut self, left: Addr, right: Addr) -> (a: Addr)
        requires
            left.absent() || left.addr < old(self).cells().len(),
            right.absent() || right.addr < old(self).cells().len(),
        ensures
            a.addr == old(self).cells().len(),
            final(self).cells() == grown(old(self).cells(), FOLogic::And, left, right),
            final(self).names() == old(self).names(),
            final(self).valid() == old(self).valid(),
    ;

    /// The disjunction of the formulas at `left` and `right`.
    fn or(&mut self, left: Addr, right: Addr) -> (a: Addr)
        requires
            left.absent() || left.addr < old(self).cells().len(),
            right.absent() || right.addr < old(self).cells().len(),
        ensures
            a.addr == old(self).cells().len(),
            final(self).cells() == grown(old(self).cells(), FOLogic::Or, left, right),
            final(self).names() == old(self).names(),
            final(self).valid() == old(self).valid(),
    ;
}

/// The entries that `names` have in the table `table`, in order.
pub open spec fn entries_of(table: Seq<Option<Seq<char>>>, names: Seq<&str>, ids: Seq<Addr>) -> bool {
    &&& ids.len() == names.len()
    &&& forall|i: int|
        0 <= i < ids.len() ==> (#[trigger] ids[i]).addr < table.len() && table[ids[i].addr as int]
            == Some(names[i]@)
}

/// The names of `names`, as table entries in reverse order.
pub open spec fn reversed_entries(names: Seq<&str>) -> Seq<Option<Seq<char>>> {
    Seq::new(names.len(), |i: int| Some(names[names.len() - 1 - i]@))
}

impl FirstOrderTree {
    /// Plants the chain of the arguments `vars`.
    fn plant_chain(&mut self, vars: &[Addr]) -> (a: Addr)
        ensures
            a == top_of(old(self).nodes().len(), chain_of(vars@)),
            final(self).nodes() == planted(old(self).nodes(), chain_of(vars@)),
            final(self).nodes().len() == old(self).nodes().len() + vars@.len(),
            final(self).symbols() == old(self).symbols(),
            final(self).root() == old(self).root(),
    {
        let ghost start = self.nodes();
        let mut next: Addr = Addr::none();
        let mut i: usize = vars.len();
        assert(vars@.skip(i as int) =~= Seq::<Addr>::empty());
        proof {
            self.lemma_bounded();
        }
        while i > 0
            invariant
                i <= vars@.len(),
                start.len() <= usize::MAX,
                next == top_of(start.len(), chain_of(vars@.skip(i as int))),
                self.nodes() == planted(start, chain_of(vars@.skip(i as int))),
                self.nodes().len() == start.len() + (vars@.len() - i),
                self.symbols() == old(self).symbols(),
                self.root() == old(self).root(),
            decreases i,
        {
            i -= 1;
            let ghost rest = vars@.skip(i + 1);
            let ghost now = vars@.skip(i as int);
            proof {
                assert(now.skip(1) =~= rest);
                assert(now[0] == vars@[i as int]);
                lemma_chain_size(rest);
                lemma_chain_size(now);
                lemma_planted_unary(start, FOLogic::Predicate { id: vars@[i as int] }, chain_of(rest));
                self.lemma_bounded();
            }
            next = self.attach_pair(FOLogic::Predicate { id: vars[i] }, next, Addr::none());
            proof {
                self.lemma_bounded();
            }
        }
        assert(vars@.skip(0) =~= vars@);
        next
    }

    /// The predicate called `name` applied to the variables called `vars`.
    /// The names are entered into the symbol table where they are not
    /// there: those of the arguments from the last to the first, then that
    /// of the predicate.
    pub fn pred_named(&mut self, name: &str, vars: &[&str]) -> (a: Addr)
        requires
            old(self).wf(),
        ensures
            final(self).wf(),
            final(self).table() == added(
                merged(old(self).table(), reversed_entries(vars@)),
                Some(name@),
            ),
            final(self).root() == old(self).root(),
            exists|id: Addr, ids: Seq<Addr>|
                {
                    &&& entries_of(final(self).table(), seq![name], seq![id])
                    &&& entries_of(final(self).table(), vars@, ids)
                    &&& a == top_of(old(self).nodes().len(), atom_of(id, ids))
                    &&& final(self).nodes() == planted(old(self).nodes(), atom_of(id, ids))
                },
    {
        let mut ids: Vec<Addr> = Vec::new();
        let n: usize = vars.len();
        let mut i: usize = 0;
        while i < n
            invariant
                i <= n,
                n == vars@.len(),
                ids@.len() == i,
                self.wf(),
                self.nodes() == old(self).nodes(),
                self.root() == old(self).root(),
                self.table() == merged(old(self).table(), reversed_entries(vars@).take(i as int)),
                forall|k: int|
                    0 <= k < i ==> (#[trigger] ids@[k]).addr < self.table().len()
                        && self.table()[ids@[k].addr as int] == Some(vars@[n - 1 - k]@),
            decreases n - i,
        {
            proof {
                let all = reversed_entries(vars@);
                assert(all.take(i + 1).drop_last() =~= all.take(i as int));
                assert(all.take(i + 1).last() == all[i as int]);
            }
            let owned = String::from_str(vars[n - 1 - i]);
            let id = self.add_named(&owned);
            ids.push(id);
            i += 1;
        }
        assert(reversed_entries(vars@).take(n as int) =~= reversed_entries(vars@));
        let owned = String::from_str(name);
        let id = self.add_named(&owned);
        let mut ordered: Vec<Addr> = Vec::new();
        let mut j: usize = 0;
        while j < n
            invariant
                j <= n,
                n == vars@.len(),
                ids@.len() == n,
                ordered@.len() == j,
                forall|k: int| 0 <= k < j ==> ordered@[k] == ids@[n - 1 - k],
            decreases n - j,
        {
            ordered.push(ids[n - 1 - j]);
            j += 1;
        }
        let a = self.pred(id, ordered.as_slice());
        proof {
            assert(entries_of(self.table(), seq![name], seq![id]));
            assert(entries_of(self.table(), vars@, ordered@));
        }
        a
    }

    /// The universal quantification of the formula at `inner` over the
    /// variable called `name`, which is entered into the symbol table if it
    /// is not there.
    pub fn every_named(&mut self, name: &str, inner: Addr) -> (a: Addr)
        requires
            old(self).wf(),
            inner.absent() || inner.addr < old(self).nodes().len(),
        ensures
            final(self).wf(),
            final(self).table() == added(old(self).table(), Some(name@)),
            final(self).root() == old(self).root(),
            a.addr == old(self).nodes().len(),
            final(self).nodes() == grown(
                old(self).nodes(),
                final(self).nodes().last().value,
                inner,
                Addr::nil(),
            ),
            final(self).nodes().last().value matches FOLogic::Universal { id }
                && id.addr < final(self).table().len()
                && final(self).table()[id.addr as int] == Some(name@),
    {
        let owned = String::from_str(name);
        let id = self.add_named(&owned);
        self.every(id, inner)
    }

    /// The existential quantification of the formula at `inner` over the
    /// variable called `name`, which is entered into the symbol table if it
    /// is not there.
    pub fn exist_named(&mut self, name: &str, inner: Addr) -> (a: Addr)
        requires
            old(self).wf(),
            inner.absent() || inner.addr < old(self).nodes().len(),
        ensures
            final(self).wf(),
            final(self).table() == added(old(self).table(), Some(name@)),
            final(self).root() == old(self).root(),
            a.addr == old(self).nodes().len(),
            final(self).nodes() == grown(
                old(self).nodes(),
                final(self).nodes().last().value,
                inner,
                Addr::nil(),
            ),
            final(self).nodes().last().value matches FOLogic::Existential { id }
                && id.addr < final(self).table().len()
                && final(self).table()[id.addr as int] == Some(name@),
    {
        let owned = String::from_str(name);
        let id = self.add_named(&owned);
        self.exist(id, inner)
    }
}

impl FOMut for FirstOrderTree {
    fn pred(&mut self, id: Addr, vars_id: &[Addr]) -> (a: Addr)
        ensures
            final(self).symbols() == old(self).symbols(),
            final(self).root() == old(self).root(),
    {
        let ghost start = self.nodes();
        let next = self.plant_chain(vars_id);
        proof {
            lemma_chain_size(vars_id@);
            lemma_planted_unary(start, FOLogic::Predicate { id }, chain_of(vars_id@));
            self.lemma_bounded();
        }
        let a = self.attach_pair(FOLogic::Predicate { id }, next, Addr::none());
        proof {
            self.lemma_bounded();
        }
        a
    }

    #[inline(always)]
    fn every(&mut self, id: Addr, inner: Addr) -> (a: Addr)
        ensures
            final(self).symbols() == old(self).symbols(),
            final(self).root() == old(self).root(),
    {
        self.attach_pair(FOLogic::Universal { id }, inner, Addr::none())
    }

    #[inline(always)]
    fn exist(&mut self, id: Addr, inner: Addr) -> (a: Addr)
        ensures
            final(self).symbols() == old(self).symbols(),
            final(self).root() == old(self).root(),
    {
        self.attach_pair(FOLogic::Existential { id }, inner, Addr::none())
    }

    #[inline(always)]
    fn not(&mut self, inner: Addr) -> (a: Addr)
        ensures
            final(self).symbols() == old(self).symbols(),
            final(self).root() == old(self).root(),
    {
        self.attach_pair(FOLogic::Not, inner, Addr::none())
    }

    #[inline(always)]
    fn and(&mut self, left: Addr, right: Addr) -> (a: Addr)
        ensures
            final(self).symbols() == old(self).symbols(),
            final(self).root() == old(self).root(),
    {
        self.attach_pair(FOLogic::And, left, right)
    }

    #[inline(always)]
    fn or(&mut self, left: Addr, right: Addr) -> (a: Addr)
        ensures
            final(self).symbols() == old(self).symbols(),
            final(self).root() == old(self).root(),
    {
        self.attach_pair(FOLogic::Or, left, right)
    }
}

} // verus!
