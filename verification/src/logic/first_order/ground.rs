//! Grounding: the predicates of a formula, the domains of their arguments,
//! and a named atom for every tuple of values.

use vstd::prelude::*;
use vstd::string::*;
use super::{domain_index, has_domain, FOLogic, FirstOrderTree};
use crate::solver::domain::{Integer, Range};
use crate::text::{decimal, push_decimal};
use crate::tree::reading::{reads, Reading};
use crate::tree::traits::shown_name;
use crate::tree::tree::{added, merged};
use crate::tree::{Addr, IndexedRef, Mapping, Tree};

verus! {

/// The sizes of the domains, in order.
pub open spec fn cards(domains: Seq<Integer>) -> Seq<nat> {
    Seq::new(domains.len(), |i: int| domains[i].card as nat)
}

/// The product of the sizes: the number of tuples.
pub open spec fn product(sizes: Seq<nat>) -> nat
    decreases sizes.len(),
{
    if sizes.len() == 0 {
        1
    } else {
        product(sizes.drop_last()) * sizes.last()
    }
}

/// The tuple `idx` has one value for each domain, each below the size of its
/// domain.
pub open spec fn in_bounds(sizes: Seq<nat>, idx: Seq<nat>) -> bool {
    &&& idx.len() == sizes.len()
    &&& forall|i: int| 0 <= i < idx.len() ==> #[trigger] idx[i] < sizes[i]
}

/// The row-major position of the tuple `idx`: the first value is the most
/// significant.
pub open spec fn offset(sizes: Seq<nat>, idx: Seq<nat>) -> nat
    decreases sizes.len(),
{
    if sizes.len() == 0 || idx.len() == 0 {
        0
    } else {
        offset(sizes.drop_last(), idx.drop_last()) * sizes.last() + idx.last()
    }
}

/// The tuple at the row-major position `n`.
pub open spec fn digits(sizes: Seq<nat>, n: nat) -> Seq<nat>
    decreases sizes.len(),
{
    if sizes.len() == 0 {
        Seq::empty()
    } else if sizes.last() == 0 {
        digits(sizes.drop_last(), 0).push(0)
    } else {
        digits(sizes.drop_last(), n / sizes.last()).push(n % sizes.last())
    }
}

/// The values of a tuple, as numbers.
pub open spec fn as_nats(idx: Seq<usize>) -> Seq<nat> {
    Seq::new(idx.len(), |i: int| idx[i] as nat)
}

/// The position of a tuple within bounds is below the number of tuples.
pub proof fn lemma_offset_bound(sizes: Seq<nat>, idx: Seq<nat>)
    requires
        in_bounds(sizes, idx),
    ensures
        offset(sizes, idx) < product(sizes),
    decreases sizes.len(),
{
    if sizes.len() > 0 {
        let front = sizes.drop_last();
        let head = idx.drop_last();
        assert forall|i: int| 0 <= i < head.len() implies #[trigger] head[i] < front[i] by {
            assert(idx[i] < sizes[i]);
        }
        lemma_offset_bound(front, head);
        let o = offset(front, head);
        let p = product(front);
        let c = sizes.last();
        let d = idx.last();
        assert(idx[idx.len() - 1] < sizes[idx.len() - 1]);
        assert(o * c + d < p * c) by (nonlinear_arith)
            requires
                o < p,
                d < c,
        ;
    }
}

/// Position and tuple are inverse to each other: the tuple at a position
/// below the number of tuples is within bounds and has that position.
pub proof fn law_digits_offset(sizes: Seq<nat>, n: nat)
    requires
        n < product(sizes),
    ensures
        in_bounds(sizes, digits(sizes, n)),
        offset(sizes, digits(sizes, n)) == n,
    decreases sizes.len(),
{
    if sizes.len() > 0 {
        let front = sizes.drop_last();
        let c = sizes.last();
        let p = product(front);
        assert(c > 0 && n / c < p) by (nonlinear_arith)
            requires
                n < p * c,
        ;
        law_digits_offset(front, n / c);
        let ds = digits(sizes, n);
        assert(ds.drop_last() =~= digits(front, n / c));
        assert(ds.last() == n % c);
        assert forall|i: int| 0 <= i < ds.len() implies #[trigger] ds[i] < sizes[i] by {
            if i < front.len() {
                assert(ds[i] == digits(front, n / c)[i]);
                assert(sizes[i] == front[i]);
            }
        }
        assert((n / c) * c + n % c == n) by (nonlinear_arith)
            requires
                c > 0,
        ;
    }
}

/// The tuple at the position of a tuple within bounds is that tuple.
pub proof fn law_offset_digits(sizes: Seq<nat>, idx: Seq<nat>)
    requires
        in_bounds(sizes, idx),
    ensures
        digits(sizes, offset(sizes, idx)) == idx,
    decreases sizes.len(),
{
    if sizes.len() > 0 {
        let front = sizes.drop_last();
        let head = idx.drop_last();
        let c = sizes.last();
        let d = idx.last();
        assert forall|i: int| 0 <= i < head.len() implies #[trigger] head[i] < front[i] by {
            assert(idx[i] < sizes[i]);
        }
        law_offset_digits(front, head);
        let o = offset(front, head);
        assert(idx[idx.len() - 1] < sizes[idx.len() - 1]);
        assert((o * c + d) / c == o && (o * c + d) % c == d) by (nonlinear_arith)
            requires
                d < c,
        ;
        assert(digits(sizes, offset(sizes, idx)) =~= idx);
    } else {
        assert(digits(sizes, offset(sizes, idx)) =~= idx);
    }
}

/// The numerals of a tuple, with `, ` between them.
pub open spec fn joined(ds: Seq<nat>) -> Seq<char>
    decreases ds.len(),
{
    if ds.len() == 0 {
        Seq::empty()
    } else if ds.len() == 1 {
        decimal(ds[0])
    } else {
        joined(ds.drop_last()) + ", "@ + decimal(ds.last())
    }
}

/// The name of the atom of the predicate shown as `radical` at the position
/// `n`: the radical, and in brackets the tuple at that position.
pub open spec fn atom_name(radical: Seq<char>, sizes: Seq<nat>, n: nat) -> Seq<char> {
    radical + "("@ + joined(digits(sizes, n)) + ")"@
}

/// A predicate with the domains of its arguments and, for every tuple of
/// values in row-major order, the address of the atom that stands for the
/// predicate at that tuple.
pub struct Grounded {
    pub id: Addr,
    pub domains: Vec<Integer>,
    pub grounded: Vec<Addr>,
}

/// What can be wrong with the predicates of a formula.
pub enum Fault {
    /// An argument ranges over no domain.
    UnknownDomain,
    /// Two occurrences of a predicate disagree on the domain of an argument.
    DomainMismatch,
    /// Two occurrences of a predicate disagree on the number of arguments.
    ArityMismatch,
    /// Something else than a variable stands in a chain of arguments.
    InvalidPredicate,
    /// A machine word cannot count the atoms of a predicate.
    TooManyAtoms,
    /// An argument of a predicate is bound by no quantifier.
    UnboundVariable,
    /// A quantified variable ranges over an empty domain.
    EmptyDomain,
}

/// The message of a fault.
pub open spec fn fault_text(f: Fault) -> Seq<char> {
    match f {
        Fault::UnknownDomain => "Unknown domain"@,
        Fault::DomainMismatch => "Domains didn't match"@,
        Fault::ArityMismatch => "Arguments don't match"@,
        Fault::InvalidPredicate => "Invalid predicate"@,
        Fault::TooManyAtoms => "Too many atoms"@,
        Fault::UnboundVariable => "Unbound variable"@,
        Fault::EmptyDomain => "Empty domain"@,
    }
}

impl Fault {
    /// The message of the fault.
    pub fn message(&self) -> (s: &'static str)
        ensures
            s@ == fault_text(*self),
    {
        match self {
            Fault::UnknownDomain => "Unknown domain",
            Fault::DomainMismatch => "Domains didn't match",
            Fault::ArityMismatch => "Arguments don't match",
            Fault::InvalidPredicate => "Invalid predicate",
            Fault::TooManyAtoms => "Too many atoms",
            Fault::UnboundVariable => "Unbound variable",
            Fault::EmptyDomain => "Empty domain",
        }
    }
}

/// A predicate with the domains of its arguments.
pub struct Sig {
    pub id: Addr,
    pub domains: Seq<Range>,
}

/// The domains `domains`, each as what it is.
pub open spec fn ranges(domains: Seq<Integer>) -> Seq<Range> {
    Seq::new(domains.len(), |i: int| domains[i]@)
}

/// The predicates of `list` with the domains of their arguments.
pub open spec fn sigs_of(list: Seq<Grounded>) -> Seq<Sig> {
    Seq::new(list.len(), |k: int| Sig { id: list[k].id, domains: ranges(list[k].domains@) })
}

/// The domains of the arguments of a chain, in order; or what is wrong
/// with the chain.
pub open spec fn signature(args: Reading<FOLogic>, domains: Seq<Integer>) -> Result<
    Seq<Range>,
    Fault,
>
    decreases args,
{
    match args {
        Reading::Empty => Ok(Seq::empty()),
        Reading::Node(FOLogic::Predicate { id }, rest, r) => if !has_domain(domains, id) {
            Err(Fault::UnknownDomain)
        } else {
            match signature(*rest, domains) {
                Ok(s) => Ok(seq![domains[domain_index(domains, id)]@] + s),
                Err(f) => Err(f),
            }
        },
        Reading::Node(_, rest, r) => Err(Fault::InvalidPredicate),
    }
}

/// What is wrong with a chain of arguments, from its argument number
/// `count` on, where the arguments are expected to range over `expected`.
pub open spec fn mismatch(
    args: Reading<FOLogic>,
    expected: Seq<Range>,
    domains: Seq<Integer>,
    count: int,
) -> Option<Fault>
    decreases args,
{
    match args {
        Reading::Empty => if count != expected.len() {
            Some(Fault::ArityMismatch)
        } else {
            None
        },
        Reading::Node(FOLogic::Predicate { id }, rest, r) => if !has_domain(domains, id) {
            Some(Fault::UnknownDomain)
        } else if count >= expected.len() {
            Some(Fault::ArityMismatch)
        } else if expected[count] != domains[domain_index(domains, id)]@ {
            Some(Fault::DomainMismatch)
        } else {
            mismatch(*rest, expected, domains, count + 1)
        },
        Reading::Node(_, rest, r) => Some(Fault::InvalidPredicate),
    }
}

/// The position in `found` of the predicate `id`; the length of `found` if
/// it is not there.
pub open spec fn position(found: Seq<Sig>, id: Addr) -> int
    decreases found.len(),
{
    if found.len() == 0 || found[0].id == id {
        0
    } else {
        1 + position(found.skip(1), id)
    }
}

/// `position` is the first position that holds the predicate.
pub proof fn lemma_position(found: Seq<Sig>, id: Addr, i: int)
    requires
        0 <= i <= found.len(),
        forall|j: int| 0 <= j < i ==> (#[trigger] found[j]).id != id,
        i < found.len() ==> found[i].id == id,
    ensures
        position(found, id) == i,
    decreases i,
{
    if i > 0 {
        let rest = found.skip(1);
        assert forall|j: int| 0 <= j < i - 1 implies (#[trigger] rest[j]).id != id by {
            assert(rest[j] == found[j + 1]);
        }
        lemma_position(rest, id, i - 1);
    }
}

/// What `position` finds.
pub proof fn lemma_position_finds(found: Seq<Sig>, id: Addr)
    ensures
        0 <= position(found, id) <= found.len(),
        position(found, id) < found.len() ==> found[position(found, id)].id == id,
        forall|j: int| 0 <= j < position(found, id) ==> (#[trigger] found[j]).id != id,
    decreases found.len(),
{
    if !(found.len() == 0 || found[0].id == id) {
        let rest = found.skip(1);
        lemma_position_finds(rest, id);
        let k = position(rest, id);
        if k < rest.len() {
            assert(rest[k] == found[k + 1]);
        }
        assert forall|j: int| 0 <= j < 1 + k implies (#[trigger] found[j]).id != id by {
            if j > 0 {
                assert(rest[j - 1] == found[j]);
            }
        }
    }
}

/// The predicates of a formula in the order of their first occurrence, each
/// with the domains of its arguments, added to those of `found`; or what
/// is wrong with the first occurrence that is not in order.
pub open spec fn scan(t: Reading<FOLogic>, domains: Seq<Integer>, found: Seq<Sig>) -> Result<
    Seq<Sig>,
    Fault,
>
    decreases t,
{
    match t {
        Reading::Empty => Ok(found),
        Reading::Node(FOLogic::Predicate { id }, args, r) => if position(found, id)
            < found.len() {
            match mismatch(*args, found[position(found, id)].domains, domains, 0) {
                Some(f) => Err(f),
                None => Ok(found),
            }
        } else {
            match signature(*args, domains) {
                Ok(s) => Ok(found.push(Sig { id, domains: s })),
                Err(f) => Err(f),
            }
        },
        Reading::Node(_, l, r) => match scan(*l, domains, found) {
            Ok(more) => scan(*r, domains, more),
            Err(f) => Err(f),
        },
    }
}

/// Every predicate of the formula is in `sigs`, and the arguments of each
/// of its occurrences range over the domains that `sigs` has for it.
pub open spec fn covered(t: Reading<FOLogic>, domains: Seq<Integer>, sigs: Seq<Sig>) -> bool
    decreases t,
{
    match t {
        Reading::Empty => true,
        Reading::Node(FOLogic::Predicate { id }, args, r) => position(sigs, id) < sigs.len()
            && mismatch(*args, sigs[position(sigs, id)].domains, domains, 0) is None,
        Reading::Node(_, l, r) => covered(*l, domains, sigs) && covered(*r, domains, sigs),
    }
}

/// `more` begins with `found`.
pub open spec fn extends(found: Seq<Sig>, more: Seq<Sig>) -> bool {
    found.len() <= more.len() && more.take(found.len() as int) == found
}

/// A predicate that is found is found at the same place among more.
pub proof fn lemma_position_stable(found: Seq<Sig>, more: Seq<Sig>, id: Addr)
    requires
        extends(found, more),
        position(found, id) < found.len(),
    ensures
        position(more, id) == position(found, id),
{
    lemma_position_finds(found, id);
    let k = position(found, id);
    assert forall|j: int| 0 <= j < k implies (#[trigger] more[j]).id != id by {
        assert(more.take(found.len() as int)[j] == more[j]);
        assert(found[j].id != id);
    }
    assert(more.take(found.len() as int)[k] == more[k]);
    lemma_position(more, id, k);
}

/// What is covered stays covered when predicates are added.
pub proof fn lemma_covered_stable(
    t: Reading<FOLogic>,
    domains: Seq<Integer>,
    found: Seq<Sig>,
    more: Seq<Sig>,
)
    requires
        extends(found, more),
        covered(t, domains, found),
    ensures
        covered(t, domains, more),
    decreases t,
{
    match t {
        Reading::Empty => {},
        Reading::Node(v, l, r) => {
            match v {
                FOLogic::Predicate { id } => {
                    lemma_position_stable(found, more, id);
                    lemma_position_finds(found, id);
                    let k = position(found, id);
                    assert(more.take(found.len() as int)[k] == more[k]);
                },
                _ => {
                    lemma_covered_stable(*l, domains, found, more);
                    lemma_covered_stable(*r, domains, found, more);
                },
            }
        },
    }
}

/// A chain of arguments matches its own signature.
pub proof fn lemma_signature_matches(
    args: Reading<FOLogic>,
    domains: Seq<Integer>,
    front: Seq<Range>,
)
    requires
        signature(args, domains) is Ok,
    ensures
        mismatch(args, front + signature(args, domains)->Ok_0, domains, front.len() as int)
            is None,
    decreases args,
{
    match args {
        Reading::Empty => {
            assert(front + Seq::<Range>::empty() =~= front);
        },
        Reading::Node(v, rest, r) => {
            match v {
                FOLogic::Predicate { id } => {
                    let d = domains[domain_index(domains, id)]@;
                    let s = signature(*rest, domains)->Ok_0;
                    lemma_signature_matches(*rest, domains, front.push(d));
                    assert(front.push(d) + s =~= front + (seq![d] + s));
                },
                _ => {},
            }
        },
    }
}

/// A scan that succeeds covers the formula and keeps what was found.
pub proof fn lemma_scan_covers(t: Reading<FOLogic>, domains: Seq<Integer>, found: Seq<Sig>)
    requires
        scan(t, domains, found) is Ok,
    ensures
        extends(found, scan(t, domains, found)->Ok_0),
        covered(t, domains, scan(t, domains, found)->Ok_0),
    decreases t,
{
    let res = scan(t, domains, found)->Ok_0;
    match t {
        Reading::Empty => {
            assert(found.take(found.len() as int) =~= found);
        },
        Reading::Node(v, l, r) => {
            match v {
                FOLogic::Predicate { id } => {
                    if position(found, id) < found.len() {
                        assert(found.take(found.len() as int) =~= found);
                    } else {
                        let s = signature(*l, domains)->Ok_0;
                        lemma_position_finds(found, id);
                        assert(res == found.push(Sig { id, domains: s }));
                        assert(res.take(found.len() as int) =~= found);
                        assert forall|j: int| 0 <= j < found.len() implies (#[trigger] res[j]).id
                            != id by {
                            assert(res[j] == found[j]);
                        }
                        lemma_position(res, id, found.len() as int);
                        lemma_signature_matches(*l, domains, Seq::empty());
                        assert(Seq::<Range>::empty() + s =~= s);
                    }
                },
                _ => {
                    let more = scan(*l, domains, found)->Ok_0;
                    lemma_scan_covers(*l, domains, found);
                    lemma_scan_covers(*r, domains, more);
                    assert(res.take(found.len() as int) =~= more.take(found.len() as int)) by {
                        assert(res.take(more.len() as int) == more);
                        assert forall|i: int| 0 <= i < found.len() implies res.take(
                            found.len() as int,
                        )[i] == more.take(found.len() as int)[i] by {
                            assert(res.take(more.len() as int)[i] == res[i]);
                        }
                    }
                    lemma_covered_stable(*l, domains, more, res);
                },
            }
        },
    }
}

/// `domain_index` is the first position of a domain that has the variable.
pub proof fn lemma_domain_index(domains: Seq<Integer>, var: Addr, i: int)
    requires
        0 <= i <= domains.len(),
        forall|j: int| 0 <= j < i ==> !(#[trigger] domains[j]).has(var),
        i < domains.len() ==> domains[i].has(var),
    ensures
        domain_index(domains, var) == i,
    decreases i,
{
    if i > 0 {
        let rest = domains.skip(1);
        assert forall|j: int| 0 <= j < i - 1 implies !(#[trigger] rest[j]).has(var) by {
            assert(rest[j] == domains[j + 1]);
        }
        lemma_domain_index(rest, var, i - 1);
    }
}

impl Grounded {
    /// The sizes of the domains of the arguments.
    pub open spec fn sizes(&self) -> Seq<nat> {
        cards(self.domains@)
    }

    /// There is an atom for every tuple of values.
    pub open spec fn complete(&self) -> bool {
        self.grounded@.len() == product(self.sizes())
    }

    /// The number of tuples, if a machine word holds it.
    pub fn checked_len(&self) -> (n: Option<usize>)
        ensures
            match n {
                Some(v) => v == product(self.sizes()),
                None => product(self.sizes()) > usize::MAX,
            },
    {
        let ghost sizes = self.sizes();
        let mut i: usize = 0;
        while i < self.domains.len()
            invariant
                i <= self.domains@.len(),
                sizes == self.sizes(),
                forall|j: int| 0 <= j < i ==> #[trigger] sizes[j] >= 1,
            decreases self.domains@.len() - i,
        {
            if self.domains[i].card == 0 {
                proof {
                    lemma_product_zero(sizes, i as int);
                }
                return Some(0);
            }
            i += 1;
        }
        let mut total: usize = 1;
        let mut k: usize = 0;
        assert(sizes.take(0) =~= Seq::<nat>::empty());
        while k < self.domains.len()
            invariant
                k <= self.domains@.len(),
                sizes == self.sizes(),
                sizes.len() == self.domains@.len(),
                forall|j: int| 0 <= j < sizes.len() ==> #[trigger] sizes[j] >= 1,
                total == product(sizes.take(k as int)),
            decreases self.domains@.len() - k,
        {
            proof {
                assert(sizes.take(k + 1).drop_last() =~= sizes.take(k as int));
                assert(sizes.take(k + 1).last() == sizes[k as int]);
                lemma_product_grows(sizes, k + 1);
            }
            match total.checked_mul(self.domains[k].card) {
                Some(v) => {
                    total = v;
                },
                None => {
                    return None;
                },
            }
            k += 1;
        }
        assert(sizes.take(sizes.len() as int) =~= sizes);
        Some(total)
    }

    /// The number of tuples of values: the product of the sizes of the
    /// domains.
    pub fn len(&self) -> (n: usize)
        requires
            product(self.sizes()) <= usize::MAX,
        ensures
            n == product(self.sizes()),
    {
        match self.checked_len() {
            Some(n) => n,
            None => 0,
        }
    }

    /// The atom for the tuple `indices`: the address at its row-major
    /// position.
    pub fn get_id(&self, indices: &[usize]) -> (a: Addr)
        requires
            self.complete(),
            in_bounds(self.sizes(), as_nats(indices@)),
        ensures
            offset(self.sizes(), as_nats(indices@)) < self.grounded@.len(),
            a == self.grounded@[offset(self.sizes(), as_nats(indices@)) as int],
    {
        let ghost sizes = self.sizes();
        let ghost idx = as_nats(indices@);
        let mut at: usize = 0;
        let mut k: usize = 0;
        assert(sizes.take(0) =~= Seq::<nat>::empty());
        let bound: usize = self.grounded.len();
        proof {
            assert forall|j: int| 0 <= j < sizes.len() implies #[trigger] sizes[j] >= 1 by {
                assert(idx[j] < sizes[j]);
            }
        }
        while k < self.domains.len()
            invariant
                k <= self.domains@.len(),
                sizes == self.sizes(),
                idx == as_nats(indices@),
                in_bounds(sizes, idx),
                bound == product(sizes),
                forall|j: int| 0 <= j < sizes.len() ==> #[trigger] sizes[j] >= 1,
                at == offset(sizes.take(k as int), idx.take(k as int)),
                at < product(sizes.take(k as int)),
            decreases self.domains@.len() - k,
        {
            proof {
                let s = sizes.take(k + 1);
                let t = idx.take(k + 1);
                assert(s.drop_last() =~= sizes.take(k as int));
                assert(t.drop_last() =~= idx.take(k as int));
                assert(s.last() == sizes[k as int]);
                assert(t.last() == idx[k as int]);
                assert forall|j: int| 0 <= j < t.len() implies #[trigger] t[j] < s[j] by {
                    assert(idx[j] < sizes[j]);
                }
                lemma_offset_bound(s, t);
                lemma_product_grows(sizes, k + 1);
            }
            at = at * self.domains[k].card + indices[k];
            k += 1;
        }
        assert(sizes.take(sizes.len() as int) =~= sizes);
        assert(idx.take(idx.len() as int) =~= idx);
        self.grounded[at]
    }

    /// The name of the atom at the position `idx` of the predicate shown as
    /// `radical`: the radical, and in brackets the numerals of the tuple at
    /// that position, with `, ` between them.
    pub fn format(&self, radical: &String, idx: usize) -> (s: String)
        requires
            idx < product(self.sizes()),
        ensures
            s@ == atom_name(radical@, self.sizes(), idx as nat),
    {
        let ghost sizes = self.sizes();
        let mut rev: Vec<usize> = Vec::new();
        let mut current: usize = idx;
        let mut k: usize = self.domains.len();
        assert(sizes.take(k as int) =~= sizes);
        proof {
            lemma_product_positive(sizes);
        }
        while k > 0
            invariant
                k <= self.domains@.len(),
                sizes == self.sizes(),
                sizes.len() == self.domains@.len(),
                forall|j: int| 0 <= j < sizes.len() ==> #[trigger] sizes[j] >= 1,
                rev@.len() == sizes.len() - k,
                digits(sizes, idx as nat) == digits(sizes.take(k as int), current as nat)
                    + Seq::new(rev@.len(), |j: int| rev@[rev@.len() - 1 - j] as nat),
            decreases k,
        {
            k -= 1;
            let card: usize = self.domains[k].card;
            proof {
                let s = sizes.take(k + 1);
                assert(s.drop_last() =~= sizes.take(k as int));
                assert(s.last() == sizes[k as int]);
            }
            let ghost before = rev@;
            rev.push(current % card);
            let ghost digit = (current % card) as nat;
            current = current / card;
            proof {
                let old_tail = Seq::new(before.len(), |j: int| before[before.len() - 1 - j] as nat);
                let new_tail = Seq::new(rev@.len(), |j: int| rev@[rev@.len() - 1 - j] as nat);
                assert(new_tail =~= seq![digit] + old_tail);
                assert(digits(sizes.take(k as int), current as nat).push(digit) + old_tail
                    =~= digits(sizes.take(k as int), current as nat) + new_tail);
            }
        }
        let ghost ds = digits(sizes, idx as nat);
        proof {
            assert(sizes.take(0) =~= Seq::<nat>::empty());
            assert(ds =~= Seq::new(rev@.len(), |j: int| rev@[rev@.len() - 1 - j] as nat));
        }
        let mut s = radical.clone();
        s.append("(");
        let n: usize = rev.len();
        let mut i: usize = 0;
        assert(ds.take(0) =~= Seq::<nat>::empty());
        while i < n
            invariant
                i <= n,
                n == rev@.len(),
                ds.len() == n,
                forall|j: int| 0 <= j < n ==> ds[j] == rev@[n - 1 - j] as nat,
                s@ == radical@ + "("@ + joined(ds.take(i as int)),
            decreases n - i,
        {
            proof {
                let next = ds.take(i + 1);
                assert(next.drop_last() =~= ds.take(i as int));
                assert(next.last() == ds[i as int]);
            }
            let ghost so_far = s@;
            if i > 0 {
                s.append(", ");
            }
            push_decimal(&mut s, rev[n - 1 - i] as u128);
            proof {
                assert(s@ =~= radical@ + "("@ + joined(ds.take(i + 1)));
            }
            i += 1;
        }
        assert(ds.take(n as int) =~= ds);
        s.append(")");
        s
    }

    /// The first of `domains` that has the variable `var`.
    pub fn get_domain(var: Addr, domains: &[Integer]) -> (d: Option<&Integer>)
        ensures
            d is Some <==> has_domain(domains@, var),
            d matches Some(found) ==> *found == domains@[domain_index(domains@, var)],
    {
        let mut i: usize = 0;
        while i < domains.len()
            invariant
                i <= domains@.len(),
                forall|j: int| 0 <= j < i ==> !(#[trigger] domains@[j]).has(var),
            decreases domains@.len() - i,
        {
            if domains[i].contains(var) {
                proof {
                    lemma_domain_index(domains@, var, i as int);
                }
                return Some(&domains[i]);
            }
            i += 1;
        }
        proof {
            lemma_domain_index(domains@, var, domains@.len() as int);
        }
        None
    }
}

/// The number of tuples is nothing where a domain is empty.
pub proof fn lemma_product_zero(sizes: Seq<nat>, i: int)
    requires
        0 <= i < sizes.len(),
        sizes[i] == 0,
    ensures
        product(sizes) == 0,
    decreases sizes.len(),
{
    if i == sizes.len() - 1 {
        assert(product(sizes.drop_last()) * 0 == 0) by (nonlinear_arith);
    } else {
        lemma_product_zero(sizes.drop_last(), i);
        assert(0 * sizes.last() == 0) by (nonlinear_arith);
    }
}

/// Where there are tuples, no domain is empty.
pub proof fn lemma_product_positive(sizes: Seq<nat>)
    requires
        product(sizes) > 0,
    ensures
        forall|j: int| 0 <= j < sizes.len() ==> #[trigger] sizes[j] >= 1,
{
    assert forall|j: int| 0 <= j < sizes.len() implies #[trigger] sizes[j] >= 1 by {
        if sizes[j] == 0 {
            lemma_product_zero(sizes, j);
        }
    }
}

/// Where no domain is empty, the number of tuples over the first `k`
/// domains is at most that over all.
pub proof fn lemma_product_grows(sizes: Seq<nat>, k: int)
    requires
        0 <= k <= sizes.len(),
        forall|j: int| 0 <= j < sizes.len() ==> #[trigger] sizes[j] >= 1,
    ensures
        1 <= product(sizes.take(k)) <= product(sizes),
    decreases sizes.len() - k,
{
    if k == sizes.len() {
        assert(sizes.take(k) =~= sizes);
        lemma_product_least(sizes);
    } else {
        lemma_product_grows(sizes, k + 1);
        let s = sizes.take(k + 1);
        assert(s.drop_last() =~= sizes.take(k));
        assert(s.last() == sizes[k]);
        let p = product(sizes.take(k));
        let c = sizes[k];
        lemma_product_least(sizes.take(k));
        assert(p <= p * c) by (nonlinear_arith)
            requires
                c >= 1,
        ;
    }
}

/// Where no domain is empty, there is at least one tuple.
pub proof fn lemma_product_least(sizes: Seq<nat>)
    requires
        forall|j: int| 0 <= j < sizes.len() ==> #[trigger] sizes[j] >= 1,
    ensures
        product(sizes) >= 1,
    decreases sizes.len(),
{
    if sizes.len() > 0 {
        let front = sizes.drop_last();
        assert forall|j: int| 0 <= j < front.len() implies #[trigger] front[j] >= 1 by {
            assert(sizes[j] >= 1);
        }
        lemma_product_least(front);
        let p = product(front);
        let c = sizes.last();
        assert(sizes[sizes.len() - 1] >= 1);
        assert(p * c >= 1) by (nonlinear_arith)
            requires
                p >= 1,
                c >= 1,
        ;
    }
}

/// The result `r` with `front` put before what it holds.
pub open spec fn prefixed(front: Seq<Range>, r: Result<Seq<Range>, Fault>) -> Result<
    Seq<Range>,
    Fault,
> {
    match r {
        Ok(s) => Ok(front + s),
        Err(f) => Err(f),
    }
}

/// The predicate of an occurrence with the domains of its arguments; or
/// what is wrong with the occurrence.
pub open spec fn entry(t: Reading<FOLogic>, domains: Seq<Integer>) -> Result<Sig, Fault> {
    match t {
        Reading::Node(FOLogic::Predicate { id }, args, r) => match signature(*args, domains) {
            Ok(s) => Ok(Sig { id, domains: s }),
            Err(f) => Err(f),
        },
        _ => Err(Fault::InvalidPredicate),
    }
}

/// The sizes of the domains, in order.
pub open spec fn sizes_of(domains: Seq<Range>) -> Seq<nat> {
    Seq::new(domains.len(), |i: int| domains[i].card)
}

/// The names of the atoms of a predicate, in row-major order of the tuples.
pub open spec fn names_of(table: Seq<Option<Seq<char>>>, sig: Sig) -> Seq<Option<Seq<char>>> {
    Seq::new(
        product(sizes_of(sig.domains)),
        |i: int| Some(atom_name(shown_name(table, sig.id), sizes_of(sig.domains), i as nat)),
    )
}

/// The names of the atoms of the predicates `sigs`, predicate by predicate.
pub open spec fn atom_names(table: Seq<Option<Seq<char>>>, sigs: Seq<Sig>) -> Seq<
    Option<Seq<char>>,
>
    decreases sigs.len(),
{
    if sigs.len() == 0 {
        Seq::empty()
    } else {
        atom_names(table, sigs.drop_last()) + names_of(table, sigs.last())
    }
}

/// The number of atoms of the predicates `sigs`: for each predicate the
/// number of tuples of values of its arguments.
pub open spec fn atom_total(sigs: Seq<Sig>) -> nat
    decreases sigs.len(),
{
    if sigs.len() == 0 {
        0
    } else {
        atom_total(sigs.drop_last()) + product(sizes_of(sigs.last().domains))
    }
}

/// Grounding coverage.  Grounding makes one atom name for every predicate
/// and every tuple of values of its arguments: as many as the sum over the
/// predicates of the products of the sizes of their domains.
pub proof fn law_atom_count(table: Seq<Option<Seq<char>>>, sigs: Seq<Sig>)
    ensures
        atom_names(table, sigs).len() == atom_total(sigs),
    decreases sigs.len(),
{
    if sigs.len() > 0 {
        law_atom_count(table, sigs.drop_last());
    }
}

/// No predicate of `list` has atoms yet.
pub open spec fn all_bare(list: Seq<Grounded>) -> bool {
    forall|k: int| 0 <= k < list.len() ==> (#[trigger] list[k]).grounded@.len() == 0
}

/// Every atom of `list` is an entry of `table` that carries the atom's
/// name.
pub open spec fn atoms_named(
    list: Seq<Grounded>,
    source: Seq<Option<Seq<char>>>,
    table: Seq<Option<Seq<char>>>,
) -> bool {
    forall|k: int, i: int|
        0 <= k < list.len() && 0 <= i < list[k].grounded@.len() ==> (
        #[trigger] list[k].grounded@[i]).addr < table.len() && table[list[k].grounded@[i].addr
            as int] == Some(atom_name(shown_name(source, list[k].id), list[k].sizes(), i as nat))
}

/// Adding entries to a table moves none that is there.
pub proof fn lemma_added_keeps(table: Seq<Option<Seq<char>>>, entry: Option<Seq<char>>)
    ensures
        table.len() <= added(table, entry).len(),
        forall|i: int| 0 <= i < table.len() ==> #[trigger] added(table, entry)[i] == table[i],
{
}

impl Grounded {
    /// The predicate at `predicate` with the domains of its arguments, and
    /// no atoms yet.
    #[verifier::loop_isolation(false)]
    fn add_predicate(
        predicate: IndexedRef<FirstOrderTree>,
        domains: &[Integer],
        Ghost(t): Ghost<Reading<FOLogic>>,
    ) -> (r: Result<Grounded, &'static str>)
        requires
            reads(predicate.array.nodes(), predicate.idx, t),
            !(t is Empty),
        ensures
            match r {
                Ok(g) => entry(t, domains@) == Ok::<Sig, Fault>(
                    Sig { id: g.id, domains: ranges(g.domains@) },
                ) && g.grounded@.len() == 0,
                Err(e) => entry(t, domains@) is Err && e@ == fault_text(
                    entry(t, domains@)->Err_0,
                ),
            },
    {
        let tree = predicate.array;
        let cell = tree.get(predicate.idx);
        let pred_id = match cell.value {
            FOLogic::Predicate { id } => id,
            _ => {
                return Err(Fault::InvalidPredicate.message());
            },
        };
        let ghost args: Reading<FOLogic> = *t->Node_1;
        let ghost mut rest: Reading<FOLogic> = args;
        let mut grounded_domains: Vec<Integer> = Vec::new();
        let mut next: Addr = cell.node.childs[0];
        assert(ranges(grounded_domains@) =~= Seq::<Range>::empty());
        assert(prefixed(Seq::empty(), signature(rest, domains@)) == signature(rest, domains@)) by {
            if signature(rest, domains@) is Ok {
                assert(Seq::<Range>::empty() + signature(rest, domains@)->Ok_0 =~= signature(
                    rest,
                    domains@,
                )->Ok_0);
            }
        }
        while next.is_addr()
            invariant
                reads(tree.nodes(), next, rest),
                signature(args, domains@) == prefixed(
                    ranges(grounded_domains@),
                    signature(rest, domains@),
                ),
            decreases rest,
        {
            let link = tree.get(next);
            let ghost more: Reading<FOLogic> = *rest->Node_1;
            let ghost front = ranges(grounded_domains@);
            match link.value {
                FOLogic::Predicate { id } => {
                    match Grounded::get_domain(id, domains) {
                        Some(domain) => {
                            grounded_domains.push(domain.copy());
                            proof {
                                let d = domains@[domain_index(domains@, id)]@;
                                assert(ranges(grounded_domains@) =~= front.push(d));
                                if signature(more, domains@) is Ok {
                                    let s = signature(more, domains@)->Ok_0;
                                    assert(front + (seq![d] + s) =~= front.push(d) + s);
                                }
                            }
                        },
                        None => {
                            return Err(Fault::UnknownDomain.message());
                        },
                    }
                },
                _ => {
                    return Err(Fault::InvalidPredicate.message());
                },
            }
            next = link.node.childs[0];
            proof {
                rest = more;
            }
        }
        proof {
            assert(rest is Empty);
            assert(ranges(grounded_domains@) + Seq::<Range>::empty() =~= ranges(
                grounded_domains@,
            ));
        }
        Ok(Grounded { id: pred_id, domains: grounded_domains, grounded: Vec::new() })
    }

    /// Holds the arguments of the occurrence at `predicate` against the
    /// domains that `ground` has for the predicate.
    #[verifier::loop_isolation(false)]
    fn check_predicate(
        predicate: IndexedRef<FirstOrderTree>,
        ground: &Grounded,
        domains: &[Integer],
        Ghost(t): Ghost<Reading<FOLogic>>,
    ) -> (r: Result<(), &'static str>)
        requires
            reads(predicate.array.nodes(), predicate.idx, t),
            !(t is Empty),
        ensures
            match r {
                Ok(_) => mismatch(*t->Node_1, ranges(ground.domains@), domains@, 0) is None,
                Err(e) => mismatch(*t->Node_1, ranges(ground.domains@), domains@, 0) is Some
                    && e@ == fault_text(
                    mismatch(*t->Node_1, ranges(ground.domains@), domains@, 0)->0,
                ),
            },
    {
        let tree = predicate.array;
        let cell = tree.get(predicate.idx);
        let ghost args: Reading<FOLogic> = *t->Node_1;
        let ghost mut rest: Reading<FOLogic> = args;
        let ghost expected = ranges(ground.domains@);
        let mut count: usize = 0;
        let mut next: Addr = cell.node.childs[0];
        while next.is_addr()
            invariant
                reads(tree.nodes(), next, rest),
                expected == ranges(ground.domains@),
                count <= ground.domains@.len(),
                mismatch(args, expected, domains@, 0) == mismatch(
                    rest,
                    expected,
                    domains@,
                    count as int,
                ),
            decreases rest,
        {
            let link = tree.get(next);
            let ghost more: Reading<FOLogic> = *rest->Node_1;
            match link.value {
                FOLogic::Predicate { id } => {
                    match Grounded::get_domain(id, domains) {
                        Some(domain) => {
                            if count >= ground.domains.len() {
                                return Err(Fault::ArityMismatch.message());
                            }
                            if !ground.domains[count].same_as(domain) {
                                return Err(Fault::DomainMismatch.message());
                            }
                        },
                        None => {
                            return Err(Fault::UnknownDomain.message());
                        },
                    }
                },
                _ => {
                    return Err(Fault::InvalidPredicate.message());
                },
            }
            next = link.node.childs[0];
            count += 1;
            proof {
                rest = more;
            }
        }
        assert(rest is Empty);
        if count != ground.domains.len() {
            Err(Fault::ArityMismatch.message())
        } else {
            Ok(())
        }
    }

    /// Takes in the occurrence of a predicate at `predicate`: the first
    /// occurrence of a predicate enters it into `ground`, a later one is
    /// held against what `ground` has.
    #[verifier::loop_isolation(false)]
    fn ground_predicate(
        predicate: IndexedRef<FirstOrderTree>,
        ground: &mut Vec<Grounded>,
        domains: &[Integer],
        Ghost(t): Ghost<Reading<FOLogic>>,
    ) -> (r: Result<(), &'static str>)
        requires
            reads(predicate.array.nodes(), predicate.idx, t),
            t matches Reading::Node(FOLogic::Predicate { id }, l, r),
            all_bare(old(ground)@),
        ensures
            all_bare(final(ground)@),
            match r {
                Ok(_) => scan(t, domains@, sigs_of(old(ground)@)) == Ok::<Seq<Sig>, Fault>(
                    sigs_of(final(ground)@),
                ),
                Err(e) => scan(t, domains@, sigs_of(old(ground)@)) is Err && e@ == fault_text(
                    scan(t, domains@, sigs_of(old(ground)@))->Err_0,
                ),
            },
    {
        let id = match predicate.array.get(predicate.idx).value {
            FOLogic::Predicate { id } => id,
            _ => Addr::none(),
        };
        let ghost found = sigs_of(ground@);
        let mut k: usize = 0;
        while k < ground.len()
            invariant
                k <= ground@.len(),
                ground@ == old(ground)@,
                found == sigs_of(ground@),
                forall|j: int| 0 <= j < k ==> (#[trigger] found[j]).id != id,
            decreases ground@.len() - k,
        {
            if ground[k].id.addr == id.addr {
                proof {
                    lemma_position(found, id, k as int);
                }
                return Grounded::check_predicate(predicate, &ground[k], domains, Ghost(t));
            }
            k += 1;
        }
        proof {
            lemma_position(found, id, found.len() as int);
        }
        match Grounded::add_predicate(predicate, domains, Ghost(t)) {
            Ok(g) => {
                ground.push(g);
                proof {
                    assert(sigs_of(ground@) =~= found.push(
                        Sig { id: g.id, domains: ranges(g.domains@) },
                    ));
                }
                Ok(())
            },
            Err(e) => Err(e),
        }
    }

    /// Takes in every occurrence of a predicate under `node`, from left to
    /// right.
    fn ground_recursive(
        node: IndexedRef<FirstOrderTree>,
        ground: &mut Vec<Grounded>,
        domains: &[Integer],
        Ghost(t): Ghost<Reading<FOLogic>>,
    ) -> (r: Result<(), &'static str>)
        requires
            reads(node.array.nodes(), node.idx, t),
            all_bare(old(ground)@),
        ensures
            all_bare(final(ground)@),
            match r {
                Ok(_) => scan(t, domains@, sigs_of(old(ground)@)) == Ok::<Seq<Sig>, Fault>(
                    sigs_of(final(ground)@),
                ),
                Err(e) => scan(t, domains@, sigs_of(old(ground)@)) is Err && e@ == fault_text(
                    scan(t, domains@, sigs_of(old(ground)@))->Err_0,
                ),
            },
        decreases t,
    {
        if node.idx.is_none() {
            return Ok(());
        }
        let cell = node.array.get(node.idx);
        let ghost l: Reading<FOLogic> = *t->Node_1;
        let ghost r: Reading<FOLogic> = *t->Node_2;
        if let FOLogic::Predicate { .. } = cell.value {
            Grounded::ground_predicate(node, ground, domains, Ghost(t))
        } else {
            match Grounded::ground_recursive(
                IndexedRef { array: node.array, idx: cell.node.childs[0] },
                ground,
                domains,
                Ghost(l),
            ) {
                Ok(_) => {},
                Err(e) => {
                    return Err(e);
                },
            }
            Grounded::ground_recursive(
                IndexedRef { array: node.array, idx: cell.node.childs[1] },
                ground,
                domains,
                Ghost(r),
            )
        }
    }

    /// A copy of the domains of the predicate.
    fn copy_domains(&self) -> (d: Vec<Integer>)
        ensures
            ranges(d@) == ranges(self.domains@),
    {
        let mut d: Vec<Integer> = Vec::new();
        let mut i: usize = 0;
        while i < self.domains.len()
            invariant
                i <= self.domains@.len(),
                d@.len() == i,
                forall|j: int| 0 <= j < i ==> (#[trigger] d@[j])@ == self.domains@[j]@,
            decreases self.domains@.len() - i,
        {
            d.push(self.domains[i].copy());
            i += 1;
        }
        assert(ranges(d@) =~= ranges(self.domains@));
        d
    }

    /// Enters into `target` a name for every tuple of values of the
    /// predicate, in row-major order, and returns the addresses of the
    /// entries.
    fn allocate<U: Copy, const N: usize>(
        &self,
        radical: &String,
        count: usize,
        target: &mut Tree<U, N>,
    ) -> (atoms: Vec<Addr>)
        requires
            old(target).wf(),
            count == product(self.sizes()),
        ensures
            final(target).wf(),
            final(target).nodes() == old(target).nodes(),
            final(target).root() == old(target).root(),
            atoms@.len() == count,
            final(target).table() == merged(
                old(target).table(),
                Seq::new(
                    count as nat,
                    |i: int| Some(atom_name(radical@, self.sizes(), i as nat)),
                ),
            ),
            old(target).table().len() <= final(target).table().len(),
            forall|i: int|
                0 <= i < old(target).table().len() ==> #[trigger] final(target).table()[i] == old(
                    target,
                ).table()[i],
            forall|i: int|
                0 <= i < count ==> (#[trigger] atoms@[i]).addr < final(target).table().len()
                    && final(target).table()[atoms@[i].addr as int] == Some(
                    atom_name(radical@, self.sizes(), i as nat),
                ),
    {
        let ghost names = Seq::new(
            count as nat,
            |i: int| Some(atom_name(radical@, self.sizes(), i as nat)),
        );
        let mut atoms: Vec<Addr> = Vec::new();
        let mut idx: usize = 0;
        assert(names.take(0) =~= Seq::<Option<Seq<char>>>::empty());
        while idx < count
            invariant
                idx <= count,
                count == product(self.sizes()),
                names == Seq::new(
                    count as nat,
                    |i: int| Some(atom_name(radical@, self.sizes(), i as nat)),
                ),
                target.wf(),
                target.nodes() == old(target).nodes(),
                target.root() == old(target).root(),
                atoms@.len() == idx,
                target.table() == merged(old(target).table(), names.take(idx as int)),
                old(target).table().len() <= target.table().len(),
                forall|i: int|
                    0 <= i < old(target).table().len() ==> #[trigger] target.table()[i] == old(
                        target,
                    ).table()[i],
                forall|i: int|
                    0 <= i < idx ==> (#[trigger] atoms@[i]).addr < target.table().len()
                        && target.table()[atoms@[i].addr as int] == names[i],
            decreases count - idx,
        {
            proof {
                let next = names.take(idx + 1);
                assert(next.drop_last() =~= names.take(idx as int));
                assert(next.last() == names[idx as int]);
                lemma_added_keeps(target.table(), names[idx as int]);
            }
            let name = self.format(radical, idx);
            let a = target.add_named(&name);
            atoms.push(a);
            idx += 1;
        }
        assert(names.take(count as int) =~= names);
        atoms
    }

    /// Grounds the predicates of `source` over `domains`: finds every
    /// predicate with the domains of its arguments, in the order of first
    /// occurrence, and enters into the symbol table of `target` a named atom
    /// for every tuple of values of every predicate.
    #[verifier::loop_isolation(false)]
    pub fn ground<U: Copy, const N: usize>(
        source: &FirstOrderTree,
        target: &mut Tree<U, N>,
        domains: &[Integer],
    ) -> (r: Result<Vec<Grounded>, &'static str>)
        requires
            source.readable_at(source.root()),
            old(target).wf(),
        ensures
            final(target).wf(),
            final(target).nodes() == old(target).nodes(),
            final(target).root() == old(target).root(),
            r is Ok <==> grounding(source.reading(), domains@) is Ok,
            match r {
                Ok(list) => {
                    &&& grounding(source.reading(), domains@) == Ok::<Seq<Sig>, Fault>(
                        sigs_of(list@),
                    )
                    &&& forall|k: int| 0 <= k < list@.len() ==> (#[trigger] list@[k]).complete()
                    &&& final(target).table() == merged(
                        old(target).table(),
                        atom_names(source.table(), sigs_of(list@)),
                    )
                    &&& atoms_named(list@, source.table(), final(target).table())
                },
                Err(e) => {
                    &&& final(target).table() == old(target).table()
                    &&& e@ == fault_text(grounding(source.reading(), domains@)->Err_0)
                },
            },
    {
        let ghost t = source.reading();
        let mut scanned: Vec<Grounded> = Vec::new();
        assert(sigs_of(scanned@) =~= Seq::<Sig>::empty());
        match Grounded::ground_recursive(source.output(), &mut scanned, domains, Ghost(t)) {
            Ok(_) => {},
            Err(e) => {
                return Err(e);
            },
        }
        let ghost sigs = sigs_of(scanned@);
        let mut counts: Vec<usize> = Vec::new();
        let mut k: usize = 0;
        while k < scanned.len()
            invariant
                k <= scanned@.len(),
                sigs == sigs_of(scanned@),
                counts@.len() == k,
                forall|j: int|
                    0 <= j < k ==> #[trigger] counts@[j] == product(sizes_of(sigs[j].domains)),
            decreases scanned@.len() - k,
        {
            proof {
                assert(scanned@[k as int].sizes() =~= sizes_of(sigs[k as int].domains));
            }
            match scanned[k].checked_len() {
                Some(n) => {
                    counts.push(n);
                },
                None => {
                    proof {
                        assert(!fits(sigs)) by {
                            if fits(sigs) {
                                assert(product(sizes_of(sigs[k as int].domains)) <= usize::MAX);
                            }
                        }
                    }
                    return Err(Fault::TooManyAtoms.message());
                },
            }
            k += 1;
        }
        assert(fits(sigs)) by {
            assert forall|j: int| 0 <= j < sigs.len() implies product(
                sizes_of((#[trigger] sigs[j]).domains),
            ) <= usize::MAX by {
                assert(counts@[j] == product(sizes_of(sigs[j].domains)));
            }
        }
        let mut list: Vec<Grounded> = Vec::new();
        let mut g: usize = 0;
        assert(sigs.take(0) =~= Seq::<Sig>::empty());
        assert(atom_names(source.table(), sigs.take(0)) =~= Seq::<Option<Seq<char>>>::empty());
        while g < scanned.len()
            invariant
                g <= scanned@.len(),
                sigs == sigs_of(scanned@),
                counts@.len() == scanned@.len(),
                forall|j: int|
                    0 <= j < counts@.len() ==> #[trigger] counts@[j] == product(
                        sizes_of(sigs[j].domains),
                    ),
                list@.len() == g,
                sigs_of(list@) == sigs.take(g as int),
                forall|j: int| 0 <= j < g ==> (#[trigger] list@[j]).complete(),
                target.wf(),
                target.nodes() == old(target).nodes(),
                target.root() == old(target).root(),
                target.table() == merged(
                    old(target).table(),
                    atom_names(source.table(), sigs.take(g as int)),
                ),
                atoms_named(list@, source.table(), target.table()),
            decreases scanned@.len() - g,
        {
            let ghost before = target.table();
            let ghost earlier = list@;
            let radical = source.fmt_named(scanned[g].id);
            proof {
                assert(scanned@[g as int].sizes() =~= sizes_of(sigs[g as int].domains));
            }
            let atoms = scanned[g].allocate(&radical, counts[g], target);
            let domains_copy = scanned[g].copy_domains();
            let made = Grounded { id: scanned[g].id, domains: domains_copy, grounded: atoms };
            list.push(made);
            proof {
                let sig = sigs[g as int];
                assert(made.sizes() =~= sizes_of(sig.domains));
                assert(made.sizes() =~= scanned@[g as int].sizes());
                assert(sigs_of(list@) =~= sigs.take(g + 1));
                assert(sigs.take(g + 1).drop_last() =~= sigs.take(g as int));
                assert(sigs.take(g + 1).last() == sig);
                let these = names_of(source.table(), sig);
                assert(these =~= Seq::new(
                    counts@[g as int] as nat,
                    |i: int| Some(atom_name(radical@, scanned@[g as int].sizes(), i as nat)),
                ));
                lemma_merged_append(
                    old(target).table(),
                    atom_names(source.table(), sigs.take(g as int)),
                    these,
                );
                assert forall|k: int, i: int|
                    0 <= k < list@.len() && 0 <= i < list@[k].grounded@.len() implies (
                #[trigger] list@[k].grounded@[i]).addr < target.table().len()
                    && target.table()[list@[k].grounded@[i].addr as int] == Some(
                    atom_name(shown_name(source.table(), list@[k].id), list@[k].sizes(), i as nat),
                ) by {
                    if k < g {
                        assert(list@[k] == earlier[k]);
                        assert(earlier[k].grounded@[i].addr < before.len());
                    }
                }
            }
            g += 1;
        }
        assert(sigs.take(sigs.len() as int) =~= sigs);
        Ok(list)
    }
}

/// A machine word can count the atoms of every predicate.
pub open spec fn fits(sigs: Seq<Sig>) -> bool {
    forall|k: int|
        0 <= k < sigs.len() ==> product(sizes_of((#[trigger] sigs[k]).domains)) <= usize::MAX
}

/// The predicates of a formula with the domains of their arguments, in the
/// order of first occurrence; or what keeps the formula from being
/// grounded.
pub open spec fn grounding(t: Reading<FOLogic>, domains: Seq<Integer>) -> Result<Seq<Sig>, Fault> {
    match scan(t, domains, Seq::empty()) {
        Ok(sigs) => if fits(sigs) {
            Ok(sigs)
        } else {
            Err(Fault::TooManyAtoms)
        },
        Err(f) => Err(f),
    }
}

/// Adding two runs of entries one after the other is adding them at once.
pub proof fn lemma_merged_append(
    base: Seq<Option<Seq<char>>>,
    first: Seq<Option<Seq<char>>>,
    second: Seq<Option<Seq<char>>>,
)
    ensures
        merged(merged(base, first), second) == merged(base, first + second),
    decreases second.len(),
{
    if second.len() == 0 {
        assert(first + second =~= first);
    } else {
        lemma_merged_append(base, first, second.drop_last());
        assert((first + second).drop_last() =~= first + second.drop_last());
        assert((first + second).last() == second.last());
    }
}

} // verus!
