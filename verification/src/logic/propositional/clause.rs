//! Clauses: what the terms of a disjunctive normal form fix.

use vstd::prelude::*;
use crate::tree::Addr;
use crate::tree::reading::{Reading, reads};
use super::{PLogic, PropositionalTree, in_scope, truth};
use super::dnf::{fixes_some, is_dnf, is_term};
use super::nnf::is_nnf;

verus! {

/// The assignment `s` is one of those that the clause allows: every
/// variable that the clause fixes has in `s` the value it is fixed to.
pub open spec fn agrees(clause: Seq<Option<bool>>, s: Seq<bool>) -> bool {
    forall|j: int|
        0 <= j < clause.len() && (#[trigger] clause[j]) is Some ==> j < s.len() && s[j]
            == clause[j]->0
}

/// The clause with the variable `j` fixed to `b`; nothing if it is fixed to
/// the other value already.
pub open spec fn fixed(clause: Seq<Option<bool>>, j: int, b: bool) -> Option<Seq<Option<bool>>> {
    if clause[j] == Some(!b) {
        None
    } else {
        Some(clause.update(j, Some(b)))
    }
}

/// The clause of a term, on top of what `start` fixes: every variable of
/// the term fixed to the value that its literal asks for; nothing if two
/// literals contradict each other.
pub open spec fn term_clause(t: Reading<PLogic>, start: Seq<Option<bool>>) -> Option<
    Seq<Option<bool>>,
>
    decreases t,
{
    match t {
        Reading::Node(PLogic::Variable { id }, l, r) => fixed(start, id.addr as int, true),
        Reading::Node(PLogic::Not, l, r) => fixed(start, (*l)->Node_0->id.addr as int, false),
        Reading::Node(PLogic::And, l, r) => match term_clause(*l, start) {
            Some(c) => term_clause(*r, c),
            None => None,
        },
        _ => None,
    }
}

/// The clause of a term allows exactly the assignments that `start` allows
/// and under which the term is true.
pub proof fn lemma_term_clause(t: Reading<PLogic>, start: Seq<Option<bool>>, s: Seq<bool>)
    requires
        is_term(t),
        in_scope(t, start.len()),
        s.len() == start.len(),
    ensures
        term_clause(t, start) is Some ==> term_clause(t, start)->0.len() == start.len(),
        (agrees(start, s) && truth(t, s)) <==> (term_clause(t, start) is Some && agrees(
            term_clause(t, start)->0,
            s,
        )),
    decreases t,
{
    match t {
        Reading::Empty => {},
        Reading::Node(v, l, r) => {
            match v {
                PLogic::Variable { id } => {
                    lemma_fixed(start, id.addr as int, true, s);
                },
                PLogic::Not => {
                    let id = (*l)->Node_0->id;
                    assert(in_scope(*l, start.len()));
                    assert(truth(*l, s) == s[id.addr as int]);
                    lemma_fixed(start, id.addr as int, false, s);
                },
                PLogic::And => {
                    lemma_term_clause(*l, start, s);
                    if term_clause(*l, start) is Some {
                        lemma_term_clause(*r, term_clause(*l, start)->0, s);
                    }
                },
                PLogic::Or => {},
            }
        },
    }
}

/// A clause with one variable more fixed allows the assignments that it
/// allowed and that give the variable that value.
proof fn lemma_fixed(clause: Seq<Option<bool>>, j: int, b: bool, s: Seq<bool>)
    requires
        0 <= j < clause.len(),
        s.len() == clause.len(),
    ensures
        (agrees(clause, s) && s[j] == b) <==> (fixed(clause, j, b) is Some && agrees(
            fixed(clause, j, b)->0,
            s,
        )),
{
    if clause[j] == Some(!b) {
        if agrees(clause, s) {
            assert(clause[j] is Some);
        }
    } else {
        let c = clause.update(j, Some(b));
        if agrees(clause, s) && s[j] == b {
            assert forall|i: int| 0 <= i < c.len() && (#[trigger] c[i]) is Some implies i
                < s.len() && s[i] == c[i]->0 by {
                if i != j {
                    assert(clause[i] is Some);
                }
            }
        }
        if agrees(c, s) {
            assert(c[j] is Some);
            assert forall|i: int| 0 <= i < clause.len() && (#[trigger] clause[i])
                is Some implies i < s.len() && s[i] == clause[i]->0 by {
                if i != j {
                    assert(c[i] is Some);
                } else {
                    assert(clause[j] == Some(b));
                }
            }
        }
    }
}

/// Takes the literals of the term at `at` into `clause`.  Tells whether
/// they go together; if they do not, what `clause` holds is of no use.
fn collect_clause(
    tree: &PropositionalTree,
    at: Addr,
    clause: &mut Vec<Option<bool>>,
    Ghost(t): Ghost<Reading<PLogic>>,
) -> (fine: bool)
    requires
        reads(tree.nodes(), at, t),
        is_term(t),
        in_scope(t, old(clause)@.len()),
    ensures
        final(clause)@.len() == old(clause)@.len(),
        fine == term_clause(t, old(clause)@) is Some,
        fine ==> final(clause)@ == term_clause(t, old(clause)@)->0,
    decreases t,
{
    let cell = tree.get(at);
    let ghost l: Reading<PLogic> = *t->Node_1;
    let ghost r: Reading<PLogic> = *t->Node_2;
    match cell.value {
        PLogic::Variable { id } => {
            match clause[id.addr] {
                Some(false) => false,
                _ => {
                    clause[id.addr] = Some(true);
                    true
                },
            }
        },
        PLogic::Not => {
            proof {
                assert(reads(tree.nodes(), cell.node.childs[0], l));
                assert(in_scope(l, clause@.len()));
            }
            match tree.get(cell.node.childs[0]).value {
                PLogic::Variable { id } => {
                    match clause[id.addr] {
                        Some(true) => false,
                        _ => {
                            clause[id.addr] = Some(false);
                            true
                        },
                    }
                },
                _ => false,
            }
        },
        PLogic::And => {
            if !collect_clause(tree, cell.node.childs[0], clause, Ghost(l)) {
                return false;
            }
            proof {
                lemma_term_len(l, old(clause)@);
            }
            collect_clause(tree, cell.node.childs[1], clause, Ghost(r))
        },
        PLogic::Or => false,
    }
}

/// The clause of a term is as long as what it starts from.
pub proof fn lemma_term_len(t: Reading<PLogic>, start: Seq<Option<bool>>)
    requires
        is_term(t),
        in_scope(t, start.len()),
        term_clause(t, start) is Some,
    ensures
        term_clause(t, start)->0.len() == start.len(),
    decreases t,
{
    match t {
        Reading::Empty => {},
        Reading::Node(v, l, r) => {
            match v {
                PLogic::And => {
                    lemma_term_len(*l, start);
                    lemma_term_len(*r, term_clause(*l, start)->0);
                },
                PLogic::Not => {
                    assert(in_scope(*l, start.len()));
                },
                _ => {},
            }
        },
    }
}

/// The clauses as sequences.
pub open spec fn rows(clauses: Seq<Vec<Option<bool>>>) -> Seq<Seq<Option<bool>>> {
    Seq::new(clauses.len(), |i: int| clauses[i]@)
}

/// The clause that fixes none of `n` variables.
pub open spec fn blank(n: nat) -> Seq<Option<bool>> {
    Seq::new(n, |j: int| None::<bool>)
}

/// `found` with the clause `c` at its end, unless it is there already.
pub open spec fn put(found: Seq<Seq<Option<bool>>>, c: Seq<Option<bool>>) -> Seq<
    Seq<Option<bool>>,
> {
    if found.contains(c) {
        found
    } else {
        found.push(c)
    }
}

/// The clauses of a disjunctive normal form over `n` variables, added to
/// `found`: the clause of each term from left to right, a term whose
/// literals contradict each other left out, and no clause twice.
pub open spec fn gathered(
    t: Reading<PLogic>,
    n: nat,
    found: Seq<Seq<Option<bool>>>,
) -> Seq<Seq<Option<bool>>>
    decreases t,
{
    match t {
        Reading::Node(PLogic::Or, l, r) => gathered(*r, n, gathered(*l, n, found)),
        _ => match term_clause(t, blank(n)) {
            Some(c) => put(found, c),
            None => found,
        },
    }
}

/// Some clause of `found` allows the assignment `s`.
pub open spec fn allowed(found: Seq<Seq<Option<bool>>>, s: Seq<bool>) -> bool {
    exists|i: int| 0 <= i < found.len() && agrees(#[trigger] found[i], s)
}

/// The gathered clauses allow exactly the assignments that the clauses
/// before allowed and those under which the disjunctive normal form is
/// true; and every one of them is over `n` variables if those before were.
pub proof fn lemma_gathered(
    t: Reading<PLogic>,
    n: nat,
    found: Seq<Seq<Option<bool>>>,
    s: Seq<bool>,
)
    requires
        is_dnf(t),
        in_scope(t, n),
        s.len() == n,
    ensures
        allowed(gathered(t, n, found), s) <==> (allowed(found, s) || truth(t, s)),
    decreases t,
{
    match t {
        Reading::Empty => {},
        Reading::Node(v, l, r) => {
            match v {
                PLogic::Or => {
                    lemma_gathered(*l, n, found, s);
                    lemma_gathered(*r, n, gathered(*l, n, found), s);
                },
                _ => {
                    lemma_term_clause(t, blank(n), s);
                    assert(agrees(blank(n), s));
                    if term_clause(t, blank(n)) is Some {
                        lemma_put(found, term_clause(t, blank(n))->0, s);
                    }
                },
            }
        },
    }
}

/// Putting a clause to the clauses adds what it allows.
proof fn lemma_put(found: Seq<Seq<Option<bool>>>, c: Seq<Option<bool>>, s: Seq<bool>)
    ensures
        allowed(put(found, c), s) <==> (allowed(found, s) || agrees(c, s)),
{
    let more = put(found, c);
    if allowed(found, s) {
        let i = choose|i: int| 0 <= i < found.len() && agrees(#[trigger] found[i], s);
        assert(more[i] == found[i]);
    }
    if agrees(c, s) {
        if found.contains(c) {
            let i = choose|i: int| 0 <= i < found.len() && found[i] == c;
            assert(agrees(more[i], s));
        } else {
            assert(agrees(more[found.len() as int], s));
        }
    }
    if allowed(more, s) {
        let i = choose|i: int| 0 <= i < more.len() && agrees(#[trigger] more[i], s);
        if i < found.len() {
            assert(found[i] == more[i]);
        }
    }
}

/// Every gathered clause is over `n` variables if those before were.
pub proof fn lemma_gathered_len(t: Reading<PLogic>, n: nat, found: Seq<Seq<Option<bool>>>)
    requires
        is_dnf(t),
        in_scope(t, n),
        forall|i: int| 0 <= i < found.len() ==> (#[trigger] found[i]).len() == n,
    ensures
        forall|i: int|
            0 <= i < gathered(t, n, found).len() ==> (#[trigger] gathered(t, n, found)[i]).len()
                == n,
    decreases t,
{
    match t {
        Reading::Empty => {
            assert(!is_nnf(t));
        },
        Reading::Node(v, l, r) => {
            match v {
                PLogic::Or => {
                    lemma_gathered_len(*l, n, found);
                    lemma_gathered_len(*r, n, gathered(*l, n, found));
                    assert(gathered(t, n, found) == gathered(*r, n, gathered(*l, n, found)));
                },
                _ => {
                    assert(is_term(t));
                    if term_clause(t, blank(n)) is Some {
                        lemma_term_len(t, blank(n));
                        let c = term_clause(t, blank(n))->0;
                        let all = gathered(t, n, found);
                        assert(all == put(found, c));
                        assert forall|i: int| 0 <= i < all.len() implies (#[trigger] all[i]).len()
                            == n by {
                            if i < found.len() {
                                assert(all[i] == found[i]);
                            }
                        }
                    } else {
                        assert(gathered(t, n, found) == found);
                    }
                },
            }
        },
    }
}

/// Whether the two clauses fix the same variables to the same values.
fn same_clause(a: &Vec<Option<bool>>, b: &Vec<Option<bool>>) -> (same: bool)
    ensures
        same == (a@ == b@),
{
    if a.len() != b.len() {
        return false;
    }
    let mut j: usize = 0;
    while j < a.len()
        invariant
            j <= a@.len(),
            a@.len() == b@.len(),
            forall|i: int| 0 <= i < j ==> a@[i] == b@[i],
        decreases a@.len() - j,
    {
        let equal = match (a[j], b[j]) {
            (None, None) => true,
            (Some(x), Some(y)) => x == y,
            _ => false,
        };
        if !equal {
            return false;
        }
        j += 1;
    }
    assert(a@ =~= b@);
    true
}

/// Puts `clause` to `clauses` unless it is there already.
fn put_clause(clauses: &mut Vec<Vec<Option<bool>>>, clause: Vec<Option<bool>>)
    ensures
        rows(final(clauses)@) == put(rows(old(clauses)@), clause@),
{
    let ghost before = rows(clauses@);
    let mut i: usize = 0;
    while i < clauses.len()
        invariant
            i <= clauses@.len(),
            clauses@ == old(clauses)@,
            forall|k: int| 0 <= k < i ==> rows(clauses@)[k] != clause@,
        decreases clauses@.len() - i,
    {
        if same_clause(&clauses[i], &clause) {
            assert(rows(clauses@)[i as int] == clause@);
            return ;
        }
        i += 1;
    }
    clauses.push(clause);
    assert(rows(clauses@) =~= before.push(clause@));
}

/// A clause that fixes none of `n` variables.
fn blank_clause(n: usize) -> (clause: Vec<Option<bool>>)
    ensures
        clause@ == blank(n as nat),
{
    let mut clause: Vec<Option<bool>> = Vec::new();
    let mut j: usize = 0;
    while j < n
        invariant
            j <= n,
            clause@.len() == j,
            forall|i: int| 0 <= i < j ==> clause@[i] is None,
        decreases n - j,
    {
        clause.push(None);
        j += 1;
    }
    assert(clause@ =~= blank(n as nat));
    clause
}

/// Gathers the clauses of the disjunctive normal form at `at` into
/// `clauses`.
pub(crate) fn collect_clauses(
    tree: &PropositionalTree,
    at: Addr,
    clauses: &mut Vec<Vec<Option<bool>>>,
    n: usize,
    Ghost(t): Ghost<Reading<PLogic>>,
)
    requires
        reads(tree.nodes(), at, t),
        is_dnf(t),
        in_scope(t, n as nat),
    ensures
        rows(final(clauses)@) == gathered(t, n as nat, rows(old(clauses)@)),
    decreases t,
{
    let cell = tree.get(at);
    let ghost l: Reading<PLogic> = *t->Node_1;
    let ghost r: Reading<PLogic> = *t->Node_2;
    match cell.value {
        PLogic::Or => {
            collect_clauses(tree, cell.node.childs[0], clauses, n, Ghost(l));
            collect_clauses(tree, cell.node.childs[1], clauses, n, Ghost(r));
        },
        _ => {
            let mut clause = blank_clause(n);
            if collect_clause(tree, at, &mut clause, Ghost(t)) {
                put_clause(clauses, clause);
            }
        },
    }
}

/// Every gathered clause fixes a variable if those before did.
pub proof fn lemma_gathered_fixes(t: Reading<PLogic>, n: nat, found: Seq<Seq<Option<bool>>>)
    requires
        is_dnf(t),
        in_scope(t, n),
        forall|i: int| 0 <= i < found.len() ==> fixes_some(#[trigger] found[i], n),
    ensures
        forall|i: int|
            0 <= i < gathered(t, n, found).len() ==> fixes_some(
                #[trigger] gathered(t, n, found)[i],
                n,
            ),
    decreases t,
{
    match t {
        Reading::Empty => {
            assert(!is_nnf(t));
        },
        Reading::Node(v, l, r) => {
            match v {
                PLogic::Or => {
                    lemma_gathered_fixes(*l, n, found);
                    lemma_gathered_fixes(*r, n, gathered(*l, n, found));
                    assert(gathered(t, n, found) == gathered(*r, n, gathered(*l, n, found)));
                },
                _ => {
                    assert(is_term(t));
                    if term_clause(t, blank(n)) is Some {
                        lemma_term_fixes(t, blank(n), n);
                        let c = term_clause(t, blank(n))->0;
                        let all = gathered(t, n, found);
                        assert(all == put(found, c));
                        assert forall|i: int| 0 <= i < all.len() implies fixes_some(
                            #[trigger] all[i],
                            n,
                        ) by {
                            if i < found.len() {
                                assert(all[i] == found[i]);
                            }
                        }
                    } else {
                        assert(gathered(t, n, found) == found);
                    }
                },
            }
        },
    }
}

/// The clause of a term fixes a variable.
pub proof fn lemma_term_fixes(t: Reading<PLogic>, start: Seq<Option<bool>>, n: nat)
    requires
        is_term(t),
        in_scope(t, n),
        start.len() == n,
        term_clause(t, start) is Some,
    ensures
        fixes_some(term_clause(t, start)->0, n),
        forall|j: int|
            0 <= j < n && (#[trigger] start[j]) is Some ==> term_clause(t, start)->0[j] is Some,
        term_clause(t, start)->0.len() == n,
    decreases t,
{
    match t {
        Reading::Empty => {},
        Reading::Node(v, l, r) => {
            match v {
                PLogic::Variable { id } => {
                    let c = term_clause(t, start)->0;
                    assert(c[id.addr as int] is Some);
                },
                PLogic::Not => {
                    assert(in_scope(*l, n));
                    let id = (*l)->Node_0->id;
                    let c = term_clause(t, start)->0;
                    assert(c[id.addr as int] is Some);
                },
                PLogic::And => {
                    lemma_term_fixes(*l, start, n);
                    let mid = term_clause(*l, start)->0;
                    lemma_term_fixes(*r, mid, n);
                    let c = term_clause(t, start)->0;
                    assert forall|j: int| 0 <= j < n && (#[trigger] start[j]) is Some implies c[j]
                        is Some by {
                        assert(mid[j] is Some);
                    }
                },
                PLogic::Or => {},
            }
        },
    }
}

} // verus!
