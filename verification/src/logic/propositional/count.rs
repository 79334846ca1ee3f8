//! The number of models, counted over the disjunctive normal form.

use vstd::prelude::*;
use crate::logic::semantic::Eval;
use crate::tree::Mapping;
use crate::solver::bits::{
    bit, bits_of, lemma_pow2_grows, lemma_shr_empty, lemma_shr_step, pow2, shr,
};
use crate::solver::naive::{model_count, models_below};
use crate::tree::reading::{Reading, lemma_reads_unique, reads};
use super::{PLogic, PropositionalTree, in_scope, is_formula};
use super::clause::{
    agrees, allowed, collect_clauses, fixed, gathered, lemma_gathered, lemma_gathered_len, rows,
};
use super::distribute::distribute_nodes;
use super::dnf::{dnf, law_dnf_preserves_truth, lemma_dnf, lemma_dnf_scope};
use super::nnf::{
    law_nnf_preserves_truth, lemma_nnf_in_scope, lemma_nnf_is_nnf, nnf, propositional_to_nnf,
};

verus! {

/// The number `m` gives every variable below `pos` that the clause fixes
/// the value it is fixed to.
pub open spec fn fits(clause: Seq<Option<bool>>, m: nat, pos: nat) -> bool {
    forall|j: int|
        0 <= j < pos && j < clause.len() && (#[trigger] clause[j]) is Some ==> bit(m, j as nat)
            == clause[j]->0
}

/// The numbers that, shifted by `pos` bits, are `acc`, and that fit the
/// clause below `pos`.
pub open spec fn completions(clause: Seq<Option<bool>>, pos: nat, acc: nat) -> Set<usize> {
    Set::new(|m: usize| shr(m as nat, pos) == acc && fits(clause, m as nat, pos))
}

/// The completions at a position are those one position down, with the
/// bit at that position as the clause fixes it or either way.
proof fn lemma_completions_step(clause: Seq<Option<bool>>, pos: nat, acc: nat)
    requires
        1 <= pos <= clause.len(),
    ensures
        completions(clause, pos, acc) == (match clause[pos - 1] {
            Some(b) => completions(
                clause,
                (pos - 1) as nat,
                2 * acc + (if b {
                    1nat
                } else {
                    0nat
                }),
            ),
            None => completions(clause, (pos - 1) as nat, 2 * acc).union(
                completions(clause, (pos - 1) as nat, 2 * acc + 1),
            ),
        }),
{
    let j = (pos - 1) as nat;
    let want = match clause[pos - 1] {
        Some(b) => completions(
            clause,
            j,
            2 * acc + (if b {
                1nat
            } else {
                0nat
            }),
        ),
        None => completions(clause, j, 2 * acc).union(completions(clause, j, 2 * acc + 1)),
    };
    assert forall|m: usize| completions(clause, pos, acc).contains(m) == want.contains(m) by {
        let low = shr(m as nat, j);
        lemma_shr_step(m as nat, j);
        assert(shr(m as nat, pos) == low / 2);
        assert(bit(m as nat, j) == (low % 2 == 1));
        if fits(clause, m as nat, pos) {
            assert forall|i: int|
                0 <= i < j && i < clause.len() && (#[trigger] clause[i]) is Some implies bit(
                m as nat,
                i as nat,
            ) == clause[i]->0 by {}
            if clause[pos - 1] is Some {
                assert(bit(m as nat, j) == clause[pos - 1]->0);
            }
        }
        if fits(clause, m as nat, j) && (clause[pos - 1] is Some ==> bit(m as nat, j)
            == clause[pos - 1]->0) {
            assert forall|i: int|
                0 <= i < pos && i < clause.len() && (#[trigger] clause[i]) is Some implies bit(
                m as nat,
                i as nat,
            ) == clause[i]->0 by {
                if i == pos - 1 {
                }
            }
        }
    }
    assert(completions(clause, pos, acc) =~= want);
}

/// Puts into `solutions` every number that, shifted by `pos` bits, is
/// `acc`, and that fits the clause below `pos`.
fn complete(
    clause: &Vec<Option<bool>>,
    pos: usize,
    acc: usize,
    solutions: &mut std::collections::HashSet<usize>,
)
    requires
        pos <= clause@.len(),
        acc < pow2((clause@.len() - pos) as nat),
        pow2(clause@.len()) <= usize::MAX,
    ensures
        final(solutions)@ == old(solutions)@.union(completions(clause@, pos as nat, acc as nat)),
    decreases pos,
{
    if pos == 0 {
        solutions.insert(acc);
        proof {
            let one = completions(clause@, 0, acc as nat);
            assert forall|m: usize| one.contains(m) == (m == acc) by {
                assert(shr(m as nat, 0) == m);
            }
            assert(solutions@ =~= old(solutions)@.union(one));
        }
        return ;
    }
    let j: usize = pos - 1;
    proof {
        lemma_completions_step(clause@, pos as nat, acc as nat);
        lemma_pow2_grows((clause@.len() - j) as nat, clause@.len());
        assert(pow2((clause@.len() - j) as nat) == 2 * pow2((clause@.len() - pos) as nat));
    }
    match clause[j] {
        Some(b) => {
            let low: usize = if b {
                1
            } else {
                0
            };
            complete(clause, j, 2 * acc + low, solutions);
        },
        None => {
            complete(clause, j, 2 * acc, solutions);
            complete(clause, j, 2 * acc + 1, solutions);
            proof {
                let a = completions(clause@, j as nat, (2 * acc) as nat);
                let b = completions(clause@, j as nat, (2 * acc + 1) as nat);
                assert(old(solutions)@.union(a).union(b) =~= old(solutions)@.union(a.union(b)));
            }
        },
    }
}

/// The numbers below two to the `n` whose assignments some clause allows.
pub open spec fn solutions_of(found: Seq<Seq<Option<bool>>>, n: nat) -> Set<usize> {
    Set::new(|m: usize| m < pow2(n) && allowed(found, bits_of(m as nat, n)))
}

/// The completions of a clause over `n` variables are the numbers below two
/// to the `n` whose assignments the clause allows.
proof fn lemma_completions_all(clause: Seq<Option<bool>>, n: nat)
    requires
        clause.len() == n,
    ensures
        completions(clause, n, 0) == Set::new(
            |m: usize| m < pow2(n) && agrees(clause, bits_of(m as nat, n)),
        ),
{
    let want = Set::new(|m: usize| m < pow2(n) && agrees(clause, bits_of(m as nat, n)));
    assert forall|m: usize| completions(clause, n, 0).contains(m) == want.contains(m) by {
        lemma_shr_empty(m as nat, n);
        let s = bits_of(m as nat, n);
        if fits(clause, m as nat, n) {
            assert forall|j: int| 0 <= j < clause.len() && (#[trigger] clause[j])
                is Some implies j < s.len() && s[j] == clause[j]->0 by {}
        }
        if agrees(clause, s) {
            assert forall|j: int|
                0 <= j < n && j < clause.len() && (#[trigger] clause[j]) is Some implies bit(
                m as nat,
                j as nat,
            ) == clause[j]->0 by {
                assert(s[j] == bit(m as nat, j as nat));
            }
        }
    }
    assert(completions(clause, n, 0) =~= want);
}

/// The numbers below `k` whose assignments over `n` variables satisfy the
/// formula of `tree`.
pub open spec fn models(tree: &PropositionalTree, n: nat, k: nat) -> Set<usize> {
    Set::new(|m: usize| m < k && tree.value(bits_of(m as nat, n)))
}

/// There are as many such numbers as the naive count finds.
pub proof fn lemma_models_counted(tree: &PropositionalTree, n: nat, k: nat)
    requires
        k <= usize::MAX,
    ensures
        models(tree, n, k).finite(),
        models(tree, n, k).len() == models_below(tree, n, k),
    decreases k,
{
    if k == 0 {
        assert(models(tree, n, k) =~= Set::<usize>::empty());
    } else {
        let last = (k - 1) as usize;
        lemma_models_counted(tree, n, (k - 1) as nat);
        let before = models(tree, n, (k - 1) as nat);
        if tree.value(bits_of((k - 1) as nat, n)) {
            assert(models(tree, n, k) =~= before.insert(last));
            assert(!before.contains(last));
        } else {
            assert(models(tree, n, k) =~= before);
        }
    }
}

/// Counting agreement.  The assignments that the clauses of the
/// disjunctive normal form of a formula allow, each counted once, are as
/// many as the assignments that the naive solver finds to satisfy the
/// formula.
pub proof fn law_counting_agreement(tree: &PropositionalTree, n: nat)
    requires
        tree.is_formula(),
        in_scope(tree.formula(), n),
        pow2(n) <= usize::MAX,
    ensures
        solutions_of(
            gathered(dnf(nnf(tree.formula(), false)), n, Seq::empty()),
            n,
        ).len() == model_count(tree, n),
{
    let f = tree.formula();
    let t = choose|t: Reading<PLogic>| reads(tree.nodes(), tree.root(), t) && is_formula(t);
    lemma_reads_unique(tree.nodes(), tree.root(), t, f);
    let normal = nnf(f, false);
    let found = gathered(dnf(normal), n, Seq::empty());
    lemma_nnf_is_nnf(f, false);
    lemma_nnf_in_scope(f, false, n);
    lemma_dnf(normal);
    lemma_dnf_scope(normal, n);
    assert forall|m: usize|
        solutions_of(found, n).contains(m) == models(tree, n, pow2(n)).contains(m) by {
        let s = bits_of(m as nat, n);
        lemma_gathered(dnf(normal), n, Seq::empty(), s);
        assert(!allowed(Seq::<Seq<Option<bool>>>::empty(), s));
        law_dnf_preserves_truth(normal, s);
        law_nnf_preserves_truth(f, false, s);
    }
    assert(solutions_of(found, n) =~= models(tree, n, pow2(n)));
    lemma_models_counted(tree, n, pow2(n));
}

/// The number of assignments that satisfy the formula of `tree`, counted
/// over its disjunctive normal form: the formula is brought into negation
/// normal form, the distributive law is used until no conjunction is over
/// a disjunction, the clauses of the terms are gathered, and the
/// assignments that some clause allows are counted, each once.
pub fn count_propositional(tree: &PropositionalTree) -> (count: usize)
    requires
        tree.wf(),
        tree.is_formula(),
        in_scope(tree.formula(), tree.table().len()),
        pow2(tree.table().len()) <= usize::MAX,
    ensures
        count == model_count(tree, tree.table().len()),
{
    let ghost f = tree.formula();
    let n: usize = tree.num_named();
    let mut nnf = propositional_to_nnf(tree);
    let ghost normal = nnf.formula();
    let ghost start = nnf.nodes();
    proof {
        let t = choose|t: Reading<PLogic>|
            reads(tree.nodes(), tree.root(), t) && is_formula(t);
        lemma_reads_unique(tree.nodes(), tree.root(), t, f);
        let u = choose|u: Reading<PLogic>|
            reads(nnf.nodes(), nnf.root(), u) && is_formula(u);
        lemma_reads_unique(nnf.nodes(), nnf.root(), u, normal);
        lemma_nnf_in_scope(f, false, n as nat);
        lemma_dnf(normal);
        lemma_dnf_scope(normal, n as nat);
    }
    let root = nnf.output_addr();
    distribute_nodes(&mut nnf, root, Ghost(normal));
    let mut clauses: Vec<Vec<Option<bool>>> = Vec::new();
    assert(rows(clauses@) =~= Seq::<Seq<Option<bool>>>::empty());
    collect_clauses(&nnf, root, &mut clauses, n, Ghost(dnf(normal)));
    let ghost found = rows(clauses@);
    proof {
        lemma_gathered_len(dnf(normal), n as nat, Seq::empty());
    }
    let mut solutions: std::collections::HashSet<usize> = std::collections::HashSet::new();
    let mut i: usize = 0;
    assert(solutions@ =~= solutions_of(found.take(0), n as nat)) by {
        assert forall|m: usize| !solutions_of(found.take(0), n as nat).contains(m) by {
            assert(!allowed(found.take(0), bits_of(m as nat, n as nat)));
        }
    }
    while i < clauses.len()
        invariant
            i <= clauses@.len(),
            found == rows(clauses@),
            forall|k: int| 0 <= k < found.len() ==> (#[trigger] found[k]).len() == n,
            pow2(n as nat) <= usize::MAX,
            solutions@ == solutions_of(found.take(i as int), n as nat),
        decreases clauses@.len() - i,
    {
        proof {
            assert(found[i as int].len() == n);
            assert(clauses@[i as int]@ == found[i as int]);
            lemma_completions_all(found[i as int], n as nat);
            lemma_pow2_grows(0, n as nat);
        }
        complete(&clauses[i], n, 0, &mut solutions);
        proof {
            let before = found.take(i as int);
            let next = found.take(i + 1);
            let c = found[i as int];
            assert(next =~= before.push(c));
            assert forall|m: usize|
                solutions_of(next, n as nat).contains(m) == (solutions_of(
                    before,
                    n as nat,
                ).contains(m) || completions(c, n as nat, 0).contains(m)) by {
                let s = bits_of(m as nat, n as nat);
                if allowed(before, s) {
                    let k = choose|k: int| 0 <= k < before.len() && agrees(#[trigger] before[k], s);
                    assert(next[k] == before[k]);
                }
                if agrees(c, s) {
                    assert(next[i as int] == c);
                }
                if allowed(next, s) {
                    let k = choose|k: int| 0 <= k < next.len() && agrees(#[trigger] next[k], s);
                    if k < i {
                        assert(before[k] == next[k]);
                    }
                }
            }
            assert(solutions@ =~= solutions_of(next, n as nat));
        }
        i += 1;
    }
    proof {
        assert(found.take(found.len() as int) =~= found);
        law_counting_agreement(tree, n as nat);
    }
    solutions.len()
}

} // verus!
