//! From propositional formulas to circuits.

use vstd::prelude::*;
use super::{
    in_range, is_circuit, is_plain, plain_sum, worth, PCicruit, ProbabilisticCircuitTree,
    UNIT_WEIGHT,
};
use crate::logic::first_order::compile::{
    ample, arguments, compilable, defect, env_ok, expand, fo2p, lemma_expand_formula,
    lemma_fo2p_formula, lemma_matched_in_bounds, lemma_sound_is_ample,
};
use crate::logic::first_order::ground::{
    as_nats, atom_names, atoms_named, covered, fault_text, lemma_position, lemma_scan_covers,
    sigs_of, Fault, Grounded, Sig,
};
use crate::logic::first_order::{args_of, values_of, FOLogic, FirstOrderTree};
use crate::logic::propositional::{
    in_scope, is_formula, truth, PLogic, PRef, PropositionalTree,
};
use crate::solver::domain::Integer;
use crate::tree::tree::merged;
use crate::solver::bits::{assignment_of, bit, pow2, power_of_two};
use crate::tree::builder::{
    join_of, leaf_of, lemma_planted_above, lemma_planted_links, lemma_planted_reads, planted,
    size_of, top_of,
};
use crate::tree::reading::{lemma_reads_unique, reads, well_linked, Reading};
use crate::tree::tree::lemma_merged_onto_empty;
use crate::tree::{Addr, IndexedRef, Node, NodeValue, Tree};

verus! {

/// The circuit of `t`, or of its negation if `reverse` is set: a variable
/// becomes a leaf that is negated under `reverse`; a negation flips
/// `reverse`; a conjunction becomes a product and a disjunction a sum, and
/// under `reverse` the other way round.
pub open spec fn p2c(t: Reading<PLogic>, reverse: bool) -> Reading<PCicruit>
    decreases t,
{
    match t {
        Reading::Empty => Reading::Empty,
        Reading::Node(PLogic::Variable { id }, l, r) => leaf_of(
            PCicruit::Variable { id, neg: reverse },
        ),
        Reading::Node(PLogic::Not, l, r) => p2c(*l, !reverse),
        Reading::Node(PLogic::And, l, r) => join_of(
            operator(!reverse),
            p2c(*l, reverse),
            p2c(*r, reverse),
        ),
        Reading::Node(PLogic::Or, l, r) => join_of(
            operator(reverse),
            p2c(*l, reverse),
            p2c(*r, reverse),
        ),
    }
}

/// The symbol of a product, or of a sum with weights one.
pub open spec fn operator(product: bool) -> PCicruit {
    if product {
        PCicruit::Product
    } else {
        plain_sum()
    }
}

/// The symbol of a product, or of a sum with weights one.
fn operator_of(product: bool) -> (v: PCicruit)
    ensures
        v == operator(product),
{
    if product {
        PCicruit::Product
    } else {
        PCicruit::Sum { left: UNIT_WEIGHT, right: UNIT_WEIGHT }
    }
}

/// The circuit of a formula is a circuit with weights one over the same
/// variables.
pub proof fn lemma_p2c_is_circuit(t: Reading<PLogic>, reverse: bool)
    requires
        is_formula(t),
    ensures
        is_circuit(p2c(t, reverse)),
        is_plain(p2c(t, reverse)),
    decreases t,
{
    match t {
        Reading::Empty => {},
        Reading::Node(v, l, r) => {
            match v {
                PLogic::Variable { id } => {
                    reveal_with_fuel(is_plain, 2);
                },
                PLogic::Not => {
                    lemma_p2c_is_circuit(*l, !reverse);
                },
                _ => {
                    lemma_p2c_is_circuit(*l, reverse);
                    lemma_p2c_is_circuit(*r, reverse);
                },
            }
        },
    }
}

/// The circuit of a formula has no variable that the formula has not.
pub proof fn lemma_p2c_in_range(t: Reading<PLogic>, reverse: bool, n: nat)
    requires
        is_formula(t),
        in_scope(t, n),
    ensures
        in_range(p2c(t, reverse), n),
    decreases t,
{
    match t {
        Reading::Empty => {},
        Reading::Node(v, l, r) => {
            match v {
                PLogic::Variable { id } => {},
                PLogic::Not => {
                    lemma_p2c_in_range(*l, !reverse, n);
                },
                _ => {
                    lemma_p2c_in_range(*l, reverse, n);
                    lemma_p2c_in_range(*r, reverse, n);
                },
            }
        },
    }
}

/// The circuit of a formula is worth something exactly under the
/// assignments that satisfy the formula; the circuit of its negation, under
/// those that do not.
pub proof fn lemma_p2c_worth(t: Reading<PLogic>, reverse: bool, assignment: Seq<bool>)
    requires
        is_formula(t),
        in_scope(t, assignment.len()),
    ensures
        worth(p2c(t, reverse), assignment) > 0 <==> (truth(t, assignment) != reverse),
    decreases t,
{
    match t {
        Reading::Empty => {},
        Reading::Node(v, l, r) => {
            match v {
                PLogic::Variable { id } => {},
                PLogic::Not => {
                    lemma_p2c_worth(*l, !reverse, assignment);
                },
                _ => {
                    lemma_p2c_worth(*l, reverse, assignment);
                    lemma_p2c_worth(*r, reverse, assignment);
                    let x = worth(p2c(*l, reverse), assignment);
                    let y = worth(p2c(*r, reverse), assignment);
                    assert((x * y > 0) <==> (x > 0 && y > 0)) by (nonlinear_arith);
                },
            }
        },
    }
}

/// The polarity law.  Where the circuit of a formula is worth at most one,
/// it is worth one under the assignments that satisfy the formula and
/// nothing under the others.
pub proof fn law_circuit_polarity(t: Reading<PLogic>, assignment: Seq<bool>)
    requires
        is_formula(t),
        in_scope(t, assignment.len()),
        worth(p2c(t, false), assignment) <= 1,
    ensures
        worth(p2c(t, false), assignment) == 1 <==> truth(t, assignment),
        worth(p2c(t, false), assignment) == 0 <==> !truth(t, assignment),
{
    lemma_p2c_worth(t, false, assignment);
}

/// Builds on `dst` the circuit of the formula under `src`, or of its
/// negation if `reverse` is set.
fn p2c_recusive(
    src: IndexedRef<PropositionalTree>,
    dst: &mut ProbabilisticCircuitTree,
    reverse: bool,
    Ghost(t): Ghost<Reading<PLogic>>,
) -> (a: Addr)
    requires
        reads(src.array.nodes(), src.idx, t),
        is_formula(t),
    ensures
        a == top_of(old(dst).nodes().len(), p2c(t, reverse)),
        final(dst).nodes() == planted(old(dst).nodes(), p2c(t, reverse)),
        final(dst).nodes().len() == old(dst).nodes().len() + size_of(p2c(t, reverse)),
        final(dst).symbols() == old(dst).symbols(),
        final(dst).root() == old(dst).root(),
    decreases t,
{
    let ghost start = dst.nodes();
    let ghost l: Reading<PLogic> = *t->Node_1;
    let ghost r: Reading<PLogic> = *t->Node_2;
    match src.array.get(src.idx).value {
        PLogic::Variable { id } => dst.plant_leaf(PCicruit::Variable { id, neg: reverse }),
        PLogic::Not => p2c_recusive(src.inner(), dst, !reverse, Ghost(l)),
        PLogic::And => {
            proof {
                lemma_p2c_is_circuit(l, reverse);
                lemma_p2c_is_circuit(r, reverse);
            }
            let left = p2c_recusive(src.left(), dst, reverse, Ghost(l));
            let right = p2c_recusive(src.right(), dst, reverse, Ghost(r));
            dst.plant_join(
                operator_of(!reverse),
                left,
                right,
                Ghost(start),
                Ghost(p2c(l, reverse)),
                Ghost(p2c(r, reverse)),
            )
        },
        PLogic::Or => {
            proof {
                lemma_p2c_is_circuit(l, reverse);
                lemma_p2c_is_circuit(r, reverse);
            }
            let left = p2c_recusive(src.left(), dst, reverse, Ghost(l));
            let right = p2c_recusive(src.right(), dst, reverse, Ghost(r));
            dst.plant_join(
                operator_of(reverse),
                left,
                right,
                Ghost(start),
                Ghost(p2c(l, reverse)),
                Ghost(p2c(r, reverse)),
            )
        },
    }
}

/// The circuit of `tree`, as a tree of its own with the same symbol table:
/// conjunctions become products, disjunctions sums with weights one, and
/// negations the polarity of the leaves.
pub fn propositional_to_circuit(tree: &PropositionalTree) -> (out: ProbabilisticCircuitTree)
    requires
        tree.wf(),
        tree.is_formula(),
    ensures
        out.wf(),
        out.table() == tree.table(),
        out.nodes() == planted(Seq::empty(), p2c(tree.formula(), false)),
        out.root() == top_of(0, p2c(tree.formula(), false)),
        out.is_circuit(),
        out.circuit() == p2c(tree.formula(), false),
        is_plain(out.circuit()),
        well_linked(out.nodes()),
        forall|n: nat| in_scope(tree.formula(), n) ==> #[trigger] in_range(out.circuit(), n),
        forall|assignment: Seq<bool>|
            in_scope(tree.formula(), assignment.len()) ==> (worth(out.circuit(), assignment) > 0
                <==> truth(tree.formula(), assignment)),
{
    let ghost t = choose|t: Reading<PLogic>|
        reads(tree.nodes(), tree.root(), t) && is_formula(t);
    proof {
        lemma_reads_unique(tree.nodes(), tree.root(), t, tree.formula());
        tree.symbols().lemma_entries_apart();
        lemma_merged_onto_empty(tree.table());
    }
    let mut out: ProbabilisticCircuitTree = Tree::new();
    out.copy_named(tree);
    let root = p2c_recusive(tree.output(), &mut out, false, Ghost(t));
    out.set_output(root);
    let n: usize = out.len();
    proof {
        let circuit = p2c(t, false);
        let empty = Seq::<NodeValue<Node<2>, PCicruit>>::empty();
        lemma_p2c_is_circuit(t, false);
        lemma_planted_above(empty, circuit);
        lemma_planted_reads(empty, circuit);
        lemma_planted_links(empty, circuit);
        lemma_reads_unique(out.nodes(), out.root(), circuit, out.circuit());
        assert forall|n: nat| in_scope(tree.formula(), n) implies #[trigger] in_range(
            out.circuit(),
            n,
        ) by {
            lemma_p2c_in_range(t, false, n);
        }
        assert forall|assignment: Seq<bool>|
            in_scope(tree.formula(), assignment.len()) implies (worth(out.circuit(), assignment)
            > 0 <==> truth(tree.formula(), assignment)) by {
            lemma_p2c_worth(t, false, assignment);
        }
    }
    out
}

/// Every assignment of the variables `vars`: the assignment number `i`
/// gives the variable at position `j` the bit `j` of `i`.  Nothing if a
/// machine word cannot count the assignments.
pub fn enumerate_variables(vars: Vec<Addr>) -> (all: Option<Vec<Vec<(Addr, bool)>>>)
    ensures
        all is Some <==> pow2(vars@.len()) <= usize::MAX,
        all matches Some(rows) ==> rows@.len() == pow2(vars@.len()) && forall|i: int|
            0 <= i < rows@.len() ==> (#[trigger] rows@[i])@ == row_of(vars@, i as nat),
{
    let count = match power_of_two(vars.len()) {
        Some(c) => c,
        None => {
            return None;
        },
    };
    let mut rows: Vec<Vec<(Addr, bool)>> = Vec::new();
    let mut i: usize = 0;
    while i < count
        invariant
            i <= count,
            rows@.len() == i,
            forall|k: int| 0 <= k < i ==> (#[trigger] rows@[k])@ == row_of(vars@, k as nat),
        decreases count - i,
    {
        let bits = assignment_of(i, vars.len());
        let mut row: Vec<(Addr, bool)> = Vec::new();
        let mut j: usize = 0;
        while j < vars.len()
            invariant
                j <= vars@.len(),
                bits@.len() == vars@.len(),
                bits@ == crate::solver::bits::bits_of(i as nat, vars@.len()),
                row@.len() == j,
                forall|k: int| 0 <= k < j ==> row@[k] == (vars@[k], bit(i as nat, k as nat)),
            decreases vars@.len() - j,
        {
            row.push((vars[j], bits[j]));
            j += 1;
        }
        assert(row@ =~= row_of(vars@, i as nat));
        rows.push(row);
        i += 1;
    }
    Some(rows)
}

/// The assignment number `i` of the variables `vars`.
pub open spec fn row_of(vars: Seq<Addr>, i: nat) -> Seq<(Addr, bool)> {
    Seq::new(vars.len(), |j: int| (vars[j], bit(i, j as nat)))
}

/// The circuit of the grounded form of a first-order formula, or of its
/// negation if `reverse` is set.
pub open spec fn fo2c(
    t: Reading<FOLogic>,
    env: Map<usize, usize>,
    domains: Seq<Integer>,
    list: Seq<Grounded>,
    reverse: bool,
) -> Reading<PCicruit> {
    p2c(fo2p(t, env, domains, list), reverse)
}

/// Builds on `dst` the circuit of the grounded form of the formula under
/// `src`, or of its negation if `reverse` is set, with the bound variables
/// at the values that `values` gives them.
#[verifier::loop_isolation(false)]
fn fo2c_recusive(
    src: IndexedRef<FirstOrderTree>,
    dst: &mut ProbabilisticCircuitTree,
    grounded: &Vec<Grounded>,
    domains: &[Integer],
    values: &std::collections::HashMap<usize, usize>,
    reverse: bool,
    Ghost(t): Ghost<Reading<FOLogic>>,
) -> (r: Result<Addr, &'static str>)
    requires
        reads(src.array.nodes(), src.idx, t),
        crate::logic::first_order::is_formula(t),
        covered(t, domains@, sigs_of(grounded@)),
        forall|k: int| 0 <= k < grounded@.len() ==> (#[trigger] grounded@[k]).complete(),
        env_ok(values@, domains@),
    ensures
        r is Ok <==> defect(t, values@.dom(), domains@) is None,
        match r {
            Ok(a) => {
                &&& a == top_of(
                    old(dst).nodes().len(),
                    fo2c(t, values@, domains@, grounded@, reverse),
                )
                &&& final(dst).nodes() == planted(
                    old(dst).nodes(),
                    fo2c(t, values@, domains@, grounded@, reverse),
                )
                &&& final(dst).nodes().len() == old(dst).nodes().len() + size_of(
                    fo2c(t, values@, domains@, grounded@, reverse),
                )
            },
            Err(e) => e@ == fault_text(defect(t, values@.dom(), domains@)->0),
        },
        final(dst).symbols() == old(dst).symbols(),
        final(dst).root() == old(dst).root(),
    decreases t, 1nat,
{
    let ghost l: Reading<FOLogic> = *t->Node_1;
    let ghost r: Reading<FOLogic> = *t->Node_2;
    let ghost env = values@;
    let tree = src.array;
    let cell = tree.get(src.idx);
    match cell.value {
        FOLogic::Predicate { id } => {
            let indices = match arguments(tree, cell.node.childs[0], values, Ghost(l)) {
                Ok(v) => v,
                Err(e) => {
                    return Err(e);
                },
            };
            let ghost sigs = sigs_of(grounded@);
            let mut k: usize = 0;
            while k < grounded.len()
                invariant
                    k <= grounded@.len(),
                    forall|j: int| 0 <= j < k ==> (#[trigger] sigs[j]).id != id,
                decreases grounded@.len() - k,
            {
                if grounded[k].id.addr == id.addr {
                    break ;
                }
                k += 1;
            }
            proof {
                lemma_position(sigs, id, k as int);
                lemma_matched_in_bounds(l, sigs[k as int].domains, domains@, 0, env);
                let sizes = grounded@[k as int].sizes();
                let idx = as_nats(indices@);
                assert(sizes.len() == sigs[k as int].domains.len());
                assert forall|j: int| 0 <= j < idx.len() implies #[trigger] idx[j] < sizes[j] by {
                    assert(values_of(args_of(l), env)[j] < sigs[k as int].domains[0 + j].card);
                }
            }
            let a = grounded[k].get_id(indices.as_slice());
            Ok(dst.plant_leaf(PCicruit::Variable { id: a, neg: reverse }))
        },
        FOLogic::Universal { id } => fo2c_quantifier(
            src,
            dst,
            grounded,
            domains,
            values,
            id,
            true,
            reverse,
            Ghost(t),
        ),
        FOLogic::Existential { id } => fo2c_quantifier(
            src,
            dst,
            grounded,
            domains,
            values,
            id,
            false,
            reverse,
            Ghost(t),
        ),
        FOLogic::Not => {
            proof {
                assert(r is Empty);
                assert(defect(r, env.dom(), domains@) is None);
                assert(defect(t, env.dom(), domains@) == defect(l, env.dom(), domains@));
            }
            fo2c_recusive(
                IndexedRef { array: tree, idx: cell.node.childs[0] },
                dst,
                grounded,
                domains,
                values,
                !reverse,
                Ghost(l),
            )
        },
        FOLogic::And => fo2c_binary(src, dst, grounded, domains, values, true, reverse, Ghost(t)),
        FOLogic::Or => fo2c_binary(src, dst, grounded, domains, values, false, reverse, Ghost(t)),
    }
}

/// The circuit of a grounded formula is no empty reading.
proof fn lemma_fo2c_solid(
    t: Reading<FOLogic>,
    env: Map<usize, usize>,
    domains: Seq<Integer>,
    list: Seq<Grounded>,
    reverse: bool,
)
    requires
        crate::logic::first_order::is_formula(t),
        ample(t, domains),
    ensures
        !(fo2c(t, env, domains, list, reverse) is Empty),
        is_circuit(fo2c(t, env, domains, list, reverse)),
        is_plain(fo2c(t, env, domains, list, reverse)),
{
    lemma_fo2p_formula(t, env, domains, list);
    lemma_p2c_is_circuit(fo2p(t, env, domains, list), reverse);
}

/// Builds on `dst` the product or sum for the conjunction or disjunction under `src`.
fn fo2c_binary(
    src: IndexedRef<FirstOrderTree>,
    dst: &mut ProbabilisticCircuitTree,
    grounded: &Vec<Grounded>,
    domains: &[Integer],
    values: &std::collections::HashMap<usize, usize>,
    conjoin: bool,
    reverse: bool,
    Ghost(t): Ghost<Reading<FOLogic>>,
) -> (r: Result<Addr, &'static str>)
    requires
        reads(src.array.nodes(), src.idx, t),
        crate::logic::first_order::is_formula(t),
        t->Node_0 == (if conjoin {
            FOLogic::And
        } else {
            FOLogic::Or
        }),
        covered(t, domains@, sigs_of(grounded@)),
        forall|k: int| 0 <= k < grounded@.len() ==> (#[trigger] grounded@[k]).complete(),
        env_ok(values@, domains@),
    ensures
        r is Ok <==> defect(t, values@.dom(), domains@) is None,
        match r {
            Ok(a) => {
                &&& a == top_of(
                    old(dst).nodes().len(),
                    fo2c(t, values@, domains@, grounded@, reverse),
                )
                &&& final(dst).nodes() == planted(
                    old(dst).nodes(),
                    fo2c(t, values@, domains@, grounded@, reverse),
                )
                &&& final(dst).nodes().len() == old(dst).nodes().len() + size_of(
                    fo2c(t, values@, domains@, grounded@, reverse),
                )
            },
            Err(e) => e@ == fault_text(defect(t, values@.dom(), domains@)->0),
        },
        final(dst).symbols() == old(dst).symbols(),
        final(dst).root() == old(dst).root(),
    decreases t, 0nat,
{
    let ghost start = dst.nodes();
    let ghost l: Reading<FOLogic> = *t->Node_1;
    let ghost r: Reading<FOLogic> = *t->Node_2;
    let ghost env = values@;
    let tree = src.array;
    let cell = tree.get(src.idx);
    let left = match fo2c_recusive(
        IndexedRef { array: tree, idx: cell.node.childs[0] },
        dst,
        grounded,
        domains,
        values,
        reverse,
        Ghost(l),
    ) {
        Ok(a) => a,
        Err(e) => {
            return Err(e);
        },
    };
    let right = match fo2c_recusive(
        IndexedRef { array: tree, idx: cell.node.childs[1] },
        dst,
        grounded,
        domains,
        values,
        reverse,
        Ghost(r),
    ) {
        Ok(a) => a,
        Err(e) => {
            return Err(e);
        },
    };
    proof {
        lemma_sound_is_ample(l, env.dom(), domains@);
        lemma_sound_is_ample(r, env.dom(), domains@);
        lemma_fo2c_solid(l, env, domains@, grounded@, reverse);
        lemma_fo2c_solid(r, env, domains@, grounded@, reverse);
    }
    Ok(
        dst.plant_join(
            operator_of(conjoin != reverse),
            left,
            right,
            Ghost(start),
            Ghost(fo2c(l, env, domains@, grounded@, reverse)),
            Ghost(fo2c(r, env, domains@, grounded@, reverse)),
        ),
    )
}

/// Builds on `dst` the chain of products or sums over the body of the quantifier under
/// `src` at every value of its variable `x`.
#[verifier::loop_isolation(false)]
fn fo2c_quantifier(
    src: IndexedRef<FirstOrderTree>,
    dst: &mut ProbabilisticCircuitTree,
    grounded: &Vec<Grounded>,
    domains: &[Integer],
    values: &std::collections::HashMap<usize, usize>,
    x: Addr,
    conjoin: bool,
    reverse: bool,
    Ghost(t): Ghost<Reading<FOLogic>>,
) -> (r: Result<Addr, &'static str>)
    requires
        reads(src.array.nodes(), src.idx, t),
        crate::logic::first_order::is_formula(t),
        t->Node_0 == (if conjoin {
            FOLogic::Universal { id: x }
        } else {
            FOLogic::Existential { id: x }
        }),
        covered(t, domains@, sigs_of(grounded@)),
        forall|k: int| 0 <= k < grounded@.len() ==> (#[trigger] grounded@[k]).complete(),
        env_ok(values@, domains@),
    ensures
        r is Ok <==> defect(t, values@.dom(), domains@) is None,
        match r {
            Ok(a) => {
                &&& a == top_of(
                    old(dst).nodes().len(),
                    fo2c(t, values@, domains@, grounded@, reverse),
                )
                &&& final(dst).nodes() == planted(
                    old(dst).nodes(),
                    fo2c(t, values@, domains@, grounded@, reverse),
                )
                &&& final(dst).nodes().len() == old(dst).nodes().len() + size_of(
                    fo2c(t, values@, domains@, grounded@, reverse),
                )
            },
            Err(e) => e@ == fault_text(defect(t, values@.dom(), domains@)->0),
        },
        final(dst).symbols() == old(dst).symbols(),
        final(dst).root() == old(dst).root(),
    decreases t, 0nat,
{
    let ghost start = dst.nodes();
    let ghost body: Reading<FOLogic> = *t->Node_1;
    let ghost env = values@;
    let tree = src.array;
    let cell = tree.get(src.idx);
    let inner_at: Addr = cell.node.childs[0];
    let card: usize = match Grounded::get_domain(x, domains) {
        Some(domain) => domain.card,
        None => {
            return Err(Fault::UnknownDomain.message());
        },
    };
    if card == 0 {
        return Err(Fault::EmptyDomain.message());
    }
    let mut current_values = values.clone();
    current_values.insert(x.addr, 0);
    proof {
        assert(current_values@ == env.insert(x.addr, 0));
        assert(current_values@.dom() =~= env.dom().insert(x.addr));
    }
    let mut current = match fo2c_recusive(
        IndexedRef { array: tree, idx: inner_at },
        dst,
        grounded,
        domains,
        &current_values,
        reverse,
        Ghost(body),
    ) {
        Ok(a) => a,
        Err(e) => {
            return Err(e);
        },
    };
    proof {
        lemma_sound_is_ample(body, env.dom().insert(x.addr), domains@);
    }
    let mut v: usize = 1;
    while v < card
        invariant
            1 <= v <= card,
            current == top_of(
                start.len(),
                p2c(expand(body, env, x, v as nat, domains@, grounded@, conjoin), reverse),
            ),
            dst.nodes() == planted(
                start,
                p2c(expand(body, env, x, v as nat, domains@, grounded@, conjoin), reverse),
            ),
            dst.nodes().len() == start.len() + size_of(
                p2c(expand(body, env, x, v as nat, domains@, grounded@, conjoin), reverse),
            ),
            dst.symbols() == old(dst).symbols(),
            dst.root() == old(dst).root(),
        decreases card - v,
    {
        let ghost chain = expand(body, env, x, v as nat, domains@, grounded@, conjoin);
        let mut next_values = values.clone();
        next_values.insert(x.addr, v);
        proof {
            assert(next_values@ == env.insert(x.addr, v));
            assert(next_values@.dom() =~= env.dom().insert(x.addr));
            lemma_expand_formula(body, env, x, v as nat, domains@, grounded@, conjoin);
            lemma_p2c_is_circuit(chain, reverse);
            lemma_fo2c_solid(body, env.insert(x.addr, v), domains@, grounded@, reverse);
        }
        let inner = match fo2c_recusive(
            IndexedRef { array: tree, idx: inner_at },
            dst,
            grounded,
            domains,
            &next_values,
            reverse,
            Ghost(body),
        ) {
            Ok(a) => a,
            Err(e) => {
                return Err(e);
            },
        };
        current = dst.plant_join(
            operator_of(conjoin != reverse),
            current,
            inner,
            Ghost(start),
            Ghost(p2c(chain, reverse)),
            Ghost(fo2c(body, env.insert(x.addr, v), domains@, grounded@, reverse)),
        );
        v += 1;
    }
    Ok(current)
}

/// The circuit of the closed formula `tree` over `domains`: the circuit of
/// its grounded propositional form.  The symbol table of the result holds
/// the atoms.
pub fn first_order_to_circuit(tree: &FirstOrderTree, domains: &[Integer]) -> (r: Result<
    ProbabilisticCircuitTree,
    &'static str,
>)
    requires
        tree.is_formula(),
    ensures
        r is Ok <==> compilable(tree.formula(), domains@) is Ok,
        match r {
            Ok(out) => {
                &&& out.wf()
                &&& out.is_circuit()
                &&& is_plain(out.circuit())
                &&& well_linked(out.nodes())
                &&& out.table() == merged(
                    Seq::empty(),
                    atom_names(tree.table(), compilable(tree.formula(), domains@)->Ok_0),
                )
                &&& exists|list: Seq<Grounded>|
                    {
                        &&& sigs_of(list) == compilable(tree.formula(), domains@)->Ok_0
                        &&& forall|k: int| 0 <= k < list.len() ==> (#[trigger] list[k]).complete()
                        &&& atoms_named(list, tree.table(), out.table())
                        &&& out.nodes() == planted(
                            Seq::empty(),
                            fo2c(tree.formula(), Map::empty(), domains@, list, false),
                        )
                        &&& out.root() == top_of(
                            0,
                            fo2c(tree.formula(), Map::empty(), domains@, list, false),
                        )
                        &&& out.circuit() == fo2c(
                            tree.formula(),
                            Map::empty(),
                            domains@,
                            list,
                            false,
                        )
                    }
            },
            Err(e) => e@ == fault_text(compilable(tree.formula(), domains@)->Err_0),
        },
{
    let ghost t = choose|t: Reading<FOLogic>|
        reads(tree.nodes(), tree.root(), t) && crate::logic::first_order::is_formula(t);
    proof {
        lemma_reads_unique(tree.nodes(), tree.root(), t, tree.formula());
        lemma_reads_unique(tree.nodes(), tree.root(), t, tree.reading());
    }
    let mut out: ProbabilisticCircuitTree = Tree::new();
    let grounded = match Grounded::ground(tree, &mut out, domains) {
        Ok(g) => g,
        Err(e) => {
            return Err(e);
        },
    };
    let ghost sigs = sigs_of(grounded@);
    proof {
        lemma_scan_covers(t, domains@, Seq::empty());
    }
    let values: std::collections::HashMap<usize, usize> = std::collections::HashMap::new();
    assert(values@.dom() =~= Set::<usize>::empty());
    let root = match fo2c_recusive(
        tree.output(),
        &mut out,
        &grounded,
        domains,
        &values,
        false,
        Ghost(t),
    ) {
        Ok(a) => a,
        Err(e) => {
            return Err(e);
        },
    };
    out.set_output(root);
    let n: usize = out.len();
    proof {
        let env = Map::<usize, usize>::empty();
        assert(values@ =~= env);
        let f = fo2c(t, env, domains@, grounded@, false);
        let empty = Seq::<NodeValue<Node<2>, PCicruit>>::empty();
        lemma_sound_is_ample(t, Set::empty(), domains@);
        lemma_fo2c_solid(t, env, domains@, grounded@, false);
        lemma_planted_above(empty, f);
        lemma_planted_reads(empty, f);
        lemma_planted_links(empty, f);
        lemma_reads_unique(out.nodes(), out.root(), f, out.circuit());
        let list = grounded@;
        assert(compilable(tree.formula(), domains@) == Ok::<Seq<Sig>, Fault>(sigs));
        assert(sigs_of(list) == compilable(tree.formula(), domains@)->Ok_0);
        assert(out.nodes() == planted(
            Seq::empty(),
            fo2c(tree.formula(), Map::empty(), domains@, list, false),
        ));
        assert(out.root() == top_of(
            0,
            fo2c(tree.formula(), Map::empty(), domains@, list, false),
        ));
        assert(out.circuit() == fo2c(tree.formula(), Map::empty(), domains@, list, false));
        assert(atoms_named(list, tree.table(), out.table()));
        assert(reads(out.nodes(), out.root(), f) && is_circuit(f));
        assert(out.is_circuit());
    }
    Ok(out)
}

} // verus!
