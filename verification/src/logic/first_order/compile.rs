//! From first-order formulas over finite domains to propositional formulas
//! over grounded atoms: a quantifier becomes the conjunction or disjunction
//! of its body at every value of its variable.

use vstd::prelude::*;
use super::ground::{
    as_nats, atom_names, atoms_named, covered, fault_text, grounding, mismatch, position,
    lemma_position, sigs_of, Fault, Grounded, Sig,
};
use super::{
    args_of, card_of, has_domain, holds, holds_below, is_args, is_formula, values_of, FOLogic,
    FirstOrderTree,
};
use crate::logic::propositional::{
    and_of, not_of, or_of, truth, var_of, PLogic, PropositionalTree,
};
use crate::solver::domain::{Integer, Range};
use crate::tree::builder::{
    lemma_planted_above, lemma_planted_links, lemma_planted_reads, planted, size_of, top_of,
};
use crate::tree::reading::{lemma_reads_unique, reads, well_linked, Reading};
use crate::tree::tree::merged;
use crate::tree::{Addr, IndexedRef, Node, NodeValue, Tree};

verus! {

/// The atom of the predicate `id` at the tuple `values`.
pub open spec fn atom(list: Seq<Grounded>, id: Addr, values: Seq<usize>) -> Addr {
    let k = position(sigs_of(list), id);
    list[k].grounded@[super::ground::offset(list[k].sizes(), as_nats(values)) as int]
}

/// The model that an assignment of the atoms stands for: a predicate holds
/// of a tuple exactly if the atom of the predicate at the tuple is true.
pub open spec fn model_of(list: Seq<Grounded>, assignment: Seq<bool>) -> spec_fn(
    Addr,
    Seq<usize>,
) -> bool {
    |id: Addr, values: Seq<usize>|
        {
            let a = atom(list, id, values);
            a.addr < assignment.len() && assignment[a.addr as int]
        }
}

/// The conjunction of `f` and `g`, or their disjunction.
pub open spec fn combined(conjoin: bool, f: Reading<PLogic>, g: Reading<PLogic>) -> Reading<
    PLogic,
> {
    if conjoin {
        and_of(f, g)
    } else {
        or_of(f, g)
    }
}

/// The grounded form of a formula under `env`: a predicate becomes its atom
/// at the values of its arguments, a quantifier the chain of its body at
/// every value of its variable, and the connectives stay.
pub open spec fn fo2p(
    t: Reading<FOLogic>,
    env: Map<usize, usize>,
    domains: Seq<Integer>,
    list: Seq<Grounded>,
) -> Reading<PLogic>
    decreases t, 0nat,
{
    match t {
        Reading::Empty => Reading::Empty,
        Reading::Node(FOLogic::Predicate { id }, l, r) => var_of(
            atom(list, id, values_of(args_of(*l), env)),
        ),
        Reading::Node(FOLogic::Universal { id }, l, r) => expand(
            *l,
            env,
            id,
            card_of(domains, id),
            domains,
            list,
            true,
        ),
        Reading::Node(FOLogic::Existential { id }, l, r) => expand(
            *l,
            env,
            id,
            card_of(domains, id),
            domains,
            list,
            false,
        ),
        Reading::Node(FOLogic::Not, l, r) => not_of(fo2p(*l, env, domains, list)),
        Reading::Node(FOLogic::And, l, r) => and_of(
            fo2p(*l, env, domains, list),
            fo2p(*r, env, domains, list),
        ),
        Reading::Node(FOLogic::Or, l, r) => or_of(
            fo2p(*l, env, domains, list),
            fo2p(*r, env, domains, list),
        ),
    }
}

/// The chain, associated to the left, of the grounded forms of `body` at
/// the first `k` values of the variable `x`: their conjunction, or their
/// disjunction.
pub open spec fn expand(
    body: Reading<FOLogic>,
    env: Map<usize, usize>,
    x: Addr,
    k: nat,
    domains: Seq<Integer>,
    list: Seq<Grounded>,
    conjoin: bool,
) -> Reading<PLogic>
    decreases body, k,
{
    if k == 0 {
        Reading::Empty
    } else if k == 1 {
        fo2p(body, env.insert(x.addr, 0), domains, list)
    } else {
        combined(
            conjoin,
            expand(body, env, x, (k - 1) as nat, domains, list, conjoin),
            fo2p(body, env.insert(x.addr, (k - 1) as usize), domains, list),
        )
    }
}

/// Every quantified variable of the formula ranges over at least one value.
pub open spec fn ample(t: Reading<FOLogic>, domains: Seq<Integer>) -> bool
    decreases t,
{
    match t {
        Reading::Empty => true,
        Reading::Node(FOLogic::Predicate { id }, l, r) => true,
        Reading::Node(FOLogic::Universal { id }, l, r) => card_of(domains, id) >= 1 && ample(
            *l,
            domains,
        ),
        Reading::Node(FOLogic::Existential { id }, l, r) => card_of(domains, id) >= 1 && ample(
            *l,
            domains,
        ),
        Reading::Node(_, l, r) => ample(*l, domains) && ample(*r, domains),
    }
}

/// The chain over the first `k` values of a variable is true exactly if the
/// body holds at each of them, for a conjunction, or at one of them, for a
/// disjunction.
proof fn lemma_expand_holds(
    body: Reading<FOLogic>,
    env: Map<usize, usize>,
    x: Addr,
    k: nat,
    domains: Seq<Integer>,
    list: Seq<Grounded>,
    conjoin: bool,
    assignment: Seq<bool>,
)
    requires
        ample(body, domains),
        1 <= k,
    ensures
        truth(expand(body, env, x, k, domains, list, conjoin), assignment) == holds_below(
            body,
            env,
            x,
            k,
            domains,
            model_of(list, assignment),
            conjoin,
        ),
    decreases body, k,
{
    let model = model_of(list, assignment);
    law_grounding_preserves_truth(
        body,
        env.insert(x.addr, (k - 1) as usize),
        domains,
        list,
        assignment,
    );
    if k == 1 {
        assert(holds_below(body, env, x, 0, domains, model, conjoin) == conjoin);
    } else {
        lemma_expand_holds(body, env, x, (k - 1) as nat, domains, list, conjoin, assignment);
    }
}

/// Grounding preserves truth.  Under every assignment of the atoms, the
/// grounded form of a formula is true exactly if the formula holds in the
/// model that the assignment stands for.
pub proof fn law_grounding_preserves_truth(
    t: Reading<FOLogic>,
    env: Map<usize, usize>,
    domains: Seq<Integer>,
    list: Seq<Grounded>,
    assignment: Seq<bool>,
)
    requires
        ample(t, domains),
    ensures
        truth(fo2p(t, env, domains, list), assignment) == holds(
            t,
            env,
            domains,
            model_of(list, assignment),
        ),
    decreases t, 0nat,
{
    let model = model_of(list, assignment);
    match t {
        Reading::Empty => {},
        Reading::Node(v, l, r) => {
            match v {
                FOLogic::Predicate { id } => {
                    let values = values_of(args_of(*l), env);
                    assert(model(id, values) == truth(var_of(atom(list, id, values)), assignment));
                },
                FOLogic::Universal { id } => {
                    lemma_expand_holds(
                        *l,
                        env,
                        id,
                        card_of(domains, id),
                        domains,
                        list,
                        true,
                        assignment,
                    );
                },
                FOLogic::Existential { id } => {
                    lemma_expand_holds(
                        *l,
                        env,
                        id,
                        card_of(domains, id),
                        domains,
                        list,
                        false,
                        assignment,
                    );
                },
                _ => {
                    law_grounding_preserves_truth(*l, env, domains, list, assignment);
                    law_grounding_preserves_truth(*r, env, domains, list, assignment);
                },
            }
        },
    }
}

/// Some argument is not among the bound variables.
pub open spec fn unbound(args: Seq<Addr>, bound: Set<usize>) -> bool {
    exists|i: int| 0 <= i < args.len() && !bound.contains((#[trigger] args[i]).addr)
}

/// What keeps a formula from being expanded where the variables `bound`
/// are bound: an argument that no quantifier binds, or a quantified
/// variable without a domain or with an empty one.  The first such place
/// from the left counts.
pub open spec fn defect(t: Reading<FOLogic>, bound: Set<usize>, domains: Seq<Integer>) -> Option<
    Fault,
>
    decreases t,
{
    match t {
        Reading::Empty => None,
        Reading::Node(FOLogic::Predicate { id }, l, r) => if unbound(args_of(*l), bound) {
            Some(Fault::UnboundVariable)
        } else {
            None
        },
        Reading::Node(FOLogic::Universal { id }, l, r) => if !has_domain(domains, id) {
            Some(Fault::UnknownDomain)
        } else if card_of(domains, id) == 0 {
            Some(Fault::EmptyDomain)
        } else {
            defect(*l, bound.insert(id.addr), domains)
        },
        Reading::Node(FOLogic::Existential { id }, l, r) => if !has_domain(domains, id) {
            Some(Fault::UnknownDomain)
        } else if card_of(domains, id) == 0 {
            Some(Fault::EmptyDomain)
        } else {
            defect(*l, bound.insert(id.addr), domains)
        },
        Reading::Node(_, l, r) => match defect(*l, bound, domains) {
            Some(f) => Some(f),
            None => defect(*r, bound, domains),
        },
    }
}

/// Every bound variable has a value of its domain.
pub open spec fn env_ok(env: Map<usize, usize>, domains: Seq<Integer>) -> bool {
    forall|x: usize| #[trigger] env.contains_key(x) ==> env[x] < card_of(domains, Addr { addr: x })
}

/// A formula without defect has no quantifier over an empty domain.
pub proof fn lemma_sound_is_ample(t: Reading<FOLogic>, bound: Set<usize>, domains: Seq<Integer>)
    requires
        defect(t, bound, domains) is None,
    ensures
        ample(t, domains),
    decreases t,
{
    match t {
        Reading::Empty => {},
        Reading::Node(v, l, r) => {
            match v {
                FOLogic::Predicate { id } => {},
                FOLogic::Universal { id } => {
                    lemma_sound_is_ample(*l, bound.insert(id.addr), domains);
                },
                FOLogic::Existential { id } => {
                    lemma_sound_is_ample(*l, bound.insert(id.addr), domains);
                },
                _ => {
                    lemma_sound_is_ample(*l, bound, domains);
                    lemma_sound_is_ample(*r, bound, domains);
                },
            }
        },
    }
}

/// A chain of arguments that matches the expected domains has as many
/// arguments as are expected, and where every bound variable has a value
/// of its domain, the value of each argument is one of its expected domain.
pub proof fn lemma_matched_in_bounds(
    args: Reading<FOLogic>,
    expected: Seq<Range>,
    domains: Seq<Integer>,
    count: int,
    env: Map<usize, usize>,
)
    requires
        0 <= count,
        mismatch(args, expected, domains, count) is None,
        env_ok(env, domains),
        !unbound(args_of(args), env.dom()),
    ensures
        args_of(args).len() + count == expected.len(),
        forall|j: int|
            0 <= j < args_of(args).len() ==> (#[trigger] values_of(args_of(args), env)[j])
                < expected[count + j].card,
    decreases args,
{
    match args {
        Reading::Empty => {},
        Reading::Node(v, rest, r) => {
            match v {
                FOLogic::Predicate { id } => {
                    let all = args_of(args);
                    let tail = args_of(*rest);
                    assert(all =~= seq![id] + tail);
                    assert(!unbound(tail, env.dom())) by {
                        if unbound(tail, env.dom()) {
                            let i = choose|i: int|
                                0 <= i < tail.len() && !env.dom().contains(
                                    (#[trigger] tail[i]).addr,
                                );
                            assert(all[i + 1] == tail[i]);
                        }
                    }
                    lemma_matched_in_bounds(*rest, expected, domains, count + 1, env);
                    assert(all[0] == id);
                    assert(env.dom().contains(all[0].addr));
                    assert(env.contains_key(id.addr));
                    assert forall|j: int| 0 <= j < all.len() implies (#[trigger] values_of(
                        all,
                        env,
                    )[j]) < expected[count + j].card by {
                        if j == 0 {
                            assert(values_of(all, env)[0] == env[id.addr]);
                        } else {
                            assert(all[j] == tail[j - 1]);
                            assert(values_of(all, env)[j] == values_of(tail, env)[j - 1]);
                        }
                    }
                },
                _ => {},
            }
        },
    }
}

/// The values of the arguments of the chain at `at` under `values`.
#[verifier::loop_isolation(false)]
pub(crate) fn arguments(
    tree: &FirstOrderTree,
    at: Addr,
    values: &std::collections::HashMap<usize, usize>,
    Ghost(args): Ghost<Reading<FOLogic>>,
) -> (r: Result<Vec<usize>, &'static str>)
    requires
        reads(tree.nodes(), at, args),
        is_args(args),
    ensures
        r is Ok <==> !unbound(args_of(args), values@.dom()),
        match r {
            Ok(v) => v@ == values_of(args_of(args), values@),
            Err(e) => e@ == fault_text(Fault::UnboundVariable),
        },
{
    let mut found: Vec<usize> = Vec::new();
    let mut next: Addr = at;
    let ghost mut rest: Reading<FOLogic> = args;
    let ghost mut done: Seq<Addr> = Seq::empty();
    assert(done + args_of(rest) =~= args_of(args));
    while next.is_addr()
        invariant
            reads(tree.nodes(), next, rest),
            is_args(rest),
            args_of(args) == done + args_of(rest),
            found@ == values_of(done, values@),
            forall|i: int| 0 <= i < done.len() ==> values@.dom().contains((#[trigger] done[i]).addr),
        decreases rest,
    {
        let link = tree.get(next);
        let ghost more: Reading<FOLogic> = *rest->Node_1;
        let id = match link.value {
            FOLogic::Predicate { id } => id,
            _ => Addr::none(),
        };
        proof {
            assert(args_of(rest) =~= seq![id] + args_of(more));
            assert(args_of(args)[done.len() as int] == id);
        }
        match values.get(&id.addr) {
            Some(v) => {
                found.push(*v);
                proof {
                    let longer = done.push(id);
                    assert(longer + args_of(more) =~= done + args_of(rest));
                    assert(found@ =~= values_of(longer, values@));
                    done = longer;
                }
            },
            None => {
                return Err(Fault::UnboundVariable.message());
            },
        }
        next = link.node.childs[0];
        proof {
            rest = more;
        }
    }
    proof {
        assert(rest is Empty);
        assert(done + Seq::<Addr>::empty() =~= done);
        if unbound(args_of(args), values@.dom()) {
            let i = choose|i: int|
                0 <= i < args_of(args).len() && !values@.dom().contains(
                    (#[trigger] args_of(args)[i]).addr,
                );
            assert(values@.dom().contains(done[i].addr));
        }
    }
    Ok(found)
}

/// The symbol of a conjunction, or of a disjunction.
fn connective(conjoin: bool) -> (v: PLogic)
    ensures
        v == (if conjoin {
            PLogic::And
        } else {
            PLogic::Or
        }),
{
    if conjoin {
        PLogic::And
    } else {
        PLogic::Or
    }
}

/// The grounded form of a formula is no empty reading.
pub proof fn lemma_fo2p_solid(
    t: Reading<FOLogic>,
    env: Map<usize, usize>,
    domains: Seq<Integer>,
    list: Seq<Grounded>,
)
    requires
        is_formula(t),
        ample(t, domains),
    ensures
        !(fo2p(t, env, domains, list) is Empty),
    decreases t, 0nat,
{
    match t {
        Reading::Empty => {},
        Reading::Node(v, l, r) => {
            match v {
                FOLogic::Universal { id } => {
                    lemma_expand_solid(*l, env, id, card_of(domains, id), domains, list, true);
                },
                FOLogic::Existential { id } => {
                    lemma_expand_solid(*l, env, id, card_of(domains, id), domains, list, false);
                },
                _ => {},
            }
        },
    }
}

/// A chain over at least one value is no empty reading.
pub proof fn lemma_expand_solid(
    body: Reading<FOLogic>,
    env: Map<usize, usize>,
    x: Addr,
    k: nat,
    domains: Seq<Integer>,
    list: Seq<Grounded>,
    conjoin: bool,
)
    requires
        is_formula(body),
        ample(body, domains),
        k >= 1,
    ensures
        !(expand(body, env, x, k, domains, list, conjoin) is Empty),
    decreases body, k,
{
    if k == 1 {
        lemma_fo2p_solid(body, env.insert(x.addr, 0), domains, list);
    }
}

/// Builds on `dst` the grounded form of the formula under `src`, with the
/// bound variables at the values that `values` gives them.
#[verifier::loop_isolation(false)]
fn fo2p_recusive(
    src: IndexedRef<FirstOrderTree>,
    dst: &mut PropositionalTree,
    grounded: &Vec<Grounded>,
    domains: &[Integer],
    values: &std::collections::HashMap<usize, usize>,
    Ghost(t): Ghost<Reading<FOLogic>>,
) -> (r: Result<Addr, &'static str>)
    requires
        reads(src.array.nodes(), src.idx, t),
        is_formula(t),
        covered(t, domains@, sigs_of(grounded@)),
        forall|k: int| 0 <= k < grounded@.len() ==> (#[trigger] grounded@[k]).complete(),
        env_ok(values@, domains@),
    ensures
        r is Ok <==> defect(t, values@.dom(), domains@) is None,
        match r {
            Ok(a) => {
                &&& a == top_of(old(dst).nodes().len(), fo2p(t, values@, domains@, grounded@))
                &&& final(dst).nodes() == planted(
                    old(dst).nodes(),
                    fo2p(t, values@, domains@, grounded@),
                )
                &&& final(dst).nodes().len() == old(dst).nodes().len() + size_of(
                    fo2p(t, values@, domains@, grounded@),
                )
            },
            Err(e) => e@ == fault_text(defect(t, values@.dom(), domains@)->0),
        },
        final(dst).symbols() == old(dst).symbols(),
        final(dst).root() == old(dst).root(),
    decreases t, 1nat,
{
    let ghost start = dst.nodes();
    let ghost l: Reading<FOLogic> = *t->Node_1;
    let ghost r: Reading<FOLogic> = *t->Node_2;
    let ghost env = values@;
    let tree = src.array;
    let cell = tree.get(src.idx);
    match cell.value {
        FOLogic::Predicate { id } => {
            let indices = match arguments(tree, cell.node.childs[0], values, Ghost(l)) {
                Ok(v) => v,
                Err(e) => {
                    return Err(e);
                },
            };
            let ghost sigs = sigs_of(grounded@);
            let mut k: usize = 0;
            while k < grounded.len()
                invariant
                    k <= grounded@.len(),
                    forall|j: int| 0 <= j < k ==> (#[trigger] sigs[j]).id != id,
                decreases grounded@.len() - k,
            {
                if grounded[k].id.addr == id.addr {
                    break ;
                }
                k += 1;
            }
            proof {
                lemma_position(sigs, id, k as int);
                lemma_matched_in_bounds(l, sigs[k as int].domains, domains@, 0, env);
                let sizes = grounded@[k as int].sizes();
                let idx = as_nats(indices@);
                assert(sizes.len() == sigs[k as int].domains.len());
                assert forall|j: int| 0 <= j < idx.len() implies #[trigger] idx[j] < sizes[j] by {
                    assert(values_of(args_of(l), env)[j] < sigs[k as int].domains[0 + j].card);
                }
            }
            let a = grounded[k].get_id(indices.as_slice());
            Ok(dst.plant_leaf(PLogic::Variable { id: a }))
        },
        FOLogic::Universal { id } => fo2p_quantifier(src, dst, grounded, domains, values, id, true, Ghost(t)),
        FOLogic::Existential { id } => fo2p_quantifier(src, dst, grounded, domains, values, id, false, Ghost(t)),
        FOLogic::Not => {
            proof {
                assert(r is Empty);
                assert(defect(r, env.dom(), domains@) is None);
                assert(defect(t, env.dom(), domains@) == defect(l, env.dom(), domains@));
            }
            let inner = match fo2p_recusive(
                IndexedRef { array: tree, idx: cell.node.childs[0] },
                dst,
                grounded,
                domains,
                values,
                Ghost(l),
            ) {
                Ok(a) => a,
                Err(e) => {
                    return Err(e);
                },
            };
            proof {
                lemma_sound_is_ample(l, env.dom(), domains@);
                lemma_fo2p_solid(l, env, domains@, grounded@);
            }
            Ok(
                dst.plant_over(
                    PLogic::Not,
                    inner,
                    Ghost(start),
                    Ghost(fo2p(l, env, domains@, grounded@)),
                ),
            )
        },
        FOLogic::And => fo2p_binary(src, dst, grounded, domains, values, true, Ghost(t)),
        FOLogic::Or => fo2p_binary(src, dst, grounded, domains, values, false, Ghost(t)),
    }
}

/// Builds on `dst` the grounded form of the conjunction or disjunction under
/// `src`.
fn fo2p_binary(
    src: IndexedRef<FirstOrderTree>,
    dst: &mut PropositionalTree,
    grounded: &Vec<Grounded>,
    domains: &[Integer],
    values: &std::collections::HashMap<usize, usize>,
    conjoin: bool,
    Ghost(t): Ghost<Reading<FOLogic>>,
) -> (r: Result<Addr, &'static str>)
    requires
        reads(src.array.nodes(), src.idx, t),
        is_formula(t),
        t->Node_0 == (if conjoin {
            FOLogic::And
        } else {
            FOLogic::Or
        }),
        covered(t, domains@, sigs_of(grounded@)),
        forall|k: int| 0 <= k < grounded@.len() ==> (#[trigger] grounded@[k]).complete(),
        env_ok(values@, domains@),
    ensures
        r is Ok <==> defect(t, values@.dom(), domains@) is None,
        match r {
            Ok(a) => {
                &&& a == top_of(old(dst).nodes().len(), fo2p(t, values@, domains@, grounded@))
                &&& final(dst).nodes() == planted(
                    old(dst).nodes(),
                    fo2p(t, values@, domains@, grounded@),
                )
                &&& final(dst).nodes().len() == old(dst).nodes().len() + size_of(
                    fo2p(t, values@, domains@, grounded@),
                )
            },
            Err(e) => e@ == fault_text(defect(t, values@.dom(), domains@)->0),
        },
        final(dst).symbols() == old(dst).symbols(),
        final(dst).root() == old(dst).root(),
    decreases t, 0nat,
{
    let ghost start = dst.nodes();
    let ghost l: Reading<FOLogic> = *t->Node_1;
    let ghost r: Reading<FOLogic> = *t->Node_2;
    let ghost env = values@;
    let tree = src.array;
    let cell = tree.get(src.idx);
    let left = match fo2p_recusive(
        IndexedRef { array: tree, idx: cell.node.childs[0] },
        dst,
        grounded,
        domains,
        values,
        Ghost(l),
    ) {
        Ok(a) => a,
        Err(e) => {
            return Err(e);
        },
    };
    let right = match fo2p_recusive(
        IndexedRef { array: tree, idx: cell.node.childs[1] },
        dst,
        grounded,
        domains,
        values,
        Ghost(r),
    ) {
        Ok(a) => a,
        Err(e) => {
            return Err(e);
        },
    };
    proof {
        lemma_sound_is_ample(l, env.dom(), domains@);
        lemma_sound_is_ample(r, env.dom(), domains@);
        lemma_fo2p_solid(l, env, domains@, grounded@);
        lemma_fo2p_solid(r, env, domains@, grounded@);
    }
    Ok(
        dst.plant_join(
            connective(conjoin),
            left,
            right,
            Ghost(start),
            Ghost(fo2p(l, env, domains@, grounded@)),
            Ghost(fo2p(r, env, domains@, grounded@)),
        ),
    )
}

/// Builds on `dst` the chain of the body of the quantifier under `src` at
/// every value of its variable `x`.
#[verifier::loop_isolation(false)]
fn fo2p_quantifier(
    src: IndexedRef<FirstOrderTree>,
    dst: &mut PropositionalTree,
    grounded: &Vec<Grounded>,
    domains: &[Integer],
    values: &std::collections::HashMap<usize, usize>,
    x: Addr,
    conjoin: bool,
    Ghost(t): Ghost<Reading<FOLogic>>,
) -> (r: Result<Addr, &'static str>)
    requires
        reads(src.array.nodes(), src.idx, t),
        is_formula(t),
        t->Node_0 == (if conjoin {
            FOLogic::Universal { id: x }
        } else {
            FOLogic::Existential { id: x }
        }),
        covered(t, domains@, sigs_of(grounded@)),
        forall|k: int| 0 <= k < grounded@.len() ==> (#[trigger] grounded@[k]).complete(),
        env_ok(values@, domains@),
    ensures
        r is Ok <==> defect(t, values@.dom(), domains@) is None,
        match r {
            Ok(a) => {
                &&& a == top_of(old(dst).nodes().len(), fo2p(t, values@, domains@, grounded@))
                &&& final(dst).nodes() == planted(
                    old(dst).nodes(),
                    fo2p(t, values@, domains@, grounded@),
                )
                &&& final(dst).nodes().len() == old(dst).nodes().len() + size_of(
                    fo2p(t, values@, domains@, grounded@),
                )
            },
            Err(e) => e@ == fault_text(defect(t, values@.dom(), domains@)->0),
        },
        final(dst).symbols() == old(dst).symbols(),
        final(dst).root() == old(dst).root(),
    decreases t, 0nat,
{
    let ghost start = dst.nodes();
    let ghost body: Reading<FOLogic> = *t->Node_1;
    let ghost env = values@;
    let tree = src.array;
    let cell = tree.get(src.idx);
    let inner_at: Addr = cell.node.childs[0];
    let card: usize = match Grounded::get_domain(x, domains) {
        Some(domain) => domain.card,
        None => {
            return Err(Fault::UnknownDomain.message());
        },
    };
    if card == 0 {
        return Err(Fault::EmptyDomain.message());
    }
    let mut current_values = values.clone();
    current_values.insert(x.addr, 0);
    proof {
        assert(current_values@ == env.insert(x.addr, 0));
        assert(current_values@.dom() =~= env.dom().insert(x.addr));
    }
    let mut current = match fo2p_recusive(
        IndexedRef { array: tree, idx: inner_at },
        dst,
        grounded,
        domains,
        &current_values,
        Ghost(body),
    ) {
        Ok(a) => a,
        Err(e) => {
            return Err(e);
        },
    };
    proof {
        lemma_sound_is_ample(body, env.dom().insert(x.addr), domains@);
    }
    let mut v: usize = 1;
    while v < card
        invariant
            1 <= v <= card,
            current == top_of(start.len(), expand(body, env, x, v as nat, domains@, grounded@, conjoin)),
            dst.nodes() == planted(
                start,
                expand(body, env, x, v as nat, domains@, grounded@, conjoin),
            ),
            dst.nodes().len() == start.len() + size_of(
                expand(body, env, x, v as nat, domains@, grounded@, conjoin),
            ),
            dst.symbols() == old(dst).symbols(),
            dst.root() == old(dst).root(),
        decreases card - v,
    {
        let ghost chain = expand(body, env, x, v as nat, domains@, grounded@, conjoin);
        let mut next_values = values.clone();
        next_values.insert(x.addr, v);
        proof {
            assert(next_values@ == env.insert(x.addr, v));
            assert(next_values@.dom() =~= env.dom().insert(x.addr));
            lemma_expand_solid(body, env, x, v as nat, domains@, grounded@, conjoin);
            lemma_fo2p_solid(body, env.insert(x.addr, v), domains@, grounded@);
        }
        let inner = match fo2p_recusive(
            IndexedRef { array: tree, idx: inner_at },
            dst,
            grounded,
            domains,
            &next_values,
            Ghost(body),
        ) {
            Ok(a) => a,
            Err(e) => {
                return Err(e);
            },
        };
        current = dst.plant_join(
            connective(conjoin),
            current,
            inner,
            Ghost(start),
            Ghost(chain),
            Ghost(fo2p(body, env.insert(x.addr, v), domains@, grounded@)),
        );
        v += 1;
    }
    Ok(current)
}

/// What grounding and expansion find of a formula: the predicates with
/// the domains of their arguments, or what keeps the formula from being
/// compiled.
pub open spec fn compilable(t: Reading<FOLogic>, domains: Seq<Integer>) -> Result<Seq<Sig>, Fault> {
    match grounding(t, domains) {
        Ok(sigs) => match defect(t, Set::empty(), domains) {
            Some(f) => Err(f),
            None => Ok(sigs),
        },
        Err(f) => Err(f),
    }
}

/// The grounded propositional form of the closed formula `tree` over
/// `domains`.  The symbol table of the result holds the atoms: for every
/// predicate, in the order of first occurrence, a name for every tuple of
/// values in row-major order.  A quantifier becomes the conjunction or
/// disjunction, associated to the left, of its body at every value of its
/// variable; a quantifier over an empty domain is refused.
pub fn first_order_to_propositional(tree: &FirstOrderTree, domains: &[Integer]) -> (r: Result<
    PropositionalTree,
    &'static str,
>)
    requires
        tree.is_formula(),
    ensures
        r is Ok <==> compilable(tree.formula(), domains@) is Ok,
        match r {
            Ok(out) => {
                &&& out.wf()
                &&& out.is_formula()
                &&& well_linked(out.nodes())
                &&& out.table() == merged(
                    Seq::empty(),
                    atom_names(tree.table(), compilable(tree.formula(), domains@)->Ok_0),
                )
                &&& exists|list: Seq<Grounded>|
                    {
                        &&& sigs_of(list) == compilable(tree.formula(), domains@)->Ok_0
                        &&& forall|k: int| 0 <= k < list.len() ==> (#[trigger] list[k]).complete()
                        &&& atoms_named(list, tree.table(), out.table())
                        &&& out.nodes() == planted(
                            Seq::empty(),
                            fo2p(tree.formula(), Map::empty(), domains@, list),
                        )
                        &&& out.root() == top_of(
                            0,
                            fo2p(tree.formula(), Map::empty(), domains@, list),
                        )
                        &&& out.formula() == fo2p(tree.formula(), Map::empty(), domains@, list)
                        &&& forall|assignment: Seq<bool>|
                            truth(out.formula(), assignment) == holds(
                                tree.formula(),
                                Map::empty(),
                                domains@,
                                model_of(list, assignment),
                            )
                    }
            },
            Err(e) => e@ == fault_text(compilable(tree.formula(), domains@)->Err_0),
        },
{
    let ghost t = choose|t: Reading<FOLogic>|
        reads(tree.nodes(), tree.root(), t) && is_formula(t);
    proof {
        lemma_reads_unique(tree.nodes(), tree.root(), t, tree.formula());
        lemma_reads_unique(tree.nodes(), tree.root(), t, tree.reading());
    }
    let mut out: PropositionalTree = Tree::new();
    let grounded = match Grounded::ground(tree, &mut out, domains) {
        Ok(g) => g,
        Err(e) => {
            return Err(e);
        },
    };
    let ghost sigs = sigs_of(grounded@);
    proof {
        super::ground::lemma_scan_covers(t, domains@, Seq::empty());
    }
    let values: std::collections::HashMap<usize, usize> = std::collections::HashMap::new();
    assert(values@.dom() =~= Set::<usize>::empty());
    let root = match fo2p_recusive(tree.output(), &mut out, &grounded, domains, &values, Ghost(t)) {
        Ok(a) => a,
        Err(e) => {
            return Err(e);
        },
    };
    out.set_output(root);
    let n: usize = out.len();
    proof {
        let env = Map::<usize, usize>::empty();
        assert(values@ =~= env);
        let f = fo2p(t, env, domains@, grounded@);
        let empty = Seq::<NodeValue<Node<2>, PLogic>>::empty();
        lemma_sound_is_ample(t, Set::empty(), domains@);
        lemma_fo2p_solid(t, env, domains@, grounded@);
        lemma_fo2p_formula(t, env, domains@, grounded@);
        lemma_planted_above(empty, f);
        lemma_planted_reads(empty, f);
        lemma_planted_links(empty, f);
        lemma_reads_unique(out.nodes(), out.root(), f, out.formula());
        assert forall|assignment: Seq<bool>|
            truth(out.formula(), assignment) == holds(
                tree.formula(),
                Map::empty(),
                domains@,
                model_of(grounded@, assignment),
            ) by {
            law_grounding_preserves_truth(t, env, domains@, grounded@, assignment);
        }
        let list = grounded@;
        assert(compilable(tree.formula(), domains@) == Ok::<Seq<Sig>, Fault>(sigs));
        assert(sigs_of(list) == compilable(tree.formula(), domains@)->Ok_0);
        assert(out.nodes() == planted(
            Seq::empty(),
            fo2p(tree.formula(), Map::empty(), domains@, list),
        ));
        assert(out.root() == top_of(0, fo2p(tree.formula(), Map::empty(), domains@, list)));
        assert(out.formula() == fo2p(tree.formula(), Map::empty(), domains@, list));
        assert(atoms_named(list, tree.table(), out.table()));
        assert(out.is_formula());
        assert(out.wf());
        assert(well_linked(out.nodes()));
    }
    Ok(out)
}

/// The grounded form of a formula is a propositional formula.
pub proof fn lemma_fo2p_formula(
    t: Reading<FOLogic>,
    env: Map<usize, usize>,
    domains: Seq<Integer>,
    list: Seq<Grounded>,
)
    requires
        is_formula(t),
        ample(t, domains),
    ensures
        crate::logic::propositional::is_formula(fo2p(t, env, domains, list)),
    decreases t, 0nat,
{
    match t {
        Reading::Empty => {},
        Reading::Node(v, l, r) => {
            match v {
                FOLogic::Predicate { id } => {},
                FOLogic::Universal { id } => {
                    lemma_expand_formula(*l, env, id, card_of(domains, id), domains, list, true);
                },
                FOLogic::Existential { id } => {
                    lemma_expand_formula(*l, env, id, card_of(domains, id), domains, list, false);
                },
                FOLogic::Not => {
                    lemma_fo2p_formula(*l, env, domains, list);
                },
                _ => {
                    lemma_fo2p_formula(*l, env, domains, list);
                    lemma_fo2p_formula(*r, env, domains, list);
                },
            }
        },
    }
}

/// A chain over at least one value is a propositional formula.
pub proof fn lemma_expand_formula(
    body: Reading<FOLogic>,
    env: Map<usize, usize>,
    x: Addr,
    k: nat,
    domains: Seq<Integer>,
    list: Seq<Grounded>,
    conjoin: bool,
)
    requires
        is_formula(body),
        ample(body, domains),
        k >= 1,
    ensures
        crate::logic::propositional::is_formula(expand(body, env, x, k, domains, list, conjoin)),
    decreases body, k,
{
    lemma_fo2p_formula(body, env.insert(x.addr, (k - 1) as usize), domains, list);
    if k > 1 {
        lemma_expand_formula(body, env, x, (k - 1) as nat, domains, list, conjoin);
    }
}

} // verus!
