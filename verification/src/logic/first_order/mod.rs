//! First-order logic over finite domains: predicates over variables,
//! quantifiers and the connectives.

pub mod atoms;
pub mod builder;
pub mod compile;
pub mod ground;
pub mod nnf;
pub mod node;

pub use builder::FOMut;
pub use compile::first_order_to_propositional;
pub use nnf::to_nnf;
pub use node::{Args, ArgsIter, FORef};

use vstd::prelude::*;
use crate::logic::semantic::Semantic;
use crate::solver::domain::Integer;
use crate::tree::reading::{reads, Reading};
use crate::tree::{Addr, Node, NodeValue, Tree};

verus! {

/// The symbols of first-order logic.  A predicate applied to variables is a
/// chain: the head carries the predicate, its first child the first
/// argument, whose first child carries the second, and so on; the arguments
/// carry the `Predicate` symbol too, with the variable as its `id`.
#[derive(Clone, Copy, Debug, PartialEq)]
pub enum FOLogic {
    Predicate { id: Addr },
    Universal { id: Addr },
    Existential { id: Addr },
    Not,
    And,
    Or,
}

/// The symbols of first-order logic, under their long name.
pub type FirstOrderLogic = FOLogic;

/// An arena of first-order nodes.
pub type FirstOrderTree = Tree<FOLogic, 2>;

impl Semantic for FOLogic {
    type Tree = Tree<FOLogic, 2>;

    type Node = Node<2>;

    fn symbol(&self) -> (s: Self) {
        *self
    }
}

/// A reading is a chain of arguments: nothing, or a variable in front of a
/// chain.
pub open spec fn is_args(t: Reading<FOLogic>) -> bool
    decreases t,
{
    match t {
        Reading::Empty => true,
        Reading::Node(FOLogic::Predicate { id }, rest, r) => *r is Empty && is_args(*rest),
        Reading::Node(_, rest, r) => false,
    }
}

/// The variables of a chain of arguments, in order.
pub open spec fn args_of(t: Reading<FOLogic>) -> Seq<Addr>
    decreases t,
{
    match t {
        Reading::Empty => Seq::empty(),
        Reading::Node(FOLogic::Predicate { id }, rest, r) => seq![id] + args_of(*rest),
        Reading::Node(_, rest, r) => Seq::empty(),
    }
}

/// The chain of the arguments `vars`.
pub open spec fn chain_of(vars: Seq<Addr>) -> Reading<FOLogic>
    decreases vars.len(),
{
    if vars.len() == 0 {
        Reading::Empty
    } else {
        Reading::Node(
            FOLogic::Predicate { id: vars[0] },
            Box::new(chain_of(vars.skip(1))),
            Box::new(Reading::Empty),
        )
    }
}

/// The predicate `id` applied to the variables `vars`.
pub open spec fn atom_of(id: Addr, vars: Seq<Addr>) -> Reading<FOLogic> {
    Reading::Node(
        FOLogic::Predicate { id },
        Box::new(chain_of(vars)),
        Box::new(Reading::Empty),
    )
}

/// A reading is a formula: a predicate over a chain of arguments, a
/// quantifier or a negation over one formula, or a conjunction or
/// disjunction of two.
pub open spec fn is_formula(t: Reading<FOLogic>) -> bool
    decreases t,
{
    match t {
        Reading::Empty => false,
        Reading::Node(FOLogic::Predicate { id }, l, r) => is_args(*l) && *r is Empty,
        Reading::Node(FOLogic::And, l, r) => is_formula(*l) && is_formula(*r),
        Reading::Node(FOLogic::Or, l, r) => is_formula(*l) && is_formula(*r),
        Reading::Node(_, l, r) => is_formula(*l) && *r is Empty,
    }
}

/// The position in `domains` of the first domain that has `var`; the number
/// of domains if none has it.
pub open spec fn domain_index(domains: Seq<Integer>, var: Addr) -> int
    decreases domains.len(),
{
    if domains.len() == 0 || domains[0].has(var) {
        0
    } else {
        1 + domain_index(domains.skip(1), var)
    }
}

/// Some domain has `var`.
pub open spec fn has_domain(domains: Seq<Integer>, var: Addr) -> bool {
    domain_index(domains, var) < domains.len()
}

/// The number of values over which `var` ranges; nothing if no domain has
/// it.
pub open spec fn card_of(domains: Seq<Integer>, var: Addr) -> nat {
    if has_domain(domains, var) {
        domains[domain_index(domains, var)].card as nat
    } else {
        0
    }
}

/// The values of the variables `vars` under `env`.
pub open spec fn values_of(vars: Seq<Addr>, env: Map<usize, usize>) -> Seq<usize> {
    Seq::new(vars.len(), |i: int| env[vars[i].addr])
}

/// The truth of a formula in a model.  `env` gives the bound variables their
/// values; `model` says of which tuples of values a predicate holds; a
/// quantified variable ranges over the numbers below the size of its domain.
pub open spec fn holds(
    t: Reading<FOLogic>,
    env: Map<usize, usize>,
    domains: Seq<Integer>,
    model: spec_fn(Addr, Seq<usize>) -> bool,
) -> bool
    decreases t, 0nat,
{
    match t {
        Reading::Empty => false,
        Reading::Node(FOLogic::Predicate { id }, l, r) => model(id, values_of(args_of(*l), env)),
        Reading::Node(FOLogic::Universal { id }, l, r) => holds_below(
            *l,
            env,
            id,
            card_of(domains, id),
            domains,
            model,
            true,
        ),
        Reading::Node(FOLogic::Existential { id }, l, r) => holds_below(
            *l,
            env,
            id,
            card_of(domains, id),
            domains,
            model,
            false,
        ),
        Reading::Node(FOLogic::Not, l, r) => !holds(*l, env, domains, model),
        Reading::Node(FOLogic::And, l, r) => holds(*l, env, domains, model) && holds(
            *r,
            env,
            domains,
            model,
        ),
        Reading::Node(FOLogic::Or, l, r) => holds(*l, env, domains, model) || holds(
            *r,
            env,
            domains,
            model,
        ),
    }
}

/// `body` holds at every value below `k` of the variable `x`, if `all` is
/// set; at some value below `k`, if it is not.
pub open spec fn holds_below(
    body: Reading<FOLogic>,
    env: Map<usize, usize>,
    x: Addr,
    k: nat,
    domains: Seq<Integer>,
    model: spec_fn(Addr, Seq<usize>) -> bool,
    all: bool,
) -> bool
    decreases body, k,
{
    if k == 0 {
        all
    } else if all {
        holds_below(body, env, x, (k - 1) as nat, domains, model, all) && holds(
            body,
            env.insert(x.addr, (k - 1) as usize),
            domains,
            model,
        )
    } else {
        holds_below(body, env, x, (k - 1) as nat, domains, model, all) || holds(
            body,
            env.insert(x.addr, (k - 1) as usize),
            domains,
            model,
        )
    }
}

/// A universal formula holds exactly if its body holds at every value of
/// its variable; an existential one, if its body holds at some value.
pub proof fn law_quantifiers(
    body: Reading<FOLogic>,
    env: Map<usize, usize>,
    x: Addr,
    k: nat,
    domains: Seq<Integer>,
    model: spec_fn(Addr, Seq<usize>) -> bool,
)
    requires
        k <= usize::MAX,
    ensures
        holds_below(body, env, x, k, domains, model, true) <==> (forall|v: usize|
            v < k ==> at_value(body, env, x, v, domains, model)),
        holds_below(body, env, x, k, domains, model, false) <==> (exists|v: usize|
            v < k && at_value(body, env, x, v, domains, model)),
    decreases k,
{
    if k > 0 {
        law_quantifiers(body, env, x, (k - 1) as nat, domains, model);
        let last = (k - 1) as usize;
        assert(at_value(body, env, x, last, domains, model) == holds(
            body,
            env.insert(x.addr, last),
            domains,
            model,
        ));
        if holds_below(body, env, x, k, domains, model, true) {
            assert forall|v: usize| v < k implies at_value(body, env, x, v, domains, model) by {
                if v < k - 1 {
                } else {
                    assert(v == last);
                }
            }
        }
        if holds_below(body, env, x, (k - 1) as nat, domains, model, false) {
            let v = choose|v: usize| v < k - 1 && at_value(body, env, x, v, domains, model);
            assert(v < k && at_value(body, env, x, v, domains, model));
        }
        if exists|v: usize| v < k && at_value(body, env, x, v, domains, model) {
            let v = choose|v: usize| v < k && at_value(body, env, x, v, domains, model);
            if v < k - 1 {
                assert(v < k - 1 && at_value(body, env, x, v, domains, model));
            } else {
                assert(v == last);
            }
        }
    }
}

/// `body` holds where the variable `x` has the value `v`.
pub open spec fn at_value(
    body: Reading<FOLogic>,
    env: Map<usize, usize>,
    x: Addr,
    v: usize,
    domains: Seq<Integer>,
    model: spec_fn(Addr, Seq<usize>) -> bool,
) -> bool {
    holds(body, env.insert(x.addr, v), domains, model)
}

/// The formula that stands at `at` in `nodes`, if one does.
pub open spec fn formula_at(nodes: Seq<NodeValue<Node<2>, FOLogic>>, at: Addr) -> Reading<
    FOLogic,
> {
    choose|t: Reading<FOLogic>| reads(nodes, at, t)
}

/// A formula stands at `at` in `nodes`.
pub open spec fn has_formula(nodes: Seq<NodeValue<Node<2>, FOLogic>>, at: Addr) -> bool {
    exists|t: Reading<FOLogic>| reads(nodes, at, t) && is_formula(t)
}

impl FirstOrderTree {
    /// The formula at the output.
    pub open spec fn formula(&self) -> Reading<FOLogic> {
        formula_at(self.nodes(), self.root())
    }

    /// A formula stands at the output.
    pub open spec fn is_formula(&self) -> bool {
        has_formula(self.nodes(), self.root())
    }
}

} // verus!
