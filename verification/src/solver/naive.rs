//! The naive solver: every assignment in turn, and those that satisfy.

use vstd::prelude::*;
use super::bits::{assignment_of, bits_of, pow2, power_of_two};
use crate::logic::semantic::Eval;
use crate::tree::Mapping;

verus! {

/// The number of assignments below `k`, in the order of their numbers, that
/// satisfy `expr` over `n` variables.
pub open spec fn models_below<T: Eval<bool, Output = bool>>(expr: &T, n: nat, k: nat) -> nat
    decreases k,
{
    if k == 0 {
        0
    } else {
        models_below(expr, n, (k - 1) as nat) + (if expr.value(bits_of((k - 1) as nat, n)) {
            1nat
        } else {
            0nat
        })
    }
}

/// The number of assignments over `n` variables that satisfy `expr`.
pub open spec fn model_count<T: Eval<bool, Output = bool>>(expr: &T, n: nat) -> nat {
    models_below(expr, n, pow2(n))
}

/// No assignment with a number from `from` up to `to` satisfies `expr`.
pub open spec fn none_between<T: Eval<bool, Output = bool>>(
    expr: &T,
    n: nat,
    from: nat,
    to: nat,
) -> bool {
    forall|m: nat| from <= m < to ==> !#[trigger] expr.value(bits_of(m, n))
}

/// The assignments that satisfy an expression, in the order of their
/// numbers: the assignment number `m` gives variable `k` the bit `k` of `m`.
pub struct Enumerate<'a, T: Eval<bool, Output = bool>> {
    expr: &'a T,
    num_variables: usize,
    limit: usize,
    current_solution: usize,
}

impl<'a, T: Eval<bool, Output = bool>> Enumerate<'a, T> {
    /// The expression.
    pub closed spec fn subject(&self) -> &'a T {
        self.expr
    }

    /// The number of variables.
    pub closed spec fn variables(&self) -> nat {
        self.num_variables as nat
    }

    /// The number of the assignment that is tried next.
    pub closed spec fn position(&self) -> nat {
        self.current_solution as nat
    }

    /// The enumeration is in order: a machine word counts the assignments,
    /// and the expression has a value under each.
    pub closed spec fn wf(&self) -> bool {
        &&& self.limit == pow2(self.num_variables as nat)
        &&& self.current_solution <= self.limit
        &&& forall|a: Seq<bool>| a.len() == self.num_variables ==> #[trigger] self.expr.covers(a)
    }

    /// The number of assignments: two to the number of variables.
    pub fn domain_size(&self) -> (n: usize)
        requires
            self.wf(),
        ensures
            n == pow2(self.variables()),
    {
        self.limit
    }

    /// The next assignment that satisfies the expression; nothing when
    /// there is none left.
    pub fn next(&mut self) -> (found: Option<Vec<bool>>)
        requires
            old(self).wf(),
        ensures
            final(self).wf(),
            final(self).subject() == old(self).subject(),
            final(self).variables() == old(self).variables(),
            old(self).position() <= final(self).position() <= pow2(old(self).variables()),
            match found {
                Some(a) => {
                    &&& old(self).position() < final(self).position()
                    &&& a@ == bits_of((final(self).position() - 1) as nat, old(self).variables())
                    &&& old(self).subject().value(a@)
                    &&& none_between(
                        old(self).subject(),
                        old(self).variables(),
                        old(self).position(),
                        (final(self).position() - 1) as nat,
                    )
                },
                None => {
                    &&& final(self).position() == pow2(old(self).variables())
                    &&& none_between(
                        old(self).subject(),
                        old(self).variables(),
                        old(self).position(),
                        final(self).position(),
                    )
                },
            },
    {
        while self.current_solution < self.limit
            invariant
                self.wf(),
                self.expr == old(self).expr,
                self.num_variables == old(self).num_variables,
                old(self).current_solution <= self.current_solution,
                none_between(
                    self.expr,
                    self.num_variables as nat,
                    old(self).current_solution as nat,
                    self.current_solution as nat,
                ),
            decreases self.limit - self.current_solution,
        {
            let assignment = assignment_of(self.current_solution, self.num_variables);
            self.current_solution += 1;
            if self.expr.eval(&assignment) {
                return Some(assignment);
            }
        }
        None
    }

    /// The number of assignments still to come that satisfy the expression.
    /// The enumeration is at its end afterwards.
    pub fn count(&mut self) -> (n: usize)
        requires
            old(self).wf(),
        ensures
            final(self).wf(),
            final(self).subject() == old(self).subject(),
            final(self).variables() == old(self).variables(),
            final(self).position() == pow2(old(self).variables()),
            n + models_below(old(self).subject(), old(self).variables(), old(self).position())
                == model_count(old(self).subject(), old(self).variables()),
    {
        let mut n: usize = 0;
        while self.current_solution < self.limit
            invariant
                self.wf(),
                self.expr == old(self).expr,
                self.num_variables == old(self).num_variables,
                old(self).current_solution <= self.current_solution <= self.limit,
                n <= self.current_solution - old(self).current_solution,
                n + models_below(
                    self.expr,
                    self.num_variables as nat,
                    old(self).current_solution as nat,
                ) == models_below(
                    self.expr,
                    self.num_variables as nat,
                    self.current_solution as nat,
                ),
            decreases self.limit - self.current_solution,
        {
            let assignment = assignment_of(self.current_solution, self.num_variables);
            self.current_solution += 1;
            if self.expr.eval(&assignment) {
                n += 1;
            }
        }
        n
    }
}

/// The enumeration of the assignments that satisfy `expr`, over one
/// variable for each entry of its symbol table.
pub fn enumerate<'a, T: Mapping + Eval<bool, Output = bool>>(expr: &'a T) -> (all: Enumerate<
    'a,
    T,
>)
    requires
        pow2(expr.names().len()) <= usize::MAX,
        forall|a: Seq<bool>| a.len() == expr.names().len() ==> #[trigger] expr.covers(a),
    ensures
        all.wf(),
        all.subject() == expr,
        all.variables() == expr.names().len(),
        all.position() == 0,
{
    let n: usize = expr.num_named();
    let limit: usize = match power_of_two(n) {
        Some(v) => v,
        None => 0,
    };
    Enumerate { expr, num_variables: n, limit, current_solution: 0 }
}

/// Whether a machine word can count the assignments over `n` variables.
pub fn countable(n: usize) -> (b: bool)
    ensures
        b == (pow2(n as nat) <= usize::MAX),
{
    power_of_two(n).is_some()
}

} // verus!
