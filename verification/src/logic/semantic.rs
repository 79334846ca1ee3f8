//! What the fragments have in common.

use vstd::prelude::*;
use crate::tree::LinkingNode;

verus! {

/// A node that knows how many children its symbol takes.
pub trait SemanticNode {
    /// The number of children that the node's symbol takes.
    spec fn child_count(&self) -> nat;

    /// The number of children that the node's symbol takes.
    fn arity(&self) -> (n: usize)
        ensures
            n == self.child_count(),
    ;
}

/// A symbol alphabet, with the arena and the link record that carry it.
pub trait Semantic: Copy {
    /// The arena of this fragment.
    type Tree;

    /// The link record of this fragment.
    type Node: LinkingNode;

    /// The symbol itself.
    fn symbol(&self) -> (s: Self)
        ensures
            s == *self,
    ;
}

/// Something that has a value under an assignment, one `D` per variable.
pub trait Eval<D> {
    /// The type of the values.
    type Output;

    /// The assignments under which there is a value: the expression is well
    /// formed and the assignment covers its variables.
    spec fn covers(&self, assignment: Seq<D>) -> bool;

    /// The value under `assignment`.
    spec fn value(&self, assignment: Seq<D>) -> Self::Output;

    /// Computes the value under `assignment`.
    fn eval(&self, assignment: &Vec<D>) -> (r: Self::Output)
        requires
            self.covers(assignment@),
        ensures
            r == self.value(assignment@),
    ;
}

} // verus!
