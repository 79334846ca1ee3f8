//! Reading circuit nodes: the cursor's moves, arity and display.

use vstd::prelude::*;
use vstd::string::*;
use super::{is_circuit, PCicruit, ProbabilisticCircuitTree, UNIT_WEIGHT};
use crate::logic::semantic::SemanticNode;
use crate::tree::reading::{lemma_reads_unique, reads, slot, Reading};
use crate::tree::traits::shown_name;
use crate::tree::{Addr, IndexedRef, Mapping, Node, NodeValue};

verus! {

/// The moves of a cursor over a circuit.
pub trait PCRef: Sized {
    /// The cursor stands on a node.
    spec fn on_node(&self) -> bool;

    /// The cursor moved to what slot `c` of its node holds.
    spec fn child(&self, c: int) -> Self;

    /// The first input of a product or sum.
    fn left(&self) -> (r: Self)
        requires
            self.on_node(),
        ensures
            r == self.child(0),
    ;

    /// The second input of a product or sum.
    fn right(&self) -> (r: Self)
        requires
            self.on_node(),
        ensures
            r == self.child(1),
    ;
}

impl<'a> PCRef for IndexedRef<'a, ProbabilisticCircuitTree> {
    open spec fn on_node(&self) -> bool {
        self.idx.addr < self.array.nodes().len()
    }

    open spec fn child(&self, c: int) -> Self {
        IndexedRef { array: self.array, idx: slot(self.array.nodes(), self.idx.addr as int, c) }
    }

    fn left(&self) -> (r: Self) {
        IndexedRef { array: self.array, idx: self.array.get(self.idx).node.childs[0] }
    }

    fn right(&self) -> (r: Self) {
        IndexedRef { array: self.array, idx: self.array.get(self.idx).node.childs[1] }
    }
}

impl SemanticNode for NodeValue<Node<2>, PCicruit> {
    open spec fn child_count(&self) -> nat {
        match self.value {
            PCicruit::Variable { id, neg } => 0,
            PCicruit::Product => 2,
            PCicruit::Sum { left, right } => 2,
        }
    }

    fn arity(&self) -> (n: usize) {
        match self.value {
            PCicruit::Variable { .. } => 0,
            PCicruit::Product => 2,
            PCicruit::Sum { .. } => 2,
        }
    }
}

/// The texts of the weights, node by node: for the sum at address `i`, the
/// text of its left and of its right weight.
pub open spec fn label_texts(labels: Seq<(String, String)>) -> Seq<(Seq<char>, Seq<char>)> {
    Seq::new(labels.len(), |i: int| (labels[i].0@, labels[i].1@))
}

/// The texts of the weights of the node at `at`; empty texts where `labels`
/// has none for it.
pub open spec fn label_at(labels: Seq<(Seq<char>, Seq<char>)>, at: Addr) -> (
    Seq<char>,
    Seq<char>,
) {
    if at.addr < labels.len() {
        labels[at.addr as int]
    } else {
        (Seq::empty(), Seq::empty())
    }
}

/// What stands in front of an input of a sum: nothing for the weight one,
/// else the text of the weight and the weight marker.
pub open spec fn weight_prefix(weight: u32, text: Seq<char>) -> Seq<char> {
    if weight == UNIT_WEIGHT {
        Seq::empty()
    } else {
        text + "\u{00B7}"@
    }
}

/// The text of a circuit: a leaf by its name, with `¬` in front if it is
/// negated; a product and a sum in brackets around `*` and `+`, each input
/// of a sum behind its weight unless that is one.
pub open spec fn shown(
    nodes: Seq<NodeValue<Node<2>, PCicruit>>,
    at: Addr,
    t: Reading<PCicruit>,
    names: Seq<Option<Seq<char>>>,
    labels: Seq<(Seq<char>, Seq<char>)>,
) -> Seq<char>
    decreases t,
{
    match t {
        Reading::Empty => Seq::empty(),
        Reading::Node(PCicruit::Variable { id, neg }, l, r) => (if neg {
            "\u{00AC}"@
        } else {
            Seq::empty()
        }) + shown_name(names, id),
        Reading::Node(PCicruit::Product, l, r) => "("@ + shown(
            nodes,
            slot(nodes, at.addr as int, 0),
            *l,
            names,
            labels,
        ) + "*"@ + shown(nodes, slot(nodes, at.addr as int, 1), *r, names, labels) + ")"@,
        Reading::Node(PCicruit::Sum { left, right }, l, r) => "("@ + weight_prefix(
            left,
            label_at(labels, at).0,
        ) + shown(nodes, slot(nodes, at.addr as int, 0), *l, names, labels) + "+"@
            + weight_prefix(right, label_at(labels, at).1) + shown(
            nodes,
            slot(nodes, at.addr as int, 1),
            *r,
            names,
            labels,
        ) + ")"@,
    }
}

/// Appends the weight prefix of an input of the sum at `at`.
fn fmt_weight(out: &mut String, weight: u32, text: Option<&String>)
    ensures
        final(out)@ == old(out)@ + weight_prefix(
            weight,
            match text {
                Some(s) => s@,
                None => Seq::empty(),
            },
        ),
{
    if weight != UNIT_WEIGHT {
        match text {
            Some(s) => {
                out.append(s.as_str());
            },
            None => {},
        }
        out.append("\u{00B7}");
        assert(out@ =~= old(out)@ + weight_prefix(
            weight,
            match text {
                Some(s) => s@,
                None => Seq::empty(),
            },
        ));
    } else {
        assert(out@ =~= old(out)@ + Seq::<char>::empty());
    }
}

/// Appends the text of the circuit at `at` to `out`.
fn fmt_at(
    tree: &ProbabilisticCircuitTree,
    at: Addr,
    labels: &Vec<(String, String)>,
    out: &mut String,
    Ghost(t): Ghost<Reading<PCicruit>>,
)
    requires
        reads(tree.nodes(), at, t),
        is_circuit(t),
    ensures
        final(out)@ == old(out)@ + shown(tree.nodes(), at, t, tree.table(), label_texts(labels@)),
    decreases t,
{
    let cell = tree.get(at);
    let ghost l: Reading<PCicruit> = *t->Node_1;
    let ghost r: Reading<PCicruit> = *t->Node_2;
    let ghost want = shown(tree.nodes(), at, t, tree.table(), label_texts(labels@));
    match cell.value {
        PCicruit::Variable { id, neg } => {
            if neg {
                out.append("\u{00AC}");
            }
            let name = tree.fmt_named(id);
            out.append(name.as_str());
            assert(out@ =~= old(out)@ + want);
        },
        PCicruit::Product => {
            out.append("(");
            fmt_at(tree, cell.node.childs[0], labels, out, Ghost(l));
            out.append("*");
            fmt_at(tree, cell.node.childs[1], labels, out, Ghost(r));
            out.append(")");
            assert(out@ =~= old(out)@ + want);
        },
        PCicruit::Sum { left, right } => {
            let (left_text, right_text) = if at.addr < labels.len() {
                (Some(&labels[at.addr].0), Some(&labels[at.addr].1))
            } else {
                (None, None)
            };
            out.append("(");
            fmt_weight(out, left, left_text);
            fmt_at(tree, cell.node.childs[0], labels, out, Ghost(l));
            out.append("+");
            fmt_weight(out, right, right_text);
            fmt_at(tree, cell.node.childs[1], labels, out, Ghost(r));
            out.append(")");
            assert(out@ =~= old(out)@ + want);
        },
    }
}

impl ProbabilisticCircuitTree {
    /// The text of the circuit at the output, with the weights shown by the
    /// texts in `labels`: for the sum at address `i`, `labels[i]` holds the
    /// text of its left and of its right weight.
    pub fn to_string_with(&self, labels: &Vec<(String, String)>) -> (s: String)
        requires
            self.is_circuit(),
        ensures
            s@ == shown(
                self.nodes(),
                self.root(),
                self.circuit(),
                self.table(),
                label_texts(labels@),
            ),
    {
        let ghost t = choose|t: Reading<PCicruit>|
            reads(self.nodes(), self.root(), t) && is_circuit(t);
        proof {
            lemma_reads_unique(self.nodes(), self.root(), t, self.circuit());
        }
        let mut s = String::new();
        fmt_at(self, self.output_addr(), labels, &mut s, Ghost(t));
        assert(s@ =~= shown(self.nodes(), self.root(), t, self.table(), label_texts(labels@)));
        s
    }

    /// The text of the circuit at the output; a weight other than one is
    /// shown by the weight marker alone.
    pub fn to_string(&self) -> (s: String)
        requires
            self.is_circuit(),
        ensures
            s@ == shown(self.nodes(), self.root(), self.circuit(), self.table(), Seq::empty()),
    {
        let labels: Vec<(String, String)> = Vec::new();
        assert(label_texts(labels@) =~= Seq::empty());
        self.to_string_with(&labels)
    }
}

} // verus!
