//! What is read from an arena by walking down from a node, and the laws of
//! the links that a walk relies on.

use vstd::prelude::*;
use super::addr::Addr;
use super::node::{first_match, lemma_first_match_contains, Node};
use super::tree::{parent_after, relocated, slots_after, swap_removed, value_after, NodeValue};

verus! {

/// What a walk from an address finds: nothing, at the sentinel, or a symbol
/// with what is found from the first and from the second child slot.
pub enum Reading<T> {
    Empty,
    Node(T, Box<Reading<T>>, Box<Reading<T>>),
}

/// The number of nodes of a reading.
pub open spec fn size<T>(t: Reading<T>) -> nat
    decreases t,
{
    match t {
        Reading::Empty => 0,
        Reading::Node(_, l, r) => 1 + size(*l) + size(*r),
    }
}

/// The number of nodes on the longest way down a reading.
pub open spec fn depth<T>(t: Reading<T>) -> nat
    decreases t,
{
    match t {
        Reading::Empty => 0,
        Reading::Node(_, l, r) => 1 + (if depth(*l) >= depth(*r) {
            depth(*l)
        } else {
            depth(*r)
        }),
    }
}

/// The content of slot `c` of the node at `p`.
pub open spec fn slot<T, const N: usize>(nodes: Seq<NodeValue<Node<N>, T>>, p: int, c: int) -> Addr {
    nodes[p].node.childs@[c]
}

/// Walking `nodes` down from `at` finds exactly `t`.
pub open spec fn reads<T>(nodes: Seq<NodeValue<Node<2>, T>>, at: Addr, t: Reading<T>) -> bool
    decreases t,
{
    match t {
        Reading::Empty => at.absent(),
        Reading::Node(v, l, r) => {
            &&& at.addr < nodes.len()
            &&& !at.absent()
            &&& nodes[at.addr as int].value == v
            &&& reads(nodes, slot(nodes, at.addr as int, 0), *l)
            &&& reads(nodes, slot(nodes, at.addr as int, 1), *r)
        },
    }
}

/// The walk from `at` that finds `t` comes by the node at `x`.
pub open spec fn reaches<T>(
    nodes: Seq<NodeValue<Node<2>, T>>,
    at: Addr,
    t: Reading<T>,
    x: Addr,
) -> bool
    decreases t,
{
    match t {
        Reading::Empty => false,
        Reading::Node(_, l, r) => {
            ||| at == x
            ||| reaches(nodes, slot(nodes, at.addr as int, 0), *l, x)
            ||| reaches(nodes, slot(nodes, at.addr as int, 1), *r, x)
        },
    }
}

/// Back-pointer consistency: a node that sits in a child slot is in the
/// arena and names the holder of that slot as its parent.
pub open spec fn back_linked<T, const N: usize>(nodes: Seq<NodeValue<Node<N>, T>>) -> bool {
    forall|p: int, c: int|
        0 <= p < nodes.len() && 0 <= c < N && !(#[trigger] slot(nodes, p, c)).absent() ==> slot(
            nodes,
            p,
            c,
        ).addr < nodes.len() && nodes[slot(nodes, p, c).addr as int].node.parent == (Addr {
            addr: p as usize,
        })
}

/// No node sits in two slots of one node, and none in a slot of its own.
pub open spec fn slots_apart<T, const N: usize>(nodes: Seq<NodeValue<Node<N>, T>>) -> bool {
    &&& forall|p: int, c: int, d: int|
        0 <= p < nodes.len() && 0 <= c < N && 0 <= d < N && c != d && !(#[trigger] slot(
            nodes,
            p,
            c,
        )).absent() ==> slot(nodes, p, c) != #[trigger] slot(nodes, p, d)
    &&& forall|p: int, c: int|
        0 <= p < nodes.len() && 0 <= c < N ==> (#[trigger] slot(nodes, p, c)).addr != p
}

/// The links of an arena are those of a forest: back-pointers are consistent
/// and every node sits in at most one slot, which is not its own.
pub open spec fn well_linked<T, const N: usize>(nodes: Seq<NodeValue<Node<N>, T>>) -> bool {
    &&& nodes.len() <= usize::MAX
    &&& back_linked(nodes)
    &&& slots_apart(nodes)
}

/// No slot of the arena holds `a`.
pub open spec fn unreferenced<T, const N: usize>(
    nodes: Seq<NodeValue<Node<N>, T>>,
    a: Addr,
) -> bool {
    forall|p: int, c: int| 0 <= p < nodes.len() && 0 <= c < N ==> #[trigger] slot(nodes, p, c) != a
}

/// From one address a walk finds at most one reading.
pub proof fn lemma_reads_unique<T>(
    nodes: Seq<NodeValue<Node<2>, T>>,
    at: Addr,
    t: Reading<T>,
    u: Reading<T>,
)
    requires
        reads(nodes, at, t),
        reads(nodes, at, u),
    ensures
        t == u,
    decreases t,
{
    match t {
        Reading::Empty => {},
        Reading::Node(v, l, r) => {
            match u {
                Reading::Empty => {},
                Reading::Node(w, m, s) => {
                    lemma_reads_unique(nodes, slot(nodes, at.addr as int, 0), *l, *m);
                    lemma_reads_unique(nodes, slot(nodes, at.addr as int, 1), *r, *s);
                },
            }
        },
    }
}

/// A walk depends only on the symbols and child slots of the nodes it comes
/// by: where those are kept, the walk finds the same, by the same nodes.
pub proof fn lemma_reads_frame<T>(
    nodes: Seq<NodeValue<Node<2>, T>>,
    after: Seq<NodeValue<Node<2>, T>>,
    at: Addr,
    t: Reading<T>,
)
    requires
        reads(nodes, at, t),
        forall|x: Addr| #[trigger]
            reaches(nodes, at, t, x) ==> x.addr < after.len() && after[x.addr as int].value
                == nodes[x.addr as int].value && after[x.addr as int].node.childs@
                == nodes[x.addr as int].node.childs@,
    ensures
        reads(after, at, t),
        forall|x: Addr| reaches(after, at, t, x) == reaches(nodes, at, t, x),
    decreases t,
{
    match t {
        Reading::Empty => {},
        Reading::Node(v, l, r) => {
            assert(reaches(nodes, at, t, at));
            let a0 = slot(nodes, at.addr as int, 0);
            let a1 = slot(nodes, at.addr as int, 1);
            assert forall|x: Addr| #[trigger] reaches(nodes, a0, *l, x) implies x.addr < after.len()
                && after[x.addr as int].value == nodes[x.addr as int].value
                && after[x.addr as int].node.childs@ == nodes[x.addr as int].node.childs@ by {
                assert(reaches(nodes, at, t, x));
            }
            assert forall|x: Addr| #[trigger] reaches(nodes, a1, *r, x) implies x.addr < after.len()
                && after[x.addr as int].value == nodes[x.addr as int].value
                && after[x.addr as int].node.childs@ == nodes[x.addr as int].node.childs@ by {
                assert(reaches(nodes, at, t, x));
            }
            lemma_reads_frame(nodes, after, a0, *l);
            lemma_reads_frame(nodes, after, a1, *r);
            assert(slot(after, at.addr as int, 0) == a0);
            assert(slot(after, at.addr as int, 1) == a1);
            assert forall|x: Addr| reaches(after, at, t, x) == reaches(nodes, at, t, x) by {
                assert(reaches(after, a0, *l, x) == reaches(nodes, a0, *l, x));
                assert(reaches(after, a1, *r, x) == reaches(nodes, a1, *r, x));
            }
        },
    }
}

/// A walk comes only by nodes of the arena.
pub proof fn lemma_reaches_within<T>(
    nodes: Seq<NodeValue<Node<2>, T>>,
    at: Addr,
    t: Reading<T>,
    x: Addr,
)
    requires
        reads(nodes, at, t),
        reaches(nodes, at, t, x),
    ensures
        x.addr < nodes.len(),
        !x.absent(),
    decreases t,
{
    match t {
        Reading::Empty => {},
        Reading::Node(v, l, r) => {
            if at == x {
            } else if reaches(nodes, slot(nodes, at.addr as int, 0), *l, x) {
                lemma_reaches_within(nodes, slot(nodes, at.addr as int, 0), *l, x);
            } else {
                lemma_reaches_within(nodes, slot(nodes, at.addr as int, 1), *r, x);
            }
        },
    }
}

/// Appending nodes and changing parent links leaves every walk as it was.
pub proof fn lemma_reads_grown<T>(
    nodes: Seq<NodeValue<Node<2>, T>>,
    after: Seq<NodeValue<Node<2>, T>>,
    at: Addr,
    t: Reading<T>,
)
    requires
        reads(nodes, at, t),
        nodes.len() <= after.len(),
        forall|i: int|
            0 <= i < nodes.len() ==> (#[trigger] after[i]).value == nodes[i].value
                && after[i].node.childs@ == nodes[i].node.childs@,
    ensures
        reads(after, at, t),
        forall|x: Addr| reaches(after, at, t, x) == reaches(nodes, at, t, x),
{
    assert forall|x: Addr| #[trigger] reaches(nodes, at, t, x) implies x.addr < after.len()
        && after[x.addr as int].value == nodes[x.addr as int].value
        && after[x.addr as int].node.childs@ == nodes[x.addr as int].node.childs@ by {
        lemma_reaches_within(nodes, at, t, x);
    }
    lemma_reads_frame(nodes, after, at, t);
}

/// Swap-remove keeps the links in order.  Where the links of an arena are
/// those of a forest and no slot holds `a`, they are so again after the node
/// at `a` has been removed.
pub proof fn law_remove_keeps_links<T, const N: usize>(
    nodes: Seq<NodeValue<Node<N>, T>>,
    a: Addr,
    after: Seq<NodeValue<Node<N>, T>>,
)
    requires
        well_linked(nodes),
        a.addr < nodes.len(),
        unreferenced(nodes, a),
        swap_removed(nodes, a, after),
    ensures
        well_linked(after),
{
    let last = nodes.len() - 1;
    let moved = nodes[last];
    let last_addr = Addr { addr: last as usize };
    assert forall|p: int, c: int| 0 <= p < after.len() && 0 <= c < N implies {
        &&& (!(#[trigger] slot(after, p, c)).absent() ==> slot(after, p, c).addr < after.len()
            && after[slot(after, p, c).addr as int].node.parent == (Addr { addr: p as usize }))
        &&& slot(after, p, c).addr != p
        &&& forall|d: int|
            0 <= d < N && c != d && !slot(after, p, c).absent() ==> slot(after, p, c) != slot(
                after,
                p,
                d,
            )
    } by {
        let q = slot(after, p, c);
        assert(after[p].node.childs@ == slots_after(nodes, a, p));
        if a.addr == last {
            assert(q == slot(nodes, p, c));
            assert(q != a);
            if !q.absent() {
                assert(after[q.addr as int].node.parent == parent_after(nodes, a, q.addr as int));
            }
            assert forall|d: int| 0 <= d < N && c != d && !q.absent() implies q != slot(
                after,
                p,
                d,
            ) by {
                assert(slot(after, p, d) == slot(nodes, p, d));
            }
        } else if p == a.addr {
            assert(q == slot(nodes, last, c));
            assert(q != a);
            assert(q.addr != last);
            if !q.absent() {
                assert(moved.node.childs@[c] == q);
                assert(moved.node.childs@.contains(Addr { addr: q.addr as int as usize }));
                assert(after[q.addr as int].node.parent == parent_after(nodes, a, q.addr as int));
            }
            assert forall|d: int| 0 <= d < N && c != d && !q.absent() implies q != slot(
                after,
                p,
                d,
            ) by {
                assert(slot(after, p, d) == slot(nodes, last, d));
            }
        } else {
            let old_slots = nodes[p].node.childs@;
            lemma_first_match_contains(old_slots, last_addr);
            let k = first_match(old_slots, last_addr);
            let fixed = p == moved.node.parent.addr && k < N;
            if fixed && c == k {
                assert(q == a);
                assert(slot(nodes, p, k) == last_addr);
                assert(nodes[last].node.parent == (Addr { addr: p as usize }));
                assert(after[a.addr as int].node.parent == parent_after(nodes, a, a.addr as int));
                assert forall|d: int| 0 <= d < N && c != d implies q != slot(after, p, d) by {
                    assert(slot(after, p, d) == slot(nodes, p, d));
                }
            } else {
                assert(q == slot(nodes, p, c));
                assert(q != a);
                if !q.absent() {
                    if q.addr == last {
                        assert(nodes[last].node.parent == (Addr { addr: p as usize }));
                        assert(old_slots[c] == last_addr);
                        assert(slot(nodes, p, k) == last_addr);
                    }
                    if moved.node.childs@.contains(Addr { addr: q.addr as int as usize }) {
                        let j = choose|j: int|
                            0 <= j < moved.node.childs@.len() && moved.node.childs@[j] == q;
                        assert(slot(nodes, last, j) == q);
                    }
                    assert(after[q.addr as int].node.parent == parent_after(
                        nodes,
                        a,
                        q.addr as int,
                    ));
                }
                assert forall|d: int| 0 <= d < N && c != d && !q.absent() implies q != slot(
                    after,
                    p,
                    d,
                ) by {
                    if fixed && d == k {
                    } else {
                        assert(slot(after, p, d) == slot(nodes, p, d));
                    }
                }
            }
        }
    }
}

/// Swap-remove preserves meaning.  Where the links of an arena are those of
/// a forest, a walk that does not come by the removed node finds after the
/// removal, from where its starting node now is, what it found before.
pub proof fn law_remove_keeps_reading<T>(
    nodes: Seq<NodeValue<Node<2>, T>>,
    a: Addr,
    after: Seq<NodeValue<Node<2>, T>>,
    at: Addr,
    t: Reading<T>,
)
    requires
        well_linked(nodes),
        a.addr < nodes.len(),
        swap_removed(nodes, a, after),
        reads(nodes, at, t),
        !reaches(nodes, at, t, a),
    ensures
        reads(after, relocated(nodes.len(), a, at), t),
    decreases t,
{
    let last = nodes.len() - 1;
    let last_addr = Addr { addr: last as usize };
    match t {
        Reading::Empty => {},
        Reading::Node(v, l, r) => {
            let now = relocated(nodes.len(), a, at);
            let p = at.addr as int;
            let q0 = slot(nodes, p, 0);
            let q1 = slot(nodes, p, 1);
            law_remove_keeps_reading(nodes, a, after, q0, *l);
            law_remove_keeps_reading(nodes, a, after, q1, *r);
            assert(at != a);
            assert(now.addr < after.len());
            let n = now.addr as int;
            assert(after[n].value == value_after(nodes, a, n));
            assert(after[n].node.childs@ == slots_after(nodes, a, n));
            assert(q0.addr != p && q1.addr != p);
            assert(reads(nodes, q0, *l) && reads(nodes, q1, *r));
            assert(!reaches(nodes, q0, *l, a) && !reaches(nodes, q1, *r, a));
            if *l is Empty {
                assert(q0.absent());
            } else {
                assert(q0 != a);
                assert(q0.addr < nodes.len());
            }
            if *r is Empty {
                assert(q1.absent());
            } else {
                assert(q1 != a);
                assert(q1.addr < nodes.len());
            }
            if a.addr == last {
                assert(slot(after, n, 0) == relocated(nodes.len(), a, q0));
                assert(slot(after, n, 1) == relocated(nodes.len(), a, q1));
            } else if p == last {
                assert(n == a.addr);
                assert(slot(after, n, 0) == relocated(nodes.len(), a, q0));
                assert(slot(after, n, 1) == relocated(nodes.len(), a, q1));
            } else {
                let old_slots = nodes[p].node.childs@;
                lemma_first_match_contains(old_slots, last_addr);
                let k = first_match(old_slots, last_addr);
                if q0 == last_addr {
                    assert(!q0.absent());
                    assert(nodes[last].node.parent == at);
                    assert(k == 0);
                    assert(q1 != last_addr);
                } else if q1 == last_addr {
                    assert(!q1.absent());
                    assert(nodes[last].node.parent == at);
                    assert(k == 1);
                } else {
                    assert(k == 2) by {
                        if k < 2 {
                            assert(old_slots[k] == last_addr);
                        }
                    }
                }
                assert(slot(after, n, 0) == relocated(nodes.len(), a, q0));
                assert(slot(after, n, 1) == relocated(nodes.len(), a, q1));
            }
        },
    }
}

/// What the walk from `at` that finds `t` finds from the node `x` on its
/// way.
pub open spec fn reading_from<T>(
    nodes: Seq<NodeValue<Node<2>, T>>,
    at: Addr,
    t: Reading<T>,
    x: Addr,
) -> Reading<T>
    decreases t,
{
    match t {
        Reading::Empty => Reading::Empty,
        Reading::Node(_, l, r) => {
            if at == x {
                t
            } else if reaches(nodes, slot(nodes, at.addr as int, 0), *l, x) {
                reading_from(nodes, slot(nodes, at.addr as int, 0), *l, x)
            } else {
                reading_from(nodes, slot(nodes, at.addr as int, 1), *r, x)
            }
        },
    }
}

/// From a node on its way a walk finds a part of what it finds in all: no
/// more nodes, and fewer unless the node is where the walk starts.
pub proof fn lemma_reaches_part<T>(
    nodes: Seq<NodeValue<Node<2>, T>>,
    at: Addr,
    t: Reading<T>,
    x: Addr,
)
    requires
        reads(nodes, at, t),
        reaches(nodes, at, t, x),
    ensures
        reads(nodes, x, reading_from(nodes, at, t, x)),
        size(reading_from(nodes, at, t, x)) <= size(t),
        x != at ==> size(reading_from(nodes, at, t, x)) < size(t),
    decreases t,
{
    match t {
        Reading::Empty => {},
        Reading::Node(_, l, r) => {
            if at == x {
            } else if reaches(nodes, slot(nodes, at.addr as int, 0), *l, x) {
                lemma_reaches_part(nodes, slot(nodes, at.addr as int, 0), *l, x);
            } else {
                lemma_reaches_part(nodes, slot(nodes, at.addr as int, 1), *r, x);
            }
        },
    }
}

/// A walk does not come back to where it started: no node is below itself.
pub proof fn lemma_no_way_back<T>(
    nodes: Seq<NodeValue<Node<2>, T>>,
    at: Addr,
    t: Reading<T>,
)
    requires
        reads(nodes, at, t),
        !(t is Empty),
    ensures
        !reaches(nodes, slot(nodes, at.addr as int, 0), *t->Node_1, at),
        !reaches(nodes, slot(nodes, at.addr as int, 1), *t->Node_2, at),
{
    let c0 = slot(nodes, at.addr as int, 0);
    let c1 = slot(nodes, at.addr as int, 1);
    let l = *t->Node_1;
    let r = *t->Node_2;
    if reaches(nodes, c0, l, at) {
        lemma_reaches_part(nodes, c0, l, at);
        lemma_reads_unique(nodes, at, t, reading_from(nodes, c0, l, at));
    }
    if reaches(nodes, c1, r, at) {
        lemma_reaches_part(nodes, c1, r, at);
        lemma_reads_unique(nodes, at, t, reading_from(nodes, c1, r, at));
    }
}

/// Where back-pointers are consistent, a walk that comes by a node other
/// than its start comes by the parent of that node.
pub proof fn lemma_reaches_parent<T>(
    nodes: Seq<NodeValue<Node<2>, T>>,
    at: Addr,
    t: Reading<T>,
    x: Addr,
)
    requires
        back_linked(nodes),
        reads(nodes, at, t),
        reaches(nodes, at, t, x),
        x != at,
    ensures
        reaches(nodes, at, t, nodes[x.addr as int].node.parent),
    decreases t,
{
    match t {
        Reading::Empty => {},
        Reading::Node(_, l, r) => {
            let c0 = slot(nodes, at.addr as int, 0);
            let c1 = slot(nodes, at.addr as int, 1);
            assert(reads(nodes, c0, *l) && reads(nodes, c1, *r));
            if reaches(nodes, c0, *l, x) {
                if x == c0 {
                    assert(!(*l is Empty));
                    assert(!slot(nodes, at.addr as int, 0).absent());
                } else {
                    lemma_reaches_parent(nodes, c0, *l, x);
                }
            } else {
                assert(reaches(nodes, c1, *r, x));
                if x == c1 {
                    assert(!(*r is Empty));
                    assert(!slot(nodes, at.addr as int, 1).absent());
                } else {
                    lemma_reaches_parent(nodes, c1, *r, x);
                }
            }
        },
    }
}

/// In a forest two walks of which neither comes by the start of the other
/// come by no node in common.
pub proof fn lemma_walks_apart<T>(
    nodes: Seq<NodeValue<Node<2>, T>>,
    a: Addr,
    ta: Reading<T>,
    b: Addr,
    tb: Reading<T>,
    x: Addr,
)
    requires
        well_linked(nodes),
        reads(nodes, a, ta),
        reads(nodes, b, tb),
        !reaches(nodes, a, ta, b),
        !reaches(nodes, b, tb, a),
        reaches(nodes, a, ta, x),
    ensures
        !reaches(nodes, b, tb, x),
    decreases tb,
{
    match tb {
        Reading::Empty => {},
        Reading::Node(_, l, r) => {
            let c0 = slot(nodes, b.addr as int, 0);
            let c1 = slot(nodes, b.addr as int, 1);
            assert(reads(nodes, c0, *l) && reads(nodes, c1, *r));
            if reaches(nodes, c0, *l, x) {
                if reaches(nodes, a, ta, c0) {
                    assert(!(*l is Empty));
                    assert(reaches(nodes, c0, *l, c0));
                    assert(reaches(nodes, b, tb, c0));
                    lemma_reaches_parent(nodes, a, ta, c0);
                    assert(!slot(nodes, b.addr as int, 0).absent());
                }
                lemma_walks_apart(nodes, a, ta, c0, *l, x);
            }
            if reaches(nodes, c1, *r, x) {
                if reaches(nodes, a, ta, c1) {
                    assert(!(*r is Empty));
                    assert(reaches(nodes, c1, *r, c1));
                    assert(reaches(nodes, b, tb, c1));
                    lemma_reaches_parent(nodes, a, ta, c1);
                    assert(!slot(nodes, b.addr as int, 1).absent());
                }
                lemma_walks_apart(nodes, a, ta, c1, *r, x);
            }
        },
    }
}

/// In a forest the walks from the two children of a node come by no node in
/// common.
pub proof fn lemma_children_apart<T>(
    nodes: Seq<NodeValue<Node<2>, T>>,
    at: Addr,
    t: Reading<T>,
    x: Addr,
)
    requires
        well_linked(nodes),
        reads(nodes, at, t),
        !(t is Empty),
        reaches(nodes, slot(nodes, at.addr as int, 0), *t->Node_1, x),
    ensures
        !reaches(nodes, slot(nodes, at.addr as int, 1), *t->Node_2, x),
{
    let c0 = slot(nodes, at.addr as int, 0);
    let c1 = slot(nodes, at.addr as int, 1);
    let l = *t->Node_1;
    let r = *t->Node_2;
    lemma_no_way_back(nodes, at, t);
    assert(reads(nodes, c0, l) && reads(nodes, c1, r));
    if reaches(nodes, c1, r, x) {
        assert(!(l is Empty) && !(r is Empty));
        assert(!c0.absent() && !c1.absent());
        assert(c0 != c1);
        if reaches(nodes, c0, l, c1) {
            lemma_reaches_parent(nodes, c0, l, c1);
        }
        if reaches(nodes, c1, r, c0) {
            lemma_reaches_parent(nodes, c1, r, c0);
        }
        lemma_walks_apart(nodes, c0, l, c1, r, x);
    }
}

} // verus!
