//! The distributive law, used in place on an arena.

use vstd::prelude::*;
use crate::tree::{Addr, Node, NodeValue};
use crate::tree::builder::{
    branch, grown, lemma_planted_above, lemma_planted_links, lemma_planted_reads, planted, top_of,
};
use crate::tree::reading::{
    Reading, lemma_children_apart, lemma_no_way_back, lemma_reaches_within, lemma_reads_frame,
    lemma_reads_grown, reaches, reads, size, slot, unreferenced, well_linked,
};
use crate::tree::tree::with_parent;
use super::{PLogic, PropositionalTree, and_of, or_of};
use super::builder::turned;
use super::dnf::{
    dnf, left_splits, lemma_dist_cases, lemma_dnf, lemma_step, lemma_step_keeps_dnf,
    lemma_step_lighter, lemma_term_is_nnf, lemma_weight_of_parts, right_splits, step, weight,
};
use super::nnf::is_nnf;

verus! {

/// The links after a conjunction has been distributed.  The node at `at`
/// was over `k` and `s`, and `k` over `u` and `w`; now `at` is over `k` and
/// the new node `m`, `k` over `u` and `s`, and `m` over `w` and `cl`, a
/// root that nothing pointed to.  Where the links were those of a forest
/// they are so again.
proof fn lemma_spread_links(
    before: Seq<NodeValue<Node<2>, PLogic>>,
    after: Seq<NodeValue<Node<2>, PLogic>>,
    at: Addr,
    k: Addr,
    s: Addr,
    u: Addr,
    w: Addr,
    cl: Addr,
)
    requires
        well_linked(before),
        after.len() == before.len() + 1,
        after.len() <= usize::MAX,
        at.addr < before.len(),
        k.addr < before.len(),
        s.addr < before.len(),
        u.addr < before.len(),
        w.addr < before.len(),
        cl.addr < before.len(),
        at != k && at != s && at != u && at != w && at != cl,
        k != s && k != u && k != w && k != cl,
        s != u && s != w && s != cl,
        u != w && u != cl,
        w != cl,
        before[k.addr as int].node.childs@ == seq![u, w],
        before[at.addr as int].node.childs@ == seq![k, s] || before[at.addr as int].node.childs@
            == seq![s, k],
        before[cl.addr as int].node.parent.absent(),
        unreferenced(before, cl),
        after[at.addr as int].node.childs@ == seq![k, Addr { addr: before.len() as usize }],
        after[at.addr as int].node.parent == before[at.addr as int].node.parent,
        after[k.addr as int].node.childs@ == seq![u, s] || after[k.addr as int].node.childs@
            == seq![s, u],
        after[k.addr as int].node.parent == at,
        after[before.len() as int].node.childs@ == seq![w, cl] || after[before.len()
            as int].node.childs@ == seq![cl, w],
        after[before.len() as int].node.parent == at,
        after[s.addr as int].node.parent == k,
        after[u.addr as int].node.parent == k,
        after[w.addr as int].node.parent == (Addr { addr: before.len() as usize }),
        after[cl.addr as int].node.parent == (Addr { addr: before.len() as usize }),
        forall|i: int|
            0 <= i < before.len() && i != at.addr && i != k.addr ==> (#[trigger] after[i]).node.childs
                == before[i].node.childs,
        forall|i: int|
            0 <= i < before.len() && i != s.addr && i != u.addr && i != w.addr && i != cl.addr
                && i != k.addr ==> (#[trigger] after[i]).node.parent == before[i].node.parent,
    ensures
        well_linked(after),
{
    let m = Addr { addr: before.len() as usize };
    let top = before.len() as int;
    assert(slot(before, k.addr as int, 0) == u && slot(before, k.addr as int, 1) == w);
    assert(before[u.addr as int].node.parent == k);
    assert(before[w.addr as int].node.parent == k);
    assert(slot(before, at.addr as int, 0) == k || slot(before, at.addr as int, 1) == k);
    assert(slot(before, at.addr as int, 0) == s || slot(before, at.addr as int, 1) == s);
    assert(before[k.addr as int].node.parent == at);
    assert(before[s.addr as int].node.parent == at);
    assert forall|p: int, c: int| 0 <= p < after.len() && 0 <= c < 2 implies {
        &&& (!(#[trigger] slot(after, p, c)).absent() ==> slot(after, p, c).addr < after.len()
            && after[slot(after, p, c).addr as int].node.parent == (Addr { addr: p as usize }))
        &&& slot(after, p, c).addr != p
        &&& forall|d: int|
            0 <= d < 2 && c != d && !slot(after, p, c).absent() ==> slot(after, p, c) != slot(
                after,
                p,
                d,
            )
    } by {
        let q = slot(after, p, c);
        let other = slot(after, p, 1 - c);
        if p == top || p == at.addr || p == k.addr {
            assert(c == 0 || c == 1);
            assert(after[p].node.childs@[0] == slot(after, p, 0));
            assert(after[p].node.childs@[1] == slot(after, p, 1));
        } else {
            assert(after[p].node.childs == before[p].node.childs);
            assert(q == slot(before, p, c));
            assert(other == slot(before, p, 1 - c));
            if !q.absent() {
                assert(before[q.addr as int].node.parent == (Addr { addr: p as usize }));
                assert(q != cl);
                assert(q != s && q != k);
                assert(q != u && q != w);
            }
        }
        assert forall|d: int| 0 <= d < 2 && c != d && !q.absent() implies q != slot(after, p, d) by {
            assert(d == 1 - c);
        }
    }
}

/// Where a walk comes by none of the nodes that were rewritten, it finds in
/// the arena after the rewriting what it found before.
proof fn lemma_reads_kept(
    before: Seq<NodeValue<Node<2>, PLogic>>,
    after: Seq<NodeValue<Node<2>, PLogic>>,
    from: Addr,
    t: Reading<PLogic>,
    at: Addr,
    k: Addr,
)
    requires
        reads(before, from, t),
        !reaches(before, from, t, at),
        !reaches(before, from, t, k),
        before.len() <= after.len(),
        forall|i: int|
            0 <= i < before.len() && i != at.addr && i != k.addr ==> (#[trigger] after[i]).value
                == before[i].value && after[i].node.childs == before[i].node.childs,
    ensures
        reads(after, from, t),
        forall|x: Addr| reaches(after, from, t, x) == reaches(before, from, t, x),
{
    assert forall|x: Addr| #[trigger] reaches(before, from, t, x) implies x.addr < after.len()
        && after[x.addr as int].value == before[x.addr as int].value
        && after[x.addr as int].node.childs@ == before[x.addr as int].node.childs@ by {
        lemma_reaches_within(before, from, t, x);
    }
    lemma_reads_frame(before, after, from, t);
}

/// The arena `after` is `before` rewritten under `at` alone: what a walk
/// from `at` did not come by is as it was, the node at `at` has the parent
/// it had, and a walk from `at` comes by nothing old that it did not come
/// by before.
pub open spec fn kept(
    before: Seq<NodeValue<Node<2>, PLogic>>,
    after: Seq<NodeValue<Node<2>, PLogic>>,
    at: Addr,
    t: Reading<PLogic>,
    t_after: Reading<PLogic>,
) -> bool {
    &&& before.len() <= after.len()
    &&& after[at.addr as int].node.parent == before[at.addr as int].node.parent
    &&& forall|i: int|
        0 <= i < before.len() && !reaches(before, at, t, Addr { addr: i as usize })
            ==> #[trigger] after[i] == before[i]
    &&& forall|x: Addr| #[trigger]
        reaches(after, at, t_after, x) ==> reaches(before, at, t, x) || x.addr >= before.len()
}

/// The arena after the conjunction at `at` has been distributed over the
/// disjunction in its slot `side`, where `ts` is what stands in its other
/// slot: a copy of `ts` is planted; the disjunction is turned into the
/// conjunction of its first operand with the other operand of `at`; a new
/// conjunction of its second operand with the copy is built; and `at` is
/// turned into the disjunction of the two.
pub open spec fn spread_arena(
    n0: Seq<NodeValue<Node<2>, PLogic>>,
    at: Addr,
    side: int,
    ts: Reading<PLogic>,
) -> Seq<NodeValue<Node<2>, PLogic>> {
    let k = slot(n0, at.addr as int, side);
    let s = slot(n0, at.addr as int, 1 - side);
    let u = slot(n0, k.addr as int, 0);
    let w = slot(n0, k.addr as int, 1);
    let n1 = planted(n0, ts);
    let cl = top_of(n0.len(), ts);
    let n2 = if side == 0 {
        turned(n1, k, PLogic::And, u, s)
    } else {
        turned(n1, k, PLogic::And, s, u)
    };
    let n3 = if side == 0 {
        grown(n2, PLogic::And, w, cl)
    } else {
        grown(n2, PLogic::And, cl, w)
    };
    turned(n3, at, PLogic::Or, k, Addr { addr: n1.len() as usize })
}

/// The operand of `t` in slot `side`.
pub open spec fn operand(t: Reading<PLogic>, side: int) -> Reading<PLogic> {
    if side == 0 {
        *t->Node_1
    } else {
        *t->Node_2
    }
}

/// The conjunction at `at` can be distributed over its slot `side`: the
/// links are those of a forest, a formula in negation normal form stands at
/// `at`, and it is a conjunction with a disjunction in that slot.
pub open spec fn spreadable(
    n0: Seq<NodeValue<Node<2>, PLogic>>,
    at: Addr,
    t: Reading<PLogic>,
    side: int,
) -> bool {
    &&& well_linked(n0)
    &&& reads(n0, at, t)
    &&& is_nnf(t)
    &&& (side == 0 || side == 1)
    &&& (side == 0 ==> left_splits(t))
    &&& (side == 1 ==> right_splits(t))
    &&& n0.len() + size(operand(t, 1 - side)) + 1 <= usize::MAX
}

/// The nodes that take part in a distribution are different nodes of the
/// arena, each with the parent that its place asks for, and the walks from
/// the parts come by none of the two nodes that are rewritten.
proof fn lemma_spread_apart(
    n0: Seq<NodeValue<Node<2>, PLogic>>,
    at: Addr,
    t: Reading<PLogic>,
    side: int,
)
    requires
        spreadable(n0, at, t, side),
    ensures
        ({
            let k = slot(n0, at.addr as int, side);
            let s = slot(n0, at.addr as int, 1 - side);
            let u = slot(n0, k.addr as int, 0);
            let w = slot(n0, k.addr as int, 1);
            let tk = operand(t, side);
            let ts = operand(t, 1 - side);
            let tu = *tk->Node_1;
            let tw = *tk->Node_2;
            &&& at.addr < n0.len() && k.addr < n0.len() && s.addr < n0.len() && u.addr < n0.len()
                && w.addr < n0.len()
            &&& at != k && at != s && at != u && at != w
            &&& k != s && k != u && k != w
            &&& s != u && s != w && u != w
            &&& reads(n0, k, tk) && reads(n0, s, ts) && reads(n0, u, tu) && reads(n0, w, tw)
            &&& !(ts is Empty) && !(tu is Empty) && !(tw is Empty)
            &&& is_nnf(ts) && is_nnf(tu) && is_nnf(tw)
            &&& n0[k.addr as int].node.parent == at && n0[s.addr as int].node.parent == at
            &&& n0[u.addr as int].node.parent == k && n0[w.addr as int].node.parent == k
            &&& !reaches(n0, s, ts, at) && !reaches(n0, s, ts, k)
            &&& !reaches(n0, u, tu, at) && !reaches(n0, u, tu, k)
            &&& !reaches(n0, w, tw, at) && !reaches(n0, w, tw, k)
            &&& reaches(n0, at, t, k) && reaches(n0, at, t, s) && reaches(n0, at, t, u)
                && reaches(n0, at, t, w)
            &&& forall|x: Addr|
                reaches(n0, u, tu, x) || reaches(n0, w, tw, x) || reaches(n0, s, ts, x)
                    ==> #[trigger] reaches(n0, at, t, x)
        }),
{
    let k = slot(n0, at.addr as int, side);
    let s = slot(n0, at.addr as int, 1 - side);
    let u = slot(n0, k.addr as int, 0);
    let w = slot(n0, k.addr as int, 1);
    let tk = operand(t, side);
    let ts = operand(t, 1 - side);
    let tu = *tk->Node_1;
    let tw = *tk->Node_2;
    lemma_step(t);
    assert(reads(n0, slot(n0, at.addr as int, 0), *t->Node_1));
    assert(reads(n0, slot(n0, at.addr as int, 1), *t->Node_2));
    assert(reads(n0, k, tk) && reads(n0, s, ts));
    assert(is_nnf(tk) && is_nnf(ts));
    assert(!(ts is Empty) && !(tk is Empty));
    assert(reads(n0, u, tu) && reads(n0, w, tw));
    assert(is_nnf(tu) && is_nnf(tw));
    assert(!(tu is Empty) && !(tw is Empty));
    assert(n0[k.addr as int].node.parent == at);
    assert(n0[s.addr as int].node.parent == at);
    assert(n0[u.addr as int].node.parent == k);
    assert(n0[w.addr as int].node.parent == k);
    lemma_no_way_back(n0, at, t);
    lemma_no_way_back(n0, k, tk);
    assert(reaches(n0, k, tk, k));
    assert(reaches(n0, s, ts, s));
    assert(reaches(n0, u, tu, u));
    assert(reaches(n0, w, tw, w));
    assert(reaches(n0, k, tk, u));
    assert(reaches(n0, k, tk, w));
    if side == 0 {
        lemma_children_apart(n0, at, t, k);
        lemma_children_apart(n0, at, t, u);
        lemma_children_apart(n0, at, t, w);
    } else {
        if reaches(n0, s, ts, k) {
            lemma_children_apart(n0, at, t, k);
        }
        if reaches(n0, s, ts, u) {
            lemma_children_apart(n0, at, t, u);
        }
        if reaches(n0, s, ts, w) {
            lemma_children_apart(n0, at, t, w);
        }
    }
    assert(slot(n0, k.addr as int, 0) != slot(n0, k.addr as int, 1));
    assert(slot(n0, at.addr as int, 0) != slot(n0, at.addr as int, 1));
    assert forall|x: Addr|
        reaches(n0, u, tu, x) || reaches(n0, w, tw, x) || reaches(n0, s, ts, x) implies #[trigger] reaches(
        n0,
        at,
        t,
        x,
    ) by {
        if reaches(n0, u, tu, x) || reaches(n0, w, tw, x) {
            assert(reaches(n0, k, tk, x));
        }
    }
}

/// The cells of the arena after a distribution.
proof fn lemma_spread_cells(
    n0: Seq<NodeValue<Node<2>, PLogic>>,
    at: Addr,
    t: Reading<PLogic>,
    side: int,
)
    requires
        spreadable(n0, at, t, side),
    ensures
        ({
            let k = slot(n0, at.addr as int, side);
            let s = slot(n0, at.addr as int, 1 - side);
            let u = slot(n0, k.addr as int, 0);
            let w = slot(n0, k.addr as int, 1);
            let ts = operand(t, 1 - side);
            let n1 = planted(n0, ts);
            let cl = top_of(n0.len(), ts);
            let n4 = spread_arena(n0, at, side, ts);
            let m = n1.len() as int;
            &&& n1.len() == n0.len() + size(ts)
            &&& cl.addr == n1.len() - 1
            &&& cl.addr >= n0.len()
            &&& n4.len() == n1.len() + 1
            &&& n4[at.addr as int].value == PLogic::Or
            &&& n4[at.addr as int].node.parent == n0[at.addr as int].node.parent
            &&& n4[at.addr as int].node.childs@ == seq![k, Addr { addr: m as usize }]
            &&& n4[k.addr as int].value == PLogic::And
            &&& n4[k.addr as int].node.parent == at
            &&& n4[k.addr as int].node.childs@ == (if side == 0 {
                seq![u, s]
            } else {
                seq![s, u]
            })
            &&& n4[m].value == PLogic::And
            &&& n4[m].node.parent == at
            &&& n4[m].node.childs@ == (if side == 0 {
                seq![w, cl]
            } else {
                seq![cl, w]
            })
            &&& n4[s.addr as int].node.parent == k
            &&& n4[u.addr as int].node.parent == k
            &&& n4[w.addr as int].node.parent == (Addr { addr: m as usize })
            &&& n4[cl.addr as int].node.parent == (Addr { addr: m as usize })
            &&& forall|i: int|
                0 <= i < n1.len() && i != at.addr && i != k.addr ==> (#[trigger] n4[i]).value
                    == n1[i].value && n4[i].node.childs == n1[i].node.childs
            &&& forall|i: int|
                0 <= i < n1.len() && i != s.addr && i != u.addr && i != w.addr && i != cl.addr
                    && i != k.addr && i != at.addr ==> #[trigger] n4[i] == n1[i]
        }),
{
    let k = slot(n0, at.addr as int, side);
    let s = slot(n0, at.addr as int, 1 - side);
    let u = slot(n0, k.addr as int, 0);
    let w = slot(n0, k.addr as int, 1);
    let ts = operand(t, 1 - side);
    let n1 = planted(n0, ts);
    let cl = top_of(n0.len(), ts);
    let n2 = if side == 0 {
        turned(n1, k, PLogic::And, u, s)
    } else {
        turned(n1, k, PLogic::And, s, u)
    };
    let n3 = if side == 0 {
        grown(n2, PLogic::And, w, cl)
    } else {
        grown(n2, PLogic::And, cl, w)
    };
    let m = Addr { addr: n1.len() as usize };
    let n4 = turned(n3, at, PLogic::Or, k, m);
    lemma_spread_apart(n0, at, t, side);
    lemma_planted_above(n0, ts);
    assert(n2.len() == n1.len());
    assert(n3.len() == n1.len() + 1);
    assert(n4.len() == n1.len() + 1);
    assert(n1[k.addr as int] == n0[k.addr as int]);
    assert(n1[at.addr as int] == n0[at.addr as int]);
    assert(branch(PLogic::And, w, cl).node.childs@ =~= seq![w, cl]);
    assert(branch(PLogic::And, cl, w).node.childs@ =~= seq![cl, w]);
    assert(n3[n1.len() as int] == (if side == 0 {
        branch(PLogic::And, w, cl)
    } else {
        branch(PLogic::And, cl, w)
    }));
    assert(n4[at.addr as int].node.childs@ =~= seq![k, m]);
    assert(n2[k.addr as int].node.childs@ =~= (if side == 0 {
        seq![u, s]
    } else {
        seq![s, u]
    }));
    assert(n3[k.addr as int] == n2[k.addr as int]);
    assert(n4[k.addr as int] == with_parent(n3[k.addr as int], at));
    assert(n4[n1.len() as int] == with_parent(n3[n1.len() as int], at));
    assert(n2[s.addr as int] == with_parent(n1[s.addr as int], k));
    assert(n2[u.addr as int] == with_parent(n1[u.addr as int], k));
    assert(n3[w.addr as int] == with_parent(n2[w.addr as int], m));
    assert(n3[cl.addr as int] == with_parent(n2[cl.addr as int], m));
    assert forall|i: int|
        0 <= i < n1.len() && i != at.addr && i != k.addr implies (#[trigger] n4[i]).value
        == n1[i].value && n4[i].node.childs == n1[i].node.childs by {
        assert(n2[i].value == n1[i].value && n2[i].node.childs == n1[i].node.childs);
        assert(n3[i].value == n2[i].value && n3[i].node.childs == n2[i].node.childs);
        assert(n4[i].value == n3[i].value && n4[i].node.childs == n3[i].node.childs);
    }
    assert forall|i: int|
        0 <= i < n1.len() && i != s.addr && i != u.addr && i != w.addr && i != cl.addr && i
            != k.addr && i != at.addr implies #[trigger] n4[i] == n1[i] by {
        assert(n2[i] == n1[i]);
        assert(n3[i] == n2[i]);
        assert(n4[i] == n3[i]);
    }
}

/// After a distribution the links are those of a forest again.
proof fn lemma_spread_linked(
    n0: Seq<NodeValue<Node<2>, PLogic>>,
    at: Addr,
    t: Reading<PLogic>,
    side: int,
)
    requires
        spreadable(n0, at, t, side),
    ensures
        well_linked(spread_arena(n0, at, side, operand(t, 1 - side))),
{
    let k = slot(n0, at.addr as int, side);
    let s = slot(n0, at.addr as int, 1 - side);
    let u = slot(n0, k.addr as int, 0);
    let w = slot(n0, k.addr as int, 1);
    let ts = operand(t, 1 - side);
    let n1 = planted(n0, ts);
    let cl = top_of(n0.len(), ts);
    let n4 = spread_arena(n0, at, side, ts);
    lemma_spread_apart(n0, at, t, side);
    lemma_spread_cells(n0, at, t, side);
    lemma_planted_above(n0, ts);
    lemma_planted_links(n0, ts);
    assert(n1[k.addr as int] == n0[k.addr as int]);
    assert(n1[at.addr as int] == n0[at.addr as int]);
    assert(n1[k.addr as int].node.childs@ =~= seq![u, w]);
    assert(n1[at.addr as int].node.childs@ =~= seq![k, s] || n1[at.addr as int].node.childs@
        =~= seq![s, k]);
    assert(n1[cl.addr as int] == n1.last());
    assert(unreferenced(n1, cl)) by {
        assert forall|p: int, c: int| 0 <= p < n1.len() && 0 <= c < 2 implies #[trigger] slot(
            n1,
            p,
            c,
        ) != cl by {
            if slot(n1, p, c) == cl {
                assert(n1[cl.addr as int].node.parent == (Addr { addr: p as usize }));
            }
        }
    }
    lemma_spread_links(n1, n4, at, k, s, u, w, cl);
}

/// After a distribution a walk from `at` finds what one use of the
/// distributive law makes of what it found, and the rest of the arena is
/// kept.
proof fn lemma_spread_reads(
    n0: Seq<NodeValue<Node<2>, PLogic>>,
    at: Addr,
    t: Reading<PLogic>,
    side: int,
)
    requires
        spreadable(n0, at, t, side),
    ensures
        reads(spread_arena(n0, at, side, operand(t, 1 - side)), at, step(t)->0),
        kept(n0, spread_arena(n0, at, side, operand(t, 1 - side)), at, t, step(t)->0),
{
    let k = slot(n0, at.addr as int, side);
    let s = slot(n0, at.addr as int, 1 - side);
    let u = slot(n0, k.addr as int, 0);
    let w = slot(n0, k.addr as int, 1);
    let tk = operand(t, side);
    let ts = operand(t, 1 - side);
    let tu = *tk->Node_1;
    let tw = *tk->Node_2;
    let n1 = planted(n0, ts);
    let cl = top_of(n0.len(), ts);
    let n4 = spread_arena(n0, at, side, ts);
    let m = Addr { addr: n1.len() as usize };
    lemma_step(t);
    lemma_spread_apart(n0, at, t, side);
    lemma_spread_cells(n0, at, t, side);
    lemma_planted_above(n0, ts);
    lemma_planted_reads(n0, ts);
    assert forall|i: int| 0 <= i < n0.len() implies (#[trigger] n1[i]).value == n0[i].value
        && n1[i].node.childs@ == n0[i].node.childs@ by {}
    lemma_reads_grown(n0, n1, s, ts);
    lemma_reads_grown(n0, n1, u, tu);
    lemma_reads_grown(n0, n1, w, tw);
    lemma_reads_kept(n1, n4, u, tu, at, k);
    lemma_reads_kept(n1, n4, w, tw, at, k);
    lemma_reads_kept(n1, n4, s, ts, at, k);
    assert(!reaches(n1, cl, ts, at) && !reaches(n1, cl, ts, k)) by {
        if reaches(n1, cl, ts, at) {
            assert(at.addr >= n0.len());
        }
        if reaches(n1, cl, ts, k) {
            assert(k.addr >= n0.len());
        }
    }
    lemma_reads_kept(n1, n4, cl, ts, at, k);
    let new_k = if side == 0 {
        and_of(tu, ts)
    } else {
        and_of(ts, tu)
    };
    let new_m = if side == 0 {
        and_of(tw, ts)
    } else {
        and_of(ts, tw)
    };
    assert(slot(n4, k.addr as int, 0) == (if side == 0 {
        u
    } else {
        s
    }));
    assert(slot(n4, k.addr as int, 1) == (if side == 0 {
        s
    } else {
        u
    }));
    assert(slot(n4, m.addr as int, 0) == (if side == 0 {
        w
    } else {
        cl
    }));
    assert(slot(n4, m.addr as int, 1) == (if side == 0 {
        cl
    } else {
        w
    }));
    assert(reads(n4, k, new_k));
    assert(reads(n4, m, new_m));
    assert(slot(n4, at.addr as int, 0) == k);
    assert(slot(n4, at.addr as int, 1) == m);
    assert(step(t)->0 == or_of(new_k, new_m));
    assert(reads(n4, at, or_of(new_k, new_m)));
    assert forall|i: int|
        0 <= i < n0.len() && !reaches(n0, at, t, Addr { addr: i as usize }) implies #[trigger] n4[i]
        == n0[i] by {
        let x = Addr { addr: i as usize };
        assert(reaches(n0, at, t, at));
        assert(x != at && x != k && x != s && x != u && x != w && x != cl);
        assert(n1[i] == n0[i]);
    }
    assert forall|x: Addr| #[trigger] reaches(n4, at, step(t)->0, x) implies reaches(n0, at, t, x)
        || x.addr >= n0.len() by {
        assert(reaches(n0, at, t, at));
        if x == at || x == k || x == m {
        } else if reaches(n4, k, new_k, x) {
            if reaches(n4, u, tu, x) {
                assert(reaches(n0, u, tu, x));
            } else {
                assert(reaches(n4, s, ts, x));
                assert(reaches(n0, s, ts, x));
            }
        } else {
            assert(reaches(n4, m, new_m, x));
            if reaches(n4, w, tw, x) {
                assert(reaches(n0, w, tw, x));
            } else {
                assert(reaches(n4, cl, ts, x));
                assert(reaches(n1, cl, ts, x));
            }
        }
    }
}

/// Distributes the conjunction at `at` over the disjunction in its slot
/// `side`: the disjunction becomes the conjunction of its first operand
/// with the other operand of `at`, a new conjunction joins its second
/// operand with a copy of that other operand, and `at` becomes the
/// disjunction of the two.
fn spread(
    tree: &mut PropositionalTree,
    at: Addr,
    side: usize,
    Ghost(t): Ghost<Reading<PLogic>>,
)
    requires
        well_linked(old(tree).nodes()),
        reads(old(tree).nodes(), at, t),
        is_nnf(t),
        side == 0 || side == 1,
        side == 0 ==> left_splits(t),
        side == 1 ==> right_splits(t),
    ensures
        final(tree).nodes() == spread_arena(
            old(tree).nodes(),
            at,
            side as int,
            operand(t, 1 - side),
        ),
        reads(final(tree).nodes(), at, step(t)->0),
        well_linked(final(tree).nodes()),
        kept(old(tree).nodes(), final(tree).nodes(), at, t, step(t)->0),
        final(tree).symbols() == old(tree).symbols(),
        final(tree).root() == old(tree).root(),
{
    let ghost n0 = tree.nodes();
    let ghost ts = operand(t, 1 - side);
    proof {
        tree.lemma_bounded();
        lemma_step(t);
        assert(reads(n0, slot(n0, at.addr as int, 0), *t->Node_1));
        assert(reads(n0, slot(n0, at.addr as int, 1), *t->Node_2));
    }
    let cell = *tree.get(at);
    let k = cell.node.childs[side];
    let s = cell.node.childs[1 - side];
    proof {
        assert(reads(n0, k, operand(t, side as int)));
        assert(reads(n0, s, ts));
    }
    let inner = *tree.get(k);
    let u = inner.node.childs[0];
    let w = inner.node.childs[1];
    let cl = tree.copy_reading(s, Ghost(ts));
    proof {
        tree.lemma_bounded();
        lemma_planted_above(n0, ts);
    }
    proof {
        assert(reads(n0, u, *operand(t, side as int)->Node_1));
        assert(reads(n0, w, *operand(t, side as int)->Node_2));
    }
    if side == 0 {
        tree.turn(k, PLogic::And, u, s);
    } else {
        tree.turn(k, PLogic::And, s, u);
    }
    proof {
        tree.lemma_bounded();
    }
    let m = if side == 0 {
        tree.attach_pair(PLogic::And, w, cl)
    } else {
        tree.attach_pair(PLogic::And, cl, w)
    };
    proof {
        tree.lemma_bounded();
    }
    tree.turn(at, PLogic::Or, k, m);
    proof {
        tree.lemma_bounded();
        assert(n0.len() + size(ts) + 1 <= usize::MAX);
        lemma_spread_linked(n0, at, t, side as int);
        lemma_spread_reads(n0, at, t, side as int);
    }
}

/// `t` with `part` in place of its operand in slot `side`.
pub open spec fn with_operand(t: Reading<PLogic>, side: int, part: Reading<PLogic>) -> Reading<
    PLogic,
> {
    if side == 0 {
        Reading::Node(t->Node_0, Box::new(part), t->Node_2)
    } else {
        Reading::Node(t->Node_0, t->Node_1, Box::new(part))
    }
}

/// Rewriting in two steps under one node is rewriting under that node.
proof fn lemma_kept_twice(
    a: Seq<NodeValue<Node<2>, PLogic>>,
    b: Seq<NodeValue<Node<2>, PLogic>>,
    c: Seq<NodeValue<Node<2>, PLogic>>,
    at: Addr,
    t: Reading<PLogic>,
    u: Reading<PLogic>,
    v: Reading<PLogic>,
)
    requires
        at.addr < a.len(),
        kept(a, b, at, t, u),
        kept(b, c, at, u, v),
    ensures
        kept(a, c, at, t, v),
{
    assert forall|i: int|
        0 <= i < a.len() && !reaches(a, at, t, Addr { addr: i as usize }) implies #[trigger] c[i]
        == a[i] by {
        let x = Addr { addr: i as usize };
        assert(b[i] == a[i]);
        if reaches(b, at, u, x) {
            assert(reaches(a, at, t, x) || x.addr >= a.len());
        }
    }
    assert forall|x: Addr| #[trigger] reaches(c, at, v, x) implies reaches(a, at, t, x) || x.addr
        >= a.len() by {
        assert(reaches(b, at, u, x) || x.addr >= b.len());
    }
}

/// Rewriting under a child is rewriting under its parent: where the arena
/// has been rewritten under the operand in slot `side` of the node at `at`
/// alone, so that `part` stands there now, a walk from `at` finds what it
/// found with `part` in that place, and the other operand is as it was.
proof fn lemma_child_done(
    before: Seq<NodeValue<Node<2>, PLogic>>,
    after: Seq<NodeValue<Node<2>, PLogic>>,
    at: Addr,
    t: Reading<PLogic>,
    side: int,
    part: Reading<PLogic>,
)
    requires
        well_linked(before),
        reads(before, at, t),
        t is Node,
        side == 0 || side == 1,
        !(operand(t, 0) is Empty),
        !(operand(t, 1) is Empty),
        !(part is Empty),
        kept(before, after, slot(before, at.addr as int, side), operand(t, side), part),
        reads(after, slot(before, at.addr as int, side), part),
    ensures
        after[at.addr as int] == before[at.addr as int],
        reads(after, slot(before, at.addr as int, 1 - side), operand(t, 1 - side)),
        reads(after, at, with_operand(t, side, part)),
        kept(before, after, at, t, with_operand(t, side, part)),
{
    let c = slot(before, at.addr as int, side);
    let o = slot(before, at.addr as int, 1 - side);
    let tc = operand(t, side);
    let to = operand(t, 1 - side);
    assert(reads(before, slot(before, at.addr as int, 0), *t->Node_1));
    assert(reads(before, slot(before, at.addr as int, 1), *t->Node_2));
    assert(reads(before, c, tc) && reads(before, o, to));
    lemma_no_way_back(before, at, t);
    assert(!reaches(before, c, tc, at));
    assert(after[at.addr as int] == before[at.addr as int]);
    assert forall|x: Addr| #[trigger] reaches(before, o, to, x) implies x.addr < after.len()
        && after[x.addr as int].value == before[x.addr as int].value
        && after[x.addr as int].node.childs@ == before[x.addr as int].node.childs@ by {
        lemma_reaches_within(before, o, to, x);
        if reaches(before, c, tc, x) {
            if side == 0 {
                lemma_children_apart(before, at, t, x);
            } else {
                lemma_children_apart(before, at, t, x);
            }
        }
        assert(after[x.addr as int] == before[x.addr as int]);
    }
    lemma_reads_frame(before, after, o, to);
    let now = with_operand(t, side, part);
    assert(slot(after, at.addr as int, 0) == slot(before, at.addr as int, 0));
    assert(slot(after, at.addr as int, 1) == slot(before, at.addr as int, 1));
    assert(reads(after, at, now));
    assert(reaches(before, at, t, at));
    assert forall|i: int|
        0 <= i < before.len() && !reaches(before, at, t, Addr { addr: i as usize }) implies #[trigger] after[i]
        == before[i] by {
        let x = Addr { addr: i as usize };
        assert(!reaches(before, c, tc, x));
    }
    assert forall|x: Addr| #[trigger] reaches(after, at, now, x) implies reaches(before, at, t, x)
        || x.addr >= before.len() by {
        if x == at {
        } else if reaches(after, c, part, x) {
            assert(reaches(before, c, tc, x) || x.addr >= before.len());
        } else {
            assert(reaches(after, o, to, x));
            assert(reaches(before, o, to, x));
        }
    }
}

/// Uses the distributive law once at the node at `at`.  Tells whether it
/// found a conjunction over a disjunction there.
pub fn distribute(tree: &mut PropositionalTree, at: Addr, Ghost(t): Ghost<Reading<PLogic>>) -> (changed:
    bool)
    requires
        well_linked(old(tree).nodes()),
        reads(old(tree).nodes(), at, t),
        is_nnf(t),
    ensures
        changed == step(t) is Some,
        !changed ==> final(tree).nodes() == old(tree).nodes(),
        changed ==> reads(final(tree).nodes(), at, step(t)->0) && kept(
            old(tree).nodes(),
            final(tree).nodes(),
            at,
            t,
            step(t)->0,
        ),
        well_linked(final(tree).nodes()),
        final(tree).symbols() == old(tree).symbols(),
        final(tree).root() == old(tree).root(),
{
    let ghost n0 = tree.nodes();
    proof {
        lemma_step(t);
        assert(reads(n0, slot(n0, at.addr as int, 0), *t->Node_1));
        assert(reads(n0, slot(n0, at.addr as int, 1), *t->Node_2));
    }
    let cell = *tree.get(at);
    match cell.value {
        PLogic::And => {
            proof {
                assert(is_nnf(*t->Node_1) && is_nnf(*t->Node_2));
                assert(!(*t->Node_1 is Empty) && !(*t->Node_2 is Empty));
            }
            let left = tree.get(cell.node.childs[0]).value;
            let right = tree.get(cell.node.childs[1]).value;
            match (left, right) {
                (PLogic::Or, _) => {
                    spread(tree, at, 0, Ghost(t));
                    true
                },
                (_, PLogic::Or) => {
                    spread(tree, at, 1, Ghost(t));
                    true
                },
                _ => false,
            }
        },
        _ => false,
    }
}

/// Uses the distributive law under the node at `at` until no conjunction
/// is over a disjunction there: first under its operands, then at the node
/// itself, and again under a node that was rewritten.
pub fn distribute_nodes(tree: &mut PropositionalTree, at: Addr, Ghost(t): Ghost<Reading<PLogic>>)
    requires
        well_linked(old(tree).nodes()),
        reads(old(tree).nodes(), at, t),
        is_nnf(t),
    ensures
        reads(final(tree).nodes(), at, dnf(t)),
        kept(old(tree).nodes(), final(tree).nodes(), at, t, dnf(t)),
        well_linked(final(tree).nodes()),
        final(tree).symbols() == old(tree).symbols(),
        final(tree).root() == old(tree).root(),
    decreases weight(t), size(t),
{
    let ghost n0 = tree.nodes();
    let ghost l: Reading<PLogic> = *t->Node_1;
    let ghost r: Reading<PLogic> = *t->Node_2;
    proof {
        assert(reads(n0, slot(n0, at.addr as int, 0), l));
        assert(reads(n0, slot(n0, at.addr as int, 1), r));
        assert(reaches(n0, at, t, at));
    }
    let cell = *tree.get(at);
    let branching = match cell.value {
        PLogic::And => true,
        PLogic::Or => true,
        _ => false,
    };
    if !branching {
        assert(dnf(t) == t);
        return ;
    }
    proof {
        assert(is_nnf(l) && is_nnf(r));
        lemma_weight_of_parts(t);
        lemma_dnf(l);
        lemma_dnf(r);
        lemma_term_is_nnf(dnf(l));
        lemma_term_is_nnf(dnf(r));
    }
    distribute_nodes(tree, cell.node.childs[0], Ghost(l));
    let ghost n1 = tree.nodes();
    let ghost t1 = with_operand(t, 0, dnf(l));
    proof {
        lemma_child_done(n0, n1, at, t, 0, dnf(l));
    }
    distribute_nodes(tree, cell.node.childs[1], Ghost(r));
    let ghost n2 = tree.nodes();
    let ghost t2 = with_operand(t1, 1, dnf(r));
    proof {
        lemma_child_done(n1, n2, at, t1, 1, dnf(r));
        lemma_kept_twice(n0, n1, n2, at, t, t1, t2);
        assert(is_nnf(t2));
        lemma_dist_cases(dnf(l), dnf(r));
        lemma_step(t2);
    }
    if !distribute(tree, at, Ghost(t2)) {
        proof {
            assert(dnf(t) == t2);
        }
        return ;
    }
    let ghost n3 = tree.nodes();
    let ghost t3 = step(t2)->0;
    proof {
        lemma_kept_twice(n0, n2, n3, at, t, t2, t3);
        lemma_step_lighter(t2);
        lemma_step_keeps_dnf(t2);
        let a = weight(dnf(l));
        let b = weight(dnf(r));
        let c = weight(l);
        let d = weight(r);
        assert(weight(t2) == a * b);
        assert(weight(t) == c * d);
        assert(a * b <= c * d) by (nonlinear_arith)
            requires
                a <= c,
                b <= d,
        ;
        assert(dnf(t3) == dnf(t));
    }
    distribute_nodes(tree, at, Ghost(t3));
    proof {
        lemma_kept_twice(n0, n3, tree.nodes(), at, t, t3, dnf(t3));
    }
}

impl PropositionalTree {
    /// Rewrites the formula at the output in place, by the distributive
    /// law, until no conjunction is over a disjunction.  The links between
    /// the nodes hold afterwards as they did before, and what the formula
    /// did not reach is as it was.
    pub fn distribute(&mut self)
        requires
            well_linked(old(self).nodes()),
            old(self).is_formula(),
            is_nnf(old(self).formula()),
        ensures
            reads(final(self).nodes(), old(self).root(), dnf(old(self).formula())),
            kept(
                old(self).nodes(),
                final(self).nodes(),
                old(self).root(),
                old(self).formula(),
                dnf(old(self).formula()),
            ),
            well_linked(final(self).nodes()),
            final(self).symbols() == old(self).symbols(),
            final(self).root() == old(self).root(),
    {
        let ghost f = self.formula();
        proof {
            let t = choose|t: Reading<PLogic>|
                reads(self.nodes(), self.root(), t) && crate::logic::propositional::is_formula(t);
            crate::tree::reading::lemma_reads_unique(self.nodes(), self.root(), t, f);
        }
        let root = self.output_addr();
        distribute_nodes(self, root, Ghost(f));
    }
}

} // verus!
