//! What a batch of writes reaches: facts about the computations downstream
//! of the cells that were written.

use vstd::prelude::*;
use crate::handle::{Kind, Status};
use crate::model::Graph;

verus! {

/// A computation that read a written cell is downstream of it.
pub proof fn lemma_touched_is_downstream(g: Graph, c: int)
    requires
        g.inv(),
        g.touched(c),
    ensures
        g.downstream(c),
{
    let s = choose|s: int| g.edge(s, c) && #[trigger] g.slots[s].written;
    assert(g.slot_inv(c));
    assert(g.slots[c].sources.contains(s));
    let p = seq![s, c];
    assert(g.trail(p));
    assert(p.last() == c);
}

/// A computation that read one that is downstream is downstream too.
pub proof fn lemma_downstream_step(g: Graph, s: int, c: int)
    requires
        g.downstream(s),
        g.edge(s, c),
    ensures
        g.downstream(c),
{
    let p = choose|p: Seq<int>| #[trigger] g.trail(p) && p.last() == s;
    let q = p.push(c);
    assert forall|k: int| 0 <= k < q.len() - 1 implies g.edge(#[trigger] q[k], q[k + 1]) by {
        if k < p.len() - 1 {
            assert(g.edge(p[k], p[k + 1]));
        }
    }
    assert(g.trail(q));
    assert(q.last() == c);
}

/// Only live computations are downstream of anything.
pub proof fn lemma_downstream_is_computation(g: Graph, c: int)
    requires
        g.inv(),
        g.downstream(c),
    ensures
        g.has(c),
        g.slots[c].kind != Kind::Cell,
{
    let p = choose|p: Seq<int>| #[trigger] g.trail(p) && p.last() == c;
    let k = p.len() - 2;
    assert(g.edge(p[k], p[k + 1]));
    assert(g.slot_inv(c));
}

/// Ending the batch keeps the invariant.
pub proof fn lemma_end_batch(g: Graph)
    requires
        g.inv(),
    ensures
        g.end_batch().inv(),
{
    let h = g.end_batch();
    assert forall|i: int| 0 <= i < h.slots.len() implies #[trigger] h.slot_inv(i) by {
        assert(g.slot_inv(i));
        if g.touched(i) {
            lemma_touched_is_downstream(g, i);
        }
        if g.downstream(i) {
            lemma_downstream_is_computation(g, i);
        }
        assert forall|j: int| #[trigger] h.slots[i].sources.contains(j) implies h.has(j)
            && h.slots[j].kind != Kind::Effect && (h.slots[i].status == Status::Clean
            ==> h.slots[j].status == Status::Clean) by {
            assert(g.slots[i].sources.contains(j));
            if h.slots[i].status == Status::Clean && h.slots[j].status != Status::Clean {
                assert(g.edge(j, i));
                if g.touched(j) {
                    lemma_touched_is_downstream(g, j);
                }
                if g.downstream(j) {
                    lemma_downstream_step(g, j, i);
                }
            }
        }
    }
}

/// In a graph `h` that differs from `g` in statuses only, where every
/// computation that read a written cell is marked and every unmarked
/// computation reads unmarked nodes only, everything along a trail is
/// marked.
pub proof fn lemma_trail_is_marked(g: Graph, h: Graph, p: Seq<int>, k: int)
    requires
        g.inv(),
        h.slots.len() == g.slots.len(),
        forall|i: int|
            0 <= i < g.slots.len() ==> (#[trigger] h.slots[i]).live == g.slots[i].live
                && h.slots[i].sources == g.slots[i].sources,
        forall|i: int| g.touched(i) ==> (#[trigger] h.slots[i]).status != Status::Clean,
        forall|i: int, s: int|
            h.has(i) && h.slots[i].status == Status::Clean && #[trigger] h.slots[i].sources.contains(s)
                ==> h.slots[s].status == Status::Clean,
        g.trail(p),
        1 <= k < p.len(),
    ensures
        h.slots[p[k]].status != Status::Clean,
    decreases k,
{
    assert(g.edge(p[k - 1], p[k]));
    if k == 1 {
        assert(g.touched(p[1]));
    } else {
        lemma_trail_is_marked(g, h, p, k - 1);
        assert(h.has(p[k]));
        assert(h.slots[p[k]].sources.contains(p[k - 1]));
    }
}

} // verus!
