//! What holds of the engine as a whole, stated over the model and proved
//! from the definitions of the operations.

use vstd::prelude::*;
use crate::handle::{Kind, NodeId, Outcome, Read, Status};
use crate::model::Graph;
use crate::coherence::lemma_read_map;
use crate::preserve::{lemma_commit, lemma_next_index_vacant, lemma_write};
use crate::reach::{lemma_end_batch, lemma_touched_is_downstream};

verus! {

/// Dependency accuracy. After the run of a computation is taken in, the
/// nodes it depends on are exactly the nodes the run read (those that are
/// still alive), whether or not the run was stale; a node counts the
/// computation among its dependents exactly if the run read it; and no
/// other computation's dependencies change.
pub proof fn law_dependency_accuracy(g: Graph, c: NodeId, kind: Kind, reads: Seq<Read>, value: i64)
    requires
        g.inv(),
        g.due(c, kind),
    ensures
        ({
            let h = g.commit(c.index as int, reads, value);
            &&& h.live(c)
            &&& h.dependencies(c) == g.read_set(reads)
            &&& forall|k: int|
                0 <= k < reads.len() && g.readable(#[trigger] reads[k].node) ==> h.dependencies(
                    c,
                ).contains(reads[k].node.index as int)
            &&& forall|s: NodeId|
                h.live(s) ==> (#[trigger] h.dependents(s).contains(c.index as int)
                    <==> g.read_set(reads).contains(s.index as int))
            &&& forall|i: int|
                0 <= i < g.slots.len() && i != c.index ==> (#[trigger] h.slots[i]).sources
                    == g.slots[i].sources
        }),
{
    let h = g.commit(c.index as int, reads, value);
    assert forall|k: int|
        0 <= k < reads.len() && g.readable(#[trigger] reads[k].node) implies h.dependencies(
        c,
    ).contains(reads[k].node.index as int) by {
        assert(g.read_set(reads).contains(reads[k].node.index as int));
    }
}

/// Dependency accuracy at creation. A new computation depends on exactly
/// the nodes its first run read.
pub proof fn law_dependency_accuracy_at_creation(
    g: Graph,
    kind: Kind,
    scope: u64,
    reads: Seq<Read>,
    value: i64,
)
    requires
        g.inv(),
        g.next_index() < usize::MAX,
    ensures
        ({
            let h = g.create_computation(kind, scope, reads, value);
            &&& h.live_as(g.next_id(), kind)
            &&& h.dependencies(g.next_id()) == g.read_set(reads)
            &&& forall|i: int|
                0 <= i < g.slots.len() && i != g.next_index() ==> #[trigger] h.slots[i]
                    == g.slots[i]
        }),
{
    lemma_next_index_vacant(g);
}

/// Glitch freedom, for the scheduler. A computation that is ready to run
/// has nothing unsettled upstream: every node from which a chain of edges
/// leads to it is up to date.
pub proof fn law_ready_sees_settled(g: Graph, p: Seq<int>, k: int)
    requires
        g.inv(),
        g.chain(p),
        g.ready(p.last()),
        0 <= k < p.len() - 1,
    ensures
        g.slots[p[k]].status == Status::Clean,
    decreases p.len() - k,
{
    assert(g.edge(p[k], p[k + 1]));
    if k + 1 == p.len() - 1 {
        assert(g.slots[p.last()].sources.contains(p[k]));
    } else {
        law_ready_sees_settled(g, p, k + 1);
        assert(g.slot_inv(p[k + 1]));
        assert(g.slots[p[k + 1]].sources.contains(p[k]));
    }
}

/// Glitch freedom, for the run. When a run is taken in and not refused as
/// stale, everything it read is alive and up to date and holds the value
/// the run saw, after the run is taken in as before. When it is refused,
/// its result is recorded nowhere and the computation still has to run.
pub proof fn law_commit_sees_snapshot(g: Graph, c: NodeId, kind: Kind, reads: Seq<Read>, value: i64)
    requires
        g.inv(),
        g.due(c, kind),
        kind != Kind::Cell,
    ensures
        ({
            let h = g.commit(c.index as int, reads, value);
            let taken = g.outcome(c.index as int, reads, value) != Outcome::Stale;
            &&& h.inv()
            &&& taken ==> h.slots[c.index as int].status == Status::Clean && h.all_fresh(reads)
            &&& taken && kind == Kind::Memo ==> h.slots[c.index as int].value == value
            &&& !taken ==> h.due(c, kind) && h.slots[c.index as int].value
                == g.slots[c.index as int].value && forall|i: int|
                0 <= i < g.slots.len() && i != c.index ==> #[trigger] h.slots[i] == g.slots[i]
        }),
{
    let h = g.commit(c.index as int, reads, value);
    lemma_commit(g, c.index as int, reads, value);
    if g.all_fresh(reads) {
        assert forall|k: int| 0 <= k < reads.len() implies h.fresh(#[trigger] reads[k]) by {
            let r = reads[k];
            assert(g.fresh(r));
            let j = r.node.index as int;
            assert(j != c.index);
            if g.edge(c.index as int, j) {
                assert(g.slot_inv(j));
            }
        }
    }
}

/// Glitch freedom, for the graph as a whole. Whenever a computation is
/// not marked as having to run, every node it read when it last ran is
/// alive and holds the value that run saw, unless the node is a cell that
/// was written in the batch that is still open. So in a graph where the
/// batch has ended and every computation is up to date, each computation
/// has seen the present value of everything it depends on.
pub proof fn law_settled_graph_is_consistent(g: Graph, c: int, s: int)
    requires
        g.inv(),
        g.coherent(),
        g.edge(s, c),
    ensures
        g.has(s),
        g.slots[c].seen.dom().contains(s),
        g.slots[c].status != Status::Dirty ==> g.slots[s].written || g.slots[c].seen[s]
            == g.slots[s].value,
        !g.busy() && g.quiet() ==> g.slots[c].seen[s] == g.slots[s].value,
{
    assert(g.slot_inv(c));
    assert(g.slot_coherent(c));
}

/// What a computation remembers of a run is what the run read: for each
/// slot it read, the value one of the reads of that slot gave.
pub proof fn law_run_is_remembered(g: Graph, c: NodeId, kind: Kind, reads: Seq<Read>, value: i64, s: int)
    requires
        g.inv(),
        g.due(c, kind),
        g.read_set(reads).contains(s),
    ensures
        ({
            let h = g.commit(c.index as int, reads, value);
            &&& h.slots[c.index as int].seen.dom() =~= h.dependencies(c)
            &&& exists|k: int|
                0 <= k < reads.len() && (#[trigger] reads[k]).node.index == s && h.slots[c.index as int].seen[s]
                    == reads[k].value
        }),
{
    lemma_read_map(g, reads, s);
    let k = choose|k: int| g.kept_read(reads, s, k) && g.read_map(reads)[s] == reads[k].value;
    assert(0 <= k < reads.len() && reads[k].node.index == s);
}

/// Memo short-circuit. When the run of a memo gives the value the memo
/// already holds, no other node changes: nothing that depends on the memo
/// is marked as having to run.
pub proof fn law_memo_short_circuit(g: Graph, m: NodeId, reads: Seq<Read>, value: i64)
    requires
        g.inv(),
        g.due(m, Kind::Memo),
        value == g.slots[m.index as int].value,
    ensures
        ({
            let h = g.commit(m.index as int, reads, value);
            &&& g.outcome(m.index as int, reads, value) != Outcome::Changed
            &&& forall|i: int|
                0 <= i < g.slots.len() && i != m.index ==> #[trigger] h.slots[i] == g.slots[i]
            &&& forall|d: int|
                h.dependents(m).contains(d) && d != m.index ==> (#[trigger] h.slots[d]).status
                    == g.slots[d].status
        }),
{
}

/// Memo short-circuit, the other half. A computation that was only
/// suspected, and reads only nodes that are up to date, is marked up to
/// date without a run, and nothing else changes.
pub proof fn law_suspected_settles_without_run(g: Graph, d: int)
    requires
        g.inv(),
        g.ready(d),
        g.slots[d].status == Status::Check,
    ensures
        ({
            let h = g.settle(d);
            &&& h.slots[d].status == Status::Clean
            &&& h.slots[d].value == g.slots[d].value
            &&& h.slots[d].sources == g.slots[d].sources
            &&& forall|i: int| 0 <= i < g.slots.len() && i != d ==> #[trigger] h.slots[i] == g.slots[i]
        }),
{
}

/// A change does reach the dependents: when a memo's run gives a new
/// value, every other node that read the memo has to run.
pub proof fn law_changed_memo_marks_dependents(
    g: Graph,
    m: NodeId,
    reads: Seq<Read>,
    value: i64,
    d: int,
)
    requires
        g.inv(),
        g.due(m, Kind::Memo),
        g.all_fresh(reads),
        value != g.slots[m.index as int].value,
        g.edge(m.index as int, d),
        d != m.index,
    ensures
        g.commit(m.index as int, reads, value).slots[d].status == Status::Dirty,
{
}

/// A batch reaches everything downstream and nothing else. When the batch
/// ends, a computation that read a written cell has to run, one that
/// depends on a written cell through other computations is at least
/// suspected, and one that depends on no written cell is left as it was.
pub proof fn law_batch_reaches_downstream(g: Graph, c: int)
    requires
        g.inv(),
        g.has(c),
    ensures
        g.touched(c) ==> g.end_batch().slots[c].status == Status::Dirty,
        g.downstream(c) ==> g.end_batch().slots[c].status != Status::Clean,
        !g.downstream(c) ==> g.end_batch().slots[c].status == g.slots[c].status,
        g.end_batch().quiet(),
{
    if g.touched(c) {
        lemma_touched_is_downstream(g, c);
    }
}

/// Dynamic dependencies, the first half. After a run that read cell `b`,
/// whatever else it read and whether or not the run was stale, a batch
/// that writes a new value to `b` makes the computation run again.
pub proof fn law_a_read_cell_is_followed(
    g: Graph,
    c: NodeId,
    kind: Kind,
    reads: Seq<Read>,
    value: i64,
    b: NodeId,
    x: i64,
)
    requires
        g.inv(),
        g.due(c, kind),
        kind != Kind::Cell,
        exists|k: int| 0 <= k < reads.len() && (#[trigger] reads[k]).node == b,
        g.writable(b),
        x != g.slots[b.index as int].value,
    ensures
        g.commit(c.index as int, reads, value).write(
            b.index as int,
            x,
        ).end_batch().slots[c.index as int].status == Status::Dirty,
{
    let ci = c.index as int;
    let bi = b.index as int;
    let h = g.commit(ci, reads, value);
    let kb = choose|k: int| 0 <= k < reads.len() && (#[trigger] reads[k]).node == b;
    assert(g.readable(reads[kb].node));
    assert(g.read_set(reads).contains(bi));
    assert(g.slot_inv(bi));
    assert(h.slots[bi] == g.slots[bi]);
    let hb = h.write(bi, x);
    assert(hb.slots[bi].written);
    assert(hb.edge(bi, ci));
    assert(hb.touched(ci));
}

/// The node at place `j` of `p` is the first that is `c`.
spec fn first_visit(p: Seq<int>, c: int, j: int) -> bool {
    0 <= j < p.len() && p[j] == c && forall|i: int| 0 <= i < j ==> p[i] != c
}

/// A sequence that comes to `c` comes to it a first time.
proof fn lemma_first_visit(p: Seq<int>, c: int, w: int)
    requires
        0 <= w < p.len(),
        p[w] == c,
    ensures
        exists|j: int| first_visit(p, c, j),
    decreases w,
{
    if exists|i: int| 0 <= i < w && p[i] == c {
        let i = choose|i: int| 0 <= i < w && p[i] == c;
        lemma_first_visit(p, c, i);
    } else {
        assert(first_visit(p, c, w));
    }
}

/// Dynamic dependencies, the second half. Take a run with fresh reads
/// that did not read cell `a`, and read nothing that depends on `a`, with
/// no write pending. Then the computation is up to date, and a batch that
/// writes to `a` leaves it so.
pub proof fn law_an_unread_cell_is_not_followed(
    g: Graph,
    c: NodeId,
    kind: Kind,
    reads: Seq<Read>,
    value: i64,
    a: NodeId,
    x: i64,
)
    requires
        g.inv(),
        g.quiet(),
        g.due(c, kind),
        kind != Kind::Cell,
        g.all_fresh(reads),
        g.writable(a),
        forall|k: int| 0 <= k < reads.len() ==> (#[trigger] reads[k]).node.index != a.index,
        forall|k: int|
            0 <= k < reads.len() ==> !g.write(a.index as int, x).downstream(
                (#[trigger] reads[k]).node.index as int,
            ),
    ensures
        ({
            let h = g.commit(c.index as int, reads, value);
            &&& h.slots[c.index as int].status == Status::Clean
            &&& h.write(a.index as int, x).end_batch().slots[c.index as int].status
                == Status::Clean
        }),
{
    let ci = c.index as int;
    let ai = a.index as int;
    let h = g.commit(ci, reads, value);
    let ga = g.write(ai, x);
    let ha = h.write(ai, x);
    lemma_commit(g, ci, reads, value);
    lemma_write(h, ai, x);
    lemma_write(g, ai, x);
    assert(g.slot_inv(ci));
    assert(g.slot_inv(ai));
    assert(h.slots[ai] == g.slots[ai]);
    assert(h.slots[ci].sources == g.read_set(reads));
    assert(ha.slots[ci] == h.slots[ci]);
    // Apart from `c`, every node reads in `ha` what it reads in `ga`, and
    // no cell but `a` counts as written in either.
    assert forall|i: int| 0 <= i < g.slots.len() && i != ci implies (#[trigger] ha.slots[i]).sources
        == ga.slots[i].sources && ha.slots[i].live == ga.slots[i].live && ha.slots[i].written
        == ga.slots[i].written by {}
    assert forall|i: int| 0 <= i < g.slots.len() && (#[trigger] ha.slots[i]).written implies i
        == ai by {
        assert(!g.slots[i].written);
    }
    if ha.touched(ci) {
        let s = choose|s: int| ha.edge(s, ci) && #[trigger] ha.slots[s].written;
        assert(ha.slot_inv(ci));
        assert(s == ai);
        let k = choose|k: int|
            0 <= k < reads.len() && g.readable(#[trigger] reads[k].node) && reads[k].node.index as int
                == s;
        assert(reads[k].node.index != a.index);
    }
    if ha.downstream(ci) {
        let p = choose|p: Seq<int>| #[trigger] ha.trail(p) && p.last() == ci;
        lemma_first_visit(p, ci, p.len() - 1);
        let j = choose|j: int| first_visit(p, ci, j);
        assert(ha.slot_inv(ai));
        assert(p[0] == ai);
        assert(j >= 1);
        assert(ha.edge(p[j - 1], p[j]));
        let s = p[j - 1];
        assert(g.read_set(reads).contains(s));
        let k = choose|k: int|
            0 <= k < reads.len() && g.readable(#[trigger] reads[k].node) && reads[k].node.index as int
                == s;
        if j == 1 {
            assert(reads[k].node.index != a.index);
        } else {
            let q = p.subrange(0, j);
            assert forall|i: int| 0 <= i < q.len() - 1 implies ga.edge(#[trigger] q[i], q[i + 1]) by {
                assert(ha.edge(p[i], p[i + 1]));
                assert(p[i + 1] != ci);
                assert(ha.slots[p[i + 1]].sources == ga.slots[p[i + 1]].sources);
            }
            assert(ga.slots[q[0]].written);
            assert(ga.trail(q));
            assert(q.last() == s);
            assert(ga.downstream(s));
        }
    }
}

/// Batch coalescing. Two writes to one cell in one batch leave the cell
/// with the second value; if either changed what the cell held, an effect
/// that read the cell has to run when the batch ends, and one run that
/// reads fresh values leaves it up to date: it is not handed out again
/// for this batch.
pub proof fn law_batch_coalescing(
    g: Graph,
    cell: NodeId,
    effect: NodeId,
    first: i64,
    second: i64,
    reads: Seq<Read>,
)
    requires
        g.inv(),
        g.writable(cell),
        g.live_as(effect, Kind::Effect),
        g.edge(cell.index as int, effect.index as int),
    ensures
        ({
            let w = g.write(cell.index as int, first).write(cell.index as int, second);
            let h = w.end_batch();
            let done = h.commit(effect.index as int, reads, 0);
            &&& h.inv()
            &&& h.slots[cell.index as int].value == second
            &&& h.readable(cell)
            &&& first != g.slots[cell.index as int].value || second != first ==> h.due(
                effect,
                Kind::Effect,
            )
            &&& h.due(effect, Kind::Effect) && h.all_fresh(reads) ==> !done.due(
                effect,
                Kind::Effect,
            ) && done.slots[effect.index as int].status == Status::Clean
        }),
{
    let x = cell.index as int;
    let e = effect.index as int;
    let w1 = g.write(x, first);
    lemma_write(g, x, first);
    let w = w1.write(x, second);
    lemma_write(w1, x, second);
    let h = w.end_batch();
    lemma_end_batch(w);
    assert(g.slot_inv(e));
    assert(x != e);
    if first != g.slots[x].value || second != first {
        assert(w.slots[x].written);
        assert(w.edge(x, e));
        assert(w.touched(e));
    }
}

/// A handle that names no live node, once given out, never names one
/// again: the operations that create nodes give out handles that were
/// never given out before, and no operation brings a node back.
pub proof fn law_disposed_handles_stay_dead(
    g: Graph,
    id: NodeId,
    kind: Kind,
    scope: u64,
    reads: Seq<Read>,
    value: i64,
    i: int,
)
    requires
        g.inv(),
        g.issued(id),
        !g.live(id),
        g.next_index() < usize::MAX,
        0 <= i < g.slots.len(),
    ensures
        id != g.next_id(),
        !g.create_cell(scope, value).live(id) && g.create_cell(scope, value).issued(id),
        !g.create_computation(kind, scope, reads, value).live(id) && g.create_computation(
            kind,
            scope,
            reads,
            value,
        ).issued(id),
        !g.write(i, value).live(id) && g.write(i, value).issued(id),
        !g.commit(i, reads, value).live(id) && g.commit(i, reads, value).issued(id),
        !g.end_batch().live(id) && g.end_batch().issued(id),
        !g.settle(i).live(id) && g.settle(i).issued(id),
        !g.dispose(scope).live(id) && g.dispose(scope).issued(id),
        !g.open_scope().live(id) && g.open_scope().issued(id),
{
    lemma_next_index_vacant(g);
    if exists|k: int| g.first_reusable(k) {
        let k = choose|k: int| g.first_reusable(k);
        assert(g.first_reusable(k));
    }
}

} // verus!
