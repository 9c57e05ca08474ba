//! Computations that wait for each other: when the scheduler can go no
//! further, there is a ring of dependencies, and the computations on a ring
//! can never run.

use vstd::prelude::*;
use vstd::set_lib::{lemma_int_range, lemma_len_subset, set_int_range};
use crate::handle::{Kind, NodeId, Read, Status};
use crate::model::Graph;

verus! {

/// Where one gets from `start` in `k` steps, going each time from a
/// computation to something it read that is not up to date.
spec fn walk(g: Graph, start: int, k: nat) -> int
    decreases k,
{
    if k == 0 {
        start
    } else {
        let at = walk(g, start, (k - 1) as nat);
        choose|s: int| g.slots[at].sources.contains(s) && g.slots[s].status != Status::Clean
    }
}

/// In a graph that is stuck the walk never leaves the computations that
/// are not up to date, and every step goes along an edge.
proof fn lemma_walk(g: Graph, start: int, k: nat)
    requires
        g.inv(),
        g.stuck(),
        g.has(start),
        g.slots[start].status != Status::Clean,
    ensures
        g.has(walk(g, start, k)),
        g.slots[walk(g, start, k)].status != Status::Clean,
        k > 0 ==> g.edge(walk(g, start, k), walk(g, start, (k - 1) as nat)),
    decreases k,
{
    if k > 0 {
        lemma_walk(g, start, (k - 1) as nat);
        let at = walk(g, start, (k - 1) as nat);
        assert(!g.ready(at));
        let s = choose|s: int| g.slots[at].sources.contains(s) && g.slots[s].status != Status::Clean;
        assert(g.slots[at].sources.contains(s) && g.slots[s].status != Status::Clean);
        assert(g.slot_inv(at));
    }
}

/// Among more than `n` numbers below `n` two are the same.
proof fn lemma_two_alike(s: Seq<int>, n: int)
    requires
        0 <= n < s.len(),
        forall|k: int| 0 <= k < s.len() ==> 0 <= #[trigger] s[k] < n,
    ensures
        exists|a: int, b: int| 0 <= a < b < s.len() && s[a] == s[b],
{
    if s.no_duplicates() {
        s.unique_seq_to_set();
        lemma_int_range(0, n);
        assert(s.to_set().subset_of(set_int_range(0, n))) by {
            assert forall|v: int| s.to_set().contains(v) implies set_int_range(0, n).contains(v) by {
                let k = choose|k: int| 0 <= k < s.len() && s[k] == v;
                assert(0 <= s[k] < n);
            }
        }
        lemma_len_subset(s.to_set(), set_int_range(0, n));
    } else {
        let (i, j) = choose|i: int, j: int|
            0 <= i < s.len() && 0 <= j < s.len() && i != j && s[i] == s[j];
        if i < j {
            assert(0 <= i < j < s.len() && s[i] == s[j]);
        } else {
            assert(0 <= j < i < s.len() && s[j] == s[i]);
        }
    }
}

/// No false alarm. When the computations that are not up to date wait for
/// each other, so that none can be handed out, some computation depends on
/// itself, directly or through others: there is a ring.
pub proof fn law_stuck_means_ring(g: Graph)
    requires
        g.inv(),
        g.stuck(),
    ensures
        exists|p: Seq<int>| g.ring(p),
{
    let start = choose|i: int| g.has(i) && #[trigger] g.slots[i].status != Status::Clean;
    let n = g.slots.len() as int;
    let w = Seq::new((n + 1) as nat, |k: int| walk(g, start, k as nat));
    assert forall|k: int| 0 <= k < w.len() implies 0 <= #[trigger] w[k] < n by {
        lemma_walk(g, start, k as nat);
    }
    lemma_two_alike(w, n);
    let (a, b) = choose|a: int, b: int| 0 <= a < b < w.len() && w[a] == w[b];
    let p = Seq::new((b - a + 1) as nat, |j: int| w[b - j]);
    assert forall|j: int| 0 <= j < p.len() - 1 implies g.edge(#[trigger] p[j], p[j + 1]) by {
        lemma_walk(g, start, (b - j) as nat);
        assert(p[j] == walk(g, start, (b - j) as nat));
        assert(p[j + 1] == walk(g, start, (b - j - 1) as nat));
    }
    assert forall|k: int| 0 <= k < p.len() implies g.has(#[trigger] p[k]) && g.slots[p[k]].status
        != Status::Clean by {
        lemma_walk(g, start, (b - k) as nat);
    }
    assert(p.first() == w[b]);
    assert(p.last() == w[a]);
    assert(g.ring(p));
}

/// No way out. A computation on a ring is never ready to run.
pub proof fn law_ring_never_ready(g: Graph, p: Seq<int>, k: int)
    requires
        g.ring(p),
        0 <= k < p.len(),
    ensures
        !g.ready(p[k]),
{
    let j = if k == 0 {
        p.len() - 1
    } else {
        k
    };
    assert(p[j] == p[k]);
    assert(g.edge(p[j - 1], p[j]));
    assert(g.slots[p[k]].sources.contains(p[j - 1]));
    assert(g.has(p[j - 1]) && g.slots[p[j - 1]].status != Status::Clean);
}

/// If slot `w` holds a ready computation, some slot is the first that
/// does.
proof fn lemma_first_ready(g: Graph, w: int)
    requires
        g.ready(w),
    ensures
        exists|i: int| g.first_ready(i),
    decreases w,
{
    if exists|j: int| 0 <= j < w && g.ready(j) {
        let j = choose|j: int| 0 <= j < w && g.ready(j);
        lemma_first_ready(g, j);
    } else {
        assert(g.first_ready(w));
    }
}

/// There is always a next step. Unless every computation is up to date
/// or the ones that are left wait for each other, some computation is the
/// first that is ready: the scheduler hands it out or marks it up to
/// date.
pub proof fn law_there_is_a_next_step(g: Graph)
    requires
        g.busy(),
        !g.stuck(),
    ensures
        exists|i: int| g.first_ready(i),
{
    let w = choose|w: int| g.ready(w);
    lemma_first_ready(g, w);
}

/// Where two graphs differ only in that slot `c` waits in the first and
/// not in the second, one computation fewer waits in the second.
proof fn lemma_one_fewer(g: Graph, h: Graph, c: int, n: int)
    requires
        h.slots.len() == g.slots.len(),
        0 <= c < g.slots.len(),
        0 <= n <= g.slots.len(),
        g.has(c) && g.slots[c].status != Status::Clean,
        !(h.has(c) && h.slots[c].status != Status::Clean),
        forall|i: int|
            0 <= i < g.slots.len() && i != c ==> (g.has(i) && g.slots[i].status != Status::Clean)
                == (h.has(i) && (#[trigger] h.slots[i]).status != Status::Clean),
    ensures
        g.waiting_below(n) == h.waiting_below(n) + if c < n {
            1nat
        } else {
            0nat
        },
    decreases n,
{
    if n > 0 {
        lemma_one_fewer(g, h, c, n - 1);
        if n - 1 != c {
            assert((g.has(n - 1) && g.slots[n - 1].status != Status::Clean) == (h.has(n - 1)
                && h.slots[n - 1].status != Status::Clean));
        }
    }
}

/// Among the first `n` slots some computation waits exactly if the count
/// of those that wait is not zero.
proof fn lemma_waiting_counts(g: Graph, n: int)
    requires
        0 <= n <= g.slots.len(),
    ensures
        (g.waiting_below(n) > 0) == (exists|i: int|
            0 <= i < n && g.has(i) && #[trigger] g.slots[i].status != Status::Clean),
    decreases n,
{
    if n > 0 {
        lemma_waiting_counts(g, n - 1);
        if g.waiting_below(n - 1) > 0 {
            let i = choose|i: int|
                0 <= i < n - 1 && g.has(i) && #[trigger] g.slots[i].status != Status::Clean;
            assert(0 <= i < n && g.has(i) && g.slots[i].status != Status::Clean);
        } else if g.has(n - 1) && g.slots[n - 1].status != Status::Clean {
            assert(g.slots[n - 1].status != Status::Clean);
        } else if exists|i: int|
            0 <= i < n && g.has(i) && #[trigger] g.slots[i].status != Status::Clean {
            let i = choose|i: int|
                0 <= i < n && g.has(i) && #[trigger] g.slots[i].status != Status::Clean;
            assert(0 <= i < n - 1 && g.has(i) && g.slots[i].status != Status::Clean);
        }
    }
}

/// The count of computations that are not up to date is zero exactly if
/// every computation is up to date.
pub proof fn law_nothing_waits_when_settled(g: Graph)
    ensures
        (g.waiting() == 0) == !g.busy(),
{
    lemma_waiting_counts(g, g.slots.len() as int);
    if g.busy() {
        let i = choose|i: int| g.has(i) && #[trigger] g.slots[i].status != Status::Clean;
        assert(0 <= i < g.slots.len() && g.has(i) && g.slots[i].status != Status::Clean);
    }
}

/// Every step settles one computation. Marking a suspected computation up
/// to date, and taking in a run whose reads were all fresh, each leave one
/// computation fewer that is not up to date.
pub proof fn law_every_step_settles_one(g: Graph, c: NodeId, kind: Kind, reads: Seq<Read>, value: i64)
    requires
        g.inv(),
        g.live(c),
    ensures
        g.ready(c.index as int) && g.slots[c.index as int].status == Status::Check ==> g.settle(
            c.index as int,
        ).waiting() + 1 == g.waiting(),
        g.due(c, kind) && g.all_fresh(reads) ==> g.commit(c.index as int, reads, value).waiting()
            + 1 == g.waiting(),
{
    let ci = c.index as int;
    if g.ready(ci) && g.slots[ci].status == Status::Check {
        lemma_one_fewer(g, g.settle(ci), ci, g.slots.len() as int);
    }
    if g.due(c, kind) && g.all_fresh(reads) {
        let h = g.commit(ci, reads, value);
        assert forall|i: int| 0 <= i < g.slots.len() && i != ci implies (g.has(i)
            && g.slots[i].status != Status::Clean) == (h.has(i) && (#[trigger] h.slots[i]).status
            != Status::Clean) by {
            assert(g.slot_inv(i));
            if g.edge(ci, i) {
                assert(g.slots[i].sources.contains(ci));
            }
        }
        lemma_one_fewer(g, h, ci, g.slots.len() as int);
    }
}

} // verus!
