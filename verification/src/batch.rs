//! The end of a batch of writes, and the order in which computations run
//! after it.

use vstd::prelude::*;
use crate::handle::{EngineError, NodeId, Status, Step};
use crate::model::{Graph, Slot};
use crate::coherence::{coherent_end_batch, coherent_settle};
use crate::preserve::lemma_settle;
use crate::reach::{
    lemma_downstream_step, lemma_end_batch, lemma_touched_is_downstream, lemma_trail_is_marked,
};
use crate::runtime::{Node, Runtime};

verus! {

/// How many of the first `n` nodes are up to date.
spec fn clean_below(nodes: Seq<Node>, n: int) -> nat
    decreases n,
{
    if n <= 0 {
        0
    } else {
        clean_below(nodes, n - 1) + if nodes[n - 1].status == Status::Clean {
            1nat
        } else {
            0nat
        }
    }
}

/// Marking one up-to-date node lowers the count by one.
proof fn lemma_mark_lowers(a: Seq<Node>, b: Seq<Node>, i: int, n: int)
    requires
        a.len() == b.len(),
        0 <= i < a.len(),
        0 <= n <= a.len(),
        forall|j: int| 0 <= j < a.len() && j != i ==> a[j].status == b[j].status,
        a[i].status == Status::Clean,
        b[i].status != Status::Clean,
    ensures
        clean_below(a, n) == clean_below(b, n) + if i < n {
            1nat
        } else {
            0nat
        },
    decreases n,
{
    if n > 0 {
        lemma_mark_lowers(a, b, i, n - 1);
    }
}

impl Runtime {
    /// `self` differs from `base` in statuses only.
    spec fn recolors(&self, base: &Runtime) -> bool {
        &&& self.scopes == base.scopes
        &&& self.nodes@.len() == base.nodes@.len()
        &&& forall|j: int|
            0 <= j < self.nodes@.len() ==> #[trigger] self.nodes@[j] == (Node {
                status: self.nodes@[j].status,
                ..base.nodes@[j]
            })
    }

    /// Every edge leads to a slot of the arena.
    spec fn edges_in_range(&self) -> bool {
        forall|i: int, k: int|
            0 <= i < self.nodes@.len() && 0 <= k < self.nodes@[i].sources@.len()
                ==> #[trigger] self.nodes@[i].sources@[k] < self.nodes@.len()
    }

    proof fn lemma_edges_in_range(&self)
        requires
            self.wf(),
        ensures
            self.edges_in_range(),
    {
        assert forall|i: int, k: int|
            0 <= i < self.nodes@.len() && 0 <= k < self.nodes@[i].sources@.len() implies #[trigger] self.nodes@[i].sources@[k]
            < self.nodes@.len() by {
            assert(self@.slot_inv(i));
            assert(self@.slots[i].sources.contains(self.nodes@[i].sources@[k] as int));
        }
    }

    /// Whether node `i` read a cell that was written in this batch.
    fn reads_written(&self, i: usize) -> (found: bool)
        requires
            i < self.nodes@.len(),
            self.edges_in_range(),
        ensures
            found == exists|s: int|
                self@.slots[i as int].sources.contains(s) && #[trigger] self@.slots[s].written,
    {
        let n = self.nodes[i].sources.len();
        let mut k: usize = 0;
        while k < n
            invariant
                i < self.nodes@.len(),
                self.edges_in_range(),
                n == self.nodes@[i as int].sources@.len(),
                k <= n,
                forall|m: int| 0 <= m < k ==> !self.nodes@[#[trigger] self.nodes@[i as int].sources@[m] as int].written,
            decreases n - k,
        {
            let s = self.nodes[i].sources[k];
            if self.nodes[s].written {
                proof {
                    assert(self@.slots[i as int].sources.contains(s as int));
                    assert(self@.slots[s as int].written);
                }
                return true;
            }
            k += 1;
        }
        proof {
            assert forall|s: int| self@.slots[i as int].sources.contains(s) implies !#[trigger] self@.slots[s].written by {
                let m = choose|m: int|
                    0 <= m < self.nodes@[i as int].sources@.len() && #[trigger] self.nodes@[i as int].sources@[m] as int
                        == s;
                assert(!self.nodes@[self.nodes@[i as int].sources@[m] as int].written);
            }
        }
        false
    }

    /// Whether node `i` read a node that is not up to date.
    fn reads_unsettled(&self, i: usize) -> (found: bool)
        requires
            i < self.nodes@.len(),
            self.edges_in_range(),
        ensures
            found == exists|s: int|
                self@.slots[i as int].sources.contains(s) && #[trigger] self@.slots[s].status
                    != Status::Clean,
    {
        let n = self.nodes[i].sources.len();
        let mut k: usize = 0;
        while k < n
            invariant
                i < self.nodes@.len(),
                self.edges_in_range(),
                n == self.nodes@[i as int].sources@.len(),
                k <= n,
                forall|m: int|
                    0 <= m < k ==> self.nodes@[#[trigger] self.nodes@[i as int].sources@[m] as int].status
                        == Status::Clean,
            decreases n - k,
        {
            let s = self.nodes[i].sources[k];
            let clean = match self.nodes[s].status {
                Status::Clean => true,
                _ => false,
            };
            if !clean {
                proof {
                    assert(self@.slots[i as int].sources.contains(s as int));
                    assert(self@.slots[s as int].status != Status::Clean);
                }
                return true;
            }
            k += 1;
        }
        proof {
            assert forall|s: int| self@.slots[i as int].sources.contains(s) implies #[trigger] self@.slots[s].status
                == Status::Clean by {
                let m = choose|m: int|
                    0 <= m < self.nodes@[i as int].sources@.len() && #[trigger] self.nodes@[i as int].sources@[m] as int
                        == s;
                assert(self.nodes@[self.nodes@[i as int].sources@[m] as int].status == Status::Clean);
            }
        }
        false
    }

    /// `self` holds graph `g` part of the way through the end of a batch:
    /// only statuses differ, the computations that read a written cell are
    /// marked as having to run, and whatever else was marked is downstream
    /// of a written cell.
    spec fn paints(&self, g: Graph) -> bool {
        &&& self@.scopes == g.scopes
        &&& self@.slots.len() == g.slots.len()
        &&& forall|j: int|
            0 <= j < g.slots.len() ==> #[trigger] self@.slots[j] == (Slot {
                status: self@.slots[j].status,
                ..g.slots[j]
            })
        &&& forall|j: int|
            0 <= j < g.slots.len() ==> ((#[trigger] self@.slots[j]).status == Status::Dirty) == (
            g.marked(j) == Status::Dirty)
        &&& forall|j: int|
            0 <= j < g.slots.len() && (#[trigger] self@.slots[j]).status != Status::Clean
                && g.slots[j].status == Status::Clean ==> g.downstream(j)
        &&& forall|j: int|
            0 <= j < g.slots.len() && (#[trigger] self@.slots[j]).status == Status::Clean
                ==> g.slots[j].status == Status::Clean
    }

    /// Every up-to-date node reads up-to-date nodes only.
    spec fn closed(&self) -> bool {
        forall|i: int, s: int|
            self@.has(i) && self@.slots[i].status == Status::Clean
                && #[trigger] self@.slots[i].sources.contains(s) ==> self@.slots[s].status
                == Status::Clean
    }

    /// Marks every computation that read a written cell as having to run.
    fn mark_touched(&mut self)
        requires
            old(self).wf(),
        ensures
            final(self).paints(old(self)@),
            final(self).edges_in_range(),
    {
        let ghost g = self@;
        proof {
            self.lemma_edges_in_range();
        }
        let n = self.nodes.len();
        let mut i: usize = 0;
        while i < n
            invariant
                i <= n,
                n == self.nodes@.len(),
                g == old(self)@,
                g.inv(),
                self.recolors(old(self)),
                self.edges_in_range(),
                forall|j: int| i <= j < n ==> self.nodes@[j] == old(self).nodes@[j],
                forall|j: int|
                    0 <= j < i ==> #[trigger] self.nodes@[j].status == (if g.slots[j].status
                        == Status::Dirty || g.touched(j) {
                        Status::Dirty
                    } else {
                        g.slots[j].status
                    }),
            decreases n - i,
        {
            if self.nodes[i].live {
                let hit = self.reads_written(i);
                proof {
                    assert forall|s: int|
                        self@.slots[i as int].sources.contains(s) implies self@.slots[s].written
                        == g.slots[s].written by {
                        assert(self.nodes@[s] == (Node { status: self.nodes@[s].status, ..old(self).nodes@[s] }));
                    }
                    assert(self@.slots[i as int].sources == g.slots[i as int].sources);
                    if hit {
                        let s = choose|s: int|
                            self@.slots[i as int].sources.contains(s) && #[trigger] self@.slots[s].written;
                        assert(g.edge(s, i as int) && g.slots[s].written);
                    }
                    if g.touched(i as int) {
                        let s = choose|s: int| g.edge(s, i as int) && #[trigger] g.slots[s].written;
                        assert(self@.slots[i as int].sources.contains(s) && self@.slots[s].written);
                    }
                    assert(hit == g.touched(i as int));
                }
                if hit {
                    self.nodes[i].status = Status::Dirty;
                }
            } else {
                proof {
                    assert(!g.touched(i as int));
                }
            }
            i += 1;
        }
        proof {
            assert forall|j: int|
                0 <= j < g.slots.len() && (#[trigger] self@.slots[j]).status != Status::Clean
                    && g.slots[j].status == Status::Clean implies g.downstream(j) by {
                assert(self.nodes@[j].status == self@.slots[j].status);
                lemma_touched_is_downstream(g, j);
            }
            assert forall|j: int| 0 <= j < g.slots.len() implies #[trigger] self@.slots[j] == (
            Slot { status: self@.slots[j].status, ..g.slots[j] }) by {
                assert(self.nodes@[j] == (Node { status: self.nodes@[j].status, ..old(self).nodes@[j] }));
            }
            assert forall|j: int| 0 <= j < g.slots.len() implies ((#[trigger] self@.slots[j]).status
                == Status::Dirty) == (g.marked(j) == Status::Dirty) by {
                assert(self.nodes@[j].status == self@.slots[j].status);
            }
            assert forall|j: int|
                0 <= j < g.slots.len() && (#[trigger] self@.slots[j]).status == Status::Clean implies g.slots[j].status
                == Status::Clean by {
                assert(self.nodes@[j].status == self@.slots[j].status);
            }
        }
    }

    /// Goes through the arena once and marks as suspected every up-to-date
    /// node that read a node that is not. Says whether it marked any.
    fn sweep(&mut self, Ghost(g): Ghost<Graph>) -> (changed: bool)
        requires
            g.inv(),
            old(self).paints(g),
            old(self).edges_in_range(),
        ensures
            final(self).paints(g),
            final(self).edges_in_range(),
            final(self).nodes@.len() == old(self).nodes@.len(),
            !changed ==> final(self).closed(),
            !changed ==> clean_below(final(self).nodes@, final(self).nodes@.len() as int)
                == clean_below(old(self).nodes@, old(self).nodes@.len() as int),
            changed ==> clean_below(final(self).nodes@, final(self).nodes@.len() as int)
                < clean_below(old(self).nodes@, old(self).nodes@.len() as int),
    {
        let n = self.nodes.len();
        let mut changed = false;
        let mut i: usize = 0;
        while i < n
            invariant
                i <= n,
                n == self.nodes@.len(),
                n == old(self).nodes@.len(),
                g.inv(),
                self.paints(g),
                self.edges_in_range(),
                !changed ==> self.nodes@ == old(self).nodes@,
                !changed ==> forall|j: int, s: int|
                    0 <= j < i && self@.has(j) && self@.slots[j].status == Status::Clean
                        && #[trigger] self@.slots[j].sources.contains(s) ==> self@.slots[s].status
                        == Status::Clean,
                changed ==> clean_below(self.nodes@, n as int) < clean_below(
                    old(self).nodes@,
                    n as int,
                ),
            decreases n - i,
        {
            let clean = match self.nodes[i].status {
                Status::Clean => true,
                _ => false,
            };
            if self.nodes[i].live && clean {
                let unsettled = self.reads_unsettled(i);
                if unsettled {
                    let ghost before = *self;
                    proof {
                        let s = choose|s: int|
                            self@.slots[i as int].sources.contains(s) && #[trigger] self@.slots[s].status
                                != Status::Clean;
                        assert(g.slot_inv(i as int));
                        assert(self@.slots[i as int] == (Slot {
                            status: self@.slots[i as int].status,
                            ..g.slots[i as int]
                        }));
                        assert(g.slots[i as int].sources.contains(s));
                        assert(g.has(s));
                        assert(self@.slots[s].status != Status::Clean);
                        assert(g.slots[i as int].status == Status::Clean);
                        assert(g.slots[s].status == Status::Clean);
                        assert(g.downstream(s));
                        assert(g.edge(s, i as int));
                        lemma_downstream_step(g, s, i as int);
                    }
                    self.nodes[i].status = Status::Check;
                    proof {
                        lemma_mark_lowers(before.nodes@, self.nodes@, i as int, n as int);
                        assert forall|j: int| 0 <= j < g.slots.len() implies #[trigger] self@.slots[j] == (
                        Slot { status: self@.slots[j].status, ..g.slots[j] }) by {
                            assert(before@.slots[j] == (Slot {
                                status: before@.slots[j].status,
                                ..g.slots[j]
                            }));
                        }
                        assert forall|j: int| 0 <= j < g.slots.len() implies ((
                        #[trigger] self@.slots[j]).status == Status::Dirty) == (g.marked(j)
                            == Status::Dirty) by {
                            assert((before@.slots[j].status == Status::Dirty) == (g.marked(j)
                                == Status::Dirty));
                        }
                        assert forall|j: int|
                            0 <= j < g.slots.len() && (#[trigger] self@.slots[j]).status
                                != Status::Clean && g.slots[j].status
                                == Status::Clean implies g.downstream(j) by {
                            if j != i {
                                assert(before@.slots[j].status != Status::Clean);
                            }
                        }
                        assert forall|j: int|
                            0 <= j < g.slots.len() && (#[trigger] self@.slots[j]).status
                                == Status::Clean implies g.slots[j].status == Status::Clean by {
                            assert(before@.slots[j].status == Status::Clean);
                        }
                        assert(self.edges_in_range()) by {
                            assert forall|a: int, k: int|
                                0 <= a < self.nodes@.len() && 0 <= k < self.nodes@[a].sources@.len() implies #[trigger] self.nodes@[a].sources@[k]
                                < self.nodes@.len() by {
                                assert(before.nodes@[a].sources@[k] < before.nodes@.len());
                            }
                        }
                    }
                    changed = true;
                }
            }
            i += 1;
        }
        changed
    }

    /// Ends the batch of writes made since the last one ended.
    ///
    /// Every computation that read a cell written in the batch is marked as
    /// having to run; every computation further downstream is marked as
    /// suspected. No computation runs here: `advance` hands them out
    /// afterwards, in dependency order.
    pub fn end_batch(&mut self)
        requires
            old(self).wf(),
        ensures
            final(self).wf(),
            final(self)@ == old(self)@.end_batch(),
    {
        let ghost g = self@;
        self.mark_touched();
        loop
            invariant
                g == old(self)@,
                g.inv(),
                self.paints(g),
                self.edges_in_range(),
            ensures
                self.paints(g),
                self.closed(),
            decreases clean_below(self.nodes@, self.nodes@.len() as int),
        {
            let changed = self.sweep(Ghost(g));
            if !changed {
                break ;
            }
        }
        let ghost painted = *self;
        let n = self.nodes.len();
        let mut i: usize = 0;
        while i < n
            invariant
                i <= n,
                n == self.nodes@.len(),
                n == painted.nodes@.len(),
                self.scopes == painted.scopes,
                forall|j: int| i <= j < n ==> self.nodes@[j] == painted.nodes@[j],
                forall|j: int|
                    0 <= j < i ==> #[trigger] self.nodes@[j] == (Node {
                        written: false,
                        ..painted.nodes@[j]
                    }),
            decreases n - i,
        {
            self.nodes[i].written = false;
            i += 1;
        }
        proof {
            let goal = g.end_batch();
            let h = painted@;
            assert forall|j: int| 0 <= j < goal.slots.len() implies self@.slots[j] == goal.slots[j] by {
                assert(self.nodes@[j] == (Node { written: false, ..painted.nodes@[j] }));
                assert(h.slots[j] == (Slot { status: h.slots[j].status, ..g.slots[j] }));
                assert((h.slots[j].status == Status::Dirty) == (g.marked(j) == Status::Dirty));
                if g.marked(j) == Status::Check {
                    if g.slots[j].status != Status::Check {
                        let p = choose|p: Seq<int>| #[trigger] g.trail(p) && p.last() == j;
                        assert forall|a: int| g.touched(a) implies (#[trigger] h.slots[a]).status
                            != Status::Clean by {
                            assert(g.has(a));
                            assert((h.slots[a].status == Status::Dirty) == (g.marked(a)
                                == Status::Dirty));
                        }
                        assert forall|a: int|
                            0 <= a < g.slots.len() implies (#[trigger] h.slots[a]).live
                            == g.slots[a].live && h.slots[a].sources == g.slots[a].sources by {
                            assert(h.slots[a] == (Slot {
                                status: h.slots[a].status,
                                ..g.slots[a]
                            }));
                        }
                        lemma_trail_is_marked(g, h, p, p.len() - 1);
                    }
                }
            }
            assert(self@.slots =~= goal.slots);
            lemma_end_batch(g);
            coherent_end_batch(g);
        }
    }

    /// Whether some computation is not up to date.
    pub fn is_busy(&self) -> (busy: bool)
        ensures
            busy == self@.busy(),
    {
        let n = self.nodes.len();
        let mut i: usize = 0;
        while i < n
            invariant
                i <= n,
                n == self.nodes@.len(),
                forall|j: int| 0 <= j < i ==> !(self@.has(j) && #[trigger] self@.slots[j].status != Status::Clean),
            decreases n - i,
        {
            let clean = match self.nodes[i].status {
                Status::Clean => true,
                _ => false,
            };
            if self.nodes[i].live && !clean {
                proof {
                    assert(self@.has(i as int) && self@.slots[i as int].status != Status::Clean);
                }
                return true;
            }
            i += 1;
        }
        false
    }

    /// Finds what has to be done next.
    ///
    /// With every computation up to date there is nothing to do. Otherwise
    /// the first computation that is not up to date, and reads only nodes
    /// that are, is taken: if it has to run it is handed out, and the graph
    /// stays as it is until its run is taken in; if it was only suspected it
    /// is marked up to date without running. If no computation can be taken
    /// the ones that are left wait for each other.
    pub fn advance(&mut self) -> (result: Result<Step, EngineError>)
        requires
            old(self).wf(),
        ensures
            final(self).wf(),
            !old(self)@.busy() ==> result == Ok::<Step, EngineError>(Step::Idle) && final(self)@
                == old(self)@,
            old(self)@.stuck() ==> result == Err::<Step, EngineError>(
                EngineError::CyclicDependency,
            ) && final(self)@ == old(self)@,
            forall|i: int| #[trigger]
                old(self)@.first_ready(i) ==> {
                    let id = NodeId {
                        index: i as usize,
                        generation: old(self)@.slots[i].generation,
                    };
                    if old(self)@.slots[i].status == Status::Dirty {
                        result == Ok::<Step, EngineError>(Step::Run(id)) && final(self)@ == old(
                            self,
                        )@
                    } else {
                        result == Ok::<Step, EngineError>(Step::Settled(id)) && final(self)@ == old(
                            self,
                        )@.settle(i)
                    }
                },
            match result {
                Ok(Step::Idle) => !old(self)@.busy(),
                Ok(Step::Run(id)) => old(self)@.live(id) && old(self)@.first_ready(id.index as int)
                    && old(self)@.slots[id.index as int].status == Status::Dirty,
                Ok(Step::Settled(id)) => old(self)@.live(id) && old(self)@.first_ready(
                    id.index as int,
                ) && old(self)@.slots[id.index as int].status == Status::Check,
                Err(_) => old(self)@.stuck(),
            },
    {
        proof {
            self.lemma_edges_in_range();
        }
        let n = self.nodes.len();
        let mut busy = false;
        let mut i: usize = 0;
        while i < n
            invariant
                i <= n,
                n == self.nodes@.len(),
                self.edges_in_range(),
                self.wf(),
                *self == *old(self),
                forall|j: int| 0 <= j < i ==> !self@.ready(j),
                busy == exists|j: int|
                    0 <= j < i && self@.has(j) && #[trigger] self@.slots[j].status != Status::Clean,
            decreases n - i,
        {
            let clean = match self.nodes[i].status {
                Status::Clean => true,
                _ => false,
            };
            proof {
                if self.nodes@[i as int].live && !clean {
                    assert(self@.has(i as int) && self@.slots[i as int].status != Status::Clean);
                } else if busy {
                    let j = choose|j: int|
                        0 <= j < i && self@.has(j) && #[trigger] self@.slots[j].status != Status::Clean;
                    assert(0 <= j < i + 1 && self@.has(j) && self@.slots[j].status != Status::Clean);
                }
            }
            if self.nodes[i].live && !clean {
                busy = true;
                let blocked = self.reads_unsettled(i);
                if !blocked {
                    let id = NodeId { index: i, generation: self.nodes[i].generation };
                    proof {
                        assert(self@.first_ready(i as int));
                        assert forall|k: int| #[trigger] self@.first_ready(k) implies k == i by {
                            if k < i {
                                assert(!self@.ready(k));
                            }
                            if i < k {
                                assert(!self@.ready(i as int));
                            }
                        }
                        assert(self@.busy());
                        assert(!self@.stuck());
                    }
                    match self.nodes[i].status {
                        Status::Dirty => {
                            return Ok(Step::Run(id));
                        },
                        _ => {
                            self.nodes[i].status = Status::Clean;
                            proof {
                                assert(self@.slots =~= old(self)@.settle(i as int).slots);
                                lemma_settle(old(self)@, i as int);
                                coherent_settle(old(self)@, i as int);
                            }
                            return Ok(Step::Settled(id));
                        },
                    }
                }
            }
            i += 1;
        }
        proof {
            assert forall|j: int| !self@.ready(j) by {
                if 0 <= j < n {
                    assert(!self@.ready(j));
                }
            }
            assert(busy == self@.busy());
        }
        if busy {
            Err(EngineError::CyclicDependency)
        } else {
            Ok(Step::Idle)
        }
    }
}

} // verus!
