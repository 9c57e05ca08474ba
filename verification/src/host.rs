//! Running a whole batch: the loop that ends the batch, asks the scheduler
//! what is next, runs it, and takes the run in.

use vstd::prelude::*;
use crate::handle::{EngineError, Kind, NodeId, Read, ReadHandle, Status, Step};
use crate::model::Graph;
use crate::laws::law_settled_graph_is_consistent;
use crate::reach::lemma_end_batch;
use crate::runtime::{ReadLog, Runtime};

verus! {

/// The bodies of the computations of a graph. The graph does not hold
/// them: whoever builds the graph does, and runs them when asked.
pub trait Bodies {
    /// Runs the body of computation `node` once. The body reads through
    /// `rt.read_tracked` with `log`; what it returns is the value of a memo
    /// and is not looked at for an effect.
    fn run(&mut self, rt: &Runtime, node: NodeId, log: &mut ReadLog) -> i64;
}

/// Graph `h` has the nodes of `g`, each of the same kind and in the same
/// scope, and its cells are as they are in `g`.
pub open spec fn same_cells(g: Graph, h: Graph) -> bool {
    &&& h.slots.len() == g.slots.len()
    &&& h.scopes == g.scopes
    &&& forall|i: int|
        0 <= i < g.slots.len() ==> (#[trigger] h.slots[i]).live == g.slots[i].live
            && h.slots[i].generation == g.slots[i].generation && h.slots[i].kind
            == g.slots[i].kind && h.slots[i].scope == g.slots[i].scope
    &&& forall|i: int|
        0 <= i < g.slots.len() && g.slots[i].kind == Kind::Cell ==> #[trigger] h.slots[i]
            == g.slots[i]
}

/// Every node that is up to date in `g` is in `h` as it is in `g`.
pub open spec fn keeps_settled(g: Graph, h: Graph) -> bool {
    forall|i: int|
        0 <= i < g.slots.len() && g.slots[i].status == Status::Clean ==> #[trigger] h.slots[i]
            == g.slots[i]
}

/// Taking in a run leaves every node that is up to date as it is.
proof fn lemma_commit_keeps_settled(g: Graph, c: NodeId, kind: Kind, reads: Seq<Read>, value: i64)
    requires
        g.inv(),
        g.due(c, kind),
    ensures
        keeps_settled(g, g.commit(c.index as int, reads, value)),
{
    let h = g.commit(c.index as int, reads, value);
    assert forall|i: int|
        0 <= i < g.slots.len() && g.slots[i].status == Status::Clean implies #[trigger] h.slots[i]
        == g.slots[i] by {
        assert(g.slot_inv(i));
        if g.edge(c.index as int, i) {
            assert(g.slots[i].sources.contains(c.index as int));
        }
    }
}

/// Taking in a run leaves the cells as they are.
proof fn lemma_commit_same_cells(g: Graph, c: NodeId, kind: Kind, reads: Seq<Read>, value: i64)
    requires
        g.inv(),
        g.due(c, kind),
        kind != Kind::Cell,
    ensures
        same_cells(g, g.commit(c.index as int, reads, value)),
{
    let h = g.commit(c.index as int, reads, value);
    assert forall|i: int|
        0 <= i < g.slots.len() && g.slots[i].kind == Kind::Cell implies #[trigger] h.slots[i]
        == g.slots[i] by {
        assert(g.slot_inv(i));
    }
}

/// Marking a suspected computation up to date leaves the cells as they
/// are.
proof fn lemma_settle_same_cells(g: Graph, i: int)
    requires
        g.inv(),
        g.ready(i),
    ensures
        same_cells(g, g.settle(i)),
{
    assert(g.slot_inv(i));
}

/// With the cells as they are in a graph where none counts as written,
/// none counts as written.
proof fn lemma_quiet(g: Graph, h: Graph)
    requires
        g.quiet(),
        h.inv(),
        same_cells(g, h),
    ensures
        h.quiet(),
{
    assert forall|i: int| 0 <= i < h.slots.len() implies !(#[trigger] h.slots[i]).written by {
        assert(h.slot_inv(i));
        assert(!g.slots[i].written);
    }
}

/// With the batch ended and every computation up to date, every
/// computation has seen what the nodes it read hold.
proof fn lemma_settled(g: Graph)
    requires
        g.inv(),
        g.coherent(),
        g.quiet(),
        !g.busy(),
    ensures
        g.settled(),
{
    assert forall|c: int, s: int| #[trigger] g.edge(s, c) implies g.has(s) && g.slots[c].seen[s]
        == g.slots[s].value by {
        law_settled_graph_is_consistent(g, c, s);
    }
}

impl Runtime {
    /// Ends the batch and runs what has to run, in dependency order, until
    /// every computation is up to date, the computations that are left
    /// wait for each other, or `budget` steps were taken: a step is one
    /// run, or one suspected computation marked up to date.
    ///
    /// Says whether every computation is up to date; if so, every
    /// computation has run on the present values of everything it read.
    /// With nothing to do once the batch has ended the answer is yes at
    /// once, whatever the budget; with something to do and no budget it is
    /// no; and where the computations that are left wait for each other
    /// from the start, that is reported. In these three cases the graph is
    /// left as the end of the batch made it. With any budget at all, a
    /// computation that was only suspected and is the first in line is
    /// marked up to date and stays so. Whatever the bodies do, the
    /// cells and every computation that was up to date when the batch
    /// ended are left as they were, and no node is created or disposed.
    pub fn flush<B: Bodies>(&mut self, bodies: &mut B, budget: usize) -> (result: Result<
        bool,
        EngineError,
    >)
        requires
            old(self).wf(),
        ensures
            final(self).wf(),
            same_cells(old(self)@.end_batch(), final(self)@),
            keeps_settled(old(self)@.end_batch(), final(self)@),
            final(self)@.quiet(),
            result == Ok::<bool, EngineError>(true) ==> !final(self)@.busy(),
            result == Ok::<bool, EngineError>(true) ==> final(self)@.settled(),
            result == Ok::<bool, EngineError>(false) ==> final(self)@.busy(),
            result is Err ==> result == Err::<bool, EngineError>(EngineError::CyclicDependency)
                && final(self)@.stuck(),
            !old(self)@.end_batch().busy() ==> result == Ok::<bool, EngineError>(true),
            !old(self)@.end_batch().busy() ==> final(self)@ == old(self)@.end_batch(),
            budget == 0 && old(self)@.end_batch().busy() ==> result == Ok::<bool, EngineError>(
                false,
            ) && final(self)@ == old(self)@.end_batch(),
            budget > 0 && old(self)@.end_batch().stuck() ==> result == Err::<bool, EngineError>(
                EngineError::CyclicDependency,
            ) && final(self)@ == old(self)@.end_batch(),
            budget > 0 ==> forall|i: int|
                old(self)@.end_batch().first_ready(i) && old(self)@.end_batch().slots[i].status
                    == Status::Check ==> #[trigger] final(self)@.slots[i] == old(
                    self,
                )@.end_batch().settle(i).slots[i],
    {
        self.end_batch();
        let ghost start = self@;
        proof {
            lemma_end_batch(old(self)@);
            assert(start.quiet());
        }
        let mut left = budget;
        loop
            invariant
                self.wf(),
                start == old(self)@.end_batch(),
                same_cells(start, self@),
                keeps_settled(start, self@),
                left <= budget,
                left == budget ==> self@ == start,
                left < budget ==> start.busy() && !start.stuck(),
                left < budget ==> forall|i: int|
                    start.first_ready(i) && start.slots[i].status == Status::Check
                        ==> #[trigger] self@.slots[i] == start.settle(i).slots[i],
            decreases left,
        {
            if !self.is_busy() {
                proof {
                    lemma_quiet(start, self@);
                    lemma_settled(self@);
                }
                return Ok(true);
            }
            proof {
                lemma_quiet(start, self@);
            }
            if left == 0 {
                return Ok(false);
            }
            left -= 1;
            let ghost before = self@;
            match self.advance() {
                Err(e) => {
                    return Err(e);
                },
                Ok(Step::Idle) => {
                    proof {
                        lemma_settled(self@);
                    }
                    return Ok(true);
                },
                Ok(Step::Settled(id)) => {
                    proof {
                        lemma_settle_same_cells(before, id.index as int);
                    }
                },
                Ok(Step::Run(node)) => {
                    let mut log = ReadLog::new();
                    let value = bodies.run(&*self, node, &mut log);
                    match self.kind_of(node) {
                        Some(Kind::Memo) => {
                            proof {
                                lemma_commit_same_cells(self@, node, Kind::Memo, log@, value);
                                lemma_commit_keeps_settled(self@, node, Kind::Memo, log@, value);
                            }
                            let _ = self.finish_memo(ReadHandle { node }, &log, value);
                        },
                        _ => {
                            proof {
                                if self@.due(node, Kind::Effect) {
                                    lemma_commit_same_cells(self@, node, Kind::Effect, log@, 0);
                                    lemma_commit_keeps_settled(self@, node, Kind::Effect, log@, 0);
                                }
                            }
                            let _ = self.finish_effect(node, &log);
                        },
                    }
                },
            }
            assert(same_cells(before, self@));
            assert(same_cells(start, self@));
            assert(keeps_settled(before, self@));
            assert forall|i: int|
                start.first_ready(i) && start.slots[i].status
                    == Status::Check implies #[trigger] self@.slots[i] == start.settle(
                i,
            ).slots[i] by {
                if before == start {
                } else {
                    assert(before.slots[i] == start.settle(i).slots[i]);
                    assert(before.slots[i].status == Status::Clean);
                }
            }
            assert(keeps_settled(start, self@)) by {
                assert forall|i: int|
                    0 <= i < start.slots.len() && start.slots[i].status
                        == Status::Clean implies #[trigger] self@.slots[i] == start.slots[i] by {
                    assert(before.slots[i] == start.slots[i]);
                }
            }
        }
    }
}

} // verus!
