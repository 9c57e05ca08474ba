//! Taking in the runs of computations: their first run, when they are
//! created, and every later one.

use vstd::prelude::*;
use crate::handle::{EngineError, Kind, NodeId, Outcome, Read, ReadHandle, ScopeId, Status};
use crate::model::Slot;
use crate::coherence::{coherent_commit, coherent_create_computation};
use crate::preserve::{lemma_commit, lemma_create_computation};
use crate::runtime::{index_set, Node, ReadLog, Runtime};

verus! {

/// Whether the list names slot `s`.
fn names(list: &Vec<usize>, s: usize) -> (found: bool)
    ensures
        found == index_set(list@).contains(s as int),
{
    let mut k: usize = 0;
    while k < list.len()
        invariant
            k <= list@.len(),
            forall|j: int| 0 <= j < k ==> list@[j] != s,
        decreases list@.len() - k,
    {
        if list[k] == s {
            return true;
        }
        k += 1;
    }
    false
}

impl Node {
    /// Whether this node read slot `s` when it last ran.
    pub(crate) fn has_source(&self, s: usize) -> (found: bool)
        ensures
            found == self@.sources.contains(s as int),
    {
        names(&self.sources, s)
    }
}

impl Runtime {
    /// Whether the read is fresh: it saw a settled node that still holds
    /// what was read.
    fn is_fresh(&self, r: &Read) -> (fresh: bool)
        ensures
            fresh == self@.fresh(*r),
    {
        if !self.is_alive(r.node) {
            return false;
        }
        let node = &self.nodes[r.node.index];
        let readable = match node.kind {
            Kind::Effect => false,
            _ => true,
        };
        let clean = match node.status {
            Status::Clean => true,
            _ => false,
        };
        readable && clean && node.value == r.value
    }

    /// Whether the handle names a live cell or memo.
    fn is_readable(&self, id: NodeId) -> (ok: bool)
        ensures
            ok == self@.readable(id),
    {
        if !self.is_alive(id) {
            return false;
        }
        match self.nodes[id.index].kind {
            Kind::Effect => false,
            _ => true,
        }
    }

    /// The edges that the reads of a run give, each once, and whether every
    /// read was fresh.
    fn digest(&self, log: &ReadLog) -> (out: (Vec<usize>, bool))
        ensures
            index_set(out.0@) =~= self@.read_set(log@),
            out.1 == self@.all_fresh(log@),
    {
        let mut sources: Vec<usize> = Vec::new();
        let mut fresh = true;
        let mut k: usize = 0;
        while k < log.reads.len()
            invariant
                k <= log@.len(),
                index_set(sources@) =~= self@.read_set(log@.take(k as int)),
                fresh == self@.all_fresh(log@.take(k as int)),
            decreases log@.len() - k,
        {
            let r = log.reads[k];
            let ghost before = sources@;
            let ghost prefix = log@.take(k as int);
            let ghost next = log@.take(k + 1);
            proof {
                assert(next =~= prefix.push(r));
            }
            if self.is_readable(r.node) && names(&sources, r.node.index) {
                proof {
                    assert forall|i: int| self@.read_set(prefix).contains(i) == self@.read_set(
                        next,
                    ).contains(i) by {
                        if self@.read_set(prefix).contains(i) {
                            let m = choose|m: int|
                                0 <= m < prefix.len() && self@.readable(#[trigger] prefix[m].node)
                                    && prefix[m].node.index as int == i;
                            assert(next[m] == prefix[m]);
                        }
                        if self@.read_set(next).contains(i) {
                            let m = choose|m: int|
                                0 <= m < next.len() && self@.readable(#[trigger] next[m].node)
                                    && next[m].node.index as int == i;
                            if m < k {
                                assert(prefix[m] == next[m]);
                            } else {
                                assert(index_set(before).contains(i));
                            }
                        }
                    }
                }
            } else if self.is_readable(r.node) {
                sources.push(r.node.index);
                proof {
                    assert forall|i: int| index_set(sources@).contains(i) == self@.read_set(
                        next,
                    ).contains(i) by {
                        if index_set(sources@).contains(i) {
                            let j = choose|j: int| 0 <= j < sources@.len() && #[trigger] sources@[j] as int == i;
                            if j < before.len() {
                                assert(before[j] as int == i);
                                assert(index_set(before).contains(i));
                                assert(self@.read_set(prefix).contains(i));
                                let m = choose|m: int|
                                    0 <= m < prefix.len() && self@.readable(#[trigger] prefix[m].node)
                                        && prefix[m].node.index as int == i;
                                assert(next[m] == prefix[m]);
                            } else {
                                assert(next[k as int] == r);
                            }
                        }
                        if self@.read_set(next).contains(i) {
                            let m = choose|m: int|
                                0 <= m < next.len() && self@.readable(#[trigger] next[m].node)
                                    && next[m].node.index as int == i;
                            if m < k {
                                assert(prefix[m] == next[m]);
                                assert(self@.read_set(prefix).contains(i));
                                assert(index_set(before).contains(i));
                                let j = choose|j: int| 0 <= j < before.len() && #[trigger] before[j] as int == i;
                                assert(sources@[j] == before[j]);
                            } else {
                                assert(sources@[before.len() as int] as int == i);
                            }
                        }
                    }
                }
            } else {
                proof {
                    assert forall|i: int| self@.read_set(prefix).contains(i) == self@.read_set(
                        next,
                    ).contains(i) by {
                        if self@.read_set(prefix).contains(i) {
                            let m = choose|m: int|
                                0 <= m < prefix.len() && self@.readable(#[trigger] prefix[m].node)
                                    && prefix[m].node.index as int == i;
                            assert(next[m] == prefix[m]);
                        }
                        if self@.read_set(next).contains(i) {
                            let m = choose|m: int|
                                0 <= m < next.len() && self@.readable(#[trigger] next[m].node)
                                    && next[m].node.index as int == i;
                            assert(m < k);
                            assert(prefix[m] == next[m]);
                        }
                    }
                }
            }
            let f = self.is_fresh(&r);
            proof {
                if fresh && f {
                    assert forall|m: int| 0 <= m < next.len() implies self@.fresh(#[trigger] next[m]) by {
                        if m < k {
                            assert(prefix[m] == next[m]);
                        }
                    }
                } else if !f {
                    assert(next[k as int] == r);
                } else {
                    let m = choose|m: int| 0 <= m < prefix.len() && !self@.fresh(#[trigger] prefix[m]);
                    assert(next[m] == prefix[m]);
                }
            }
            fresh = fresh && f;
            k += 1;
        }
        proof {
            assert(log@.take(k as int) =~= log@);
        }
        (sources, fresh)
    }

    /// Creates a memo from its first run: `log` holds what the run read,
    /// `value` is what it computed. The memo is up to date if every read
    /// saw a settled node that still holds what was read; if not, it has to
    /// run again.
    pub fn create_memo(&mut self, scope: ScopeId, log: &ReadLog, value: i64) -> (handle: ReadHandle)
        requires
            old(self).wf(),
            old(self)@.next_index() < usize::MAX,
        ensures
            final(self).wf(),
            handle.node == old(self)@.next_id(),
            final(self)@ == old(self)@.create_computation(Kind::Memo, scope.id, log@, value),
    {
        let (sources, fresh) = self.digest(log);
        let status = if fresh {
            Status::Clean
        } else {
            Status::Dirty
        };
        let node = self.insert(
            Kind::Memo,
            scope.id,
            value,
            status,
            sources,
            Ghost(self@.read_map(log@)),
        );
        proof {
            lemma_create_computation(old(self)@, Kind::Memo, scope.id, log@, value);
            coherent_create_computation(old(self)@, Kind::Memo, scope.id, log@, value);
        }
        ReadHandle { node }
    }

    /// Creates an effect from its first run: `log` holds what the run read.
    /// The effect is up to date if every read saw a settled node that still
    /// holds what was read; if not, it has to run again.
    pub fn create_effect(&mut self, scope: ScopeId, log: &ReadLog) -> (node: NodeId)
        requires
            old(self).wf(),
            old(self)@.next_index() < usize::MAX,
        ensures
            final(self).wf(),
            node == old(self)@.next_id(),
            final(self)@ == old(self)@.create_computation(Kind::Effect, scope.id, log@, 0),
    {
        let (sources, fresh) = self.digest(log);
        let status = if fresh {
            Status::Clean
        } else {
            Status::Dirty
        };
        let node = self.insert(
            Kind::Effect,
            scope.id,
            0,
            status,
            sources,
            Ghost(self@.read_map(log@)),
        );
        proof {
            lemma_create_computation(old(self)@, Kind::Effect, scope.id, log@, 0);
            coherent_create_computation(old(self)@, Kind::Effect, scope.id, log@, 0);
        }
        node
    }

    /// Whether the node waits for a run as a computation of the given kind.
    fn is_due(&self, id: NodeId, kind: Kind) -> (due: bool)
        ensures
            due == self@.due(id, kind),
    {
        if !self.is_alive(id) {
            return false;
        }
        let node = &self.nodes[id.index];
        let dirty = match node.status {
            Status::Dirty => true,
            _ => false,
        };
        node.kind == kind && dirty
    }

    /// Marks every node that read slot `c` as having to run.
    fn dirty_dependents(&mut self, c: usize)
        ensures
            final(self)@.scopes == old(self)@.scopes,
            final(self)@.slots.len() == old(self)@.slots.len(),
            forall|i: int|
                0 <= i < old(self)@.slots.len() ==> #[trigger] final(self)@.slots[i] == (if i != c
                    && old(self)@.edge(c as int, i) {
                    Slot { status: Status::Dirty, ..old(self)@.slots[i] }
                } else {
                    old(self)@.slots[i]
                }),
    {
        let mut i: usize = 0;
        while i < self.nodes.len()
            invariant
                i <= self.nodes@.len(),
                self.scopes == old(self).scopes,
                self.nodes@.len() == old(self).nodes@.len(),
                forall|j: int| i <= j < self.nodes@.len() ==> self.nodes@[j] == old(self).nodes@[j],
                forall|j: int|
                    0 <= j < i ==> #[trigger] self.nodes@[j] == (if j != c && old(self)@.edge(
                        c as int,
                        j,
                    ) {
                        Node { status: Status::Dirty, ..old(self).nodes@[j] }
                    } else {
                        old(self).nodes@[j]
                    }),
            decreases self.nodes@.len() - i,
        {
            if i != c && self.nodes[i].live && self.nodes[i].has_source(c) {
                self.nodes[i].status = Status::Dirty;
            }
            i += 1;
        }
    }

    /// Takes in the run of computation `id`, if it waits for one as a
    /// computation of the given kind.
    fn commit(&mut self, id: NodeId, kind: Kind, log: &ReadLog, value: i64) -> (result: Result<
        Outcome,
        EngineError,
    >)
        requires
            old(self).wf(),
            kind != Kind::Cell,
        ensures
            final(self).wf(),
            !old(self)@.live(id) ==> result == Err::<Outcome, EngineError>(
                EngineError::UseAfterDispose,
            ) && final(self)@ == old(self)@,
            old(self)@.live(id) && !old(self)@.due(id, kind) ==> result == Ok::<Outcome, EngineError>(
                Outcome::NotDue,
            ) && final(self)@ == old(self)@,
            old(self)@.due(id, kind) ==> final(self)@ == old(self)@.commit(
                id.index as int,
                log@,
                value,
            ) && result == Ok::<Outcome, EngineError>(
                old(self)@.outcome(id.index as int, log@, value),
            ),
    {
        if !self.is_alive(id) {
            return Err(EngineError::UseAfterDispose);
        }
        if !self.is_due(id, kind) {
            return Ok(Outcome::NotDue);
        }
        let c = id.index;
        let (sources, fresh) = self.digest(log);
        proof {
            lemma_commit(old(self)@, c as int, log@, value);
            coherent_commit(old(self)@, c as int, log@, value);
        }
        let ghost goal = old(self)@.commit(c as int, log@, value);
        if !fresh {
            self.nodes[c].sources = sources;
            self.nodes[c].seen = Ghost(old(self)@.read_map(log@));
            proof {
                assert forall|i: int| 0 <= i < goal.slots.len() implies self@.slots[i] == goal.slots[i] by {
                    if i == c {
                        assert(self@.slots[i].sources =~= goal.slots[i].sources);
                    }
                }
                assert(self@.slots =~= goal.slots);
            }
            return Ok(Outcome::Stale);
        }
        let changed = match kind {
            Kind::Memo => self.nodes[c].value != value,
            _ => false,
        };
        let value = match kind {
            Kind::Memo => value,
            _ => self.nodes[c].value,
        };
        if changed {
            self.dirty_dependents(c);
        }
        let ghost mid = self@;
        self.nodes[c].value = value;
        self.nodes[c].status = Status::Clean;
        self.nodes[c].sources = sources;
        self.nodes[c].seen = Ghost(old(self)@.read_map(log@));
        proof {
            assert forall|i: int| 0 <= i < goal.slots.len() implies self@.slots[i] == goal.slots[i] by {
                if i == c {
                    assert(self@.slots[i].sources =~= goal.slots[i].sources);
                } else {
                    assert(self@.slots[i] == mid.slots[i]);
                }
            }
            assert(self@.slots =~= goal.slots);
        }
        if changed {
            Ok(Outcome::Changed)
        } else {
            Ok(Outcome::Unchanged)
        }
    }

    /// Takes in a run of the memo: `log` holds what the run read, `value`
    /// is what it computed.
    ///
    /// The reads replace the memo's edges. If each of them saw a settled
    /// node that still holds what was read, the memo takes the value and is
    /// up to date, and if the value is new every node that read the memo
    /// has to run. If not, the value is dropped and the memo has to run
    /// again. A memo that was not waiting for a run is left as it is.
    pub fn finish_memo(&mut self, memo: ReadHandle, log: &ReadLog, value: i64) -> (result: Result<
        Outcome,
        EngineError,
    >)
        requires
            old(self).wf(),
        ensures
            final(self).wf(),
            !old(self)@.live(memo.node) ==> result == Err::<Outcome, EngineError>(
                EngineError::UseAfterDispose,
            ) && final(self)@ == old(self)@,
            old(self)@.live(memo.node) && !old(self)@.due(memo.node, Kind::Memo) ==> result == Ok::<
                Outcome,
                EngineError,
            >(Outcome::NotDue) && final(self)@ == old(self)@,
            old(self)@.due(memo.node, Kind::Memo) ==> final(self)@ == old(self)@.commit(
                memo.node.index as int,
                log@,
                value,
            ) && result == Ok::<Outcome, EngineError>(
                old(self)@.outcome(memo.node.index as int, log@, value),
            ),
    {
        self.commit(memo.node, Kind::Memo, log, value)
    }

    /// Takes in a run of the effect: `log` holds what the run read.
    ///
    /// The reads replace the effect's edges. If each of them saw a settled
    /// node that still holds what was read, the effect is up to date; if
    /// not, it has to run again. An effect that was not waiting for a run
    /// is left as it is.
    pub fn finish_effect(&mut self, effect: NodeId, log: &ReadLog) -> (result: Result<
        Outcome,
        EngineError,
    >)
        requires
            old(self).wf(),
        ensures
            final(self).wf(),
            !old(self)@.live(effect) ==> result == Err::<Outcome, EngineError>(
                EngineError::UseAfterDispose,
            ) && final(self)@ == old(self)@,
            old(self)@.live(effect) && !old(self)@.due(effect, Kind::Effect) ==> result == Ok::<
                Outcome,
                EngineError,
            >(Outcome::NotDue) && final(self)@ == old(self)@,
            old(self)@.due(effect, Kind::Effect) ==> final(self)@ == old(self)@.commit(
                effect.index as int,
                log@,
                0,
            ) && result == Ok::<Outcome, EngineError>(
                old(self)@.outcome(effect.index as int, log@, 0),
            ),
    {
        self.commit(effect, Kind::Effect, log, 0)
    }
}

} // verus!
