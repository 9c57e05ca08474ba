//! The mathematical model of the graph that every contract speaks of.

use vstd::prelude::*;
use crate::handle::{Kind, NodeId, Outcome, Read, Status};

verus! {

/// One slot of the arena, as the contracts see it.
pub struct Slot {
    pub live: bool,
    pub generation: u64,
    pub kind: Kind,
    pub scope: u64,
    pub value: i64,
    /// For a cell: written since the last batch ended.
    pub written: bool,
    pub status: Status,
    /// The slots this node read when it last ran.
    pub sources: Set<int>,
    /// What each of them held when it was read.
    pub seen: Map<int, i64>,
}

/// The whole graph.
pub struct Graph {
    pub slots: Seq<Slot>,
    /// How many scopes were handed out.
    pub scopes: u64,
}

impl Slot {
    /// The slot once its node is disposed.
    pub open spec fn retired(self) -> Slot {
        Slot {
            live: false,
            written: false,
            status: Status::Clean,
            sources: Set::empty(),
            seen: Map::empty(),
            ..self
        }
    }
}

impl Graph {
    /// The graph before anything was created.
    pub open spec fn empty() -> Graph {
        Graph { slots: Seq::empty(), scopes: 0 }
    }

    /// Slot `i` holds a node.
    pub open spec fn has(self, i: int) -> bool {
        0 <= i < self.slots.len() && self.slots[i].live
    }

    /// The handle names a node that is alive now.
    pub open spec fn live(self, id: NodeId) -> bool {
        self.has(id.index as int) && self.slots[id.index as int].generation == id.generation
    }

    /// The handle names a live cell or memo.
    pub open spec fn readable(self, id: NodeId) -> bool {
        self.live(id) && self.slots[id.index as int].kind != Kind::Effect
    }

    /// The handle names a live cell.
    pub open spec fn writable(self, id: NodeId) -> bool {
        self.live(id) && self.slots[id.index as int].kind == Kind::Cell
    }

    /// The handle names a live node of the given kind.
    pub open spec fn live_as(self, id: NodeId, kind: Kind) -> bool {
        self.live(id) && self.slots[id.index as int].kind == kind
    }

    /// Node `c` read node `s` when it last ran.
    pub open spec fn edge(self, s: int, c: int) -> bool {
        self.has(c) && self.slots[c].sources.contains(s)
    }

    /// The nodes that `id` read when it last ran.
    pub open spec fn dependencies(self, id: NodeId) -> Set<int> {
        self.slots[id.index as int].sources
    }

    /// The nodes that read `id` when they last ran.
    pub open spec fn dependents(self, id: NodeId) -> Set<int> {
        Set::new(|c: int| self.edge(id.index as int, c))
    }

    /// What holds of slot `i` in every graph the engine builds.
    pub open spec fn slot_inv(self, i: int) -> bool {
        let s = self.slots[i];
        &&& !s.live ==> s.sources =~= Set::empty() && s.status == Status::Clean && !s.written
        &&& s.kind == Kind::Cell ==> s.sources =~= Set::empty() && s.status == Status::Clean
        &&& s.kind != Kind::Cell ==> !s.written
        &&& forall|j: int| #[trigger]
            s.sources.contains(j) ==> self.has(j) && self.slots[j].kind != Kind::Effect
        &&& s.status == Status::Clean ==> forall|j: int| #[trigger]
            s.sources.contains(j) ==> self.slots[j].status == Status::Clean
    }

    /// The invariant of the graph: edges lead to live cells and memos, only
    /// computations have edges, and an up-to-date node reads only
    /// up-to-date nodes.
    pub open spec fn inv(self) -> bool {
        forall|i: int| 0 <= i < self.slots.len() ==> #[trigger] self.slot_inv(i)
    }

    /// What holds of slot `i` besides: the node remembers a value for each
    /// slot it read and for no other, and unless it has to run again, each
    /// of them still holds that value or was written in the open batch.
    pub open spec fn slot_coherent(self, i: int) -> bool {
        let s = self.slots[i];
        &&& s.seen.dom() =~= s.sources
        &&& s.status != Status::Dirty ==> forall|j: int| #[trigger]
            s.sources.contains(j) ==> self.slots[j].written || self.slots[j].value == s.seen[j]
    }

    /// The second invariant of the graph: what a computation saw when it
    /// last ran is what the nodes it read still hold, unless the
    /// computation is marked as having to run or the difference comes from
    /// a write of the open batch.
    pub open spec fn coherent(self) -> bool {
        forall|i: int| 0 <= i < self.slots.len() ==> #[trigger] self.slot_coherent(i)
    }

    /// The graph with slot `i` replaced.
    pub open spec fn with_slot(self, i: int, slot: Slot) -> Graph {
        Graph { slots: self.slots.update(i, slot), ..self }
    }

    // ----- allocation -----

    /// Slot `i` is free and can be given out again.
    pub open spec fn reusable(self, i: int) -> bool {
        0 <= i < self.slots.len() && !self.slots[i].live && self.slots[i].generation < u64::MAX
    }

    /// Slot `i` is the first that can be given out again.
    pub open spec fn first_reusable(self, i: int) -> bool {
        self.reusable(i) && forall|j: int| 0 <= j < i ==> !self.reusable(j)
    }

    /// Where the next node goes: the first reusable slot, or a new slot at
    /// the end.
    pub open spec fn next_index(self) -> int {
        if exists|i: int| self.first_reusable(i) {
            choose|i: int| self.first_reusable(i)
        } else {
            self.slots.len() as int
        }
    }

    /// The generation of the next node.
    pub open spec fn next_generation(self) -> u64 {
        let i = self.next_index();
        if i < self.slots.len() {
            (self.slots[i].generation + 1) as u64
        } else {
            0
        }
    }

    /// The handle of the next node.
    pub open spec fn next_id(self) -> NodeId {
        NodeId { index: self.next_index() as usize, generation: self.next_generation() }
    }

    /// The graph with `slot` placed where the next node goes.
    pub open spec fn place(self, slot: Slot) -> Graph {
        let i = self.next_index();
        if i < self.slots.len() {
            self.with_slot(i, slot)
        } else {
            Graph { slots: self.slots.push(slot), ..self }
        }
    }

    // ----- reads of one run -----

    /// The read saw a settled node and the node still holds what was read.
    pub open spec fn fresh(self, r: Read) -> bool {
        &&& self.readable(r.node)
        &&& self.slots[r.node.index as int].status == Status::Clean
        &&& self.slots[r.node.index as int].value == r.value
    }

    /// Every read of the run is fresh.
    pub open spec fn all_fresh(self, reads: Seq<Read>) -> bool {
        forall|k: int| 0 <= k < reads.len() ==> self.fresh(#[trigger] reads[k])
    }

    /// The slots that the run read and that still hold the node it read.
    pub open spec fn read_set(self, reads: Seq<Read>) -> Set<int> {
        Set::new(
            |i: int|
                exists|k: int|
                    0 <= k < reads.len() && self.readable(#[trigger] reads[k].node)
                        && reads[k].node.index as int == i,
        )
    }

    /// Read `k` of the run is one that is kept as an edge, to slot `i`.
    pub open spec fn kept_read(self, reads: Seq<Read>, i: int, k: int) -> bool {
        0 <= k < reads.len() && self.readable(reads[k].node) && reads[k].node.index as int == i
    }

    /// What the run saw in each of the slots it read.
    pub open spec fn read_map(self, reads: Seq<Read>) -> Map<int, i64> {
        Map::new(
            |i: int| self.read_set(reads).contains(i),
            |i: int| reads[choose|k: int| self.kept_read(reads, i, k)].value,
        )
    }

    /// The status a node gets from a run with these reads.
    pub open spec fn status_after(self, reads: Seq<Read>) -> Status {
        if self.all_fresh(reads) {
            Status::Clean
        } else {
            Status::Dirty
        }
    }

    // ----- the operations -----

    /// After a new scope was handed out.
    pub open spec fn open_scope(self) -> Graph {
        Graph { scopes: (self.scopes + 1) as u64, ..self }
    }

    /// After a cell was created.
    pub open spec fn create_cell(self, scope: u64, initial: i64) -> Graph {
        self.place(
            Slot {
                live: true,
                generation: self.next_generation(),
                kind: Kind::Cell,
                scope,
                value: initial,
                written: false,
                status: Status::Clean,
                sources: Set::empty(),
                seen: Map::empty(),
            },
        )
    }

    /// After a memo or an effect was created from its first run.
    pub open spec fn create_computation(
        self,
        kind: Kind,
        scope: u64,
        reads: Seq<Read>,
        value: i64,
    ) -> Graph {
        self.place(
            Slot {
                live: true,
                generation: self.next_generation(),
                kind,
                scope,
                value,
                written: false,
                status: self.status_after(reads),
                sources: self.read_set(reads),
                seen: self.read_map(reads),
            },
        )
    }

    /// After `value` was written to the cell in slot `i`.
    pub open spec fn write(self, i: int, value: i64) -> Graph {
        if self.slots[i].value == value {
            self
        } else {
            self.with_slot(i, Slot { value, written: true, ..self.slots[i] })
        }
    }

    /// Node `c` read a cell that was written in this batch.
    pub open spec fn touched(self, c: int) -> bool {
        exists|s: int| self.edge(s, c) && #[trigger] self.slots[s].written
    }

    /// `p` leads from a written cell along edges.
    pub open spec fn trail(self, p: Seq<int>) -> bool {
        &&& p.len() >= 2
        &&& 0 <= p[0] < self.slots.len()
        &&& self.slots[p[0]].written
        &&& forall|k: int| 0 <= k < p.len() - 1 ==> self.edge(#[trigger] p[k], p[k + 1])
    }

    /// Node `c` depends, directly or through other computations, on a cell
    /// that was written in this batch.
    pub open spec fn downstream(self, c: int) -> bool {
        exists|p: Seq<int>| #[trigger] self.trail(p) && p.last() == c
    }

    /// The status of node `i` once the batch has ended.
    pub open spec fn marked(self, i: int) -> Status {
        if self.slots[i].status == Status::Dirty || self.touched(i) {
            Status::Dirty
        } else if self.slots[i].status == Status::Check || self.downstream(i) {
            Status::Check
        } else {
            Status::Clean
        }
    }

    /// After the batch ended: every computation that read a written cell has
    /// to run, every computation further down is suspected, and no cell
    /// counts as written any more.
    pub open spec fn end_batch(self) -> Graph {
        Graph {
            slots: Seq::new(
                self.slots.len(),
                |i: int| Slot { status: self.marked(i), written: false, ..self.slots[i] },
            ),
            ..self
        }
    }

    /// Each node of `p` was read by the next when that one last ran.
    pub open spec fn chain(self, p: Seq<int>) -> bool {
        &&& p.len() >= 1
        &&& forall|k: int| 0 <= k < p.len() - 1 ==> self.edge(#[trigger] p[k], p[k + 1])
    }

    /// The handle was given out at some time: for a node that is alive, or
    /// for one that was disposed.
    pub open spec fn issued(self, id: NodeId) -> bool {
        0 <= id.index < self.slots.len() && id.generation <= self.slots[id.index as int].generation
    }

    /// No cell counts as written.
    pub open spec fn quiet(self) -> bool {
        forall|i: int| 0 <= i < self.slots.len() ==> !(#[trigger] self.slots[i]).written
    }

    /// Every computation has seen, in each node it read when it last ran,
    /// the value that node holds now.
    pub open spec fn settled(self) -> bool {
        forall|c: int, s: int| #[trigger]
            self.edge(s, c) ==> self.has(s) && self.slots[c].seen[s] == self.slots[s].value
    }

    /// How many of the first `n` slots hold a computation that is not up
    /// to date.
    pub open spec fn waiting_below(self, n: int) -> nat
        decreases n,
    {
        if n <= 0 {
            0
        } else {
            self.waiting_below(n - 1) + if self.has(n - 1) && self.slots[n - 1].status
                != Status::Clean {
                1nat
            } else {
                0nat
            }
        }
    }

    /// How many computations are not up to date.
    pub open spec fn waiting(self) -> nat {
        self.waiting_below(self.slots.len() as int)
    }

    /// Some computation is not up to date.
    pub open spec fn busy(self) -> bool {
        exists|i: int| self.has(i) && #[trigger] self.slots[i].status != Status::Clean
    }

    /// Node `i` is not up to date and everything it read is.
    pub open spec fn ready(self, i: int) -> bool {
        &&& self.has(i)
        &&& self.slots[i].status != Status::Clean
        &&& forall|s: int| #[trigger]
            self.slots[i].sources.contains(s) ==> self.slots[s].status == Status::Clean
    }

    /// Node `i` is the first ready node.
    pub open spec fn first_ready(self, i: int) -> bool {
        self.ready(i) && forall|j: int| 0 <= j < i ==> !self.ready(j)
    }

    /// The computations that are not up to date wait for each other.
    pub open spec fn stuck(self) -> bool {
        self.busy() && forall|i: int| !self.ready(i)
    }

    /// `p` is a ring of computations none of which is up to date: each read
    /// the one before it, and the last is the first again.
    pub open spec fn ring(self, p: Seq<int>) -> bool {
        &&& self.chain(p)
        &&& p.len() >= 2
        &&& p.first() == p.last()
        &&& forall|k: int|
            0 <= k < p.len() ==> self.has(#[trigger] p[k]) && self.slots[p[k]].status
                != Status::Clean
    }

    /// After node `i`, only suspected, was marked up to date.
    pub open spec fn settle(self, i: int) -> Graph {
        self.with_slot(i, Slot { status: Status::Clean, ..self.slots[i] })
    }

    /// The node waits for a run as a computation of the given kind.
    pub open spec fn due(self, id: NodeId, kind: Kind) -> bool {
        self.live_as(id, kind) && self.slots[id.index as int].status == Status::Dirty
    }

    /// After the run of computation `c` was taken in.
    ///
    /// Its edges are replaced by the reads of this run. If every read was
    /// fresh the node is up to date, a memo holds the new value, and if that
    /// value differs from the old one every node that read the memo has to
    /// run. If not, the result is dropped and the node has to run again.
    pub open spec fn commit(self, c: int, reads: Seq<Read>, value: i64) -> Graph {
        let old = self.slots[c];
        if self.all_fresh(reads) {
            let changed = old.kind == Kind::Memo && value != old.value;
            Graph {
                slots: Seq::new(
                    self.slots.len(),
                    |i: int|
                        if i == c {
                            Slot {
                                value: if old.kind == Kind::Memo {
                                    value
                                } else {
                                    old.value
                                },
                                status: Status::Clean,
                                sources: self.read_set(reads),
                                seen: self.read_map(reads),
                                ..old
                            }
                        } else if changed && self.edge(c, i) {
                            Slot { status: Status::Dirty, ..self.slots[i] }
                        } else {
                            self.slots[i]
                        },
                ),
                ..self
            }
        } else {
            self.with_slot(
                c,
                Slot { sources: self.read_set(reads), seen: self.read_map(reads), ..old },
            )
        }
    }

    /// How the run of computation `c` is taken in.
    pub open spec fn outcome(self, c: int, reads: Seq<Read>, value: i64) -> Outcome {
        if !self.all_fresh(reads) {
            Outcome::Stale
        } else if self.slots[c].kind == Kind::Memo && value != self.slots[c].value {
            Outcome::Changed
        } else {
            Outcome::Unchanged
        }
    }

    /// Slot `i` holds a node of the scope.
    pub open spec fn doomed(self, scope: u64, i: int) -> bool {
        self.has(i) && self.slots[i].scope == scope
    }

    /// The slots that node `i` read and that hold no node of the scope.
    pub open spec fn surviving(self, scope: u64, i: int) -> Set<int> {
        Set::new(|s: int| self.slots[i].sources.contains(s) && !self.doomed(scope, s))
    }

    /// After the scope was disposed: its nodes are gone, and so is every
    /// edge that led to one of them.
    pub open spec fn dispose(self, scope: u64) -> Graph {
        Graph {
            slots: Seq::new(
                self.slots.len(),
                |i: int|
                    if self.doomed(scope, i) {
                        self.slots[i].retired()
                    } else {
                        Slot {
                            sources: self.surviving(scope, i),
                            seen: self.slots[i].seen.restrict(self.surviving(scope, i)),
                            ..self.slots[i]
                        }
                    },
            ),
            ..self
        }
    }
}

} // verus!
