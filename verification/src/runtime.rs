//! The arena that holds the graph, and the operations on single nodes.

use vstd::prelude::*;
use crate::handle::{EngineError, Kind, NodeId, Read, ReadHandle, ScopeId, Status, WriteHandle};
use crate::coherence::{coherent_create_cell, coherent_open_scope, coherent_write};
use crate::model::{Graph, Slot};
use crate::preserve::{
    lemma_create_cell, lemma_next_index_appended, lemma_next_index_reused, lemma_open_scope,
    lemma_write,
};

verus! {

/// The slots that a list of indices names.
pub open spec fn index_set(s: Seq<usize>) -> Set<int> {
    Set::new(|i: int| exists|k: int| 0 <= k < s.len() && #[trigger] s[k] as int == i)
}

/// One slot of the arena.
pub struct Node {
    pub(crate) live: bool,
    pub(crate) generation: u64,
    pub(crate) kind: Kind,
    pub(crate) scope: u64,
    pub(crate) value: i64,
    pub(crate) written: bool,
    pub(crate) status: Status,
    pub(crate) sources: Vec<usize>,
    pub(crate) seen: Ghost<Map<int, i64>>,
}

impl Node {
    pub open(crate) spec fn view(&self) -> Slot {
        Slot {
            live: self.live,
            generation: self.generation,
            kind: self.kind,
            scope: self.scope,
            value: self.value,
            written: self.written,
            status: self.status,
            sources: index_set(self.sources@),
            seen: self.seen@,
        }
    }
}

/// The reactive graph: an arena of cells, memos and effects.
pub struct Runtime {
    pub(crate) nodes: Vec<Node>,
    pub(crate) scopes: u64,
}

/// The reads of one run of a computation, in the order they were made.
pub struct ReadLog {
    pub(crate) reads: Vec<Read>,
}

impl ReadLog {
    pub open(crate) spec fn view(&self) -> Seq<Read> {
        self.reads@
    }

    /// A log with no reads.
    pub fn new() -> (log: ReadLog)
        ensures
            log@ == Seq::<Read>::empty(),
    {
        ReadLog { reads: Vec::new() }
    }

    /// Forgets every read, so that the log can serve the next run.
    pub fn clear(&mut self)
        ensures
            final(self)@ == Seq::<Read>::empty(),
    {
        self.reads.clear();
    }

    /// How many reads were logged.
    pub fn len(&self) -> (n: usize)
        ensures
            n == self@.len(),
    {
        self.reads.len()
    }
}

impl Runtime {
    /// The graph this arena holds.
    pub open(crate) spec fn view(&self) -> Graph {
        Graph {
            slots: Seq::new(self.nodes@.len(), |i: int| self.nodes@[i].view()),
            scopes: self.scopes,
        }
    }

    /// The arena holds a graph that meets both graph invariants.
    pub open(crate) spec fn wf(&self) -> bool {
        self@.inv() && self@.coherent()
    }

    /// An empty graph.
    pub fn new() -> (rt: Runtime)
        ensures
            rt.wf(),
            rt@ == Graph::empty(),
    {
        let rt = Runtime { nodes: Vec::new(), scopes: 0 };
        assert(rt@.slots =~= Seq::<Slot>::empty());
        rt
    }

    /// Hands out a scope that was not handed out before.
    pub fn create_scope(&mut self) -> (scope: ScopeId)
        requires
            old(self).wf(),
            old(self)@.scopes < u64::MAX,
        ensures
            final(self).wf(),
            scope.id == old(self)@.scopes,
            final(self)@ == old(self)@.open_scope(),
    {
        let id = self.scopes;
        self.scopes = id + 1;
        proof {
            assert(self@.slots =~= old(self)@.slots);
            lemma_open_scope(old(self)@);
            coherent_open_scope(old(self)@);
        }
        ScopeId { id }
    }

    /// Whether the handle names a node that is alive.
    pub fn is_alive(&self, id: NodeId) -> (alive: bool)
        ensures
            alive == self@.live(id),
    {
        id.index < self.nodes.len() && self.nodes[id.index].live && self.nodes[id.index].generation
            == id.generation
    }

    /// How many slots the arena has, in use or free.
    pub fn slot_count(&self) -> (n: usize)
        ensures
            n == self@.slots.len(),
    {
        self.nodes.len()
    }

    /// How many scopes were handed out.
    pub fn scope_count(&self) -> (n: u64)
        ensures
            n == self@.scopes,
    {
        self.scopes
    }

    /// What kind of node the handle names.
    pub fn kind_of(&self, id: NodeId) -> (kind: Option<Kind>)
        ensures
            self@.live(id) ==> kind == Some(self@.slots[id.index as int].kind),
            !self@.live(id) ==> kind.is_none(),
    {
        if self.is_alive(id) {
            Some(self.nodes[id.index].kind)
        } else {
            None
        }
    }

    /// How far the node is from being up to date.
    pub fn status_of(&self, id: NodeId) -> (status: Option<Status>)
        ensures
            self@.live(id) ==> status == Some(self@.slots[id.index as int].status),
            !self@.live(id) ==> status.is_none(),
    {
        if self.is_alive(id) {
            Some(self.nodes[id.index].status)
        } else {
            None
        }
    }

    /// The scope that owns the node.
    pub fn scope_of(&self, id: NodeId) -> (scope: Option<ScopeId>)
        ensures
            self@.live(id) ==> scope == Some(ScopeId { id: self@.slots[id.index as int].scope }),
            !self@.live(id) ==> scope.is_none(),
    {
        if self.is_alive(id) {
            Some(ScopeId { id: self.nodes[id.index].scope })
        } else {
            None
        }
    }

    /// Whether `node` read `source` when it last ran.
    pub fn depends_on(&self, node: NodeId, source: NodeId) -> (found: bool)
        ensures
            found == (self@.live(node) && self@.live(source) && self@.edge(
                source.index as int,
                node.index as int,
            )),
    {
        if !self.is_alive(node) || !self.is_alive(source) {
            return false;
        }
        self.nodes[node.index].has_source(source.index)
    }

    /// The value of a cell or memo, read without being tracked. A handle
    /// that names no live cell or memo gives `UseAfterDispose`.
    pub fn read(&self, handle: ReadHandle) -> (result: Result<i64, EngineError>)
        ensures
            self@.readable(handle.node) ==> result == Ok::<i64, EngineError>(
                self@.slots[handle.node.index as int].value,
            ),
            !self@.readable(handle.node) ==> result == Err::<i64, EngineError>(
                EngineError::UseAfterDispose,
            ),
    {
        if !self.is_alive(handle.node) {
            return Err(EngineError::UseAfterDispose);
        }
        let node = &self.nodes[handle.node.index];
        match node.kind {
            Kind::Effect => Err(EngineError::UseAfterDispose),
            _ => Ok(node.value),
        }
    }

    /// The slot where the next node goes.
    fn vacancy(&self) -> (i: usize)
        ensures
            i as int == self@.next_index(),
    {
        let mut i: usize = 0;
        while i < self.nodes.len()
            invariant
                i <= self.nodes@.len(),
                forall|j: int| 0 <= j < i ==> !self@.reusable(j),
            decreases self.nodes@.len() - i,
        {
            if !self.nodes[i].live && self.nodes[i].generation < u64::MAX {
                proof {
                    assert(self@.first_reusable(i as int));
                    lemma_next_index_reused(self@, i as int);
                }
                return i;
            }
            i += 1;
        }
        proof {
            lemma_next_index_appended(self@);
        }
        i
    }

    /// Puts a new node where the next node goes.
    pub(crate) fn insert(
        &mut self,
        kind: Kind,
        scope: u64,
        value: i64,
        status: Status,
        sources: Vec<usize>,
        Ghost(seen): Ghost<Map<int, i64>>,
    ) -> (id: NodeId)
        requires
            old(self)@.next_index() < usize::MAX,
        ensures
            id == old(self)@.next_id(),
            final(self)@ == old(self)@.place(
                Slot {
                    live: true,
                    generation: old(self)@.next_generation(),
                    kind,
                    scope,
                    value,
                    written: false,
                    status,
                    sources: index_set(sources@),
                    seen,
                },
            ),
    {
        let i = self.vacancy();
        let ghost slot = Slot {
            live: true,
            generation: old(self)@.next_generation(),
            kind,
            scope,
            value,
            written: false,
            status,
            sources: index_set(sources@),
            seen,
        };
        if i < self.nodes.len() {
            let generation = self.nodes[i].generation + 1;
            self.nodes[i] = Node {
                live: true,
                generation,
                kind,
                scope,
                value,
                written: false,
                status,
                sources,
                seen: Ghost(seen),
            };
            assert(self@.slots =~= old(self)@.place(slot).slots);
            NodeId { index: i, generation }
        } else {
            self.nodes.push(
                Node {
                    live: true,
                    generation: 0,
                    kind,
                    scope,
                    value,
                    written: false,
                    status,
                    sources,
                    seen: Ghost(seen),
                },
            );
            assert(self@.slots =~= old(self)@.place(slot).slots);
            NodeId { index: i, generation: 0 }
        }
    }

    /// Creates a cell that holds `initial` and returns the handles to read
    /// and to write it.
    pub fn create_cell(&mut self, scope: ScopeId, initial: i64) -> (handles: (ReadHandle, WriteHandle))
        requires
            old(self).wf(),
            old(self)@.next_index() < usize::MAX,
        ensures
            final(self).wf(),
            handles.0.node == old(self)@.next_id(),
            handles.1.node == old(self)@.next_id(),
            final(self)@ == old(self)@.create_cell(scope.id, initial),
    {
        let sources: Vec<usize> = Vec::new();
        assert(index_set(sources@) =~= Set::<int>::empty());
        let node = self.insert(
            Kind::Cell,
            scope.id,
            initial,
            Status::Clean,
            sources,
            Ghost(Map::empty()),
        );
        proof {
            lemma_create_cell(old(self)@, scope.id, initial);
            coherent_create_cell(old(self)@, scope.id, initial);
        }
        (ReadHandle { node }, WriteHandle { node })
    }

    /// Reads a cell or memo for a running computation and logs the read. A
    /// handle that names no live cell or memo gives `UseAfterDispose`, and
    /// nothing is logged.
    pub fn read_tracked(&self, log: &mut ReadLog, handle: ReadHandle) -> (result: Result<
        i64,
        EngineError,
    >)
        ensures
            self@.readable(handle.node) ==> result == Ok::<i64, EngineError>(
                self@.slots[handle.node.index as int].value,
            ) && final(log)@ == old(log)@.push(
                Read { node: handle.node, value: self@.slots[handle.node.index as int].value },
            ),
            !self@.readable(handle.node) ==> result == Err::<i64, EngineError>(
                EngineError::UseAfterDispose,
            ) && final(log)@ == old(log)@,
    {
        match self.read(handle) {
            Ok(value) => {
                log.reads.push(Read { node: handle.node, value });
                Ok(value)
            },
            Err(e) => Err(e),
        }
    }

    /// Whether the handle names a live cell.
    pub fn is_writable(&self, handle: WriteHandle) -> (ok: bool)
        ensures
            ok == self@.writable(handle.node),
    {
        if !self.is_alive(handle.node) {
            return false;
        }
        match self.nodes[handle.node.index].kind {
            Kind::Cell => true,
            _ => false,
        }
    }

    /// Stores `value` in the cell. A value that differs from the one held
    /// marks the cell as written in the current batch; the same value
    /// leaves the graph as it is. A handle that names no live cell gives
    /// `UseAfterDispose`.
    pub fn write(&mut self, handle: WriteHandle, value: i64) -> (result: Result<(), EngineError>)
        requires
            old(self).wf(),
        ensures
            final(self).wf(),
            old(self)@.writable(handle.node) ==> result is Ok && final(self)@ == old(self)@.write(
                handle.node.index as int,
                value,
            ),
            !old(self)@.writable(handle.node) ==> result == Err::<(), EngineError>(
                EngineError::UseAfterDispose,
            ) && final(self)@ == old(self)@,
    {
        if !self.is_writable(handle) {
            return Err(EngineError::UseAfterDispose);
        }
        let i = handle.node.index;
        if self.nodes[i].value != value {
            self.nodes[i].value = value;
            self.nodes[i].written = true;
        }
        proof {
            assert(self@.slots =~= old(self)@.write(i as int, value).slots);
            lemma_write(old(self)@, i as int, value);
            coherent_write(old(self)@, i as int, value);
        }
        Ok(())
    }

    /// Replaces the value of the cell by what `f` makes of it.
    pub fn update<F: Fn(i64) -> i64>(&mut self, handle: WriteHandle, f: F) -> (result: Result<
        (),
        EngineError,
    >)
        requires
            old(self).wf(),
            old(self)@.writable(handle.node) ==> call_requires(
                f,
                (old(self)@.slots[handle.node.index as int].value,),
            ),
        ensures
            final(self).wf(),
            old(self)@.writable(handle.node) ==> result is Ok && call_ensures(
                f,
                (old(self)@.slots[handle.node.index as int].value,),
                final(self)@.slots[handle.node.index as int].value,
            ) && final(self)@ == old(self)@.write(
                handle.node.index as int,
                final(self)@.slots[handle.node.index as int].value,
            ),
            !old(self)@.writable(handle.node) ==> result == Err::<(), EngineError>(
                EngineError::UseAfterDispose,
            ) && final(self)@ == old(self)@,
    {
        if !self.is_writable(handle) {
            return Err(EngineError::UseAfterDispose);
        }
        let value = f(self.nodes[handle.node.index].value);
        self.write(handle, value)
    }

    /// Delivers the result of work that finished outside the graph: written
    /// to the cell if the cell is still alive, dropped if it is not.
    pub fn resolve(&mut self, handle: WriteHandle, value: i64) -> (delivered: bool)
        requires
            old(self).wf(),
        ensures
            final(self).wf(),
            delivered == old(self)@.writable(handle.node),
            delivered ==> final(self)@ == old(self)@.write(handle.node.index as int, value),
            !delivered ==> final(self)@ == old(self)@,
    {
        match self.write(handle, value) {
            Ok(_) => true,
            Err(_) => false,
        }
    }
}

} // verus!
