//! Handles and small value types shared by the whole engine.

use vstd::prelude::*;

verus! {

/// Names one slot of the arena at one point of its life.
///
/// A slot may be reused after its node was disposed; the generation tells
/// the node that lives there now from the ones that lived there before.
#[derive(Clone, Copy, PartialEq, Eq, Structural, Debug)]
pub struct NodeId {
    pub index: usize,
    pub generation: u64,
}

/// What a node is.
#[derive(Clone, Copy, PartialEq, Eq, Structural, Debug)]
pub enum Kind {
    /// Plain mutable storage.
    Cell,
    /// A cached derived value.
    Memo,
    /// A computation run for what it does outside the graph.
    Effect,
}

/// How far a computation is from being up to date.
#[derive(Clone, Copy, PartialEq, Eq, Structural, Debug)]
pub enum Status {
    /// Up to date.
    Clean,
    /// Something upstream was written; whether this node has to run again is
    /// not known until everything it reads has settled.
    Check,
    /// Has to run again.
    Dirty,
}

/// The ways an operation on the graph can fail.
#[derive(Clone, Copy, PartialEq, Eq, Structural, Debug)]
pub enum EngineError {
    /// The handle names a node that was disposed, or never existed.
    UseAfterDispose,
    /// The computations that still have to run wait for each other.
    CyclicDependency,
}

/// A lifetime boundary: every node is created in one scope and disposed
/// with it.
#[derive(Clone, Copy, PartialEq, Eq, Structural, Debug)]
pub struct ScopeId {
    pub id: u64,
}

/// The right to read a cell or a memo.
#[derive(Clone, Copy, PartialEq, Eq, Structural, Debug)]
pub struct ReadHandle {
    pub node: NodeId,
}

/// The right to write a cell.
#[derive(Clone, Copy, PartialEq, Eq, Structural, Debug)]
pub struct WriteHandle {
    pub node: NodeId,
}

/// One tracked read: the node that was read and the value it gave.
#[derive(Clone, Copy, PartialEq, Eq, Structural, Debug)]
pub struct Read {
    pub node: NodeId,
    pub value: i64,
}

/// What the scheduler found to do next.
#[derive(Clone, Copy, PartialEq, Eq, Structural, Debug)]
pub enum Step {
    /// Every computation is up to date.
    Idle,
    /// This computation has to run now; everything it reads has settled.
    Run(NodeId),
    /// This computation was only suspected of being out of date; nothing it
    /// reads changed, so it was marked up to date without running.
    Settled(NodeId),
}

/// How the run of a computation was taken in.
#[derive(Clone, Copy, PartialEq, Eq, Structural, Debug)]
pub enum Outcome {
    /// The run was recorded and the node's value changed.
    Changed,
    /// The run was recorded; the value is what it was before.
    Unchanged,
    /// The run read something that had not settled or has moved since; its
    /// reads were recorded, its result was dropped, and it has to run again.
    Stale,
    /// The node was not waiting for a run; nothing was recorded.
    NotDue,
}

} // verus!
