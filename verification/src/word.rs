//! Values of other types in the cells of the graph. A cell holds one
//! 64-bit word; a type whose values can be told apart by such a word can
//! be kept in a cell, read from it and written to it as itself.

use vstd::prelude::*;
use crate::handle::{EngineError, Kind, Outcome, Read, ReadHandle, ScopeId, WriteHandle};
use crate::runtime::{ReadLog, Runtime};

verus! {

/// A type whose values fit in a word.
pub trait Word: Sized {
    /// The word that stands for the value.
    spec fn word(self) -> i64;

    /// The value that the word stands for, if it stands for one.
    spec fn unword(w: i64) -> Option<Self>;

    /// A value's word stands for that value.
    proof fn lemma_round_trip(x: Self)
        ensures
            Self::unword(x.word()) == Some(x),
    ;

    /// The word that stands for the value.
    fn to_word(&self) -> (w: i64)
        ensures
            w == self.word(),
    ;

    /// The value that the word stands for, if it stands for one.
    fn from_word(w: i64) -> (value: Option<Self>)
        ensures
            value == Self::unword(w),
    ;
}

impl Word for i64 {
    open spec fn word(self) -> i64 {
        self
    }

    open spec fn unword(w: i64) -> Option<i64> {
        Some(w)
    }

    proof fn lemma_round_trip(x: i64) {
    }

    fn to_word(&self) -> (w: i64) {
        *self
    }

    fn from_word(w: i64) -> (value: Option<i64>) {
        Some(w)
    }
}

impl Word for i32 {
    open spec fn word(self) -> i64 {
        self as i64
    }

    open spec fn unword(w: i64) -> Option<i32> {
        if i32::MIN <= w <= i32::MAX {
            Some(w as i32)
        } else {
            None
        }
    }

    proof fn lemma_round_trip(x: i32) {
    }

    fn to_word(&self) -> (w: i64) {
        *self as i64
    }

    fn from_word(w: i64) -> (value: Option<i32>) {
        if w >= -2147483648 && w <= 2147483647 {
            Some(w as i32)
        } else {
            None
        }
    }
}

impl Word for bool {
    open spec fn word(self) -> i64 {
        if self {
            1
        } else {
            0
        }
    }

    open spec fn unword(w: i64) -> Option<bool> {
        if w == 0 {
            Some(false)
        } else if w == 1 {
            Some(true)
        } else {
            None
        }
    }

    proof fn lemma_round_trip(x: bool) {
    }

    fn to_word(&self) -> (w: i64) {
        if *self {
            1
        } else {
            0
        }
    }

    fn from_word(w: i64) -> (value: Option<bool>) {
        if w == 0 {
            Some(false)
        } else if w == 1 {
            Some(true)
        } else {
            None
        }
    }
}

/// A number or the lack of one, as a parse gives it: the number stands
/// for itself, and the smallest word stands for the lack of one.
impl Word for Option<i32> {
    open spec fn word(self) -> i64 {
        match self {
            Some(number) => number as i64,
            None => i64::MIN,
        }
    }

    open spec fn unword(w: i64) -> Option<Option<i32>> {
        if i32::MIN <= w <= i32::MAX {
            Some(Some(w as i32))
        } else if w == i64::MIN {
            Some(None)
        } else {
            None
        }
    }

    proof fn lemma_round_trip(x: Option<i32>) {
    }

    fn to_word(&self) -> (w: i64) {
        match *self {
            Some(number) => number as i64,
            None => i64::MIN,
        }
    }

    fn from_word(w: i64) -> (value: Option<Option<i32>>) {
        if w >= -2147483648 && w <= 2147483647 {
            Some(Some(w as i32))
        } else if w == i64::MIN {
            Some(None)
        } else {
            None
        }
    }
}

impl Runtime {
    /// Creates a cell that holds `initial`.
    pub fn create_cell_of<T: Word>(&mut self, scope: ScopeId, initial: T) -> (handles: (
        ReadHandle,
        WriteHandle,
    ))
        requires
            old(self).wf(),
            old(self)@.next_index() < usize::MAX,
        ensures
            final(self).wf(),
            handles.0.node == old(self)@.next_id(),
            handles.1.node == old(self)@.next_id(),
            final(self)@ == old(self)@.create_cell(scope.id, initial.word()),
    {
        self.create_cell(scope, initial.to_word())
    }

    /// The value of a cell or memo as a `T`, read without being tracked:
    /// none if the node holds a word that stands for no `T`.
    pub fn read_of<T: Word>(&self, handle: ReadHandle) -> (result: Result<Option<T>, EngineError>)
        ensures
            self@.readable(handle.node) ==> result == Ok::<Option<T>, EngineError>(
                T::unword(self@.slots[handle.node.index as int].value),
            ),
            !self@.readable(handle.node) ==> result == Err::<Option<T>, EngineError>(
                EngineError::UseAfterDispose,
            ),
    {
        match self.read(handle) {
            Ok(w) => Ok(T::from_word(w)),
            Err(e) => Err(e),
        }
    }

    /// Reads a cell or memo as a `T` for a running computation and logs
    /// the read.
    pub fn read_tracked_of<T: Word>(&self, log: &mut ReadLog, handle: ReadHandle) -> (result: Result<
        Option<T>,
        EngineError,
    >)
        ensures
            self@.readable(handle.node) ==> result == Ok::<Option<T>, EngineError>(
                T::unword(self@.slots[handle.node.index as int].value),
            ) && final(log)@ == old(log)@.push(
                Read { node: handle.node, value: self@.slots[handle.node.index as int].value },
            ),
            !self@.readable(handle.node) ==> result == Err::<Option<T>, EngineError>(
                EngineError::UseAfterDispose,
            ) && final(log)@ == old(log)@,
    {
        match self.read_tracked(log, handle) {
            Ok(w) => Ok(T::from_word(w)),
            Err(e) => Err(e),
        }
    }

    /// Stores `value` in the cell.
    pub fn write_of<T: Word>(&mut self, handle: WriteHandle, value: T) -> (result: Result<
        (),
        EngineError,
    >)
        requires
            old(self).wf(),
        ensures
            final(self).wf(),
            old(self)@.writable(handle.node) ==> result is Ok && final(self)@ == old(self)@.write(
                handle.node.index as int,
                value.word(),
            ),
            !old(self)@.writable(handle.node) ==> result == Err::<(), EngineError>(
                EngineError::UseAfterDispose,
            ) && final(self)@ == old(self)@,
    {
        self.write(handle, value.to_word())
    }

    /// Creates a memo from its first run: `log` holds what the run read,
    /// `value` is what it computed.
    pub fn create_memo_of<T: Word>(&mut self, scope: ScopeId, log: &ReadLog, value: T) -> (handle:
        ReadHandle)
        requires
            old(self).wf(),
            old(self)@.next_index() < usize::MAX,
        ensures
            final(self).wf(),
            handle.node == old(self)@.next_id(),
            final(self)@ == old(self)@.create_computation(Kind::Memo, scope.id, log@, value.word()),
    {
        self.create_memo(scope, log, value.to_word())
    }

    /// Takes in a run of the memo: `log` holds what the run read, `value`
    /// is what it computed.
    pub fn finish_memo_of<T: Word>(&mut self, memo: ReadHandle, log: &ReadLog, value: T) -> (result:
        Result<Outcome, EngineError>)
        requires
            old(self).wf(),
        ensures
            final(self).wf(),
            !old(self)@.live(memo.node) ==> result == Err::<Outcome, EngineError>(
                EngineError::UseAfterDispose,
            ) && final(self)@ == old(self)@,
            old(self)@.live(memo.node) && !old(self)@.due(memo.node, Kind::Memo) ==> result == Ok::<
                Outcome,
                EngineError,
            >(Outcome::NotDue) && final(self)@ == old(self)@,
            old(self)@.due(memo.node, Kind::Memo) ==> final(self)@ == old(self)@.commit(
                memo.node.index as int,
                log@,
                value.word(),
            ) && result == Ok::<Outcome, EngineError>(
                old(self)@.outcome(memo.node.index as int, log@, value.word()),
            ),
    {
        self.finish_memo(memo, log, value.to_word())
    }
}

} // verus!
