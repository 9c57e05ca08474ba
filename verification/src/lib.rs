//! A fine-grained reactive graph.
//!
//! Cells hold values; memos and effects are computations that read cells
//! and memos. The graph records which nodes each computation read when it
//! last ran, and when cells are written it works out which computations
//! have to run again, and in which order, so that none of them ever sees a
//! value that is about to change.
//!
//! The graph does not hold the code of the computations. A run is made by
//! whoever holds that code: it reads through [`runtime::Runtime::read_tracked`]
//! with a [`runtime::ReadLog`], and hands the log and the result back. So
//! every read names the run it belongs to, and nothing is registered behind
//! anyone's back.
//!
//! - [`handle`]: handles and the small value types;
//! - [`model`]: the mathematical model that the contracts speak of;
//! - [`runtime`]: the arena, cells, reads and writes;
//! - [`evaluate`]: creating computations and taking in their runs;
//! - [`batch`]: the end of a batch and the order of the runs after it;
//! - [`dispose`]: disposal of scopes;
//! - [`host`]: the loop that runs a whole batch;
//! - [`word`]: values of other types in the cells;
//! - [`keyed`]: lists of rows matched by key;
//! - [`preserve`], [`coherence`], [`reach`], [`cycles`], [`laws`],
//!   [`keyed_laws`]: what is proved of all this;
//! - [`counters`], [`demo`]: what the views of a small demo application
//!   compute.

pub mod batch;
pub mod coherence;
pub mod counters;
pub mod cycles;
pub mod demo;
pub mod dispose;
pub mod evaluate;
pub mod handle;
pub mod host;
pub mod keyed;
pub mod keyed_laws;
pub mod laws;
pub mod model;
pub mod preserve;
pub mod reach;
pub mod runtime;
pub mod word;
