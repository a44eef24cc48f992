//! A small command-line task list: tasks are kept in memory as a vector,
//! mutated by a handful of commands, and persisted between runs as a
//! pretty-printed JSON array of records.
//!
//! `task` holds the record and its mathematical view; `ops` the five
//! commands over the in-memory list, with exact contracts; `json` the
//! on-disk grammar and rendering as spec functions, with the round-trip
//! theorem; `codec` the verified encoder and parser against them.

use vstd::prelude::*;

pub mod codec;
pub mod json;
pub mod ops;
pub mod task;

verus! {

} // verus!
