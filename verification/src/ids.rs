//! Identifiers of archive entries, blocks and tasks.
use vstd::prelude::*;

verus! {

/// An archive entry, numbered in archive order.
#[derive(Clone, Copy, Debug, PartialEq, Eq, Structural, Hash)]
pub struct EntryId(pub u32);

/// A block of an entry, numbered from 0 within the entry.
#[derive(Clone, Copy, Debug, PartialEq, Eq, Structural, Hash)]
pub struct BlockId(pub u64);

/// A task of a task graph, numbered in allocation order.
#[derive(Clone, Copy, Debug, PartialEq, Eq, Structural, Hash)]
pub struct TaskId(pub u64);

} // verus!
