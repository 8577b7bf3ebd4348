//! Task graphs for the compression pipeline, and the descriptions of pooled work.
use std::collections::BTreeMap;
use std::sync::Arc;
use vstd::prelude::*;

use crate::std_num::saturating_mul_usize;

use crate::blocks::{BlockSpan, CompressionTaskKind, TaskGraph, TaskNode};
use crate::ids::{EntryId, TaskId};

verus! {

#[derive(Clone, Copy, Debug, PartialEq, Eq, Structural)]
pub struct WorkerPoolConfig {
    pub worker_threads: usize,
    pub queue_depth: usize,
}

impl WorkerPoolConfig {
    /// The default pool for a machine offering `available` parallel threads (`None` when
    /// unknown): that many workers (4 when unknown, at least 2), eight queue slots per worker,
    /// at least 64.
    pub fn from_parallelism(available: Option<usize>) -> (r: Self)
        ensures
            r.worker_threads == crate::profile::worker_threads_for(available),
            r.queue_depth == if crate::profile::sat_mul(r.worker_threads, 8) < 64 {
                64
            } else {
                crate::profile::sat_mul(r.worker_threads, 8)
            },
    {
        let threads: usize = match available {
            Some(n) => if n < 2 {
                2
            } else {
                n
            },
            None => 4,
        };
        let q = saturating_mul_usize(threads, 8);
        WorkerPoolConfig {
            worker_threads: threads,
            queue_depth: if q < 64 {
                64
            } else {
                q
            },
        }
    }
}

/// One span of one entry, handed to a worker.
#[derive(Clone, Debug)]
pub struct CompressionWork {
    pub job_key: u64,
    pub entry: EntryId,
    pub data: Arc<Vec<u8>>,
    pub span: BlockSpan,
}

/// The workers' results, by job key.
pub struct PoolOutcome<R> {
    pub results: BTreeMap<u64, R>,
}

/// `x + k`, or `u64::MAX` when it does not fit.
pub open spec fn sat_add_u64(x: u64, k: int) -> u64 {
    if x + k > u64::MAX {
        u64::MAX
    } else {
        (x + k) as u64
    }
}

/// The kind of the `k`-th task (0..4) of an entry's pipeline.
pub open spec fn stage_kind(k: int) -> CompressionTaskKind {
    if k == 0 {
        CompressionTaskKind::ReadEntry
    } else if k == 1 {
        CompressionTaskKind::AnalyzeEntry
    } else if k == 2 {
        CompressionTaskKind::CompressBlock
    } else {
        CompressionTaskKind::WriteEntry
    }
}

/// Task `i` of a linear pipeline numbered from `first` over `entries`: four tasks per entry
/// (read, analyze, compress, write), each depending on the one before it, the first of an entry
/// on the last of the entry before.
pub open spec fn pipeline_node(first: u64, entries: Seq<EntryId>, i: int, node: TaskNode) -> bool {
    let e = i / 4;
    let k = i % 4;
    &&& node.id == TaskId(sat_add_u64(first, i))
    &&& node.kind == stage_kind(k)
    &&& node.entry == Some(entries[e])
    &&& node.block.is_none()
    &&& node.depends_on@ == if i == 0 {
        Seq::<TaskId>::empty()
    } else {
        seq![TaskId(sat_add_u64(first, i - 1))]
    }
}

pub struct TaskGraphBuilder {
    next_task: u64,
}

impl TaskGraphBuilder {
    /// The identifier the next task gets.
    pub closed spec fn next(&self) -> u64 {
        self.next_task
    }

    pub fn new() -> (r: Self)
        ensures
            r.next() == 0,
    {
        TaskGraphBuilder { next_task: 0 }
    }

    fn alloc_task(&mut self) -> (id: TaskId)
        ensures
            id == TaskId(old(self).next()),
            final(self).next() == sat_add_u64(old(self).next(), 1),
    {
        let id = TaskId(self.next_task);
        self.next_task = self.next_task.saturating_add(1);
        id
    }

    /// Four tasks per entry, in order: read, analyze, compress and write, each depending on the
    /// task before it; identifiers are allocated consecutively from the builder's counter.
    pub fn linear_pipeline(&mut self, entries: &[EntryId]) -> (g: TaskGraph)
        ensures
            g.nodes.len() == 4 * entries.len(),
            forall|i: int|
                0 <= i < g.nodes.len() ==> pipeline_node(old(self).next(), entries@, i, #[trigger] g.nodes@[i]),
            final(self).next() == sat_add_u64(old(self).next(), 4 * entries.len()),
    {
        let ghost first = self.next_task;
        let mut nodes: Vec<TaskNode> = Vec::new();
        let mut prev: Option<TaskId> = None;
        let mut e = 0usize;
        while e < entries.len()
            invariant
                e <= entries.len(),
                nodes.len() == 4 * e,
                self.next() == sat_add_u64(first, 4 * e),
                e == 0 ==> prev.is_none(),
                e > 0 ==> prev == Some(TaskId(sat_add_u64(first, 4 * e - 1))),
                forall|i: int| 0 <= i < nodes.len() ==> pipeline_node(first, entries@, i, #[trigger] nodes@[i]),
            decreases entries.len() - e,
        {
            let entry = entries[e];
            let ghost base = 4 * e as int;
            let read = self.alloc_task();
            let mut depends: Vec<TaskId> = Vec::new();
            if let Some(p) = prev {
                depends.push(p);
            }
            let ghost d0 = depends@;
            nodes.push(TaskNode {
                id: read,
                kind: CompressionTaskKind::ReadEntry,
                entry: Some(entry),
                block: None,
                depends_on: depends,
            });
            let analyze = self.alloc_task();
            nodes.push(TaskNode {
                id: analyze,
                kind: CompressionTaskKind::AnalyzeEntry,
                entry: Some(entry),
                block: None,
                depends_on: vec![read],
            });
            let compress = self.alloc_task();
            nodes.push(TaskNode {
                id: compress,
                kind: CompressionTaskKind::CompressBlock,
                entry: Some(entry),
                block: None,
                depends_on: vec![analyze],
            });
            let write = self.alloc_task();
            nodes.push(TaskNode {
                id: write,
                kind: CompressionTaskKind::WriteEntry,
                entry: Some(entry),
                block: None,
                depends_on: vec![compress],
            });
            prev = Some(write);
            proof {
                assert forall|i: int| 0 <= i < nodes.len() implies pipeline_node(first, entries@, i, #[trigger] nodes@[i]) by {
                    if i >= base {
                        let k = i - base;
                        assert(i / 4 == e) by {
                            assert(base == 4 * e);
                        }
                        assert(i % 4 == k) by {
                            assert(base == 4 * e);
                        }
                        if k == 0 {
                            if e == 0 {
                                assert(d0 =~= Seq::<TaskId>::empty());
                            } else {
                                assert(d0 =~= seq![TaskId(sat_add_u64(first, i - 1))]);
                            }
                        } else {
                            assert(nodes@[i].depends_on@ =~= seq![TaskId(sat_add_u64(first, i - 1))]);
                        }
                    }
                }
            }
            e = e + 1;
        }
        TaskGraph { nodes }
    }
}

impl Default for TaskGraphBuilder {
    fn default() -> (r: Self)
        ensures
            r.next() == 0,
    {
        Self::new()
    }
}

/// Identifiers of a pipeline built from a fresh enough counter increase by one per task: each
/// task's identifier is its position added to the starting counter.
pub proof fn lemma_pipeline_ids_consecutive(first: u64, entries: Seq<EntryId>, g: TaskGraph)
    requires
        g.nodes.len() == 4 * entries.len(),
        forall|i: int| 0 <= i < g.nodes.len() ==> pipeline_node(first, entries, i, #[trigger] g.nodes@[i]),
        first + 4 * entries.len() <= u64::MAX,
    ensures
        forall|i: int, j: int| 0 <= i < j < g.nodes.len() ==> g.nodes@[i].id.0 < g.nodes@[j].id.0,
        forall|i: int| 0 <= i < g.nodes.len() ==> (#[trigger] g.nodes@[i]).id.0 == first + i,
{
    assert forall|i: int| 0 <= i < g.nodes.len() implies (#[trigger] g.nodes@[i]).id.0 == first + i by {
        assert(pipeline_node(first, entries, i, g.nodes@[i]));
    }
    assert forall|i: int, j: int| 0 <= i < j < g.nodes.len() implies g.nodes@[i].id.0 < g.nodes@[j].id.0 by {
        assert(g.nodes@[i].id.0 == first + i);
        assert(g.nodes@[j].id.0 == first + j);
    }
}

} // verus!
