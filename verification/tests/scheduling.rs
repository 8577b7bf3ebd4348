use paraflate::blocks::CompressionTaskKind;
use paraflate::ids::{EntryId, TaskId};
use paraflate::profile::{ArchiveProfile, ExecutionBudget};
use paraflate::scheduler::{TaskGraphBuilder, WorkerPoolConfig};

#[test]
fn task_graph_builder_monotonic_ids() {
    let mut b = TaskGraphBuilder::new();
    let g = b.linear_pipeline(&[paraflate::ids::EntryId(0), paraflate::ids::EntryId(1)]);
    assert_eq!(g.nodes.len(), 8);
}

#[test]
fn pipeline_tasks_are_chained_in_order() {
    let mut b = TaskGraphBuilder::new();
    let g = b.linear_pipeline(&[EntryId(4), EntryId(9)]);
    let kinds = [
        CompressionTaskKind::ReadEntry,
        CompressionTaskKind::AnalyzeEntry,
        CompressionTaskKind::CompressBlock,
        CompressionTaskKind::WriteEntry,
    ];
    for (i, n) in g.nodes.iter().enumerate() {
        assert_eq!(n.id, TaskId(i as u64));
        assert_eq!(n.kind, kinds[i % 4]);
        assert_eq!(n.entry, Some(if i < 4 { EntryId(4) } else { EntryId(9) }));
        assert!(n.block.is_none());
        if i == 0 {
            assert!(n.depends_on.is_empty());
        } else {
            assert_eq!(n.depends_on, vec![TaskId(i as u64 - 1)]);
        }
    }
    // A second pipeline continues the numbering, as a chain of its own.
    let g2 = b.linear_pipeline(&[EntryId(1)]);
    assert_eq!(g2.nodes[0].id, TaskId(8));
    assert!(g2.nodes[0].depends_on.is_empty());
    assert_eq!(g2.nodes[3].depends_on, vec![TaskId(10)]);
    assert!(b.linear_pipeline(&[]).nodes.is_empty());
}

#[test]
fn worker_pool_sizes() {
    let c = WorkerPoolConfig::from_parallelism(Some(16));
    assert_eq!((c.worker_threads, c.queue_depth), (16, 128));
    let c = WorkerPoolConfig::from_parallelism(Some(1));
    assert_eq!((c.worker_threads, c.queue_depth), (2, 64));
    let c = WorkerPoolConfig::from_parallelism(None);
    assert_eq!((c.worker_threads, c.queue_depth), (4, 64));
}

#[test]
fn execution_budget_follows_the_thread_count() {
    let b = ExecutionBudget::from_parallelism(Some(12));
    assert_eq!(b.worker_threads, 12);
    assert_eq!(b.pipeline_depth, 24);
    assert_eq!(b.io_lane_count, 8);
    assert_eq!(b.max_pending_tasks, 384);
    let b = ExecutionBudget::from_parallelism(None);
    assert_eq!((b.worker_threads, b.pipeline_depth, b.io_lane_count, b.max_pending_tasks), (4, 8, 4, 128));
    let p = ArchiveProfile::from_parallelism(Some(3));
    assert_eq!(p.budget.worker_threads, 3);
    assert_eq!(p.execution.sample_rate_ppm, 50_000);
}
