use paraflate::blocks::{BlockSpan, ChunkPlan};
use paraflate::dictionary::GlobalModel;
use paraflate::ids::{BlockId, EntryId};
use paraflate::plan::BlockPlanner;
use paraflate::profile::ExecutionPolicy;

fn assert_tiles(plan: &ChunkPlan, entry: EntryId, size: u64) {
    assert_eq!(plan.entry, entry);
    let mut off = 0u64;
    for (i, s) in plan.spans.iter().enumerate() {
        assert_eq!(s.entry, entry);
        assert_eq!(s.block, BlockId(i as u64));
        assert_eq!(s.offset, off);
        assert!(s.len >= 1);
        off += s.len;
    }
    assert_eq!(off, size);
}

fn model_with_block(bytes: usize) -> GlobalModel {
    let mut m = GlobalModel::default();
    m.suggested_block_bytes = bytes;
    m
}

#[test]
fn plan_entry_cuts_blocks_of_the_model_size() {
    let policy = ExecutionPolicy::default();
    let plan = BlockPlanner::plan_entry(EntryId(3), 100_000, &policy, &model_with_block(40_000));
    assert_tiles(&plan, EntryId(3), 100_000);
    let lens: Vec<u64> = plan.spans.iter().map(|s| s.len).collect();
    assert_eq!(lens, vec![40_000, 40_000, 20_000]);
}

#[test]
fn plan_entry_raises_small_blocks_to_the_minimum() {
    let policy = ExecutionPolicy::default();
    let plan = BlockPlanner::plan_entry(EntryId(0), 70_000, &policy, &model_with_block(10));
    let lens: Vec<u64> = plan.spans.iter().map(|s| s.len).collect();
    assert_eq!(lens, vec![32_768, 32_768, 70_000 - 65_536]);
}

#[test]
fn empty_entry_has_no_blocks() {
    let policy = ExecutionPolicy::default();
    let plan = BlockPlanner::plan_entry(EntryId(1), 0, &policy, &GlobalModel::default());
    assert!(plan.spans.is_empty());
}

#[test]
fn target_block_overrides_the_model_within_bounds() {
    let policy = ExecutionPolicy::default();
    let never = |_a: u64, b: u64, _c: u64| b;
    let plan = BlockPlanner::plan_entry_with_data_predictive(
        EntryId(0), None, 5_000_000, &policy, &GlobalModel::default(), Some(u64::MAX), &never);
    assert_tiles(&plan, EntryId(0), 5_000_000);
    assert_eq!(plan.spans[0].len, 4 * 1024 * 1024);
    let plan = BlockPlanner::plan_entry_with_data_predictive(
        EntryId(0), None, 100_000, &policy, &GlobalModel::default(), Some(50_000), &never);
    let lens: Vec<u64> = plan.spans.iter().map(|s| s.len).collect();
    assert_eq!(lens, vec![50_000, 50_000]);
}

#[test]
fn splitter_proposals_stay_inside_the_entry() {
    let policy = ExecutionPolicy::default();
    let data = vec![7u8; 300_000];
    let model = model_with_block(100_000);
    for proposal in [0u64, 1, u64::MAX] {
        let split = move |a: u64, _b: u64, _c: u64| a.saturating_add(proposal);
        let plan = BlockPlanner::plan_entry_with_data(EntryId(2), Some(&data), 300_000, &policy, &model, &split);
        assert_tiles(&plan, EntryId(2), 300_000);
    }
}

#[test]
fn splitter_is_used_only_with_the_whole_entry_at_hand() {
    let policy = ExecutionPolicy::default();
    let short = vec![0u8; 10];
    let model = model_with_block(100_000);
    let split = |a: u64, _b: u64, _c: u64| a + 33_000;
    let plan = BlockPlanner::plan_entry_with_data(EntryId(2), Some(&short), 300_000, &policy, &model, &split);
    let lens: Vec<u64> = plan.spans.iter().map(|s| s.len).collect();
    assert_eq!(lens, vec![100_000, 100_000, 100_000]);
    let data = vec![0u8; 300_000];
    let plan = BlockPlanner::plan_entry_with_data(EntryId(2), Some(&data), 300_000, &policy, &model, &split);
    assert_eq!(plan.spans[0], BlockSpan { entry: EntryId(2), offset: 0, len: 33_000, block: BlockId(0) });
}

#[test]
fn splitter_proposals_are_kept_between_the_minimum_and_the_cap() {
    let policy = ExecutionPolicy::default();
    let data = vec![7u8; 300_000];
    let model = model_with_block(100_000);
    for proposal in [0u64, 1, u64::MAX] {
        let split = move |a: u64, _b: u64, _c: u64| a.saturating_add(proposal);
        let plan = BlockPlanner::plan_entry_with_data(EntryId(2), Some(&data), 300_000, &policy, &model, &split);
        let n = plan.spans.len();
        for (i, s) in plan.spans.iter().enumerate() {
            assert!(s.len <= policy.max_block_bytes as u64);
            if i + 1 < n {
                assert!(s.len >= policy.min_block_bytes as u64);
            }
        }
    }
}
