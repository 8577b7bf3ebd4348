use std::collections::HashMap;
use std::path::PathBuf;

use paraflate::blocks::{ArchiveEntryDescriptor, ByteClassHistogram, GlobalStatisticsSummary};
use paraflate::dictionary::{GlobalAnalyzer, GlobalModel, SamplePlan};
use paraflate::ids::EntryId;
use paraflate::profile::ExecutionPolicy;

fn entry(id: u32, name: &str, size: u64) -> ArchiveEntryDescriptor {
    ArchiveEntryDescriptor {
        id: EntryId(id),
        path: PathBuf::from(name),
        logical_name: name.to_string(),
        uncompressed_size: size,
        is_directory: false,
    }
}

#[test]
fn block_size_clamps() {
    let policy = ExecutionPolicy::default();
    let plan = SamplePlan::from_policy(&policy);
    let summary = GlobalStatisticsSummary::default();
    let b = GlobalAnalyzer::block_size(&summary, &policy, &plan, 4);
    assert!(b >= policy.min_block_bytes);
    assert!(b <= policy.max_block_bytes);
}

#[test]
fn block_size_of_small_files_is_a_quarter_of_the_base() {
    let policy = ExecutionPolicy::default();
    let plan = SamplePlan::from_policy(&policy);
    let summary = GlobalStatisticsSummary::default();
    assert_eq!(GlobalAnalyzer::block_size(&summary, &policy, &plan, 4), 64 * 1024);
}

#[test]
fn block_size_of_large_text_files_doubles_the_base() {
    let policy = ExecutionPolicy::default();
    let plan = SamplePlan::from_policy(&policy);
    let mut summary = GlobalStatisticsSummary::default();
    summary.mean_entry_bytes = 10 * 1024 * 1024;
    summary.text_mass = 10;
    assert_eq!(GlobalAnalyzer::block_size(&summary, &policy, &plan, 1), 512 * 1024);
    // Spread over many entries, never under the minimum.
    assert_eq!(GlobalAnalyzer::block_size(&summary, &policy, &plan, 1000), policy.min_block_bytes);
}

#[test]
fn sample_plan_from_the_default_policy() {
    let policy = ExecutionPolicy::default();
    let plan = SamplePlan::from_policy(&policy);
    assert_eq!(plan.max_bytes_per_entry, 256 * 1024);
    assert_eq!(plan.stride, 20);
    assert_eq!(plan.window_for_entry(0), 0);
    assert_eq!(plan.window_for_entry(1000), 1000);
    assert_eq!(plan.window_for_entry(10 * 1024 * 1024), 256 * 1024);
    let mut slow = policy;
    slow.sample_rate_ppm = 0;
    assert_eq!(SamplePlan::from_policy(&slow).stride, 10_000);
    slow.sample_rate_ppm = 5_000_000;
    assert_eq!(SamplePlan::from_policy(&slow).stride, 1);
}

#[test]
fn hash64_mixes_byte_and_position() {
    assert_eq!(GlobalAnalyzer::hash64(0, 0), 0);
    assert_eq!(GlobalAnalyzer::hash64(65, 3), 0x164e_8dd8_3cd4_721b);
    assert_eq!(GlobalAnalyzer::hash64(255, 1000), 0x71e3_ad9b_40b2_fc6c);
}

#[test]
fn digest_counts_byte_classes() {
    let mut hist = ByteClassHistogram::default();
    let mut rolling: HashMap<u64, u32> = HashMap::new();
    let mut text = 0u64;
    let mut dup = 0u64;
    GlobalAnalyzer::digest_bytes(b"ab\0\xff\n", &mut hist, &mut rolling, &mut text, &mut dup);
    assert_eq!(hist.zero, 1);
    assert_eq!(hist.ascii_text, 3);
    assert_eq!(hist.high_entropy, 1);
    assert_eq!(text, 3);
    assert_eq!(rolling.len(), 5);
    assert!(rolling.values().all(|&c| c == 1));
    // Counting the same sample again doubles every pattern's count.
    GlobalAnalyzer::digest_bytes(b"ab\0\xff\n", &mut hist, &mut rolling, &mut text, &mut dup);
    assert_eq!(hist.ascii_text, 6);
    assert!(rolling.values().all(|&c| c == 2));
}

#[test]
fn digest_saturates_the_counters() {
    let mut hist = ByteClassHistogram { zero: u64::MAX, ascii_text: 0, high_entropy: 0, duplicate_window_hits: 0 };
    let mut rolling: HashMap<u64, u32> = HashMap::new();
    rolling.insert(GlobalAnalyzer::hash64(0, 0), u32::MAX);
    let mut text = 0u64;
    let mut dup = 0u64;
    GlobalAnalyzer::digest_bytes(&[0], &mut hist, &mut rolling, &mut text, &mut dup);
    assert_eq!(hist.zero, u64::MAX);
    assert_eq!(rolling[&0], u32::MAX);
}

#[test]
fn analyze_text_archive() {
    let entries = vec![entry(0, "b.txt", 10), entry(1, "a.txt", 30)];
    let samples = vec![(0usize, b"hello\n".to_vec()), (1usize, b"hello\n".to_vec())];
    let policy = ExecutionPolicy::default();
    let plan = SamplePlan::from_policy(&policy);
    let m = GlobalAnalyzer::analyze(&entries, &samples, &policy, &plan);
    assert_eq!(m.summary.total_uncompressed, 40);
    assert_eq!(m.summary.entry_count, 2);
    assert_eq!(m.summary.mean_entry_bytes, 20);
    assert_eq!(m.summary.text_mass, 12);
    assert_eq!(m.summary.histogram.ascii_text, 12);
    assert_eq!(m.summary.duplicate_mass, 0);
    assert_eq!(m.summary.top_patterns.len(), 6);
    assert!(m.summary.top_patterns.iter().all(|p| p.1 == 2));
    assert_eq!(m.suggested_order, vec![1, 0]);
    assert_eq!(m.lz77_max_chain, 64);
    assert_eq!(m.lz77_nice_match, 64);
    assert_eq!(m.index_stride, 2);
    assert_eq!(m.suggested_block_bytes, 64 * 1024);
}

#[test]
fn analyze_keeps_at_most_32_patterns_most_frequent_first() {
    let entries = vec![entry(0, "x", 100)];
    let mut long = vec![b'q'; 50];
    long.extend_from_slice(b"zz");
    let samples = vec![(0usize, long.clone()), (0usize, long[..10].to_vec())];
    let policy = ExecutionPolicy::default();
    let plan = SamplePlan::from_policy(&policy);
    let m = GlobalAnalyzer::analyze(&entries, &samples, &policy, &plan);
    assert_eq!(m.summary.top_patterns.len(), 32);
    assert!(m.summary.top_patterns[..10].iter().all(|p| p.1 == 2));
    assert!(m.summary.top_patterns[10..].iter().all(|p| p.1 == 1));
}

#[test]
fn analyze_with_no_entries() {
    let policy = ExecutionPolicy::default();
    let plan = SamplePlan::from_policy(&policy);
    let m = GlobalAnalyzer::analyze(&[], &[], &policy, &plan);
    assert_eq!(m.summary.entry_count, 0);
    assert_eq!(m.summary.mean_entry_bytes, 0);
    assert!(m.suggested_order.is_empty());
    assert!(m.summary.top_patterns.is_empty());
}

#[test]
fn order_puts_largest_first_when_duplicates_dominate() {
    let entries = vec![entry(0, "a", 5), entry(1, "b", 50), entry(2, "c", 5), entry(3, "d", 20)];
    let mut summary = GlobalStatisticsSummary::default();
    summary.duplicate_mass = 3;
    summary.text_mass = 1;
    assert_eq!(GlobalAnalyzer::order(&entries, &summary), vec![1, 3, 0, 2]);
    summary.duplicate_mass = 0;
    let by_name = vec![entry(0, "zeta", 5), entry(1, "alpha", 50), entry(2, "Beta", 5)];
    assert_eq!(GlobalAnalyzer::order(&by_name, &summary), vec![2, 1, 0]);
}

#[test]
fn default_model() {
    let m = GlobalModel::default();
    assert_eq!(m.suggested_block_bytes, 256 * 1024);
    assert_eq!(m.lz77_max_chain, 128);
    assert_eq!(m.lz77_nice_match, 128);
    assert_eq!(m.index_stride, 1);
    assert!(m.suggested_order.is_empty());
}
