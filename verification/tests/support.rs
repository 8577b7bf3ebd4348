use std::path::PathBuf;

use paraflate::blocks::ArchiveEntryDescriptor;
use paraflate::buffers::BufferPoolConfig;
use paraflate::error::ParaflateError;
use paraflate::harness::{build_profile, high_entropy, manifest_file, xorshift};
use paraflate::ids::EntryId;
use paraflate::io::{DirectoryScanner, FileReadPlan, FileReader};
use paraflate::profile::build_profile as cli_profile;
use paraflate::profile::{
    ArchiveLayout, CompressionMethod, PlanningAggression, PredictiveMode, SchedulerPolicy,
    VerificationMode,
};

#[test]
fn xorshift_steps() {
    assert_eq!(xorshift(1), 0x4082_2041);
    assert_eq!(xorshift(0xDEAD_BEEF), 0x37c5_9ca7_bf06_be52);
    assert_eq!(xorshift(0), 0);
}

#[test]
fn high_entropy_bytes_are_reproducible() {
    assert_eq!(high_entropy(6, 0x55AA), vec![0, 107, 228, 255, 30, 43]);
    assert_eq!(high_entropy(4, 1), vec![0, 0, 30, 118]);
    assert!(high_entropy(0, 7).is_empty());
    assert_eq!(high_entropy(1000, 9), high_entropy(1000, 9));
}

#[test]
fn manifest_lines_carry_the_sha256() {
    let m = manifest_file("dir/abc.txt".to_string(), b"abc");
    assert_eq!(m.path, "dir/abc.txt");
    assert_eq!(m.bytes, 3);
    assert_eq!(m.sha256_hex, "ba7816bf8f01cfea414140de5dae2223b00361a396177a9cb410ff61f20015ad");
    let e = manifest_file(String::new(), b"");
    assert_eq!(e.sha256_hex, "e3b0c44298fc1c149afbf4c8996fb92427ae41e4649b934ca495991b7852b855");
}

#[test]
fn harness_profiles() {
    let p = build_profile(
        9,
        3,
        PredictiveMode::Standard,
        VerificationMode::Strict,
        true,
        true,
        SchedulerPolicy::Balanced,
        PlanningAggression::Aggressive,
        Some(16),
    );
    assert_eq!(p.layout, ArchiveLayout::DeterministicLexical);
    assert_eq!(p.compression.level, 9);
    assert!(p.compression.global_huffman);
    assert!(p.execution.adaptive_block_feedback);
    assert_eq!(p.budget.worker_threads, 3);
    assert_eq!(p.budget.io_lane_count, 3);
    assert_eq!(p.predictive.mode, PredictiveMode::Standard);
    let q = build_profile(6, 0, PredictiveMode::Off, VerificationMode::Off, false, false, SchedulerPolicy::Balanced, PlanningAggression::Safe, Some(16));
    assert_eq!(q.budget.worker_threads, 16);
}

#[test]
fn hidden_names_and_logical_names() {
    assert!(DirectoryScanner::is_hidden(".git"));
    assert!(!DirectoryScanner::is_hidden("a.txt"));
    assert!(!DirectoryScanner::is_hidden(""));
    assert_eq!(DirectoryScanner::logical_name("", "a.txt"), "a.txt");
    assert_eq!(DirectoryScanner::logical_name("x/y", "ü.txt"), "x/y/ü.txt");
}

fn entry(id: u32, name: &str, size: u64) -> ArchiveEntryDescriptor {
    ArchiveEntryDescriptor {
        id: EntryId(id),
        path: PathBuf::from(name),
        logical_name: name.to_string(),
        uncompressed_size: size,
        is_directory: false,
    }
}

#[test]
fn finished_scans_are_in_name_order() {
    let out = DirectoryScanner::finish_scan(vec![entry(0, "sub/b", 1), entry(1, "a", 2), entry(2, "sub/a", 3)]);
    let names: Vec<&str> = out.entries.iter().map(|e| e.logical_name.as_str()).collect();
    assert_eq!(names, vec!["a", "sub/a", "sub/b"]);
    assert!(out.entries.iter().enumerate().all(|(i, e)| e.id == EntryId(i as u32)));
    let s = DirectoryScanner::new(PathBuf::from("/data"));
    assert_eq!(s.root(), &PathBuf::from("/data"));
}

#[test]
fn read_plans() {
    let r = FileReader::new(FileReadPlan::default());
    assert!(r.prefers_mmap(4 * 1024 * 1024));
    assert!(!r.prefers_mmap(4 * 1024 * 1024 - 1));
    assert_eq!(r.scratch_len(), 1024 * 1024);
    let small = FileReader::new(FileReadPlan { prefer_mmap_bytes: 0, chunk_bytes: 10 });
    assert_eq!(small.scratch_len(), 4096);
    assert_eq!(small.plan(), FileReadPlan { prefer_mmap_bytes: 0, chunk_bytes: 10 });
}

#[test]
fn buffer_pool_rules() {
    let c = BufferPoolConfig::default();
    assert!(c.validate().is_ok());
    assert_eq!(c.fresh_capacity(), 1024 * 1024);
    assert!(c.recycles(63, 1024 * 1024));
    assert!(!c.recycles(64, 1024 * 1024));
    assert!(!c.recycles(0, 1024));
    match (BufferPoolConfig { buffer_len: 0, max_buffers: 4 }).validate() {
        Err(ParaflateError::InvariantViolated(m)) => assert_eq!(m, "buffer pool dimensions"),
        other => panic!("unexpected {:?}", other),
    }
    assert!((BufferPoolConfig { buffer_len: 8, max_buffers: 0 }).validate().is_err());
    assert_eq!((BufferPoolConfig { buffer_len: 8, max_buffers: 1 }).fresh_capacity(), 4096);
}

#[test]
fn verification_errors_name_their_entry() {
    match ParaflateError::verification("crc mismatch".to_string(), Some("a.txt".to_string())) {
        ParaflateError::VerificationFailed { message, entry } => {
            assert_eq!(message, "crc mismatch");
            assert_eq!(entry.as_deref(), Some("a.txt"));
        }
        other => panic!("unexpected {:?}", other),
    }
}

#[test]
fn command_line_profiles() {
    let p = cli_profile(
        9,
        true,
        0,
        ArchiveLayout::SizeDescending,
        SchedulerPolicy::ThroughputBiased,
        PredictiveMode::Off,
        VerificationMode::AfterWrite,
        PlanningAggression::Safe,
        false,
        Some(6),
    );
    assert_eq!(p.compression.method, CompressionMethod::Stored);
    assert_eq!(p.compression.level, 9);
    assert_eq!(p.layout, ArchiveLayout::SizeDescending);
    assert_eq!(p.execution.scheduler, SchedulerPolicy::ThroughputBiased);
    assert_eq!(p.budget.worker_threads, 6);
    assert_eq!(p.predictive.verification, VerificationMode::AfterWrite);
    let q = cli_profile(
        6,
        false,
        20,
        ArchiveLayout::DeterministicLexical,
        SchedulerPolicy::Balanced,
        PredictiveMode::Standard,
        VerificationMode::Off,
        PlanningAggression::Balanced,
        true,
        None,
    );
    assert_eq!(q.compression.method, CompressionMethod::Deflate);
    assert!(q.compression.global_huffman);
    assert_eq!((q.budget.worker_threads, q.budget.pipeline_depth, q.budget.io_lane_count, q.budget.max_pending_tasks), (20, 40, 8, 640));
    assert_eq!(q.budget.memory.read_chunk_bytes, 1024 * 1024);
}
