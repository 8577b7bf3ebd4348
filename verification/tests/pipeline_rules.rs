use std::io::Read;
use std::path::PathBuf;

use flate2::read::DeflateDecoder;
use paraflate::blocks::ArchiveEntryDescriptor;
use paraflate::dictionary::{GlobalModel, SamplePlan};
use paraflate::engine::{DeflateEngine, DeflateEngineConfig, DeflateOutput, EntryCompressHints};
use paraflate::error::ParaflateError;
use paraflate::ids::EntryId;
use paraflate::index::{IndexBuildConfig, PatternIndex};
use paraflate::pipeline::{
    local_header_payload_bounds, match_dominance, merge_profile_fixed_deflate, merge_profile_stored,
    should_retry_compression, ArchiveSession, CreateArchiveParams,
};
use paraflate::plan::BlockPlanner;
use paraflate::profile::{
    ArchiveLayout, ArchiveProfile, CompressionMethod, CompressionProfile, DeflateStrategy,
    ExecutionPolicy,
};

fn entry(id: u32, name: &str, size: u64) -> ArchiveEntryDescriptor {
    ArchiveEntryDescriptor {
        id: EntryId(id),
        path: PathBuf::from(name),
        logical_name: name.to_string(),
        uncompressed_size: size,
        is_directory: false,
    }
}

fn inflate(enc: &[u8]) -> Vec<u8> {
    let mut dec = DeflateDecoder::new(enc);
    let mut out = Vec::new();
    dec.read_to_end(&mut out).unwrap();
    out
}

#[test]
fn retryable_errors() {
    assert!(should_retry_compression(&ParaflateError::CompressionFailed("x".into())));
    assert!(should_retry_compression(&ParaflateError::InvariantViolated("x".into())));
    assert!(should_retry_compression(&ParaflateError::SchedulerShutdown));
    assert!(should_retry_compression(&ParaflateError::WorkerJoin));
    assert!(!should_retry_compression(&ParaflateError::EmptyArchive));
    assert!(!should_retry_compression(&ParaflateError::ZipStructure("x".into())));
    assert!(!should_retry_compression(&ParaflateError::UnsupportedInput("x".into())));
}

#[test]
fn fallback_profiles() {
    let base = CompressionProfile {
        method: CompressionMethod::Deflate,
        level: 9,
        strategy: DeflateStrategy::Rle,
        window_bits: 12,
        global_huffman: true,
    };
    let fixed = merge_profile_fixed_deflate(&base);
    assert_eq!(fixed, CompressionProfile { strategy: DeflateStrategy::Fixed, global_huffman: false, ..base });
    let stored = merge_profile_stored(&base);
    assert_eq!(stored, CompressionProfile { method: CompressionMethod::Stored, ..base });
}

#[test]
fn payload_bounds() {
    let data = vec![0u8; 100];
    assert_eq!(local_header_payload_bounds(&data, 10, 5, 3, 40).unwrap(), (48, 88));
    assert_eq!(local_header_payload_bounds(&data, 10, 5, 3, 52).unwrap(), (48, 100));
    match local_header_payload_bounds(&data, 10, 5, 3, 53) {
        Err(ParaflateError::ArchiveConsistency(m)) => assert_eq!(m, "local entry payload out of range"),
        other => panic!("unexpected {:?}", other),
    }
    assert!(local_header_payload_bounds(&data, u64::MAX, 0, 0, 0).is_err());
}

#[test]
fn layout_by_name_and_by_size() {
    let mut profile = ArchiveProfile::from_parallelism(Some(2));
    let mut entries = vec![entry(9, "b", 1), entry(8, "c", 3), entry(7, "a", 2), entry(6, "d", 3)];
    ArchiveSession::apply_layout(&mut entries, &profile);
    let names: Vec<&str> = entries.iter().map(|e| e.logical_name.as_str()).collect();
    assert_eq!(names, vec!["a", "b", "c", "d"]);
    assert!(entries.iter().enumerate().all(|(i, e)| e.id == EntryId(i as u32)));
    profile.layout = ArchiveLayout::SizeDescending;
    ArchiveSession::apply_layout(&mut entries, &profile);
    let names: Vec<&str> = entries.iter().map(|e| e.logical_name.as_str()).collect();
    assert_eq!(names, vec!["c", "d", "a", "b"]);
    assert!(entries.iter().enumerate().all(|(i, e)| e.id == EntryId(i as u32)));
}

#[test]
fn scan_totals_and_empty_archives() {
    assert!(matches!(ArchiveSession::scan_totals(&[]), Err(ParaflateError::EmptyArchive)));
    let entries = vec![entry(0, "a", 5), entry(1, "b", u64::MAX)];
    assert_eq!(ArchiveSession::scan_totals(&entries).unwrap(), (2, u64::MAX));
    assert_eq!(ArchiveSession::scan_totals(&entries[..1]).unwrap(), (1, 5));
}

#[test]
fn small_archives_use_the_default_model() {
    assert!(!ArchiveSession::wants_samples(64 * 1024 - 1));
    assert!(ArchiveSession::wants_samples(64 * 1024));
    let policy = ExecutionPolicy::default();
    let plan = SamplePlan::from_policy(&policy);
    let entries = vec![entry(0, "a", 100)];
    let samples = vec![(0usize, b"text".to_vec())];
    let small = ArchiveSession::archive_model(&entries, &samples, &policy, &plan, 100);
    assert_eq!(small.summary.entry_count, 0);
    assert_eq!(small.suggested_block_bytes, 256 * 1024);
    let large = ArchiveSession::archive_model(&entries, &samples, &policy, &plan, 1 << 20);
    assert_eq!(large.summary.entry_count, 1);
    assert_eq!(large.summary.text_mass, 4);
}

fn compress(profile: CompressionProfile, e: &ArchiveEntryDescriptor, data: &[u8]) -> Result<DeflateOutput, ParaflateError> {
    let engine = DeflateEngine::new(DeflateEngineConfig { profile });
    let policy = ExecutionPolicy::default();
    let model = GlobalModel::default();
    let plan = BlockPlanner::plan_entry(e.id, e.uncompressed_size, &policy, &model);
    let pairs: [(u32, &[u8]); 1] = [(e.id.0, data)];
    let index = PatternIndex::build(&pairs, &IndexBuildConfig::default());
    let hints = EntryCompressHints { profile, lz77_max_chain: None, lz77_nice_match: None };
    ArchiveSession::compress_with_fallback(&engine, e, data, &plan, &model, &index, &hints)
}

#[test]
fn compress_with_fallback_refuses_a_size_mismatch() {
    let data = b"abc".to_vec();
    let e = entry(0, "a", 4);
    match compress(CompressionProfile::default(), &e, &data) {
        Err(ParaflateError::InvariantViolated(m)) => assert_eq!(m, "entry size mismatch"),
        Err(other) => panic!("unexpected {:?}", other),
        Ok(_) => panic!("accepted a size mismatch"),
    }
}

#[test]
fn compress_with_fallback_succeeds_on_consistent_entries() {
    let data = b"some text some text some text".repeat(100);
    let e = entry(0, "a", data.len() as u64);
    let out = compress(CompressionProfile::default(), &e, &data).unwrap();
    assert_eq!(inflate(&out.compressed), data);
    assert_eq!(out.crc32, crc32fast::hash(&data));
    assert_eq!(out.uncompressed_size, data.len() as u64);
    let stored = compress(CompressionProfile { method: CompressionMethod::Stored, ..CompressionProfile::default() }, &e, &data).unwrap();
    assert_eq!(stored.compressed, data);
    let stats = ArchiveSession::entry_stats(&e, &stored);
    assert!(stats.stored_effective);
    assert_eq!(stats.compressed_size, data.len() as u64);
    let stats = ArchiveSession::entry_stats(&e, &out);
    assert!(!stats.stored_effective);
    assert_eq!(stats.entry_id, 0);
}

#[test]
fn create_archive_params_builders() {
    let p = CreateArchiveParams::new(PathBuf::from("in"), PathBuf::from("out.zip"), ArchiveProfile::from_parallelism(None));
    assert!(!p.debug_blocks && !p.collect_entry_stats);
    let p = p.with_debug(true).with_entry_stats(true);
    assert!(p.debug_blocks && p.collect_entry_stats);
    assert_eq!(p.input_root, PathBuf::from("in"));
}

#[test]
fn match_dominance_tolerates_twelve_percent() {
    assert_eq!(match_dominance(100, 100), "balanced");
    assert_eq!(match_dominance(100, 112), "balanced");
    assert_eq!(match_dominance(100, 114), "index-dominant");
    assert_eq!(match_dominance(0, 0), "balanced");
    assert_eq!(match_dominance(50, 0), "window-dominant");
    assert_eq!(match_dominance(0, 1), "index-dominant");
}
