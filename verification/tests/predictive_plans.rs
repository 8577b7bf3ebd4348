use paraflate::ids::EntryId;
use paraflate::predictive::{build_entry_compress_hints, EntryCompressionPlan, PredictiveArchivePlan};
use paraflate::profile::{
    ArchiveProfile, CompressionMethod, DeflateStrategy, PredictedDeflatePath, PredictiveMode,
};

fn sample_plan(entry_id: EntryId, target_block_bytes: u64) -> EntryCompressionPlan {
    EntryCompressionPlan {
        entry_id,
        recommended_stored: false,
        deflate_path: PredictedDeflatePath::Auto,
        target_block_bytes,
        use_global_huffman: false,
    }
}

#[test]
fn for_entry_uses_dense_index_when_available() {
    let plan = PredictiveArchivePlan {
        entries: vec![
            sample_plan(EntryId(0), 64 * 1024),
            sample_plan(EntryId(1), 128 * 1024),
        ],
    };

    assert_eq!(
        plan.for_entry(EntryId(1)).map(|entry| entry.target_block_bytes),
        Some(128 * 1024)
    );
}

#[test]
fn for_entry_falls_back_for_sparse_vectors() {
    let plan = PredictiveArchivePlan {
        entries: vec![sample_plan(EntryId(7), 512 * 1024)],
    };

    assert_eq!(
        plan.for_entry(EntryId(7)).map(|entry| entry.target_block_bytes),
        Some(512 * 1024)
    );
    assert!(plan.for_entry(EntryId(3)).is_none());
}

#[test]
fn for_entry_prefers_the_first_match_when_out_of_place() {
    let plan = PredictiveArchivePlan {
        entries: vec![sample_plan(EntryId(5), 1), sample_plan(EntryId(2), 2), sample_plan(EntryId(2), 3)],
    };
    // Index 2 holds a plan of entry 2: that one wins.
    assert_eq!(plan.for_entry(EntryId(2)).map(|e| e.target_block_bytes), Some(3));
    // Index 5 is out of range: the first plan of entry 5 is found by search.
    assert_eq!(plan.for_entry(EntryId(5)).map(|e| e.target_block_bytes), Some(1));
    let shuffled = PredictiveArchivePlan {
        entries: vec![sample_plan(EntryId(1), 10), sample_plan(EntryId(0), 20), sample_plan(EntryId(0), 30)],
    };
    assert_eq!(shuffled.for_entry(EntryId(0)).map(|e| e.target_block_bytes), Some(20));
    assert!(PredictiveArchivePlan::empty().for_entry(EntryId(0)).is_none());
}

#[test]
fn hints_without_predictions_keep_the_archive_profile() {
    let archive = ArchiveProfile::from_parallelism(Some(4));
    let ep = EntryCompressionPlan { recommended_stored: true, ..sample_plan(EntryId(0), 1) };
    let h = build_entry_compress_hints(&archive, Some(&ep), 300, 100);
    assert_eq!(h.profile, archive.compression);
    assert_eq!(h.lz77_max_chain, None);
    let mut on = archive;
    on.predictive.mode = PredictiveMode::Standard;
    let h = build_entry_compress_hints(&on, None, 300, 100);
    assert_eq!(h.profile, archive.compression);
    assert_eq!(h.lz77_nice_match, None);
}

#[test]
fn hints_follow_the_plan() {
    let mut archive = ArchiveProfile::from_parallelism(Some(4));
    archive.predictive.mode = PredictiveMode::Aggressive;
    let stored = EntryCompressionPlan { recommended_stored: true, use_global_huffman: true, ..sample_plan(EntryId(0), 1) };
    let h = build_entry_compress_hints(&archive, Some(&stored), 300, 100);
    assert_eq!(h.profile.method, CompressionMethod::Stored);
    assert!(!h.profile.global_huffman);
    assert_eq!(h.lz77_max_chain, Some(300));
    assert_eq!(h.lz77_nice_match, Some(100));
    let fixed = EntryCompressionPlan { deflate_path: PredictedDeflatePath::Fixed, use_global_huffman: true, ..sample_plan(EntryId(0), 1) };
    let h = build_entry_compress_hints(&archive, Some(&fixed), 32, 16);
    assert_eq!(h.profile.method, CompressionMethod::Deflate);
    assert_eq!(h.profile.strategy, DeflateStrategy::Fixed);
    assert!(h.profile.global_huffman);
    let dynamic = EntryCompressionPlan { deflate_path: PredictedDeflatePath::Dynamic, ..sample_plan(EntryId(0), 1) };
    archive.compression.strategy = DeflateStrategy::Filtered;
    let h = build_entry_compress_hints(&archive, Some(&dynamic), 32, 16);
    assert_eq!(h.profile.strategy, DeflateStrategy::Default);
    let auto = sample_plan(EntryId(0), 1);
    let h = build_entry_compress_hints(&archive, Some(&auto), 32, 16);
    assert_eq!(h.profile.strategy, DeflateStrategy::Filtered);
}
