use std::io::Read;

use flate2::read::DeflateDecoder;
use paraflate::blocks::BlockSpan;
use paraflate::dictionary::GlobalModel;
use paraflate::engine::DeflateEngine;
use paraflate::error::ParaflateError;
use paraflate::ids::{BlockId, EntryId};
use paraflate::index::{IndexBuildConfig, PatternIndex};
use paraflate::lz77::Lz77Config;
use paraflate::plan::BlockPlanner;
use paraflate::profile::{CompressionProfile, ExecutionPolicy};

fn inflate(enc: &[u8]) -> Vec<u8> {
    let mut dec = DeflateDecoder::new(enc);
    let mut out = Vec::new();
    dec.read_to_end(&mut out).unwrap();
    out
}

fn corpus() -> Vec<u8> {
    let mut v = Vec::new();
    for i in 0..120_000u32 {
        v.push(b"lorem ipsum dolor sit amet "[(i % 27) as usize] ^ ((i / 5000) as u8 & 1));
    }
    v
}

#[test]
fn span_jobs_refuse_spans_past_the_data() {
    let data = vec![1u8; 100];
    let index = PatternIndex::empty();
    let span = BlockSpan { entry: EntryId(0), offset: 90, len: 11, block: BlockId(0) };
    match DeflateEngine::lz77_span_job(&data, &span, 0, &Lz77Config::default(), &index) {
        Err(ParaflateError::InvariantViolated(m)) => assert_eq!(m, "span bounds"),
        Err(other) => panic!("unexpected {:?}", other),
        Ok(_) => panic!("span past the data accepted"),
    }
}

#[test]
fn parts_in_any_order_make_the_entry_stream() {
    let data = corpus();
    let mut policy = ExecutionPolicy::default();
    policy.min_block_bytes = 1024;
    let mut model = GlobalModel::default();
    model.suggested_block_bytes = 30_000;
    let plan = BlockPlanner::plan_entry(EntryId(0), data.len() as u64, &policy, &model);
    assert_eq!(plan.spans.len(), 4);
    let pairs: [(u32, &[u8]); 1] = [(0, &data)];
    let index = PatternIndex::build(&pairs, &IndexBuildConfig::default());
    let mut parts = Vec::new();
    for span in plan.spans.iter().rev() {
        let p = DeflateEngine::lz77_span_job(&data, span, 0, &Lz77Config::default(), &index).unwrap();
        assert_eq!(p.block, span.block);
        parts.push(p);
    }
    for global_huffman in [false, true] {
        let profile = CompressionProfile { global_huffman, ..CompressionProfile::default() };
        let enc = DeflateEngine::encode_parts(&parts, &profile).unwrap();
        assert_eq!(inflate(&enc), data);
    }
}

#[test]
fn no_parts_make_an_empty_stream() {
    let enc = DeflateEngine::encode_parts(&[], &CompressionProfile::default()).unwrap();
    assert_eq!(inflate(&enc), Vec::<u8>::new());
}
