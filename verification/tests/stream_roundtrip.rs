use std::io::Read;

use flate2::read::DeflateDecoder;
use paraflate::bit_writer::BitWriter;
use paraflate::dynamic_block::{
    build_dynamic_trees, count_block_freq, encode_dynamic_block, encode_dynamic_block_fresh,
};
use paraflate::engine::{DeflateEngine, DeflateEngineConfig};
use paraflate::lz77::{compress_block, Lz77BlockParams, Lz77Config, Lz77Token};
use paraflate::profile::{CompressionMethod, CompressionProfile, DeflateStrategy};
use paraflate::stream::{encode_deflate_blocks, encode_one_deflate_block, DeflateEncodeOptions};

fn lz77_tokens(buf: &[u8]) -> Vec<Lz77Token> {
    let params = Lz77BlockParams {
        entry: 0,
        entry_rel_base: 0,
        emit_start: 0,
        emit_end: buf.len(),
    };
    compress_block(buf, &params, &Lz77Config::default(), None).tokens
}

fn inflate(enc: &[u8]) -> Vec<u8> {
    let mut dec = DeflateDecoder::new(enc);
    let mut out = Vec::new();
    dec.read_to_end(&mut out).unwrap();
    out
}

#[test]
fn dynamic_deflate_roundtrips_with_flate2() {
    let buf: Vec<u8> = (0u16..6000).map(|i| (i % 251) as u8).collect();
    let toks = lz77_tokens(&buf);
    let enc = encode_deflate_blocks(
        &[toks],
        DeflateStrategy::Default,
        &DeflateEncodeOptions::default(),
    )
    .unwrap();
    let mut dec = DeflateDecoder::new(&enc[..]);
    let mut out = Vec::new();
    dec.read_to_end(&mut out).unwrap();
    assert_eq!(out, buf);
}

#[test]
fn multi_block_global_huffman_roundtrips() {
    let a = vec![b'x'; 2000];
    let b = vec![b'y'; 2000];
    let t0 = lz77_tokens(&a);
    let t1 = lz77_tokens(&b);
    let enc = encode_deflate_blocks(
        &[t0, t1],
        DeflateStrategy::Default,
        &DeflateEncodeOptions {
            global_huffman: true,
        },
    )
    .unwrap();
    let mut dec = DeflateDecoder::new(&enc[..]);
    let mut out = Vec::new();
    dec.read_to_end(&mut out).unwrap();
    let mut expect = a;
    expect.extend_from_slice(&b);
    assert_eq!(out, expect);
}

#[test]
fn fixed_strategy_roundtrips_over_several_blocks() {
    let a = b"hello hello hello world".repeat(40);
    let b: Vec<u8> = (0..700u32).map(|i| (i * 7 % 256) as u8).collect();
    let enc = encode_deflate_blocks(
        &[lz77_tokens(&a), lz77_tokens(&b)],
        DeflateStrategy::Fixed,
        &DeflateEncodeOptions::default(),
    )
    .unwrap();
    let mut expect = a.clone();
    expect.extend_from_slice(&b);
    assert_eq!(inflate(&enc), expect);
}

#[test]
fn separate_dynamic_blocks_roundtrip() {
    let a = b"abcdefgh".repeat(300);
    let b = b"0123456789".repeat(300);
    let c = vec![0u8; 10];
    let enc = encode_deflate_blocks(
        &[lz77_tokens(&a), lz77_tokens(&b), lz77_tokens(&c)],
        DeflateStrategy::Default,
        &DeflateEncodeOptions::default(),
    )
    .unwrap();
    let mut expect = a.clone();
    expect.extend_from_slice(&b);
    expect.extend_from_slice(&c);
    assert_eq!(inflate(&enc), expect);
}

#[test]
fn empty_stream_inflates_to_nothing() {
    for strategy in [DeflateStrategy::Default, DeflateStrategy::Fixed] {
        let enc = encode_deflate_blocks(&[], strategy, &DeflateEncodeOptions::default()).unwrap();
        assert_eq!(inflate(&enc), Vec::<u8>::new());
        let enc = encode_deflate_blocks(&[Vec::new()], strategy, &DeflateEncodeOptions { global_huffman: true }).unwrap();
        assert_eq!(inflate(&enc), Vec::<u8>::new());
    }
}

#[test]
fn single_final_block_roundtrips() {
    let data = b"one block, final, fixed and dynamic".repeat(20);
    for strategy in [DeflateStrategy::Default, DeflateStrategy::Fixed] {
        let enc = encode_one_deflate_block(&lz77_tokens(&data), strategy, &DeflateEncodeOptions::default(), true).unwrap();
        assert_eq!(inflate(&enc), data);
    }
}

fn profile(method: CompressionMethod, strategy: DeflateStrategy, global_huffman: bool) -> CompressionProfile {
    CompressionProfile { method, level: 6, strategy, window_bits: 15, global_huffman }
}

#[test]
fn raw_compression_roundtrips_and_checksums() {
    let data = b"123456789".to_vec();
    let engine = DeflateEngine::new(DeflateEngineConfig { profile: CompressionProfile::default() });
    let out = engine.compress_bytes_raw(&data, &|_a: u64, soft: u64, _c: u64| soft).unwrap();
    assert_eq!(out.crc32, 0xCBF4_3926);
    assert_eq!(out.uncompressed_size, 9);
    assert_eq!(inflate(&out.compressed), data);
}

#[test]
fn raw_compression_of_a_large_input_with_adaptive_splits() {
    let mut data = Vec::new();
    for i in 0..300_000u32 {
        data.push(if i < 150_000 { b'a' + (i % 3) as u8 } else { (i.wrapping_mul(2654435761) >> 24) as u8 });
    }
    for (strategy, global) in [(DeflateStrategy::Default, false), (DeflateStrategy::Default, true), (DeflateStrategy::Fixed, false)] {
        let engine = DeflateEngine::new(DeflateEngineConfig { profile: profile(CompressionMethod::Deflate, strategy, global) });
        // A splitter that proposes odd ends: the planner keeps every block inside the entry.
        let out = engine.compress_bytes_raw(&data, &|a: u64, _soft: u64, _c: u64| a + 40_000).unwrap();
        assert_eq!(out.crc32, crc32fast::hash(&data));
        assert_eq!(inflate(&out.compressed), data);
    }
}

#[test]
fn stored_profile_keeps_the_bytes() {
    let data = b"stored bytes".to_vec();
    let engine = DeflateEngine::new(DeflateEngineConfig { profile: profile(CompressionMethod::Stored, DeflateStrategy::Default, false) });
    let out = engine.compress_bytes_raw(&data, &|_a: u64, soft: u64, _c: u64| soft).unwrap();
    assert_eq!(out.compressed, data);
    assert_eq!(out.crc32, crc32fast::hash(&data));
}

fn crc32_bitwise(data: &[u8]) -> u32 {
    let mut c: u32 = 0xFFFF_FFFF;
    for &b in data {
        c ^= b as u32;
        for _ in 0..8 {
            c = if c & 1 == 1 { (c >> 1) ^ 0xEDB8_8320 } else { c >> 1 };
        }
    }
    c ^ 0xFFFF_FFFF
}

#[test]
fn checksum_is_the_bitwise_crc32() {
    let engine = DeflateEngine::new(DeflateEngineConfig { profile: CompressionProfile::default() });
    for data in [b"".to_vec(), b"a".to_vec(), b"123456789".to_vec(), (0u32..5000).map(|i| (i * 7 % 251) as u8).collect()] {
        let out = engine.compress_bytes_raw(&data, &|_a: u64, soft: u64, _c: u64| soft).unwrap();
        assert_eq!(out.crc32, crc32_bitwise(&data));
    }
    assert_eq!(crc32_bitwise(b"a"), 0xE8B7_BE43);
}

#[test]
fn fresh_dynamic_block_matches_explicit_trees() {
    let buf: Vec<u8> = b"abracadabra, abracadabra; the cat sat on the mat, the cat sat".repeat(40);
    let toks = lz77_tokens(&buf);
    let mut w1 = BitWriter::with_capacity(0);
    encode_dynamic_block_fresh(&mut w1, &toks, true).unwrap();
    let (lf, df) = count_block_freq(&toks);
    let trees = build_dynamic_trees(&lf, &df).unwrap();
    let mut w2 = BitWriter::with_capacity(0);
    encode_dynamic_block(&mut w2, &toks, &trees, true).unwrap();
    let a = w1.finish();
    let b = w2.finish();
    assert_eq!(a, b);
    assert_eq!(inflate(&a), buf);
}
