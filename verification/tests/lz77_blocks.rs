use paraflate::index::{IndexBuildConfig, PatternIndex};
use paraflate::lz77::{compress_block, Lz77BlockParams, Lz77Config, Lz77Token};
use paraflate::tables::{distance_code, length_code};

fn decode(prefix: &[u8], tokens: &[Lz77Token]) -> Vec<u8> {
    let mut out = prefix.to_vec();
    for t in tokens {
        match *t {
            Lz77Token::Literal(b) => out.push(b),
            Lz77Token::Match { length, distance } => {
                for _ in 0..length {
                    let b = out[out.len() - distance as usize];
                    out.push(b);
                }
            }
        }
    }
    out
}

#[test]
fn repeated_run_emits_matches() {
    let buf = vec![b'x'; 512];
    let params = Lz77BlockParams {
        entry: 0,
        entry_rel_base: 0,
        emit_start: 0,
        emit_end: buf.len(),
    };
    let cfg = Lz77Config {
        max_chain: 512,
        nice_match: 258,
    };
    let o = compress_block(&buf, &params, &cfg, None);
    assert!(o
        .tokens
        .iter()
        .any(|t| matches!(t, Lz77Token::Match { .. })));
}

#[test]
fn unique_bytes_are_literals_only() {
    let buf: Vec<u8> = (0u16..200).map(|x| x as u8).collect();
    let params = Lz77BlockParams {
        entry: 1,
        entry_rel_base: 0,
        emit_start: 0,
        emit_end: buf.len(),
    };
    let o = compress_block(&buf, &params, &Lz77Config::default(), None);
    assert!(o.tokens.iter().all(|t| matches!(t, Lz77Token::Literal(_))));
}

#[test]
fn tokens_decode_back_to_the_block() {
    let mut buf = Vec::new();
    for i in 0..3000u32 {
        buf.push(b"abcabcabd"[(i % 9) as usize]);
        if i % 97 == 0 {
            buf.push((i % 251) as u8);
        }
    }
    let params = Lz77BlockParams { entry: 0, entry_rel_base: 0, emit_start: 0, emit_end: buf.len() };
    let o = compress_block(&buf, &params, &Lz77Config::default(), None);
    assert_eq!(decode(&[], &o.tokens), buf);
    let matches = o.tokens.iter().filter(|t| matches!(t, Lz77Token::Match { .. })).count() as u32;
    assert_eq!(o.matches_from_window + o.matches_from_index, matches);
}

#[test]
fn tokens_after_an_overlap_prefix_decode_the_emitted_part() {
    let text = b"the quick brown fox jumps over the lazy dog; the quick brown fox again".repeat(5);
    let params = Lz77BlockParams { entry: 0, entry_rel_base: 100, emit_start: 40, emit_end: text.len() };
    let o = compress_block(&text, &params, &Lz77Config::default(), None);
    assert_eq!(decode(&text[..40], &o.tokens), text);
}

#[test]
fn empty_emit_range_gives_no_tokens() {
    let buf = vec![1u8, 2, 3, 4];
    let params = Lz77BlockParams { entry: 0, entry_rel_base: 0, emit_start: 3, emit_end: 3 };
    assert!(compress_block(&buf, &params, &Lz77Config::default(), None).tokens.is_empty());
    let params = Lz77BlockParams { entry: 0, entry_rel_base: 0, emit_start: 0, emit_end: 0 };
    assert!(compress_block(&[], &params, &Lz77Config::default(), None).tokens.is_empty());
}

#[test]
fn index_matches_still_decode() {
    let data: Vec<u8> = b"shared payload xyz\n".repeat(200);
    let entries: [(u32, &[u8]); 1] = [(0, &data)];
    let index = PatternIndex::build(&entries, &IndexBuildConfig::default());
    let params = Lz77BlockParams { entry: 0, entry_rel_base: 0, emit_start: 0, emit_end: data.len() };
    let o = compress_block(&data, &params, &Lz77Config::default(), Some(&index));
    assert_eq!(decode(&[], &o.tokens), data);
}

#[test]
fn length_and_distance_symbols() {
    assert_eq!(length_code(3), (257, 0));
    assert_eq!(length_code(10), (264, 0));
    assert_eq!(length_code(11), (265, 1));
    assert_eq!(length_code(257), (284, 5));
    assert_eq!(length_code(258), (285, 0));
    assert_eq!(distance_code(1), (0, 0));
    assert_eq!(distance_code(5), (4, 1));
    assert_eq!(distance_code(32768), (29, 13));
}

#[test]
fn history_prefix_gives_one_back_reference() {
    let buf = b"abcabc".to_vec();
    let params = Lz77BlockParams { entry: 0, entry_rel_base: 0, emit_start: 3, emit_end: 6 };
    let o = compress_block(&buf, &params, &Lz77Config::default(), None);
    assert_eq!(o.tokens, vec![Lz77Token::Match { length: 3, distance: 3 }]);
    assert_eq!(o.matches_from_window, 1);
    assert_eq!(o.matches_from_index, 0);
}

#[test]
fn a_run_copies_over_itself() {
    let buf = vec![b'x'; 512];
    let params = Lz77BlockParams { entry: 0, entry_rel_base: 0, emit_start: 0, emit_end: buf.len() };
    let cfg = Lz77Config { max_chain: 512, nice_match: 258 };
    let o = compress_block(&buf, &params, &cfg, None);
    assert_eq!(o.tokens[0], Lz77Token::Literal(b'x'));
    assert_eq!(o.tokens[1], Lz77Token::Match { length: 258, distance: 1 });
    assert_eq!(decode(&[], &o.tokens), buf);
    assert_eq!(o.matches_from_index, 0);
}

#[test]
fn index_keeps_stride_aligned_offsets() {
    let data: Vec<u8> = b"abc".repeat(20);
    let entries: [(u32, &[u8]); 1] = [(0, &data)];
    let cfg = IndexBuildConfig { min_match: 3, stride: 4, max_chain: 96 };
    let index = PatternIndex::build(&entries, &cfg);
    // "abc" starts at 0, 12 and 24 among the multiples of 4 before 30; the oldest reaches furthest.
    assert_eq!(index.scan_global(0, 30, 0, &data, 30, 32768, 3), Some((30, 30)));
}

#[test]
fn index_keeps_only_the_newest_offsets() {
    let data: Vec<u8> = b"abc".repeat(20);
    let entries: [(u32, &[u8]); 1] = [(0, &data)];
    let cfg = IndexBuildConfig { min_match: 3, stride: 4, max_chain: 1 };
    let index = PatternIndex::build(&entries, &cfg);
    // Only the newest aligned "abc" (offset 48) is kept; from position 30 it lies ahead.
    assert_eq!(index.scan_global(0, 30, 0, &data, 30, 32768, 3), None);
    assert_eq!(index.scan_global(0, 54, 0, &data, 54, 32768, 3), Some((6, 6)));
}
