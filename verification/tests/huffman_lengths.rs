use paraflate::dynamic::length_limited_lengths;
use paraflate::dynamic_block::{build_dynamic_trees, count_block_freq};
use paraflate::lz77::{compress_block, Lz77BlockParams, Lz77Config};
use paraflate::huffman::{canonical_codes, reverse_bits};
use paraflate::pm::{package_merge, PmError};

#[test]
fn pm_smoke() {
    let f = [1u64, 32, 16, 4, 8, 2, 1];
    let cl = package_merge(&f, 8).unwrap();
    assert_eq!(&cl[..], &[6, 1, 2, 4, 3, 5, 6]);
}

#[test]
fn length_limited_smoke() {
    let f = vec![1u64, 3, 3, 3, 3, 3, 3, 3, 3, 3, 3, 3, 3, 3, 3, 3, 3, 3, 3];
    let l = length_limited_lengths(&f, 7).unwrap();
    assert_eq!(l.len(), f.len());
    assert!(l.iter().all(|&x| x <= 7));
}

fn kraft_sum_scaled(lengths: &[u32], max_len: u32) -> u64 {
    lengths.iter().map(|&l| 1u64 << (max_len - l)).sum()
}

#[test]
fn package_merge_lengths_satisfy_kraft_and_limit() {
    let f = [5u64, 1, 1, 1, 1, 1, 1, 1, 1, 1, 1, 1, 1, 1, 1, 40];
    let lens = package_merge(&f, 5).unwrap();
    assert_eq!(lens.len(), f.len());
    assert!(lens.iter().all(|&l| l >= 1 && l <= 5));
    assert!(kraft_sum_scaled(&lens, 5) <= 1u64 << 5);
    // The most frequent symbol never gets a longer code than a rarer one.
    assert!(lens[15] <= lens[0]);
    assert!(lens[0] <= lens[1]);
}

#[test]
fn package_merge_two_symbols_get_one_bit_each() {
    assert_eq!(package_merge(&[7, 3], 15).unwrap(), vec![1, 1]);
}

#[test]
fn package_merge_errors() {
    assert_eq!(package_merge(&[], 8), Err(PmError::NoSymbols));
    assert_eq!(package_merge(&[1, 1, 1, 1, 1], 2), Err(PmError::MaxLenTooSmall));
    assert_eq!(package_merge(&[1, 1], 40), Err(PmError::MaxLenTooLarge));
    assert_eq!(length_limited_lengths(&[], 7), Err(PmError::NoSymbols));
}

#[test]
fn length_limited_lengths_match_package_merge() {
    let f = [1u64, 32, 16, 4, 8, 2, 1];
    assert_eq!(length_limited_lengths(&f, 8).unwrap(), vec![6u8, 1, 2, 4, 3, 5, 6]);
}

#[test]
fn canonical_codes_are_bit_reversed_canonical() {
    let codes = canonical_codes(&[2, 1, 3, 3, 0], 3);
    assert_eq!(codes, vec![(1, 2), (0, 1), (3, 3), (7, 3), (0, 0)]);
}

#[test]
fn reverse_bits_reverses_the_low_bits() {
    assert_eq!(reverse_bits(0b110, 3), 0b011);
    assert_eq!(reverse_bits(0b1, 5), 0b10000);
    assert_eq!(reverse_bits(0, 0), 0);
}

#[test]
fn dynamic_trees_fit_in_the_code_space() {
    let data = b"abracadabra, abracadabra! the quick brown fox".repeat(30);
    let params = Lz77BlockParams { entry: 0, entry_rel_base: 0, emit_start: 0, emit_end: data.len() };
    let tokens = compress_block(&data, &params, &Lz77Config::default(), None).tokens;
    let (lit, dist) = count_block_freq(&tokens);
    let trees = build_dynamic_trees(&lit, &dist).unwrap();
    for lens in [&trees.lit_len, &trees.dist] {
        let space: u64 = lens.iter().filter(|&&l| l > 0).map(|&l| 1u64 << (15 - l as u32)).sum();
        assert!(space <= 1 << 15);
        assert!(lens.iter().all(|&l| l <= 15));
    }
    // The end-of-block symbol always has a code.
    assert!(trees.lit_len[256] > 0);
}

#[test]
fn reversing_twice_keeps_the_low_bits() {
    assert_eq!(reverse_bits(1, 7), 64);
    for (code, len) in [(0b1011_0110u32, 5u8), (0xdead_beef, 12), (0xffff_ffff, 32), (7, 0)] {
        let r = reverse_bits(code, len);
        let mask = if len == 32 { u32::MAX } else { (1u32 << len) - 1 };
        assert!((r as u64) < (1u64 << len));
        assert_eq!(reverse_bits(r, len), code & mask);
    }
}

#[test]
fn package_merge_handles_a_heavy_symbol() {
    let f = [1u64 << 62, 1, 1];
    assert_eq!(package_merge(&f, 3).unwrap(), vec![1, 2, 2]);
}

#[test]
fn reverse_bits_stays_below_the_length() {
    assert_eq!(reverse_bits(u32::MAX, 5), 31);
    assert!(reverse_bits(0xdead_beef, 12) < 1 << 12);
}
