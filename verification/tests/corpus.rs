use std::collections::BTreeMap;

use paraflate::corpus::corpus_files;
use paraflate::harness::high_entropy;

fn expected(skip_large: bool) -> BTreeMap<String, Vec<u8>> {
    let mut files: BTreeMap<String, Vec<u8>> = BTreeMap::new();
    files.insert("wl_01_very_small_text/tiny_a.txt".into(), b"hi\n".to_vec());
    files.insert("wl_01_very_small_text/tiny_b.txt".into(), b"x".to_vec());
    let mut med = String::new();
    for i in 0..800 {
        med.push_str(&format!("word_{i} some text value={}\n", i % 97));
    }
    files.insert("wl_02_medium_text/medium.txt".into(), med.into_bytes());
    let mut large = String::new();
    for i in 0..12000 {
        large.push_str(&format!("paragraph {i} lorem ipsum dolor sit amet {}\n", i % 50));
    }
    files.insert("wl_03_large_text/large.txt".into(), large.into_bytes());
    files.insert("wl_04_highly_repetitive/repetition.txt".into(), "A".repeat(200_000).into_bytes());
    let mut mix = String::new();
    for i in 0..3000 {
        mix.push_str(&format!("row {i} count {} label {}\n", i * 3, i % 13));
    }
    files.insert("wl_05_mixed_text_numbers/mixed.txt".into(), mix.into_bytes());
    let mut jsonish = String::from("[\n");
    for i in 0..400 {
        jsonish.push_str(&format!("{{\"id\":{i},\"tag\":\"v\",\"ok\":true}},\n"));
    }
    jsonish.push(']');
    files.insert("wl_06_json_like/data.jsonish".into(), jsonish.into_bytes());
    let mut csv = String::from("id,name,value,score\n");
    for i in 0..2000 {
        csv.push_str(&format!("{i},cell{i},{},{}\n", i % 7, (i * 13) % 1000));
    }
    files.insert("wl_07_csv_like/table.csv".into(), csv.into_bytes());
    let mut logs = String::new();
    for i in 0..2500 {
        logs.push_str(&format!(
            "2024-01-{:02}T10:{:02}:00Z INFO event={} bytes={}\n",
            (i % 28) + 1,
            i % 60,
            i % 500,
            i * 17
        ));
    }
    files.insert("wl_08_log_like/app.log".into(), logs.into_bytes());
    let source = "fn main() {\n    let x = 1usize;\n    let y = x + 2;\n    println!(\"{}\", y);\n    mod inner {\n        pub fn f(z: u32) -> u32 { z.wrapping_mul(3) }\n    }\n}\n";
    let mut src = String::new();
    for rep in 0..400 {
        src.push_str(&format!("// block {rep}\n{source}"));
    }
    files.insert("wl_09_source_like/sample.rs".into(), src.into_bytes());
    let mut bin = Vec::new();
    for round in 0..600 {
        for b in 0u16..256 {
            bin.push(b as u8);
        }
        bin.push((round & 0xff) as u8);
    }
    files.insert("wl_10_binary_like/bytes.dat".into(), bin);
    files.insert("wl_11_random_entropy/rnd.bin".into(), high_entropy(180_000, 0xDEAD_BEEF_CAFE));
    let chunk = "duplicate_block_marker;\n".repeat(600).into_bytes();
    let mut dup_big: Vec<u8> = Vec::new();
    for _ in 0..80 {
        dup_big.extend_from_slice(&chunk);
    }
    files.insert("wl_12_duplicate_heavy/dup.txt".into(), dup_big);
    let line = "nearly the same content block 0123456789abcdef\n";
    files.insert("wl_13_near_duplicate/a.txt".into(), line.repeat(900).into_bytes());
    let mut btxt: Vec<u8> = line.repeat(900).into_bytes();
    btxt[42] = btxt[42].wrapping_add(1);
    files.insert("wl_13_near_duplicate/b.txt".into(), btxt);
    for d in 0..35 {
        let p = format!("wl_14_nested_many_small/{}/{}/f{}.txt", d / 12, d % 12, d);
        files.insert(p, format!("small file index {d} data {}\n", d % 3).into_bytes());
    }
    if !skip_large {
        let large_n = 2 * 1024 * 1024;
        let mut v = Vec::with_capacity(large_n);
        let pat = high_entropy(64 * 1024, 0x1234);
        while v.len() < large_n {
            v.extend_from_slice(&pat);
        }
        v.truncate(large_n);
        files.insert("wl_15_very_large/big.bin".into(), v);
    }
    files.insert("wl_16_mixed_combined/text/readme.txt".into(), "readme mixed workload\n".repeat(400).into_bytes());
    files.insert("wl_16_mixed_combined/bin/part.dat".into(), high_entropy(40_000, 0x55AA));
    files.insert("wl_16_mixed_combined/dup/one.txt".into(), "shared payload xyz\n".repeat(2000).into_bytes());
    files.insert("wl_16_mixed_combined/dup/two.txt".into(), "shared payload xyz\n".repeat(2000).into_bytes());
    let mut csv_mini = String::from("k,v,n\n");
    for i in 0..600 {
        csv_mini.push_str(&format!("{i},{},{}\n", i % 9, i % 41));
    }
    files.insert("wl_16_mixed_combined/csv/summary.csv".into(), csv_mini.into_bytes());
    files
}

#[test]
fn corpus_lists_the_workload_files_in_name_order() {
    for skip_large in [true, false] {
        let got = corpus_files(skip_large);
        assert_eq!(got.len(), if skip_large { 55 } else { 56 });
        for w in got.windows(2) {
            assert!(w[0].0 < w[1].0);
        }
        let want: Vec<(Vec<u8>, Vec<u8>)> =
            expected(skip_large).into_iter().map(|(k, v)| (k.into_bytes(), v)).collect();
        assert!(got == want);
    }
}

#[test]
fn corpus_small_files_read_as_written() {
    let got = corpus_files(true);
    assert_eq!(got[0], (b"wl_01_very_small_text/tiny_a.txt".to_vec(), b"hi\n".to_vec()));
    let log = &got.iter().find(|(n, _)| n == b"wl_08_log_like/app.log").unwrap().1;
    assert!(log.starts_with(b"2024-01-01T10:00:00Z INFO event=0 bytes=0\n2024-01-02T10:01:00Z"));
}
