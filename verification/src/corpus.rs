//! The evaluation corpus: sixteen workloads of generated files, from tiny text to random bytes.
use vstd::prelude::*;
use vstd::string::StringSliceAdditionalSpecFns;

use crate::harness::{entropy_state, high_entropy};

verus! {

/// The decimal digits of `n` as ASCII bytes.
pub open spec fn dec(n: nat) -> Seq<u8>
    decreases n,
{
    if n < 10 {
        seq![(48 + n) as u8]
    } else {
        dec(n / 10).push((48 + n % 10) as u8)
    }
}

/// `n` in decimal with at least two digits (a leading zero below ten).
pub open spec fn dec2(n: nat) -> Seq<u8> {
    if n < 10 {
        seq![48u8] + dec(n)
    } else {
        dec(n)
    }
}

/// `s` repeated `n` times.
pub open spec fn rep(s: Seq<u8>, n: nat) -> Seq<u8>
    decreases n,
{
    if n == 0 {
        Seq::empty()
    } else {
        rep(s, (n - 1) as nat) + s
    }
}

/// Append the UTF-8 bytes of `s`.
fn push_text(out: &mut Vec<u8>, s: &str)
    ensures
        final(out)@ == old(out)@ + s.spec_bytes(),
{
    let b = s.as_bytes();
    let mut i = 0usize;
    while i < b.len()
        invariant
            i <= b.len(),
            b@ == s.spec_bytes(),
            out@ == old(out)@ + b@.subrange(0, i as int),
        decreases b.len() - i,
    {
        out.push(b[i]);
        i = i + 1;
        proof {
            assert(out@ =~= old(out)@ + b@.subrange(0, i as int));
        }
    }
    proof {
        assert(b@.subrange(0, b.len() as int) =~= b@);
    }
}

/// Append `n` in decimal.
fn push_dec(out: &mut Vec<u8>, n: u64)
    ensures
        final(out)@ == old(out)@ + dec(n as nat),
    decreases n,
{
    if n >= 10 {
        push_dec(out, n / 10);
    }
    out.push((48 + n % 10) as u8);
    proof {
        if n >= 10 {
            assert(final(out)@ =~= old(out)@ + dec(n as nat));
        } else {
            assert(final(out)@ =~= old(out)@ + dec(n as nat));
        }
    }
}

/// Append `n` in decimal with at least two digits.
fn push_dec2(out: &mut Vec<u8>, n: u64)
    ensures
        final(out)@ == old(out)@ + dec2(n as nat),
{
    if n < 10 {
        out.push(48u8);
    }
    push_dec(out, n);
    proof {
        assert(final(out)@ =~= old(out)@ + dec2(n as nat));
    }
}

/// `s` repeated `n` times.
fn repeat_text(s: &str, n: u64) -> (r: Vec<u8>)
    ensures
        r@ == rep(s.spec_bytes(), n as nat),
{
    let mut out: Vec<u8> = Vec::new();
    let mut i = 0u64;
    while i < n
        invariant
            i <= n,
            out@ == rep(s.spec_bytes(), i as nat),
        decreases n - i,
    {
        push_text(&mut out, s);
        i = i + 1;
    }
    out
}

/// The sample program that the source-like workload repeats.
pub const SOURCE: &'static str = "fn main() {\n    let x = 1usize;\n    let y = x + 2;\n    println!(\"{}\", y);\n    mod inner {\n        pub fn f(z: u32) -> u32 { z.wrapping_mul(3) }\n    }\n}\n";

/// Append `s`.
fn push_all(out: &mut Vec<u8>, s: &[u8])
    ensures
        final(out)@ == old(out)@ + s@,
{
    let mut i = 0usize;
    while i < s.len()
        invariant
            i <= s.len(),
            out@ == old(out)@ + s@.subrange(0, i as int),
        decreases s.len() - i,
    {
        out.push(s[i]);
        i = i + 1;
        proof {
            assert(out@ =~= old(out)@ + s@.subrange(0, i as int));
        }
    }
    proof {
        assert(s@.subrange(0, s.len() as int) =~= s@);
    }
}

/// The UTF-8 bytes of `s`.
fn text(s: &str) -> (r: Vec<u8>)
    ensures
        r@ == s.spec_bytes(),
{
    let mut out: Vec<u8> = Vec::new();
    push_text(&mut out, s);
    proof {
        assert(out@ =~= s.spec_bytes());
    }
    out
}

/// The bytes `high_entropy(len, seed)` gives.
pub open spec fn entropy_bytes(len: nat, seed: u64) -> Seq<u8> {
    Seq::new(len, |i: int| (entropy_state(seed, (i + 1) as nat) >> 48u64) as u8)
}

fn entropy(len: usize, seed: u64) -> (r: Vec<u8>)
    ensures
        r@ == entropy_bytes(len as nat, seed),
{
    let v = high_entropy(len, seed);
    proof {
        assert(v@ =~= entropy_bytes(len as nat, seed));
    }
    v
}

/// Each line of the medium text: a word numbered `i` and a value.
pub open spec fn medium_line(i: int) -> Seq<u8> {
    "word_".spec_bytes() + dec((i) as nat) + " some text value=".spec_bytes() + dec((i % 97) as nat) + "\n".spec_bytes()
}

/// The first `n` of those lines.
pub open spec fn medium(n: nat) -> Seq<u8>
    decreases n,
{
    if n == 0 {
        Seq::empty()
    } else {
        medium((n - 1) as nat) + medium_line(n - 1)
    }
}

/// Append the first 800 lines of `medium`.
fn push_medium(out: &mut Vec<u8>)
    ensures
        final(out)@ == old(out)@ + medium(800),
{
    let mut i = 0u64;
    while i < 800
        invariant
            i <= 800,
            out@ == old(out)@ + medium(i as nat),
        decreases 800 - i,
    {
        let ghost before = out@;
        push_text(out, "word_");
        push_dec(out, i);
        push_text(out, " some text value=");
        push_dec(out, i % 97);
        push_text(out, "\n");
        proof {
            assert(out@ =~= before + medium_line(i as int));
            assert(out@ =~= old(out)@ + medium((i + 1) as nat));
        }
        i = i + 1;
    }
}

/// Each line of the large text: a numbered paragraph.
pub open spec fn large_line(i: int) -> Seq<u8> {
    "paragraph ".spec_bytes() + dec((i) as nat) + " lorem ipsum dolor sit amet ".spec_bytes() + dec((i % 50) as nat) + "\n".spec_bytes()
}

/// The first `n` of those lines.
pub open spec fn large(n: nat) -> Seq<u8>
    decreases n,
{
    if n == 0 {
        Seq::empty()
    } else {
        large((n - 1) as nat) + large_line(n - 1)
    }
}

/// Append the first 12000 lines of `large`.
fn push_large(out: &mut Vec<u8>)
    ensures
        final(out)@ == old(out)@ + large(12000),
{
    let mut i = 0u64;
    while i < 12000
        invariant
            i <= 12000,
            out@ == old(out)@ + large(i as nat),
        decreases 12000 - i,
    {
        let ghost before = out@;
        push_text(out, "paragraph ");
        push_dec(out, i);
        push_text(out, " lorem ipsum dolor sit amet ");
        push_dec(out, i % 50);
        push_text(out, "\n");
        proof {
            assert(out@ =~= before + large_line(i as int));
            assert(out@ =~= old(out)@ + large((i + 1) as nat));
        }
        i = i + 1;
    }
}

/// Each line of text mixed with numbers.
pub open spec fn mixed_line(i: int) -> Seq<u8> {
    "row ".spec_bytes() + dec((i) as nat) + " count ".spec_bytes() + dec((i * 3) as nat) + " label ".spec_bytes() + dec((i % 13) as nat) + "\n".spec_bytes()
}

/// The first `n` of those lines.
pub open spec fn mixed(n: nat) -> Seq<u8>
    decreases n,
{
    if n == 0 {
        Seq::empty()
    } else {
        mixed((n - 1) as nat) + mixed_line(n - 1)
    }
}

/// Append the first 3000 lines of `mixed`.
fn push_mixed(out: &mut Vec<u8>)
    ensures
        final(out)@ == old(out)@ + mixed(3000),
{
    let mut i = 0u64;
    while i < 3000
        invariant
            i <= 3000,
            out@ == old(out)@ + mixed(i as nat),
        decreases 3000 - i,
    {
        let ghost before = out@;
        push_text(out, "row ");
        push_dec(out, i);
        push_text(out, " count ");
        push_dec(out, i * 3);
        push_text(out, " label ");
        push_dec(out, i % 13);
        push_text(out, "\n");
        proof {
            assert(out@ =~= before + mixed_line(i as int));
            assert(out@ =~= old(out)@ + mixed((i + 1) as nat));
        }
        i = i + 1;
    }
}

/// Each row of the JSON-like array.
pub open spec fn json_rows_line(i: int) -> Seq<u8> {
    "{\"id\":".spec_bytes() + dec((i) as nat) + ",\"tag\":\"v\",\"ok\":true},\n".spec_bytes()
}

/// The first `n` of those lines.
pub open spec fn json_rows(n: nat) -> Seq<u8>
    decreases n,
{
    if n == 0 {
        Seq::empty()
    } else {
        json_rows((n - 1) as nat) + json_rows_line(n - 1)
    }
}

/// Append the first 400 lines of `json_rows`.
fn push_json_rows(out: &mut Vec<u8>)
    ensures
        final(out)@ == old(out)@ + json_rows(400),
{
    let mut i = 0u64;
    while i < 400
        invariant
            i <= 400,
            out@ == old(out)@ + json_rows(i as nat),
        decreases 400 - i,
    {
        let ghost before = out@;
        push_text(out, "{\"id\":");
        push_dec(out, i);
        push_text(out, ",\"tag\":\"v\",\"ok\":true},\n");
        proof {
            assert(out@ =~= before + json_rows_line(i as int));
            assert(out@ =~= old(out)@ + json_rows((i + 1) as nat));
        }
        i = i + 1;
    }
}

/// Each row of the CSV table.
pub open spec fn csv_rows_line(i: int) -> Seq<u8> {
    dec((i) as nat) + ",cell".spec_bytes() + dec((i) as nat) + ",".spec_bytes() + dec((i % 7) as nat) + ",".spec_bytes() + dec(((i * 13) % 1000) as nat) + "\n".spec_bytes()
}

/// The first `n` of those lines.
pub open spec fn csv_rows(n: nat) -> Seq<u8>
    decreases n,
{
    if n == 0 {
        Seq::empty()
    } else {
        csv_rows((n - 1) as nat) + csv_rows_line(n - 1)
    }
}

/// Append the first 2000 lines of `csv_rows`.
#[verifier::rlimit(40)]
fn push_csv_rows(out: &mut Vec<u8>)
    ensures
        final(out)@ == old(out)@ + csv_rows(2000),
{
    let mut i = 0u64;
    while i < 2000
        invariant
            i <= 2000,
            out@ == old(out)@ + csv_rows(i as nat),
        decreases 2000 - i,
    {
        let ghost before = out@;
        push_dec(out, i);
        push_text(out, ",cell");
        push_dec(out, i);
        push_text(out, ",");
        push_dec(out, i % 7);
        push_text(out, ",");
        push_dec(out, (i * 13) % 1000);
        push_text(out, "\n");
        proof {
            assert(out@ =~= before + csv_rows_line(i as int));
            assert(out@ =~= old(out)@ + csv_rows((i + 1) as nat));
        }
        i = i + 1;
    }
}

/// Each line of the log.
pub open spec fn log_lines_line(i: int) -> Seq<u8> {
    "2024-01-".spec_bytes() + dec2((i % 28 + 1) as nat) + "T10:".spec_bytes() + dec2((i % 60) as nat) + ":00Z INFO event=".spec_bytes() + dec((i % 500) as nat) + " bytes=".spec_bytes() + dec((i * 17) as nat) + "\n".spec_bytes()
}

/// The first `n` of those lines.
pub open spec fn log_lines(n: nat) -> Seq<u8>
    decreases n,
{
    if n == 0 {
        Seq::empty()
    } else {
        log_lines((n - 1) as nat) + log_lines_line(n - 1)
    }
}

/// Append the first 2500 lines of `log_lines`.
fn push_log_lines(out: &mut Vec<u8>)
    ensures
        final(out)@ == old(out)@ + log_lines(2500),
{
    let mut i = 0u64;
    while i < 2500
        invariant
            i <= 2500,
            out@ == old(out)@ + log_lines(i as nat),
        decreases 2500 - i,
    {
        let ghost before = out@;
        push_text(out, "2024-01-");
        push_dec2(out, i % 28 + 1);
        push_text(out, "T10:");
        push_dec2(out, i % 60);
        push_text(out, ":00Z INFO event=");
        push_dec(out, i % 500);
        push_text(out, " bytes=");
        push_dec(out, i * 17);
        push_text(out, "\n");
        proof {
            assert(out@ =~= before + log_lines_line(i as int));
            assert(out@ =~= old(out)@ + log_lines((i + 1) as nat));
        }
        i = i + 1;
    }
}

/// Each block of the source-like file: a numbered comment, then the sample program.
pub open spec fn source_blocks_line(i: int) -> Seq<u8> {
    "// block ".spec_bytes() + dec((i) as nat) + "\n".spec_bytes() + SOURCE.spec_bytes()
}

/// The first `n` of those lines.
pub open spec fn source_blocks(n: nat) -> Seq<u8>
    decreases n,
{
    if n == 0 {
        Seq::empty()
    } else {
        source_blocks((n - 1) as nat) + source_blocks_line(n - 1)
    }
}

/// Append the first 400 lines of `source_blocks`.
fn push_source_blocks(out: &mut Vec<u8>)
    ensures
        final(out)@ == old(out)@ + source_blocks(400),
{
    let mut i = 0u64;
    while i < 400
        invariant
            i <= 400,
            out@ == old(out)@ + source_blocks(i as nat),
        decreases 400 - i,
    {
        let ghost before = out@;
        push_text(out, "// block ");
        push_dec(out, i);
        push_text(out, "\n");
        push_text(out, SOURCE);
        proof {
            assert(out@ =~= before + source_blocks_line(i as int));
            assert(out@ =~= old(out)@ + source_blocks((i + 1) as nat));
        }
        i = i + 1;
    }
}

/// Each row of the small CSV summary.
pub open spec fn summary_rows_line(i: int) -> Seq<u8> {
    dec((i) as nat) + ",".spec_bytes() + dec((i % 9) as nat) + ",".spec_bytes() + dec((i % 41) as nat) + "\n".spec_bytes()
}

/// The first `n` of those lines.
pub open spec fn summary_rows(n: nat) -> Seq<u8>
    decreases n,
{
    if n == 0 {
        Seq::empty()
    } else {
        summary_rows((n - 1) as nat) + summary_rows_line(n - 1)
    }
}

/// Append the first 600 lines of `summary_rows`.
fn push_summary_rows(out: &mut Vec<u8>)
    ensures
        final(out)@ == old(out)@ + summary_rows(600),
{
    let mut i = 0u64;
    while i < 600
        invariant
            i <= 600,
            out@ == old(out)@ + summary_rows(i as nat),
        decreases 600 - i,
    {
        let ghost before = out@;
        push_dec(out, i);
        push_text(out, ",");
        push_dec(out, i % 9);
        push_text(out, ",");
        push_dec(out, i % 41);
        push_text(out, "\n");
        proof {
            assert(out@ =~= before + summary_rows_line(i as int));
            assert(out@ =~= old(out)@ + summary_rows((i + 1) as nat));
        }
        i = i + 1;
    }
}

/// The binary-like workload: `n` rounds, each the bytes 0 to 255 and then the round number.
pub open spec fn byte_rounds(n: nat) -> Seq<u8>
    decreases n,
{
    if n == 0 {
        Seq::empty()
    } else {
        byte_rounds((n - 1) as nat) + Seq::new(256, |b: int| b as u8) + seq![((n - 1) % 256) as u8]
    }
}

fn byte_rounds_file() -> (r: Vec<u8>)
    ensures
        r@ == byte_rounds(600),
{
    let mut out: Vec<u8> = Vec::new();
    let mut round = 0u64;
    while round < 600
        invariant
            round <= 600,
            out@ == byte_rounds(round as nat),
        decreases 600 - round,
    {
        let ghost before = out@;
        let mut b = 0u64;
        while b < 256
            invariant
                b <= 256,
                out@ == before + Seq::new(b as nat, |k: int| k as u8),
            decreases 256 - b,
        {
            out.push(b as u8);
            b = b + 1;
            proof {
                assert(out@ =~= before + Seq::new(b as nat, |k: int| k as u8));
            }
        }
        out.push((round & 0xff) as u8);
        proof {
            assert((round & 0xff) == round % 256) by (bit_vector);
            assert(out@ =~= byte_rounds((round + 1) as nat));
        }
        round = round + 1;
    }
    out
}

/// One line repeated in both near-duplicate files.
pub open spec fn near_line() -> Seq<u8> {
    "nearly the same content block 0123456789abcdef\n".spec_bytes()
}

/// The second near-duplicate file: the first with byte 42 one higher (wrapping).
pub open spec fn near_copy() -> Seq<u8> {
    let a = rep(near_line(), 900);
    if a.len() > 42 {
        a.update(42, ((a[42] + 1) % 256) as u8)
    } else {
        a
    }
}

/// The workload of many small files: file `d` in directory `d / 12`, subdirectory `d % 12`.
pub open spec fn nested_name(d: nat) -> Seq<u8> {
    "wl_14_nested_many_small/".spec_bytes() + dec(d / 12) + "/".spec_bytes() + dec(d % 12) + "/f".spec_bytes()
        + dec(d) + ".txt".spec_bytes()
}

pub open spec fn nested_data(d: nat) -> Seq<u8> {
    "small file index ".spec_bytes() + dec(d) + " data ".spec_bytes() + dec(d % 3) + "\n".spec_bytes()
}

/// The file of the many-small-files workload at position `k` in name order: within each
/// directory the subdirectories come as their names sort ("0", "1", "10", "11", "2", ...).
pub open spec fn nested_file(k: int) -> nat {
    let g = k / 12;
    let p = k % 12;
    let sub = if p < 2 {
        p
    } else if p == 2 {
        10
    } else if g < 2 && p == 3 {
        11
    } else if g < 2 {
        p - 2
    } else {
        p - 1
    };
    (12 * g + sub) as nat
}

/// The text workloads up to the JSON-like file, in name order (path, bytes).
pub open spec fn corpus_text() -> Seq<(Seq<u8>, Seq<u8>)> {
    seq![
        ("wl_01_very_small_text/tiny_a.txt".spec_bytes(), "hi\n".spec_bytes()),
        ("wl_01_very_small_text/tiny_b.txt".spec_bytes(), "x".spec_bytes()),
        ("wl_02_medium_text/medium.txt".spec_bytes(), medium(800)),
        ("wl_03_large_text/large.txt".spec_bytes(), large(12000)),
        ("wl_04_highly_repetitive/repetition.txt".spec_bytes(), rep("A".spec_bytes(), 200000)),
        ("wl_05_mixed_text_numbers/mixed.txt".spec_bytes(), mixed(3000)),
        ("wl_06_json_like/data.jsonish".spec_bytes(), "[\n".spec_bytes() + json_rows(400) + "]".spec_bytes())
    ]
}

/// The structured and binary workloads up to the near duplicates, in name order.
pub open spec fn corpus_structured() -> Seq<(Seq<u8>, Seq<u8>)> {
    seq![
        ("wl_07_csv_like/table.csv".spec_bytes(), "id,name,value,score\n".spec_bytes() + csv_rows(2000)),
        ("wl_08_log_like/app.log".spec_bytes(), log_lines(2500)),
        ("wl_09_source_like/sample.rs".spec_bytes(), source_blocks(400)),
        ("wl_10_binary_like/bytes.dat".spec_bytes(), byte_rounds(600)),
        ("wl_11_random_entropy/rnd.bin".spec_bytes(), entropy_bytes(180000, 0xDEAD_BEEF_CAFE)),
        ("wl_12_duplicate_heavy/dup.txt".spec_bytes(), rep(rep("duplicate_block_marker;\n".spec_bytes(), 600), 80)),
        ("wl_13_near_duplicate/a.txt".spec_bytes(), rep(near_line(), 900)),
        ("wl_13_near_duplicate/b.txt".spec_bytes(), near_copy())
    ]
}

/// The many small files, in name order.
pub open spec fn corpus_nested() -> Seq<(Seq<u8>, Seq<u8>)> {
    Seq::new(35, |k: int| (nested_name(nested_file(k)), nested_data(nested_file(k))))
}

/// The very large workload (left out when `skip_large`).
pub open spec fn corpus_large(skip_large: bool) -> Seq<(Seq<u8>, Seq<u8>)> {
    if skip_large {
        Seq::empty()
    } else {
        seq![("wl_15_very_large/big.bin".spec_bytes(), rep(entropy_bytes(65536, 0x1234), 32))]
    }
}

/// The combined workload, in name order.
pub open spec fn corpus_combined() -> Seq<(Seq<u8>, Seq<u8>)> {
    seq![
        ("wl_16_mixed_combined/bin/part.dat".spec_bytes(), entropy_bytes(40000, 0x55AA)),
        ("wl_16_mixed_combined/csv/summary.csv".spec_bytes(), "k,v,n\n".spec_bytes() + summary_rows(600)),
        ("wl_16_mixed_combined/dup/one.txt".spec_bytes(), rep("shared payload xyz\n".spec_bytes(), 2000)),
        ("wl_16_mixed_combined/dup/two.txt".spec_bytes(), rep("shared payload xyz\n".spec_bytes(), 2000)),
        ("wl_16_mixed_combined/text/readme.txt".spec_bytes(), rep("readme mixed workload\n".spec_bytes(), 400))
    ]
}

/// The corpus, in name order: each file's path and bytes. The very large workload is left out
/// when `skip_large`.
pub open spec fn corpus_spec(skip_large: bool) -> Seq<(Seq<u8>, Seq<u8>)> {
    corpus_text() + corpus_structured() + corpus_nested() + corpus_large(skip_large) + corpus_combined()
}

/// A list of files by their views.
pub open spec fn files_view(v: Seq<(Vec<u8>, Vec<u8>)>) -> Seq<(Seq<u8>, Seq<u8>)> {
    Seq::new(v.len(), |i: int| (v[i].0@, v[i].1@))
}

fn add_file(files: &mut Vec<(Vec<u8>, Vec<u8>)>, name: Vec<u8>, data: Vec<u8>)
    ensures
        files_view(final(files)@) == files_view(old(files)@).push((name@, data@)),
{
    let ghost n = name@;
    let ghost d = data@;
    files.push((name, data));
    proof {
        assert(files_view(final(files)@) =~= files_view(old(files)@).push((n, d)));
    }
}

fn medium_file() -> (r: Vec<u8>)
    ensures
        r@ == medium(800),
{
    let mut out: Vec<u8> = Vec::new();
    push_medium(&mut out);
    proof {
        assert(out@ =~= medium(800));
    }
    out
}

fn large_file() -> (r: Vec<u8>)
    ensures
        r@ == large(12000),
{
    let mut out: Vec<u8> = Vec::new();
    push_large(&mut out);
    proof {
        assert(out@ =~= large(12000));
    }
    out
}

fn mixed_file() -> (r: Vec<u8>)
    ensures
        r@ == mixed(3000),
{
    let mut out: Vec<u8> = Vec::new();
    push_mixed(&mut out);
    proof {
        assert(out@ =~= mixed(3000));
    }
    out
}

fn json_file() -> (r: Vec<u8>)
    ensures
        r@ == "[\n".spec_bytes() + json_rows(400) + "]".spec_bytes(),
{
    let mut out = text("[\n");
    push_json_rows(&mut out);
    push_text(&mut out, "]");
    out
}

fn csv_file() -> (r: Vec<u8>)
    ensures
        r@ == "id,name,value,score\n".spec_bytes() + csv_rows(2000),
{
    let mut out = text("id,name,value,score\n");
    push_csv_rows(&mut out);
    out
}

fn log_file() -> (r: Vec<u8>)
    ensures
        r@ == log_lines(2500),
{
    let mut out: Vec<u8> = Vec::new();
    push_log_lines(&mut out);
    proof {
        assert(out@ =~= log_lines(2500));
    }
    out
}

fn source_file() -> (r: Vec<u8>)
    ensures
        r@ == source_blocks(400),
{
    let mut out: Vec<u8> = Vec::new();
    push_source_blocks(&mut out);
    proof {
        assert(out@ =~= source_blocks(400));
    }
    out
}

fn summary_file() -> (r: Vec<u8>)
    ensures
        r@ == "k,v,n\n".spec_bytes() + summary_rows(600),
{
    let mut out = text("k,v,n\n");
    push_summary_rows(&mut out);
    out
}

/// Append the text workloads (`corpus_text`).
#[verifier::rlimit(40)]
fn add_text_files(files: &mut Vec<(Vec<u8>, Vec<u8>)>)
    ensures
        files_view(final(files)@) == files_view(old(files)@) + corpus_text(),
{
    let ghost start = files_view(files@);
    add_file(files, text("wl_01_very_small_text/tiny_a.txt"), text("hi\n"));
    add_file(files, text("wl_01_very_small_text/tiny_b.txt"), text("x"));
    add_file(files, text("wl_02_medium_text/medium.txt"), medium_file());
    add_file(files, text("wl_03_large_text/large.txt"), large_file());
    add_file(files, text("wl_04_highly_repetitive/repetition.txt"), repeat_text("A", 200000));
    add_file(files, text("wl_05_mixed_text_numbers/mixed.txt"), mixed_file());
    add_file(files, text("wl_06_json_like/data.jsonish"), json_file());
    proof {
        assert(files_view(files@) =~= start + corpus_text());
    }
}

/// Append the structured and binary workloads (`corpus_structured`).
#[verifier::rlimit(40)]
fn add_structured_files(files: &mut Vec<(Vec<u8>, Vec<u8>)>)
    ensures
        files_view(final(files)@) == files_view(old(files)@) + corpus_structured(),
{
    let ghost start = files_view(files@);
    add_file(files, text("wl_07_csv_like/table.csv"), csv_file());
    add_file(files, text("wl_08_log_like/app.log"), log_file());
    add_file(files, text("wl_09_source_like/sample.rs"), source_file());
    add_file(files, text("wl_10_binary_like/bytes.dat"), byte_rounds_file());
    add_file(files, text("wl_11_random_entropy/rnd.bin"), entropy(180000, 0xDEAD_BEEF_CAFE));
    let chunk = repeat_text("duplicate_block_marker;\n", 600);
    let mut dup: Vec<u8> = Vec::new();
    let mut k = 0u64;
    while k < 80
        invariant
            k <= 80,
            dup@ == rep(chunk@, k as nat),
        decreases 80 - k,
    {
        push_all(&mut dup, chunk.as_slice());
        k = k + 1;
    }
    add_file(files, text("wl_12_duplicate_heavy/dup.txt"), dup);
    let near = repeat_text("nearly the same content block 0123456789abcdef\n", 900);
    let mut near_b = repeat_text("nearly the same content block 0123456789abcdef\n", 900);
    if near_b.len() > 42 {
        let b = near_b[42];
        let nb = if b == 255 {
            0
        } else {
            b + 1
        };
        near_b.set(42, nb);
    }
    proof {
        assert(near_b@ =~= near_copy());
    }
    add_file(files, text("wl_13_near_duplicate/a.txt"), near);
    add_file(files, text("wl_13_near_duplicate/b.txt"), near_b);
    proof {
        assert(files_view(files@) =~= start + corpus_structured());
    }
}

/// Append the many small files (`corpus_nested`).
fn add_nested_files(files: &mut Vec<(Vec<u8>, Vec<u8>)>)
    ensures
        files_view(final(files)@) == files_view(old(files)@) + corpus_nested(),
{
    let ghost start = files_view(files@);
    let mut k = 0u64;
    while k < 35
        invariant
            k <= 35,
            files_view(files@) == start + Seq::new(k as nat, |j: int| (nested_name(nested_file(j)), nested_data(nested_file(j)))),
        decreases 35 - k,
    {
        let g = k / 12;
        let p = k % 12;
        let sub = if p < 2 {
            p
        } else if p == 2 {
            10
        } else if g < 2 && p == 3 {
            11
        } else if g < 2 {
            p - 2
        } else {
            p - 1
        };
        let d = 12 * g + sub;
        assert(d == nested_file(k as int));
        let mut name = text("wl_14_nested_many_small/");
        push_dec(&mut name, d / 12);
        push_text(&mut name, "/");
        push_dec(&mut name, d % 12);
        push_text(&mut name, "/f");
        push_dec(&mut name, d);
        push_text(&mut name, ".txt");
        let mut data = text("small file index ");
        push_dec(&mut data, d);
        push_text(&mut data, " data ");
        push_dec(&mut data, d % 3);
        push_text(&mut data, "\n");
        add_file(files, name, data);
        proof {
            assert(files_view(files@) =~= start + Seq::new((k + 1) as nat, |j: int| (nested_name(nested_file(j)), nested_data(nested_file(j)))));
        }
        k = k + 1;
    }
    proof {
        assert(files_view(files@) =~= start + corpus_nested());
    }
}

/// Append the very large workload unless `skip_large` (`corpus_large`).
fn add_large_file(files: &mut Vec<(Vec<u8>, Vec<u8>)>, skip_large: bool)
    ensures
        files_view(final(files)@) == files_view(old(files)@) + corpus_large(skip_large),
{
    let ghost start = files_view(files@);
    if !skip_large {
        let pat = entropy(65536, 0x1234);
        let mut big: Vec<u8> = Vec::new();
        let mut k = 0u64;
        while k < 32
            invariant
                k <= 32,
                big@ == rep(pat@, k as nat),
            decreases 32 - k,
        {
            push_all(&mut big, pat.as_slice());
            k = k + 1;
        }
        add_file(files, text("wl_15_very_large/big.bin"), big);
    }
    proof {
        assert(files_view(files@) =~= start + corpus_large(skip_large));
    }
}

/// Append the combined workload (`corpus_combined`).
fn add_combined_files(files: &mut Vec<(Vec<u8>, Vec<u8>)>)
    ensures
        files_view(final(files)@) == files_view(old(files)@) + corpus_combined(),
{
    let ghost start = files_view(files@);
    add_file(files, text("wl_16_mixed_combined/bin/part.dat"), entropy(40000, 0x55AA));
    add_file(files, text("wl_16_mixed_combined/csv/summary.csv"), summary_file());
    add_file(files, text("wl_16_mixed_combined/dup/one.txt"), repeat_text("shared payload xyz\n", 2000));
    add_file(files, text("wl_16_mixed_combined/dup/two.txt"), repeat_text("shared payload xyz\n", 2000));
    add_file(files, text("wl_16_mixed_combined/text/readme.txt"), repeat_text("readme mixed workload\n", 400));
    proof {
        assert(files_view(files@) =~= start + corpus_combined());
    }
}

/// The evaluation corpus in name order (see `corpus_spec`): each file's path and bytes.
pub fn corpus_files(skip_large: bool) -> (r: Vec<(Vec<u8>, Vec<u8>)>)
    ensures
        files_view(r@) == corpus_spec(skip_large),
        r.len() == if skip_large {
            55nat
        } else {
            56nat
        },
{
    let mut files: Vec<(Vec<u8>, Vec<u8>)> = Vec::new();
    add_text_files(&mut files);
    add_structured_files(&mut files);
    add_nested_files(&mut files);
    add_large_file(&mut files, skip_large);
    add_combined_files(&mut files);
    proof {
        assert(files_view(files@) =~= corpus_spec(skip_large));
    }
    files
}

} // verus!
