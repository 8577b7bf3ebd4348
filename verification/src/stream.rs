//! A complete DEFLATE stream (RFC 1951) from per-block LZ77 tokens.
use vstd::arithmetic::power2::{lemma2_to64, pow2};
use vstd::prelude::*;

use crate::bit_writer::{bytes_to_bits, packs, BitWriter};
use crate::inflate::{inflate_bits, inflate_tokens, lemma_deflate_bytes_inflate};
use crate::dynamic_block::{
    DynamicTrees, adj_dist, adj_lit, aggregate_freq, block_lit_freq, build_dynamic_trees,
    built_trees, dist_sym_count, encode_dynamic_block, encode_dynamic_block_fresh,
    is_dynamic_block, is_fresh_block, lemma_adjusted_fit, lemma_built_trees_fit, lit_sym_count, saturate,
    total_dist_freq, total_lit_freq,
};
use crate::error::{ParaflateError, ParaflateResult};
use crate::fixed::{encode_fixed_block, fixed_block_bits};
use crate::lz77::{lz_decode, lz_refs_ok, token_wf, Lz77Token};
use crate::pm::{pm_weights_fit, PmError};
use crate::profile::DeflateStrategy;

verus! {

/// Streams longer than this many tokens are refused.
pub const MAX_STREAM_TOKENS: usize = 0x1000_0000;

#[derive(Clone, Copy, Debug, PartialEq, Eq, Structural)]
pub struct DeflateEncodeOptions {
    pub global_huffman: bool,
}

impl Default for DeflateEncodeOptions {
    fn default() -> (r: Self)
        ensures
            r.global_huffman == false,
    {
        DeflateEncodeOptions { global_huffman: false }
    }
}

/// The message of a failed Huffman build.
pub open spec fn pm_err_text(e: PmError) -> Seq<char> {
    match e {
        PmError::NoSymbols => "Huffman build failed: NoSymbols"@,
        PmError::MaxLenTooSmall => "Huffman build failed: MaxLenTooSmall"@,
        PmError::MaxLenTooLarge => "Huffman build failed: MaxLenTooLarge"@,
    }
}

fn pm_err(e: PmError) -> (r: ParaflateError)
    ensures
        r matches ParaflateError::CompressionFailed(m) && m@ == pm_err_text(e),
{
    match e {
        PmError::NoSymbols => ParaflateError::CompressionFailed(
            "Huffman build failed: NoSymbols".to_owned(),
        ),
        PmError::MaxLenTooSmall => ParaflateError::CompressionFailed(
            "Huffman build failed: MaxLenTooSmall".to_owned(),
        ),
        PmError::MaxLenTooLarge => ParaflateError::CompressionFailed(
            "Huffman build failed: MaxLenTooLarge".to_owned(),
        ),
    }
}

/// The number of tokens over all blocks.
pub open spec fn total_tokens(blocks: Seq<Vec<Lz77Token>>) -> nat
    decreases blocks.len(),
{
    if blocks.len() == 0 {
        0
    } else {
        total_tokens(blocks.drop_last()) + blocks.last()@.len()
    }
}

/// All blocks' tokens, one block after another.
pub open spec fn concat_tokens(blocks: Seq<Vec<Lz77Token>>) -> Seq<Lz77Token>
    decreases blocks.len(),
{
    if blocks.len() == 0 {
        Seq::empty()
    } else {
        concat_tokens(blocks.drop_last()) + blocks.last()@
    }
}

/// The bit sequences of several blocks, one after another.
pub open spec fn concat_bits(parts: Seq<Seq<bool>>) -> Seq<bool>
    decreases parts.len(),
{
    if parts.len() == 0 {
        Seq::empty()
    } else {
        concat_bits(parts.drop_last()) + parts.last()
    }
}

/// `parts[i]` is a dynamic block for `blocks[i]` under the shared codes `lit` and `dist`; only
/// the last block is marked final.
pub open spec fn shared_blocks(parts: Seq<Seq<bool>>, blocks: Seq<Vec<Lz77Token>>, lit: Seq<u8>, dist: Seq<u8>) -> bool {
    &&& parts.len() == blocks.len()
    &&& forall|i: int|
        0 <= i < parts.len() ==> is_dynamic_block(#[trigger] parts[i], i + 1 == blocks.len(), lit, dist, blocks[i]@)
}

/// `parts[i]` is a dynamic block for `blocks[i]` with codes built from its own tokens; only the
/// last block is marked final.
pub open spec fn fresh_blocks(parts: Seq<Seq<bool>>, blocks: Seq<Vec<Lz77Token>>) -> bool {
    &&& parts.len() == blocks.len()
    &&& forall|i: int| 0 <= i < parts.len() ==> is_fresh_block(#[trigger] parts[i], i + 1 == blocks.len(), blocks[i]@)
}

proof fn lemma_concat_bits_push(parts: Seq<Seq<bool>>, x: Seq<bool>)
    ensures
        concat_bits(parts.push(x)) == concat_bits(parts) + x,
{
    assert(parts.push(x).drop_last() =~= parts);
}

/// Literal/length frequencies summed over all blocks.
pub open spec fn total_lit_freqs(blocks: Seq<Vec<Lz77Token>>) -> Seq<u64> {
    Seq::new(286, |s: int| saturate(total_lit_freq(blocks, s)))
}

/// Distance frequencies summed over all blocks.
pub open spec fn total_dist_freqs(blocks: Seq<Vec<Lz77Token>>) -> Seq<u64> {
    Seq::new(30, |s: int| saturate(total_dist_freq(blocks, s)))
}

/// `bits` is the DEFLATE stream for `blocks` with the given strategy: one fixed-code block of
/// all tokens; or one dynamic block per input block, sharing codes built from all blocks when
/// `global` asks for it and there are several blocks, each with codes of its own otherwise (an
/// empty block when there are no blocks).
pub open spec fn deflate_stream(blocks: Seq<Vec<Lz77Token>>, strategy: DeflateStrategy, global: bool, bits: Seq<bool>) -> bool {
    if strategy == DeflateStrategy::Fixed {
        bits == fixed_block_bits(concat_tokens(blocks), true)
    } else if global && blocks.len() > 1 {
        exists|lit: Seq<u8>, dist: Seq<u8>, parts: Seq<Seq<bool>>|
            #![trigger built_trees(total_lit_freqs(blocks), total_dist_freqs(blocks), lit, dist), shared_blocks(parts, blocks, lit, dist)]
            {
                &&& built_trees(total_lit_freqs(blocks), total_dist_freqs(blocks), lit, dist)
                &&& shared_blocks(parts, blocks, lit, dist)
                &&& bits == concat_bits(parts)
            }
    } else if blocks.len() == 0 {
        is_fresh_block(bits, true, Seq::empty())
    } else {
        exists|parts: Seq<Seq<bool>>| #[trigger] fresh_blocks(parts, blocks) && bits == concat_bits(parts)
    }
}

/// `bytes` holds a DEFLATE stream for `blocks` (see `deflate_stream`), packed LSB-first.
pub open spec fn deflate_bytes(blocks: Seq<Vec<Lz77Token>>, strategy: DeflateStrategy, global: bool, bytes: Seq<u8>) -> bool {
    exists|bits: Seq<bool>| #[trigger] deflate_stream(blocks, strategy, global, bits) && packs(bits, bytes)
}

/// `bytes` holds one block for `tokens`, fixed-code or dynamic by the strategy, packed LSB-first.
pub open spec fn one_block_bytes(tokens: Seq<Lz77Token>, strategy: DeflateStrategy, bfinal: bool, bytes: Seq<u8>) -> bool {
    exists|bits: Seq<bool>|
        #![trigger packs(bits, bytes)]
        (if strategy == DeflateStrategy::Fixed {
            bits == fixed_block_bits(tokens, bfinal)
        } else {
            is_fresh_block(bits, bfinal, tokens)
        }) && packs(bits, bytes)
}

proof fn lemma_totals_step(blocks: Seq<Vec<Lz77Token>>, k: int)
    requires
        0 <= k < blocks.len(),
    ensures
        total_tokens(blocks.take(k + 1)) == total_tokens(blocks.take(k)) + blocks[k].len(),
        concat_tokens(blocks.take(k + 1)) == concat_tokens(blocks.take(k)) + blocks[k]@,
{
    assert(blocks.take(k + 1).drop_last() =~= blocks.take(k));
}

proof fn lemma_totals_mono(blocks: Seq<Vec<Lz77Token>>, j: int, k: int)
    requires
        0 <= j <= k <= blocks.len(),
    ensures
        total_tokens(blocks.take(j)) <= total_tokens(blocks.take(k)),
    decreases k - j,
{
    if j < k {
        lemma_totals_step(blocks, k - 1);
        lemma_totals_mono(blocks, j, k - 1);
    }
}

proof fn lemma_block_in_totals(blocks: Seq<Vec<Lz77Token>>, b: int, s: int)
    requires
        0 <= b < blocks.len(),
    ensures
        total_lit_freq(blocks, s) >= block_lit_freq(blocks[b]@, s),
        total_dist_freq(blocks, s) >= dist_sym_count(blocks[b]@, s),
    decreases blocks.len(),
{
    if b < blocks.len() - 1 {
        lemma_block_in_totals(blocks.drop_last(), b, s);
        assert(blocks.drop_last()[b] == blocks[b]);
    }
}

proof fn lemma_totals_bound(blocks: Seq<Vec<Lz77Token>>, s: int)
    ensures
        total_lit_freq(blocks, s) <= total_tokens(blocks) + blocks.len(),
        total_dist_freq(blocks, s) <= total_tokens(blocks),
    decreases blocks.len(),
{
    if blocks.len() > 0 {
        lemma_totals_bound(blocks.drop_last(), s);
        crate::dynamic_block::lemma_counts_bound(blocks.last()@, s);
    }
}

/// The total token count, or `None` once it passes `MAX_STREAM_TOKENS`.
fn count_stream_tokens(blocks: &[Vec<Lz77Token>]) -> (r: Option<usize>)
    ensures
        r is None <==> total_tokens(blocks@) > MAX_STREAM_TOKENS,
        r matches Some(n) ==> n == total_tokens(blocks@),
{
    let mut total: usize = 0;
    let mut k = 0usize;
    proof {
        assert(blocks@.take(0) =~= Seq::<Vec<Lz77Token>>::empty());
    }
    while k < blocks.len()
        invariant
            k <= blocks.len(),
            total == total_tokens(blocks@.take(k as int)),
            total <= MAX_STREAM_TOKENS,
        decreases blocks.len() - k,
    {
        proof {
            lemma_totals_step(blocks@, k as int);
        }
        if blocks[k].len() > MAX_STREAM_TOKENS - total {
            proof {
                lemma_totals_mono(blocks@, k + 1, blocks.len() as int);
                assert(blocks@.take(blocks.len() as int) =~= blocks@);
            }
            return None;
        }
        total = total + blocks[k].len();
        k = k + 1;
    }
    proof {
        assert(blocks@.take(blocks.len() as int) =~= blocks@);
    }
    Some(total)
}

/// All tokens of all blocks in one sequence.
fn merge_blocks(blocks: &[Vec<Lz77Token>], total: usize) -> (merged: Vec<Lz77Token>)
    ensures
        merged@ == concat_tokens(blocks@),
{
    let mut merged: Vec<Lz77Token> = Vec::with_capacity(total);
    let mut b = 0usize;
    proof {
        assert(blocks@.take(0) =~= Seq::<Vec<Lz77Token>>::empty());
    }
    while b < blocks.len()
        invariant
            b <= blocks.len(),
            merged@ == concat_tokens(blocks@.take(b as int)),
        decreases blocks.len() - b,
    {
        proof {
            lemma_totals_step(blocks@, b as int);
        }
        let mut i = 0usize;
        let ghost m0 = merged@;
        while i < blocks[b].len()
            invariant
                b < blocks.len(),
                i <= blocks[b as int].len(),
                merged@ == m0 + blocks[b as int]@.take(i as int),
            decreases blocks[b as int].len() - i,
        {
            merged.push(blocks[b][i]);
            i = i + 1;
            proof {
                assert(merged@ =~= m0 + blocks[b as int]@.take(i as int));
            }
        }
        proof {
            assert(blocks[b as int]@.take(i as int) =~= blocks[b as int]@);
        }
        b = b + 1;
    }
    proof {
        assert(blocks@.take(blocks.len() as int) =~= blocks@);
    }
    merged
}

proof fn lemma_concat_wf(blocks: Seq<Vec<Lz77Token>>)
    requires
        forall|b: int, i: int|
            0 <= b < blocks.len() && 0 <= i < blocks[b].len() ==> token_wf(#[trigger] blocks[b][i]),
    ensures
        forall|x: int| 0 <= x < concat_tokens(blocks).len() ==> token_wf(#[trigger] concat_tokens(blocks)[x]),
    decreases blocks.len(),
{
    if blocks.len() > 0 {
        let d = blocks.drop_last();
        assert forall|b: int, i: int| 0 <= b < d.len() && 0 <= i < d[b].len() implies token_wf(#[trigger] d[b][i]) by {
            assert(d[b] == blocks[b]);
        }
        lemma_concat_wf(d);
        let c = concat_tokens(blocks);
        let p = concat_tokens(d);
        assert forall|x: int| 0 <= x < c.len() implies token_wf(#[trigger] c[x]) by {
            if x < p.len() {
                assert(c[x] == p[x]);
            } else {
                assert(c[x] == blocks.last()[x - p.len()]);
                assert(token_wf(blocks[blocks.len() - 1][x - p.len()]));
            }
        }
    }
}

/// Write every block as a dynamic block under the shared codes, the last one final.
fn write_shared_blocks(w: &mut BitWriter, blocks: &[Vec<Lz77Token>], trees: &DynamicTrees) -> (parts: Ghost<Seq<Seq<bool>>>)
    requires
        old(w).wf(),
        old(w).bits() == Seq::<bool>::empty(),
        trees.wf(),
        built_trees(total_lit_freqs(blocks@), total_dist_freqs(blocks@), trees.lit_len@, trees.dist@),
        forall|b: int, i: int|
            0 <= b < blocks.len() && 0 <= i < blocks[b].len() ==> token_wf(#[trigger] blocks[b][i]),
        blocks.len() < pow2(48),
        total_tokens(blocks@) <= MAX_STREAM_TOKENS,
    ensures
        final(w).wf(),
        shared_blocks(parts@, blocks@, trees.lit_len@, trees.dist@),
        final(w).bits() == concat_bits(parts@),
{
    let n = blocks.len();
    let mut i = 0usize;
    let ghost mut parts: Seq<Seq<bool>> = Seq::empty();
    while i < n
        invariant
            n == blocks.len(),
            i <= n,
            w.wf(),
            trees.wf(),
            built_trees(total_lit_freqs(blocks@), total_dist_freqs(blocks@), trees.lit_len@, trees.dist@),
            parts.len() == i,
            forall|j: int|
                0 <= j < i ==> is_dynamic_block(#[trigger] parts[j], j + 1 == n, trees.lit_len@, trees.dist@, blocks[j]@),
            w.bits() == concat_bits(parts),
            forall|bb: int, j: int|
                0 <= bb < blocks.len() && 0 <= j < blocks[bb].len() ==> token_wf(#[trigger] blocks[bb][j]),
            blocks.len() < pow2(48),
            total_tokens(blocks@) <= MAX_STREAM_TOKENS,
        decreases n - i,
    {
        let ghost pre = w.bits();
        proof {
            lemma_vstd_bounds();
            let toks = blocks[i as int]@;
            let lf = total_lit_freqs(blocks@);
            let df = total_dist_freqs(blocks@);
            assert forall|j: int| 0 <= j < toks.len() implies token_wf(#[trigger] toks[j]) by {
                assert(token_wf(blocks[i as int][j]));
            }
            assert forall|s: int| 0 <= s < 286 && lit_sym_count(toks, s) > 0 implies lf[s] > 0 by {
                lemma_block_in_totals(blocks@, i as int, s);
            }
            assert forall|s: int| 0 <= s < 30 && dist_sym_count(toks, s) > 0 implies df[s] > 0 by {
                lemma_block_in_totals(blocks@, i as int, s);
            }
            lemma_built_trees_fit(lf, df, trees.lit_len@, trees.dist@, toks);
        }
        let _ = encode_dynamic_block(w, &blocks[i], trees, i + 1 == n);
        proof {
            let blk = choose|blk: Seq<bool>|
                w.bits() == pre + blk && is_dynamic_block(
                    blk,
                    i + 1 == n,
                    trees.lit_len@,
                    trees.dist@,
                    blocks[i as int]@,
                );
            lemma_concat_bits_push(parts, blk);
            parts = parts.push(blk);
            assert(parts[i as int] == blk);
        }
        i = i + 1;
    }
    Ghost(parts)
}

/// Write every block as a dynamic block with codes of its own, the last one final.
fn write_fresh_blocks(w: &mut BitWriter, blocks: &[Vec<Lz77Token>]) -> (parts: Ghost<Seq<Seq<bool>>>)
    requires
        old(w).wf(),
        old(w).bits() == Seq::<bool>::empty(),
        forall|b: int, i: int|
            0 <= b < blocks.len() && 0 <= i < blocks[b].len() ==> token_wf(#[trigger] blocks[b][i]),
        total_tokens(blocks@) <= MAX_STREAM_TOKENS,
    ensures
        final(w).wf(),
        fresh_blocks(parts@, blocks@),
        final(w).bits() == concat_bits(parts@),
{
    let n = blocks.len();
    let mut i = 0usize;
    let ghost mut parts: Seq<Seq<bool>> = Seq::empty();
    while i < n
        invariant
            n == blocks.len(),
            i <= n,
            w.wf(),
            parts.len() == i,
            forall|j: int| 0 <= j < i ==> is_fresh_block(#[trigger] parts[j], j + 1 == n, blocks[j]@),
            w.bits() == concat_bits(parts),
            forall|bb: int, j: int|
                0 <= bb < blocks.len() && 0 <= j < blocks[bb].len() ==> token_wf(#[trigger] blocks[bb][j]),
            total_tokens(blocks@) <= MAX_STREAM_TOKENS,
        decreases n - i,
    {
        let ghost pre = w.bits();
        proof {
            lemma_vstd_bounds();
            let toks = blocks[i as int]@;
            assert forall|j: int| 0 <= j < toks.len() implies token_wf(#[trigger] toks[j]) by {
                assert(token_wf(blocks[i as int][j]));
            }
            lemma_totals_step(blocks@, i as int);
            lemma_totals_mono(blocks@, i + 1, n as int);
            assert(blocks@.take(n as int) =~= blocks@);
        }
        let _ = encode_dynamic_block_fresh(w, &blocks[i], i + 1 == n);
        proof {
            let blk = choose|blk: Seq<bool>|
                w.bits() == pre + blk && is_fresh_block(blk, i + 1 == n, blocks[i as int]@);
            lemma_concat_bits_push(parts, blk);
            parts = parts.push(blk);
            assert(parts[i as int] == blk);
        }
        i = i + 1;
    }
    Ghost(parts)
}

/// Encode the blocks as one DEFLATE stream (see `deflate_stream`), refusing streams of more
/// than `MAX_STREAM_TOKENS` tokens.
pub fn encode_deflate_blocks(
    blocks: &[Vec<Lz77Token>],
    strategy: DeflateStrategy,
    opts: &DeflateEncodeOptions,
) -> (r: ParaflateResult<Vec<u8>>)
    requires
        forall|b: int, i: int|
            0 <= b < blocks.len() && 0 <= i < blocks[b].len() ==> token_wf(#[trigger] blocks[b][i]),
        blocks.len() < pow2(48),
    ensures
        r is Err <==> total_tokens(blocks@) > MAX_STREAM_TOKENS,
        r matches Err(e) ==> e matches ParaflateError::CompressionFailed(m) && m@ == "token stream too large"@,
        r matches Ok(bytes) ==> deflate_bytes(blocks@, strategy, opts.global_huffman, bytes@),
        r matches Ok(bytes) ==> inflate_tokens(bytes_to_bits(bytes@)) == Some(concat_tokens(blocks@)),
        r matches Ok(bytes) ==> (lz_refs_ok(Seq::empty(), concat_tokens(blocks@)) ==> inflate_bits(
            bytes_to_bits(bytes@),
        ) == Some(lz_decode(Seq::empty(), concat_tokens(blocks@)))),
{
    let total = match count_stream_tokens(blocks) {
        Some(t) => t,
        None => {
            return Err(ParaflateError::CompressionFailed("token stream too large".to_owned()));
        },
    };
    let mut w = BitWriter::with_capacity(0);
    match strategy {
        DeflateStrategy::Fixed => {
            let merged = merge_blocks(blocks, total);
            proof {
                lemma_concat_wf(blocks@);
            }
            encode_fixed_block(&mut w, &merged, true);
            proof {
                assert(w.bits() =~= fixed_block_bits(concat_tokens(blocks@), true));
                assert(deflate_stream(blocks@, strategy, opts.global_huffman, w.bits()));
            }
        },
        _ => {
            if opts.global_huffman && blocks.len() > 1 {
                let (lf, df) = aggregate_freq(blocks);
                proof {
                    lemma_global_freqs(blocks@, lf@, df@);
                }
                let trees = match build_dynamic_trees(&lf, &df) {
                    Ok(t) => t,
                    Err(e) => {
                        return Err(pm_err(e));
                    },
                };
                let parts = write_shared_blocks(&mut w, blocks, &trees);
                proof {
                    assert(shared_blocks(parts@, blocks@, trees.lit_len@, trees.dist@));
                    assert(built_trees(total_lit_freqs(blocks@), total_dist_freqs(blocks@), trees.lit_len@, trees.dist@));
                    assert(deflate_stream(blocks@, strategy, opts.global_huffman, w.bits()));
                }
            } else if blocks.len() == 0 {
                let empty: Vec<Lz77Token> = Vec::new();
                proof {
                    lemma_vstd_bounds();
                }
                let _ = encode_dynamic_block_fresh(&mut w, &empty, true);
                proof {
                    assert(empty@ =~= Seq::<Lz77Token>::empty());
                    let blk = choose|blk: Seq<bool>|
                        w.bits() == Seq::<bool>::empty() + blk && is_fresh_block(blk, true, empty@);
                    assert(w.bits() =~= blk);
                    assert(deflate_stream(blocks@, strategy, opts.global_huffman, w.bits()));
                }
            } else {
                let parts = write_fresh_blocks(&mut w, blocks);
                proof {
                    assert(fresh_blocks(parts@, blocks@));
                    assert(deflate_stream(blocks@, strategy, opts.global_huffman, w.bits()));
                }
            }
        },
    }
    let ghost bits = w.bits();
    let out = w.finish();
    proof {
        assert(deflate_stream(blocks@, strategy, opts.global_huffman, bits));
        assert(packs(bits, out@));
        assert(deflate_bytes(blocks@, strategy, opts.global_huffman, out@));
        lemma_concat_wf(blocks@);
        lemma_concat_len(blocks@);
        lemma2_to64();
        vstd::arithmetic::power2::lemma2_to64_rest();
        lemma_deflate_bytes_inflate(blocks@, strategy, opts.global_huffman, out@);
    }
    Ok(out)
}

/// All blocks' tokens together number `total_tokens`.
pub proof fn lemma_concat_len(blocks: Seq<Vec<Lz77Token>>)
    ensures
        concat_tokens(blocks).len() == total_tokens(blocks),
    decreases blocks.len(),
{
    if blocks.len() > 0 {
        lemma_concat_len(blocks.drop_last());
    }
}

proof fn lemma_global_freqs(blocks: Seq<Vec<Lz77Token>>, lf: Seq<u64>, df: Seq<u64>)
    requires
        lf.len() == 286,
        df.len() == 30,
        forall|s: int| 0 <= s < 286 ==> #[trigger] lf[s] == saturate(total_lit_freq(blocks, s)),
        forall|s: int| 0 <= s < 30 ==> #[trigger] df[s] == saturate(total_dist_freq(blocks, s)),
        blocks.len() < pow2(48),
        total_tokens(blocks) <= MAX_STREAM_TOKENS,
    ensures
        lf == total_lit_freqs(blocks),
        df == total_dist_freqs(blocks),
        pm_weights_fit(adj_lit(lf), 15),
        pm_weights_fit(adj_dist(df), 15),
{
    lemma_vstd_bounds();
    assert(lf =~= total_lit_freqs(blocks));
    assert(df =~= total_dist_freqs(blocks));
    assert forall|s: int| 0 <= s < 286 implies #[trigger] lf[s] <= pow2(49) by {
        lemma_totals_bound(blocks, s);
    }
    assert forall|s: int| 0 <= s < 30 implies #[trigger] df[s] <= pow2(49) by {
        lemma_totals_bound(blocks, s);
    }
    lemma_adjusted_fit(lf, df);
}

proof fn lemma_vstd_bounds()
    ensures
        pow2(48) == 0x1_0000_0000_0000,
        pow2(49) == 0x2_0000_0000_0000,
        pow2(14) == 16384,
{
    lemma2_to64();
    vstd::arithmetic::power2::lemma2_to64_rest();
}

/// Encode one block as a DEFLATE stream fragment (fixed or dynamic codes), refusing more than
/// `MAX_STREAM_TOKENS` tokens.
pub fn encode_one_deflate_block(
    tokens: &[Lz77Token],
    strategy: DeflateStrategy,
    _opts: &DeflateEncodeOptions,
    bfinal: bool,
) -> (r: ParaflateResult<Vec<u8>>)
    requires
        forall|i: int| 0 <= i < tokens.len() ==> token_wf(#[trigger] tokens[i]),
    ensures
        r is Err <==> tokens.len() > MAX_STREAM_TOKENS,
        r matches Err(e) ==> e matches ParaflateError::CompressionFailed(m) && m@ == "token stream too large"@,
        r matches Ok(bytes) ==> one_block_bytes(tokens@, strategy, bfinal, bytes@),
{
    if tokens.len() > MAX_STREAM_TOKENS {
        return Err(ParaflateError::CompressionFailed("token stream too large".to_owned()));
    }
    let mut w = BitWriter::with_capacity(0);
    proof {
        lemma_vstd_bounds();
        assert(w.bits() =~= Seq::<bool>::empty());
    }
    match strategy {
        DeflateStrategy::Fixed => {
            encode_fixed_block(&mut w, tokens, bfinal);
            proof {
                assert(w.bits() =~= fixed_block_bits(tokens@, bfinal));
            }
        },
        _ => {
            let _ = encode_dynamic_block_fresh(&mut w, tokens, bfinal);
            proof {
                let blk = choose|blk: Seq<bool>|
                    w.bits() == Seq::<bool>::empty() + blk && is_fresh_block(blk, bfinal, tokens@);
                assert(w.bits() =~= blk);
            }
        },
    }
    let ghost bits = w.bits();
    let out = w.finish();
    proof {
        assert(if strategy == DeflateStrategy::Fixed {
            bits == fixed_block_bits(tokens@, bfinal)
        } else {
            is_fresh_block(bits, bfinal, tokens@)
        });
        assert(packs(bits, out@));
        assert(one_block_bytes(tokens@, strategy, bfinal, out@));
    }
    Ok(out)
}

} // verus!
