//! Compressing one entry: LZ77 per planned span, one DEFLATE stream per entry, and its CRC-32.
use vstd::arithmetic::power2::pow2;
use vstd::prelude::*;

use crate::blocks::{ArchiveEntryDescriptor, BlockSpan, ChunkPlan};
use crate::dictionary::GlobalModel;
use crate::error::{ParaflateError, ParaflateResult};
use crate::ids::BlockId;
use crate::index::{keep_newest, recorded_offsets, IndexBuildConfig, PatternIndex, HASH_SLOTS};
use crate::plan::{lemma_tiles_within, tiles, BlockPlanner};
use crate::ids::EntryId;
use crate::profile::ExecutionPolicy;
use crate::lz77::{
    block_index_matches, block_tokens, compress_block, lemma_decode_concat, lemma_decode_len, lemma_decode_window, lz_decode, lz_refs_ok, match_count,
    sat_u32, token_wf, Lz77BlockParams, Lz77Config, Lz77Token,
};
use crate::order::sort_indices_by_key;
use crate::perm::{is_perm, lemma_perm_sum, sum_nat};
use crate::pm::freq_at;
use crate::profile::{CompressionMethod, CompressionProfile, DeflateStrategy};
use crate::bit_writer::bytes_to_bits;
use crate::inflate::{inflate_bits, inflate_tokens, lemma_deflate_bytes_inflate};
use crate::stream::{
    concat_tokens, deflate_bytes, encode_deflate_blocks, total_tokens, DeflateEncodeOptions,
    MAX_STREAM_TOKENS,
};

verus! {

/// `k` steps of the reflected CRC-32 shift register (polynomial 0xEDB88320).
pub open spec fn crc32_shift(c: u32, k: nat) -> u32
    decreases k,
{
    if k == 0 {
        c
    } else {
        let c1 = crc32_shift(c, (k - 1) as nat);
        if c1 & 1u32 == 1u32 {
            (c1 >> 1u32) ^ 0xEDB8_8320u32
        } else {
            c1 >> 1u32
        }
    }
}

/// The CRC-32 register after the bytes of `data`, starting from all ones.
pub open spec fn crc32_register(data: Seq<u8>) -> u32
    decreases data.len(),
{
    if data.len() == 0 {
        0xFFFF_FFFFu32
    } else {
        crc32_shift(crc32_register(data.drop_last()) ^ (data.last() as u32), 8)
    }
}

/// The CRC-32 (IEEE 802.3, as in ZIP) of a byte string: the final register, complemented.
pub open spec fn crc32_ieee(data: Seq<u8>) -> u32 {
    crc32_register(data) ^ 0xFFFF_FFFFu32
}

/// `crc32fast::hash`: the CRC-32 (IEEE) of the bytes.
#[verifier::external_body]
fn crc32_of(data: &[u8]) -> (r: u32)
    ensures
        r == crc32_ieee(data@),
{
    crc32fast::hash(data)
}

#[derive(Clone, Copy, Debug, PartialEq, Eq, Structural)]
pub struct DeflateEngineConfig {
    pub profile: CompressionProfile,
}

/// How to compress one entry: the profile, and LZ77 effort overriding the model's.
#[derive(Clone, Copy, Debug, PartialEq, Eq, Structural)]
pub struct EntryCompressHints {
    pub profile: CompressionProfile,
    pub lz77_max_chain: Option<u32>,
    pub lz77_nice_match: Option<u32>,
}

impl Default for EntryCompressHints {
    fn default() -> (r: Self)
        ensures
            r == (EntryCompressHints {
                profile: CompressionProfile {
                    method: CompressionMethod::Deflate,
                    level: 6,
                    strategy: crate::profile::DeflateStrategy::Default,
                    window_bits: 15,
                    global_huffman: false,
                },
                lz77_max_chain: None,
                lz77_nice_match: None,
            }),
    {
        EntryCompressHints { profile: CompressionProfile::default(), lz77_max_chain: None, lz77_nice_match: None }
    }
}

pub struct DeflateOutput {
    pub compressed: Vec<u8>,
    pub crc32: u32,
    pub uncompressed_size: u64,
}

#[derive(Clone)]
pub struct Lz77JobOutput {
    pub block: BlockId,
    pub tokens: Vec<Lz77Token>,
    pub window_matches: u32,
    pub index_matches: u32,
}

#[derive(Clone)]
pub struct DeflateEngine {
    cfg: DeflateEngineConfig,
}

/// Where a span's bytes start and end in the entry, and where its LZ77 window starts (up to
/// 32 KiB before the span).
pub open spec fn span_off(span: BlockSpan) -> int {
    span.offset as usize as int
}

pub open spec fn span_end(span: BlockSpan) -> int {
    let e = (span.offset as usize as int) + (span.len as usize as int);
    if e > usize::MAX {
        usize::MAX as int
    } else {
        e
    }
}

pub open spec fn span_start(span: BlockSpan) -> int {
    let off = span_off(span);
    off - if off < 32768 {
        off
    } else {
        32768
    }
}

/// The bytes the spans cover, each from its offset to its end.
pub open spec fn spans_bytes(spans: Seq<BlockSpan>) -> nat {
    sum_nat(Seq::new(spans.len(), |i: int| (span_end(spans[i]) - span_off(spans[i])) as nat))
}

/// The block parameters a span's LZ77 job uses: its window from `span_start` to its end, with
/// tokens emitted from the span's offset on.
pub open spec fn span_block_params(span: BlockSpan, entry_id: u32) -> Lz77BlockParams {
    Lz77BlockParams {
        entry: entry_id,
        entry_rel_base: span_start(span) as u64,
        emit_start: (span_off(span) - span_start(span)) as usize,
        emit_end: (span_end(span) - span_start(span)) as usize,
    }
}

/// The tokens a span's LZ77 job emits: `compress_block` on the span's window (see
/// `block_tokens`).
pub open spec fn span_tokens(
    data: Seq<u8>,
    span: BlockSpan,
    entry_id: u32,
    cfg: Lz77Config,
    index: &PatternIndex,
) -> Seq<Lz77Token> {
    let params = span_block_params(span, entry_id);
    block_tokens(
        data.subrange(span_start(span), span_end(span)),
        params,
        cfg,
        Some(index),
        params.emit_start as int,
    )
}

/// How many of a span job's matches came from the index.
pub open spec fn span_index_matches(
    data: Seq<u8>,
    span: BlockSpan,
    entry_id: u32,
    cfg: Lz77Config,
    index: &PatternIndex,
) -> nat {
    let params = span_block_params(span, entry_id);
    block_index_matches(
        data.subrange(span_start(span), span_end(span)),
        params,
        cfg,
        Some(index),
        params.emit_start as int,
    )
}

/// `tokens` rebuild the span's bytes from the window before it.
pub open spec fn tokens_rebuild_span(data: Seq<u8>, span: BlockSpan, tokens: Seq<Lz77Token>) -> bool {
    &&& span_end(span) <= data.len()
    &&& forall|i: int| 0 <= i < tokens.len() ==> token_wf(#[trigger] tokens[i])
    &&& lz_refs_ok(data.subrange(span_start(span), span_off(span)), tokens)
    &&& lz_decode(data.subrange(span_start(span), span_off(span)), tokens) == data.subrange(
        span_start(span),
        span_end(span),
    )
}

/// `p` is a stable sort of the parts by block number.
pub open spec fn block_order(parts: Seq<Lz77JobOutput>, p: Seq<int>) -> bool {
    &&& p.len() == parts.len()
    &&& forall|i: int| 0 <= i < p.len() ==> 0 <= #[trigger] p[i] < p.len()
    &&& forall|i: int, j: int| 0 <= i < j < p.len() ==> p[i] != p[j]
    &&& forall|i: int, j: int|
        0 <= i < j < p.len() ==> parts[p[i]].block.0 < parts[p[j]].block.0 || (parts[p[i]].block.0
            == parts[p[j]].block.0 && p[i] < p[j])
}

/// `blocks` are the parts' tokens in the order `p` (one empty block when there are no parts).
pub open spec fn blocks_of(parts: Seq<Lz77JobOutput>, p: Seq<int>, blocks: Seq<Vec<Lz77Token>>) -> bool {
    if parts.len() == 0 {
        blocks.len() == 1 && blocks[0]@.len() == 0
    } else {
        &&& blocks.len() == parts.len()
        &&& forall|i: int| 0 <= i < blocks.len() ==> (#[trigger] blocks[i])@ == parts[p[i]].tokens@
    }
}

/// `bytes` is the DEFLATE stream of the parts taken in block order.
pub open spec fn parts_stream(parts: Seq<Lz77JobOutput>, profile: CompressionProfile, bytes: Seq<u8>) -> bool {
    exists|p: Seq<int>, blocks: Seq<Vec<Lz77Token>>|
        #![trigger block_order(parts, p), blocks_of(parts, p, blocks)]
        block_order(parts, p) && blocks_of(parts, p, blocks) && deflate_bytes(
            blocks,
            profile.strategy,
            profile.global_huffman,
            bytes,
        ) && inflate_tokens(bytes_to_bits(bytes)) == Some(concat_tokens(blocks))
}

/// The number of tokens over all parts.
pub open spec fn parts_tokens(parts: Seq<Lz77JobOutput>) -> nat {
    sum_nat(Seq::new(parts.len(), |i: int| parts[i].tokens@.len()))
}

proof fn lemma_total_tokens_sum(blocks: Seq<Vec<Lz77Token>>)
    ensures
        total_tokens(blocks) == sum_nat(Seq::new(blocks.len(), |i: int| blocks[i]@.len())),
    decreases blocks.len(),
{
    if blocks.len() > 0 {
        lemma_total_tokens_sum(blocks.drop_last());
        assert(Seq::new(blocks.len(), |i: int| blocks[i]@.len()).drop_last() =~= Seq::new(
            blocks.drop_last().len(),
            |i: int| blocks.drop_last()[i]@.len(),
        ));
    }
}

/// `bytes` is a DEFLATE stream whose blocks, one per span, each rebuild their span of `data`.
pub open spec fn spans_stream(data: Seq<u8>, spans: Seq<BlockSpan>, profile: CompressionProfile, bytes: Seq<u8>) -> bool {
    exists|parts: Seq<Lz77JobOutput>|
        #[trigger] parts_stream(parts, profile, bytes) && parts.len() == spans.len() && forall|i: int|
            0 <= i < parts.len() ==> (#[trigger] parts[i]).block == spans[i].block && tokens_rebuild_span(
                data,
                spans[i],
                parts[i].tokens@,
            )
}

/// `bytes` is the DEFLATE stream of one block per span, in block order, each block holding
/// exactly the tokens of `span_tokens` for that span under `cfg` and `index`.
pub open spec fn spans_lz_stream(
    data: Seq<u8>,
    spans: Seq<BlockSpan>,
    entry_id: u32,
    cfg: Lz77Config,
    index: &PatternIndex,
    profile: CompressionProfile,
    bytes: Seq<u8>,
) -> bool {
    exists|parts: Seq<Lz77JobOutput>|
        #[trigger] parts_stream(parts, profile, bytes) && parts.len() == spans.len() && forall|i: int|
            0 <= i < parts.len() ==> (#[trigger] parts[i]).block == spans[i].block && parts[i].tokens@
                == span_tokens(data, spans[i], entry_id, cfg, index)
}

/// The profile and LZ77 effort that hints select: the engine's profile and the model's effort
/// where there are no hints.
pub open spec fn effective_profile(engine_profile: CompressionProfile, hints: Option<&EntryCompressHints>) -> CompressionProfile {
    match hints {
        Some(h) => h.profile,
        None => engine_profile,
    }
}

/// Parts that rebuild the spans carry no more tokens than the spans have bytes (every token
/// decodes to at least one byte).
proof fn lemma_parts_tokens_bound(data: Seq<u8>, spans: Seq<BlockSpan>, parts: Seq<Lz77JobOutput>)
    requires
        parts.len() == spans.len(),
        forall|i: int| 0 <= i < parts.len() ==> tokens_rebuild_span(data, spans[i], #[trigger] parts[i].tokens@),
    ensures
        parts_tokens(parts) <= spans_bytes(spans),
{
    let a = Seq::new(parts.len(), |i: int| parts[i].tokens@.len());
    let b = Seq::new(spans.len(), |i: int| (span_end(spans[i]) - span_off(spans[i])) as nat);
    assert forall|i: int| 0 <= i < a.len() implies a[i] <= b[i] by {
        let sp = spans[i];
        let toks = parts[i].tokens@;
        assert(tokens_rebuild_span(data, sp, toks));
        let pre = data.subrange(span_start(sp), span_off(sp));
        lemma_decode_len(pre, toks);
        assert(lz_decode(pre, toks).len() == span_end(sp) - span_start(sp));
    }
    crate::perm::lemma_sum_le(a, b);
}

/// The lengths of a tiling add up to what it tiles.
proof fn lemma_tiles_len_sum(spans: Seq<BlockSpan>, e: EntryId, u: u64)
    requires
        tiles(spans, e, u),
    ensures
        sum_nat(Seq::new(spans.len(), |i: int| spans[i].len as nat)) == u,
    decreases spans.len(),
{
    if spans.len() > 0 {
        let n = spans.len() as int;
        let d = spans.drop_last();
        let u2 = spans[n - 1].offset;
        assert(tiles(d, e, u2)) by {
            assert forall|i: int| 0 <= i < d.len() - 1 implies #[trigger] d[i + 1].offset == d[i].offset + d[i].len by {
                assert(d[i + 1] == spans[i + 1]);
                assert(d[i] == spans[i]);
            }
            if n >= 2 {
                assert(spans[(n - 2) + 1].offset == spans[n - 2].offset + spans[n - 2].len);
                assert(spans[n - 2].len >= 1);
            }
        }
        lemma_tiles_len_sum(d, e, u2);
        assert(Seq::new(spans.len(), |i: int| spans[i].len as nat).drop_last() =~= Seq::new(
            d.len(),
            |i: int| d[i].len as nat,
        ));
    }
}

/// A tiling of an entry that fits in memory covers exactly its bytes.
proof fn lemma_tiles_bytes(spans: Seq<BlockSpan>, e: EntryId, u: u64)
    requires
        tiles(spans, e, u),
        u <= usize::MAX,
    ensures
        spans_bytes(spans) == u,
{
    lemma_tiles_len_sum(spans, e, u);
    let a = Seq::new(spans.len(), |i: int| (span_end(spans[i]) - span_off(spans[i])) as nat);
    let b = Seq::new(spans.len(), |i: int| spans[i].len as nat);
    assert forall|i: int| 0 <= i < a.len() implies a[i] == b[i] by {
        lemma_tiles_within(spans, e, u, i);
    }
    assert(a =~= b);
}

impl DeflateEngine {
    /// The profile the engine compresses with by default.
    pub closed spec fn profile(&self) -> CompressionProfile {
        self.cfg.profile
    }

    pub fn new(cfg: DeflateEngineConfig) -> (r: Self)
        ensures
            r.profile() == cfg.profile,
    {
        DeflateEngine { cfg }
    }

    /// LZ77 for one span of an entry, with up to 32 KiB before the span as window; refused when
    /// the span reaches past the data.
    pub fn lz77_span_job(
        data: &[u8],
        span: &BlockSpan,
        entry_id: u32,
        lz_cfg: &Lz77Config,
        index: &PatternIndex,
    ) -> (r: ParaflateResult<Lz77JobOutput>)
        requires
            index.wf(),
        ensures
            r is Err <==> span_end(*span) > data.len(),
            r matches Err(e) ==> e matches ParaflateError::InvariantViolated(m) && m@ == "span bounds"@,
            r matches Ok(out) ==> {
                &&& out.block == span.block
                &&& tokens_rebuild_span(data@, *span, out.tokens@)
                &&& exists|w: nat, x: nat|
                    w + x == match_count(out.tokens@) && out.window_matches == sat_u32(w)
                        && out.index_matches == sat_u32(x)
                &&& out.tokens@ == span_tokens(data@, *span, entry_id, *lz_cfg, index)
                &&& out.index_matches == sat_u32(span_index_matches(data@, *span, entry_id, *lz_cfg, index))
            },
    {
        let off = span.offset as usize;
        let end = off.saturating_add(span.len as usize);
        if end > data.len() {
            return Err(ParaflateError::InvariantViolated("span bounds".to_owned()));
        }
        let overlap = if off < 32768 {
            off
        } else {
            32768
        };
        let start = off - overlap;
        let buf = &data[start..end];
        let emit_start = off - start;
        let emit_end = buf.len();
        let params = Lz77BlockParams {
            entry: entry_id,
            entry_rel_base: start as u64,
            emit_start,
            emit_end,
        };
        let lz = compress_block(buf, &params, lz_cfg, Some(index));
        proof {
            assert(params == span_block_params(*span, entry_id));
            assert(buf@ == data@.subrange(start as int, end as int));
            assert(buf@.subrange(0, emit_start as int) =~= data@.subrange(start as int, off as int));
            if buf.len() == 0 || emit_start >= emit_end {
                assert(lz.tokens@ =~= Seq::<Lz77Token>::empty());
                assert(end == off);
                assert(data@.subrange(start as int, off as int) =~= data@.subrange(start as int, end as int));
            } else {
                assert(buf@.subrange(0, buf.len() as int) =~= buf@);
            }
        }
        Ok(Lz77JobOutput {
            block: span.block,
            tokens: lz.tokens,
            window_matches: lz.matches_from_window,
            index_matches: lz.matches_from_index,
        })
    }

    /// Compress one entry's bytes following its chunk plan (spans in turn, then one stream),
    /// or store them; with the CRC-32 of the bytes.
    fn compress_data(
        &self,
        size: u64,
        entry_id: u32,
        data: &[u8],
        plan: &ChunkPlan,
        model: &GlobalModel,
        index: &PatternIndex,
        hints: Option<&EntryCompressHints>,
    ) -> (r: ParaflateResult<DeflateOutput>)
        requires
            index.wf(),
            plan.spans.len() < pow2(48),
        ensures
            data.len() != size ==> (r matches Err(e) && e matches ParaflateError::InvariantViolated(m) && m@ == "entry size mismatch"@),
            data.len() == size && effective_profile(self.profile(), hints).method == CompressionMethod::Stored
                ==> (r matches Ok(out) && out.compressed@ == data@),
            data.len() == size && effective_profile(self.profile(), hints).method == CompressionMethod::Deflate ==> {
                &&& (exists|i: int| 0 <= i < plan.spans.len() && span_end(#[trigger] plan.spans@[i]) > data.len()) ==> (r matches Err(e)
                    && e matches ParaflateError::InvariantViolated(m) && m@ == "span bounds"@)
                &&& r matches Err(e) ==> (e matches ParaflateError::CompressionFailed(_) || exists|i: int|
                    0 <= i < plan.spans.len() && span_end(#[trigger] plan.spans@[i]) > data.len())
                &&& r matches Ok(out) ==> spans_stream(data@, plan.spans@, effective_profile(self.profile(), hints), out.compressed@)
                &&& r matches Ok(out) ==> spans_lz_stream(
                    data@,
                    plan.spans@,
                    entry_id,
                    (Lz77Config {
                    max_chain: (match hints {
                        Some(h) => match h.lz77_max_chain {
                            Some(c) => c,
                            None => model.lz77_max_chain,
                        },
                        None => model.lz77_max_chain,
                    }) as usize,
                    nice_match: (match hints {
                        Some(h) => match h.lz77_nice_match {
                            Some(c) => c,
                            None => model.lz77_nice_match,
                        },
                        None => model.lz77_nice_match,
                    }) as usize,
                }),
                    index,
                    effective_profile(self.profile(), hints),
                    out.compressed@,
                )
                &&& (forall|i: int| 0 <= i < plan.spans.len() ==> span_end(#[trigger] plan.spans@[i]) <= data.len())
                    && spans_bytes(plan.spans@) <= MAX_STREAM_TOKENS ==> r is Ok
            },
            r matches Ok(out) ==> out.crc32 == crc32_ieee(data@) && out.uncompressed_size == size,
    {
        if data.len() as u64 != size {
            return Err(ParaflateError::InvariantViolated("entry size mismatch".to_owned()));
        }
        let profile = match hints {
            Some(h) => h.profile,
            None => self.cfg.profile,
        };
        match profile.method {
            CompressionMethod::Stored => {
                let mut copy: Vec<u8> = Vec::with_capacity(data.len());
                let mut i = 0usize;
                while i < data.len()
                    invariant
                        i <= data.len(),
                        copy@ == data@.take(i as int),
                    decreases data.len() - i,
                {
                    copy.push(data[i]);
                    i = i + 1;
                    proof {
                        assert(copy@ =~= data@.take(i as int));
                    }
                }
                proof {
                    assert(data@.take(data.len() as int) =~= data@);
                }
                Ok(DeflateOutput { compressed: copy, crc32: crc32_of(data), uncompressed_size: size })
            },
            CompressionMethod::Deflate => {
                let max_chain: u32 = match hints {
                    Some(h) => match h.lz77_max_chain {
                        Some(c) => c,
                        None => model.lz77_max_chain,
                    },
                    None => model.lz77_max_chain,
                };
                let nice_match: u32 = match hints {
                    Some(h) => match h.lz77_nice_match {
                        Some(c) => c,
                        None => model.lz77_nice_match,
                    },
                    None => model.lz77_nice_match,
                };
                let lz_cfg = Lz77Config { max_chain: max_chain as usize, nice_match: nice_match as usize };
                let mut parts: Vec<Lz77JobOutput> = Vec::with_capacity(plan.spans.len());
                let mut k = 0usize;
                while k < plan.spans.len()
                    invariant
                        k <= plan.spans.len(),
                        index.wf(),
                        data.len() == size,
                        effective_profile(self.profile(), hints) == profile,
                        profile.method == CompressionMethod::Deflate,
                        parts.len() == k,
                        forall|i: int| 0 <= i < k ==> span_end(#[trigger] plan.spans@[i]) <= data.len(),
                        forall|i: int|
                            0 <= i < k ==> (#[trigger] parts@[i]).block == plan.spans@[i].block && tokens_rebuild_span(
                                data@,
                                plan.spans@[i],
                                parts@[i].tokens@,
                            ),
                        forall|i: int|
                            0 <= i < k ==> (#[trigger] parts@[i]).tokens@ == span_tokens(data@, plan.spans@[i], entry_id, lz_cfg, index),
                    decreases plan.spans.len() - k,
                {
                    let job = Self::lz77_span_job(data, &plan.spans[k], entry_id, &lz_cfg, index);
                    match job {
                        Ok(out) => {
                            parts.push(out);
                        },
                        Err(e) => {
                            proof {
                                assert(span_end(plan.spans@[k as int]) > data.len());
                                assert(data.len() == size);
                                assert(effective_profile(self.profile(), hints) == profile);
                            }
                            return Err(e);
                        },
                    }
                    k = k + 1;
                }
                proof {
                    assert forall|b: int, i: int|
                        0 <= b < parts.len() && 0 <= i < parts[b].tokens.len() implies token_wf(#[trigger] parts[b].tokens@[i]) by {
                        assert(tokens_rebuild_span(data@, plan.spans@[b], parts@[b].tokens@));
                    }
                    lemma_parts_tokens_bound(data@, plan.spans@, parts@);
                }
                let compressed = match Self::encode_parts(&parts, &profile) {
                    Ok(c) => c,
                    Err(e) => {
                        proof {
                            assert(data.len() == size);
                            assert(effective_profile(self.profile(), hints) == profile);
                        }
                        return Err(e);
                    },
                };
                proof {
                    assert(spans_stream(data@, plan.spans@, profile, compressed@));
                    assert(parts_stream(parts@, profile, compressed@));
                    assert(spans_lz_stream(data@, plan.spans@, entry_id, lz_cfg, index, profile, compressed@));
                }
                Ok(DeflateOutput { compressed, crc32: crc32_of(data), uncompressed_size: size })
            },
        }
    }

    /// Compress one entry sequentially: the entry's bytes must be as long as it says; each
    /// planned span is LZ77-coded in turn and all spans make one DEFLATE stream (or the bytes
    /// are stored, as the profile asks).
    pub fn compress_entry_serial(
        &self,
        entry: &ArchiveEntryDescriptor,
        data: &[u8],
        plan: &ChunkPlan,
        model: &GlobalModel,
        index: &PatternIndex,
        hints: Option<&EntryCompressHints>,
    ) -> (r: ParaflateResult<DeflateOutput>)
        requires
            index.wf(),
            plan.spans.len() < pow2(48),
        ensures
            data.len() != entry.uncompressed_size ==> (r matches Err(e) && e matches ParaflateError::InvariantViolated(m) && m@ == "entry size mismatch"@),
            data.len() == entry.uncompressed_size && effective_profile(self.profile(), hints).method == CompressionMethod::Stored
                ==> (r matches Ok(out) && out.compressed@ == data@),
            data.len() == entry.uncompressed_size && effective_profile(self.profile(), hints).method == CompressionMethod::Deflate ==> {
                &&& (exists|i: int| 0 <= i < plan.spans.len() && span_end(#[trigger] plan.spans@[i]) > data.len()) ==> (r matches Err(e)
                    && e matches ParaflateError::InvariantViolated(m) && m@ == "span bounds"@)
                &&& r matches Err(e) ==> (e matches ParaflateError::CompressionFailed(_) || exists|i: int|
                    0 <= i < plan.spans.len() && span_end(#[trigger] plan.spans@[i]) > data.len())
                &&& r matches Ok(out) ==> spans_stream(data@, plan.spans@, effective_profile(self.profile(), hints), out.compressed@)
                &&& r matches Ok(out) ==> spans_lz_stream(
                    data@,
                    plan.spans@,
                    entry.id.0,
                    (Lz77Config {
                    max_chain: (match hints {
                        Some(h) => match h.lz77_max_chain {
                            Some(c) => c,
                            None => model.lz77_max_chain,
                        },
                        None => model.lz77_max_chain,
                    }) as usize,
                    nice_match: (match hints {
                        Some(h) => match h.lz77_nice_match {
                            Some(c) => c,
                            None => model.lz77_nice_match,
                        },
                        None => model.lz77_nice_match,
                    }) as usize,
                }),
                    index,
                    effective_profile(self.profile(), hints),
                    out.compressed@,
                )
                &&& (forall|i: int| 0 <= i < plan.spans.len() ==> span_end(#[trigger] plan.spans@[i]) <= data.len())
                    && spans_bytes(plan.spans@) <= MAX_STREAM_TOKENS ==> r is Ok
            },
            r matches Ok(out) ==> out.crc32 == crc32_ieee(data@) && out.uncompressed_size == entry.uncompressed_size,
            r matches Ok(out) ==> (effective_profile(self.profile(), hints).method == CompressionMethod::Deflate
                && tiles(plan.spans@, entry.id, data.len() as u64) ==> inflate_bits(bytes_to_bits(out.compressed@)) == Some(data@)),
    {
        let r = self.compress_data(entry.uncompressed_size, entry.id.0, data, plan, model, index, hints);
        proof {
            if r is Ok && effective_profile(self.profile(), hints).method == CompressionMethod::Deflate
                && tiles(plan.spans@, entry.id, data.len() as u64) {
                lemma_stream_rebuilds_entry(data@, plan.spans@, entry.id, effective_profile(self.profile(), hints), r->Ok_0.compressed@);
            }
        }
        r
    }

    /// Compress a byte string as entry 0 with the default policy and model: plan its blocks
    /// (`split` proposes adaptive block ends), index it, and compress it.
    pub fn compress_bytes_raw<F: Fn(u64, u64, u64) -> u64>(&self, data: &[u8], split: &F) -> (r: ParaflateResult<DeflateOutput>)
        requires
            forall|a: u64, b: u64, c: u64| #[trigger] split.requires((a, b, c)),
            data.len() < pow2(48),
            data.len() < usize::MAX,
        ensures
            r matches Err(e) ==> e matches ParaflateError::CompressionFailed(_),
            data.len() <= MAX_STREAM_TOKENS ==> r is Ok,
            r matches Ok(out) ==> {
                &&& out.crc32 == crc32_ieee(data@)
                &&& out.uncompressed_size == data.len()
                &&& self.profile().method == CompressionMethod::Stored ==> out.compressed@ == data@
                &&& self.profile().method == CompressionMethod::Deflate ==> exists|spans: Seq<BlockSpan>|
                    tiles(spans, EntryId(0), data.len() as u64) && #[trigger] spans_stream(data@, spans, self.profile(), out.compressed@)
                &&& self.profile().method == CompressionMethod::Deflate ==> inflate_bits(bytes_to_bits(out.compressed@)) == Some(data@)
                &&& self.profile().method == CompressionMethod::Deflate ==> exists|spans: Seq<BlockSpan>, ix: PatternIndex|
                    #![trigger tiles(spans, EntryId(0), data.len() as u64), ix.slot(0, 0)]
                    {
                        &&& tiles(spans, EntryId(0), data.len() as u64)
                        &&& ix.wf()
                        &&& ix.table_count() == 1
                        &&& ix.min_match_len() == 3
                        &&& forall|h: int|
                            0 <= h < HASH_SLOTS ==> #[trigger] ix.slot(0, h) == keep_newest(
                                recorded_offsets(seq![(0u32, data)], 1, 0, h, 3, 1),
                                96,
                            )
                        &&& spans_lz_stream(
                            data@,
                            spans,
                            0,
                            (Lz77Config { max_chain: 128, nice_match: 128 }),
                            &ix,
                            self.profile(),
                            out.compressed@,
                        )
                    }
            },
    {
        proof {
            vstd::arithmetic::power2::lemma2_to64();
            vstd::arithmetic::power2::lemma2_to64_rest();
        }
        let size = data.len() as u64;
        let policy = ExecutionPolicy::default();
        let model = GlobalModel::default();
        let plan = BlockPlanner::plan_entry_with_data(EntryId(0), Some(data), size, &policy, &model, split);
        let entries: [(u32, &[u8]); 1] = [(0u32, data)];
        let index = PatternIndex::build(&entries, &IndexBuildConfig::default());
        proof {
            crate::plan::lemma_tiles_count(plan.spans@, EntryId(0), size);
            assert forall|i: int| 0 <= i < plan.spans.len() implies span_end(#[trigger] plan.spans@[i]) <= data.len() by {
                crate::plan::lemma_tiles_within(plan.spans@, EntryId(0), size, i);
            }
            lemma_tiles_bytes(plan.spans@, EntryId(0), size);
        }
        let r = self.compress_data(size, 0, data, &plan, &model, &index, None);
        proof {
            if r is Ok && self.profile().method == CompressionMethod::Deflate {
                assert(entries@ =~= seq![(0u32, data)]);
                assert(index.slot(0, 0) == index.slot(0, 0));
                assert(tiles(plan.spans@, EntryId(0), data.len() as u64));
                lemma_stream_rebuilds_entry(data@, plan.spans@, EntryId(0), self.profile(), r->Ok_0.compressed@);
            }
        }
        r
    }

    /// Finish an entry from its span jobs' outputs: one DEFLATE stream of the parts in block
    /// order under the hinted profile, the CRC-32 of the entry's bytes, and its size. Refused
    /// when the parts carry more tokens than a stream may hold.
    pub fn finish_entry(
        &self,
        entry: &ArchiveEntryDescriptor,
        data: &[u8],
        parts: &[Lz77JobOutput],
        hints: &EntryCompressHints,
    ) -> (r: ParaflateResult<DeflateOutput>)
        requires
            forall|b: int, i: int|
                0 <= b < parts.len() && 0 <= i < parts[b].tokens.len() ==> token_wf(#[trigger] parts[b].tokens@[i]),
            parts.len() < pow2(48),
        ensures
            r is Err <==> parts_tokens(parts@) > MAX_STREAM_TOKENS,
            r matches Err(e) ==> e matches ParaflateError::CompressionFailed(m) && m@ == "token stream too large"@,
            r matches Ok(o) ==> {
                &&& o.crc32 == crc32_ieee(data@)
                &&& o.uncompressed_size == entry.uncompressed_size
                &&& parts_stream(parts@, hints.profile, o.compressed@)
                &&& exists|p: Seq<int>, blocks: Seq<Vec<Lz77Token>>|
                    #![trigger block_order(parts@, p), blocks_of(parts@, p, blocks)]
                    block_order(parts@, p) && blocks_of(parts@, p, blocks) && inflate_tokens(bytes_to_bits(o.compressed@))
                        == Some(concat_tokens(blocks))
            },
    {
        match Self::encode_parts(parts, &hints.profile) {
            Ok(compressed) => Ok(DeflateOutput {
                compressed,
                crc32: crc32_of(data),
                uncompressed_size: entry.uncompressed_size,
            }),
            Err(e) => Err(e),
        }
    }

    /// Finish an entry from its blocks' tokens in order, each block with its own codes under
    /// `strategy`: the DEFLATE stream, the CRC-32 of the entry's bytes, and its size. Refused
    /// when the blocks carry more tokens than a stream may hold.
    pub fn finish_entry_blocks(
        entry: &ArchiveEntryDescriptor,
        data: &[u8],
        blocks: &[Vec<Lz77Token>],
        strategy: DeflateStrategy,
    ) -> (r: ParaflateResult<DeflateOutput>)
        requires
            forall|b: int, i: int|
                0 <= b < blocks.len() && 0 <= i < blocks[b].len() ==> token_wf(#[trigger] blocks[b][i]),
            blocks.len() < pow2(48),
        ensures
            r is Err <==> total_tokens(blocks@) > MAX_STREAM_TOKENS,
            r matches Err(e) ==> e matches ParaflateError::CompressionFailed(m) && m@ == "token stream too large"@,
            r matches Ok(o) ==> {
                &&& o.crc32 == crc32_ieee(data@)
                &&& o.uncompressed_size == entry.uncompressed_size
                &&& deflate_bytes(blocks@, strategy, false, o.compressed@)
                &&& inflate_tokens(bytes_to_bits(o.compressed@)) == Some(concat_tokens(blocks@))
                &&& lz_refs_ok(Seq::empty(), concat_tokens(blocks@)) ==> inflate_bits(bytes_to_bits(o.compressed@))
                    == Some(lz_decode(Seq::empty(), concat_tokens(blocks@)))
            },
    {
        let opts = DeflateEncodeOptions { global_huffman: false };
        match encode_deflate_blocks(blocks, strategy, &opts) {
            Ok(compressed) => Ok(DeflateOutput {
                compressed,
                crc32: crc32_of(data),
                uncompressed_size: entry.uncompressed_size,
            }),
            Err(e) => Err(e),
        }
    }

    /// Order the parts by block number and encode their tokens as one DEFLATE stream (an empty
    /// stream block when there are no parts); refused past `MAX_STREAM_TOKENS` tokens.
    pub fn encode_parts(parts: &[Lz77JobOutput], profile: &CompressionProfile) -> (r: ParaflateResult<Vec<u8>>)
        requires
            forall|b: int, i: int|
                0 <= b < parts.len() && 0 <= i < parts[b].tokens.len() ==> token_wf(#[trigger] parts[b].tokens@[i]),
            parts.len() < pow2(48),
        ensures
            r is Err <==> parts_tokens(parts@) > MAX_STREAM_TOKENS,
            r matches Err(e) ==> e matches ParaflateError::CompressionFailed(m) && m@ == "token stream too large"@,
            r matches Ok(bytes) ==> parts_stream(parts@, *profile, bytes@),
    {
        let n = parts.len();
        let mut keys: Vec<u64> = Vec::with_capacity(n);
        let mut idx: Vec<usize> = Vec::with_capacity(n);
        let mut i = 0usize;
        while i < n
            invariant
                i <= n == parts.len(),
                keys.len() == i,
                idx.len() == i,
                forall|k: int| 0 <= k < i ==> #[trigger] keys@[k] == parts[k].block.0,
                forall|k: int| 0 <= k < i ==> #[trigger] idx@[k] == k,
            decreases n - i,
        {
            keys.push(parts[i].block.0);
            idx.push(i);
            i = i + 1;
        }
        let ghost idx0 = idx@;
        sort_indices_by_key(&mut idx, &keys);
        let ghost p = choose|p: Seq<int>|
            #![trigger p.len()]
            {
                &&& p.len() == idx0.len()
                &&& forall|i: int| 0 <= i < p.len() ==> 0 <= #[trigger] p[i] < p.len()
                &&& forall|i: int, j: int| 0 <= i < j < p.len() ==> p[i] != p[j]
                &&& forall|i: int| 0 <= i < p.len() ==> #[trigger] idx@[i] == idx0[p[i]]
                &&& forall|i: int, j: int|
                    0 <= i < j < p.len() ==> (freq_at(keys@, idx@[i]) < freq_at(keys@, idx@[j]) || (freq_at(keys@, idx@[i]) == freq_at(keys@, idx@[j])
                        && p[i] < p[j]))
            };
        proof {
            assert(block_order(parts@, p)) by {
                assert forall|i: int, j: int| 0 <= i < j < p.len() implies parts@[p[i]].block.0 < parts@[p[j]].block.0 || (parts@[p[i]].block.0
                    == parts@[p[j]].block.0 && p[i] < p[j]) by {
                    assert(idx@[i] == p[i]);
                    assert(idx@[j] == p[j]);
                }
            }
        }
        let mut blocks: Vec<Vec<Lz77Token>> = Vec::with_capacity(n);
        let mut b = 0usize;
        while b < n
            invariant
                b <= n == parts.len(),
                idx.len() == n,
                forall|k: int| 0 <= k < n ==> #[trigger] idx@[k] == p[k],
                forall|k: int| 0 <= k < n ==> 0 <= #[trigger] p[k] < n,
                blocks.len() == b,
                forall|k: int| 0 <= k < b ==> (#[trigger] blocks@[k])@ == parts@[p[k]].tokens@,
            decreases n - b,
        {
            let src = &parts[idx[b]].tokens;
            let mut t: Vec<Lz77Token> = Vec::with_capacity(src.len());
            let mut j = 0usize;
            while j < src.len()
                invariant
                    j <= src.len(),
                    t@ == src@.take(j as int),
                decreases src.len() - j,
            {
                t.push(src[j]);
                j = j + 1;
                proof {
                    assert(t@ =~= src@.take(j as int));
                }
            }
            proof {
                assert(src@.take(src.len() as int) =~= src@);
            }
            blocks.push(t);
            b = b + 1;
        }
        if n == 0 {
            blocks.push(Vec::new());
        }
        proof {
            assert(blocks_of(parts@, p, blocks@));
            assert forall|x: int, y: int|
                0 <= x < blocks.len() && 0 <= y < blocks[x].len() implies token_wf(#[trigger] blocks[x][y]) by {
                if n > 0 {
                    assert(blocks@[x]@ == parts@[p[x]].tokens@);
                    assert(token_wf(parts[p[x]].tokens@[y]));
                }
            }
            lemma_total_tokens_sum(blocks@);
            if n > 0 {
                let v = Seq::new(parts.len() as nat, |i: int| parts@[i].tokens@.len());
                assert(is_perm(p));
                lemma_perm_sum(v, p);
                assert(Seq::new(blocks.len() as nat, |i: int| blocks@[i]@.len()) =~= Seq::new(v.len(), |i: int| v[p[i]]));
            } else {
                assert(Seq::new(blocks.len() as nat, |i: int| blocks@[i]@.len()) =~= seq![0nat]);
                assert(sum_nat(seq![0nat]) == 0) by {
                    assert(seq![0nat].drop_last() =~= Seq::<nat>::empty());
                    assert(seq![0nat].last() == 0);
                    assert(sum_nat(Seq::<nat>::empty()) == 0);
                }
                assert(Seq::new(parts.len() as nat, |i: int| parts@[i].tokens@.len()) =~= Seq::<nat>::empty());
            }
            vstd::arithmetic::power2::lemma2_to64();
            vstd::arithmetic::power2::lemma2_to64_rest();
        }
        let opts = DeflateEncodeOptions { global_huffman: profile.global_huffman };
        let r = encode_deflate_blocks(&blocks, profile.strategy, &opts);
        proof {
            if r is Ok {
                assert(parts_stream(parts@, *profile, r->Ok_0@));
            }
        }
        r
    }
}

// ---------------------------------------------------------------------------
// The entry comes back
// ---------------------------------------------------------------------------

/// The first `k` spans' tokens, one span after another.
pub open spec fn spans_tokens(toks: Seq<Seq<Lz77Token>>, k: int) -> Seq<Lz77Token>
    decreases k,
{
    if k <= 0 {
        Seq::empty()
    } else {
        spans_tokens(toks, k - 1) + toks[k - 1]
    }
}

proof fn lemma_spans_prefix(data: Seq<u8>, spans: Seq<BlockSpan>, e: EntryId, toks: Seq<Seq<Lz77Token>>, k: int)
    requires
        data.len() <= usize::MAX,
        tiles(spans, e, data.len() as u64),
        toks.len() == spans.len(),
        forall|i: int| 0 <= i < spans.len() ==> tokens_rebuild_span(data, #[trigger] spans[i], toks[i]),
        0 <= k <= spans.len(),
    ensures
        lz_refs_ok(Seq::empty(), spans_tokens(toks, k)),
        forall|i: int| 0 <= i < spans_tokens(toks, k).len() ==> token_wf(#[trigger] spans_tokens(toks, k)[i]),
        lz_decode(Seq::empty(), spans_tokens(toks, k)) == data.subrange(
            0,
            if k == 0 {
                0
            } else {
                spans[k - 1].offset + spans[k - 1].len
            },
        ),
    decreases k,
{
    if k > 0 {
        lemma_spans_prefix(data, spans, e, toks, k - 1);
        let sp = spans[k - 1];
        lemma_tiles_within(spans, e, data.len() as u64, k - 1);
        let pos = if k - 1 == 0 {
            0
        } else {
            spans[k - 2].offset + spans[k - 2].len
        };
        if k - 1 > 0 {
            let j = k - 2;
            assert(spans[j + 1].offset == spans[j].offset + spans[j].len);
        }
        assert(pos == sp.offset);
        assert(tokens_rebuild_span(data, sp, toks[k - 1]));
        let off = span_off(sp);
        let start = span_start(sp);
        let end = span_end(sp);
        assert(off == sp.offset);
        assert(end == sp.offset + sp.len);
        let prev = spans_tokens(toks, k - 1);
        lemma_decode_concat(Seq::empty(), prev, toks[k - 1]);
        let p1 = data.subrange(0, start);
        let p2 = data.subrange(start, off);
        assert(data.subrange(0, off) =~= p1 + p2);
        lemma_decode_window(p1, p2, toks[k - 1]);
        assert(p1 + data.subrange(start, end) =~= data.subrange(0, end));
        let all = spans_tokens(toks, k);
        assert forall|i: int| 0 <= i < all.len() implies token_wf(#[trigger] all[i]) by {
            if i < prev.len() {
                assert(all[i] == prev[i]);
            } else {
                assert(all[i] == toks[k - 1][i - prev.len()]);
            }
        }
    }
}

/// Decoding every span's tokens, one span after another from nothing, gives back the whole
/// entry when the spans tile it.
pub proof fn lemma_spans_rebuild_entry(data: Seq<u8>, spans: Seq<BlockSpan>, e: EntryId, toks: Seq<Seq<Lz77Token>>)
    requires
        data.len() <= usize::MAX,
        tiles(spans, e, data.len() as u64),
        toks.len() == spans.len(),
        forall|i: int| 0 <= i < spans.len() ==> tokens_rebuild_span(data, #[trigger] spans[i], toks[i]),
    ensures
        lz_refs_ok(Seq::empty(), spans_tokens(toks, toks.len() as int)),
        lz_decode(Seq::empty(), spans_tokens(toks, toks.len() as int)) == data,
{
    lemma_spans_prefix(data, spans, e, toks, toks.len() as int);
    if spans.len() > 0 {
        assert(data.subrange(0, spans.last().offset + spans.last().len) =~= data);
    } else {
        assert(data.subrange(0, 0) =~= data);
    }
}

proof fn lemma_increasing_perm_is_identity(p: Seq<int>, i: int)
    requires
        forall|a: int| 0 <= a < p.len() ==> 0 <= #[trigger] p[a] < p.len(),
        forall|a: int, b: int| 0 <= a < b < p.len() ==> p[a] < p[b],
        0 <= i < p.len(),
    ensures
        p[i] == i,
{
    lemma_increasing_lower(p, i);
    lemma_increasing_upper(p, i);
}

proof fn lemma_increasing_lower(p: Seq<int>, i: int)
    requires
        forall|a: int| 0 <= a < p.len() ==> 0 <= #[trigger] p[a] < p.len(),
        forall|a: int, b: int| 0 <= a < b < p.len() ==> p[a] < p[b],
        0 <= i < p.len(),
    ensures
        p[i] >= i,
    decreases i,
{
    if i > 0 {
        lemma_increasing_lower(p, i - 1);
        assert(p[i - 1] < p[i]);
    }
}

proof fn lemma_increasing_upper(p: Seq<int>, i: int)
    requires
        forall|a: int| 0 <= a < p.len() ==> 0 <= #[trigger] p[a] < p.len(),
        forall|a: int, b: int| 0 <= a < b < p.len() ==> p[a] < p[b],
        0 <= i < p.len(),
    ensures
        p[i] <= i,
    decreases p.len() - i,
{
    if i < p.len() - 1 {
        lemma_increasing_upper(p, i + 1);
        assert(p[i] < p[i + 1]);
    }
}

proof fn lemma_concat_is_spans(blocks: Seq<Vec<Lz77Token>>, toks: Seq<Seq<Lz77Token>>, k: int)
    requires
        0 <= k <= blocks.len(),
        blocks.len() == toks.len(),
        forall|i: int| 0 <= i < blocks.len() ==> (#[trigger] blocks[i])@ == toks[i],
    ensures
        concat_tokens(blocks.take(k)) == spans_tokens(toks, k),
    decreases k,
{
    if k > 0 {
        lemma_concat_is_spans(blocks, toks, k - 1);
        assert(blocks.take(k).drop_last() =~= blocks.take(k - 1));
    } else {
        assert(blocks.take(0) =~= Seq::<Vec<Lz77Token>>::empty());
    }
}

/// The tokens that an entry's DEFLATE stream carries, one block after another, decode to the
/// entry: for any stream whose blocks rebuild the spans of a tiling of the entry.
pub proof fn lemma_stream_rebuilds_entry(
    data: Seq<u8>,
    spans: Seq<BlockSpan>,
    e: EntryId,
    profile: CompressionProfile,
    bytes: Seq<u8>,
)
    requires
        data.len() <= usize::MAX,
        tiles(spans, e, data.len() as u64),
        spans_stream(data, spans, profile, bytes),
    ensures
        exists|blocks: Seq<Vec<Lz77Token>>|
            #[trigger] deflate_bytes(blocks, profile.strategy, profile.global_huffman, bytes)
                && lz_refs_ok(Seq::empty(), concat_tokens(blocks))
                && lz_decode(Seq::empty(), concat_tokens(blocks)) == data,
        inflate_bits(bytes_to_bits(bytes)) == Some(data),
{
    let parts = choose|parts: Seq<Lz77JobOutput>|
        #[trigger] parts_stream(parts, profile, bytes) && parts.len() == spans.len() && forall|i: int|
            0 <= i < parts.len() ==> (#[trigger] parts[i]).block == spans[i].block && tokens_rebuild_span(
                data,
                spans[i],
                parts[i].tokens@,
            );
    let (p, blocks) = choose|p: Seq<int>, blocks: Seq<Vec<Lz77Token>>|
        #![trigger block_order(parts, p), blocks_of(parts, p, blocks)]
        block_order(parts, p) && blocks_of(parts, p, blocks) && deflate_bytes(
            blocks,
            profile.strategy,
            profile.global_huffman,
            bytes,
        ) && inflate_tokens(bytes_to_bits(bytes)) == Some(concat_tokens(blocks));
    let toks = Seq::new(parts.len(), |i: int| parts[i].tokens@);
    assert forall|i: int| 0 <= i < spans.len() implies tokens_rebuild_span(data, #[trigger] spans[i], toks[i]) by {
        assert(tokens_rebuild_span(data, spans[i], parts[i].tokens@));
    }
    lemma_spans_rebuild_entry(data, spans, e, toks);
    if parts.len() == 0 {
        assert(spans.len() == 0);
        assert(blocks.take(1) =~= blocks);
        assert(blocks.take(0) =~= Seq::<Vec<Lz77Token>>::empty());
        assert(concat_tokens(blocks) == concat_tokens(blocks.drop_last()) + blocks.last()@);
        assert(blocks.drop_last() =~= Seq::<Vec<Lz77Token>>::empty());
        assert(concat_tokens(blocks) =~= Seq::<Lz77Token>::empty());
        assert(spans_tokens(toks, 0) =~= Seq::<Lz77Token>::empty());
    } else {
        crate::plan::lemma_tiles_count(spans, e, data.len() as u64);
        assert forall|a: int, b: int| 0 <= a < b < p.len() implies p[a] < p[b] by {
            assert(0 <= p[a] < p.len());
            assert(0 <= p[b] < p.len());
            assert((p[a] as u64) as int == p[a]);
            assert((p[b] as u64) as int == p[b]);
            assert(parts[p[a]].block == spans[p[a]].block);
            assert(parts[p[b]].block == spans[p[b]].block);
            assert(spans[p[a]].block == crate::ids::BlockId(p[a] as u64));
            assert(spans[p[b]].block == crate::ids::BlockId(p[b] as u64));
        }
        assert forall|i: int| 0 <= i < blocks.len() implies (#[trigger] blocks[i])@ == toks[i] by {
            lemma_increasing_perm_is_identity(p, i);
        }
        lemma_concat_is_spans(blocks, toks, blocks.len() as int);
        assert(blocks.take(blocks.len() as int) =~= blocks);
    }
    assert(lz_refs_ok(Seq::empty(), concat_tokens(blocks)));
    assert(lz_decode(Seq::empty(), concat_tokens(blocks)) == data);
}

} // verus!
