//! Archive-level decisions: fallback profiles, entry layout, and consistency checks.
use std::path::PathBuf;
use vstd::prelude::*;

use crate::blocks::{ArchiveEntryDescriptor, BlockSpan, ChunkPlan, EntryRunStats};
use crate::dictionary::{analyzed, total_size, GlobalAnalyzer, GlobalModel, SamplePlan};
use crate::engine::{span_end, spans_bytes, spans_stream, DeflateEngine, DeflateOutput, EntryCompressHints};
use crate::stream::MAX_STREAM_TOKENS;
use crate::error::{ParaflateError, ParaflateResult};
use crate::ids::EntryId;
use crate::index::PatternIndex;
use crate::order::{entry_le, entry_tie, name_bytes, sort_entries};
use crate::profile::{
    ArchiveLayout, ArchiveProfile, CompressionMethod, CompressionProfile, DeflateStrategy, ExecutionPolicy,
};

verus! {

/// The profile with its method switched to stored.
pub fn merge_profile_stored(base: &CompressionProfile) -> (p: CompressionProfile)
    ensures
        p == (CompressionProfile { method: CompressionMethod::Stored, ..*base }),
{
    let mut p = *base;
    p.method = CompressionMethod::Stored;
    p
}

/// The profile switched to DEFLATE with fixed codes and no shared codes.
pub fn merge_profile_fixed_deflate(base: &CompressionProfile) -> (p: CompressionProfile)
    ensures
        p == (CompressionProfile {
            method: CompressionMethod::Deflate,
            strategy: DeflateStrategy::Fixed,
            global_huffman: false,
            ..*base
        }),
{
    let mut p = *base;
    p.method = CompressionMethod::Deflate;
    p.strategy = DeflateStrategy::Fixed;
    p.global_huffman = false;
    p
}

/// Errors that another compression attempt may get past.
pub open spec fn retryable(err: ParaflateError) -> bool {
    ||| err is CompressionFailed
    ||| err is InvariantViolated
    ||| err is SchedulerShutdown
    ||| err is WorkerJoin
}

/// Whether compressing again with a simpler profile may succeed.
pub fn should_retry_compression(err: &ParaflateError) -> (r: bool)
    ensures
        r == retryable(*err),
{
    match err {
        ParaflateError::CompressionFailed(_) => true,
        ParaflateError::InvariantViolated(_) => true,
        ParaflateError::SchedulerShutdown => true,
        ParaflateError::WorkerJoin => true,
        _ => false,
    }
}

/// Where a local entry's header ends and its payload ends: after the 30-byte fixed header, the
/// name and the extra field, then the compressed bytes (sums saturate); refused when the payload
/// runs past the data.
pub fn local_header_payload_bounds(
    data: &[u8],
    local_offset: u64,
    name_len: u16,
    extra_len: u16,
    compressed_size: u32,
) -> (r: ParaflateResult<(u64, u64)>)
    ensures
        ({
            let sat = |x: int| if x > u64::MAX { u64::MAX as int } else { x };
            let base = sat(local_offset + 30);
            let hdr_end = sat(sat(base + name_len) + extra_len);
            let pay_end = sat(hdr_end + compressed_size);
            &&& pay_end > data.len() ==> (r matches Err(e) && e matches ParaflateError::ArchiveConsistency(m)
                && m@ == "local entry payload out of range"@)
            &&& pay_end <= data.len() ==> r == Ok::<(u64, u64), ParaflateError>((hdr_end as u64, pay_end as u64))
        }),
{
    let base = local_offset.saturating_add(30);
    let hdr_end = base.saturating_add(name_len as u64).saturating_add(extra_len as u64);
    let pay_end = hdr_end.saturating_add(compressed_size as u64);
    if pay_end > data.len() as u64 {
        return Err(ParaflateError::ArchiveConsistency("local entry payload out of range".to_owned()));
    }
    Ok((hdr_end, pay_end))
}

#[derive(Clone, Debug)]
pub struct CreateArchiveParams {
    pub input_root: PathBuf,
    pub output_zip: PathBuf,
    pub profile: ArchiveProfile,
    pub debug_blocks: bool,
    pub collect_entry_stats: bool,
}

impl CreateArchiveParams {
    pub fn new(input_root: PathBuf, output_zip: PathBuf, profile: ArchiveProfile) -> (r: Self)
        ensures
            r == (CreateArchiveParams {
                input_root,
                output_zip,
                profile,
                debug_blocks: false,
                collect_entry_stats: false,
            }),
    {
        CreateArchiveParams {
            input_root,
            output_zip,
            profile,
            debug_blocks: false,
            collect_entry_stats: false,
        }
    }

    pub fn with_debug(self, v: bool) -> (r: Self)
        ensures
            r == (CreateArchiveParams { debug_blocks: v, ..self }),
    {
        let mut s = self;
        s.debug_blocks = v;
        s
    }

    pub fn with_entry_stats(self, v: bool) -> (r: Self)
        ensures
            r == (CreateArchiveParams { collect_entry_stats: v, ..self }),
    {
        let mut s = self;
        s.collect_entry_stats = v;
        s
    }
}

pub struct ArchiveSession;

/// `bytes` encode the entry `data` as `profile` asks: the bytes themselves when stored, else a
/// DEFLATE stream whose blocks rebuild the planned spans.
pub open spec fn encodes_entry(data: Seq<u8>, spans: Seq<BlockSpan>, profile: CompressionProfile, bytes: Seq<u8>) -> bool {
    if profile.method == CompressionMethod::Stored {
        bytes == data
    } else {
        spans_stream(data, spans, profile, bytes)
    }
}

/// The compression attempts for an entry: the hinted profile, then fixed codes, then stored.
pub open spec fn fallback_profile(base: CompressionProfile, attempt: int) -> CompressionProfile {
    if attempt == 0 {
        base
    } else if attempt == 1 {
        CompressionProfile {
            method: CompressionMethod::Deflate,
            strategy: DeflateStrategy::Fixed,
            global_huffman: false,
            ..base
        }
    } else {
        CompressionProfile { method: CompressionMethod::Stored, ..base }
    }
}

/// The hints of attempt `a` of the fallback chain: as hinted; then fixed codes; then stored
/// (the later attempts with the model's LZ77 effort).
pub open spec fn fallback_hints(hints: EntryCompressHints, a: int) -> EntryCompressHints {
    if a == 0 {
        hints
    } else {
        EntryCompressHints { profile: fallback_profile(hints.profile, a), lz77_max_chain: None, lz77_nice_match: None }
    }
}

impl ArchiveSession {
    pub fn new() -> (r: Self) {
        ArchiveSession
    }

    /// Run the fallback chain with `attempt` compressing the entry under given hints: first as
    /// hinted; when that fails with an error a retry may get past, with fixed codes; when that
    /// fails so too, stored. The result is that of the last attempt made; each earlier attempt
    /// failed with a retryable error, and an attempt before the last that fails ends the chain
    /// only with an error no retry gets past.
    pub fn run_fallback<F: Fn(&EntryCompressHints) -> ParaflateResult<DeflateOutput>>(
        hints: &EntryCompressHints,
        attempt: &F,
    ) -> (r: ParaflateResult<DeflateOutput>)
        requires
            forall|h: &EntryCompressHints| #[trigger] attempt.requires((h,)),
        ensures
            exists|a: int|
                #![trigger fallback_hints(*hints, a)]
                {
                    &&& 0 <= a <= 2
                    &&& call_ensures(attempt, (&fallback_hints(*hints, a),), r)
                    &&& forall|b: int|
                        #![trigger fallback_hints(*hints, b)]
                        0 <= b < a ==> exists|e: ParaflateError|
                            retryable(e) && call_ensures(attempt, (&fallback_hints(*hints, b),), Err(e))
                    &&& a < 2 ==> (r matches Err(e) ==> !retryable(e))
                },
    {
        let r0 = attempt(hints);
        proof {
            assert(fallback_hints(*hints, 0) == *hints);
        }
        let e0 = match r0 {
            Ok(o) => {
                return Ok(o);
            },
            Err(e) => e,
        };
        if !should_retry_compression(&e0) {
            return Err(e0);
        }
        let fixed = EntryCompressHints {
            profile: merge_profile_fixed_deflate(&hints.profile),
            lz77_max_chain: None,
            lz77_nice_match: None,
        };
        let r1 = attempt(&fixed);
        proof {
            assert(fixed == fallback_hints(*hints, 1));
            assert(call_ensures(attempt, (&fallback_hints(*hints, 0),), Err(e0)));
        }
        let e1 = match r1 {
            Ok(o) => {
                return Ok(o);
            },
            Err(e) => e,
        };
        if !should_retry_compression(&e1) {
            return Err(e1);
        }
        let stored = EntryCompressHints {
            profile: merge_profile_stored(&hints.profile),
            lz77_max_chain: None,
            lz77_nice_match: None,
        };
        let r2 = attempt(&stored);
        proof {
            assert(stored == fallback_hints(*hints, 2));
            assert(call_ensures(attempt, (&fallback_hints(*hints, 1),), Err(e1)));
        }
        r2
    }

    /// Compress an entry with the hinted profile; when that fails with an error a retry may get
    /// past, again with fixed codes (and the model's LZ77 effort), and when that fails too, stored.
    /// Whichever attempt succeeds, its bytes encode the entry as that attempt's profile asks.
    /// Where the hinted attempt is owed success (the spans lie in the data and are not too many
    /// bytes), its bytes are the result; where a span runs past the data, both DEFLATE attempts
    /// fail and the entry is stored.
    pub fn compress_with_fallback(
        engine: &DeflateEngine,
        entry: &ArchiveEntryDescriptor,
        data: &[u8],
        plan: &ChunkPlan,
        model: &GlobalModel,
        index: &PatternIndex,
        hints: &EntryCompressHints,
    ) -> (r: ParaflateResult<DeflateOutput>)
        requires
            index.wf(),
            plan.spans.len() < vstd::arithmetic::power2::pow2(48),
        ensures
            data.len() != entry.uncompressed_size ==> (r matches Err(e) && e matches ParaflateError::InvariantViolated(m)
                && m@ == "entry size mismatch"@),
            data.len() == entry.uncompressed_size ==> r is Ok,
            r matches Ok(out) ==> {
                &&& out.crc32 == crate::engine::crc32_ieee(data@)
                &&& out.uncompressed_size == entry.uncompressed_size
                &&& exists|a: int|
                    #![trigger fallback_profile(hints.profile, a)]
                    0 <= a <= 2 && encodes_entry(data@, plan.spans@, fallback_profile(hints.profile, a), out.compressed@)
            },
            data.len() == entry.uncompressed_size && hints.profile.method == CompressionMethod::Stored
                ==> (r matches Ok(out) && out.compressed@ == data@),
            data.len() == entry.uncompressed_size && (forall|i: int|
                0 <= i < plan.spans.len() ==> span_end(#[trigger] plan.spans@[i]) <= data.len())
                && spans_bytes(plan.spans@) <= MAX_STREAM_TOKENS ==> (r matches Ok(out) && encodes_entry(
                data@,
                plan.spans@,
                hints.profile,
                out.compressed@,
            )),
            data.len() == entry.uncompressed_size && hints.profile.method == CompressionMethod::Deflate
                && (exists|i: int| 0 <= i < plan.spans.len() && span_end(#[trigger] plan.spans@[i]) > data.len())
                ==> (r matches Ok(out) && out.compressed@ == data@),
    {
        let attempt = |h: &EntryCompressHints| -> (o: ParaflateResult<DeflateOutput>)
            requires
                index.wf(),
                plan.spans.len() < vstd::arithmetic::power2::pow2(48),
            ensures
                data.len() != entry.uncompressed_size ==> (o matches Err(e) && e matches ParaflateError::InvariantViolated(m)
                    && m@ == "entry size mismatch"@),
                data.len() == entry.uncompressed_size && h.profile.method == CompressionMethod::Stored
                    ==> (o matches Ok(out) && out.compressed@ == data@),
                data.len() == entry.uncompressed_size && h.profile.method == CompressionMethod::Deflate ==> {
                    &&& (exists|i: int| 0 <= i < plan.spans.len() && span_end(#[trigger] plan.spans@[i]) > data.len())
                        ==> (o matches Err(e) && e matches ParaflateError::InvariantViolated(m) && m@ == "span bounds"@)
                    &&& o matches Ok(out) ==> spans_stream(data@, plan.spans@, h.profile, out.compressed@)
                    &&& (forall|i: int| 0 <= i < plan.spans.len() ==> span_end(#[trigger] plan.spans@[i]) <= data.len())
                        && spans_bytes(plan.spans@) <= MAX_STREAM_TOKENS ==> o is Ok
                },
                o matches Ok(out) ==> out.crc32 == crate::engine::crc32_ieee(data@) && out.uncompressed_size
                    == entry.uncompressed_size,
                data.len() == entry.uncompressed_size ==> (o matches Err(e) ==> retryable(e)),
            { engine.compress_entry_serial(entry, data, plan, model, index, Some(h)) };
        proof {
            assert forall|h: &EntryCompressHints| #[trigger] attempt.requires((h,)) by {}
        }
        let r = Self::run_fallback(hints, &attempt);
        proof {
            let a = choose|a: int|
                #![trigger fallback_hints(*hints, a)]
                {
                    &&& 0 <= a <= 2
                    &&& call_ensures(attempt, (&fallback_hints(*hints, a),), r)
                    &&& forall|b: int|
                        #![trigger fallback_hints(*hints, b)]
                        0 <= b < a ==> exists|e: ParaflateError|
                            retryable(e) && call_ensures(attempt, (&fallback_hints(*hints, b),), Err(e))
                    &&& a < 2 ==> (r matches Err(e) ==> !retryable(e))
                };
            assert(fallback_hints(*hints, a).profile == fallback_profile(hints.profile, a));
            if a > 0 {
                assert(fallback_hints(*hints, 0) == *hints);
                let e0 = choose|e: ParaflateError|
                    retryable(e) && call_ensures(attempt, (&fallback_hints(*hints, 0),), Err(e));
                assert(retryable(e0) && call_ensures(attempt, (&fallback_hints(*hints, 0),), Err(e0)));
            }
            if a > 1 {
                assert(fallback_hints(*hints, 1).profile.method == CompressionMethod::Deflate);
                let e1 = choose|e: ParaflateError|
                    retryable(e) && call_ensures(attempt, (&fallback_hints(*hints, 1),), Err(e));
                assert(retryable(e1) && call_ensures(attempt, (&fallback_hints(*hints, 1),), Err(e1)));
            }
            if r is Ok {
                assert(encodes_entry(data@, plan.spans@, fallback_profile(hints.profile, a), r->Ok_0.compressed@));
            }
        }
        r
    }

    /// The run statistics of one compressed entry; it counts as stored when its compressed
    /// size equals its size.
    pub fn entry_stats(entry: &ArchiveEntryDescriptor, out: &DeflateOutput) -> (s: EntryRunStats)
        ensures
            s == (EntryRunStats {
                entry_id: entry.id.0,
                uncompressed_size: entry.uncompressed_size,
                compressed_size: out.compressed.len() as u64,
                stored_effective: out.compressed.len() == entry.uncompressed_size,
            }),
    {
        let c = out.compressed.len() as u64;
        EntryRunStats {
            entry_id: entry.id.0,
            uncompressed_size: entry.uncompressed_size,
            compressed_size: c,
            stored_effective: c == entry.uncompressed_size,
        }
    }
}

/// `after` is `before` put in archive order (stably) and renumbered from 0.
pub open spec fn laid_out(before: Seq<ArchiveEntryDescriptor>, after: Seq<ArchiveEntryDescriptor>, by_size: bool) -> bool {
    exists|p: Seq<int>|
        #![trigger p.len()]
        {
            &&& p.len() == before.len()
            &&& after.len() == before.len()
            &&& forall|i: int| 0 <= i < p.len() ==> 0 <= #[trigger] p[i] < p.len()
            &&& forall|i: int, j: int| 0 <= i < j < p.len() ==> p[i] != p[j]
            &&& forall|i: int|
                0 <= i < p.len() ==> #[trigger] after[i] == (ArchiveEntryDescriptor { id: EntryId(i as u32), ..before[p[i]] })
            &&& forall|i: int, j: int|
                0 <= i < j < p.len() ==> entry_le(after[i], after[j], by_size) && (entry_tie(after[i], after[j], by_size) ==> p[i] < p[j])
        }
}

impl ArchiveSession {
    /// Put the entries in the profile's layout order (by name, or largest first) and number
    /// them from 0 in that order.
    pub fn apply_layout(entries: &mut Vec<ArchiveEntryDescriptor>, profile: &ArchiveProfile)
        requires
            old(entries).len() <= u32::MAX,
        ensures
            laid_out(old(entries)@, final(entries)@, profile.layout != ArchiveLayout::DeterministicLexical),
    {
        let by_size = match profile.layout {
            ArchiveLayout::DeterministicLexical => false,
            ArchiveLayout::SizeDescending => true,
            ArchiveLayout::GlobalScoreDescending => true,
        };
        arrange_entries(entries, by_size);
    }
}

/// Put the entries in archive order (by name, or largest first; ties keep their order) and
/// number them from 0 in that order.
pub fn arrange_entries(entries: &mut Vec<ArchiveEntryDescriptor>, by_size: bool)
    requires
        old(entries).len() <= u32::MAX,
    ensures
        laid_out(old(entries)@, final(entries)@, by_size),
{
    let ghost before = entries@;
    sort_entries(entries, by_size);
    let ghost sorted = entries@;
    let n = entries.len();
    let mut rev: Vec<ArchiveEntryDescriptor> = Vec::with_capacity(n);
    while entries.len() > 0
        invariant
            entries.len() + rev.len() == n,
            n == sorted.len(),
            entries@ == sorted.take(entries.len() as int),
            forall|k: int| 0 <= k < rev.len() ==> #[trigger] rev@[k] == sorted[n - 1 - k],
        decreases entries.len(),
    {
        let e = entries.pop().unwrap();
        rev.push(e);
        proof {
            assert(entries@ =~= sorted.take(entries.len() as int));
        }
    }
    let mut k = 0usize;
    while rev.len() > 0
        invariant
            k + rev.len() == n,
            n == sorted.len(),
            n <= u32::MAX,
            forall|q: int| 0 <= q < rev.len() ==> #[trigger] rev@[q] == sorted[n - 1 - q],
            entries.len() == k,
            forall|q: int| 0 <= q < k ==> #[trigger] entries@[q] == (ArchiveEntryDescriptor { id: EntryId(q as u32), ..sorted[q] }),
        decreases rev.len(),
    {
        let mut e = rev.pop().unwrap();
        proof {
            assert(e == sorted[k as int]);
        }
        e.id = EntryId(k as u32);
        entries.push(e);
        k = k + 1;
    }
    proof {
        let p = choose|p: Seq<int>|
            #![trigger p.len()]
            {
                &&& p.len() == before.len()
                &&& forall|i: int| 0 <= i < p.len() ==> 0 <= #[trigger] p[i] < p.len()
                &&& forall|i: int, j: int| 0 <= i < j < p.len() ==> p[i] != p[j]
                &&& forall|i: int| 0 <= i < p.len() ==> #[trigger] sorted[i] == before[p[i]]
                &&& forall|i: int, j: int|
                    0 <= i < j < p.len() ==> entry_le(sorted[i], sorted[j], by_size)
                        && (entry_tie(sorted[i], sorted[j], by_size) ==> p[i] < p[j])
            };
        assert forall|i: int, j: int| 0 <= i < j < p.len() implies entry_le(entries@[i], entries@[j], by_size) && (entry_tie(entries@[i], entries@[j], by_size) ==> p[i] < p[j]) by {
            assert(entries@[i] == (ArchiveEntryDescriptor { id: EntryId(i as u32), ..sorted[i] }));
            assert(entries@[j] == (ArchiveEntryDescriptor { id: EntryId(j as u32), ..sorted[j] }));
            assert(entry_le(sorted[i], sorted[j], by_size));
            assert(entry_tie(sorted[i], sorted[j], by_size) ==> p[i] < p[j]);
            assert(name_bytes(entries@[i]) == name_bytes(sorted[i]));
            assert(name_bytes(entries@[j]) == name_bytes(sorted[j]));
        }
        assert(laid_out(before, entries@, by_size));
    }
}

/// Archives this small are compressed with the default model: sampling would cost more than
/// it saves.
pub open spec fn small_archive(total_bytes: u64) -> bool {
    total_bytes < 64 * 1024
}

/// `m` is the default model.
pub open spec fn is_default_model(m: GlobalModel) -> bool {
    &&& m.summary.total_uncompressed == 0
    &&& m.summary.entry_count == 0
    &&& m.summary.mean_entry_bytes == 0
    &&& m.summary.duplicate_mass == 0
    &&& m.summary.text_mass == 0
    &&& m.summary.top_patterns@.len() == 0
    &&& m.suggested_block_bytes == 256 * 1024
    &&& m.suggested_order@.len() == 0
    &&& m.lz77_max_chain == 128
    &&& m.lz77_nice_match == 128
    &&& m.index_stride == 1
}

impl ArchiveSession {
    /// The metadata scan: how many entries and how many bytes in all (saturating); an archive
    /// needs at least one entry.
    pub fn scan_totals(entries: &[ArchiveEntryDescriptor]) -> (r: ParaflateResult<(u64, u64)>)
        ensures
            entries.len() == 0 <==> r is Err,
            r matches Err(e) ==> e is EmptyArchive,
            r matches Ok(t) ==> t == (entries.len() as u64, total_size(entries@, entries.len() as int)),
    {
        if entries.len() == 0 {
            return Err(ParaflateError::EmptyArchive);
        }
        let mut total = 0u64;
        let mut k = 0usize;
        while k < entries.len()
            invariant
                k <= entries.len(),
                total == total_size(entries@, k as int),
            decreases entries.len() - k,
        {
            total = total.saturating_add(entries[k].uncompressed_size);
            k = k + 1;
        }
        Ok((entries.len() as u64, total))
    }

    /// Whether the archive is large enough to sample.
    pub fn wants_samples(total_bytes: u64) -> (r: bool)
        ensures
            r == !small_archive(total_bytes),
    {
        total_bytes >= 64 * 1024
    }

    /// The model to compress with: the default one for a small archive, else the one the
    /// samples give.
    pub fn archive_model(
        entries: &[ArchiveEntryDescriptor],
        samples: &[(usize, Vec<u8>)],
        policy: &ExecutionPolicy,
        plan: &SamplePlan,
        total_bytes: u64,
    ) -> (r: GlobalModel)
        requires
            !small_archive(total_bytes) ==> policy.min_block_bytes <= policy.max_block_bytes,
        ensures
            small_archive(total_bytes) ==> is_default_model(r),
            !small_archive(total_bytes) ==> analyzed(entries@, samples@, *policy, *plan, r),
    {
        if total_bytes < 64 * 1024 {
            GlobalModel::default()
        } else {
            GlobalAnalyzer::analyze(entries, samples, policy, plan)
        }
    }
}

/// Which source of matches dominates a block's LZ77 output: balanced when the window and index
/// counts differ by at most 12 % of the larger (at least 1), else the larger one.
pub open spec fn dominance_spec(win: u32, idx: u32) -> Seq<char> {
    let m = if win > idx { win as int } else { idx as int };
    let m1 = if m < 1 { 1 } else { m };
    let diff = if idx > win { idx - win } else { win - idx };
    if diff * 100 <= 12 * m1 {
        "balanced"@
    } else if idx > win {
        "index-dominant"@
    } else {
        "window-dominant"@
    }
}

/// Which source of matches dominates (see `dominance_spec`).
pub fn match_dominance(win: u32, idx: u32) -> (r: &'static str)
    ensures
        r@ == dominance_spec(win, idx),
{
    let m: u64 = if win > idx { win as u64 } else { idx as u64 };
    let m1: u64 = if m < 1 { 1 } else { m };
    let diff: u64 = if idx > win { (idx - win) as u64 } else { (win - idx) as u64 };
    if diff * 100 <= 12 * m1 {
        "balanced"
    } else if idx > win {
        "index-dominant"
    } else {
        "window-dominant"
    }
}

} // verus!
