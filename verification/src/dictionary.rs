//! Archive-wide statistics from samples: block size, entry order and LZ77 effort.
use vstd::prelude::*;

use crate::std_num::saturating_mul_usize;

use std::collections::HashMap;
use crate::blocks::{ArchiveEntryDescriptor, ByteClassHistogram, GlobalStatisticsSummary, PatternDigest};
use crate::order::{bytes_le, name_at, sort_indices_by_bytes, sort_indices_by_key};
use crate::perm::is_perm;
use crate::pm::freq_at;
use crate::profile::ExecutionPolicy;
use vstd::utf8::encode_utf8;

verus! {

#[derive(Clone, Debug)]
pub struct GlobalModel {
    pub summary: GlobalStatisticsSummary,
    pub suggested_block_bytes: usize,
    pub suggested_order: Vec<u32>,
    pub lz77_max_chain: u32,
    pub lz77_nice_match: u32,
    pub index_stride: usize,
}

impl Default for GlobalModel {
    fn default() -> (r: Self)
        ensures
            r.summary.total_uncompressed == 0,
            r.summary.entry_count == 0,
            r.summary.mean_entry_bytes == 0,
            r.summary.duplicate_mass == 0,
            r.summary.text_mass == 0,
            r.summary.top_patterns@.len() == 0,
            r.suggested_block_bytes == 256 * 1024,
            r.suggested_order@.len() == 0,
            r.lz77_max_chain == 128,
            r.lz77_nice_match == 128,
            r.index_stride == 1,
    {
        GlobalModel {
            summary: GlobalStatisticsSummary::default(),
            suggested_block_bytes: 256 * 1024,
            suggested_order: Vec::new(),
            lz77_max_chain: 128,
            lz77_nice_match: 128,
            index_stride: 1,
        }
    }
}

/// How much of each entry the sampler reads, and the sampling stride.
#[derive(Clone, Copy, Debug, PartialEq, Eq, Structural)]
pub struct SamplePlan {
    pub max_bytes_per_entry: usize,
    pub stride: usize,
}

impl SamplePlan {
    /// The larger of the two sample bounds, and one sample in every `1 / rate` bytes (the rate
    /// counted from at least 100 parts per million).
    pub fn from_policy(policy: &ExecutionPolicy) -> (r: Self)
        ensures
            r.max_bytes_per_entry == if policy.max_sample_bytes_per_entry < policy.min_sample_bytes {
                policy.min_sample_bytes
            } else {
                policy.max_sample_bytes_per_entry
            },
            r.stride == max_int(
                1,
                1_000_000int / (if policy.sample_rate_ppm < 100 {
                    100int
                } else {
                    policy.sample_rate_ppm as int
                }),
            ),
    {
        let max_bytes = if policy.max_sample_bytes_per_entry < policy.min_sample_bytes {
            policy.min_sample_bytes
        } else {
            policy.max_sample_bytes_per_entry
        };
        let rate: u32 = if policy.sample_rate_ppm < 100 {
            100
        } else {
            policy.sample_rate_ppm
        };
        let q = 1_000_000u32 / rate;
        let stride: usize = if q < 1 {
            1
        } else {
            q as usize
        };
        SamplePlan { max_bytes_per_entry: max_bytes, stride }
    }

    /// Bytes to sample from an entry of `uncompressed` bytes: none from an empty entry, else
    /// the whole entry up to the per-entry cap.
    pub fn window_for_entry(&self, uncompressed: u64) -> (r: usize)
        ensures
            uncompressed == 0 ==> r == 0,
            uncompressed != 0 ==> r == if (uncompressed as usize) < self.max_bytes_per_entry {
                uncompressed as usize
            } else {
                self.max_bytes_per_entry
            },
    {
        let cap = self.max_bytes_per_entry;
        if uncompressed == 0 {
            return 0;
        }
        let u = uncompressed as usize;
        if u < cap {
            u
        } else {
            cap
        }
    }
}

/// The suggested block size (see `GlobalAnalyzer::block_size`).
pub open spec fn block_size_spec(
    text_mass: u64,
    duplicate_mass: u64,
    mean_entry_bytes: u64,
    base: usize,
    min_b: usize,
    max_b: usize,
    sample_cap: usize,
    entry_count: usize,
) -> int {
    let text_bias = if text_mass > duplicate_mass {
        min_int(sat_usize(base * 2), max_b as int)
    } else {
        base as int
    };
    let small_files_bias = if mean_entry_bytes < 256 * 1024 {
        max_int(min_b as int, (base as int) / 4)
    } else {
        text_bias
    };
    let mem_bias = sat_usize(max_int(sample_cap as int, 4096) * 4);
    let merged = clamp_int(min_int(small_files_bias, mem_bias), min_b as int, max_b as int);
    let fanout = max_int(entry_count as int, 1);
    let spread = (max_b as int) / fanout;
    clamp_int(min_int(merged, max_int(spread, min_b as int)), min_b as int, max_b as int)
}

/// What the suggested block size is, read from the archive's statistics. Archives of small
/// entries (mean under 256 KiB) get at most a quarter of the base size; archives of large
/// entries get at most the base size unless their text mass exceeds their duplicate mass, and
/// then at most twice the base size (never under the minimum, never over the maximum). With one
/// entry and a sample cap large enough not to bind, a large entry gets exactly the base size, or
/// exactly twice it when text-heavy, each clamped to the policy's range. Whatever the entries,
/// the size stays within four times the per-entry sample cap (at least 4 KiB) and within the
/// maximum shared among the entries, unless the minimum overrides them.
pub proof fn lemma_block_size_law(
    text_mass: u64,
    duplicate_mass: u64,
    mean_entry_bytes: u64,
    base: usize,
    min_b: usize,
    max_b: usize,
    sample_cap: usize,
    entry_count: usize,
)
    requires
        min_b <= max_b,
    ensures
        ({
            let r = block_size_spec(text_mass, duplicate_mass, mean_entry_bytes, base, min_b, max_b, sample_cap, entry_count);
            &&& min_b <= r <= max_b
            &&& mean_entry_bytes < 256 * 1024 ==> r <= base / 4 || r == min_b
            &&& mean_entry_bytes >= 256 * 1024 && text_mass <= duplicate_mass ==> r <= base || r == min_b
            &&& mean_entry_bytes >= 256 * 1024 && text_mass > duplicate_mass ==> r <= 2 * base || r == min_b
            &&& r <= 4 * (if sample_cap < 4096 { 4096 } else { sample_cap as int }) || r == min_b
            &&& r <= (max_b as int) / (if entry_count < 1 { 1int } else { entry_count as int }) || r == min_b
            &&& mean_entry_bytes >= 256 * 1024 && entry_count <= 1 && (if sample_cap < 4096 { 4096 } else { sample_cap as int }) * 4 >= max_b ==> {
                &&& text_mass <= duplicate_mass ==> r == (if base < min_b {
                    min_b as int
                } else if base > max_b {
                    max_b as int
                } else {
                    base as int
                })
                &&& text_mass > duplicate_mass ==> r == (if 2 * base >= max_b {
                    max_b as int
                } else if 2 * base < min_b {
                    min_b as int
                } else {
                    2 * base
                })
            }
        }),
{
    let capv: int = if sample_cap < 4096 { 4096 } else { sample_cap as int };
    let text_bias = if text_mass > duplicate_mass {
        min_int(sat_usize(base * 2), max_b as int)
    } else {
        base as int
    };
    let small = if mean_entry_bytes < 256 * 1024 {
        max_int(min_b as int, (base as int) / 4)
    } else {
        text_bias
    };
    let mem_bias = sat_usize(max_int(sample_cap as int, 4096) * 4);
    assert(max_int(sample_cap as int, 4096) == capv);
    let merged = clamp_int(min_int(small, mem_bias), min_b as int, max_b as int);
    let fanout = max_int(entry_count as int, 1);
    let spread = (max_b as int) / fanout;
    assert(spread <= max_b) by {
        vstd::arithmetic::div_mod::lemma_div_is_ordered_by_denominator(max_b as int, 1, fanout);
    }
    if entry_count <= 1 {
        assert(fanout == 1);
        assert(spread == max_b);
    }
}

pub open spec fn min_int(a: int, b: int) -> int {
    if a < b {
        a
    } else {
        b
    }
}

pub open spec fn max_int(a: int, b: int) -> int {
    if a < b {
        b
    } else {
        a
    }
}

pub open spec fn clamp_int(x: int, lo: int, hi: int) -> int {
    if x < lo {
        lo
    } else if x > hi {
        hi
    } else {
        x
    }
}

/// `x`, or `usize::MAX` when it does not fit.
pub open spec fn sat_usize(x: int) -> int {
    if x > usize::MAX {
        usize::MAX as int
    } else {
        x
    }
}

/// The 64-bit mix of a byte and its position that the pattern counter keys on.
pub open spec fn hash64_spec(b: u8, pos: u64) -> u64 {
    let x0 = (((pos as int) * 0x9E37_79B1_85EB_CA87) % 0x1_0000_0000_0000_0000) as u64 ^ ((((b as u64) as int)
        * 0xC2B2_AE3D_27D4_EB4F) % 0x1_0000_0000_0000_0000) as u64;
    let x1 = x0 ^ (x0 >> 33u64);
    let x2 = (((x1 as int) * 0xFF51_AFD7_ED55_8CCD) % 0x1_0000_0000_0000_0000) as u64;
    x2 ^ (x2 >> 33u64)
}

/// The size of the first entry with identifier `id`.
pub open spec fn first_size(entries: Seq<ArchiveEntryDescriptor>, id: u32) -> u64
    decreases entries.len(),
{
    if entries.len() == 0 {
        0
    } else if entries[0].id.0 == id {
        entries[0].uncompressed_size
    } else {
        first_size(entries.drop_first(), id)
    }
}

/// The name of the first entry with identifier `id`.
pub open spec fn first_name(entries: Seq<ArchiveEntryDescriptor>, id: u32) -> Seq<u8>
    decreases entries.len(),
{
    if entries.len() == 0 {
        Seq::empty()
    } else if entries[0].id.0 == id {
        encode_utf8(entries[0].logical_name@)
    } else {
        first_name(entries.drop_first(), id)
    }
}

pub struct GlobalAnalyzer;

impl GlobalAnalyzer {
    /// The block size to plan with: text-heavy archives get larger blocks, archives of small
    /// files and memory-limited samples smaller ones, spread over the entries, always within
    /// the policy's bounds.
    pub fn block_size(
        summary: &GlobalStatisticsSummary,
        policy: &ExecutionPolicy,
        plan: &SamplePlan,
        entry_count: usize,
    ) -> (r: usize)
        requires
            policy.min_block_bytes <= policy.max_block_bytes,
        ensures
            r == block_size_spec(
                summary.text_mass,
                summary.duplicate_mass,
                summary.mean_entry_bytes,
                policy.base_block_bytes,
                policy.min_block_bytes,
                policy.max_block_bytes,
                plan.max_bytes_per_entry,
                entry_count,
            ),
            policy.min_block_bytes <= r <= policy.max_block_bytes,
            summary.mean_entry_bytes < 256 * 1024 ==> r <= policy.base_block_bytes / 4 || r == policy.min_block_bytes,
            summary.mean_entry_bytes >= 256 * 1024 && summary.text_mass <= summary.duplicate_mass ==> r
                <= policy.base_block_bytes || r == policy.min_block_bytes,
            summary.mean_entry_bytes >= 256 * 1024 && summary.text_mass > summary.duplicate_mass ==> r
                <= 2 * policy.base_block_bytes || r == policy.min_block_bytes,
            r <= 4 * (if plan.max_bytes_per_entry < 4096 { 4096 } else { plan.max_bytes_per_entry as int })
                || r == policy.min_block_bytes,
            r <= (policy.max_block_bytes as int) / (if entry_count < 1 { 1int } else { entry_count as int })
                || r == policy.min_block_bytes,
    {
        proof {
            lemma_block_size_law(
                summary.text_mass,
                summary.duplicate_mass,
                summary.mean_entry_bytes,
                policy.base_block_bytes,
                policy.min_block_bytes,
                policy.max_block_bytes,
                plan.max_bytes_per_entry,
                entry_count,
            );
        }
        let base = policy.base_block_bytes;
        let max_b = policy.max_block_bytes;
        let min_b = policy.min_block_bytes;
        let text_bias = if summary.text_mass > summary.duplicate_mass {
            let d = saturating_mul_usize(base, 2);
            if d < max_b {
                d
            } else {
                max_b
            }
        } else {
            base
        };
        let small_files_bias = if summary.mean_entry_bytes < (256 * 1024) {
            let q = base / 4;
            if min_b < q {
                q
            } else {
                min_b
            }
        } else {
            text_bias
        };
        let cap = if plan.max_bytes_per_entry < 4096 {
            4096
        } else {
            plan.max_bytes_per_entry
        };
        let mem_bias = saturating_mul_usize(cap, 4);
        let m0 = if small_files_bias < mem_bias {
            small_files_bias
        } else {
            mem_bias
        };
        let merged = if m0 < min_b {
            min_b
        } else if m0 > max_b {
            max_b
        } else {
            m0
        };
        let fanout = if entry_count < 1 {
            1
        } else {
            entry_count
        };
        let spread = max_b / fanout;
        let sp = if spread < min_b {
            min_b
        } else {
            spread
        };
        let m1 = if merged < sp {
            merged
        } else {
            sp
        };
        if m1 < min_b {
            min_b
        } else if m1 > max_b {
            max_b
        } else {
            m1
        }
    }

    /// Mix a byte with its position (multiply-xorshift, as in SplitMix64's finalizer).
    pub fn hash64(b: u8, pos: u64) -> (r: u64)
        ensures
            r == hash64_spec(b, pos),
    {
        let mut x = pos.wrapping_mul(0x9E37_79B1_85EB_CA87) ^ (b as u64).wrapping_mul(
            0xC2B2_AE3D_27D4_EB4F,
        );
        x = x ^ (x >> 33u64);
        x = x.wrapping_mul(0xFF51_AFD7_ED55_8CCD);
        x = x ^ (x >> 33u64);
        x
    }
}

proof fn lemma_first_entry(entries: Seq<ArchiveEntryDescriptor>, f: int)
    requires
        0 <= f < entries.len(),
        forall|k: int| 0 <= k < f ==> (#[trigger] entries[k]).id.0 != entries[f].id.0,
    ensures
        first_size(entries, entries[f].id.0) == entries[f].uncompressed_size,
        first_name(entries, entries[f].id.0) == encode_utf8(entries[f].logical_name@),
    decreases f,
{
    if f > 0 {
        let d = entries.drop_first();
        assert forall|k: int| 0 <= k < f - 1 implies (#[trigger] d[k]).id.0 != d[f - 1].id.0 by {
            assert(d[k] == entries[k + 1]);
        }
        lemma_first_entry(d, f - 1);
        assert(d[f - 1] == entries[f]);
        assert(entries[0].id.0 != entries[f].id.0);
    }
}

/// A stable ordering: `p` lists `0..n` once each, and `r[i]` is the identifier of entry `p[i]`.
pub open spec fn reorders(entries: Seq<ArchiveEntryDescriptor>, r: Seq<u32>, p: Seq<int>) -> bool {
    &&& p.len() == entries.len()
    &&& r.len() == entries.len()
    &&& forall|i: int| 0 <= i < p.len() ==> 0 <= #[trigger] p[i] < p.len()
    &&& forall|i: int, j: int| 0 <= i < j < p.len() ==> p[i] != p[j]
    &&& forall|i: int| 0 <= i < p.len() ==> #[trigger] r[i] == entries[p[i]].id.0
}

/// `r` orders the entries' identifiers largest entry first, ties kept in entry order.
pub open spec fn ordered_by_size(entries: Seq<ArchiveEntryDescriptor>, r: Seq<u32>) -> bool {
    exists|p: Seq<int>|
        #[trigger] reorders(entries, r, p) && forall|i: int, j: int|
            0 <= i < j < r.len() ==> first_size(entries, r[i]) > first_size(entries, r[j]) || (
            first_size(entries, r[i]) == first_size(entries, r[j]) && p[i] < p[j])
}

/// `r` orders the entries' identifiers by name, ties kept in entry order.
pub open spec fn ordered_by_name(entries: Seq<ArchiveEntryDescriptor>, r: Seq<u32>) -> bool {
    exists|p: Seq<int>|
        #[trigger] reorders(entries, r, p) && forall|i: int, j: int|
            0 <= i < j < r.len() ==> bytes_le(first_name(entries, r[i]), first_name(entries, r[j]))
                && (first_name(entries, r[i]) == first_name(entries, r[j]) ==> p[i] < p[j])
}

/// The bytes of a string (its UTF-8 encoding).
pub fn string_bytes(s: &String) -> (r: Vec<u8>)
    ensures
        r@ == encode_utf8(s@),
{
    let b = s.as_str().as_bytes();
    let mut out: Vec<u8> = Vec::with_capacity(b.len());
    let mut i = 0usize;
    while i < b.len()
        invariant
            i <= b.len(),
            out@ == b@.take(i as int),
        decreases b.len() - i,
    {
        out.push(b[i]);
        i = i + 1;
        proof {
            assert(out@ =~= b@.take(i as int));
        }
    }
    proof {
        assert(b@.take(b.len() as int) =~= b@);
    }
    out
}

proof fn lemma_reorders(entries: Seq<ArchiveEntryDescriptor>, out: Seq<u32>, idx: Seq<usize>, idx0: Seq<usize>, p: Seq<int>)
    requires
        p.len() == idx0.len(),
        idx0.len() == idx.len(),
        idx.len() == out.len(),
        out.len() == entries.len(),
        forall|i: int| 0 <= i < p.len() ==> 0 <= #[trigger] p[i] < p.len(),
        forall|i: int, j: int| 0 <= i < j < p.len() ==> p[i] != p[j],
        forall|i: int| 0 <= i < p.len() ==> #[trigger] idx[i] == idx0[p[i]],
        forall|k: int| 0 <= k < idx0.len() ==> #[trigger] idx0[k] == k,
        forall|k: int| 0 <= k < out.len() ==> #[trigger] out[k] == entries[idx[k] as int].id.0,
    ensures
        reorders(entries, out, p),
{
    assert forall|i: int| 0 <= i < p.len() implies #[trigger] out[i] == entries[p[i]].id.0 by {
        assert(idx[i] == idx0[p[i]]);
        assert(idx0[p[i]] == p[i]);
    }
}

proof fn lemma_sorted_by_size(
    entries: Seq<ArchiveEntryDescriptor>,
    keys: Seq<u64>,
    idx0: Seq<usize>,
    idx: Seq<usize>,
    out: Seq<u32>,
)
    requires
        idx0.len() == entries.len(),
        idx.len() == idx0.len(),
        out.len() == idx.len(),
        keys.len() == entries.len(),
        forall|k: int| 0 <= k < idx0.len() ==> #[trigger] idx0[k] == k,
        forall|k: int| 0 <= k < keys.len() ==> #[trigger] keys[k] == u64::MAX - first_size(entries, entries[k].id.0),
        forall|k: int| 0 <= k < out.len() ==> #[trigger] out[k] == entries[idx[k] as int].id.0,
        exists|p: Seq<int>|
            #![trigger p.len()]
            {
                &&& p.len() == idx0.len()
                &&& forall|i: int| 0 <= i < p.len() ==> 0 <= #[trigger] p[i] < p.len()
                &&& forall|i: int, j: int| 0 <= i < j < p.len() ==> p[i] != p[j]
                &&& forall|i: int| 0 <= i < p.len() ==> #[trigger] idx[i] == idx0[p[i]]
                &&& forall|i: int, j: int|
                    0 <= i < j < p.len() ==> (freq_at(keys, idx[i]) < freq_at(keys, idx[j]) || (freq_at(keys, idx[i]) == freq_at(keys, idx[j])
                        && p[i] < p[j]))
            },
    ensures
        ordered_by_size(entries, out),
{
    let p = choose|p: Seq<int>|
        #![trigger p.len()]
        {
            &&& p.len() == idx0.len()
            &&& forall|i: int| 0 <= i < p.len() ==> 0 <= #[trigger] p[i] < p.len()
            &&& forall|i: int, j: int| 0 <= i < j < p.len() ==> p[i] != p[j]
            &&& forall|i: int| 0 <= i < p.len() ==> #[trigger] idx[i] == idx0[p[i]]
            &&& forall|i: int, j: int|
                0 <= i < j < p.len() ==> (freq_at(keys, idx[i]) < freq_at(keys, idx[j]) || (freq_at(keys, idx[i]) == freq_at(keys, idx[j])
                    && p[i] < p[j]))
        };
    lemma_reorders(entries, out, idx, idx0, p);
    assert forall|i: int, j: int| 0 <= i < j < out.len() implies first_size(entries, out[i]) > first_size(entries, out[j]) || (
    first_size(entries, out[i]) == first_size(entries, out[j]) && p[i] < p[j]) by {
        assert(idx[i] == p[i]);
        assert(idx[j] == p[j]);
        assert(keys[idx[i] as int] == u64::MAX - first_size(entries, entries[idx[i] as int].id.0));
        assert(keys[idx[j] as int] == u64::MAX - first_size(entries, entries[idx[j] as int].id.0));
    }
}

#[verifier::spinoff_prover]
proof fn lemma_sorted_by_name(
    entries: Seq<ArchiveEntryDescriptor>,
    names: Seq<Vec<u8>>,
    idx0: Seq<usize>,
    idx: Seq<usize>,
    out: Seq<u32>,
)
    requires
        idx0.len() == entries.len(),
        idx.len() == idx0.len(),
        out.len() == idx.len(),
        names.len() == entries.len(),
        forall|k: int| 0 <= k < idx0.len() ==> #[trigger] idx0[k] == k,
        forall|k: int| 0 <= k < names.len() ==> (#[trigger] names[k])@ == first_name(entries, entries[k].id.0),
        forall|k: int| 0 <= k < out.len() ==> #[trigger] out[k] == entries[idx[k] as int].id.0,
        exists|p: Seq<int>|
            #![trigger p.len()]
            {
                &&& p.len() == idx0.len()
                &&& forall|i: int| 0 <= i < p.len() ==> 0 <= #[trigger] p[i] < p.len()
                &&& forall|i: int, j: int| 0 <= i < j < p.len() ==> p[i] != p[j]
                &&& forall|i: int| 0 <= i < p.len() ==> #[trigger] idx[i] == idx0[p[i]]
                &&& forall|i: int, j: int|
                    0 <= i < j < p.len() ==> bytes_le(name_at(names, idx[i]), name_at(names, idx[j]))
                        && (name_at(names, idx[i]) == name_at(names, idx[j]) ==> p[i] < p[j])
            },
    ensures
        ordered_by_name(entries, out),
{
    let p = choose|p: Seq<int>|
        #![trigger p.len()]
        {
            &&& p.len() == idx0.len()
            &&& forall|i: int| 0 <= i < p.len() ==> 0 <= #[trigger] p[i] < p.len()
            &&& forall|i: int, j: int| 0 <= i < j < p.len() ==> p[i] != p[j]
            &&& forall|i: int| 0 <= i < p.len() ==> #[trigger] idx[i] == idx0[p[i]]
            &&& forall|i: int, j: int|
                0 <= i < j < p.len() ==> bytes_le(name_at(names, idx[i]), name_at(names, idx[j]))
                    && (name_at(names, idx[i]) == name_at(names, idx[j]) ==> p[i] < p[j])
        };
    lemma_reorders(entries, out, idx, idx0, p);
    assert forall|i: int, j: int| 0 <= i < j < out.len() implies bytes_le(first_name(entries, out[i]), first_name(entries, out[j]))
        && (first_name(entries, out[i]) == first_name(entries, out[j]) ==> p[i] < p[j]) by {
        assert(idx[i] == p[i]);
        assert(idx[j] == p[j]);
        assert(name_at(names, idx[i]) == names[idx[i] as int]@);
        assert(name_at(names, idx[j]) == names[idx[j] as int]@);
        assert(bytes_le(name_at(names, idx[i]), name_at(names, idx[j])));
    }
}

impl GlobalAnalyzer {
    /// Index of the first entry carrying the identifier of entry `i`.
    fn first_with_id(entries: &[ArchiveEntryDescriptor], i: usize) -> (f: usize)
        requires
            i < entries.len(),
        ensures
            f <= i,
            entries[f as int].id.0 == entries[i as int].id.0,
            forall|k: int| 0 <= k < f ==> entries[k].id.0 != entries[i as int].id.0,
    {
        let mut f = 0usize;
        while entries[f].id.0 != entries[i].id.0
            invariant
                f <= i < entries.len(),
                forall|k: int| 0 <= k < f ==> entries[k].id.0 != entries[i as int].id.0,
            decreases i - f,
        {
            f = f + 1;
        }
        f
    }

    /// The entry identifiers in suggested archive order: largest entry first when duplicates
    /// dominate the samples, otherwise by name.
    pub fn order(entries: &[ArchiveEntryDescriptor], summary: &GlobalStatisticsSummary) -> (r: Vec<
        u32,
    >)
        ensures
            summary.duplicate_mass > summary.text_mass ==> ordered_by_size(entries@, r@),
            summary.duplicate_mass <= summary.text_mass ==> ordered_by_name(entries@, r@),
    {
        let n = entries.len();
        let mut idx: Vec<usize> = Vec::with_capacity(n);
        let mut keys: Vec<u64> = Vec::with_capacity(n);
        let mut names: Vec<Vec<u8>> = Vec::with_capacity(n);
        let mut i = 0usize;
        while i < n
            invariant
                i <= n == entries.len(),
                idx.len() == i,
                keys.len() == i,
                names.len() == i,
                forall|k: int| 0 <= k < i ==> #[trigger] idx[k] == k,
                forall|k: int|
                    0 <= k < i ==> #[trigger] keys[k] == u64::MAX - first_size(entries@, entries[k].id.0),
                forall|k: int|
                    0 <= k < i ==> (#[trigger] names@[k])@ == first_name(entries@, entries[k].id.0),
            decreases n - i,
        {
            let f = Self::first_with_id(entries, i);
            proof {
                lemma_first_entry(entries@, f as int);
            }
            idx.push(i);
            keys.push(u64::MAX - entries[f].uncompressed_size);
            names.push(string_bytes(&entries[f].logical_name));
            i = i + 1;
        }
        let by_size = summary.duplicate_mass > summary.text_mass;
        let ghost idx0 = idx@;
        if by_size {
            sort_indices_by_key(&mut idx, &keys);
        } else {
            sort_indices_by_bytes(&mut idx, &names);
        }
        let mut out: Vec<u32> = Vec::with_capacity(n);
        let mut j = 0usize;
        while j < n
            invariant
                j <= n == entries.len(),
                idx.len() == n,
                forall|k: int| 0 <= k < n ==> #[trigger] idx[k] < n,
                out.len() == j,
                forall|k: int| 0 <= k < j ==> #[trigger] out[k] == entries[idx[k] as int].id.0,
            decreases n - j,
        {
            proof {
                assert(idx[j as int] < n);
            }
            out.push(entries[idx[j]].id.0);
            j = j + 1;
        }
        proof {
            if by_size {
                lemma_sorted_by_size(entries@, keys@, idx0, idx@, out@);
            } else {
                lemma_sorted_by_name(entries@, names@, idx0, idx@, out@);
            }
        }
        out
    }
}

// ---------------------------------------------------------------------------
// Sample statistics
// ---------------------------------------------------------------------------

/// A byte's class: 0 for zero, 1 for printable ASCII and line breaks or tabs, 2 otherwise.
pub open spec fn byte_class(b: u8) -> int {
    if b == 0 {
        0
    } else if (0x21 <= b && b <= 0x7e) || b == 10 || b == 13 || b == 9 {
        1
    } else {
        2
    }
}

/// The pattern hash of position `i` of a sample.
pub open spec fn pos_hash(s: Seq<u8>, i: int) -> u64 {
    hash64_spec(s[i], i as u64)
}

/// What position `i - 1` leaves for its successor to match: its hash rotated left by 7, xored
/// with itself.
pub open spec fn carry(h: u64) -> u64 {
    ((h << 7u64) | (h >> 57u64)) ^ h
}

/// Position `i` repeats its predecessor's pattern.
pub open spec fn is_dup(s: Seq<u8>, i: int) -> bool {
    i >= 1 && pos_hash(s, i) == carry(pos_hash(s, i - 1))
}

/// Among the first `k` bytes: how many are of class `c`.
pub open spec fn class_count(s: Seq<u8>, c: int, k: int) -> nat
    decreases k,
{
    if k <= 0 {
        0
    } else {
        class_count(s, c, k - 1) + if byte_class(s[k - 1]) == c {
            1nat
        } else {
            0nat
        }
    }
}

/// Among the first `k` positions: how many repeat their predecessor's pattern.
pub open spec fn dup_count(s: Seq<u8>, k: int) -> nat
    decreases k,
{
    if k <= 0 {
        0
    } else {
        dup_count(s, k - 1) + if is_dup(s, k - 1) {
            1nat
        } else {
            0nat
        }
    }
}

/// The count of `h` in `m` (zero when absent).
pub open spec fn count_of(m: Map<u64, u32>, h: u64) -> u32 {
    if m.contains_key(h) {
        m[h]
    } else {
        0
    }
}

/// `m` after counting the pattern hashes of the first `k` positions (counts saturate).
pub open spec fn counted(m: Map<u64, u32>, s: Seq<u8>, k: int) -> Map<u64, u32>
    decreases k,
{
    if k <= 0 {
        m
    } else {
        let m1 = counted(m, s, k - 1);
        let h = pos_hash(s, k - 1);
        m1.insert(h, if count_of(m1, h) == u32::MAX {
            u32::MAX
        } else {
            (count_of(m1, h) + 1) as u32
        })
    }
}

/// `x + k`, or `u64::MAX` when it does not fit.
pub open spec fn sat_add(x: u64, k: nat) -> u64 {
    if x + k > u64::MAX {
        u64::MAX
    } else {
        (x + k) as u64
    }
}

impl GlobalAnalyzer {
    /// Count a sample into the statistics: byte classes, text and duplicate mass, and pattern
    /// hashes (all counts saturate).
    pub fn digest_bytes(
        bytes: &[u8],
        hist: &mut ByteClassHistogram,
        rolling: &mut HashMap<u64, u32>,
        text_mass: &mut u64,
        dup_mass: &mut u64,
    )
        ensures
            final(hist).zero == sat_add(old(hist).zero, class_count(bytes@, 0, bytes.len() as int)),
            final(hist).ascii_text == sat_add(old(hist).ascii_text, class_count(bytes@, 1, bytes.len() as int)),
            final(hist).high_entropy == sat_add(old(hist).high_entropy, class_count(bytes@, 2, bytes.len() as int)),
            final(hist).duplicate_window_hits == sat_add(old(hist).duplicate_window_hits, dup_count(bytes@, bytes.len() as int)),
            *final(text_mass) == sat_add(*old(text_mass), class_count(bytes@, 1, bytes.len() as int)),
            *final(dup_mass) == sat_add(*old(dup_mass), dup_count(bytes@, bytes.len() as int)),
            final(rolling)@ == counted(old(rolling)@, bytes@, bytes.len() as int),
    {
        broadcast use vstd::std_specs::hash::group_hash_axioms;
        let ghost h0 = *hist;
        let ghost t0 = *text_mass;
        let ghost d0 = *dup_mass;
        let ghost r0 = rolling@;
        let mut prev: Option<u64> = None;
        let mut idx = 0usize;
        while idx < bytes.len()
            invariant
                idx <= bytes.len(),
                hist.zero == sat_add(h0.zero, class_count(bytes@, 0, idx as int)),
                hist.ascii_text == sat_add(h0.ascii_text, class_count(bytes@, 1, idx as int)),
                hist.high_entropy == sat_add(h0.high_entropy, class_count(bytes@, 2, idx as int)),
                hist.duplicate_window_hits == sat_add(h0.duplicate_window_hits, dup_count(bytes@, idx as int)),
                *text_mass == sat_add(t0, class_count(bytes@, 1, idx as int)),
                *dup_mass == sat_add(d0, dup_count(bytes@, idx as int)),
                rolling@ == counted(r0, bytes@, idx as int),
                idx == 0 ==> prev.is_none(),
                idx > 0 ==> prev == Some(carry(pos_hash(bytes@, idx - 1))),
            decreases bytes.len() - idx,
        {
            let b = bytes[idx];
            if b == 0 {
                hist.zero = hist.zero.saturating_add(1);
            } else if (0x21 <= b && b <= 0x7e) || b == 10u8 || b == 13u8 || b == 9u8 {
                hist.ascii_text = hist.ascii_text.saturating_add(1);
                *text_mass = text_mass.saturating_add(1);
            } else {
                hist.high_entropy = hist.high_entropy.saturating_add(1);
            }
            let h = Self::hash64(b, idx as u64);
            let c: u32 = match rolling.get(&h) {
                Some(v) => *v,
                None => 0,
            };
            rolling.insert(h, c.saturating_add(1));
            if prev == Some(h) {
                hist.duplicate_window_hits = hist.duplicate_window_hits.saturating_add(1);
                *dup_mass = dup_mass.saturating_add(1);
            }
            prev = Some(((h << 7u64) | (h >> 57u64)) ^ h);
            idx = idx + 1;
        }
    }
}

/// `HashMap::iter`: every key with its count, each key once, in the map's own order.
#[verifier::external_body]
fn map_entries(m: &HashMap<u64, u32>) -> (r: Vec<(u64, u32)>)
    ensures
        r.len() == m@.dom().len(),
        forall|i: int| 0 <= i < r.len() ==> m@.contains_key(#[trigger] r@[i].0) && m@[r@[i].0] == r@[i].1,
        forall|i: int, j: int| 0 <= i < j < r.len() ==> r@[i].0 != r@[j].0,
        forall|k: u64| #[trigger] m@.contains_key(k) ==> exists|i: int| 0 <= i < r.len() && r@[i].0 == k,
{
    m.iter().map(|(k, v)| (*k, *v)).collect()
}

proof fn lemma_sat_add_twice(a: u64, x: nat, y: nat)
    ensures
        sat_add(sat_add(a, x), y) == sat_add(a, x + y),
{
}

/// Class counts over the first `j` samples.
pub open spec fn samples_class(samples: Seq<(usize, Vec<u8>)>, c: int, j: int) -> nat
    decreases j,
{
    if j <= 0 {
        0
    } else {
        samples_class(samples, c, j - 1) + class_count(samples[j - 1].1@, c, samples[j - 1].1@.len() as int)
    }
}

/// Duplicate counts over the first `j` samples.
pub open spec fn samples_dup(samples: Seq<(usize, Vec<u8>)>, j: int) -> nat
    decreases j,
{
    if j <= 0 {
        0
    } else {
        samples_dup(samples, j - 1) + dup_count(samples[j - 1].1@, samples[j - 1].1@.len() as int)
    }
}

/// The pattern counts after the first `j` samples.
pub open spec fn samples_counted(samples: Seq<(usize, Vec<u8>)>, j: int) -> Map<u64, u32>
    decreases j,
{
    if j <= 0 {
        Map::empty()
    } else {
        counted(samples_counted(samples, j - 1), samples[j - 1].1@, samples[j - 1].1@.len() as int)
    }
}

/// The entries' sizes summed (saturating).
pub open spec fn total_size(entries: Seq<ArchiveEntryDescriptor>, k: int) -> u64
    decreases k,
{
    if k <= 0 {
        0
    } else {
        sat_add(total_size(entries, k - 1), entries[k - 1].uncompressed_size as nat)
    }
}

/// `top` holds the most frequent patterns of `m`: at most 32 distinct keys with their counts,
/// most frequent first, and no pattern left out counts more than the last one kept.
pub open spec fn top_patterns_of(m: Map<u64, u32>, top: Seq<(PatternDigest, u32)>) -> bool {
    &&& top.len() == if m.dom().len() < 32 {
        m.dom().len()
    } else {
        32
    }
    &&& forall|i: int| 0 <= i < top.len() ==> m.contains_key((#[trigger] top[i]).0.0) && m[top[i].0.0] == top[i].1
    &&& forall|i: int, j: int| 0 <= i < j < top.len() ==> top[i].0 != top[j].0 && top[i].1 >= top[j].1
    &&& forall|k: u64|
        #[trigger] m.contains_key(k) && top.len() > 0 && (forall|i: int| 0 <= i < top.len() ==> top[i].0.0 != k)
            ==> m[k] <= top.last().1
}

impl GlobalAnalyzer {
    /// The most frequent patterns of the counts (ties in the map's own order).
    fn top_patterns(rolling: &HashMap<u64, u32>) -> (top: Vec<(PatternDigest, u32)>)
        ensures
            top_patterns_of(rolling@, top@),
    {
        let entries = map_entries(rolling);
        let n = entries.len();
        let mut keys: Vec<u64> = Vec::with_capacity(n);
        let mut idx: Vec<usize> = Vec::with_capacity(n);
        let mut i = 0usize;
        while i < n
            invariant
                i <= n == entries.len(),
                keys.len() == i,
                idx.len() == i,
                forall|k: int| 0 <= k < i ==> #[trigger] keys@[k] == u64::MAX - entries@[k].1,
                forall|k: int| 0 <= k < i ==> #[trigger] idx@[k] == k,
            decreases n - i,
        {
            keys.push(u64::MAX - entries[i].1 as u64);
            idx.push(i);
            i = i + 1;
        }
        let ghost idx0 = idx@;
        sort_indices_by_key(&mut idx, &keys);
        let take = if n < 32 {
            n
        } else {
            32
        };
        let mut top: Vec<(PatternDigest, u32)> = Vec::with_capacity(take);
        let mut j = 0usize;
        while j < take
            invariant
                j <= take <= n,
                take == if n < 32 { n } else { 32 },
                n == entries.len(),
                idx.len() == n,
                forall|k: int| 0 <= k < n ==> #[trigger] idx@[k] < n,
                top.len() == j,
                forall|k: int| 0 <= k < j ==> #[trigger] top@[k] == (PatternDigest(entries@[idx@[k] as int].0), entries@[idx@[k] as int].1),
            decreases take - j,
        {
            proof {
                assert(idx@[j as int] < n);
            }
            let e = entries[idx[j]];
            top.push((PatternDigest(e.0), e.1));
            j = j + 1;
        }
        proof {
            lemma_top(rolling@, entries@, keys@, idx0, idx@, top@);
        }
        top
    }
}

proof fn lemma_top(
    m: Map<u64, u32>,
    entries: Seq<(u64, u32)>,
    keys: Seq<u64>,
    idx0: Seq<usize>,
    idx: Seq<usize>,
    top: Seq<(PatternDigest, u32)>,
)
    requires
        entries.len() == m.dom().len(),
        forall|i: int| 0 <= i < entries.len() ==> m.contains_key(#[trigger] entries[i].0) && m[entries[i].0] == entries[i].1,
        forall|i: int, j: int| 0 <= i < j < entries.len() ==> entries[i].0 != entries[j].0,
        forall|k: u64| #[trigger] m.contains_key(k) ==> exists|i: int| 0 <= i < entries.len() && entries[i].0 == k,
        keys.len() == entries.len(),
        idx0.len() == entries.len(),
        idx.len() == idx0.len(),
        forall|k: int| 0 <= k < keys.len() ==> #[trigger] keys[k] == u64::MAX - entries[k].1,
        forall|k: int| 0 <= k < idx0.len() ==> #[trigger] idx0[k] == k,
        top.len() == if entries.len() < 32 { entries.len() } else { 32 },
        forall|k: int| 0 <= k < top.len() ==> #[trigger] top[k] == (PatternDigest(entries[idx[k] as int].0), entries[idx[k] as int].1),
        exists|p: Seq<int>|
            #![trigger p.len()]
            {
                &&& p.len() == idx0.len()
                &&& forall|i: int| 0 <= i < p.len() ==> 0 <= #[trigger] p[i] < p.len()
                &&& forall|i: int, j: int| 0 <= i < j < p.len() ==> p[i] != p[j]
                &&& forall|i: int| 0 <= i < p.len() ==> #[trigger] idx[i] == idx0[p[i]]
                &&& forall|i: int, j: int|
                    0 <= i < j < p.len() ==> (freq_at(keys, idx[i]) < freq_at(keys, idx[j]) || (freq_at(keys, idx[i]) == freq_at(keys, idx[j])
                        && p[i] < p[j]))
            },
    ensures
        top_patterns_of(m, top),
{
    let p = choose|p: Seq<int>|
        #![trigger p.len()]
        {
            &&& p.len() == idx0.len()
            &&& forall|i: int| 0 <= i < p.len() ==> 0 <= #[trigger] p[i] < p.len()
            &&& forall|i: int, j: int| 0 <= i < j < p.len() ==> p[i] != p[j]
            &&& forall|i: int| 0 <= i < p.len() ==> #[trigger] idx[i] == idx0[p[i]]
            &&& forall|i: int, j: int|
                0 <= i < j < p.len() ==> (freq_at(keys, idx[i]) < freq_at(keys, idx[j]) || (freq_at(keys, idx[i]) == freq_at(keys, idx[j])
                    && p[i] < p[j]))
        };
    assert forall|i: int| 0 <= i < p.len() implies #[trigger] idx[i] == p[i] by {
        assert(idx[i] == idx0[p[i]]);
    }
    assert forall|i: int, j: int| 0 <= i < j < top.len() implies top[i].0 != top[j].0 && top[i].1 >= top[j].1 by {
        assert(idx[i] == p[i]);
        assert(idx[j] == p[j]);
        assert(p[i] != p[j]);
        assert(keys[p[i]] == u64::MAX - entries[p[i]].1);
        assert(keys[p[j]] == u64::MAX - entries[p[j]].1);
    }
    assert forall|i: int| 0 <= i < top.len() implies m.contains_key((#[trigger] top[i]).0.0) && m[top[i].0.0] == top[i].1 by {
        assert(idx[i] == p[i]);
        assert(m.contains_key(entries[p[i]].0));
    }
    assert forall|k: u64|
        #[trigger] m.contains_key(k) && top.len() > 0 && (forall|i: int| 0 <= i < top.len() ==> top[i].0.0 != k)
        implies m[k] <= top.last().1 by {
        let e = choose|e: int| 0 <= e < entries.len() && entries[e].0 == k;
        assert(is_perm(p));
        crate::perm::lemma_perm_covers(p, e);
        let q = choose|q: int| 0 <= q < p.len() && p[q] == e;
        let t = top.len() - 1;
        if q <= t {
            assert(idx[q] == p[q]);
            assert(top[q].0.0 == k);
        } else {
            assert(idx[t] == p[t]);
            assert(idx[q] == p[q]);
            assert(keys[p[t]] == u64::MAX - entries[p[t]].1);
            assert(keys[p[q]] == u64::MAX - entries[p[q]].1);
            assert(freq_at(keys, idx[t]) <= freq_at(keys, idx[q]));
        }
    }
}


/// What `GlobalAnalyzer::analyze` derives from the entries and the samples.
pub open spec fn analyzed(
    entries: Seq<ArchiveEntryDescriptor>,
    samples: Seq<(usize, Vec<u8>)>,
    policy: ExecutionPolicy,
    plan: SamplePlan,
    r: GlobalModel,
) -> bool {
    let n = entries.len() as int;
    let m = samples.len() as int;
    let s = r.summary;
    &&& s.total_uncompressed == total_size(entries, n)
    &&& s.entry_count == n
    &&& s.histogram.zero == sat_add(0, samples_class(samples, 0, m))
    &&& s.histogram.ascii_text == sat_add(0, samples_class(samples, 1, m))
    &&& s.histogram.high_entropy == sat_add(0, samples_class(samples, 2, m))
    &&& s.histogram.duplicate_window_hits == sat_add(0, samples_dup(samples, m))
    &&& s.text_mass == sat_add(0, samples_class(samples, 1, m))
    &&& s.duplicate_mass == sat_add(0, samples_dup(samples, m))
    &&& top_patterns_of(samples_counted(samples, m), s.top_patterns@)
    &&& s.mean_entry_bytes == if n == 0 {
        0
    } else {
        s.total_uncompressed / (n as u64)
    }
    &&& r.suggested_block_bytes == block_size_spec(
        s.text_mass,
        s.duplicate_mass,
        s.mean_entry_bytes,
        policy.base_block_bytes,
        policy.min_block_bytes,
        policy.max_block_bytes,
        plan.max_bytes_per_entry,
        if n < 1 { 1usize } else { n as usize },
    )
    &&& s.duplicate_mass > s.text_mass ==> ordered_by_size(entries, r.suggested_order@)
    &&& s.duplicate_mass <= s.text_mass ==> ordered_by_name(entries, r.suggested_order@)
    &&& r.lz77_max_chain == if s.duplicate_mass > s.text_mass { 128u32 } else { 64u32 }
    &&& r.lz77_nice_match == if s.mean_entry_bytes > 1024 * 1024 { 128u32 } else { 64u32 }
    &&& r.index_stride == if s.duplicate_mass > s.text_mass { 1usize } else { 2usize }
}

impl GlobalAnalyzer {
    /// The archive-wide model: statistics of the samples and the entries' sizes, the block
    /// size, the entry order and the LZ77 effort they suggest.
    pub fn analyze(
        entries: &[ArchiveEntryDescriptor],
        samples: &[(usize, Vec<u8>)],
        policy: &ExecutionPolicy,
        plan: &SamplePlan,
    ) -> (r: GlobalModel)
        requires
            policy.min_block_bytes <= policy.max_block_bytes,
        ensures
            analyzed(entries@, samples@, *policy, *plan, r),
            policy.min_block_bytes <= r.suggested_block_bytes <= policy.max_block_bytes,
    {
        broadcast use vstd::std_specs::hash::group_hash_axioms;
        let mut hist = ByteClassHistogram { zero: 0, ascii_text: 0, high_entropy: 0, duplicate_window_hits: 0 };
        let mut total = 0u64;
        let mut text_mass = 0u64;
        let mut dup_mass = 0u64;
        let mut rolling: HashMap<u64, u32> = HashMap::new();
        let n = entries.len();
        let mut k = 0usize;
        while k < n
            invariant
                k <= n == entries.len(),
                total == total_size(entries@, k as int),
            decreases n - k,
        {
            total = total.saturating_add(entries[k].uncompressed_size);
            k = k + 1;
        }
        let m = samples.len();
        let mut j = 0usize;
        while j < m
            invariant
                j <= m == samples.len(),
                hist.zero == sat_add(0, samples_class(samples@, 0, j as int)),
                hist.ascii_text == sat_add(0, samples_class(samples@, 1, j as int)),
                hist.high_entropy == sat_add(0, samples_class(samples@, 2, j as int)),
                hist.duplicate_window_hits == sat_add(0, samples_dup(samples@, j as int)),
                text_mass == sat_add(0, samples_class(samples@, 1, j as int)),
                dup_mass == sat_add(0, samples_dup(samples@, j as int)),
                rolling@ == samples_counted(samples@, j as int),
            decreases m - j,
        {
            let bytes: &Vec<u8> = &samples[j].1;
            Self::digest_bytes(bytes.as_slice(), &mut hist, &mut rolling, &mut text_mass, &mut dup_mass);
            proof {
                let s = samples@[j as int].1@;
                let l = s.len() as int;
                lemma_sat_add_twice(0, samples_class(samples@, 0, j as int), class_count(s, 0, l));
                lemma_sat_add_twice(0, samples_class(samples@, 1, j as int), class_count(s, 1, l));
                lemma_sat_add_twice(0, samples_class(samples@, 2, j as int), class_count(s, 2, l));
                lemma_sat_add_twice(0, samples_dup(samples@, j as int), dup_count(s, l));
            }
            j = j + 1;
        }
        let top = Self::top_patterns(&rolling);
        let entry_count = n as u64;
        let mean = if entry_count == 0 {
            0
        } else {
            total / entry_count
        };
        let summary = GlobalStatisticsSummary {
            total_uncompressed: total,
            entry_count,
            histogram: hist,
            top_patterns: top,
            mean_entry_bytes: mean,
            duplicate_mass: dup_mass,
            text_mass,
        };
        let fanout = if n < 1 {
            1
        } else {
            n
        };
        let suggested_block_bytes = Self::block_size(&summary, policy, plan, fanout);
        let suggested_order = Self::order(entries, &summary);
        let dup_heavy = summary.duplicate_mass > summary.text_mass;
        let lz77_max_chain: u32 = if dup_heavy {
            128
        } else {
            64
        };
        let lz77_nice_match: u32 = if summary.mean_entry_bytes > 1024 * 1024 {
            128
        } else {
            64
        };
        let index_stride: usize = if dup_heavy {
            1
        } else {
            2
        };
        GlobalModel {
            summary,
            suggested_block_bytes,
            suggested_order,
            lz77_max_chain,
            lz77_nice_match,
            index_stride,
        }
    }
}

} // verus!
