//! Cutting an entry into consecutive block spans.
use vstd::prelude::*;

use crate::blocks::{BlockSpan, ChunkPlan};
use crate::dictionary::GlobalModel;
use crate::ids::{BlockId, EntryId};
use crate::profile::ExecutionPolicy;

verus! {

/// The block size to aim for: the target if given, else the model's suggestion (at least the
/// policy minimum), kept within the policy's bounds (the maximum wins).
pub open spec fn planned_block(policy: ExecutionPolicy, model_block: usize, target: Option<u64>) -> int {
    let t: int = match target {
        Some(t) => t as int,
        None => if model_block < policy.min_block_bytes {
            policy.min_block_bytes as int
        } else {
            model_block as int
        },
    };
    let lo = if t < policy.min_block_bytes { policy.min_block_bytes as int } else { t };
    if lo > policy.max_block_bytes { policy.max_block_bytes as int } else { lo }
}

/// The spans cut `[0, uncompressed)` of `entry` into consecutive nonempty pieces, numbered from 0.
pub open spec fn tiles(spans: Seq<BlockSpan>, entry: EntryId, uncompressed: u64) -> bool {
    &&& forall|i: int| 0 <= i < spans.len() ==> (#[trigger] spans[i]).entry == entry
    &&& forall|i: int| 0 <= i < spans.len() ==> (#[trigger] spans[i]).block == BlockId(i as u64)
    &&& forall|i: int| 0 <= i < spans.len() ==> (#[trigger] spans[i]).len >= 1
    &&& spans.len() > 0 ==> spans[0].offset == 0
    &&& forall|i: int| 0 <= i < spans.len() - 1 ==> #[trigger] spans[i + 1].offset == spans[i].offset + spans[i].len
    &&& spans.len() > 0 ==> spans.last().offset + spans.last().len == uncompressed
    &&& spans.len() == 0 <==> uncompressed == 0
}

/// A tiling has at most one span per byte.
pub proof fn lemma_tiles_count(spans: Seq<BlockSpan>, entry: EntryId, uncompressed: u64)
    requires
        tiles(spans, entry, uncompressed),
    ensures
        spans.len() <= uncompressed,
{
    if spans.len() > 0 {
        assert forall|i: int| 0 <= i < spans.len() implies (#[trigger] spans[i]).offset >= i by {
            lemma_tiles_offset(spans, entry, uncompressed, i);
        }
        assert(spans.last().offset >= spans.len() - 1);
    }
}

proof fn lemma_tiles_offset(spans: Seq<BlockSpan>, entry: EntryId, uncompressed: u64, i: int)
    requires
        tiles(spans, entry, uncompressed),
        0 <= i < spans.len(),
    ensures
        spans[i].offset >= i,
    decreases i,
{
    if i > 0 {
        lemma_tiles_offset(spans, entry, uncompressed, i - 1);
        let j = i - 1;
        assert(spans[j + 1].offset == spans[j].offset + spans[j].len);
        assert(spans[i - 1].len >= 1);
    }
}

/// Every span of a tiling lies within the entry.
pub proof fn lemma_tiles_within(spans: Seq<BlockSpan>, entry: EntryId, uncompressed: u64, i: int)
    requires
        tiles(spans, entry, uncompressed),
        0 <= i < spans.len(),
    ensures
        spans[i].offset + spans[i].len <= uncompressed,
    decreases spans.len() - i,
{
    if i < spans.len() - 1 {
        lemma_tiles_within(spans, entry, uncompressed, i + 1);
        assert(spans[i + 1].offset == spans[i].offset + spans[i].len);
    }
}

/// The whole entry's bytes are at hand, so block ends may follow its content.
pub open spec fn adaptive_view(data: Option<&[u8]>, uncompressed: u64) -> bool {
    match data {
        Some(d) => d.len() >= uncompressed,
        None => false,
    }
}

/// Where a block starting at `off` may end at most: `max_block_bytes` on, or the entry's end.
pub open spec fn block_max_end(policy: ExecutionPolicy, uncompressed: u64, off: u64) -> int {
    if uncompressed - off < policy.max_block_bytes {
        uncompressed as int
    } else {
        off + policy.max_block_bytes
    }
}

/// Where a block starting at `off` ends at the planned size `pb` (or the entry's end).
pub open spec fn block_soft_end(pb: int, uncompressed: u64, off: u64) -> int {
    if uncompressed - off < pb {
        uncompressed as int
    } else {
        off + pb
    }
}

/// The length of the block at `off` when the content splitter proposed `e`: the proposal kept
/// between `off + min_block_bytes` and `max_end`, and at least one byte.
pub open spec fn split_len(policy: ExecutionPolicy, off: u64, e: u64, max_end: int) -> int {
    let lo = off + policy.min_block_bytes;
    let c = if e < lo {
        lo
    } else if e > max_end {
        max_end
    } else {
        e as int
    };
    if c - off < 1 {
        1
    } else {
        c - off
    }
}

pub struct BlockPlanner;

impl BlockPlanner {
    /// Cut an entry into blocks of the planned size, the last block taking what is left.
    pub fn plan_entry(entry: EntryId, uncompressed: u64, policy: &ExecutionPolicy, model: &GlobalModel) -> (r: ChunkPlan)
        ensures
            r.entry == entry,
            tiles(r.spans@, entry, uncompressed),
            forall|i: int|
                0 <= i < r.spans.len() ==> (#[trigger] r.spans@[i]).len == if uncompressed - r.spans@[i].offset
                    < planned_block(*policy, model.suggested_block_bytes, None) {
                    (uncompressed - r.spans@[i].offset) as int
                } else if planned_block(*policy, model.suggested_block_bytes, None) < 1 {
                    1
                } else {
                    planned_block(*policy, model.suggested_block_bytes, None)
                },
    {
        let no_split = |a: u64, b: u64, c: u64| -> (r: u64) { b };
        Self::plan_entry_with_data_predictive(entry, None, uncompressed, policy, model, None, &no_split)
    }

    /// Cut an entry into blocks of the model's size; where the entry's bytes are at hand,
    /// `split` may move block ends (see `plan_entry_with_data_predictive`).
    pub fn plan_entry_with_data<F: Fn(u64, u64, u64) -> u64>(
        entry: EntryId,
        data: Option<&[u8]>,
        uncompressed: u64,
        policy: &ExecutionPolicy,
        model: &GlobalModel,
        split: &F,
    ) -> (r: ChunkPlan)
        requires
            forall|a: u64, b: u64, c: u64| #[trigger] split.requires((a, b, c)),
        ensures
            r.entry == entry,
            tiles(r.spans@, entry, uncompressed),
            !adaptive_view(data, uncompressed) ==> forall|i: int|
                0 <= i < r.spans.len() ==> (#[trigger] r.spans@[i]).len == if uncompressed - r.spans@[i].offset
                    < planned_block(*policy, model.suggested_block_bytes, None) {
                    (uncompressed - r.spans@[i].offset) as int
                } else if planned_block(*policy, model.suggested_block_bytes, None) < 1 {
                    1
                } else {
                    planned_block(*policy, model.suggested_block_bytes, None)
                },
    {
        Self::plan_entry_with_data_predictive(entry, data, uncompressed, policy, model, None, split)
    }

    /// Cut an entry into blocks of the planned size (`target_block` if given). Where the whole
    /// entry's bytes are at hand and more than the minimum block remains, `split(start,
    /// soft_end, cap_end)` proposes where the block ends (the application picks the point where
    /// the content changes most); the proposal is kept between the minimum block size on and
    /// the cap, and the block keeps at least one byte. Elsewhere a block ends at the planned size or at the maximum
    /// block size, whichever comes first.
    pub fn plan_entry_with_data_predictive<F: Fn(u64, u64, u64) -> u64>(
        entry: EntryId,
        data: Option<&[u8]>,
        uncompressed: u64,
        policy: &ExecutionPolicy,
        model: &GlobalModel,
        target_block: Option<u64>,
        split: &F,
    ) -> (r: ChunkPlan)
        requires
            forall|a: u64, b: u64, c: u64| #[trigger] split.requires((a, b, c)),
        ensures
            r.entry == entry,
            tiles(r.spans@, entry, uncompressed),
            !adaptive_view(data, uncompressed) ==> forall|i: int|
                0 <= i < r.spans.len() ==> (#[trigger] r.spans@[i]).len == if uncompressed - r.spans@[i].offset
                    < planned_block(*policy, model.suggested_block_bytes, target_block) {
                    (uncompressed - r.spans@[i].offset) as int
                } else if planned_block(*policy, model.suggested_block_bytes, target_block) < 1 {
                    1
                } else {
                    planned_block(*policy, model.suggested_block_bytes, target_block)
                },
            adaptive_view(data, uncompressed) ==> forall|i: int|
                0 <= i < r.spans.len() ==> {
                    let off = (#[trigger] r.spans@[i]).offset;
                    let pb = planned_block(*policy, model.suggested_block_bytes, target_block);
                    let max_end = block_max_end(*policy, uncompressed, off);
                    if max_end > off + policy.min_block_bytes {
                        exists|e: u64|
                            call_ensures(split, (off, block_soft_end(pb, uncompressed, off) as u64, max_end as u64), e)
                                && r.spans@[i].len == split_len(*policy, off, e, max_end)
                    } else {
                        r.spans@[i].len == if uncompressed - off < pb {
                            (uncompressed - off) as int
                        } else if pb < 1 {
                            1
                        } else {
                            pb
                        }
                    }
                },
    {
        let adaptive = match data {
            Some(d) => d.len() as u64 >= uncompressed,
            None => false,
        };
        if uncompressed == 0 {
            return ChunkPlan { entry, spans: Vec::new() };
        }
        let min_b = policy.min_block_bytes as u64;
        let max_b = policy.max_block_bytes as u64;
        let t: u64 = match target_block {
            Some(t) => t,
            None => {
                let m = if model.suggested_block_bytes < policy.min_block_bytes {
                    policy.min_block_bytes
                } else {
                    model.suggested_block_bytes
                };
                m as u64
            },
        };
        let lo = if t < min_b {
            min_b
        } else {
            t
        };
        let block = if lo > max_b {
            max_b
        } else {
            lo
        };
        let ghost pb = planned_block(*policy, model.suggested_block_bytes, target_block);
        assert(block == pb);
        let mut spans: Vec<BlockSpan> = Vec::new();
        let mut offset = 0u64;
        let mut bid = 0u64;
        while offset < uncompressed
            invariant
                offset <= uncompressed,
                block == pb,
                adaptive == adaptive_view(data, uncompressed),
                block <= max_b,
                max_b == policy.max_block_bytes,
                min_b == policy.min_block_bytes,
                bid == spans.len(),
                spans.len() <= offset,
                forall|a: u64, b: u64, c: u64| #[trigger] split.requires((a, b, c)),
                forall|i: int| 0 <= i < spans.len() ==> (#[trigger] spans@[i]).entry == entry,
                forall|i: int| 0 <= i < spans.len() ==> (#[trigger] spans@[i]).block == BlockId(i as u64),
                forall|i: int| 0 <= i < spans.len() ==> (#[trigger] spans@[i]).len >= 1,
                spans.len() > 0 ==> spans@[0].offset == 0,
                forall|i: int| 0 <= i < spans.len() - 1 ==> #[trigger] spans@[i + 1].offset == spans@[i].offset + spans@[i].len,
                spans.len() > 0 ==> spans@.last().offset + spans@.last().len == offset,
                spans.len() == 0 <==> offset == 0,
                !adaptive ==> forall|i: int|
                    0 <= i < spans.len() ==> (#[trigger] spans@[i]).len == if uncompressed - spans@[i].offset < pb {
                        (uncompressed - spans@[i].offset) as int
                    } else if pb < 1 {
                        1
                    } else {
                        pb
                    },
                adaptive ==> forall|i: int|
                    0 <= i < spans.len() ==> {
                        let off = (#[trigger] spans@[i]).offset;
                        let max_end = block_max_end(*policy, uncompressed, off);
                        if max_end > off + policy.min_block_bytes {
                            exists|e: u64|
                                call_ensures(split, (off, block_soft_end(pb, uncompressed, off) as u64, max_end as u64), e)
                                    && spans@[i].len == split_len(*policy, off, e, max_end)
                        } else {
                            spans@[i].len == if uncompressed - off < pb {
                                (uncompressed - off) as int
                            } else if pb < 1 {
                                1
                            } else {
                                pb
                            }
                        }
                    },
            decreases uncompressed - offset,
        {
            let ghost mut split_witness: u64 = 0;
            let remain = uncompressed - offset;
            let nb = if remain < block {
                remain
            } else {
                block
            };
            let mb = if remain < max_b {
                remain
            } else {
                max_b
            };
            let naive_end = offset + nb;
            let max_end = offset + mb;
            let soft = if naive_end < max_end {
                naive_end
            } else {
                max_end
            };
            let lo_end = offset.saturating_add(min_b);
            let end = if adaptive && max_end > lo_end {
                // The splitter's proposal, kept between the minimum block and the cap.
                let e = split(offset, soft, max_end);
                proof {
                    assert(block_soft_end(pb, uncompressed, offset) == soft);
                    assert(block_max_end(*policy, uncompressed, offset) == max_end);
                    split_witness = e;
                }
                if e < lo_end {
                    lo_end
                } else if e > max_end {
                    max_end
                } else {
                    e
                }
            } else {
                soft
            };
            let d = end.saturating_sub(offset);
            let d1 = if d < 1 {
                1
            } else {
                d
            };
            let len = if d1 < remain {
                d1
            } else {
                remain
            };
            let ghost old_spans = spans@;
            spans.push(BlockSpan { entry, offset, len, block: BlockId(bid) });
            proof {
                assert(block_soft_end(pb, uncompressed, offset) == soft);
                assert(block_max_end(*policy, uncompressed, offset) == max_end);
                assert forall|i: int| 0 <= i < old_spans.len() implies #[trigger] spans@[i] == old_spans[i] by {}
                if adaptive && max_end > lo_end {
                    assert(len == split_len(*policy, offset, split_witness, max_end as int));
                }
                assert forall|i: int| 0 <= i < spans.len() - 1 implies #[trigger] spans@[i + 1].offset
                    == spans@[i].offset + spans@[i].len by {
                    if i + 1 < old_spans.len() {
                        assert(spans@[i + 1] == old_spans[i + 1]);
                        assert(spans@[i] == old_spans[i]);
                    }
                }
            }
            bid = bid + 1;
            offset = offset + len;
        }
        ChunkPlan { entry, spans }
    }
}

} // verus!
