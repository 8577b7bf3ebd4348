//! Cross-entry pattern index: for each entry, the recent offsets of every 3-byte hash.
use vstd::prelude::*;

use crate::std_num::saturating_mul_usize;

use crate::lz77::{roll_hash3, roll_hash3_spec};

verus! {

/// 15-bit hash table: 32768 slots, as in the LZ77 window.
pub const HASH_SLOTS: usize = 32768;

pub const HASH_MASK: usize = 32767;

pub struct IndexBuildConfig {
    pub min_match: usize,
    pub stride: usize,
    pub max_chain: usize,
}

impl Clone for IndexBuildConfig {
    fn clone(&self) -> (r: Self)
        ensures
            r == *self,
    {
        IndexBuildConfig {
            min_match: self.min_match,
            stride: self.stride,
            max_chain: self.max_chain,
        }
    }
}

impl Default for IndexBuildConfig {
    fn default() -> (r: Self)
        ensures
            r.min_match == 3,
            r.stride == 1,
            r.max_chain == 96,
    {
        Self { min_match: 3, stride: 1, max_chain: 96 }
    }
}

#[derive(Clone, Copy, Debug)]
pub struct Occurrence {
    pub offset: u64,
}

/// Per-entry pattern index backed by flat tables: `per_entry[entry_id][hash_slot]` holds the
/// most recent offsets (at most `max_chain`) whose three bytes hash to that slot.
pub struct PatternIndex {
    per_entry: Vec<Vec<Vec<Occurrence>>>,
    min_match: usize,
}

/// The longest common run at `mp` and `pos` is at least `len` bytes, inside `buf`.
pub open spec fn bytes_repeat(buf: Seq<u8>, mp: int, pos: int, len: int) -> bool {
    &&& 0 <= mp
    &&& pos + len <= buf.len()
    &&& forall|k: int| 0 <= k < len ==> #[trigger] buf[mp + k] == buf[pos + k]
}

/// The common run of `buf[mp..]` and `buf[pos..]` that the index scan measures, counted on
/// from `len`: it grows while the bytes agree, up to 258 bytes, the end of `buf`, and `pos`.
pub open spec fn occ_run_len(buf: Seq<u8>, mp: int, pos: int, len: int) -> int
    decreases 258 - len,
{
    if len < 258 && pos + len < buf.len() && mp + len < pos && buf[mp + len] == buf[pos + len] {
        occ_run_len(buf, mp, pos, len + 1)
    } else {
        len
    }
}

/// Rank of a candidate `(len, dist)` in a scan: longer first, then nearer (saturating).
pub open spec fn occ_score(len: usize, dist: usize) -> int {
    let prod = if len * 65536 > usize::MAX {
        usize::MAX as int
    } else {
        len * 65536
    };
    if prod - dist < 0 {
        0
    } else {
        prod - dist
    }
}

/// The candidate that a recorded offset `o` offers for `buf[pos..]`: none when `o` is not
/// before `cur_rel`, lies more than `max_dist` back, or falls outside `buf[..pos]`; otherwise
/// the common run there (see `occ_run_len`), when it reaches `min_len`.
pub open spec fn occ_candidate(
    buf: Seq<u8>,
    pos: int,
    cur_rel: u64,
    buf_rel_base: u64,
    max_dist: usize,
    min_len: usize,
    o: u64,
) -> Option<(usize, usize)> {
    if o >= cur_rel || cur_rel - o > max_dist || o < buf_rel_base || o - buf_rel_base >= pos {
        None
    } else {
        let len = occ_run_len(buf, o - buf_rel_base, pos, 0);
        if len >= min_len {
            Some((len as usize, (cur_rel - o) as usize))
        } else {
            None
        }
    }
}

/// The better of `best` and a candidate `c`: a higher score wins; on equal scores the nearer.
pub open spec fn occ_prefer(best: Option<(usize, usize)>, c: Option<(usize, usize)>) -> Option<
    (usize, usize),
> {
    match c {
        None => best,
        Some((len, dist)) => match best {
            None => c,
            Some((bl, bd)) => if occ_score(len, dist) > occ_score(bl, bd) || (occ_score(len, dist)
                == occ_score(bl, bd) && dist < bd) {
                c
            } else {
                best
            },
        },
    }
}

/// The best candidate among `offsets[k..]`, taken from the newest (last) down to `k`.
pub open spec fn occ_scan(
    buf: Seq<u8>,
    pos: int,
    cur_rel: u64,
    buf_rel_base: u64,
    max_dist: usize,
    min_len: usize,
    offsets: Seq<u64>,
    k: int,
) -> Option<(usize, usize)>
    decreases offsets.len() - k,
{
    if k < 0 || k >= offsets.len() {
        None
    } else {
        occ_prefer(
            occ_scan(buf, pos, cur_rel, buf_rel_base, max_dist, min_len, offsets, k + 1),
            occ_candidate(buf, pos, cur_rel, buf_rel_base, max_dist, min_len, offsets[k]),
        )
    }
}

/// The offsets of a list of occurrences.
pub open spec fn occ_offsets(v: Seq<Occurrence>) -> Seq<u64> {
    Seq::new(v.len(), |i: int| v[i].offset)
}

/// The hash slot of the three bytes at `o`.
pub open spec fn occ_slot(data: Seq<u8>, o: int) -> int {
    (hash3_value(data[o], data[o + 1], data[o + 2]) & 32767usize) as int
}

/// The offsets `j * stride` (for `j < n`) of `data` with `min_match` bytes from them and whose
/// three bytes hash to slot `h`, in ascending order.
pub open spec fn aligned_offsets(data: Seq<u8>, h: int, min_match: int, stride: int, n: int) -> Seq<u64>
    decreases n,
{
    if n <= 0 {
        Seq::empty()
    } else {
        let o = (n - 1) * stride;
        let rest = aligned_offsets(data, h, min_match, stride, n - 1);
        if o + min_match <= data.len() && occ_slot(data, o) == h {
            rest.push(o as u64)
        } else {
            rest
        }
    }
}

/// Every offset recorded for entry `e` under slot `h` by the first `k` entries, oldest first:
/// for each entry with id `e` and at least `min_match` bytes, its aligned offsets in order.
pub open spec fn recorded_offsets(
    entries: Seq<(u32, &[u8])>,
    k: int,
    e: int,
    h: int,
    min_match: int,
    stride: int,
) -> Seq<u64>
    decreases k,
{
    if k <= 0 {
        Seq::empty()
    } else {
        let rest = recorded_offsets(entries, k - 1, e, h, min_match, stride);
        let data = entries[k - 1].1@;
        if entries[k - 1].0 == e && data.len() >= min_match {
            rest + aligned_offsets(data, h, min_match, stride, data.len() as int + 1)
        } else {
            rest
        }
    }
}

/// The newest `cap` of `s` (all of it when shorter).
pub open spec fn keep_newest(s: Seq<u64>, cap: int) -> Seq<u64> {
    if s.len() <= cap {
        s
    } else {
        s.subrange(s.len() - cap, s.len() as int)
    }
}

/// Appending to a list capped at `cap` (dropping its oldest when full) keeps the newest `cap`.
proof fn lemma_keep_newest_push(s: Seq<u64>, cap: int, o: u64)
    requires
        cap >= 1,
    ensures
        keep_newest(s.push(o), cap) == (if keep_newest(s, cap).len() >= cap {
            keep_newest(s, cap).drop_first()
        } else {
            keep_newest(s, cap)
        }).push(o),
{
    let k = keep_newest(s, cap);
    let r = if k.len() >= cap { k.drop_first() } else { k };
    assert(keep_newest(s.push(o), cap) =~= r.push(o));
}

/// Offsets past the end of `data` add nothing.
proof fn lemma_aligned_offsets_tail(data: Seq<u8>, h: int, min_match: int, stride: int, j: int, n: int)
    requires
        stride >= 1,
        min_match >= 0,
        0 <= j <= n,
        j * stride + min_match > data.len(),
    ensures
        aligned_offsets(data, h, min_match, stride, n) == aligned_offsets(data, h, min_match, stride, j),
    decreases n - j,
{
    if n > j {
        assert((n - 1) * stride >= j * stride) by (nonlinear_arith)
            requires
                n - 1 >= j,
                stride >= 1,
        ;
        lemma_aligned_offsets_tail(data, h, min_match, stride, j, n - 1);
    }
}

impl PatternIndex {
    /// Every table has one slot per hash value, and matches are at least three bytes long.
    pub closed spec fn wf(&self) -> bool {
        &&& self.min_match >= 3
        &&& forall|e: int|
            0 <= e < self.per_entry.len() ==> (#[trigger] self.per_entry[e]).len() == HASH_SLOTS
    }

    /// Number of entry tables (one per entry id up to the largest seen).
    pub closed spec fn table_count(&self) -> nat {
        self.per_entry@.len()
    }

    /// The shortest run the index reports.
    pub closed spec fn min_match_len(&self) -> nat {
        self.min_match as nat
    }

    /// The offsets recorded for entry `e` under hash slot `h`.
    pub closed spec fn slot(&self, e: int, h: int) -> Seq<u64> {
        occ_offsets(self.per_entry@[e]@[h]@)
    }

    /// What `scan_global` finds: nothing for an unknown entry or when fewer than
    /// `min_match_len()` bytes are left at `pos`; otherwise the best candidate among the offsets
    /// recorded for `entry` under the hash of the three bytes at `pos`.
    pub open spec fn scan_result(
        &self,
        entry: u32,
        cur_rel: u64,
        buf_rel_base: u64,
        buf: Seq<u8>,
        pos: int,
        max_dist: usize,
        min_len: usize,
    ) -> Option<(usize, usize)> {
        if entry >= self.table_count() || pos + self.min_match_len() > buf.len() {
            None
        } else {
            let h = (hash3_value(buf[pos], buf[pos + 1], buf[pos + 2]) & 32767usize) as int;
            occ_scan(
                buf,
                pos,
                cur_rel,
                buf_rel_base,
                max_dist,
                min_len,
                self.slot(entry as int, h),
                0,
            )
        }
    }

    pub fn build(entries: &[(u32, &[u8])], cfg: &IndexBuildConfig) -> (ix: Self)
        requires
            forall|t: int| 0 <= t < entries.len() ==> entries[t].0 < usize::MAX,
            forall|t: int|
                0 <= t < entries.len() ==> entries[t].1.len() + (if cfg.stride > 1 {
                    cfg.stride as int
                } else {
                    1
                }) <= usize::MAX,
        ensures
            ix.wf(),
            entries.len() == 0 ==> ix.table_count() == 0 && ix.min_match_len() == 3,
            entries.len() > 0 ==> ix.min_match_len() == if cfg.min_match > 3 {
                cfg.min_match
            } else {
                3
            },
            entries.len() > 0 ==> (exists|i: int|
                0 <= i < entries.len() && ix.table_count() == entries[i].0 + 1) && (forall|i: int|
                0 <= i < entries.len() ==> entries[i].0 < ix.table_count()),
            forall|e: int, h: int|
                0 <= e < ix.table_count() && 0 <= h < HASH_SLOTS ==> ix.slot(e, h).len() <= if cfg.max_chain
                    > 1 {
                    cfg.max_chain as int
                } else {
                    1
                },
            forall|e: int, h: int|
                0 <= e < ix.table_count() && 0 <= h < HASH_SLOTS ==> #[trigger] ix.slot(e, h) == keep_newest(
                    recorded_offsets(
                        entries@,
                        entries.len() as int,
                        e,
                        h,
                        if cfg.min_match > 3 { cfg.min_match as int } else { 3 },
                        if cfg.stride > 1 { cfg.stride as int } else { 1 },
                    ),
                    if cfg.max_chain > 1 { cfg.max_chain as int } else { 1 },
                ),
    {
        if entries.len() == 0 {
            return Self::empty();
        }
        let mut max_id: u32 = entries[0].0;
        let mut i = 1usize;
        while i < entries.len()
            invariant
                1 <= i <= entries.len(),
                exists|t: int| 0 <= t < i && max_id == entries[t].0,
                forall|t: int| 0 <= t < entries.len() ==> entries[t].0 < usize::MAX,
                forall|t: int| 0 <= t < i ==> entries[t].0 <= max_id,
            decreases entries.len() - i,
        {
            if entries[i].0 > max_id {
                max_id = entries[i].0;
            }
            i = i + 1;
        }
        let m = if cfg.min_match > 3 {
            cfg.min_match
        } else {
            3
        };
        let cap = if cfg.max_chain > 1 {
            cfg.max_chain
        } else {
            1
        };
        let stride = if cfg.stride > 1 {
            cfg.stride
        } else {
            1
        };
        let mut per_entry: Vec<Vec<Vec<Occurrence>>> = Vec::new();
        let mut e = 0usize;
        let count = max_id as usize + 1;
        while e < count
            invariant
                e <= count,
                per_entry.len() == e,
                forall|t: int| 0 <= t < e ==> (#[trigger] per_entry[t]).len() == HASH_SLOTS,
                forall|t: int, h: int|
                    0 <= t < e && 0 <= h < HASH_SLOTS ==> (#[trigger] per_entry[t][h]).len() == 0,
            decreases count - e,
        {
            let mut table: Vec<Vec<Occurrence>> = Vec::new();
            let mut h = 0usize;
            while h < HASH_SLOTS
                invariant
                    h <= HASH_SLOTS,
                    table.len() == h,
                    forall|u: int| 0 <= u < h ==> (#[trigger] table[u]).len() == 0,
                decreases HASH_SLOTS - h,
            {
                table.push(Vec::new());
                h = h + 1;
            }
            per_entry.push(table);
            e = e + 1;
        }
        let mut k = 0usize;
        while k < entries.len()
            invariant
                k <= entries.len(),
                per_entry.len() == count,
                count == max_id + 1,
                m >= 3,
                cap >= 1,
                stride >= 1,
                stride == if cfg.stride > 1 {
                    cfg.stride
                } else {
                    1
                },
                forall|t: int| 0 <= t < entries.len() ==> entries[t].1.len() + stride <= usize::MAX,
                cap == if cfg.max_chain > 1 {
                    cfg.max_chain
                } else {
                    1
                },
                forall|t: int| 0 <= t < count ==> (#[trigger] per_entry[t]).len() == HASH_SLOTS,
                forall|t: int, h: int|
                    0 <= t < count && 0 <= h < HASH_SLOTS ==> (#[trigger] per_entry[t][h]).len()
                        <= cap,
                forall|t: int, h: int|
                    0 <= t < count && 0 <= h < HASH_SLOTS ==> #[trigger] occ_offsets(per_entry@[t]@[h]@)
                        == keep_newest(recorded_offsets(entries@, k as int, t, h, m as int, stride as int), cap as int),
            decreases entries.len() - k,
        {
            let eid = entries[k].0 as usize;
            let data = entries[k].1;
            let ghost before = per_entry@;
            if eid < per_entry.len() && data.len() >= m {
                let mut o = 0usize;
                let ghost mut j: int = 0;
                while o <= data.len() - m
                    invariant
                        o == j * stride,
                        0 <= j <= data.len() + 1,
                        k < entries.len(),
                        data == entries[k as int].1,
                        eid == entries[k as int].0,
                        m >= 3,
                        forall|t: int, h: int|
                            0 <= t < count && 0 <= h < HASH_SLOTS && t != eid ==> #[trigger] per_entry@[t]@[h]
                                == before[t]@[h],
                        forall|h: int|
                            0 <= h < HASH_SLOTS ==> #[trigger] occ_offsets(per_entry@[eid as int]@[h]@)
                                == keep_newest(
                                recorded_offsets(entries@, k as int, eid as int, h, m as int, stride as int)
                                    + aligned_offsets(data@, h, m as int, stride as int, j),
                                cap as int,
                            ),
                        m >= 3,
                        m <= data.len(),
                        cap >= 1,
                        stride >= 1,
                        data.len() + stride <= usize::MAX,
                        eid < count,
                        per_entry.len() == count,
                        forall|t: int| 0 <= t < count ==> (#[trigger] per_entry[t]).len() == HASH_SLOTS,
                        forall|t: int, h: int|
                            0 <= t < count && 0 <= h < HASH_SLOTS ==> (#[trigger] per_entry[t][h]).len()
                                <= cap,
                    decreases data.len() + stride - o,
                {
                    let h = hash3(data[o], data[o + 1], data[o + 2]) & HASH_MASK;
                    proof {
                        let hv = hash3_value(data[o as int], data[o + 1], data[o + 2]);
                        assert(hv & 32767usize <= 32767usize) by (bit_vector);
                    }
                    let ghost rec = recorded_offsets(entries@, k as int, eid as int, h as int, m as int, stride as int)
                        + aligned_offsets(data@, h as int, m as int, stride as int, j);
                    let ghost pe0 = per_entry@;
                    if per_entry[eid][h].len() >= cap {
                        per_entry[eid][h].remove(0);
                    }
                    per_entry[eid][h].push(Occurrence { offset: o as u64 });
                    proof {
                        lemma_keep_newest_push(rec, cap as int, o as u64);
                        assert(occ_slot(data@, o as int) == h);
                        assert(aligned_offsets(data@, h as int, m as int, stride as int, j + 1) == aligned_offsets(
                            data@, h as int, m as int, stride as int, j).push(o as u64));
                        assert(rec.push(o as u64) =~= recorded_offsets(entries@, k as int, eid as int, h as int, m as int, stride as int)
                            + aligned_offsets(data@, h as int, m as int, stride as int, j + 1));
                        assert(occ_offsets(per_entry@[eid as int]@[h as int]@) =~= (if occ_offsets(pe0[eid as int]@[h as int]@).len() >= cap {
                            occ_offsets(pe0[eid as int]@[h as int]@).drop_first()
                        } else {
                            occ_offsets(pe0[eid as int]@[h as int]@)
                        }).push(o as u64));
                        assert forall|hh: int| 0 <= hh < HASH_SLOTS && hh != h implies aligned_offsets(
                            data@, hh, m as int, stride as int, j + 1) == aligned_offsets(data@, hh, m as int, stride as int, j) by {}
                        assert(j <= j * stride) by (nonlinear_arith)
                            requires
                                j >= 0,
                                stride >= 1,
                        ;
                        assert((j + 1) * stride == j * stride + stride) by (nonlinear_arith);
                        j = j + 1;
                    }
                    o = o + stride;
                }
                proof {
                    assert forall|h: int| 0 <= h < HASH_SLOTS implies aligned_offsets(data@, h, m as int, stride as int, data.len()
                        + 1) == aligned_offsets(data@, h, m as int, stride as int, j) by {
                        lemma_aligned_offsets_tail(data@, h, m as int, stride as int, j, data.len() + 1);
                    }
                }
            }
            proof {
                assert forall|t: int, h: int|
                    0 <= t < count && 0 <= h < HASH_SLOTS implies #[trigger] occ_offsets(per_entry@[t]@[h]@)
                        == keep_newest(recorded_offsets(entries@, k + 1, t, h, m as int, stride as int), cap as int) by {
                    if t == eid && eid < count && data.len() >= m {
                    } else {
                        assert(recorded_offsets(entries@, k + 1, t, h, m as int, stride as int) == recorded_offsets(
                            entries@, k as int, t, h, m as int, stride as int));
                    }
                }
            }
            k = k + 1;
        }
        Self { per_entry, min_match: m }
    }

    pub fn empty() -> (ix: Self)
        ensures
            ix.wf(),
            ix.table_count() == 0,
            ix.min_match_len() == 3,
    {
        Self { per_entry: Vec::new(), min_match: 3 }
    }

    /// Best earlier occurrence of the bytes at `buf[pos..]` recorded for `entry`.
    /// `cur_rel` is the entry offset of `buf[pos]` and `buf_rel_base` that of `buf[0]`.
    /// A result `(len, dist)` names the run at buffer position `(cur_rel - dist) - buf_rel_base`,
    /// which lies before `pos`, repeats `len` bytes of `buf[pos..]` and ends by `pos`.
    pub fn scan_global(
        &self,
        entry: u32,
        cur_rel: u64,
        buf_rel_base: u64,
        buf: &[u8],
        pos: usize,
        max_dist: usize,
        min_len: usize,
    ) -> (r: Option<(usize, usize)>)
        requires
            self.wf(),
        ensures
            r == self.scan_result(entry, cur_rel, buf_rel_base, buf@, pos as int, max_dist, min_len),
            (entry >= self.table_count() || pos + self.min_match_len() > buf.len()) ==> r is None,
            r matches Some((len, dist)) ==> {
                let mp = cur_rel - dist - buf_rel_base;
                &&& min_len <= len <= 258
                &&& 1 <= dist <= max_dist
                &&& dist <= cur_rel
                &&& 0 <= mp < pos
                &&& mp + len <= pos
                &&& bytes_repeat(buf@, mp, pos as int, len as int)
            },
    {
        let e = entry as usize;
        if e >= self.per_entry.len() {
            return None;
        }
        let m = self.min_match;
        if pos > buf.len() || m > buf.len() - pos {
            return None;
        }
        let h = hash3(buf[pos], buf[pos + 1], buf[pos + 2]) & HASH_MASK;
        proof {
            let hv = hash3_value(buf[pos as int], buf[pos + 1], buf[pos + 2]);
            assert(hv & 32767usize <= 32767usize) by (bit_vector);
        }
        let slot = &self.per_entry[e][h];
        let ghost offsets = self.slot(e as int, h as int);
        assert(offsets.len() == slot.len());
        if slot.len() == 0 {
            return None;
        }
        let mut best: Option<(usize, usize)> = None;
        let mut idx = slot.len();
        while idx > 0
            invariant
                idx <= slot.len(),
                pos + 3 <= buf.len(),
                offsets.len() == slot.len(),
                forall|i: int| 0 <= i < slot.len() ==> (#[trigger] slot@[i]).offset == offsets[i],
                best == occ_scan(buf@, pos as int, cur_rel, buf_rel_base, max_dist, min_len, offsets, idx as int),
                best matches Some((len, dist)) ==> {
                    let mp = cur_rel - dist - buf_rel_base;
                    &&& min_len <= len <= 258
                    &&& 1 <= dist <= max_dist
                    &&& dist <= cur_rel
                    &&& 0 <= mp < pos
                    &&& mp + len <= pos
                    &&& bytes_repeat(buf@, mp, pos as int, len as int)
                },
            decreases idx,
        {
            idx = idx - 1;
            let occ = slot[idx];
            let ghost cand = occ_candidate(buf@, pos as int, cur_rel, buf_rel_base, max_dist, min_len, offsets[idx as int]);
            assert(occ.offset == offsets[idx as int]);
            if occ.offset >= cur_rel {
                continue;
            }
            let dist64 = cur_rel - occ.offset;
            if dist64 == 0 || dist64 > max_dist as u64 {
                continue;
            }
            let dist = dist64 as usize;
            if occ.offset < buf_rel_base {
                continue;
            }
            let rel = occ.offset - buf_rel_base;
            if rel >= pos as u64 {
                continue;
            }
            let mp = rel as usize;
            let mut len = 0usize;
            while pos + len < buf.len() && mp + len < pos && buf[mp + len] == buf[pos + len] && len
                < 258
                invariant
                    mp < pos,
                    pos + len <= buf.len(),
                    mp + len <= pos,
                    len <= 258,
                    forall|k: int| 0 <= k < len ==> #[trigger] buf@[mp + k] == buf@[pos + k],
                    occ_run_len(buf@, mp as int, pos as int, len as int) == occ_run_len(buf@, mp as int, pos as int, 0),
                decreases 258 - len,
            {
                len = len + 1;
            }
            assert(len == occ_run_len(buf@, mp as int, pos as int, 0));
            if len >= min_len {
                let score = saturating_mul_usize(len, 65536).saturating_sub(dist);
                let take = match best {
                    None => true,
                    Some((bl, bd)) => {
                        let old = saturating_mul_usize(bl, 65536).saturating_sub(bd);
                        score > old || (score == old && dist < bd)
                    },
                };
                if take {
                    best = Some((len, dist));
                }
            }
        }
        best
    }
}

pub open spec fn hash3_value(b0: u8, b1: u8, b2: u8) -> usize {
    roll_hash3_spec(b0, b1, b2) as usize
}

fn hash3(b0: u8, b1: u8, b2: u8) -> (r: usize)
    ensures
        r == hash3_value(b0, b1, b2),
{
    roll_hash3(b0, b1, b2) as usize
}

/// Offset `o` of `data` is one that an index with stride `s` and minimum match `m` records
/// under slot `h`: a multiple of the stride with `m` bytes from it, whose three bytes hash to `h`.
pub open spec fn indexed_at(data: Seq<u8>, h: int, m: int, s: int, o: int) -> bool {
    &&& 0 <= o
    &&& o % s == 0
    &&& o + m <= data.len()
    &&& occ_slot(data, o) == h
}

/// The aligned offsets below `n * s` are exactly the indexed ones, in ascending order.
proof fn lemma_aligned_offsets(data: Seq<u8>, h: int, m: int, s: int, n: int)
    requires
        s >= 1,
        n >= 0,
        m >= 0,
        data.len() <= u64::MAX,
    ensures
        forall|i: int|
            0 <= i < aligned_offsets(data, h, m, s, n).len() ==> indexed_at(
                data,
                h,
                m,
                s,
                #[trigger] aligned_offsets(data, h, m, s, n)[i] as int,
            ) && aligned_offsets(data, h, m, s, n)[i] < n * s,
        forall|i: int, j: int|
            0 <= i < j < aligned_offsets(data, h, m, s, n).len() ==> aligned_offsets(data, h, m, s, n)[i]
                < aligned_offsets(data, h, m, s, n)[j],
        forall|o: int|
            #![trigger indexed_at(data, h, m, s, o)]
            indexed_at(data, h, m, s, o) && o < n * s ==> aligned_offsets(data, h, m, s, n).contains(
                o as u64,
            ),
    decreases n,
{
    if n > 0 {
        lemma_aligned_offsets(data, h, m, s, n - 1);
        let o = (n - 1) * s;
        let rest = aligned_offsets(data, h, m, s, n - 1);
        let l = aligned_offsets(data, h, m, s, n);
        assert(o >= 0) by (nonlinear_arith)
            requires
                o == (n - 1) * s,
                n >= 1,
                s >= 1,
        ;
        assert(n * s == o + s) by (nonlinear_arith)
            requires
                o == (n - 1) * s,
        ;
        assert(o % s == 0) by {
            vstd::arithmetic::div_mod::lemma_mod_multiples_basic(n - 1, s);
        }
        assert forall|i: int| 0 <= i < l.len() implies indexed_at(data, h, m, s, #[trigger] l[i] as int)
            && l[i] < n * s by {
            if i < rest.len() {
                assert(l[i] == rest[i]);
            } else {
                assert(l[i] == o as u64);
            }
        }
        assert forall|x: int|
            #![trigger indexed_at(data, h, m, s, x)]
            indexed_at(data, h, m, s, x) && x < n * s implies l.contains(x as u64) by {
            if x < o {
                assert(rest.contains(x as u64));
                let i = choose|i: int| 0 <= i < rest.len() && rest[i] == x as u64;
                if o + m <= data.len() && occ_slot(data, o) == h {
                    assert(l[i] == rest[i]);
                }
            } else {
                vstd::arithmetic::div_mod::lemma_fundamental_div_mod(x, s);
                let q = x / s;
                assert(x == s * q);
                assert(x == o) by (nonlinear_arith)
                    requires
                        x == s * q,
                        o == (n - 1) * s,
                        o <= x < o + s,
                        s >= 1,
                ;
                assert(l[l.len() - 1] == x as u64);
            }
        }
    }
}

/// Keeping the newest `c` of an ascending list keeps its largest: anything left out is smaller
/// than everything kept, and what is kept stays ascending.
proof fn lemma_keep_newest_largest(l: Seq<u64>, c: int)
    requires
        c >= 1,
        forall|i: int, j: int| 0 <= i < j < l.len() ==> l[i] < l[j],
    ensures
        keep_newest(l, c).len() <= c,
        forall|k: int|
            0 <= k < keep_newest(l, c).len() ==> l.contains(#[trigger] keep_newest(l, c)[k]),
        forall|i: int, j: int|
            0 <= i < j < keep_newest(l, c).len() ==> keep_newest(l, c)[i] < keep_newest(l, c)[j],
        forall|i: int|
            0 <= i < l.len() && !keep_newest(l, c).contains(#[trigger] l[i]) ==> keep_newest(l, c).len()
                == c && forall|k: int| 0 <= k < c ==> l[i] < #[trigger] keep_newest(l, c)[k],
{
    let kn = keep_newest(l, c);
    if l.len() > c {
        let d = l.len() - c;
        assert forall|k: int| 0 <= k < kn.len() implies l.contains(#[trigger] kn[k]) by {
            assert(kn[k] == l[d + k]);
        }
        assert forall|i: int| 0 <= i < l.len() && !kn.contains(#[trigger] l[i]) implies kn.len() == c
            && forall|k: int| 0 <= k < c ==> l[i] < #[trigger] kn[k] by {
            if i >= d {
                assert(kn[i - d] == l[i]);
            }
            assert forall|k: int| 0 <= k < c implies l[i] < #[trigger] kn[k] by {
                assert(kn[k] == l[d + k]);
            }
        }
    } else {
        assert forall|k: int| 0 <= k < kn.len() implies l.contains(#[trigger] kn[k]) by {
            assert(kn[k] == l[k]);
        }
        assert forall|i: int| 0 <= i < l.len() && !kn.contains(#[trigger] l[i]) implies kn.len() == c
            && forall|k: int| 0 <= k < c ==> l[i] < #[trigger] kn[k] by {
            assert(kn[i] == l[i]);
        }
    }
}

/// A candidate that `occ_scan` reports comes from one of the offsets it scanned: its distance is
/// `cur_rel` minus that offset.
proof fn lemma_occ_scan_source(
    buf: Seq<u8>,
    pos: int,
    cur_rel: u64,
    buf_rel_base: u64,
    max_dist: usize,
    min_len: usize,
    offsets: Seq<u64>,
    k: int,
)
    requires
        occ_scan(buf, pos, cur_rel, buf_rel_base, max_dist, min_len, offsets, k) is Some,
    ensures
        ({
            let (len, dist) = occ_scan(buf, pos, cur_rel, buf_rel_base, max_dist, min_len, offsets, k)->0;
            exists|j: int| 0 <= j < offsets.len() && offsets[j] + dist == cur_rel
        }),
    decreases offsets.len() - k,
{
    let best = occ_scan(buf, pos, cur_rel, buf_rel_base, max_dist, min_len, offsets, k + 1);
    let c = occ_candidate(buf, pos, cur_rel, buf_rel_base, max_dist, min_len, offsets[k]);
    let r = occ_scan(buf, pos, cur_rel, buf_rel_base, max_dist, min_len, offsets, k);
    if r == c {
        let pair = r->0;
        assert(offsets[k] + pair.1 == cur_rel);
    } else {
        assert(r == best);
        lemma_occ_scan_source(buf, pos, cur_rel, buf_rel_base, max_dist, min_len, offsets, k + 1);
    }
}

/// A match that an index built from one entry reports comes from a recorded offset that the
/// index's rules allow: with the stride `s`, minimum match `m` and chain length `c` that `build`
/// settles on, the matched offset `cur_rel - dist` is a multiple of the stride with `m` bytes of
/// the entry from it, whose three bytes hash to the slot of the three bytes at `pos`; and every
/// other such offset that the index left out of that slot is older (smaller) than it, at most
/// `c` offsets being kept.
pub proof fn lemma_match_from_recorded_offset(
    ix: PatternIndex,
    entries: Seq<(u32, &[u8])>,
    m: int,
    s: int,
    c: int,
    cur_rel: u64,
    buf_rel_base: u64,
    buf: Seq<u8>,
    pos: int,
    max_dist: usize,
    min_len: usize,
)
    requires
        ix.wf(),
        entries.len() == 1,
        entries[0].1@.len() <= u64::MAX,
        m == ix.min_match_len(),
        s >= 1,
        c >= 1,
        forall|h: int|
            0 <= h < HASH_SLOTS ==> #[trigger] ix.slot(entries[0].0 as int, h) == keep_newest(
                recorded_offsets(entries, 1, entries[0].0 as int, h, m, s),
                c,
            ),
        ix.scan_result(entries[0].0, cur_rel, buf_rel_base, buf, pos, max_dist, min_len) is Some,
    ensures
        ({
            let e = entries[0].0 as int;
            let data = entries[0].1@;
            let dist = (ix.scan_result(entries[0].0, cur_rel, buf_rel_base, buf, pos, max_dist, min_len)->0).1;
            let o = cur_rel - dist;
            let h = (hash3_value(buf[pos], buf[pos + 1], buf[pos + 2]) & 32767usize) as int;
            &&& ix.slot(e, h).len() <= c
            &&& indexed_at(data, h, m, s, o)
            &&& forall|o2: int|
                #![trigger indexed_at(data, h, m, s, o2)]
                indexed_at(data, h, m, s, o2) && !ix.slot(e, h).contains(o2 as u64) ==> o2 < o
        }),
{
    let e = entries[0].0 as int;
    let data = entries[0].1@;
    let h = (hash3_value(buf[pos], buf[pos + 1], buf[pos + 2]) & 32767usize) as int;
    let hv = hash3_value(buf[pos], buf[pos + 1], buf[pos + 2]);
    assert(hv & 32767usize <= 32767usize) by (bit_vector);
    let slot = ix.slot(e, h);
    let r = ix.scan_result(entries[0].0, cur_rel, buf_rel_base, buf, pos, max_dist, min_len);
    let dist = (r->0).1;
    assert(r == occ_scan(buf, pos, cur_rel, buf_rel_base, max_dist, min_len, slot, 0));
    lemma_occ_scan_source(buf, pos, cur_rel, buf_rel_base, max_dist, min_len, slot, 0);
    let j = choose|j: int| 0 <= j < slot.len() && slot[j] + dist == cur_rel;
    let n = data.len() + 1int;
    let l = aligned_offsets(data, h, m, s, n);
    let rec = recorded_offsets(entries, 1, e, h, m, s);
    assert(recorded_offsets(entries, 0, e, h, m, s) == Seq::<u64>::empty());
    if data.len() >= m {
        assert(rec =~= l);
    } else {
        assert(rec =~= Seq::<u64>::empty());
    }
    lemma_aligned_offsets(data, h, m, s, n);
    assert forall|i: int, k: int| 0 <= i < k < rec.len() implies rec[i] < rec[k] by {}
    lemma_keep_newest_largest(rec, c);
    assert(slot == keep_newest(rec, c));
    assert(rec.contains(slot[j]));
    let ji = choose|i: int| 0 <= i < rec.len() && rec[i] == slot[j];
    assert(indexed_at(data, h, m, s, rec[ji] as int));
    assert forall|o2: int|
        #![trigger indexed_at(data, h, m, s, o2)]
        indexed_at(data, h, m, s, o2) && !slot.contains(o2 as u64) implies o2 < cur_rel - dist by {
        assert(o2 < n * s) by (nonlinear_arith)
            requires
                o2 + m <= data.len(),
                m >= 0,
                n == data.len() + 1,
                s >= 1,
        ;
        assert(data.len() >= m);
        assert(l.contains(o2 as u64));
        let i = choose|i: int| 0 <= i < l.len() && l[i] == o2 as u64;
        assert(!slot.contains(rec[i]));
        assert(rec[i] < slot[j]);
    }
}

} // verus!
