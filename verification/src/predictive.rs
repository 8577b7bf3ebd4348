//! Per-entry predictions and how they turn into compression hints.
use vstd::prelude::*;

use crate::engine::EntryCompressHints;
use crate::ids::EntryId;
use crate::profile::{
    ArchiveProfile, CompressionMethod, CompressionProfile, DeflateStrategy, PredictedDeflatePath,
    PredictiveMode,
};

verus! {

/// What the predictive planner decided for one entry. (The measurements it decided from are
/// floating point and stay with the application.)
#[derive(Clone, Copy, Debug, PartialEq, Eq, Structural)]
pub struct EntryCompressionPlan {
    pub entry_id: EntryId,
    pub recommended_stored: bool,
    pub deflate_path: PredictedDeflatePath,
    pub target_block_bytes: u64,
    pub use_global_huffman: bool,
}

/// The plans of all entries, normally one per entry at the entry's own index.
#[derive(Clone, Debug)]
pub struct PredictiveArchivePlan {
    pub entries: Vec<EntryCompressionPlan>,
}

impl Default for PredictiveArchivePlan {
    fn default() -> (r: Self)
        ensures
            r.entries@.len() == 0,
    {
        PredictiveArchivePlan { entries: Vec::new() }
    }
}

/// The plan at the entry's own index is the entry's.
pub open spec fn dense_hit(entries: Seq<EntryCompressionPlan>, id: EntryId) -> bool {
    (id.0 as int) < entries.len() && entries[id.0 as int].entry_id == id
}

impl PredictiveArchivePlan {
    /// The plan of an entry: the one at the entry's own index when it belongs to the entry,
    /// else the first plan that does; none when no plan does.
    pub fn for_entry(&self, id: EntryId) -> (r: Option<&EntryCompressionPlan>)
        ensures
            dense_hit(self.entries@, id) ==> r == Some(&self.entries@[id.0 as int]),
            !dense_hit(self.entries@, id) ==> (r is None <==> forall|j: int|
                0 <= j < self.entries.len() ==> (#[trigger] self.entries@[j]).entry_id != id),
            !dense_hit(self.entries@, id) ==> (r matches Some(p) ==> exists|j: int|
                #![trigger self.entries@[j]]
                0 <= j < self.entries.len() && self.entries@[j] == *p && p.entry_id == id && forall|k: int|
                    0 <= k < j ==> (#[trigger] self.entries@[k]).entry_id != id),
    {
        let i = id.0 as usize;
        if i < self.entries.len() && self.entries[i].entry_id == id {
            return Some(&self.entries[i]);
        }
        let mut j = 0usize;
        while j < self.entries.len()
            invariant
                j <= self.entries.len(),
                !dense_hit(self.entries@, id),
                forall|k: int| 0 <= k < j ==> (#[trigger] self.entries@[k]).entry_id != id,
            decreases self.entries.len() - j,
        {
            if self.entries[j].entry_id == id {
                return Some(&self.entries[j]);
            }
            j = j + 1;
        }
        None
    }

    /// A plan with no entries.
    pub fn empty() -> (r: Self)
        ensures
            r.entries@.len() == 0,
    {
        PredictiveArchivePlan { entries: Vec::new() }
    }
}

/// The profile an entry's plan asks for: stored where the plan recommends it and the archive
/// would deflate; when deflating, shared codes where the plan asks for them and the strategy
/// of the predicted path (fixed codes, dynamic codes, or the archive's own choice).
pub open spec fn hinted_profile(archive: CompressionProfile, ep: EntryCompressionPlan) -> CompressionProfile {
    let method = if ep.recommended_stored && archive.method == CompressionMethod::Deflate {
        CompressionMethod::Stored
    } else {
        archive.method
    };
    if method == CompressionMethod::Deflate {
        CompressionProfile {
            global_huffman: ep.use_global_huffman || archive.global_huffman,
            strategy: match ep.deflate_path {
                PredictedDeflatePath::Fixed => DeflateStrategy::Fixed,
                PredictedDeflatePath::Dynamic => DeflateStrategy::Default,
                PredictedDeflatePath::Auto => archive.strategy,
            },
            ..archive
        }
    } else {
        CompressionProfile { method, ..archive }
    }
}

/// What a plan does to the archive's profile: an entry is stored only when the archive stores or
/// the plan recommends it; a deflated entry keeps the archive's shared codes when the archive
/// uses them, and uses them otherwise only when the plan asks for them; its strategy is the
/// plan's fixed or dynamic choice, or the archive's on `Auto`; level and window are the archive's.
pub proof fn lemma_hinted_profile(archive: CompressionProfile, ep: EntryCompressionPlan)
    ensures
        ({
            let p = hinted_profile(archive, ep);
            &&& p.level == archive.level
            &&& p.window_bits == archive.window_bits
            &&& (p.method == CompressionMethod::Stored) <==> (archive.method == CompressionMethod::Stored
                || ep.recommended_stored)
            &&& archive.global_huffman ==> p.global_huffman
            &&& p.global_huffman ==> (archive.global_huffman || (ep.use_global_huffman && p.method
                == CompressionMethod::Deflate))
            &&& p.method == CompressionMethod::Deflate && ep.use_global_huffman ==> p.global_huffman
            &&& p.method == CompressionMethod::Deflate ==> p.strategy == match ep.deflate_path {
                PredictedDeflatePath::Fixed => DeflateStrategy::Fixed,
                PredictedDeflatePath::Dynamic => DeflateStrategy::Default,
                PredictedDeflatePath::Auto => archive.strategy,
            }
            &&& p.method == CompressionMethod::Stored ==> p.strategy == archive.strategy
        }),
{
}

/// The hints for one entry. Without predictions (mode off, or no plan for the entry) the
/// archive's profile and the model's LZ77 effort; otherwise the plan's profile and the LZ77
/// effort the caller derived from the plan's measurements.
pub fn build_entry_compress_hints(
    archive: &ArchiveProfile,
    entry_plan: Option<&EntryCompressionPlan>,
    lz77_max_chain: u32,
    lz77_nice_match: u32,
) -> (r: EntryCompressHints)
    ensures
        (archive.predictive.mode == PredictiveMode::Off || entry_plan is None) ==> r == (EntryCompressHints {
            profile: archive.compression,
            lz77_max_chain: None,
            lz77_nice_match: None,
        }),
        entry_plan matches Some(ep) ==> (archive.predictive.mode != PredictiveMode::Off ==> r == (EntryCompressHints {
            profile: hinted_profile(archive.compression, *ep),
            lz77_max_chain: Some(lz77_max_chain),
            lz77_nice_match: Some(lz77_nice_match),
        })),
        archive.compression.global_huffman ==> r.profile.global_huffman,
        r.profile.global_huffman ==> archive.compression.global_huffman || (entry_plan is Some
            && entry_plan->0.use_global_huffman && r.profile.method == CompressionMethod::Deflate),
        r.profile.method == CompressionMethod::Stored <==> (archive.compression.method
            == CompressionMethod::Stored || (archive.predictive.mode != PredictiveMode::Off
            && entry_plan is Some && entry_plan->0.recommended_stored)),
        r.profile.level == archive.compression.level,
        r.profile.window_bits == archive.compression.window_bits,
{
    proof {
        if entry_plan is Some {
            lemma_hinted_profile(archive.compression, *entry_plan->0);
        }
    }
    let base = EntryCompressHints { profile: archive.compression, lz77_max_chain: None, lz77_nice_match: None };
    if archive.predictive.mode == PredictiveMode::Off {
        return base;
    }
    let ep = match entry_plan {
        Some(ep) => ep,
        None => {
            return base;
        },
    };
    let mut p = archive.compression;
    if ep.recommended_stored && archive.compression.method == CompressionMethod::Deflate {
        p.method = CompressionMethod::Stored;
    }
    if p.method == CompressionMethod::Deflate {
        if ep.use_global_huffman {
            p.global_huffman = true;
        }
        match ep.deflate_path {
            PredictedDeflatePath::Fixed => {
                p.strategy = DeflateStrategy::Fixed;
            },
            PredictedDeflatePath::Dynamic => {
                p.strategy = DeflateStrategy::Default;
            },
            PredictedDeflatePath::Auto => {},
        }
    }
    EntryCompressHints { profile: p, lz77_max_chain: Some(lz77_max_chain), lz77_nice_match: Some(lz77_nice_match) }
}

} // verus!
