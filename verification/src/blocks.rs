//! Entries of an archive, the spans they are cut into, and run statistics.
use std::path::PathBuf;
use vstd::prelude::*;

use crate::ids::{BlockId, EntryId};

verus! {

/// One file of the archive.
#[derive(Clone, Debug)]
pub struct ArchiveEntryDescriptor {
    pub id: EntryId,
    pub path: PathBuf,
    pub logical_name: String,
    pub uncompressed_size: u64,
    pub is_directory: bool,
}

/// A contiguous byte range of one entry, compressed as one block.
#[derive(Clone, Copy, Debug, PartialEq, Eq, Structural)]
pub struct BlockSpan {
    pub entry: EntryId,
    pub offset: u64,
    pub len: u64,
    pub block: BlockId,
}

#[derive(Clone, Copy, Debug, PartialEq, Eq, Structural)]
pub struct BlockDescriptor {
    pub id: BlockId,
    pub entry: EntryId,
    pub span: BlockSpan,
    pub planned_bytes: usize,
}

/// The spans that an entry is cut into, in order.
#[derive(Clone, Debug)]
pub struct ChunkPlan {
    pub entry: EntryId,
    pub spans: Vec<BlockSpan>,
}

#[derive(Clone, Copy, Debug, PartialEq, Eq, Structural)]
pub struct EntryRunStats {
    pub entry_id: u32,
    pub uncompressed_size: u64,
    pub compressed_size: u64,
    pub stored_effective: bool,
}

#[derive(Clone, Copy, Debug, PartialEq, Eq, Structural)]
pub struct ExplainMatches {
    pub window: u32,
    pub index: u32,
}

#[derive(Clone, Copy, Debug, Default, PartialEq, Eq, Structural)]
pub struct ByteClassHistogram {
    pub zero: u64,
    pub ascii_text: u64,
    pub high_entropy: u64,
    pub duplicate_window_hits: u64,
}

#[derive(Clone, Copy, Debug, Default, PartialEq, Eq, Structural, Hash)]
pub struct PatternDigest(pub u64);

#[derive(Clone, Debug)]
pub struct GlobalStatisticsSummary {
    pub total_uncompressed: u64,
    pub entry_count: u64,
    pub histogram: ByteClassHistogram,
    pub top_patterns: Vec<(PatternDigest, u32)>,
    pub mean_entry_bytes: u64,
    pub duplicate_mass: u64,
    pub text_mass: u64,
}

impl Default for GlobalStatisticsSummary {
    fn default() -> (r: Self)
        ensures
            r.total_uncompressed == 0,
            r.entry_count == 0,
            r.histogram == (ByteClassHistogram {
                zero: 0,
                ascii_text: 0,
                high_entropy: 0,
                duplicate_window_hits: 0,
            }),
            r.top_patterns@.len() == 0,
            r.mean_entry_bytes == 0,
            r.duplicate_mass == 0,
            r.text_mass == 0,
    {
        GlobalStatisticsSummary {
            total_uncompressed: 0,
            entry_count: 0,
            histogram: ByteClassHistogram {
                zero: 0,
                ascii_text: 0,
                high_entropy: 0,
                duplicate_window_hits: 0,
            },
            top_patterns: Vec::new(),
            mean_entry_bytes: 0,
            duplicate_mass: 0,
            text_mass: 0,
        }
    }
}

#[derive(Clone, Copy, Debug, PartialEq, Eq, Structural)]
pub enum CompressionTaskKind {
    ReadEntry,
    AnalyzeEntry,
    CompressBlock,
    EncodeBlock,
    WriteEntry,
}

#[derive(Clone, Debug)]
pub struct TaskNode {
    pub id: crate::ids::TaskId,
    pub kind: CompressionTaskKind,
    pub entry: Option<EntryId>,
    pub block: Option<BlockId>,
    pub depends_on: Vec<crate::ids::TaskId>,
}

#[derive(Clone, Debug)]
pub struct TaskGraph {
    pub nodes: Vec<TaskNode>,
}

impl Default for TaskGraph {
    fn default() -> (r: Self)
        ensures
            r.nodes@.len() == 0,
    {
        TaskGraph { nodes: Vec::new() }
    }
}

} // verus!
