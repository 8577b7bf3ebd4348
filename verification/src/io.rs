//! Reading plans and directory scans: what the library decides about files it does not read.
use std::path::PathBuf;
use vstd::prelude::*;

use crate::blocks::ArchiveEntryDescriptor;
use crate::pipeline::{arrange_entries, laid_out};
use vstd::string::StringExecFns;

verus! {

/// When to map a file instead of reading it, and how much to read at a time.
#[derive(Clone, Copy, Debug, PartialEq, Eq, Structural)]
pub struct FileReadPlan {
    pub prefer_mmap_bytes: u64,
    pub chunk_bytes: usize,
}

impl Default for FileReadPlan {
    fn default() -> (r: Self)
        ensures
            r == (FileReadPlan { prefer_mmap_bytes: 0x40_0000u64, chunk_bytes: 0x10_0000usize }),
    {
        FileReadPlan { prefer_mmap_bytes: 4 * 1024 * 1024, chunk_bytes: 1024 * 1024 }
    }
}

pub struct FileReader {
    plan: FileReadPlan,
}

impl FileReader {
    /// The reading plan.
    pub closed spec fn spec_plan(&self) -> FileReadPlan {
        self.plan
    }

    pub fn new(plan: FileReadPlan) -> (r: Self)
        ensures
            r.spec_plan() == plan,
    {
        FileReader { plan }
    }

    pub fn plan(&self) -> (r: FileReadPlan)
        ensures
            r == self.spec_plan(),
    {
        self.plan
    }

    /// Whether a file of `len` bytes is mapped rather than read.
    pub fn prefers_mmap(&self, len: u64) -> (r: bool)
        ensures
            r == (len >= self.spec_plan().prefer_mmap_bytes),
    {
        len >= self.plan.prefer_mmap_bytes
    }

    /// The scratch buffer size for chunked reads: the chunk size, at least 4096.
    pub fn scratch_len(&self) -> (r: usize)
        ensures
            r == if self.spec_plan().chunk_bytes < 4096 {
                4096
            } else {
                self.spec_plan().chunk_bytes
            },
    {
        if self.plan.chunk_bytes < 4096 {
            4096
        } else {
            self.plan.chunk_bytes
        }
    }
}

pub struct DirectoryScanner {
    root: PathBuf,
}

pub struct ScanOutcome {
    pub entries: Vec<ArchiveEntryDescriptor>,
}

impl DirectoryScanner {
    pub closed spec fn spec_root(&self) -> PathBuf {
        self.root
    }

    pub fn new(root: PathBuf) -> (r: Self)
        ensures
            r.spec_root() == root,
    {
        DirectoryScanner { root }
    }

    /// The directory the scan starts from.
    pub fn root(&self) -> (r: &PathBuf)
        ensures
            *r == self.spec_root(),
    {
        &self.root
    }

    /// The scan's result from the files found under the root: in name order, numbered from 0.
    pub fn finish_scan(found: Vec<ArchiveEntryDescriptor>) -> (r: ScanOutcome)
        requires
            found.len() <= u32::MAX,
        ensures
            laid_out(found@, r.entries@, false),
    {
        let mut entries = found;
        arrange_entries(&mut entries, false);
        ScanOutcome { entries }
    }
}

/// Names that start with a dot are hidden and stay out of archives.
pub open spec fn hidden(name: Seq<char>) -> bool {
    name.len() > 0 && name[0] == '.'
}

/// The archive name of `name` found in the directory whose archive name is `prefix` (the
/// root's is empty): joined with a slash.
pub open spec fn joined_name(prefix: Seq<char>, name: Seq<char>) -> Seq<char> {
    if prefix.len() == 0 {
        name
    } else {
        prefix + seq!['/'] + name
    }
}

impl DirectoryScanner {
    /// Whether a file or directory name is hidden.
    pub fn is_hidden(name: &str) -> (r: bool)
        ensures
            r == hidden(name@),
    {
        broadcast use vstd::string::axiom_spec_iter, vstd::string::next_postcondition;
        let mut it = name.chars();
        match it.next() {
            Some(c) => c == '.',
            None => false,
        }
    }

    /// The archive name of a file or directory found under `prefix`.
    pub fn logical_name(prefix: &str, name: &str) -> (r: String)
        ensures
            r@ == joined_name(prefix@, name@),
    {
        if prefix.is_empty() {
            return name.to_owned();
        }
        let mut s = prefix.to_owned();
        let slash = "/";
        proof {
            reveal_strlit("/");
        }
        s.append(slash);
        s.append(name);
        s
    }
}

} // verus!
