//! The benchmark harness's data: its configuration, corpus manifest, profiles and generated
//! bytes.
use sha2::Digest;
use std::path::PathBuf;
use vstd::prelude::*;

use crate::profile::{
    default_policy, requested_budget, ArchiveLayout, ArchiveProfile, CompressionMethod, CompressionProfile, DeflateStrategy,
    ExecutionBudget, ExecutionPolicy, PlanningAggression, PredictiveMode, PredictiveRuntimeConfig,
    SchedulerPolicy, VerificationMode,
};

verus! {

#[derive(Clone, Debug)]
pub struct HarnessConfig {
    pub root: PathBuf,
    pub level: u32,
    pub threads: usize,
    pub skip_large: bool,
}

#[derive(Clone, Debug)]
pub struct ManifestFile {
    pub path: String,
    pub bytes: u64,
    pub sha256_hex: String,
}

#[derive(Clone, Debug)]
pub struct Manifest {
    pub version: u32,
    pub generator: String,
    pub files: Vec<ManifestFile>,
}

#[derive(Clone, Debug)]
pub struct FailedCase {
    pub workload_id: String,
    pub mode_id: String,
    pub reason: String,
}

#[derive(Clone, Debug)]
pub struct ModeDefJson {
    pub id: String,
    pub label: String,
}

#[derive(Clone, Copy, Debug, PartialEq, Eq, Structural)]
pub struct RoundTripOutcome {
    pub strict_ok: bool,
    pub after_write_ok: bool,
    pub entries_checked: u64,
}

/// The SHA-256 digest of a byte string, as lowercase hexadecimal.
pub uninterp spec fn sha256_hex(data: Seq<u8>) -> Seq<char>;

/// `sha2::Sha256` over the bytes, formatted as lowercase hexadecimal.
#[verifier::external_body]
fn sha256_hex_of(data: &[u8]) -> (r: String)
    ensures
        r@ == sha256_hex(data@),
{
    format!("{:x}", <sha2::Sha256 as Digest>::digest(data))
}

/// The manifest line of one corpus file: its path, size and digest.
pub fn manifest_file(path: String, data: &[u8]) -> (r: ManifestFile)
    ensures
        r.path == path,
        r.bytes == data.len(),
        r.sha256_hex@ == sha256_hex(data@),
{
    ManifestFile { path, bytes: data.len() as u64, sha256_hex: sha256_hex_of(data) }
}

/// One step of the xorshift64 generator (shifts 13, 7, 17).
pub open spec fn xorshift_spec(x: u64) -> u64 {
    let a = x ^ (x << 13u64);
    let b = a ^ (a >> 7u64);
    b ^ (b << 17u64)
}

pub fn xorshift(x: u64) -> (r: u64)
    ensures
        r == xorshift_spec(x),
{
    let mut x = x;
    x = x ^ (x << 13u64);
    x = x ^ (x >> 7u64);
    x = x ^ (x << 17u64);
    x
}

/// The generator's state after `i` steps from `seed`, step `k` mixing in its index.
pub open spec fn entropy_state(seed: u64, i: nat) -> u64
    decreases i,
{
    if i == 0 {
        seed
    } else {
        let prev = entropy_state(seed, (i - 1) as nat);
        xorshift_spec(((prev + (i - 1)) % 0x1_0000_0000_0000_0000) as u64)
    }
}

/// `len` pseudo-random bytes: byte `i` is the top byte of the state after `i + 1` steps.
pub fn high_entropy(len: usize, seed: u64) -> (out: Vec<u8>)
    ensures
        out.len() == len,
        forall|i: int| 0 <= i < len ==> #[trigger] out@[i] == (entropy_state(seed, (i + 1) as nat) >> 48u64) as u8,
{
    let mut out: Vec<u8> = Vec::with_capacity(len);
    let mut s = seed;
    let mut i = 0usize;
    while i < len
        invariant
            i <= len,
            out.len() == i,
            s == entropy_state(seed, i as nat),
            forall|k: int| 0 <= k < i ==> #[trigger] out@[k] == (entropy_state(seed, (k + 1) as nat) >> 48u64) as u8,
        decreases len - i,
    {
        s = xorshift(s.wrapping_add(i as u64));
        out.push((s >> 48u64) as u8);
        i = i + 1;
    }
    out
}

/// The archive profile of a harness mode: DEFLATE at `level` with default strategy, the given
/// prediction, verification, scheduling and planning; `threads` workers when nonzero (the
/// machine's default budget otherwise, from `available` parallel threads).
pub fn build_profile(
    level: u32,
    threads: usize,
    prediction: PredictiveMode,
    verification: VerificationMode,
    adaptive: bool,
    global_huffman: bool,
    scheduler: SchedulerPolicy,
    planning: PlanningAggression,
    available: Option<usize>,
) -> (p: ArchiveProfile)
    ensures
        p == (ArchiveProfile {
            layout: ArchiveLayout::DeterministicLexical,
            compression: CompressionProfile {
                method: CompressionMethod::Deflate,
                level,
                strategy: DeflateStrategy::Default,
                window_bits: 15,
                global_huffman,
            },
            execution: ExecutionPolicy { scheduler, adaptive_block_feedback: adaptive, ..default_policy() },
            budget: requested_budget(available, threads),
            reproducible: true,
            predictive: PredictiveRuntimeConfig { mode: prediction, verification, planning },
        }),
{
    let budget = ExecutionBudget::with_requested_threads(available, threads);
    let mut execution = ExecutionPolicy::default();
    execution.scheduler = scheduler;
    execution.adaptive_block_feedback = adaptive;
    let compression = CompressionProfile {
        method: CompressionMethod::Deflate,
        level,
        strategy: DeflateStrategy::Default,
        window_bits: 15,
        global_huffman,
    };
    ArchiveProfile {
        layout: ArchiveLayout::DeterministicLexical,
        compression,
        execution,
        budget,
        reproducible: true,
        predictive: PredictiveRuntimeConfig { mode: prediction, verification, planning },
    }
}

} // verus!
