//! Compression, execution and archive settings.
use vstd::prelude::*;

use crate::std_num::saturating_mul_usize;

verus! {

#[derive(Clone, Copy, Debug, PartialEq, Eq, Structural)]
pub enum CompressionMethod {
    Stored,
    Deflate,
}

#[derive(Clone, Copy, Debug, PartialEq, Eq, Structural)]
pub enum DeflateStrategy {
    Default,
    Filtered,
    HuffmanOnly,
    Rle,
    Fixed,
}

#[derive(Clone, Copy, Debug, PartialEq, Eq, Structural)]
pub struct CompressionProfile {
    pub method: CompressionMethod,
    pub level: u32,
    pub strategy: DeflateStrategy,
    pub window_bits: u8,
    pub global_huffman: bool,
}

impl Default for CompressionProfile {
    fn default() -> (r: Self)
        ensures
            r == (CompressionProfile {
                method: CompressionMethod::Deflate,
                level: 6,
                strategy: DeflateStrategy::Default,
                window_bits: 15,
                global_huffman: false,
            }),
    {
        CompressionProfile {
            method: CompressionMethod::Deflate,
            level: 6,
            strategy: DeflateStrategy::Default,
            window_bits: 15,
            global_huffman: false,
        }
    }
}

#[derive(Clone, Copy, Debug, PartialEq, Eq, Structural)]
pub enum ArchiveLayout {
    DeterministicLexical,
    SizeDescending,
    GlobalScoreDescending,
}

#[derive(Clone, Copy, Debug, PartialEq, Eq, Structural)]
pub struct MemoryBudget {
    pub pool_bytes: usize,
    pub max_in_flight_bytes: usize,
    pub read_chunk_bytes: usize,
}

impl Default for MemoryBudget {
    fn default() -> (r: Self)
        ensures
            r == (MemoryBudget {
                pool_bytes: 0x400_0000usize,
                max_in_flight_bytes: 0x1000_0000usize,
                read_chunk_bytes: 0x10_0000usize,
            }),
    {
        MemoryBudget {
            pool_bytes: 0x400_0000usize,
            max_in_flight_bytes: 0x1000_0000usize,
            read_chunk_bytes: 0x10_0000usize,
        }
    }
}

#[derive(Clone, Copy, Debug, PartialEq, Eq, Structural)]
pub struct ExecutionBudget {
    pub worker_threads: usize,
    pub pipeline_depth: usize,
    pub io_lane_count: usize,
    pub max_pending_tasks: usize,
    pub memory: MemoryBudget,
}

/// `x * k`, or `usize::MAX` when it does not fit.
pub open spec fn sat_mul(x: usize, k: usize) -> usize {
    if x * k > usize::MAX {
        usize::MAX
    } else {
        (x * k) as usize
    }
}

/// Worker threads for a machine offering `available` parallel threads (4 when unknown, at
/// least 2).
pub open spec fn worker_threads_for(available: Option<usize>) -> usize {
    match available {
        Some(n) => if n < 2 {
            2
        } else {
            n
        },
        None => 4,
    }
}

/// The memory budget every profile starts from.
pub open spec fn default_memory() -> MemoryBudget {
    MemoryBudget { pool_bytes: 0x400_0000usize, max_in_flight_bytes: 0x1000_0000usize, read_chunk_bytes: 0x10_0000usize }
}

/// The budget of `t` workers: a pipeline twice as deep (at least 8), one I/O lane per worker
/// (2 to 8), and 32 pending tasks per worker (at least 64).
pub open spec fn threaded_budget(t: usize, memory: MemoryBudget) -> ExecutionBudget {
    ExecutionBudget {
        worker_threads: t,
        pipeline_depth: if sat_mul(t, 2) < 8 {
            8
        } else {
            sat_mul(t, 2)
        },
        io_lane_count: if t < 2 {
            2
        } else if t > 8 {
            8
        } else {
            t
        },
        max_pending_tasks: if sat_mul(t, 32) < 64 {
            64
        } else {
            sat_mul(t, 32)
        },
        memory,
    }
}

/// The default budget on a machine offering `available` parallel threads.
pub open spec fn budget_for(available: Option<usize>) -> ExecutionBudget {
    threaded_budget(worker_threads_for(available), default_memory())
}

/// The default budget, or the budget of `threads` workers when that is nonzero.
pub open spec fn requested_budget(available: Option<usize>, threads: usize) -> ExecutionBudget {
    if threads == 0 {
        budget_for(available)
    } else {
        threaded_budget(threads, default_memory())
    }
}

impl ExecutionBudget {
    /// The default budget for a machine offering `available` parallel threads (`None` when the
    /// count is unknown).
    pub fn from_parallelism(available: Option<usize>) -> (r: Self)
        ensures
            r == budget_for(available),
    {
        let threads: usize = match available {
            Some(n) => if n < 2 {
                2
            } else {
                n
            },
            None => 4,
        };
        let d = saturating_mul_usize(threads, 2);
        let p = saturating_mul_usize(threads, 32);
        let lanes = if threads < 8 {
            threads
        } else {
            8
        };
        ExecutionBudget {
            worker_threads: threads,
            pipeline_depth: if d < 8 {
                8
            } else {
                d
            },
            io_lane_count: if lanes < 2 {
                2
            } else {
                lanes
            },
            max_pending_tasks: if p < 64 {
                64
            } else {
                p
            },
            memory: MemoryBudget::default(),
        }
    }

    /// The default budget, with `threads` workers when `threads` is nonzero.
    pub fn with_requested_threads(available: Option<usize>, threads: usize) -> (r: Self)
        ensures
            r == requested_budget(available, threads),
    {
        let mut budget = ExecutionBudget::from_parallelism(available);
        if threads > 0 {
            budget.worker_threads = threads;
            let d = saturating_mul_usize(threads, 2);
            budget.pipeline_depth = if d < 8 {
                8
            } else {
                d
            };
            let lanes = if threads < 8 {
                threads
            } else {
                8
            };
            budget.io_lane_count = if lanes < 2 {
                2
            } else {
                lanes
            };
            let p = saturating_mul_usize(threads, 32);
            budget.max_pending_tasks = if p < 64 {
                64
            } else {
                p
            };
        }
        budget
    }
}

#[derive(Clone, Copy, Debug, Default, PartialEq, Eq, Structural)]
pub enum ExecutionPhase {
    #[default]
    Discovery,
    MetadataScan,
    FileRead,
    Sampling,
    GlobalAnalysis,
    ChunkPlanning,
    BlockScheduling,
    Compression,
    Encoding,
    ZipWriting,
    Finalization,
}

#[derive(Clone, Copy, Debug, PartialEq, Eq, Structural)]
pub enum SchedulerPolicy {
    Balanced,
    ThroughputBiased,
    RatioBiased,
    MemoryConstrained,
}

/// How the pipeline samples, reads and splits entries.  The sampling rate is held in parts per
/// million (the default, 50 000, is a rate of 0.05).
#[derive(Clone, Copy, Debug, PartialEq, Eq, Structural)]
pub struct ExecutionPolicy {
    pub scheduler: SchedulerPolicy,
    pub sample_rate_ppm: u32,
    pub min_sample_bytes: usize,
    pub max_sample_bytes_per_entry: usize,
    pub large_file_bytes: usize,
    pub base_block_bytes: usize,
    pub max_block_bytes: usize,
    pub min_block_bytes: usize,
    pub adaptive_block_feedback: bool,
}

/// The default execution policy.
pub open spec fn default_policy() -> ExecutionPolicy {
    ExecutionPolicy {
        scheduler: SchedulerPolicy::Balanced,
        sample_rate_ppm: 50_000,
        min_sample_bytes: 4096,
        max_sample_bytes_per_entry: 0x4_0000usize,
        large_file_bytes: 0x80_0000usize,
        base_block_bytes: 0x4_0000usize,
        max_block_bytes: 0x40_0000usize,
        min_block_bytes: 0x8000usize,
        adaptive_block_feedback: false,
    }
}

impl Default for ExecutionPolicy {
    fn default() -> (r: Self)
        ensures
            r == default_policy(),
    {
        ExecutionPolicy {
            scheduler: SchedulerPolicy::Balanced,
            sample_rate_ppm: 50_000,
            min_sample_bytes: 4096,
            max_sample_bytes_per_entry: 0x4_0000usize,
            large_file_bytes: 0x80_0000usize,
            base_block_bytes: 0x4_0000usize,
            max_block_bytes: 0x40_0000usize,
            min_block_bytes: 0x8000usize,
            adaptive_block_feedback: false,
        }
    }
}

#[derive(Clone, Copy, Debug, Default, PartialEq, Eq, Structural)]
pub enum PredictiveMode {
    #[default]
    Off,
    Standard,
    Aggressive,
}

#[derive(Clone, Copy, Debug, Default, PartialEq, Eq, Structural)]
pub enum VerificationMode {
    #[default]
    Off,
    AfterWrite,
    Strict,
}

#[derive(Clone, Copy, Debug, Default, PartialEq, Eq, Structural)]
pub enum PlanningAggression {
    #[default]
    Safe,
    Balanced,
    Aggressive,
}

#[derive(Clone, Copy, Debug, Default, PartialEq, Eq, Structural)]
pub enum PredictedDeflatePath {
    #[default]
    Auto,
    Dynamic,
    Fixed,
}

#[derive(Clone, Copy, Debug, PartialEq, Eq, Structural)]
pub struct PredictiveRuntimeConfig {
    pub mode: PredictiveMode,
    pub verification: VerificationMode,
    pub planning: PlanningAggression,
}

impl Default for PredictiveRuntimeConfig {
    fn default() -> (r: Self)
        ensures
            r == (PredictiveRuntimeConfig {
                mode: PredictiveMode::Off,
                verification: VerificationMode::Off,
                planning: PlanningAggression::Safe,
            }),
    {
        PredictiveRuntimeConfig {
            mode: PredictiveMode::Off,
            verification: VerificationMode::Off,
            planning: PlanningAggression::Safe,
        }
    }
}

#[derive(Clone, Copy, Debug, PartialEq, Eq, Structural)]
pub struct ArchiveProfile {
    pub layout: ArchiveLayout,
    pub compression: CompressionProfile,
    pub execution: ExecutionPolicy,
    pub budget: ExecutionBudget,
    pub reproducible: bool,
    pub predictive: PredictiveRuntimeConfig,
}

impl ArchiveProfile {
    /// The default profile for a machine offering `available` parallel threads.
    pub fn from_parallelism(available: Option<usize>) -> (r: Self)
        ensures
            r == (ArchiveProfile {
                layout: ArchiveLayout::DeterministicLexical,
                compression: CompressionProfile {
                    method: CompressionMethod::Deflate,
                    level: 6,
                    strategy: DeflateStrategy::Default,
                    window_bits: 15,
                    global_huffman: false,
                },
                execution: default_policy(),
                budget: budget_for(available),
                reproducible: true,
                predictive: PredictiveRuntimeConfig {
                    mode: PredictiveMode::Off,
                    verification: VerificationMode::Off,
                    planning: PlanningAggression::Safe,
                },
            }),
    {
        ArchiveProfile {
            layout: ArchiveLayout::DeterministicLexical,
            compression: CompressionProfile::default(),
            execution: ExecutionPolicy::default(),
            budget: ExecutionBudget::from_parallelism(available),
            reproducible: true,
            predictive: PredictiveRuntimeConfig::default(),
        }
    }
}

/// The profile of an archive run: `level` (stored instead when `stored`), the layout,
/// scheduler, prediction, verification and planning asked for, default sampling and block
/// sizes, and the default budget with `threads` workers when that is nonzero.
pub fn build_profile(
    level: u32,
    stored: bool,
    threads: usize,
    layout: ArchiveLayout,
    scheduler: SchedulerPolicy,
    prediction: PredictiveMode,
    verification: VerificationMode,
    planning: PlanningAggression,
    global_huffman: bool,
    available: Option<usize>,
) -> (p: ArchiveProfile)
    ensures
        p == (ArchiveProfile {
            layout,
            compression: CompressionProfile {
                method: if stored {
                    CompressionMethod::Stored
                } else {
                    CompressionMethod::Deflate
                },
                level,
                strategy: DeflateStrategy::Default,
                window_bits: 15,
                global_huffman,
            },
            execution: ExecutionPolicy { scheduler, ..default_policy() },
            budget: requested_budget(available, threads),
            reproducible: true,
            predictive: PredictiveRuntimeConfig { mode: prediction, verification, planning },
        }),
{
    let budget = ExecutionBudget::with_requested_threads(available, threads);
    let mut execution = ExecutionPolicy::default();
    execution.scheduler = scheduler;
    let method = if stored {
        CompressionMethod::Stored
    } else {
        CompressionMethod::Deflate
    };
    let compression = CompressionProfile {
        method,
        level,
        strategy: DeflateStrategy::Default,
        window_bits: 15,
        global_huffman,
    };
    ArchiveProfile {
        layout,
        compression,
        execution,
        budget,
        reproducible: true,
        predictive: PredictiveRuntimeConfig { mode: prediction, verification, planning },
    }
}

} // verus!
