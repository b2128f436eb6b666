//! The values that hold where nothing is configured.
use vstd::prelude::*;

verus! {

pub const CTX: usize = 4096;
pub const CTX_SERVE: usize = 8192;
pub const CTX_VISION_EMBED: usize = 1024;
pub const BATCH: usize = 256;
pub const KV: &'static str = "f16";
pub const PIN_HEAP: &'static str = "mt";

pub const SPEC_K: usize = 3;
pub const MOE_BASIS: &'static str = "top";

pub const TOP_K: usize = 20;
pub const SEED: u64 = 42;

pub const IMAGE_MIN_TOKENS: usize = 8;
pub const IMAGE_MAX_TOKENS: usize = 4096;

pub const CACHE_BACKEND: &'static str = "fs";
pub const CACHE_CHUNK_LEN: usize = 256;
pub const CACHE_SNAPSHOTS: &'static str = "message";
pub const CACHE_SNAPSHOT_MIN_TOKENS: usize = 16;
pub const CACHE_STAGING_MIB: usize = 1024;

pub const HOST: &'static str = "127.0.0.1";
pub const PORT: u16 = 8080;
pub const REASONING: &'static str = "xhigh";
pub const MAX_SEQUENCES: usize = 16;
pub const PREFILL_CHUNK: usize = 32;
pub const MAX_QUEUE: usize = 128;

pub const PROMPT: &'static str = "The capital of France is";
pub const N_PREDICT: usize = 32;
pub const N_PREDICT_PROBE: usize = 64;

pub const BENCH_PP: usize = 64;
pub const BENCH_TG: usize = 64;
pub const BENCH_REPS: usize = 2;

pub const NUMA_SMOKE_MIB: usize = 1024;
pub const BARRIER_ROUNDS: usize = 100_000;
pub const REPS: usize = 1;

} // verus!
