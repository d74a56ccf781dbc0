//! What a benchmark runs.

use crate::primitives::{sha256, sha256_digest};
use vstd::prelude::*;
use vstd::utf8::{encode_utf8, is_ascii_chars_encode_utf8};

verus! {

/// The arguments of a benchmark.
#[derive(Debug, Clone)]
pub struct BenchArgs {
    /// MiB to process per sample.
    pub size_mib: usize,
    /// Samples per algorithm.
    pub samples: u32,
    /// Rounds per algorithm before the samples.
    pub warmup: u32,
    /// Key derivations to time.
    pub kdf_runs: u32,
}

/// What a benchmark runs.
#[derive(Debug)]
pub struct BenchPlan {
    pub size_mib: usize,
    /// Length of the payload in bytes.
    pub size_bytes: usize,
    pub samples: u32,
    pub warmup: u32,
    pub kdf_runs: u32,
    /// Rounds per algorithm, those before the samples counted.
    pub rounds: u32,
}

/// A number, or one in the place of zero.
pub open spec fn at_least_one(n: int) -> int {
    if n < 1 {
        1
    } else {
        n
    }
}

impl BenchArgs {
    /// Payload and number of rounds fit their types.
    pub open spec fn fits(self) -> bool {
        &&& at_least_one(self.size_mib as int) * 0x10_0000 <= usize::MAX
        &&& self.warmup + at_least_one(self.samples as int) <= u32::MAX
    }

    /// Whether payload and number of rounds fit their types.
    pub fn check(&self) -> (r: bool)
        ensures
            r == self.fits(),
    {
        let samples: u32 = if self.samples < 1 { 1 } else { self.samples };
        let size: usize = if self.size_mib < 1 { 1 } else { self.size_mib };
        size <= usize::MAX / 0x10_0000 && self.warmup <= u32::MAX - samples
    }

    /// What the benchmark runs: at least one MiB, one sample and one key derivation.
    pub fn plan(&self) -> (r: BenchPlan)
        requires
            self.fits(),
        ensures
            r.size_mib == at_least_one(self.size_mib as int),
            r.size_bytes == r.size_mib * 0x10_0000,
            r.samples == at_least_one(self.samples as int),
            r.warmup == self.warmup,
            r.kdf_runs == at_least_one(self.kdf_runs as int),
            r.rounds == r.warmup + r.samples,
            r.size_mib == if self.size_mib == 0 {
                1
            } else {
                self.size_mib
            },
            r.samples == if self.samples == 0 {
                1
            } else {
                self.samples
            },
            r.kdf_runs == if self.kdf_runs == 0 {
                1
            } else {
                self.kdf_runs
            },
    {
        let samples: u32 = if self.samples < 1 { 1 } else { self.samples };
        let size_mib: usize = if self.size_mib < 1 { 1 } else { self.size_mib };
        let kdf_runs: u32 = if self.kdf_runs < 1 { 1 } else { self.kdf_runs };
        BenchPlan {
            size_mib,
            size_bytes: size_mib * 0x10_0000,
            samples,
            warmup: self.warmup,
            kdf_runs,
            rounds: self.warmup + samples,
        }
    }
}

impl BenchPlan {
    /// Whether a round is a sample, and not one before the samples.
    pub fn is_sample(&self, round: u32) -> (r: bool)
        ensures
            r == (round >= self.warmup),
    {
        round >= self.warmup
    }
}

/// The associated data of a benchmark.
pub fn bench_aad() -> (r: [u8; 32])
    ensures
        r@ == sha256_digest(encode_utf8("cry-bench-aad"@)),
{
    let domain: &str = "cry-bench-aad";
    proof {
        reveal_strlit("cry-bench-aad");
        is_ascii_chars_encode_utf8("cry-bench-aad"@);
    }
    sha256(domain.as_bytes())
}

} // verus!
