//! Sources of random coordinates for mine placement.
//!
//! Mine placement draws independent uniform samples over each grid axis.  The
//! `MineSampler` trait lets a caller inject a deterministic source for
//! reproducible layouts; `SystemSampler` is the default, drawing from the
//! process-wide generator.

use vstd::prelude::*;

verus! {

/// A source of bounded draws, one axis coordinate per call.
pub trait MineSampler {
    /// Returns a value strictly below `bound`.
    fn next_below(&mut self, bound: u8) -> (r: u8)
        requires
            bound > 0,
        ensures
            r < bound,
    ;
}

/// Relies on rand::random_range: a uniform value drawn from the given range
/// by the thread-local generator. It panics only on an empty range, which
/// `bound > 0` excludes.
#[verifier::external_body]
fn thread_random_below(bound: u8) -> (r: u8)
    requires
        bound > 0,
    ensures
        r < bound,
{
    rand::random_range(0..bound)
}

/// The default sampler: draws from the process-wide random generator.
pub struct SystemSampler;

impl MineSampler for SystemSampler {
    fn next_below(&mut self, bound: u8) -> (r: u8) {
        thread_random_below(bound)
    }
}

/// A deterministic sampler for reproducible layouts: a linear congruential
/// generator seeded by the caller.
pub struct SeededSampler {
    state: u64,
}

impl SeededSampler {
    pub fn new(seed: u64) -> SeededSampler {
        SeededSampler { state: seed }
    }
}

impl MineSampler for SeededSampler {
    fn next_below(&mut self, bound: u8) -> (r: u8) {
        self.state = self.state.wrapping_mul(6364136223846793005).wrapping_add(1442695040888963407);
        ((self.state >> 33) % (bound as u64)) as u8
    }
}

} // verus!
