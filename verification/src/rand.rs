//! Random-value capability threaded through the stochastic pipeline stages by
//! exclusive reference. Implementations must be deterministic given their
//! seed, so a whole pipeline run is reproducible from `(seed, parameters)`.

use vstd::prelude::*;
use crate::scale::{Scale, UNIT, Z_BOUND};

verus! {

pub trait Rng {
    /// A sample in `[0, UNIT]`, standing for a fraction in `[0, 1]`.
    fn next(&mut self) -> (r: i64)
        ensures
            0 <= r <= UNIT,
    ;

    /// A sample in `[from, to]`.
    fn gen_range(&mut self, from: i64, to: i64) -> (r: i64)
        requires
            -Z_BOUND <= from <= to <= Z_BOUND,
        ensures
            from <= r <= to,
    ;

    /// A uniform index selector over small ranges: a sample in `[0, n)`.
    fn gen_index(&mut self, n: usize) -> (r: usize)
        requires
            n >= 1,
        ensures
            r < n,
    ;
}

/// A fixed-stride generator: `next` always answers the midpoint, while the
/// index selector steps `current` by `step`. Useful as a predictable double.
pub struct StepRng {
    pub current: u64,
    pub step: u64,
}

impl StepRng {
    pub fn new(start: u64, step: u64) -> (r: StepRng)
        ensures
            r.current == start,
            r.step == step,
    {
        StepRng { current: start, step }
    }
}

impl Rng for StepRng {
    /// The double's stream is a constant: every draw is the exact midpoint.
    fn next(&mut self) -> (r: i64)
        ensures
            r == UNIT / 2,
            *final(self) == *old(self),
    {
        UNIT / 2
    }

    /// With a constant midpoint draw, the range sample is the midpoint of
    /// `[from, to]` under the affine remap from `[0, UNIT]`.
    fn gen_range(&mut self, from: i64, to: i64) -> (r: i64)
        ensures
            r as int == crate::scale::affine_map(
                0,
                UNIT as int,
                from as int,
                to as int,
                (UNIT / 2) as int,
            ),
            *final(self) == *old(self),
    {
        let v = self.next();
        if from == to {
            proof {
                crate::scale::lemma_affine_endpoints(
                    0,
                    UNIT as int,
                    from as int,
                    to as int,
                    v as int,
                );
            }
            return from;
        }
        let scale = Scale::new((0, UNIT), (from, to));
        proof {
            crate::scale::lemma_affine_endpoints(
                0,
                UNIT as int,
                from as int,
                to as int,
                v as int,
            );
        }
        scale.scale(v)
    }

    /// Indices step deterministically: the current counter modulo `n`, with
    /// the counter advanced by the stride.
    fn gen_index(&mut self, n: usize) -> (r: usize)
        ensures
            r as int == old(self).current as int % n as int,
            final(self).current == (old(self).current + old(self).step) % 0x1_0000_0000_0000_0000,
            final(self).step == old(self).step,
    {
        let r = (self.current % (n as u64)) as usize;
        self.current = self.current.wrapping_add(self.step);
        r
    }
}

/// A small deterministic linear congruential generator; the pipeline's
/// production source of randomness, reproducible from its seed.
pub struct SeededRng {
    pub state: u64,
}

impl SeededRng {
    pub fn new(seed: u64) -> (r: SeededRng)
        ensures
            r.state == seed,
    {
        SeededRng { state: seed }
    }

    fn advance(&mut self) -> (r: u64) {
        self.state = self.state.wrapping_mul(6364136223846793005).wrapping_add(
            1442695040888963407,
        );
        self.state >> 33
    }
}

impl Rng for SeededRng {
    fn next(&mut self) -> (r: i64) {
        let raw = self.advance();
        let m = raw % ((UNIT + 1) as u64);
        assert(m < (UNIT + 1) as u64);
        m as i64
    }

    fn gen_range(&mut self, from: i64, to: i64) -> (r: i64) {
        let v = self.next();
        if from == to {
            return from;
        }
        let scale = Scale::new((0, UNIT), (from, to));
        proof {
            crate::scale::lemma_affine_endpoints(
                0,
                UNIT as int,
                from as int,
                to as int,
                v as int,
            );
        }
        scale.scale(v)
    }

    fn gen_index(&mut self, n: usize) -> (r: usize) {
        let raw = self.advance();
        (raw % (n as u64)) as usize
    }
}

} // verus!
