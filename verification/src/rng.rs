//! Randomness. [`LCGenerator`] is the synchronized generator embedded in the
//! world's essence: a linear congruential generator whose every step is a
//! proved function of its seed, so server-authoritative placement decisions
//! replay identically from the same essence. The free functions at the end
//! draw from the process-wide generator of the `rand` crate and promise only
//! what holds of every outcome.

use vstd::prelude::*;

use rand::Rng;

use crate::grid::Direction;

verus! {

pub const LCG_A: u64 = 1103515245;

pub const LCG_C: u64 = 12345;

/// The generator's modulus, `2^32`.
pub const LCG_M: u64 = 0x1_0000_0000;

/// One step of the linear congruence.
pub open spec fn lcg_next(s: u64) -> u64 {
    ((LCG_A * s + LCG_C) % (LCG_M as int)) as u64
}

/// The ranged value a generator with state `s` yields for bound `n`.
pub open spec fn lcg_pick(s: u64, n: u16) -> u16 {
    ((lcg_next(s) as u32) % (n as u32)) as u16
}

/// The ranged index a generator with state `s` yields for bound `n`.
pub open spec fn lcg_pick_index(s: u64, n: usize) -> usize {
    ((lcg_next(s) as u32) as usize % n) as usize
}

/// A deterministic pseudo-random generator (a linear congruential generator).
/// Its state is a single word below [`LCG_M`], so it can be carried in the
/// world's essence and replayed.
#[derive(Copy, Clone, Debug)]
pub struct LCGenerator {
    seed: u64,
}

impl LCGenerator {
    /// The generator's state.
    pub closed spec fn state(self) -> u64 {
        self.seed
    }

    /// The state always stays below the modulus.
    pub open spec fn wf(self) -> bool {
        self.state() < LCG_M
    }

    /// Build a generator from any word; the state is the word reduced modulo
    /// [`LCG_M`].
    pub fn from_seed(seed: u64) -> (g: LCGenerator)
        ensures
            g.state() == seed % LCG_M,
            g.wf(),
    {
        LCGenerator { seed: seed % LCG_M }
    }

    /// A generator seeded from the process-wide source of randomness.
    pub fn new_random_seeded() -> (g: LCGenerator)
        ensures
            g.wf(),
    {
        LCGenerator::from_seed(random_u64())
    }

    /// The state itself, for carrying the generator to the wire.
    pub fn state_word(&self) -> (r: u64)
        ensures
            r == self.state(),
    {
        self.seed
    }

    /// Advance one step and yield the low word of the new state.
    pub fn next_u32(&mut self) -> (r: u32)
        requires
            old(self).wf(),
        ensures
            final(self).state() == lcg_next(old(self).state()),
            final(self).wf(),
            r == lcg_next(old(self).state()) as u32,
    {
        self.seed = (LCG_A * self.seed + LCG_C) % LCG_M;
        self.seed as u32
    }

    /// A value in `[0, n)`, deterministic in the state.
    pub fn pick(&mut self, n: u16) -> (r: u16)
        requires
            old(self).wf(),
            n > 0,
        ensures
            final(self).state() == lcg_next(old(self).state()),
            final(self).wf(),
            r == lcg_pick(old(self).state(), n),
            r < n,
    {
        let w = self.next_u32();
        (w % (n as u32)) as u16
    }

    /// An index in `[0, n)`, deterministic in the state.
    pub fn pick_index(&mut self, n: usize) -> (r: usize)
        requires
            old(self).wf(),
            n > 0,
        ensures
            final(self).state() == lcg_next(old(self).state()),
            final(self).wf(),
            r == lcg_pick_index(old(self).state(), n),
            r < n,
    {
        let w = self.next_u32();
        (w as usize) % n
    }
}

/// Relies on `rand::thread_rng` and `Rng::gen::<u64>`: an arbitrary word;
/// nothing can be promised of it.
#[verifier::external_body]
pub(crate) fn random_u64() -> u64 {
    rand::thread_rng().gen::<u64>()
}

/// Relies on `rand::thread_rng` and `Rng::gen::<u32>`: an arbitrary word;
/// nothing can be promised of it.
#[verifier::external_body]
pub(crate) fn random_u32() -> u32 {
    rand::thread_rng().gen::<u32>()
}

/// Relies on `Rng::gen_range(0, n)` of the `rand` crate, which returns a value
/// in `[0, n)` and panics when the range is empty.
#[verifier::external_body]
pub(crate) fn random_index(n: usize) -> (r: usize)
    requires
        n > 0,
    ensures
        r < n,
{
    rand::thread_rng().gen_range(0, n)
}

/// Relies on `Rng::gen_range(0, n)` of the `rand` crate, which returns a value
/// in `[0, n)` and panics when the range is empty.
#[verifier::external_body]
pub(crate) fn random_u16(n: u16) -> (r: u16)
    requires
        n > 0,
    ensures
        r < n,
{
    rand::thread_rng().gen_range(0, n)
}

/// Relies on `Rng::choose` of the `rand` crate, which returns a reference to
/// some element of a non-empty slice.
#[verifier::external_body]
pub(crate) fn random_direction(dirs: &Vec<Direction>) -> (d: Direction)
    requires
        dirs.len() > 0,
    ensures
        dirs@.contains(d),
{
    *rand::thread_rng().choose(dirs.as_slice()).unwrap()
}

} // verus!
