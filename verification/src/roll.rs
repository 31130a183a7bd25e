//! Keyed rolls: every random decision hashes its own coordinates.

use vstd::prelude::*;

verus! {

/// The increment of the SplitMix64 sequence.
pub const GOLDEN_GAMMA: u64 = 0x9E37_79B9_7F4A_7C15;

/// The number of equal slices a chance is measured in: two to the power 53.
pub const CHANCE_WHOLE: u64 = 0x20_0000_0000_0000;

/// The SplitMix64 finalizer.
pub open spec fn mixed(z0: u64) -> u64 {
    let z1 = (z0 ^ (z0 >> 30)).wrapping_mul(0xBF58_476D_1CE4_E5B9u64);
    let z2 = (z1 ^ (z1 >> 27)).wrapping_mul(0x94D0_49BB_1331_11EBu64);
    z2 ^ (z2 >> 31)
}

/// The value SplitMix64 gives from `state`.
pub open spec fn splitmix(state: u64) -> u64 {
    mixed(state.wrapping_add(GOLDEN_GAMMA))
}

/// One step of SplitMix64: a fixed mixer, so that a pinned seed reproduces a schedule
/// across builds.
pub fn splitmix64(state: &mut u64) -> (out: u64)
    ensures
        *final(state) == old(state).wrapping_add(GOLDEN_GAMMA),
        out == splitmix(*old(state)),
{
    *state = state.wrapping_add(GOLDEN_GAMMA);
    let mut z: u64 = *state;
    z = (z ^ (z >> 30)).wrapping_mul(0xBF58_476D_1CE4_E5B9);
    z = (z ^ (z >> 27)).wrapping_mul(0x94D0_49BB_1331_11EB);
    z ^ (z >> 31)
}

/// The coordinates of a decision. A decision hashes its own coordinates rather than
/// drawing from a running stream, so adding or skipping a step never shifts another
/// step's outcome.
#[derive(Clone, Copy, Debug, PartialEq, Eq, Structural)]
pub struct RollKey {
    pub seed: u64,
    pub cycle: u64,
    pub step: u64,
}

impl RollKey {
    /// The roll of the decision `nonce` at these coordinates.
    #[verifier::opaque]
    pub open spec fn roll(self, nonce: u64) -> u64 {
        splitmix(
            self.seed.wrapping_mul(0x9E37_79B9_7F4A_7C15u64).wrapping_add(
                self.cycle.wrapping_mul(0xBF58_476D_1CE4_E5B9u64),
            ).wrapping_add(self.step.wrapping_mul(0x94D0_49BB_1331_11EBu64)).wrapping_add(
                nonce.wrapping_mul(0xD6E8_FEB8_6659_FD93u64),
            ),
        )
    }

    /// The roll of the decision `nonce` at these coordinates.
    pub fn u64_at(&self, nonce: u64) -> (out: u64)
        ensures
            out == self.roll(nonce),
    {
        reveal(RollKey::roll);
        let mut state: u64 = self.seed.wrapping_mul(0x9E37_79B9_7F4A_7C15).wrapping_add(
            self.cycle.wrapping_mul(0xBF58_476D_1CE4_E5B9),
        ).wrapping_add(self.step.wrapping_mul(0x94D0_49BB_1331_11EB)).wrapping_add(
            nonce.wrapping_mul(0xD6E8_FEB8_6659_FD93),
        );
        splitmix64(&mut state)
    }

    /// The roll of the decision `nonce`, as a number of slices below `CHANCE_WHOLE`.
    pub open spec fn slice(self, nonce: u64) -> u64 {
        self.roll(nonce) >> 11
    }

    /// The roll of the decision `nonce`, as a number of slices: `k` stands for the
    /// fraction `k / CHANCE_WHOLE` of the interval from zero up to, but not with, one.
    pub fn unit_at(&self, nonce: u64) -> (out: u64)
        ensures
            out == self.slice(nonce),
            out < CHANCE_WHOLE,
    {
        let r: u64 = self.u64_at(nonce);
        assert(r >> 11 < 0x20_0000_0000_0000u64) by (bit_vector);
        r >> 11
    }
}

/// The seed of one pool: the channel's seed folded with a hash of the pool's name.
pub open spec fn seed_mix(seed: u64, salt: u64) -> u64 {
    splitmix(seed.wrapping_mul(GOLDEN_GAMMA).wrapping_add(salt))
}

/// Folds `salt` into `seed`, through the mixer the rolls use.
pub fn mix_seed(seed: u64, salt: u64) -> (out: u64)
    ensures
        out == seed_mix(seed, salt),
{
    let mut state: u64 = seed.wrapping_mul(GOLDEN_GAMMA).wrapping_add(salt);
    splitmix64(&mut state)
}

} // verus!
