use vstd::prelude::*;
use crate::mutate::Draw;
use crate::scalar::NeuroFloat;

verus! {

/// What the state of a generator moves by at each step.
pub const STRIDE: u64 = 0x9E37_79B9_7F4A_7C15u64;

/// The first multiplier of the scramble.
pub const FIRST_FACTOR: u64 = 0xBF58_476D_1CE4_E5B9u64;

/// The second multiplier of the scramble.
pub const SECOND_FACTOR: u64 = 0x94D0_49BB_1331_11EBu64;

/// A source of numbers for mutations that gives the same numbers for the
/// same seed: a counter that moves by a fixed stride, and a scramble of the
/// counter.
#[derive(Clone, Copy, Debug, PartialEq, Eq, Structural)]
pub struct Seeded {
    pub state: u64,
}

impl Seeded {
    /// The number a state gives: the state, shifted, folded and multiplied
    /// twice, and folded once more.
    pub open spec fn scramble(state: u64) -> u64 {
        let a = vstd::wrapping::u64_specs::wrapping_mul(state ^ (state >> 30), FIRST_FACTOR);
        let b = vstd::wrapping::u64_specs::wrapping_mul(a ^ (a >> 27), SECOND_FACTOR);
        b ^ (b >> 31)
    }

    /// The state that follows a state.
    pub open spec fn advance(state: u64) -> u64 {
        vstd::wrapping::u64_specs::wrapping_add(state, STRIDE)
    }

    /// A source that starts from `seed`.
    pub fn new(seed: u64) -> (r: Seeded)
        ensures
            r.state == seed,
    {
        Seeded { state: seed }
    }

    /// The next number: the state moves on by one stride, and the number is
    /// the scramble of the new state.
    pub fn next(&mut self) -> (r: u64)
        ensures
            final(self).state == Self::advance(old(self).state),
            r == Self::scramble(final(self).state),
    {
        self.state = self.state.wrapping_add(STRIDE);
        let z: u64 = self.state;
        let a: u64 = (z ^ (z >> 30)).wrapping_mul(FIRST_FACTOR);
        let b: u64 = (a ^ (a >> 27)).wrapping_mul(SECOND_FACTOR);
        b ^ (b >> 31)
    }

    /// A draw for one mutation: the next two numbers, and `value` as the
    /// scalar to write.
    pub fn draw(&mut self, value: NeuroFloat) -> (r: Draw)
        ensures
            final(self).state == Self::advance(Self::advance(old(self).state)),
            r == (Draw {
                first: Self::scramble(Self::advance(old(self).state)),
                second: Self::scramble(final(self).state),
                value,
            }),
    {
        let first = self.next();
        let second = self.next();
        Draw { first, second, value }
    }
}

} // verus!
