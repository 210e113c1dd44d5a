use vstd::prelude::*;

verus! {

/// A network scalar: the bit pattern of a single-precision number.
///
/// The graph engine stores, copies and compares scalars but never does
/// arithmetic on them; every number a caller hands in comes back out with the
/// same bits.
#[derive(Clone, Copy, Debug, PartialEq, Eq, Structural)]
pub struct NeuroFloat {
    pub bits: u32,
}

/// Bit pattern of the number zero.
pub const ZERO_BITS: u32 = 0x0000_0000u32;

/// Bit pattern of the number one.
pub const ONE_BITS: u32 = 0x3F80_0000u32;

impl NeuroFloat {
    /// The scalar zero, as a specification value.
    pub open spec fn spec_zero() -> NeuroFloat {
        NeuroFloat { bits: ZERO_BITS }
    }

    /// The scalar one, as a specification value.
    pub open spec fn spec_one() -> NeuroFloat {
        NeuroFloat { bits: ONE_BITS }
    }

    /// Wraps a bit pattern.
    pub fn from_bits(bits: u32) -> (r: NeuroFloat)
        ensures
            r.bits == bits,
    {
        NeuroFloat { bits }
    }

    /// The bit pattern held.
    pub fn to_bits(self) -> (r: u32)
        ensures
            r == self.bits,
    {
        self.bits
    }

    /// The scalar zero: the weight of a fresh connection and the resting value
    /// of every trace and accumulator.
    #[verifier::when_used_as_spec(spec_zero)]
    pub fn zero() -> (r: NeuroFloat)
        ensures
            r == NeuroFloat::spec_zero(),
    {
        NeuroFloat { bits: ZERO_BITS }
    }

    /// The scalar one: the gain of an ungated connection and the mask of an
    /// enabled node.
    #[verifier::when_used_as_spec(spec_one)]
    pub fn one() -> (r: NeuroFloat)
        ensures
            r == NeuroFloat::spec_one(),
    {
        NeuroFloat { bits: ONE_BITS }
    }
}

} // verus!
