use vstd::prelude::*;

verus! {

/// The squash applied to a node's accumulated state. The set is closed.
#[derive(Clone, Copy, Debug, PartialEq, Eq, Structural)]
pub enum Activation {
    Sigmoid,
    Tanh,
    Identity,
    Relu,
    LeakyRelu,
    Step,
    Softsign,
    Sin,
    Gaussian,
    BentIdentity,
    Bipolar,
    BipolarSigmoid,
    HardTanh,
    Absolute,
    Inverse,
    Selu,
}

/// How many squash kinds there are.
pub const ACTIVATION_KINDS: u64 = 16;

impl Activation {
    /// Position of a kind in the declaration order, from 0.
    pub open spec fn spec_index(self) -> u64 {
        match self {
            Activation::Sigmoid => 0,
            Activation::Tanh => 1,
            Activation::Identity => 2,
            Activation::Relu => 3,
            Activation::LeakyRelu => 4,
            Activation::Step => 5,
            Activation::Softsign => 6,
            Activation::Sin => 7,
            Activation::Gaussian => 8,
            Activation::BentIdentity => 9,
            Activation::Bipolar => 10,
            Activation::BipolarSigmoid => 11,
            Activation::HardTanh => 12,
            Activation::Absolute => 13,
            Activation::Inverse => 14,
            Activation::Selu => 15,
        }
    }

    /// The kind at position `n` modulo the number of kinds.
    pub open spec fn spec_from_index(n: u64) -> Activation {
        let k = n % ACTIVATION_KINDS;
        if k == 0 {
            Activation::Sigmoid
        } else if k == 1 {
            Activation::Tanh
        } else if k == 2 {
            Activation::Identity
        } else if k == 3 {
            Activation::Relu
        } else if k == 4 {
            Activation::LeakyRelu
        } else if k == 5 {
            Activation::Step
        } else if k == 6 {
            Activation::Softsign
        } else if k == 7 {
            Activation::Sin
        } else if k == 8 {
            Activation::Gaussian
        } else if k == 9 {
            Activation::BentIdentity
        } else if k == 10 {
            Activation::Bipolar
        } else if k == 11 {
            Activation::BipolarSigmoid
        } else if k == 12 {
            Activation::HardTanh
        } else if k == 13 {
            Activation::Absolute
        } else if k == 14 {
            Activation::Inverse
        } else {
            Activation::Selu
        }
    }

    /// Position of this kind in the declaration order, from 0.
    #[verifier::when_used_as_spec(spec_index)]
    pub fn index(self) -> (r: u64)
        ensures
            r == self.spec_index(),
            r < ACTIVATION_KINDS,
    {
        match self {
            Activation::Sigmoid => 0,
            Activation::Tanh => 1,
            Activation::Identity => 2,
            Activation::Relu => 3,
            Activation::LeakyRelu => 4,
            Activation::Step => 5,
            Activation::Softsign => 6,
            Activation::Sin => 7,
            Activation::Gaussian => 8,
            Activation::BentIdentity => 9,
            Activation::Bipolar => 10,
            Activation::BipolarSigmoid => 11,
            Activation::HardTanh => 12,
            Activation::Absolute => 13,
            Activation::Inverse => 14,
            Activation::Selu => 15,
        }
    }

    /// Turns any number into a kind: the kind at position `n` modulo the
    /// number of kinds. A mutation uses it to pick a squash from a draw.
    #[verifier::when_used_as_spec(spec_from_index)]
    pub fn from_index(n: u64) -> (r: Activation)
        ensures
            r == Activation::spec_from_index(n),
            r.spec_index() == n % ACTIVATION_KINDS,
    {
        let k: u64 = n % ACTIVATION_KINDS;
        if k == 0 {
            Activation::Sigmoid
        } else if k == 1 {
            Activation::Tanh
        } else if k == 2 {
            Activation::Identity
        } else if k == 3 {
            Activation::Relu
        } else if k == 4 {
            Activation::LeakyRelu
        } else if k == 5 {
            Activation::Step
        } else if k == 6 {
            Activation::Softsign
        } else if k == 7 {
            Activation::Sin
        } else if k == 8 {
            Activation::Gaussian
        } else if k == 9 {
            Activation::BentIdentity
        } else if k == 10 {
            Activation::Bipolar
        } else if k == 11 {
            Activation::BipolarSigmoid
        } else if k == 12 {
            Activation::HardTanh
        } else if k == 13 {
            Activation::Absolute
        } else if k == 14 {
            Activation::Inverse
        } else {
            Activation::Selu
        }
    }
}

/// Every kind is the kind at its own position: a kind stored by its
/// position comes back as itself.
pub proof fn law_kind_at_own_position(kind: Activation)
    ensures
        Activation::spec_from_index(kind.spec_index()) == kind,
{
}

} // verus!
