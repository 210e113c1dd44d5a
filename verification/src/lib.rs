//! A neural network whose topology changes over time: an arena of nodes and
//! an arena of weighted, optionally gated connections, with the construction
//! operators and the mutation engine that keep the two consistent.
//!
//! The engine holds every scalar as a bit pattern and does no arithmetic on
//! it. A forward or a backward pass walks the graph here and hands each
//! node's numbers to a function of the caller, which does the arithmetic.
//!
//! - `network`: the model of a network and the invariant every operation
//!   keeps.
//! - `wiring`, `arena`: the primitive edits of connections and of nodes.
//! - `construct`, `groups`: connecting, projecting, gating.
//! - `splice`, `removal`: adding a node into a connection, removing a node.
//! - `params`: biases, squashes, weights and weight sharing.
//! - `select`, `mutate`, `random`: the mutation engine and a seedable
//!   source of draws for it.
//! - `evaluate`, `forward`, `backward`: what a pass reads and writes, and
//!   the two passes over the whole network.
//! - `laws`, `purity`: what holds across operations.

pub mod activation;
pub mod arena;
pub mod backward;
pub mod connection;
pub mod construct;
pub mod error;
pub mod evaluate;
pub mod forward;
pub mod groups;
pub mod kinds;
pub mod laws;
pub mod lists;
pub mod mutate;
pub mod network;
pub mod node;
pub mod params;
pub mod purity;
pub mod random;
pub mod removal;
pub mod scalar;
pub mod select;
pub mod splice;
pub mod wiring;

pub use activation::Activation;
pub use backward::{Correction, Lesson};
pub use connection::Connection;
pub use error::NetworkError;
pub use evaluate::{BackwardStep, Term, WeightUpdate};
pub use forward::{Outcome, Stimulus};
pub use kinds::{ConnectionKind, GatingKind, MutationKind};
pub use mutate::Draw;
pub use network::{Network, NetworkView};
pub use node::{Connections, Neuron, Node};
pub use random::Seeded;
pub use scalar::NeuroFloat;
pub use select::Target;
