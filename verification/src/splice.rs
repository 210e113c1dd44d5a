use vstd::prelude::*;
use crate::activation::Activation;
use crate::error::NetworkError;
use crate::network::{Network, NetworkView};
use crate::scalar::NeuroFloat;
use crate::wiring::lemma_unlink_wf;

verus! {

impl NetworkView {
    /// Where a node spliced into connection `e` enters the evaluation order:
    /// at the place of the connection's destination, but after the inputs
    /// and before the outputs.
    pub open spec fn splice_position(self, e: usize) -> int
        recommends
            self.is_edge(e),
    {
        let p = self.position(self.edge(e).to);
        if p < self.inputs {
            self.inputs as int
        } else if p > self.order.len() - self.outputs {
            self.order.len() - self.outputs
        } else {
            p
        }
    }

    /// The network with a new hidden node spliced into connection `e`: the
    /// connection is removed, the node enters the evaluation order at
    /// `splice_position`, and two fresh ungated connections take the place
    /// of the old one. The first, from the old source to the new node, has
    /// weight one in a cell of its own; the second, from the new node to the
    /// old destination, takes over the old connection's weight cell.
    pub open spec fn add_node(self, e: usize, bias: NeuroFloat, squash: Activation) -> NetworkView
        recommends
            self.is_edge(e),
    {
        let c = self.edge(e);
        let n = self.nodes.len() as usize;
        self.unlink(e).insert_hidden(self.splice_position(e), bias, squash).connect_with(
            c.from,
            n,
            NeuroFloat::spec_one(),
        ).link(n, c.to, c.weight)
    }
}

impl Network {
    /// Splices a new hidden node with the given bias and squash into
    /// connection `e` and returns the node's handle.
    ///
    /// The connection is removed. A fresh connection of weight one runs
    /// from its source to the new node, and a fresh connection that takes
    /// over the old weight cell runs from the new node to its destination;
    /// their handles are the two that follow the last one in use. Fails
    /// with `DanglingReference`, changing nothing, if `e` names no live
    /// connection.
    pub fn add_node(&mut self, e: usize, bias: NeuroFloat, squash: Activation) -> (r: Result<
        usize,
        NetworkError,
    >)
        requires
            old(self).wf(),
        ensures
            final(self).wf(),
            old(self)@.is_edge(e) ==> r == Ok::<usize, NetworkError>(old(self)@.nodes.len() as usize)
                && final(self)@ == old(self)@.add_node(e, bias, squash),
            !old(self)@.is_edge(e) ==> r == Err::<usize, NetworkError>(
                NetworkError::DanglingReference,
            ) && final(self)@ == old(self)@,
    {
        let c = match self.connection(e) {
            Some(c) => c,
            None => { return Err(NetworkError::DanglingReference); },
        };
        proof {
            assert(self@.edge_wf(e));
        }
        let at: usize = match self.position_of(c.to) {
            Some(p) => p,
            None => { return Err(NetworkError::DanglingReference); },
        };
        let low: usize = self.inputs;
        let high: usize = self.order.len() - self.outputs;
        let pos: usize = if at < low {
            low
        } else if at > high {
            high
        } else {
            at
        };
        self.unlink(e);
        proof {
            lemma_unlink_wf(old(self)@, e);
        }
        let n = self.insert_hidden(pos, bias, squash);
        let cell: usize = self.weights.len();
        self.weights.push(NeuroFloat::one());
        assert(self.weights.len() == cell + 1);
        proof {
            let a = old(self)@.unlink(e);
            let b = a.insert_hidden(pos as int, bias, squash);
            crate::construct::lemma_new_cell_wf(b, NeuroFloat::spec_one());
            assert(self@ =~= b.new_cell(NeuroFloat::spec_one()));
            assert(self@.is_node(n));
            assert(a.is_node(c.from) && a.is_node(c.to));
        }
        self.link(c.from, n, cell);
        self.link(n, c.to, c.weight);
        Ok(n)
    }
}

} // verus!
