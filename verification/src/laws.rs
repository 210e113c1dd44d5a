use vstd::prelude::*;
use crate::activation::Activation;
use crate::arena::{lemma_delete_node_wf, lemma_insert_hidden_wf};
use crate::connection::Connection;
use crate::kinds::GatingKind;
use crate::removal::{lemma_stripped_isolated, Bridge};
use crate::lists::{lemma_push_contains, lemma_remove_value};
use crate::network::NetworkView;
use crate::scalar::NeuroFloat;
use crate::wiring::{lemma_gate_wf, lemma_link_wf, lemma_ungate_wf, lemma_unlink_wf};

verus! {

/// Gating links both ways, and ungating unlinks both ways.
///
/// After `gater` was made the gater of the single edge `e`, under any kind
/// that admits the edge, the edge names `gater` as its gater and stands in
/// the gated list of `gater`. After the edge is ungated again it names no
/// gater, its gain is one, and the gated list of `gater` no longer holds it.
pub proof fn law_gate_then_ungate(v: NetworkView, gater: usize, e: usize, kind: GatingKind)
    requires
        v.wf(),
        v.gate_error(gater, e, kind) is None,
    ensures
        ({
            let (gated, stopped) = v.gate_each(gater, seq![e], kind, 1);
            let ungated = gated.ungate(e);
            &&& stopped is None
            &&& gated.wf()
            &&& gated.is_edge(e)
            &&& gated.edge(e).gater == Some(gater)
            &&& gated.links(gater).gated.contains(e)
            &&& ungated.wf()
            &&& ungated.is_edge(e)
            &&& ungated.edge(e).gater is None
            &&& ungated.edge(e).gain == NeuroFloat::spec_one()
            &&& !ungated.links(gater).gated.contains(e)
        }),
{
    reveal_with_fuel(NetworkView::gate_each, 2);
    assert(seq![e][0] == e);
    let gated = v.gate_edge(gater, e);
    assert(v.gate_each(gater, seq![e], kind, 1) == (gated, None::<crate::error::NetworkError>));
    lemma_gate_wf(v, gater, e);
    let u = v.ungate(e);
    lemma_push_contains(u.links(gater).gated, e);
    assert(gated.is_edge(e));
    assert(gated.edge(e).gater == Some(gater));
    assert(gated.links(gater).gated.contains(e));
    lemma_ungate_wf(gated, e);
    assert(gated.is_node(gater));
    assert(gated.links_wf(gater));
    lemma_remove_value(gated.links(gater).gated, e);
}

/// Connections that share a weight cell have one weight.
///
/// Once connection `b` shares the cell of connection `a`, a weight set
/// through either of them is the weight of both, and of every other
/// connection on that cell; the weight of a connection on another cell
/// stays what it was.
pub proof fn law_shared_weight(v: NetworkView, a: usize, b: usize, weight: NeuroFloat)
    requires
        v.wf(),
        v.is_edge(a),
        v.is_edge(b),
    ensures
        ({
            let shared = v.share_weight(a, b);
            let through_a = shared.set_weight(a, weight);
            let through_b = shared.set_weight(b, weight);
            &&& through_a.weight_of(a) == weight
            &&& through_a.weight_of(b) == weight
            &&& through_b.weight_of(a) == weight
            &&& through_b.weight_of(b) == weight
            &&& forall|x: usize| #[trigger]
                shared.is_edge(x) && shared.edge(x).weight == shared.edge(a).weight
                    ==> through_a.weight_of(x) == weight
            &&& forall|x: usize| #[trigger]
                shared.is_edge(x) && shared.edge(x).weight != shared.edge(a).weight
                    ==> through_a.weight_of(x) == shared.weight_of(x)
        }),
{
    assert(v.edge_wf(a));
    assert(v.edge_wf(b));
    let shared = v.share_weight(a, b);
    assert forall|x: usize| #[trigger] shared.is_edge(x) implies shared.edge(x).weight
        < shared.weights.len() by {
        assert(v.is_edge(x));
        assert(v.edge_wf(x));
    }
}

/// What removing a connection does to the connections: the others stay
/// live with their records, and the weights stay.
pub proof fn lemma_unlink_effect(v: NetworkView, e: usize)
    requires
        v.wf(),
        v.is_edge(e),
    ensures
        v.unlink(e).wf(),
        v.same_nodes(v.unlink(e)),
        v.unlink(e).weights == v.weights,
        v.unlink(e).edges.len() == v.edges.len(),
        forall|x: usize| #[trigger] v.unlink(e).is_edge(x) <==> (v.is_edge(x) && x != e),
        forall|x: usize| #[trigger] v.unlink(e).is_edge(x) ==> v.unlink(e).edge(x) == v.edge(x),
{
    lemma_unlink_wf(v, e);
    let w = v.unlink(e);
    assert forall|x: usize| #[trigger] w.is_edge(x) <==> (v.is_edge(x) && x != e) by {}
    assert forall|x: usize| #[trigger] w.is_edge(x) implies w.edge(x) == v.edge(x) by {}
}

/// What a fresh connection does to the connections: the others stay live
/// with their records, the weights stay, and the new one is last.
pub proof fn lemma_link_effect(v: NetworkView, from: usize, to: usize, cell: usize)
    requires
        v.wf(),
        v.is_node(from),
        v.is_node(to),
        cell < v.weights.len(),
        v.edges.len() < usize::MAX,
        from == to ==> v.links(from).to_self is None,
    ensures
        v.link(from, to, cell).wf(),
        v.same_nodes(v.link(from, to, cell)),
        v.link(from, to, cell).weights == v.weights,
        v.link(from, to, cell).edges.len() == v.edges.len() + 1,
        v.link(from, to, cell).is_edge(v.edges.len() as usize),
        v.link(from, to, cell).edge(v.edges.len() as usize) == Connection::spec_one2one(
            from,
            to,
            cell,
        ),
        forall|x: usize|
            x != v.edges.len() ==> (#[trigger] v.link(from, to, cell).is_edge(x) <==> v.is_edge(x)),
        forall|x: usize| #[trigger] v.is_edge(x) ==> v.link(from, to, cell).edge(x) == v.edge(x),
        forall|n: usize|
            v.is_node(n) && n != from && n != to ==> #[trigger] v.link(from, to, cell).links(n)
                == v.links(n),
{
    lemma_link_wf(v, from, to, cell);
    let w = v.link(from, to, cell);
    assert forall|x: usize| x != v.edges.len() implies (#[trigger] w.is_edge(x) <==> v.is_edge(
        x,
    )) by {}
    assert forall|x: usize| #[trigger] v.is_edge(x) implies w.edge(x) == v.edge(x) by {}
}

/// What splicing a node into a connection leaves behind: the new node with
/// one connection in and one out, and every other connection as it was.
pub proof fn lemma_add_node_effect(v: NetworkView, e: usize, bias: NeuroFloat, squash: Activation)
    requires
        v.wf(),
        v.is_edge(e),
        v.nodes.len() < usize::MAX,
        v.weights.len() < usize::MAX,
        v.edges.len() + 2 < usize::MAX,
    ensures
        ({
            let c = v.edge(e);
            let node = v.nodes.len() as usize;
            let e1 = v.edges.len() as usize;
            let e2 = (v.edges.len() + 1) as usize;
            let s = v.add_node(e, bias, squash);
            &&& s.wf()
            &&& s.is_inner(node)
            &&& s.edges.len() == v.edges.len() + 2
            &&& s.weights == v.weights.push(NeuroFloat::spec_one())
            &&& s.order == v.order.insert(v.splice_position(e), node)
            &&& v.inputs <= v.splice_position(e) <= v.order.len() - v.outputs
            &&& s.links(node).inbound == seq![e1]
            &&& s.links(node).outbound == seq![e2]
            &&& s.links(node).to_self is None
            &&& s.is_edge(e1)
            &&& s.is_edge(e2)
            &&& s.edge(e1) == Connection::spec_one2one(c.from, node, v.weights.len() as usize)
            &&& s.edge(e2) == Connection::spec_one2one(node, c.to, c.weight)
            &&& forall|n: usize| n != node ==> (#[trigger] s.is_node(n) <==> v.is_node(n))
            &&& forall|n: usize| #[trigger] v.is_node(n) ==> s.node(n).state == v.node(n).state
            &&& forall|x: usize|
                x != e1 && x != e2 ==> (#[trigger] s.is_edge(x) <==> (v.is_edge(x) && x != e))
            &&& forall|x: usize| #[trigger] v.is_edge(x) && x != e ==> s.edge(x) == v.edge(x)
        }),
{
    let c = v.edge(e);
    let node = v.nodes.len() as usize;
    let e1 = v.edges.len() as usize;
    let e2 = (v.edges.len() + 1) as usize;
    let pos = v.splice_position(e);
    let one = NeuroFloat::spec_one();
    assert(v.edge_wf(e));
    assert(0 <= v.position(c.to) < v.order.len()) by {
        assert(v.order.contains(c.to));
    }
    lemma_unlink_effect(v, e);
    let a = v.unlink(e);
    assert(a.is_node(c.from) && a.is_node(c.to));
    lemma_insert_hidden_wf(a, pos, bias, squash);
    let b = a.insert_hidden(pos, bias, squash);
    assert(b.is_node(node) && b.is_node(c.from) && b.is_node(c.to));
    assert forall|x: usize| #[trigger] b.is_edge(x) <==> a.is_edge(x) by {}
    assert forall|n: usize| n != node implies (#[trigger] b.is_node(n) <==> a.is_node(n)) by {}
    assert forall|n: usize| #[trigger] a.is_node(n) implies b.node(n) == a.node(n) by {}
    crate::construct::lemma_new_cell_wf(b, one);
    let b2 = b.new_cell(one);
    let cell = v.weights.len() as usize;
    assert forall|n: usize| #[trigger] b2.is_node(n) <==> b.is_node(n) by {}
    assert forall|x: usize| #[trigger] b2.is_edge(x) <==> b.is_edge(x) by {}
    lemma_link_effect(b2, c.from, node, cell);
    let d = b2.link(c.from, node, cell);
    assert(d == b.connect_with(c.from, node, one));
    assert(d.is_node(node) && d.is_node(c.to));
    assert(d.links(node).inbound =~= seq![e1]);
    assert(d.links(node).outbound =~= Seq::<usize>::empty());
    assert(d.links(node).to_self is None);
    lemma_link_effect(d, node, c.to, c.weight);
    let s = d.link(node, c.to, c.weight);
    assert(s == v.add_node(e, bias, squash));
    assert(s.links(node).inbound =~= seq![e1]);
    assert(s.links(node).outbound =~= seq![e2]);
    assert forall|n: usize| n != node implies (#[trigger] s.is_node(n) <==> v.is_node(n)) by {
        assert(s.is_node(n) <==> d.is_node(n));
        assert(d.is_node(n) <==> b2.is_node(n));
        assert(b2.is_node(n) <==> b.is_node(n));
        assert(b.is_node(n) <==> a.is_node(n));
        assert(a.is_node(n) <==> v.is_node(n));
    }
    assert forall|n: usize| #[trigger] v.is_node(n) implies s.node(n).state == v.node(n).state by {
        assert(a.is_node(n));
        assert(b.is_node(n));
        assert(b2.is_node(n));
        assert(d.is_node(n));
    }
    assert forall|x: usize| x != e1 && x != e2 implies (#[trigger] s.is_edge(x) <==> (v.is_edge(x)
        && x != e)) by {
        assert(s.is_edge(x) <==> d.is_edge(x));
        assert(d.is_edge(x) <==> b2.is_edge(x));
        assert(b2.is_edge(x) <==> b.is_edge(x));
        assert(b.is_edge(x) <==> a.is_edge(x));
    }
    assert forall|x: usize| #[trigger] v.is_edge(x) && x != e implies s.edge(x) == v.edge(x) by {
        assert(a.is_edge(x));
        assert(b.is_edge(x));
        assert(b2.is_edge(x));
        assert(d.is_edge(x));
    }
}

/// What removing a node with one connection in and one out leaves behind:
/// a fresh connection from the source of the one to the destination of the
/// other, where no other connection joins them already.
pub proof fn lemma_remove_relay(s: NetworkView, node: usize, e1: usize, e2: usize)
    requires
        s.wf(),
        s.is_inner(node),
        s.edges.len() < usize::MAX,
        s.links(node).inbound == seq![e1],
        s.links(node).outbound == seq![e2],
        s.links(node).to_self is None,
        forall|x: usize| #[trigger]
            s.joins(x, s.edge(e1).from, s.edge(e2).to) ==> x == e1 || x == e2,
    ensures
        ({
            let fresh = s.edges.len() as usize;
            let back = s.remove_node(node);
            &&& back.wf()
            &&& !back.is_node(node)
            &&& back.order == s.order.remove_value(node)
            &&& back.weights == s.weights
            &&& back.is_edge(fresh)
            &&& back.edge(fresh) == Connection::spec_one2one(
                s.edge(e1).from,
                s.edge(e2).to,
                s.edge(e2).weight,
            )
            &&& forall|n: usize| n != node ==> (#[trigger] back.is_node(n) <==> s.is_node(n))
            &&& forall|n: usize| #[trigger]
                s.is_node(n) && n != node ==> back.node(n).state == s.node(n).state
            &&& forall|x: usize|
                x != fresh ==> (#[trigger] back.is_edge(x) <==> (s.is_edge(x) && x != e1 && x
                    != e2))
            &&& forall|x: usize| #[trigger]
                s.is_edge(x) && x != e1 && x != e2 ==> back.edge(x) == s.edge(x)
        }),
{
    let doomed = s.incident(node);
    assert(doomed =~= seq![e1, e2]);
    assert(s.links_wf(node));
    assert(s.links(node).inbound[0] == e1);
    assert(s.links(node).outbound[0] == e2);
    assert(s.enters(e1, node));
    assert(s.leaves(e2, node));
    assert(s.edge_wf(e1));
    assert(s.edge_wf(e2));
    let from = s.edge(e1).from;
    let to = s.edge(e2).to;
    let cell = s.edge(e2).weight;
    let plan = s.bridges(node);
    assert(plan =~= seq![Bridge { from, to, cell }]) by {
        reveal_with_fuel(NetworkView::bridge_rows, 2);
    }
    lemma_unlink_effect(s, e1);
    let t1 = s.unlink(e1);
    lemma_unlink_effect(t1, e2);
    let t = t1.unlink(e2);
    assert(s.unlink_each(doomed, 2) == t) by {
        reveal_with_fuel(NetworkView::unlink_each, 3);
    }
    assert(s.lost_edges(t, doomed)) by {
        assert forall|x: usize| #[trigger] t.is_edge(x) <==> (s.is_edge(x) && !doomed.contains(
            x,
        )) by {
            assert(t.is_edge(x) <==> (t1.is_edge(x) && x != e2));
            assert(t1.is_edge(x) <==> (s.is_edge(x) && x != e1));
            assert(doomed[0] == e1 && doomed[1] == e2);
        }
        assert forall|x: usize| #[trigger] t.is_edge(x) implies t.edge(x) == s.edge(x) by {
            assert(t1.is_edge(x));
        }
    }
    assert(t.is_node(node)) by {
        assert(t1.is_node(node));
    }
    lemma_stripped_isolated(s, t, node);
    assert(t.is_inner(node));
    lemma_delete_node_wf(t, node);
    let u = t.delete_node(node);
    assert forall|x: usize| #[trigger] u.is_edge(x) <==> (s.is_edge(x) && x != e1 && x != e2) by {
        assert(u.is_edge(x) <==> t.is_edge(x));
        assert(t.is_edge(x) <==> (t1.is_edge(x) && x != e2));
        assert(t1.is_edge(x) <==> (s.is_edge(x) && x != e1));
    }
    assert forall|x: usize| #[trigger] u.is_edge(x) implies u.edge(x) == s.edge(x) by {
        assert(t.is_edge(x));
        assert(t1.is_edge(x));
    }
    assert forall|n: usize| #[trigger] u.is_node(n) <==> (s.is_node(n) && n != node) by {
        assert(t.is_node(n) <==> t1.is_node(n));
        assert(t1.is_node(n) <==> s.is_node(n));
    }
    assert forall|n: usize| #[trigger] u.is_node(n) implies u.node(n).state == s.node(n).state by {
        assert(s.is_node(n));
        assert(t1.is_node(n));
        assert(t.is_node(n));
    }
    assert(!u.connected(from, to)) by {
        if u.connected(from, to) {
            let x = choose|x: usize| u.joins(x, from, to);
            assert(u.is_edge(x));
            assert(s.joins(x, from, to));
        }
    }
    assert(u.is_node(from) && u.is_node(to));
    if from == to {
        if let Some(x) = u.links(from).to_self {
            assert(u.links_wf(from));
            assert(u.joins(x, from, to));
        }
    }
    lemma_link_effect(u, from, to, cell);
    let back = u.link(from, to, cell);
    assert(u.bridge_each(plan, 1) == back) by {
        reveal_with_fuel(NetworkView::bridge_each, 2);
    }
    assert(s.remove_node(node) == back);
    assert forall|n: usize| n != node implies (#[trigger] back.is_node(n) <==> s.is_node(n)) by {
        assert(back.is_node(n) <==> u.is_node(n));
    }
    assert forall|n: usize| #[trigger] s.is_node(n) && n != node implies back.node(n).state
        == s.node(n).state by {
        assert(u.is_node(n));
    }
    assert forall|x: usize| x != s.edges.len() implies (#[trigger] back.is_edge(x) <==> (s.is_edge(
        x,
    ) && x != e1 && x != e2)) by {
        assert(back.is_edge(x) <==> u.is_edge(x));
    }
    assert forall|x: usize| #[trigger] s.is_edge(x) && x != e1 && x != e2 implies back.edge(x)
        == s.edge(x) by {
        assert(u.is_edge(x));
    }
}

/// Splicing a node into a connection and removing the node again restores
/// the connection.
///
/// Let `e` be a live connection and the only one from its source to its
/// destination. After a node was spliced into `e` and that node removed
/// again, the network is consistent and has the nodes it had, in the order
/// they had and the states they had. Every connection but `e` is what it
/// was, with the weight it had. In place of `e` a fresh ungated connection
/// joins the same source to the same destination on the same weight cell,
/// and so with the same weight.
pub proof fn law_add_then_remove_node(v: NetworkView, e: usize, bias: NeuroFloat, squash: Activation)
    requires
        v.wf(),
        v.is_edge(e),
        forall|x: usize| #[trigger] v.joins(x, v.edge(e).from, v.edge(e).to) ==> x == e,
        v.nodes.len() < usize::MAX,
        v.weights.len() < usize::MAX,
        v.edges.len() + 2 < usize::MAX,
    ensures
        ({
            let c = v.edge(e);
            let node = v.nodes.len() as usize;
            let fresh = (v.edges.len() + 2) as usize;
            let back = v.add_node(e, bias, squash).remove_node(node);
            &&& back.wf()
            &&& !back.is_node(node)
            &&& forall|n: usize| n != node ==> (#[trigger] back.is_node(n) <==> v.is_node(n))
            &&& forall|n: usize| #[trigger] v.is_node(n) ==> back.node(n).state == v.node(n).state
            &&& back.order == v.order
            &&& back.is_edge(fresh)
            &&& back.edge(fresh) == Connection::spec_one2one(c.from, c.to, c.weight)
            &&& back.weight_of(fresh) == v.weight_of(e)
            &&& forall|x: usize|
                x != fresh ==> (#[trigger] back.is_edge(x) <==> (v.is_edge(x) && x != e))
            &&& forall|x: usize| #[trigger]
                v.is_edge(x) && x != e ==> back.edge(x) == v.edge(x) && back.weight_of(x)
                    == v.weight_of(x)
        }),
{
    let c = v.edge(e);
    let node = v.nodes.len() as usize;
    let e1 = v.edges.len() as usize;
    let e2 = (v.edges.len() + 1) as usize;
    let fresh = (v.edges.len() + 2) as usize;
    let pos = v.splice_position(e);
    assert(v.edge_wf(e));
    lemma_add_node_effect(v, e, bias, squash);
    let s = v.add_node(e, bias, squash);
    assert forall|x: usize| #[trigger] s.joins(x, s.edge(e1).from, s.edge(e2).to) implies x == e1
        || x == e2 by {
        if x != e1 && x != e2 {
            assert(s.is_edge(x));
            assert(v.is_edge(x) && x != e);
            assert(s.edge(x) == v.edge(x));
            assert(v.joins(x, c.from, c.to));
        }
    }
    lemma_remove_relay(s, node, e1, e2);
    let back = s.remove_node(node);
    assert(back.order =~= v.order) by {
        assert(s.order_wf());
        lemma_remove_value(s.order, node);
        v.order.insert_ensures(pos, node);
        assert(s.order[pos] == node);
        assert(v.order.insert(pos, node).remove(pos) =~= v.order);
    }
    assert forall|n: usize| n != node implies (#[trigger] back.is_node(n) <==> v.is_node(n)) by {
        assert(s.is_node(n) <==> v.is_node(n));
    }
    assert forall|n: usize| #[trigger] v.is_node(n) implies back.node(n).state == v.node(n).state by {
        assert(s.is_node(n));
    }
    assert forall|x: usize| x != fresh implies (#[trigger] back.is_edge(x) <==> (v.is_edge(x) && x
        != e)) by {
        if x != e1 && x != e2 {
            assert(s.is_edge(x) <==> (v.is_edge(x) && x != e));
        }
    }
    assert forall|x: usize| #[trigger] v.is_edge(x) && x != e implies back.edge(x) == v.edge(x)
        && back.weight_of(x) == v.weight_of(x) by {
        assert(s.is_edge(x));
        assert(v.edge_wf(x));
    }
}

} // verus!
