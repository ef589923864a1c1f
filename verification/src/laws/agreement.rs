//! What the digest that neighbours compare covers.

use vstd::prelude::*;
use vstd::string::StringSliceAdditionalSpecFns;

use crate::bytes::{be16, be32};
use crate::digest::{
    countable, digest_input, edge_bytes, edge_record, edges_of, node_bytes, node_record, pair_bytes, Edge, pairs_of, same_input_same_shape, same_node_shape, same_shape_same_input, EctPair};
use crate::ect::EctAlgorithm;
use crate::laws::wire::numbers_in_network_order;
use crate::node::{lemma_node_len, NodeId};
use crate::ordmap::{ordered, Key};
use crate::region::{lemma_usable_edge, usable_edges};
use crate::topology::{edge_cost, supports, LinkView, NodeView, TopologyView};

verus! {

/// Views that are digested alike have the same MT-ID, the same nodes with the
/// same priority, SPSourceID, overload bit and tree sets, and the same links at
/// the same costs.
pub proof fn digest_gives_away_topology(
    a: TopologyView,
    x: u16,
    b: TopologyView,
    y: u16,
    id: NodeId,
    other: NodeId,
    base_vid: u16,
    algorithm: EctAlgorithm,
)
    requires
        countable(a),
        countable(b),
        digest_input(a.nodes@, a.links@, x) == digest_input(b.nodes@, b.links@, y),
    ensures
        x == y,
        a.nodes@.contains_key(id) <==> b.nodes@.contains_key(id),
        a.nodes@.contains_key(id) ==> {
            &&& a.nodes@[id].bridge_priority == b.nodes@[id].bridge_priority
            &&& a.nodes@[id].spsource_id == b.nodes@[id].spsource_id
            &&& a.nodes@[id].overload == b.nodes@[id].overload
            &&& supports(a.nodes@[id], base_vid, algorithm) <==> supports(b.nodes@[id], base_vid, algorithm)
        },
        edge_cost(a.links@, id, other) == edge_cost(b.links@, id, other),
{
    same_input_same_shape(a, x, b, y);
    assert(a.nodes@.dom().contains(id) <==> b.nodes@.dom().contains(id));
    if a.nodes@.contains_key(id) {
        let p = EctPair { algorithm: algorithm.0, base_vid };
        assert(EctAlgorithm(p.algorithm) == algorithm);
        assert(pairs_of(a.nodes@[id]).contains(p) <==> pairs_of(b.nodes@[id]).contains(p));
    }
    lemma_usable_edge(a.links@, id, other);
    lemma_usable_edge(b.links@, id, other);
}

/// Nothing else is digested: views that agree on all of that are digested
/// alike, whatever their services, their local node, or the order and the ports
/// of their links.
pub proof fn digest_covers_nothing_else(a: TopologyView, b: TopologyView, mt_id: u16)
    requires
        forall|id: NodeId| #[trigger] a.nodes@.contains_key(id) <==> b.nodes@.contains_key(id),
        forall|id: NodeId| #[trigger] a.nodes@.contains_key(id) ==> {
            &&& a.nodes@[id].bridge_priority == b.nodes@[id].bridge_priority
            &&& a.nodes@[id].spsource_id == b.nodes@[id].spsource_id
            &&& a.nodes@[id].overload == b.nodes@[id].overload
            &&& forall|base_vid: u16, algorithm: EctAlgorithm| #[trigger]
                supports(a.nodes@[id], base_vid, algorithm) <==> supports(b.nodes@[id], base_vid, algorithm)
        },
        forall|u: NodeId, v: NodeId| #[trigger] edge_cost(a.links@, u, v) == edge_cost(b.links@, u, v),
    ensures
        digest_input(a.nodes@, a.links@, mt_id) == digest_input(b.nodes@, b.links@, mt_id),
{
    assert(a.nodes@.dom() =~= b.nodes@.dom()) by {
        assert forall|id: NodeId| a.nodes@.dom().contains(id) <==> b.nodes@.dom().contains(id) by {
            assert(a.nodes@.contains_key(id) <==> b.nodes@.contains_key(id));
        }
    }
    assert forall|id: NodeId| #[trigger] a.nodes@.contains_key(id) implies same_node_shape(a.nodes@[id], b.nodes@[id]) by {
        assert forall|p: EctPair| pairs_of(a.nodes@[id]).contains(p) <==> pairs_of(b.nodes@[id]).contains(p) by {
            assert(supports(a.nodes@[id], p.base_vid, EctAlgorithm(p.algorithm)) <==> supports(
                b.nodes@[id],
                p.base_vid,
                EctAlgorithm(p.algorithm),
            ));
        }
        assert(pairs_of(a.nodes@[id]) =~= pairs_of(b.nodes@[id]));
    }
    let m = usable_edges(a.links@);
    let n = usable_edges(b.links@);
    assert forall|e: (NodeId, NodeId)| m.dom().contains(e) <==> n.dom().contains(e) by {
        assert(edge_cost(a.links@, e.0, e.1) == edge_cost(b.links@, e.0, e.1));
    }
    assert forall|e: (NodeId, NodeId)| m.dom().contains(e) implies m[e] == n[e] by {
        assert(edge_cost(a.links@, e.0, e.1) == edge_cost(b.links@, e.0, e.1));
    }
    assert(m =~= n);
    same_shape_same_input(a, b, mt_id);
}

/// What is digested, section by section: a tag, the MT-ID, the number of nodes
/// and the nodes by System ID, the number of links and the links by their ends.
pub proof fn digest_sections(view: TopologyView, mt_id: u16)
    ensures
        ({
            let ids = ordered(view.nodes@.dom());
            let edges = ordered(edges_of(view.links@));
            digest_input(view.nodes@, view.links@, mt_id) == "holo-spb-digest-v1".spec_bytes() + be16(mt_id as int) + (be32(
                ids.len() as int % 0x1_0000_0000,
            ) + node_bytes(view.nodes@, ids)) + (be32(edges.len() as int % 0x1_0000_0000) + edge_bytes(view.links@, edges))
        }),
        forall|e: Edge| #[trigger] edges_of(view.links@).contains(e) <==> e.lower.ordinal() <= e.higher.ordinal() && edge_cost(
            view.links@,
            e.lower,
            e.higher,
        ) is Some,
{
}

/// Nodes, links and tree sets are digested one after the other.
pub proof fn digest_records_follow_each_other(
    nodes: Map<NodeId, NodeView>,
    ids: Seq<NodeId>,
    links: Seq<LinkView>,
    edges: Seq<Edge>,
    pairs: Seq<EctPair>,
)
    ensures
        ids.len() > 0 ==> node_bytes(nodes, ids) == node_record(ids[0], nodes[ids[0]]) + node_bytes(nodes, ids.skip(1)),
        ids.len() == 0 ==> node_bytes(nodes, ids).len() == 0,
        edges.len() > 0 ==> edge_bytes(links, edges) == edge_record(links, edges[0]) + edge_bytes(links, edges.skip(1)),
        edges.len() == 0 ==> edge_bytes(links, edges).len() == 0,
        pairs.len() > 0 ==> pair_bytes(pairs) == be32(pairs[0].algorithm as int) + be16(pairs[0].base_vid as int) + pair_bytes(
            pairs.skip(1),
        ),
        pairs.len() == 0 ==> pair_bytes(pairs).len() == 0,
{
}

/// The bytes of a node and of a link.
pub proof fn digest_record_layout(id: NodeId, node: NodeView, links: Seq<LinkView>, e: Edge, i: int)
    ensures
        ({
            let s = node_record(id, node);
            let pairs = ordered(pairs_of(node));
            &&& s.len() >= 15
            &&& 0 <= i < 6 ==> s[i] == id@[i]
            &&& s[6] == node.bridge_priority as int / 0x100
            &&& s[7] == node.bridge_priority as int % 0x100
            &&& s[8] == node.spsource_id as int / 0x100_0000
            &&& s[9] == node.spsource_id as int / 0x1_0000 % 0x100
            &&& s[10] == node.spsource_id as int / 0x100 % 0x100
            &&& s[11] == node.spsource_id as int % 0x100
            &&& s[12] == 1 <==> node.overload
            &&& s[12] == 0 <==> !node.overload
            &&& s[13] == pairs.len() as int / 0x100 % 0x100
            &&& s[14] == pairs.len() as int % 0x100
            &&& s.skip(15) == pair_bytes(pairs)
        }),
        ({
            let s = edge_record(links, e);
            let cost = edge_cost(links, e.lower, e.higher)->0 as int;
            &&& s.len() == 16
            &&& 0 <= i < 6 ==> s[i] == e.lower@[i] && s[6 + i] == e.higher@[i]
            &&& s[12] == cost / 0x100_0000
            &&& s[13] == cost / 0x1_0000 % 0x100
            &&& s[14] == cost / 0x100 % 0x100
            &&& s[15] == cost % 0x100
        }),
{
    lemma_node_len(id);
    lemma_node_len(e.lower);
    lemma_node_len(e.higher);
    let n = ordered(pairs_of(node)).len() as int;
    numbers_in_network_order(node.bridge_priority as int);
    numbers_in_network_order(node.spsource_id as int);
    numbers_in_network_order(n % 0x1_0000);
    numbers_in_network_order(edge_cost(links, e.lower, e.higher)->0 as int);
    lemma_sixteen_bits(n);
    assert(node_record(id, node).skip(15) =~= pair_bytes(ordered(pairs_of(node))));
}

proof fn lemma_sixteen_bits(n: int)
    requires
        0 <= n,
    ensures
        n % 0x1_0000 / 0x100 % 0x100 == n / 0x100 % 0x100,
        n % 0x1_0000 % 0x100 == n % 0x100,
{
    let q = n / 0x100;
    assert(n == q / 0x100 * 0x1_0000 + q % 0x100 * 0x100 + n % 0x100);
    assert(n % 0x1_0000 == q % 0x100 * 0x100 + n % 0x100);
}

} // verus!
