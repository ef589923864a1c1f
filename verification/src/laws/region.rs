//! What a view says of its nodes, its links and its services.

use vstd::prelude::*;

use crate::laws::naming::bridge_id_is_priority_then_system_id;
use crate::node::{lemma_node_len, NodeId};
use crate::ordmap::Key;
use crate::topology::{
    are_losers, bindings, bridge_id, bridge_rank, by_priority, edge_cost, has_role, is_link_metric, isid_set,
    lemma_link_metric_exists, link_metric, neighbor_set, node_lists, node_lists_on, offers, participates, selected,
    service_lists, EctVid, IsidBinding, LinkView, NodeView, Role, Selector,
};

verus! {

/// The nodes that transmit into a service on a Base VID are those with a
/// service of that Base VID that lists the I-SID with the T bit.
pub proof fn transmitters_have_t_bit(nodes: Map<NodeId, NodeView>, id: NodeId, isid: u32, base_vid: u16)
    ensures
        selected(nodes, Selector::ListsOn(isid, base_vid, Role::Transmit)).contains(id) <==> nodes.contains_key(id)
            && exists|i: int, j: int|
            0 <= i < nodes[id].services@.len() && 0 <= j < nodes[id].services@[i].isids@.len()
                && nodes[id].services@[i].base_vid == base_vid && (#[trigger] nodes[id].services@[i].isids@[j]).isid == isid
                && nodes[id].services@[i].isids@[j].transmit,
        selected(nodes, Selector::Lists(isid, Role::Transmit)).contains(id) <==> nodes.contains_key(id)
            && exists|i: int, j: int|
            0 <= i < nodes[id].services@.len() && 0 <= j < nodes[id].services@[i].isids@.len()
                && (#[trigger] nodes[id].services@[i].isids@[j]).isid == isid && nodes[id].services@[i].isids@[j].transmit,
{
    lemma_lists_on(nodes[id], isid, base_vid, Role::Transmit);
    lemma_lists(nodes[id], isid, Role::Transmit);
}

/// The nodes that receive from a service on a Base VID are those with a
/// service of that Base VID that lists the I-SID with the R bit.
pub proof fn receivers_have_r_bit(nodes: Map<NodeId, NodeView>, id: NodeId, isid: u32, base_vid: u16)
    ensures
        selected(nodes, Selector::ListsOn(isid, base_vid, Role::Receive)).contains(id) <==> nodes.contains_key(id)
            && exists|i: int, j: int|
            0 <= i < nodes[id].services@.len() && 0 <= j < nodes[id].services@[i].isids@.len()
                && nodes[id].services@[i].base_vid == base_vid && (#[trigger] nodes[id].services@[i].isids@[j]).isid == isid
                && nodes[id].services@[i].isids@[j].receive,
        selected(nodes, Selector::Lists(isid, Role::Receive)).contains(id) <==> nodes.contains_key(id)
            && exists|i: int, j: int|
            0 <= i < nodes[id].services@.len() && 0 <= j < nodes[id].services@[i].isids@.len()
                && (#[trigger] nodes[id].services@[i].isids@[j]).isid == isid && nodes[id].services@[i].isids@[j].receive,
{
    lemma_lists_on(nodes[id], isid, base_vid, Role::Receive);
    lemma_lists(nodes[id], isid, Role::Receive);
}

/// The nodes that advertise an I-SID are those with a service that lists it,
/// whatever its bits.
pub proof fn advertisers_list_isid(nodes: Map<NodeId, NodeView>, id: NodeId, isid: u32)
    ensures
        selected(nodes, Selector::Lists(isid, Role::Any)).contains(id) <==> nodes.contains_key(id) && exists|i: int, j: int|
            0 <= i < nodes[id].services@.len() && 0 <= j < nodes[id].services@[i].isids@.len()
                && (#[trigger] nodes[id].services@[i].isids@[j]).isid == isid,
{
    lemma_lists(nodes[id], isid, Role::Any);
}

/// The nodes that use an SPSourceID are those that advertise it.
pub proof fn holders_advertise_spsource_id(nodes: Map<NodeId, NodeView>, id: NodeId, spsource_id: u32)
    ensures
        selected(nodes, Selector::Uses(spsource_id)).contains(id) <==> nodes.contains_key(id) && nodes[id].spsource_id
            == spsource_id,
{
}

/// The bindings of a region are the I-SIDs that some service of some node
/// lists, each with the Base VID of that service.
pub proof fn bindings_are_listed(nodes: Map<NodeId, NodeView>, b: IsidBinding)
    ensures
        bindings(nodes).contains(b) <==> exists|id: NodeId, i: int, j: int|
            nodes.contains_key(id) && 0 <= i < nodes[id].services@.len() && 0 <= j < nodes[id].services@[i].isids@.len()
                && nodes[id].services@[i].base_vid == b.base_vid && (#[trigger] nodes[id].services@[i].isids@[j]).isid == b.isid,
{
    if bindings(nodes).contains(b) {
        let id = choose|id: NodeId| #[trigger] nodes.contains_key(id) && node_lists_on(nodes[id], b.isid, b.base_vid, Role::Any);
        lemma_lists_on(nodes[id], b.isid, b.base_vid, Role::Any);
        let (i, j) = choose|i: int, j: int|
            0 <= i < nodes[id].services@.len() && 0 <= j < nodes[id].services@[i].isids@.len()
                && nodes[id].services@[i].base_vid == b.base_vid && (#[trigger] nodes[id].services@[i].isids@[j]).isid == b.isid;
        assert(nodes[id].services@[i].isids@[j].isid == b.isid);
    }
    if exists|id: NodeId, i: int, j: int|
        nodes.contains_key(id) && 0 <= i < nodes[id].services@.len() && 0 <= j < nodes[id].services@[i].isids@.len()
            && nodes[id].services@[i].base_vid == b.base_vid && (#[trigger] nodes[id].services@[i].isids@[j]).isid == b.isid {
        let (id, i, j) = choose|id: NodeId, i: int, j: int|
            nodes.contains_key(id) && 0 <= i < nodes[id].services@.len() && 0 <= j < nodes[id].services@[i].isids@.len()
                && nodes[id].services@[i].base_vid == b.base_vid && (#[trigger] nodes[id].services@[i].isids@[j]).isid == b.isid;
        lemma_lists_on(nodes[id], b.isid, b.base_vid, Role::Any);
        assert(nodes[id].services@[i].isids@[j].isid == b.isid);
        assert(node_lists_on(nodes[id], b.isid, b.base_vid, Role::Any));
    }
}

/// The I-SIDs of a region are those that some service of some node lists.
pub proof fn isids_are_listed(nodes: Map<NodeId, NodeView>, isid: u32)
    ensures
        isid_set(nodes).contains(isid) <==> exists|id: NodeId, i: int, j: int|
            nodes.contains_key(id) && 0 <= i < nodes[id].services@.len() && 0 <= j < nodes[id].services@[i].isids@.len()
                && (#[trigger] nodes[id].services@[i].isids@[j]).isid == isid,
{
    if isid_set(nodes).contains(isid) {
        let id = choose|id: NodeId| #[trigger] nodes.contains_key(id) && node_lists(nodes[id], isid, Role::Any);
        lemma_lists(nodes[id], isid, Role::Any);
        let (i, j) = choose|i: int, j: int|
            0 <= i < nodes[id].services@.len() && 0 <= j < nodes[id].services@[i].isids@.len()
                && (#[trigger] nodes[id].services@[i].isids@[j]).isid == isid;
        assert(nodes[id].services@[i].isids@[j].isid == isid);
    }
    if exists|id: NodeId, i: int, j: int|
        nodes.contains_key(id) && 0 <= i < nodes[id].services@.len() && 0 <= j < nodes[id].services@[i].isids@.len()
            && (#[trigger] nodes[id].services@[i].isids@[j]).isid == isid {
        let (id, i, j) = choose|id: NodeId, i: int, j: int|
            nodes.contains_key(id) && 0 <= i < nodes[id].services@.len() && 0 <= j < nodes[id].services@[i].isids@.len()
                && (#[trigger] nodes[id].services@[i].isids@[j]).isid == isid;
        lemma_lists(nodes[id], isid, Role::Any);
        assert(nodes[id].services@[i].isids@[j].isid == isid);
        assert(node_lists(nodes[id], isid, Role::Any));
    }
}

/// A link costs the greater of the lowest metrics that its two ends advertise
/// for it, and has no cost where one of them advertises none.
pub proof fn link_costs_greater_of_lowest(links: Seq<LinkView>, a: NodeId, b: NodeId)
    ensures
        edge_cost(links, a, b) is Some <==> (exists|i: int|
            0 <= i < links.len() && (#[trigger] links[i]).from == a && links[i].to == b && links[i].metric is Some) && (exists|
            i: int,
        |
            0 <= i < links.len() && (#[trigger] links[i]).from == b && links[i].to == a && links[i].metric is Some),
        edge_cost(links, a, b) is Some ==> exists|i: int, j: int|
            {
                &&& 0 <= i < links.len() && 0 <= j < links.len()
                &&& (#[trigger] links[i]).from == a && links[i].to == b && links[i].metric is Some
                &&& (#[trigger] links[j]).from == b && links[j].to == a && links[j].metric is Some
                &&& edge_cost(links, a, b)->0 == links[i].metric->0 || edge_cost(links, a, b)->0 == links[j].metric->0
                &&& edge_cost(links, a, b)->0 >= links[i].metric->0
                &&& edge_cost(links, a, b)->0 >= links[j].metric->0
                &&& forall|k: int|
                    0 <= k < links.len() && (#[trigger] links[k]).from == a && links[k].to == b && links[k].metric is Some
                        ==> links[i].metric->0 <= links[k].metric->0
                &&& forall|k: int|
                    0 <= k < links.len() && (#[trigger] links[k]).from == b && links[k].to == a && links[k].metric is Some
                        ==> links[j].metric->0 <= links[k].metric->0
            },
{
    lemma_lowest_metric(links, a, b);
    lemma_lowest_metric(links, b, a);
}

/// Both ends of a link see it at the same cost.
pub proof fn link_costs_same_both_ways(links: Seq<LinkView>, a: NodeId, b: NodeId)
    ensures
        edge_cost(links, a, b) == edge_cost(links, b, a),
{
}

proof fn lemma_lowest_metric(links: Seq<LinkView>, a: NodeId, b: NodeId)
    ensures
        link_metric(links, a, b) is Some <==> exists|i: int|
            0 <= i < links.len() && (#[trigger] links[i]).from == a && links[i].to == b && links[i].metric is Some,
        link_metric(links, a, b) is Some ==> exists|i: int|
            {
                &&& 0 <= i < links.len()
                &&& (#[trigger] links[i]).from == a && links[i].to == b && links[i].metric == link_metric(links, a, b)
                &&& forall|k: int|
                    0 <= k < links.len() && (#[trigger] links[k]).from == a && links[k].to == b && links[k].metric is Some
                        ==> links[i].metric->0 <= links[k].metric->0
            },
{
    lemma_link_metric_exists(links, a, b);
    let m = link_metric(links, a, b);
    assert(is_link_metric(links, a, b, m));
    assert forall|k: int|
        0 <= k < links.len() && (#[trigger] links[k]).from == a && links[k].to == b && links[k].metric is Some implies m is Some
        && m->0 <= links[k].metric->0 by {
        assert(offers(links, a, b, links[k].metric->0));
    }
    if m is Some {
        let i = choose|i: int|
            0 <= i < links.len() && (#[trigger] links[i]).from == a && links[i].to == b && links[i].metric == Some(m->0);
        assert(links[i].from == a);
    }
}

/// A node takes part in a tree set when it advertises the algorithm of the
/// tree set for its Base VID.
pub proof fn participants_advertise_pair(nodes: Map<NodeId, NodeView>, id: NodeId, ect_vid: EctVid)
    ensures
        participates(nodes, id, ect_vid) <==> nodes.contains_key(id) && exists|i: int|
            0 <= i < nodes[id].ect_vids@.len() && (#[trigger] nodes[id].ect_vids@[i]).base_vid == ect_vid.base_vid
                && nodes[id].ect_vids@[i].algorithm == ect_vid.algorithm,
{
}

/// The neighbors of a node on a tree set are the participants with a link to
/// it that both ends advertise with a metric.
pub proof fn neighbors_share_a_link(nodes: Map<NodeId, NodeView>, links: Seq<LinkView>, id: NodeId, ect_vid: EctVid, to: NodeId)
    ensures
        neighbor_set(nodes, links, id, ect_vid).contains(to) <==> {
            &&& nodes.contains_key(to)
            &&& exists|i: int|
                0 <= i < nodes[to].ect_vids@.len() && (#[trigger] nodes[to].ect_vids@[i]).base_vid == ect_vid.base_vid
                    && nodes[to].ect_vids@[i].algorithm == ect_vid.algorithm
            &&& exists|i: int| 0 <= i < links.len() && (#[trigger] links[i]).from == id && links[i].to == to && links[i].metric is Some
            &&& exists|i: int| 0 <= i < links.len() && (#[trigger] links[i]).from == to && links[i].to == id && links[i].metric is Some
        },
{
    link_costs_greater_of_lowest(links, id, to);
}

/// Bridges rank by priority, the lower first, and by System ID among equals.
pub proof fn bridges_rank_by_priority_then_system_id(nodes: Map<NodeId, NodeView>, a: NodeId, b: NodeId)
    ensures
        bridge_rank(nodes, a) < bridge_rank(nodes, b) <==> nodes[a].bridge_priority < nodes[b].bridge_priority || (
        nodes[a].bridge_priority == nodes[b].bridge_priority && a.ordinal() < b.ordinal()),
{
    lemma_bridge_rank(nodes, a);
    lemma_bridge_rank(nodes, b);
    crate::node::lemma_node_ordinal_bound(a);
    crate::node::lemma_node_ordinal_bound(b);
}

proof fn lemma_bridge_rank(nodes: Map<NodeId, NodeView>, a: NodeId)
    ensures
        bridge_rank(nodes, a) == nodes[a].bridge_priority * 0x1_0000_0000_0000 + a.ordinal(),
{
    lemma_node_len(a);
    let id = bridge_id(nodes, a);
    bridge_id_is_priority_then_system_id(nodes[a].bridge_priority, a, 0);
    bridge_id_is_priority_then_system_id(nodes[a].bridge_priority, a, 1);
    bridge_id_is_priority_then_system_id(nodes[a].bridge_priority, a, 2);
    bridge_id_is_priority_then_system_id(nodes[a].bridge_priority, a, 3);
    bridge_id_is_priority_then_system_id(nodes[a].bridge_priority, a, 4);
    bridge_id_is_priority_then_system_id(nodes[a].bridge_priority, a, 5);
}

/// Of the nodes that use one SPSourceID, all but one must give way: the one
/// that keeps it has the lowest priority value, and among equals the lowest
/// System ID. The others are listed from the one next in rank down.
pub proof fn lowest_bridge_keeps_spsource_id(nodes: Map<NodeId, NodeView>, spsource_id: u32, losers: Seq<NodeId>) -> (winner: NodeId)
    requires
        are_losers(nodes, spsource_id, losers),
    ensures
        nodes.contains_key(winner),
        nodes[winner].spsource_id == spsource_id,
        !losers.contains(winner),
        forall|id: NodeId|
            #![trigger nodes.contains_key(id)]
            #![trigger losers.contains(id)]
            losers.contains(id) <==> nodes.contains_key(id) && nodes[id].spsource_id == spsource_id && id != winner,
        forall|id: NodeId| #[trigger]
            losers.contains(id) ==> nodes[winner].bridge_priority < nodes[id].bridge_priority || (nodes[winner].bridge_priority
                == nodes[id].bridge_priority && winner.ordinal() < id.ordinal()),
        forall|i: int, j: int|
            0 <= i < j < losers.len() ==> nodes[#[trigger] losers[i]].bridge_priority < nodes[#[trigger] losers[j]].bridge_priority
                || (nodes[losers[i]].bridge_priority == nodes[losers[j]].bridge_priority && losers[i].ordinal()
                < losers[j].ordinal()),
{
    let winner = choose|winner: NodeId|
        by_priority(nodes, #[trigger] (seq![winner] + losers)) && (seq![winner] + losers).to_set() == selected(
            nodes,
            Selector::Uses(spsource_id),
        );
    let q = seq![winner] + losers;
    let s = selected(nodes, Selector::Uses(spsource_id));
    assert(q.to_set() == s);
    assert(q[0] == winner);
    assert(q.to_set().contains(winner));
    assert forall|i: int| 0 <= i < losers.len() implies bridge_rank(nodes, winner) < bridge_rank(nodes, #[trigger] losers[i]) by {
        assert(q[i + 1] == losers[i]);
    }
    assert forall|id: NodeId| #[trigger] losers.contains(id) implies nodes[winner].bridge_priority < nodes[id].bridge_priority || (
    nodes[winner].bridge_priority == nodes[id].bridge_priority && winner.ordinal() < id.ordinal()) by {
        let i = choose|i: int| 0 <= i < losers.len() && losers[i] == id;
        bridges_rank_by_priority_then_system_id(nodes, winner, losers[i]);
    }
    assert forall|id: NodeId| losers.contains(id) implies #[trigger] s.contains(id) && id != winner by {
        let i = choose|i: int| 0 <= i < losers.len() && losers[i] == id;
        assert(q[i + 1] == id);
        assert(q.to_set().contains(id));
    }
    assert forall|id: NodeId| #[trigger] s.contains(id) && id != winner implies losers.contains(id) by {
        assert(q.to_set().contains(id));
        let i = choose|i: int| 0 <= i < q.len() && q[i] == id;
        assert(losers[i - 1] == id);
    }
    assert forall|id: NodeId|
        #![trigger nodes.contains_key(id)]
        #![trigger losers.contains(id)]
        losers.contains(id) <==> nodes.contains_key(id) && nodes[id].spsource_id == spsource_id && id != winner by {
        assert(s.contains(id) <==> nodes.contains_key(id) && nodes[id].spsource_id == spsource_id);
    }
    assert forall|i: int, j: int| 0 <= i < j < losers.len() implies nodes[#[trigger] losers[i]].bridge_priority
        < nodes[#[trigger] losers[j]].bridge_priority || (nodes[losers[i]].bridge_priority == nodes[losers[j]].bridge_priority
        && losers[i].ordinal() < losers[j].ordinal()) by {
        assert(q[i + 1] == losers[i]);
        assert(q[j + 1] == losers[j]);
        bridges_rank_by_priority_then_system_id(nodes, losers[i], losers[j]);
    }
    winner
}

/// There are finitely many bindings.
pub(crate) proof fn lemma_bindings_finite(s: Set<IsidBinding>)
    ensures
        s.finite(),
{
    let range = vstd::set_lib::set_int_range(0, 0x1_0000_0000_0000);
    let f = |o: int| IsidBinding { isid: (o / 0x1_0000) as u32, base_vid: (o % 0x1_0000) as u16 };
    vstd::set_lib::lemma_int_range(0, 0x1_0000_0000_0000);
    range.lemma_map_finite(f);
    assert forall|b: IsidBinding| s.contains(b) implies range.map(f).contains(b) by {
        let o = b.isid * 0x1_0000 + b.base_vid;
        assert(range.contains(o));
        assert(f(o) == b);
    }
    vstd::set_lib::lemma_len_subset(s, range.map(f));
}

/// A node lists an I-SID on a Base VID when an entry of one of its services
/// does.
pub(crate) proof fn lemma_lists_on(node: NodeView, isid: u32, base_vid: u16, role: Role)
    ensures
        node_lists_on(node, isid, base_vid, role) <==> exists|i: int, j: int|
            0 <= i < node.services@.len() && 0 <= j < node.services@[i].isids@.len() && node.services@[i].base_vid == base_vid
                && (#[trigger] node.services@[i].isids@[j]).isid == isid && has_role(node.services@[i].isids@[j], role),
{
    if node_lists_on(node, isid, base_vid, role) {
        let i = choose|i: int|
            0 <= i < node.services@.len() && (#[trigger] node.services@[i]).base_vid == base_vid && service_lists(
                node.services@[i],
                isid,
                role,
            );
        let svc = node.services@[i];
        let j = choose|j: int| 0 <= j < svc.isids@.len() && (#[trigger] svc.isids@[j]).isid == isid && has_role(svc.isids@[j], role);
        assert(node.services@[i].isids@[j].isid == isid);
    }
    if exists|i: int, j: int|
        0 <= i < node.services@.len() && 0 <= j < node.services@[i].isids@.len() && node.services@[i].base_vid == base_vid && (
        #[trigger] node.services@[i].isids@[j]).isid == isid && has_role(node.services@[i].isids@[j], role) {
        let (i, j) = choose|i: int, j: int|
            0 <= i < node.services@.len() && 0 <= j < node.services@[i].isids@.len() && node.services@[i].base_vid == base_vid
                && (#[trigger] node.services@[i].isids@[j]).isid == isid && has_role(node.services@[i].isids@[j], role);
        assert(service_lists(node.services@[i], isid, role));
    }
}

/// A node lists an I-SID when an entry of one of its services does.
pub(crate) proof fn lemma_lists(node: NodeView, isid: u32, role: Role)
    ensures
        node_lists(node, isid, role) <==> exists|i: int, j: int|
            0 <= i < node.services@.len() && 0 <= j < node.services@[i].isids@.len()
                && (#[trigger] node.services@[i].isids@[j]).isid == isid && has_role(node.services@[i].isids@[j], role),
{
    if node_lists(node, isid, role) {
        let i = choose|i: int| 0 <= i < node.services@.len() && service_lists(#[trigger] node.services@[i], isid, role);
        let svc = node.services@[i];
        let j = choose|j: int| 0 <= j < svc.isids@.len() && (#[trigger] svc.isids@[j]).isid == isid && has_role(svc.isids@[j], role);
        assert(node.services@[i].isids@[j].isid == isid);
    }
    if exists|i: int, j: int|
        0 <= i < node.services@.len() && 0 <= j < node.services@[i].isids@.len() && (
        #[trigger] node.services@[i].isids@[j]).isid == isid && has_role(node.services@[i].isids@[j], role) {
        let (i, j) = choose|i: int, j: int|
            0 <= i < node.services@.len() && 0 <= j < node.services@[i].isids@.len()
                && (#[trigger] node.services@[i].isids@[j]).isid == isid && has_role(node.services@[i].isids@[j], role);
        assert(service_lists(node.services@[i], isid, role));
    }
}

} // verus!
