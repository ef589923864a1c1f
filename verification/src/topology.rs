//! The SPB topology view: the boundary between IS-IS and SPB computation.
//!
//! IS-IS owns the link state database. It builds a [`TopologyView`], a flat,
//! owned snapshot of everything RFC 6329 computation needs, and hands it over.
//! Nothing in the computation ever sees an LSP.

use vstd::prelude::*;

use crate::ect::{eight_bytes, eight_bytes_value, lemma_eight_bytes_injective, BridgeId, EctAlgorithm};
use crate::mac::MacAddr;
use crate::node::{lemma_node_len, NodeId};
use crate::ordmap::{is_ordered, lemma_ordered_is, lemma_ordered_len, ordered, Key, OrdMap, OrdSet};

verus! {

/// The I-SID reserved for SPBM control traffic.
///
/// RFC 6329, Section 4.4.
pub const ISID_CONTROL: u32 = 0x00_0f_ff;

/// Largest valid I-SID (24-bit).
pub const ISID_MAX: u32 = 0x00ff_ffff;

/// Largest valid SPSourceID (20-bit).
pub const SPSOURCE_ID_MAX: u32 = 0x000f_ffff;

/// The SPSourceID value meaning "dynamic assignment has not yet completed".
///
/// RFC 6329, Section 4.4: it is advertised by a node configured to assign its
/// SPSourceID dynamically, which requires LSDB synchronization, before that
/// assignment has finished.
pub const SPSOURCE_ID_UNASSIGNED: u32 = 0;

/// A complete snapshot of the SPB-relevant topology for one IS-IS level.
#[derive(Clone, Debug, Default)]
pub struct TopologyView {
    /// The local node.
    pub local: NodeId,
    /// SPB instances, keyed by MT-ID.
    ///
    /// MT-IDs are carried as raw `u16` because SPB instances are not confined
    /// to the two topologies IS-IS itself models.
    pub instances: OrdMap<u16, SpbInstanceView>,
    /// Every node advertising SPB capability, keyed by System ID.
    pub nodes: OrdMap<NodeId, NodeView>,
    /// Directed link advertisements. Each node's view of a link appears as
    /// its own entry, so an asymmetric advertisement is visible rather than
    /// silently reconciled.
    pub links: Vec<LinkView>,
}

/// Per-instance parameters shared across the region.
#[derive(Clone, Debug, Default)]
pub struct SpbInstanceView {
    pub mt_id: u16,
    /// The (algorithm, Base VID) pairs this instance operates on, as
    /// configured locally.
    pub ect_vids: Vec<EctVid>,
}

/// A B-VID and the ECT algorithm that builds its tree set.
///
/// Derived from the VLAN-ID tuples of the SPB-Inst sub-TLV.
#[derive(Clone, Copy, Debug, Eq, Ord, PartialEq, PartialOrd)]
pub struct EctVid {
    pub base_vid: u16,
    pub algorithm: EctAlgorithm,
    /// SPBV Shortest Path VID; `None` in SPBM mode.
    pub spvid: Option<u16>,
    /// The M bit: whether this B-VID carries multicast.
    pub multicast: bool,
}

/// One node's SPB advertisement.
#[derive(Clone, Debug, Default)]
pub struct NodeView {
    /// Bridge Priority, the high-order half of the BridgeID.
    pub bridge_priority: u16,
    /// 20-bit SPSourceID used to build multicast destination addresses.
    pub spsource_id: u32,
    /// The V bit: the SPSourceID was auto-allocated rather than configured.
    pub spsource_id_auto: bool,
    /// The SPB overload bit, scoped to SPB adjacencies.
    pub overload: bool,
    /// (algorithm, Base VID) pairs this node advertises support for.
    pub ect_vids: Vec<EctVid>,
    /// SPBM services: a B-MAC with its Base VID and I-SID memberships.
    pub services: Vec<ServiceView>,
}

/// An SPBM-SI advertisement: one B-MAC and the I-SIDs reachable through it.
#[derive(Clone, Debug)]
pub struct ServiceView {
    pub bmac: MacAddr,
    pub base_vid: u16,
    pub isids: Vec<IsidMembership>,
}

/// I-SID membership, with the transmit and receive bits.
#[derive(Clone, Copy, Debug, Eq, Ord, PartialEq, PartialOrd)]
pub struct IsidMembership {
    pub isid: u32,
    /// The T bit: this node transmits into the service, so it roots a
    /// multicast distribution tree for it.
    pub transmit: bool,
    /// The R bit: this node receives from the service.
    pub receive: bool,
}

/// One node's advertisement of one link.
#[derive(Clone, Debug)]
pub struct LinkView {
    pub from: NodeId,
    pub to: NodeId,
    /// The 24-bit SPB-LINK-METRIC. `None` when the SPB-Metric sub-TLV was
    /// absent, in which case the adjacency must not carry SPB traffic.
    pub metric: Option<u32>,
    /// Port identifiers from the SPB-Metric sub-TLV.
    pub port_ids: Vec<u16>,
}

/// What a service advertisement says.
pub ghost struct ServiceFacts {
    pub bmac: Seq<u8>,
    pub base_vid: u16,
    pub isids: Seq<IsidMembership>,
}

/// What a node advertisement says.
pub ghost struct NodeFacts {
    pub bridge_priority: u16,
    pub spsource_id: u32,
    pub spsource_id_auto: bool,
    pub overload: bool,
    pub ect_vids: Seq<EctVid>,
    pub services: Seq<ServiceFacts>,
}

/// What a link advertisement says.
pub ghost struct LinkFacts {
    pub from: NodeId,
    pub to: NodeId,
    pub metric: Option<u32>,
    pub port_ids: Seq<u16>,
}

impl View for ServiceView {
    type V = ServiceFacts;

    open spec fn view(&self) -> ServiceFacts {
        ServiceFacts { bmac: self.bmac@, base_vid: self.base_vid, isids: self.isids@ }
    }
}

impl View for NodeView {
    type V = NodeFacts;

    open spec fn view(&self) -> NodeFacts {
        NodeFacts {
            bridge_priority: self.bridge_priority,
            spsource_id: self.spsource_id,
            spsource_id_auto: self.spsource_id_auto,
            overload: self.overload,
            ect_vids: self.ect_vids@,
            services: self.services@.map_values(|svc: ServiceView| svc@),
        }
    }
}

impl View for LinkView {
    type V = LinkFacts;

    open spec fn view(&self) -> LinkFacts {
        LinkFacts { from: self.from, to: self.to, metric: self.metric, port_ids: self.port_ids@ }
    }
}

/// An I-SID and the Base VID that a service binds it to.
#[derive(Clone, Copy, Debug, Eq, Ord, PartialEq, PartialOrd, Structural)]
pub struct IsidBinding {
    pub isid: u32,
    pub base_vid: u16,
}

impl Key for IsidBinding {
    /// Bindings are ordered by I-SID, then by Base VID.
    open spec fn ordinal(self) -> nat {
        (self.isid * 0x1_0000 + self.base_vid) as nat
    }

    proof fn ordinal_injective(a: Self, b: Self) {
    }

    fn ordinal_value(&self) -> (value: u128) {
        self.isid as u128 * 0x1_0000 + self.base_vid as u128
    }
}

// ===== what a view says =====

/// A link from `from` to `to` is advertised with metric `metric`.
pub open spec fn offers(links: Seq<LinkView>, from: NodeId, to: NodeId, metric: u32) -> bool {
    exists|i: int|
        0 <= i < links.len() && (#[trigger] links[i]).from == from && links[i].to == to && links[i].metric == Some(metric)
}

/// `metric` is the lowest metric that `from` advertises for a link to `to`.
pub open spec fn is_link_metric(links: Seq<LinkView>, from: NodeId, to: NodeId, metric: Option<u32>) -> bool {
    match metric {
        Some(m) => offers(links, from, to, m) && forall|n: u32| #[trigger] offers(links, from, to, n) ==> m <= n,
        None => forall|n: u32| !#[trigger] offers(links, from, to, n),
    }
}

/// The lowest metric that `from` advertises for a link to `to`.
pub open spec fn link_metric(links: Seq<LinkView>, from: NodeId, to: NodeId) -> Option<u32> {
    choose|metric: Option<u32>| is_link_metric(links, from, to, metric)
}

/// The cost of a link: the greater of the metrics its two ends advertise, if
/// both do.
pub open spec fn edge_cost(links: Seq<LinkView>, a: NodeId, b: NodeId) -> Option<u32> {
    match (link_metric(links, a, b), link_metric(links, b, a)) {
        (Some(fwd), Some(rev)) => Some(
            if fwd <= rev {
                rev
            } else {
                fwd
            },
        ),
        _ => None,
    }
}

/// Whether `node` advertises the pair of an algorithm and a Base VID.
pub open spec fn supports(node: NodeView, base_vid: u16, algorithm: EctAlgorithm) -> bool {
    exists|i: int|
        0 <= i < node.ect_vids@.len() && (#[trigger] node.ect_vids@[i]).base_vid == base_vid && node.ect_vids@[i].algorithm
            == algorithm
}

/// Whether `id` takes part in the tree set of `ect_vid`.
pub open spec fn participates(nodes: Map<NodeId, NodeView>, id: NodeId, ect_vid: EctVid) -> bool {
    nodes.contains_key(id) && supports(nodes[id], ect_vid.base_vid, ect_vid.algorithm)
}

/// The BridgeID of a node in the view.
pub open spec fn bridge_id(nodes: Map<NodeId, NodeView>, id: NodeId) -> BridgeId {
    BridgeId::of(nodes[id].bridge_priority, id@)
}

/// The neighbors of `id` that a path of the tree set of `ect_vid` may go to.
pub open spec fn neighbor_set(nodes: Map<NodeId, NodeView>, links: Seq<LinkView>, id: NodeId, ect_vid: EctVid) -> Set<NodeId> {
    Set::new(|to: NodeId| participates(nodes, to, ect_vid) && edge_cost(links, id, to) is Some)
}

/// Which membership of an I-SID is asked for.
#[derive(Clone, Copy)]
pub enum Role {
    Any,
    Transmit,
    Receive,
}

/// Whether a membership carries the bit of a role.
pub open spec fn has_role(m: IsidMembership, role: Role) -> bool {
    match role {
        Role::Any => true,
        Role::Transmit => m.transmit,
        Role::Receive => m.receive,
    }
}

/// Whether a service lists `isid` in a role.
pub open spec fn service_lists(svc: ServiceView, isid: u32, role: Role) -> bool {
    exists|j: int| 0 <= j < svc.isids@.len() && (#[trigger] svc.isids@[j]).isid == isid && has_role(svc.isids@[j], role)
}

/// Whether a node lists `isid` in a role, in a service of any Base VID.
pub open spec fn node_lists(node: NodeView, isid: u32, role: Role) -> bool {
    exists|i: int| 0 <= i < node.services@.len() && service_lists(#[trigger] node.services@[i], isid, role)
}

/// Whether a node lists `isid` in a role, in a service of `base_vid`.
pub open spec fn node_lists_on(node: NodeView, isid: u32, base_vid: u16, role: Role) -> bool {
    exists|i: int|
        0 <= i < node.services@.len() && (#[trigger] node.services@[i]).base_vid == base_vid && service_lists(
            node.services@[i],
            isid,
            role,
        )
}

/// A question about one node that selects some nodes of a view.
#[derive(Clone, Copy)]
pub enum Selector {
    /// Lists an I-SID in a role.
    Lists(u32, Role),
    /// Lists an I-SID in a role on a Base VID.
    ListsOn(u32, u16, Role),
    /// Uses an SPSourceID.
    Uses(u32),
}

/// The answer to a question about a node.
pub open spec fn selects(selector: Selector, node: NodeView) -> bool {
    match selector {
        Selector::Lists(isid, role) => node_lists(node, isid, role),
        Selector::ListsOn(isid, base_vid, role) => node_lists_on(node, isid, base_vid, role),
        Selector::Uses(spsource_id) => node.spsource_id == spsource_id,
    }
}

/// The nodes of a view that a question selects.
pub open spec fn selected(nodes: Map<NodeId, NodeView>, selector: Selector) -> Set<NodeId> {
    Set::new(|id: NodeId| nodes.contains_key(id) && selects(selector, nodes[id]))
}

/// The (I-SID, Base VID) pairs that a node advertises.
pub open spec fn node_bindings(node: NodeView) -> Set<IsidBinding> {
    Set::new(|b: IsidBinding| node_lists_on(node, b.isid, b.base_vid, Role::Any))
}

/// The (I-SID, Base VID) pairs advertised anywhere in the region.
pub open spec fn bindings(nodes: Map<NodeId, NodeView>) -> Set<IsidBinding> {
    Set::new(|b: IsidBinding| exists|id: NodeId| #[trigger] nodes.contains_key(id) && node_lists_on(nodes[id], b.isid, b.base_vid, Role::Any))
}

/// The I-SIDs advertised anywhere in the region.
pub open spec fn isid_set(nodes: Map<NodeId, NodeView>) -> Set<u32> {
    Set::new(|isid: u32| exists|id: NodeId| #[trigger] nodes.contains_key(id) && node_lists(nodes[id], isid, Role::Any))
}

/// The number that a node's BridgeID is ordered by.
pub open spec fn bridge_rank(nodes: Map<NodeId, NodeView>, id: NodeId) -> nat {
    eight_bytes(bridge_id(nodes, id).0@)
}

/// `q` lists nodes from the highest-priority BridgeID, which is the lowest
/// number, to the lowest-priority one.
pub open spec fn by_priority(nodes: Map<NodeId, NodeView>, q: Seq<NodeId>) -> bool {
    forall|i: int, j: int| 0 <= i < j < q.len() ==> bridge_rank(nodes, #[trigger] q[i]) < bridge_rank(nodes, #[trigger] q[j])
}

/// `losers` are all holders of an SPSourceID but the one with the
/// highest-priority BridgeID, by priority.
pub open spec fn are_losers(nodes: Map<NodeId, NodeView>, spsource_id: u32, losers: Seq<NodeId>) -> bool {
    exists|winner: NodeId|
        by_priority(nodes, #[trigger] (seq![winner] + losers)) && (seq![winner] + losers).to_set() == selected(
            nodes,
            Selector::Uses(spsource_id),
        )
}

// ===== the questions in executable form =====

/// Returns whether a membership carries the bit of a role.
fn check_role(m: &IsidMembership, role: Role) -> (b: bool)
    ensures
        b == has_role(*m, role),
{
    match role {
        Role::Any => true,
        Role::Transmit => m.transmit,
        Role::Receive => m.receive,
    }
}

/// Returns whether a service lists `isid` in a role.
pub fn check_service_lists(svc: &ServiceView, isid: u32, role: Role) -> (b: bool)
    ensures
        b == service_lists(*svc, isid, role),
{
    for j in 0..svc.isids.len()
        invariant
            forall|k: int| 0 <= k < j ==> !((#[trigger] svc.isids@[k]).isid == isid && has_role(svc.isids@[k], role)),
    {
        if svc.isids[j].isid == isid && check_role(&svc.isids[j], role) {
            return true;
        }
    }
    false
}

/// Returns whether a node lists `isid` in a role.
pub fn check_node_lists(node: &NodeView, isid: u32, role: Role) -> (b: bool)
    ensures
        b == node_lists(*node, isid, role),
{
    for i in 0..node.services.len()
        invariant
            forall|k: int| 0 <= k < i ==> !service_lists(#[trigger] node.services@[k], isid, role),
    {
        if check_service_lists(&node.services[i], isid, role) {
            return true;
        }
    }
    false
}

/// Returns whether a node lists `isid` in a role on a Base VID.
pub fn check_node_lists_on(node: &NodeView, isid: u32, base_vid: u16, role: Role) -> (b: bool)
    ensures
        b == node_lists_on(*node, isid, base_vid, role),
{
    for i in 0..node.services.len()
        invariant
            forall|k: int|
                0 <= k < i ==> !((#[trigger] node.services@[k]).base_vid == base_vid && service_lists(
                    node.services@[k],
                    isid,
                    role,
                )),
    {
        if node.services[i].base_vid == base_vid && check_service_lists(&node.services[i], isid, role) {
            return true;
        }
    }
    false
}

fn check_selects(selector: Selector, node: &NodeView) -> (b: bool)
    ensures
        b == selects(selector, *node),
{
    match selector {
        Selector::Lists(isid, role) => check_node_lists(node, isid, role),
        Selector::ListsOn(isid, base_vid, role) => check_node_lists_on(node, isid, base_vid, role),
        Selector::Uses(spsource_id) => node.spsource_id == spsource_id,
    }
}

/// Returns the nodes that a question selects, in order.
pub fn select_nodes(nodes: &OrdMap<NodeId, NodeView>, selector: Selector) -> (ids: Vec<NodeId>)
    ensures
        ids@ == ordered(selected(nodes@, selector)),
        is_ordered(ids@),
        ids@.to_set() == selected(nodes@, selector),
        forall|i: int| 0 <= i < ids@.len() ==> nodes@.contains_key(#[trigger] ids@[i]) && selects(selector, nodes@[ids@[i]]),
{
    let keys = nodes.keys();
    let mut ids: Vec<NodeId> = Vec::new();
    for i in 0..keys.len()
        invariant
            is_ordered(keys@),
            keys@.to_set() == nodes@.dom(),
            forall|j: int| 0 <= j < keys@.len() ==> nodes@.contains_key(#[trigger] keys@[j]),
            is_ordered(ids@),
            forall|j: int|
                0 <= j < ids@.len() ==> nodes@.contains_key(#[trigger] ids@[j]) && selects(selector, nodes@[ids@[j]]) && (i
                    < keys@.len() ==> ids@[j].ordinal() < keys@[i as int].ordinal()),
            forall|j: int| 0 <= j < i && selects(selector, nodes@[#[trigger] keys@[j]]) ==> ids@.contains(keys@[j]),
    {
        let id = keys[i];
        let ghost before = ids@;
        if let Some(node) = nodes.get(&id) {
            if check_selects(selector, node) {
                ids.push(id);
                proof {
                    assert(ids@[before.len() as int] == id);
                    assert forall|k: NodeId| before.contains(k) implies ids@.contains(k) by {
                        let p = choose|p: int| 0 <= p < before.len() && before[p] == k;
                        assert(ids@[p] == k);
                    }
                }
            }
        } else {
            assert(nodes@.contains_key(keys@[i as int]));
        }
        assert(i + 1 < keys@.len() ==> keys@[i as int].ordinal() < keys@[i + 1].ordinal());
    }
    proof {
        assert(ids@.to_set() =~= selected(nodes@, selector)) by {
            assert forall|k: NodeId| selected(nodes@, selector).contains(k) implies ids@.to_set().contains(k) by {
                assert(keys@.to_set().contains(k));
                let p = choose|p: int| 0 <= p < keys@.len() && keys@[p] == k;
                assert(ids@.contains(keys@[p]));
            }
        }
        lemma_ordered_is(ids@);
    }
    ids
}

/// Distinct nodes have distinct BridgeIDs, whatever their priorities.
pub proof fn lemma_bridge_id_distinct(x: u16, a: NodeId, y: u16, b: NodeId)
    requires
        BridgeId::of(x, a@) == BridgeId::of(y, b@),
    ensures
        a == b,
{
    let s = BridgeId::of(x, a@).0@;
    let t = BridgeId::of(y, b@).0@;
    assert(a@.len() == 6 && b@.len() == 6) by {
        lemma_node_len(a);
        lemma_node_len(b);
    }
    assert forall|i: int| 0 <= i < 6 implies a@[i] == b@[i] by {
        assert(s[i + 2] == t[i + 2]);
    }
    assert(a@ =~= b@);
    NodeId::ordinal_injective(a, b);
}

/// There is just one lowest metric.
pub proof fn lemma_link_metric(links: Seq<LinkView>, from: NodeId, to: NodeId, metric: Option<u32>)
    requires
        is_link_metric(links, from, to, metric),
    ensures
        link_metric(links, from, to) == metric,
{
    let other = link_metric(links, from, to);
    assert(is_link_metric(links, from, to, other));
    if let Some(m) = metric {
        assert(offers(links, from, to, m));
    }
    if let Some(m) = other {
        assert(offers(links, from, to, m));
    }
}

/// There is a lowest metric, or no metric at all.
pub proof fn lemma_link_metric_exists(links: Seq<LinkView>, from: NodeId, to: NodeId)
    ensures
        is_link_metric(links, from, to, link_metric(links, from, to)),
{
    if exists|n: u32| offers(links, from, to, n) {
        let n = choose|n: u32| offers(links, from, to, n);
        lemma_least_offer(links, from, to, n);
    } else {
        assert(is_link_metric(links, from, to, None));
    }
}

proof fn lemma_least_offer(links: Seq<LinkView>, from: NodeId, to: NodeId, n: u32)
    requires
        offers(links, from, to, n),
    ensures
        exists|m: u32| is_link_metric(links, from, to, Some(m)),
    decreases n,
{
    if exists|m: u32| m < n && offers(links, from, to, m) {
        let m = choose|m: u32| m < n && offers(links, from, to, m);
        lemma_least_offer(links, from, to, m);
    } else {
        assert(is_link_metric(links, from, to, Some(n)));
    }
}

/// A link costs the same in both directions, whatever its two ends advertise.
pub proof fn edge_cost_symmetric(links: Seq<LinkView>, a: NodeId, b: NodeId)
    ensures
        edge_cost(links, a, b) == edge_cost(links, b, a),
{
}

/// A link costs at least what either end advertises for it.
pub proof fn edge_cost_is_greater_metric(links: Seq<LinkView>, a: NodeId, b: NodeId)
    ensures
        edge_cost(links, a, b) matches Some(cost) ==> link_metric(links, a, b) matches Some(fwd) && link_metric(links, b, a)
            matches Some(rev) && fwd <= cost && rev <= cost && (cost == fwd || cost == rev),
        edge_cost(links, a, b) is None <==> link_metric(links, a, b) is None || link_metric(links, b, a) is None,
{
}

/// A usable link is advertised.
pub proof fn lemma_edge_has_link(links: Seq<LinkView>, from: NodeId, to: NodeId)
    requires
        edge_cost(links, from, to) is Some,
    ensures
        exists|i: int| 0 <= i < links.len() && (#[trigger] links[i]).from == from && links[i].to == to,
{
    lemma_link_metric_exists(links, from, to);
    let m = link_metric(links, from, to)->0;
    assert(offers(links, from, to, m));
}

impl TopologyView {
    /// Returns the BridgeID of a node, if it is part of the view.
    pub fn bridge_id(&self, node: NodeId) -> (id: Option<BridgeId>)
        ensures
            id == (if self.nodes@.contains_key(node) {
                Some(bridge_id(self.nodes@, node))
            } else {
                None
            }),
    {
        match self.nodes.get(&node) {
            Some(n) => Some(BridgeId::new(n.bridge_priority, node.as_bytes())),
            None => None,
        }
    }

    /// Returns the SPB cost of the link between `a` and `b`, or `None` if the
    /// link cannot carry SPB traffic.
    ///
    /// Both directions must be advertised, and the cost is the **maximum** of
    /// the two advertised metrics. RFC 6329, Section 11: "SPB shortest path
    /// calculations Must use the maximum value of the two nodes' advertised
    /// SPB-LINK-METRICs when accumulating and minimizing the (sub)path
    /// costs."
    ///
    /// Resolving the cost symmetrically here, once, is what guarantees that
    /// every tree computed downstream is forward/reverse symmetric even when
    /// the two ends are misconfigured with different metrics.
    pub fn edge_cost(&self, a: NodeId, b: NodeId) -> (cost: Option<u32>)
        ensures
            cost == edge_cost(self.links@, a, b),
    {
        match (self.link_metric(a, b), self.link_metric(b, a)) {
            (Some(fwd), Some(rev)) => Some(
                if fwd <= rev {
                    rev
                } else {
                    fwd
                },
            ),
            _ => None,
        }
    }

    /// Returns the metric `from` advertises for its link to `to`.
    ///
    /// When a node advertises several parallel links to the same neighbor,
    /// the lowest metric wins: it is the best path that node offers.
    fn link_metric(&self, from: NodeId, to: NodeId) -> (metric: Option<u32>)
        ensures
            metric == link_metric(self.links@, from, to),
            metric is Some ==> exists|i: int|
                0 <= i < self.links@.len() && (#[trigger] self.links@[i]).from == from && self.links@[i].to == to,
    {
        let mut metric: Option<u32> = None;
        for i in 0..self.links.len()
            invariant
                is_link_metric(self.links@.take(i as int), from, to, metric),
        {
            let link = &self.links[i];
            let ghost before = self.links@.take(i as int);
            let ghost after = self.links@.take(i + 1);
            let ghost old_metric = metric;
            proof {
                assert(after[i as int] == *link);
                assert forall|n: u32| #[trigger] offers(after, from, to, n) implies offers(before, from, to, n) || (
                link.from == from && link.to == to && link.metric == Some(n)) by {
                    let j = choose|j: int|
                        0 <= j < after.len() && (#[trigger] after[j]).from == from && after[j].to == to && after[j].metric
                            == Some(n);
                    if j < i {
                        assert(before[j] == after[j]);
                    }
                }
                assert forall|n: u32| #[trigger] offers(before, from, to, n) implies offers(after, from, to, n) by {
                    let j = choose|j: int|
                        0 <= j < before.len() && (#[trigger] before[j]).from == from && before[j].to == to
                            && before[j].metric == Some(n);
                    assert(after[j] == before[j]);
                }
            }
            if link.from.same(&from) && link.to.same(&to) {
                if let Some(m) = link.metric {
                    assert(offers(after, from, to, m));
                    match metric {
                        Some(best) => {
                            if m < best {
                                metric = Some(m);
                            }
                        },
                        None => {
                            metric = Some(m);
                        },
                    }
                }
            }
        }
        proof {
            assert(self.links@.take(self.links@.len() as int) =~= self.links@);
            lemma_link_metric(self.links@, from, to, metric);
        }
        metric
    }

    /// Returns whether a node participates in a given (algorithm, B-VID)
    /// tree set.
    pub fn participates(&self, node: NodeId, ect_vid: &EctVid) -> (b: bool)
        ensures
            b == participates(self.nodes@, node, *ect_vid),
    {
        let Some(n) = self.nodes.get(&node) else {
            return false;
        };
        for i in 0..n.ect_vids.len()
            invariant
                self.nodes@.contains_key(node),
                *n == self.nodes@[node],
                forall|k: int|
                    0 <= k < i ==> !((#[trigger] n.ect_vids@[k]).base_vid == ect_vid.base_vid && n.ect_vids@[k].algorithm
                        == ect_vid.algorithm),
        {
            if n.ect_vids[i].base_vid == ect_vid.base_vid && n.ect_vids[i].algorithm == ect_vid.algorithm {
                return true;
            }
        }
        false
    }

    /// Returns whether any node in the region uses a given (algorithm,
    /// Base VID) pair.
    ///
    /// RFC 6329, Section 13.3: the Use-Flag of the SPB-B-VID sub-TLV "is set
    /// if this bridge, or any bridge in the LSDB, is currently using this
    /// ECT-ALGORITHM and Base VID". The local node is part of this view, so
    /// local usage is covered too.
    pub fn ect_vid_in_use(&self, ect_vid: &EctVid) -> (b: bool)
        ensures
            b == exists|id: NodeId| participates(self.nodes@, id, *ect_vid),
    {
        let keys = self.nodes.keys();
        for i in 0..keys.len()
            invariant
                forall|j: int| 0 <= j < i ==> !participates(self.nodes@, #[trigger] keys@[j], *ect_vid),
        {
            if self.participates(keys[i], ect_vid) {
                return true;
            }
        }
        proof {
            assert forall|id: NodeId| !participates(self.nodes@, id, *ect_vid) by {
                if self.nodes@.contains_key(id) {
                    assert(keys@.to_set().contains(id));
                    let j = choose|j: int| 0 <= j < keys@.len() && keys@[j] == id;
                }
            }
        }
        false
    }

    /// Returns the SPB-usable neighbors of `node` within a tree set, with
    /// their resolved costs.
    pub fn neighbors(&self, node: NodeId, ect_vid: &EctVid) -> (found: Vec<(NodeId, u32)>)
        ensures
            found@ == ordered(neighbor_set(self.nodes@, self.links@, node, *ect_vid)).map_values(
                |to: NodeId| (to, edge_cost(self.links@, node, to)->0),
            ),
            is_ordered(ordered(neighbor_set(self.nodes@, self.links@, node, *ect_vid))),
            ordered(neighbor_set(self.nodes@, self.links@, node, *ect_vid)).to_set() == neighbor_set(
                self.nodes@,
                self.links@,
                node,
                *ect_vid,
            ),
    {
        let ghost all = neighbor_set(self.nodes@, self.links@, node, *ect_vid);
        let mut seen: OrdSet<NodeId> = OrdSet::new();
        for i in 0..self.links.len()
            invariant
                all == neighbor_set(self.nodes@, self.links@, node, *ect_vid),
                forall|k: NodeId| seen@.contains(k) ==> all.contains(k),
                forall|j: int|
                    0 <= j < i && (#[trigger] self.links@[j]).from == node && all.contains(self.links@[j].to)
                        ==> seen@.contains(self.links@[j].to),
        {
            let link = &self.links[i];
            if link.from.same(&node) && self.participates(link.to, ect_vid) && self.edge_cost(node, link.to).is_some() {
                seen.insert(link.to);
            }
        }
        let ids = seen.to_vec();
        proof {
            assert(seen@ =~= all) by {
                assert forall|k: NodeId| all.contains(k) implies seen@.contains(k) by {
                    lemma_edge_has_link(self.links@, node, k);
                    let j = choose|j: int|
                        0 <= j < self.links@.len() && (#[trigger] self.links@[j]).from == node && self.links@[j].to == k;
                }
            }
        }
        let mut found: Vec<(NodeId, u32)> = Vec::new();
        let ghost cost = |to: NodeId| (to, edge_cost(self.links@, node, to)->0);
        for i in 0..ids.len()
            invariant
                all == neighbor_set(self.nodes@, self.links@, node, *ect_vid),
                forall|j: int| 0 <= j < ids@.len() ==> all.contains(#[trigger] ids@[j]),
                cost == (|to: NodeId| (to, edge_cost(self.links@, node, to)->0)),
                found@ == ids@.take(i as int).map_values(cost),
        {
            assert(all.contains(ids@[i as int]));
            if let Some(c) = self.edge_cost(node, ids[i]) {
                found.push((ids[i], c));
            }
            assert(ids@.take(i + 1).map_values(cost) =~= ids@.take(i as int).map_values(cost).push(cost(ids@[i as int])));
        }
        assert(ids@.take(ids@.len() as int) =~= ids@);
        found
    }

    /// Returns every node that roots a multicast distribution tree for
    /// `isid`: every node advertising it with the T bit set.
    ///
    /// This is what bounds multicast tree computation: per-source trees are
    /// only needed for transmitting sources, not for every node in the
    /// region.
    pub fn transmitters(&self, isid: u32) -> (ids: Vec<NodeId>)
        ensures
            ids@ == ordered(selected(self.nodes@, Selector::Lists(isid, Role::Transmit))),
            is_ordered(ids@),
            ids@.to_set() == selected(self.nodes@, Selector::Lists(isid, Role::Transmit)),
    {
        select_nodes(&self.nodes, Selector::Lists(isid, Role::Transmit))
    }

    /// Returns every node that roots a multicast distribution tree for
    /// `isid` **on a given Base VID**.
    ///
    /// The SPBM-SI sub-TLV binds a B-MAC and its I-SIDs to one Base VID, so a
    /// service's distribution tree exists only on that Base VID. Ignoring the
    /// binding would create multicast state on every configured B-VID.
    pub fn transmitters_on(&self, isid: u32, base_vid: u16) -> (ids: Vec<NodeId>)
        ensures
            ids@ == ordered(selected(self.nodes@, Selector::ListsOn(isid, base_vid, Role::Transmit))),
            is_ordered(ids@),
            ids@.to_set() == selected(self.nodes@, Selector::ListsOn(isid, base_vid, Role::Transmit)),
    {
        select_nodes(&self.nodes, Selector::ListsOn(isid, base_vid, Role::Transmit))
    }

    /// Returns the (I-SID, Base VID) pairs advertised anywhere in the region.
    pub fn isid_bindings(&self) -> (found: OrdSet<IsidBinding>)
        ensures
            found@ == bindings(self.nodes@),
    {
        let keys = self.nodes.keys();
        let mut found: OrdSet<IsidBinding> = OrdSet::new();
        for i in 0..keys.len()
            invariant
                forall|j: int| 0 <= j < keys@.len() ==> self.nodes@.contains_key(#[trigger] keys@[j]),
                forall|b: IsidBinding| found@.contains(b) ==> bindings(self.nodes@).contains(b),
                forall|j: int, b: IsidBinding|
                    0 <= j < i && #[trigger] node_bindings(self.nodes@[keys@[j]]).contains(b) ==> found@.contains(b),
        {
            assert(self.nodes@.contains_key(keys@[i as int]));
            if let Some(node) = self.nodes.get(&keys[i]) {
                add_bindings(node, &mut found);
            }
        }
        proof {
            assert forall|b: IsidBinding| bindings(self.nodes@).contains(b) implies found@.contains(b) by {
                let id = choose|id: NodeId| #[trigger]
                    self.nodes@.contains_key(id) && node_lists_on(self.nodes@[id], b.isid, b.base_vid, Role::Any);
                assert(keys@.to_set().contains(id));
                let j = choose|j: int| 0 <= j < keys@.len() && keys@[j] == id;
                assert(node_bindings(self.nodes@[keys@[j]]).contains(b));
            }
            assert(found@ =~= bindings(self.nodes@));
        }
        found
    }

    /// Returns every I-SID advertised anywhere in the region, each with the
    /// nodes that advertise it.
    pub fn isids(&self) -> (map: OrdMap<u32, Vec<NodeId>>)
        ensures
            map@.dom() == isid_set(self.nodes@),
            forall|isid: u32| #[trigger]
                map@.contains_key(isid) ==> map@[isid]@ == ordered(selected(self.nodes@, Selector::Lists(isid, Role::Any)))
                    && is_ordered(map@[isid]@) && map@[isid]@.to_set() == selected(
                    self.nodes@,
                    Selector::Lists(isid, Role::Any),
                ),
    {
        let pairs = self.isid_bindings().to_vec();
        let mut map: OrdMap<u32, Vec<NodeId>> = OrdMap::new();
        for i in 0..pairs.len()
            invariant
                forall|b: IsidBinding| pairs@.contains(b) ==> bindings(self.nodes@).contains(b),
                forall|isid: u32| #[trigger] map@.contains_key(isid) ==> isid_set(self.nodes@).contains(isid),
                forall|j: int| 0 <= j < i ==> map@.contains_key((#[trigger] pairs@[j]).isid),
                forall|isid: u32| #[trigger]
                    map@.contains_key(isid) ==> map@[isid]@ == ordered(
                        selected(self.nodes@, Selector::Lists(isid, Role::Any)),
                    ) && is_ordered(map@[isid]@) && map@[isid]@.to_set() == selected(
                        self.nodes@,
                        Selector::Lists(isid, Role::Any),
                    ),
        {
            let isid: u32 = pairs[i].isid;
            proof {
                let b = pairs@[i as int];
                assert(pairs@.contains(b));
                let id = choose|id: NodeId| #[trigger]
                    self.nodes@.contains_key(id) && node_lists_on(self.nodes@[id], b.isid, b.base_vid, Role::Any);
                assert(node_lists(self.nodes@[id], b.isid, Role::Any));
            }
            map.insert(isid, select_nodes(&self.nodes, Selector::Lists(isid, Role::Any)));
        }
        proof {
            assert forall|isid: u32| isid_set(self.nodes@).contains(isid) implies map@.contains_key(isid) by {
                let id = choose|id: NodeId| #[trigger]
                    self.nodes@.contains_key(id) && node_lists(self.nodes@[id], isid, Role::Any);
                let node = self.nodes@[id];
                let k = choose|k: int| 0 <= k < node.services@.len() && service_lists(#[trigger] node.services@[k], isid, Role::Any);
                let b = IsidBinding { isid, base_vid: node.services@[k].base_vid };
                assert(node_lists_on(node, b.isid, b.base_vid, Role::Any));
                assert(bindings(self.nodes@).contains(b));
                assert(pairs@.to_set().contains(b));
                let j = choose|j: int| 0 <= j < pairs@.len() && pairs@[j] == b;
            }
            assert(map@.dom() =~= isid_set(self.nodes@));
        }
        map
    }

    /// Detects SPSourceID collisions.
    ///
    /// RFC 6329, Section 14.1: an explicitly configured SPSourceID must be
    /// unique, and on collision "the bridge with the highest priority Bridge
    /// Identifier will win conflicts". The returned map gives, per colliding
    /// SPSourceID, the nodes that lose the conflict and must reallocate.
    pub fn spsource_id_conflicts(&self) -> (map: OrdMap<u32, Vec<NodeId>>)
        ensures
            forall|id: u32| #[trigger]
                map@.contains_key(id) <==> id != SPSOURCE_ID_UNASSIGNED && selected(self.nodes@, Selector::Uses(id)).len() > 1,
            forall|id: u32| #[trigger] map@.contains_key(id) ==> are_losers(self.nodes@, id, map@[id]@),
    {
        let keys = self.nodes.keys();
        let mut map: OrdMap<u32, Vec<NodeId>> = OrdMap::new();
        let ghost nodes = self.nodes@;
        for i in 0..keys.len()
            invariant
                nodes == self.nodes@,
                forall|j: int| 0 <= j < keys@.len() ==> nodes.contains_key(#[trigger] keys@[j]),
                forall|id: u32| #[trigger]
                    map@.contains_key(id) ==> id != SPSOURCE_ID_UNASSIGNED && selected(nodes, Selector::Uses(id)).len() > 1
                        && are_losers(nodes, id, map@[id]@),
                forall|j: int|
                    0 <= j < i && nodes[#[trigger] keys@[j]].spsource_id != SPSOURCE_ID_UNASSIGNED && selected(
                        nodes,
                        Selector::Uses(nodes[keys@[j]].spsource_id),
                    ).len() > 1 ==> map@.contains_key(nodes[keys@[j]].spsource_id),
        {
            assert(nodes.contains_key(keys@[i as int]));
            if let Some(node) = self.nodes.get(&keys[i]) {
                let id: u32 = node.spsource_id;
                if id != SPSOURCE_ID_UNASSIGNED && !map.contains_key(&id) {
                    let holders = select_nodes(&self.nodes, Selector::Uses(id));
                    proof {
                        lemma_ordered_len(holders@);
                    }
                    if holders.len() > 1 {
                        let losers = losers_of(&self.nodes, &holders, Ghost(id));
                        map.insert(id, losers);
                    }
                }
            }
        }
        proof {
            assert forall|id: u32|
                id != SPSOURCE_ID_UNASSIGNED && selected(nodes, Selector::Uses(id)).len() > 1 implies map@.contains_key(id) by {
                let holders = selected(nodes, Selector::Uses(id));
                let n = holders.choose();
                assert(holders.contains(n));
                assert(keys@.to_set().contains(n));
                let j = choose|j: int| 0 <= j < keys@.len() && keys@[j] == n;
                assert(nodes[keys@[j]].spsource_id == id);
            }
        }
        map
    }
}

/// Adds the (I-SID, Base VID) pairs that a node advertises.
fn add_bindings(node: &NodeView, found: &mut OrdSet<IsidBinding>)
    ensures
        final(found)@ == old(found)@.union(node_bindings(*node)),
{
    let ghost before = found@;
    for i in 0..node.services.len()
        invariant
            forall|b: IsidBinding| before.contains(b) ==> found@.contains(b),
            forall|b: IsidBinding| found@.contains(b) ==> before.contains(b) || node_bindings(*node).contains(b),
            forall|k: int, isid: u32|
                0 <= k < i && #[trigger] service_lists(node.services@[k], isid, Role::Any) ==> found@.contains(
                    (IsidBinding { isid, base_vid: node.services@[k].base_vid }),
                ),
    {
        let svc = &node.services[i];
        for j in 0..svc.isids.len()
            invariant
                0 <= i < node.services@.len(),
                *svc == node.services@[i as int],
                forall|b: IsidBinding| before.contains(b) ==> found@.contains(b),
                forall|b: IsidBinding| found@.contains(b) ==> before.contains(b) || node_bindings(*node).contains(b),
                forall|k: int, isid: u32|
                    0 <= k < i && #[trigger] service_lists(node.services@[k], isid, Role::Any) ==> found@.contains(
                        (IsidBinding { isid, base_vid: node.services@[k].base_vid }),
                    ),
                forall|k: int|
                    0 <= k < j ==> found@.contains(
                        (IsidBinding { isid: (#[trigger] svc.isids@[k]).isid, base_vid: svc.base_vid }),
                    ),
        {
            let b = IsidBinding { isid: svc.isids[j].isid, base_vid: svc.base_vid };
            assert(service_lists(*svc, b.isid, Role::Any)) by {
                assert(svc.isids@[j as int].isid == b.isid);
            }
            assert(node_lists_on(*node, b.isid, b.base_vid, Role::Any));
            found.insert(b);
        }
    }
    proof {
        assert forall|b: IsidBinding| node_bindings(*node).contains(b) implies found@.contains(b) by {
            let k = choose|k: int|
                0 <= k < node.services@.len() && (#[trigger] node.services@[k]).base_vid == b.base_vid && service_lists(
                    node.services@[k],
                    b.isid,
                    Role::Any,
                );
            assert(service_lists(node.services@[k], b.isid, Role::Any));
        }
        assert(found@ =~= before.union(node_bindings(*node)));
    }
}

/// Inserting into a sequence adds one element to its set.
proof fn lemma_insert_set(q: Seq<NodeId>, pos: int, id: NodeId)
    requires
        0 <= pos <= q.len(),
    ensures
        q.insert(pos, id).to_set() == q.to_set().insert(id),
{
    let r = q.insert(pos, id);
    assert(r[pos] == id);
    assert forall|k: NodeId| q.to_set().contains(k) implies r.to_set().contains(k) by {
        let x = choose|x: int| 0 <= x < q.len() && q[x] == k;
        assert(r[if x < pos { x } else { x + 1 }] == k);
    }
    assert forall|k: NodeId| r.to_set().contains(k) && k != id implies q.to_set().contains(k) by {
        let x = choose|x: int| 0 <= x < r.len() && r[x] == k;
        assert(q[if x < pos { x } else { x - 1 }] == k);
    }
    assert(r.to_set() =~= q.to_set().insert(id));
}

/// Inserting a node behind those of higher priority keeps the order.
proof fn lemma_priority_insert(nodes: Map<NodeId, NodeView>, q: Seq<NodeId>, pos: int, id: NodeId)
    requires
        by_priority(nodes, q),
        0 <= pos <= q.len(),
        !q.contains(id),
        forall|j: int| 0 <= j < pos ==> bridge_rank(nodes, #[trigger] q[j]) < bridge_rank(nodes, id),
        pos < q.len() ==> bridge_rank(nodes, id) <= bridge_rank(nodes, q[pos]),
    ensures
        by_priority(nodes, q.insert(pos, id)),
        q.insert(pos, id).to_set() == q.to_set().insert(id),
{
    lemma_insert_set(q, pos, id);
    if pos < q.len() && bridge_rank(nodes, q[pos]) == bridge_rank(nodes, id) {
        lemma_bridge_rank_distinct(nodes, q[pos], id);
    }
    let r = q.insert(pos, id);
    assert forall|a: int, b: int| 0 <= a < b < r.len() implies bridge_rank(nodes, #[trigger] r[a]) < bridge_rank(
        nodes,
        #[trigger] r[b],
    ) by {
        let x = if a < pos { a } else { a - 1 };
        let y = if b < pos { b } else { b - 1 };
        if a == pos {
            assert(y == pos || bridge_rank(nodes, q[pos]) < bridge_rank(nodes, q[y]));
        } else if b == pos {
            assert(bridge_rank(nodes, q[x]) < bridge_rank(nodes, id));
        } else {
            assert(bridge_rank(nodes, q[x]) < bridge_rank(nodes, q[y]));
        }
    }
}

/// Sorts the holders of an SPSourceID by BridgeID and drops the first, which
/// keeps the value.
fn losers_of(nodes: &OrdMap<NodeId, NodeView>, holders: &Vec<NodeId>, id: Ghost<u32>) -> (losers: Vec<NodeId>)
    requires
        holders@.len() > 0,
        is_ordered(holders@),
        holders@.to_set() == selected(nodes@, Selector::Uses(id@)),
        forall|i: int| 0 <= i < holders@.len() ==> nodes@.contains_key(#[trigger] holders@[i]),
    ensures
        are_losers(nodes@, id@, losers@),
{
    let mut sorted: Vec<NodeId> = Vec::new();
    for i in 0..holders.len()
        invariant
            is_ordered(holders@),
            forall|j: int| 0 <= j < holders@.len() ==> nodes@.contains_key(#[trigger] holders@[j]),
            by_priority(nodes@, sorted@),
            sorted@.len() == i,
            sorted@.to_set() == holders@.take(i as int).to_set(),
            forall|j: int| 0 <= j < sorted@.len() ==> nodes@.contains_key(#[trigger] sorted@[j]),
    {
        let ghost before = sorted@;
        let id = holders[i];
        let rank: u64 = priority_of(nodes, id);
        let mut pos: usize = 0;
        while pos < sorted.len() && priority_of(nodes, sorted[pos]) < rank
            invariant
                sorted@ == before,
                by_priority(nodes@, before),
                0 <= pos <= sorted@.len(),
                rank == bridge_rank(nodes@, id),
                forall|j: int| 0 <= j < sorted@.len() ==> nodes@.contains_key(#[trigger] sorted@[j]),
                forall|j: int| 0 <= j < pos ==> bridge_rank(nodes@, #[trigger] sorted@[j]) < rank,
            ensures
                pos < sorted@.len() ==> rank <= bridge_rank(nodes@, sorted@[pos as int]),
            decreases sorted@.len() - pos,
        {
            pos = pos + 1;
        }
        sorted.insert(pos, id);
        proof {
            let taken = holders@.take(i as int);
            assert(rank == bridge_rank(nodes@, id));
            assert(!before.contains(id)) by {
                if before.contains(id) {
                    assert(before.to_set().contains(id));
                    let j = choose|j: int| 0 <= j < taken.len() && taken[j] == id;
                    assert(holders@[j].ordinal() < holders@[i as int].ordinal());
                }
            }
            lemma_priority_insert(nodes@, before, pos as int, id);
            assert(holders@.take(i + 1) =~= taken.push(id));
            lemma_insert_set(taken, i as int, id);
            assert(taken.push(id) =~= taken.insert(i as int, id));
            assert forall|j: int| 0 <= j < sorted@.len() implies nodes@.contains_key(#[trigger] sorted@[j]) by {
                if j != pos {
                    assert(sorted@[j] == before[if j < pos { j } else { j - 1 }]);
                }
            }
        }
    }
    let ghost all = sorted@;
    let winner = sorted.remove(0);
    proof {
        assert(holders@.take(holders@.len() as int) =~= holders@);
        assert(seq![winner] + sorted@ =~= all);
    }
    sorted
}

/// Distinct nodes have distinct ranks.
proof fn lemma_bridge_rank_distinct(nodes: Map<NodeId, NodeView>, a: NodeId, b: NodeId)
    requires
        bridge_rank(nodes, a) == bridge_rank(nodes, b),
    ensures
        a == b,
{
    lemma_eight_bytes_injective(bridge_id(nodes, a).0, bridge_id(nodes, b).0);
    lemma_bridge_id_distinct(nodes[a].bridge_priority, a, nodes[b].bridge_priority, b);
}

/// Returns the number that a node's BridgeID is ordered by.
fn priority_of(nodes: &OrdMap<NodeId, NodeView>, id: NodeId) -> (rank: u64)
    requires
        nodes@.contains_key(id),
    ensures
        rank == bridge_rank(nodes@, id),
{
    match nodes.get(&id) {
        Some(node) => {
            let bridge_id = BridgeId::new(node.bridge_priority, id.as_bytes());
            eight_bytes_value(&bridge_id.0)
        },
        None => 0,
    }
}

} // verus!
