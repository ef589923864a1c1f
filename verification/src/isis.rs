//! The boundary between IS-IS and SPB computation.
//!
//! IS-IS owns the LSDB and the configuration. This module turns both into a
//! [`TopologyView`], runs the computation, and keeps the results for
//! northbound state and for programming the dataplane.

use vstd::prelude::*;
use vstd::string::StringSliceAdditionalSpecFns;

use crate::dataplane::{views, DataplaneUpdate, NodeIdentity};
use crate::diff::contents;
use crate::digest::{
    agreement_between, digest_input, evaluate, hmac_sha256, pairs_of, same_links_same_edges, same_node_shape, same_shape,
    same_shape_same_region, Agreement, AgreementDigest, HoloLocalDigest, LocalAgreement,
    NeighborAgreement, RootKey, UnsafeTrees, AGREEMENT_MODULUS,
};
use crate::ect::{EctAlgorithm, ECT_ALG_DEFAULT, ECT_INDEX_MAX, ECT_INDEX_MIN, ECT_OUI_IEEE8021};
use crate::fdb::{
    applied, delta_applies, delta_between, delta_empty_iff_same, delta_len, empty_state, fdb_is_determined, fdb_is_finite, is_fdb_of, lookup,
    snapshot_applies, snapshot_of, DeltaState, Fdb, FdbDelta, FdbState, MulticastKey,
};
use crate::mac::{lemma_mac_ordinal_bound, MacAddr};
use crate::node::NodeId;
use crate::ordmap::{is_ordered, lemma_push_set, ordered, Key, OrdMap, OrdSet};
use crate::region::region_in;
use crate::stlv::{IsidEntry, SpbInstStlv, SpbMetricStlv, SpbmSiStlv, VlanIdTuple};
use crate::topology::{
    node_lists, service_lists, EctVid, IsidMembership, LinkFacts, LinkView, NodeFacts, NodeView, Role, ServiceFacts, ServiceView, SpbInstanceView,
    TopologyView,
};
use crate::tree::{is_tree_of, kept_keys, root_set, skipped_keys, trees_agree, wanted_keys, SpbTree, TreeKey, TreeSet};

verus! {

/// Upper bound on the number of trees computed per SPB instance.
///
/// The work is |B-VID| x |multicast transmitters|, which is bounded in
/// practice but not by anything structural, so a cap keeps a
/// misconfiguration from stalling the instance. Exceeding it is reported as
/// state rather than silently degrading forwarding.
pub const MAX_TREES: usize = 4096;

/// The MT-ID of the standard topology.
pub const MT_STANDARD: u16 = 0;

// ===== what IS-IS hands over =====

/// The configuration of one tree set.
#[derive(Clone, Copy, Debug, Eq, PartialEq)]
pub struct SpbTreeConfig {
    /// Index of the ECT-ALGORITHM.
    pub algorithm: u8,
    pub spvid: Option<u16>,
    pub multicast: bool,
}

/// How this node takes part in an I-SID.
#[derive(Clone, Copy, Debug, Eq, PartialEq)]
pub struct IsidConfig {
    pub transmit: bool,
    pub receive: bool,
}

/// Identifies a service that this node offers.
#[derive(Clone, Copy, Debug, Eq, Ord, PartialEq, PartialOrd)]
pub struct SpbServiceKey {
    pub bmac: MacAddr,
    pub base_vid: u16,
}

impl Key for SpbServiceKey {
    /// Services are ordered by B-MAC, then by Base VID.
    open spec fn ordinal(self) -> nat {
        (self.bmac.ordinal() * 0x1_0000 + self.base_vid) as nat
    }

    proof fn ordinal_injective(a: Self, b: Self) {
        lemma_service_parts(a.bmac.ordinal() as int, a.base_vid as int, b.bmac.ordinal() as int, b.base_vid as int);
        MacAddr::ordinal_injective(a.bmac, b.bmac);
    }

    fn ordinal_value(&self) -> (value: u128) {
        proof {
            lemma_mac_ordinal_bound(self.bmac);
        }
        self.bmac.ordinal_value() * 0x1_0000 + self.base_vid as u128
    }
}

proof fn lemma_service_parts(a: int, b: int, x: int, y: int)
    requires
        0 <= b < 0x1_0000,
        0 <= y < 0x1_0000,
        a * 0x1_0000 + b == x * 0x1_0000 + y,
    ensures
        a == x,
        b == y,
{
}

/// A service that this node offers.
#[derive(Debug)]
pub struct SpbServiceConfig {
    pub isids: OrdMap<u32, IsidConfig>,
}

/// The SPB configuration of an instance.
#[derive(Debug)]
pub struct SpbConfig {
    pub system_id: [u8; 6],
    pub enabled: bool,
    pub dataplane_enabled: bool,
    pub bridge_priority: u16,
    /// `None` while an automatic allocation is pending.
    pub spsource_id: Option<u32>,
    pub spsource_id_auto: bool,
    /// Tree sets, by Base VID.
    pub trees: OrdMap<u16, SpbTreeConfig>,
    /// Services, by B-MAC and Base VID.
    pub services: OrdMap<SpbServiceKey, SpbServiceConfig>,
}

/// The side of the node that an interface faces.
#[derive(Clone, Copy, Debug, Eq, PartialEq, Structural)]
pub enum SpbInterfaceRole {
    Backbone,
    Customer,
}

/// An adjacency, as far as SPB is concerned.
#[derive(Debug)]
pub struct SpbAdjacency {
    pub system_id: [u8; 6],
    pub up: bool,
    pub spb_capable: bool,
    /// What the neighbour last told us in its SPB-Digest sub-TLV.
    pub agreement: Option<NeighborAgreement>,
}

/// An interface, as far as SPB is concerned.
#[derive(Debug)]
pub struct SpbInterface {
    pub name: String,
    pub enabled: bool,
    pub role: SpbInterfaceRole,
    pub passive: bool,
    /// Whether the interface has a running network task.
    pub running: bool,
    /// The services that a customer-facing interface is attached to.
    pub uni_isids: OrdSet<u32>,
    pub adjacencies: Vec<SpbAdjacency>,
}

/// An MT-Capability TLV, as far as SPB is concerned.
#[derive(Debug)]
pub struct MtCap {
    pub mt_id: u16,
    pub overload: bool,
    pub spb_inst: Option<SpbInstStlv>,
    pub spbm_si: Vec<SpbmSiStlv>,
}

/// An entry of an Extended IS Reachability TLV.
#[derive(Debug)]
pub struct IsReach {
    pub neighbor: [u8; 6],
    pub spb_metric: Option<SpbMetricStlv>,
}

/// An Extended IS Reachability TLV.
#[derive(Debug)]
pub struct IsReachTlv {
    pub list: Vec<IsReach>,
}

/// An LSP, as far as SPB is concerned.
#[derive(Debug)]
pub struct Lsp {
    pub system_id: [u8; 6],
    pub is_pseudonode: bool,
    pub fragment: u8,
    pub mt_cap: Vec<MtCap>,
    pub ext_is_reach: Vec<IsReachTlv>,
}

/// SPB computation results held per instance.
#[derive(Debug)]
pub struct SpbState {
    /// The most recent topology view.
    pub view: Option<TopologyView>,
    /// Computed trees, keyed by (MT-ID, B-VID, algorithm, root).
    pub trees: TreeSet,
    /// The forwarding state derived from those trees.
    pub fdb: Fdb,
    /// Trees that could not be computed because [`MAX_TREES`] was reached.
    pub trees_skipped: usize,
    /// Our side of the agreement exchange with neighbours.
    pub agreement: LocalAgreement,
    /// Trees whose multicast state is withheld until agreement is reached:
    /// those whose distance to the root has changed since every neighbour last
    /// agreed.
    pub unsafe_trees: UnsafeTrees,
    /// The number of multicast entries that the last computation withheld.
    pub withheld: usize,
    /// Whether every SPB adjacency is currently in agreement.
    ///
    /// Evaluated anew as Hellos arrive, so that the hold ends as soon as
    /// neighbours confirm they see the same topology.
    pub agreed_adjacencies: bool,
    /// Set when the digest changes, so the Hello tasks can be restarted.
    ///
    /// A Hello is built once and re-sent on a timer, so a digest that
    /// changed after the task started would otherwise be advertised stale
    /// forever.
    pub hello_refresh_pending: bool,
    /// Monotonic generation, incremented on every change to `fdb`.
    pub generation: u64,
}

impl SpbState {
    /// Nothing has been computed yet.
    pub open spec fn is_initial(self) -> bool {
        &&& self.view is None
        &&& self.trees@ == Map::<TreeKey, SpbTree>::empty()
        &&& self.fdb@ == empty_state()
        &&& self.trees_skipped == 0
        &&& self.agreement.digest@ == Seq::<u8>::empty()
        &&& self.agreement.agreement == 0
        &&& self.agreement.discarded == 0
        &&& !self.agreement.valid
        &&& self.unsafe_trees@ == Set::<RootKey>::empty()
        &&& !self.agreed_adjacencies
        &&& !self.hello_refresh_pending
        &&& self.generation == 0
        &&& self.withheld == 0
    }
}

impl Default for SpbState {
    fn default() -> (state: Self)
        ensures
            state.is_initial(),
    {
        SpbState {
            view: None,
            trees: TreeSet::default(),
            fdb: Fdb::default(),
            trees_skipped: 0,
            agreement: LocalAgreement::default(),
            unsafe_trees: UnsafeTrees::default(),
            agreed_adjacencies: false,
            hello_refresh_pending: false,
            generation: 0,
            withheld: 0,
        }
    }
}

/// Returns the System ID of a node.
pub fn node_id(system_id: [u8; 6]) -> (id: NodeId)
    ensures
        id == NodeId::of(system_id@),
        id@ == system_id@,
{
    NodeId::new(system_id)
}

// ===== the local node =====

/// The ECT-ALGORITHM of a configured index; the default one if there is none.
pub open spec fn configured_algorithm(index: u8) -> EctAlgorithm {
    if ECT_INDEX_MIN <= index <= ECT_INDEX_MAX {
        EctAlgorithm((ECT_OUI_IEEE8021 * 0x100 + index) as u32)
    } else {
        EctAlgorithm(ECT_ALG_DEFAULT)
    }
}

/// A tree set from its configuration.
pub open spec fn configured_ect_vid(base_vid: u16, cfg: SpbTreeConfig) -> EctVid {
    EctVid {
        base_vid,
        algorithm: configured_algorithm(cfg.algorithm),
        spvid: cfg.spvid,
        multicast: cfg.multicast,
    }
}

/// The tree sets that a node is configured to operate, by Base VID.
pub open spec fn configured_ect_vids(config: SpbConfig) -> Seq<EctVid> {
    ordered(config.trees@.dom()).map_values(|vid: u16| configured_ect_vid(vid, config.trees@[vid]))
}

/// A service from its configuration.
pub open spec fn configured_service(key: SpbServiceKey, svc: SpbServiceConfig) -> ServiceFacts {
    ServiceFacts {
        bmac: key.bmac@,
        base_vid: key.base_vid,
        isids: ordered(svc.isids@.dom()).map_values(
            |isid: u32| IsidMembership { isid, transmit: svc.isids@[isid].transmit, receive: svc.isids@[isid].receive },
        ),
    }
}

/// The services that a node is configured to offer, by B-MAC and Base VID.
pub open spec fn configured_services(config: SpbConfig) -> Seq<ServiceFacts> {
    ordered(config.services@.dom()).map_values(|key: SpbServiceKey| configured_service(key, config.services@[key]))
}

/// The SPSourceID that is advertised. Zero is advertised while an
/// auto-allocated one is still pending, which is exactly what RFC 6329
/// reserves the value for.
pub open spec fn advertised_spsource_id(config: SpbConfig) -> u32 {
    match config.spsource_id {
        Some(id) => id,
        None => 0,
    }
}

/// The local node from its configuration.
pub open spec fn configured_node(config: SpbConfig) -> NodeFacts {
    NodeFacts {
        bridge_priority: config.bridge_priority,
        spsource_id: advertised_spsource_id(config),
        spsource_id_auto: config.spsource_id_auto,
        overload: false,
        ect_vids: configured_ect_vids(config),
        services: configured_services(config),
    }
}

/// Returns the tree sets this node is configured to operate.
pub fn local_ect_vids(config: &SpbConfig) -> (ect_vids: Vec<EctVid>)
    ensures
        ect_vids@ == configured_ect_vids(*config),
        ect_vids@.len() == config.trees@.dom().len(),
{
    let vids = config.trees.keys();
    let mut ect_vids: Vec<EctVid> = Vec::new();
    for i in 0..vids.len()
        invariant
            forall|j: int| 0 <= j < vids@.len() ==> config.trees@.contains_key(#[trigger] vids@[j]),
            ect_vids@.len() == i,
            forall|j: int|
                0 <= j < i ==> #[trigger] ect_vids@[j] == configured_ect_vid(vids@[j], config.trees@[vids@[j]]),
    {
        assert(config.trees@.contains_key(vids@[i as int]));
        if let Some(cfg) = config.trees.get(&vids[i]) {
            let algorithm = match EctAlgorithm::from_index(cfg.algorithm) {
                Some(algorithm) => algorithm,
                None => EctAlgorithm(ECT_ALG_DEFAULT),
            };
            assert(algorithm.0 == configured_algorithm(cfg.algorithm).0);
            ect_vids.push(EctVid { base_vid: vids[i], algorithm, spvid: cfg.spvid, multicast: cfg.multicast });
        }
    }
    assert(ect_vids@ =~= configured_ect_vids(*config));
    ect_vids
}

/// Returns the services that this node offers.
fn local_services(config: &SpbConfig) -> (services: Vec<ServiceView>)
    ensures
        services@.map_values(|svc: ServiceView| svc@) == configured_services(*config),
{
    let offered = config.services.keys();
    let mut services: Vec<ServiceView> = Vec::new();
    for i in 0..offered.len()
        invariant
            forall|j: int| 0 <= j < offered@.len() ==> config.services@.contains_key(#[trigger] offered@[j]),
            services@.len() == i,
            forall|j: int|
                0 <= j < i ==> (#[trigger] services@[j])@ == configured_service(offered@[j], config.services@[offered@[j]]),
    {
        let key = offered[i];
        assert(config.services@.contains_key(offered@[i as int]));
        if let Some(svc) = config.services.get(&key) {
            let isids = local_memberships(&svc.isids);
            assert(isids@ =~= configured_service(key, *svc).isids);
            services.push(ServiceView { bmac: key.bmac, base_vid: key.base_vid, isids });
        }
    }
    assert(services@.map_values(|svc: ServiceView| svc@) =~= configured_services(*config));
    services
}

/// Returns how this node takes part in the I-SIDs of a service.
fn local_memberships(configs: &OrdMap<u32, IsidConfig>) -> (isids: Vec<IsidMembership>)
    ensures
        isids@ == ordered(configs@.dom()).map_values(
            |isid: u32| IsidMembership { isid, transmit: configs@[isid].transmit, receive: configs@[isid].receive },
        ),
{
    let keys = configs.keys();
    let mut isids: Vec<IsidMembership> = Vec::new();
    for k in 0..keys.len()
        invariant
            forall|j: int| 0 <= j < keys@.len() ==> configs@.contains_key(#[trigger] keys@[j]),
            isids@.len() == k,
            forall|j: int|
                0 <= j < k ==> #[trigger] isids@[j] == (IsidMembership {
                    isid: keys@[j],
                    transmit: configs@[keys@[j]].transmit,
                    receive: configs@[keys@[j]].receive,
                }),
    {
        assert(configs@.contains_key(keys@[k as int]));
        if let Some(cfg) = configs.get(&keys[k]) {
            isids.push(IsidMembership { isid: keys[k], transmit: cfg.transmit, receive: cfg.receive });
        }
    }
    assert(isids@ =~= ordered(configs@.dom()).map_values(
        |isid: u32| IsidMembership { isid, transmit: configs@[isid].transmit, receive: configs@[isid].receive },
    ));
    isids
}

/// Describes the local node from its own configuration.
pub fn local_node_view(config: &SpbConfig) -> (node: NodeView)
    ensures
        node@ == configured_node(*config),
{
    NodeView {
        bridge_priority: config.bridge_priority,
        spsource_id: match config.spsource_id {
            Some(id) => id,
            None => 0,
        },
        spsource_id_auto: config.spsource_id_auto,
        overload: false,
        ect_vids: local_ect_vids(config),
        services: local_services(config),
    }
}

// ===== other nodes =====

/// A tree set from a VLAN-ID tuple. The SPVID counts only if it is allocated.
pub open spec fn advertised_ect_vid(tuple: VlanIdTuple) -> EctVid {
    EctVid {
        base_vid: tuple.base_vid,
        algorithm: EctAlgorithm(tuple.ect_algorithm),
        spvid: if tuple.flags.a {
            Some(tuple.spvid)
        } else {
            None
        },
        multicast: tuple.flags.m,
    }
}

/// A membership from an I-SID entry.
pub open spec fn advertised_membership(entry: IsidEntry) -> IsidMembership {
    IsidMembership { isid: entry.isid, transmit: entry.flags.t, receive: entry.flags.r }
}

/// A service from an SPBM-SI.
pub open spec fn advertised_service(stlv: SpbmSiStlv) -> ServiceFacts {
    ServiceFacts {
        bmac: stlv.bmac@,
        base_vid: stlv.base_vid,
        isids: stlv.isid_entries@.map_values(|entry: IsidEntry| advertised_membership(entry)),
    }
}

/// A node from its MT-Capability TLV and the SPB-Inst in it.
pub open spec fn advertised_node(cap: MtCap, inst: SpbInstStlv) -> NodeFacts {
    NodeFacts {
        bridge_priority: inst.bridge_priority,
        spsource_id: inst.spsource_id,
        spsource_id_auto: inst.spsource_id_auto,
        overload: cap.overload,
        ect_vids: inst.vlan_id_tuples@.map_values(|tuple: VlanIdTuple| advertised_ect_vid(tuple)),
        services: cap.spbm_si@.map_values(|stlv: SpbmSiStlv| advertised_service(stlv)),
    }
}

/// What the last MT-Capability TLV of a list that holds an SPB-Inst for the
/// standard topology says. Without SPB-Inst a node is not an SPB participant.
pub open spec fn facts_in(caps: Seq<MtCap>) -> Option<NodeFacts>
    decreases caps.len(),
{
    if caps.len() == 0 {
        None
    } else {
        match caps.last().spb_inst {
            Some(inst) if caps.last().mt_id == MT_STANDARD => Some(advertised_node(caps.last(), inst)),
            _ => facts_in(caps.drop_last()),
        }
    }
}

/// What the last LSP of a list that describes a node says of it. Only
/// fragment zero carries SPB-Inst, and pseudonode LSPs never do.
pub open spec fn described(lsps: Seq<Lsp>, id: NodeId) -> Option<NodeFacts>
    decreases lsps.len(),
{
    if lsps.len() == 0 {
        None
    } else {
        let lsp = lsps.last();
        match facts_in(lsp.mt_cap@) {
            Some(facts) if lsp.fragment == 0 && !lsp.is_pseudonode && NodeId::of(lsp.system_id@) == id => Some(facts),
            _ => described(lsps.drop_last(), id),
        }
    }
}

/// What is known of a node: of the local one from configuration, and of others
/// from their LSPs.
///
/// The local node is described from configuration rather than by parsing its
/// own LSP back. Reading it from the LSDB would make SPB state lag LSP
/// origination.
pub open spec fn known_facts(config: SpbConfig, lsps: Seq<Lsp>, id: NodeId) -> Option<NodeFacts> {
    if id == NodeId::of(config.system_id@) {
        Some(configured_node(config))
    } else {
        described(lsps, id)
    }
}

/// `nodes` holds what is known of every node.
pub open spec fn knows(nodes: Map<NodeId, NodeView>, config: SpbConfig, lsps: Seq<Lsp>) -> bool {
    &&& forall|id: NodeId| #[trigger] nodes.contains_key(id) <==> known_facts(config, lsps, id) is Some
    &&& forall|id: NodeId| #[trigger] nodes.contains_key(id) ==> known_facts(config, lsps, id) == Some(nodes[id]@)
}

/// The links that a list of reachability entries from one node gives rise to:
/// those with an SPB-Metric. "If this sub-TLV is not present for an IS-IS
/// adjacency, then that adjacency Must not carry SPB traffic."
pub open spec fn reach_links(from: NodeId, list: Seq<IsReach>) -> Seq<LinkFacts>
    decreases list.len(),
{
    if list.len() == 0 {
        Seq::empty()
    } else {
        let before = reach_links(from, list.drop_last());
        match list.last().spb_metric {
            Some(stlv) => before.push(
                LinkFacts {
                    from,
                    to: NodeId::of(list.last().neighbor@),
                    metric: Some(stlv.metric),
                    port_ids: stlv.port_ids@,
                },
            ),
            None => before,
        }
    }
}

/// The links that a list of reachability TLVs from one node gives rise to.
pub open spec fn tlv_links(from: NodeId, tlvs: Seq<IsReachTlv>) -> Seq<LinkFacts>
    decreases tlvs.len(),
{
    if tlvs.len() == 0 {
        Seq::empty()
    } else {
        tlv_links(from, tlvs.drop_last()) + reach_links(from, tlvs.last().list@)
    }
}

/// The links that a list of LSPs gives rise to: those of SPB participants,
/// from all fragments.
pub open spec fn lsp_links(nodes: Set<NodeId>, lsps: Seq<Lsp>) -> Seq<LinkFacts>
    decreases lsps.len(),
{
    if lsps.len() == 0 {
        Seq::empty()
    } else {
        let lsp = lsps.last();
        let from = NodeId::of(lsp.system_id@);
        let before = lsp_links(nodes, lsps.drop_last());
        if !lsp.is_pseudonode && nodes.contains(from) {
            before + tlv_links(from, lsp.ext_is_reach@)
        } else {
            before
        }
    }
}

/// `view` is the topology that a configuration and the LSDB describe.
pub open spec fn is_view_of(view: TopologyView, config: SpbConfig, lsps: Seq<Lsp>) -> bool {
    &&& view.local == NodeId::of(config.system_id@)
    &&& view.instances@.dom() == set![MT_STANDARD]
    &&& view.instances@[MT_STANDARD].mt_id == MT_STANDARD
    &&& view.instances@[MT_STANDARD].ect_vids@ == configured_ect_vids(config)
    &&& knows(view.nodes@, config, lsps)
    &&& views(view.links@) == lsp_links(view.nodes@.dom(), lsps)
}

/// Describes a node from its MT-Capability TLV and the SPB-Inst in it.
fn remote_node_view(cap: &MtCap, inst: &SpbInstStlv) -> (node: NodeView)
    ensures
        node@ == advertised_node(*cap, *inst),
{
    let mut ect_vids: Vec<EctVid> = Vec::new();
    for i in 0..inst.vlan_id_tuples.len()
        invariant
            ect_vids@.len() == i,
            forall|j: int| 0 <= j < i ==> #[trigger] ect_vids@[j] == advertised_ect_vid(inst.vlan_id_tuples@[j]),
    {
        let tuple = &inst.vlan_id_tuples[i];
        ect_vids.push(
            EctVid {
                base_vid: tuple.base_vid,
                algorithm: EctAlgorithm(tuple.ect_algorithm),
                spvid: if tuple.flags.a {
                    Some(tuple.spvid)
                } else {
                    None
                },
                multicast: tuple.flags.m,
            },
        );
    }
    let mut services: Vec<ServiceView> = Vec::new();
    for i in 0..cap.spbm_si.len()
        invariant
            services@.len() == i,
            forall|j: int| 0 <= j < i ==> (#[trigger] services@[j])@ == advertised_service(cap.spbm_si@[j]),
    {
        let stlv = &cap.spbm_si[i];
        let mut isids: Vec<IsidMembership> = Vec::new();
        for k in 0..stlv.isid_entries.len()
            invariant
                isids@.len() == k,
                forall|j: int| 0 <= j < k ==> #[trigger] isids@[j] == advertised_membership(stlv.isid_entries@[j]),
        {
            let entry = &stlv.isid_entries[k];
            isids.push(IsidMembership { isid: entry.isid, transmit: entry.flags.t, receive: entry.flags.r });
        }
        assert(isids@ =~= advertised_service(*stlv).isids);
        services.push(ServiceView { bmac: MacAddr::new(stlv.bmac), base_vid: stlv.base_vid, isids });
    }
    let node = NodeView {
        bridge_priority: inst.bridge_priority,
        spsource_id: inst.spsource_id,
        spsource_id_auto: inst.spsource_id_auto,
        overload: cap.overload,
        ect_vids,
        services,
    };
    proof {
        let facts = advertised_node(*cap, *inst);
        assert(node@.ect_vids =~= facts.ect_vids);
        assert(node@.services =~= facts.services);
    }
    node
}

/// Returns what the last MT-Capability TLV of a list that holds an SPB-Inst
/// for the standard topology says.
fn node_in(caps: &Vec<MtCap>) -> (node: Option<NodeView>)
    ensures
        match node {
            Some(n) => facts_in(caps@) == Some(n@),
            None => facts_in(caps@) is None,
        },
{
    let mut left: usize = caps.len();
    assert(caps@.take(caps@.len() as int) =~= caps@);
    while left > 0
        invariant
            left <= caps@.len(),
            facts_in(caps@) == facts_in(caps@.take(left as int)),
        decreases left,
    {
        left = left - 1;
        let ghost now = caps@.take(left + 1);
        assert(now.last() == caps@[left as int]);
        assert(now.drop_last() =~= caps@.take(left as int));
        let cap = &caps[left];
        if cap.mt_id == MT_STANDARD {
            if let Some(inst) = &cap.spb_inst {
                return Some(remote_node_view(cap, inst));
            }
        }
    }
    None
}

/// Appends the links that a list of reachability entries gives rise to.
fn push_reach_links(links: &mut Vec<LinkView>, from: NodeId, list: &Vec<IsReach>)
    ensures
        views(final(links)@) == views(old(links)@) + reach_links(from, list@),
{
    let ghost before = views(links@);
    assert(before + reach_links(from, list@.take(0)) =~= before);
    for i in 0..list.len()
        invariant
            views(links@) == before + reach_links(from, list@.take(i as int)),
    {
        let ghost was = links@;
        let ghost now = list@.take(i + 1);
        assert(now.last() == list@[i as int]);
        assert(now.drop_last() =~= list@.take(i as int));
        let reach = &list[i];
        if let Some(stlv) = &reach.spb_metric {
            let mut port_ids: Vec<u16> = Vec::new();
            for k in 0..stlv.port_ids.len()
                invariant
                    port_ids@.len() == k,
                    forall|j: int| 0 <= j < k ==> port_ids@[j] == stlv.port_ids@[j],
            {
                port_ids.push(stlv.port_ids[k]);
            }
            assert(port_ids@ =~= stlv.port_ids@);
            let link = LinkView { from, to: node_id(reach.neighbor), metric: Some(stlv.metric), port_ids };
            let ghost facts = link@;
            links.push(link);
            assert(views(links@) =~= views(was).push(facts));
            assert(views(links@) =~= before + reach_links(from, now));
        }
    }
    assert(list@.take(list@.len() as int) =~= list@);
}

/// Appends the links that a list of reachability TLVs gives rise to.
fn push_tlv_links(links: &mut Vec<LinkView>, from: NodeId, tlvs: &Vec<IsReachTlv>)
    ensures
        views(final(links)@) == views(old(links)@) + tlv_links(from, tlvs@),
{
    let ghost before = views(links@);
    assert(before + tlv_links(from, tlvs@.take(0)) =~= before);
    for i in 0..tlvs.len()
        invariant
            views(links@) == before + tlv_links(from, tlvs@.take(i as int)),
    {
        let ghost now = tlvs@.take(i + 1);
        assert(now.last() == tlvs@[i as int]);
        assert(now.drop_last() =~= tlvs@.take(i as int));
        push_reach_links(links, from, &tlvs[i].list);
        assert(views(links@) =~= before + tlv_links(from, now));
    }
    assert(tlvs@.take(tlvs@.len() as int) =~= tlvs@);
}

/// Builds the SPB topology view from the LSDB.
///
/// Only nodes advertising an SPB-Inst Sub-TLV take part, and only adjacencies
/// carrying an SPB-Metric Sub-TLV contribute links. Both directions of a link
/// are recorded so that an asymmetric metric advertisement stays visible to
/// the cost resolution rather than being reconciled here.
pub fn build_topology_view(config: &SpbConfig, lsps: &Vec<Lsp>) -> (view: TopologyView)
    ensures
        is_view_of(view, *config, lsps@),
        view.nodes@.dom().len() <= lsps@.len() + 1,
{
    let local = node_id(config.system_id);
    let mut instances: OrdMap<u16, SpbInstanceView> = OrdMap::new();
    instances.insert(MT_STANDARD, SpbInstanceView { mt_id: MT_STANDARD, ect_vids: local_ect_vids(config) });
    assert(instances@.dom() =~= set![MT_STANDARD]);

    let mut nodes: OrdMap<NodeId, NodeView> = OrdMap::new();
    nodes.insert(local, local_node_view(config));
    proof {
        nodes.lemma_finite();
        assert(nodes@.dom() =~= Set::empty().insert(local));
        assert(lsps@.take(0) =~= Seq::empty());
        assert forall|id: NodeId| #[trigger] nodes@.contains_key(id) <==> known_facts(*config, lsps@.take(0), id) is Some by {}
    }
    for i in 0..lsps.len()
        invariant
            local == NodeId::of(config.system_id@),
            knows(nodes@, *config, lsps@.take(i as int)),
            nodes@.dom().len() <= i + 1,
    {
        let lsp = &lsps[i];
        let ghost was = nodes@;
        let ghost now = lsps@.take(i + 1);
        let ghost earlier = lsps@.take(i as int);
        assert(now.last() == *lsp);
        assert(now.drop_last() =~= earlier);
        let id = node_id(lsp.system_id);
        let ghost mut entry: Option<NodeFacts> = None;
        if lsp.fragment == 0 && !lsp.is_pseudonode && !id.same(&local) {
            if let Some(node) = node_in(&lsp.mt_cap) {
                proof {
                    entry = Some(node@);
                    nodes.lemma_finite();
                }
                nodes.insert(id, node);
                proof {
                    assert(nodes@.dom() =~= was.dom().insert(id));
                }
            }
        }
        proof {
            assert forall|k: NodeId| #[trigger] nodes@.contains_key(k) <==> known_facts(*config, now, k) is Some by {
                assert(was.contains_key(k) <==> known_facts(*config, earlier, k) is Some);
            }
            assert forall|k: NodeId| #[trigger] nodes@.contains_key(k) implies known_facts(*config, now, k) == Some(
                nodes@[k]@,
            ) by {
                if entry is Some && k == id {
                    assert(known_facts(*config, now, k) == entry);
                } else {
                    assert(was.contains_key(k));
                    assert(known_facts(*config, earlier, k) == Some(was[k]@));
                }
            }
        }
    }
    assert(lsps@.take(lsps@.len() as int) =~= lsps@);

    // Collect links from every SPB participant's IS reachability TLVs.
    let mut links: Vec<LinkView> = Vec::new();
    assert(views(links@) =~= lsp_links(nodes@.dom(), lsps@.take(0)));
    for i in 0..lsps.len()
        invariant
            views(links@) == lsp_links(nodes@.dom(), lsps@.take(i as int)),
    {
        let lsp = &lsps[i];
        let ghost now = lsps@.take(i + 1);
        assert(now.last() == *lsp);
        assert(now.drop_last() =~= lsps@.take(i as int));
        let from = node_id(lsp.system_id);
        if !lsp.is_pseudonode && nodes.contains_key(&from) {
            push_tlv_links(&mut links, from, &lsp.ext_is_reach);
        }
    }
    assert(lsps@.take(lsps@.len() as int) =~= lsps@);
    TopologyView { local, instances, nodes, links }
}

// ===== unsettled trees =====

/// The distance of a node from the root of a tree of a set.
pub open spec fn distance(trees: Map<TreeKey, SpbTree>, key: TreeKey, node: NodeId) -> Option<u32> {
    if trees.contains_key(key) && trees[key].nodes@.contains_key(node) {
        Some(trees[key].nodes@[node].cost)
    } else {
        None
    }
}

/// The roots of those trees whose distance from the local node has changed.
pub open spec fn unsettled_roots(
    trees: Map<TreeKey, SpbTree>,
    previous: Map<TreeKey, SpbTree>,
    local: NodeId,
) -> Set<RootKey> {
    Set::new(
        |r: RootKey|
            exists|key: TreeKey| #[trigger]
                trees.contains_key(key) && key.base_vid == r.base_vid && key.root == r.root && distance(trees, key, local)
                    != distance(previous, key, local),
    )
}

/// Marks trees whose distance to the root changed since the last run.
///
/// Comparing against the previous computation is what identifies the trees
/// that have become unsettled; everything else may be programmed immediately,
/// unless it is still held back from before.
pub fn mark_unsafe_trees(trees: &TreeSet, previous: &TreeSet, local: NodeId) -> (marked: UnsafeTrees)
    ensures
        marked@ == unsettled_roots(trees@, previous@, local),
{
    let mut marked = UnsafeTrees::default();
    let entries = trees.iter();
    let ghost keys = ordered(trees@.dom());
    let ghost all = unsettled_roots(trees@, previous@, local);
    for i in 0..entries.len()
        invariant
            entries@.len() == keys.len(),
            keys.to_set() == trees@.dom(),
            all == unsettled_roots(trees@, previous@, local),
            forall|j: int|
                0 <= j < entries@.len() ==> (#[trigger] entries@[j]).0 == keys[j] && *entries@[j].1 == trees@[entries@[j].0],
            forall|r: RootKey| #[trigger] marked@.contains(r) ==> all.contains(r),
            forall|j: int|
                0 <= j < i && distance(trees@, (#[trigger] keys[j]), local) != distance(previous@, keys[j], local)
                    ==> marked@.contains((RootKey { base_vid: keys[j].base_vid, root: keys[j].root })),
    {
        let key = entries[i].0;
        let tree = entries[i].1;
        proof {
            assert(entries@[i as int].0 == keys[i as int]);
            assert(keys.to_set().contains(keys[i as int]));
            assert(trees@.contains_key(key));
        }
        let now: Option<u32> = tree.cost(local);
        let before: Option<u32> = match previous.get(&key) {
            Some(old_tree) => old_tree.cost(local),
            None => None,
        };
        if now != before {
            proof {
                let r = RootKey { base_vid: key.base_vid, root: key.root };
                assert(all.contains(r));
            }
            marked.mark(key.base_vid, key.root);
        }
    }
    proof {
        assert forall|r: RootKey| all.contains(r) implies marked@.contains(r) by {
            let key = choose|key: TreeKey| #[trigger]
                trees@.contains_key(key) && key.base_vid == r.base_vid && key.root == r.root && distance(trees@, key, local)
                    != distance(previous@, key, local);
            assert(keys.to_set().contains(key));
            let j = choose|j: int| 0 <= j < keys.len() && keys[j] == key;
            assert(distance(trees@, keys[j], local) != distance(previous@, keys[j], local));
        }
        assert(marked@ =~= all);
    }
    marked
}

/// The trees that are held back after a computation: none once every neighbour
/// agrees, and until then those that changed in it and those that were held
/// back before.
pub open spec fn held_roots(changed: Set<RootKey>, held: Set<RootKey>, agreed: bool) -> Set<RootKey> {
    if agreed {
        Set::empty()
    } else {
        changed.union(held)
    }
}

/// The forwarding state without the multicast state of unsettled trees.
pub open spec fn without_unsafe(state: FdbState, roots: Set<RootKey>) -> FdbState {
    FdbState {
        multicast: state.multicast.restrict(
            Set::new(
                |key: MulticastKey|
                    !roots.contains((RootKey { base_vid: key.base_vid, root: state.multicast[key].source })),
            ),
        ),
        ..state
    }
}

/// The forwarding state that may be programmed: all of it if every neighbour
/// agrees, and otherwise all but the multicast state of unsettled trees.
pub open spec fn programmable(state: FdbState, roots: Set<RootKey>, agreed: bool) -> FdbState {
    if agreed {
        state
    } else {
        without_unsafe(state, roots)
    }
}

/// Removes multicast state for trees that are not yet safe to program.
///
/// Unicast forwarding is unaffected: the ingress check makes a stale unicast
/// entry a dropped frame, not a loop. Only multicast can loop.
pub fn withhold_unsafe(unsafe_trees: &UnsafeTrees, agreed: bool, fdb: Fdb) -> (kept: Fdb)
    ensures
        kept@ == programmable(fdb@, unsafe_trees@, agreed),
{
    let mut fdb = fdb;
    let ghost before = fdb@;
    if agreed {
        return fdb;
    }
    if unsafe_trees.is_empty() {
        proof {
            assert(without_unsafe(before, unsafe_trees@).multicast =~= before.multicast);
        }
        return fdb;
    }
    let keys = fdb.multicast.keys();
    let mut table = OrdMap::new();
    std::mem::swap(&mut table, &mut fdb.multicast);
    let ghost whole = table@;
    let ghost roots = unsafe_trees@;
    for i in 0..keys.len()
        invariant
            roots == unsafe_trees@,
            forall|j: int| 0 <= j < keys@.len() ==> whole.contains_key(#[trigger] keys@[j]),
            forall|j: int, k: int| 0 <= j < k < keys@.len() ==> keys@[j] != keys@[k],
            forall|k: MulticastKey| #[trigger] table@.contains_key(k) ==> whole.contains_key(k) && table@[k] == whole[k],
            forall|j: int|
                0 <= j < i && roots.contains((RootKey { base_vid: keys@[j].base_vid, root: whole[keys@[j]].source }))
                    ==> !table@.contains_key(#[trigger] keys@[j]),
            forall|j: int|
                0 <= j < keys@.len() && (j >= i || !roots.contains(
                    (RootKey { base_vid: keys@[j].base_vid, root: whole[keys@[j]].source }),
                )) ==> table@.contains_key(#[trigger] keys@[j]),
    {
        let key = keys[i];
        assert(table@.contains_key(keys@[i as int]));
        let safe = match table.get(&key) {
            Some(entry) => unsafe_trees.is_safe(key.base_vid, entry.source),
            None => true,
        };
        if !safe {
            table.remove(&key);
        }
    }
    fdb.multicast = table;
    proof {
        let kept = without_unsafe(before, roots).multicast;
        assert(before.multicast == contents(whole));
        assert forall|k: MulticastKey| fdb@.multicast.dom().contains(k) <==> kept.dom().contains(k) by {
            if whole.contains_key(k) {
                assert(keys@.to_set().contains(k));
                let j = choose|j: int| 0 <= j < keys@.len() && keys@[j] == k;
                assert(table@.contains_key(keys@[j]) <==> !roots.contains(
                    (RootKey { base_vid: k.base_vid, root: whole[k].source }),
                ));
            }
        }
        assert forall|k: MulticastKey| fdb@.multicast.dom().contains(k) implies fdb@.multicast[k] == kept[k] by {
            assert(table@.contains_key(k));
        }
        assert(fdb@.multicast =~= kept);
    }
    fdb
}

// ===== agreement with neighbours =====

/// Whether an adjacency takes part in the agreement.
pub open spec fn has_say(iface: SpbInterface, adj: SpbAdjacency) -> bool {
    iface.enabled && adj.up && adj.spb_capable
}

/// Whether the neighbours on an interface all agree.
pub open spec fn interface_agrees(local: LocalAgreement, iface: SpbInterface) -> bool {
    forall|j: int|
        0 <= j < iface.adjacencies@.len() && has_say(iface, #[trigger] iface.adjacencies@[j]) ==> agreement_between(
            local,
            iface.adjacencies@[j].agreement,
        ) == Agreement::Agreed
}

/// Whether every SPB neighbour agrees. With no SPB neighbours there is nobody
/// to disagree with, so nothing is gated.
pub open spec fn all_agree(local: LocalAgreement, interfaces: Seq<SpbInterface>) -> bool {
    forall|i: int| 0 <= i < interfaces.len() ==> interface_agrees(local, #[trigger] interfaces[i])
}

/// A node without SPB neighbours gates nothing.
pub proof fn nobody_to_disagree_with(local: LocalAgreement, interfaces: Seq<SpbInterface>)
    requires
        forall|i: int, j: int|
            0 <= i < interfaces.len() && 0 <= j < interfaces[i].adjacencies@.len() ==> !has_say(
                interfaces[i],
                #[trigger] interfaces[i].adjacencies@[j],
            ),
    ensures
        all_agree(local, interfaces),
{
}

/// A neighbour that does not agree, and why.
#[derive(Clone, Copy, Debug, Eq, PartialEq)]
pub struct Disagreement {
    pub system_id: [u8; 6],
    pub verdict: Agreement,
}

/// The disagreements on the first `n` adjacencies of an interface.
pub open spec fn interface_disagreements(local: LocalAgreement, iface: SpbInterface, n: int) -> Seq<Disagreement>
    decreases n,
{
    if n <= 0 {
        Seq::empty()
    } else {
        let before = interface_disagreements(local, iface, n - 1);
        let adj = iface.adjacencies@[n - 1];
        let verdict = agreement_between(local, adj.agreement);
        if has_say(iface, adj) && verdict != Agreement::Agreed {
            before.push(Disagreement { system_id: adj.system_id, verdict })
        } else {
            before
        }
    }
}

/// The disagreements on a list of interfaces.
pub open spec fn all_disagreements(local: LocalAgreement, interfaces: Seq<SpbInterface>) -> Seq<Disagreement>
    decreases interfaces.len(),
{
    if interfaces.len() == 0 {
        Seq::empty()
    } else {
        let iface = interfaces.last();
        all_disagreements(local, interfaces.drop_last()) + interface_disagreements(
            local,
            iface,
            iface.adjacencies@.len() as int,
        )
    }
}

proof fn lemma_interface_disagreements(local: LocalAgreement, iface: SpbInterface, n: int)
    requires
        0 <= n <= iface.adjacencies@.len(),
    ensures
        interface_disagreements(local, iface, n).len() == 0 <==> forall|j: int|
            0 <= j < n && has_say(iface, #[trigger] iface.adjacencies@[j]) ==> agreement_between(
                local,
                iface.adjacencies@[j].agreement,
            ) == Agreement::Agreed,
    decreases n,
{
    if n > 0 {
        lemma_interface_disagreements(local, iface, n - 1);
        if interface_disagreements(local, iface, n).len() > 0 && interface_disagreements(local, iface, n - 1).len() == 0 {
            assert(has_say(iface, iface.adjacencies@[n - 1]));
        }
    }
}

/// Every neighbour agrees just when nobody disagrees.
pub proof fn all_agree_iff_no_disagreement(local: LocalAgreement, interfaces: Seq<SpbInterface>)
    ensures
        all_agree(local, interfaces) <==> all_disagreements(local, interfaces).len() == 0,
    decreases interfaces.len(),
{
    if interfaces.len() > 0 {
        let q = interfaces.drop_last();
        let iface = interfaces.last();
        all_agree_iff_no_disagreement(local, q);
        lemma_interface_disagreements(local, iface, iface.adjacencies@.len() as int);
        assert(interfaces[interfaces.len() - 1] == iface);
        if all_agree(local, q) && interface_agrees(local, iface) {
            assert forall|i: int| 0 <= i < interfaces.len() implies interface_agrees(local, #[trigger] interfaces[i]) by {
                if i < q.len() {
                    assert(q[i] == interfaces[i]);
                }
            }
        }
        if all_agree(local, interfaces) {
            assert forall|i: int| 0 <= i < q.len() implies interface_agrees(local, #[trigger] q[i]) by {
                assert(q[i] == interfaces[i]);
            }
        }
    }
}

/// Returns the neighbours that do not agree, each with the reason.
pub fn disagreements(local: &LocalAgreement, interfaces: &Vec<SpbInterface>) -> (found: Vec<Disagreement>)
    ensures
        found@ == all_disagreements(*local, interfaces@),
{
    let mut found: Vec<Disagreement> = Vec::new();
    assert(interfaces@.take(0) =~= Seq::empty());
    for i in 0..interfaces.len()
        invariant
            found@ == all_disagreements(*local, interfaces@.take(i as int)),
    {
        let iface = &interfaces[i];
        let ghost now = interfaces@.take(i + 1);
        let ghost before = found@;
        assert(now.last() == *iface);
        assert(now.drop_last() =~= interfaces@.take(i as int));
        assert(before + interface_disagreements(*local, *iface, 0) =~= before);
        for j in 0..iface.adjacencies.len()
            invariant
                found@ == before + interface_disagreements(*local, *iface, j as int),
        {
            let adj = &iface.adjacencies[j];
            if iface.enabled && adj.up && adj.spb_capable {
                let verdict = evaluate(local, adj.agreement.as_ref());
                if !verdict.is_agreed() {
                    found.push(Disagreement { system_id: adj.system_id, verdict });
                }
            }
            assert(found@ =~= before + interface_disagreements(*local, *iface, j + 1));
        }
    }
    assert(interfaces@.take(interfaces@.len() as int) =~= interfaces@);
    found
}

/// Re-evaluates agreement with every SPB neighbour.
///
/// Called when a Hello brings a neighbour's digest, since only agreement ends
/// the hold on multicast forwarding. Returns whether the verdict changed, so
/// the caller can recompute only when it matters.
pub fn reevaluate_agreement(state: &mut SpbState, config: &SpbConfig, interfaces: &Vec<SpbInterface>) -> (changed: bool)
    ensures
        !config.enabled ==> !changed && *final(state) == *old(state),
        config.enabled ==> final(state).agreed_adjacencies == all_agree(old(state).agreement, interfaces@) && changed == (
        final(state).agreed_adjacencies != old(state).agreed_adjacencies),
        *final(state) == (SpbState { agreed_adjacencies: final(state).agreed_adjacencies, ..*old(state) }),
{
    if !config.enabled {
        return false;
    }
    proof {
        all_agree_iff_no_disagreement(state.agreement, interfaces@);
    }
    let agreed = disagreements(&state.agreement, interfaces).len() == 0;
    let changed = state.agreed_adjacencies != agreed;
    state.agreed_adjacencies = agreed;
    changed
}

/// Whether an interface sends Hellos that carry the digest. Only an interface
/// with a running network task sends Hellos; a passive one, a customer port
/// say, has no socket.
pub open spec fn sends_hellos(iface: SpbInterface) -> bool {
    iface.enabled && !iface.passive && iface.running
}

/// The places of those interfaces of a list that send Hellos.
pub open spec fn hello_senders(interfaces: Seq<SpbInterface>) -> Seq<usize>
    decreases interfaces.len(),
{
    if interfaces.len() == 0 {
        Seq::empty()
    } else {
        let before = hello_senders(interfaces.drop_last());
        if sends_hellos(interfaces.last()) {
            before.push((interfaces.len() - 1) as usize)
        } else {
            before
        }
    }
}

/// Returns the interfaces whose Hello tasks must be restarted: those that send
/// Hellos, if the digest has changed.
///
/// A Hello is rebuilt only when there is a new digest to advertise, so this
/// costs nothing in steady state.
pub fn refresh_hellos(state: &mut SpbState, interfaces: &Vec<SpbInterface>) -> (restart: Vec<usize>)
    ensures
        restart@ == (if old(state).hello_refresh_pending {
            hello_senders(interfaces@)
        } else {
            Seq::empty()
        }),
        *final(state) == (SpbState { hello_refresh_pending: false, ..*old(state) }),
{
    let mut restart: Vec<usize> = Vec::new();
    if !state.hello_refresh_pending {
        return restart;
    }
    state.hello_refresh_pending = false;
    assert(interfaces@.take(0) =~= Seq::empty());
    for i in 0..interfaces.len()
        invariant
            restart@ == hello_senders(interfaces@.take(i as int)),
    {
        let ghost now = interfaces@.take(i + 1);
        assert(now.last() == interfaces@[i as int]);
        assert(now.drop_last() =~= interfaces@.take(i as int));
        let iface = &interfaces[i];
        if iface.enabled && !iface.passive && iface.running {
            restart.push(i);
        }
    }
    assert(interfaces@.take(interfaces@.len() as int) =~= interfaces@);
    restart
}

/// A short reason for a disagreement, for tracing.
pub fn verdict_name(verdict: Agreement) -> (name: &'static str)
    ensures
        name@ == match verdict {
            Agreement::Agreed => "agreed"@,
            Agreement::NoDigest => "no digest received"@,
            Agreement::NotValid => "digest not valid"@,
            Agreement::DigestMismatch => "digests differ"@,
            Agreement::Outstanding => "agreement number outstanding"@,
        },
{
    match verdict {
        Agreement::Agreed => "agreed",
        Agreement::NoDigest => "no digest received",
        Agreement::NotValid => "digest not valid",
        Agreement::DigestMismatch => "digests differ",
        Agreement::Outstanding => "agreement number outstanding",
    }
}

// ===== what accompanies an update =====

/// The nodal B-MAC: that of the first configured service. A node with no
/// service of its own is pure transit and never sources a frame, so a zero
/// address is correct for it.
pub open spec fn nodal_bmac(config: SpbConfig) -> Seq<u8> {
    if ordered(config.services@.dom()).len() > 0 {
        ordered(config.services@.dom())[0].bmac@
    } else {
        seq![0u8, 0u8, 0u8, 0u8, 0u8, 0u8]
    }
}

/// Returns this node's backbone identity.
pub fn node_identity(config: &SpbConfig) -> (node: NodeIdentity)
    ensures
        node.b_mac@ == nodal_bmac(*config),
        node.spsource_id == advertised_spsource_id(*config),
{
    let offered = config.services.keys();
    let b_mac = if offered.len() > 0 {
        offered[0].bmac
    } else {
        let zero = [0u8, 0u8, 0u8, 0u8, 0u8, 0u8];
        assert(zero@ =~= seq![0u8, 0u8, 0u8, 0u8, 0u8, 0u8]);
        MacAddr::new(zero)
    };
    NodeIdentity {
        b_mac,
        spsource_id: match config.spsource_id {
            Some(id) => id,
            None => 0,
        },
    }
}

/// Whether an interface has an adjacency that is up with a node.
pub open spec fn reaches(iface: SpbInterface, node: NodeId) -> bool {
    iface.enabled && exists|j: int|
        0 <= j < iface.adjacencies@.len() && (#[trigger] iface.adjacencies@[j]).up && NodeId::of(
            iface.adjacencies@[j].system_id@,
        ) == node
}

/// The name of the last interface of a list that reaches a node.
pub open spec fn nexthop_name(interfaces: Seq<SpbInterface>, node: NodeId) -> Option<Seq<char>>
    decreases interfaces.len(),
{
    if interfaces.len() == 0 {
        None
    } else if reaches(interfaces.last(), node) {
        Some(interfaces.last().name@)
    } else {
        nexthop_name(interfaces.drop_last(), node)
    }
}

/// `map` names an interface for every adjacent node.
pub open spec fn names_nexthops(map: Map<NodeId, String>, interfaces: Seq<SpbInterface>) -> bool {
    forall|node: NodeId| #[trigger] lookup(contents(map), node) == nexthop_name(interfaces, node)
}

/// Maps each adjacent node to the local interface reaching it.
///
/// SPB computation names next hops by node; the dataplane needs ports, and
/// only the adjacency database can bridge the two.
pub fn resolve_nexthops(interfaces: &Vec<SpbInterface>) -> (map: OrdMap<NodeId, String>)
    ensures
        names_nexthops(map@, interfaces@),
{
    let mut map: OrdMap<NodeId, String> = OrdMap::new();
    assert(interfaces@.take(0) =~= Seq::empty());
    for i in 0..interfaces.len()
        invariant
            forall|node: NodeId| #[trigger]
                lookup(contents(map@), node) == nexthop_name(interfaces@.take(i as int), node),
    {
        let iface = &interfaces[i];
        let ghost now = interfaces@.take(i + 1);
        let ghost before = contents(map@);
        assert(now.last() == *iface);
        assert(now.drop_last() =~= interfaces@.take(i as int));
        if iface.enabled {
            for j in 0..iface.adjacencies.len()
                invariant
                    iface.enabled,
                    forall|node: NodeId| #[trigger]
                        lookup(contents(map@), node) == (if exists|k: int|
                            0 <= k < j && (#[trigger] iface.adjacencies@[k]).up && NodeId::of(
                                iface.adjacencies@[k].system_id@,
                            ) == node {
                            Some(iface.name@)
                        } else {
                            lookup(before, node)
                        }),
            {
                let adj = &iface.adjacencies[j];
                let ghost was = contents(map@);
                if adj.up {
                    let id = node_id(adj.system_id);
                    let name = iface.name.clone();
                    map.insert(id, name);
                    assert(contents(map@) =~= was.insert(id, iface.name@));
                }
                assert forall|node: NodeId| #[trigger]
                    lookup(contents(map@), node) == (if exists|k: int|
                        0 <= k < j + 1 && (#[trigger] iface.adjacencies@[k]).up && NodeId::of(
                            iface.adjacencies@[k].system_id@,
                        ) == node {
                        Some(iface.name@)
                    } else {
                        lookup(before, node)
                    }) by {
                    let found = exists|k: int|
                        0 <= k < j && (#[trigger] iface.adjacencies@[k]).up && NodeId::of(
                            iface.adjacencies@[k].system_id@,
                        ) == node;
                    assert(lookup(was, node) == (if found {
                        Some(iface.name@)
                    } else {
                        lookup(before, node)
                    }));
                    if adj.up && NodeId::of(adj.system_id@) == node {
                        assert(iface.adjacencies@[j as int].up);
                    }
                }
            }
        }
        assert forall|node: NodeId| #[trigger] lookup(contents(map@), node) == nexthop_name(now, node) by {
            assert(lookup(before, node) == nexthop_name(interfaces@.take(i as int), node));
        }
    }
    assert(interfaces@.take(interfaces@.len() as int) =~= interfaces@);
    map
}

/// Whether an interface delivers a service to customers.
pub open spec fn delivers(iface: SpbInterface, isid: u32) -> bool {
    iface.enabled && iface.role == SpbInterfaceRole::Customer && iface.uni_isids@.contains(isid)
}

/// The names of those interfaces of a list that deliver a service.
pub open spec fn port_names(interfaces: Seq<SpbInterface>, isid: u32) -> Seq<Seq<char>>
    decreases interfaces.len(),
{
    if interfaces.len() == 0 {
        Seq::empty()
    } else {
        let before = port_names(interfaces.drop_last(), isid);
        if delivers(interfaces.last(), isid) {
            before.push(interfaces.last().name@)
        } else {
            before
        }
    }
}

/// `map` names the ports of every service that has any.
pub open spec fn names_ports(map: Map<u32, Vec<String>>, interfaces: Seq<SpbInterface>) -> bool {
    &&& forall|isid: u32| #[trigger] map.contains_key(isid) <==> port_names(interfaces, isid).len() > 0
    &&& forall|isid: u32| #[trigger] map.contains_key(isid) ==> views(map[isid]@) == port_names(interfaces, isid)
}

/// Adds a port to a service.
fn add_port(map: &mut OrdMap<u32, Vec<String>>, isid: u32, name: String)
    ensures
        final(map)@.dom() == old(map)@.dom().insert(isid),
        views(final(map)@[isid]@) == (if old(map)@.contains_key(isid) {
            views(old(map)@[isid]@)
        } else {
            Seq::empty()
        }).push(name@),
        forall|k: u32| k != isid && #[trigger] old(map)@.contains_key(k) ==> final(map)@[k] == old(map)@[k],
{
    let ghost before = map@;
    let ghost added = name@;
    let mut names: Vec<String> = Vec::new();
    if let Some(list) = map.get(&isid) {
        for i in 0..list.len()
            invariant
                names@.len() == i,
                forall|j: int| 0 <= j < i ==> (#[trigger] names@[j])@ == list@[j]@,
        {
            names.push(list[i].clone());
        }
        assert(views(names@) =~= views(list@));
    } else {
        assert(views(names@) =~= Seq::empty());
    }
    let ghost had = names@;
    names.push(name);
    assert(views(names@) =~= views(had).push(added));
    map.insert(isid, names);
    assert(map@.dom() =~= before.dom().insert(isid));
}

/// Returns the customer-facing interfaces of each service.
pub fn uni_ports(interfaces: &Vec<SpbInterface>) -> (map: OrdMap<u32, Vec<String>>)
    ensures
        names_ports(map@, interfaces@),
{
    let mut map: OrdMap<u32, Vec<String>> = OrdMap::new();
    assert(interfaces@.take(0) =~= Seq::empty());
    for i in 0..interfaces.len()
        invariant
            names_ports(map@, interfaces@.take(i as int)),
    {
        let iface = &interfaces[i];
        let ghost now = interfaces@.take(i + 1);
        let ghost earlier = interfaces@.take(i as int);
        assert(now.last() == *iface);
        assert(now.drop_last() =~= earlier);
        if iface.enabled && iface.role == SpbInterfaceRole::Customer {
            let isids = iface.uni_isids.to_vec();
            for j in 0..isids.len()
                invariant
                    is_ordered(isids@),
                    forall|isid: u32| #[trigger]
                        map@.contains_key(isid) <==> isids@.take(j as int).contains(isid) || port_names(earlier, isid).len()
                            > 0,
                    forall|isid: u32| #[trigger]
                        map@.contains_key(isid) ==> views(map@[isid]@) == (if isids@.take(j as int).contains(isid) {
                            port_names(earlier, isid).push(iface.name@)
                        } else {
                            port_names(earlier, isid)
                        }),
            {
                let isid: u32 = isids[j];
                let ghost was = map@;
                let ghost seen = isids@.take(j as int);
                let ghost more = isids@.take(j + 1);
                proof {
                    assert(more =~= seen.push(isid));
                    lemma_push_set(seen, isid);
                    assert forall|k: u32| more.contains(k) <==> seen.contains(k) || k == isid by {
                        assert(more.to_set().contains(k) <==> seen.to_set().insert(isid).contains(k));
                    }
                    assert(!seen.contains(isid)) by {
                        if seen.contains(isid) {
                            let k = choose|k: int| 0 <= k < seen.len() && seen[k] == isid;
                            assert(isids@[k].ordinal() < isids@[j as int].ordinal());
                        }
                    }
                    assert(!was.contains_key(isid) ==> port_names(earlier, isid) =~= Seq::empty());
                }
                add_port(&mut map, isid, iface.name.clone());
                assert forall|k: u32| #[trigger] map@.contains_key(k) implies views(map@[k]@) == (if more.contains(k) {
                    port_names(earlier, k).push(iface.name@)
                } else {
                    port_names(earlier, k)
                }) by {
                    if k != isid {
                        assert(was.contains_key(k));
                    }
                }
            }
            proof {
                assert(isids@.take(isids@.len() as int) =~= isids@);
                assert forall|isid: u32| isids@.contains(isid) <==> delivers(*iface, isid) by {
                    assert(isids@.to_set().contains(isid) <==> iface.uni_isids@.contains(isid));
                }
            }
        }
        assert forall|isid: u32| #[trigger] map@.contains_key(isid) <==> port_names(now, isid).len() > 0 by {}
        assert forall|isid: u32| #[trigger] map@.contains_key(isid) implies views(map@[isid]@) == port_names(now, isid) by {}
    }
    assert(interfaces@.take(interfaces@.len() as int) =~= interfaces@);
    map
}

/// The names of those interfaces of a list that face the backbone.
pub open spec fn backbone_names(interfaces: Seq<SpbInterface>) -> Seq<Seq<char>>
    decreases interfaces.len(),
{
    if interfaces.len() == 0 {
        Seq::empty()
    } else {
        let before = backbone_names(interfaces.drop_last());
        if interfaces.last().enabled && interfaces.last().role == SpbInterfaceRole::Backbone {
            before.push(interfaces.last().name@)
        } else {
            before
        }
    }
}

/// Returns the backbone-facing interfaces.
pub fn nni_ports(interfaces: &Vec<SpbInterface>) -> (names: Vec<String>)
    ensures
        views(names@) == backbone_names(interfaces@),
{
    let mut names: Vec<String> = Vec::new();
    assert(views(names@) =~= backbone_names(interfaces@.take(0)));
    for i in 0..interfaces.len()
        invariant
            views(names@) == backbone_names(interfaces@.take(i as int)),
    {
        let iface = &interfaces[i];
        let ghost now = interfaces@.take(i + 1);
        let ghost before = names@;
        assert(now.last() == *iface);
        assert(now.drop_last() =~= interfaces@.take(i as int));
        if iface.enabled && iface.role == SpbInterfaceRole::Backbone {
            names.push(iface.name.clone());
            assert(views(names@) =~= views(before).push(iface.name@));
        }
    }
    assert(interfaces@.take(interfaces@.len() as int) =~= interfaces@);
    names
}

// ===== recomputation =====

/// The digest of a view.
pub open spec fn view_digest(view: TopologyView) -> Seq<u8> {
    hmac_sha256("holo-spb".spec_bytes(), digest_input(view.nodes@, view.links@, MT_STANDARD))
}

/// The trees are those that a view needs.
pub open spec fn has_trees(state: SpbState, view: TopologyView, config: SpbConfig) -> bool {
    let keys = wanted_keys(MT_STANDARD, configured_ect_vids(config), ordered(root_set(view)));
    &&& state.trees@.dom() == kept_keys(keys, MAX_TREES as nat)
    &&& state.trees_skipped == skipped_keys(keys, MAX_TREES as nat)
    &&& forall|key: TreeKey| #[trigger]
        state.trees@.contains_key(key) ==> is_tree_of(
            state.trees@[key],
            region_in(view, key.base_vid, key.algorithm),
            key.root,
        )
}

/// The forwarding state is what a view and its trees give rise to, as far as
/// it may be programmed.
pub open spec fn has_fdb(state: SpbState, view: TopologyView, config: SpbConfig) -> bool {
    exists|full: FdbState| #[trigger]
        is_fdb_of(full, view, state.trees@, MT_STANDARD, configured_ect_vids(config)) && state.fdb@ == programmable(
            full,
            state.unsafe_trees@,
            state.agreed_adjacencies,
        ) && state.withheld == full.multicast.dom().len() - state.fdb@.multicast.dom().len()
}

/// A digest has been recorded. A new one makes the Agreement Number advance.
pub open spec fn has_recorded(after: LocalAgreement, before: LocalAgreement, digest: Seq<u8>) -> bool {
    let changed = before.valid && before.digest@ != digest;
    &&& after.valid
    &&& after.digest@ == digest
    &&& after.agreement == if changed {
        (before.agreement + 1) % (AGREEMENT_MODULUS as int)
    } else {
        before.agreement as int
    }
    &&& after.discarded == if changed {
        before.agreement
    } else {
        before.discarded
    }
}

/// What the dataplane is to be told: whatever actually changed. The first
/// update is a snapshot, so the dataplane can discard state left over from
/// before a restart.
pub open spec fn due_delta(after: SpbState, before: SpbState) -> Option<DeltaState> {
    let delta = if before.generation == 0 {
        snapshot_of(after.fdb@, after.generation)
    } else {
        delta_between(after.fdb@, before.fdb@, after.generation)
    };
    if after.fdb@ != before.fdb@ && delta_len(delta) > 0 {
        Some(delta)
    } else {
        None
    }
}

/// An update carries a delta with all that the dataplane needs to act on it.
pub open spec fn carries(
    update: DataplaneUpdate,
    delta: DeltaState,
    config: SpbConfig,
    interfaces: Seq<SpbInterface>,
) -> bool {
    &&& update.delta@ == delta
    &&& update.node.b_mac@ == nodal_bmac(config)
    &&& update.node.spsource_id == advertised_spsource_id(config)
    &&& names_nexthops(update.nexthops@, interfaces)
    &&& names_ports(update.uni_ports@, interfaces)
    &&& views(update.nni_ports@) == backbone_names(interfaces)
}

/// What a computation makes of the state, and what it sends.
pub open spec fn recomputes(
    after: SpbState,
    before: SpbState,
    config: SpbConfig,
    interfaces: Seq<SpbInterface>,
    lsps: Seq<Lsp>,
    update: Option<DataplaneUpdate>,
) -> bool {
    let view = after.view->0;
    &&& after.view is Some
    &&& is_view_of(view, config, lsps)
    &&& has_trees(after, view, config)
    &&& after.unsafe_trees@ == held_roots(
        unsettled_roots(after.trees@, before.trees@, view.local),
        before.unsafe_trees@,
        after.agreed_adjacencies,
    )
    &&& has_recorded(after.agreement, before.agreement, view_digest(view))
    &&& after.agreed_adjacencies == all_agree(after.agreement, interfaces)
    &&& has_fdb(after, view, config)
    &&& after.hello_refresh_pending == (before.hello_refresh_pending || before.agreement.differs(view_digest(view)))
    &&& after.generation == before.generation + if after.fdb@ == before.fdb@ {
        0int
    } else {
        1int
    }
    &&& match due_delta(after, before) {
        Some(delta) if config.dataplane_enabled => update is Some && carries(update->0, delta, config, interfaces),
        _ => update is None,
    }
}

/// Returns an update that carries a delta.
fn update_with(delta: FdbDelta, config: &SpbConfig, interfaces: &Vec<SpbInterface>) -> (update: DataplaneUpdate)
    ensures
        carries(update, delta@, *config, interfaces@),
{
    DataplaneUpdate {
        delta,
        node: node_identity(config),
        nexthops: resolve_nexthops(interfaces),
        uni_ports: uni_ports(interfaces),
        nni_ports: nni_ports(interfaces),
    }
}

/// Returns the update that answers a call for a snapshot: the forwarding state
/// as it was last computed.
///
/// Nothing is computed anew for it, so a dataplane that restarts has no effect
/// on what is withheld.
pub fn resync_update(state: &SpbState, config: &SpbConfig, interfaces: &Vec<SpbInterface>) -> (update: Option<DataplaneUpdate>)
    ensures
        update is Some <==> config.enabled && config.dataplane_enabled && state.view is Some,
        update matches Some(u) ==> carries(u, snapshot_of(state.fdb@, state.generation), *config, interfaces@),
{
    if !config.enabled || !config.dataplane_enabled || state.view.is_none() {
        return None;
    }
    Some(update_with(state.fdb.snapshot(state.generation), config, interfaces))
}

/// Recomputes SPB state from the current LSDB, and returns the update to send
/// to the dataplane, if there is one.
///
/// Called after SPF, since a topology change that affects IS-IS routing
/// affects SPB trees too, and the LSDB is settled at that point.
pub fn recompute(
    state: &mut SpbState,
    config: &SpbConfig,
    interfaces: &Vec<SpbInterface>,
    lsps: &Vec<Lsp>,
) -> (update: Option<DataplaneUpdate>)
    requires
        old(state).generation < u64::MAX,
        old(state).agreement.valid ==> old(state).agreement.agreement < u8::MAX,
        config.trees@.dom().len() * (lsps@.len() + 2) <= usize::MAX,
    ensures
        !config.enabled ==> update is None && if old(state).view is Some {
            final(state).is_initial()
        } else {
            *final(state) == *old(state)
        },
        config.enabled ==> recomputes(*final(state), *old(state), *config, interfaces@, lsps@, update),
{
    if !config.enabled {
        // Drop any state left from when SPB was enabled, so a disabled
        // instance does not keep advertising stale forwarding entries.
        if state.view.is_some() {
            *state = SpbState::default();
        }
        return None;
    }
    let view = build_topology_view(config, lsps);
    let ect_vids = local_ect_vids(config);
    proof {
        let n = ect_vids@.len();
        let room = view.nodes@.dom().len() + 1;
        assert(n * room <= n * (lsps@.len() + 2)) by (nonlinear_arith)
            requires
                room <= lsps@.len() + 2,
                0 <= n,
        ;
    }
    let (trees, trees_skipped) = TreeSet::compute(&view, MT_STANDARD, &ect_vids, MAX_TREES);

    // A tree whose distance to its root has changed cannot have its multicast
    // state updated until neighbours confirm they see the same topology, or a
    // frame could be forwarded back where it came from.
    let mut unsafe_trees = mark_unsafe_trees(&trees, &state.trees, view.local);
    let full = Fdb::build(&view, &trees, MT_STANDARD, &ect_vids);
    let ghost full_state = full@;

    // The digest summarises the view neighbours must agree with. Advertising
    // it is what lets both ends decide the trees are settled.
    let digest = HoloLocalDigest.compute(&view, MT_STANDARD);
    if state.agreement.update(digest) {
        // Hellos carry the digest and are built once per task, so the task has
        // to be restarted for the new one to reach neighbours.
        state.hello_refresh_pending = true;
    }

    // Evaluate agreement here as well as on Hello receipt, and against the
    // digest of this very view, so the verdict is never stale: a neighbour
    // that has only confirmed an earlier topology does not agree, and a node
    // with no SPB neighbours has nobody to disagree with and must not gate
    // anything.
    reevaluate_agreement(state, config, interfaces);
    if state.agreed_adjacencies {
        unsafe_trees.clear();
    } else {
        // What was held back before is held back still.
        unsafe_trees.merge(&state.unsafe_trees);
    }
    let built: usize = full.multicast.len();
    let fdb = withhold_unsafe(&unsafe_trees, state.agreed_adjacencies, full);
    proof {
        let table = full_state.multicast;
        assert(table.dom() =~= full.multicast@.dom());
        assert(fdb@.multicast.dom() =~= fdb.multicast@.dom());
        assert(fdb@.multicast.dom().subset_of(table.dom()));
        vstd::set_lib::lemma_len_subset(fdb@.multicast.dom(), table.dom());
    }
    let withheld: usize = built - fdb.multicast.len();

    // Send the dataplane whatever actually changed.
    let mut update: Option<DataplaneUpdate> = None;
    let first = state.generation == 0;
    let mut delta = fdb.delta(&state.fdb, 0);
    proof {
        fdb_is_finite(fdb);
        fdb_is_finite(state.fdb);
        delta_empty_iff_same(fdb@, state.fdb@, 0);
    }
    if !delta.is_empty() {
        state.generation = state.generation + 1;
        if first {
            delta = fdb.snapshot(state.generation);
        } else {
            delta.generation = state.generation;
        }
        if !delta.is_empty() && config.dataplane_enabled {
            update = Some(update_with(delta, config, interfaces));
        }
    }
    state.view = Some(view);
    state.trees = trees;
    state.fdb = fdb;
    state.trees_skipped = trees_skipped;
    state.unsafe_trees = unsafe_trees;
    state.withheld = withheld;
    assert(is_fdb_of(full_state, view, state.trees@, MT_STANDARD, configured_ect_vids(*config)));
    update
}

// ===== the laws of recomputation =====

/// Withholding touches multicast alone: unicast forwarding and services stay
/// as they are, and what is left of multicast is what was there.
pub proof fn withholding_spares_unicast(state: FdbState, roots: Set<RootKey>, agreed: bool, key: MulticastKey)
    ensures
        programmable(state, roots, agreed).unicast == state.unicast,
        programmable(state, roots, agreed).services == state.services,
        lookup(programmable(state, roots, agreed).multicast, key) == (if agreed || !(state.multicast.contains_key(key)
            && roots.contains((RootKey { base_vid: key.base_vid, root: state.multicast[key].source }))) {
            lookup(state.multicast, key)
        } else {
            None
        }),
{
}

/// While some neighbour with a say does not agree with the new view, no
/// multicast state of a tree whose distance has changed is programmed, and
/// everything else but multicast is as the view gives rise to it.
pub proof fn disagreement_withholds_multicast(
    after: SpbState,
    before: SpbState,
    config: SpbConfig,
    interfaces: Seq<SpbInterface>,
    lsps: Seq<Lsp>,
    update: Option<DataplaneUpdate>,
    i: int,
    j: int,
    full: FdbState,
)
    requires
        recomputes(after, before, config, interfaces, lsps, update),
        0 <= i < interfaces.len(),
        0 <= j < interfaces[i].adjacencies@.len(),
        has_say(interfaces[i], interfaces[i].adjacencies@[j]),
        agreement_between(after.agreement, interfaces[i].adjacencies@[j].agreement) != Agreement::Agreed,
        is_fdb_of(full, after.view->0, after.trees@, MT_STANDARD, configured_ect_vids(config)),
    ensures
        !after.agreed_adjacencies,
        after.fdb@ == without_unsafe(full, after.unsafe_trees@),
        after.fdb@.unicast == full.unicast,
        after.fdb@.services == full.services,
        forall|key: MulticastKey| #[trigger]
            after.fdb@.multicast.contains_key(key) ==> !after.unsafe_trees@.contains(
                (RootKey { base_vid: key.base_vid, root: after.fdb@.multicast[key].source }),
            ),
        forall|key: MulticastKey, k: TreeKey| #[trigger]
            after.fdb@.multicast.contains_key(key) && #[trigger] after.trees@.contains_key(k) && k.base_vid == key.base_vid
                && k.root == after.fdb@.multicast[key].source ==> distance(after.trees@, k, after.view->0.local) == distance(
                before.trees@,
                k,
                after.view->0.local,
            ),
{
    let view = after.view->0;
    let ects = configured_ect_vids(config);
    assert(!interface_agrees(after.agreement, interfaces[i]));
    let built = choose|built: FdbState| #[trigger]
        is_fdb_of(built, view, after.trees@, MT_STANDARD, ects) && after.fdb@ == programmable(
            built,
            after.unsafe_trees@,
            after.agreed_adjacencies,
        ) && after.withheld == built.multicast.dom().len() - after.fdb@.multicast.dom().len();
    fdb_is_determined(built, full, view, after.trees@, MT_STANDARD, ects);
    assert forall|key: MulticastKey, k: TreeKey| #[trigger]
        after.fdb@.multicast.contains_key(key) && #[trigger] after.trees@.contains_key(k) && k.base_vid == key.base_vid
            && k.root == after.fdb@.multicast[key].source implies distance(after.trees@, k, view.local) == distance(
        before.trees@,
        k,
        view.local,
    ) by {
        assert(!after.unsafe_trees@.contains((RootKey { base_vid: k.base_vid, root: k.root })));
    }
}

/// A neighbour that shows a valid digest other than that of the new view does
/// not agree with it, whatever it agreed with before.
pub proof fn other_digest_disagrees(
    after: SpbState,
    before: SpbState,
    config: SpbConfig,
    interfaces: Seq<SpbInterface>,
    lsps: Seq<Lsp>,
    update: Option<DataplaneUpdate>,
    i: int,
    j: int,
    neighbor: NeighborAgreement,
    full: FdbState,
)
    requires
        recomputes(after, before, config, interfaces, lsps, update),
        0 <= i < interfaces.len(),
        0 <= j < interfaces[i].adjacencies@.len(),
        has_say(interfaces[i], interfaces[i].adjacencies@[j]),
        interfaces[i].adjacencies@[j].agreement == Some(neighbor),
        neighbor.valid,
        neighbor.digest@ != view_digest(after.view->0),
        is_fdb_of(full, after.view->0, after.trees@, MT_STANDARD, configured_ect_vids(config)),
    ensures
        agreement_between(after.agreement, Some(neighbor)) == Agreement::DigestMismatch,
        !after.agreed_adjacencies,
        after.fdb@.unicast == full.unicast,
        after.fdb@.services == full.services,
        forall|key: MulticastKey| #[trigger]
            after.fdb@.multicast.contains_key(key) ==> !after.unsafe_trees@.contains(
                (RootKey { base_vid: key.base_vid, root: after.fdb@.multicast[key].source }),
            ),
{
    disagreement_withholds_multicast(after, before, config, interfaces, lsps, update, i, j, full);
}

/// The hold on a tree lasts until agreement: a tree that was held back stays
/// so in every computation in which some neighbour does not agree, and none of
/// its multicast state is programmed, whether its distance changes again or
/// not.
pub proof fn hold_lasts_until_agreement(
    after: SpbState,
    before: SpbState,
    config: SpbConfig,
    interfaces: Seq<SpbInterface>,
    lsps: Seq<Lsp>,
    update: Option<DataplaneUpdate>,
    r: RootKey,
)
    requires
        recomputes(after, before, config, interfaces, lsps, update),
        before.unsafe_trees@.contains(r),
        !all_agree(after.agreement, interfaces),
    ensures
        after.unsafe_trees@.contains(r),
        forall|key: MulticastKey| #[trigger]
            after.fdb@.multicast.contains_key(key) ==> !(key.base_vid == r.base_vid && after.fdb@.multicast[key].source
                == r.root),
{
}

/// One computation.
pub ghost struct Run {
    pub before: SpbState,
    pub after: SpbState,
    pub config: SpbConfig,
    pub interfaces: Seq<SpbInterface>,
    pub lsps: Seq<Lsp>,
    pub update: Option<DataplaneUpdate>,
}

/// The hold on a tree lasts over any number of computations, from whatever
/// configuration and LSDB, as long as some neighbour does not agree in each.
pub proof fn hold_lasts_over_computations(runs: Seq<Run>, r: RootKey)
    requires
        runs.len() > 0,
        forall|i: int|
            0 <= i < runs.len() ==> recomputes(
                (#[trigger] runs[i]).after,
                runs[i].before,
                runs[i].config,
                runs[i].interfaces,
                runs[i].lsps,
                runs[i].update,
            ) && !all_agree(runs[i].after.agreement, runs[i].interfaces),
        forall|i: int|
            0 < i < runs.len() ==> (#[trigger] runs[i]).before.unsafe_trees@ == runs[i - 1].after.unsafe_trees@,
        runs[0].before.unsafe_trees@.contains(r),
    ensures
        runs.last().after.unsafe_trees@.contains(r),
        forall|key: MulticastKey| #[trigger]
            runs.last().after.fdb@.multicast.contains_key(key) ==> !(key.base_vid == r.base_vid
                && runs.last().after.fdb@.multicast[key].source == r.root),
    decreases runs.len(),
{
    let n = runs.len() - 1;
    if n > 0 {
        let q = runs.drop_last();
        assert forall|i: int| 0 <= i < q.len() implies recomputes(
            (#[trigger] q[i]).after,
            q[i].before,
            q[i].config,
            q[i].interfaces,
            q[i].lsps,
            q[i].update,
        ) && !all_agree(q[i].after.agreement, q[i].interfaces) by {
            assert(q[i] == runs[i]);
        }
        assert forall|i: int| 0 < i < q.len() implies (#[trigger] q[i]).before.unsafe_trees@ == q[i - 1].after.unsafe_trees@ by {
            assert(q[i] == runs[i]);
            assert(q[i - 1] == runs[i - 1]);
        }
        hold_lasts_over_computations(q, r);
        assert(runs[n].before.unsafe_trees@ == runs[n - 1].after.unsafe_trees@);
        assert(q.last() == runs[n - 1]);
    }
    let run = runs[n];
    assert(run.before.unsafe_trees@.contains(r));
    hold_lasts_until_agreement(run.after, run.before, run.config, run.interfaces, run.lsps, run.update, r);
}

/// Agreement ends the hold: once every neighbour agrees with the new view,
/// nothing is marked and everything is programmed.
pub proof fn agreement_ends_hold(
    after: SpbState,
    before: SpbState,
    config: SpbConfig,
    interfaces: Seq<SpbInterface>,
    lsps: Seq<Lsp>,
    update: Option<DataplaneUpdate>,
    full: FdbState,
)
    requires
        recomputes(after, before, config, interfaces, lsps, update),
        all_agree(after.agreement, interfaces),
        is_fdb_of(full, after.view->0, after.trees@, MT_STANDARD, configured_ect_vids(config)),
    ensures
        after.unsafe_trees@ == Set::<RootKey>::empty(),
        after.fdb@ == full,
        after.withheld == 0,
{
    let view = after.view->0;
    let ects = configured_ect_vids(config);
    let built = choose|built: FdbState| #[trigger]
        is_fdb_of(built, view, after.trees@, MT_STANDARD, ects) && after.fdb@ == programmable(
            built,
            after.unsafe_trees@,
            after.agreed_adjacencies,
        ) && after.withheld == built.multicast.dom().len() - after.fdb@.multicast.dom().len();
    fdb_is_determined(built, full, view, after.trees@, MT_STANDARD, ects);
}

/// A second computation from the same configuration and LSDB changes nothing
/// of the hold: unless every neighbour agrees, what was held back is held back
/// still, and nothing else.
pub proof fn second_computation_keeps_hold(
    after: SpbState,
    middle: SpbState,
    before: SpbState,
    config: SpbConfig,
    interfaces: Seq<SpbInterface>,
    earlier: Seq<SpbInterface>,
    lsps: Seq<Lsp>,
    update: Option<DataplaneUpdate>,
    sent: Option<DataplaneUpdate>,
)
    requires
        recomputes(middle, before, config, earlier, lsps, sent),
        recomputes(after, middle, config, interfaces, lsps, update),
        !all_agree(after.agreement, interfaces),
    ensures
        after.unsafe_trees@ == middle.unsafe_trees@,
{
    let v = after.view->0;
    let w = middle.view->0;
    lemma_same_roots(v, w, config, lsps);
    lemma_view_shape(v, w, config, lsps);
    let changed = unsettled_roots(after.trees@, middle.trees@, v.local);
    assert forall|k: TreeKey| #[trigger] after.trees@.contains_key(k) implies distance(after.trees@, k, v.local) == distance(
        middle.trees@,
        k,
        v.local,
    ) by {
        assert(middle.trees@.dom().contains(k));
        assert(middle.trees@.contains_key(k));
        same_shape_same_region(v, w, k.base_vid, k.algorithm);
        trees_agree(after.trees@[k], middle.trees@[k], region_in(v, k.base_vid, k.algorithm), k.root);
        assert(after.trees@[k].nodes@.contains_key(v.local) <==> middle.trees@[k].nodes@.contains_key(v.local)) by {
            assert(after.trees@[k].nodes@.dom().contains(v.local) <==> middle.trees@[k].nodes@.dom().contains(v.local));
        }
    }
    assert(changed =~= Set::<RootKey>::empty());
    assert(after.unsafe_trees@ =~= middle.unsafe_trees@);
}

/// What a configuration and the LSDB say of a node is the same in every view
/// of them.
proof fn lemma_same_facts(v: TopologyView, w: TopologyView, config: SpbConfig, lsps: Seq<Lsp>, id: NodeId)
    requires
        is_view_of(v, config, lsps),
        is_view_of(w, config, lsps),
    ensures
        v.nodes@.contains_key(id) <==> w.nodes@.contains_key(id),
        v.nodes@.contains_key(id) ==> v.nodes@[id]@ == w.nodes@[id]@,
{
    assert(v.nodes@.contains_key(id) <==> known_facts(config, lsps, id) is Some);
    assert(w.nodes@.contains_key(id) <==> known_facts(config, lsps, id) is Some);
}

/// Two views of one configuration and LSDB have the same shape.
proof fn lemma_view_shape(v: TopologyView, w: TopologyView, config: SpbConfig, lsps: Seq<Lsp>)
    requires
        is_view_of(v, config, lsps),
        is_view_of(w, config, lsps),
    ensures
        same_shape(v, w),
{
    assert forall|id: NodeId| v.nodes@.dom().contains(id) <==> w.nodes@.dom().contains(id) by {
        lemma_same_facts(v, w, config, lsps, id);
    }
    assert(v.nodes@.dom() =~= w.nodes@.dom());
    assert forall|id: NodeId| #[trigger] v.nodes@.contains_key(id) implies same_node_shape(v.nodes@[id], w.nodes@[id]) by {
        lemma_same_facts(v, w, config, lsps, id);
        let a = v.nodes@[id];
        let b = w.nodes@[id];
        assert(a.ect_vids@ == a@.ect_vids && b.ect_vids@ == b@.ect_vids);
        assert(pairs_of(a) =~= pairs_of(b));
    }
    let p = v.links@;
    let q = w.links@;
    assert(views(p).len() == p.len() && views(q).len() == q.len());
    assert forall|i: int| 0 <= i < p.len() implies (#[trigger] p[i])@ == q[i]@ by {
        assert(views(p)[i] == views(q)[i]);
    }
    same_links_same_edges(p, q);
}

/// Two views of one configuration and LSDB need trees for the same roots.
proof fn lemma_same_roots(v: TopologyView, w: TopologyView, config: SpbConfig, lsps: Seq<Lsp>)
    requires
        is_view_of(v, config, lsps),
        is_view_of(w, config, lsps),
    ensures
        root_set(v) == root_set(w),
{
    lemma_roots_within(v, w, config, lsps);
    lemma_roots_within(w, v, config, lsps);
    assert(root_set(v) =~= root_set(w));
}

proof fn lemma_roots_within(v: TopologyView, w: TopologyView, config: SpbConfig, lsps: Seq<Lsp>)
    requires
        is_view_of(v, config, lsps),
        is_view_of(w, config, lsps),
    ensures
        root_set(v).subset_of(root_set(w)),
{
    assert forall|id: NodeId| root_set(v).contains(id) implies root_set(w).contains(id) by {
        lemma_same_facts(v, w, config, lsps, id);
        if id != v.local {
            let isid = choose|isid: u32| #[trigger] node_lists(v.nodes@[id], isid, Role::Transmit);
            lemma_same_lists(v.nodes@[id], w.nodes@[id], isid, Role::Transmit);
        }
    }
}

/// Nodes of which the same is said list the same I-SIDs.
proof fn lemma_same_lists(a: NodeView, b: NodeView, isid: u32, role: Role)
    requires
        a@ == b@,
        node_lists(a, isid, role),
    ensures
        node_lists(b, isid, role),
{
    let i = choose|i: int| 0 <= i < a.services@.len() && service_lists(#[trigger] a.services@[i], isid, role);
    assert(a@.services.len() == a.services@.len() && b@.services.len() == b.services@.len());
    assert(a@.services[i] == a.services@[i]@ && b@.services[i] == b.services@[i]@);
    let s = a.services@[i];
    let t = b.services@[i];
    assert(s.isids@ == s@.isids && t.isids@ == t@.isids);
    assert(service_lists(t, isid, role));
}

/// A tree that was not held back, and whose distance has not changed, is
/// programmed whether neighbours agree or not.
pub proof fn settled_trees_are_programmed(
    after: SpbState,
    before: SpbState,
    config: SpbConfig,
    interfaces: Seq<SpbInterface>,
    lsps: Seq<Lsp>,
    update: Option<DataplaneUpdate>,
    full: FdbState,
    key: MulticastKey,
)
    requires
        recomputes(after, before, config, interfaces, lsps, update),
        is_fdb_of(full, after.view->0, after.trees@, MT_STANDARD, configured_ect_vids(config)),
        full.multicast.contains_key(key),
        !before.unsafe_trees@.contains((RootKey { base_vid: key.base_vid, root: full.multicast[key].source })),
        forall|k: TreeKey| #[trigger]
            after.trees@.contains_key(k) && k.base_vid == key.base_vid && k.root == full.multicast[key].source ==> distance(
                after.trees@,
                k,
                after.view->0.local,
            ) == distance(before.trees@, k, after.view->0.local),
    ensures
        after.fdb@.multicast.contains_key(key),
        after.fdb@.multicast[key] == full.multicast[key],
{
    let view = after.view->0;
    let ects = configured_ect_vids(config);
    let built = choose|built: FdbState| #[trigger]
        is_fdb_of(built, view, after.trees@, MT_STANDARD, ects) && after.fdb@ == programmable(
            built,
            after.unsafe_trees@,
            after.agreed_adjacencies,
        ) && after.withheld == built.multicast.dom().len() - after.fdb@.multicast.dom().len();
    fdb_is_determined(built, full, view, after.trees@, MT_STANDARD, ects);
}

/// Before the first change there is no forwarding state.
pub open spec fn starts_empty(state: SpbState) -> bool {
    state.generation == 0 ==> state.fdb@ == empty_state()
}

/// A computation keeps to it.
pub proof fn recompute_starts_empty(
    after: SpbState,
    before: SpbState,
    config: SpbConfig,
    interfaces: Seq<SpbInterface>,
    lsps: Seq<Lsp>,
    update: Option<DataplaneUpdate>,
)
    requires
        starts_empty(before),
        recomputes(after, before, config, interfaces, lsps, update),
    ensures
        starts_empty(after),
{
}

/// An update brings the dataplane up to date: applied to what the dataplane
/// had, it gives the new forwarding state. The first update does so whatever
/// the dataplane had.
pub proof fn update_brings_dataplane_up_to_date(after: SpbState, before: SpbState, table: FdbState)
    requires
        due_delta(after, before) is Some,
        before.generation == 0 || table == before.fdb@,
    ensures
        applied(table, due_delta(after, before)->0) == after.fdb@,
{
    fdb_is_finite(after.fdb);
    fdb_is_finite(before.fdb);
    if before.generation == 0 {
        snapshot_applies(after.fdb@, table, after.generation);
    } else {
        delta_applies(after.fdb@, before.fdb@, after.generation);
    }
}

/// The answer to a call for a snapshot brings the dataplane up to date,
/// whatever it had.
pub proof fn resync_brings_dataplane_up_to_date(
    state: SpbState,
    config: SpbConfig,
    interfaces: Seq<SpbInterface>,
    update: DataplaneUpdate,
    table: FdbState,
)
    requires
        carries(update, snapshot_of(state.fdb@, state.generation), config, interfaces),
    ensures
        update.delta.snapshot,
        applied(table, update.delta@) == state.fdb@,
{
    fdb_is_finite(state.fdb);
    snapshot_applies(state.fdb@, table, state.generation);
}

/// Where no update is due, the forwarding state has not changed.
pub proof fn no_update_no_change(after: SpbState, before: SpbState)
    requires
        starts_empty(before),
        due_delta(after, before) is None,
    ensures
        after.fdb@ == before.fdb@,
{
    fdb_is_finite(after.fdb);
    fdb_is_finite(before.fdb);
    delta_empty_iff_same(after.fdb@, before.fdb@, after.generation);
}

} // verus!
