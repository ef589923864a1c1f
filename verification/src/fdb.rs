//! Forwarding database generation.
//!
//! This is the output of SPB computation: the unicast and multicast tables
//! the dataplane programs into hardware or eBPF maps.
//!
//! Entries name a **next-hop node**, not an interface. Resolving a node to a
//! local interface needs the adjacency database; keeping that resolution at
//! the boundary means nothing here has to model interfaces.

use vstd::prelude::*;

use crate::diff::{
    added, added_entries, contents, copy_keys, copy_list, copy_table, listed, patch, patch_empty_iff_same, patch_restores, patched, removed, removed_keys, Entry,
};
use crate::mac::{lemma_mac_bytes, lemma_mac_ordinal_bound, MacAddr};
use crate::mcast::{group_bmac, group_bytes};
use crate::node::NodeId;
use crate::ordmap::{lemma_ordered_exists, lemma_push_set, ordered, Key, OrdMap, OrdSet};
use crate::topology::{
    bindings, check_node_lists, check_node_lists_on, check_service_lists, has_role, isid_set, node_lists, node_lists_on, selected,
    service_lists, EctVid, IsidBinding, NodeView, Role, Selector, ServiceView, TopologyView,
};
use crate::region::{Region, HOP_LIMIT};
use crate::spt::{chosen_path_continues, chosen_paths};
use crate::tree::{
    child_set, is_tree_of, lies_above, tree_has_one_root, tree_path_is_chosen, trees_symmetric, trees_symmetric_cost, SpbTree,
    TreeKey, TreeSet,
};

verus! {

/// Identifies a unicast forwarding entry.
#[derive(Clone, Copy, Debug, Eq, Ord, PartialEq, PartialOrd)]
pub struct UnicastKey {
    pub base_vid: u16,
    pub bmac: MacAddr,
}

/// A unicast forwarding entry.
///
/// The same table answers the mandatory ingress check: a frame arriving with
/// `{B-SA, B-VID}` must have come from the node this entry points at.
/// RFC 6329, Section 4.2.
#[derive(Clone, Copy, Debug, Eq, PartialEq)]
pub struct UnicastEntry {
    /// The node that owns this B-MAC.
    pub owner: NodeId,
    /// The adjacent node to forward through; `None` when the B-MAC is local.
    pub nexthop: Option<NodeId>,
    pub cost: u32,
}

/// Identifies a multicast forwarding entry.
#[derive(Clone, Copy, Debug, Eq, Ord, PartialEq, PartialOrd)]
pub struct MulticastKey {
    pub base_vid: u16,
    pub group_bmac: MacAddr,
}

/// A multicast forwarding entry for one `(S, G)` tree.
#[derive(Debug, Eq, PartialEq)]
pub struct MulticastEntry {
    /// The source that roots this distribution tree.
    pub source: NodeId,
    pub isid: u32,
    /// Whether the local node must decapsulate and deliver to its own UNI
    /// ports, i.e. whether it advertised the R bit for this I-SID.
    pub local_deliver: bool,
    /// The downstream branches to replicate onto: the local node's children
    /// on the tree rooted at `source`.
    pub branches: OrdSet<NodeId>,
}

/// A service instance and the ports/nodes participating in it.
#[derive(Debug, Eq, PartialEq)]
pub struct ServiceEntry {
    pub base_vid: u16,
    /// Whether the local node transmits into this service.
    pub transmit: bool,
    /// Whether the local node receives from this service.
    pub receive: bool,
    /// Remote nodes participating in the service, with their B-MACs.
    pub members: OrdMap<NodeId, MacAddr>,
}

/// The complete forwarding state derived from one topology view.
#[derive(Debug, Eq, PartialEq)]
pub struct Fdb {
    pub unicast: OrdMap<UnicastKey, UnicastEntry>,
    pub multicast: OrdMap<MulticastKey, MulticastEntry>,
    pub services: OrdMap<u32, ServiceEntry>,
}

/// An incremental change to the forwarding state.
///
/// This type is what crosses the boundary to the dataplane.
#[derive(Debug)]
pub struct FdbDelta {
    /// Monotonic generation, used to reconcile after either side restarts.
    pub generation: u64,
    /// Whether this delta replaces all previous state rather than amending
    /// it.
    pub snapshot: bool,
    pub unicast_added: Vec<(UnicastKey, UnicastEntry)>,
    pub unicast_removed: Vec<UnicastKey>,
    pub multicast_added: Vec<(MulticastKey, MulticastEntry)>,
    pub multicast_removed: Vec<MulticastKey>,
    pub services_added: Vec<(u32, ServiceEntry)>,
    pub services_removed: Vec<u32>,
}

// ===== models =====

/// What a multicast entry says.
pub ghost struct MulticastState {
    pub source: NodeId,
    pub isid: u32,
    pub local_deliver: bool,
    pub branches: Set<NodeId>,
}

/// What a service entry says.
pub ghost struct ServiceState {
    pub base_vid: u16,
    pub transmit: bool,
    pub receive: bool,
    pub members: Map<NodeId, MacAddr>,
}

/// What the forwarding tables say.
pub ghost struct FdbState {
    pub unicast: Map<UnicastKey, UnicastEntry>,
    pub multicast: Map<MulticastKey, MulticastState>,
    pub services: Map<u32, ServiceState>,
}

/// What a change says.
pub ghost struct DeltaState {
    pub generation: u64,
    pub snapshot: bool,
    pub unicast_added: Seq<(UnicastKey, UnicastEntry)>,
    pub unicast_removed: Seq<UnicastKey>,
    pub multicast_added: Seq<(MulticastKey, MulticastState)>,
    pub multicast_removed: Seq<MulticastKey>,
    pub services_added: Seq<(u32, ServiceState)>,
    pub services_removed: Seq<u32>,
}

impl View for UnicastEntry {
    type V = UnicastEntry;

    open spec fn view(&self) -> UnicastEntry {
        *self
    }
}

impl View for MulticastEntry {
    type V = MulticastState;

    open spec fn view(&self) -> MulticastState {
        MulticastState {
            source: self.source,
            isid: self.isid,
            local_deliver: self.local_deliver,
            branches: self.branches@,
        }
    }
}

impl View for ServiceEntry {
    type V = ServiceState;

    open spec fn view(&self) -> ServiceState {
        ServiceState {
            base_vid: self.base_vid,
            transmit: self.transmit,
            receive: self.receive,
            members: self.members@,
        }
    }
}

impl View for Fdb {
    type V = FdbState;

    open spec fn view(&self) -> FdbState {
        FdbState {
            unicast: contents(self.unicast@),
            multicast: contents(self.multicast@),
            services: contents(self.services@),
        }
    }
}

impl View for FdbDelta {
    type V = DeltaState;

    open spec fn view(&self) -> DeltaState {
        DeltaState {
            generation: self.generation,
            snapshot: self.snapshot,
            unicast_added: listed(self.unicast_added@),
            unicast_removed: self.unicast_removed@,
            multicast_added: listed(self.multicast_added@),
            multicast_removed: self.multicast_removed@,
            services_added: listed(self.services_added@),
            services_removed: self.services_removed@,
        }
    }
}

impl Key for UnicastKey {
    /// Entries are ordered by Base VID, then by B-MAC.
    open spec fn ordinal(self) -> nat {
        (self.base_vid * 0x1_0000_0000_0000 + self.bmac.ordinal()) as nat
    }

    proof fn ordinal_injective(a: Self, b: Self) {
        lemma_mac_ordinal_bound(a.bmac);
        lemma_mac_ordinal_bound(b.bmac);
        lemma_address_parts(a.base_vid as int, a.bmac.ordinal() as int, b.base_vid as int, b.bmac.ordinal() as int);
        MacAddr::ordinal_injective(a.bmac, b.bmac);
    }

    fn ordinal_value(&self) -> (value: u128) {
        self.base_vid as u128 * 0x1_0000_0000_0000 + self.bmac.ordinal_value()
    }
}

impl Key for MulticastKey {
    /// Entries are ordered by Base VID, then by group B-MAC.
    open spec fn ordinal(self) -> nat {
        (self.base_vid * 0x1_0000_0000_0000 + self.group_bmac.ordinal()) as nat
    }

    proof fn ordinal_injective(a: Self, b: Self) {
        lemma_mac_ordinal_bound(a.group_bmac);
        lemma_mac_ordinal_bound(b.group_bmac);
        lemma_address_parts(
            a.base_vid as int,
            a.group_bmac.ordinal() as int,
            b.base_vid as int,
            b.group_bmac.ordinal() as int,
        );
        MacAddr::ordinal_injective(a.group_bmac, b.group_bmac);
    }

    fn ordinal_value(&self) -> (value: u128) {
        self.base_vid as u128 * 0x1_0000_0000_0000 + self.group_bmac.ordinal_value()
    }
}

proof fn lemma_address_parts(a: int, b: int, x: int, y: int)
    requires
        0 <= b < 0x1_0000_0000_0000,
        0 <= y < 0x1_0000_0000_0000,
        a * 0x1_0000_0000_0000 + b == x * 0x1_0000_0000_0000 + y,
    ensures
        a == x,
        b == y,
{
}

fn same_node(a: Option<NodeId>, b: Option<NodeId>) -> (r: bool)
    ensures
        r == (a == b),
{
    match (a, b) {
        (Some(x), Some(y)) => x.same(&y),
        (None, None) => true,
        _ => false,
    }
}

impl Entry for UnicastEntry {
    fn same(&self, other: &Self) -> (b: bool) {
        self.owner.same(&other.owner) && same_node(self.nexthop, other.nexthop) && self.cost == other.cost
    }

    fn duplicate(&self) -> (entry: Self) {
        *self
    }
}

impl Entry for MulticastEntry {
    fn same(&self, other: &Self) -> (b: bool) {
        self.source.same(&other.source) && self.isid == other.isid && self.local_deliver == other.local_deliver
            && self.branches.same(&other.branches)
    }

    fn duplicate(&self) -> (entry: Self) {
        MulticastEntry {
            source: self.source,
            isid: self.isid,
            local_deliver: self.local_deliver,
            branches: self.branches.clone(),
        }
    }
}

/// Returns whether two member lists are the same.
fn same_members(a: &OrdMap<NodeId, MacAddr>, b: &OrdMap<NodeId, MacAddr>) -> (r: bool)
    ensures
        r == (a@ == b@),
{
    if a.len() != b.len() {
        return false;
    }
    let keys = a.keys();
    for i in 0..keys.len()
        invariant
            forall|j: int| 0 <= j < keys@.len() ==> a@.contains_key(#[trigger] keys@[j]),
            forall|j: int| 0 <= j < i ==> b@.contains_key(#[trigger] keys@[j]) && a@[keys@[j]] == b@[keys@[j]],
    {
        assert(a@.contains_key(keys@[i as int]));
        match (a.get(&keys[i]), b.get(&keys[i])) {
            (Some(x), Some(y)) => {
                if !x.same(y) {
                    return false;
                }
            },
            _ => {
                return false;
            },
        }
    }
    proof {
        assert forall|k: NodeId| a@.dom().contains(k) implies b@.dom().contains(k) && a@[k] == b@[k] by {
            assert(keys@.to_set().contains(k));
            let j = choose|j: int| 0 <= j < keys@.len() && keys@[j] == k;
        }
        assert(a@.dom().subset_of(b@.dom()));
        a.lemma_finite();
        b.lemma_finite();
        vstd::set_lib::lemma_subset_equality(a@.dom(), b@.dom());
        assert(a@ =~= b@);
    }
    true
}

fn copy_members(a: &OrdMap<NodeId, MacAddr>) -> (b: OrdMap<NodeId, MacAddr>)
    ensures
        b@ == a@,
{
    let keys = a.keys();
    let mut b: OrdMap<NodeId, MacAddr> = OrdMap::new();
    for i in 0..keys.len()
        invariant
            forall|j: int| 0 <= j < keys@.len() ==> a@.contains_key(#[trigger] keys@[j]),
            forall|k: NodeId| #[trigger] b@.contains_key(k) ==> a@.contains_key(k) && b@[k] == a@[k],
            forall|j: int| 0 <= j < i ==> b@.contains_key(#[trigger] keys@[j]),
    {
        assert(a@.contains_key(keys@[i as int]));
        if let Some(mac) = a.get(&keys[i]) {
            b.insert(keys[i], *mac);
        }
    }
    proof {
        assert forall|k: NodeId| a@.dom().contains(k) implies b@.dom().contains(k) by {
            assert(keys@.to_set().contains(k));
            let j = choose|j: int| 0 <= j < keys@.len() && keys@[j] == k;
            assert(b@.contains_key(keys@[j]));
        }
        assert(b@ =~= a@);
    }
    b
}

impl Entry for ServiceEntry {
    fn same(&self, other: &Self) -> (b: bool) {
        self.base_vid == other.base_vid && self.transmit == other.transmit && self.receive == other.receive && same_members(
            &self.members,
            &other.members,
        )
    }

    fn duplicate(&self) -> (entry: Self) {
        ServiceEntry {
            base_vid: self.base_vid,
            transmit: self.transmit,
            receive: self.receive,
            members: copy_members(&self.members),
        }
    }
}

impl Clone for MulticastEntry {
    fn clone(&self) -> (entry: Self)
        ensures
            entry@ == self@,
    {
        self.duplicate()
    }
}

impl Clone for ServiceEntry {
    fn clone(&self) -> (entry: Self)
        ensures
            entry@ == self@,
    {
        self.duplicate()
    }
}

impl Default for ServiceEntry {
    fn default() -> (entry: Self)
        ensures
            entry@ == (ServiceState { base_vid: 0, transmit: false, receive: false, members: Map::empty() }),
    {
        ServiceEntry { base_vid: 0, transmit: false, receive: false, members: OrdMap::new() }
    }
}

/// Tables without entries.
pub open spec fn empty_state() -> FdbState {
    FdbState { unicast: Map::empty(), multicast: Map::empty(), services: Map::empty() }
}

impl Default for Fdb {
    fn default() -> (fdb: Self)
        ensures
            fdb@ == empty_state(),
    {
        let fdb = Fdb { unicast: OrdMap::new(), multicast: OrdMap::new(), services: OrdMap::new() };
        assert(fdb@.unicast =~= Map::empty());
        assert(fdb@.multicast =~= Map::empty());
        assert(fdb@.services =~= Map::empty());
        fdb
    }
}

impl Clone for Fdb {
    fn clone(&self) -> (fdb: Self)
        ensures
            fdb@ == self@,
    {
        Fdb {
            unicast: copy_table(&self.unicast),
            multicast: copy_table(&self.multicast),
            services: copy_table(&self.services),
        }
    }
}

impl Default for FdbDelta {
    fn default() -> (delta: Self)
        ensures
            delta.generation == 0,
            !delta.snapshot,
            delta_len(delta@) == 0,
    {
        FdbDelta {
            generation: 0,
            snapshot: false,
            unicast_added: Vec::new(),
            unicast_removed: Vec::new(),
            multicast_added: Vec::new(),
            multicast_removed: Vec::new(),
            services_added: Vec::new(),
            services_removed: Vec::new(),
        }
    }
}

impl Clone for FdbDelta {
    fn clone(&self) -> (delta: Self)
        ensures
            delta@ == self@,
    {
        FdbDelta {
            generation: self.generation,
            snapshot: self.snapshot,
            unicast_added: copy_list(&self.unicast_added),
            unicast_removed: copy_keys(&self.unicast_removed),
            multicast_added: copy_list(&self.multicast_added),
            multicast_removed: copy_keys(&self.multicast_removed),
            services_added: copy_list(&self.services_added),
            services_removed: copy_keys(&self.services_removed),
        }
    }
}

// ===== changes =====

/// The change that leads from one state to another.
pub open spec fn delta_between(now: FdbState, before: FdbState, generation: u64) -> DeltaState {
    DeltaState {
        generation,
        snapshot: false,
        unicast_added: added(now.unicast, before.unicast),
        unicast_removed: removed(now.unicast, before.unicast),
        multicast_added: added(now.multicast, before.multicast),
        multicast_removed: removed(now.multicast, before.multicast),
        services_added: added(now.services, before.services),
        services_removed: removed(now.services, before.services),
    }
}

/// The change that installs a state from scratch.
pub open spec fn snapshot_of(now: FdbState, generation: u64) -> DeltaState {
    DeltaState { snapshot: true, ..delta_between(now, empty_state(), generation) }
}

/// A state after a change.
pub open spec fn applied(before: FdbState, delta: DeltaState) -> FdbState {
    let base = if delta.snapshot {
        empty_state()
    } else {
        before
    };
    FdbState {
        unicast: patched(base.unicast, delta.unicast_removed, delta.unicast_added),
        multicast: patched(base.multicast, delta.multicast_removed, delta.multicast_added),
        services: patched(base.services, delta.services_removed, delta.services_added),
    }
}

/// The number of entries that a change touches.
pub open spec fn delta_len(delta: DeltaState) -> nat {
    delta.unicast_added.len() + delta.unicast_removed.len() + delta.multicast_added.len() + delta.multicast_removed.len()
        + delta.services_added.len() + delta.services_removed.len()
}

/// The tables have finitely many entries.
pub open spec fn is_finite(state: FdbState) -> bool {
    &&& state.unicast.dom().finite()
    &&& state.multicast.dom().finite()
    &&& state.services.dom().finite()
}

/// Tables that can be held are finite.
pub proof fn fdb_is_finite(fdb: Fdb)
    ensures
        is_finite(fdb@),
{
    fdb.unicast.lemma_finite();
    fdb.multicast.lemma_finite();
    fdb.services.lemma_finite();
    assert(fdb@.unicast.dom() =~= fdb.unicast@.dom());
    assert(fdb@.multicast.dom() =~= fdb.multicast@.dom());
    assert(fdb@.services.dom() =~= fdb.services@.dom());
}

/// Applying the change between two states to the first gives the second.
pub proof fn delta_applies(now: FdbState, before: FdbState, generation: u64)
    requires
        is_finite(now),
        is_finite(before),
    ensures
        applied(before, delta_between(now, before, generation)) == now,
{
    patch_restores(now.unicast, before.unicast);
    patch_restores(now.multicast, before.multicast);
    patch_restores(now.services, before.services);
}

/// Applying a snapshot gives the state it was taken of, whatever was there
/// before.
pub proof fn snapshot_applies(now: FdbState, before: FdbState, generation: u64)
    requires
        is_finite(now),
    ensures
        applied(before, snapshot_of(now, generation)) == now,
{
    patch_restores(now.unicast, empty_state().unicast);
    patch_restores(now.multicast, empty_state().multicast);
    patch_restores(now.services, empty_state().services);
}

/// The change between two states is empty just when they are the same.
pub proof fn delta_empty_iff_same(now: FdbState, before: FdbState, generation: u64)
    requires
        is_finite(now),
        is_finite(before),
    ensures
        delta_len(delta_between(now, before, generation)) == 0 <==> now == before,
{
    patch_empty_iff_same(now.unicast, before.unicast);
    patch_empty_iff_same(now.multicast, before.multicast);
    patch_empty_iff_same(now.services, before.services);
}

impl Fdb {
    /// Returns the node a frame with this `{B-SA, B-VID}` must have arrived
    /// from, for the mandatory ingress check.
    pub fn ingress_check(&self, base_vid: u16, bsa: MacAddr) -> (node: Option<NodeId>)
        ensures
            node == (if self.unicast@.contains_key((UnicastKey { base_vid, bmac: bsa })) {
                self.unicast@[(UnicastKey { base_vid, bmac: bsa })].nexthop
            } else {
                None
            }),
    {
        match self.unicast.get(&UnicastKey { base_vid, bmac: bsa }) {
            Some(entry) => entry.nexthop,
            None => None,
        }
    }

    /// Computes the delta from `previous` to `self`.
    pub fn delta(&self, previous: &Fdb, generation: u64) -> (delta: FdbDelta)
        ensures
            delta@ == delta_between(self@, previous@, generation),
    {
        FdbDelta {
            generation,
            snapshot: false,
            unicast_added: added_entries(&self.unicast, &previous.unicast),
            unicast_removed: removed_keys(&self.unicast, &previous.unicast),
            multicast_added: added_entries(&self.multicast, &previous.multicast),
            multicast_removed: removed_keys(&self.multicast, &previous.multicast),
            services_added: added_entries(&self.services, &previous.services),
            services_removed: removed_keys(&self.services, &previous.services),
        }
    }

    /// Returns a delta that installs this state from scratch.
    pub fn snapshot(&self, generation: u64) -> (delta: FdbDelta)
        ensures
            delta@ == snapshot_of(self@, generation),
    {
        let mut delta = self.delta(&Fdb::default(), generation);
        delta.snapshot = true;
        delta
    }
}

impl FdbDelta {
    /// Returns whether the delta changes anything.
    pub fn is_empty(&self) -> (b: bool)
        ensures
            b == (delta_len(self@) == 0),
            b <==> self.unicast_added@.len() == 0 && self.unicast_removed@.len() == 0 && self.multicast_added@.len() == 0
                && self.multicast_removed@.len() == 0 && self.services_added@.len() == 0 && self.services_removed@.len() == 0,
    {
        self.unicast_added.len() == 0 && self.unicast_removed.len() == 0 && self.multicast_added.len() == 0
            && self.multicast_removed.len() == 0 && self.services_added.len() == 0 && self.services_removed.len() == 0
    }

    /// Total number of changed entries.
    pub fn len(&self) -> (n: usize)
        requires
            delta_len(self@) <= usize::MAX,
        ensures
            n == delta_len(self@),
            n == self.unicast_added@.len() + self.unicast_removed@.len() + self.multicast_added@.len()
                + self.multicast_removed@.len() + self.services_added@.len() + self.services_removed@.len(),
    {
        self.unicast_added.len() + self.unicast_removed.len() + self.multicast_added.len() + self.multicast_removed.len()
            + self.services_added.len() + self.services_removed.len()
    }

    /// Applies this delta to a forwarding table, mirroring what the dataplane
    /// does.
    pub fn apply(&self, fdb: &mut Fdb)
        ensures
            final(fdb)@ == applied(old(fdb)@, self@),
    {
        if self.snapshot {
            *fdb = Fdb::default();
        }
        patch(&mut fdb.unicast, &self.unicast_removed, &self.unicast_added);
        patch(&mut fdb.multicast, &self.multicast_removed, &self.multicast_added);
        patch(&mut fdb.services, &self.services_removed, &self.services_added);
    }
}

// ===== what a view gives rise to =====

/// What a table says under a key.
pub open spec fn lookup<K, S>(table: Map<K, S>, key: K) -> Option<S> {
    if table.contains_key(key) {
        Some(table[key])
    } else {
        None
    }
}

/// Whether some service of a list is bound to `base_vid` and has the address
/// `bmac`.
pub open spec fn advertises(services: Seq<ServiceView>, base_vid: u16, bmac: MacAddr) -> bool {
    exists|i: int| 0 <= i < services.len() && (#[trigger] services[i]).base_vid == base_vid && services[i].bmac == bmac
}

/// The last node of a list that is on the tree and advertises an address.
pub open spec fn last_owner(view: TopologyView, tree: SpbTree, key: UnicastKey, ids: Seq<NodeId>) -> Option<NodeId>
    decreases ids.len(),
{
    if ids.len() == 0 {
        None
    } else if tree.nodes@.contains_key(ids.last()) && advertises(
        view.nodes@[ids.last()].services@,
        key.base_vid,
        key.bmac,
    ) {
        Some(ids.last())
    } else {
        last_owner(view, tree, key, ids.drop_last())
    }
}

/// The entry for an address that `owner` advertises.
pub open spec fn unicast_entry(tree: SpbTree, owner: NodeId) -> UnicastEntry {
    UnicastEntry { owner, nexthop: tree.nodes@[owner].first_hop, cost: tree.nodes@[owner].cost }
}

/// What the tree of one tree set says of an address: the last of the nodes on
/// it that advertise the address owns it.
pub open spec fn unicast_on(view: TopologyView, tree: SpbTree, base_vid: u16, key: UnicastKey) -> Option<UnicastEntry> {
    match last_owner(view, tree, key, ordered(view.nodes@.dom())) {
        Some(owner) if key.base_vid == base_vid => Some(unicast_entry(tree, owner)),
        _ => None,
    }
}

/// The key of the tree of a tree set that is rooted at `root`.
pub open spec fn tree_key(mt_id: u16, ect_vid: EctVid, root: NodeId) -> TreeKey {
    TreeKey { mt_id, base_vid: ect_vid.base_vid, algorithm: ect_vid.algorithm, root }
}

/// The unicast entry under a key: that of the last tree set that has one.
pub open spec fn unicast_for(
    view: TopologyView,
    trees: Map<TreeKey, SpbTree>,
    mt_id: u16,
    ect_vids: Seq<EctVid>,
    key: UnicastKey,
) -> Option<UnicastEntry>
    decreases ect_vids.len(),
{
    if ect_vids.len() == 0 {
        None
    } else {
        let e = ect_vids.last();
        let k = tree_key(mt_id, e, view.local);
        match unicast_on(view, trees[k], e.base_vid, key) {
            Some(entry) if trees.contains_key(k) => Some(entry),
            _ => unicast_for(view, trees, mt_id, ect_vids.drop_last(), key),
        }
    }
}

/// Whether a receiver of a service lies at or below `child` on a tree.
pub open spec fn has_receiver(view: TopologyView, tree: SpbTree, child: NodeId, isid: u32, base_vid: u16) -> bool {
    exists|n: NodeId| #[trigger]
        lies_above(tree.nodes@, child, n) && view.nodes@.contains_key(n) && node_lists_on(
            view.nodes@[n],
            isid,
            base_vid,
            Role::Receive,
        )
}

/// The children of the local node on a tree that a service is replicated to.
pub open spec fn branch_set(view: TopologyView, tree: SpbTree, isid: u32, base_vid: u16) -> Set<NodeId> {
    Set::new(
        |child: NodeId| child_set(tree.nodes@, view.local).contains(child) && has_receiver(view, tree, child, isid, base_vid),
    )
}

/// Whether the local node receives from a service.
pub open spec fn local_receives(view: TopologyView, isid: u32, base_vid: u16) -> bool {
    view.nodes@.contains_key(view.local) && node_lists_on(view.nodes@[view.local], isid, base_vid, Role::Receive)
}

/// What the local node holds for the distribution tree that `source` roots for
/// a service, if it holds anything: it must be on the tree, and either receive
/// itself or have a branch to replicate onto.
pub open spec fn multicast_entry(
    view: TopologyView,
    trees: Map<TreeKey, SpbTree>,
    mt_id: u16,
    ect_vid: EctVid,
    isid: u32,
    source: NodeId,
) -> Option<MulticastState> {
    let k = tree_key(mt_id, ect_vid, source);
    let branches = branch_set(view, trees[k], isid, ect_vid.base_vid);
    let receives = local_receives(view, isid, ect_vid.base_vid);
    if trees.contains_key(k) && trees[k].nodes@.contains_key(view.local) && (receives || branches != Set::<NodeId>::empty()) {
        Some(MulticastState { source, isid, local_deliver: receives, branches })
    } else {
        None
    }
}

/// Whether a key is that of the distribution tree of a source and a service.
pub open spec fn is_group_key(view: TopologyView, ect_vid: EctVid, isid: u32, source: NodeId, key: MulticastKey) -> bool {
    &&& key.base_vid == ect_vid.base_vid
    &&& key.group_bmac@ == group_bytes(view.nodes@[source].spsource_id, isid)
}

/// What the last source of a list that uses a group address gives rise to.
pub open spec fn multicast_from(
    view: TopologyView,
    trees: Map<TreeKey, SpbTree>,
    mt_id: u16,
    ect_vid: EctVid,
    isid: u32,
    sources: Seq<NodeId>,
    key: MulticastKey,
) -> Option<MulticastState>
    decreases sources.len(),
{
    if sources.len() == 0 {
        None
    } else {
        match multicast_entry(view, trees, mt_id, ect_vid, isid, sources.last()) {
            Some(entry) if is_group_key(view, ect_vid, isid, sources.last(), key) => Some(entry),
            _ => multicast_from(view, trees, mt_id, ect_vid, isid, sources.drop_last(), key),
        }
    }
}

/// The sources of a service on a Base VID, in order.
pub open spec fn sources_of(view: TopologyView, isid: u32, base_vid: u16) -> Seq<NodeId> {
    ordered(selected(view.nodes@, Selector::ListsOn(isid, base_vid, Role::Transmit)))
}

/// What the last service of a list that uses a group address gives rise to on
/// the Base VID of a tree set. Services bound to other Base VIDs give rise to
/// nothing there.
pub open spec fn multicast_on(
    view: TopologyView,
    trees: Map<TreeKey, SpbTree>,
    mt_id: u16,
    ect_vid: EctVid,
    pairs: Seq<IsidBinding>,
    key: MulticastKey,
) -> Option<MulticastState>
    decreases pairs.len(),
{
    if pairs.len() == 0 {
        None
    } else {
        let b = pairs.last();
        match multicast_from(view, trees, mt_id, ect_vid, b.isid, sources_of(view, b.isid, b.base_vid), key) {
            Some(entry) if b.base_vid == ect_vid.base_vid => Some(entry),
            _ => multicast_on(view, trees, mt_id, ect_vid, pairs.drop_last(), key),
        }
    }
}

/// The multicast entry under a key: that of the last tree set that carries
/// multicast and has one.
pub open spec fn multicast_for(
    view: TopologyView,
    trees: Map<TreeKey, SpbTree>,
    mt_id: u16,
    ect_vids: Seq<EctVid>,
    key: MulticastKey,
) -> Option<MulticastState>
    decreases ect_vids.len(),
{
    if ect_vids.len() == 0 {
        None
    } else {
        let e = ect_vids.last();
        match multicast_on(view, trees, mt_id, e, ordered(bindings(view.nodes@)), key) {
            Some(entry) if e.multicast && trees.contains_key(tree_key(mt_id, e, view.local)) => Some(entry),
            _ => multicast_for(view, trees, mt_id, ect_vids.drop_last(), key),
        }
    }
}

/// The last service of a list that lists `isid`.
pub open spec fn last_listing(services: Seq<ServiceView>, isid: u32) -> Option<ServiceView>
    decreases services.len(),
{
    if services.len() == 0 {
        None
    } else if service_lists(services.last(), isid, Role::Any) {
        Some(services.last())
    } else {
        last_listing(services.drop_last(), isid)
    }
}

/// The nodes that advertise `isid`, in order.
pub open spec fn advertisers(view: TopologyView, isid: u32) -> Seq<NodeId> {
    ordered(selected(view.nodes@, Selector::Lists(isid, Role::Any)))
}

/// Whether the local node lists `isid` in a role.
pub open spec fn local_lists(view: TopologyView, isid: u32, role: Role) -> bool {
    view.nodes@.contains_key(view.local) && node_lists(view.nodes@[view.local], isid, role)
}

/// The state of a service: the local node's own part in it, and the address by
/// which each other advertiser last listed it. The Base VID is the one under
/// which the last advertiser last listed it.
pub open spec fn service_state(view: TopologyView, isid: u32) -> ServiceState {
    ServiceState {
        base_vid: last_listing(view.nodes@[advertisers(view, isid).last()].services@, isid)->0.base_vid,
        transmit: local_lists(view, isid, Role::Transmit),
        receive: local_lists(view, isid, Role::Receive),
        members: Map::new(
            |n: NodeId| n != view.local && view.nodes@.contains_key(n) && node_lists(view.nodes@[n], isid, Role::Any),
            |n: NodeId| last_listing(view.nodes@[n].services@, isid)->0.bmac,
        ),
    }
}

/// `state` is the forwarding state that a view and its trees give rise to.
pub open spec fn is_fdb_of(
    state: FdbState,
    view: TopologyView,
    trees: Map<TreeKey, SpbTree>,
    mt_id: u16,
    ect_vids: Seq<EctVid>,
) -> bool {
    &&& forall|key: UnicastKey| #[trigger] lookup(state.unicast, key) == unicast_for(view, trees, mt_id, ect_vids, key)
    &&& forall|key: MulticastKey| #[trigger] lookup(state.multicast, key) == multicast_for(view, trees, mt_id, ect_vids, key)
    &&& state.services.dom() == isid_set(view.nodes@)
    &&& forall|isid: u32| #[trigger] state.services.contains_key(isid) ==> state.services[isid] == service_state(view, isid)
}

/// A view and its trees give rise to one forwarding state.
pub proof fn fdb_is_determined(
    a: FdbState,
    b: FdbState,
    view: TopologyView,
    trees: Map<TreeKey, SpbTree>,
    mt_id: u16,
    ect_vids: Seq<EctVid>,
)
    requires
        is_fdb_of(a, view, trees, mt_id, ect_vids),
        is_fdb_of(b, view, trees, mt_id, ect_vids),
    ensures
        a == b,
{
    assert forall|key: UnicastKey| #[trigger] a.unicast.contains_key(key) <==> b.unicast.contains_key(key) by {
        assert(lookup(a.unicast, key) == lookup(b.unicast, key));
    }
    assert forall|key: UnicastKey| #[trigger] a.unicast.contains_key(key) implies a.unicast[key] == b.unicast[key] by {
        assert(lookup(a.unicast, key) == lookup(b.unicast, key));
    }
    assert(a.unicast =~= b.unicast);
    assert forall|key: MulticastKey| #[trigger] a.multicast.contains_key(key) <==> b.multicast.contains_key(key) by {
        assert(lookup(a.multicast, key) == lookup(b.multicast, key));
    }
    assert forall|key: MulticastKey| #[trigger] a.multicast.contains_key(key) implies a.multicast[key] == b.multicast[key] by {
        assert(lookup(a.multicast, key) == lookup(b.multicast, key));
    }
    assert(a.multicast =~= b.multicast);
    assert forall|isid: u32| #[trigger] a.services.contains_key(isid) implies a.services[isid] == b.services[isid] by {
        assert(b.services.contains_key(isid));
    }
    assert(a.services =~= b.services);
}

// ===== building the tables =====

/// Puts in an entry for every address that a list of services binds to a Base
/// VID.
fn insert_addresses(
    table: &mut OrdMap<UnicastKey, UnicastEntry>,
    services: &Vec<ServiceView>,
    base_vid: u16,
    entry: UnicastEntry,
)
    ensures
        forall|key: UnicastKey| #[trigger]
            lookup(final(table)@, key) == (if key.base_vid == base_vid && advertises(services@, base_vid, key.bmac) {
                Some(entry)
            } else {
                lookup(old(table)@, key)
            }),
{
    let ghost before = table@;
    for i in 0..services.len()
        invariant
            forall|key: UnicastKey| #[trigger]
                lookup(table@, key) == (if key.base_vid == base_vid && advertises(
                    services@.take(i as int),
                    base_vid,
                    key.bmac,
                ) {
                    Some(entry)
                } else {
                    lookup(before, key)
                }),
    {
        let ghost was = table@;
        if services[i].base_vid == base_vid {
            table.insert(UnicastKey { base_vid, bmac: services[i].bmac }, entry);
        }
        proof {
            let now = services@.take(i + 1);
            let earlier = services@.take(i as int);
            assert forall|key: UnicastKey| #[trigger] lookup(table@, key) == (if key.base_vid == base_vid && advertises(
                now,
                base_vid,
                key.bmac,
            ) {
                Some(entry)
            } else {
                lookup(before, key)
            }) by {
                assert(lookup(was, key) == (if key.base_vid == base_vid && advertises(earlier, base_vid, key.bmac) {
                    Some(entry)
                } else {
                    lookup(before, key)
                }));
                assert(now[i as int] == services@[i as int]);
                if advertises(earlier, base_vid, key.bmac) {
                    let k = choose|k: int|
                        0 <= k < earlier.len() && (#[trigger] earlier[k]).base_vid == base_vid && earlier[k].bmac == key.bmac;
                    assert(now[k] == earlier[k]);
                }
                if advertises(now, base_vid, key.bmac) {
                    let k = choose|k: int|
                        0 <= k < now.len() && (#[trigger] now[k]).base_vid == base_vid && now[k].bmac == key.bmac;
                    if k < i {
                        assert(now[k] == earlier[k]);
                    }
                }
            }
        }
    }
    assert(services@.take(services@.len() as int) =~= services@);
}

/// Returns whether a receiver of a service lies at or below `child`.
fn check_has_receiver(view: &TopologyView, tree: &SpbTree, child: NodeId, isid: u32, base_vid: u16) -> (b: bool)
    ensures
        b == has_receiver(*view, *tree, child, isid, base_vid),
{
    let below = tree.subtree(child).to_vec();
    for i in 0..below.len()
        invariant
            below@.to_set() == Set::new(|n: NodeId| lies_above(tree.nodes@, child, n)),
            forall|j: int|
                0 <= j < i ==> !(view.nodes@.contains_key(#[trigger] below@[j]) && node_lists_on(
                    view.nodes@[below@[j]],
                    isid,
                    base_vid,
                    Role::Receive,
                )),
    {
        assert(below@.to_set().contains(below@[i as int]));
        if let Some(node) = view.nodes.get(&below[i]) {
            if check_node_lists_on(node, isid, base_vid, Role::Receive) {
                return true;
            }
        }
    }
    proof {
        assert forall|n: NodeId| #[trigger] lies_above(tree.nodes@, child, n) implies !(view.nodes@.contains_key(n)
            && node_lists_on(view.nodes@[n], isid, base_vid, Role::Receive)) by {
            assert(below@.to_set().contains(n));
            let j = choose|j: int| 0 <= j < below@.len() && below@[j] == n;
        }
    }
    false
}

/// Returns the children of the local node that a service is replicated to.
///
/// Each branch is pruned to the receivers below it. Without this a node
/// replicates onto every child in the tree, including subtrees holding no
/// member of the service: the copies are carried across the backbone only to
/// be discarded by the far end for want of a matching group address.
fn branches_of(view: &TopologyView, tree: &SpbTree, isid: u32, base_vid: u16) -> (branches: OrdSet<NodeId>)
    ensures
        branches@ == branch_set(*view, *tree, isid, base_vid),
{
    let children = tree.children(view.local);
    let ghost all = branch_set(*view, *tree, isid, base_vid);
    let mut branches: OrdSet<NodeId> = OrdSet::new();
    for i in 0..children.len()
        invariant
            all == branch_set(*view, *tree, isid, base_vid),
            children@.to_set() == child_set(tree.nodes@, view.local),
            forall|n: NodeId| #[trigger] branches@.contains(n) ==> all.contains(n),
            forall|j: int| 0 <= j < i && all.contains(#[trigger] children@[j]) ==> branches@.contains(children@[j]),
    {
        assert(children@.to_set().contains(children@[i as int]));
        if check_has_receiver(view, tree, children[i], isid, base_vid) {
            branches.insert(children[i]);
        }
    }
    proof {
        assert forall|n: NodeId| all.contains(n) implies branches@.contains(n) by {
            assert(children@.to_set().contains(n));
            let j = choose|j: int| 0 <= j < children@.len() && children@[j] == n;
            assert(branches@.contains(children@[j]));
        }
        assert(branches@ =~= all);
    }
    branches
}

/// Returns what the local node holds for the distribution tree that `source`
/// roots for a service.
fn entry_for(
    view: &TopologyView,
    trees: &TreeSet,
    mt_id: u16,
    ect_vid: &EctVid,
    isid: u32,
    source: NodeId,
) -> (entry: Option<MulticastEntry>)
    ensures
        match entry {
            Some(e) => multicast_entry(*view, trees@, mt_id, *ect_vid, isid, source) == Some(e@),
            None => multicast_entry(*view, trees@, mt_id, *ect_vid, isid, source) is None,
        },
{
    let key = TreeKey { mt_id, base_vid: ect_vid.base_vid, algorithm: ect_vid.algorithm, root: source };
    let tree = trees.get(&key)?;
    if !tree.contains(view.local) {
        return None;
    }
    let receives = match view.nodes.get(&view.local) {
        Some(node) => check_node_lists_on(node, isid, ect_vid.base_vid, Role::Receive),
        None => false,
    };
    let branches = branches_of(view, tree, isid, ect_vid.base_vid);
    proof {
        if branches@.len() == 0 {
            branches.lemma_finite();
            assert(branches@ =~= Set::empty());
        }
    }
    // A node with no branches and no local delivery has no reason to hold
    // state for this tree.
    if branches.is_empty() && !receives {
        return None;
    }
    Some(MulticastEntry { source, isid, local_deliver: receives, branches })
}

/// Returns the last service of a list that lists `isid`.
fn find_last_listing(services: &Vec<ServiceView>, isid: u32) -> (svc: Option<&ServiceView>)
    ensures
        match svc {
            Some(s) => last_listing(services@, isid) == Some(*s),
            None => last_listing(services@, isid) is None,
        },
        (exists|i: int| 0 <= i < services@.len() && service_lists(#[trigger] services@[i], isid, Role::Any)) ==> svc is Some,
{
    let mut left: usize = services.len();
    assert(services@.take(services@.len() as int) =~= services@);
    while left > 0
        invariant
            left <= services@.len(),
            last_listing(services@, isid) == last_listing(services@.take(left as int), isid),
            forall|i: int| left <= i < services@.len() ==> !service_lists(#[trigger] services@[i], isid, Role::Any),
        decreases left,
    {
        left = left - 1;
        let ghost now = services@.take(left + 1);
        assert(now.last() == services@[left as int]);
        assert(now.drop_last() =~= services@.take(left as int));
        if check_service_lists(&services[left], isid, Role::Any) {
            return Some(&services[left]);
        }
    }
    None
}

impl Fdb {
    /// Derives forwarding state from a topology view and its computed trees.
    pub fn build(view: &TopologyView, trees: &TreeSet, mt_id: u16, ect_vids: &[EctVid]) -> (fdb: Self)
        ensures
            is_fdb_of(fdb@, *view, trees@, mt_id, ect_vids@),
    {
        let mut fdb = Fdb::default();
        assert(ect_vids@.take(0) =~= Seq::empty());
        for i in 0..ect_vids.len()
            invariant
                forall|key: UnicastKey| #[trigger]
                    lookup(fdb@.unicast, key) == unicast_for(*view, trees@, mt_id, ect_vids@.take(i as int), key),
                forall|key: MulticastKey| #[trigger]
                    lookup(fdb@.multicast, key) == multicast_for(*view, trees@, mt_id, ect_vids@.take(i as int), key),
        {
            let ect_vid = ect_vids[i];
            proof {
                let now = ect_vids@.take(i + 1);
                assert(now.last() == ect_vid);
                assert(now.drop_last() =~= ect_vids@.take(i as int));
            }
            let local_key = TreeKey {
                mt_id,
                base_vid: ect_vid.base_vid,
                algorithm: ect_vid.algorithm,
                root: view.local,
            };
            assert(local_key == tree_key(mt_id, ect_vid, view.local));
            if let Some(local_tree) = trees.get(&local_key) {
                fdb.build_unicast(view, local_tree, &ect_vid);
                fdb.build_multicast(view, trees, mt_id, &ect_vid);
            }
        }
        assert(ect_vids@.take(ect_vids@.len() as int) =~= ect_vids@);
        fdb.build_services(view);
        fdb
    }

    /// Populates unicast entries for every B-MAC advertised in the region.
    ///
    /// A node may advertise several B-MACs (a nodal address plus per-port or
    /// per-service ones), so entries are keyed by the advertised B-MAC rather
    /// than derived from the System ID.
    fn build_unicast(&mut self, view: &TopologyView, local_tree: &SpbTree, ect_vid: &EctVid)
        ensures
            forall|key: UnicastKey| #[trigger]
                lookup(final(self)@.unicast, key) == (match unicast_on(*view, *local_tree, ect_vid.base_vid, key) {
                    Some(entry) => Some(entry),
                    None => lookup(old(self)@.unicast, key),
                }),
            final(self)@.multicast == old(self)@.multicast,
            final(self)@.services == old(self)@.services,
    {
        let ids = view.nodes.keys();
        let ghost before = self.unicast@;
        let mut table: OrdMap<UnicastKey, UnicastEntry> = OrdMap::new();
        std::mem::swap(&mut table, &mut self.unicast);
        let base_vid: u16 = ect_vid.base_vid;
        assert(ids@.take(0) =~= Seq::empty());
        for i in 0..ids.len()
            invariant
                forall|j: int| 0 <= j < ids@.len() ==> view.nodes@.contains_key(#[trigger] ids@[j]),
                forall|key: UnicastKey| #[trigger]
                    lookup(table@, key) == (match last_owner(*view, *local_tree, key, ids@.take(i as int)) {
                        Some(owner) if key.base_vid == base_vid => Some(unicast_entry(*local_tree, owner)),
                        _ => lookup(before, key),
                    }),
        {
            let id = ids[i];
            let ghost now = ids@.take(i + 1);
            let ghost was = table@;
            proof {
                assert(view.nodes@.contains_key(ids@[i as int]));
                assert(now.last() == id);
                assert(now.drop_last() =~= ids@.take(i as int));
            }
            if let (Some(entry), Some(node)) = (local_tree.nodes.get(&id), view.nodes.get(&id)) {
                let unicast = UnicastEntry { owner: id, nexthop: entry.first_hop, cost: entry.cost };
                insert_addresses(&mut table, &node.services, base_vid, unicast);
            }
            assert forall|key: UnicastKey| #[trigger]
                lookup(table@, key) == (match last_owner(*view, *local_tree, key, now) {
                    Some(owner) if key.base_vid == base_vid => Some(unicast_entry(*local_tree, owner)),
                    _ => lookup(before, key),
                }) by {
                assert(lookup(was, key) == (match last_owner(*view, *local_tree, key, ids@.take(i as int)) {
                    Some(owner) if key.base_vid == base_vid => Some(unicast_entry(*local_tree, owner)),
                    _ => lookup(before, key),
                }));
            }
        }
        assert(ids@.take(ids@.len() as int) =~= ids@);
        self.unicast = table;
        proof {
            lemma_same_contents(self.unicast@);
            lemma_same_contents(before);
        }
    }

    /// Populates multicast entries for every `(S, G)` tree the local node
    /// participates in.
    ///
    /// The local node's branches on the tree rooted at a source are its
    /// children on that tree. That is valid because congruence guarantees the
    /// tree computed locally is the one the source computed.
    fn build_multicast(&mut self, view: &TopologyView, trees: &TreeSet, mt_id: u16, ect_vid: &EctVid)
        ensures
            forall|key: MulticastKey| #[trigger]
                lookup(final(self)@.multicast, key) == (match multicast_on(
                    *view,
                    trees@,
                    mt_id,
                    *ect_vid,
                    ordered(bindings(view.nodes@)),
                    key,
                ) {
                    Some(entry) if ect_vid.multicast => Some(entry),
                    _ => lookup(old(self)@.multicast, key),
                }),
            final(self)@.unicast == old(self)@.unicast,
            final(self)@.services == old(self)@.services,
    {
        if !ect_vid.multicast {
            return;
        }
        let ghost before = contents(self.multicast@);
        let mut table: OrdMap<MulticastKey, MulticastEntry> = OrdMap::new();
        std::mem::swap(&mut table, &mut self.multicast);
        // A service is bound to one Base VID by its SPBM-SI advertisement, so
        // only the bindings for this Base VID contribute state here.
        let pairs = view.isid_bindings().to_vec();
        assert(pairs@.take(0) =~= Seq::empty());
        for i in 0..pairs.len()
            invariant
                forall|key: MulticastKey| #[trigger]
                    lookup(contents(table@), key) == (match multicast_on(
                        *view,
                        trees@,
                        mt_id,
                        *ect_vid,
                        pairs@.take(i as int),
                        key,
                    ) {
                        Some(entry) => Some(entry),
                        None => lookup(before, key),
                    }),
        {
            let b = pairs[i];
            let ghost was = contents(table@);
            let ghost now = pairs@.take(i + 1);
            proof {
                assert(now.last() == b);
                assert(now.drop_last() =~= pairs@.take(i as int));
            }
            if b.base_vid == ect_vid.base_vid {
                insert_sources(&mut table, view, trees, mt_id, ect_vid, b.isid);
            }
            assert forall|key: MulticastKey| #[trigger]
                lookup(contents(table@), key) == (match multicast_on(*view, trees@, mt_id, *ect_vid, now, key) {
                    Some(entry) => Some(entry),
                    None => lookup(before, key),
                }) by {
                assert(lookup(was, key) == (match multicast_on(
                    *view,
                    trees@,
                    mt_id,
                    *ect_vid,
                    pairs@.take(i as int),
                    key,
                ) {
                    Some(entry) => Some(entry),
                    None => lookup(before, key),
                }));
            }
        }
        assert(pairs@.take(pairs@.len() as int) =~= pairs@);
        self.multicast = table;
    }

    /// Populates per-service state: the local transmit/receive bits and the
    /// remote members reachable in each service.
    fn build_services(&mut self, view: &TopologyView)
        ensures
            final(self)@.services.dom() == isid_set(view.nodes@),
            forall|isid: u32| #[trigger]
                final(self)@.services.contains_key(isid) ==> final(self)@.services[isid] == service_state(*view, isid),
            final(self)@.unicast == old(self)@.unicast,
            final(self)@.multicast == old(self)@.multicast,
    {
        let isids = view.isids();
        let keys = isids.keys();
        let mut table: OrdMap<u32, ServiceEntry> = OrdMap::new();
        for i in 0..keys.len()
            invariant
                keys@.to_set() == isid_set(view.nodes@),
                keys@.to_set() == isids@.dom(),
                forall|isid: u32| #[trigger]
                    isids@.contains_key(isid) ==> isids@[isid]@ == advertisers(*view, isid) && isids@[isid]@.to_set()
                        == selected(view.nodes@, Selector::Lists(isid, Role::Any)),
                forall|isid: u32| #[trigger]
                    table@.contains_key(isid) ==> isid_set(view.nodes@).contains(isid) && table@[isid]@ == service_state(
                        *view,
                        isid,
                    ),
                forall|j: int| 0 <= j < i ==> table@.contains_key(#[trigger] keys@[j]),
        {
            let isid: u32 = keys[i];
            assert(keys@.to_set().contains(keys@[i as int]));
            if let Some(members) = isids.get(&isid) {
                table.insert(isid, service_entry(view, isid, members));
            }
        }
        proof {
            assert(table@.dom() =~= isid_set(view.nodes@)) by {
                assert forall|isid: u32| isid_set(view.nodes@).contains(isid) implies table@.dom().contains(isid) by {
                    assert(keys@.to_set().contains(isid));
                    let j = choose|j: int| 0 <= j < keys@.len() && keys@[j] == isid;
                    assert(table@.contains_key(keys@[j]));
                }
            }
            assert(contents(table@).dom() =~= table@.dom());
        }
        self.services = table;
    }
}

/// A unicast table is what it says.
proof fn lemma_same_contents(table: Map<UnicastKey, UnicastEntry>)
    ensures
        contents(table) == table,
{
    assert(contents(table) =~= table);
}

/// Puts in what the sources of a service give rise to on its Base VID.
fn insert_sources(
    table: &mut OrdMap<MulticastKey, MulticastEntry>,
    view: &TopologyView,
    trees: &TreeSet,
    mt_id: u16,
    ect_vid: &EctVid,
    isid: u32,
)
    ensures
        forall|key: MulticastKey| #[trigger]
            lookup(contents(final(table)@), key) == (match multicast_from(
                *view,
                trees@,
                mt_id,
                *ect_vid,
                isid,
                sources_of(*view, isid, ect_vid.base_vid),
                key,
            ) {
                Some(entry) => Some(entry),
                None => lookup(contents(old(table)@), key),
            }),
{
    let ghost before = contents(table@);
    let sources = view.transmitters_on(isid, ect_vid.base_vid);
    assert(sources@.take(0) =~= Seq::empty());
    for i in 0..sources.len()
        invariant
            sources@.to_set() == selected(view.nodes@, Selector::ListsOn(isid, ect_vid.base_vid, Role::Transmit)),
            forall|key: MulticastKey| #[trigger]
                lookup(contents(table@), key) == (match multicast_from(
                    *view,
                    trees@,
                    mt_id,
                    *ect_vid,
                    isid,
                    sources@.take(i as int),
                    key,
                ) {
                    Some(entry) => Some(entry),
                    None => lookup(before, key),
                }),
    {
        let source = sources[i];
        let ghost was = contents(table@);
        let ghost now = sources@.take(i + 1);
        proof {
            assert(now.last() == source);
            assert(now.drop_last() =~= sources@.take(i as int));
            assert(sources@.to_set().contains(source));
        }
        let ghost mut group: Option<MulticastKey> = None;
        if let Some(source_node) = view.nodes.get(&source) {
            if let Some(entry) = entry_for(view, trees, mt_id, ect_vid, isid, source) {
                let key = MulticastKey {
                    base_vid: ect_vid.base_vid,
                    group_bmac: group_bmac(source_node.spsource_id, isid),
                };
                let ghost said = entry@;
                table.insert(key, entry);
                proof {
                    group = Some(key);
                    assert(contents(table@) =~= was.insert(key, said));
                }
            }
        }
        assert forall|key: MulticastKey| #[trigger]
            lookup(contents(table@), key) == (match multicast_from(*view, trees@, mt_id, *ect_vid, isid, now, key) {
                Some(entry) => Some(entry),
                None => lookup(before, key),
            }) by {
            assert(lookup(was, key) == (match multicast_from(
                *view,
                trees@,
                mt_id,
                *ect_vid,
                isid,
                sources@.take(i as int),
                key,
            ) {
                Some(entry) => Some(entry),
                None => lookup(before, key),
            }));
            if let Some(g) = group {
                if is_group_key(*view, *ect_vid, isid, source, key) {
                    lemma_mac_bytes(g.group_bmac, key.group_bmac);
                }
            }
        }
    }
    assert(sources@.take(sources@.len() as int) =~= sources@);
}

/// Returns the state of a service that `members` advertise.
fn service_entry(view: &TopologyView, isid: u32, members: &Vec<NodeId>) -> (entry: ServiceEntry)
    requires
        isid_set(view.nodes@).contains(isid),
        members@ == advertisers(*view, isid),
        members@.to_set() == selected(view.nodes@, Selector::Lists(isid, Role::Any)),
    ensures
        entry@ == service_state(*view, isid),
{
    let mut entry = ServiceEntry::default();
    let ghost nodes = view.nodes@;
    for i in 0..members.len()
        invariant
            nodes == view.nodes@,
            members@.to_set() == selected(nodes, Selector::Lists(isid, Role::Any)),
            i > 0 ==> entry.base_vid == last_listing(nodes[members@[i - 1]].services@, isid)->0.base_vid,
            entry.transmit == (members@.take(i as int).contains(view.local) && local_lists(*view, isid, Role::Transmit)),
            entry.receive == (members@.take(i as int).contains(view.local) && local_lists(*view, isid, Role::Receive)),
            forall|n: NodeId| #[trigger]
                entry.members@.contains_key(n) <==> n != view.local && members@.take(i as int).contains(n),
            forall|n: NodeId| #[trigger]
                entry.members@.contains_key(n) ==> entry.members@[n] == last_listing(nodes[n].services@, isid)->0.bmac,
    {
        let member = members[i];
        let ghost was = members@.take(i as int);
        let ghost now = members@.take(i + 1);
        proof {
            assert(members@.to_set().contains(members@[i as int]));
            assert(node_lists(nodes[member], isid, Role::Any));
            assert(now =~= was.push(member));
            lemma_push_set(was, member);
            assert forall|n: NodeId| now.contains(n) <==> was.contains(n) || n == member by {
                assert(now.to_set().contains(n) <==> was.to_set().insert(member).contains(n));
            }
        }
        if let Some(node) = view.nodes.get(&member) {
            if let Some(svc) = find_last_listing(&node.services, isid) {
                entry.base_vid = svc.base_vid;
                if member.same(&view.local) {
                    entry.transmit = check_node_lists(node, isid, Role::Transmit);
                    entry.receive = check_node_lists(node, isid, Role::Receive);
                } else {
                    entry.members.insert(member, svc.bmac);
                }
            }
        }
    }
    proof {
        assert(members@.take(members@.len() as int) =~= members@);
        let id = choose|id: NodeId| #[trigger] nodes.contains_key(id) && node_lists(nodes[id], isid, Role::Any);
        assert(members@.to_set().contains(id));
        assert(members@.len() > 0);
        if local_lists(*view, isid, Role::Transmit) {
            lemma_lists_any(nodes[view.local], isid, Role::Transmit);
            assert(members@.to_set().contains(view.local));
        }
        if local_lists(*view, isid, Role::Receive) {
            lemma_lists_any(nodes[view.local], isid, Role::Receive);
            assert(members@.to_set().contains(view.local));
        }
        let state = service_state(*view, isid);
        assert forall|n: NodeId| entry.members@.dom().contains(n) <==> state.members.dom().contains(n) by {
            assert(members@.to_set().contains(n) <==> selected(nodes, Selector::Lists(isid, Role::Any)).contains(n));
            assert(entry.members@.contains_key(n) <==> n != view.local && members@.contains(n));
        }
        assert forall|n: NodeId| entry.members@.dom().contains(n) implies entry.members@[n] == state.members[n] by {
            assert(entry.members@.contains_key(n));
            assert(state.members.dom().contains(n));
        }
        assert(entry.members@ =~= state.members);
    }
    entry
}

/// What lists an I-SID in a role lists it.
proof fn lemma_lists_any(node: NodeView, isid: u32, role: Role)
    requires
        node_lists(node, isid, role),
    ensures
        node_lists(node, isid, Role::Any),
{
    let i = choose|i: int| 0 <= i < node.services@.len() && service_lists(#[trigger] node.services@[i], isid, role);
    let svc = node.services@[i];
    let j = choose|j: int| 0 <= j < svc.isids@.len() && (#[trigger] svc.isids@[j]).isid == isid && has_role(svc.isids@[j], role);
    assert(svc.isids@[j].isid == isid);
    assert(service_lists(svc, isid, Role::Any));
}

// ===== the laws of forwarding state =====

proof fn lemma_last_owner(view: TopologyView, tree: SpbTree, key: UnicastKey, ids: Seq<NodeId>)
    ensures
        last_owner(view, tree, key, ids) matches Some(n) ==> ids.contains(n) && tree.nodes@.contains_key(n) && advertises(
            view.nodes@[n].services@,
            key.base_vid,
            key.bmac,
        ),
        forall|n: NodeId|
            ids.contains(n) && tree.nodes@.contains_key(n) && advertises(view.nodes@[n].services@, key.base_vid, key.bmac)
                ==> last_owner(view, tree, key, ids) is Some,
    decreases ids.len(),
{
    if ids.len() > 0 {
        let q = ids.drop_last();
        lemma_last_owner(view, tree, key, q);
        assert(ids[ids.len() - 1] == ids.last());
        assert forall|n: NodeId| ids.contains(n) implies q.contains(n) || n == ids.last() by {
            let k = choose|k: int| 0 <= k < ids.len() && ids[k] == n;
            if k < q.len() {
                assert(q[k] == n);
            }
        }
        assert forall|n: NodeId| q.contains(n) implies ids.contains(n) by {
            let k = choose|k: int| 0 <= k < q.len() && q[k] == n;
            assert(ids[k] == n);
        }
    }
}

/// A unicast entry names a node of the region that advertises the address on
/// the Base VID, with what a tree that is rooted at the local node says of it.
pub proof fn unicast_justified(
    view: TopologyView,
    trees: Map<TreeKey, SpbTree>,
    mt_id: u16,
    ect_vids: Seq<EctVid>,
    key: UnicastKey,
) -> (e: int)
    requires
        unicast_for(view, trees, mt_id, ect_vids, key) is Some,
    ensures
        0 <= e < ect_vids.len(),
        ect_vids[e].base_vid == key.base_vid,
        trees.contains_key(tree_key(mt_id, ect_vids[e], view.local)),
        ({
            let entry = unicast_for(view, trees, mt_id, ect_vids, key)->0;
            let tree = trees[tree_key(mt_id, ect_vids[e], view.local)];
            &&& view.nodes@.contains_key(entry.owner)
            &&& tree.nodes@.contains_key(entry.owner)
            &&& advertises(view.nodes@[entry.owner].services@, key.base_vid, key.bmac)
            &&& entry == unicast_entry(tree, entry.owner)
        }),
    decreases ect_vids.len(),
{
    let e = ect_vids.last();
    let k = tree_key(mt_id, e, view.local);
    let ids = ordered(view.nodes@.dom());
    view.nodes.lemma_finite();
    lemma_ordered_exists(view.nodes@.dom());
    lemma_last_owner(view, trees[k], key, ids);
    if unicast_on(view, trees[k], e.base_vid, key) is Some && trees.contains_key(k) {
        let owner = last_owner(view, trees[k], key, ids)->0;
        assert(ids.to_set().contains(owner));
        ect_vids.len() - 1
    } else {
        unicast_justified(view, trees, mt_id, ect_vids.drop_last(), key)
    }
}

/// Every address that a reachable node advertises has an entry.
pub proof fn unicast_complete(
    view: TopologyView,
    trees: Map<TreeKey, SpbTree>,
    mt_id: u16,
    ect_vids: Seq<EctVid>,
    key: UnicastKey,
    e: int,
    owner: NodeId,
)
    requires
        0 <= e < ect_vids.len(),
        ect_vids[e].base_vid == key.base_vid,
        trees.contains_key(tree_key(mt_id, ect_vids[e], view.local)),
        trees[tree_key(mt_id, ect_vids[e], view.local)].nodes@.contains_key(owner),
        view.nodes@.contains_key(owner),
        advertises(view.nodes@[owner].services@, key.base_vid, key.bmac),
    ensures
        unicast_for(view, trees, mt_id, ect_vids, key) is Some,
    decreases ect_vids.len(),
{
    if e == ect_vids.len() - 1 {
        let ids = ordered(view.nodes@.dom());
        view.nodes.lemma_finite();
        lemma_ordered_exists(view.nodes@.dom());
        assert(ids.to_set().contains(owner));
        lemma_last_owner(view, trees[tree_key(mt_id, ect_vids[e], view.local)], key, ids);
    } else {
        assert(ect_vids.drop_last()[e] == ect_vids[e]);
        unicast_complete(view, trees, mt_id, ect_vids.drop_last(), key, e, owner);
    }
}

/// A frame from a node is expected from where multicast that the node sources
/// arrives: the next hop towards it is the parent on its tree, as long as the
/// hops between the two can be counted.
pub proof fn ingress_is_where_multicast_arrives(
    local_tree: SpbTree,
    source_tree: SpbTree,
    g: Region,
    local: NodeId,
    source: NodeId,
)
    requires
        g.well_formed(),
        is_tree_of(local_tree, g, local),
        is_tree_of(source_tree, g, source),
        local_tree.nodes@.contains_key(source),
        local_tree.nodes@[source].hops < HOP_LIMIT,
    ensures
        source_tree.nodes@.contains_key(local),
        unicast_entry(local_tree, source).nexthop == source_tree.nodes@[local].parent,
        unicast_entry(local_tree, source).cost == source_tree.nodes@[local].cost,
{
    tree_path_is_chosen(local_tree, g, local, source);
    chosen_path_continues(g, local, source);
    trees_symmetric(local_tree, source_tree, g, local, source, chosen_paths(g, local)[source]);
    trees_symmetric_cost(local_tree, source_tree, g, local, source);
}

/// An address is local just when its entry has no next hop.
pub proof fn local_address_has_no_nexthop(local_tree: SpbTree, g: Region, local: NodeId, owner: NodeId)
    requires
        g.well_formed(),
        is_tree_of(local_tree, g, local),
        local_tree.nodes@.contains_key(owner),
    ensures
        unicast_entry(local_tree, owner).nexthop is None <==> owner == local,
        owner == local ==> unicast_entry(local_tree, owner).cost == 0,
{
    tree_has_one_root(local_tree, g, local, owner);
}

proof fn lemma_multicast_from(
    view: TopologyView,
    trees: Map<TreeKey, SpbTree>,
    mt_id: u16,
    ect_vid: EctVid,
    isid: u32,
    sources: Seq<NodeId>,
    key: MulticastKey,
)
    ensures
        multicast_from(view, trees, mt_id, ect_vid, isid, sources, key) matches Some(entry) ==> sources.contains(entry.source)
            && multicast_entry(view, trees, mt_id, ect_vid, isid, entry.source) == Some(entry) && is_group_key(
            view,
            ect_vid,
            isid,
            entry.source,
            key,
        ),
        forall|source: NodeId|
            sources.contains(source) && multicast_entry(view, trees, mt_id, ect_vid, isid, source) is Some && is_group_key(
                view,
                ect_vid,
                isid,
                source,
                key,
            ) ==> multicast_from(view, trees, mt_id, ect_vid, isid, sources, key) is Some,
    decreases sources.len(),
{
    if sources.len() > 0 {
        let q = sources.drop_last();
        lemma_multicast_from(view, trees, mt_id, ect_vid, isid, q, key);
        assert(sources[sources.len() - 1] == sources.last());
        assert forall|n: NodeId| sources.contains(n) implies q.contains(n) || n == sources.last() by {
            let k = choose|k: int| 0 <= k < sources.len() && sources[k] == n;
            if k < q.len() {
                assert(q[k] == n);
            }
        }
        assert forall|n: NodeId| q.contains(n) implies sources.contains(n) by {
            let k = choose|k: int| 0 <= k < q.len() && q[k] == n;
            assert(sources[k] == n);
        }
    }
}

/// The nodes of a view that a question selects can be listed.
proof fn lemma_selected_listed(view: TopologyView, selector: Selector)
    ensures
        ordered(selected(view.nodes@, selector)).to_set() == selected(view.nodes@, selector),
{
    let all = selected(view.nodes@, selector);
    view.nodes.lemma_finite();
    assert(all.subset_of(view.nodes@.dom()));
    vstd::set_lib::lemma_len_subset(all, view.nodes@.dom());
    lemma_ordered_exists(all);
}

/// An entry under a key is owed to a source that transmits into the service on
/// that very Base VID.
pub open spec fn is_owed_to(
    view: TopologyView,
    trees: Map<TreeKey, SpbTree>,
    mt_id: u16,
    ect_vid: EctVid,
    key: MulticastKey,
    entry: MulticastState,
) -> bool {
    &&& view.nodes@.contains_key(entry.source)
    &&& node_lists_on(view.nodes@[entry.source], entry.isid, key.base_vid, Role::Transmit)
    &&& is_group_key(view, ect_vid, entry.isid, entry.source, key)
    &&& multicast_entry(view, trees, mt_id, ect_vid, entry.isid, entry.source) == Some(entry)
}

proof fn lemma_multicast_on(
    view: TopologyView,
    trees: Map<TreeKey, SpbTree>,
    mt_id: u16,
    ect_vid: EctVid,
    pairs: Seq<IsidBinding>,
    key: MulticastKey,
)
    requires
        multicast_on(view, trees, mt_id, ect_vid, pairs, key) is Some,
    ensures
        is_owed_to(view, trees, mt_id, ect_vid, key, multicast_on(view, trees, mt_id, ect_vid, pairs, key)->0),
    decreases pairs.len(),
{
    let b = pairs.last();
    let sources = sources_of(view, b.isid, b.base_vid);
    lemma_multicast_from(view, trees, mt_id, ect_vid, b.isid, sources, key);
    lemma_selected_listed(view, Selector::ListsOn(b.isid, b.base_vid, Role::Transmit));
    match multicast_from(view, trees, mt_id, ect_vid, b.isid, sources, key) {
        Some(entry) if b.base_vid == ect_vid.base_vid => {
            assert(sources.to_set().contains(entry.source));
        },
        _ => {
            lemma_multicast_on(view, trees, mt_id, ect_vid, pairs.drop_last(), key);
        },
    }
}

/// Multicast state is confined to the Base VID of its service: an entry is
/// owed to a source that transmits into the service there, on a tree set that
/// carries multicast, and serves a local receiver or a branch.
pub proof fn multicast_justified(
    view: TopologyView,
    trees: Map<TreeKey, SpbTree>,
    mt_id: u16,
    ect_vids: Seq<EctVid>,
    key: MulticastKey,
) -> (e: int)
    requires
        multicast_for(view, trees, mt_id, ect_vids, key) is Some,
    ensures
        0 <= e < ect_vids.len(),
        ect_vids[e].base_vid == key.base_vid,
        ect_vids[e].multicast,
        is_owed_to(view, trees, mt_id, ect_vids[e], key, multicast_for(view, trees, mt_id, ect_vids, key)->0),
        ({
            let entry = multicast_for(view, trees, mt_id, ect_vids, key)->0;
            entry.local_deliver || entry.branches != Set::<NodeId>::empty()
        }),
    decreases ect_vids.len(),
{
    let e = ect_vids.last();
    let pairs = ordered(bindings(view.nodes@));
    match multicast_on(view, trees, mt_id, e, pairs, key) {
        Some(entry) if e.multicast && trees.contains_key(tree_key(mt_id, e, view.local)) => {
            lemma_multicast_on(view, trees, mt_id, e, pairs, key);
            ect_vids.len() - 1
        },
        _ => multicast_justified(view, trees, mt_id, ect_vids.drop_last(), key),
    }
}

/// No copy is sent where nobody receives: each branch is a child of the local
/// node on the source's tree, with a receiver of the service at or below it.
pub proof fn branches_lead_to_receivers(
    view: TopologyView,
    trees: Map<TreeKey, SpbTree>,
    mt_id: u16,
    ect_vid: EctVid,
    isid: u32,
    source: NodeId,
    child: NodeId,
)
    requires
        multicast_entry(view, trees, mt_id, ect_vid, isid, source) is Some,
    ensures
        multicast_entry(view, trees, mt_id, ect_vid, isid, source)->0.branches.contains(child) <==> {
            let tree = trees[tree_key(mt_id, ect_vid, source)];
            &&& tree.nodes@.contains_key(child)
            &&& tree.nodes@[child].parent == Some(view.local)
            &&& has_receiver(view, tree, child, isid, ect_vid.base_vid)
        },
{
}

} // verus!
