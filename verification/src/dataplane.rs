//! What is told to an external SPB dataplane.
//!
//! Forwarding state is pushed over a long-lived session, as changes that each
//! end with a commit and carry a generation number. Either end can restart:
//! when the session is re-established, the dataplane asks for it or reports an
//! older generation, a full snapshot is called for.

use vstd::prelude::*;
use vstd::string::StringExecFns;

use crate::fdb::{
    FdbDelta, MulticastEntry, MulticastKey, MulticastState, ServiceEntry, ServiceState, UnicastEntry, UnicastKey,
};
use crate::mac::MacAddr;
use crate::node::NodeId;
use crate::ordmap::{ordered, OrdMap};

verus! {

/// A forwarding update, with everything the dataplane needs to act on it.
///
/// The computation itself is interface-free: it names next hops by node, not
/// by port. Resolving those to local interfaces needs the adjacency database,
/// so the resolution travels alongside the delta rather than being baked into
/// it.
#[derive(Debug)]
pub struct DataplaneUpdate {
    pub delta: FdbDelta,
    /// This node's backbone identity.
    pub node: NodeIdentity,
    /// Adjacent node to the local interface reaching it.
    pub nexthops: OrdMap<NodeId, String>,
    /// Customer-facing interfaces of each service, by I-SID.
    pub uni_ports: OrdMap<u32, Vec<String>>,
    /// Backbone-facing interfaces.
    pub nni_ports: Vec<String>,
}

/// This node's backbone identity.
#[derive(Clone, Copy, Debug, Default, Eq, PartialEq)]
pub struct NodeIdentity {
    pub b_mac: MacAddr,
    pub spsource_id: u32,
}

// ===== messages =====

/// The side of the node that a port faces.
#[derive(Clone, Copy, Debug, Eq, PartialEq, Structural)]
pub enum PortRole {
    /// Backbone-facing.
    Nni,
    /// Customer-facing.
    Uni,
}

#[derive(Clone, Debug, Eq, PartialEq)]
pub struct UnicastKeyMsg {
    pub b_vid: u32,
    pub b_mac: Vec<u8>,
}

#[derive(Clone, Debug, Eq, PartialEq)]
pub struct UnicastMsg {
    pub key: UnicastKeyMsg,
    pub nexthop_system_id: Vec<u8>,
    pub out_ifname: String,
    pub cost: u32,
}

#[derive(Clone, Debug, Eq, PartialEq)]
pub struct MulticastKeyMsg {
    pub b_vid: u32,
    pub group_bmac: Vec<u8>,
}

#[derive(Clone, Debug, Eq, PartialEq)]
pub struct MulticastMsg {
    pub key: MulticastKeyMsg,
    pub i_sid: u32,
    pub source_system_id: Vec<u8>,
    pub local_deliver: bool,
    pub out_ifnames: Vec<String>,
}

#[derive(Clone, Debug, Eq, PartialEq)]
pub struct ServiceMsg {
    pub i_sid: u32,
    pub b_vid: u32,
    pub transmit: bool,
    pub receive: bool,
    pub uni_ifnames: Vec<String>,
    pub member_bmacs: Vec<Vec<u8>>,
}

#[derive(Clone, Debug, Eq, PartialEq)]
pub struct FdbDeltaMsg {
    pub generation: u64,
    pub snapshot: bool,
    pub unicast_added: Vec<UnicastMsg>,
    pub unicast_removed: Vec<UnicastKeyMsg>,
    pub multicast_added: Vec<MulticastMsg>,
    pub multicast_removed: Vec<MulticastKeyMsg>,
    pub services_added: Vec<ServiceMsg>,
    pub services_removed: Vec<u32>,
}

/// A message to the dataplane.
#[derive(Clone, Debug, Eq, PartialEq)]
pub enum ControlMsg {
    Hello { generation: u64, control_plane: String },
    NodeConfig { b_mac: Vec<u8>, spsource_id: u32 },
    PortConfig { ifname: String, role: PortRole, i_sid: u32, b_vid: u32 },
    FdbDelta(FdbDeltaMsg),
    Commit { generation: u64 },
}

// ===== models =====

pub ghost struct UnicastKeyText {
    pub b_vid: int,
    pub b_mac: Seq<u8>,
}

pub ghost struct UnicastText {
    pub key: UnicastKeyText,
    pub nexthop_system_id: Seq<u8>,
    pub out_ifname: Seq<char>,
    pub cost: u32,
}

pub ghost struct MulticastKeyText {
    pub b_vid: int,
    pub group_bmac: Seq<u8>,
}

pub ghost struct MulticastText {
    pub key: MulticastKeyText,
    pub i_sid: u32,
    pub source_system_id: Seq<u8>,
    pub local_deliver: bool,
    pub out_ifnames: Seq<Seq<char>>,
}

pub ghost struct ServiceText {
    pub i_sid: u32,
    pub b_vid: int,
    pub transmit: bool,
    pub receive: bool,
    pub uni_ifnames: Seq<Seq<char>>,
    pub member_bmacs: Seq<Seq<u8>>,
}

pub ghost struct FdbDeltaText {
    pub generation: u64,
    pub snapshot: bool,
    pub unicast_added: Seq<UnicastText>,
    pub unicast_removed: Seq<UnicastKeyText>,
    pub multicast_added: Seq<MulticastText>,
    pub multicast_removed: Seq<MulticastKeyText>,
    pub services_added: Seq<ServiceText>,
    pub services_removed: Seq<u32>,
}

/// What a message says.
pub ghost enum ControlText {
    Hello { generation: u64, control_plane: Seq<char> },
    NodeConfig { b_mac: Seq<u8>, spsource_id: u32 },
    PortConfig { ifname: Seq<char>, role: PortRole, i_sid: u32, b_vid: int },
    FdbDelta(FdbDeltaText),
    Commit { generation: u64 },
}

/// What a list of items says.
pub open spec fn views<T: View>(list: Seq<T>) -> Seq<T::V> {
    list.map_values(|item: T| item@)
}

impl View for UnicastKeyMsg {
    type V = UnicastKeyText;

    open spec fn view(&self) -> UnicastKeyText {
        UnicastKeyText { b_vid: self.b_vid as int, b_mac: self.b_mac@ }
    }
}

impl View for UnicastMsg {
    type V = UnicastText;

    open spec fn view(&self) -> UnicastText {
        UnicastText {
            key: self.key@,
            nexthop_system_id: self.nexthop_system_id@,
            out_ifname: self.out_ifname@,
            cost: self.cost,
        }
    }
}

impl View for MulticastKeyMsg {
    type V = MulticastKeyText;

    open spec fn view(&self) -> MulticastKeyText {
        MulticastKeyText { b_vid: self.b_vid as int, group_bmac: self.group_bmac@ }
    }
}

impl View for MulticastMsg {
    type V = MulticastText;

    open spec fn view(&self) -> MulticastText {
        MulticastText {
            key: self.key@,
            i_sid: self.i_sid,
            source_system_id: self.source_system_id@,
            local_deliver: self.local_deliver,
            out_ifnames: views(self.out_ifnames@),
        }
    }
}

impl View for ServiceMsg {
    type V = ServiceText;

    open spec fn view(&self) -> ServiceText {
        ServiceText {
            i_sid: self.i_sid,
            b_vid: self.b_vid as int,
            transmit: self.transmit,
            receive: self.receive,
            uni_ifnames: views(self.uni_ifnames@),
            member_bmacs: views(self.member_bmacs@),
        }
    }
}

impl View for FdbDeltaMsg {
    type V = FdbDeltaText;

    open spec fn view(&self) -> FdbDeltaText {
        FdbDeltaText {
            generation: self.generation,
            snapshot: self.snapshot,
            unicast_added: views(self.unicast_added@),
            unicast_removed: views(self.unicast_removed@),
            multicast_added: views(self.multicast_added@),
            multicast_removed: views(self.multicast_removed@),
            services_added: views(self.services_added@),
            services_removed: self.services_removed@,
        }
    }
}

impl View for ControlMsg {
    type V = ControlText;

    open spec fn view(&self) -> ControlText {
        match *self {
            ControlMsg::Hello { generation, control_plane } => ControlText::Hello {
                generation,
                control_plane: control_plane@,
            },
            ControlMsg::NodeConfig { b_mac, spsource_id } => ControlText::NodeConfig { b_mac: b_mac@, spsource_id },
            ControlMsg::PortConfig { ifname, role, i_sid, b_vid } => ControlText::PortConfig {
                ifname: ifname@,
                role,
                i_sid,
                b_vid: b_vid as int,
            },
            ControlMsg::FdbDelta(delta) => ControlText::FdbDelta(delta@),
            ControlMsg::Commit { generation } => ControlText::Commit { generation },
        }
    }
}

// ===== what an update says =====

/// The interface that reaches an adjacent node, if it is known.
pub open spec fn ifname_of(nexthops: Map<NodeId, String>, node: NodeId) -> Option<Seq<char>> {
    if nexthops.contains_key(node) {
        Some(nexthops[node]@)
    } else {
        None
    }
}

pub open spec fn unicast_key_text(key: UnicastKey) -> UnicastKeyText {
    UnicastKeyText { b_vid: key.base_vid as int, b_mac: key.bmac@ }
}

/// A unicast entry for the dataplane. One without a next hop is this node's
/// own, and one whose next hop has no interface is left without a name.
pub open spec fn unicast_text(nexthops: Map<NodeId, String>, key: UnicastKey, entry: UnicastEntry) -> UnicastText {
    UnicastText {
        key: unicast_key_text(key),
        nexthop_system_id: match entry.nexthop {
            Some(id) => id@,
            None => Seq::empty(),
        },
        out_ifname: match entry.nexthop {
            Some(id) => match ifname_of(nexthops, id) {
                Some(ifname) => ifname,
                None => Seq::empty(),
            },
            None => Seq::empty(),
        },
        cost: entry.cost,
    }
}

pub open spec fn multicast_key_text(key: MulticastKey) -> MulticastKeyText {
    MulticastKeyText { b_vid: key.base_vid as int, group_bmac: key.group_bmac@ }
}

/// The interfaces of those nodes of a list that have one.
pub open spec fn ifnames_of(nexthops: Map<NodeId, String>, nodes: Seq<NodeId>) -> Seq<Seq<char>>
    decreases nodes.len(),
{
    if nodes.len() == 0 {
        Seq::empty()
    } else {
        let before = ifnames_of(nexthops, nodes.drop_last());
        match ifname_of(nexthops, nodes.last()) {
            Some(ifname) => before.push(ifname),
            None => before,
        }
    }
}

/// A multicast entry for the dataplane. The branches are the local node's
/// children on the source's tree; any that has no adjacency is skipped rather
/// than sent unresolved.
pub open spec fn multicast_text(nexthops: Map<NodeId, String>, key: MulticastKey, entry: MulticastState) -> MulticastText {
    MulticastText {
        key: multicast_key_text(key),
        i_sid: entry.isid,
        source_system_id: entry.source@,
        local_deliver: entry.local_deliver,
        out_ifnames: ifnames_of(nexthops, ordered(entry.branches)),
    }
}

/// The interfaces that a service is delivered to.
pub open spec fn ports_of(uni_ports: Map<u32, Vec<String>>, isid: u32) -> Seq<Seq<char>> {
    if uni_ports.contains_key(isid) {
        views(uni_ports[isid]@)
    } else {
        Seq::empty()
    }
}

/// A service for the dataplane. The members' addresses are only needed for
/// head-end replication, but sent either way so the dataplane need not be
/// reprogrammed when the T bit changes.
pub open spec fn service_text(uni_ports: Map<u32, Vec<String>>, isid: u32, entry: ServiceState) -> ServiceText {
    ServiceText {
        i_sid: isid,
        b_vid: entry.base_vid as int,
        transmit: entry.transmit,
        receive: entry.receive,
        uni_ifnames: ports_of(uni_ports, isid),
        member_bmacs: ordered(entry.members.dom()).map_values(|n: NodeId| entry.members[n]@),
    }
}

/// The delta of an update for the dataplane.
pub open spec fn delta_text(update: DataplaneUpdate) -> FdbDeltaText {
    let delta = update.delta@;
    FdbDeltaText {
        generation: delta.generation,
        snapshot: delta.snapshot,
        unicast_added: delta.unicast_added.map_values(
            |e: (UnicastKey, UnicastEntry)| unicast_text(update.nexthops@, e.0, e.1),
        ),
        unicast_removed: delta.unicast_removed.map_values(|k: UnicastKey| unicast_key_text(k)),
        multicast_added: delta.multicast_added.map_values(
            |e: (MulticastKey, MulticastState)| multicast_text(update.nexthops@, e.0, e.1),
        ),
        multicast_removed: delta.multicast_removed.map_values(|k: MulticastKey| multicast_key_text(k)),
        services_added: delta.services_added.map_values(
            |e: (u32, ServiceState)| service_text(update.uni_ports@, e.0, e.1),
        ),
        services_removed: delta.services_removed,
    }
}

/// The messages for an update: the delta first, then the commit, so the
/// dataplane applies a whole batch at once rather than a partially written
/// table.
pub open spec fn update_messages(update: DataplaneUpdate) -> Seq<ControlText> {
    seq![
        ControlText::FdbDelta(delta_text(update)),
        ControlText::Commit { generation: update.delta.generation },
    ]
}

/// The Base VID of the first service of a list with a given I-SID, 0 if there
/// is none.
pub open spec fn service_vid(services: Seq<(u32, ServiceEntry)>, isid: u32) -> int
    decreases services.len(),
{
    if services.len() == 0 {
        0
    } else if services[0].0 == isid {
        services[0].1.base_vid as int
    } else {
        service_vid(services.skip(1), isid)
    }
}

/// The roles of the backbone-facing ports.
pub open spec fn nni_messages(ifnames: Seq<Seq<char>>) -> Seq<ControlText> {
    ifnames.map_values(|ifname: Seq<char>| ControlText::PortConfig { ifname, role: PortRole::Nni, i_sid: 0, b_vid: 0 })
}

/// The roles of the ports that a service is delivered to.
pub open spec fn uni_messages(ifnames: Seq<Seq<char>>, isid: u32, b_vid: int) -> Seq<ControlText> {
    ifnames.map_values(|ifname: Seq<char>| ControlText::PortConfig { ifname, role: PortRole::Uni, i_sid: isid, b_vid })
}

/// The roles of the customer-facing ports of a list of services.
pub open spec fn all_uni_messages(update: DataplaneUpdate, isids: Seq<u32>) -> Seq<ControlText>
    decreases isids.len(),
{
    if isids.len() == 0 {
        Seq::empty()
    } else {
        let isid = isids.last();
        all_uni_messages(update, isids.drop_last()) + uni_messages(
            views(update.uni_ports@[isid]@),
            isid,
            service_vid(update.delta.services_added@, isid),
        )
    }
}

/// The messages that configure a session: this node's identity first, since
/// the datapath drops frames until it knows its own B-MAC, then the role of
/// each port.
pub open spec fn configure_messages(update: DataplaneUpdate) -> Seq<ControlText> {
    seq![ControlText::NodeConfig { b_mac: update.node.b_mac@, spsource_id: update.node.spsource_id }] + nni_messages(
        views(update.nni_ports@),
    ) + all_uni_messages(update, ordered(update.uni_ports@.dom()))
}

impl DataplaneUpdate {
    /// Returns the interface reaching an adjacent node.
    pub fn nexthop_ifname(&self, node: NodeId) -> (ifname: Option<&String>)
        ensures
            match ifname {
                Some(name) => ifname_of(self.nexthops@, node) == Some(name@),
                None => ifname_of(self.nexthops@, node) is None,
            },
    {
        self.nexthops.get(&node)
    }
}

/// Returns the bytes of an address.
fn mac_bytes(mac: &MacAddr) -> (bytes: Vec<u8>)
    ensures
        bytes@ == mac@,
{
    let b = mac.as_bytes();
    let bytes = vec![b[0], b[1], b[2], b[3], b[4], b[5]];
    assert(bytes@ =~= mac@);
    bytes
}

/// Returns the bytes of a System ID.
fn id_bytes(id: &NodeId) -> (bytes: Vec<u8>)
    ensures
        bytes@ == id@,
{
    let b = id.as_bytes();
    let bytes = vec![b[0], b[1], b[2], b[3], b[4], b[5]];
    assert(bytes@ =~= id@);
    bytes
}

/// Returns a copy of a list of names.
fn copy_names(names: &Vec<String>) -> (copy: Vec<String>)
    ensures
        views(copy@) == views(names@),
{
    let mut copy: Vec<String> = Vec::new();
    for i in 0..names.len()
        invariant
            copy@.len() == i,
            forall|j: int| 0 <= j < i ==> (#[trigger] copy@[j])@ == names@[j]@,
    {
        copy.push(names[i].clone());
    }
    assert(views(copy@) =~= views(names@));
    copy
}

fn unicast_key(key: &UnicastKey) -> (msg: UnicastKeyMsg)
    ensures
        msg@ == unicast_key_text(*key),
{
    UnicastKeyMsg { b_vid: key.base_vid as u32, b_mac: mac_bytes(&key.bmac) }
}

fn unicast(update: &DataplaneUpdate, key: &UnicastKey, entry: &UnicastEntry) -> (msg: UnicastMsg)
    ensures
        msg@ == unicast_text(update.nexthops@, *key, *entry),
{
    let (nexthop_system_id, out_ifname) = match entry.nexthop {
        Some(id) => {
            let ifname = match update.nexthop_ifname(id) {
                Some(name) => name.clone(),
                None => String::new(),
            };
            (id_bytes(&id), ifname)
        },
        // An empty name means the B-MAC is this node's own, which tells the
        // dataplane to decapsulate rather than forward.
        None => (Vec::new(), String::new()),
    };
    let msg = UnicastMsg { key: unicast_key(key), nexthop_system_id, out_ifname, cost: entry.cost };
    proof {
        let text = unicast_text(update.nexthops@, *key, *entry);
        assert(msg@.nexthop_system_id =~= text.nexthop_system_id);
        assert(msg@.out_ifname =~= text.out_ifname);
    }
    msg
}

fn multicast_key(key: &MulticastKey) -> (msg: MulticastKeyMsg)
    ensures
        msg@ == multicast_key_text(*key),
{
    MulticastKeyMsg { b_vid: key.base_vid as u32, group_bmac: mac_bytes(&key.group_bmac) }
}

fn multicast(update: &DataplaneUpdate, key: &MulticastKey, entry: &MulticastEntry) -> (msg: MulticastMsg)
    ensures
        msg@ == multicast_text(update.nexthops@, *key, entry@),
{
    let nodes = entry.branches.to_vec();
    let mut out_ifnames: Vec<String> = Vec::new();
    assert(views(out_ifnames@) =~= ifnames_of(update.nexthops@, nodes@.take(0)));
    for i in 0..nodes.len()
        invariant
            views(out_ifnames@) == ifnames_of(update.nexthops@, nodes@.take(i as int)),
    {
        let ghost now = nodes@.take(i + 1);
        let ghost before = out_ifnames@;
        assert(now.drop_last() =~= nodes@.take(i as int));
        assert(now.last() == nodes@[i as int]);
        if let Some(name) = update.nexthop_ifname(nodes[i]) {
            out_ifnames.push(name.clone());
            assert(views(out_ifnames@) =~= views(before).push(name@));
        }
    }
    assert(nodes@.take(nodes@.len() as int) =~= nodes@);
    MulticastMsg {
        key: multicast_key(key),
        i_sid: entry.isid,
        source_system_id: id_bytes(&entry.source),
        local_deliver: entry.local_deliver,
        out_ifnames,
    }
}

fn service(update: &DataplaneUpdate, isid: u32, entry: &ServiceEntry) -> (msg: ServiceMsg)
    ensures
        msg@ == service_text(update.uni_ports@, isid, entry@),
{
    let uni_ifnames = match update.uni_ports.get(&isid) {
        Some(names) => copy_names(names),
        None => Vec::new(),
    };
    let nodes = entry.members.keys();
    let mut member_bmacs: Vec<Vec<u8>> = Vec::new();
    for i in 0..nodes.len()
        invariant
            forall|j: int| 0 <= j < nodes@.len() ==> entry.members@.contains_key(#[trigger] nodes@[j]),
            member_bmacs@.len() == i,
            forall|j: int| 0 <= j < i ==> (#[trigger] member_bmacs@[j])@ == entry.members@[nodes@[j]]@,
    {
        assert(entry.members@.contains_key(nodes@[i as int]));
        if let Some(mac) = entry.members.get(&nodes[i]) {
            member_bmacs.push(mac_bytes(mac));
        }
    }
    let msg = ServiceMsg {
        i_sid: isid,
        b_vid: entry.base_vid as u32,
        transmit: entry.transmit,
        receive: entry.receive,
        uni_ifnames,
        member_bmacs,
    };
    proof {
        let text = service_text(update.uni_ports@, isid, entry@);
        assert(msg@.uni_ifnames =~= text.uni_ifnames);
        assert(msg@.member_bmacs =~= text.member_bmacs);
    }
    msg
}

/// Encodes a delta as a batch of session messages, ending with a commit.
pub fn encode(update: &DataplaneUpdate) -> (msgs: Vec<ControlMsg>)
    ensures
        views(msgs@) == update_messages(*update),
{
    let delta = &update.delta;
    let mut unicast_added: Vec<UnicastMsg> = Vec::new();
    for i in 0..delta.unicast_added.len()
        invariant
            *delta == update.delta,
            unicast_added@.len() == i,
            forall|j: int|
                0 <= j < i ==> (#[trigger] unicast_added@[j])@ == unicast_text(
                    update.nexthops@,
                    delta.unicast_added@[j].0,
                    delta.unicast_added@[j].1,
                ),
    {
        unicast_added.push(unicast(update, &delta.unicast_added[i].0, &delta.unicast_added[i].1));
    }
    let mut unicast_removed: Vec<UnicastKeyMsg> = Vec::new();
    for i in 0..delta.unicast_removed.len()
        invariant
            unicast_removed@.len() == i,
            forall|j: int| 0 <= j < i ==> (#[trigger] unicast_removed@[j])@ == unicast_key_text(delta.unicast_removed@[j]),
    {
        unicast_removed.push(unicast_key(&delta.unicast_removed[i]));
    }
    let mut multicast_added: Vec<MulticastMsg> = Vec::new();
    for i in 0..delta.multicast_added.len()
        invariant
            multicast_added@.len() == i,
            forall|j: int|
                0 <= j < i ==> (#[trigger] multicast_added@[j])@ == multicast_text(
                    update.nexthops@,
                    delta.multicast_added@[j].0,
                    delta.multicast_added@[j].1@,
                ),
    {
        multicast_added.push(multicast(update, &delta.multicast_added[i].0, &delta.multicast_added[i].1));
    }
    let mut multicast_removed: Vec<MulticastKeyMsg> = Vec::new();
    for i in 0..delta.multicast_removed.len()
        invariant
            multicast_removed@.len() == i,
            forall|j: int|
                0 <= j < i ==> (#[trigger] multicast_removed@[j])@ == multicast_key_text(delta.multicast_removed@[j]),
    {
        multicast_removed.push(multicast_key(&delta.multicast_removed[i]));
    }
    let mut services_added: Vec<ServiceMsg> = Vec::new();
    for i in 0..delta.services_added.len()
        invariant
            services_added@.len() == i,
            forall|j: int|
                0 <= j < i ==> (#[trigger] services_added@[j])@ == service_text(
                    update.uni_ports@,
                    delta.services_added@[j].0,
                    delta.services_added@[j].1@,
                ),
    {
        services_added.push(service(update, delta.services_added[i].0, &delta.services_added[i].1));
    }
    let mut services_removed: Vec<u32> = Vec::new();
    for i in 0..delta.services_removed.len()
        invariant
            services_removed@.len() == i,
            forall|j: int| 0 <= j < i ==> services_removed@[j] == delta.services_removed@[j],
    {
        services_removed.push(delta.services_removed[i]);
    }
    let msg = FdbDeltaMsg {
        generation: delta.generation,
        snapshot: delta.snapshot,
        unicast_added,
        unicast_removed,
        multicast_added,
        multicast_removed,
        services_added,
        services_removed,
    };
    proof {
        let text = delta_text(*update);
        assert(msg@.unicast_added =~= text.unicast_added);
        assert(msg@.unicast_removed =~= text.unicast_removed);
        assert(msg@.multicast_added =~= text.multicast_added);
        assert(msg@.multicast_removed =~= text.multicast_removed);
        assert(msg@.services_added =~= text.services_added);
        assert(msg@.services_removed =~= text.services_removed);
    }
    let mut msgs: Vec<ControlMsg> = Vec::new();
    msgs.push(ControlMsg::FdbDelta(msg));
    msgs.push(ControlMsg::Commit { generation: delta.generation });
    assert(views(msgs@) =~= update_messages(*update));
    msgs
}

/// Returns the Base VID of the first service of a list with a given I-SID.
fn find_vid(services: &Vec<(u32, ServiceEntry)>, isid: u32) -> (b_vid: u32)
    ensures
        b_vid == service_vid(services@, isid),
{
    assert(services@.skip(0) =~= services@);
    for i in 0..services.len()
        invariant
            service_vid(services@, isid) == service_vid(services@.skip(i as int), isid),
    {
        let ghost rest = services@.skip(i as int);
        assert(rest[0] == services@[i as int]);
        assert(rest.skip(1) =~= services@.skip(i + 1));
        if services[i].0 == isid {
            return services[i].1.base_vid as u32;
        }
    }
    0
}

/// Appends a role for each of a list of ports.
fn push_roles(msgs: &mut Vec<ControlMsg>, ifnames: &Vec<String>, role: PortRole, i_sid: u32, b_vid: u32)
    ensures
        views(final(msgs)@) == views(old(msgs)@) + views(ifnames@).map_values(
            |ifname: Seq<char>| ControlText::PortConfig { ifname, role, i_sid, b_vid: b_vid as int },
        ),
{
    let ghost before = msgs@;
    let ghost f = |ifname: Seq<char>| ControlText::PortConfig { ifname, role, i_sid, b_vid: b_vid as int };
    for i in 0..ifnames.len()
        invariant
            f == (|ifname: Seq<char>| ControlText::PortConfig { ifname, role, i_sid, b_vid: b_vid as int }),
            msgs@.len() == before.len() + i,
            forall|j: int| 0 <= j < before.len() ==> msgs@[j] == before[j],
            forall|j: int| before.len() <= j < msgs@.len() ==> (#[trigger] msgs@[j])@ == f(ifnames@[j - before.len()]@),
    {
        msgs.push(ControlMsg::PortConfig { ifname: ifnames[i].clone(), role, i_sid, b_vid });
    }
    assert(views(msgs@) =~= views(before) + views(ifnames@).map_values(f));
}

/// Encodes this node's identity and its port roles.
pub fn configure(update: &DataplaneUpdate) -> (msgs: Vec<ControlMsg>)
    ensures
        views(msgs@) == configure_messages(*update),
{
    let mut msgs: Vec<ControlMsg> = Vec::new();
    msgs.push(
        ControlMsg::NodeConfig { b_mac: mac_bytes(&update.node.b_mac), spsource_id: update.node.spsource_id },
    );
    let ghost first = ControlText::NodeConfig { b_mac: update.node.b_mac@, spsource_id: update.node.spsource_id };
    assert(views(msgs@) =~= seq![first]);
    push_roles(&mut msgs, &update.nni_ports, PortRole::Nni, 0, 0);
    let ghost head = seq![first] + nni_messages(views(update.nni_ports@));
    assert(views(msgs@) =~= head);
    let isids = update.uni_ports.keys();
    assert(all_uni_messages(*update, isids@.take(0)) =~= Seq::empty());
    for i in 0..isids.len()
        invariant
            forall|j: int| 0 <= j < isids@.len() ==> update.uni_ports@.contains_key(#[trigger] isids@[j]),
            views(msgs@) == head + all_uni_messages(*update, isids@.take(i as int)),
    {
        let isid: u32 = isids[i];
        let ghost now = isids@.take(i + 1);
        let ghost before = views(msgs@);
        assert(update.uni_ports@.contains_key(isids@[i as int]));
        assert(now.drop_last() =~= isids@.take(i as int));
        assert(now.last() == isid);
        if let Some(ifnames) = update.uni_ports.get(&isid) {
            let b_vid: u32 = find_vid(&update.delta.services_added, isid);
            push_roles(&mut msgs, ifnames, PortRole::Uni, isid, b_vid);
            proof {
                let mine = uni_messages(views(ifnames@), isid, b_vid as int);
                assert(views(msgs@) =~= before + mine);
                assert(views(msgs@) =~= head + all_uni_messages(*update, now));
            }
        }
    }
    assert(isids@.take(isids@.len() as int) =~= isids@);
    msgs
}

// ===== the session =====

/// A message from the dataplane.
#[derive(Clone, Debug, Eq, PartialEq)]
pub enum DataplaneMsg {
    /// The dataplane is ready, with the generation it last committed.
    Hello { version: String, generation: u64 },
    /// An update was committed.
    Ack { generation: u64, entries_programmed: u32 },
    /// An update was rejected.
    Nack { generation: u64, reason: String },
    /// The dataplane asks for its state anew.
    ResyncRequest { reason: String },
    /// Anything else.
    Event,
}

/// How much a line of the log matters.
#[derive(Clone, Copy, Debug, Eq, PartialEq, Structural)]
pub enum Level {
    Debug,
    Info,
    Warn,
}

/// A line of the log about a message from the dataplane.
#[derive(Clone, Copy, Debug, Eq, PartialEq)]
pub struct ReplyRecord<'a> {
    pub level: Level,
    pub message: &'static str,
    pub version: Option<&'a str>,
    pub generation: Option<u64>,
    pub entries: Option<u32>,
    pub reason: Option<&'a str>,
}

/// What a line of the log says.
pub ghost struct ReplyText {
    pub level: Level,
    pub message: Seq<char>,
    pub version: Option<Seq<char>>,
    pub generation: Option<u64>,
    pub entries: Option<u32>,
    pub reason: Option<Seq<char>>,
}

/// What a text says, if there is one.
pub open spec fn text_of(text: Option<&str>) -> Option<Seq<char>> {
    match text {
        Some(t) => Some(t@),
        None => None,
    }
}

impl<'a> View for ReplyRecord<'a> {
    type V = ReplyText;

    open spec fn view(&self) -> ReplyText {
        ReplyText {
            level: self.level,
            message: self.message@,
            version: text_of(self.version),
            generation: self.generation,
            entries: self.entries,
            reason: text_of(self.reason),
        }
    }
}

/// What is logged about a message from the dataplane.
pub open spec fn reply_text(msg: DataplaneMsg) -> Option<ReplyText> {
    match msg {
        DataplaneMsg::Hello { version, generation } => Some(
            ReplyText {
                level: Level::Info,
                message: "dataplane ready"@,
                version: Some(version@),
                generation: Some(generation),
                entries: None,
                reason: None,
            },
        ),
        DataplaneMsg::Ack { generation, entries_programmed } => Some(
            ReplyText {
                level: Level::Debug,
                message: "dataplane committed"@,
                version: None,
                generation: Some(generation),
                entries: Some(entries_programmed),
                reason: None,
            },
        ),
        DataplaneMsg::Nack { generation, reason } => Some(
            ReplyText {
                level: Level::Warn,
                message: "dataplane rejected an update"@,
                version: None,
                generation: Some(generation),
                entries: None,
                reason: Some(reason@),
            },
        ),
        DataplaneMsg::ResyncRequest { reason } => Some(
            ReplyText {
                level: Level::Info,
                message: "dataplane asked for a resync"@,
                version: None,
                generation: None,
                entries: None,
                reason: Some(reason@),
            },
        ),
        DataplaneMsg::Event => None,
    }
}

/// Returns what is to be logged about a message from the dataplane.
///
/// A request for a resync is only noted here; [`Session::step`] calls for the
/// snapshot that answers it.
pub fn handle_reply(msg: &DataplaneMsg) -> (record: Option<ReplyRecord<'_>>)
    ensures
        match record {
            Some(r) => reply_text(*msg) == Some(r@),
            None => reply_text(*msg) is None,
        },
{
    match msg {
        DataplaneMsg::Hello { version, generation } => Some(
            ReplyRecord {
                level: Level::Info,
                message: "dataplane ready",
                version: Some(version.as_str()),
                generation: Some(*generation),
                entries: None,
                reason: None,
            },
        ),
        DataplaneMsg::Ack { generation, entries_programmed } => Some(
            ReplyRecord {
                level: Level::Debug,
                message: "dataplane committed",
                version: None,
                generation: Some(*generation),
                entries: Some(*entries_programmed),
                reason: None,
            },
        ),
        DataplaneMsg::Nack { generation, reason } => Some(
            ReplyRecord {
                level: Level::Warn,
                message: "dataplane rejected an update",
                version: None,
                generation: Some(*generation),
                entries: None,
                reason: Some(reason.as_str()),
            },
        ),
        DataplaneMsg::ResyncRequest { reason } => Some(
            ReplyRecord {
                level: Level::Info,
                message: "dataplane asked for a resync",
                version: None,
                generation: None,
                entries: None,
                reason: Some(reason.as_str()),
            },
        ),
        DataplaneMsg::Event => None,
    }
}

/// The sessions with the dataplane, one after the other.
#[derive(Debug)]
pub struct Session {
    /// Whether there has been a session before.
    pub established: bool,
    /// Whether the node identity and port roles have been sent in this
    /// session.
    pub configured: bool,
    /// Whether a snapshot has been sent in this session, so that the dataplane
    /// can make sense of changes.
    pub synced: bool,
    /// The generation of the last update that was sent, in any session.
    pub generation: u64,
}

/// What happens during a session.
#[derive(Debug)]
pub enum SessionEvent {
    /// Forwarding state is to be updated.
    Update(DataplaneUpdate),
    /// There will be no more updates.
    UpdatesEnded,
    /// The dataplane replied.
    Reply(DataplaneMsg),
    /// The dataplane closed the session.
    RepliesEnded,
}

/// What is to be done about it.
#[derive(Debug)]
pub enum SessionAction {
    /// Send messages, in order.
    Send(Vec<ControlMsg>),
    /// Request a snapshot of the forwarding state.
    Resync,
    /// Nothing.
    Wait,
    /// End the session.
    End,
}

/// Whether an update has to wait for a snapshot: a dataplane that has been
/// sent none in this session may have been restarted, and could not make sense
/// of a change.
pub open spec fn awaits_snapshot(session: Session, update: DataplaneUpdate) -> bool {
    !session.synced && !update.delta.snapshot
}

/// Whether an event calls for a snapshot: a change that has to wait for one, a
/// request of the dataplane, or a dataplane that is behind what it was sent.
pub open spec fn calls_for_snapshot(session: Session, event: SessionEvent) -> bool {
    match event {
        SessionEvent::Update(update) => awaits_snapshot(session, update),
        SessionEvent::Reply(DataplaneMsg::ResyncRequest { .. }) => true,
        SessionEvent::Reply(DataplaneMsg::Hello { generation, .. }) => generation < session.generation,
        _ => false,
    }
}

/// The session after an event.
pub open spec fn session_after(session: Session, event: SessionEvent) -> Session {
    match event {
        SessionEvent::Update(update) if !awaits_snapshot(session, update) => Session {
            configured: true,
            synced: true,
            generation: update.delta.generation,
            ..session
        },
        _ => session,
    }
}

/// The messages that an event gives rise to. The node identity and port roles
/// are sent ahead of the first update of each session, since a restarted
/// dataplane has neither.
pub open spec fn event_messages(session: Session, event: SessionEvent) -> Seq<ControlText> {
    match event {
        SessionEvent::Update(update) if !awaits_snapshot(session, update) => if session.configured {
            update_messages(update)
        } else {
            configure_messages(update) + update_messages(update)
        },
        _ => Seq::empty(),
    }
}

/// The messages that a list of events gives rise to.
pub open spec fn session_messages(session: Session, events: Seq<SessionEvent>) -> Seq<ControlText>
    decreases events.len(),
{
    if events.len() == 0 {
        Seq::empty()
    } else {
        event_messages(session, events[0]) + session_messages(session_after(session, events[0]), events.skip(1))
    }
}

impl Session {
    pub fn new() -> (session: Session)
        ensures
            session == (Session { established: false, configured: false, synced: false, generation: 0 }),
    {
        Session { established: false, configured: false, synced: false, generation: 0 }
    }

    /// Starts a session on a new connection. Returns the message that opens
    /// it, and whether a snapshot of the forwarding state is to be requested:
    /// it is each time the session is re-established, since the dataplane may
    /// have been restarted.
    pub fn start(&mut self) -> (result: (ControlMsg, bool))
        ensures
            result.0@ == (ControlText::Hello { generation: 0, control_plane: "holo-isis"@ }),
            result.1 == old(self).established,
            *final(self) == (Session { established: true, configured: false, synced: false, ..*old(self) }),
    {
        let mut control_plane = String::new();
        control_plane.append("holo-isis");
        assert(control_plane@ =~= "holo-isis"@);
        let resync = self.established;
        self.established = true;
        self.configured = false;
        self.synced = false;
        (ControlMsg::Hello { generation: 0, control_plane }, resync)
    }

    /// Handles an event.
    ///
    /// A change that comes before the snapshot of its session is not sent: the
    /// snapshot that is requested in its place holds what it changes. Anything
    /// older than what was sent is refreshed with a snapshot too.
    pub fn step(&mut self, event: &SessionEvent) -> (action: SessionAction)
        ensures
            *final(self) == session_after(*old(self), *event),
            action is Resync <==> calls_for_snapshot(*old(self), *event),
            action is End <==> *event is UpdatesEnded || *event is RepliesEnded,
            action is Send <==> *event is Update && !calls_for_snapshot(*old(self), *event),
            action matches SessionAction::Send(msgs) ==> views(msgs@) == event_messages(*old(self), *event),
    {
        match event {
            SessionEvent::Update(update) => {
                if !self.synced && !update.delta.snapshot {
                    return SessionAction::Resync;
                }
                let configured = self.configured;
                self.configured = true;
                self.synced = true;
                self.generation = update.delta.generation;
                let mut batch = encode(update);
                if configured {
                    return SessionAction::Send(batch);
                }
                let mut msgs = configure(update);
                let ghost a = msgs@;
                let ghost b = batch@;
                msgs.append(&mut batch);
                assert(views(msgs@) =~= views(a) + views(b));
                SessionAction::Send(msgs)
            },
            SessionEvent::Reply(msg) => match msg {
                DataplaneMsg::ResyncRequest { reason: _ } => SessionAction::Resync,
                DataplaneMsg::Hello { version: _, generation } => {
                    if *generation < self.generation {
                        SessionAction::Resync
                    } else {
                        SessionAction::Wait
                    }
                },
                _ => SessionAction::Wait,
            },
            SessionEvent::UpdatesEnded => SessionAction::End,
            SessionEvent::RepliesEnded => SessionAction::End,
        }
    }
}

// ===== the laws of sessions =====

/// Configuring a session says nothing of forwarding state.
proof fn lemma_configure_no_delta(update: DataplaneUpdate, isids: Seq<u32>)
    ensures
        forall|i: int| 0 <= i < all_uni_messages(update, isids).len() ==> !(#[trigger] all_uni_messages(update, isids)[i]
            is FdbDelta),
    decreases isids.len(),
{
    if isids.len() > 0 {
        lemma_configure_no_delta(update, isids.drop_last());
    }
}

/// The messages of one event begin, as far as forwarding state goes, with a
/// snapshot if the session has not seen one, and are otherwise without any.
proof fn lemma_event_first_delta(session: Session, event: SessionEvent)
    requires
        !session.synced,
    ensures
        event_messages(session, event).len() > 0 ==> session_after(session, event).synced,
        forall|i: int|
            0 <= i < event_messages(session, event).len() && #[trigger] event_messages(session, event)[i] is FdbDelta
                ==> event_messages(session, event)[i]->FdbDelta_0.snapshot,
        event_messages(session, event).len() > 0 ==> exists|i: int|
            0 <= i < event_messages(session, event).len() && #[trigger] event_messages(session, event)[i] is FdbDelta,
        event_messages(session, event).len() == 0 ==> session_after(session, event) == session,
{
    if let SessionEvent::Update(update) = event {
        if !awaits_snapshot(session, update) {
            let msgs = event_messages(session, event);
            let last = update_messages(update);
            lemma_configure_no_delta(update, ordered(update.uni_ports@.dom()));
            let place = msgs.len() - last.len();
            assert(msgs[place] == last[0]);
            assert(msgs[place] is FdbDelta);
            assert forall|i: int| 0 <= i < msgs.len() && #[trigger] msgs[i] is FdbDelta implies msgs[i]->FdbDelta_0.snapshot by {
                if i >= place {
                    assert(msgs[i] == last[i - place]);
                } else {
                    let nni = nni_messages(views(update.nni_ports@));
                    let uni = all_uni_messages(update, ordered(update.uni_ports@.dom()));
                    assert(msgs[i] == configure_messages(update)[i]);
                    if i > nni.len() {
                        assert(msgs[i] == uni[i - 1 - nni.len()]);
                    } else if i > 0 {
                        assert(msgs[i] == nni[i - 1]);
                    }
                }
            }
        }
    }
}

/// The first forwarding state that is sent in a session is a snapshot,
/// whatever happens in it: a session that has just been started has seen none.
pub proof fn session_begins_with_snapshot(session: Session, events: Seq<SessionEvent>, i: int)
    requires
        !session.synced,
        0 <= i < session_messages(session, events).len(),
        session_messages(session, events)[i] is FdbDelta,
        forall|j: int| 0 <= j < i ==> !(#[trigger] session_messages(session, events)[j] is FdbDelta),
    ensures
        session_messages(session, events)[i]->FdbDelta_0.snapshot,
    decreases events.len(),
{
    let head = event_messages(session, events[0]);
    let next = session_after(session, events[0]);
    let tail = session_messages(next, events.skip(1));
    let all = session_messages(session, events);
    lemma_event_first_delta(session, events[0]);
    if head.len() > 0 {
        let k = choose|k: int| 0 <= k < head.len() && #[trigger] head[k] is FdbDelta;
        assert(all[k] == head[k]);
        assert(i <= k);
        assert(all[i] == head[i]);
    } else {
        assert(all =~= tail);
        session_begins_with_snapshot(session, events.skip(1), i);
    }
}

/// A dataplane that reports an older generation than it was sent is refreshed
/// with a snapshot.
pub proof fn older_dataplane_is_refreshed(session: Session, version: String, generation: u64)
    requires
        generation < session.generation,
    ensures
        calls_for_snapshot(session, SessionEvent::Reply(DataplaneMsg::Hello { version, generation })),
{
}

/// An error and what caused it, from the outermost to the innermost cause.
pub open spec fn detail_text(error: Seq<char>, causes: Seq<Seq<char>>) -> Seq<char>
    decreases causes.len(),
{
    if causes.len() == 0 {
        error
    } else {
        detail_text(error, causes.drop_last()) + ": "@ + causes.last()
    }
}

/// Describes why a session failed. An outermost error alone says nothing
/// useful, so the chain of its causes is reported too.
pub fn failure_detail(error: &str, causes: &Vec<String>) -> (detail: String)
    ensures
        detail@ == detail_text(error@, views(causes@)),
{
    let mut detail = String::new();
    detail.append(error);
    assert(detail@ =~= error@);
    assert(views(causes@).take(0) =~= Seq::empty());
    for i in 0..causes.len()
        invariant
            detail@ == detail_text(error@, views(causes@).take(i as int)),
    {
        let ghost now = views(causes@).take(i + 1);
        detail.append(": ");
        detail.append(causes[i].as_str());
        proof {
            assert(now.drop_last() =~= views(causes@).take(i as int));
            assert(now.last() == causes@[i as int]@);
        }
    }
    assert(views(causes@).take(causes@.len() as int) =~= views(causes@));
    detail
}

} // verus!
