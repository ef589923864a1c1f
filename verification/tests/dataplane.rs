//! Messages to the dataplane.

use holo_spb::dataplane::{
    configure, encode, failure_detail, handle_reply, ControlMsg, DataplaneMsg, DataplaneUpdate, Level, NodeIdentity, PortRole, Session, SessionAction,
    SessionEvent,
};
use holo_spb::fdb::{FdbDelta, MulticastEntry, MulticastKey, ServiceEntry, UnicastEntry, UnicastKey};
use holo_spb::mac::MacAddr;
use holo_spb::node::NodeId;
use holo_spb::ordmap::{OrdMap, OrdSet};

fn nexthops(entries: &[(NodeId, &str)]) -> OrdMap<NodeId, String> {
    let mut map = OrdMap::new();
    for (id, ifname) in entries {
        map.insert(*id, ifname.to_string());
    }
    map
}

fn ports(entries: &[(u32, &str)]) -> OrdMap<u32, Vec<String>> {
    let mut map = OrdMap::new();
    for (isid, ifname) in entries {
        map.insert(*isid, vec![ifname.to_string()]);
    }
    map
}

fn member_map(entries: &[(NodeId, MacAddr)]) -> OrdMap<NodeId, MacAddr> {
    let mut map = OrdMap::new();
    for (id, bmac) in entries {
        map.insert(*id, *bmac);
    }
    map
}

fn node_set(ids: &[NodeId]) -> OrdSet<NodeId> {
    let mut set = OrdSet::new();
    for id in ids {
        set.insert(*id);
    }
    set
}

#[test]
fn a_delta_encodes_to_an_update_then_a_commit() {
    let mut delta = FdbDelta {
        generation: 7,
        ..Default::default()
    };
    delta.unicast_added.push((
        UnicastKey {
            base_vid: 4000,
            bmac: MacAddr::from([0, 0, 0, 0, 0, 4]),
        },
        UnicastEntry {
            owner: NodeId::new([0, 0, 0, 0, 0, 4]),
            nexthop: Some(NodeId::new([0, 0, 0, 0, 0, 2])),
            cost: 20,
        },
    ));

    let update = DataplaneUpdate {
        delta,
        node: NodeIdentity {
            b_mac: MacAddr::from([0, 0, 0, 0, 0, 1]),
            spsource_id: 0x1001,
        },
        nexthops: nexthops(&[(NodeId::new([0, 0, 0, 0, 0, 2]), "eth-rt2")]),
        uni_ports: Default::default(),
        nni_ports: vec!["eth-rt2".to_owned()],
    };

    let msgs = encode(&update);
    assert_eq!(msgs.len(), 2);

    let ControlMsg::FdbDelta(update) = &msgs[0] else {
        panic!("expected an FdbDelta first");
    };
    assert_eq!(update.generation, 7);
    assert_eq!(update.unicast_added.len(), 1);
    let entry = &update.unicast_added[0];
    assert_eq!(entry.cost, 20);
    assert_eq!(entry.key.b_vid, 4000);
    assert_eq!(entry.nexthop_system_id, vec![0, 0, 0, 0, 0, 2]);
    // The next-hop node must have been resolved to a local interface,
    // since an unresolved entry cannot be programmed.
    assert_eq!(entry.out_ifname, "eth-rt2");

    // The commit must come last, so the dataplane applies a whole batch
    // at once rather than a partially written table.
    let ControlMsg::Commit { generation } = &msgs[1] else {
        panic!("expected a Commit last");
    };
    assert_eq!(*generation, 7);
}

#[test]
fn configure_sends_identity_then_port_roles() {
    let update = DataplaneUpdate {
        delta: FdbDelta {
            generation: 1,
            snapshot: true,
            services_added: vec![(
                100,
                ServiceEntry {
                    base_vid: 4000,
                    transmit: true,
                    receive: true,
                    members: Default::default(),
                },
            )],
            ..Default::default()
        },
        node: NodeIdentity {
            b_mac: MacAddr::from([0, 0, 0, 0, 0, 1]),
            spsource_id: 0x1001,
        },
        nexthops: Default::default(),
        uni_ports: ports(&[(100, "eth-cust")]),
        nni_ports: vec!["eth-rt2".to_owned(), "eth-rt3".to_owned()],
    };

    let msgs = configure(&update);
    // Identity first: the datapath drops frames until it knows its own
    // B-MAC.
    let ControlMsg::NodeConfig { b_mac, spsource_id } = &msgs[0] else {
        panic!("expected NodeConfig first");
    };
    assert_eq!(*spsource_id, 0x1001);
    assert_eq!(*b_mac, vec![0, 0, 0, 0, 0, 1]);

    // Then one port per interface, with the customer port carrying the
    // service it belongs to and the B-VID that service runs on.
    assert_eq!(msgs.len(), 1 + 2 + 1);
    let roles: Vec<_> = msgs[1..]
        .iter()
        .map(|m| {
            let ControlMsg::PortConfig { ifname, role, i_sid, b_vid } = m else {
                panic!("expected PortConfig");
            };
            (ifname.clone(), *role, *i_sid, *b_vid)
        })
        .collect();
    let nni = PortRole::Nni;
    let uni = PortRole::Uni;
    assert!(roles.contains(&("eth-rt2".to_owned(), nni, 0, 0)));
    assert!(roles.contains(&("eth-rt3".to_owned(), nni, 0, 0)));
    assert!(roles.contains(&("eth-cust".to_owned(), uni, 100, 4000)));
}

#[test]
fn a_service_carries_its_member_bmacs_for_head_end_replication() {

    // With the T bit clear, no transit node holds multicast state for
    // this node, so it must address one copy per member itself. The
    // member B-MACs therefore have to reach the dataplane.
    let members = [
        (
            NodeId::new([0, 0, 0, 0, 0, 3]),
            MacAddr::from([0, 0, 0, 0, 0, 3]),
        ),
        (
            NodeId::new([0, 0, 0, 0, 0, 4]),
            MacAddr::from([0, 0, 0, 0, 0, 4]),
        ),
    ];
    let delta = FdbDelta {
        generation: 5,
        services_added: vec![(
            100,
            ServiceEntry {
                base_vid: 4000,
                transmit: false,
                receive: true,
                members: member_map(&members),
            },
        )],
        ..Default::default()
    };
    let update = DataplaneUpdate {
        delta,
        node: NodeIdentity::default(),
        nexthops: Default::default(),
        uni_ports: ports(&[(100, "eth-h1")]),
        nni_ports: Vec::new(),
    };

    let msgs = encode(&update);
    let ControlMsg::FdbDelta(sent) = &msgs[0] else {
        panic!("expected an FdbDelta");
    };
    let svc = &sent.services_added[0];
    assert!(!svc.transmit, "head-end mode is signalled by a clear T bit");
    assert_eq!(svc.uni_ifnames, vec!["eth-h1".to_owned()]);
    assert_eq!(
        svc.member_bmacs,
        vec![vec![0, 0, 0, 0, 0, 3], vec![0, 0, 0, 0, 0, 4]]
    );
}

#[test]
fn multicast_branches_resolve_to_interfaces() {

    let mut delta = FdbDelta {
        generation: 3,
        ..Default::default()
    };
    delta.multicast_added.push((
        MulticastKey {
            base_vid: 4000,
            group_bmac: MacAddr::from([0x03, 0x10, 0x01, 0, 0, 0x64]),
        },
        MulticastEntry {
            source: NodeId::new([0, 0, 0, 0, 0, 1]),
            isid: 100,
            local_deliver: false,
            branches: node_set(&[
                NodeId::new([0, 0, 0, 0, 0, 2]),
                // No adjacency for this one: it must be skipped rather
                // than sent unresolved.
                NodeId::new([0, 0, 0, 0, 0, 9]),
            ]),
        },
    ));

    let update = DataplaneUpdate {
        delta,
        node: NodeIdentity::default(),
        nexthops: nexthops(&[(NodeId::new([0, 0, 0, 0, 0, 2]), "eth-rt2")]),
        uni_ports: Default::default(),
        nni_ports: Vec::new(),
    };

    let msgs = encode(&update);
    let ControlMsg::FdbDelta(sent) = &msgs[0] else {
        panic!("expected an FdbDelta");
    };
    let entry = &sent.multicast_added[0];
    assert_eq!(entry.out_ifnames, vec!["eth-rt2".to_owned()]);
    assert_eq!(entry.i_sid, 100);
    assert!(!entry.local_deliver);
}

#[test]
fn a_local_bmac_encodes_without_a_nexthop() {
    let mut delta = FdbDelta {
        generation: 1,
        snapshot: true,
        ..Default::default()
    };
    delta.unicast_added.push((
        UnicastKey {
            base_vid: 4000,
            bmac: MacAddr::from([0, 0, 0, 0, 0, 1]),
        },
        UnicastEntry {
            owner: NodeId::new([0, 0, 0, 0, 0, 1]),
            nexthop: None,
            cost: 0,
        },
    ));
    let update = DataplaneUpdate {
        delta,
        node: NodeIdentity::default(),
        nexthops: Default::default(),
        uni_ports: Default::default(),
        nni_ports: Vec::new(),
    };
    let msgs = encode(&update);
    let ControlMsg::FdbDelta(sent) = &msgs[0] else {
        panic!("expected an FdbDelta");
    };
    assert!(sent.snapshot);
    // No next hop and no interface: the dataplane reads that as "this
    // B-MAC is mine, decapsulate".
    assert!(sent.unicast_added[0].nexthop_system_id.is_empty());
    assert!(sent.unicast_added[0].out_ifname.is_empty());
}

fn empty_update() -> DataplaneUpdate {
    DataplaneUpdate {
        delta: FdbDelta::default(),
        node: NodeIdentity::default(),
        nexthops: Default::default(),
        uni_ports: Default::default(),
        nni_ports: vec!["eth-rt2".to_owned()],
    }
}

fn snapshot_update(generation: u64) -> DataplaneUpdate {
    let mut update = empty_update();
    update.delta.generation = generation;
    update.delta.snapshot = true;
    update
}

#[test]
fn a_session_is_configured_once() {
    let mut session = Session::new();
    let (hello, resync) = session.start();
    assert!(!resync);
    assert_eq!(
        hello,
        ControlMsg::Hello {
            generation: 0,
            control_plane: "holo-isis".to_owned()
        }
    );
    let ack = DataplaneMsg::Ack {
        generation: 1,
        entries_programmed: 1,
    };
    assert!(matches!(session.step(&SessionEvent::Reply(ack)), SessionAction::Wait));

    let snapshot = SessionEvent::Update(snapshot_update(1));
    let SessionAction::Send(first) = session.step(&snapshot) else {
        panic!("expected messages");
    };
    // Identity, one port, the delta and the commit.
    assert_eq!(first.len(), 4);
    assert!(matches!(first[0], ControlMsg::NodeConfig { .. }));
    assert!(matches!(first[3], ControlMsg::Commit { .. }));

    let change = SessionEvent::Update(empty_update());
    let SessionAction::Send(second) = session.step(&change) else {
        panic!("expected messages");
    };
    assert_eq!(second, encode(&empty_update()));

    // A new connection is configured anew, and a snapshot is called for.
    let (_, resync) = session.start();
    assert!(resync);
    let SessionAction::Send(again) = session.step(&snapshot) else {
        panic!("expected messages");
    };
    assert_eq!(again, first);
}

#[test]
fn every_session_begins_with_a_snapshot() {
    let mut session = Session::new();
    let change = SessionEvent::Update(empty_update());
    for generation in [1u64, 2] {
        session.start();
        // A change that was queued before is not sent: a restarted dataplane
        // could make nothing of it.
        assert!(matches!(session.step(&change), SessionAction::Resync));
        assert!(!session.synced && !session.configured);
        let snapshot = SessionEvent::Update(snapshot_update(generation));
        let SessionAction::Send(msgs) = session.step(&snapshot) else {
            panic!("expected messages");
        };
        let first = msgs.iter().find_map(|msg| match msg {
            ControlMsg::FdbDelta(delta) => Some(delta),
            _ => None,
        });
        assert!(first.unwrap().snapshot);
        assert!(session.synced);
        assert_eq!(session.generation, generation);
        // From then on changes are sent as they come.
        assert!(matches!(session.step(&change), SessionAction::Send(_)));
    }
}

#[test]
fn an_older_dataplane_is_refreshed() {
    let hello = |generation: u64| {
        SessionEvent::Reply(DataplaneMsg::Hello {
            version: "1.2".to_owned(),
            generation,
        })
    };
    let mut session = Session::new();
    session.start();
    // Nothing has been sent, so nothing can be older.
    assert!(matches!(session.step(&hello(0)), SessionAction::Wait));
    session.step(&SessionEvent::Update(snapshot_update(7)));
    session.start();
    assert!(matches!(session.step(&hello(6)), SessionAction::Resync));
    assert!(matches!(session.step(&hello(7)), SessionAction::Wait));
    assert!(matches!(session.step(&hello(8)), SessionAction::Wait));
}

#[test]
fn a_resync_request_calls_for_a_snapshot() {
    let mut session = Session::new();
    session.start();
    let resync = DataplaneMsg::ResyncRequest {
        reason: "restarted".to_owned(),
    };
    assert!(matches!(session.step(&SessionEvent::Reply(resync)), SessionAction::Resync));
}

#[test]
fn a_session_ends_with_either_side() {
    let mut session = Session::new();
    session.start();
    assert!(matches!(session.step(&SessionEvent::UpdatesEnded), SessionAction::End));
    assert!(matches!(session.step(&SessionEvent::RepliesEnded), SessionAction::End));
    assert!(!session.configured);
}

#[test]
fn an_unresolved_nexthop_is_sent_without_an_interface() {
    let mut update = empty_update();
    update.delta.unicast_added.push((
        UnicastKey {
            base_vid: 4000,
            bmac: MacAddr::from([0, 0, 0, 0, 0, 4]),
        },
        UnicastEntry {
            owner: NodeId::new([0, 0, 0, 0, 0, 4]),
            nexthop: Some(NodeId::new([0, 0, 0, 0, 0, 2])),
            cost: 20,
        },
    ));
    assert_eq!(update.nexthop_ifname(NodeId::new([0, 0, 0, 0, 0, 2])), None);
    let ControlMsg::FdbDelta(sent) = &encode(&update)[0] else {
        panic!("expected an FdbDelta");
    };
    assert_eq!(sent.unicast_added[0].nexthop_system_id, vec![0, 0, 0, 0, 0, 2]);
    assert!(sent.unicast_added[0].out_ifname.is_empty());
    assert_eq!(sent.unicast_added[0].key.b_mac, vec![0, 0, 0, 0, 0, 4]);
}

#[test]
fn removals_are_sent_by_key() {
    let mut update = empty_update();
    update.delta.unicast_removed.push(UnicastKey {
        base_vid: 4000,
        bmac: MacAddr::from([0, 0, 0, 0, 0, 4]),
    });
    update.delta.multicast_removed.push(MulticastKey {
        base_vid: 4001,
        group_bmac: MacAddr::from([3, 0, 0, 0, 0, 4]),
    });
    update.delta.services_removed.push(100);
    let ControlMsg::FdbDelta(sent) = &encode(&update)[0] else {
        panic!("expected an FdbDelta");
    };
    assert_eq!(sent.unicast_removed[0].b_vid, 4000);
    assert_eq!(sent.multicast_removed[0].group_bmac, vec![3, 0, 0, 0, 0, 4]);
    assert_eq!(sent.services_removed, vec![100]);
}

#[test]
fn a_port_without_a_known_service_has_no_vid() {
    let mut update = empty_update();
    update.uni_ports = ports(&[(100, "eth-cust")]);
    let msgs = configure(&update);
    assert_eq!(
        msgs[2],
        ControlMsg::PortConfig {
            ifname: "eth-cust".to_owned(),
            role: PortRole::Uni,
            i_sid: 100,
            b_vid: 0
        }
    );
}

#[test]
fn a_failure_is_reported_with_its_causes() {
    let causes = vec!["connection refused".to_owned(), "os error 111".to_owned()];
    assert_eq!(
        failure_detail("transport error", &causes),
        "transport error: connection refused: os error 111"
    );
    assert_eq!(failure_detail("transport error", &vec![]), "transport error");
}

#[test]
fn replies_are_logged() {
    let hello = DataplaneMsg::Hello {
        version: "1.2".to_owned(),
        generation: 7,
    };
    let record = handle_reply(&hello).unwrap();
    assert_eq!((record.level, record.message), (Level::Info, "dataplane ready"));
    assert_eq!((record.version, record.generation), (Some("1.2"), Some(7)));

    let ack = DataplaneMsg::Ack {
        generation: 8,
        entries_programmed: 3,
    };
    let record = handle_reply(&ack).unwrap();
    assert_eq!((record.level, record.message), (Level::Debug, "dataplane committed"));
    assert_eq!((record.generation, record.entries), (Some(8), Some(3)));

    let nack = DataplaneMsg::Nack {
        generation: 9,
        reason: "table full".to_owned(),
    };
    let record = handle_reply(&nack).unwrap();
    assert_eq!((record.level, record.message), (Level::Warn, "dataplane rejected an update"));
    assert_eq!((record.generation, record.reason), (Some(9), Some("table full")));

    let resync = DataplaneMsg::ResyncRequest {
        reason: "restarted".to_owned(),
    };
    let record = handle_reply(&resync).unwrap();
    assert_eq!((record.level, record.message), (Level::Info, "dataplane asked for a resync"));
    assert_eq!((record.generation, record.reason), (None, Some("restarted")));

    assert_eq!(handle_reply(&DataplaneMsg::Event), None);
}
