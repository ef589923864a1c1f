//! Forwarding tables and their changes.

use holo_spb::ect::EctAlgorithm;
use holo_spb::fdb::{Fdb, MulticastKey, UnicastEntry, UnicastKey};
use holo_spb::mac::MacAddr;
use holo_spb::mcast::{group_bmac, parse_group_bmac};
use holo_spb::node::NodeId;
use holo_spb::ordmap::OrdSet;
use holo_spb::topology::{EctVid, IsidMembership, LinkView, NodeView, ServiceView, TopologyView};
use holo_spb::tree::{TreeKey, TreeSet};

const BVID: u16 = 4000;
const ISID: u32 = 100;

fn node(last: u8) -> NodeId {
    NodeId::new([0, 0, 0, 0, 0, last])
}

fn bmac(last: u8) -> MacAddr {
    MacAddr::from([0xaa, 0xbb, 0xcc, 0, 0, last])
}

fn node_set(ids: &[NodeId]) -> OrdSet<NodeId> {
    let mut set = OrdSet::new();
    for id in ids {
        set.insert(*id);
    }
    set
}

fn ect_vid() -> EctVid {
    EctVid {
        base_vid: BVID,
        algorithm: EctAlgorithm::from_index(1).unwrap(),
        spvid: None,
        multicast: true,
    }
}

/// A three-node chain rt1 -- rt2 -- rt3, with rt1 and rt3 acting as BEBs
/// for I-SID 100 and rt2 as a transit BCB.
///
/// `local` selects which node's perspective the view is built from.
fn chain(local: u8) -> TopologyView {
    let mut view = TopologyView {
        local: node(local),
        ..Default::default()
    };
    for id in [1u8, 2, 3] {
        let services = if id == 2 {
            // The BCB carries no service, only transit.
            vec![]
        } else {
            vec![ServiceView {
                bmac: bmac(id),
                base_vid: BVID,
                isids: vec![IsidMembership {
                    isid: ISID,
                    transmit: true,
                    receive: true,
                }],
            }]
        };
        view.nodes.insert(
            node(id),
            NodeView {
                spsource_id: 0x10 + id as u32,
                ect_vids: vec![ect_vid()],
                services,
                ..Default::default()
            },
        );
    }
    for (a, b) in [(1u8, 2u8), (2, 3)] {
        for (from, to) in [(a, b), (b, a)] {
            view.links.push(LinkView {
                from: node(from),
                to: node(to),
                metric: Some(10),
                port_ids: vec![],
            });
        }
    }
    view
}

fn build(local: u8) -> (TopologyView, Fdb) {
    let view = chain(local);
    let (trees, _) = TreeSet::compute(&view, 0, &[ect_vid()], usize::MAX);
    let fdb = Fdb::build(&view, &trees, 0, &[ect_vid()]);
    (view, fdb)
}

#[test]
fn unicast_entries_point_at_the_first_hop() {
    let (_, fdb) = build(1);

    // rt1's own B-MAC is local: no next hop.
    let local = fdb
        .unicast
        .get(&UnicastKey {
            base_vid: BVID,
            bmac: bmac(1),
        })
        .unwrap();
    assert_eq!(local.owner, node(1));
    assert_eq!(local.nexthop, None);
    assert_eq!(local.cost, 0);

    // rt3's B-MAC is two hops away through rt2.
    let remote = fdb
        .unicast
        .get(&UnicastKey {
            base_vid: BVID,
            bmac: bmac(3),
        })
        .unwrap();
    assert_eq!(remote.owner, node(3));
    assert_eq!(remote.nexthop, Some(node(2)));
    assert_eq!(remote.cost, 20);

    // rt2 advertises no B-MAC, so it contributes no unicast entry even
    // though it is on the tree.
    assert!(!fdb.unicast.keys().iter().any(|key| key.bmac == bmac(2)));
}

#[test]
fn ingress_check_uses_the_unicast_table() {
    // On the transit node, a frame from rt1 must arrive from rt1 and a
    // frame from rt3 must arrive from rt3. RFC 6329, Section 4.2.
    let (_, fdb) = build(2);
    assert_eq!(fdb.ingress_check(BVID, bmac(1)), Some(node(1)));
    assert_eq!(fdb.ingress_check(BVID, bmac(3)), Some(node(3)));
    // An unknown B-SA has no expected arrival node.
    assert_eq!(fdb.ingress_check(BVID, bmac(9)), None);
}

#[test]
fn multicast_entry_per_source_tree() {
    let (view, fdb) = build(1);

    // rt1 holds one entry per remote transmitter plus its own head-end
    // tree: sources rt1 and rt3 both transmit into I-SID 100.
    let mut sources: Vec<_> = fdb
        .multicast
        .keys()
        .iter()
        .map(|key| fdb.multicast.get(key).unwrap().source)
        .collect();
    sources.sort_unstable();
    assert_eq!(sources, vec![node(1), node(3)]);

    // The group B-MAC encodes the source's SPSourceID and the I-SID.
    let key = MulticastKey {
        base_vid: BVID,
        group_bmac: group_bmac(0x13, ISID),
    };
    let from_rt3 = fdb.multicast.get(&key).unwrap();
    assert_eq!(from_rt3.source, node(3));
    assert_eq!(from_rt3.isid, ISID);
    assert_eq!(parse_group_bmac(key.group_bmac), Some((0x13, ISID)));

    // rt1 receives from the service and is a leaf on rt3's tree.
    assert!(from_rt3.local_deliver);
    assert!(from_rt3.branches.is_empty());
    assert_eq!(view.local, node(1));
}

#[test]
fn transit_node_replicates_downstream_but_does_not_deliver() {
    let (_, fdb) = build(2);

    let key = MulticastKey {
        base_vid: BVID,
        group_bmac: group_bmac(0x11, ISID),
    };
    let from_rt1 = fdb.multicast.get(&key).unwrap();
    assert_eq!(from_rt1.source, node(1));
    // rt2 is on rt1's tree with rt3 downstream, so it replicates towards
    // rt3 but has no local receiver of its own.
    assert_eq!(
        from_rt1.branches,
        node_set(&[node(3)])
    );
    assert!(!from_rt1.local_deliver);
}

#[test]
fn service_entry_records_local_bits_and_remote_members() {
    let (_, fdb) = build(1);
    let svc = fdb.services.get(&ISID).unwrap();
    assert_eq!(svc.base_vid, BVID);
    assert!(svc.transmit);
    assert!(svc.receive);
    // Only remote members are listed; rt2 carries no service.
    assert_eq!(svc.members.len(), 1);
    assert_eq!(svc.members.get(&node(3)), Some(&bmac(3)));
}

/// rt1 at the centre of a star, with rt2 a member of the service and
/// rt3 and rt4 not. `local` selects whose view is built.
fn star(local: u8) -> TopologyView {
    let mut view = TopologyView {
        local: node(local),
        ..Default::default()
    };
    for id in [1u8, 2, 3, 4] {
        // Only rt1 and rt2 belong to the service; rt3 and rt4 are in the
        // region but carry no member of it.
        let services = if matches!(id, 1 | 2) {
            vec![ServiceView {
                bmac: bmac(id),
                base_vid: BVID,
                isids: vec![IsidMembership {
                    isid: ISID,
                    transmit: true,
                    receive: true,
                }],
            }]
        } else {
            vec![]
        };
        view.nodes.insert(
            node(id),
            NodeView {
                spsource_id: 0x10 + id as u32,
                ect_vids: vec![ect_vid()],
                services,
                ..Default::default()
            },
        );
    }
    for (a, b) in [(1u8, 2u8), (1, 3), (1, 4)] {
        for (from, to) in [(a, b), (b, a)] {
            view.links.push(LinkView {
                from: node(from),
                to: node(to),
                metric: Some(10),
                port_ids: vec![],
            });
        }
    }
    view
}

/// A branch is only installed if a receiver sits below it.
///
/// Without pruning, rt1 would replicate onto all three of its children
/// and two of the copies would cross the backbone only to be discarded
/// by nodes holding no state for the group.
#[test]
fn branches_are_pruned_to_subtrees_holding_receivers() {
    let view = star(1);
    let (trees, _) = TreeSet::compute(&view, 0, &[ect_vid()], usize::MAX);
    let fdb = Fdb::build(&view, &trees, 0, &[ect_vid()]);

    let key = MulticastKey {
        base_vid: BVID,
        group_bmac: group_bmac(0x11, ISID),
    };
    let own_tree = fdb.multicast.get(&key).unwrap();
    assert_eq!(
        own_tree.branches,
        node_set(&[node(2)]),
        "rt3 and rt4 hold no member and must be pruned"
    );
}

/// A node with neither a receiver of its own nor one below it holds no
/// state for the tree at all.
#[test]
fn a_node_outside_the_service_holds_no_multicast_state() {
    let view = star(3);
    let (trees, _) = TreeSet::compute(&view, 0, &[ect_vid()], usize::MAX);
    let fdb = Fdb::build(&view, &trees, 0, &[ect_vid()]);
    assert!(
        fdb.multicast.is_empty(),
        "rt3 is a leaf outside the service: {:?}",
        fdb.multicast
    );
}

#[test]
fn multicast_is_skipped_when_the_bvid_carries_none() {
    let view = chain(1);
    let mut vid = ect_vid();
    vid.multicast = false;
    let (trees, _) = TreeSet::compute(&view, 0, &[vid], usize::MAX);
    let fdb = Fdb::build(&view, &trees, 0, &[vid]);
    assert!(!fdb.unicast.is_empty());
    assert!(fdb.multicast.is_empty());
}

#[test]
fn multicast_state_is_confined_to_the_service_base_vid() {
    // Regression: a service is bound to one Base VID by its SPBM-SI
    // advertisement, so a second B-VID configured for a different ECT
    // algorithm must carry trees but no multicast state for that
    // service. Found on a live four-node topology, where I-SID 100 bound
    // to B-VID 4000 also produced entries on B-VID 4001.
    let view = chain(1);
    let second = EctVid {
        base_vid: 4001,
        algorithm: EctAlgorithm::from_index(2).unwrap(),
        spvid: None,
        multicast: true,
    };
    // Every node participates in both tree sets, as it would when two
    // B-VIDs are configured region-wide.
    let mut view = view;
    for id in view.nodes.keys() {
        view.nodes.get_mut(&id).unwrap().ect_vids.push(second);
    }

    let vids = [ect_vid(), second];
    let (trees, _) = TreeSet::compute(&view, 0, &vids, usize::MAX);
    let fdb = Fdb::build(&view, &trees, 0, &vids);

    // Both tree sets exist...
    assert!(trees.iter().iter().any(|(key, _)| key.base_vid == BVID));
    assert!(trees.iter().iter().any(|(key, _)| key.base_vid == 4001));

    // ...but the service's state lives only on its own Base VID.
    assert!(fdb.multicast.keys().iter().all(|key| key.base_vid == BVID));
    assert!(fdb.unicast.keys().iter().all(|key| key.base_vid == BVID));
    assert!(!fdb.multicast.is_empty());
}

#[test]
fn delta_round_trips_through_apply() {
    let (_, fdb) = build(1);

    // A snapshot installs the whole table.
    let mut applied = Fdb::default();
    let snapshot = fdb.snapshot(1);
    assert!(snapshot.snapshot);
    assert_eq!(
        snapshot.len(),
        fdb.unicast.len() + fdb.multicast.len() + fdb.services.len()
    );
    snapshot.apply(&mut applied);
    assert_eq!(applied, fdb);

    // Re-deriving against the same state yields nothing to do.
    let noop = fdb.delta(&applied, 2);
    assert!(noop.is_empty());
    assert_eq!(noop.len(), 0);
}

#[test]
fn delta_reports_additions_and_removals() {
    let (_, before) = build(1);

    // Break the rt2--rt3 link so rt3 becomes unreachable.
    let mut view = chain(1);
    view.links
        .retain(|link| link.from != node(3) && link.to != node(3));
    let (trees, _) = TreeSet::compute(&view, 0, &[ect_vid()], usize::MAX);
    let after = Fdb::build(&view, &trees, 0, &[ect_vid()]);

    let delta = after.delta(&before, 7);
    assert_eq!(delta.generation, 7);
    assert!(!delta.snapshot);
    assert!(
        delta.unicast_removed.contains(&UnicastKey {
            base_vid: BVID,
            bmac: bmac(3)
        }),
        "rt3's B-MAC must be withdrawn"
    );

    // Applying the delta to the old table reproduces the new one.
    let mut applied = before.clone();
    delta.apply(&mut applied);
    assert_eq!(applied, after);
}

#[test]
fn unicast_entries_are_symmetric_across_the_region() {
    // rt1's next hop to rt3 and rt3's next hop to rt1 must both be rt2,
    // which is the forwarding-level consequence of path symmetry.
    let (_, from_rt1) = build(1);
    let (_, from_rt3) = build(3);
    assert_eq!(
        from_rt1
            .unicast
            .get(&UnicastKey {
                base_vid: BVID,
                bmac: bmac(3)
            })
            .unwrap()
            .nexthop,
        Some(node(2))
    );
    assert_eq!(
        from_rt3
            .unicast
            .get(&UnicastKey {
                base_vid: BVID,
                bmac: bmac(1)
            })
            .unwrap()
            .nexthop,
        Some(node(2))
    );
}

#[test]
fn a_local_address_has_no_nexthop() {
    for local in [1u8, 2, 3] {
        let (view, fdb) = build(local);
        for key in fdb.unicast.keys() {
            let entry = fdb.unicast.get(&key).unwrap();
            assert_eq!(entry.nexthop.is_none(), entry.owner == view.local);
        }
    }
}

#[test]
fn a_frame_is_expected_from_where_multicast_arrives() {
    for local in [2u8, 3] {
        let (view, fdb) = build(local);
        let (trees, _) = TreeSet::compute(&view, 0, &[ect_vid()], usize::MAX);
        let key = TreeKey {
            mt_id: 0,
            base_vid: BVID,
            algorithm: EctAlgorithm::from_index(1).unwrap(),
            root: node(1),
        };
        let parent = trees.get(&key).unwrap().nodes.get(&node(local)).unwrap().parent;
        assert_eq!(fdb.ingress_check(BVID, bmac(1)), parent);
    }
}

#[test]
fn the_last_advertiser_owns_a_shared_address() {
    let mut view = chain(1);
    view.nodes.get_mut(&node(2)).unwrap().services = vec![ServiceView {
        bmac: bmac(3),
        base_vid: BVID,
        isids: vec![],
    }];
    let (trees, _) = TreeSet::compute(&view, 0, &[ect_vid()], usize::MAX);
    let fdb = Fdb::build(&view, &trees, 0, &[ect_vid()]);
    let key = UnicastKey {
        base_vid: BVID,
        bmac: bmac(3),
    };
    assert_eq!(fdb.unicast.get(&key).unwrap().owner, node(3));
    assert_eq!(fdb.unicast.get(&key).unwrap().cost, 20);
}

#[test]
fn the_last_listing_gives_a_member_its_address() {
    let mut view = chain(1);
    view.nodes.get_mut(&node(3)).unwrap().services.push(ServiceView {
        bmac: bmac(0x33),
        base_vid: 4001,
        isids: vec![IsidMembership {
            isid: ISID,
            transmit: false,
            receive: false,
        }],
    });
    let (trees, _) = TreeSet::compute(&view, 0, &[ect_vid()], usize::MAX);
    let fdb = Fdb::build(&view, &trees, 0, &[ect_vid()]);
    let svc = fdb.services.get(&ISID).unwrap();
    assert_eq!(svc.base_vid, 4001);
    assert_eq!(svc.members.get(&node(3)), Some(&bmac(0x33)));
}

#[test]
fn a_tree_set_without_a_local_tree_gives_nothing() {
    let view = chain(1);
    let fdb = Fdb::build(&view, &TreeSet::default(), 0, &[ect_vid()]);
    assert!(fdb.unicast.is_empty());
    assert!(fdb.multicast.is_empty());
    assert_eq!(fdb.services.keys(), vec![ISID]);
}

#[test]
fn a_snapshot_replaces_whatever_was_there() {
    let (_, fdb) = build(1);
    let (_, mut stale) = build(3);
    let key = UnicastKey {
        base_vid: 4001,
        bmac: bmac(9),
    };
    stale.unicast.insert(
        key,
        UnicastEntry {
            owner: node(9),
            nexthop: None,
            cost: 0,
        },
    );
    let mut other = stale.clone();
    assert_eq!(other, stale);
    fdb.snapshot(4).apply(&mut other);
    assert_eq!(other, fdb);
    // Without the snapshot flag, what only the other state had stays.
    let mut other = stale.clone();
    fdb.delta(&Fdb::default(), 4).apply(&mut other);
    assert!(other.unicast.contains_key(&key));
}

#[test]
fn a_delta_lists_its_changes_in_order() {
    let (_, fdb) = build(2);
    let delta = fdb.delta(&Fdb::default(), 9);
    assert_eq!(delta.generation, 9);
    let keys: Vec<_> = delta.unicast_added.iter().map(|(key, _)| *key).collect();
    assert_eq!(keys, fdb.unicast.keys());
    let back = Fdb::default().delta(&fdb, 10);
    assert_eq!(back.unicast_removed, fdb.unicast.keys());
    assert_eq!(back.multicast_removed, fdb.multicast.keys());
    assert_eq!(back.services_removed, fdb.services.keys());
    assert_eq!(back.len(), delta.len());
    let copy = delta.clone();
    assert_eq!(copy.len(), delta.len());
    assert_eq!(copy.unicast_added, delta.unicast_added);
}
