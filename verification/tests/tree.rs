//! Shortest path trees.

use holo_spb::ect::{EctAlgorithm, ECT_ALG_DEFAULT};
use holo_spb::mac::MacAddr;
use holo_spb::node::NodeId;
use holo_spb::topology::{EctVid, IsidMembership, LinkView, NodeView, ServiceView, TopologyView};
use holo_spb::tree::{SpbTree, TreeKey, TreeSet};

fn node(last: u8) -> NodeId {
    NodeId::new([0, 0, 0, 0, 0, last])
}

fn ect_vid(algo_index: u8) -> EctVid {
    EctVid {
        base_vid: 4000,
        algorithm: EctAlgorithm::from_index(algo_index).unwrap(),
        spvid: None,
        multicast: true,
    }
}

/// Builds a view from an undirected edge list, with every node
/// participating in both algorithm 1 and algorithm 2 on B-VID 4000.
fn view(local: u8, edges: &[(u8, u8, u32)]) -> TopologyView {
    let mut view = TopologyView {
        local: node(local),
        ..Default::default()
    };
    let ect_vids = vec![ect_vid(1), ect_vid(2)];
    for (a, b, metric) in edges {
        for id in [*a, *b] {
            if !view.nodes.contains_key(&node(id)) {
                view.nodes.insert(
                    node(id),
                    NodeView {
                        ect_vids: ect_vids.clone(),
                        ..Default::default()
                    },
                );
            }
        }
        view.links.push(LinkView {
            from: node(*a),
            to: node(*b),
            metric: Some(*metric),
            port_ids: vec![],
        });
        view.links.push(LinkView {
            from: node(*b),
            to: node(*a),
            metric: Some(*metric),
            port_ids: vec![],
        });
    }
    view
}

/// The RFC 6329 Section 11 example topology: from node :1, two
/// equal-cost sub-paths to :7 fork at :1 and join at :7, one via :2 and
/// one via :6.
fn rfc_fig2() -> TopologyView {
    view(1, &[(1, 2, 10), (1, 6, 10), (2, 7, 10), (6, 7, 10)])
}

#[test]
fn link_cost_is_max_of_the_two_advertisements() {
    // RFC 6329, Section 11: the maximum of the two advertised
    // SPB-LINK-METRICs must be used.
    let mut v = view(1, &[(1, 2, 10)]);
    for link in &mut v.links {
        if link.from == node(1) {
            link.metric = Some(30);
        }
    }
    assert_eq!(v.edge_cost(node(1), node(2)), Some(30));
    // The cost is the same in both directions, which is what forces
    // symmetric paths despite the asymmetric configuration.
    assert_eq!(v.edge_cost(node(2), node(1)), Some(30));
}

#[test]
fn link_without_spb_metric_is_unusable() {
    // "If this sub-TLV is not present for an IS-IS adjacency, then that
    // adjacency Must not carry SPB traffic."
    let mut v = view(1, &[(1, 2, 10), (2, 3, 10)]);
    for link in &mut v.links {
        if link.from == node(2) && link.to == node(3) {
            link.metric = None;
        }
    }
    assert_eq!(v.edge_cost(node(2), node(3)), None);
    let tree = SpbTree::compute(&v, node(1), &ect_vid(1));
    assert!(tree.contains(node(2)));
    assert!(!tree.contains(node(3)), "must not transit a non-SPB link");
}

#[test]
fn default_algorithm_breaks_the_rfc_tie_via_node_2() {
    let v = rfc_fig2();
    let tree = SpbTree::compute(&v, node(1), &ect_vid(1));
    assert_eq!(tree.cost(node(7)), Some(20));
    // "the default tie-breaking rule causes the path traversing node :2
    // to be selected since it has a lower BridgeID."
    assert_eq!(tree.first_hop(node(7)), Some(node(2)));
    assert_eq!(
        tree.path_to(node(7)),
        Some(vec![node(1), node(2), node(7)])
    );
}

#[test]
fn algorithm_two_breaks_the_same_tie_the_other_way() {
    let v = rfc_fig2();
    let tree = SpbTree::compute(&v, node(1), &ect_vid(2));
    assert_eq!(tree.cost(node(7)), Some(20));
    // ECT-MASK{2} inverts the BridgeID, so the higher one wins.
    assert_eq!(tree.first_hop(node(7)), Some(node(6)));
}

#[test]
fn bridge_priority_overrides_the_tie_break() {
    // RFC 6329, Section 11: "the operator may cause the tie-breaking
    // logic to pick the alternate path by raising the Bridge Priority of
    // node :2 above that of :6."
    let mut v = rfc_fig2();
    v.nodes.get_mut(&node(2)).unwrap().bridge_priority = 100;
    let tree = SpbTree::compute(&v, node(1), &ect_vid(1));
    assert_eq!(tree.first_hop(node(7)), Some(node(6)));
}

#[test]
fn every_node_has_exactly_one_parent() {
    // SPB selects a single path per destination, never an ECMP set.
    let v = rfc_fig2();
    let tree = SpbTree::compute(&v, node(1), &ect_vid(1));
    for id in tree.nodes.keys() {
        let entry = tree.nodes.get(&id).unwrap();
        if id == tree.root {
            assert!(entry.parent.is_none());
        } else {
            assert!(entry.parent.is_some());
        }
    }
}

#[test]
fn trees_are_forward_and_reverse_symmetric() {
    // RFC 6329, Section 4: routes must be forward- and reverse-path
    // symmetric with respect to any source/destination pair.
    let v = rfc_fig2();
    let ids = v.nodes.keys();
    for algo in [1u8, 2u8] {
        let vid = ect_vid(algo);
        for a in &ids {
            for b in &ids {
                let ta = SpbTree::compute(&v, *a, &vid);
                let tb = SpbTree::compute(&v, *b, &vid);
                assert_eq!(
                    ta.cost(*b),
                    tb.cost(*a),
                    "cost must be the same both ways"
                );
                let (Some(mut pa), Some(mut pb)) =
                    (ta.path_to(*b), tb.path_to(*a))
                else {
                    continue;
                };
                pb.reverse();
                assert_eq!(
                    pa, pb,
                    "path must be the reverse"
                );
                pa.sort_unstable();
                assert!(pa.windows(2).all(|w| w[0] != w[1]));
            }
        }
    }
}

#[test]
fn trees_are_identical_regardless_of_who_computes_them() {
    // Congruence depends on this: a node derives its position in a
    // remote source's distribution tree by computing that source's tree
    // locally, which is only valid if the result is identical.
    let v = rfc_fig2();
    let vid = ect_vid(1);
    let from_1 = SpbTree::compute(&v, node(7), &vid);

    let mut v_other = v.clone();
    v_other.local = node(6);
    let from_6 = SpbTree::compute(&v_other, node(7), &vid);

    for id in v.nodes.keys() {
        assert_eq!(from_1.cost(id), from_6.cost(id));
        assert_eq!(from_1.path_to(id), from_6.path_to(id));
    }
}

#[test]
fn multicast_branches_are_congruent_with_the_unicast_tree() {
    // RFC 6329, Section 4: the SPT to a given node is congruent with the
    // MDT from that node, so the branches a node replicates onto for
    // source S are exactly its children in SPT(S).
    let v = rfc_fig2();
    let vid = ect_vid(1);
    let from_7 = SpbTree::compute(&v, node(7), &vid);

    // On the tree rooted at :7, node :2 is on the path to :1, so :2
    // replicates towards :1.
    assert_eq!(from_7.children(node(2)), vec![node(1)]);
    assert_eq!(from_7.first_hop(node(1)), Some(node(2)));

    // Every child's path to the root goes through its parent.
    for id in from_7.nodes.keys() {
        let entry = from_7.nodes.get(&id).unwrap();
        if let Some(parent) = entry.parent {
            let path = from_7.path_to(id).unwrap();
            assert_eq!(path[path.len() - 2], parent);
        }
    }
}

#[test]
fn overloaded_node_is_reachable_but_not_transited() {
    let mut v = view(1, &[(1, 2, 10), (2, 3, 10)]);
    v.nodes.get_mut(&node(2)).unwrap().overload = true;
    let tree = SpbTree::compute(&v, node(1), &ect_vid(1));
    assert!(tree.contains(node(2)));
    assert!(!tree.contains(node(3)));
}

#[test]
fn node_not_advertising_the_bvid_is_excluded() {
    let mut v = view(1, &[(1, 2, 10), (2, 3, 10)]);
    v.nodes.get_mut(&node(2)).unwrap().ect_vids.clear();
    let tree = SpbTree::compute(&v, node(1), &ect_vid(1));
    assert!(!tree.contains(node(2)));
    assert!(!tree.contains(node(3)));
}

#[test]
fn hop_count_breaks_ties_before_path_id() {
    // Two paths of equal cost but different hop counts: the shorter must
    // win regardless of BridgeIDs. :1 reaches :5 either directly at cost
    // 20, or via the cheap two-hop chain through :2 and :3.
    let v = view(1, &[(1, 5, 20), (1, 2, 5), (2, 3, 5), (3, 5, 10)]);
    let tree = SpbTree::compute(&v, node(1), &ect_vid(1));
    assert_eq!(tree.cost(node(5)), Some(20));
    assert_eq!(tree.first_hop(node(5)), Some(node(5)));
    assert_eq!(tree.nodes.get(&node(5)).unwrap().hops, 1);
}

#[test]
fn tree_set_computes_local_and_transmitter_roots() {

    let mut v = rfc_fig2();
    // :7 transmits into I-SID 100; :1 only receives.
    v.nodes.get_mut(&node(7)).unwrap().services = vec![ServiceView {
        bmac: MacAddr::from([0xaa, 0, 0, 0, 0, 7]),
        base_vid: 4000,
        isids: vec![IsidMembership {
            isid: 100,
            transmit: true,
            receive: true,
        }],
    }];
    v.nodes.get_mut(&node(1)).unwrap().services = vec![ServiceView {
        bmac: MacAddr::from([0xaa, 0, 0, 0, 0, 1]),
        base_vid: 4000,
        isids: vec![IsidMembership {
            isid: 100,
            transmit: false,
            receive: true,
        }],
    }];

    assert_eq!(v.transmitters(100), vec![node(7)]);

    let (set, skipped) = TreeSet::compute(&v, 0, &[ect_vid(1)], usize::MAX);
    assert_eq!(skipped, 0);
    // One tree rooted locally at :1, one rooted at the transmitter :7.
    assert_eq!(set.len(), 2);
    assert!(
        set.get(&TreeKey {
            mt_id: 0,
            base_vid: 4000,
            algorithm: EctAlgorithm(ECT_ALG_DEFAULT),
            root: node(7),
        })
        .is_some()
    );

    // The bound is honoured and the shortfall reported.
    let (bounded, skipped) = TreeSet::compute(&v, 0, &[ect_vid(1)], 1);
    assert_eq!(bounded.len(), 1);
    assert_eq!(skipped, 1);
}

#[test]
fn ect_vid_use_flag_reflects_any_participant() {
    let mut v = rfc_fig2();
    assert!(v.ect_vid_in_use(&ect_vid(1)));

    // Nobody advertising the pair means the Use-Flag must be clear.
    for id in v.nodes.keys() {
        v.nodes.get_mut(&id).unwrap().ect_vids.clear();
    }
    assert!(!v.ect_vid_in_use(&ect_vid(1)));

    // A single remote participant is enough to set it.
    v.nodes.get_mut(&node(6)).unwrap().ect_vids = vec![ect_vid(1)];
    assert!(v.ect_vid_in_use(&ect_vid(1)));
    assert!(!v.ect_vid_in_use(&ect_vid(2)));
}

#[test]
fn spsource_id_conflict_loser_is_the_lower_priority_bridge() {
    // RFC 6329, Section 14.1: "the bridge with the highest priority
    // Bridge Identifier will win conflicts."
    let mut v = rfc_fig2();
    v.nodes.get_mut(&node(2)).unwrap().spsource_id = 0x12345;
    v.nodes.get_mut(&node(6)).unwrap().spsource_id = 0x12345;
    let conflicts = v.spsource_id_conflicts();
    // :2 has the numerically lower BridgeID, i.e. the higher priority,
    // so it keeps the value and :6 must reallocate.
    assert_eq!(conflicts.get(&0x12345), Some(&vec![node(6)]));

    // An unassigned SPSourceID cannot collide.
    v.nodes.get_mut(&node(2)).unwrap().spsource_id = 0;
    v.nodes.get_mut(&node(6)).unwrap().spsource_id = 0;
    assert!(v.spsource_id_conflicts().is_empty());
}

/// A grid with equal costs, which is full of ties.
fn grid(side: u8) -> TopologyView {
    let mut edges = Vec::new();
    for row in 0..side {
        for col in 0..side {
            let id = row * side + col + 1;
            if col + 1 < side {
                edges.push((id, id + 1, 10));
            }
            if row + 1 < side {
                edges.push((id, id + side, 10));
            }
        }
    }
    view(1, &edges)
}

#[test]
fn a_grid_is_symmetric_for_every_algorithm() {
    let v = grid(4);
    for algo in [1u8, 2] {
        let vid = ect_vid(algo);
        for a in v.nodes.keys() {
            let ta = SpbTree::compute(&v, a, &vid);
            for b in v.nodes.keys() {
                let tb = SpbTree::compute(&v, b, &vid);
                let mut path = ta.path_to(b).unwrap();
                path.reverse();
                assert_eq!(Some(path), tb.path_to(a));
                let (x, y) = (ta.nodes.get(&b).unwrap(), tb.nodes.get(&a).unwrap());
                assert_eq!(x.hops, y.hops);
                assert_eq!(x.path_id, y.path_id);
                assert_eq!(x.first_hop, y.parent);
            }
        }
    }
}

#[test]
fn paths_are_made_of_paths() {
    let v = grid(4);
    let tree = SpbTree::compute(&v, node(6), &ect_vid(1));
    for id in tree.nodes.keys() {
        let path = tree.path_to(id).unwrap();
        assert_eq!(path[0], node(6));
        for (i, on_path) in path.iter().enumerate() {
            assert_eq!(tree.path_to(*on_path).unwrap(), path[..=i].to_vec());
            assert!(tree.subtree(*on_path).contains(&id));
        }
    }
}

#[test]
fn a_cheaper_detour_wins() {
    let v = view(1, &[(1, 4, 100), (1, 2, 10), (2, 3, 10), (3, 4, 10)]);
    let tree = SpbTree::compute(&v, node(1), &ect_vid(1));
    assert_eq!(tree.cost(node(4)), Some(30));
    assert_eq!(tree.path_to(node(4)), Some(vec![node(1), node(2), node(3), node(4)]));
    assert_eq!(tree.nodes.get(&node(4)).unwrap().path_id.len(), 2);
}

#[test]
fn a_path_whose_cost_overflows_is_not_taken() {
    let v = view(1, &[(1, 2, u32::MAX), (2, 3, 1)]);
    let tree = SpbTree::compute(&v, node(1), &ect_vid(1));
    assert_eq!(tree.cost(node(2)), Some(u32::MAX));
    assert!(!tree.contains(node(3)));
}

#[test]
fn an_overloaded_root_still_roots_its_tree() {
    let mut v = view(2, &[(1, 2, 10), (2, 3, 10)]);
    v.nodes.get_mut(&node(2)).unwrap().overload = true;
    let tree = SpbTree::compute(&v, node(2), &ect_vid(1));
    assert!(tree.contains(node(1)) && tree.contains(node(3)));
    assert_eq!(tree.children(node(2)), vec![node(1), node(3)]);
}

#[test]
fn a_root_outside_the_tree_set_has_no_tree() {
    let v = view(1, &[(1, 2, 10)]);
    let tree = SpbTree::compute(&v, node(9), &ect_vid(1));
    assert!(tree.reachable().is_empty());
    assert_eq!(tree.path_to(node(1)), None);
    assert_eq!(tree.first_hop(node(1)), None);
    assert_eq!(tree.cost(node(1)), None);
}

#[test]
fn a_tree_lists_what_it_reaches() {
    let v = view(1, &[(1, 2, 10), (2, 3, 10), (4, 5, 10)]);
    let tree = SpbTree::compute(&v, node(1), &ect_vid(1));
    assert_eq!(tree.reachable().to_vec(), vec![node(1), node(2), node(3)]);
    assert_eq!(tree.subtree(node(2)).to_vec(), vec![node(2), node(3)]);
    // A node off the tree has nothing below it but itself.
    assert_eq!(tree.subtree(node(9)).to_vec(), vec![node(9)]);
}

#[test]
fn a_cycle_of_parents_leads_nowhere() {
    let v = view(1, &[(1, 2, 10), (2, 3, 10)]);
    let mut tree = SpbTree::compute(&v, node(1), &ect_vid(1));
    tree.nodes.get_mut(&node(1)).unwrap().parent = Some(node(3));
    assert_eq!(tree.path_to(node(2)), None);
    assert_eq!(tree.subtree(node(2)).to_vec(), vec![node(1), node(2), node(3)]);
    // A parent that is not on the tree leads nowhere either.
    tree.nodes.get_mut(&node(1)).unwrap().parent = Some(node(9));
    assert_eq!(tree.path_to(node(2)), None);
}

#[test]
fn parallel_links_offer_their_lowest_metric() {
    let mut v = view(1, &[(1, 2, 30), (1, 2, 20), (1, 2, 25)]);
    assert_eq!(v.edge_cost(node(1), node(2)), Some(20));
    assert_eq!(v.neighbors(node(1), &ect_vid(1)), vec![(node(2), 20)]);
    // A link without a metric is no offer.
    v.links.push(LinkView {
        from: node(1),
        to: node(2),
        metric: None,
        port_ids: vec![1],
    });
    assert_eq!(v.edge_cost(node(2), node(1)), Some(20));
}

#[test]
fn services_are_found_by_their_isids() {
    let mut v = rfc_fig2();
    let service = |last: u8, base_vid: u16, isids: &[(u32, bool, bool)]| ServiceView {
        bmac: MacAddr::from([0xaa, 0, 0, 0, 0, last]),
        base_vid,
        isids: isids
            .iter()
            .map(|(isid, transmit, receive)| IsidMembership {
                isid: *isid,
                transmit: *transmit,
                receive: *receive,
            })
            .collect(),
    };
    v.nodes.get_mut(&node(7)).unwrap().services =
        vec![service(7, 4000, &[(100, true, true), (200, false, true)]), service(8, 4001, &[(100, false, false)])];
    v.nodes.get_mut(&node(2)).unwrap().services = vec![service(2, 4001, &[(100, true, false)])];

    assert_eq!(v.transmitters(100), vec![node(2), node(7)]);
    assert_eq!(v.transmitters(200), vec![]);
    assert_eq!(v.transmitters_on(100, 4000), vec![node(7)]);
    assert_eq!(v.transmitters_on(100, 4001), vec![node(2)]);
    let bindings: Vec<_> = v.isid_bindings().to_vec().iter().map(|b| (b.isid, b.base_vid)).collect();
    assert_eq!(bindings, vec![(100, 4000), (100, 4001), (200, 4000)]);
    let isids = v.isids();
    assert_eq!(isids.keys(), vec![100, 200]);
    assert_eq!(isids.get(&100), Some(&vec![node(2), node(7)]));
    assert_eq!(isids.get(&200), Some(&vec![node(7)]));
}

#[test]
fn losers_of_an_spsource_id_come_by_priority() {
    let mut v = view(1, &[(1, 2, 10), (2, 3, 10), (3, 4, 10)]);
    for (last, priority) in [(1u8, 300u16), (2, 100), (3, 200), (4, 100)] {
        let entry = v.nodes.get_mut(&node(last)).unwrap();
        entry.spsource_id = 5;
        entry.bridge_priority = priority;
    }
    let conflicts = v.spsource_id_conflicts();
    assert_eq!(conflicts.keys(), vec![5]);
    assert_eq!(conflicts.get(&5), Some(&vec![node(4), node(3), node(1)]));
}

#[test]
fn a_bridge_id_is_known_for_nodes_of_the_view() {
    let mut v = rfc_fig2();
    v.nodes.get_mut(&node(2)).unwrap().bridge_priority = 0x1234;
    assert_eq!(v.bridge_id(node(2)).unwrap().0, [0x12, 0x34, 0, 0, 0, 0, 0, 2]);
    assert!(v.bridge_id(node(9)).is_none());
}

#[test]
fn a_tree_set_holds_what_is_put_in() {
    let v = rfc_fig2();
    let key = TreeKey {
        mt_id: 2,
        base_vid: 4000,
        algorithm: EctAlgorithm(ECT_ALG_DEFAULT),
        root: node(1),
    };
    let mut set = TreeSet::default();
    assert!(set.is_empty());
    set.insert(key, SpbTree::compute(&v, node(1), &ect_vid(1)));
    assert_eq!(set.len(), 1);
    assert_eq!(set.get(&key).unwrap().root, node(1));
    let entries = set.iter();
    assert_eq!(entries.len(), 1);
    assert_eq!(entries[0].0, key);
}

#[test]
fn repeated_tree_sets_are_computed_once() {
    let v = rfc_fig2();
    let (set, skipped) = TreeSet::compute(&v, 0, &[ect_vid(1), ect_vid(1)], 2);
    assert_eq!(set.len(), 1);
    assert_eq!(skipped, 0);
    // The bound counts trees, and whatever comes after it is reached is
    // reported.
    let (set, skipped) = TreeSet::compute(&v, 0, &[ect_vid(1), ect_vid(1), ect_vid(2)], 1);
    assert_eq!(set.len(), 1);
    assert_eq!(skipped, 2);
}
