//! From configuration and LSDB to forwarding state.

use holo_spb::digest::{Agreement, NeighborAgreement};
use holo_spb::ect::{EctAlgorithm, ECT_ALG_DEFAULT};
use holo_spb::fdb::Fdb;
use holo_spb::isis::{
    build_topology_view, disagreements, local_ect_vids, local_node_view, mark_unsafe_trees, nni_ports, node_id, node_identity, recompute,
    reevaluate_agreement, refresh_hellos, resolve_nexthops, resync_update, uni_ports, verdict_name, withhold_unsafe, IsReach, IsReachTlv,
    IsidConfig, Lsp, MtCap, SpbAdjacency, SpbConfig, SpbInterface, SpbInterfaceRole, SpbServiceConfig, SpbServiceKey, SpbState,
    SpbTreeConfig,
};
use holo_spb::mac::MacAddr;
use holo_spb::node::NodeId;
use holo_spb::ordmap::{OrdMap, OrdSet};
use holo_spb::stlv::{
    IsidEntry, IsidFlags, SpbInstStlv, SpbMetricStlv, SpbmSiStlv, VlanIdTuple, VlanIdTupleFlags,
};
use holo_spb::tree::TreeSet;

const BVID: u16 = 4000;
const ISID: u32 = 100;

fn sys(last: u8) -> [u8; 6] {
    [0, 0, 0, 0, 0, last]
}

fn node(last: u8) -> NodeId {
    NodeId::new(sys(last))
}

fn config() -> SpbConfig {
    let mut trees = OrdMap::new();
    trees.insert(
        BVID,
        SpbTreeConfig {
            algorithm: 1,
            spvid: None,
            multicast: true,
        },
    );
    let mut isids = OrdMap::new();
    isids.insert(
        ISID,
        IsidConfig {
            transmit: true,
            receive: true,
        },
    );
    let mut services = OrdMap::new();
    services.insert(
        SpbServiceKey {
            bmac: MacAddr::from([0xaa, 0, 0, 0, 0, 1]),
            base_vid: BVID,
        },
        SpbServiceConfig { isids },
    );
    SpbConfig {
        system_id: sys(1),
        enabled: true,
        dataplane_enabled: true,
        bridge_priority: 0x8000,
        spsource_id: Some(0x11),
        spsource_id_auto: false,
        trees,
        services,
    }
}

fn mt_cap(last: u8) -> MtCap {
    let flags = VlanIdTupleFlags {
        u: true,
        m: true,
        a: false,
    };
    MtCap {
        mt_id: 0,
        overload: false,
        spb_inst: Some(SpbInstStlv::new(
            0,
            0,
            0x8000,
            false,
            0x10 + last as u32,
            vec![VlanIdTuple::new(flags, ECT_ALG_DEFAULT, BVID, 7)],
        )),
        spbm_si: vec![SpbmSiStlv::new(
            [0xaa, 0, 0, 0, 0, last],
            BVID,
            vec![IsidEntry::new(IsidFlags { t: true, r: true }, ISID)],
        )],
    }
}

fn lsp(last: u8, neighbors: &[u8]) -> Lsp {
    Lsp {
        system_id: sys(last),
        is_pseudonode: false,
        fragment: 0,
        mt_cap: vec![mt_cap(last)],
        ext_is_reach: vec![IsReachTlv {
            list: neighbors
                .iter()
                .map(|n| IsReach {
                    neighbor: sys(*n),
                    spb_metric: Some(SpbMetricStlv::new(10, vec![1, 2])),
                })
                .collect(),
        }],
    }
}

fn lsps() -> Vec<Lsp> {
    vec![lsp(1, &[2]), lsp(2, &[1, 3]), lsp(3, &[2])]
}

fn iface(name: &str, role: SpbInterfaceRole, neighbor: Option<u8>) -> SpbInterface {
    SpbInterface {
        name: name.to_owned(),
        enabled: true,
        role,
        passive: false,
        running: true,
        uni_isids: OrdSet::new(),
        adjacencies: neighbor
            .iter()
            .map(|n| SpbAdjacency {
                system_id: sys(*n),
                up: true,
                spb_capable: true,
                agreement: None,
            })
            .collect(),
    }
}

#[test]
fn the_view_describes_the_region() {
    let view = build_topology_view(&config(), &lsps());
    assert_eq!(view.local, node(1));
    assert_eq!(view.nodes.keys(), vec![node(1), node(2), node(3)]);
    assert_eq!(view.instances.keys(), vec![0]);
    assert_eq!(view.instances.get(&0).unwrap().ect_vids.len(), 1);

    let remote = view.nodes.get(&node(3)).unwrap();
    assert_eq!(remote.bridge_priority, 0x8000);
    assert_eq!(remote.spsource_id, 0x13);
    assert_eq!(remote.ect_vids[0].algorithm, EctAlgorithm(ECT_ALG_DEFAULT));
    // The A bit is clear, so the SPVID does not count.
    assert_eq!(remote.ect_vids[0].spvid, None);
    assert!(remote.ect_vids[0].multicast);
    assert_eq!(remote.services[0].bmac, MacAddr::from([0xaa, 0, 0, 0, 0, 3]));
    assert!(remote.services[0].isids[0].transmit && remote.services[0].isids[0].receive);

    let links: Vec<_> = view.links.iter().map(|l| (l.from, l.to, l.metric)).collect();
    assert_eq!(
        links,
        vec![
            (node(1), node(2), Some(10)),
            (node(2), node(1), Some(10)),
            (node(2), node(3), Some(10)),
            (node(3), node(2), Some(10)),
        ]
    );
    assert_eq!(view.links[0].port_ids, vec![1, 2]);
}

#[test]
fn the_local_node_is_described_from_configuration() {
    let mut all = lsps();
    all[0].mt_cap[0].overload = true;
    let view = build_topology_view(&config(), &all);
    let local = view.nodes.get(&node(1)).unwrap();
    assert!(!local.overload);
    assert_eq!(local.spsource_id, 0x11);
    // Before its own LSP is there, the local node is known all the same.
    let view = build_topology_view(&config(), &vec![]);
    assert_eq!(view.nodes.keys(), vec![node(1)]);
    assert!(view.links.is_empty());
}

#[test]
fn only_participants_are_nodes() {
    let mut all = lsps();
    // No SPB-Inst.
    all[1].mt_cap[0].spb_inst = None;
    // Another topology.
    all[2].mt_cap[0].mt_id = 2;
    let view = build_topology_view(&config(), &all);
    assert_eq!(view.nodes.keys(), vec![node(1)]);
    // Links of other nodes do not count, the local one's do.
    assert_eq!(view.links.len(), 1);

    let mut all = lsps();
    all[1].fragment = 1;
    all[2].is_pseudonode = true;
    let view = build_topology_view(&config(), &all);
    assert_eq!(view.nodes.keys(), vec![node(1)]);
}

#[test]
fn further_fragments_contribute_links() {
    let mut all = lsps();
    let mut more = lsp(2, &[9]);
    more.fragment = 1;
    all.push(more);
    let view = build_topology_view(&config(), &all);
    let last = view.links.last().unwrap();
    assert_eq!((last.from, last.to), (node(2), node(9)));
    // An adjacency without an SPB-Metric does not.
    let mut all = lsps();
    all[2].ext_is_reach[0].list[0].spb_metric = None;
    assert_eq!(build_topology_view(&config(), &all).links.len(), 3);
}

#[test]
fn the_last_capability_counts() {
    let mut all = lsps();
    let mut second = mt_cap(2);
    second.overload = true;
    all[1].mt_cap.push(second);
    let view = build_topology_view(&config(), &all);
    assert!(view.nodes.get(&node(2)).unwrap().overload);
}

#[test]
fn an_unknown_algorithm_falls_back_to_the_default() {
    let mut cfg = config();
    cfg.trees.insert(
        4001,
        SpbTreeConfig {
            algorithm: 99,
            spvid: Some(7),
            multicast: false,
        },
    );
    let vids = local_ect_vids(&cfg);
    assert_eq!(vids.len(), 2);
    assert_eq!((vids[0].base_vid, vids[1].base_vid), (BVID, 4001));
    assert_eq!(vids[1].algorithm, EctAlgorithm(ECT_ALG_DEFAULT));
    assert_eq!(vids[1].spvid, Some(7));
}

#[test]
fn the_first_update_is_a_snapshot() {
    let mut state = SpbState::default();
    let interfaces = vec![iface("eth0", SpbInterfaceRole::Backbone, None)];
    let update = recompute(&mut state, &config(), &interfaces, &lsps()).unwrap();
    assert!(update.delta.snapshot);
    assert_eq!(update.delta.generation, 1);
    assert_eq!(update.node.spsource_id, 0x11);
    assert_eq!(update.node.b_mac, MacAddr::from([0xaa, 0, 0, 0, 0, 1]));
    assert_eq!(update.nni_ports, vec!["eth0".to_owned()]);
    assert_eq!(state.generation, 1);
    assert_eq!(state.trees.len(), 3);
    assert_eq!(state.trees_skipped, 0);
    assert!(state.hello_refresh_pending);
    assert!(state.agreement.valid);

    // Applied to whatever the dataplane had, it gives the new state.
    let mut table = Fdb::default();
    update.delta.apply(&mut table);
    assert_eq!(table, state.fdb);

    // Nothing changes, so nothing is sent.
    assert!(recompute(&mut state, &config(), &interfaces, &lsps()).is_none());
    assert_eq!(state.generation, 1);
    assert!(state.unsafe_trees.is_empty());

    // A node disappears, and a delta follows.
    let update = recompute(&mut state, &config(), &interfaces, &vec![lsp(1, &[2]), lsp(2, &[1])]).unwrap();
    assert!(!update.delta.snapshot);
    assert_eq!(update.delta.generation, 2);
    update.delta.apply(&mut table);
    assert_eq!(table, state.fdb);
    assert_eq!(state.agreement.agreement, 1);
}

#[test]
fn a_disabled_dataplane_is_told_nothing() {
    let mut cfg = config();
    cfg.dataplane_enabled = false;
    let mut state = SpbState::default();
    assert!(recompute(&mut state, &cfg, &vec![], &lsps()).is_none());
    assert_eq!(state.generation, 1);
    assert!(!state.fdb.unicast.is_empty());
}

#[test]
fn disabling_drops_the_state() {
    let mut state = SpbState::default();
    recompute(&mut state, &config(), &vec![], &lsps());
    let mut cfg = config();
    cfg.enabled = false;
    assert!(recompute(&mut state, &cfg, &vec![], &lsps()).is_none());
    assert!(state.view.is_none());
    assert_eq!(state.generation, 0);
    assert!(state.fdb.unicast.is_empty() && state.trees.is_empty());
    assert!(!reevaluate_agreement(&mut state, &cfg, &vec![]));
}

#[test]
fn multicast_is_withheld_until_neighbours_agree() {
    let mut state = SpbState::default();
    let mut interfaces = vec![iface("eth0", SpbInterfaceRole::Backbone, Some(2))];

    // The neighbour has sent no digest: unicast is programmed, multicast of
    // unsettled trees is not.
    recompute(&mut state, &config(), &interfaces, &lsps());
    assert!(!state.agreed_adjacencies);
    assert!(!state.fdb.unicast.is_empty());
    assert!(state.fdb.multicast.is_empty());
    assert_eq!(state.unsafe_trees.len(), 3);

    // Its digest arrives.
    interfaces[0].adjacencies[0].agreement = Some(NeighborAgreement {
        digest: state.agreement.digest.clone(),
        agreement: 3,
        discarded: 2,
        valid: true,
    });
    assert!(reevaluate_agreement(&mut state, &config(), &interfaces));
    assert!(!reevaluate_agreement(&mut state, &config(), &interfaces));
    assert!(state.agreed_adjacencies);
    let update = recompute(&mut state, &config(), &interfaces, &lsps()).unwrap();
    assert!(!state.fdb.multicast.is_empty());
    assert!(update.delta.unicast_added.is_empty());
    assert_eq!(update.nexthops.get(&node(2)), Some(&"eth0".to_owned()));

    // A stale digest disagrees, but settled trees stay as they are.
    interfaces[0].adjacencies[0].agreement.as_mut().unwrap().digest = vec![1];
    assert!(recompute(&mut state, &config(), &interfaces, &lsps()).is_none());
    assert!(!state.agreed_adjacencies);
    assert!(!state.fdb.multicast.is_empty());
}

#[test]
fn only_spb_neighbours_have_a_say() {
    let mut state = SpbState::default();
    let mut down = iface("eth0", SpbInterfaceRole::Backbone, Some(2));
    down.adjacencies[0].up = false;
    let mut incapable = iface("eth1", SpbInterfaceRole::Backbone, Some(3));
    incapable.adjacencies[0].spb_capable = false;
    let mut disabled = iface("eth2", SpbInterfaceRole::Backbone, Some(4));
    disabled.enabled = false;
    let interfaces = vec![down, incapable, disabled];
    assert!(reevaluate_agreement(&mut state, &config(), &interfaces));
    assert!(state.agreed_adjacencies);
}

#[test]
fn unsafe_trees_are_those_whose_distance_changed() {
    let view = build_topology_view(&config(), &lsps());
    let (trees, _) = TreeSet::compute(&view, 0, &local_ect_vids(&config()), 10);
    let marked = mark_unsafe_trees(&trees, &TreeSet::default(), node(1));
    assert_eq!(marked.len(), 3);
    assert!(mark_unsafe_trees(&trees, &trees, node(1)).is_empty());

    let fdb = Fdb::build(&view, &trees, 0, &local_ect_vids(&config()));
    let kept = withhold_unsafe(&marked, false, fdb.clone());
    assert!(kept.multicast.is_empty());
    assert_eq!(kept.unicast, fdb.unicast);
    assert_eq!(withhold_unsafe(&marked, true, fdb.clone()), fdb);

    // Only the tree that was marked is held back.
    let mut one = holo_spb::digest::UnsafeTrees::default();
    one.mark(BVID, node(3));
    let kept = withhold_unsafe(&one, false, fdb.clone());
    assert_eq!(kept.multicast.len() + 1, fdb.multicast.len());
    assert!(kept.multicast.keys().iter().all(|k| kept.multicast.get(k).unwrap().source != node(3)));
}

#[test]
fn hellos_are_refreshed_once_per_digest() {
    let mut state = SpbState::default();
    let mut passive = iface("eth1", SpbInterfaceRole::Customer, None);
    passive.passive = true;
    let mut stopped = iface("eth2", SpbInterfaceRole::Backbone, None);
    stopped.running = false;
    let interfaces = vec![
        iface("eth0", SpbInterfaceRole::Backbone, None),
        passive,
        stopped,
        iface("eth3", SpbInterfaceRole::Backbone, None),
    ];
    assert!(refresh_hellos(&mut state, &interfaces).is_empty());
    state.hello_refresh_pending = true;
    assert_eq!(refresh_hellos(&mut state, &interfaces), vec![0, 3]);
    assert!(refresh_hellos(&mut state, &interfaces).is_empty());
}

#[test]
fn nodes_resolve_to_interfaces() {
    let mut disabled = iface("eth9", SpbInterfaceRole::Backbone, Some(2));
    disabled.enabled = false;
    let interfaces = vec![
        iface("eth0", SpbInterfaceRole::Backbone, Some(2)),
        iface("eth1", SpbInterfaceRole::Backbone, Some(2)),
        iface("eth2", SpbInterfaceRole::Backbone, Some(3)),
        disabled,
    ];
    let map = resolve_nexthops(&interfaces);
    assert_eq!(map.keys(), vec![node(2), node(3)]);
    assert_eq!(map.get(&node(2)), Some(&"eth1".to_owned()));
    assert_eq!(nni_ports(&interfaces), vec!["eth0", "eth1", "eth2"]);
}

#[test]
fn services_resolve_to_ports() {
    let mut a = iface("cust0", SpbInterfaceRole::Customer, None);
    a.uni_isids.insert(100);
    a.uni_isids.insert(200);
    let mut b = iface("cust1", SpbInterfaceRole::Customer, None);
    b.uni_isids.insert(100);
    let mut c = iface("eth0", SpbInterfaceRole::Backbone, None);
    c.uni_isids.insert(300);
    let map = uni_ports(&vec![a, b, c]);
    assert_eq!(map.keys(), vec![100, 200]);
    assert_eq!(map.get(&100), Some(&vec!["cust0".to_owned(), "cust1".to_owned()]));
    assert_eq!(map.get(&200), Some(&vec!["cust0".to_owned()]));
}

#[test]
fn a_transit_node_has_no_address() {
    let mut cfg = config();
    cfg.services = OrdMap::new();
    cfg.spsource_id = None;
    let identity = node_identity(&cfg);
    assert_eq!(identity.b_mac, MacAddr::from([0; 6]));
    assert_eq!(identity.spsource_id, 0);
    assert_eq!(node_id([1, 2, 3, 4, 5, 6]), NodeId::new([1, 2, 3, 4, 5, 6]));
}

#[test]
fn verdicts_have_names() {
    assert_eq!(verdict_name(Agreement::Agreed), "agreed");
    assert_eq!(verdict_name(Agreement::NoDigest), "no digest received");
    assert_eq!(verdict_name(Agreement::NotValid), "digest not valid");
    assert_eq!(verdict_name(Agreement::DigestMismatch), "digests differ");
    assert_eq!(verdict_name(Agreement::Outstanding), "agreement number outstanding");
}

#[test]
fn a_snapshot_is_sent_without_a_computation() {
    let mut state = SpbState::default();
    assert!(resync_update(&state, &config(), &vec![]).is_none());
    let interfaces = vec![iface("eth0", SpbInterfaceRole::Backbone, Some(2))];
    recompute(&mut state, &config(), &interfaces, &lsps());
    assert_eq!(state.withheld, 3);
    let update = resync_update(&state, &config(), &interfaces).unwrap();
    assert!(update.delta.snapshot);
    assert_eq!(update.delta.generation, 1);
    assert_eq!(update.nexthops.get(&node(2)), Some(&"eth0".to_owned()));
    // What is withheld stays so.
    assert_eq!(state.unsafe_trees.len(), 3);
    let mut table = Fdb::default();
    update.delta.apply(&mut table);
    assert_eq!(table, state.fdb);
    assert!(table.multicast.is_empty());

    let mut cfg = config();
    cfg.dataplane_enabled = false;
    assert!(resync_update(&state, &cfg, &interfaces).is_none());
    let mut cfg = config();
    cfg.enabled = false;
    assert!(resync_update(&state, &cfg, &interfaces).is_none());
}

#[test]
fn the_hold_lasts_until_agreement() {
    let mut state = SpbState::default();
    let mut interfaces = vec![iface("eth0", SpbInterfaceRole::Backbone, Some(2))];
    recompute(&mut state, &config(), &interfaces, &lsps());
    assert!(state.fdb.multicast.is_empty());
    assert_eq!((state.withheld, state.unsafe_trees.len()), (3, 3));
    // No distance has changed since, but the neighbour still disagrees: what
    // was held back is held back still, however often it is computed.
    for _ in 0..3 {
        assert!(recompute(&mut state, &config(), &interfaces, &lsps()).is_none());
        assert!(!state.agreed_adjacencies);
        assert!(state.fdb.multicast.is_empty());
        assert_eq!((state.withheld, state.unsafe_trees.len()), (3, 3));
    }
    // Another topology in between does not end it either.
    recompute(&mut state, &config(), &interfaces, &vec![lsp(1, &[2]), lsp(2, &[1])]);
    assert!(!state.unsafe_trees.is_safe(BVID, node(3)));
    recompute(&mut state, &config(), &interfaces, &lsps());
    assert!(state.fdb.multicast.is_empty());

    // Agreement does.
    interfaces[0].adjacencies[0].agreement = Some(NeighborAgreement {
        digest: state.agreement.digest.clone(),
        agreement: 0,
        discarded: 0,
        valid: true,
    });
    recompute(&mut state, &config(), &interfaces, &lsps());
    assert!(state.agreed_adjacencies);
    assert_eq!(state.fdb.multicast.len(), 3);
    assert_eq!((state.withheld, state.unsafe_trees.len()), (0, 0));
}

#[test]
fn the_first_service_gives_the_node_its_address() {
    let mut cfg = config();
    for (last, base_vid) in [(9u8, 4000u16), (0, 4001), (0, 4000)] {
        let key = SpbServiceKey {
            bmac: MacAddr::from([0xaa, 0, 0, 0, 0, last]),
            base_vid,
        };
        cfg.services.insert(key, SpbServiceConfig { isids: OrdMap::new() });
    }
    assert_eq!(node_identity(&cfg).b_mac, MacAddr::from([0xaa, 0, 0, 0, 0, 0]));
    let node = local_node_view(&cfg);
    let offered: Vec<_> = node.services.iter().map(|s| (s.bmac.as_bytes()[5], s.base_vid)).collect();
    assert_eq!(offered, vec![(0, 4000), (0, 4001), (1, 4000), (9, 4000)]);
}

#[test]
fn disagreements_are_listed_with_their_reasons() {
    let mut state = SpbState::default();
    let mut interfaces = vec![
        iface("eth0", SpbInterfaceRole::Backbone, Some(2)),
        iface("eth1", SpbInterfaceRole::Backbone, Some(3)),
        iface("eth2", SpbInterfaceRole::Backbone, Some(4)),
        iface("eth3", SpbInterfaceRole::Backbone, Some(5)),
    ];
    recompute(&mut state, &config(), &interfaces, &lsps());
    let shown = |digest: Vec<u8>, valid: bool| {
        Some(NeighborAgreement {
            digest,
            agreement: 0,
            discarded: 0,
            valid,
        })
    };
    interfaces[1].adjacencies[0].agreement = shown(state.agreement.digest.clone(), true);
    interfaces[2].adjacencies[0].agreement = shown(vec![1], true);
    interfaces[3].adjacencies[0].agreement = shown(state.agreement.digest.clone(), false);
    let found: Vec<_> = disagreements(&state.agreement, &interfaces)
        .iter()
        .map(|d| (d.system_id, d.verdict))
        .collect();
    assert_eq!(
        found,
        vec![
            (sys(2), Agreement::NoDigest),
            (sys(4), Agreement::DigestMismatch),
            (sys(5), Agreement::NotValid),
        ]
    );
}

#[test]
fn a_neighbour_that_confirmed_an_earlier_topology_does_not_agree() {
    let mut state = SpbState::default();
    let mut interfaces = vec![iface("eth0", SpbInterfaceRole::Backbone, Some(2))];
    recompute(&mut state, &config(), &interfaces, &lsps());
    interfaces[0].adjacencies[0].agreement = Some(NeighborAgreement {
        digest: state.agreement.digest.clone(),
        agreement: 0,
        discarded: 0,
        valid: true,
    });
    recompute(&mut state, &config(), &interfaces, &lsps());
    assert!(state.agreed_adjacencies);
    let sources = |state: &SpbState| -> Vec<NodeId> {
        let keys = state.fdb.multicast.keys();
        keys.iter().map(|key| state.fdb.multicast.get(key).unwrap().source).collect()
    };
    assert_eq!(sources(&state), vec![node(1), node(2), node(3)]);

    // The link to the far node gets dearer. The neighbour still shows the
    // digest of the topology before, so what changed is held back: the tree of
    // the far node alone.
    let mut changed = lsps();
    changed[2].ext_is_reach[0].list[0].spb_metric = Some(SpbMetricStlv::new(50, vec![]));
    recompute(&mut state, &config(), &interfaces, &changed);
    assert!(!state.agreed_adjacencies);
    assert_eq!(sources(&state), vec![node(1), node(2)]);
    assert_eq!(state.fdb.unicast.len(), 3);

    // Once it shows the new one, everything is programmed.
    interfaces[0].adjacencies[0].agreement.as_mut().unwrap().digest = state.agreement.digest.clone();
    assert!(reevaluate_agreement(&mut state, &config(), &interfaces));
    recompute(&mut state, &config(), &interfaces, &changed);
    assert_eq!(sources(&state), vec![node(1), node(2), node(3)]);
}
