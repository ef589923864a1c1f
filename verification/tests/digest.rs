//! The agreement digest.

use holo_spb::digest::{
    digest_bytes, evaluate, Agreement, AgreementDigest, HoloLocalDigest, LocalAgreement, NeighborAgreement, UnsafeTrees, DIGEST_LEN,
};
use holo_spb::ect::EctAlgorithm;
use holo_spb::mac::MacAddr;
use holo_spb::node::NodeId;
use holo_spb::topology::{EctVid, LinkView, NodeView, ServiceView, TopologyView};

fn node(last: u8) -> NodeId {
    NodeId::new([0, 0, 0, 0, 0, last])
}

fn ect_vid() -> EctVid {
    EctVid {
        base_vid: 4000,
        algorithm: EctAlgorithm::from_index(1).unwrap(),
        spvid: None,
        multicast: true,
    }
}

fn view(local: u8, edges: &[(u8, u8, u32)]) -> TopologyView {
    let mut view = TopologyView {
        local: node(local),
        ..Default::default()
    };
    for (a, b, metric) in edges {
        for id in [*a, *b] {
            if !view.nodes.contains_key(&node(id)) {
                view.nodes.insert(
                    node(id),
                    NodeView {
                        ect_vids: vec![ect_vid()],
                        ..Default::default()
                    },
                );
            }
        }
        for (from, to) in [(a, b), (b, a)] {
            view.links.push(LinkView {
                from: node(*from),
                to: node(*to),
                metric: Some(*metric),
                port_ids: vec![],
            });
        }
    }
    view
}

#[test]
fn the_digest_is_the_expected_width() {
    let d = HoloLocalDigest.compute(&view(1, &[(1, 2, 10)]), 0);
    assert_eq!(d.len(), DIGEST_LEN);
    assert_eq!(HoloLocalDigest.id(), "holo-spb-digest-v1");
}

#[test]
fn two_nodes_seeing_the_same_topology_agree() {
    // The whole mechanism rests on this: the digest must not depend on
    // which node computed it, only on what it sees.
    let edges = [(1u8, 2u8, 10u32), (2, 3, 10), (1, 3, 20)];
    let from_1 = HoloLocalDigest.compute(&view(1, &edges), 0);
    let from_3 = HoloLocalDigest.compute(&view(3, &edges), 0);
    assert_eq!(from_1, from_3);
}

#[test]
fn link_order_does_not_change_the_digest() {
    let a = HoloLocalDigest.compute(&view(1, &[(1, 2, 10), (2, 3, 10)]), 0);
    let b = HoloLocalDigest.compute(&view(1, &[(2, 3, 10), (1, 2, 10)]), 0);
    assert_eq!(a, b);
}

#[test]
fn the_digest_changes_when_the_topology_does() {
    let base = HoloLocalDigest.compute(&view(1, &[(1, 2, 10)]), 0);

    // A different cost.
    assert_ne!(base, HoloLocalDigest.compute(&view(1, &[(1, 2, 20)]), 0));
    // An extra link.
    assert_ne!(
        base,
        HoloLocalDigest.compute(&view(1, &[(1, 2, 10), (2, 3, 10)]), 0)
    );
    // A different MT instance.
    assert_ne!(base, HoloLocalDigest.compute(&view(1, &[(1, 2, 10)]), 2));

    // A bridge priority change alters tie-breaking, so it must count.
    let mut v = view(1, &[(1, 2, 10)]);
    v.nodes.get_mut(&node(2)).unwrap().bridge_priority = 100;
    assert_ne!(base, HoloLocalDigest.compute(&v, 0));

    // So must the overload bit, which changes which nodes are transited.
    let mut v = view(1, &[(1, 2, 10)]);
    v.nodes.get_mut(&node(2)).unwrap().overload = true;
    assert_ne!(base, HoloLocalDigest.compute(&v, 0));
}

#[test]
fn a_link_only_one_end_advertises_is_not_in_the_digest() {
    // An unusable link must not contribute, or two nodes would disagree
    // purely over a half-formed adjacency.
    let mut v = view(1, &[(1, 2, 10)]);
    let base = HoloLocalDigest.compute(&v, 0);
    v.links.push(LinkView {
        from: node(1),
        to: node(2),
        metric: None,
        port_ids: vec![],
    });
    assert_eq!(base, HoloLocalDigest.compute(&v, 0));
}

#[test]
fn the_agreement_number_advances_only_on_a_real_change() {
    let mut local = LocalAgreement::default();

    // The first digest makes us valid but does not count as a change to
    // agree about.
    assert!(local.update(vec![1, 2, 3]));
    assert!(local.valid);
    assert_eq!(local.agreement, 0);

    // Recomputing the same view changes nothing.
    assert!(!local.update(vec![1, 2, 3]));
    assert_eq!(local.agreement, 0);

    // A real change advances the number and retires the old one.
    assert!(local.update(vec![4, 5, 6]));
    assert_eq!(local.agreement, 1);
    assert_eq!(local.discarded, 0);
}

#[test]
fn agreement_requires_a_match_and_an_acknowledgement() {
    let mut local = LocalAgreement::default();
    local.update(vec![0xaa; DIGEST_LEN]);

    assert_eq!(evaluate(&local, None), Agreement::NoDigest);

    let mut neighbor = NeighborAgreement {
        digest: vec![0xbb; DIGEST_LEN],
        agreement: 0,
        discarded: 0,
        valid: false,
    };
    assert_eq!(evaluate(&local, Some(&neighbor)), Agreement::NotValid);

    neighbor.valid = true;
    assert_eq!(
        evaluate(&local, Some(&neighbor)),
        Agreement::DigestMismatch
    );

    neighbor.digest = local.digest.clone();
    assert_eq!(evaluate(&local, Some(&neighbor)), Agreement::Agreed);
    assert!(evaluate(&local, Some(&neighbor)).is_agreed());
}

#[test]
fn a_neighbour_echoing_a_stale_view_is_a_mismatch() {
    // We move on to a new view while the neighbour still advertises the
    // old one. Its digest is a function of the topology it sees, so a
    // stale view cannot match ours: no extra sequencing is needed to
    // detect it.
    let mut local = LocalAgreement::default();
    local.update(vec![0xaa; DIGEST_LEN]);
    let stale = NeighborAgreement {
        digest: local.digest.clone(),
        agreement: 0,
        discarded: 0,
        valid: true,
    };
    assert_eq!(evaluate(&local, Some(&stale)), Agreement::Agreed);

    local.update(vec![0xcc; DIGEST_LEN]);
    assert_eq!(evaluate(&local, Some(&stale)), Agreement::DigestMismatch);
}

#[test]
fn differing_agreement_numbers_do_not_block_agreement() {
    // Regression: the numbers count each node's own digest changes, so
    // two nodes that have re-converged a different number of times hold
    // different numbers while agreeing perfectly. Gating on them left a
    // live four-node region permanently un-agreed despite every node
    // computing an identical digest.
    let mut local = LocalAgreement::default();
    for d in 1..=4u8 {
        local.update(vec![d; DIGEST_LEN]);
    }
    assert_eq!(local.agreement, 3);

    let neighbor = NeighborAgreement {
        digest: local.digest.clone(),
        agreement: 2,
        discarded: 1,
        valid: true,
    };
    assert_eq!(evaluate(&local, Some(&neighbor)), Agreement::Agreed);
}

#[test]
fn unsafe_trees_gate_only_what_was_marked() {
    let mut unsafe_trees = UnsafeTrees::default();
    assert!(unsafe_trees.is_empty());
    assert!(unsafe_trees.is_safe(4000, node(1)));

    unsafe_trees.mark(4000, node(1));
    assert!(!unsafe_trees.is_safe(4000, node(1)));
    // A different tree is unaffected.
    assert!(unsafe_trees.is_safe(4001, node(1)));
    assert!(unsafe_trees.is_safe(4000, node(2)));
    assert_eq!(unsafe_trees.len(), 1);

    unsafe_trees.clear();
    assert!(unsafe_trees.is_safe(4000, node(1)));
}

#[test]
fn the_digest_input_is_the_canonical_serialization() {
    let bytes = digest_bytes(&view(1, &[(1, 2, 10)]), 0);
    let mut expected = b"holo-spb-digest-v1".to_vec();
    // MT-ID and node count.
    expected.extend_from_slice(&[0, 0, 0, 0, 0, 2]);
    for last in [1u8, 2] {
        expected.extend_from_slice(&[0, 0, 0, 0, 0, last]);
        // Priority, SPSourceID and overload.
        expected.extend_from_slice(&[0, 0, 0, 0, 0, 0, 0]);
        // One pair: algorithm 00-80-c2-01 on Base VID 4000.
        expected.extend_from_slice(&[0, 1, 0x00, 0x80, 0xc2, 0x01, 0x0f, 0xa0]);
    }
    // One link, once, with its cost.
    expected.extend_from_slice(&[0, 0, 0, 1]);
    expected.extend_from_slice(&[0, 0, 0, 0, 0, 1, 0, 0, 0, 0, 0, 2, 0, 0, 0, 10]);
    assert_eq!(bytes, expected);
}

#[test]
fn the_digest_is_an_hmac_sha256_of_the_serialization() {
    let digest = HoloLocalDigest.compute(&view(1, &[(1, 2, 10)]), 0);
    assert_eq!(
        digest,
        vec![
            0xb8, 0x13, 0x83, 0xe3, 0x07, 0x11, 0x35, 0x7a, 0xd1, 0xa6, 0xad, 0x1d, 0xd7, 0xc3, 0x1c, 0x6d, 0x8a, 0x49, 0x58, 0xfc, 0x7a, 0x9d, 0x6d, 0x64, 0x4f, 0x81, 0x67, 0x7c, 0xc2, 0xb8, 0x03, 0x5d
        ]
    );
    let empty = HoloLocalDigest.compute(&TopologyView::default(), 0);
    assert_eq!(
        empty,
        vec![
            0xd8, 0x0d, 0x5f, 0x27, 0xde, 0x7e, 0xfc, 0xf9, 0xb4, 0x07, 0x7f, 0xd2, 0x7b, 0xf5, 0x74, 0x94, 0x56, 0x97, 0x8f, 0x70, 0x5e, 0xa6, 0xde, 0xa8, 0x9b, 0xb7, 0x7c, 0x71, 0xd1, 0x15, 0xf0, 0xcf
        ]
    );
}

#[test]
fn services_do_not_change_the_digest() {
    let base = view(1, &[(1, 2, 10)]);
    let mut other = base.clone();
    other.nodes.get_mut(&node(2)).unwrap().services.push(ServiceView {
        bmac: MacAddr::from([0, 0, 0, 0, 0, 2]),
        base_vid: 4000,
        isids: vec![],
    });
    assert_eq!(HoloLocalDigest.compute(&base, 0), HoloLocalDigest.compute(&other, 0));
}

#[test]
fn distinct_topologies_have_distinct_serializations() {
    let base = view(1, &[(1, 2, 10)]);
    let mut other = base.clone();
    other.nodes.get_mut(&node(1)).unwrap().spsource_id = 7;
    assert_ne!(digest_bytes(&base, 0), digest_bytes(&other, 0));
    let mut pairs = base.clone();
    pairs.nodes.get_mut(&node(1)).unwrap().ect_vids.clear();
    assert_ne!(digest_bytes(&base, 0), digest_bytes(&pairs, 0));
    // A repeated pair adds nothing.
    let mut repeated = base.clone();
    repeated.nodes.get_mut(&node(1)).unwrap().ect_vids.push(ect_vid());
    assert_eq!(digest_bytes(&base, 0), digest_bytes(&repeated, 0));
}

#[test]
fn a_half_advertised_link_leaves_the_serialization_alone() {
    let mut v = view(1, &[(1, 2, 10)]);
    let base = digest_bytes(&v, 0);
    v.links.push(LinkView {
        from: node(2),
        to: node(3),
        metric: Some(5),
        port_ids: vec![],
    });
    assert_eq!(base, digest_bytes(&v, 0));
}

#[test]
fn the_agreement_number_wraps_around() {
    let mut local = LocalAgreement::default();
    for d in 0..5u8 {
        assert!(local.update(vec![d]));
    }
    assert_eq!(local.agreement, 0);
    assert_eq!(local.discarded, 3);
}

#[test]
fn an_invalid_local_digest_never_agrees() {
    let local = LocalAgreement::default();
    let neighbor = NeighborAgreement {
        digest: vec![],
        agreement: 0,
        discarded: 0,
        valid: true,
    };
    assert_eq!(evaluate(&local, Some(&neighbor)), Agreement::NotValid);
    assert!(!Agreement::Outstanding.is_agreed());
}

#[test]
fn marking_twice_is_marking_once() {
    let mut unsafe_trees = UnsafeTrees::default();
    unsafe_trees.mark(4000, node(1));
    assert_eq!(unsafe_trees.len(), 1);
    unsafe_trees.mark(4000, node(1));
    assert_eq!(unsafe_trees.len(), 1);
    unsafe_trees.mark(4000, node(2));
    assert_eq!(unsafe_trees.len(), 2);
    assert!(!unsafe_trees.is_safe(4000, node(1)) && !unsafe_trees.is_safe(4000, node(2)));
    assert!(unsafe_trees.is_safe(4001, node(1)));
}

#[test]
fn marks_are_merged() {
    let mut a = UnsafeTrees::default();
    let mut b = UnsafeTrees::default();
    a.mark(4000, node(1));
    b.mark(4000, node(1));
    b.mark(4001, node(2));
    a.merge(&b);
    assert_eq!(a.len(), 2);
    assert!(!a.is_safe(4000, node(1)) && !a.is_safe(4001, node(2)));
    assert_eq!(b.len(), 2);
}
