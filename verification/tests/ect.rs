//! Tie-breaking: algorithms, BridgeIDs, PATHIDs and ranks.

use holo_spb::ect::{BridgeId, EctAlgorithm, PathId, PathRank, ECT_ALG_DEFAULT, ECT_MASK, ECT_OUI_IEEE8021};

fn bid(priority: u16, last: u8) -> BridgeId {
    BridgeId::new(priority, [0, 0, 0, 0, 0, last])
}

#[test]
fn ect_mask_matches_rfc6329() {
    // RFC 6329, Section 12.
    assert_eq!(
        ECT_MASK,
        [
            0x00, 0x00, 0xFF, 0x88, 0x77, 0x44, 0x33, 0xCC, 0xBB, 0x22,
            0x11, 0x66, 0x55, 0xAA, 0x99, 0xDD, 0xEE
        ]
    );
}

#[test]
fn ect_algorithm_range() {
    assert_eq!(EctAlgorithm::from_index(1), Some(EctAlgorithm(ECT_ALG_DEFAULT)));
    assert_eq!(
        EctAlgorithm::from_index(0x10),
        Some(EctAlgorithm(0x0080_c210))
    );
    // Index 0 and 0x11 are outside the 16 standard algorithms.
    assert_eq!(EctAlgorithm::from_index(0x00), None);
    assert_eq!(EctAlgorithm::from_index(0x11), None);

    assert!(EctAlgorithm(ECT_ALG_DEFAULT).is_standard());
    assert_eq!(EctAlgorithm(ECT_ALG_DEFAULT).to_string(), "00-80-c2-01");
    assert_eq!(EctAlgorithm(ECT_ALG_DEFAULT).oui(), ECT_OUI_IEEE8021);
    assert_eq!(EctAlgorithm(ECT_ALG_DEFAULT).index(), 1);

    // A vendor-opaque algorithm is not standard and falls back to the
    // default mask.
    let opaque = EctAlgorithm(0x00aa_bb01);
    assert!(!opaque.is_standard());
    assert_eq!(opaque.mask(), ECT_MASK[1]);
}

#[test]
fn bridge_id_layout() {
    let id = BridgeId::new(0x8000, [0x00, 0x11, 0x22, 0x33, 0x44, 0x55]);
    assert_eq!(id.0, [0x80, 0x00, 0x00, 0x11, 0x22, 0x33, 0x44, 0x55]);
    assert_eq!(id.priority(), 0x8000);
    assert_eq!(id.system_id(), [0x00, 0x11, 0x22, 0x33, 0x44, 0x55]);
}

#[test]
fn default_algorithm_picks_lowest_bridge_id() {
    // ECT_MASK[1] is all zeros, so masking is the identity and the lowest
    // BridgeID wins. This is the RFC 6329 Section 11 example: computing
    // from node :1, the competing sub-paths via :2 and via :6 tie, and
    // the path through :2 is selected because {0...:2} < {0...:6}.
    let algo = EctAlgorithm(ECT_ALG_DEFAULT);
    let via2 = bid(0, 2).masked(algo);
    let via6 = bid(0, 6).masked(algo);
    assert_eq!(via2, bid(0, 2).0);
    assert!(via2 < via6);
}

#[test]
fn algorithm_two_inverts_the_selection() {
    // ECT_MASK[2] is all ones, so the highest BridgeID wins instead.
    let algo = EctAlgorithm::from_index(2).unwrap();
    assert_eq!(algo.mask(), 0xFF);
    let via2 = bid(0, 2).masked(algo);
    let via6 = bid(0, 6).masked(algo);
    assert!(via6 < via2, "algorithm 2 must prefer the higher BridgeID");
}

#[test]
fn bridge_priority_overrides_system_id() {
    // RFC 6329, Section 11: raising the Bridge Priority of :2 above that
    // of :6 makes the tie-break pick the alternate path.
    let algo = EctAlgorithm(ECT_ALG_DEFAULT);
    let via2 = bid(100, 2).masked(algo);
    let via6 = bid(0, 6).masked(algo);
    assert!(via6 < via2);
}

#[test]
fn path_id_is_order_independent() {
    // A path and its reverse must produce the same PATHID, which is what
    // makes tie-breaking symmetric.
    let algo = EctAlgorithm(ECT_ALG_DEFAULT);
    let fwd = PathId::empty()
        .with_node(bid(0, 2), algo)
        .with_node(bid(0, 3), algo)
        .with_node(bid(0, 4), algo);
    let rev = PathId::empty()
        .with_node(bid(0, 4), algo)
        .with_node(bid(0, 3), algo)
        .with_node(bid(0, 2), algo);
    assert_eq!(fwd, rev);
    assert_eq!(fwd.len(), 3);
}

#[test]
fn path_id_stays_sorted_on_incremental_build() {
    let algo = EctAlgorithm(ECT_ALG_DEFAULT);
    let built = PathId::empty()
        .with_node(bid(0, 9), algo)
        .with_node(bid(0, 1), algo)
        .with_node(bid(0, 5), algo);
    let sorted = PathId::from_masked(vec![
        bid(0, 9).masked(algo),
        bid(0, 1).masked(algo),
        bid(0, 5).masked(algo),
    ]);
    assert_eq!(built, sorted);
    assert!(built.as_slice().windows(2).all(|w| w[0] <= w[1]));
}

#[test]
fn path_id_ordering_is_transitive() {
    let algo = EctAlgorithm(ECT_ALG_DEFAULT);
    let a = PathId::empty().with_node(bid(0, 1), algo);
    let b = PathId::empty().with_node(bid(0, 2), algo);
    let c = PathId::empty().with_node(bid(0, 3), algo);
    assert!(a < b && b < c && a < c);
}

#[test]
fn path_rank_orders_cost_then_hops_then_path_id() {
    let algo = EctAlgorithm(ECT_ALG_DEFAULT);
    let low = PathId::empty().with_node(bid(0, 2), algo);
    let high = PathId::empty().with_node(bid(0, 6), algo);

    // Cost dominates.
    let cheap = PathRank {
        cost: 10,
        hops: 9,
        path_id: &high,
    };
    let dear = PathRank {
        cost: 20,
        hops: 1,
        path_id: &low,
    };
    assert!(cheap < dear);

    // Then hop count: the (sub)path with the fewest hops between the
    // fork and join points wins.
    let short = PathRank {
        cost: 10,
        hops: 2,
        path_id: &high,
    };
    let long = PathRank {
        cost: 10,
        hops: 3,
        path_id: &low,
    };
    assert!(short < long);

    // Then PATHID.
    let a = PathRank {
        cost: 10,
        hops: 2,
        path_id: &low,
    };
    let b = PathRank {
        cost: 10,
        hops: 2,
        path_id: &high,
    };
    assert!(a < b);
}

#[test]
fn identifiers_print_in_their_usual_form() {
    assert_eq!(bid(0x8000, 0x1f).to_string(), "8000.0000.0000.001f");
    let algo = EctAlgorithm(ECT_ALG_DEFAULT);
    let id = PathId::empty().with_node(bid(0, 2), algo).with_node(bid(0, 1), algo);
    assert_eq!(id.to_string(), "0000000000000001:0000000000000002");
    assert_eq!(PathId::empty().to_string(), "");
    assert!(PathId::empty().is_empty());
}

#[test]
fn every_standard_algorithm_has_its_own_mask() {
    for index in 1..=0x10u8 {
        let algo = EctAlgorithm::from_index(index).unwrap();
        assert_eq!(algo.0, 0x0080_c200 + index as u32);
        assert_eq!(algo.mask(), ECT_MASK[index as usize]);
    }
}

#[test]
fn a_shorter_path_id_comes_before_its_extensions() {
    let algo = EctAlgorithm(ECT_ALG_DEFAULT);
    let a = PathId::empty().with_node(bid(0, 1), algo);
    let b = a.with_node(bid(0, 2), algo);
    assert!(PathId::empty() < a && a < b);
    assert!(a.precedes(&b));
    assert!(!b.precedes(&a));
}

#[test]
fn ranks_are_totally_ordered() {
    let algo = EctAlgorithm(ECT_ALG_DEFAULT);
    let low = PathId::empty().with_node(bid(0, 1), algo);
    let high = PathId::empty().with_node(bid(0, 2), algo);
    let mut ranks = Vec::new();
    for cost in [1u32, 2] {
        for hops in [1u16, 2] {
            for path_id in [&low, &high] {
                ranks.push(PathRank { cost, hops, path_id });
            }
        }
    }
    for (i, a) in ranks.iter().enumerate() {
        for (j, b) in ranks.iter().enumerate() {
            assert_eq!(a < b, i < j);
            assert_eq!(a == b, i == j);
            assert_eq!(a.cmp(b), i.cmp(&j));
        }
    }
}

#[test]
fn masking_keeps_bridge_ids_apart() {
    for index in 1..=0x10u8 {
        let algo = EctAlgorithm::from_index(index).unwrap();
        assert_ne!(bid(0, 1).masked(algo), bid(0, 2).masked(algo));
        assert_ne!(bid(1, 1).masked(algo), bid(2, 1).masked(algo));
    }
}
