//! Multicast addresses.

use holo_spb::mac::MacAddr;
use holo_spb::mcast::{group_bmac, is_group_bmac, parse_group_bmac, MCAST_BDA_PREFIX};

#[test]
fn group_bmac_layout() {
    // SPSourceID 0x12345, I-SID 0xabcdef.
    //   byte0 = 0x03 | (0x1 << 4) = 0x13
    //   byte1 = 0x23, byte2 = 0x45
    //   bytes 3..6 = ab cd ef
    let bmac = group_bmac(0x12345, 0xabcdef);
    assert_eq!(bmac.as_bytes(), [0x13, 0x23, 0x45, 0xab, 0xcd, 0xef]);
    assert_eq!(bmac.to_string(), "13:23:45:ab:cd:ef");
}

#[test]
fn group_bmac_sets_multicast_and_local_bits() {
    let bmac = group_bmac(0, 100);
    // The multicast bit is the low bit of the first octet on the wire,
    // and the local bit is next to it.
    assert_eq!(bmac.as_bytes()[0] & 0x01, 0x01, "multicast bit");
    assert_eq!(bmac.as_bytes()[0] & 0x02, 0x02, "local bit");
    assert_eq!(bmac.as_bytes()[0] & 0x0c, 0x00, "SPSourceID type 00");
}

#[test]
fn group_bmac_round_trips() {
    for (spsource_id, isid) in [
        (0x00000, 0x000064),
        (0x12345, 0xabcdef),
        (0xfffff, 0xffffff),
        (0x0000f, 0x000fff),
    ] {
        let bmac = group_bmac(spsource_id, isid);
        assert!(is_group_bmac(bmac));
        assert_eq!(parse_group_bmac(bmac), Some((spsource_id, isid)));
    }
}

#[test]
fn out_of_range_inputs_are_masked_to_their_field_widths() {
    // A 20-bit SPSourceID and a 24-bit I-SID cannot overflow into the
    // fixed prefix bits.
    let bmac = group_bmac(0xffff_ffff, 0xffff_ffff);
    assert_eq!(bmac.as_bytes()[0] & 0x0f, MCAST_BDA_PREFIX);
    assert_eq!(parse_group_bmac(bmac), Some((0xfffff, 0xffffff)));
}

#[test]
fn unicast_bmac_is_not_a_group_address() {
    let unicast = MacAddr::from([0xaa, 0xbb, 0xcc, 0xdd, 0xee, 0x01]);
    assert!(!is_group_bmac(unicast));
    assert_eq!(parse_group_bmac(unicast), None);
}

#[test]
fn a_group_address_is_the_one_built_from_its_parts() {
    for bytes in [[0x13u8, 0x23, 0x45, 0xab, 0xcd, 0xef], [0xf3, 0, 1, 2, 3, 4]] {
        let bmac = MacAddr::from(bytes);
        let (spsource_id, isid) = parse_group_bmac(bmac).unwrap();
        assert_eq!(group_bmac(spsource_id, isid), bmac);
    }
}

#[test]
fn distinct_trees_have_distinct_addresses() {
    let parts = [(0x12345u32, 100u32), (0x12345, 101), (0x12346, 100), (0x02345, 100)];
    for (i, a) in parts.iter().enumerate() {
        for (j, b) in parts.iter().enumerate() {
            assert_eq!(group_bmac(a.0, a.1) == group_bmac(b.0, b.1), i == j);
        }
    }
}
