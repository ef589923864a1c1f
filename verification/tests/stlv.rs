//! Sub-TLVs on the wire.

use holo_spb::stlv::{
    EctVidFlags, EctVidTuple, IsidEntry, IsidFlags, SpbBVidStlv, SpbDigestStlv, SpbInstStlv, SpbMcidStlv, SpbMetricStlv,
    SpbmSiStlv, VlanIdTuple, VlanIdTupleFlags,
};
use holo_spb::wire::{Bytes, TlvDecodeError};

fn si() -> SpbmSiStlv {
    SpbmSiStlv::new(
        [1, 2, 3, 4, 5, 6],
        4000,
        vec![
            IsidEntry::new(IsidFlags { t: true, r: true }, 100),
            IsidEntry::new(IsidFlags { t: false, r: true }, 0xabcdef),
        ],
    )
}

fn inst() -> SpbInstStlv {
    SpbInstStlv::new(
        0x0102_0304_0506_0708,
        0x0a0b_0c0d,
        0x8000,
        true,
        0x12345,
        vec![VlanIdTuple::new(
            VlanIdTupleFlags {
                u: true,
                m: false,
                a: true,
            },
            0x0080_c201,
            0xfa0,
            0xfa1,
        )],
    )
}

#[test]
fn spbm_si_on_the_wire() {
    let mut buf = vec![0xee];
    si().encode(&mut buf);
    assert_eq!(
        buf,
        vec![0xee, 3, 16, 1, 2, 3, 4, 5, 6, 0x0f, 0xa0, 0xc0, 0, 0, 100, 0x40, 0xab, 0xcd, 0xef]
    );
    assert_eq!(si().len(), buf.len() - 1);

    let mut body = buf[3..].to_vec();
    body.push(0x77);
    let mut bytes = Bytes::new(body);
    assert_eq!(SpbmSiStlv::decode(16, &mut bytes), Ok(si()));
    assert_eq!(bytes.remaining(), 1);
}

#[test]
fn spbm_si_reserved_bits_are_ignored() {
    let mut bytes = Bytes::new(vec![1, 2, 3, 4, 5, 6, 0xff, 0xa0, 0xff, 0, 0, 1]);
    let stlv = SpbmSiStlv::decode(12, &mut bytes).unwrap();
    assert_eq!(stlv.base_vid, 0xfa0);
    assert_eq!(stlv.isid_entries, vec![IsidEntry::new(IsidFlags { t: true, r: true }, 1)]);
}

#[test]
fn spbm_si_errors() {
    let mut bytes = Bytes::new(vec![0; 20]);
    assert_eq!(SpbmSiStlv::decode(7, &mut bytes), Err(TlvDecodeError::InvalidLength(7)));
    assert_eq!(SpbmSiStlv::decode(10, &mut bytes), Err(TlvDecodeError::InvalidLength(10)));
    assert_eq!(bytes.remaining(), 20);
    // One entry and the flags of another are there.
    let mut bytes = Bytes::new(vec![0; 13]);
    assert_eq!(SpbmSiStlv::decode(16, &mut bytes), Err(TlvDecodeError::ReadOutOfBounds));
    assert_eq!(bytes.remaining(), 0);
    // The Base VID is cut in half.
    let mut bytes = Bytes::new(vec![0; 7]);
    assert_eq!(SpbmSiStlv::decode(8, &mut bytes), Err(TlvDecodeError::ReadOutOfBounds));
    assert_eq!(bytes.remaining(), 1);
}

#[test]
fn spb_inst_on_the_wire() {
    let mut buf = Vec::new();
    inst().encode(&mut buf);
    assert_eq!(
        buf,
        vec![
            1, 27, 1, 2, 3, 4, 5, 6, 7, 8, 0x0a, 0x0b, 0x0c, 0x0d, 0x80, 0x00, 0x00, 0x11, 0x23, 0x45, 1, 0xa0, 0x00, 0x80,
            0xc2, 0x01, 0xfa, 0x0f, 0xa1
        ]
    );
    assert_eq!(inst().len(), buf.len());
    let mut bytes = Bytes::new(buf[2..].to_vec());
    assert_eq!(SpbInstStlv::decode(27, &mut bytes), Ok(inst()));
    assert_eq!(bytes.remaining(), 0);
}

#[test]
fn spb_inst_errors() {
    let mut bytes = Bytes::new(vec![0; 40]);
    assert_eq!(SpbInstStlv::decode(18, &mut bytes), Err(TlvDecodeError::InvalidLength(18)));
    assert_eq!(SpbInstStlv::decode(20, &mut bytes), Err(TlvDecodeError::InvalidLength(20)));
    assert_eq!(bytes.remaining(), 40);
    // The count says none, the length says one.
    assert_eq!(SpbInstStlv::decode(27, &mut bytes), Err(TlvDecodeError::InvalidLength(27)));
    assert_eq!(bytes.remaining(), 21);
    // The bytes end within each field in turn.
    for (there, left) in [(7usize, 7usize), (11, 3), (13, 1), (17, 3), (18, 0)] {
        let mut bytes = Bytes::new(vec![0; there]);
        assert_eq!(SpbInstStlv::decode(19, &mut bytes), Err(TlvDecodeError::ReadOutOfBounds));
        assert_eq!(bytes.remaining(), left);
    }
    // The bytes end within the second tuple.
    let mut body = vec![0; 33];
    body[18] = 2;
    let mut bytes = Bytes::new(body);
    assert_eq!(SpbInstStlv::decode(35, &mut bytes), Err(TlvDecodeError::ReadOutOfBounds));
    assert_eq!(bytes.remaining(), 1);
}

#[test]
fn spb_metric_on_the_wire() {
    let stlv = SpbMetricStlv::new(0x010203, vec![7, 0x1234]);
    let mut buf = Vec::new();
    stlv.encode(&mut buf);
    assert_eq!(buf, vec![29, 8, 1, 2, 3, 2, 0, 7, 0x12, 0x34]);
    assert_eq!(stlv.len(), buf.len());
    let mut bytes = Bytes::new(buf[2..].to_vec());
    assert_eq!(SpbMetricStlv::decode(8, &mut bytes), Ok(stlv));
}

#[test]
fn spb_metric_keeps_its_low_bits() {
    let mut buf = Vec::new();
    SpbMetricStlv::new(0xff01_0203, vec![]).encode(&mut buf);
    assert_eq!(buf, vec![29, 4, 1, 2, 3, 0]);
}

#[test]
fn spb_metric_errors() {
    let mut bytes = Bytes::new(vec![0; 10]);
    assert_eq!(SpbMetricStlv::decode(3, &mut bytes), Err(TlvDecodeError::InvalidLength(3)));
    assert_eq!(SpbMetricStlv::decode(5, &mut bytes), Err(TlvDecodeError::InvalidLength(5)));
    assert_eq!(SpbMetricStlv::decode(6, &mut bytes), Err(TlvDecodeError::InvalidLength(6)));
    assert_eq!(bytes.remaining(), 6);
    let mut bytes = Bytes::new(vec![0, 0, 0, 1, 9]);
    assert_eq!(SpbMetricStlv::decode(6, &mut bytes), Err(TlvDecodeError::ReadOutOfBounds));
    assert_eq!(bytes.remaining(), 1);
}

#[test]
fn spb_b_vid_on_the_wire() {
    let stlv = SpbBVidStlv::new(vec![EctVidTuple::new(0x0080_c202, 0xfa0, EctVidFlags { u: true, m: true })]);
    let mut buf = Vec::new();
    stlv.encode(&mut buf);
    assert_eq!(buf, vec![6, 6, 0x00, 0x80, 0xc2, 0x02, 0xfa, 0x0c]);
    assert_eq!(stlv.len(), buf.len());
    let mut bytes = Bytes::new(buf[2..].to_vec());
    assert_eq!(SpbBVidStlv::decode(6, &mut bytes), Ok(stlv));
}

#[test]
fn spb_b_vid_errors() {
    let mut bytes = Bytes::new(vec![0; 11]);
    assert_eq!(SpbBVidStlv::decode(7, &mut bytes), Err(TlvDecodeError::InvalidLength(7)));
    assert_eq!(SpbBVidStlv::decode(12, &mut bytes), Err(TlvDecodeError::ReadOutOfBounds));
    assert_eq!(bytes.remaining(), 1);
}

#[test]
fn spb_digest_on_the_wire() {
    let stlv = SpbDigestStlv::new(true, 2, 1, vec![0xaa, 0xbb]);
    let mut buf = Vec::new();
    stlv.encode(&mut buf);
    assert_eq!(buf, vec![5, 3, 0x19, 0xaa, 0xbb]);
    assert_eq!(stlv.len(), buf.len());
    let mut bytes = Bytes::new(buf[2..].to_vec());
    assert_eq!(SpbDigestStlv::decode(3, &mut bytes), Ok(stlv));
    // Numbers are two bits wide.
    let mut buf = Vec::new();
    SpbDigestStlv::new(false, 7, 5, vec![]).encode(&mut buf);
    assert_eq!(buf, vec![5, 1, 0x0d]);
}

#[test]
fn spb_digest_errors() {
    let mut bytes = Bytes::new(vec![0x10, 1]);
    assert_eq!(SpbDigestStlv::decode(0, &mut bytes), Err(TlvDecodeError::InvalidLength(0)));
    assert_eq!(SpbDigestStlv::decode(3, &mut bytes), Err(TlvDecodeError::ReadOutOfBounds));
    assert_eq!(bytes.remaining(), 1);
}

#[test]
fn spb_mcid_on_the_wire() {
    let stlv = SpbMcidStlv::new([1; 51], [2; 51]);
    let mut buf = Vec::new();
    stlv.encode(&mut buf);
    assert_eq!(buf.len(), 104);
    assert_eq!(buf[..3], [4, 102, 1]);
    assert_eq!(buf[53], 2);
    assert_eq!(stlv.len(), buf.len());
    let mut bytes = Bytes::new(buf[2..].to_vec());
    assert_eq!(SpbMcidStlv::decode(102, &mut bytes), Ok(stlv));
}

#[test]
fn spb_mcid_errors() {
    let mut bytes = Bytes::new(vec![0; 60]);
    assert_eq!(SpbMcidStlv::decode(101, &mut bytes), Err(TlvDecodeError::InvalidLength(101)));
    assert_eq!(SpbMcidStlv::decode(102, &mut bytes), Err(TlvDecodeError::ReadOutOfBounds));
    assert_eq!(bytes.remaining(), 9);
}

#[test]
fn an_mcid_is_put_together_from_its_parts() {
    let digest = [9u8; 16];
    let stlv = SpbMcidStlv::from_parts("region", 0x0102, &digest);
    assert_eq!(stlv.mcid[0], 0);
    assert_eq!(&stlv.mcid[1..7], b"region");
    assert!(stlv.mcid[7..33].iter().all(|b| *b == 0));
    assert_eq!(stlv.mcid[33..35], [1, 2]);
    assert_eq!(stlv.mcid[35..51], digest);
    assert_eq!(stlv.aux_mcid, stlv.mcid);

    let long = "a name that is longer than the thirty-two bytes of its field";
    let stlv = SpbMcidStlv::from_parts(long, 0, &digest);
    assert_eq!(&stlv.mcid[1..33], &long.as_bytes()[..32]);
    assert_eq!(stlv.mcid[33..35], [0, 0]);
}

#[test]
fn either_mcid_matching_is_enough() {
    let (a, b, c) = ([1u8; 51], [2u8; 51], [3u8; 51]);
    let old = SpbMcidStlv::new(a, a);
    let moving = SpbMcidStlv::new(b, a);
    let new = SpbMcidStlv::new(b, b);
    assert!(old.matches(&moving) && moving.matches(&old));
    assert!(moving.matches(&new) && new.matches(&moving));
    assert!(!old.matches(&new));
    // The two auxiliary ones alone do not count.
    assert!(!SpbMcidStlv::new(b, a).matches(&SpbMcidStlv::new(c, a)));
}

#[test]
fn flags_are_kept_and_unknown_bits_dropped() {
    for bits in 0..=255u8 {
        assert_eq!(IsidFlags::from_bits_truncate(bits).bits(), bits & 0xc0);
        assert_eq!(VlanIdTupleFlags::from_bits_truncate(bits).bits(), bits & 0xe0);
        assert_eq!(EctVidFlags::from_bits_truncate(bits).bits(), bits & 0x0c);
    }
}
