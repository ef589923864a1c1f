//! SPBM multicast addressing.
//!
//! RFC 6329, Sections 4.3 and 4.4.

use vstd::prelude::*;

use crate::mac::{lemma_mac_bytes, lemma_mac_ordinal_bound, MacAddr};
use crate::topology::{ISID_MAX, SPSOURCE_ID_MAX};

verus! {

/// The four fixed high-order bits of an SPBM multicast B-DA: the multicast
/// bit, the local bit, and a two-bit SPSourceID type of `00`.
///
/// RFC 6329 numbers bits from least to most significant within an octet
/// (the reverse of the IEEE convention), which is why M and L land in the low
/// two bits of the first octet.
pub const MCAST_BDA_PREFIX: u8 = 0x03;

/// The bytes of the multicast B-DA for an SPSourceID and an I-SID.
pub open spec fn group_bytes(spsource_id: u32, isid: u32) -> Seq<u8> {
    seq![
        (0x03 + spsource_id as int / 0x1_0000 % 0x10 * 0x10) as u8,
        (spsource_id as int / 0x100 % 0x100) as u8,
        (spsource_id as int % 0x100) as u8,
        (isid as int / 0x1_0000 % 0x100) as u8,
        (isid as int / 0x100 % 0x100) as u8,
        (isid as int % 0x100) as u8,
    ]
}

/// Whether an address is an SPBM-constructed multicast address.
pub open spec fn is_group(bmac: MacAddr) -> bool {
    bmac@[0] % 0x10 == 0x03
}

/// The SPSourceID that an SPBM multicast address holds.
pub open spec fn group_spsource_id(bmac: MacAddr) -> int {
    bmac@[0] as int / 0x10 * 0x1_0000 + bmac@[1] * 0x100 + bmac@[2]
}

/// The I-SID that an SPBM multicast address holds.
pub open spec fn group_isid(bmac: MacAddr) -> int {
    bmac@[3] * 0x1_0000 + bmac@[4] * 0x100 + bmac@[5]
}

/// Builds the multicast B-DA that identifies the `(S, G)` tree for a source's
/// SPSourceID and an I-SID.
///
/// RFC 6329, Section 4.4: the address concatenates the 20-bit SPSourceID with
/// the 24-bit I-SID, written `DA=<A',M>`, and uniquely identifies the tree.
///
/// ```text
///  M L TYP
/// +-+-+-+-+-+-+-+-+-+-+-+-+-+-+-+-+-+-+-+-+-+-+-+-+-+-+-+-+-+-+-+-+
/// |1|1|0|0|SPSrcMS|  SPSrc [8:15] |  SPSrc [0:7]  | I-SID [16:23] |
/// +-+-+-+-+-+-+-+-+-+-+-+-+-+-+-+-+-+-+-+-+-+-+-+-+-+-+-+-+-+-+-+-+
/// | I-SID [8:15]  |  I-SID [0:7]  |
/// +-+-+-+-+-+-+-+-+-+-+-+-+-+-+-+-+
/// ```
pub fn group_bmac(spsource_id: u32, isid: u32) -> (bmac: MacAddr)
    ensures
        bmac@ == group_bytes(spsource_id, isid),
{
    let bytes = [
        MCAST_BDA_PREFIX + (spsource_id / 0x1_0000 % 0x10) as u8 * 0x10,
        (spsource_id / 0x100 % 0x100) as u8,
        (spsource_id % 0x100) as u8,
        (isid / 0x1_0000 % 0x100) as u8,
        (isid / 0x100 % 0x100) as u8,
        (isid % 0x100) as u8,
    ];
    assert(bytes@ =~= group_bytes(spsource_id, isid));
    MacAddr::new(bytes)
}

/// Recovers the SPSourceID and I-SID from a multicast B-DA.
///
/// Returns `None` unless the address is a well-formed SPBM multicast address
/// with an SPSourceID type of `00`.
pub fn parse_group_bmac(bmac: MacAddr) -> (parts: Option<(u32, u32)>)
    ensures
        match parts {
            Some((spsource_id, isid)) => is_group(bmac) && spsource_id == group_spsource_id(bmac) && isid == group_isid(bmac),
            None => !is_group(bmac),
        },
{
    let bytes = bmac.as_bytes();
    if bytes[0] % 0x10 != MCAST_BDA_PREFIX {
        return None;
    }
    let spsource_id: u32 = (bytes[0] / 0x10) as u32 * 0x1_0000 + bytes[1] as u32 * 0x100 + bytes[2] as u32;
    let isid: u32 = bytes[3] as u32 * 0x1_0000 + bytes[4] as u32 * 0x100 + bytes[5] as u32;
    Some((spsource_id, isid))
}

/// Returns whether a MAC address is an SPBM-constructed multicast address.
pub fn is_group_bmac(bmac: MacAddr) -> (b: bool)
    ensures
        b == is_group(bmac),
{
    let bytes = bmac.as_bytes();
    bytes[0] % 0x10 == MCAST_BDA_PREFIX
}

/// What an address is built from is what it holds, cut to 20 and 24 bits.
pub proof fn group_bmac_holds_parts(spsource_id: u32, isid: u32, bmac: MacAddr)
    requires
        bmac@ == group_bytes(spsource_id, isid),
    ensures
        is_group(bmac),
        group_spsource_id(bmac) == spsource_id as int % (SPSOURCE_ID_MAX + 1),
        group_isid(bmac) == isid as int % (ISID_MAX + 1),
{
    let s = spsource_id as int;
    let i = isid as int;
    assert(bmac@[0] == 0x03 + s / 0x1_0000 % 0x10 * 0x10);
    assert(s / 0x1_0000 % 0x10 * 0x1_0000 + s / 0x100 % 0x100 * 0x100 + s % 0x100 == s % 0x10_0000);
    assert(i / 0x1_0000 % 0x100 * 0x1_0000 + i / 0x100 % 0x100 * 0x100 + i % 0x100 == i % 0x100_0000);
}

/// An address uniquely identifies its tree: different sources or services
/// within their ranges have different addresses.
pub proof fn group_bmac_unique(spsource_id: u32, isid: u32, other_id: u32, other_isid: u32)
    requires
        spsource_id <= SPSOURCE_ID_MAX,
        other_id <= SPSOURCE_ID_MAX,
        isid <= ISID_MAX,
        other_isid <= ISID_MAX,
        group_bytes(spsource_id, isid) == group_bytes(other_id, other_isid),
    ensures
        spsource_id == other_id,
        isid == other_isid,
{
    let a = group_bytes(spsource_id, isid);
    let b = group_bytes(other_id, other_isid);
    assert(a[0] == b[0] && a[1] == b[1] && a[2] == b[2] && a[3] == b[3] && a[4] == b[4] && a[5] == b[5]);
    lemma_three_bytes(spsource_id as int);
    lemma_three_bytes(other_id as int);
    lemma_three_bytes(isid as int);
    lemma_three_bytes(other_isid as int);
}

/// A number put together from three bytes has those bytes.
proof fn lemma_from_three_bytes(a: int, b: int, c: int)
    requires
        0 <= a < 0x100,
        0 <= b < 0x100,
        0 <= c < 0x100,
    ensures
        (a * 0x1_0000 + b * 0x100 + c) / 0x1_0000 == a,
        (a * 0x1_0000 + b * 0x100 + c) / 0x1_0000 % 0x100 == a,
        a < 0x10 ==> (a * 0x1_0000 + b * 0x100 + c) / 0x1_0000 % 0x10 == a,
        (a * 0x1_0000 + b * 0x100 + c) / 0x100 % 0x100 == b,
        (a * 0x1_0000 + b * 0x100 + c) % 0x100 == c,
        0 <= a * 0x1_0000 + b * 0x100 + c <= ISID_MAX,
{
}

/// A 24-bit number is determined by its three bytes.
proof fn lemma_three_bytes(n: int)
    requires
        0 <= n <= ISID_MAX,
    ensures
        n == n / 0x1_0000 * 0x1_0000 + n / 0x100 % 0x100 * 0x100 + n % 0x100,
        0 <= n / 0x1_0000 < 0x100,
        n / 0x1_0000 % 0x100 == n / 0x1_0000,
        n <= SPSOURCE_ID_MAX ==> n / 0x1_0000 % 0x10 == n / 0x1_0000 && n / 0x1_0000 < 0x10,
{
}

/// An SPBM multicast address is the one built from what it holds.
pub proof fn group_bmac_rebuilds(bmac: MacAddr, other: MacAddr)
    requires
        is_group(bmac),
        other@ == group_bytes(group_spsource_id(bmac) as u32, group_isid(bmac) as u32),
    ensures
        other == bmac,
{
    lemma_mac_ordinal_bound(bmac);
    let m = bmac@;
    lemma_from_three_bytes(m[0] as int / 0x10, m[1] as int, m[2] as int);
    lemma_from_three_bytes(m[3] as int, m[4] as int, m[5] as int);
    assert(0x03 + m[0] as int / 0x10 * 0x10 == m[0]);
    assert(other@ =~= m);
    lemma_mac_bytes(other, bmac);
}

} // verus!
