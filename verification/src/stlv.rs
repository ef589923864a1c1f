//! SPB (Shortest Path Bridging) Sub-TLVs for IS-IS.
//!
//! RFC 6329. SPBM-SI and SPB-Inst are carried within the MT-Capability TLV
//! (144), SPB-Metric within the reachability TLVs, and SPB-MCID, SPB-Digest
//! and SPB-B-VID within the MT-Port-Cap TLV (143) of Hellos.

use vstd::arithmetic::mul::{lemma_mul_inequality, lemma_mul_is_distributive_add_other_way};
use vstd::prelude::*;
use vstd::string::StringSliceAdditionalSpecFns;

use crate::bytes::{
    be16, be24, be32, be64, lemma_be16, lemma_be24, lemma_be32, lemma_be64, lemma_number_of_three,
    lemma_together, number_of, put_bytes, put_u16, put_u24, put_u32, put_u64,
};
use crate::wire::{
    decode_records, encode_records, lemma_records_len, lemma_records_round_trip, put_tlv, record_at, records_bytes, records_of,
    records_part, tlv, Bytes, Record, TlvDecodeError, TLV_HDR_SIZE,
};

verus! {

broadcast use crate::bytes::group_be_len;

/// The SPB-Inst Sub-TLV of the MT-Capability TLV.
pub const STLV_SPB_INST: u8 = 1;

/// The SPBM-SI Sub-TLV of the MT-Capability TLV.
pub const STLV_SPBM_SI: u8 = 3;

/// The SPB-MCID Sub-TLV of the MT-Port-Cap TLV.
pub const STLV_SPB_MCID: u8 = 4;

/// The SPB-Digest Sub-TLV of the MT-Port-Cap TLV.
pub const STLV_SPB_DIGEST: u8 = 5;

/// The SPB-B-VID Sub-TLV of the MT-Port-Cap TLV.
pub const STLV_SPB_B_VID: u8 = 6;

/// The SPB-Metric Sub-TLV of the reachability TLVs.
pub const STLV_SPB_METRIC: u8 = 29;

/// A bit of a byte.
pub open spec fn has_bit(byte: u8, bit: int) -> bool {
    byte as int / bit % 2 == 1
}

/// A bit, where it is set.
pub open spec fn bit_if(set: bool, bit: int) -> int {
    if set {
        bit
    } else {
        0
    }
}

// ===== SPBM-SI =====

/// Flags for I-SID entries.
#[derive(Clone, Copy, Debug, Default, Eq, PartialEq, Structural)]
pub struct IsidFlags {
    /// Transmit bit: transmit membership.
    pub t: bool,
    /// Receive bit: receive membership.
    pub r: bool,
}

impl IsidFlags {
    /// The flags that a byte holds; its other bits are reserved.
    pub open spec fn of_byte(byte: u8) -> IsidFlags {
        IsidFlags { t: has_bit(byte, 0x80), r: has_bit(byte, 0x40) }
    }

    /// The byte that holds the flags.
    pub open spec fn byte(self) -> int {
        bit_if(self.t, 0x80) + bit_if(self.r, 0x40)
    }

    pub fn from_bits_truncate(bits: u8) -> (flags: Self)
        ensures
            flags == IsidFlags::of_byte(bits),
    {
        IsidFlags { t: bits / 0x80 % 2 == 1, r: bits / 0x40 % 2 == 1 }
    }

    pub fn bits(&self) -> (bits: u8)
        ensures
            bits == self.byte(),
    {
        let mut bits: u8 = 0;
        if self.t {
            bits = bits + 0x80;
        }
        if self.r {
            bits = bits + 0x40;
        }
        bits
    }
}

/// I-SID (Service Identifier) entry within SPBM-SI Sub-TLV.
///
/// Format (4 bytes):
/// ```text
/// |T|R|  Reserved (6 bits) |     I-SID (24 bits)           |
/// ```
#[derive(Clone, Copy, Debug, PartialEq, Structural)]
pub struct IsidEntry {
    /// T bit: Transmit - indicates transmit membership.
    /// R bit: Receive - indicates receive membership.
    pub flags: IsidFlags,
    /// 24-bit Service Identifier.
    pub isid: u32,
}

impl IsidEntry {
    pub fn new(flags: IsidFlags, isid: u32) -> (entry: Self)
        ensures
            entry == (IsidEntry { flags, isid }),
    {
        IsidEntry { flags, isid }
    }
}

impl Record for IsidEntry {
    open spec fn width() -> nat {
        4
    }

    open spec fn of(bytes: Seq<u8>) -> IsidEntry {
        IsidEntry { flags: IsidFlags::of_byte(bytes[0]), isid: number_of(bytes.subrange(1, 4)) as u32 }
    }

    open spec fn bytes(self) -> Seq<u8> {
        seq![self.flags.byte() as u8] + be24(self.isid as int)
    }

    open spec fn fits(self) -> bool {
        self.isid < 0x100_0000
    }

    open spec fn part(n: nat) -> nat {
        if n < 1 {
            0
        } else {
            1
        }
    }

    proof fn lemma_record(self) {
        if self.fits() {
            lemma_be24(self.isid as int);
            assert(self.bytes().subrange(1, 4) =~= be24(self.isid as int));
        }
    }

    fn decode(buf: &mut Bytes) -> (entry: Result<IsidEntry, TlvDecodeError>) {
        let ghost s = buf@;
        assert(s.skip(0) =~= s);
        // First byte: T|R|Reserved(6 bits).
        let bits: u8 = match buf.try_get_u8() {
            Ok(v) => v,
            Err(e) => {
                return Err(e);
            },
        };
        // Next 3 bytes: I-SID (24 bits).
        let isid: u32 = match buf.try_get_u24() {
            Ok(v) => v,
            Err(e) => {
                return Err(e);
            },
        };
        proof {
            assert(s.skip(1).take(3) =~= s.take(4).subrange(1, 4));
            assert(s.skip(1).skip(3) =~= s.skip(4));
        }
        Ok(IsidEntry { flags: IsidFlags::from_bits_truncate(bits), isid })
    }

    fn encode(&self, buf: &mut Vec<u8>) {
        let ghost before = buf@;
        buf.push(self.flags.bits());
        put_u24(buf, self.isid);
        assert(buf@ =~= before + self.bytes());
    }
}

/// SPBM Service Identifier and Unicast Address (SPBM-SI) Sub-TLV.
///
/// Defined in RFC 6329, Section 16.1. It carries a B-MAC with the Base VID
/// that links it to an ECT-ALGORITHM, and the I-SIDs reachable through it with
/// their T/R membership bits.
///
/// Format:
/// ```text
///  0                   1                   2                   3
///  0 1 2 3 4 5 6 7 8 9 0 1 2 3 4 5 6 7 8 9 0 1 2 3 4 5 6 7 8 9 0 1
/// +-+-+-+-+-+-+-+-+-+-+-+-+-+-+-+-+-+-+-+-+-+-+-+-+-+-+-+-+-+-+-+-+
/// |     Type      |    Length     |         B-MAC Address        |
/// +-+-+-+-+-+-+-+-+-+-+-+-+-+-+-+-+-+-+-+-+-+-+-+-+-+-+-+-+-+-+-+-+
/// |                    B-MAC Address (continued)                 |
/// +-+-+-+-+-+-+-+-+-+-+-+-+-+-+-+-+-+-+-+-+-+-+-+-+-+-+-+-+-+-+-+-+
/// |  Resv | Base VID              |T|R|  Resv   |     I-SID      |
/// +-+-+-+-+-+-+-+-+-+-+-+-+-+-+-+-+-+-+-+-+-+-+-+-+-+-+-+-+-+-+-+-+
/// |          I-SID (continued)    | ... more I-SID entries ...   |
/// +-+-+-+-+-+-+-+-+-+-+-+-+-+-+-+-+-+-+-+-+-+-+-+-+-+-+-+-+-+-+-+-+
/// ```
#[derive(Clone, Debug, PartialEq)]
pub struct SpbmSiStlv {
    /// B-MAC Address (6 bytes) - Unicast MAC address.
    pub bmac: [u8; 6],
    /// Base VID (12 bits) - Links to ECT-ALGORITHM in SPB-Inst Sub-TLV.
    pub base_vid: u16,
    /// List of I-SID entries with T/R flags.
    pub isid_entries: Vec<IsidEntry>,
}

impl SpbmSiStlv {
    /// B-MAC (6) + Reserved/BaseVID (2) = 8 bytes minimum.
    pub const MIN_SIZE: usize = 8;

    /// Each I-SID entry is 4 bytes.
    pub const ISID_ENTRY_SIZE: usize = 4;

    pub fn new(bmac: [u8; 6], base_vid: u16, isid_entries: Vec<IsidEntry>) -> (stlv: Self)
        ensures
            stlv == (SpbmSiStlv { bmac, base_vid, isid_entries }),
    {
        SpbmSiStlv { bmac, base_vid, isid_entries }
    }

    /// What is written after the header.
    pub open spec fn body(self) -> Seq<u8> {
        self.bmac@ + be16(self.base_vid as int % 0x1000) + records_bytes(self.isid_entries@)
    }

    /// The fields fit the bits that they are written to.
    pub open spec fn fits(self) -> bool {
        &&& self.base_vid < 0x1000
        &&& self.body().len() < 0x100
        &&& forall|i: int| 0 <= i < self.isid_entries@.len() ==> (#[trigger] self.isid_entries@[i]).fits()
    }

    /// How many entries a length stands for.
    pub open spec fn count(stlv_len: u8) -> int {
        (stlv_len - 8) / 4
    }

    /// Whether the bytes can be decoded.
    pub open spec fn verdict(stlv_len: u8, s: Seq<u8>) -> Result<(), TlvDecodeError> {
        if stlv_len < 8 || (stlv_len - 8) % 4 != 0 {
            Err(TlvDecodeError::InvalidLength(stlv_len))
        } else if s.len() < stlv_len {
            Err(TlvDecodeError::ReadOutOfBounds)
        } else {
            Ok(())
        }
    }

    /// How many bytes are read.
    pub open spec fn consumed(stlv_len: u8, s: Seq<u8>) -> int {
        if stlv_len < 8 || (stlv_len - 8) % 4 != 0 {
            0
        } else if s.len() >= stlv_len {
            stlv_len as int
        } else if s.len() >= 8 {
            8 + records_part::<IsidEntry>((s.len() - 8) as nat)
        } else if s.len() >= 6 {
            6
        } else {
            0
        }
    }

    /// The fields are what the bytes say.
    pub open spec fn reads(self, stlv_len: u8, s: Seq<u8>) -> bool {
        &&& self.bmac@ == s.take(6)
        &&& self.base_vid == number_of(s.subrange(6, 8)) % 0x1000
        &&& self.isid_entries@ == records_of::<IsidEntry>(s.skip(8), SpbmSiStlv::count(stlv_len) as nat)
    }

    pub fn decode(stlv_len: u8, buf: &mut Bytes) -> (stlv: Result<Self, TlvDecodeError>)
        ensures
            match stlv {
                Ok(v) => SpbmSiStlv::verdict(stlv_len, old(buf)@) is Ok && v.reads(stlv_len, old(buf)@),
                Err(e) => SpbmSiStlv::verdict(stlv_len, old(buf)@) == Err::<(), TlvDecodeError>(e),
            },
            final(buf)@ == old(buf)@.skip(SpbmSiStlv::consumed(stlv_len, old(buf)@)),
    {
        let ghost s = buf@;
        assert(s.skip(0) =~= s);
        // Validate minimum length and I-SID entries alignment.
        if stlv_len < 8 || (stlv_len - 8) % 4 != 0 {
            return Err(TlvDecodeError::InvalidLength(stlv_len));
        }
        // Parse B-MAC Address (6 bytes).
        let b = match buf.try_copy_to_bytes(6) {
            Ok(v) => v,
            Err(e) => {
                return Err(e);
            },
        };
        let bmac = [b[0], b[1], b[2], b[3], b[4], b[5]];
        // Parse Reserved (4 bits) + Base VID (12 bits).
        let raw: u16 = match buf.try_get_u16() {
            Ok(v) => v,
            Err(e) => {
                return Err(e);
            },
        };
        proof {
            assert(bmac@ =~= s.take(6));
            assert(s.skip(6).take(2) =~= s.subrange(6, 8));
            assert(s.skip(6).skip(2) =~= s.skip(8));
        }
        // Parse I-SID entries.
        let n: u8 = (stlv_len - 8) / 4;
        match decode_records::<IsidEntry>(buf, n as usize) {
            Ok(isid_entries) => {
                assert(s.skip(8).skip(n * 4) =~= s.skip(stlv_len as int));
                Ok(SpbmSiStlv { bmac, base_vid: raw % 0x1000, isid_entries })
            },
            Err(e) => {
                proof {
                    lemma_part_bound::<IsidEntry>((s.len() - 8) as nat, 4);
                    assert(s.skip(8).skip(records_part::<IsidEntry>((s.len() - 8) as nat)) =~= s.skip(
                        8 + records_part::<IsidEntry>((s.len() - 8) as nat),
                    ));
                }
                Err(e)
            },
        }
    }

    pub fn encode(&self, buf: &mut Vec<u8>)
        ensures
            final(buf)@ == old(buf)@ + tlv(STLV_SPBM_SI, self.body()),
    {
        let mut body: Vec<u8> = Vec::new();
        // B-MAC Address (6 bytes).
        put_bytes(&mut body, &self.bmac);
        // Reserved (4 bits) + Base VID (12 bits).
        put_u16(&mut body, self.base_vid % 0x1000);
        // I-SID entries.
        encode_records(&mut body, &self.isid_entries);
        assert(body@ =~= self.body());
        put_tlv(buf, STLV_SPBM_SI, &body);
    }

    /// Returns how many bytes the Sub-TLV takes with its header.
    pub fn len(&self) -> (n: usize)
        requires
            10 + self.isid_entries@.len() * 4 <= usize::MAX,
        ensures
            n == tlv(STLV_SPBM_SI, self.body()).len(),
    {
        proof {
            lemma_records_len(self.isid_entries@);
        }
        TLV_HDR_SIZE + Self::MIN_SIZE + self.isid_entries.len() * Self::ISID_ENTRY_SIZE
    }
}

/// What is read of a list that is cut short is not more than is there.
proof fn lemma_part_bound<R: Record>(n: nat, w: int)
    requires
        R::width() == w,
        w == 2 || w == 4 || w == 6 || w == 8,
        R::part((n as int % w) as nat) <= n as int % w,
    ensures
        records_part::<R>(n) <= n,
        records_part::<R>(n) == n as int / w * w + R::part((n as int % w) as nat),
{
    if w == 2 {
        assert(n as int / 2 * 2 + n as int % 2 == n);
    } else if w == 4 {
        assert(n as int / 4 * 4 + n as int % 4 == n);
    } else if w == 6 {
        assert(n as int / 6 * 6 + n as int % 6 == n);
    } else {
        assert(n as int / 8 * 8 + n as int % 8 == n);
    }
}

/// An SPBM-SI whose fields fit is read as it was written, whatever follows.
pub proof fn spbm_si_round_trip(v: SpbmSiStlv, w: SpbmSiStlv, rest: Seq<u8>)
    requires
        v.fits(),
        w.reads(v.body().len() as u8, v.body() + rest),
    ensures
        SpbmSiStlv::verdict(v.body().len() as u8, v.body() + rest) is Ok,
        w.bmac == v.bmac,
        w.base_vid == v.base_vid,
        w.isid_entries@ == v.isid_entries@,
{
    let s = v.body() + rest;
    lemma_records_len(v.isid_entries@);
    assert(v.body().len() == 8 + v.isid_entries@.len() * 4);
    assert(s.take(6) =~= v.bmac@);
    assert(w.bmac =~= v.bmac);
    assert(s.subrange(6, 8) =~= be16(v.base_vid as int));
    lemma_be16(v.base_vid as int);
    lemma_records_prefix::<IsidEntry>(v.isid_entries@, rest);
    assert(s.skip(8) =~= records_bytes(v.isid_entries@) + rest);
}

/// What fits is read as it was written, whatever follows.
proof fn lemma_records_prefix<R: Record>(list: Seq<R>, rest: Seq<u8>)
    requires
        forall|i: int| 0 <= i < list.len() ==> (#[trigger] list[i]).fits(),
    ensures
        records_of::<R>(records_bytes(list) + rest, list.len()) == list,
{
    let t = records_bytes(list);
    let w = R::width() as int;
    lemma_records_round_trip(list);
    lemma_records_len(list);
    assert forall|i: int| 0 <= i < list.len() implies R::of(record_at::<R>(t + rest, i)) == list[i] by {
        list[i].lemma_record();
        lemma_mul_inequality(i + 1, list.len() as int, w);
        lemma_mul_is_distributive_add_other_way(w, i, 1);
        assert(0 <= i * w) by (nonlinear_arith)
            requires
                0 <= i,
                0 < w,
        ;
        assert(record_at::<R>(t + rest, i) =~= record_at::<R>(t, i));
        assert(records_of::<R>(t, list.len())[i] == list[i]);
    }
    assert(records_of::<R>(t + rest, list.len()) =~= list);
}

// ===== SPB-Inst =====

/// Flags for VLAN-ID tuples.
#[derive(Clone, Copy, Debug, Default, Eq, PartialEq, Structural)]
pub struct VlanIdTupleFlags {
    /// Use bit: this ECT-ALGORITHM and Base VID pair is in use.
    pub u: bool,
    /// Multicast bit: this Base VID carries multicast.
    pub m: bool,
    /// SPVID Allocated bit: SPBV mode.
    pub a: bool,
}

impl VlanIdTupleFlags {
    /// The flags that a byte holds; its other bits are reserved.
    pub open spec fn of_byte(byte: u8) -> VlanIdTupleFlags {
        VlanIdTupleFlags { u: has_bit(byte, 0x80), m: has_bit(byte, 0x40), a: has_bit(byte, 0x20) }
    }

    /// The byte that holds the flags.
    pub open spec fn byte(self) -> int {
        bit_if(self.u, 0x80) + bit_if(self.m, 0x40) + bit_if(self.a, 0x20)
    }

    pub fn from_bits_truncate(bits: u8) -> (flags: Self)
        ensures
            flags == VlanIdTupleFlags::of_byte(bits),
    {
        VlanIdTupleFlags { u: bits / 0x80 % 2 == 1, m: bits / 0x40 % 2 == 1, a: bits / 0x20 % 2 == 1 }
    }

    pub fn bits(&self) -> (bits: u8)
        ensures
            bits == self.byte(),
    {
        let mut bits: u8 = 0;
        if self.u {
            bits = bits + 0x80;
        }
        if self.m {
            bits = bits + 0x40;
        }
        if self.a {
            bits = bits + 0x20;
        }
        bits
    }
}

/// A VLAN-ID tuple within the SPB-Inst Sub-TLV.
///
/// Format (8 bytes):
/// ```text
/// |U|M|A|  Res    |                                (1 byte)
/// |                ECT-ALGORITHM (32 bits)         (4 bytes)
/// | Base VID (12 bits)    |   SPVID (12 bits)      (3 bytes)
/// ```
#[derive(Clone, Copy, Debug, PartialEq, Structural)]
pub struct VlanIdTuple {
    /// U (Use), M (Multicast) and A (SPVID Allocated) bits.
    pub flags: VlanIdTupleFlags,
    /// ECT-ALGORITHM: an OUI in the top 24 bits and an index in the low 8.
    pub ect_algorithm: u32,
    /// Base VID associated with this SPT Set.
    pub base_vid: u16,
    /// Shortest Path VID, used in SPBV mode.
    pub spvid: u16,
}

impl VlanIdTuple {
    pub fn new(flags: VlanIdTupleFlags, ect_algorithm: u32, base_vid: u16, spvid: u16) -> (tuple: Self)
        ensures
            tuple == (VlanIdTuple { flags, ect_algorithm, base_vid, spvid }),
    {
        VlanIdTuple { flags, ect_algorithm, base_vid, spvid }
    }
}

/// The parts of three sequences put together.
proof fn lemma_three_parts(a: Seq<u8>, b: Seq<u8>, c: Seq<u8>)
    ensures
        (a + b + c).take(a.len() as int) == a,
        (a + b + c).subrange(a.len() as int, (a.len() + b.len()) as int) == b,
        (a + b + c).subrange((a.len() + b.len()) as int, (a.len() + b.len() + c.len()) as int) == c,
{
    let s = a + b + c;
    assert(s.take(a.len() as int) =~= a);
    assert(s.subrange(a.len() as int, (a.len() + b.len()) as int) =~= b);
    assert(s.subrange((a.len() + b.len()) as int, (a.len() + b.len() + c.len()) as int) =~= c);
}

/// Two VIDs of 12 bits share 24 bits.
proof fn lemma_vids(base_vid: int, spvid: int)
    requires
        0 <= base_vid < 0x1000,
        0 <= spvid < 0x1000,
    ensures
        base_vid % 0x1000 * 0x1000 + spvid % 0x1000 == base_vid * 0x1000 + spvid,
        (base_vid * 0x1000 + spvid) / 0x1000 == base_vid,
        (base_vid * 0x1000 + spvid) % 0x1000 == spvid,
        0 <= base_vid * 0x1000 + spvid < 0x100_0000,
{
}

/// Flags are read as they were written.
proof fn lemma_vlan_flags(flags: VlanIdTupleFlags)
    ensures
        VlanIdTupleFlags::of_byte(flags.byte() as u8) == flags,
{
}

impl Record for VlanIdTuple {
    open spec fn width() -> nat {
        8
    }

    open spec fn of(bytes: Seq<u8>) -> VlanIdTuple {
        VlanIdTuple {
            flags: VlanIdTupleFlags::of_byte(bytes[0]),
            ect_algorithm: number_of(bytes.subrange(1, 5)) as u32,
            base_vid: (number_of(bytes.subrange(5, 8)) / 0x1000) as u16,
            spvid: (number_of(bytes.subrange(5, 8)) % 0x1000) as u16,
        }
    }

    open spec fn bytes(self) -> Seq<u8> {
        seq![self.flags.byte() as u8] + be32(self.ect_algorithm as int) + be24(
            self.base_vid as int % 0x1000 * 0x1000 + self.spvid as int % 0x1000,
        )
    }

    open spec fn fits(self) -> bool {
        self.base_vid < 0x1000 && self.spvid < 0x1000
    }

    open spec fn part(n: nat) -> nat {
        if n < 1 {
            0
        } else if n < 5 {
            1
        } else {
            5
        }
    }

    proof fn lemma_record(self) {
        let vids = self.base_vid as int % 0x1000 * 0x1000 + self.spvid as int % 0x1000;
        let a = seq![self.flags.byte() as u8];
        let b = be32(self.ect_algorithm as int);
        let c = be24(vids);
        lemma_three_parts(a, b, c);
        if self.fits() {
            lemma_be32(self.ect_algorithm as int);
            lemma_be24(vids);
            lemma_vids(self.base_vid as int, self.spvid as int);
            lemma_vlan_flags(self.flags);
            assert(self.bytes()[0] == a[0]);
        }
    }

    fn decode(buf: &mut Bytes) -> (entry: Result<VlanIdTuple, TlvDecodeError>) {
        let ghost s = buf@;
        assert(s.skip(0) =~= s);
        // U|M|A|Reserved(5 bits).
        let bits: u8 = match buf.try_get_u8() {
            Ok(v) => v,
            Err(e) => {
                return Err(e);
            },
        };
        let ect_algorithm: u32 = match buf.try_get_u32() {
            Ok(v) => v,
            Err(e) => {
                return Err(e);
            },
        };
        assert(s.skip(1).skip(4) =~= s.skip(5));
        // Base VID (12 bits) + SPVID (12 bits).
        let vids: u32 = match buf.try_get_u24() {
            Ok(v) => v,
            Err(e) => {
                return Err(e);
            },
        };
        proof {
            assert(s.skip(1).take(4) =~= s.take(8).subrange(1, 5));
            assert(s.skip(5).take(3) =~= s.take(8).subrange(5, 8));
            assert(s.skip(5).skip(3) =~= s.skip(8));
            lemma_number_of_three(s.skip(5).take(3));
        }
        Ok(
            VlanIdTuple {
                flags: VlanIdTupleFlags::from_bits_truncate(bits),
                ect_algorithm,
                base_vid: (vids / 0x1000) as u16,
                spvid: (vids % 0x1000) as u16,
            },
        )
    }

    fn encode(&self, buf: &mut Vec<u8>) {
        let ghost before = buf@;
        buf.push(self.flags.bits());
        put_u32(buf, self.ect_algorithm);
        put_u24(buf, (self.base_vid % 0x1000) as u32 * 0x1000 + (self.spvid % 0x1000) as u32);
        assert(buf@ =~= before + self.bytes());
    }
}

/// SPB Instance (SPB-Inst) Sub-TLV.
///
/// Defined in RFC 6329, Section 14.1. It carries this node's SPSourceID (the
/// 20-bit value used to build multicast destination addresses) along with its
/// Bridge Priority and the ECT-ALGORITHM/Base VID tuples that define its tree
/// sets.
///
/// This Sub-TLV MUST be carried within the MT-Capability TLV in the fragment
/// ZERO LSP, and each additional SPB instance MUST be declared under a
/// separate MT-Capability TLV that is also carried in fragment zero.
///
/// Format:
/// ```text
///  0                   1                   2                   3
///  0 1 2 3 4 5 6 7 8 9 0 1 2 3 4 5 6 7 8 9 0 1 2 3 4 5 6 7 8 9 0 1
/// +-+-+-+-+-+-+-+-+-+-+-+-+-+-+-+-+-+-+-+-+-+-+-+-+-+-+-+-+-+-+-+-+
/// |               CIST Root Identifier  (8 bytes)                 |
/// +-+-+-+-+-+-+-+-+-+-+-+-+-+-+-+-+-+-+-+-+-+-+-+-+-+-+-+-+-+-+-+-+
/// |           CIST External Root Path Cost     (4 bytes)          |
/// +-+-+-+-+-+-+-+-+-+-+-+-+-+-+-+-+-+-+-+-+-+-+-+-+-+-+-+-+-+-+-+-+
/// |        Bridge Priority        |
/// +-+-+-+-+-+-+-+-+-+-+-+-+-+-+-+-+-+-+-+-+-+-+-+-+-+-+-+-+-+-+-+-+
/// |R R R R R R R R R R R|V|              SPSourceID               |
/// +-+-+-+-+-+-+-+-+-+-+-+-+-+-+-+-+-+-+-+-+-+-+-+-+-+-+-+-+-+-+-+-+
/// | Num of Trees  |
/// +-+-+-+-+-+-+-+-+-+-+-+-+-+-+-+-+-+-+-+-+-+-+-+-+-+-+-+-+-+-+-+-+
/// |                  VLAN-ID Tuples    (8 bytes each)             |
/// +-+-+-+-+-+-+-+-+-+-+-+-+-+-+-+-+-+-+-+-+-+-+-+-+-+-+-+-+-+-+-+-+
/// ```
#[derive(Clone, Debug, PartialEq)]
pub struct SpbInstStlv {
    /// CIST Root Identifier (8 bytes).
    pub cist_root_id: u64,
    /// CIST External Root Path Cost.
    pub cist_ext_root_path_cost: u32,
    /// Bridge Priority, the high-order half of the BridgeID.
    pub bridge_priority: u16,
    /// The V bit: the SPSourceID was auto-allocated rather than configured.
    pub spsource_id_auto: bool,
    /// 20-bit SPSourceID. The value 0 means dynamic assignment has been
    /// requested but has not yet completed.
    pub spsource_id: u32,
    /// VLAN-ID tuples, one per tree set.
    pub vlan_id_tuples: Vec<VlanIdTuple>,
}

impl SpbInstStlv {
    /// The V bit within the 32-bit reserved/V/SPSourceID field, just above the
    /// 20 bits of the SPSourceID.
    pub const SPSOURCE_ID_AUTO: u32 = 0x0010_0000;

    /// CIST Root Id (8) + CIST cost (4) + priority (2) + SPSourceID word (4)
    /// + Num of Trees (1) = 19 bytes minimum.
    pub const MIN_SIZE: usize = 19;

    /// Each VLAN-ID tuple is 8 bytes.
    pub const TUPLE_SIZE: usize = 8;

    pub fn new(
        cist_root_id: u64,
        cist_ext_root_path_cost: u32,
        bridge_priority: u16,
        spsource_id_auto: bool,
        spsource_id: u32,
        vlan_id_tuples: Vec<VlanIdTuple>,
    ) -> (stlv: Self)
        ensures
            stlv == (SpbInstStlv {
                cist_root_id,
                cist_ext_root_path_cost,
                bridge_priority,
                spsource_id_auto,
                spsource_id,
                vlan_id_tuples,
            }),
    {
        SpbInstStlv {
            cist_root_id,
            cist_ext_root_path_cost,
            bridge_priority,
            spsource_id_auto,
            spsource_id,
            vlan_id_tuples,
        }
    }

    /// What is written before the tuples.
    pub open spec fn head(self) -> Seq<u8> {
        be64(self.cist_root_id as int) + be32(self.cist_ext_root_path_cost as int) + be16(self.bridge_priority as int) + be32(
            self.spsource_id as int % 0x10_0000 + bit_if(self.spsource_id_auto, 0x10_0000),
        ) + seq![(self.vlan_id_tuples@.len() % 0x100) as u8]
    }

    /// What is written after the header.
    pub open spec fn body(self) -> Seq<u8> {
        self.head() + records_bytes(self.vlan_id_tuples@)
    }

    /// The fields fit the bits that they are written to.
    pub open spec fn fits(self) -> bool {
        &&& self.spsource_id < 0x10_0000
        &&& self.body().len() < 0x100
        &&& forall|i: int| 0 <= i < self.vlan_id_tuples@.len() ==> (#[trigger] self.vlan_id_tuples@[i]).fits()
    }

    /// How many tuples a length stands for.
    pub open spec fn count(stlv_len: u8) -> int {
        (stlv_len - 19) / 8
    }

    /// Whether a length fits the Sub-TLV.
    pub open spec fn len_ok(stlv_len: u8) -> bool {
        stlv_len >= 19 && (stlv_len - 19) % 8 == 0
    }

    /// Whether the bytes can be decoded. The advertised tuple count must agree
    /// with the length; a mismatch means the sender and receiver disagree on
    /// the layout.
    pub open spec fn verdict(stlv_len: u8, s: Seq<u8>) -> Result<(), TlvDecodeError> {
        if !SpbInstStlv::len_ok(stlv_len) {
            Err(TlvDecodeError::InvalidLength(stlv_len))
        } else if s.len() < 19 {
            Err(TlvDecodeError::ReadOutOfBounds)
        } else if s[18] != SpbInstStlv::count(stlv_len) {
            Err(TlvDecodeError::InvalidLength(stlv_len))
        } else if s.len() < stlv_len {
            Err(TlvDecodeError::ReadOutOfBounds)
        } else {
            Ok(())
        }
    }

    /// How many bytes are read.
    pub open spec fn consumed(stlv_len: u8, s: Seq<u8>) -> int {
        if !SpbInstStlv::len_ok(stlv_len) || s.len() < 8 {
            0
        } else if s.len() < 12 {
            8
        } else if s.len() < 14 {
            12
        } else if s.len() < 18 {
            14
        } else if s.len() < 19 {
            18
        } else if s[18] != SpbInstStlv::count(stlv_len) {
            19
        } else if s.len() < stlv_len {
            19 + records_part::<VlanIdTuple>((s.len() - 19) as nat)
        } else {
            stlv_len as int
        }
    }

    /// The fields are what the bytes say.
    pub open spec fn reads(self, stlv_len: u8, s: Seq<u8>) -> bool {
        &&& self.cist_root_id == number_of(s.take(8))
        &&& self.cist_ext_root_path_cost == number_of(s.subrange(8, 12))
        &&& self.bridge_priority == number_of(s.subrange(12, 14))
        &&& self.spsource_id_auto == (number_of(s.subrange(14, 18)) / 0x10_0000 % 2 == 1)
        &&& self.spsource_id == number_of(s.subrange(14, 18)) % 0x10_0000
        &&& self.vlan_id_tuples@ == records_of::<VlanIdTuple>(s.skip(19), SpbInstStlv::count(stlv_len) as nat)
    }

    pub fn decode(stlv_len: u8, buf: &mut Bytes) -> (stlv: Result<Self, TlvDecodeError>)
        ensures
            match stlv {
                Ok(v) => SpbInstStlv::verdict(stlv_len, old(buf)@) is Ok && v.reads(stlv_len, old(buf)@),
                Err(e) => SpbInstStlv::verdict(stlv_len, old(buf)@) == Err::<(), TlvDecodeError>(e),
            },
            final(buf)@ == old(buf)@.skip(SpbInstStlv::consumed(stlv_len, old(buf)@)),
    {
        let ghost s = buf@;
        assert(s.skip(0) =~= s);
        // Validate minimum length and VLAN-ID tuple alignment.
        if stlv_len < 19 || (stlv_len - 19) % 8 != 0 {
            return Err(TlvDecodeError::InvalidLength(stlv_len));
        }
        let cist_root_id: u64 = match buf.try_get_u64() {
            Ok(v) => v,
            Err(e) => {
                return Err(e);
            },
        };
        let cist_ext_root_path_cost: u32 = match buf.try_get_u32() {
            Ok(v) => v,
            Err(e) => {
                return Err(e);
            },
        };
        assert(s.skip(8).skip(4) =~= s.skip(12));
        let bridge_priority: u16 = match buf.try_get_u16() {
            Ok(v) => v,
            Err(e) => {
                return Err(e);
            },
        };
        assert(s.skip(12).skip(2) =~= s.skip(14));
        // Reserved (11 bits) + V bit + SPSourceID (20 bits).
        let word: u32 = match buf.try_get_u32() {
            Ok(v) => v,
            Err(e) => {
                return Err(e);
            },
        };
        assert(s.skip(14).skip(4) =~= s.skip(18));
        let num_trees: u8 = match buf.try_get_u8() {
            Ok(v) => v,
            Err(e) => {
                return Err(e);
            },
        };
        proof {
            assert(s.skip(18).skip(1) =~= s.skip(19));
            assert(s.skip(8).take(4) =~= s.subrange(8, 12));
            assert(s.skip(12).take(2) =~= s.subrange(12, 14));
            assert(s.skip(14).take(4) =~= s.subrange(14, 18));
            assert(num_trees == s[18]);
        }
        let n: u8 = (stlv_len - 19) / 8;
        if num_trees != n {
            return Err(TlvDecodeError::InvalidLength(stlv_len));
        }
        match decode_records::<VlanIdTuple>(buf, n as usize) {
            Ok(vlan_id_tuples) => {
                assert(s.skip(19).skip(n * 8) =~= s.skip(stlv_len as int));
                Ok(
                    SpbInstStlv {
                        cist_root_id,
                        cist_ext_root_path_cost,
                        bridge_priority,
                        spsource_id_auto: word / Self::SPSOURCE_ID_AUTO % 2 == 1,
                        spsource_id: word % Self::SPSOURCE_ID_AUTO,
                        vlan_id_tuples,
                    },
                )
            },
            Err(e) => {
                proof {
                    let left = (s.len() - 19) as nat;
                    lemma_part_bound::<VlanIdTuple>(left, 8);
                    assert(s.skip(19).skip(records_part::<VlanIdTuple>(left)) =~= s.skip(
                        19 + records_part::<VlanIdTuple>(left),
                    ));
                }
                Err(e)
            },
        }
    }

    pub fn encode(&self, buf: &mut Vec<u8>)
        ensures
            final(buf)@ == old(buf)@ + tlv(STLV_SPB_INST, self.body()),
    {
        let mut body: Vec<u8> = Vec::new();
        put_u64(&mut body, self.cist_root_id);
        put_u32(&mut body, self.cist_ext_root_path_cost);
        put_u16(&mut body, self.bridge_priority);
        // Reserved (11 bits) + V bit + SPSourceID (20 bits).
        let mut word: u32 = self.spsource_id % Self::SPSOURCE_ID_AUTO;
        if self.spsource_id_auto {
            word = word + Self::SPSOURCE_ID_AUTO;
        }
        put_u32(&mut body, word);
        body.push((self.vlan_id_tuples.len() % 0x100) as u8);
        assert(body@ =~= self.head());
        encode_records(&mut body, &self.vlan_id_tuples);
        put_tlv(buf, STLV_SPB_INST, &body);
    }

    /// Returns how many bytes the Sub-TLV takes with its header.
    pub fn len(&self) -> (n: usize)
        requires
            21 + self.vlan_id_tuples@.len() * 8 <= usize::MAX,
        ensures
            n == tlv(STLV_SPB_INST, self.body()).len(),
    {
        proof {
            lemma_records_len(self.vlan_id_tuples@);
        }
        TLV_HDR_SIZE + Self::MIN_SIZE + self.vlan_id_tuples.len() * Self::TUPLE_SIZE
    }
}

/// An SPB-Inst whose fields fit is read as it was written, whatever follows.
pub proof fn spb_inst_round_trip(v: SpbInstStlv, w: SpbInstStlv, rest: Seq<u8>)
    requires
        v.fits(),
        w.reads(v.body().len() as u8, v.body() + rest),
    ensures
        SpbInstStlv::verdict(v.body().len() as u8, v.body() + rest) is Ok,
        w.cist_root_id == v.cist_root_id,
        w.cist_ext_root_path_cost == v.cist_ext_root_path_cost,
        w.bridge_priority == v.bridge_priority,
        w.spsource_id_auto == v.spsource_id_auto,
        w.spsource_id == v.spsource_id,
        w.vlan_id_tuples@ == v.vlan_id_tuples@,
{
    let list = records_bytes(v.vlan_id_tuples@);
    let word = v.spsource_id as int % 0x10_0000 + bit_if(v.spsource_id_auto, 0x10_0000);
    lemma_records_len(v.vlan_id_tuples@);
    let a = be64(v.cist_root_id as int);
    let b = be32(v.cist_ext_root_path_cost as int);
    let c = be16(v.bridge_priority as int);
    let d = be32(word);
    let n = (v.vlan_id_tuples@.len() % 0x100) as u8;
    lemma_inst_parts(a, b, c, d, n, list + rest);
    lemma_together(v.head(), list, rest);
    assert(v.body().len() == 19 + v.vlan_id_tuples@.len() * 8);
    lemma_be64(v.cist_root_id as int);
    lemma_be32(v.cist_ext_root_path_cost as int);
    lemma_be16(v.bridge_priority as int);
    lemma_be32(word);
    lemma_source_word(v.spsource_id as int, v.spsource_id_auto);
    lemma_records_prefix::<VlanIdTuple>(v.vlan_id_tuples@, rest);
}

/// The parts of an SPB-Inst.
proof fn lemma_inst_parts(a: Seq<u8>, b: Seq<u8>, c: Seq<u8>, d: Seq<u8>, n: u8, list: Seq<u8>)
    requires
        a.len() == 8,
        b.len() == 4,
        c.len() == 2,
        d.len() == 4,
    ensures
        (a + b + c + d + seq![n] + list).take(8) == a,
        (a + b + c + d + seq![n] + list).subrange(8, 12) == b,
        (a + b + c + d + seq![n] + list).subrange(12, 14) == c,
        (a + b + c + d + seq![n] + list).subrange(14, 18) == d,
        (a + b + c + d + seq![n] + list)[18] == n,
        (a + b + c + d + seq![n] + list).skip(19) == list,
{
    let s = a + b + c + d + seq![n] + list;
    assert(s.take(8) =~= a);
    assert(s.subrange(8, 12) =~= b);
    assert(s.subrange(12, 14) =~= c);
    assert(s.subrange(14, 18) =~= d);
    assert(s.skip(19) =~= list);
}

/// The SPSourceID and the V bit share a word.
proof fn lemma_source_word(spsource_id: int, dynamic: bool)
    requires
        0 <= spsource_id < 0x10_0000,
    ensures
        0 <= spsource_id % 0x10_0000 + bit_if(dynamic, 0x10_0000) < 0x20_0000,
        (spsource_id % 0x10_0000 + bit_if(dynamic, 0x10_0000)) % 0x10_0000 == spsource_id,
        ((spsource_id % 0x10_0000 + bit_if(dynamic, 0x10_0000)) / 0x10_0000 % 2 == 1) == dynamic,
{
}

// ===== SPB-Metric =====

/// SPB Link Metric (SPB-Metric) Sub-TLV.
///
/// Defined in RFC 6329, Section 15.1. It occurs within the Extended IS
/// Reachability TLV (type 22) or the MT-ISN TLV (type 222).
///
/// If this Sub-TLV is not present for an IS-IS adjacency, then that adjacency
/// must not carry SPB traffic for the topology instance. SPB path computation
/// uses the *maximum* of the two nodes' advertised metrics, which is what
/// makes paths symmetric when the two ends are configured differently.
///
/// Format:
/// ```text
///  0                   1                   2                   3
///  0 1 2 3 4 5 6 7 8 9 0 1 2 3 4 5 6 7 8 9 0 1 2 3 4 5 6 7 8 9 0 1
/// +-+-+-+-+-+-+-+-+-+-+-+-+-+-+-+-+-+-+-+-+-+-+-+-+
/// |       SPB-LINK-METRIC                         |   (3 bytes)
/// +-+-+-+-+-+-+-+-+-+-+-+-+-+-+-+-+-+-+-+-+-+-+-+-+
/// | Num of Ports    |     (1 byte)
/// +-+-+-+-+-+-+-+-+-+-+-+-+-+-+-+-+
/// |      Port Identifier          |   (2 bytes each)
/// +-+-+-+-+-+-+-+-+-+-+-+-+-+-+-+-+
/// ```
#[derive(Clone, Debug, PartialEq)]
pub struct SpbMetricStlv {
    /// 24-bit SPB link metric.
    pub metric: u32,
    /// Port identifiers associated with this adjacency.
    pub port_ids: Vec<u16>,
}

impl SpbMetricStlv {
    /// Metric (3) + Num of Ports (1) = 4 bytes minimum.
    pub const MIN_SIZE: usize = 4;

    /// Each port identifier is 2 bytes.
    pub const PORT_ID_SIZE: usize = 2;

    pub fn new(metric: u32, port_ids: Vec<u16>) -> (stlv: Self)
        ensures
            stlv == (SpbMetricStlv { metric, port_ids }),
    {
        SpbMetricStlv { metric, port_ids }
    }

    /// What is written after the header.
    pub open spec fn body(self) -> Seq<u8> {
        be24(self.metric as int) + seq![(self.port_ids@.len() % 0x100) as u8] + records_bytes(self.port_ids@)
    }

    /// The fields fit the bits that they are written to.
    pub open spec fn fits(self) -> bool {
        &&& self.metric < 0x100_0000
        &&& self.body().len() < 0x100
    }

    /// How many port identifiers a length stands for.
    pub open spec fn count(stlv_len: u8) -> int {
        (stlv_len - 4) / 2
    }

    /// Whether a length fits the Sub-TLV.
    pub open spec fn len_ok(stlv_len: u8) -> bool {
        stlv_len >= 4 && (stlv_len - 4) % 2 == 0
    }

    /// Whether the bytes can be decoded. A declared count that disagrees with
    /// the length means the layout is not understood.
    pub open spec fn verdict(stlv_len: u8, s: Seq<u8>) -> Result<(), TlvDecodeError> {
        if !SpbMetricStlv::len_ok(stlv_len) {
            Err(TlvDecodeError::InvalidLength(stlv_len))
        } else if s.len() < 4 {
            Err(TlvDecodeError::ReadOutOfBounds)
        } else if s[3] != SpbMetricStlv::count(stlv_len) {
            Err(TlvDecodeError::InvalidLength(stlv_len))
        } else if s.len() < stlv_len {
            Err(TlvDecodeError::ReadOutOfBounds)
        } else {
            Ok(())
        }
    }

    /// How many bytes are read.
    pub open spec fn consumed(stlv_len: u8, s: Seq<u8>) -> int {
        if !SpbMetricStlv::len_ok(stlv_len) || s.len() < 3 {
            0
        } else if s.len() < 4 {
            3
        } else if s[3] != SpbMetricStlv::count(stlv_len) {
            4
        } else if s.len() < stlv_len {
            4 + records_part::<u16>((s.len() - 4) as nat)
        } else {
            stlv_len as int
        }
    }

    /// The fields are what the bytes say.
    pub open spec fn reads(self, stlv_len: u8, s: Seq<u8>) -> bool {
        &&& self.metric == number_of(s.take(3))
        &&& self.port_ids@ == records_of::<u16>(s.skip(4), SpbMetricStlv::count(stlv_len) as nat)
    }

    pub fn decode(stlv_len: u8, buf: &mut Bytes) -> (stlv: Result<Self, TlvDecodeError>)
        ensures
            match stlv {
                Ok(v) => SpbMetricStlv::verdict(stlv_len, old(buf)@) is Ok && v.reads(stlv_len, old(buf)@),
                Err(e) => SpbMetricStlv::verdict(stlv_len, old(buf)@) == Err::<(), TlvDecodeError>(e),
            },
            final(buf)@ == old(buf)@.skip(SpbMetricStlv::consumed(stlv_len, old(buf)@)),
    {
        let ghost s = buf@;
        assert(s.skip(0) =~= s);
        if stlv_len < 4 || (stlv_len - 4) % 2 != 0 {
            return Err(TlvDecodeError::InvalidLength(stlv_len));
        }
        let metric: u32 = match buf.try_get_u24() {
            Ok(v) => v,
            Err(e) => {
                return Err(e);
            },
        };
        let num_ports: u8 = match buf.try_get_u8() {
            Ok(v) => v,
            Err(e) => {
                return Err(e);
            },
        };
        proof {
            assert(s.skip(3).skip(1) =~= s.skip(4));
            assert(num_ports == s[3]);
        }
        let n: u8 = (stlv_len - 4) / 2;
        if num_ports != n {
            return Err(TlvDecodeError::InvalidLength(stlv_len));
        }
        match decode_records::<u16>(buf, n as usize) {
            Ok(port_ids) => {
                assert(s.skip(4).skip(n * 2) =~= s.skip(stlv_len as int));
                Ok(SpbMetricStlv { metric, port_ids })
            },
            Err(e) => {
                proof {
                    let left = (s.len() - 4) as nat;
                    lemma_part_bound::<u16>(left, 2);
                    assert(s.skip(4).skip(records_part::<u16>(left)) =~= s.skip(4 + records_part::<u16>(left)));
                }
                Err(e)
            },
        }
    }

    pub fn encode(&self, buf: &mut Vec<u8>)
        ensures
            final(buf)@ == old(buf)@ + tlv(STLV_SPB_METRIC, self.body()),
    {
        let mut body: Vec<u8> = Vec::new();
        put_u24(&mut body, self.metric);
        body.push((self.port_ids.len() % 0x100) as u8);
        encode_records(&mut body, &self.port_ids);
        assert(body@ =~= self.body());
        put_tlv(buf, STLV_SPB_METRIC, &body);
    }

    /// Returns how many bytes the Sub-TLV takes with its header.
    pub fn len(&self) -> (n: usize)
        requires
            6 + self.port_ids@.len() * 2 <= usize::MAX,
        ensures
            n == tlv(STLV_SPB_METRIC, self.body()).len(),
    {
        proof {
            lemma_records_len(self.port_ids@);
        }
        TLV_HDR_SIZE + Self::MIN_SIZE + self.port_ids.len() * Self::PORT_ID_SIZE
    }
}

/// An SPB-Metric whose fields fit is read as it was written, whatever follows.
pub proof fn spb_metric_round_trip(v: SpbMetricStlv, w: SpbMetricStlv, rest: Seq<u8>)
    requires
        v.fits(),
        w.reads(v.body().len() as u8, v.body() + rest),
    ensures
        SpbMetricStlv::verdict(v.body().len() as u8, v.body() + rest) is Ok,
        w.metric == v.metric,
        w.port_ids@ == v.port_ids@,
{
    let s = v.body() + rest;
    lemma_records_len(v.port_ids@);
    assert(v.body().len() == 4 + v.port_ids@.len() * 2);
    assert(s.take(3) =~= be24(v.metric as int));
    assert(s[3] == v.port_ids@.len());
    lemma_be24(v.metric as int);
    lemma_records_prefix::<u16>(v.port_ids@, rest);
    assert(s.skip(4) =~= records_bytes(v.port_ids@) + rest);
}

// ===== SPB-B-VID =====

/// Flags for ECT-VID tuples.
#[derive(Clone, Copy, Debug, Default, Eq, PartialEq, Structural)]
pub struct EctVidFlags {
    /// Use bit: this bridge, or any bridge in the LSDB, is currently using
    /// this ECT-ALGORITHM and Base VID.
    pub u: bool,
    /// Multicast bit: this Base VID carries multicast.
    pub m: bool,
}

impl EctVidFlags {
    /// The flags that a byte holds; its other bits are reserved.
    pub open spec fn of_byte(byte: u8) -> EctVidFlags {
        EctVidFlags { u: has_bit(byte, 0x08), m: has_bit(byte, 0x04) }
    }

    /// The byte that holds the flags.
    pub open spec fn byte(self) -> int {
        bit_if(self.u, 0x08) + bit_if(self.m, 0x04)
    }

    pub fn from_bits_truncate(bits: u8) -> (flags: Self)
        ensures
            flags == EctVidFlags::of_byte(bits),
    {
        EctVidFlags { u: bits / 0x08 % 2 == 1, m: bits / 0x04 % 2 == 1 }
    }

    pub fn bits(&self) -> (bits: u8)
        ensures
            bits == self.byte(),
    {
        let mut bits: u8 = 0;
        if self.u {
            bits = bits + 0x08;
        }
        if self.m {
            bits = bits + 0x04;
        }
        bits
    }
}

/// An ECT-VID tuple within the SPB-B-VID Sub-TLV.
#[derive(Clone, Copy, Debug, PartialEq, Structural)]
pub struct EctVidTuple {
    /// ECT-ALGORITHM: an OUI in the top 24 bits, an index in the low 8.
    pub ect_algorithm: u32,
    /// Base VID associated with the SPT Set.
    pub base_vid: u16,
    /// U (Use) and M (Multicast) bits.
    pub flags: EctVidFlags,
}

impl EctVidTuple {
    pub fn new(ect_algorithm: u32, base_vid: u16, flags: EctVidFlags) -> (tuple: Self)
        ensures
            tuple == (EctVidTuple { ect_algorithm, base_vid, flags }),
    {
        EctVidTuple { ect_algorithm, base_vid, flags }
    }
}

impl Record for EctVidTuple {
    open spec fn width() -> nat {
        6
    }

    open spec fn of(bytes: Seq<u8>) -> EctVidTuple {
        EctVidTuple {
            ect_algorithm: number_of(bytes.subrange(0, 4)) as u32,
            base_vid: (number_of(bytes.subrange(4, 6)) / 0x10) as u16,
            flags: EctVidFlags::of_byte((number_of(bytes.subrange(4, 6)) % 0x10) as u8),
        }
    }

    open spec fn bytes(self) -> Seq<u8> {
        be32(self.ect_algorithm as int) + be16(self.base_vid as int % 0x1000 * 0x10 + self.flags.byte())
    }

    open spec fn fits(self) -> bool {
        self.base_vid < 0x1000
    }

    open spec fn part(n: nat) -> nat {
        if n < 4 {
            0
        } else {
            4
        }
    }

    proof fn lemma_record(self) {
        if self.fits() {
            let raw = self.base_vid * 0x10 + self.flags.byte();
            lemma_be32(self.ect_algorithm as int);
            lemma_be16(raw);
            assert(self.bytes().subrange(0, 4) =~= be32(self.ect_algorithm as int));
            assert(self.bytes().subrange(4, 6) =~= be16(raw));
        }
    }

    fn decode(buf: &mut Bytes) -> (entry: Result<EctVidTuple, TlvDecodeError>) {
        let ghost s = buf@;
        assert(s.skip(0) =~= s);
        let ect_algorithm: u32 = match buf.try_get_u32() {
            Ok(v) => v,
            Err(e) => {
                return Err(e);
            },
        };
        // Base VID (12 bits) + U + M + Reserved (2 bits).
        let raw: u16 = match buf.try_get_u16() {
            Ok(v) => v,
            Err(e) => {
                return Err(e);
            },
        };
        proof {
            assert(s.take(4) =~= s.take(6).subrange(0, 4));
            assert(s.skip(4).take(2) =~= s.take(6).subrange(4, 6));
            assert(s.skip(4).skip(2) =~= s.skip(6));
        }
        Ok(
            EctVidTuple {
                ect_algorithm,
                base_vid: raw / 0x10,
                flags: EctVidFlags::from_bits_truncate((raw % 0x10) as u8),
            },
        )
    }

    fn encode(&self, buf: &mut Vec<u8>) {
        let ghost before = buf@;
        put_u32(buf, self.ect_algorithm);
        put_u16(buf, self.base_vid % 0x1000 * 0x10 + self.flags.bits() as u16);
        assert(buf@ =~= before + self.bytes());
    }
}

/// SPB Base VLAN Identifiers (SPB-B-VID) Sub-TLV.
///
/// Defined in RFC 6329, Section 13.3. Carried in an MT-Port-Cap TLV in IIH
/// PDUs to advertise the mappings between ECT algorithms and Base VIDs that
/// are in use. Under stable conditions this should be identical on every
/// bridge in the topology, so a mismatch is a configuration error worth
/// surfacing.
///
/// Format: a sequence of 6-byte ECT-VID tuples.
/// ```text
///  0                   1                   2                   3
///  0 1 2 3 4 5 6 7 8 9 0 1 2 3 4 5 6 7 8 9 0 1 2 3 4 5 6 7 8 9 0 1
/// +-+-+-+-+-+-+-+-+-+-+-+-+-+-+-+-+-+-+-+-+-+-+-+-+-+-+-+-+-+-+-+-+
/// |                       ECT-ALGORITHM (32 bits)                 |
/// +-+-+-+-+-+-+-+-+-+-+-+-+-+-+-+-+-+-+-+-+-+-+-+-+-+-+-+-+-+-+-+-+
/// | Base VID (12 bits)    |U|M|RES|
/// +-+-+-+-+-+-+-+-+-+-+-+-+-+-+-+-+
/// ```
///
/// Note that the ASCII art in the RFC mislabels the Sub-TLV type as 68; both
/// the normative text and the IANA table give 6.
#[derive(Clone, Debug, PartialEq)]
pub struct SpbBVidStlv {
    /// ECT algorithm and Base VID pairs supported on this port.
    pub ect_vid_tuples: Vec<EctVidTuple>,
}

impl SpbBVidStlv {
    /// Each ECT-VID tuple is 6 bytes.
    pub const TUPLE_SIZE: usize = 6;

    pub fn new(ect_vid_tuples: Vec<EctVidTuple>) -> (stlv: Self)
        ensures
            stlv == (SpbBVidStlv { ect_vid_tuples }),
    {
        SpbBVidStlv { ect_vid_tuples }
    }

    /// What is written after the header.
    pub open spec fn body(self) -> Seq<u8> {
        records_bytes(self.ect_vid_tuples@)
    }

    /// The fields fit the bits that they are written to.
    pub open spec fn fits(self) -> bool {
        &&& self.body().len() < 0x100
        &&& forall|i: int| 0 <= i < self.ect_vid_tuples@.len() ==> (#[trigger] self.ect_vid_tuples@[i]).fits()
    }

    /// Whether the bytes can be decoded.
    pub open spec fn verdict(stlv_len: u8, s: Seq<u8>) -> Result<(), TlvDecodeError> {
        if stlv_len as int % 6 != 0 {
            Err(TlvDecodeError::InvalidLength(stlv_len))
        } else if s.len() < stlv_len {
            Err(TlvDecodeError::ReadOutOfBounds)
        } else {
            Ok(())
        }
    }

    /// How many bytes are read.
    pub open spec fn consumed(stlv_len: u8, s: Seq<u8>) -> int {
        if stlv_len as int % 6 != 0 {
            0
        } else if s.len() < stlv_len {
            records_part::<EctVidTuple>(s.len())
        } else {
            stlv_len as int
        }
    }

    /// The tuples are what the bytes say.
    pub open spec fn reads(self, stlv_len: u8, s: Seq<u8>) -> bool {
        self.ect_vid_tuples@ == records_of::<EctVidTuple>(s, (stlv_len as int / 6) as nat)
    }

    pub fn decode(stlv_len: u8, buf: &mut Bytes) -> (stlv: Result<Self, TlvDecodeError>)
        ensures
            match stlv {
                Ok(v) => SpbBVidStlv::verdict(stlv_len, old(buf)@) is Ok && v.reads(stlv_len, old(buf)@),
                Err(e) => SpbBVidStlv::verdict(stlv_len, old(buf)@) == Err::<(), TlvDecodeError>(e),
            },
            final(buf)@ == old(buf)@.skip(SpbBVidStlv::consumed(stlv_len, old(buf)@)),
    {
        let ghost s = buf@;
        assert(s.skip(0) =~= s);
        if stlv_len % 6 != 0 {
            return Err(TlvDecodeError::InvalidLength(stlv_len));
        }
        let n: u8 = stlv_len / 6;
        match decode_records::<EctVidTuple>(buf, n as usize) {
            Ok(ect_vid_tuples) => Ok(SpbBVidStlv { ect_vid_tuples }),
            Err(e) => Err(e),
        }
    }

    pub fn encode(&self, buf: &mut Vec<u8>)
        ensures
            final(buf)@ == old(buf)@ + tlv(STLV_SPB_B_VID, self.body()),
    {
        let mut body: Vec<u8> = Vec::new();
        encode_records(&mut body, &self.ect_vid_tuples);
        assert(body@ =~= self.body());
        put_tlv(buf, STLV_SPB_B_VID, &body);
    }

    /// Returns how many bytes the Sub-TLV takes with its header.
    pub fn len(&self) -> (n: usize)
        requires
            2 + self.ect_vid_tuples@.len() * 6 <= usize::MAX,
        ensures
            n == tlv(STLV_SPB_B_VID, self.body()).len(),
    {
        proof {
            lemma_records_len(self.ect_vid_tuples@);
        }
        TLV_HDR_SIZE + self.ect_vid_tuples.len() * Self::TUPLE_SIZE
    }
}

/// An SPB-B-VID whose fields fit is read as it was written, whatever follows.
pub proof fn spb_b_vid_round_trip(v: SpbBVidStlv, w: SpbBVidStlv, rest: Seq<u8>)
    requires
        v.fits(),
        w.reads(v.body().len() as u8, v.body() + rest),
    ensures
        SpbBVidStlv::verdict(v.body().len() as u8, v.body() + rest) is Ok,
        w.ect_vid_tuples@ == v.ect_vid_tuples@,
{
    lemma_records_len(v.ect_vid_tuples@);
    assert(v.body().len() == v.ect_vid_tuples@.len() * 6);
    lemma_records_prefix::<EctVidTuple>(v.ect_vid_tuples@, rest);
}

// ===== SPB-Digest =====

/// SPB Agreement Digest (SPB-Digest) Sub-TLV.
///
/// Defined in RFC 6329, Section 13.2 and carried in an MT-Port-Cap TLV in
/// IIH PDUs. Matching digests mean the two ends of an adjacency agree on the
/// topology, which is what gates updates to multicast forwarding.
///
/// Format:
/// ```text
///  0                   1                   2                   3
///  0 1 2 3 4 5 6 7 8 9 0 1 2 3 4 5 6 7 8 9 0 1 2 3 4 5 6 7 8 9 0 1
/// +-----+-+---+---+
/// | Res |V| A | D | (1 byte)
/// +-+-+-+-+-+-+-+-+-+-+-+-+-+-+...+-+-+-+-+-+-+-+-+-+-+-+-+-+-+-+-+
/// |               Agreement Digest (Length - 1)                   |
/// +-+-+-+-+-+-+-+-+-+-+-+-+-+-+...+-+-+-+-+-+-+-+-+-+-+-+-+-+-+-+-+
/// ```
#[derive(Clone, Debug, PartialEq)]
pub struct SpbDigestStlv {
    /// V bit: the advertised digest is meaningful.
    pub valid: bool,
    /// Agreement Number (2 bits).
    pub agreement: u8,
    /// Discarded Agreement Number (2 bits).
    pub discarded: u8,
    /// The digest itself. Its length is not fixed by the RFC, since the
    /// computation is defined by IEEE 802.1aq.
    pub digest: Vec<u8>,
}

impl SpbDigestStlv {
    /// The flags byte; the digest follows it.
    pub const MIN_SIZE: usize = 1;

    pub fn new(valid: bool, agreement: u8, discarded: u8, digest: Vec<u8>) -> (stlv: Self)
        ensures
            stlv == (SpbDigestStlv { valid, agreement, discarded, digest }),
    {
        SpbDigestStlv { valid, agreement, discarded, digest }
    }

    /// What is written after the header.
    pub open spec fn body(self) -> Seq<u8> {
        seq![(bit_if(self.valid, 0x10) + self.agreement as int % 4 * 4 + self.discarded as int % 4) as u8] + self.digest@
    }

    /// The fields fit the bits that they are written to.
    pub open spec fn fits(self) -> bool {
        self.agreement < 4 && self.discarded < 4 && self.body().len() < 0x100
    }

    /// Whether the bytes can be decoded.
    pub open spec fn verdict(stlv_len: u8, s: Seq<u8>) -> Result<(), TlvDecodeError> {
        if stlv_len < 1 {
            Err(TlvDecodeError::InvalidLength(stlv_len))
        } else if s.len() < stlv_len {
            Err(TlvDecodeError::ReadOutOfBounds)
        } else {
            Ok(())
        }
    }

    /// How many bytes are read.
    pub open spec fn consumed(stlv_len: u8, s: Seq<u8>) -> int {
        if s.len() >= stlv_len {
            stlv_len as int
        } else if s.len() >= 1 {
            1
        } else {
            0
        }
    }

    /// The fields are what the bytes say.
    pub open spec fn reads(self, stlv_len: u8, s: Seq<u8>) -> bool {
        &&& self.valid == has_bit(s[0], 0x10)
        &&& self.agreement == s[0] as int / 4 % 4
        &&& self.discarded == s[0] as int % 4
        &&& self.digest@ == s.subrange(1, stlv_len as int)
    }

    pub fn decode(stlv_len: u8, buf: &mut Bytes) -> (stlv: Result<Self, TlvDecodeError>)
        ensures
            match stlv {
                Ok(v) => SpbDigestStlv::verdict(stlv_len, old(buf)@) is Ok && v.reads(stlv_len, old(buf)@),
                Err(e) => SpbDigestStlv::verdict(stlv_len, old(buf)@) == Err::<(), TlvDecodeError>(e),
            },
            final(buf)@ == old(buf)@.skip(SpbDigestStlv::consumed(stlv_len, old(buf)@)),
    {
        let ghost s = buf@;
        assert(s.skip(0) =~= s);
        if stlv_len < 1 {
            return Err(TlvDecodeError::InvalidLength(stlv_len));
        }
        let flags: u8 = match buf.try_get_u8() {
            Ok(v) => v,
            Err(e) => {
                return Err(e);
            },
        };
        let digest = match buf.try_copy_to_bytes(stlv_len as usize - Self::MIN_SIZE) {
            Ok(v) => v,
            Err(e) => {
                return Err(e);
            },
        };
        proof {
            assert(s.skip(1).take(stlv_len - 1) =~= s.subrange(1, stlv_len as int));
            assert(s.skip(1).skip(stlv_len - 1) =~= s.skip(stlv_len as int));
        }
        Ok(SpbDigestStlv { valid: flags / 0x10 % 2 == 1, agreement: flags / 4 % 4, discarded: flags % 4, digest })
    }

    pub fn encode(&self, buf: &mut Vec<u8>)
        ensures
            final(buf)@ == old(buf)@ + tlv(STLV_SPB_DIGEST, self.body()),
    {
        let mut body: Vec<u8> = Vec::new();
        let mut flags: u8 = self.agreement % 4 * 4 + self.discarded % 4;
        if self.valid {
            flags = flags + 0x10;
        }
        body.push(flags);
        put_bytes(&mut body, &self.digest);
        assert(body@ =~= self.body());
        put_tlv(buf, STLV_SPB_DIGEST, &body);
    }

    /// Returns how many bytes the Sub-TLV takes with its header.
    pub fn len(&self) -> (n: usize)
        requires
            3 + self.digest@.len() <= usize::MAX,
        ensures
            n == tlv(STLV_SPB_DIGEST, self.body()).len(),
    {
        TLV_HDR_SIZE + Self::MIN_SIZE + self.digest.len()
    }
}

/// An SPB-Digest whose fields fit is read as it was written, whatever follows.
pub proof fn spb_digest_round_trip(v: SpbDigestStlv, w: SpbDigestStlv, rest: Seq<u8>)
    requires
        v.fits(),
        w.reads(v.body().len() as u8, v.body() + rest),
    ensures
        SpbDigestStlv::verdict(v.body().len() as u8, v.body() + rest) is Ok,
        w.valid == v.valid,
        w.agreement == v.agreement,
        w.discarded == v.discarded,
        w.digest@ == v.digest@,
{
    let s = v.body() + rest;
    assert(s.subrange(1, v.body().len() as int) =~= v.digest@);
    assert(s[0] == bit_if(v.valid, 0x10) + v.agreement * 4 + v.discarded);
}

// ===== SPB-MCID =====

/// SPB Multiple Spanning Tree Configuration Identifier (SPB-MCID) Sub-TLV.
///
/// Defined in RFC 6329, Section 13.1 and carried in an MT-Port-Cap TLV in
/// IIH PDUs. It identifies the SPT Region by its VID allocation, and must be
/// identical on every bridge in a region.
///
/// Two MCIDs are carried so that a change which does not affect forwarding
/// can be rolled through a region without disrupting it: a bridge advertises
/// the new one as its MCID and the old one as the auxiliary, and neighbours
/// accept either.
///
/// The 51-byte MCID structure is defined in IEEE 802.1Q, not in RFC 6329, so
/// it is carried here as opaque bytes.
#[derive(Clone, Debug, PartialEq)]
pub struct SpbMcidStlv {
    /// The region's configuration identifier.
    pub mcid: [u8; 51],
    /// The identifier being migrated away from.
    pub aux_mcid: [u8; 51],
}

/// A name in a field of 32 bytes: a shorter one is padded with zeroes and a
/// longer one is truncated.
pub open spec fn name_field(name: Seq<u8>) -> Seq<u8> {
    Seq::new(
        32,
        |i: int|
            if i < name.len() {
                name[i]
            } else {
                0u8
            },
    )
}

/// The MCID of a configuration: a one-byte format selector of 0, a 32-byte
/// name, a two-byte revision level and a 16-byte digest.
pub open spec fn mcid_of(name: Seq<u8>, revision: u16, digest: Seq<u8>) -> Seq<u8> {
    seq![0u8] + name_field(name) + be16(revision as int) + digest
}

/// Returns an MCID from its bytes.
fn mcid_from(bytes: &Vec<u8>) -> (mcid: [u8; 51])
    requires
        bytes@.len() == 51,
    ensures
        mcid@ == bytes@,
{
    let mut mcid: [u8; 51] = [0u8; 51];
    for i in 0..51
        invariant
            bytes@.len() == 51,
            forall|j: int| 0 <= j < i ==> mcid@[j] == bytes@[j],
    {
        mcid[i] = bytes[i];
    }
    assert(mcid@ =~= bytes@);
    mcid
}

/// Returns whether two MCIDs are the same.
fn same_mcid(a: &[u8; 51], b: &[u8; 51]) -> (r: bool)
    ensures
        r == (a@ == b@),
{
    for i in 0..51
        invariant
            forall|j: int| 0 <= j < i ==> a@[j] == b@[j],
    {
        if a[i] != b[i] {
            return false;
        }
    }
    assert(a@ =~= b@);
    true
}

impl SpbMcidStlv {
    /// Length of one MCID, per IEEE 802.1Q.
    pub const MCID_LEN: usize = 51;

    /// The Sub-TLV carries exactly two of them and nothing else.
    pub const SIZE: usize = 102;

    pub fn new(mcid: [u8; 51], aux_mcid: [u8; 51]) -> (stlv: Self)
        ensures
            stlv == (SpbMcidStlv { mcid, aux_mcid }),
    {
        SpbMcidStlv { mcid, aux_mcid }
    }

    /// What is written after the header.
    pub open spec fn body(self) -> Seq<u8> {
        self.mcid@ + self.aux_mcid@
    }

    /// Whether the bytes can be decoded. The length is fixed, so anything else
    /// is a malformed Sub-TLV rather than an extension to skip over.
    pub open spec fn verdict(stlv_len: u8, s: Seq<u8>) -> Result<(), TlvDecodeError> {
        if stlv_len != 102 {
            Err(TlvDecodeError::InvalidLength(stlv_len))
        } else if s.len() < 102 {
            Err(TlvDecodeError::ReadOutOfBounds)
        } else {
            Ok(())
        }
    }

    /// How many bytes are read.
    pub open spec fn consumed(stlv_len: u8, s: Seq<u8>) -> int {
        if stlv_len != 102 || s.len() < 51 {
            0
        } else if s.len() < 102 {
            51
        } else {
            102
        }
    }

    /// The fields are what the bytes say.
    pub open spec fn reads(self, s: Seq<u8>) -> bool {
        self.mcid@ == s.take(51) && self.aux_mcid@ == s.subrange(51, 102)
    }

    pub fn decode(stlv_len: u8, buf: &mut Bytes) -> (stlv: Result<Self, TlvDecodeError>)
        ensures
            match stlv {
                Ok(v) => SpbMcidStlv::verdict(stlv_len, old(buf)@) is Ok && v.reads(old(buf)@),
                Err(e) => SpbMcidStlv::verdict(stlv_len, old(buf)@) == Err::<(), TlvDecodeError>(e),
            },
            final(buf)@ == old(buf)@.skip(SpbMcidStlv::consumed(stlv_len, old(buf)@)),
    {
        let ghost s = buf@;
        assert(s.skip(0) =~= s);
        if stlv_len as usize != Self::SIZE {
            return Err(TlvDecodeError::InvalidLength(stlv_len));
        }
        let first = match buf.try_copy_to_bytes(Self::MCID_LEN) {
            Ok(v) => v,
            Err(e) => {
                return Err(e);
            },
        };
        let second = match buf.try_copy_to_bytes(Self::MCID_LEN) {
            Ok(v) => v,
            Err(e) => {
                return Err(e);
            },
        };
        proof {
            assert(s.skip(51).take(51) =~= s.subrange(51, 102));
            assert(s.skip(51).skip(51) =~= s.skip(102));
        }
        Ok(SpbMcidStlv { mcid: mcid_from(&first), aux_mcid: mcid_from(&second) })
    }

    pub fn encode(&self, buf: &mut Vec<u8>)
        ensures
            final(buf)@ == old(buf)@ + tlv(STLV_SPB_MCID, self.body()),
    {
        let mut body: Vec<u8> = Vec::new();
        put_bytes(&mut body, &self.mcid);
        put_bytes(&mut body, &self.aux_mcid);
        assert(body@ =~= self.body());
        put_tlv(buf, STLV_SPB_MCID, &body);
    }

    /// Returns how many bytes the Sub-TLV takes with its header.
    pub fn len(&self) -> (n: usize)
        ensures
            n == tlv(STLV_SPB_MCID, self.body()).len(),
    {
        TLV_HDR_SIZE + Self::SIZE
    }

    /// Builds an MCID from an MST Configuration Identifier's parts.
    ///
    /// IEEE 802.1Q lays the 51 bytes out as a one-byte format selector, a
    /// 32-byte configuration name, a two-byte revision level and a 16-byte
    /// configuration digest. A name shorter than the field is padded with
    /// zeroes and a longer one is truncated, so that two bridges configured
    /// with the same name always produce the same bytes.
    pub fn from_parts(name: &str, revision: u16, digest: &[u8; 16]) -> (stlv: Self)
        ensures
            stlv.mcid@ == mcid_of(name.spec_bytes(), revision, digest@),
            stlv.aux_mcid == stlv.mcid,
    {
        let name_bytes = name.as_bytes();
        let mut bytes: Vec<u8> = Vec::new();
        // Byte 0 is the format selector, which is 0.
        bytes.push(0);
        for i in 0..32
            invariant
                name_bytes@ == name.spec_bytes(),
                bytes@ == seq![0u8] + name_field(name.spec_bytes()).take(i as int),
        {
            bytes.push(
                if i < name_bytes.len() {
                    name_bytes[i]
                } else {
                    0
                },
            );
            proof {
                let field = name_field(name.spec_bytes());
                assert(field.take(i + 1) =~= field.take(i as int).push(field[i as int]));
                assert(bytes@ =~= seq![0u8] + field.take(i + 1));
            }
        }
        assert(name_field(name.spec_bytes()).take(32) =~= name_field(name.spec_bytes()));
        put_u16(&mut bytes, revision);
        put_bytes(&mut bytes, digest);
        assert(bytes@ =~= mcid_of(name.spec_bytes(), revision, digest@));
        let mcid = mcid_from(&bytes);
        SpbMcidStlv { mcid, aux_mcid: mcid }
    }

    /// Returns whether this identifies the same region as `other`.
    ///
    /// Either identifier matching is enough, which is what lets a region be
    /// reconfigured without every bridge changing at the same instant.
    pub fn matches(&self, other: &SpbMcidStlv) -> (b: bool)
        ensures
            b == (self.mcid@ == other.mcid@ || self.mcid@ == other.aux_mcid@ || self.aux_mcid@ == other.mcid@),
    {
        same_mcid(&self.mcid, &other.mcid) || same_mcid(&self.mcid, &other.aux_mcid) || same_mcid(
            &self.aux_mcid,
            &other.mcid,
        )
    }
}

/// An SPB-MCID is read as it was written, whatever follows.
pub proof fn spb_mcid_round_trip(v: SpbMcidStlv, w: SpbMcidStlv, rest: Seq<u8>)
    requires
        w.reads(v.body() + rest),
    ensures
        SpbMcidStlv::verdict(102, v.body() + rest) is Ok,
        v.body().len() == 102,
        w.mcid == v.mcid,
        w.aux_mcid == v.aux_mcid,
{
    let s = v.body() + rest;
    assert(s.take(51) =~= v.mcid@);
    assert(s.subrange(51, 102) =~= v.aux_mcid@);
    assert(w.mcid =~= v.mcid);
    assert(w.aux_mcid =~= v.aux_mcid);
}

} // verus!
