//! What is written to the wire and read from it, byte by byte.

use vstd::prelude::*;

use crate::bytes::{
    be16, be24, be32, be64, lemma_number_of_eight, lemma_number_of_four, lemma_number_of_three, lemma_number_of_two,
};
use crate::stlv::{
    bit_if, mcid_of, EctVidTuple, IsidEntry, SpbBVidStlv, SpbDigestStlv, SpbInstStlv, SpbMcidStlv, SpbMetricStlv, SpbmSiStlv,
    VlanIdTuple, STLV_SPBM_SI, STLV_SPB_B_VID, STLV_SPB_DIGEST, STLV_SPB_INST, STLV_SPB_MCID, STLV_SPB_METRIC,
};
use crate::wire::{lemma_records_len, record_at, records_bytes, records_of, tlv, Record, TlvDecodeError};

verus! {

/// Numbers are written most significant byte first.
pub proof fn numbers_in_network_order(n: int)
    requires
        n >= 0,
    ensures
        be16(n).len() == 2,
        be16(n)[0] == n / 0x100 % 0x100,
        be16(n)[1] == n % 0x100,
        be24(n).len() == 3,
        be24(n)[0] == n / 0x1_0000 % 0x100,
        be24(n)[1] == n / 0x100 % 0x100,
        be24(n)[2] == n % 0x100,
        be32(n).len() == 4,
        be32(n)[0] == n / 0x100_0000 % 0x100,
        be32(n)[1] == n / 0x1_0000 % 0x100,
        be32(n)[2] == n / 0x100 % 0x100,
        be32(n)[3] == n % 0x100,
{
    reveal(be16);
    reveal(be24);
    reveal(be32);
}

/// A number of 64 bits is written as two of 32 bits, the high one first.
pub proof fn long_numbers_in_network_order(n: int, i: int)
    requires
        n >= 0,
        0 <= i < 4,
    ensures
        be64(n).len() == 8,
        be64(n)[i] == be32(n / 0x1_0000_0000)[i],
        be64(n)[4 + i] == be32(n % 0x1_0000_0000)[i],
{
    numbers_in_network_order(n / 0x1_0000_0000);
    numbers_in_network_order(n % 0x1_0000_0000);
}

/// A TLV is its type, the length of its value in one byte, and its value.
pub proof fn tlv_layout(kind: u8, body: Seq<u8>, i: int)
    requires
        0 <= i < body.len(),
    ensures
        tlv(kind, body).len() == body.len() + 2,
        tlv(kind, body)[0] == kind,
        tlv(kind, body)[1] == body.len() as int % 0x100,
        tlv(kind, body)[i + 2] == body[i],
{
}

/// The types of the Sub-TLVs.
pub proof fn sub_tlv_types()
    ensures
        STLV_SPB_INST == 1,
        STLV_SPBM_SI == 3,
        STLV_SPB_MCID == 4,
        STLV_SPB_DIGEST == 5,
        STLV_SPB_B_VID == 6,
        STLV_SPB_METRIC == 29,
{
}

/// The entries of a list are written one after the other.
proof fn lemma_written_at<R: Record>(list: Seq<R>, w: int, i: int, b: int)
    requires
        w == R::width(),
    ensures
        records_bytes(list).len() == list.len() * w,
        0 <= i < list.len() && 0 <= b < w ==> 0 <= i * w + b < list.len() * w && records_bytes(list)[i * w + b] == list[i].bytes()[b],
    decreases list.len(),
{
    lemma_records_len(list);
    if 0 <= i < list.len() && 0 <= b < w {
        let n = list.len() as int;
        let q = list.drop_last();
        lemma_records_len(q);
        list.last().lemma_record();
        assert((n - 1) * w + w == n * w) by (nonlinear_arith);
        assert(0 <= i * w + b < n * w) by (nonlinear_arith)
            requires
                0 <= i < n,
                0 <= b < w,
        ;
        if i < n - 1 {
            lemma_written_at(q, w, i, b);
            assert(q[i] == list[i]);
        } else {
            assert(i * w == (n - 1) * w);
        }
    }
}

/// The entries of a list are read one after the other.
proof fn lemma_read_at<R: Record>(s: Seq<u8>, n: nat, w: int, i: int, b: int)
    requires
        w == R::width(),
        n * w <= s.len(),
        0 <= i < n,
        0 <= b < w,
    ensures
        records_of::<R>(s, n).len() == n,
        records_of::<R>(s, n)[i] == R::of(record_at::<R>(s, i)),
        record_at::<R>(s, i).len() == w,
        0 <= i * w + b < s.len(),
        record_at::<R>(s, i)[b] == s[i * w + b],
{
    assert(0 <= i * w && i * w + w <= n * w) by (nonlinear_arith)
        requires
            0 <= i < n,
            0 < w,
    ;
}

// ===== memberships =====

/// A membership is a byte with the T flag as its highest bit and the R flag as
/// the next, and the I-SID in three bytes.
pub proof fn membership_layout(e: IsidEntry)
    ensures
        e.bytes().len() == 4,
        e.bytes()[0] as int / 0x80 == 1 <==> e.flags.t,
        e.bytes()[0] as int / 0x40 % 2 == 1 <==> e.flags.r,
        e.bytes()[0] as int % 0x40 == 0,
        e.bytes()[1] == e.isid as int / 0x1_0000 % 0x100,
        e.bytes()[2] == e.isid as int / 0x100 % 0x100,
        e.bytes()[3] == e.isid as int % 0x100,
{
    numbers_in_network_order(e.isid as int);
}

/// What four bytes say of a membership.
pub proof fn membership_read(s: Seq<u8>)
    requires
        s.len() == 4,
    ensures
        IsidEntry::of(s).flags.t <==> s[0] >= 0x80,
        IsidEntry::of(s).flags.r <==> s[0] as int % 0x80 >= 0x40,
        IsidEntry::of(s).isid == s[1] * 0x1_0000 + s[2] * 0x100 + s[3],
{
    lemma_number_of_three(s.subrange(1, 4));
}

/// The SPBM-SI Sub-TLV: the B-MAC, the 12 bits of the Base VID, and the
/// memberships.
pub proof fn spbm_si_layout(v: SpbmSiStlv, i: int, b: int)
    ensures
        v.body().len() == 8 + 4 * v.isid_entries@.len(),
        0 <= b < 6 ==> v.body()[b] == v.bmac@[b],
        v.body()[6] == v.base_vid as int / 0x100 % 0x10,
        v.body()[7] == v.base_vid as int % 0x100,
        0 <= i < v.isid_entries@.len() && 0 <= b < 4 ==> v.body()[8 + 4 * i + b] == v.isid_entries@[i].bytes()[b],
{
    numbers_in_network_order(v.base_vid as int % 0x1000);
    lemma_split_twelve(v.base_vid as int, 0x100, 0x10);
    lemma_two_bytes(v.base_vid as int / 0x100 % 0x10, v.base_vid as int % 0x100);
    lemma_written_at(v.isid_entries@, 4, i, b);
}

/// An SPBM-SI Sub-TLV is read from as many bytes as its length says, of which
/// there must be eight and four for each membership.
pub proof fn spbm_si_read(v: SpbmSiStlv, stlv_len: u8, s: Seq<u8>, i: int)
    requires
        SpbmSiStlv::verdict(stlv_len, s) is Ok,
        v.reads(stlv_len, s),
    ensures
        s.len() >= stlv_len,
        stlv_len == 8 + 4 * v.isid_entries@.len(),
        SpbmSiStlv::consumed(stlv_len, s) == stlv_len,
        0 <= i < 6 ==> v.bmac@[i] == s[i],
        v.base_vid == s[6] as int % 0x10 * 0x100 + s[7],
        0 <= i < v.isid_entries@.len() ==> (v.isid_entries@[i].flags.t <==> s[8 + 4 * i] >= 0x80),
        0 <= i < v.isid_entries@.len() ==> (v.isid_entries@[i].flags.r <==> s[8 + 4 * i] as int % 0x80 >= 0x40),
        0 <= i < v.isid_entries@.len() ==> v.isid_entries@[i].isid == s[9 + 4 * i] * 0x1_0000 + s[10 + 4 * i] * 0x100 + s[11 + 4 * i],
{
    lemma_number_of_two(s.subrange(6, 8));
    if 0 <= i < v.isid_entries@.len() {
        let t = s.skip(8);
        let n = SpbmSiStlv::count(stlv_len) as nat;
        lemma_read_at::<IsidEntry>(t, n, 4, i, 0);
        lemma_read_at::<IsidEntry>(t, n, 4, i, 1);
        lemma_read_at::<IsidEntry>(t, n, 4, i, 2);
        lemma_read_at::<IsidEntry>(t, n, 4, i, 3);
        membership_read(record_at::<IsidEntry>(t, i));
    }
}

/// When an SPBM-SI Sub-TLV is refused.
pub proof fn spbm_si_refused(stlv_len: u8, s: Seq<u8>)
    ensures
        SpbmSiStlv::verdict(stlv_len, s) == Err::<(), _>(TlvDecodeError::InvalidLength(stlv_len)) <==> stlv_len < 8 || stlv_len as int % 4
            != 0,
        SpbmSiStlv::verdict(stlv_len, s) == Err::<(), _>(TlvDecodeError::ReadOutOfBounds) <==> stlv_len >= 8 && stlv_len as int % 4 == 0
            && s.len() < stlv_len,
        SpbmSiStlv::verdict(stlv_len, s) is Ok <==> stlv_len >= 8 && stlv_len as int % 4 == 0 && s.len() >= stlv_len,
{
}

// ===== tree sets =====

/// A VLAN-ID tuple is a byte with the U, M and A flags as its highest bits, the
/// ECT-ALGORITHM in four bytes, and the 12 bits each of Base VID and SPVID.
pub proof fn vlan_id_tuple_layout(e: VlanIdTuple)
    ensures
        e.bytes().len() == 8,
        e.bytes()[0] as int / 0x80 == 1 <==> e.flags.u,
        e.bytes()[0] as int / 0x40 % 2 == 1 <==> e.flags.m,
        e.bytes()[0] as int / 0x20 % 2 == 1 <==> e.flags.a,
        e.bytes()[0] as int % 0x20 == 0,
        e.bytes()[1] == e.ect_algorithm as int / 0x100_0000 % 0x100,
        e.bytes()[2] == e.ect_algorithm as int / 0x1_0000 % 0x100,
        e.bytes()[3] == e.ect_algorithm as int / 0x100 % 0x100,
        e.bytes()[4] == e.ect_algorithm as int % 0x100,
        e.bytes()[5] == e.base_vid as int / 0x10 % 0x100,
        e.bytes()[6] == e.base_vid as int % 0x10 * 0x10 + e.spvid as int / 0x100 % 0x10,
        e.bytes()[7] == e.spvid as int % 0x100,
{
    let vids = e.base_vid as int % 0x1000 * 0x1000 + e.spvid as int % 0x1000;
    numbers_in_network_order(e.ect_algorithm as int);
    numbers_in_network_order(vids);
    lemma_vid_bytes(e.base_vid as int, e.spvid as int);
}

proof fn lemma_vid_bytes(b: int, v: int)
    requires
        0 <= b,
        0 <= v,
    ensures
        (b % 0x1000 * 0x1000 + v % 0x1000) / 0x1_0000 % 0x100 == b / 0x10 % 0x100,
        (b % 0x1000 * 0x1000 + v % 0x1000) / 0x100 % 0x100 == b % 0x10 * 0x10 + v / 0x100 % 0x10,
        (b % 0x1000 * 0x1000 + v % 0x1000) % 0x100 == v % 0x100,
        b % 0x1000 * 0x10 / 0x100 % 0x100 == b / 0x10 % 0x100,
        b % 0x1000 * 0x10 % 0x100 == b % 0x10 * 0x10,
{
    lemma_split_twelve(b, 0x10, 0x100);
    lemma_split_twelve(v, 0x100, 0x10);
    let h = b / 0x10 % 0x100;
    let l = b % 0x10;
    let m = v / 0x100 % 0x10;
    let r = v % 0x100;
    lemma_three_bytes(h, l * 0x10 + m, r);
    lemma_two_bytes(h, l * 0x10);
}

/// The low twelve bits in two parts.
proof fn lemma_split_twelve(n: int, low: int, high: int)
    requires
        0 <= n,
        low == 0x10 && high == 0x100 || low == 0x100 && high == 0x10,
    ensures
        n % 0x1000 == n / low % high * low + n % low,
        0 <= n / low % high < high,
        0 <= n % low < low,
{
    if low == 0x10 {
        let q = n / 0x10;
        assert(n == q / 0x100 * 0x1000 + q % 0x100 * 0x10 + n % 0x10);
        lemma_remainder(n, q / 0x100, q % 0x100 * 0x10 + n % 0x10);
    } else {
        let q = n / 0x100;
        assert(n == q / 0x10 * 0x1000 + q % 0x10 * 0x100 + n % 0x100);
        lemma_remainder(n, q / 0x10, q % 0x10 * 0x100 + n % 0x100);
    }
}

proof fn lemma_remainder(n: int, q: int, r: int)
    requires
        n == q * 0x1000 + r,
        0 <= r < 0x1000,
    ensures
        n % 0x1000 == r,
{
}

proof fn lemma_three_bytes(x: int, y: int, z: int)
    requires
        0 <= x < 0x100,
        0 <= y < 0x100,
        0 <= z < 0x100,
    ensures
        ({
            let n = x * 0x1_0000 + y * 0x100 + z;
            n / 0x1_0000 % 0x100 == x && n / 0x100 % 0x100 == y && n % 0x100 == z
        }),
{
}

proof fn lemma_two_bytes(x: int, y: int)
    requires
        0 <= x < 0x100,
        0 <= y < 0x100,
    ensures
        ({
            let n = x * 0x100 + y;
            n / 0x100 % 0x100 == x && n % 0x100 == y
        }),
{
}

/// What eight bytes say of a VLAN-ID tuple.
pub proof fn vlan_id_tuple_read(s: Seq<u8>)
    requires
        s.len() == 8,
    ensures
        VlanIdTuple::of(s).flags.u <==> s[0] >= 0x80,
        VlanIdTuple::of(s).flags.m <==> s[0] as int % 0x80 >= 0x40,
        VlanIdTuple::of(s).flags.a <==> s[0] as int % 0x40 >= 0x20,
        VlanIdTuple::of(s).ect_algorithm == s[1] * 0x100_0000 + s[2] * 0x1_0000 + s[3] * 0x100 + s[4],
        VlanIdTuple::of(s).base_vid == s[5] * 0x10 + s[6] as int / 0x10,
        VlanIdTuple::of(s).spvid == s[6] as int % 0x10 * 0x100 + s[7],
{
    lemma_number_of_four(s.subrange(1, 5));
    lemma_number_of_three(s.subrange(5, 8));
}

/// The SPB-Inst Sub-TLV: CIST root identifier and path cost, bridge priority,
/// the V bit above the 20 bits of the SPSourceID, the number of tuples, and the
/// tuples.
pub proof fn spb_inst_layout(v: SpbInstStlv, i: int, b: int)
    ensures
        v.body().len() == 19 + 8 * v.vlan_id_tuples@.len(),
        0 <= b < 4 ==> v.body()[b] == be32(v.cist_root_id as int / 0x1_0000_0000)[b],
        0 <= b < 4 ==> v.body()[4 + b] == be32(v.cist_root_id as int % 0x1_0000_0000)[b],
        0 <= b < 4 ==> v.body()[8 + b] == be32(v.cist_ext_root_path_cost as int)[b],
        v.body()[12] == v.bridge_priority as int / 0x100,
        v.body()[13] == v.bridge_priority as int % 0x100,
        v.body()[14] == 0,
        v.body()[15] as int / 0x10 == 1 <==> v.spsource_id_auto,
        v.body()[15] < 0x20,
        v.body()[15] as int % 0x10 == v.spsource_id as int / 0x1_0000 % 0x10,
        v.body()[16] == v.spsource_id as int / 0x100 % 0x100,
        v.body()[17] == v.spsource_id as int % 0x100,
        v.body()[18] == v.vlan_id_tuples@.len() as int % 0x100,
        0 <= i < v.vlan_id_tuples@.len() && 0 <= b < 8 ==> v.body()[19 + 8 * i + b] == v.vlan_id_tuples@[i].bytes()[b],
{
    let word = v.spsource_id as int % 0x10_0000 + bit_if(v.spsource_id_auto, 0x10_0000);
    numbers_in_network_order(v.cist_root_id as int / 0x1_0000_0000);
    numbers_in_network_order(v.cist_root_id as int % 0x1_0000_0000);
    numbers_in_network_order(v.cist_ext_root_path_cost as int);
    numbers_in_network_order(v.bridge_priority as int);
    numbers_in_network_order(word);
    lemma_source_word(v.spsource_id as int, v.spsource_id_auto);
    lemma_written_at(v.vlan_id_tuples@, 8, i, b);
    let h = v.head();
    assert(h.len() == 19);
    assert(v.body() == h + records_bytes(v.vlan_id_tuples@));
}

proof fn lemma_source_word(id: int, auto: bool)
    requires
        0 <= id,
    ensures
        ({
            let word = id % 0x10_0000 + bit_if(auto, 0x10_0000);
            &&& word / 0x100_0000 % 0x100 == 0
            &&& word / 0x1_0000 % 0x100 == id / 0x1_0000 % 0x10 + bit_if(auto, 0x10)
            &&& word / 0x100 % 0x100 == id / 0x100 % 0x100
            &&& word % 0x100 == id % 0x100
        }),
{
}

/// An SPB-Inst Sub-TLV is read from as many bytes as its length says, of which
/// there must be nineteen and eight for each of the tuples that it counts.
pub proof fn spb_inst_read(v: SpbInstStlv, stlv_len: u8, s: Seq<u8>, i: int)
    requires
        SpbInstStlv::verdict(stlv_len, s) is Ok,
        v.reads(stlv_len, s),
    ensures
        s.len() >= stlv_len,
        stlv_len == 19 + 8 * v.vlan_id_tuples@.len(),
        s[18] == v.vlan_id_tuples@.len(),
        SpbInstStlv::consumed(stlv_len, s) == stlv_len,
        v.cist_root_id == (s[0] * 0x100_0000 + s[1] * 0x1_0000 + s[2] * 0x100 + s[3]) * 0x1_0000_0000 + s[4] * 0x100_0000 + s[5]
            * 0x1_0000 + s[6] * 0x100 + s[7],
        v.cist_ext_root_path_cost == s[8] * 0x100_0000 + s[9] * 0x1_0000 + s[10] * 0x100 + s[11],
        v.bridge_priority == s[12] * 0x100 + s[13],
        v.spsource_id_auto <==> s[15] as int / 0x10 % 2 == 1,
        v.spsource_id == s[15] as int % 0x10 * 0x1_0000 + s[16] * 0x100 + s[17],
        0 <= i < v.vlan_id_tuples@.len() ==> v.vlan_id_tuples@[i] == VlanIdTuple::of(s.subrange(19 + 8 * i, 27 + 8 * i)),
{
    let a = s.take(8);
    lemma_number_of_eight(a);
    lemma_number_of_four(a.take(4));
    lemma_number_of_four(a.skip(4));
    lemma_number_of_four(s.subrange(8, 12));
    lemma_number_of_two(s.subrange(12, 14));
    lemma_number_of_four(s.subrange(14, 18));
    lemma_source_read(s[14] as int, s[15] as int, s[16] as int, s[17] as int);
    if 0 <= i < v.vlan_id_tuples@.len() {
        let t = s.skip(19);
        let n = SpbInstStlv::count(stlv_len) as nat;
        lemma_read_at::<VlanIdTuple>(t, n, 8, i, 0);
        assert(record_at::<VlanIdTuple>(t, i) =~= s.subrange(19 + 8 * i, 27 + 8 * i));
    }
}

proof fn lemma_source_read(a: int, b: int, c: int, d: int)
    requires
        0 <= a < 0x100,
        0 <= b < 0x100,
        0 <= c < 0x100,
        0 <= d < 0x100,
    ensures
        ({
            let word = a * 0x100_0000 + b * 0x1_0000 + c * 0x100 + d;
            &&& word / 0x10_0000 % 2 == b / 0x10 % 2
            &&& word % 0x10_0000 == b % 0x10 * 0x1_0000 + c * 0x100 + d
        }),
{
}

/// When an SPB-Inst Sub-TLV is refused.
pub proof fn spb_inst_refused(stlv_len: u8, s: Seq<u8>)
    ensures
        SpbInstStlv::verdict(stlv_len, s) == Err::<(), _>(TlvDecodeError::InvalidLength(stlv_len)) <==> stlv_len < 19 || stlv_len as int
            % 8 != 3 || (s.len() >= 19 && 19 + 8 * s[18] != stlv_len),
        SpbInstStlv::verdict(stlv_len, s) is Ok <==> stlv_len >= 19 && stlv_len as int % 8 == 3 && s.len() >= stlv_len && 19 + 8 * s[18]
            == stlv_len,
        SpbInstStlv::verdict(stlv_len, s) is Err ==> SpbInstStlv::verdict(stlv_len, s)->Err_0 == TlvDecodeError::InvalidLength(stlv_len)
            || SpbInstStlv::verdict(stlv_len, s)->Err_0 == TlvDecodeError::ReadOutOfBounds,
{
}

/// A tuple of the SPB-B-VID Sub-TLV is the ECT-ALGORITHM in four bytes, then
/// the 12 bits of the Base VID, the U and M flags, and two bits of zero.
pub proof fn ect_vid_tuple_layout(e: EctVidTuple)
    ensures
        e.bytes().len() == 6,
        e.bytes()[0] == e.ect_algorithm as int / 0x100_0000 % 0x100,
        e.bytes()[1] == e.ect_algorithm as int / 0x1_0000 % 0x100,
        e.bytes()[2] == e.ect_algorithm as int / 0x100 % 0x100,
        e.bytes()[3] == e.ect_algorithm as int % 0x100,
        e.bytes()[4] == e.base_vid as int / 0x10 % 0x100,
        e.bytes()[5] as int / 0x10 == e.base_vid as int % 0x10,
        e.bytes()[5] as int / 8 % 2 == 1 <==> e.flags.u,
        e.bytes()[5] as int / 4 % 2 == 1 <==> e.flags.m,
        e.bytes()[5] as int % 4 == 0,
{
    let raw = e.base_vid as int % 0x1000 * 0x10 + e.flags.byte();
    numbers_in_network_order(e.ect_algorithm as int);
    numbers_in_network_order(raw);
    lemma_vid_bytes(e.base_vid as int, 0);
    let x = e.base_vid as int % 0x1000 * 0x10;
    assert(0 <= e.flags.byte() < 0x10);
    assert(x % 0x10 == 0);
    assert(raw / 0x100 == x / 0x100);
    assert(raw % 0x100 == x % 0x100 + e.flags.byte());
}

/// What six bytes say of such a tuple.
pub proof fn ect_vid_tuple_read(s: Seq<u8>)
    requires
        s.len() == 6,
    ensures
        EctVidTuple::of(s).ect_algorithm == s[0] * 0x100_0000 + s[1] * 0x1_0000 + s[2] * 0x100 + s[3],
        EctVidTuple::of(s).base_vid == s[4] * 0x10 + s[5] as int / 0x10,
        EctVidTuple::of(s).flags.u <==> s[5] as int / 8 % 2 == 1,
        EctVidTuple::of(s).flags.m <==> s[5] as int / 4 % 2 == 1,
{
    lemma_number_of_four(s.subrange(0, 4));
    lemma_number_of_two(s.subrange(4, 6));
    let n = s[4] * 0x100 + s[5];
    assert(n % 0x10 == s[5] as int % 0x10);
    assert(n / 0x10 == s[4] * 0x10 + s[5] as int / 0x10);
}

/// The SPB-B-VID Sub-TLV is made of tuples only.
pub proof fn spb_b_vid_layout(v: SpbBVidStlv, i: int, b: int)
    ensures
        v.body().len() == 6 * v.ect_vid_tuples@.len(),
        0 <= i < v.ect_vid_tuples@.len() && 0 <= b < 6 ==> v.body()[6 * i + b] == v.ect_vid_tuples@[i].bytes()[b],
{
    lemma_written_at(v.ect_vid_tuples@, 6, i, b);
}

/// An SPB-B-VID Sub-TLV is read from as many bytes as its length says, six for
/// each tuple, and refused where the length is no multiple of six or the bytes
/// are not there.
pub proof fn spb_b_vid_read(v: SpbBVidStlv, stlv_len: u8, s: Seq<u8>, i: int)
    ensures
        SpbBVidStlv::verdict(stlv_len, s) == Err::<(), _>(TlvDecodeError::InvalidLength(stlv_len)) <==> stlv_len as int % 6 != 0,
        SpbBVidStlv::verdict(stlv_len, s) == Err::<(), _>(TlvDecodeError::ReadOutOfBounds) <==> stlv_len as int % 6 == 0 && s.len()
            < stlv_len,
        SpbBVidStlv::verdict(stlv_len, s) is Ok <==> stlv_len as int % 6 == 0 && s.len() >= stlv_len,
        SpbBVidStlv::verdict(stlv_len, s) is Ok && v.reads(stlv_len, s) ==> {
            &&& stlv_len == 6 * v.ect_vid_tuples@.len()
            &&& SpbBVidStlv::consumed(stlv_len, s) == stlv_len
            &&& 0 <= i < v.ect_vid_tuples@.len() ==> v.ect_vid_tuples@[i] == EctVidTuple::of(s.subrange(6 * i, 6 * i + 6))
        },
{
    if SpbBVidStlv::verdict(stlv_len, s) is Ok && v.reads(stlv_len, s) && 0 <= i < v.ect_vid_tuples@.len() {
        lemma_read_at::<EctVidTuple>(s, (stlv_len as int / 6) as nat, 6, i, 0);
        assert(record_at::<EctVidTuple>(s, i) =~= s.subrange(6 * i, 6 * i + 6));
    }
}

// ===== links =====

/// The SPB-Metric Sub-TLV: the metric in three bytes, the number of port
/// identifiers, and two bytes for each.
pub proof fn spb_metric_layout(v: SpbMetricStlv, i: int)
    ensures
        v.body().len() == 4 + 2 * v.port_ids@.len(),
        v.body()[0] == v.metric as int / 0x1_0000 % 0x100,
        v.body()[1] == v.metric as int / 0x100 % 0x100,
        v.body()[2] == v.metric as int % 0x100,
        v.body()[3] == v.port_ids@.len() as int % 0x100,
        0 <= i < v.port_ids@.len() ==> v.body()[4 + 2 * i] == v.port_ids@[i] as int / 0x100,
        0 <= i < v.port_ids@.len() ==> v.body()[5 + 2 * i] == v.port_ids@[i] as int % 0x100,
{
    numbers_in_network_order(v.metric as int);
    lemma_written_at(v.port_ids@, 2, i, 0);
    lemma_written_at(v.port_ids@, 2, i, 1);
    if 0 <= i < v.port_ids@.len() {
        numbers_in_network_order(v.port_ids@[i] as int);
    }
}

/// An SPB-Metric Sub-TLV is read from as many bytes as its length says, of
/// which there must be four and two for each of the ports that it counts.
pub proof fn spb_metric_read(v: SpbMetricStlv, stlv_len: u8, s: Seq<u8>, i: int)
    requires
        SpbMetricStlv::verdict(stlv_len, s) is Ok,
        v.reads(stlv_len, s),
    ensures
        s.len() >= stlv_len,
        stlv_len == 4 + 2 * v.port_ids@.len(),
        s[3] == v.port_ids@.len(),
        SpbMetricStlv::consumed(stlv_len, s) == stlv_len,
        v.metric == s[0] * 0x1_0000 + s[1] * 0x100 + s[2],
        0 <= i < v.port_ids@.len() ==> v.port_ids@[i] == s[4 + 2 * i] * 0x100 + s[5 + 2 * i],
{
    lemma_number_of_three(s.take(3));
    if 0 <= i < v.port_ids@.len() {
        let t = s.skip(4);
        let n = SpbMetricStlv::count(stlv_len) as nat;
        lemma_read_at::<u16>(t, n, 2, i, 0);
        lemma_read_at::<u16>(t, n, 2, i, 1);
        lemma_number_of_two(record_at::<u16>(t, i));
    }
}

/// When an SPB-Metric Sub-TLV is refused.
pub proof fn spb_metric_refused(stlv_len: u8, s: Seq<u8>)
    ensures
        SpbMetricStlv::verdict(stlv_len, s) == Err::<(), _>(TlvDecodeError::InvalidLength(stlv_len)) <==> stlv_len < 4 || stlv_len as int
            % 2 != 0 || (s.len() >= 4 && 4 + 2 * s[3] != stlv_len),
        SpbMetricStlv::verdict(stlv_len, s) is Ok <==> stlv_len >= 4 && stlv_len as int % 2 == 0 && s.len() >= stlv_len && 4 + 2 * s[3]
            == stlv_len,
        SpbMetricStlv::verdict(stlv_len, s) is Err ==> SpbMetricStlv::verdict(stlv_len, s)->Err_0 == TlvDecodeError::InvalidLength(
            stlv_len,
        ) || SpbMetricStlv::verdict(stlv_len, s)->Err_0 == TlvDecodeError::ReadOutOfBounds,
{
}

// ===== agreement =====

/// The SPB-Digest Sub-TLV: the V bit, the two-bit Agreement Number and the
/// two-bit discarded one, and the digest.
pub proof fn spb_digest_layout(v: SpbDigestStlv, i: int)
    ensures
        v.body().len() == 1 + v.digest@.len(),
        v.body()[0] as int / 0x10 == 1 <==> v.valid,
        v.body()[0] < 0x20,
        v.body()[0] as int / 4 % 4 == v.agreement as int % 4,
        v.body()[0] as int % 4 == v.discarded as int % 4,
        0 <= i < v.digest@.len() ==> v.body()[1 + i] == v.digest@[i],
{
}

/// An SPB-Digest Sub-TLV is read from as many bytes as its length says, of
/// which there must be at least one.
pub proof fn spb_digest_read(v: SpbDigestStlv, stlv_len: u8, s: Seq<u8>, i: int)
    ensures
        SpbDigestStlv::verdict(stlv_len, s) == Err::<(), _>(TlvDecodeError::InvalidLength(stlv_len)) <==> stlv_len == 0,
        SpbDigestStlv::verdict(stlv_len, s) == Err::<(), _>(TlvDecodeError::ReadOutOfBounds) <==> 0 < stlv_len && s.len() < stlv_len,
        SpbDigestStlv::verdict(stlv_len, s) is Ok <==> 0 < stlv_len <= s.len(),
        SpbDigestStlv::verdict(stlv_len, s) is Ok && v.reads(stlv_len, s) ==> {
            &&& v.valid <==> s[0] as int / 0x10 % 2 == 1
            &&& v.agreement == s[0] as int / 4 % 4
            &&& v.discarded == s[0] as int % 4
            &&& v.digest@.len() == stlv_len - 1
            &&& 0 <= i < v.digest@.len() ==> v.digest@[i] == s[1 + i]
            &&& SpbDigestStlv::consumed(stlv_len, s) == stlv_len
        },
{
}

/// The SPB-MCID Sub-TLV: the MCID, then the auxiliary one, of 51 bytes each.
pub proof fn spb_mcid_layout(v: SpbMcidStlv, w: SpbMcidStlv, stlv_len: u8, s: Seq<u8>, i: int)
    requires
        0 <= i < 51,
    ensures
        v.body().len() == 102,
        v.body()[i] == v.mcid@[i],
        v.body()[51 + i] == v.aux_mcid@[i],
        SpbMcidStlv::verdict(stlv_len, s) == Err::<(), _>(TlvDecodeError::InvalidLength(stlv_len)) <==> stlv_len != 102,
        SpbMcidStlv::verdict(stlv_len, s) == Err::<(), _>(TlvDecodeError::ReadOutOfBounds) <==> stlv_len == 102 && s.len() < 102,
        SpbMcidStlv::verdict(stlv_len, s) is Ok <==> stlv_len == 102 && s.len() >= 102,
        SpbMcidStlv::verdict(stlv_len, s) is Ok && w.reads(s) ==> w.mcid@[i] == s[i] && w.aux_mcid@[i] == s[51 + i]
            && SpbMcidStlv::consumed(stlv_len, s) == 102,
{
}

/// An MCID: a format selector of zero, the name padded with zeros to 32 bytes
/// or cut to them, the revision level, and the digest.
pub proof fn mcid_layout(name: Seq<u8>, revision: u16, digest: Seq<u8>, i: int)
    requires
        digest.len() == 16,
    ensures
        mcid_of(name, revision, digest).len() == 51,
        mcid_of(name, revision, digest)[0] == 0,
        0 <= i < 32 && i < name.len() ==> mcid_of(name, revision, digest)[1 + i] == name[i],
        0 <= i < 32 && i >= name.len() ==> mcid_of(name, revision, digest)[1 + i] == 0,
        mcid_of(name, revision, digest)[33] == revision as int / 0x100,
        mcid_of(name, revision, digest)[34] == revision as int % 0x100,
        0 <= i < 16 ==> mcid_of(name, revision, digest)[35 + i] == digest[i],
{
    numbers_in_network_order(revision as int);
}

// ===== what is left after a refusal =====

/// Where the bytes run out, whatever whole fields are there have been read.
/// Where the length is refused, nothing has been.
pub proof fn spbm_si_left_over(stlv_len: u8, s: Seq<u8>)
    ensures
        stlv_len < 8 || stlv_len as int % 4 != 0 ==> SpbmSiStlv::consumed(stlv_len, s) == 0,
        stlv_len >= 8 && stlv_len as int % 4 == 0 && s.len() < stlv_len ==> {
            &&& s.len() < 6 ==> SpbmSiStlv::consumed(stlv_len, s) == 0
            &&& 6 <= s.len() < 8 ==> SpbmSiStlv::consumed(stlv_len, s) == 6
            &&& 8 <= s.len() && s.len() as int % 4 == 0 ==> SpbmSiStlv::consumed(stlv_len, s) == s.len()
            &&& 8 <= s.len() && s.len() as int % 4 != 0 ==> SpbmSiStlv::consumed(stlv_len, s) == s.len() - s.len() as int % 4 + 1
        },
{
    if 8 <= s.len() {
        let n = s.len() - 8;
        assert(n % 4 == s.len() as int % 4);
        assert(n / 4 * 4 == n - n % 4);
        assert(IsidEntry::width() == 4);
    }
}

/// The same of the SPB-Inst Sub-TLV, whose header has been read where its count
/// is refused.
pub proof fn spb_inst_left_over(stlv_len: u8, s: Seq<u8>)
    ensures
        stlv_len < 19 || stlv_len as int % 8 != 3 ==> SpbInstStlv::consumed(stlv_len, s) == 0,
        stlv_len >= 19 && stlv_len as int % 8 == 3 ==> {
            &&& s.len() < 8 ==> SpbInstStlv::consumed(stlv_len, s) == 0
            &&& 8 <= s.len() < 12 ==> SpbInstStlv::consumed(stlv_len, s) == 8
            &&& 12 <= s.len() < 14 ==> SpbInstStlv::consumed(stlv_len, s) == 12
            &&& 14 <= s.len() < 18 ==> SpbInstStlv::consumed(stlv_len, s) == 14
            &&& s.len() == 18 ==> SpbInstStlv::consumed(stlv_len, s) == 18
            &&& 19 <= s.len() && 19 + 8 * s[18] != stlv_len ==> SpbInstStlv::consumed(stlv_len, s) == 19
            &&& 19 <= s.len() < stlv_len && 19 + 8 * s[18] == stlv_len ==> SpbInstStlv::consumed(stlv_len, s) == s.len() - (s.len()
                - 19) % 8 + if (s.len() - 19) % 8 < 1 {
                0int
            } else if (s.len() - 19) % 8 < 5 {
                1int
            } else {
                5int
            }
        },
{
    if 19 <= s.len() {
        let n = s.len() - 19;
        assert(n / 8 * 8 == n - n % 8);
        assert(VlanIdTuple::width() == 8);
    }
}

/// The same of the SPB-Metric Sub-TLV.
pub proof fn spb_metric_left_over(stlv_len: u8, s: Seq<u8>)
    ensures
        stlv_len < 4 || stlv_len as int % 2 != 0 ==> SpbMetricStlv::consumed(stlv_len, s) == 0,
        stlv_len >= 4 && stlv_len as int % 2 == 0 ==> {
            &&& s.len() < 3 ==> SpbMetricStlv::consumed(stlv_len, s) == 0
            &&& s.len() == 3 ==> SpbMetricStlv::consumed(stlv_len, s) == 3
            &&& 4 <= s.len() && 4 + 2 * s[3] != stlv_len ==> SpbMetricStlv::consumed(stlv_len, s) == 4
            &&& 4 <= s.len() < stlv_len && 4 + 2 * s[3] == stlv_len ==> SpbMetricStlv::consumed(stlv_len, s) == s.len() - s.len() as int
                % 2
        },
{
    if 4 <= s.len() {
        let n = s.len() - 4;
        assert(n / 2 * 2 == n - n % 2);
        assert(n % 2 == s.len() as int % 2);
        assert(<u16 as Record>::width() == 2);
    }
}

/// The same of the other Sub-TLVs.
pub proof fn others_left_over(stlv_len: u8, s: Seq<u8>)
    ensures
        stlv_len as int % 6 != 0 ==> SpbBVidStlv::consumed(stlv_len, s) == 0,
        stlv_len as int % 6 == 0 && s.len() < stlv_len ==> SpbBVidStlv::consumed(stlv_len, s) == s.len() - s.len() as int % 6 + if s.len()
            as int % 6 < 4 {
            0int
        } else {
            4int
        },
        stlv_len == 0 ==> SpbDigestStlv::consumed(stlv_len, s) == 0,
        s.len() < stlv_len ==> SpbDigestStlv::consumed(stlv_len, s) == if s.len() == 0 {
            0int
        } else {
            1int
        },
        stlv_len != 102 || s.len() < 51 ==> SpbMcidStlv::consumed(stlv_len, s) == 0,
        stlv_len == 102 && 51 <= s.len() < 102 ==> SpbMcidStlv::consumed(stlv_len, s) == 51,
{
    let n = s.len() as int;
    assert(n / 6 * 6 == n - n % 6);
    assert(EctVidTuple::width() == 6);
}

} // verus!
