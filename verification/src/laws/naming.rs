//! Identifiers, their order, and the tie-break.

use vstd::prelude::*;

use crate::digest::{AGREEMENT_MODULUS, DIGEST_LEN, Edge, EctPair, RootKey};
use crate::ect::{eight_bytes, joined, BridgeId, EctAlgorithm, PathId, PathRank, ECT_ALG_DEFAULT, ECT_MASK};
use crate::fdb::{MulticastKey, UnicastKey};
use crate::isis::SpbServiceKey;
use crate::mac::{lemma_mac_ordinal_bound, MacAddr};
use crate::mcast::{group_bytes, group_isid, group_spsource_id, is_group};
use crate::node::{lemma_node_len, lemma_node_ordinal_bound, six_bytes, NodeId};
use crate::order::{agree, falls_below, is_sorted, lemma_lex_asymmetric, lemma_with_number, lex_lt, with_number};
use crate::ordmap::{lemma_ordered_exists, ordered, Key};
use crate::text::hex_bytes;
use crate::topology::{IsidBinding, ISID_CONTROL, ISID_MAX, SPSOURCE_ID_MAX, SPSOURCE_ID_UNASSIGNED};
use crate::tree::TreeKey;

verus! {

/// Where two identifiers of eight bytes first differ, the smaller byte comes
/// first.
pub proof fn eight_bytes_ordered_by_first_difference(a: Seq<u8>, b: Seq<u8>, k: int)
    requires
        a.len() == 8,
        b.len() == 8,
        0 <= k < 8,
        forall|i: int| 0 <= i < k ==> a[i] == b[i],
        a[k] < b[k],
    ensures
        eight_bytes(a) < eight_bytes(b),
{
    assert(k > 0 ==> a[0] == b[0]);
    assert(k > 1 ==> a[1] == b[1]);
    assert(k > 2 ==> a[2] == b[2]);
    assert(k > 3 ==> a[3] == b[3]);
    assert(k > 4 ==> a[4] == b[4]);
    assert(k > 5 ==> a[5] == b[5]);
    assert(k > 6 ==> a[6] == b[6]);
}

/// Where two identifiers of six bytes first differ, the smaller byte comes
/// first.
pub proof fn six_bytes_ordered_by_first_difference(a: Seq<u8>, b: Seq<u8>, k: int)
    requires
        a.len() == 6,
        b.len() == 6,
        0 <= k < 6,
        forall|i: int| 0 <= i < k ==> a[i] == b[i],
        a[k] < b[k],
    ensures
        six_bytes(a) < six_bytes(b),
{
    assert(k > 0 ==> a[0] == b[0]);
    assert(k > 1 ==> a[1] == b[1]);
    assert(k > 2 ==> a[2] == b[2]);
    assert(k > 3 ==> a[3] == b[3]);
    assert(k > 4 ==> a[4] == b[4]);
}

/// System IDs are ordered by their bytes, the first dominating.
pub proof fn system_ids_ordered_by_bytes(a: NodeId, b: NodeId, k: int)
    requires
        0 <= k < 6,
        forall|i: int| 0 <= i < k ==> a@[i] == b@[i],
        a@[k] < b@[k],
    ensures
        a.ordinal() < b.ordinal(),
{
    lemma_node_len(a);
    lemma_node_len(b);
    six_bytes_ordered_by_first_difference(a@, b@, k);
}

/// MAC addresses are ordered by their bytes, the first dominating.
pub proof fn addresses_ordered_by_bytes(a: MacAddr, b: MacAddr, k: int)
    requires
        0 <= k < 6,
        forall|i: int| 0 <= i < k ==> a@[i] == b@[i],
        a@[k] < b@[k],
    ensures
        a.ordinal() < b.ordinal(),
{
    lemma_mac_ordinal_bound(a);
    lemma_mac_ordinal_bound(b);
    six_bytes_ordered_by_first_difference(a@, b@, k);
}

/// The keys of unicast entries are ordered by Base VID, then by B-MAC.
pub proof fn unicast_keys_ordered(a: UnicastKey, b: UnicastKey)
    ensures
        a.ordinal() < b.ordinal() <==> a.base_vid < b.base_vid || (a.base_vid == b.base_vid && a.bmac.ordinal()
            < b.bmac.ordinal()),
{
    lemma_mac_ordinal_bound(a.bmac);
    lemma_mac_ordinal_bound(b.bmac);
    lemma_pair_order(a.base_vid as int, a.bmac.ordinal() as int, b.base_vid as int, b.bmac.ordinal() as int);
}

/// The keys of multicast entries are ordered by Base VID, then by group B-MAC.
pub proof fn multicast_keys_ordered(a: MulticastKey, b: MulticastKey)
    ensures
        a.ordinal() < b.ordinal() <==> a.base_vid < b.base_vid || (a.base_vid == b.base_vid && a.group_bmac.ordinal()
            < b.group_bmac.ordinal()),
{
    lemma_mac_ordinal_bound(a.group_bmac);
    lemma_mac_ordinal_bound(b.group_bmac);
    lemma_pair_order(a.base_vid as int, a.group_bmac.ordinal() as int, b.base_vid as int, b.group_bmac.ordinal() as int);
}

/// Roots are ordered by Base VID, then by System ID.
pub proof fn root_keys_ordered(a: RootKey, b: RootKey)
    ensures
        a.ordinal() < b.ordinal() <==> a.base_vid < b.base_vid || (a.base_vid == b.base_vid && a.root.ordinal()
            < b.root.ordinal()),
{
    lemma_node_ordinal_bound(a.root);
    lemma_node_ordinal_bound(b.root);
    lemma_pair_order(a.base_vid as int, a.root.ordinal() as int, b.base_vid as int, b.root.ordinal() as int);
}

/// Links are ordered by their lower end, then by their higher end.
pub proof fn edges_ordered(a: Edge, b: Edge)
    ensures
        a.ordinal() < b.ordinal() <==> a.lower.ordinal() < b.lower.ordinal() || (a.lower.ordinal() == b.lower.ordinal()
            && a.higher.ordinal() < b.higher.ordinal()),
{
    lemma_node_ordinal_bound(a.higher);
    lemma_node_ordinal_bound(b.higher);
    lemma_pair_order(
        a.lower.ordinal() as int,
        a.higher.ordinal() as int,
        b.lower.ordinal() as int,
        b.higher.ordinal() as int,
    );
}

/// Pairs are ordered by algorithm, then by Base VID.
pub proof fn ect_pairs_ordered(a: EctPair, b: EctPair)
    ensures
        a.ordinal() < b.ordinal() <==> a.algorithm < b.algorithm || (a.algorithm == b.algorithm && a.base_vid < b.base_vid),
{
}

/// Bindings are ordered by I-SID, then by Base VID.
pub proof fn bindings_ordered(a: IsidBinding, b: IsidBinding)
    ensures
        a.ordinal() < b.ordinal() <==> a.isid < b.isid || (a.isid == b.isid && a.base_vid < b.base_vid),
{
}

/// Configured services are ordered by B-MAC, then by Base VID.
pub proof fn service_keys_ordered(a: SpbServiceKey, b: SpbServiceKey)
    ensures
        a.ordinal() < b.ordinal() <==> a.bmac.ordinal() < b.bmac.ordinal() || (a.bmac.ordinal() == b.bmac.ordinal()
            && a.base_vid < b.base_vid),
{
    lemma_short_pair_order(a.bmac.ordinal() as int, a.base_vid as int, b.bmac.ordinal() as int, b.base_vid as int);
}

/// Trees are ordered by MT-ID, then Base VID, then algorithm, then root.
pub proof fn tree_keys_ordered(a: TreeKey, b: TreeKey)
    ensures
        a.mt_id < b.mt_id ==> a.ordinal() < b.ordinal(),
        a.mt_id == b.mt_id && a.base_vid < b.base_vid ==> a.ordinal() < b.ordinal(),
        a.mt_id == b.mt_id && a.base_vid == b.base_vid && a.algorithm.0 < b.algorithm.0 ==> a.ordinal() < b.ordinal(),
        a.mt_id == b.mt_id && a.base_vid == b.base_vid && a.algorithm == b.algorithm && a.root.ordinal() < b.root.ordinal()
            ==> a.ordinal() < b.ordinal(),
{
    lemma_node_ordinal_bound(a.root);
    lemma_node_ordinal_bound(b.root);
}

proof fn lemma_pair_order(a: int, b: int, x: int, y: int)
    requires
        0 <= b < 0x1_0000_0000_0000,
        0 <= y < 0x1_0000_0000_0000,
    ensures
        a * 0x1_0000_0000_0000 + b < x * 0x1_0000_0000_0000 + y <==> a < x || (a == x && b < y),
{
}

proof fn lemma_short_pair_order(a: int, b: int, x: int, y: int)
    requires
        0 <= b < 0x1_0000,
        0 <= y < 0x1_0000,
    ensures
        a * 0x1_0000 + b < x * 0x1_0000 + y <==> a < x || (a == x && b < y),
{
}

/// The ordered form of a finite set lists each element once, smaller numbers
/// ahead of greater ones.
pub proof fn ordered_lists_each_once<K: Key>(s: Set<K>, i: int, j: int)
    requires
        s.finite(),
        0 <= i < j < ordered(s).len(),
    ensures
        ordered(s)[i].ordinal() < ordered(s)[j].ordinal(),
        s.contains(ordered(s)[i]),
        ordered(s).len() == s.len(),
{
    lemma_ordered_exists(s);
    assert(ordered(s).to_set().contains(ordered(s)[i]));
}

/// An ECT-ALGORITHM is its OUI followed by its index, and a standard one has
/// the IEEE 802.1 OUI and an index from 1 to 16.
pub proof fn algorithm_is_oui_then_index(algo: EctAlgorithm)
    ensures
        algo.0 == algo.spec_oui() * 0x100 + algo.spec_index(),
        0 <= algo.spec_index() < 0x100,
        algo.spec_is_standard() <==> 0x0080_c201 <= algo.0 <= 0x0080_c210,
{
}

/// The masks of the sixteen standard algorithms, by index.
pub proof fn masks_of_standard_algorithms()
    ensures
        ECT_MASK@[1] == 0x00 && ECT_MASK@[2] == 0xff && ECT_MASK@[3] == 0x88 && ECT_MASK@[4] == 0x77,
        ECT_MASK@[5] == 0x44 && ECT_MASK@[6] == 0x33 && ECT_MASK@[7] == 0xcc && ECT_MASK@[8] == 0xbb,
        ECT_MASK@[9] == 0x22 && ECT_MASK@[10] == 0x11 && ECT_MASK@[11] == 0x66 && ECT_MASK@[12] == 0x55,
        ECT_MASK@[13] == 0xaa && ECT_MASK@[14] == 0x99 && ECT_MASK@[15] == 0xdd && ECT_MASK@[16] == 0xee,
{
}

/// Each byte of a masked BridgeID is the byte of the BridgeID XORed with the
/// mask of the algorithm's index, for all sixteen standard algorithms. Any
/// other algorithm has the mask of index 1.
pub proof fn masked_byte_by_byte(id: BridgeId, algo: EctAlgorithm, i: int)
    requires
        0 <= i < 8,
    ensures
        algo.0 as int / 0x100 == 0x0080c2 && 1 <= algo.0 as int % 0x100 <= 16 ==> id.spec_masked(algo)@[i] == id.0@[i]
            ^ ECT_MASK@[algo.0 as int % 0x100],
        !(algo.0 as int / 0x100 == 0x0080c2 && 1 <= algo.0 as int % 0x100 <= 16) ==> id.spec_masked(algo)@[i] == id.0@[i]
            ^ ECT_MASK@[1],
{
}

/// Masking twice gives the BridgeID back.
pub proof fn masking_twice_restores(id: BridgeId, other: BridgeId, algo: EctAlgorithm, i: int)
    requires
        0 <= i < 8,
        other.0 == id.spec_masked(algo),
    ensures
        other.spec_masked(algo)@[i] == id.0@[i],
{
    let m = algo.spec_mask();
    let b: u8 = id.0@[i];
    assert(other.0@[i] == b ^ m);
    assert(other.spec_masked(algo)@[i] == (b ^ m) ^ m);
    assert((b ^ m) ^ m == b) by (bit_vector);
}

/// Two nodes are told apart by the first byte in which their BridgeIDs differ:
/// the one whose masked byte is smaller contributes the smaller number.
pub proof fn masked_order_decided_by_first_difference(a: BridgeId, b: BridgeId, algo: EctAlgorithm, k: int)
    requires
        0 <= k < 8,
        forall|i: int| 0 <= i < k ==> a.0@[i] == b.0@[i],
        algo.0 as int / 0x100 == 0x0080c2,
        1 <= algo.0 as int % 0x100 <= 16,
        (a.0@[k] ^ ECT_MASK@[algo.0 as int % 0x100]) < (b.0@[k] ^ ECT_MASK@[algo.0 as int % 0x100]),
    ensures
        a.masked_value(algo) < b.masked_value(algo),
{
    let p = a.spec_masked(algo)@;
    let q = b.spec_masked(algo)@;
    assert forall|i: int| 0 <= i < k implies p[i] == q[i] by {
        masked_byte_by_byte(a, algo, i);
        masked_byte_by_byte(b, algo, i);
        assert(a.0@[i] == b.0@[i]);
    }
    masked_byte_by_byte(a, algo, k);
    masked_byte_by_byte(b, algo, k);
    eight_bytes_ordered_by_first_difference(p, q, k);
}

/// A BridgeID is the priority followed by the System ID, so that the priority
/// dominates.
pub proof fn bridge_id_is_priority_then_system_id(priority: u16, id: NodeId, i: int)
    requires
        0 <= i < 6,
    ensures
        BridgeId::of(priority, id@).0@[0] == priority as int / 0x100,
        BridgeId::of(priority, id@).0@[1] == priority as int % 0x100,
        BridgeId::of(priority, id@).0@[i + 2] == id@[i],
{
    lemma_node_len(id);
}

/// Of two sequences the one with the smaller number at the first difference
/// comes first, whatever their lengths.
pub proof fn lexicographic_order_decided_by_first_difference(a: Seq<nat>, b: Seq<nat>, k: int)
    requires
        0 <= k < a.len(),
        k < b.len(),
        forall|i: int| 0 <= i < k ==> a[i] == b[i],
        a[k] < b[k],
    ensures
        lex_lt(a, b),
        !lex_lt(b, a),
{
    assert(agree(a, b, k));
    assert(falls_below(a, b, k));
    lemma_lex_asymmetric(a, b);
}

/// A sequence comes before its extensions.
pub proof fn prefix_comes_first(a: Seq<nat>, b: Seq<nat>)
    requires
        a.len() < b.len(),
        forall|i: int| 0 <= i < a.len() ==> a[i] == b[i],
    ensures
        lex_lt(a, b),
        !lex_lt(b, a),
{
    assert(agree(a, b, a.len() as int));
    assert(falls_below(a, b, a.len() as int));
    lemma_lex_asymmetric(a, b);
}

/// A rank comes before another one by lower cost, then by fewer hops, then by
/// the lower PATHID, and in no other way.
pub proof fn rank_by_cost_then_hops_then_path_id(a: PathRank, b: PathRank)
    ensures
        a.cost < b.cost ==> a.before(b) && !b.before(a),
        a.cost == b.cost && a.hops < b.hops ==> a.before(b) && !b.before(a),
        a.cost == b.cost && a.hops == b.hops ==> (a.before(b) <==> lex_lt(a.path_id.values(), b.path_id.values())),
{
}

/// Adding a node to a PATHID adds its number, where it belongs.
pub proof fn with_number_adds_one(s: Seq<nat>, x: nat, y: nat)
    requires
        is_sorted(s),
    ensures
        with_number(s, x).len() == s.len() + 1,
        with_number(s, x).to_multiset().count(y) == s.to_multiset().count(y) + if x == y {
            1nat
        } else {
            0nat
        },
        forall|i: int, j: int| 0 <= i <= j < with_number(s, x).len() ==> with_number(s, x)[i] <= with_number(s, x)[j],
{
    lemma_with_number(s, x);
}

/// The numbers of a PATHID are those its masked BridgeIDs spell out.
pub proof fn path_id_values_spelled_out(id: PathId, i: int)
    requires
        0 <= i < id@.len(),
    ensures
        id.values().len() == id@.len(),
        id.values()[i] == eight_bytes(id@[i]@),
{
}

/// A group address, bit by bit: 3 in the low half of the first byte, then the
/// 20 bits of the SPSourceID and the 24 bits of the I-SID.
pub proof fn group_address_layout(spsource_id: u32, isid: u32)
    ensures
        group_bytes(spsource_id, isid).len() == 6,
        group_bytes(spsource_id, isid)[0] as int % 0x10 == 3,
        group_bytes(spsource_id, isid)[0] as int / 0x10 == spsource_id as int / 0x1_0000 % 0x10,
        group_bytes(spsource_id, isid)[1] == spsource_id as int / 0x100 % 0x100,
        group_bytes(spsource_id, isid)[2] == spsource_id as int % 0x100,
        group_bytes(spsource_id, isid)[3] == isid as int / 0x1_0000 % 0x100,
        group_bytes(spsource_id, isid)[4] == isid as int / 0x100 % 0x100,
        group_bytes(spsource_id, isid)[5] == isid as int % 0x100,
{
}

/// What an address holds, byte by byte.
pub proof fn group_address_parts(bmac: MacAddr)
    ensures
        is_group(bmac) <==> bmac@[0] as int % 0x10 == 3,
        group_spsource_id(bmac) == bmac@[0] as int / 0x10 * 0x1_0000 + bmac@[1] * 0x100 + bmac@[2],
        group_isid(bmac) == bmac@[3] * 0x1_0000 + bmac@[4] * 0x100 + bmac@[5],
{
}

/// Bytes are written as two lower-case hexadecimal digits each, the high one
/// first, and in order.
pub proof fn bytes_as_hex_digits(s: Seq<u8>, i: int)
    requires
        0 <= i < s.len(),
    ensures
        hex_bytes(s).len() == 2 * s.len(),
        s[i] as int / 16 < 10 ==> hex_bytes(s)[2 * i] as int == '0' as int + s[i] as int / 16,
        s[i] as int / 16 >= 10 ==> hex_bytes(s)[2 * i] as int == 'a' as int + s[i] as int / 16 - 10,
        s[i] as int % 16 < 10 ==> hex_bytes(s)[2 * i + 1] as int == '0' as int + s[i] as int % 16,
        s[i] as int % 16 >= 10 ==> hex_bytes(s)[2 * i + 1] as int == 'a' as int + s[i] as int % 16 - 10,
    decreases s.len(),
{
    let q = s.drop_last();
    if i < q.len() {
        bytes_as_hex_digits(q, i);
        assert(q[i] == s[i]);
    } else {
        lemma_hex_len(q);
    }
}

proof fn lemma_hex_len(s: Seq<u8>)
    ensures
        hex_bytes(s).len() == 2 * s.len(),
    decreases s.len(),
{
    if s.len() > 0 {
        lemma_hex_len(s.drop_last());
    }
}

/// The BridgeIDs of a PATHID are written one after the other, each but the
/// first behind a colon.
pub proof fn path_id_text_is_joined(s: Seq<[u8; 8]>, e: [u8; 8])
    ensures
        joined(Seq::empty()) == Seq::<char>::empty(),
        s.len() == 0 ==> joined(s.push(e)) == hex_bytes(e@),
        s.len() > 0 ==> joined(s.push(e)) == joined(s) + seq![':'] + hex_bytes(e@),
{
    reveal_strlit(":");
    assert(":"@ =~= seq![':']);
    assert(s.push(e).drop_last() =~= s);
}

/// The ranges of the numbers that addresses are built from, and the SPSourceID
/// that stands for none.
pub proof fn number_ranges()
    ensures
        ISID_MAX == 0xff_ffff,
        SPSOURCE_ID_MAX == 0xf_ffff,
        SPSOURCE_ID_UNASSIGNED == 0,
        ISID_CONTROL == 0xfff,
        AGREEMENT_MODULUS == 4,
        DIGEST_LEN == 32,
        ECT_ALG_DEFAULT == 0x0080_c201,
{
}

} // verus!
