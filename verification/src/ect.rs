//! Equal Cost Tree (ECT) algorithms and path tie-breaking.
//!
//! RFC 6329, Sections 11 and 12.

use std::cmp::Ordering;

use vstd::prelude::*;
use vstd::std_specs::cmp::{PartialEqSpec, PartialOrdSpec};
use vstd::string::StringExecFns;

use crate::node::{lemma_byte_split, lemma_hex_pair};
use crate::order::{is_sorted, lex_lt, slot, with_number};
use crate::order::{
    agree, falls_below, lemma_lex_asymmetric, lemma_lex_irreflexive, lemma_lex_total, lemma_lex_transitive, lemma_slot,
    lemma_slot_unique, lemma_sorted_same, lemma_with_number,
};
use crate::text::{hex_byte, hex_bytes, push_hex_byte, push_hex_bytes};

verus! {

/// Byte-wise masks used to derive the 16 standard ECT algorithms from the
/// default tie-breaking rule.
///
/// Indexed by the low byte of the ECT-ALGORITHM (`0x00..=0x10`). Each entry is
/// a single byte that is XORed into *every* byte of a BridgeID.
///
/// `ECT_MASK[1]` is all zeros, yielding the default algorithm (lowest
/// BridgeID wins); `ECT_MASK[2]` is all ones, inverting the BridgeID so that
/// the highest BridgeID wins.
///
/// RFC 6329, Section 12.
pub const ECT_MASK: [u8; 17] = [
    0x00, 0x00, 0xFF, 0x88, 0x77, 0x44, 0x33, 0xCC, 0xBB, 0x22, 0x11, 0x66, 0x55, 0xAA, 0x99, 0xDD, 0xEE,
];

/// IEEE 802.1 OUI, occupying the top 24 bits of a standard ECT-ALGORITHM.
pub const ECT_OUI_IEEE8021: u32 = 0x00_80_c2;

/// Lowest standard ECT-ALGORITHM index.
pub const ECT_INDEX_MIN: u8 = 0x01;

/// Highest standard ECT-ALGORITHM index.
pub const ECT_INDEX_MAX: u8 = 0x10;

/// A 32-bit ECT-ALGORITHM identifier: a 24-bit OUI followed by an 8-bit index.
///
/// The 16 standard SPB algorithms are `00-80-C2-01` through `00-80-C2-10`.
#[derive(Clone, Copy, Debug, Eq, Ord, PartialEq, PartialOrd, Structural)]
pub struct EctAlgorithm(pub u32);

/// The number of the default ECT-ALGORITHM, `00-80-C2-01`.
pub const ECT_ALG_DEFAULT: u32 = 0x0080_c201;

impl EctAlgorithm {
    /// The top 24 bits.
    pub open spec fn spec_oui(self) -> int {
        self.0 as int / 0x100
    }

    /// The low byte.
    pub open spec fn spec_index(self) -> int {
        self.0 as int % 0x100
    }

    /// One of the 16 standard algorithms.
    pub open spec fn spec_is_standard(self) -> bool {
        self.spec_oui() == ECT_OUI_IEEE8021 && ECT_INDEX_MIN <= self.spec_index() <= ECT_INDEX_MAX
    }

    /// The byte that this algorithm masks a BridgeID with.
    pub open spec fn spec_mask(self) -> u8 {
        if self.spec_is_standard() {
            ECT_MASK@[self.spec_index()]
        } else {
            ECT_MASK@[1]
        }
    }

    /// Builds a standard IEEE 802.1 ECT-ALGORITHM from its index.
    ///
    /// Returns `None` unless the index is within `0x01..=0x10`.
    pub fn from_index(index: u8) -> (algo: Option<Self>)
        ensures
            match algo {
                Some(a) => ECT_INDEX_MIN <= index <= ECT_INDEX_MAX && a.spec_oui() == ECT_OUI_IEEE8021 && a.spec_index()
                    == index,
                None => !(ECT_INDEX_MIN <= index <= ECT_INDEX_MAX),
            },
    {
        if index < ECT_INDEX_MIN || ECT_INDEX_MAX < index {
            return None;
        }
        Some(EctAlgorithm(ECT_OUI_IEEE8021 * 0x100 + index as u32))
    }

    /// Returns the 24-bit OUI.
    pub fn oui(self) -> (oui: u32)
        ensures
            oui == self.spec_oui(),
    {
        self.0 / 0x100
    }

    /// Returns the algorithm index (the low byte).
    pub fn index(self) -> (index: u8)
        ensures
            index == self.spec_index(),
    {
        (self.0 % 0x100) as u8
    }

    /// Returns whether this is one of the 16 standard IEEE 802.1 algorithms.
    pub fn is_standard(self) -> (b: bool)
        ensures
            b == self.spec_is_standard(),
    {
        self.oui() == ECT_OUI_IEEE8021 && ECT_INDEX_MIN <= self.index() && self.index() <= ECT_INDEX_MAX
    }

    /// Returns the tie-breaking mask for this algorithm.
    ///
    /// Non-standard (opaque) algorithms fall back to the default mask, since
    /// their tie-breaking is defined by the advertiser rather than by
    /// RFC 6329.
    pub fn mask(self) -> (mask: u8)
        ensures
            mask == self.spec_mask(),
            mask == ECT_MASK@[if self.0 as int / 0x100 == ECT_OUI_IEEE8021 && 1 <= self.0 as int % 0x100 <= 16 {
                self.0 as int % 0x100
            } else {
                1
            }],
    {
        let masks = ECT_MASK;
        if self.is_standard() {
            masks[self.index() as usize]
        } else {
            masks[1]
        }
    }

    /// Returns the four bytes in hexadecimal, separated by dashes.
    pub fn to_string(&self) -> (text: String)
        ensures
            text@ == hex_byte((self.0 as int / 0x100_0000) as u8) + "-"@ + hex_byte((self.0 as int / 0x1_0000 % 0x100) as u8)
                + "-"@ + hex_byte((self.0 as int / 0x100 % 0x100) as u8) + "-"@ + hex_byte((self.0 as int % 0x100) as u8),
    {
        let mut text = String::new();
        push_hex_byte(&mut text, (self.0 / 0x100_0000) as u8);
        text.append("-");
        push_hex_byte(&mut text, (self.0 / 0x1_0000 % 0x100) as u8);
        text.append("-");
        push_hex_byte(&mut text, (self.0 / 0x100 % 0x100) as u8);
        text.append("-");
        push_hex_byte(&mut text, (self.0 % 0x100) as u8);
        assert(text@ =~= hex_byte((self.0 as int / 0x100_0000) as u8) + "-"@ + hex_byte(
            (self.0 as int / 0x1_0000 % 0x100) as u8,
        ) + "-"@ + hex_byte((self.0 as int / 0x100 % 0x100) as u8) + "-"@ + hex_byte((self.0 as int % 0x100) as u8));
        text
    }
}

/// The number that eight bytes spell out, most significant first.
pub open spec fn eight_bytes(s: Seq<u8>) -> nat {
    (s[0] * 0x100_0000_0000_0000 + s[1] * 0x1_0000_0000_0000 + s[2] * 0x100_0000_0000 + s[3] * 0x1_0000_0000 + s[4]
        * 0x100_0000 + s[5] * 0x1_0000 + s[6] * 0x100 + s[7]) as nat
}

/// Computes the number that eight bytes spell out.
pub fn eight_bytes_value(b: &[u8; 8]) -> (value: u64)
    ensures
        value == eight_bytes(b@),
{
    b[0] as u64 * 0x100_0000_0000_0000 + b[1] as u64 * 0x1_0000_0000_0000 + b[2] as u64 * 0x100_0000_0000 + b[3] as u64
        * 0x1_0000_0000 + b[4] as u64 * 0x100_0000 + b[5] as u64 * 0x1_0000 + b[6] as u64 * 0x100 + b[7] as u64
}

/// Eight bytes are determined by the number that they spell out.
pub proof fn lemma_eight_bytes_injective(a: [u8; 8], b: [u8; 8])
    requires
        eight_bytes(a@) == eight_bytes(b@),
    ensures
        a == b,
{
    let p1 = a[0] * 0x100 + a[1];
    let q1 = b[0] * 0x100 + b[1];
    let p2 = p1 * 0x100 + a[2];
    let q2 = q1 * 0x100 + b[2];
    let p3 = p2 * 0x100 + a[3];
    let q3 = q2 * 0x100 + b[3];
    let p4 = p3 * 0x100 + a[4];
    let q4 = q3 * 0x100 + b[4];
    let p5 = p4 * 0x100 + a[5];
    let q5 = q4 * 0x100 + b[5];
    let p6 = p5 * 0x100 + a[6];
    let q6 = q5 * 0x100 + b[6];
    lemma_byte_split(p6, q6, a[7], b[7]);
    lemma_byte_split(p5, q5, a[6], b[6]);
    lemma_byte_split(p4, q4, a[5], b[5]);
    lemma_byte_split(p3, q3, a[4], b[4]);
    lemma_byte_split(p2, q2, a[3], b[3]);
    lemma_byte_split(p1, q1, a[2], b[2]);
    lemma_byte_split(a[0] as int, b[0] as int, a[1], b[1]);
    assert(a@ =~= b@);
    assert(a =~= b);
}

/// An 802.1 Bridge Identifier: a 16-bit Bridge Priority followed by the
/// 48-bit IS-IS System ID.
///
/// Ordering is by the raw 8-byte value, so the Bridge Priority dominates and
/// gives the operator control over ECT path selection.
#[derive(Clone, Copy, Debug, Default, Eq, Ord, PartialEq, PartialOrd)]
pub struct BridgeId(pub [u8; 8]);

impl BridgeId {
    /// The bytes with an algorithm's mask XORed into each.
    pub open spec fn spec_masked(self, algo: EctAlgorithm) -> [u8; 8] {
        let m = algo.spec_mask();
        [
            self.0[0] ^ m,
            self.0[1] ^ m,
            self.0[2] ^ m,
            self.0[3] ^ m,
            self.0[4] ^ m,
            self.0[5] ^ m,
            self.0[6] ^ m,
            self.0[7] ^ m,
        ]
    }

    /// The number that a BridgeID is ordered by once an algorithm has masked
    /// it.
    pub open spec fn masked_value(self, algo: EctAlgorithm) -> nat {
        eight_bytes(self.spec_masked(algo)@)
    }

    /// The identifier with a given priority and System ID.
    pub open spec fn of(priority: u16, system_id: Seq<u8>) -> BridgeId {
        BridgeId(
            [
                (priority as int / 0x100) as u8,
                (priority as int % 0x100) as u8,
                system_id[0],
                system_id[1],
                system_id[2],
                system_id[3],
                system_id[4],
                system_id[5],
            ],
        )
    }

    pub fn new(priority: u16, system_id: [u8; 6]) -> (id: Self)
        ensures
            id == BridgeId::of(priority, system_id@),
            id.0@ == seq![(priority as int / 0x100) as u8, (priority as int % 0x100) as u8] + system_id@,
    {
        let s = system_id;
        let id = BridgeId([(priority / 0x100) as u8, (priority % 0x100) as u8, s[0], s[1], s[2], s[3], s[4], s[5]]);
        assert(id.0@ =~= seq![(priority as int / 0x100) as u8, (priority as int % 0x100) as u8] + system_id@);
        assert(id.0 =~= BridgeId::of(priority, system_id@).0);
        id
    }

    pub fn priority(&self) -> (priority: u16)
        ensures
            priority == self.0@[0] * 0x100 + self.0@[1],
    {
        self.0[0] as u16 * 0x100 + self.0[1] as u16
    }

    pub fn system_id(&self) -> (system_id: [u8; 6])
        ensures
            system_id@ == self.0@.subrange(2, 8),
    {
        let b = self.0;
        let system_id = [b[2], b[3], b[4], b[5], b[6], b[7]];
        assert(system_id@ =~= self.0@.subrange(2, 8));
        system_id
    }

    /// Returns this BridgeID XORed byte-by-byte with an algorithm's mask.
    ///
    /// RFC 6329, Section 12:
    /// `XOR BYTE BY BYTE(ECT-MASK{ECT-ALGORITHM.index}, BridgeID)`.
    pub fn masked(&self, algo: EctAlgorithm) -> (bytes: [u8; 8])
        ensures
            bytes == self.spec_masked(algo),
            forall|i: int|
                0 <= i < 8 ==> #[trigger] bytes@[i] == self.0@[i] ^ ECT_MASK@[if algo.0 as int / 0x100
                    == ECT_OUI_IEEE8021 && 1 <= algo.0 as int % 0x100 <= 16 {
                    algo.0 as int % 0x100
                } else {
                    1
                }],
    {
        let mask: u8 = algo.mask();
        let b = self.0;
        let bytes = [
            b[0] ^ mask,
            b[1] ^ mask,
            b[2] ^ mask,
            b[3] ^ mask,
            b[4] ^ mask,
            b[5] ^ mask,
            b[6] ^ mask,
            b[7] ^ mask,
        ];
        assert(bytes =~= self.spec_masked(algo));
        bytes
    }

    /// Returns the identifier as four dot-separated groups of four
    /// hexadecimal digits.
    pub fn to_string(&self) -> (text: String)
        ensures
            text@ == hex_bytes(self.0@.subrange(0, 2)) + "."@ + hex_bytes(self.0@.subrange(2, 4)) + "."@ + hex_bytes(
                self.0@.subrange(4, 6),
            ) + "."@ + hex_bytes(self.0@.subrange(6, 8)),
    {
        let b = self.0;
        let mut text = String::new();
        push_hex_byte(&mut text, b[0]);
        push_hex_byte(&mut text, b[1]);
        text.append(".");
        push_hex_byte(&mut text, b[2]);
        push_hex_byte(&mut text, b[3]);
        text.append(".");
        push_hex_byte(&mut text, b[4]);
        push_hex_byte(&mut text, b[5]);
        text.append(".");
        push_hex_byte(&mut text, b[6]);
        push_hex_byte(&mut text, b[7]);
        proof {
            lemma_hex_pair(self.0@, 0);
            lemma_hex_pair(self.0@, 2);
            lemma_hex_pair(self.0@, 4);
            lemma_hex_pair(self.0@, 6);
            assert(text@ =~= hex_bytes(self.0@.subrange(0, 2)) + "."@ + hex_bytes(self.0@.subrange(2, 4)) + "."@
                + hex_bytes(self.0@.subrange(4, 6)) + "."@ + hex_bytes(self.0@.subrange(6, 8)));
        }
        text
    }
}

/// Masking keeps distinct BridgeIDs distinct.
pub proof fn lemma_masked_injective(a: BridgeId, b: BridgeId, algo: EctAlgorithm)
    requires
        a.masked_value(algo) == b.masked_value(algo),
    ensures
        a == b,
{
    let m = algo.spec_mask();
    let x = a.0;
    let y = b.0;
    let p = a.spec_masked(algo);
    let q = b.spec_masked(algo);
    lemma_eight_bytes_injective(p, q);
    assert forall|i: int| 0 <= i < 8 implies x@[i] == y@[i] by {
        let s: u8 = x@[i];
        let t: u8 = y@[i];
        assert(p@[i] == s ^ m);
        assert(q@[i] == t ^ m);
        assert(s ^ m == t ^ m ==> s == t) by (bit_vector);
    }
    assert(x@ =~= y@);
    assert(x =~= y);
}

/// The numbers that a sequence of masked BridgeIDs is ordered by.
pub open spec fn masked_values(s: Seq<[u8; 8]>) -> Seq<nat> {
    Seq::new(s.len(), |i: int| eight_bytes(s[i]@))
}

/// Masked BridgeIDs are determined by the numbers they are ordered by.
pub proof fn lemma_masked_values_injective(s: Seq<[u8; 8]>, t: Seq<[u8; 8]>)
    requires
        masked_values(s) == masked_values(t),
    ensures
        s == t,
{
    let a = masked_values(s);
    let b = masked_values(t);
    assert(a.len() == s.len() && b.len() == t.len());
    assert forall|i: int| 0 <= i < s.len() implies s[i] == t[i] by {
        assert(a[i] == eight_bytes(s[i]@));
        assert(b[i] == eight_bytes(t[i]@));
        lemma_eight_bytes_injective(s[i], t[i]);
    }
    assert(s =~= t);
}

/// The identity of a path, used as the final tie-breaker between two
/// equal-cost, equal-hop-count paths.
///
/// RFC 6329, Section 11, states the tie-break as "the (sub)path traversing the
/// intermediate node with the lower BridgeID". Comparing only the immediate
/// intermediate node is not transitive, yet transitivity is explicitly
/// required ("shortest path is made up of sub-shortest paths"). This type
/// therefore implements the tie-break the way IEEE 802.1aq does, as a PATHID:
/// the *sorted* set of masked BridgeIDs of the nodes the path traverses,
/// compared lexicographically.
///
/// Sorting rather than preserving path order is what makes the comparison
/// symmetric: a path and its reverse produce an identical PATHID. Lexicographic
/// comparison of sorted sets is transitive.
#[derive(Debug, Eq, Ord)]
pub struct PathId(Vec<[u8; 8]>);

impl View for PathId {
    type V = Seq<[u8; 8]>;

    closed spec fn view(&self) -> Seq<[u8; 8]> {
        self.0@
    }
}

/// Masked BridgeIDs in hexadecimal, separated by colons.
pub open spec fn joined(s: Seq<[u8; 8]>) -> Seq<char>
    decreases s.len(),
{
    if s.len() == 0 {
        Seq::empty()
    } else if s.len() == 1 {
        hex_bytes(s[0]@)
    } else {
        joined(s.drop_last()) + ":"@ + hex_bytes(s.last()@)
    }
}

impl PathId {
    /// The numbers of the traversed nodes, in increasing order.
    pub open spec fn values(self) -> Seq<nat> {
        masked_values(self@)
    }

    #[verifier::type_invariant]
    spec fn sorted(self) -> bool {
        is_sorted(masked_values(self.0@))
    }

    /// An empty PATHID, for a path that traverses no intermediate nodes.
    pub fn empty() -> (id: Self)
        ensures
            id@ == Seq::<[u8; 8]>::empty(),
            id.values() == Seq::<nat>::empty(),
    {
        let id = PathId(Vec::new());
        assert(id.values() =~= Seq::<nat>::empty());
        id
    }

    /// Builds a PATHID from the masked BridgeIDs of the traversed nodes.
    pub fn from_masked(masked: Vec<[u8; 8]>) -> (id: Self)
        ensures
            is_sorted(id.values()),
            id@.to_multiset() == masked@.to_multiset(),
    {
        let mut id = PathId::empty();
        assert(masked@.take(0) =~= id@);
        for i in 0..masked.len()
            invariant
                is_sorted(id.values()),
                id@.to_multiset() == masked@.take(i as int).to_multiset(),
        {
            let ghost before = id@;
            id = id.with_entry(masked[i]);
            proof {
                let e = masked@[i as int];
                lemma_with_number(masked_values(before), eight_bytes(e@));
                let p = slot(masked_values(before), eight_bytes(e@));
                lemma_slot(masked_values(before), eight_bytes(e@));
                vstd::seq_lib::to_multiset_insert(before, p, e);
                assert(masked@.take(i + 1) =~= masked@.take(i as int).push(e));
                masked@.take(i as int).to_multiset_ensures();
                vstd::seq_lib::to_multiset_build(masked@.take(i as int), e);
            }
        }
        assert(masked@.take(masked@.len() as int) =~= masked@);
        id
    }

    /// Returns a new PATHID with one masked BridgeID put where it belongs.
    fn with_entry(&self, entry: [u8; 8]) -> (id: Self)
        ensures
            is_sorted(self.values()),
            id@ == self@.insert(slot(self.values(), eight_bytes(entry@)), entry),
            id.values() == with_number(self.values(), eight_bytes(entry@)),
            is_sorted(id.values()),
    {
        proof {
            use_type_invariant(self);
        }
        let ghost x = eight_bytes(entry@);
        let ghost s = self.values();
        let target: u64 = eight_bytes_value(&entry);
        let mut masked: Vec<[u8; 8]> = Vec::new();
        let mut pos: usize = 0;
        while pos < self.0.len() && eight_bytes_value(&self.0[pos]) < target
            invariant
                target == x,
                s == masked_values(self.0@),
                0 <= pos <= self.0@.len(),
                masked@ == self.0@.take(pos as int),
                forall|i: int| 0 <= i < pos ==> #[trigger] s[i] < x,
            ensures
                pos < self.0@.len() ==> x <= s[pos as int],
            decreases self.0@.len() - pos,
        {
            masked.push(self.0[pos]);
            assert(self.0@.take(pos + 1) =~= self.0@.take(pos as int).push(self.0@[pos as int]));
            pos = pos + 1;
        }
        proof {
            assert forall|i: int| pos <= i < s.len() implies x <= #[trigger] s[i] by {
                assert(s[pos as int] <= s[i]);
            }
            lemma_slot_unique(s, x, pos as int);
            lemma_with_number(s, x);
        }
        masked.push(entry);
        let mut next: usize = pos;
        while next < self.0.len()
            invariant
                pos <= next <= self.0@.len(),
                masked@ == self.0@.take(next as int).insert(pos as int, entry),
            decreases self.0@.len() - next,
        {
            masked.push(self.0[next]);
            assert(self.0@.take(next + 1).insert(pos as int, entry) =~= self.0@.take(next as int).insert(pos as int, entry).push(
                self.0@[next as int],
            ));
            next = next + 1;
        }
        proof {
            assert(self.0@.take(next as int) =~= self.0@);
            assert(masked_values(masked@) =~= with_number(s, x));
        }
        PathId(masked)
    }

    /// Returns a new PATHID with `bridge_id` added to the traversed set.
    pub fn with_node(&self, bridge_id: BridgeId, algo: EctAlgorithm) -> (id: Self)
        ensures
            id@ == self@.insert(slot(self.values(), bridge_id.masked_value(algo)), bridge_id.spec_masked(algo)),
            id.values() == with_number(self.values(), bridge_id.masked_value(algo)),
            is_sorted(self.values()),
            is_sorted(id.values()),
    {
        self.with_entry(bridge_id.masked(algo))
    }

    /// Returns the number of traversed nodes.
    pub fn len(&self) -> (n: usize)
        ensures
            n == self@.len(),
    {
        self.0.len()
    }

    pub fn is_empty(&self) -> (b: bool)
        ensures
            b == (self@.len() == 0),
    {
        self.0.len() == 0
    }

    pub fn as_slice(&self) -> (slice: &[[u8; 8]])
        ensures
            slice@ == self@,
            is_sorted(masked_values(slice@)),
    {
        proof {
            use_type_invariant(self);
        }
        self.0.as_slice()
    }

    /// Returns the masked BridgeIDs in hexadecimal, separated by colons.
    pub fn to_string(&self) -> (text: String)
        ensures
            text@ == joined(self@),
    {
        let mut text = String::new();
        assert(text@ =~= joined(self@.take(0)));
        for i in 0..self.0.len()
            invariant
                text@ == joined(self@.take(i as int)),
        {
            let ghost now = self@.take(i + 1);
            assert(now.drop_last() =~= self@.take(i as int));
            assert(now.last() == self@[i as int]);
            if i != 0 {
                text.append(":");
            }
            push_hex_bytes(&mut text, &self.0[i]);
            assert(text@ =~= joined(now));
        }
        assert(self@.take(self@.len() as int) =~= self@);
        text
    }

    /// Returns whether this PATHID comes before another one.
    pub fn precedes(&self, other: &Self) -> (b: bool)
        ensures
            b == lex_lt(self.values(), other.values()),
            !b && !lex_lt(other.values(), self.values()) ==> self@ == other@,
            lex_lt(other.values(), self.values()) ==> self@ != other@,
    {
        let ghost a = self.values();
        let ghost b = other.values();
        proof {
            lemma_lex_irreflexive(a);
            if lex_lt(b, a) {
                lemma_lex_asymmetric(b, a);
            }
        }
        let mut i: usize = 0;
        while i < self.0.len() && i < other.0.len()
            invariant
                a == masked_values(self.0@),
                b == masked_values(other.0@),
                agree(a, b, i as int),
                lex_lt(b, a) ==> !lex_lt(a, b) && a != b,
            decreases self.0@.len() - i,
        {
            let x: u64 = eight_bytes_value(&self.0[i]);
            let y: u64 = eight_bytes_value(&other.0[i]);
            if x < y {
                assert(falls_below(a, b, i as int));
                return true;
            }
            if y < x {
                assert(falls_below(b, a, i as int));
                return false;
            }
            i = i + 1;
        }
        proof {
            if i < other.0@.len() {
                assert(falls_below(a, b, i as int));
            } else if i < self.0@.len() {
                assert(falls_below(b, a, i as int));
            } else {
                assert forall|j: int| 0 <= j < self@.len() implies self@[j] == other@[j] by {
                    assert(a[j] == b[j]);
                    lemma_eight_bytes_injective(self@[j], other@[j]);
                }
                assert(self@ =~= other@);
                assert(a == b);
            }
        }
        i < other.0.len()
    }
}

impl Clone for PathId {
    fn clone(&self) -> (id: Self)
        ensures
            id@ == self@,
    {
        proof {
            use_type_invariant(self);
        }
        let mut masked: Vec<[u8; 8]> = Vec::new();
        for i in 0..self.0.len()
            invariant
                masked@ == self.0@.take(i as int),
        {
            masked.push(self.0[i]);
            assert(self.0@.take(i + 1) =~= self.0@.take(i as int).push(self.0@[i as int]));
        }
        assert(self.0@.take(self.0@.len() as int) =~= self.0@);
        PathId(masked)
    }
}

impl Default for PathId {
    /// Returns the empty PATHID.
    fn default() -> (id: Self)
        ensures
            id@ == Seq::<[u8; 8]>::empty(),
    {
        PathId::empty()
    }
}

impl PartialEq for PathId {
    fn eq(&self, other: &Self) -> (b: bool) {
        proof {
            lemma_lex_irreflexive(self.values());
        }
        !self.precedes(other) && !other.precedes(self)
    }
}

impl vstd::std_specs::cmp::PartialEqSpecImpl for PathId {
    open spec fn obeys_eq_spec() -> bool {
        true
    }

    open spec fn eq_spec(&self, other: &Self) -> bool {
        self@ == other@
    }
}

impl PartialOrd for PathId {
    fn partial_cmp(&self, other: &Self) -> (order: Option<Ordering>) {
        if self.precedes(other) {
            Some(Ordering::Less)
        } else if other.precedes(self) {
            Some(Ordering::Greater)
        } else {
            Some(Ordering::Equal)
        }
    }
}

impl vstd::std_specs::cmp::PartialOrdSpecImpl for PathId {
    open spec fn obeys_partial_cmp_spec() -> bool {
        true
    }

    open spec fn partial_cmp_spec(&self, other: &Self) -> Option<Ordering> {
        if lex_lt(self.values(), other.values()) {
            Some(Ordering::Less)
        } else if self@ == other@ {
            Some(Ordering::Equal)
        } else {
            Some(Ordering::Greater)
        }
    }
}

/// A path's rank: cost, then hop count, then PATHID.
///
/// RFC 6329, Section 11: ties in cost go to the path with fewer hops, and
/// ties in both to the PATHID. The order is total, so among paths with
/// distinct PATHIDs there is exactly one best.
#[derive(Clone, Debug, Eq, Ord)]
pub struct PathRank<'a> {
    pub cost: u32,
    pub hops: u16,
    pub path_id: &'a PathId,
}

impl<'a> PathRank<'a> {
    /// This rank comes before another one.
    pub open spec fn before(self, other: PathRank<'a>) -> bool {
        ||| self.cost < other.cost
        ||| self.cost == other.cost && self.hops < other.hops
        ||| self.cost == other.cost && self.hops == other.hops && lex_lt(self.path_id.values(), other.path_id.values())
    }

    /// Both ranks are the same.
    pub open spec fn level(self, other: PathRank<'a>) -> bool {
        self.cost == other.cost && self.hops == other.hops && self.path_id@ == other.path_id@
    }

    /// Returns whether this rank comes before another one.
    pub fn precedes(&self, other: &Self) -> (b: bool)
        ensures
            b == self.before(*other),
    {
        if self.cost != other.cost {
            self.cost < other.cost
        } else if self.hops != other.hops {
            self.hops < other.hops
        } else {
            self.path_id.precedes(other.path_id)
        }
    }

    fn equals(&self, other: &Self) -> (b: bool)
        ensures
            b == self.level(*other),
            b ==> !self.before(*other),
            !b && !self.before(*other) ==> other.before(*self),
    {
        proof {
            lemma_lex_irreflexive(self.path_id.values());
        }
        self.cost == other.cost && self.hops == other.hops && !self.path_id.precedes(other.path_id) && !other.path_id.precedes(
            self.path_id,
        )
    }
}

impl<'a> PartialEq for PathRank<'a> {
    fn eq(&self, other: &Self) -> (b: bool) {
        self.equals(other)
    }
}

impl<'a> vstd::std_specs::cmp::PartialEqSpecImpl for PathRank<'a> {
    open spec fn obeys_eq_spec() -> bool {
        true
    }

    open spec fn eq_spec(&self, other: &Self) -> bool {
        self.level(*other)
    }
}

impl<'a> PartialOrd for PathRank<'a> {
    fn partial_cmp(&self, other: &Self) -> (order: Option<Ordering>) {
        if self.precedes(other) {
            Some(Ordering::Less)
        } else if self.equals(other) {
            Some(Ordering::Equal)
        } else {
            Some(Ordering::Greater)
        }
    }
}

impl<'a> vstd::std_specs::cmp::PartialOrdSpecImpl for PathRank<'a> {
    open spec fn obeys_partial_cmp_spec() -> bool {
        true
    }

    open spec fn partial_cmp_spec(&self, other: &Self) -> Option<Ordering> {
        if self.before(*other) {
            Some(Ordering::Less)
        } else if self.level(*other) {
            Some(Ordering::Equal)
        } else {
            Some(Ordering::Greater)
        }
    }
}

// ===== the laws of tie-breaking =====

/// Comparing ranks, or PATHIDs, with `==` and `<` goes by their fields.
pub proof fn operators_follow_fields<'a>(a: PathRank<'a>, b: PathRank<'a>)
    ensures
        a.eq_spec(&b) <==> a.cost == b.cost && a.hops == b.hops && a.path_id@ == b.path_id@,
        a.path_id.eq_spec(b.path_id) <==> a.path_id@ == b.path_id@,
        a.partial_cmp_spec(&b) == Some(Ordering::Less) <==> a.cost < b.cost || (a.cost == b.cost && (a.hops < b.hops || (a.hops
            == b.hops && lex_lt(a.path_id.values(), b.path_id.values())))),
        a.partial_cmp_spec(&b) == Some(Ordering::Equal) <==> a.cost == b.cost && a.hops == b.hops && a.path_id@ == b.path_id@,
        a.path_id.partial_cmp_spec(b.path_id) == Some(Ordering::Less) <==> lex_lt(a.path_id.values(), b.path_id.values()),
        a.path_id.partial_cmp_spec(b.path_id) == Some(Ordering::Equal) <==> a.path_id@ == b.path_id@,
        a.partial_cmp_spec(&b) is Some,
        a.path_id.partial_cmp_spec(b.path_id) is Some,
{
    lemma_lex_irreflexive(a.path_id.values());
}

/// The identity of a path does not depend on the order in which its nodes are
/// added.
pub proof fn path_id_order_independent(s: Seq<nat>, x: nat, y: nat)
    requires
        is_sorted(s),
    ensures
        with_number(with_number(s, x), y) == with_number(with_number(s, y), x),
{
    lemma_with_number(s, x);
    lemma_with_number(s, y);
    lemma_with_number(with_number(s, x), y);
    lemma_with_number(with_number(s, y), x);
    assert(s.to_multiset().insert(x).insert(y) =~= s.to_multiset().insert(y).insert(x));
    lemma_sorted_same(with_number(with_number(s, x), y), with_number(with_number(s, y), x));
}

/// The identity of a path is determined by the masked BridgeIDs of its nodes,
/// in whatever order they come.
pub proof fn path_id_determined(s: Seq<[u8; 8]>, t: Seq<[u8; 8]>)
    requires
        is_sorted(masked_values(s)),
        is_sorted(masked_values(t)),
        s.to_multiset() == t.to_multiset(),
    ensures
        s == t,
{
    let leq = |a: [u8; 8], b: [u8; 8]| eight_bytes(a@) <= eight_bytes(b@);
    assert forall|a: [u8; 8], b: [u8; 8]| #[trigger] leq(a, b) && #[trigger] leq(b, a) implies a == b by {
        lemma_eight_bytes_injective(a, b);
    }
    assert(vstd::relations::total_ordering(leq));
    assert forall|i: int, j: int| 0 <= i < j < s.len() implies #[trigger] leq(s[i], s[j]) by {
        assert(masked_values(s)[i] <= masked_values(s)[j]);
    }
    assert forall|i: int, j: int| 0 <= i < j < t.len() implies #[trigger] leq(t[i], t[j]) by {
        assert(masked_values(t)[i] <= masked_values(t)[j]);
    }
    vstd::seq_lib::lemma_sorted_unique(s, t, leq);
}

/// Of two ranks exactly one comes before the other, or they are the same.
pub proof fn path_rank_total(a: PathRank, b: PathRank)
    ensures
        a.before(b) || b.before(a) || a.level(b),
        a.before(b) ==> !b.before(a) && !a.level(b),
        a.level(b) ==> !a.before(b) && !b.before(a),
{
    lemma_lex_total(a.path_id.values(), b.path_id.values());
    lemma_lex_irreflexive(a.path_id.values());
    if lex_lt(a.path_id.values(), b.path_id.values()) {
        lemma_lex_asymmetric(a.path_id.values(), b.path_id.values());
    }
    if a.path_id.values() == b.path_id.values() {
        lemma_masked_values_injective(a.path_id@, b.path_id@);
    }
}

/// The order of ranks is transitive.
pub proof fn path_rank_transitive(a: PathRank, b: PathRank, c: PathRank)
    requires
        a.before(b),
        b.before(c),
    ensures
        a.before(c),
{
    if lex_lt(a.path_id.values(), b.path_id.values()) && lex_lt(b.path_id.values(), c.path_id.values()) {
        lemma_lex_transitive(a.path_id.values(), b.path_id.values(), c.path_id.values());
    }
}

/// The default algorithm leaves BridgeIDs as they are, so the lowest one wins.
pub proof fn default_algorithm_keeps_order(id: BridgeId)
    ensures
        id.spec_masked(EctAlgorithm(ECT_ALG_DEFAULT)) == id.0,
{
    let algo = EctAlgorithm(ECT_ALG_DEFAULT);
    let m = algo.spec_mask();
    assert(m == 0);
    let x = id.0;
    let p = id.spec_masked(algo);
    assert forall|i: int| 0 <= i < 8 implies p@[i] == x@[i] by {
        let b: u8 = x@[i];
        assert(p@[i] == b ^ 0);
        assert(b ^ 0 == b) by (bit_vector);
    }
    assert(p@ =~= x@);
    assert(p =~= x);
}

/// The second algorithm inverts every bit of a BridgeID, so the highest one
/// wins.
pub proof fn second_algorithm_inverts_order(a: BridgeId, b: BridgeId)
    ensures
        a.masked_value(EctAlgorithm(0x0080_c202)) < b.masked_value(EctAlgorithm(0x0080_c202)) <==> eight_bytes(b.0@)
            < eight_bytes(a.0@),
{
    lemma_inverted(a);
    lemma_inverted(b);
}

proof fn lemma_inverted(id: BridgeId)
    ensures
        id.masked_value(EctAlgorithm(0x0080_c202)) == 0xffff_ffff_ffff_ffff - eight_bytes(id.0@),
{
    let algo = EctAlgorithm(0x0080_c202);
    let x = id.0;
    let p = id.spec_masked(algo);
    assert(algo.spec_mask() == 0xff);
    assert forall|i: int| 0 <= i < 8 implies p@[i] == 0xff - x@[i] by {
        let b: u8 = x@[i];
        assert(p@[i] == b ^ 0xff);
        assert(b ^ 0xff == 0xffu8 - b) by (bit_vector);
    }
    assert(p@[0] == 0xff - x@[0] && p@[1] == 0xff - x@[1] && p@[2] == 0xff - x@[2] && p@[3] == 0xff - x@[3]);
    assert(p@[4] == 0xff - x@[4] && p@[5] == 0xff - x@[5] && p@[6] == 0xff - x@[6] && p@[7] == 0xff - x@[7]);
}

} // verus!
