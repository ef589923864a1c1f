//! Node identity within an SPB region.

use vstd::prelude::*;
use vstd::string::StringExecFns;

use crate::ordmap::Key;
use crate::text::{hex_byte, hex_bytes, push_hex_byte};

verus! {

/// The number that six bytes spell out, most significant first.
pub open spec fn six_bytes(s: Seq<u8>) -> nat {
    (s[0] * 0x100_0000_0000 + s[1] * 0x1_0000_0000 + s[2] * 0x100_0000 + s[3] * 0x1_0000 + s[4] * 0x100 + s[5]) as nat
}

/// Computes the number that six bytes spell out.
pub fn six_bytes_value(bytes: &[u8; 6]) -> (value: u64)
    ensures
        value == six_bytes(bytes@),
        value < 0x1_0000_0000_0000,
{
    bytes[0] as u64 * 0x100_0000_0000 + bytes[1] as u64 * 0x1_0000_0000 + bytes[2] as u64 * 0x100_0000 + bytes[3] as u64
        * 0x1_0000 + bytes[4] as u64 * 0x100 + bytes[5] as u64
}

/// Appending a byte to a number keeps both apart.
pub proof fn lemma_byte_split(x: int, y: int, d: u8, e: u8)
    requires
        x * 0x100 + d == y * 0x100 + e,
    ensures
        x == y,
        d == e,
{
}

/// Six bytes are determined by the number that they spell out.
pub proof fn lemma_six_bytes_injective(a: [u8; 6], b: [u8; 6])
    requires
        six_bytes(a@) == six_bytes(b@),
    ensures
        a == b,
{
    let p1 = a[0] * 0x100 + a[1];
    let q1 = b[0] * 0x100 + b[1];
    let p2 = p1 * 0x100 + a[2];
    let q2 = q1 * 0x100 + b[2];
    let p3 = p2 * 0x100 + a[3];
    let q3 = q2 * 0x100 + b[3];
    let p4 = p3 * 0x100 + a[4];
    let q4 = q3 * 0x100 + b[4];
    lemma_byte_split(p4, q4, a[5], b[5]);
    lemma_byte_split(p3, q3, a[4], b[4]);
    lemma_byte_split(p2, q2, a[3], b[3]);
    lemma_byte_split(p1, q1, a[2], b[2]);
    lemma_byte_split(a[0] as int, b[0] as int, a[1], b[1]);
    assert(a@ =~= b@);
    assert(a =~= b);
}

/// A 48-bit node identifier, equal to the advertising router's IS-IS System
/// ID.
#[derive(Clone, Copy, Debug, Default, Eq, Hash, Ord, PartialEq, PartialOrd)]
pub struct NodeId([u8; 6]);

impl View for NodeId {
    type V = Seq<u8>;

    closed spec fn view(&self) -> Seq<u8> {
        self.0@
    }
}

impl Key for NodeId {
    /// Identifiers are ordered by their bytes, the first one dominating.
    open spec fn ordinal(self) -> nat {
        six_bytes(self@)
    }

    proof fn ordinal_injective(a: Self, b: Self) {
        lemma_six_bytes_injective(a.0, b.0);
    }

    fn ordinal_value(&self) -> (value: u128) {
        six_bytes_value(&self.0) as u128
    }
}

/// A System ID is ordered by a 48-bit number.
pub proof fn lemma_node_ordinal_bound(id: NodeId)
    ensures
        id.ordinal() < 0x1_0000_0000_0000,
{
}

/// A System ID has six bytes.
pub proof fn lemma_node_len(id: NodeId)
    ensures
        id@.len() == 6,
{
}

/// Six bytes make one, and it is determined by them.
pub proof fn lemma_node_of(bytes: Seq<u8>)
    requires
        bytes.len() == 6,
    ensures
        NodeId::of(bytes)@ == bytes,
        forall|x: NodeId| #[trigger] x@ == bytes ==> x == NodeId::of(bytes),
{
    assert(NodeId::of(bytes)@ =~= bytes);
    assert forall|x: NodeId| #[trigger] x@ == bytes implies x == NodeId::of(bytes) by {
        NodeId::ordinal_injective(x, NodeId::of(bytes));
    }
}

impl NodeId {
    pub const LENGTH: usize = 6;

    /// The one with given bytes.
    pub closed spec fn of(bytes: Seq<u8>) -> NodeId {
        NodeId([bytes[0], bytes[1], bytes[2], bytes[3], bytes[4], bytes[5]])
    }

    pub fn new(bytes: [u8; 6]) -> (id: Self)
        ensures
            id@ == bytes@,
            id == NodeId::of(bytes@),
    {
        assert(bytes =~= [bytes@[0], bytes@[1], bytes@[2], bytes@[3], bytes@[4], bytes@[5]]);
        NodeId(bytes)
    }

    pub fn as_bytes(&self) -> (bytes: [u8; 6])
        ensures
            bytes@ == self@,
    {
        self.0
    }

    /// Returns whether both identifiers name the same node.
    pub fn same(&self, other: &NodeId) -> (b: bool)
        ensures
            b == (*self == *other),
    {
        proof {
            if self.ordinal() == other.ordinal() {
                NodeId::ordinal_injective(*self, *other);
            }
        }
        self.ordinal_value() == other.ordinal_value()
    }

    /// Returns the identifier as three dot-separated groups of four
    /// hexadecimal digits.
    pub fn to_string(&self) -> (text: String)
        ensures
            text@ == hex_bytes(self@.subrange(0, 2)) + "."@ + hex_bytes(self@.subrange(2, 4)) + "."@
                + hex_bytes(self@.subrange(4, 6)),
    {
        let b = self.0;
        let mut text = String::new();
        push_hex_byte(&mut text, b[0]);
        push_hex_byte(&mut text, b[1]);
        text.append(".");
        push_hex_byte(&mut text, b[2]);
        push_hex_byte(&mut text, b[3]);
        text.append(".");
        push_hex_byte(&mut text, b[4]);
        push_hex_byte(&mut text, b[5]);
        proof {
            lemma_hex_pair(self@, 0);
            lemma_hex_pair(self@, 2);
            lemma_hex_pair(self@, 4);
            assert(text@ =~= hex_bytes(self@.subrange(0, 2)) + "."@ + hex_bytes(
                self@.subrange(2, 4),
            ) + "."@ + hex_bytes(self@.subrange(4, 6)));
        }
        text
    }
}

/// The digits of two neighbouring bytes.
pub proof fn lemma_hex_pair(s: Seq<u8>, i: int)
    requires
        0 <= i,
        i + 2 <= s.len(),
    ensures
        hex_bytes(s.subrange(i, i + 2)) == hex_byte(s[i]) + hex_byte(s[i + 1]),
{
    let p = s.subrange(i, i + 2);
    assert(p.drop_last() =~= seq![s[i]]);
    assert(seq![s[i]].drop_last() =~= Seq::<u8>::empty());
    reveal_with_fuel(hex_bytes, 3);
    assert(hex_bytes(p) =~= hex_byte(s[i]) + hex_byte(s[i + 1]));
}

impl From<[u8; 6]> for NodeId {
    fn from(bytes: [u8; 6]) -> (id: NodeId) {
        NodeId::new(bytes)
    }
}

impl vstd::std_specs::convert::FromSpecImpl<[u8; 6]> for NodeId {
    open spec fn obeys_from_spec() -> bool {
        true
    }

    open spec fn from_spec(bytes: [u8; 6]) -> NodeId {
        NodeId::of(bytes@)
    }
}

} // verus!
