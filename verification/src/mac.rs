//! MAC addresses.

use vstd::prelude::*;
use vstd::string::StringExecFns;

use crate::node::{lemma_six_bytes_injective, six_bytes, six_bytes_value};
use crate::ordmap::Key;
use crate::text::{hex_byte, push_hex_byte};

verus! {

/// A 48-bit MAC address.
#[derive(Clone, Copy, Debug, Default, Eq, Hash, Ord, PartialEq, PartialOrd)]
pub struct MacAddr([u8; 6]);

impl View for MacAddr {
    type V = Seq<u8>;

    closed spec fn view(&self) -> Seq<u8> {
        self.0@
    }
}

impl Key for MacAddr {
    /// Addresses are ordered by their bytes, the first one dominating.
    open spec fn ordinal(self) -> nat {
        six_bytes(self@)
    }

    proof fn ordinal_injective(a: Self, b: Self) {
        lemma_six_bytes_injective(a.0, b.0);
    }

    fn ordinal_value(&self) -> (value: u128) {
        six_bytes_value(&self.0) as u128
    }
}

/// An address is ordered by a 48-bit number.
pub proof fn lemma_mac_ordinal_bound(mac: MacAddr)
    ensures
        mac.ordinal() < 0x1_0000_0000_0000,
        mac@.len() == 6,
{
}

/// An address is determined by its bytes.
pub proof fn lemma_mac_bytes(a: MacAddr, b: MacAddr)
    requires
        a@ == b@,
    ensures
        a == b,
{
    lemma_six_bytes_injective(a.0, b.0);
}

/// Six bytes make one, and it is determined by them.
pub proof fn lemma_mac_of(bytes: Seq<u8>)
    requires
        bytes.len() == 6,
    ensures
        MacAddr::of(bytes)@ == bytes,
        forall|x: MacAddr| #[trigger] x@ == bytes ==> x == MacAddr::of(bytes),
{
    assert(MacAddr::of(bytes)@ =~= bytes);
    assert forall|x: MacAddr| #[trigger] x@ == bytes implies x == MacAddr::of(bytes) by {
        MacAddr::ordinal_injective(x, MacAddr::of(bytes));
    }
}

impl MacAddr {
    /// The one with given bytes.
    pub closed spec fn of(bytes: Seq<u8>) -> MacAddr {
        MacAddr([bytes[0], bytes[1], bytes[2], bytes[3], bytes[4], bytes[5]])
    }

    pub fn new(bytes: [u8; 6]) -> (mac: Self)
        ensures
            mac@ == bytes@,
            mac == MacAddr::of(bytes@),
    {
        assert(bytes =~= [bytes@[0], bytes@[1], bytes@[2], bytes@[3], bytes@[4], bytes@[5]]);
        MacAddr(bytes)
    }

    pub fn as_bytes(&self) -> (bytes: [u8; 6])
        ensures
            bytes@ == self@,
    {
        self.0
    }

    /// Returns whether both addresses are the same.
    pub fn same(&self, other: &MacAddr) -> (b: bool)
        ensures
            b == (*self == *other),
    {
        proof {
            if self.ordinal() == other.ordinal() {
                MacAddr::ordinal_injective(*self, *other);
            }
        }
        self.ordinal_value() == other.ordinal_value()
    }

    /// Returns the six bytes in hexadecimal, separated by colons.
    pub fn to_string(&self) -> (text: String)
        ensures
            text@ == hex_byte(self@[0]) + ":"@ + hex_byte(self@[1]) + ":"@ + hex_byte(self@[2]) + ":"@ + hex_byte(self@[3])
                + ":"@ + hex_byte(self@[4]) + ":"@ + hex_byte(self@[5]),
    {
        let b = self.0;
        let mut text = String::new();
        push_hex_byte(&mut text, b[0]);
        text.append(":");
        push_hex_byte(&mut text, b[1]);
        text.append(":");
        push_hex_byte(&mut text, b[2]);
        text.append(":");
        push_hex_byte(&mut text, b[3]);
        text.append(":");
        push_hex_byte(&mut text, b[4]);
        text.append(":");
        push_hex_byte(&mut text, b[5]);
        assert(text@ =~= hex_byte(self@[0]) + ":"@ + hex_byte(self@[1]) + ":"@ + hex_byte(self@[2]) + ":"@ + hex_byte(
            self@[3],
        ) + ":"@ + hex_byte(self@[4]) + ":"@ + hex_byte(self@[5]));
        text
    }
}

impl From<[u8; 6]> for MacAddr {
    fn from(bytes: [u8; 6]) -> (mac: MacAddr) {
        MacAddr::new(bytes)
    }
}

impl vstd::std_specs::convert::FromSpecImpl<[u8; 6]> for MacAddr {
    open spec fn obeys_from_spec() -> bool {
        true
    }

    open spec fn from_spec(bytes: [u8; 6]) -> MacAddr {
        MacAddr::of(bytes@)
    }
}

} // verus!
