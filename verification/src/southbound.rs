//! Requests to the interface manager, as the VRRP master state needs them.

use vstd::prelude::*;

verus! {

/// An IPv4 or IPv6 network of the `ipnetwork` crate. It is carried through
/// unread.
#[verifier::external_type_specification]
#[verifier::external_body]
pub struct ExIpNetwork(ipnetwork::IpNetwork);

/// Creates a macvlan interface.
#[derive(Debug, PartialEq)]
pub struct MacvlanAddMsg {
    pub parent_name: String,
    pub name: String,
    pub mac_address: Option<[u8; 6]>,
}

/// Adds an address to an interface.
#[derive(Debug, PartialEq)]
pub struct InterfaceIpAddRequestMsg {
    pub ifname: String,
    pub addr: ipnetwork::IpNetwork,
}

/// Removes an address from an interface.
#[derive(Debug, PartialEq)]
pub struct InterfaceIpDelRequestMsg {
    pub ifname: String,
    pub addr: ipnetwork::IpNetwork,
}

/// A request to the interface manager.
#[derive(Debug, PartialEq)]
pub enum IbusMsg {
    MacvlanAdd(MacvlanAddMsg),
    MacvlanDel(String),
    InterfaceIpAddRequest(InterfaceIpAddRequestMsg),
    InterfaceIpDelRequest(InterfaceIpDelRequestMsg),
}

/// Returns the request that creates a macvlan interface with a given address.
pub fn mvlan_create(parent_name: String, name: String, mac_address: [u8; 6]) -> (msg: IbusMsg)
    ensures
        msg == IbusMsg::MacvlanAdd(MacvlanAddMsg { parent_name, name, mac_address: Some(mac_address) }),
{
    IbusMsg::MacvlanAdd(MacvlanAddMsg { parent_name, name, mac_address: Some(mac_address) })
}

/// Returns the request that deletes a macvlan interface.
pub fn mvlan_delete(name: String) -> (msg: IbusMsg)
    ensures
        msg == IbusMsg::MacvlanDel(name),
{
    IbusMsg::MacvlanDel(name)
}

/// Returns the request that adds an address to an interface.
pub fn ip_addr_add(ifname: String, addr: ipnetwork::IpNetwork) -> (msg: IbusMsg)
    ensures
        msg == IbusMsg::InterfaceIpAddRequest(InterfaceIpAddRequestMsg { ifname, addr }),
{
    IbusMsg::InterfaceIpAddRequest(InterfaceIpAddRequestMsg { ifname, addr })
}

/// Returns the request that removes an address from an interface.
pub fn ip_addr_del(ifname: String, addr: ipnetwork::IpNetwork) -> (msg: IbusMsg)
    ensures
        msg == IbusMsg::InterfaceIpDelRequest(InterfaceIpDelRequestMsg { ifname, addr }),
{
    IbusMsg::InterfaceIpDelRequest(InterfaceIpDelRequestMsg { ifname, addr })
}

} // verus!
