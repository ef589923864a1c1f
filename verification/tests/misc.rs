//! Identifiers, ordered maps, log lines and requests.

use holo_spb::mac::MacAddr;
use holo_spb::node::NodeId;
use holo_spb::northbound::{top_level_node, yang_modules};
use holo_spb::ordmap::{OrdMap, OrdSet};
use holo_spb::southbound::{
    ip_addr_add, ip_addr_del, mvlan_create, mvlan_delete, IbusMsg, InterfaceIpAddRequestMsg, InterfaceIpDelRequestMsg,
    MacvlanAddMsg,
};

#[test]
fn system_ids_and_addresses_print() {
    assert_eq!(NodeId::new([0, 1, 0x2a, 3, 4, 0xff]).to_string(), "0001.2a03.04ff");
    assert_eq!(MacAddr::from([0, 1, 0x2a, 3, 4, 0xff]).to_string(), "00:01:2a:03:04:ff");
    assert_eq!(NodeId::from([1, 2, 3, 4, 5, 6]).as_bytes(), [1, 2, 3, 4, 5, 6]);
    assert_eq!(NodeId::LENGTH, 6);
    assert!(NodeId::new([1, 0, 0, 0, 0, 0]) > NodeId::new([0, 9, 9, 9, 9, 9]));
}

#[test]
fn a_map_keeps_its_keys_in_order() {
    let mut map: OrdMap<u32, &str> = OrdMap::new();
    assert!(map.is_empty());
    for (key, value) in [(30, "c"), (10, "a"), (20, "b"), (10, "z")] {
        map.insert(key, value);
    }
    assert_eq!(map.keys(), vec![10, 20, 30]);
    assert_eq!(map.len(), 3);
    assert_eq!(map.get(&10), Some(&"z"));
    *map.get_mut(&20).unwrap() = "y";
    assert_eq!(map.get(&20), Some(&"y"));
    map.remove(&10);
    map.remove(&99);
    assert!(!map.contains_key(&10));
    assert_eq!(map.get_mut(&10), None);
    assert_eq!(map.keys(), vec![20, 30]);
}

#[test]
fn a_set_holds_each_element_once() {
    let mut set: OrdSet<u16> = OrdSet::new();
    assert!(set.insert(5));
    assert!(set.insert(3));
    assert!(!set.insert(5));
    assert_eq!(set.to_vec(), vec![3, 5]);
    assert!(set.contains(&3) && !set.contains(&4));
    assert!(set.same(&set.clone()));
    set.clear();
    assert!(set.is_empty());
}

#[test]
fn events_are_logged_with_their_fields() {
    let record = holo_spb::northbound::Debug::RequestRx("commit").log();
    assert_eq!((record.span, record.message), ("northbound", "received request"));
    assert_eq!((record.path, record.trace), (None, Some("commit")));

    let record = holo_spb::northbound::Debug::ValidationCallback("/a/b").log();
    assert_eq!((record.message, record.path), ("validation callback", Some("/a/b")));

    let event = holo_spb::northbound::Debug::ConfigurationCallback("Apply", "Create", "/a/b");
    let record = event.log();
    assert_eq!(record.message, "configuration callback");
    assert_eq!((record.phase, record.operation, record.path), (Some("Apply"), Some("Create"), Some("/a/b")));
    assert_eq!(event.to_string(), "configuration callback");

    let record = holo_spb::northbound::Debug::RpcCallback("/rpc").log();
    assert_eq!((record.message, record.path, record.phase), ("rpc callback", Some("/rpc"), None));
}

#[test]
fn bfd_sits_below_its_protocol() {
    assert_eq!(yang_modules(), ["ietf-bfd-ip-mh", "ietf-bfd-ip-sh", "ietf-bfd"]);
    assert_eq!(
        top_level_node("ietf-bfd-types:bfdv1"),
        "/ietf-routing:routing/control-plane-protocols/control-plane-protocol[type='ietf-bfd-types:bfdv1'][name='main']/ietf-bfd:bfd"
    );
}

#[test]
fn requests_carry_what_they_are_given() {
    let mac = [0, 0, 0x5e, 0, 1, 1];
    assert_eq!(
        mvlan_create("eth0".to_owned(), "mvlan-vrrp-1".to_owned(), mac),
        IbusMsg::MacvlanAdd(MacvlanAddMsg {
            parent_name: "eth0".to_owned(),
            name: "mvlan-vrrp-1".to_owned(),
            mac_address: Some(mac)
        })
    );
    assert_eq!(mvlan_delete("mvlan".to_owned()), IbusMsg::MacvlanDel("mvlan".to_owned()));
    let addr: ipnetwork::IpNetwork = "10.0.1.5/32".parse().unwrap();
    assert_eq!(
        ip_addr_add("mvlan".to_owned(), addr),
        IbusMsg::InterfaceIpAddRequest(InterfaceIpAddRequestMsg {
            ifname: "mvlan".to_owned(),
            addr
        })
    );
    assert_eq!(
        ip_addr_del("mvlan".to_owned(), addr),
        IbusMsg::InterfaceIpDelRequest(InterfaceIpDelRequestMsg {
            ifname: "mvlan".to_owned(),
            addr
        })
    );
}
