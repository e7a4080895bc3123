use multicats::net::{
    bind_address, check_client_group, check_server_groups, find_family, get_interface,
    get_interfaces, membership, outgoing_interface, select_endpoint, ConfigError, Endpoint,
    InterfaceEntry, InterfaceFlags, InterfaceId, IpAddress, Membership, NetworkInterface,
    OutgoingInterface, SocketAddress,
};
use multicats::ServerDiscovery;

fn v4(a: u8, b: u8, c: u8, d: u8) -> IpAddress {
    IpAddress::V4(u32::from_be_bytes([a, b, c, d]))
}

fn v6(segments: [u16; 8]) -> IpAddress {
    let mut bits = 0u128;
    for s in segments {
        bits = (bits << 16) | s as u128;
    }
    IpAddress::V6(bits)
}

fn sock(ip: IpAddress, port: u16) -> SocketAddress {
    match ip {
        IpAddress::V4(ip) => SocketAddress::V4 { ip, port },
        IpAddress::V6(ip) => SocketAddress::V6 { ip, port, flowinfo: 0, scope_id: 0 },
    }
}

const UP: InterfaceFlags = InterfaceFlags { up: true, loopback: false, multicast: true };
const LOOP: InterfaceFlags = InterfaceFlags { up: true, loopback: true, multicast: true };
const DOWN: InterfaceFlags = InterfaceFlags { up: false, loopback: false, multicast: true };

fn entry(name: &str, index: Option<u32>, address: Option<IpAddress>, flags: InterfaceFlags) -> InterfaceEntry {
    InterfaceEntry { name: name.to_string(), index, address, flags }
}

#[test]
fn multicast_addresses_are_those_of_224_4_and_ff00_8() {
    for (ip, expected) in [
        (v4(224, 0, 0, 0), true),
        (v4(239, 255, 255, 255), true),
        (v4(232, 1, 2, 3), true),
        (v4(223, 255, 255, 255), false),
        (v4(240, 0, 0, 0), false),
        (v4(0, 0, 0, 0), false),
        (v4(10, 1, 2, 3), false),
        (v4(255, 255, 255, 255), false),
    ] {
        assert_eq!(ip.is_multicast(), expected, "{:?}", ip);
        assert!(!ip.is_ipv6());
        assert!(!ip.is_unicast_link_local());
    }
    for (ip, expected) in [
        (v6([0xff18, 0, 0, 0, 0, 0, 0, 1]), true),
        (v6([0xff00, 0, 0, 0, 0, 0, 0, 0]), true),
        (v6([0xffff, 0xffff, 0xffff, 0xffff, 0xffff, 0xffff, 0xffff, 0xffff]), true),
        (v6([0xfeff, 0xffff, 0, 0, 0, 0, 0, 0]), false),
        (v6([0xfe80, 0, 0, 0, 0, 0, 0, 1]), false),
        (v6([0, 0, 0, 0, 0, 0, 0, 0]), false),
        (v6([0, 0, 0, 0, 0, 0, 0, 1]), false),
        (v6([0x2001, 0xdb8, 0, 0, 0, 0, 0, 5]), false),
    ] {
        assert_eq!(ip.is_multicast(), expected, "{:?}", ip);
        assert!(ip.is_ipv6());
    }
}

#[test]
fn link_local_addresses_are_those_of_fe80_10() {
    for (ip, expected) in [
        (v6([0xfe80, 0, 0, 0, 0, 0, 0, 0]), true),
        (v6([0xfe80, 0, 0, 0, 0, 0, 0, 1]), true),
        (v6([0xfebf, 0xffff, 0xffff, 0xffff, 0xffff, 0xffff, 0xffff, 0xffff]), true),
        (v6([0xfe7f, 0xffff, 0xffff, 0xffff, 0xffff, 0xffff, 0xffff, 0xffff]), false),
        (v6([0xfec0, 0, 0, 0, 0, 0, 0, 0]), false),
        (v6([0xff02, 0, 0, 0, 0, 0, 0, 1]), false),
        (v6([0, 0, 0, 0, 0, 0, 0, 1]), false),
        (v6([0x2001, 0xdb8, 0, 0, 0, 0, 0, 1]), false),
    ] {
        assert_eq!(ip.is_unicast_link_local(), expected, "{:?}", ip);
    }
}

#[test]
fn bind_address_takes_the_scope_of_a_link_local_address() {
    assert_eq!(bind_address(v4(10, 0, 0, 7), 3), SocketAddress::V4 { ip: 0x0a00_0007, port: 0 });
    assert_eq!(
        bind_address(v6([0xfe80, 0, 0, 0, 0, 0, 0, 1]), 3),
        SocketAddress::V6 { ip: 0xfe80 << 112 | 1, port: 0, flowinfo: 0, scope_id: 3 }
    );
    assert_eq!(
        bind_address(v6([0x2001, 0xdb8, 0, 0, 0, 0, 0, 1]), 3),
        SocketAddress::V6 { ip: 0x2001_0db8 << 96 | 1, port: 0, flowinfo: 0, scope_id: 0 }
    );
}

#[test]
fn socket_address_parts() {
    let s = sock(v6([0xfe80, 0, 0, 0, 0, 0, 0, 2]), 80);
    assert!(s.is_ipv6());
    assert_eq!(s.ip(), v6([0xfe80, 0, 0, 0, 0, 0, 0, 2]));
    assert_eq!(
        s.scoped(9),
        SocketAddress::V6 { ip: 0xfe80 << 112 | 2, port: 80, flowinfo: 0, scope_id: 9 }
    );
    let g = sock(v6([0x2001, 0xdb8, 0, 0, 0, 0, 0, 2]), 80);
    assert_eq!(g.scoped(9), g);
    let f = sock(v4(169, 254, 0, 1), 80);
    assert!(!f.is_ipv6());
    assert_eq!(f.scoped(9), f);
    assert_eq!(f.ip(), v4(169, 254, 0, 1));
}

#[test]
fn discovery_record_of_the_other_family_is_not_followed() {
    let record = ServerDiscovery {
        metadata_socket: sock(v6([0xfe80, 0, 0, 0, 0, 0, 0, 1]), 1000),
        request_socket: sock(v6([0xfe80, 0, 0, 0, 0, 0, 0, 1]), 1001),
        transfer_socket: sock(v6([0xff18, 0, 0, 0, 0, 0, 0, 2]), 7891),
    };
    assert_eq!(record.localize(false, 4), None);
    let mixed = ServerDiscovery { request_socket: sock(v4(10, 0, 0, 1), 1001), ..record };
    assert_eq!(mixed.localize(true, 4), None);
    assert_eq!(mixed.localize(false, 4), None);
    let mixed = ServerDiscovery { metadata_socket: sock(v4(10, 0, 0, 1), 1001), ..record };
    assert_eq!(mixed.localize(true, 4), None);
    let mixed = ServerDiscovery { transfer_socket: sock(v4(224, 0, 0, 9), 1001), ..record };
    assert_eq!(mixed.localize(true, 4), None);
}

#[test]
fn discovery_record_gets_the_scope_of_the_local_interface() {
    let record = ServerDiscovery {
        metadata_socket: sock(v6([0xfe80, 0, 0, 0, 0, 0, 0, 1]), 1000),
        request_socket: sock(v6([0x2001, 0xdb8, 0, 0, 0, 0, 0, 1]), 1001),
        transfer_socket: sock(v6([0xff18, 0, 0, 0, 0, 0, 0, 2]), 7891),
    };
    let local = record.localize(true, 4).unwrap();
    assert_eq!(
        local.metadata_socket,
        SocketAddress::V6 { ip: 0xfe80 << 112 | 1, port: 1000, flowinfo: 0, scope_id: 4 }
    );
    assert_eq!(local.request_socket, record.request_socket);
    assert_eq!(local.transfer_socket, record.transfer_socket);
    let record4 = ServerDiscovery {
        metadata_socket: sock(v4(10, 0, 0, 1), 1000),
        request_socket: sock(v4(10, 0, 0, 1), 1001),
        transfer_socket: sock(v4(239, 0, 0, 2), 7891),
    };
    assert_eq!(record4.localize(false, 4), Some(record4));
}

#[test]
fn groups_have_to_be_multicast_and_of_one_family() {
    let d6 = sock(v6([0xff18, 0, 0, 0, 0, 0, 0, 1]), 7890);
    let t6 = sock(v6([0xff18, 0, 0, 0, 0, 0, 0, 2]), 7891);
    let d4 = sock(v4(239, 1, 1, 1), 7890);
    let u6 = sock(v6([0x2001, 0xdb8, 0, 0, 0, 0, 0, 1]), 7890);
    assert_eq!(check_client_group(d6), Ok(()));
    assert_eq!(check_client_group(d4), Ok(()));
    assert_eq!(check_client_group(u6), Err(ConfigError::NotMulticast));
    assert_eq!(check_server_groups(d6, t6), Ok(()));
    assert_eq!(check_server_groups(d6, d4), Err(ConfigError::GroupFamilies));
    assert_eq!(check_server_groups(d4, u6), Err(ConfigError::GroupFamilies));
    assert_eq!(check_server_groups(u6, t6), Err(ConfigError::NotMulticast));
    assert_eq!(check_server_groups(d6, u6), Err(ConfigError::NotMulticast));
}

#[test]
fn first_address_of_a_family() {
    let ips = vec![v6([0xfe80, 0, 0, 0, 0, 0, 0, 1]), v4(10, 0, 0, 1), v6([0x2001, 0xdb8, 0, 0, 0, 0, 0, 1]), v4(10, 0, 0, 2)];
    assert_eq!(find_family(&ips, false), Some(v4(10, 0, 0, 1)));
    assert_eq!(find_family(&ips, true), Some(v6([0xfe80, 0, 0, 0, 0, 0, 0, 1])));
    assert_eq!(find_family(&vec![v4(10, 0, 0, 1)], true), None);
    assert_eq!(find_family(&vec![], false), None);
}

fn with_ips(ips: Vec<IpAddress>) -> NetworkInterface {
    NetworkInterface { name: "eth0".to_string(), ips, index: 7, flags: UP }
}

#[test]
fn endpoint_needs_an_interface() {
    assert_eq!(select_endpoint(true, None, None), Err(ConfigError::NoInterface));
    assert_eq!(
        select_endpoint(false, None, Some(v4(10, 0, 0, 1))),
        Err(ConfigError::NoInterface)
    );
}

#[test]
fn endpoint_for_ipv6_groups() {
    let ips = vec![v4(10, 0, 0, 1), v6([0xfe80, 0, 0, 0, 0, 0, 0, 1]), v6([0x2001, 0xdb8, 0, 0, 0, 0, 0, 1])];
    assert_eq!(
        select_endpoint(true, Some(&with_ips(ips.clone())), None),
        Ok(Endpoint { interface_id: InterfaceId::Index(7), unicast: v6([0xfe80, 0, 0, 0, 0, 0, 0, 1]) })
    );
    assert_eq!(
        select_endpoint(true, Some(&with_ips(ips.clone())), Some(v6([0x2001, 0xdb8, 0, 0, 0, 0, 0, 9]))),
        Ok(Endpoint { interface_id: InterfaceId::Index(7), unicast: v6([0x2001, 0xdb8, 0, 0, 0, 0, 0, 9]) })
    );
    assert_eq!(
        select_endpoint(true, Some(&with_ips(ips.clone())), Some(v4(10, 0, 0, 1))),
        Err(ConfigError::UnicastFamily)
    );
    assert_eq!(
        select_endpoint(true, Some(&with_ips(vec![v4(10, 0, 0, 1)])), None),
        Err(ConfigError::NoUnicastAddress)
    );
}

#[test]
fn endpoint_for_ipv4_groups() {
    let ips = vec![v6([0xfe80, 0, 0, 0, 0, 0, 0, 1]), v4(10, 0, 0, 1), v4(10, 0, 0, 2)];
    assert_eq!(
        select_endpoint(false, Some(&with_ips(ips.clone())), None),
        Ok(Endpoint { interface_id: InterfaceId::Address(0x0a00_0001), unicast: v4(10, 0, 0, 1) })
    );
    assert_eq!(
        select_endpoint(false, Some(&with_ips(ips.clone())), Some(v4(192, 168, 0, 1))),
        Ok(Endpoint {
            interface_id: InterfaceId::Address(0x0a00_0001),
            unicast: v4(192, 168, 0, 1)
        })
    );
    assert_eq!(
        select_endpoint(false, Some(&with_ips(ips.clone())), Some(v6([0xfe80, 0, 0, 0, 0, 0, 0, 1]))),
        Err(ConfigError::UnicastFamily)
    );
    // Without an IPv4 address the interface cannot be named, whatever was asked.
    assert_eq!(
        select_endpoint(false, Some(&with_ips(vec![v6([0xfe80, 0, 0, 0, 0, 0, 0, 1])])), Some(v6([0xfe80, 0, 0, 0, 0, 0, 0, 1]))),
        Err(ConfigError::NoIpv4Address)
    );
    assert_eq!(
        select_endpoint(false, Some(&with_ips(vec![])), None),
        Err(ConfigError::NoIpv4Address)
    );
}

#[test]
fn interface_of_a_sending_socket() {
    assert_eq!(outgoing_interface(true, InterfaceId::Index(5)), Ok(OutgoingInterface::Index(5)));
    assert_eq!(outgoing_interface(true, InterfaceId::Index(0)), Ok(OutgoingInterface::Default));
    assert_eq!(
        outgoing_interface(false, InterfaceId::Address(0x0a00_0001)),
        Ok(OutgoingInterface::Address(0x0a00_0001))
    );
    assert_eq!(outgoing_interface(false, InterfaceId::Address(0)), Ok(OutgoingInterface::Default));
    assert_eq!(outgoing_interface(true, InterfaceId::Address(1)), Err(ConfigError::ExpectedIndex));
    assert_eq!(outgoing_interface(true, InterfaceId::Address(0)), Err(ConfigError::ExpectedIndex));
    assert_eq!(outgoing_interface(false, InterfaceId::Index(1)), Err(ConfigError::ExpectedAddress));
    assert_eq!(outgoing_interface(false, InterfaceId::Index(0)), Err(ConfigError::ExpectedAddress));
}

#[test]
fn membership_of_a_receiving_socket() {
    assert_eq!(
        membership(v4(239, 0, 0, 1), InterfaceId::Address(0x0a00_0001)),
        Ok(Membership::V4 { group: 0xef00_0001, interface: 0x0a00_0001 })
    );
    assert_eq!(
        membership(v6([0xff18, 0, 0, 0, 0, 0, 0, 1]), InterfaceId::Index(3)),
        Ok(Membership::V6 { group: 0xff18 << 112 | 1, interface: 3 })
    );
    assert_eq!(membership(v4(239, 0, 0, 1), InterfaceId::Index(3)), Err(ConfigError::ExpectedAddress));
    assert_eq!(membership(v6([0xff18, 0, 0, 0, 0, 0, 0, 1]), InterfaceId::Address(3)), Err(ConfigError::ExpectedIndex));
}

#[test]
fn every_configuration_error_has_its_words() {
    let all = [
        ConfigError::GroupFamilies,
        ConfigError::NotMulticast,
        ConfigError::NoInterface,
        ConfigError::NoIpv4Address,
        ConfigError::UnicastFamily,
        ConfigError::NoUnicastAddress,
        ConfigError::ExpectedIndex,
        ConfigError::ExpectedAddress,
    ];
    for (i, a) in all.iter().enumerate() {
        assert!(!a.message().is_empty());
        for b in all.iter().skip(i + 1) {
            assert_ne!(a.message(), b.message());
        }
    }
    assert_eq!(ConfigError::NoInterface.message(), "Cannot find requested interface.");
}

#[test]
fn lines_of_one_interface_are_gathered() {
    let entries = vec![
        entry("lo", Some(1), Some(v4(127, 0, 0, 1)), LOOP),
        entry("eth0", Some(2), None, UP),
        entry("eth0", Some(2), Some(v4(10, 0, 0, 1)), UP),
        entry("lo", Some(1), Some(v6([0, 0, 0, 0, 0, 0, 0, 1])), LOOP),
        entry("eth0", Some(2), Some(v6([0xfe80, 0, 0, 0, 0, 0, 0, 1])), UP),
        entry("tun0", None, Some(v4(10, 8, 0, 1)), UP),
        entry("eth1", Some(3), None, DOWN),
    ];
    let out = get_interfaces(&entries);
    assert_eq!(out.len(), 3);
    assert_eq!((out[0].name.as_str(), out[0].index, out[0].flags), ("lo", 1, LOOP));
    assert_eq!(out[0].ips, vec![v4(127, 0, 0, 1), v6([0, 0, 0, 0, 0, 0, 0, 1])]);
    assert_eq!((out[1].name.as_str(), out[1].index, out[1].flags), ("eth0", 2, UP));
    assert_eq!(out[1].ips, vec![v4(10, 0, 0, 1), v6([0xfe80, 0, 0, 0, 0, 0, 0, 1])]);
    assert_eq!((out[2].name.as_str(), out[2].index, out[2].flags), ("eth1", 3, DOWN));
    assert!(out[2].ips.is_empty());
}

#[test]
fn addresses_go_by_the_name_and_interfaces_by_the_index() {
    // Two names under one index: the first line decides name and flags, and
    // the addresses are those of that name.
    let entries = vec![
        entry("a", Some(4), Some(v4(10, 0, 0, 1)), UP),
        entry("b", Some(4), Some(v4(10, 0, 0, 2)), DOWN),
        entry("a", None, Some(v4(10, 0, 0, 3)), DOWN),
    ];
    let out = get_interfaces(&entries);
    assert_eq!(out.len(), 1);
    assert_eq!((out[0].name.as_str(), out[0].index, out[0].flags), ("a", 4, UP));
    assert_eq!(out[0].ips, vec![v4(10, 0, 0, 1), v4(10, 0, 0, 3)]);
    assert!(get_interfaces(&vec![]).is_empty());
}

fn interface(name: &str, index: u32, flags: InterfaceFlags) -> NetworkInterface {
    NetworkInterface { name: name.to_string(), ips: vec![v4(10, 0, 0, 1)], index, flags }
}

#[test]
fn interface_is_picked_by_name_or_by_flags() {
    let list = vec![
        interface("lo", 1, LOOP),
        interface("eth1", 3, DOWN),
        interface("eth0", 2, UP),
        interface("eth2", 4, UP),
    ];
    let auto = get_interface(&list, None).unwrap();
    assert_eq!((auto.name.as_str(), auto.index), ("eth0", 2));
    assert_eq!(auto.ips, vec![v4(10, 0, 0, 1)]);
    assert_eq!(auto.flags, UP);
    let named = get_interface(&list, Some(&"lo".to_string())).unwrap();
    assert_eq!((named.name.as_str(), named.index, named.flags), ("lo", 1, LOOP));
    let named = get_interface(&list, Some(&"eth1".to_string())).unwrap();
    assert_eq!(named.index, 3);
    assert!(get_interface(&list, Some(&"wlan0".to_string())).is_none());
    assert!(get_interface(&list[..2].iter().map(|i| interface(&i.name, i.index, i.flags)).collect(), None).is_none());
    let no_multicast = InterfaceFlags { up: true, loopback: false, multicast: false };
    assert!(get_interface(&vec![interface("x", 1, no_multicast)], None).is_none());
}
