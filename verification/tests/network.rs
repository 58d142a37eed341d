use sysinfo::netmask::{IpAddr, Ipv4Addr, Ipv6Addr};
use sysinfo::network::{
    ip_network_eq, leading_number_fits, read_leading_number, AddressEntry, InterfaceOperationalState, InterfaceStats, IpNetwork, MacAddr,
    NetworksInner,
};

fn stats(rx: u64) -> InterfaceStats {
    InterfaceStats {
        rx_bytes: rx,
        tx_bytes: rx,
        rx_packets: rx,
        tx_packets: rx,
        rx_errors: rx,
        tx_errors: rx,
        mtu: 1500,
        operational_state: InterfaceOperationalState::Up,
    }
}

fn names(n: &NetworksInner) -> Vec<String> {
    let mut v: Vec<String> = (0..n.len()).map(|i| n.get_index(i).0.clone()).collect();
    v.sort();
    v
}

#[test]
fn refresh_networks_list_add_interface() {
    let mut interfaces = NetworksInner::new();
    interfaces.refresh(vec![("itf1".to_owned(), stats(0))], false);
    assert_eq!(names(&interfaces), ["itf1"]);
    interfaces.refresh(vec![("itf1".to_owned(), stats(0)), ("itf2".to_owned(), stats(0))], false);
    assert_eq!(names(&interfaces), ["itf1", "itf2"]);
}

#[test]
fn refresh_networks_list_remove_interface() {
    let mut interfaces = NetworksInner::new();
    interfaces.refresh(vec![("itf1".to_owned(), stats(0)), ("itf2".to_owned(), stats(0))], false);
    assert_eq!(names(&interfaces), ["itf1", "itf2"]);
    interfaces.refresh(vec![("itf2".to_owned(), stats(0))], true);
    assert_eq!(names(&interfaces), ["itf2"]);
}

#[test]
fn refresh_networks_list_with_multiple_interfaces() {
    let read = |s: &str| read_leading_number(s.as_bytes());
    let listing = || {
        vec![
            ("if_a".to_owned(), stats(read("100"))),
            ("if_b".to_owned(), stats(read("1234567890123"))),
            ("if_c".to_owned(), stats(read("9876543210987"))),
            ("if_d".to_owned(), stats(read("18446744073709551615"))),
        ]
    };
    let mut interfaces = NetworksInner::new();
    interfaces.refresh(listing(), false);
    interfaces.refresh(listing(), false);
    let get = |name: &str| {
        let i = interfaces.position(&name.to_owned()).unwrap();
        interfaces.get_index(i).1
    };
    assert_eq!(get("if_a").total_received(), 100);
    assert_eq!(get("if_b").total_received(), 1_234_567_890_123);
    assert_eq!(get("if_c").total_received(), 9_876_543_210_987);
    assert_eq!(get("if_d").total_received(), u64::MAX);
    for name in ["if_a", "if_b", "if_c", "if_d"] {
        assert_eq!(get(name).mtu(), 1500, "{name}: mtu");
    }
}

#[test]
fn growth_since_the_previous_refresh() {
    let mut interfaces = NetworksInner::new();
    interfaces.refresh(vec![("eth0".to_owned(), stats(100))], true);
    let d = interfaces.get_index(0).1;
    assert_eq!(d.received(), 0);
    interfaces.refresh(vec![("eth0".to_owned(), stats(250))], true);
    let d = interfaces.get_index(0).1;
    assert_eq!(d.received(), 150);
    assert_eq!(d.total_received(), 250);
    assert_eq!(d.transmitted(), 150);
    assert_eq!(d.packets_received(), 150);
    assert_eq!(d.errors_on_transmitted(), 150);
    interfaces.refresh(vec![("eth0".to_owned(), stats(50))], true);
    assert_eq!(interfaces.get_index(0).1.received(), 0);
    assert_eq!(interfaces.get_index(0).1.operational_state(), InterfaceOperationalState::Up);
}

#[test]
fn operational_states() {
    assert_eq!(InterfaceOperationalState::from_data(b"up"), InterfaceOperationalState::Up);
    assert_eq!(InterfaceOperationalState::from_data(b"down"), InterfaceOperationalState::Down);
    assert_eq!(InterfaceOperationalState::from_data(b"unknown"), InterfaceOperationalState::Unknown);
    assert_eq!(InterfaceOperationalState::from_data(b"notpresent"), InterfaceOperationalState::NotPresent);
    assert_eq!(InterfaceOperationalState::from_data(b"lowerlayerdown"), InterfaceOperationalState::LowerLayerDown);
    assert_eq!(InterfaceOperationalState::from_data(b"testing"), InterfaceOperationalState::Testing);
    assert_eq!(InterfaceOperationalState::from_data(b"dormant"), InterfaceOperationalState::Dormant);
    assert_eq!(InterfaceOperationalState::from_data(b"up\n"), InterfaceOperationalState::Other);
    assert_eq!(InterfaceOperationalState::from_data(b""), InterfaceOperationalState::Other);
}

#[test]
fn leading_numbers() {
    assert_eq!(read_leading_number(b"1500\n"), 1500);
    assert_eq!(read_leading_number(b"\n"), 0);
    assert_eq!(read_leading_number(b"12ab34"), 12);
}

fn v4(a: u8, prefix: u8) -> IpNetwork {
    IpNetwork { addr: IpAddr::V4(Ipv4Addr::new(192, 168, 1, a)), prefix }
}

#[test]
fn addresses_are_merged_into_known_interfaces() {
    let mut interfaces = NetworksInner::new();
    interfaces.refresh(vec![("eth0".to_owned(), stats(0)), ("lo".to_owned(), stats(0))], false);
    let entries = vec![
        AddressEntry { name: "eth0".to_owned(), mac: Some(MacAddr([1, 2, 3, 4, 5, 6])), ip: None },
        AddressEntry { name: "eth0".to_owned(), mac: None, ip: Some(v4(10, 24)) },
        AddressEntry { name: "eth0:1".to_owned(), mac: None, ip: Some(v4(11, 24)) },
        AddressEntry { name: "eth0".to_owned(), mac: None, ip: Some(v4(10, 24)) },
        AddressEntry { name: "wlan0".to_owned(), mac: Some(MacAddr([9; 6])), ip: Some(v4(99, 8)) },
    ];
    interfaces.apply_addresses(&entries);
    let i = interfaces.position(&"eth0".to_owned()).unwrap();
    let (_, eth0) = interfaces.get_index(i);
    assert_eq!(eth0.mac_address(), MacAddr([1, 2, 3, 4, 5, 6]));
    let nets = eth0.ip_networks();
    assert_eq!(nets.len(), 2);
    assert!(nets.iter().any(|n| ip_network_eq(n, &v4(10, 24))));
    assert!(nets.iter().any(|n| ip_network_eq(n, &v4(11, 24))));
    let j = interfaces.position(&"lo".to_owned()).unwrap();
    let (_, lo) = interfaces.get_index(j);
    assert_eq!(lo.mac_address(), MacAddr([0; 6]));
    assert!(lo.ip_networks().is_empty());
    assert_eq!(interfaces.len(), 2);
    // Entries without addresses leave what is known.
    interfaces.apply_addresses(&[AddressEntry { name: "eth0".to_owned(), mac: None, ip: None }]);
    let (_, eth0) = interfaces.get_index(i);
    assert_eq!(eth0.ip_networks().len(), 2);
}

#[test]
fn ip_networks_compare_by_address_and_prefix() {
    assert!(ip_network_eq(&v4(1, 24), &v4(1, 24)));
    assert!(!ip_network_eq(&v4(1, 24), &v4(1, 25)));
    assert!(!ip_network_eq(&v4(1, 24), &v4(2, 24)));
    let six = IpNetwork { addr: IpAddr::V6(Ipv6Addr::new(0xfe80, 0, 0, 0, 0, 0, 0, 1)), prefix: 64 };
    assert!(ip_network_eq(&six, &six));
    assert!(!ip_network_eq(&six, &v4(1, 64)));
}

#[test]
fn refresh_keeps_addresses_of_known_interfaces() {
    let mut n = NetworksInner::new();
    n.refresh(vec![("eth0".to_string(), stats(1))], true);
    let net = IpNetwork { addr: IpAddr::V4(Ipv4Addr { octets: [10, 0, 0, 2] }), prefix: 24 };
    n.apply_addresses(&[AddressEntry { name: "eth0".to_string(), mac: Some(MacAddr([1, 2, 3, 4, 5, 6])), ip: Some(net) }]);
    n.refresh(vec![("eth0".to_string(), stats(2)), ("wlan0".to_string(), stats(3))], true);
    let (name, data) = n.get_index(0);
    assert_eq!(name, "eth0");
    assert_eq!(data.mac_address(), MacAddr([1, 2, 3, 4, 5, 6]));
    assert_eq!(data.ip_networks().len(), 1);
    let (name, data) = n.get_index(1);
    assert_eq!(name, "wlan0");
    assert_eq!(data.mac_address(), MacAddr([0; 6]));
    assert!(data.ip_networks().is_empty());
}

#[test]
fn removal_without_a_listing_follows_the_marks() {
    let mut n = NetworksInner::new();
    n.refresh(vec![("eth0".to_string(), stats(1))], false);
    n.retain_listed();
    assert_eq!(n.len(), 1);
    n.retain_listed();
    assert_eq!(n.len(), 0);
}

#[test]
fn leading_number_bounds() {
    assert!(leading_number_fits(b"18446744073709551615\n"));
    assert!(!leading_number_fits(b"18446744073709551616"));
    assert!(!leading_number_fits(b"99999999999999999999"));
    assert!(leading_number_fits(b"abc"));
    assert!(leading_number_fits(b""));
    assert!(leading_number_fits(b"00000000000000000000000001"));
}
