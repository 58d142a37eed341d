use sysinfo::winnet::{hardware_rows, interface_name, IfCounters, IfRow, Networks};

fn counters(x: u64) -> IfCounters {
    IfCounters {
        in_octets: x,
        out_octets: 2 * x,
        in_ucast_pkts: x,
        in_nucast_pkts: 1,
        out_ucast_pkts: x,
        out_nucast_pkts: 2,
        in_errors: 0,
        out_errors: 0,
    }
}

fn row(name: &str, guid: u16, x: u64) -> IfRow {
    let mut alias: Vec<u16> = name.encode_utf16().collect();
    alias.push(0);
    alias.push(b'z' as u16);
    IfRow {
        transmit_link_speed: 1000,
        receive_link_speed: 1000,
        disconnected: false,
        physical_address_length: 6,
        guid: vec![guid, 0, 1, 2, 3, 4, 5, 6, 7, 8],
        alias,
        luid: guid as u64,
        counters: counters(x),
    }
}

#[test]
fn keeps_only_hardware_interfaces() {
    let mut rows = vec![row("eth0", 1, 10), row("vEthernet", 2, 10), row("filter", 2, 10), row("wifi", 3, 10)];
    rows.push(IfRow { transmit_link_speed: 0, receive_link_speed: 0, ..row("idle", 4, 1) });
    rows.push(IfRow { disconnected: true, ..row("cable", 5, 1) });
    rows.push(IfRow { physical_address_length: 0, ..row("tunnel", 6, 1) });
    assert_eq!(hardware_rows(&rows), vec![0, 3]);
    // A disconnected row does not count in its GUID's group.
    let rows = vec![row("eth0", 1, 10), IfRow { disconnected: true, ..row("ghost", 1, 1) }];
    assert_eq!(hardware_rows(&rows), vec![0]);
}

#[test]
fn names_come_from_the_alias() {
    assert_eq!(interface_name(&row("Ethernet 2", 1, 0)), Some("Ethernet 2".to_owned()));
    let bad = IfRow { alias: vec![0xd800, b'a' as u16, 0], ..row("x", 1, 0) };
    assert_eq!(interface_name(&bad), None);
    let emoji = IfRow { alias: vec![0xd83d, 0xde00, 0], ..row("x", 1, 0) };
    assert_eq!(interface_name(&emoji), Some("\u{1f600}".to_owned()));
}

#[test]
fn list_follows_the_table() {
    let mut n = Networks::new();
    n.refresh_networks_list(&[row("eth0", 1, 10), row("wifi", 3, 20)]);
    assert_eq!(n.len(), 2);
    assert_eq!(n.get_index(0).1.received(), 0);
    assert_eq!(n.get_index(0).1.total_received(), 10);
    assert_eq!(n.get_index(0).1.total_packets_received(), 11);
    assert_eq!(n.get_index(0).1.mac_address().0, [0u8; 6]);

    n.refresh_networks_list(&[row("wifi", 3, 25)]);
    assert_eq!(n.len(), 1);
    let (name, d) = n.get_index(0);
    assert_eq!(name, "wifi");
    assert_eq!(d.received(), 5);
    assert_eq!(d.transmitted(), 10);
    assert_eq!(d.packets_received(), 5);
    assert_eq!(d.total_errors_on_received(), 0);

    n.refresh(&[Some(counters(40))]);
    let (_, d) = n.get_index(0);
    assert_eq!(d.received(), 15);
    assert_eq!(d.total_received(), 40);
    n.refresh(&[None]);
    assert_eq!(n.get_index(0).1.total_received(), 40);
}
