use sysinfo::illumos_net::{
    interface_name, lifreq_name, mac_from_reply, mtu_from_reply, read_counters, state_from_flags, Counters,
    LinkStats, NetworksInner,
};
use sysinfo::kstat_cpu::KstatValue;
use sysinfo::network::{InterfaceOperationalState, MacAddr};
use sysinfo::psinfo::ByteOrder;

#[test]
fn interface_names_drop_the_logical_number() {
    assert_eq!(interface_name(b"net0:1"), Some(b"net0".to_vec()));
    assert_eq!(interface_name(b"lo0"), Some(b"lo0".to_vec()));
    assert_eq!(interface_name(b":3"), None);
    assert_eq!(interface_name(b""), None);
}

#[test]
fn request_names_are_cut_to_31_bytes() {
    let r = lifreq_name(b"e1000g0");
    assert_eq!(&r[..7], b"e1000g0");
    assert!(r[7..].iter().all(|b| *b == 0));
    let long = [b'x'; 40];
    let r = lifreq_name(&long);
    assert!(r[..31].iter().all(|b| *b == b'x'));
    assert_eq!(r[31], 0);
}

#[test]
fn replies_of_requests() {
    let mut data = [0u8; 336];
    data[..4].copy_from_slice(&1500u32.to_le_bytes());
    assert_eq!(mtu_from_reply(Some(&data), ByteOrder::Little), 1500);
    assert_eq!(mtu_from_reply(None, ByteOrder::Little), 0);

    let mut hw = [0u8; 336];
    hw[5] = 4;
    hw[6] = 6;
    hw[12..18].copy_from_slice(&[2, 8, 32, 1, 2, 3]);
    assert_eq!(mac_from_reply(Some(&hw)), MacAddr([2, 8, 32, 1, 2, 3]));
    hw[6] = 8;
    assert_eq!(mac_from_reply(Some(&hw)), MacAddr([0; 6]));
    assert_eq!(mac_from_reply(None), MacAddr([0; 6]));
    let mut short = [0u8; 10];
    short[6] = 6;
    assert_eq!(mac_from_reply(Some(&short)), MacAddr([0; 6]));
}

#[test]
fn interface_state_from_flags() {
    assert_eq!(state_from_flags(true, true), InterfaceOperationalState::Up);
    assert_eq!(state_from_flags(true, false), InterfaceOperationalState::Down);
    assert_eq!(state_from_flags(false, true), InterfaceOperationalState::Down);
}

#[test]
fn counters_prefer_the_wide_statistics() {
    let stats = LinkStats {
        rbytes64: Some(KstatValue::Uint64(5_000_000_000)),
        rbytes: Some(KstatValue::Uint32(705_032_704)),
        obytes64: None,
        obytes: Some(KstatValue::Uint32(77)),
        ipackets64: Some(KstatValue::Other),
        ipackets: Some(KstatValue::Int32(-3)),
        opackets64: None,
        opackets: None,
        ierrors: Some(KstatValue::Uint32(2)),
        oerrors: None,
    };
    assert_eq!(
        read_counters(&stats),
        Counters {
            received: 5_000_000_000,
            transmitted: 77,
            packets_received: 0,
            packets_transmitted: 0,
            errors_received: 2,
            errors_transmitted: 0,
        }
    );
}

fn counters(n: u64) -> Counters {
    Counters {
        received: n,
        transmitted: 2 * n,
        packets_received: 3,
        packets_transmitted: 4,
        errors_received: 0,
        errors_transmitted: 1,
    }
}

#[test]
fn a_refresh_reads_each_interface_once_and_drops_the_rest() {
    let mut nets = NetworksInner::new();
    nets.begin_refresh();
    assert!(nets.wants(b"net0"));
    nets.record(b"net0".to_vec(), counters(100), 1500, InterfaceOperationalState::Up, MacAddr([1; 6]));
    assert!(!nets.wants(b"net0"));
    nets.record(b"lo0".to_vec(), counters(5), 8232, InterfaceOperationalState::Up, MacAddr([0; 6]));
    nets.finish_refresh(true);
    assert_eq!(nets.len(), 2);
    let (name, data) = nets.get_index(0);
    assert_eq!(name, b"net0");
    assert_eq!(data.counters.rx_bytes, 100);
    assert_eq!(data.counters.old_rx_bytes, 0);
    assert_eq!(data.counters.mtu, 1500);

    nets.begin_refresh();
    assert!(nets.wants(b"net0"));
    nets.record(b"net0".to_vec(), counters(160), 9000, InterfaceOperationalState::Down, MacAddr([2; 6]));
    nets.finish_refresh(true);
    assert_eq!(nets.len(), 1);
    let (name, data) = nets.get_index(0);
    assert_eq!(name, b"net0");
    assert_eq!(data.counters.rx_bytes, 160);
    assert_eq!(data.counters.old_rx_bytes, 100);
    assert_eq!(data.counters.tx_bytes, 320);
    assert_eq!(data.counters.old_tx_bytes, 200);
    assert_eq!(data.counters.mtu, 9000);
    assert_eq!(data.counters.operational_state, InterfaceOperationalState::Down);
    assert_eq!(data.mac_addr, MacAddr([2; 6]));
}

#[test]
fn without_removal_unread_interfaces_stay() {
    let mut nets = NetworksInner::new();
    nets.begin_refresh();
    nets.record(b"a".to_vec(), counters(1), 1, InterfaceOperationalState::Up, MacAddr([0; 6]));
    nets.finish_refresh(false);
    nets.begin_refresh();
    nets.finish_refresh(false);
    assert_eq!(nets.len(), 1);
    assert!(!nets.get_index(0).1.counters.updated);
}

fn reading(raw: &[u8], rx: u64) -> sysinfo::illumos_net::IfReading {
    let mut counters = sysinfo::illumos_net::Counters::default();
    counters.received = rx;
    sysinfo::illumos_net::IfReading {
        raw_name: raw.to_vec(),
        counters,
        mtu: 1500,
        state: sysinfo::network::InterfaceOperationalState::Up,
        mac: sysinfo::network::MacAddr([1, 2, 3, 4, 5, 6]),
    }
}

#[test]
fn whole_refresh_lists_the_named_interfaces() {
    let mut n = sysinfo::illumos_net::NetworksInner::new();
    n.refresh(Some(vec![reading(b"net0", 10), reading(b"net0:1", 99), reading(b":x", 1), reading(b"lo0", 5)]), true);
    assert_eq!(n.len(), 2);
    assert_eq!(n.get_index(0).0, b"net0");
    assert_eq!(n.get_index(0).1.counters.rx_bytes, 10);
    assert_eq!(n.get_index(1).0, b"lo0");
    n.refresh(Some(vec![reading(b"lo0", 7)]), true);
    assert_eq!(n.len(), 1);
    assert_eq!(n.get_index(0).1.counters.rx_bytes, 7);
    assert_eq!(n.get_index(0).1.counters.old_rx_bytes, 5);
    n.refresh(None, true);
    assert_eq!(n.len(), 1);
}
