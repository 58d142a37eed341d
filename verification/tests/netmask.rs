use sysinfo::netmask::{ip_mask_to_prefix, ipv4_mask_to_prefix, ipv6_mask_to_prefix, IpAddr, Ipv4Addr, Ipv6Addr};

#[test]
fn ipv4_mask() {
    let mask = Ipv4Addr::new(255, 255, 255, 0);
    let prefix = ipv4_mask_to_prefix(mask).unwrap();
    assert_eq!(prefix, 24);
}

#[test]
fn ipv4_mask_another() {
    let mask = Ipv4Addr::new(255, 255, 255, 128);
    let prefix = ipv4_mask_to_prefix(mask).unwrap();
    assert_eq!(prefix, 25);
}

#[test]
fn v4_mask_to_prefix_invalid() {
    let mask = Ipv4Addr::new(255, 128, 255, 0);
    assert!(ipv4_mask_to_prefix(mask).is_err());
}

#[test]
fn ipv6_mask() {
    let mask = Ipv6Addr::new(0xffff, 0xffff, 0xffff, 0, 0, 0, 0, 0);
    let prefix = ipv6_mask_to_prefix(mask).unwrap();
    assert_eq!(prefix, 48);
}

#[test]
fn ipv6_mask_invalid() {
    let mask = Ipv6Addr::new(0, 0xffff, 0xffff, 0, 0, 0, 0, 0);
    assert!(ipv6_mask_to_prefix(mask).is_err());
}

#[test]
fn ip_mask_enum_ipv4() {
    let mask = IpAddr::from(Ipv4Addr::new(255, 255, 255, 0));
    let prefix = ip_mask_to_prefix(mask).unwrap();
    assert_eq!(prefix, 24);
}

#[test]
fn ip_mask_enum_ipv4_invalid() {
    let mask = IpAddr::from(Ipv4Addr::new(255, 0, 255, 0));
    assert!(ip_mask_to_prefix(mask).is_err());
}

#[test]
fn ip_mask_enum_ipv6() {
    let mask = IpAddr::from(Ipv6Addr::new(0xffff, 0xffff, 0xffff, 0, 0, 0, 0, 0));
    let prefix = ip_mask_to_prefix(mask).unwrap();
    assert_eq!(prefix, 48);
}

#[test]
fn ip_mask_enum_ipv6_invalid() {
    let mask = IpAddr::from(Ipv6Addr::new(0xffff, 0xffff, 0xff00, 0xffff, 0, 0, 0, 0));
    assert!(ip_mask_to_prefix(mask).is_err());
}

#[test]
fn every_ipv4_prefix_round_trips() {
    for p in 0u32..=32 {
        let m: u32 = if p == 0 { 0 } else { u32::MAX << (32 - p) };
        let b = m.to_be_bytes();
        assert_eq!(ipv4_mask_to_prefix(Ipv4Addr::new(b[0], b[1], b[2], b[3])), Ok(p as u8));
    }
}

#[test]
fn every_ipv6_prefix_round_trips() {
    for p in 0u32..=128 {
        let mut s = [0u16; 8];
        for (i, seg) in s.iter_mut().enumerate() {
            let bits = p.saturating_sub(16 * i as u32).min(16);
            *seg = if bits == 0 { 0 } else { u16::MAX << (16 - bits) };
        }
        let mask = Ipv6Addr::new(s[0], s[1], s[2], s[3], s[4], s[5], s[6], s[7]);
        assert_eq!(ipv6_mask_to_prefix(mask), Ok(p as u8));
    }
}
