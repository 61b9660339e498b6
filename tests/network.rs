use ipcalc::{Address, IPError, IP};

fn text(a: &Address) -> String {
    a.as_str()
}

#[test]
fn describes_a_host_in_a_slash_24() {
    let ip = IP::try_from("192.168.1.10/24").unwrap();
    assert_eq!(ip.as_str(), "192.168.1.10/24");
    assert_eq!(*ip.prefix(), 24);
    assert_eq!(text(ip.mask()), "255.255.255.0");
    assert_eq!(text(ip.net_addr()), "192.168.1.0");
    assert_eq!(ip.broadcast().as_str(), "192.168.1.255");
    assert_eq!(ip.wildcard().as_str(), "0.0.0.255");
}

#[test]
fn host_bounds_touch_only_the_last_bit() {
    let ip = IP::try_from("192.168.1.10/24").unwrap();
    assert_eq!(ip.first_host().as_str(), "192.168.1.1");
    assert_eq!(ip.last_host().as_str(), "192.168.1.254");
    let wide = IP::try_from("10.0.0.0/30").unwrap();
    assert_eq!(wide.first_host().as_str(), "10.0.0.1");
    assert_eq!(wide.last_host().as_str(), "10.0.0.2");
    let single = IP::try_from("10.0.0.7/32").unwrap();
    assert_eq!(single.first_host().as_str(), "10.0.0.7");
    assert_eq!(single.last_host().as_str(), "10.0.0.6");
}

#[test]
fn details_show_network_and_mask() {
    let ip = IP::try_from("192.168.1.10/24").unwrap();
    assert_eq!(ip.details(), "192.168.1.10/24\nnetwork: 192.168.1.0\nsubnet mask: 255.255.255.0");
}

#[test]
fn prefix_zero_has_an_empty_mask() {
    let ip = IP::try_from("1.2.3.4/0").unwrap();
    assert_eq!(ip.mask().0, 0);
    assert_eq!(ip.net_addr().0, 0);
    assert_eq!(ip.wildcard().0, u32::MAX);
    assert_eq!(ip.broadcast().0, u32::MAX);
}

#[test]
fn prefix_thirty_two_has_a_full_mask() {
    let ip = IP::try_from("1.2.3.4/32").unwrap();
    assert_eq!(ip.mask().0, u32::MAX);
    assert_eq!(ip.net_addr().as_str(), "1.2.3.4");
    assert_eq!(ip.wildcard().0, 0);
}

#[test]
fn mask_has_prefix_leading_ones() {
    for p in 0..=32u32 {
        let ip = IP::try_from(&format!("10.20.30.40/{}", p) as &str).unwrap();
        let bits = ip.mask().bits();
        assert_eq!(bits, "1".repeat(p as usize) + &"0".repeat(32 - p as usize));
        assert_eq!(ip.wildcard().0, !ip.mask().0);
    }
}

#[test]
fn network_address_clears_host_bits() {
    for p in 0..=32u32 {
        let ip = IP::try_from(&format!("255.255.255.255/{}", p) as &str).unwrap();
        let bits = ip.net_addr().bits();
        assert!(bits[p as usize..].chars().all(|c| c == '0'));
        assert!(bits[..p as usize].chars().all(|c| c == '1'));
    }
}

#[test]
fn parse_errors() {
    assert!(matches!(IP::try_from("300.1.1.1/24"), Err(IPError::InvalidAddress)));
    assert!(matches!(IP::try_from("10.0.0.0/33"), Err(IPError::InvalidPrefix)));
    assert!(matches!(IP::try_from("10.0.0.0"), Err(IPError::InvalidAddress)));
    assert!(matches!(IP::try_from("10.0.0.0/"), Err(IPError::InvalidAddress)));
    assert!(matches!(IP::try_from("10.0.0.0/x"), Err(IPError::InvalidAddress)));
    assert!(matches!(IP::try_from("10.0.0.0/256"), Err(IPError::InvalidAddress)));
    assert!(matches!(IP::try_from("10.0.0.0/8/8"), Err(IPError::InvalidAddress)));
    assert!(matches!(IP::try_from("10.0.0/8"), Err(IPError::InvalidAddress)));
    assert!(matches!(IP::try_from("/8"), Err(IPError::InvalidAddress)));
}

#[test]
fn prefix_with_plus_sign_is_read() {
    assert_eq!(*IP::try_from("10.0.0.0/+8").unwrap().prefix(), 8);
}

#[test]
fn splits_slash_8_into_four() {
    let ip = IP::try_from("10.0.0.0/8").unwrap();
    let subnets = ip.subnet(10).unwrap();
    let texts: Vec<String> = subnets.iter().map(|s| s.as_str()).collect();
    assert_eq!(texts, vec!["10.0.0.0/10", "10.64.0.0/10", "10.128.0.0/10", "10.192.0.0/10"]);
}

#[test]
fn subnet_of_a_host_address_fails() {
    let ip = IP::try_from("192.168.1.10/24").unwrap();
    assert!(matches!(ip.subnet(26), Err(IPError::InvalidNetworkAddress)));
}

#[test]
fn subnet_with_equal_prefix_fails() {
    let ip = IP::try_from("10.0.0.0/8").unwrap();
    assert!(matches!(ip.subnet(8), Err(IPError::InvalidSubnetPrefix)));
    assert!(matches!(ip.subnet(4), Err(IPError::InvalidSubnetPrefix)));
}

#[test]
fn subnet_past_thirty_two_fails() {
    let ip = IP::try_from("10.0.0.0/24").unwrap();
    assert!(matches!(ip.subnet(33), Err(IPError::InvalidPrefix)));
}

#[test]
fn subnets_partition_the_parent() {
    let ip = IP::try_from("192.168.0.0/22").unwrap();
    let subnets = ip.subnet(25).unwrap();
    assert_eq!(subnets.len(), 8);
    let mut next = ip.net_addr().0 as u64;
    for s in &subnets {
        assert_eq!(*s.prefix(), 25);
        assert_eq!(s.net_addr().0 as u64, next);
        assert_eq!(s.net_addr().0, Address::new(&s.as_str()[..s.as_str().find('/').unwrap()]).unwrap().0);
        next = s.broadcast().0 as u64 + 1;
    }
    assert_eq!(next, ip.broadcast().0 as u64 + 1);
}

#[test]
fn subnets_down_to_single_hosts() {
    let ip = IP::try_from("10.1.2.0/30").unwrap();
    let texts: Vec<String> = ip.subnet(32).unwrap().iter().map(|s| s.as_str()).collect();
    assert_eq!(texts, vec!["10.1.2.0/32", "10.1.2.1/32", "10.1.2.2/32", "10.1.2.3/32"]);
}

#[test]
fn subnets_of_the_whole_space() {
    let ip = IP::try_from("0.0.0.0/0").unwrap();
    let texts: Vec<String> = ip.subnet(2).unwrap().iter().map(|s| s.as_str()).collect();
    assert_eq!(texts, vec!["0.0.0.0/2", "64.0.0.0/2", "128.0.0.0/2", "192.0.0.0/2"]);
}
