use subnet_calc::ipv4::{parse_ipv4, render_ipv4};
use subnet_calc::subnet_calculator::{calculate_subnet_info, SubnetError};

#[test]
fn test_calculate_subnet_info() {
    let result = calculate_subnet_info("192.168.1.0".to_string(), 24)
        .expect("应该成功计算子网信息");
    assert_eq!(result.netmask, "255.255.255.0");
    assert_eq!(result.network_address, "192.168.1.0");
    assert_eq!(result.broadcast, "192.168.1.255");
    assert_eq!(result.hosts, 254);

    let result = calculate_subnet_info("192.168.1.1".to_string(), 32)
        .expect("应该成功计算 /32 网络");
    assert_eq!(result.hosts, 1);

    let result = calculate_subnet_info("192.168.1.0".to_string(), 31)
        .expect("应该成功计算 /31 网络");
    assert_eq!(result.hosts, 2);
}

#[test]
fn test_invalid_inputs() {
    assert!(calculate_subnet_info("256.256.256.256".to_string(), 24).is_err());

    assert!(calculate_subnet_info("192.168.1.0".to_string(), 33).is_err());
}

#[test]
fn test_slash_24_all_fields() {
    let info = calculate_subnet_info("192.168.1.0".to_string(), 24).unwrap();
    assert_eq!(info.netmask, "255.255.255.0");
    assert_eq!(info.wildcard, "0.0.0.255");
    assert_eq!(info.network_address, "192.168.1.0");
    assert_eq!(info.broadcast, "192.168.1.255");
    assert_eq!(info.first_host, "192.168.1.1");
    assert_eq!(info.last_host, "192.168.1.254");
    assert_eq!(info.hosts, 254);
}

#[test]
fn test_slash_32_single_host() {
    let info = calculate_subnet_info("192.168.1.1".to_string(), 32).unwrap();
    assert_eq!(info.hosts, 1);
    assert_eq!(info.first_host, "192.168.1.1");
    assert_eq!(info.last_host, "192.168.1.1");
    assert_eq!(info.network_address, "192.168.1.1");
    assert_eq!(info.broadcast, "192.168.1.1");
}

#[test]
fn test_slash_31_point_to_point() {
    let info = calculate_subnet_info("192.168.1.0".to_string(), 31).unwrap();
    assert_eq!(info.hosts, 2);
    assert_eq!(info.first_host, "192.168.1.0");
    assert_eq!(info.last_host, "192.168.1.1");
    assert_eq!(info.network_address, "192.168.1.0");
    assert_eq!(info.broadcast, "192.168.1.1");
}

#[test]
fn test_slash_8() {
    let info = calculate_subnet_info("10.0.0.5".to_string(), 8).unwrap();
    assert_eq!(info.netmask, "255.0.0.0");
    assert_eq!(info.network_address, "10.0.0.0");
    assert_eq!(info.broadcast, "10.255.255.255");
    assert_eq!(info.hosts, 16777214);
    assert_eq!(info.first_host, "10.0.0.1");
    assert_eq!(info.last_host, "10.255.255.254");
}

#[test]
fn test_prefix_zero() {
    let info = calculate_subnet_info("192.168.1.1".to_string(), 0).unwrap();
    assert_eq!(info.netmask, "0.0.0.0");
    assert_eq!(info.wildcard, "255.255.255.255");
    assert_eq!(info.network_address, "0.0.0.0");
    assert_eq!(info.broadcast, "255.255.255.255");
    assert_eq!(info.first_host, "0.0.0.1");
    assert_eq!(info.last_host, "255.255.255.254");
    assert_eq!(info.hosts, 4294967294);
}

#[test]
fn test_invalid_address_variants() {
    let bad = [
        "256.256.256.256",
        "1.2.3",
        "a.b.c.d",
        "1.2.3.4.5",
        "",
        "1..2.3",
        ".1.2.3.4",
        "1.2.3.4.",
        "01.2.3.4",
        "1.2.3.256",
        " 1.2.3.4",
        "1.2.3.4 ",
        "1.2.3.+4",
        "1.2.3.4\n",
    ];
    for s in bad {
        let r = calculate_subnet_info(s.to_string(), 24);
        assert_eq!(r.err(), Some(SubnetError::InvalidAddressFormat), "input {:?}", s);
    }
}

#[test]
fn test_invalid_prefix_length_variants() {
    for mask in [33u8, 64, 255] {
        let r = calculate_subnet_info("192.168.1.0".to_string(), mask);
        assert_eq!(r.err(), Some(SubnetError::InvalidPrefixLength), "mask {}", mask);
    }
}

#[test]
fn test_address_checked_before_prefix() {
    let r = calculate_subnet_info("256.1.1.1".to_string(), 33);
    assert_eq!(r.err(), Some(SubnetError::InvalidAddressFormat));
}

#[test]
fn test_parse_values() {
    assert_eq!(parse_ipv4("192.168.1.0"), Some(0xC0A8_0100));
    assert_eq!(parse_ipv4("0.0.0.0"), Some(0));
    assert_eq!(parse_ipv4("255.255.255.255"), Some(u32::MAX));
    assert_eq!(parse_ipv4("1.2.3.4"), Some(0x0102_0304));
    assert_eq!(parse_ipv4("10.0.0.5"), Some(0x0A00_0005));
    assert_eq!(parse_ipv4("0.0.0.256"), None);
    assert_eq!(parse_ipv4("0.0.0.00"), None);
}

#[test]
fn test_render_values() {
    assert_eq!(render_ipv4(0xC0A8_0100), "192.168.1.0");
    assert_eq!(render_ipv4(0), "0.0.0.0");
    assert_eq!(render_ipv4(u32::MAX), "255.255.255.255");
    assert_eq!(render_ipv4(0x0102_0304), "1.2.3.4");
}

#[test]
fn test_parse_render_roundtrip() {
    let texts = [
        "0.0.0.0",
        "255.255.255.255",
        "192.168.1.255",
        "10.255.255.254",
        "1.2.3.4",
        "100.200.30.7",
    ];
    for s in texts {
        let v = parse_ipv4(s).unwrap();
        assert_eq!(render_ipv4(v), s);
    }
    let info = calculate_subnet_info("172.16.5.9".to_string(), 20).unwrap();
    for derived in [
        &info.netmask,
        &info.wildcard,
        &info.network_address,
        &info.broadcast,
        &info.first_host,
        &info.last_host,
    ] {
        let v = parse_ipv4(derived).unwrap();
        assert_eq!(&render_ipv4(v), derived);
    }
}

#[test]
fn test_network_below_address_below_broadcast() {
    for (s, mask) in [("192.168.1.37", 24u8), ("10.20.30.40", 13), ("8.8.8.8", 0), ("1.2.3.4", 32)] {
        let addr = parse_ipv4(s).unwrap();
        let info = calculate_subnet_info(s.to_string(), mask).unwrap();
        let network = parse_ipv4(&info.network_address).unwrap();
        let broadcast = parse_ipv4(&info.broadcast).unwrap();
        assert!(network <= addr, "network above address for {}/{}", s, mask);
        assert!(addr <= broadcast, "address above broadcast for {}/{}", s, mask);
    }
}

#[test]
fn test_netmask_wildcard_complement() {
    for mask in [0u8, 1, 8, 13, 16, 24, 30, 31, 32] {
        let info = calculate_subnet_info("1.2.3.4".to_string(), mask).unwrap();
        let m = parse_ipv4(&info.netmask).unwrap();
        let w = parse_ipv4(&info.wildcard).unwrap();
        assert_eq!(m ^ w, 0xFFFF_FFFF, "mask {}", mask);
        assert_eq!(m & w, 0, "mask {}", mask);
    }
}

#[test]
fn test_host_count_formula() {
    for mask in 0u8..=30 {
        let info = calculate_subnet_info("203.0.113.9".to_string(), mask).unwrap();
        let expected = (1u64 << (32 - mask as u32)) - 2;
        assert_eq!(info.hosts as u64, expected, "mask {}", mask);
        let network = parse_ipv4(&info.network_address).unwrap();
        let broadcast = parse_ipv4(&info.broadcast).unwrap();
        let first = parse_ipv4(&info.first_host).unwrap();
        let last = parse_ipv4(&info.last_host).unwrap();
        assert_eq!(first, network + 1, "mask {}", mask);
        assert_eq!(last, broadcast - 1, "mask {}", mask);
    }
}
