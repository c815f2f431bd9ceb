use rapport::ip::{parse_ip, parse_ipv4, parse_ipv6, parse_u16, IpAddr, Ipv4Addr, Ipv6Addr, SocketAddr};

#[test]
fn ipv4_parse_and_print() {
    let a = parse_ipv4("192.168.0.254").unwrap();
    assert_eq!(a.octets(), [192, 168, 0, 254]);
    assert_eq!(a.to_string(), "192.168.0.254");
    assert_eq!(Ipv4Addr::new(0, 0, 0, 0).to_string(), "0.0.0.0");
    assert_eq!(parse_ipv4("255.255.255.255"), Some(Ipv4Addr::new(255, 255, 255, 255)));
}

#[test]
fn ipv4_refusals() {
    for bad in ["", "1.2.3", "1.2.3.4.5", "256.1.1.1", "01.2.3.4", "1..2.3", "1.2.3.4 ", "a.b.c.d", "1.2.3.0004", "+1.2.3.4"] {
        assert_eq!(parse_ipv4(bad), None, "{}", bad);
    }
}

#[test]
fn ipv6_forms() {
    assert_eq!(parse_ipv6("::").unwrap().segments(), [0; 8]);
    assert_eq!(parse_ipv6("::1").unwrap().segments(), [0, 0, 0, 0, 0, 0, 0, 1]);
    assert_eq!(parse_ipv6("1::").unwrap().segments(), [1, 0, 0, 0, 0, 0, 0, 0]);
    assert_eq!(parse_ipv6("1:2:3:4:5:6:7:8").unwrap().segments(), [1, 2, 3, 4, 5, 6, 7, 8]);
    assert_eq!(parse_ipv6("1:2:3:4:5:6:7::").unwrap().segments(), [1, 2, 3, 4, 5, 6, 7, 0]);
    assert_eq!(parse_ipv6("2001:DB8::aBcD").unwrap().segments(), [0x2001, 0xdb8, 0, 0, 0, 0, 0, 0xabcd]);
    assert_eq!(parse_ipv6("::ffff:1.2.3.4").unwrap().segments(), [0, 0, 0, 0, 0, 0xffff, 0x0102, 0x0304]);
    assert_eq!(parse_ipv6("1:2:3:4:5:6:7.8.9.10").unwrap().segments(), [1, 2, 3, 4, 5, 6, 0x0708, 0x090a]);
    assert_eq!(parse_ipv6("::1.2.3.4").unwrap().segments(), [0, 0, 0, 0, 0, 0, 0x0102, 0x0304]);
}

#[test]
fn ipv6_refusals() {
    for bad in [
        "", ":", ":::", "1:::2", "1::2::3", "1:2:3:4:5:6:7:8:9", "1:2:3:4:5:6:7", "12345::",
        "1:2:3:4:5:6:7:8::", "::1:2:3:4:5:6:7:8", "1.2.3.4::", "1:2:3:4:5:6:7:1.2.3.4",
        "::1.2.3.4:5", "g::", "[::1]", ":1::",
    ] {
        assert_eq!(parse_ipv6(bad), None, "{}", bad);
    }
}

#[test]
fn ipv6_print() {
    assert_eq!(Ipv6Addr::new(0, 0, 0, 0, 0, 0, 0, 1).to_string(), "::1");
    assert_eq!(Ipv6Addr::new(0, 0, 0, 0, 0, 0, 0, 0).to_string(), "::");
    assert_eq!(Ipv6Addr::new(0x2001, 0xdb8, 0, 0, 0, 0, 0, 1).to_string(), "2001:db8::1");
    assert_eq!(Ipv6Addr::new(1, 0, 0, 2, 0, 0, 0, 3).to_string(), "1:0:0:2::3");
    assert_eq!(Ipv6Addr::new(1, 0, 0, 2, 0, 0, 3, 4).to_string(), "1::2:0:0:3:4");
    assert_eq!(Ipv6Addr::new(1, 0, 2, 3, 4, 5, 6, 7).to_string(), "1:0:2:3:4:5:6:7");
    assert_eq!(Ipv6Addr::new(0, 0, 0, 0, 0, 0xffff, 0xc0a8, 0x0001).to_string(), "::ffff:192.168.0.1");
    assert_eq!(Ipv6Addr::new(0xabcd, 0xef, 0, 0, 0, 0, 0, 0).to_string(), "abcd:ef::");
}

#[test]
fn ip_either_family() {
    assert_eq!(parse_ip("10.1.2.3"), Some(IpAddr::V4(Ipv4Addr::new(10, 1, 2, 3))));
    assert_eq!(parse_ip("::2"), Some(IpAddr::V6(Ipv6Addr::new(0, 0, 0, 0, 0, 0, 0, 2))));
    assert_eq!(parse_ip("example.com"), None);
    assert!(parse_ip("1.2.3.4").unwrap().is_ipv4());
    assert!(parse_ip("::").unwrap().is_ipv6());
    assert_eq!(parse_ip("fe80::7").unwrap().to_string(), "fe80::7");
}

#[test]
fn ipv4_roundtrip_on_samples() {
    for (a, b, c, d) in [(0u8, 0u8, 0u8, 0u8), (1, 22, 133, 255), (100, 9, 10, 99)] {
        let ip = Ipv4Addr::new(a, b, c, d);
        assert_eq!(parse_ipv4(&ip.to_string()), Some(ip));
    }
}

#[test]
fn ipv6_roundtrip_on_samples() {
    for segs in [[0u16; 8], [1, 0, 0, 0, 0, 0, 0, 0], [0, 0, 0, 0, 0, 0xffff, 1, 2], [1, 2, 3, 4, 5, 6, 7, 8], [0xffff; 8], [0, 1, 0, 1, 0, 0, 1, 0]] {
        let ip = Ipv6Addr::new(segs[0], segs[1], segs[2], segs[3], segs[4], segs[5], segs[6], segs[7]);
        assert_eq!(parse_ipv6(&ip.to_string()), Some(ip));
    }
}

#[test]
fn port_numbers() {
    assert_eq!(parse_u16("0"), Some(0));
    assert_eq!(parse_u16("65535"), Some(65535));
    assert_eq!(parse_u16("+8080"), Some(8080));
    assert_eq!(parse_u16("0008080"), Some(8080));
    assert_eq!(parse_u16("65536"), None);
    assert_eq!(parse_u16("99999999999"), None);
    assert_eq!(parse_u16(""), None);
    assert_eq!(parse_u16("+"), None);
    assert_eq!(parse_u16("-1"), None);
    assert_eq!(parse_u16("12a"), None);
}

#[test]
fn socket_addr_accessors() {
    let s = SocketAddr::new(IpAddr::V4(Ipv4Addr::new(1, 2, 3, 4)), 9);
    assert_eq!(s.port(), 9);
    assert_eq!(s.ip(), IpAddr::V4(Ipv4Addr::new(1, 2, 3, 4)));
    match Ipv6Addr::new(0, 0, 0, 0, 0, 0xffff, 0x0102, 0x0304).to_ipv4_mapped() {
        Some(v4) => assert_eq!(v4.octets(), [1, 2, 3, 4]),
        None => panic!("Expected a mapped address"),
    }
    assert!(Ipv6Addr::new(0, 0, 0, 0, 0, 0, 0x0102, 0x0304).to_ipv4_mapped().is_none());
}
