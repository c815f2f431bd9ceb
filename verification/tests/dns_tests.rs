use rapport::dns::{
    finish_lookup, pick_ip, splits_char_when_read, HostAddr, HostSocket, LookupError, ResolvePlan,
};
use rapport::ip::{IpAddr, Ipv4Addr, Ipv6Addr, SocketAddr};
use hickory_resolver::error::ResolveError;

#[test]
fn test_ipv4_socket() {
    let input = "127.0.0.1:8080";
    let socket: HostSocket = HostSocket::from_str(input).unwrap();
    assert_eq!(socket.port, 8080);
    match socket.addr {
        HostAddr::Addr(IpAddr::V4(ip)) => assert_eq!(ip.to_string(), "127.0.0.1"),
        _ => panic!("Expected IPv4 address"),
    }
}

#[test]
fn test_ipv6_socket() {
    let input = "[::1]:8080";
    let socket: HostSocket = HostSocket::from_str(input).unwrap();
    assert_eq!(socket.port, 8080);
    match socket.addr {
        HostAddr::Addr(IpAddr::V6(ip)) => assert_eq!(ip.to_string(), "::1"),
        _ => panic!("Expected IPv6 address"),
    }
}

#[test]
fn test_domain_socket() {
    let input = "example.com:443";
    let socket: HostSocket = HostSocket::from_str(input).unwrap();
    assert_eq!(socket.port, 443);
    match socket.addr {
        HostAddr::Domain(domain) => assert_eq!(domain, "example.com"),
        _ => panic!("Expected domain name"),
    }
}

#[test]
fn test_invalid_port() {
    let input = "example.com:port";
    let result: Result<HostSocket, _> = HostSocket::from_str(input);
    assert!(result.is_err());
}

#[test]
fn test_missing_port() {
    let input = "example.com";
    let result: Result<HostSocket, _> = HostSocket::from_str(input);

    assert!(result.is_err());
}

#[test]
fn test_invalid_ipv6_unbracketed() {
    let input = "2001:db8::1:8080"; // Ambiguous: colon inside address
    let result: Result<HostSocket, _> = HostSocket::from_str(input);
    println!("{:?}", result);
    assert!(result.is_err()); // Unbracketed IPv6 with port is invalid
}

#[test]
fn bracketed_ipv4_and_plus_port() {
    let socket = HostSocket::from_str("[10.0.0.2]:+53").unwrap();
    assert_eq!(socket.port, 53);
    match socket.addr {
        HostAddr::Addr(IpAddr::V4(ip)) => assert_eq!(ip.octets(), [10, 0, 0, 2]),
        _ => panic!("Expected IPv4 address"),
    }
}

#[test]
fn socket_parse_errors_keep_input() {
    for bad in ["[::1]8080", "[::1", "[::1]:", "[::1]:65536", "1.2.3.4:-1", ":80", "[example.com]:80"] {
        let e = HostSocket::from_str(bad).unwrap_err();
        assert_eq!(e.input(), bad);
        assert_eq!(e.message(), format!("invalid host socket: {}", bad));
    }
}

#[test]
fn socket_last_colon_splits_host() {
    let socket = HostSocket::from_str("example.com:1:2").unwrap_err();
    assert_eq!(socket.input(), "example.com:1:2");
    let ok = HostSocket::from_str("1.2.3.4:00080").unwrap();
    assert_eq!(ok.port, 80);
}

#[test]
fn multibyte_after_bracket_is_detected() {
    assert!(splits_char_when_read("[::1]\u{e9}80"));
    assert!(!splits_char_when_read("[::1]:80"));
    assert!(!splits_char_when_read("x]\u{e9}"));
    assert!(!splits_char_when_read("[::1]"));
}

#[test]
fn host_addr_from_str() {
    match HostAddr::from_str("192.168.1.1").unwrap() {
        HostAddr::Addr(IpAddr::V4(ip)) => assert_eq!(ip, Ipv4Addr::new(192, 168, 1, 1)),
        _ => panic!("Expected IPv4 address"),
    }
    match HostAddr::from_str("fe80::1").unwrap() {
        HostAddr::Addr(IpAddr::V6(ip)) => assert_eq!(ip.segments(), [0xfe80, 0, 0, 0, 0, 0, 0, 1]),
        _ => panic!("Expected IPv6 address"),
    }
    match HostAddr::from_str("www.example.org").unwrap() {
        HostAddr::Domain(d) => assert_eq!(d, "www.example.org"),
        _ => panic!("Expected domain name"),
    }
    let e = HostAddr::from_str("not a host!").unwrap_err();
    assert_eq!(e.input(), "not a host!");
    assert_eq!(e.message(), "invalid address: not a host!");
}

#[test]
fn host_addr_name() {
    let h = HostAddr::from_str("www.example.org").unwrap();
    let n = h.name().unwrap();
    assert_eq!(n.as_str(), "www.example.org");
    assert!(HostAddr::Addr(IpAddr::V4(Ipv4Addr::new(1, 2, 3, 4))).name().is_none());
    assert!(HostAddr::Domain("bad name!".to_string()).checked_name().is_none());
    assert!(HostAddr::Domain("example.com".to_string()).checked_name().is_some());
}

#[test]
fn from_socketaddr_keeps_ip_and_port() {
    let a = SocketAddr::new(IpAddr::V4(Ipv4Addr::new(8, 8, 8, 8)), 53);
    let h = HostSocket::from_socketaddr(a);
    assert_eq!(h.port, 53);
    match h.addr {
        HostAddr::Addr(ip) => assert_eq!(ip, a.ip),
        _ => panic!("Expected an address"),
    }
}

#[test]
fn resolve_plans() {
    let v4 = IpAddr::V4(Ipv4Addr::new(127, 0, 0, 1));
    match HostAddr::Addr(v4).resolve_plan() {
        ResolvePlan::Known(ip) => assert_eq!(ip, v4),
        _ => panic!("Expected a known address"),
    }
    let socket = HostSocket::from_str("example.com:443").unwrap();
    match socket.resolve_plan() {
        ResolvePlan::Lookup(name) => assert_eq!(name, "example.com"),
        _ => panic!("Expected a lookup"),
    }
}

#[test]
fn lookup_prefers_ipv4() {
    let v6 = IpAddr::V6(Ipv6Addr::new(0, 0, 0, 0, 0, 0, 0, 1));
    let v4a = IpAddr::V4(Ipv4Addr::new(1, 1, 1, 1));
    let v4b = IpAddr::V4(Ipv4Addr::new(2, 2, 2, 2));
    assert_eq!(pick_ip(&vec![v6, v4a, v4b]), Some(v4a));
    assert_eq!(pick_ip(&vec![v6]), Some(v6));
    assert_eq!(pick_ip(&vec![]), None);
    assert_eq!(finish_lookup(Ok(vec![v6, v4b])).unwrap(), v4b);
    assert!(matches!(finish_lookup(Ok(vec![])), Err(LookupError::NoIp)));
    let failed: Result<Vec<IpAddr>, ResolveError> = Err(ResolveError::from("no answer"));
    assert!(matches!(finish_lookup(failed), Err(LookupError::CantResolve(_))));
}

#[test]
fn cloned_host_socket_is_equal() {
    let s = HostSocket::from_str("example.com:443").unwrap();
    let c = s.clone();
    assert_eq!(c.port, 443);
    match c.addr {
        HostAddr::Domain(d) => assert_eq!(d, "example.com"),
        _ => panic!("Expected domain name"),
    }
}

#[test]
fn printed_sockets_read_back() {
    let v4 = Ipv4Addr::new(203, 0, 113, 7);
    let s = HostSocket::from_str(&format!("{}:{}", v4.to_string(), 65535)).unwrap();
    assert_eq!(s.port, 65535);
    assert!(matches!(s.addr, HostAddr::Addr(IpAddr::V4(a)) if a == v4));
    let v6 = Ipv6Addr::new(0x2001, 0xdb8, 0, 0, 1, 0, 0, 1);
    let s = HostSocket::from_str(&format!("[{}]:{}", v6.to_string(), 0)).unwrap();
    assert_eq!(s.port, 0);
    assert!(matches!(s.addr, HostAddr::Addr(IpAddr::V6(a)) if a == v6));
    assert!(HostSocket::from_str(&format!("{}:{}", v6.to_string(), 80)).is_err());
}
