use rapport::args::Cli;
use rapport::config::{
    default_connection_timeout, default_log_level, default_pool_buffer_size, default_pool_count,
    default_socket_buffer_size, BufferConfig, Config, RouteConfig,
};
use rapport::config2::{default_false, default_recv_socket_buffer_size, default_thread_count, default_true};
use rapport::dns::{HostAddr, HostSocket};
use rapport::ip::{IpAddr, Ipv4Addr, Ipv6Addr, SocketAddr};
use rapport::port_range::PortRange;

fn v4(a: u8, b: u8, c: u8, d: u8) -> IpAddr {
    IpAddr::V4(Ipv4Addr::new(a, b, c, d))
}

fn target(h: &HostSocket) -> (IpAddr, u16) {
    match h.addr {
        HostAddr::Addr(ip) => (ip, h.port),
        _ => panic!("Expected an address"),
    }
}

fn config(routes: Vec<RouteConfig>) -> Config {
    Config {
        connection_timeout: default_connection_timeout(),
        log_level: default_log_level(),
        buffers: BufferConfig::default(),
        routes,
    }
}

#[test]
fn defaults() {
    assert_eq!(default_connection_timeout(), 30);
    assert_eq!(default_log_level(), "info");
    assert_eq!(default_socket_buffer_size(), 4096);
    assert_eq!(default_pool_count(), 256);
    assert_eq!(default_pool_buffer_size(), 4096);
    assert!(default_true());
    assert!(!default_false());
    assert_eq!(default_recv_socket_buffer_size(), 2048);
    assert_eq!(default_thread_count(), 10);
    let b = BufferConfig::default();
    assert_eq!(b, BufferConfig { socket_buffer_size: 4096, use_pool: false, pool_count: 256, pool_buffer_size: 4096 });
    let cli = Cli::default();
    assert_eq!(cli.config_file, "/etc/massudpproxy.toml");
    assert!(cli.unlimited_resource);
    assert_eq!(cli.threads, 4);
}

#[test]
fn single_port_route() {
    let local = SocketAddr::new(v4(0, 0, 0, 0), 5000);
    let remote = SocketAddr::new(v4(10, 0, 0, 1), 6000);
    let c = config(vec![RouteConfig::SinglePort { local, remote }]);
    let routes = c.to_listen_routes();
    assert_eq!(routes.len(), 1);
    assert_eq!(routes[0].0, local);
    assert_eq!(target(&routes[0].1), (v4(10, 0, 0, 1), 6000));
}

#[test]
fn many_ports_route() {
    let c = config(vec![RouteConfig::ManyPorts {
        local_addr: v4(127, 0, 0, 1),
        remote_addr: v4(10, 0, 0, 2),
        ports: vec![53, 80, 53],
    }]);
    let routes = c.to_listen_routes();
    let got: Vec<(u16, (IpAddr, u16))> = routes.iter().map(|(l, h)| (l.port, target(h))).collect();
    assert_eq!(got, vec![(53, (v4(10, 0, 0, 2), 53)), (80, (v4(10, 0, 0, 2), 80)), (53, (v4(10, 0, 0, 2), 53))]);
    assert!(routes.iter().all(|(l, _)| l.ip == v4(127, 0, 0, 1)));
}

#[test]
fn complex_ports_zip_to_shorter() {
    let c = config(vec![RouteConfig::ManyComplexPorts {
        local_addr: v4(1, 1, 1, 1),
        remote_addr: v4(2, 2, 2, 2),
        local_ports: vec![1, 2, 3],
        remote_ports: vec![10, 20],
    }]);
    let routes = c.to_listen_routes();
    let got: Vec<(u16, u16)> = routes.iter().map(|(l, h)| (l.port, h.port)).collect();
    assert_eq!(got, vec![(1, 10), (2, 20)]);
}

#[test]
fn ranges() {
    let lr = PortRange::new(7000, 7002).ok().unwrap();
    let rr = PortRange::new(9000, 9005).ok().unwrap();
    let v6 = IpAddr::V6(Ipv6Addr::new(0, 0, 0, 0, 0, 0, 0, 1));
    let c = config(vec![
        RouteConfig::SimpleRange { local_addr: v4(0, 0, 0, 0), remote_addr: v6, port_range: lr },
        RouteConfig::ComplexPortRange {
            local_addr: v4(0, 0, 0, 0),
            remote_addr: v4(3, 3, 3, 3),
            local_port_range: lr,
            remote_port_range: rr,
        },
    ]);
    let routes = c.to_listen_routes();
    let got: Vec<(u16, (IpAddr, u16))> = routes.iter().map(|(l, h)| (l.port, target(h))).collect();
    assert_eq!(
        got,
        vec![
            (7000, (v6, 7000)),
            (7001, (v6, 7001)),
            (7002, (v6, 7002)),
            (7000, (v4(3, 3, 3, 3), 9000)),
            (7001, (v4(3, 3, 3, 3), 9001)),
            (7002, (v4(3, 3, 3, 3), 9002)),
        ]
    );
}

#[test]
fn routes_keep_configuration_order() {
    let a = SocketAddr::new(v4(0, 0, 0, 0), 1);
    let b = SocketAddr::new(v4(0, 0, 0, 0), 2);
    let c = config(vec![
        RouteConfig::SinglePort { local: b, remote: a },
        RouteConfig::SinglePort { local: a, remote: b },
    ]);
    let routes = c.to_listen_routes();
    assert_eq!(routes[0].0, b);
    assert_eq!(routes[1].0, a);
    assert!(config(vec![]).to_listen_routes().is_empty());
}

#[test]
fn port_range_walk() {
    let mut r = PortRange::new(65534, 65535).ok().unwrap();
    assert_eq!(r.to_vec(), vec![65534, 65535]);
    assert_eq!(r.next(), Some(65534));
    assert_eq!(r.next(), Some(65535));
    assert_eq!(r.next(), None);
    assert_eq!(r.next(), None);
    assert!(r.to_vec().is_empty());
    let one = PortRange::new(5, 5).ok().unwrap();
    assert_eq!(one.to_vec(), vec![5]);
}

#[test]
fn port_range_refuses_reversed() {
    let e = PortRange::new(10, 9).unwrap_err();
    assert_eq!(e.message(), "Range start must not be greater than end");
}
