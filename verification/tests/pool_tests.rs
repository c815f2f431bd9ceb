use rapport::config2::{Config2, DnsConfig, UdpConfig, UdpRoute, UdpRouteOptions, UdpSocketOptions};
use rapport::ip::{IpAddr, Ipv4Addr, SocketAddr};
use rapport::pool::{connection_alive, fill_buffer_pool};

#[test]
fn connection_alive_wraps_when_last_active_is_later() {
    // Idle time 5 - 10 wraps around to 2^32 - 5.
    assert!(connection_alive(5, 10, u32::MAX));
    assert!(connection_alive(5, 10, u32::MAX - 4));
    assert!(!connection_alive(5, 10, u32::MAX - 5));
    assert!(!connection_alive(5, 10, 100));
}

#[test]
fn idle_connection_is_kept_until_timeout_then_evicted() {
    let last_active: u32 = 100;
    let timeout: u32 = 3;
    let mut present = true;
    let mut removed_at = None;
    for now in 100u32..110 {
        let was_present = present;
        present = present && connection_alive(now, last_active, timeout);
        if was_present && !present {
            removed_at = Some(now);
        }
        assert_eq!(present, now - last_active <= timeout);
    }
    assert_eq!(removed_at, Some(104));
}

#[test]
fn idle_connection_with_sparse_sweeps_is_removed_by_first_late_sweep() {
    let times = [1000u32, 1002, 1029, 1031, 1040];
    let mut present = true;
    let mut removed_at = None;
    for &now in times.iter() {
        let was_present = present;
        present = present && connection_alive(now, 1000, 30);
        if was_present && !present {
            removed_at = Some(now);
        }
    }
    assert_eq!(removed_at, Some(1031));
}

#[test]
fn buffer_pool_holds_requested_count() {
    assert_eq!(fill_buffer_pool(4, 64).available(), 4);
    assert_eq!(fill_buffer_pool(1, 2048).available(), 1);
    assert_eq!(fill_buffer_pool(0, 64).available(), 0);
    assert_eq!(fill_buffer_pool(0, usize::MAX).available(), 0);
}

#[test]
fn buffer_pool_loans_out_its_buffers() {
    let pool = fill_buffer_pool(2, 16);
    let loan = pool.loan().expect("a buffer is available");
    assert!(loan.capacity() >= 16);
    assert_eq!(loan.len(), 0);
    assert_eq!(pool.available(), 1);
}

#[test]
fn second_config_format_holds_routes() {
    let local = SocketAddr { ip: IpAddr::V4(Ipv4Addr { a: 127, b: 0, c: 0, d: 1 }), port: 5000 };
    let options = UdpSocketOptions {
        os_socket_buffer_size: None,
        recv_scoket_buffer_size: 2048,
        allocate_from_buffer_pool: false,
    };
    let config = Config2 {
        threads: 10,
        buffers_in_pool: 8,
        dns: Some(DnsConfig {
            nameservers: vec!["1.1.1.1".to_string()],
            attempts: 2,
            timeout_secs: 5,
            timeout_nanos: 0,
        }),
        udp: UdpConfig {
            default_socket_options: options.clone(),
            routes: vec![UdpRoute {
                socket_options: options,
                route_options: UdpRouteOptions::SinglePortSimple { always_send_from_socket: None, local },
            }],
        },
    };
    let copy = config.clone();
    assert_eq!(copy.udp.routes.len(), 1);
    match &copy.udp.routes[0].route_options {
        UdpRouteOptions::SinglePortSimple { local: l, always_send_from_socket } => {
            assert_eq!(*l, local);
            assert!(always_send_from_socket.is_none());
        }
        UdpRouteOptions::ManyPorts {} => panic!("expected a single-port route"),
    }
    assert_eq!(copy.dns.as_ref().map(|d| d.attempts), Some(2));
    assert!(format!("{:?}", copy).contains("SinglePortSimple"));
}
