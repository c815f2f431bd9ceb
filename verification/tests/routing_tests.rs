use rapport::connection::{listen_action, upstream_action, ListenAction, RecvEvent, UpstreamAction};
use rapport::dns::{HostAddr, HostSocket};
use rapport::ip::{IpAddr, Ipv4Addr, SocketAddr};
use rapport::pool::connection_alive;
use rapport::router::Router;
use rapport::startup::{plan_streams, StartupError};
use rapport::stream_router::StreamRouter;

fn sa(d: u8, port: u16) -> SocketAddr {
    SocketAddr::new(IpAddr::V4(Ipv4Addr::new(10, 0, 0, d)), port)
}

fn port_of(h: &HostSocket) -> u16 {
    h.port
}

#[test]
fn router_add_and_lookup() {
    let r = Router::new().route(sa(1, 1000), sa(2, 2000));
    assert_eq!(r.get_forward_routes().get(&sa(1, 1000)), Some(sa(2, 2000)));
    assert_eq!(r.get_backward_routes().get(&sa(2, 2000)), Some(sa(1, 1000)));
    assert_eq!(r.get_forward_routes().get(&sa(2, 2000)), None);
}

#[test]
fn router_replaces_route() {
    let r = Router::new().route(sa(1, 1), sa(2, 2)).route(sa(1, 1), sa(3, 3));
    assert_eq!(r.get_forward_routes().get(&sa(1, 1)), Some(sa(3, 3)));
    assert_eq!(r.get_forward_routes().len(), 1);
    assert_eq!(r.get_backward_routes().len(), 2);
    assert_eq!(r.get_backward_routes().get(&sa(2, 2)), Some(sa(1, 1)));
}

#[test]
fn router_direct_routes() {
    let a = IpAddr::V4(Ipv4Addr::new(1, 1, 1, 1));
    let b = IpAddr::V4(Ipv4Addr::new(2, 2, 2, 2));
    let r = Router::new().direct_routes(a, b, &[80, 443]);
    assert_eq!(r.get_forward_routes().get(&SocketAddr::new(a, 443)), Some(SocketAddr::new(b, 443)));
    let mut ports: Vec<u16> = r.required_ports().into_iter().collect();
    ports.sort();
    assert_eq!(ports, vec![80, 443]);
    let sockets = Router::required_sockets(r.get_forward_routes());
    assert_eq!(sockets.len(), 2);
    assert!(sockets.contains(&SocketAddr::new(a, 80)));
}

#[test]
fn router_offset_routes() {
    let a = IpAddr::V4(Ipv4Addr::new(1, 1, 1, 1));
    let b = IpAddr::V4(Ipv4Addr::new(2, 2, 2, 2));
    let mut r = Router::new();
    assert_eq!(r.add_offset_routes(a, &[1, 2], b, &[11, 12]), Some(()));
    assert_eq!(r.get_forward_routes().get(&SocketAddr::new(a, 2)), Some(SocketAddr::new(b, 12)));
    assert_eq!(r.add_offset_routes(a, &[5, 6, 7], b, &[15]), None);
    assert_eq!(r.get_forward_routes().get(&SocketAddr::new(a, 5)), Some(SocketAddr::new(b, 15)));
    assert_eq!(r.get_forward_routes().get(&SocketAddr::new(a, 6)), None);
    let r2 = Router::new().offset_routes(a, &[1], b, &[]).unwrap();
    assert_eq!(r2.get_forward_routes().len(), 0);
    let (f, bw) = r.to_forward_backward_routes();
    assert_eq!(f.len(), 3);
    assert_eq!(bw.get(&SocketAddr::new(b, 15)), Some(SocketAddr::new(a, 5)));
}

#[test]
fn stream_router_routes_and_default() {
    let to_a = HostSocket::from_str("10.9.9.9:1").unwrap();
    let to_default = HostSocket::from_str("example.com:2").unwrap();
    let r = StreamRouter::recv(sa(1, 53)).route(sa(5, 5000), to_a);
    assert_eq!(r.recv_addr(), sa(1, 53));
    assert_eq!(r.solve_route(&sa(5, 5000)).map(|h| port_of(&h)), Some(1));
    assert!(r.solve_route(&sa(6, 5000)).is_none());
    let r = r.default(to_default);
    assert_eq!(r.solve_route(&sa(5, 5000)).map(|h| port_of(&h)), Some(1));
    match r.solve_route(&sa(6, 5000)).unwrap().addr {
        HostAddr::Domain(d) => assert_eq!(d, "example.com"),
        _ => panic!("Expected the default target"),
    }
}

#[test]
fn stream_router_later_route_wins() {
    let mut r = StreamRouter::recv(sa(1, 53));
    r.add_route(sa(5, 1), HostSocket::from_str("1.1.1.1:10").unwrap());
    r.add_route(sa(5, 1), HostSocket::from_str("1.1.1.1:20").unwrap());
    r.add_default(HostSocket::from_str("1.1.1.1:30").unwrap());
    assert_eq!(r.solve_route(&sa(5, 1)).map(|h| h.port), Some(20));
    assert_eq!(r.solve_route(&sa(5, 2)).map(|h| h.port), Some(30));
}

#[test]
fn stream_router_replacing_one_route_keeps_the_others() {
    let mut r = StreamRouter::recv(sa(1, 53));
    r.add_route(sa(5, 1), HostSocket::from_str("1.1.1.1:10").unwrap());
    r.add_route(sa(5, 2), HostSocket::from_str("1.1.1.1:11").unwrap());
    r.add_route(sa(5, 3), HostSocket::from_str("1.1.1.1:12").unwrap());
    r.add_route(sa(5, 2), HostSocket::from_str("1.1.1.1:21").unwrap());
    assert_eq!(r.solve_route(&sa(5, 1)).map(|h| h.port), Some(10));
    assert_eq!(r.solve_route(&sa(5, 2)).map(|h| h.port), Some(21));
    assert_eq!(r.solve_route(&sa(5, 3)).map(|h| h.port), Some(12));
    assert!(r.solve_route(&sa(5, 4)).is_none());
}

#[test]
fn startup_plans_one_stream_per_route() {
    assert_eq!(plan_streams(vec![]).err(), Some(StartupError::NoRoutes));
    assert_eq!(StartupError::NoRoutes.message(), "no routes configured");
    let routes = vec![
        (sa(1, 100), HostSocket::from_str("10.0.0.9:200").unwrap()),
        (sa(1, 101), HostSocket::from_str("10.0.0.9:201").unwrap()),
    ];
    let plan = plan_streams(routes).ok().unwrap();
    assert_eq!(plan.len(), 2);
    assert_eq!(plan[1].recv_addr(), sa(1, 101));
    assert_eq!(plan[1].solve_route(&sa(7, 7)).map(|h| h.port), Some(201));
    assert_eq!(plan[0].solve_route(&sa(7, 7)).map(|h| h.port), Some(200));
}

#[test]
fn idle_connections() {
    assert!(connection_alive(100, 70, 30));
    assert!(!connection_alive(100, 69, 30));
    assert!(connection_alive(5, 5, 0));
}

#[test]
fn upstream_actions() {
    assert_eq!(upstream_action(RecvEvent::Received(sa(1, 1)), sa(1, 1)), UpstreamAction::Forward);
    assert_eq!(upstream_action(RecvEvent::Received(sa(1, 2)), sa(1, 1)), UpstreamAction::DropPacket);
    assert_eq!(upstream_action(RecvEvent::WouldBlock, sa(1, 1)), UpstreamAction::Retry);
    assert_eq!(upstream_action(RecvEvent::Failed, sa(1, 1)), UpstreamAction::Stop);
}

#[test]
fn listen_actions() {
    assert_eq!(listen_action(RecvEvent::Received(sa(3, 3))), ListenAction::Dispatch);
    assert_eq!(listen_action(RecvEvent::WouldBlock), ListenAction::AwaitReadable);
    assert_eq!(listen_action(RecvEvent::Failed), ListenAction::Terminate);
}

#[test]
fn router_maps_stay_linked() {
    let r = Router::new()
        .route(sa(1, 1), sa(2, 2))
        .route(sa(1, 1), sa(3, 3))
        .route(sa(4, 4), sa(3, 3));
    let f = r.get_forward_routes();
    let b = r.get_backward_routes();
    for k in f.keys() {
        let out = f.get(&k).unwrap();
        assert!(b.get(&out).is_some());
    }
    for k in b.keys() {
        let inp = b.get(&k).unwrap();
        assert!(f.get(&inp).is_some());
    }
    assert_eq!(b.get(&sa(3, 3)), Some(sa(4, 4)));
}

#[test]
fn default_router_is_empty() {
    let r = Router::default();
    assert_eq!(r.get_forward_routes().len(), 0);
    assert_eq!(r.get_backward_routes().len(), 0);
}
