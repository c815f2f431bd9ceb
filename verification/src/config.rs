//! The proxy's configuration, and the listening routes it describes.
use vstd::prelude::*;
use crate::dns::{HostAddr, HostSocket};
use crate::ip::{IpAddr, SocketAddr};
use crate::port_range::PortRange;

verus! {

pub fn default_connection_timeout() -> (r: u32)
    ensures
        r == 30,
{
    30
}

pub fn default_log_level() -> (r: String)
    ensures
        r@ == "info"@,
{
    "info".to_owned()
}

pub fn default_socket_buffer_size() -> (r: usize)
    ensures
        r == 4096,
{
    4096
}

pub fn default_pool_count() -> (r: usize)
    ensures
        r == 256,
{
    256
}

pub fn default_pool_buffer_size() -> (r: usize)
    ensures
        r == 4096,
{
    4096
}

/// How packets are buffered.
#[derive(Debug, Clone, Copy, PartialEq, Eq, Structural)]
pub struct BufferConfig {
    pub socket_buffer_size: usize,
    pub use_pool: bool,
    pub pool_count: usize,
    pub pool_buffer_size: usize,
}

impl Default for BufferConfig {
    fn default() -> (r: Self)
        ensures
            r == (BufferConfig {
                socket_buffer_size: 4096,
                use_pool: false,
                pool_count: 256,
                pool_buffer_size: 4096,
            }),
    {
        BufferConfig {
            socket_buffer_size: default_socket_buffer_size(),
            use_pool: false,
            pool_count: default_pool_count(),
            pool_buffer_size: default_pool_buffer_size(),
        }
    }
}

/// One configured route, or a family of routes over several ports.
#[derive(Debug)]
pub enum RouteConfig {
    SinglePort { local: SocketAddr, remote: SocketAddr },
    ManyPorts { local_addr: IpAddr, remote_addr: IpAddr, ports: Vec<u16> },
    ManyComplexPorts {
        local_addr: IpAddr,
        remote_addr: IpAddr,
        local_ports: Vec<u16>,
        remote_ports: Vec<u16>,
    },
    SimpleRange { local_addr: IpAddr, remote_addr: IpAddr, port_range: PortRange },
    ComplexPortRange {
        local_addr: IpAddr,
        remote_addr: IpAddr,
        local_port_range: PortRange,
        remote_port_range: PortRange,
    },
}

/// The whole configuration.
#[derive(Debug)]
pub struct Config {
    pub connection_timeout: u32,
    pub log_level: String,
    pub buffers: BufferConfig,
    pub routes: Vec<RouteConfig>,
}

/// The host socket of a remote IP address and port.
pub open spec fn remote_socket(ip: IpAddr, port: u16) -> HostSocket {
    HostSocket { addr: HostAddr::Addr(ip), port }
}

/// Local port `lps[i]` paired with remote port `rps[i]`, as far as both go.
pub open spec fn port_pairs(la: IpAddr, ra: IpAddr, lps: Seq<u16>, rps: Seq<u16>) -> Seq<
    (SocketAddr, HostSocket),
> {
    let n = if lps.len() <= rps.len() {
        lps.len()
    } else {
        rps.len()
    };
    Seq::new(n, |i: int| (SocketAddr { ip: la, port: lps[i] }, remote_socket(ra, rps[i])))
}

/// The listening address and forwarding target of each route a route
/// configuration stands for, in order.
pub open spec fn route_pairs(r: RouteConfig) -> Seq<(SocketAddr, HostSocket)> {
    match r {
        RouteConfig::SinglePort { local, remote } => seq![
            (local, remote_socket(remote.ip, remote.port)),
        ],
        RouteConfig::ManyPorts { local_addr, remote_addr, ports } => port_pairs(
            local_addr,
            remote_addr,
            ports@,
            ports@,
        ),
        RouteConfig::ManyComplexPorts { local_addr, remote_addr, local_ports, remote_ports } =>
            port_pairs(local_addr, remote_addr, local_ports@, remote_ports@),
        RouteConfig::SimpleRange { local_addr, remote_addr, port_range } => port_pairs(
            local_addr,
            remote_addr,
            port_range@,
            port_range@,
        ),
        RouteConfig::ComplexPortRange {
            local_addr,
            remote_addr,
            local_port_range,
            remote_port_range,
        } => port_pairs(local_addr, remote_addr, local_port_range@, remote_port_range@),
    }
}

/// The routes of all route configurations, in order.
pub open spec fn listen_routes(rs: Seq<RouteConfig>) -> Seq<(SocketAddr, HostSocket)>
    decreases rs.len(),
{
    if rs.len() == 0 {
        Seq::<(SocketAddr, HostSocket)>::empty()
    } else {
        listen_routes(rs.drop_last()) + route_pairs(rs.last())
    }
}

/// Appends `port_pairs(la, ra, lps, rps)`.
fn push_port_pairs(
    pairs: &mut Vec<(SocketAddr, HostSocket)>,
    la: IpAddr,
    ra: IpAddr,
    lps: &Vec<u16>,
    rps: &Vec<u16>,
)
    ensures
        final(pairs)@ == old(pairs)@ + port_pairs(la, ra, lps@, rps@),
{
    let n = if lps.len() <= rps.len() {
        lps.len()
    } else {
        rps.len()
    };
    let mut i: usize = 0;
    while i < n
        invariant
            i <= n,
            n <= lps@.len(),
            n <= rps@.len(),
            n == port_pairs(la, ra, lps@, rps@).len(),
            pairs@ == old(pairs)@ + port_pairs(la, ra, lps@, rps@).take(i as int),
        decreases n - i,
    {
        pairs.push(
            (
                SocketAddr::new(la, lps[i]),
                HostSocket::from_socketaddr(SocketAddr::new(ra, rps[i])),
            ),
        );
        i = i + 1;
        assert(pairs@ =~= old(pairs)@ + port_pairs(la, ra, lps@, rps@).take(i as int));
    }
    assert(port_pairs(la, ra, lps@, rps@).take(n as int) =~= port_pairs(la, ra, lps@, rps@));
}

impl Config {
    /// The listening address and forwarding target of every configured
    /// route, in the order of the configuration.
    pub fn to_listen_routes(&self) -> (r: Vec<(SocketAddr, HostSocket)>)
        ensures
            r@ == listen_routes(self.routes@),
    {
        let mut pairs: Vec<(SocketAddr, HostSocket)> = Vec::new();
        let mut i: usize = 0;
        while i < self.routes.len()
            invariant
                i <= self.routes@.len(),
                pairs@ == listen_routes(self.routes@.take(i as int)),
            decreases self.routes@.len() - i,
        {
            let ghost before = pairs@;
            match &self.routes[i] {
                RouteConfig::SinglePort { local, remote } => {
                    pairs.push((*local, HostSocket::from_socketaddr(*remote)));
                    assert(pairs@ =~= before + route_pairs(self.routes@[i as int]));
                },
                RouteConfig::ManyPorts { local_addr, remote_addr, ports } => {
                    push_port_pairs(&mut pairs, *local_addr, *remote_addr, ports, ports);
                },
                RouteConfig::ManyComplexPorts {
                    local_addr,
                    remote_addr,
                    local_ports,
                    remote_ports,
                } => {
                    push_port_pairs(
                        &mut pairs,
                        *local_addr,
                        *remote_addr,
                        local_ports,
                        remote_ports,
                    );
                },
                RouteConfig::SimpleRange { local_addr, remote_addr, port_range } => {
                    let ports = port_range.to_vec();
                    push_port_pairs(&mut pairs, *local_addr, *remote_addr, &ports, &ports);
                },
                RouteConfig::ComplexPortRange {
                    local_addr,
                    remote_addr,
                    local_port_range,
                    remote_port_range,
                } => {
                    let lps = local_port_range.to_vec();
                    let rps = remote_port_range.to_vec();
                    push_port_pairs(&mut pairs, *local_addr, *remote_addr, &lps, &rps);
                },
            }
            assert(self.routes@.take(i + 1).drop_last() =~= self.routes@.take(i as int));
            i = i + 1;
        }
        assert(self.routes@.take(self.routes@.len() as int) =~= self.routes@);
        pairs
    }
}

/// Pairing local and remote ports gives one route per position both lists
/// have: as many routes as the shorter list has ports, the `i`-th listening
/// on local port `lps[i]` and forwarding to remote port `rps[i]`.
pub proof fn law_port_pairs(la: IpAddr, ra: IpAddr, lps: Seq<u16>, rps: Seq<u16>)
    ensures
        port_pairs(la, ra, lps, rps).len() <= lps.len(),
        port_pairs(la, ra, lps, rps).len() <= rps.len(),
        port_pairs(la, ra, lps, rps).len() == lps.len() || port_pairs(la, ra, lps, rps).len()
            == rps.len(),
        forall|i: int|
            0 <= i < lps.len() && 0 <= i < rps.len() ==> #[trigger] port_pairs(la, ra, lps, rps)[i]
                == (SocketAddr { ip: la, port: lps[i] }, remote_socket(ra, rps[i])),
{
}

/// How many listening routes one route configuration stands for: one for a
/// single port, one per port of a port list or of a range (`end - start + 1`
/// for `[start, end]`), and as many as the shorter side has for two lists or
/// two ranges.
pub proof fn law_route_count(r: RouteConfig)
    ensures
        match r {
            RouteConfig::SinglePort { .. } => route_pairs(r).len() == 1,
            RouteConfig::ManyPorts { ports, .. } => route_pairs(r).len() == ports@.len(),
            RouteConfig::ManyComplexPorts { local_ports, remote_ports, .. } => route_pairs(r).len()
                == (if local_ports@.len() <= remote_ports@.len() {
                local_ports@.len()
            } else {
                remote_ports@.len()
            }),
            RouteConfig::SimpleRange { port_range, .. } => route_pairs(r).len()
                == port_range@.len(),
            RouteConfig::ComplexPortRange { local_port_range, remote_port_range, .. } => route_pairs(
                r,
            ).len() == (if local_port_range@.len() <= remote_port_range@.len() {
                local_port_range@.len()
            } else {
                remote_port_range@.len()
            }),
        },
{
}

/// The routes of a list of route configurations are those of its first part
/// followed by those of the rest: adding a route configuration adds exactly
/// its routes, after the others.
pub proof fn law_listen_routes_concat(a: Seq<RouteConfig>, b: Seq<RouteConfig>)
    ensures
        listen_routes(a + b) == listen_routes(a) + listen_routes(b),
        listen_routes(a + b).len() == listen_routes(a).len() + listen_routes(b).len(),
    decreases b.len(),
{
    if b.len() == 0 {
        assert(a + b =~= a);
        assert(listen_routes(b) =~= Seq::<(SocketAddr, HostSocket)>::empty());
        assert(listen_routes(a) + listen_routes(b) =~= listen_routes(a));
    } else {
        let b0 = b.drop_last();
        law_listen_routes_concat(a, b0);
        assert((a + b).drop_last() =~= a + b0);
        assert((a + b).last() == b.last());
        assert(listen_routes(a + b) =~= listen_routes(a) + listen_routes(b));
    }
}

/// A single route configuration stands for exactly its own routes.
pub proof fn law_listen_routes_single(r: RouteConfig)
    ensures
        listen_routes(seq![r]) == route_pairs(r),
{
    let one = seq![r];
    assert(one.drop_last() =~= Seq::<RouteConfig>::empty());
    assert(one.last() == r);
    assert(listen_routes(one.drop_last()) =~= Seq::<(SocketAddr, HostSocket)>::empty());
    assert(listen_routes(one) == listen_routes(one.drop_last()) + route_pairs(r));
    assert(listen_routes(one) =~= route_pairs(r));
}

} // verus!
