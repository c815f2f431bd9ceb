//! The second configuration format and its defaults.
use crate::ip::SocketAddr;
use vstd::prelude::*;

verus! {

pub fn default_true() -> (r: bool)
    ensures
        r,
{
    true
}

pub fn default_false() -> (r: bool)
    ensures
        !r,
{
    false
}

pub fn default_recv_socket_buffer_size() -> (r: usize)
    ensures
        r == 2048,
{
    2048
}

pub fn default_thread_count() -> (r: usize)
    ensures
        r == 10,
{
    10
}

/// The second configuration format: worker threads, the buffer pool, the
/// resolver and the UDP routes.
#[derive(Debug, Clone)]
pub struct Config2 {
    /// Worker threads (`default_thread_count` when left out).
    pub threads: usize,
    pub buffers_in_pool: usize,
    /// The resolver to use; the system's when left out.
    pub dns: Option<DnsConfig>,
    pub udp: UdpConfig,
}

/// Resolver settings.
#[derive(Debug, Clone)]
pub struct DnsConfig {
    pub nameservers: Vec<String>,
    pub attempts: usize,
    /// Whole seconds of the lookup timeout.
    pub timeout_secs: u64,
    /// Nanoseconds of the lookup timeout beyond `timeout_secs`, below one
    /// second.
    pub timeout_nanos: u32,
}

/// The UDP part: socket options that routes start from, and the routes.
#[derive(Debug, Clone)]
pub struct UdpConfig {
    pub default_socket_options: UdpSocketOptions,
    pub routes: Vec<UdpRoute>,
}

/// One UDP route: its socket options and what kind of route it is.
#[derive(Debug, Clone)]
pub struct UdpRoute {
    pub socket_options: UdpSocketOptions,
    pub route_options: UdpRouteOptions,
}

/// Socket options of a UDP route.
#[derive(Debug, Clone)]
pub struct UdpSocketOptions {
    /// The operating system's socket buffer size; its default when left out.
    pub os_socket_buffer_size: Option<usize>,
    /// Receive buffer size (`default_recv_socket_buffer_size` when left out).
    pub recv_scoket_buffer_size: usize,
    /// Whether receive buffers come from the shared pool (`default_false`
    /// when left out).
    pub allocate_from_buffer_pool: bool,
}

/// The kinds of UDP route.
#[derive(Debug, Clone)]
pub enum UdpRouteOptions {
    /// One local port, optionally always sending from one socket.
    SinglePortSimple { always_send_from_socket: Option<SocketAddr>, local: SocketAddr },
    /// Many ports.
    ManyPorts {},
}

} // verus!
