//! The router of one listening socket: where a packet from a given sender
//! is forwarded, with a default target for senders without a route.
use vstd::prelude::*;
use crate::dns::{HostSocket, HostSocketView};
use crate::ip::{IpAddr, SocketAddr};
use dashmap::DashMap;

verus! {

/// A socket address as a tuple of integers: the family (`true` for IPv6),
/// eight 16-bit groups of the address (an IPv4 address in the first four),
/// and the port.
pub type SocketKey = (bool, u16, u16, u16, u16, u16, u16, u16, u16, u16);

pub open spec fn socket_key(a: SocketAddr) -> SocketKey {
    match a.ip {
        IpAddr::V4(v) => (false, v.a as u16, v.b as u16, v.c as u16, v.d as u16, 0, 0, 0, 0, a.port),
        IpAddr::V6(v) => (true, v.s0, v.s1, v.s2, v.s3, v.s4, v.s5, v.s6, v.s7, a.port),
    }
}

/// Distinct socket addresses have distinct keys.
pub proof fn lemma_socket_key_injective(a: SocketAddr, b: SocketAddr)
    ensures
        socket_key(a) == socket_key(b) <==> a == b,
{
}

impl SocketAddr {
    /// The address as a tuple of integers (`socket_key`).
    pub fn key(&self) -> (r: SocketKey)
        ensures
            r == socket_key(*self),
    {
        match self.ip {
            IpAddr::V4(v) => (
                false,
                v.a as u16,
                v.b as u16,
                v.c as u16,
                v.d as u16,
                0,
                0,
                0,
                0,
                self.port,
            ),
            IpAddr::V6(v) => (true, v.s0, v.s1, v.s2, v.s3, v.s4, v.s5, v.s6, v.s7, self.port),
        }
    }
}

// ---------------------------------------------------------------------------
// The concurrent map of the `dashmap` crate
// ---------------------------------------------------------------------------

#[verifier::external_type_specification]
#[verifier::external_body]
#[verifier::reject_recursive_types(K)]
#[verifier::reject_recursive_types(V)]
#[verifier::reject_recursive_types(S)]
pub struct ExDashMap<K, V, S>(DashMap<K, V, S>);

/// The map from sender keys to the place of their target in the router's
/// list of targets.
pub type RouteMap = DashMap<SocketKey, usize>;

/// No routes at all.
pub open spec fn no_routes() -> Map<SocketKey, usize> {
    Map::empty()
}

/// What a route map holds: for each sender key, the place of its target.
pub uninterp spec fn route_contents(m: RouteMap) -> Map<SocketKey, usize>;

/// Calls `DashMap::new`. Trusted: the new map is empty.
#[verifier::external_body]
fn route_map_new() -> (r: RouteMap)
    ensures
        route_contents(r) == no_routes(),
{
    DashMap::new()
}

/// Calls `DashMap::insert`. Trusted: afterwards the key maps to the value,
/// and every other key to what it mapped to before.
#[verifier::external_body]
fn route_map_insert(m: &mut RouteMap, k: SocketKey, v: usize)
    ensures
        route_contents(*final(m)) == route_contents(*old(m)).insert(k, v),
{
    m.insert(k, v);
}

/// Calls `DashMap::get` and copies out the value it finds. Trusted: a value
/// is found exactly for the keys the map holds, and it is the one the key
/// maps to.
#[verifier::external_body]
fn route_map_get(m: &RouteMap, k: &SocketKey) -> (r: Option<usize>)
    ensures
        r is Some <==> route_contents(*m).dom().contains(*k),
        r matches Some(i) ==> i == route_contents(*m)[*k],
{
    match m.get(k) {
        Some(entry) => Some(*entry.value()),
        None => None,
    }
}

// ---------------------------------------------------------------------------
// The router
// ---------------------------------------------------------------------------

/// Where a packet from `from` goes: its route, else the default target.
pub open spec fn solution(
    routes: Map<SocketKey, HostSocket>,
    default: Option<HostSocket>,
    from: SocketAddr,
) -> Option<HostSocketView> {
    if routes.dom().contains(socket_key(from)) {
        Some(routes[socket_key(from)]@)
    } else {
        match default {
            Some(h) => Some(h@),
            None => None,
        }
    }
}

/// The routes of the socket listening on `recv`.
pub struct StreamRouter {
    recv: SocketAddr,
    routes: RouteMap,
    targets: Vec<HostSocket>,
    default: Option<HostSocket>,
}

impl StreamRouter {
    /// Every sender key leads to a place in the list of targets, and no two
    /// keys to the same place.
    #[verifier::type_invariant]
    spec fn places_in_range(self) -> bool {
        &&& forall|k: SocketKey| #[trigger]
            route_contents(self.routes).dom().contains(k) ==> route_contents(self.routes)[k]
                < self.targets@.len()
        &&& forall|k1: SocketKey, k2: SocketKey|
            #![trigger route_contents(self.routes)[k1], route_contents(self.routes)[k2]]
            route_contents(self.routes).dom().contains(k1) && route_contents(
                self.routes,
            ).dom().contains(k2) && k1 != k2 ==> route_contents(self.routes)[k1]
                != route_contents(self.routes)[k2]
    }

    /// The listening address.
    pub closed spec fn listen(&self) -> SocketAddr {
        self.recv
    }

    /// The target of each sender with a route of its own.
    pub closed spec fn routes(&self) -> Map<SocketKey, HostSocket> {
        Map::new(
            |k: SocketKey| route_contents(self.routes).dom().contains(k),
            |k: SocketKey| self.targets@[route_contents(self.routes)[k] as int],
        )
    }

    /// The target of the senders without a route.
    pub closed spec fn default_target(&self) -> Option<HostSocket> {
        self.default
    }

    /// A router for the socket listening on `addr`, with no routes.
    pub fn recv(addr: SocketAddr) -> (r: StreamRouter)
        ensures
            r.listen() == addr,
            r.routes() == Map::<SocketKey, HostSocket>::empty(),
            r.default_target() is None,
    {
        let r = StreamRouter {
            default: None,
            recv: addr,
            routes: route_map_new(),
            targets: Vec::new(),
        };
        assert(r.routes() =~= Map::<SocketKey, HostSocket>::empty());
        r
    }

    /// The listening address.
    pub fn recv_addr(&self) -> (r: SocketAddr)
        ensures
            r == self.listen(),
    {
        self.recv
    }

    /// Forwards the packets of `from_addr` to `to_addr`.
    pub fn add_route(&mut self, from_addr: SocketAddr, to_addr: HostSocket)
        ensures
            final(self).listen() == old(self).listen(),
            final(self).routes() == old(self).routes().insert(socket_key(from_addr), to_addr),
            final(self).default_target() == old(self).default_target(),
    {
        let mut r = StreamRouter::recv(self.recv);
        std::mem::swap(&mut r, self);
        r = r.route(from_addr, to_addr);
        std::mem::swap(&mut r, self);
    }

    /// `add_route`, taking and giving back the router.
    pub fn route(self, from_addr: SocketAddr, to_addr: HostSocket) -> (r: Self)
        ensures
            r.listen() == self.listen(),
            r.routes() == self.routes().insert(socket_key(from_addr), to_addr),
            r.default_target() == self.default_target(),
    {
        proof {
            use_type_invariant(&self);
        }
        let ghost before = self.routes();
        let StreamRouter { recv, mut routes, mut targets, default } = self;
        let k = from_addr.key();
        match route_map_get(&routes, &k) {
            Some(i) => {
                targets.set(i, to_addr);
            },
            None => {
                let i = targets.len();
                targets.push(to_addr);
                route_map_insert(&mut routes, k, i);
            },
        }
        let ghost old_places = route_contents(self.routes);
        let ghost places = route_contents(routes);
        assert forall|key: SocketKey| #[trigger]
            places.dom().contains(key) implies places[key] < targets@.len() by {
            if key != k {
                assert(old_places.dom().contains(key));
            }
        }
        assert forall|k1: SocketKey, k2: SocketKey|
            #![trigger places[k1], places[k2]]
            places.dom().contains(k1) && places.dom().contains(k2) && k1 != k2 implies places[k1]
                != places[k2] by {
            if k1 != k && k2 != k {
                assert(old_places[k1] != old_places[k2]);
            } else if k1 != k {
                assert(old_places[k1] < self.targets@.len());
            } else {
                assert(old_places[k2] < self.targets@.len());
            }
        }
        let r = StreamRouter { recv, routes, targets, default };
        let ghost after = before.insert(socket_key(from_addr), to_addr);
        assert forall|key: SocketKey| #[trigger] r.routes().dom().contains(key) implies r.routes()[key]
            == after[key] by {
            if key != k {
                assert(old_places.dom().contains(key));
                assert(old_places[key] < self.targets@.len());
                if old_places.dom().contains(k) {
                    assert(old_places[key] != old_places[k]);
                }
            }
        }
        assert(r.routes() =~= after);
        r
    }

    /// Forwards the packets of every sender without a route to `to_addr`.
    pub fn add_default(&mut self, to_addr: HostSocket)
        ensures
            final(self).listen() == old(self).listen(),
            final(self).routes() == old(self).routes(),
            final(self).default_target() == Some(to_addr),
    {
        proof {
            use_type_invariant(&*self);
        }
        self.default = Some(to_addr);
    }

    /// `add_default`, taking and giving back the router.
    pub fn default(self, to_addr: HostSocket) -> (r: Self)
        ensures
            r.listen() == self.listen(),
            r.routes() == self.routes(),
            r.default_target() == Some(to_addr),
    {
        let mut s = self;
        s.add_default(to_addr);
        s
    }

    /// Where the packets of `addr` go: its own route, else the default
    /// target, else nowhere.
    pub fn solve_route(&self, addr: &SocketAddr) -> (r: Option<HostSocket>)
        ensures
            r is Some <==> solution(self.routes(), self.default_target(), *addr) is Some,
            r matches Some(h) ==> Some(h@) == solution(
                self.routes(),
                self.default_target(),
                *addr,
            ),
    {
        proof {
            use_type_invariant(self);
        }
        let k = addr.key();
        match route_map_get(&self.routes, &k) {
            Some(i) => Some(self.targets[i].clone()),
            None => match &self.default {
                Some(h) => Some(h.clone()),
                None => None,
            },
        }
    }
}

/// A route, once added, decides where its sender's packets go, whatever the
/// default.
pub proof fn law_route_then_solve(
    routes: Map<SocketKey, HostSocket>,
    default: Option<HostSocket>,
    from: SocketAddr,
    to: HostSocket,
)
    ensures
        solution(routes.insert(socket_key(from), to), default, from) == Some(to@),
{
}

/// A route for one sender leaves where every other sender's packets go.
pub proof fn law_route_leaves_others(
    routes: Map<SocketKey, HostSocket>,
    default: Option<HostSocket>,
    from: SocketAddr,
    to: HostSocket,
    other: SocketAddr,
)
    requires
        other != from,
    ensures
        solution(routes.insert(socket_key(from), to), default, other) == solution(
            routes,
            default,
            other,
        ),
{
    lemma_socket_key_injective(from, other);
}

/// A sender without a route of its own goes to the default target.
pub proof fn law_default_catches_unrouted(
    routes: Map<SocketKey, HostSocket>,
    to: HostSocket,
    from: SocketAddr,
)
    requires
        !routes.dom().contains(socket_key(from)),
    ensures
        solution(routes, Some(to), from) == Some(to@),
{
}

} // verus!
