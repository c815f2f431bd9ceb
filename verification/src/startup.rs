//! Turning the configured listening routes into one router per listening
//! socket, before any socket is bound.
use vstd::prelude::*;
use crate::dns::HostSocket;
use crate::ip::SocketAddr;
use crate::stream_router::{SocketKey, StreamRouter};

verus! {

/// Why the proxy cannot start.
#[derive(Debug, PartialEq, Eq, Structural)]
pub enum StartupError {
    /// The configuration names no route.
    NoRoutes,
}

impl StartupError {
    /// The error message.
    pub fn message(&self) -> (r: &'static str)
        ensures
            r@ == "no routes configured"@,
    {
        "no routes configured"
    }
}

/// One router per listening route: it listens on the route's local address
/// and forwards every sender to the route's target.
pub fn plan_streams(listen_routes: Vec<(SocketAddr, HostSocket)>) -> (r: Result<
    Vec<StreamRouter>,
    StartupError,
>)
    ensures
        r is Err <==> listen_routes@.len() == 0,
        r matches Err(e) ==> e == StartupError::NoRoutes,
        r matches Ok(v) ==> v@.len() == listen_routes@.len() && forall|i: int|
            #![trigger v@[i]]
            0 <= i < v@.len() ==> v@[i].listen() == listen_routes@[i].0 && v@[i].routes()
                == Map::<SocketKey, HostSocket>::empty() && v@[i].default_target() == Some(
                listen_routes@[i].1,
            ),
{
    if listen_routes.len() == 0 {
        return Err(StartupError::NoRoutes);
    }
    let ghost all = listen_routes@;
    let mut rest = listen_routes;
    let mut routers: Vec<StreamRouter> = Vec::new();
    while rest.len() > 0
        invariant
            routers@.len() + rest@.len() == all.len(),
            rest@ == all.skip(routers@.len() as int),
            forall|i: int|
                #![trigger routers@[i]]
                0 <= i < routers@.len() ==> routers@[i].listen() == all[i].0 && routers@[i].routes()
                    == Map::<SocketKey, HostSocket>::empty() && routers@[i].default_target()
                    == Some(all[i].1),
        decreases rest@.len(),
    {
        let (listen, target) = rest.remove(0);
        let ghost k = routers@.len() as int;
        assert(all[k] == (listen, target)) by {
            assert(all.skip(k)[0] == all[k]);
        }
        routers.push(StreamRouter::recv(listen).default(target));
        assert(rest@ =~= all.skip(routers@.len() as int));
    }
    Ok(routers)
}

} // verus!
