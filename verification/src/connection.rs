//! What a connection does with each outcome of reading its upstream socket.
use vstd::prelude::*;
use crate::ip::SocketAddr;

verus! {

/// The outcome of one attempt to read a datagram from a socket.
#[derive(Debug, Clone, Copy, PartialEq, Eq, Structural)]
pub enum RecvEvent {
    /// A datagram arrived from this address.
    Received(SocketAddr),
    /// Nothing was ready yet.
    WouldBlock,
    /// The socket failed.
    Failed,
}

/// What a connection does next.
#[derive(Debug, Clone, Copy, PartialEq, Eq, Structural)]
pub enum UpstreamAction {
    /// Mark the connection active and send the datagram to its origin.
    Forward,
    /// Drop the datagram: it is not from the upstream.
    DropPacket,
    /// Wait and read again.
    Retry,
    /// Stop the connection with the socket's error.
    Stop,
}

/// A connection forwards back only what its upstream sends: a datagram
/// from any other address is dropped; a socket that is not ready is read
/// again; a failing socket stops the connection.
pub fn upstream_action(event: RecvEvent, upstream: SocketAddr) -> (r: UpstreamAction)
    ensures
        r == match event {
            RecvEvent::Received(from) => if from == upstream {
                UpstreamAction::Forward
            } else {
                UpstreamAction::DropPacket
            },
            RecvEvent::WouldBlock => UpstreamAction::Retry,
            RecvEvent::Failed => UpstreamAction::Stop,
        },
{
    match event {
        RecvEvent::Received(from) => {
            if from == upstream {
                UpstreamAction::Forward
            } else {
                UpstreamAction::DropPacket
            }
        },
        RecvEvent::WouldBlock => UpstreamAction::Retry,
        RecvEvent::Failed => UpstreamAction::Stop,
    }
}

/// What a listening socket does next.
#[derive(Debug, Clone, Copy, PartialEq, Eq, Structural)]
pub enum ListenAction {
    /// Hand the datagram to its route.
    Dispatch,
    /// Wait until the socket is readable again.
    AwaitReadable,
    /// Stop listening with the socket's error.
    Terminate,
}

/// A listener hands every datagram on, waits when nothing is ready, and
/// stops when the socket fails.
pub fn listen_action(event: RecvEvent) -> (r: ListenAction)
    ensures
        r == match event {
            RecvEvent::Received(_) => ListenAction::Dispatch,
            RecvEvent::WouldBlock => ListenAction::AwaitReadable,
            RecvEvent::Failed => ListenAction::Terminate,
        },
{
    match event {
        RecvEvent::Received(_) => ListenAction::Dispatch,
        RecvEvent::WouldBlock => ListenAction::AwaitReadable,
        RecvEvent::Failed => ListenAction::Terminate,
    }
}

} // verus!
