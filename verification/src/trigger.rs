//! The protocol events that fire methods.

use vstd::prelude::*;

verus! {

/// A protocol event that fires methods.
///
/// Methods list the events they want in their manifest; each packet is
/// classified into events, and exactly the methods that asked for them run,
/// once per event.
#[derive(Debug, Clone, Copy, PartialEq, Eq, Structural, PartialOrd, Ord, Hash)]
pub enum TriggerEvent {
    /// SYN without ACK: a connection attempt.
    TcpSyn,
    /// SYN and ACK: the responder accepting one.
    TcpSynAck,
    /// A TLS record carrying a ClientHello.
    TlsClientHello,
    /// A TLS record carrying a ServerHello.
    TlsServerHello,
    /// An HTTP/1.x request line.
    HttpRequest,
    /// An HTTP/1.x status line.
    HttpResponse,
    /// An SSH identification string, from either side.
    SshBanner,
    /// The session is over and every method its packets fired has reported.
    /// Raised by the session, so there is no packet with it.
    SessionEnd,
}

impl TriggerEvent {
    /// Raised by the session rather than by a packet.
    pub fn is_session_event(self) -> (r: bool)
        ensures
            r == (self == TriggerEvent::SessionEnd),
    {
        matches!(self, TriggerEvent::SessionEnd)
    }
}

} // verus!
