//! The record-link transport's verifiable face: the default port and the
//! framed message a host's socket hands in or takes out. Binding, sending
//! and receiving datagrams belong to the host around this crate.

use vstd::prelude::*;

use crate::discovery::HostPort;

verus! {

/// One framed message with the peer it came from or goes to.
#[derive(Debug)]
pub struct TransportMessage {
    pub addr: HostPort,
    pub payload: Vec<u8>,
}

/// The record-link transport: one lazily bound socket on a well-known port.
#[derive(Debug, Clone, Copy)]
pub struct UdpTransport {
    pub port: u16,
}

impl UdpTransport {
    /// A transport on the default record-link port.
    pub fn new() -> (r: UdpTransport)
        ensures
            r.port == crate::DEFAULT_UDP_SERVER_PORT,
    {
        UdpTransport { port: crate::DEFAULT_UDP_SERVER_PORT }
    }
}

} // verus!
