//! Endpoint topology: a client speaks to one fixed remote address, a
//! server fans out to every address it has heard from.

use vstd::prelude::*;

verus! {

/// A peer's address, held as plain values: a 32-bit host address and a
/// port. The unverified edge translates between this and the socket
/// address type it binds and sends with.
#[derive(Debug, PartialEq, Eq, Structural, Clone, Copy)]
pub struct PeerAddr {
    pub ip: u32,
    pub port: u16,
}

impl PeerAddr {
    /// Builds an address from its host and port parts.
    pub fn new(ip: u32, port: u16) -> (a: PeerAddr)
        ensures
            a.ip == ip,
            a.port == port,
    {
        PeerAddr { ip, port }
    }
}

/// Operating mode: a client is bound to one remote address known at
/// construction; a server learns its peers one by one as datagrams
/// arrive.
#[derive(Debug, PartialEq, Eq, Structural, Clone, Copy)]
pub enum Mode {
    Server,
    Client(PeerAddr),
}

} // verus!
