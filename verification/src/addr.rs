//! The peer address as the wire protocol knows it: an IPv4 address and a
//! port, six bytes on the wire. Callers that hold socket addresses convert
//! to and from this form at the library boundary.

use vstd::prelude::*;

verus! {

/// An IPv4 endpoint: four address octets and a port.
#[derive(Clone, Copy, PartialEq, Eq, Structural, Debug)]
pub struct PeerAddr {
    pub ip0: u8,
    pub ip1: u8,
    pub ip2: u8,
    pub ip3: u8,
    pub port: u16,
}

impl PeerAddr {
    pub fn new(ip0: u8, ip1: u8, ip2: u8, ip3: u8, port: u16) -> (a: PeerAddr)
        ensures
            a == (PeerAddr { ip0, ip1, ip2, ip3, port }),
    {
        PeerAddr { ip0, ip1, ip2, ip3, port }
    }
}

/// One datagram as handed to or received from the caller's transport:
/// a destination or source address and the raw bytes.
#[derive(Clone, PartialEq, Eq, Debug)]
pub struct TransportPacket {
    pub socket_addr: PeerAddr,
    pub data: Vec<u8>,
}

} // verus!
