use vstd::prelude::*;

verus! {

/// A peer's transport address as plain values: the IP (an IPv4 address
/// in the low 32 bits when `is_v6` is false), the port, and the IPv6
/// scope and flow info.
#[derive(Clone, Copy, Debug, PartialEq, Eq, Structural)]
pub struct PeerAddress {
    pub is_v6: bool,
    pub ip: u128,
    pub port: u16,
    pub flowinfo: u32,
    pub scope_id: u32,
}

/// One datagram received from the transport.
#[derive(Clone, Debug, PartialEq)]
pub struct IncomingUdpPacket {
    pub source_address: PeerAddress,
    pub payload: Vec<u8>,
}

/// One datagram staged for the transport to send.
#[derive(Clone, Debug, PartialEq)]
pub struct OutgoingUdpPacket {
    pub destination_address: PeerAddress,
    pub payload: Vec<u8>,
}

} // verus!
