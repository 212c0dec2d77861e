use vstd::prelude::*;

verus! {

/// An IP address: an IPv4 address as its 32-bit big-endian value, or an
/// IPv6 address as its 128-bit big-endian value.
#[derive(Debug, Clone, Copy, PartialEq, Eq, Hash, Structural)]
pub enum IpAddress {
    V4(u32),
    V6(u128),
}

/// A socket address: an IP address and a port.
#[derive(Debug, Clone, Copy, PartialEq, Eq, Hash, Structural)]
pub struct SocketAddress {
    pub ip: IpAddress,
    pub port: u16,
}

impl SocketAddress {
    pub fn new(ip: IpAddress, port: u16) -> (r: SocketAddress)
        ensures
            r.ip == ip,
            r.port == port,
    {
        SocketAddress { ip, port }
    }

    pub fn v4(ip: u32, port: u16) -> (r: SocketAddress)
        ensures
            r.ip == IpAddress::V4(ip),
            r.port == port,
    {
        SocketAddress { ip: IpAddress::V4(ip), port }
    }

    pub fn v6(ip: u128, port: u16) -> (r: SocketAddress)
        ensures
            r.ip == IpAddress::V6(ip),
            r.port == port,
    {
        SocketAddress { ip: IpAddress::V6(ip), port }
    }
}

} // verus!
