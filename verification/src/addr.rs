//! Network addresses as plain values.

use vstd::prelude::*;

verus! {

/// An IP address of either family, held as its octets in network order.
#[derive(Debug, Clone, Copy, PartialEq, Eq, Hash)]
pub enum IpAddress {
    /// An IPv4 address.
    V4([u8; 4]),
    /// An IPv6 address.
    V6([u8; 16]),
}

/// An IP address and a port.
#[derive(Debug, Clone, Copy, PartialEq, Eq, Hash)]
pub struct SocketAddress {
    /// The address.
    pub ip: IpAddress,
    /// The port.
    pub port: u16,
}

impl IpAddress {
    /// Whether this is an IPv4 address.
    pub fn is_ipv4(&self) -> (r: bool)
        ensures
            r == (*self is V4),
    {
        match self {
            IpAddress::V4(_) => true,
            IpAddress::V6(_) => false,
        }
    }
}

impl SocketAddress {
    /// An address and port.
    pub fn new(ip: IpAddress, port: u16) -> (r: Self)
        ensures
            r.ip == ip,
            r.port == port,
    {
        SocketAddress { ip, port }
    }
}

/// Whether two addresses are the same address.
pub fn ip_eq(a: &IpAddress, b: &IpAddress) -> (r: bool)
    ensures
        r == (*a == *b),
{
    match a {
        IpAddress::V4(x) => match b {
            IpAddress::V4(y) => bytes_equal(x, y),
            IpAddress::V6(_) => false,
        },
        IpAddress::V6(x) => match b {
            IpAddress::V6(y) => bytes_equal(x, y),
            IpAddress::V4(_) => false,
        },
    }
}

/// Whether two arrays hold the same bytes.
fn bytes_equal<const N: usize>(x: &[u8; N], y: &[u8; N]) -> (r: bool)
    ensures
        r == (*x == *y),
{
    let mut i: usize = 0;
    while i < N
        invariant
            i <= N,
            forall|j: int| 0 <= j < i ==> x[j] == y[j],
        decreases N - i,
    {
        if x[i] != y[i] {
            return false;
        }
        i = i + 1;
    }
    proof {
        assert(*x =~= *y);
    }
    true
}

} // verus!
