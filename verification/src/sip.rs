//! The parts of a SIP URI and of a `Via` hop that transport decisions read, as plain values.

use vstd::prelude::*;
use crate::addr::IpAddress;

verus! {

/// The host part of a URI or a `Via` sent-by.
#[derive(Debug, Clone, PartialEq, Eq)]
pub enum Host {
    /// An IP literal.
    Ip(IpAddress),
    /// A name still to be resolved.
    Name(String),
}

/// A `sip:` or `sips:` URI, reduced to what routing reads from it.
#[derive(Debug, Clone, PartialEq, Eq)]
pub struct SipUri {
    /// `sips:`, a request that every hop be secured.
    pub secure: bool,
    /// The host, where the URI has one.
    pub host: Option<Host>,
    /// An explicit port.
    pub port: Option<u16>,
    /// The raw value of a `transport=` parameter.
    pub transport: Option<Vec<u8>>,
}

impl SipUri {
    /// A URI for a host, with no port and no `transport=` parameter.
    pub fn new(secure: bool, host: Host) -> (r: SipUri)
        ensures
            r.secure == secure,
            r.host == Some(host),
            r.port.is_none(),
            r.transport.is_none(),
    {
        SipUri { secure, host: Some(host), port: None, transport: None }
    }
}

/// The topmost `Via` hop, reduced to what routing and NAT handling read from it.
///
/// `maddr` and `received` hold the parameter's value as an address where it is an IP literal, and
/// as a name otherwise; `rport` is `Some(None)` for an empty `rport`, the client asking which port
/// the request came from.
#[derive(Debug, Clone, PartialEq, Eq)]
pub struct ViaHop {
    /// The sent-by host.
    pub host: Host,
    /// The sent-by port.
    pub port: Option<u16>,
    /// The `maddr` parameter.
    pub maddr: Option<Host>,
    /// The `received` parameter.
    pub received: Option<Host>,
    /// The `rport` parameter, with its value if it has one.
    pub rport: Option<Option<Vec<u8>>>,
}

} // verus!
