//! Where a message goes, and how a response finds its way back.

use vstd::prelude::*;
use crate::addr::{IpAddress, SocketAddress};
use crate::sip::{Host, ViaHop};
use crate::text::{eq_ci, eq_ci_exec, parse_u16, parse_u16_spec};

verus! {

/// Which transport a message travels over.
#[derive(Debug, Clone, Copy, PartialEq, Eq, Hash, Structural)]
pub enum TransportKind {
    /// UDP: retransmits, one message per datagram.
    Udp,
    /// TCP: reliable, `Content-Length` framing.
    Tcp,
    /// TLS over TCP.
    Tls,
    /// SIP over WebSocket (RFC 7118).
    Ws,
    /// SIP over secure WebSocket.
    Wss,
}

/// The token a transport is spelled with, as text.
pub open spec fn spec_token_chars(t: TransportKind) -> Seq<char> {
    match t {
        TransportKind::Udp => seq!['U', 'D', 'P'],
        TransportKind::Tcp => seq!['T', 'C', 'P'],
        TransportKind::Tls => seq!['T', 'L', 'S'],
        TransportKind::Ws => seq!['W', 'S'],
        TransportKind::Wss => seq!['W', 'S', 'S'],
    }
}

/// The RFC 3261 default port of each transport, and RFC 7118's for WebSocket.
pub open spec fn spec_default_port(t: TransportKind) -> u16 {
    match t {
        TransportKind::Udp | TransportKind::Tcp => 5060,
        TransportKind::Tls => 5061,
        TransportKind::Ws => 80,
        TransportKind::Wss => 443,
    }
}

/// Whether a transport delivers reliably: what decides half the transaction timers
/// (RFC 3261 §17).
#[derive(Debug, Clone, Copy, PartialEq, Eq, Hash, Structural)]
pub enum Reliability {
    /// Messages may be lost and are retransmitted.
    Unreliable,
    /// The transport delivers or fails.
    Reliable,
}

/// The token a transport is spelled with in a `Via`, as bytes.
pub open spec fn spec_token(t: TransportKind) -> Seq<u8> {
    match t {
        TransportKind::Udp => seq![85u8, 68u8, 80u8],
        TransportKind::Tcp => seq![84u8, 67u8, 80u8],
        TransportKind::Tls => seq![84u8, 76u8, 83u8],
        TransportKind::Ws => seq![87u8, 83u8],
        TransportKind::Wss => seq![87u8, 83u8, 83u8],
    }
}

/// Whether a transport protects the signalling itself.
pub open spec fn spec_is_secure(t: TransportKind) -> bool {
    t is Tls || t is Wss
}

/// The transport a token names, ignoring ASCII case.
pub open spec fn spec_parse(token: Seq<u8>) -> Option<TransportKind> {
    if eq_ci(token, spec_token(TransportKind::Udp)) {
        Some(TransportKind::Udp)
    } else if eq_ci(token, spec_token(TransportKind::Tcp)) {
        Some(TransportKind::Tcp)
    } else if eq_ci(token, spec_token(TransportKind::Tls)) {
        Some(TransportKind::Tls)
    } else if eq_ci(token, spec_token(TransportKind::Ws)) {
        Some(TransportKind::Ws)
    } else if eq_ci(token, spec_token(TransportKind::Wss)) {
        Some(TransportKind::Wss)
    } else {
        None
    }
}

impl TransportKind {
    /// Whether the transport delivers reliably, which decides half the transaction timers.
    pub fn reliability(self) -> (r: Reliability)
        ensures
            r == (if self is Udp {
                Reliability::Unreliable
            } else {
                Reliability::Reliable
            }),
    {
        match self {
            TransportKind::Udp => Reliability::Unreliable,
            _ => Reliability::Reliable,
        }
    }

    /// The token this transport is spelled with in a `Via`.
    pub fn as_str(self) -> (r: &'static str)
        ensures
            r@ == spec_token_chars(self),
    {
        proof {
            reveal_strlit("UDP");
            reveal_strlit("TCP");
            reveal_strlit("TLS");
            reveal_strlit("WS");
            reveal_strlit("WSS");
        }
        match self {
            TransportKind::Udp => "UDP",
            TransportKind::Tcp => "TCP",
            TransportKind::Tls => "TLS",
            TransportKind::Ws => "WS",
            TransportKind::Wss => "WSS",
        }
    }

    /// The token as bytes, for building headers.
    pub fn token(self) -> (r: Vec<u8>)
        ensures
            r@ == spec_token(self),
    {
        match self {
            TransportKind::Udp => vec![85u8, 68u8, 80u8],
            TransportKind::Tcp => vec![84u8, 67u8, 80u8],
            TransportKind::Tls => vec![84u8, 76u8, 83u8],
            TransportKind::Ws => vec![87u8, 83u8],
            TransportKind::Wss => vec![87u8, 83u8, 83u8],
        }
    }

    /// Whether this transport protects the signalling itself.
    ///
    /// RFC 4568 §7.1 makes a secure signalling path a condition of carrying a key in SDP, so
    /// this decides whether encrypted media may be offered at all.
    pub fn is_secure(self) -> (r: bool)
        ensures
            r == spec_is_secure(self),
    {
        match self {
            TransportKind::Tls | TransportKind::Wss => true,
            _ => false,
        }
    }

    /// Resolve a transport token from a `Via` or a URI parameter, ignoring ASCII case.
    pub fn parse(token: &[u8]) -> (r: Option<TransportKind>)
        ensures
            r == spec_parse(token@),
    {
        let udp = [85u8, 68u8, 80u8];
        let tcp = [84u8, 67u8, 80u8];
        let tls = [84u8, 76u8, 83u8];
        let ws = [87u8, 83u8];
        let wss = [87u8, 83u8, 83u8];
        proof {
            assert(udp@ =~= spec_token(TransportKind::Udp));
            assert(tcp@ =~= spec_token(TransportKind::Tcp));
            assert(tls@ =~= spec_token(TransportKind::Tls));
            assert(ws@ =~= spec_token(TransportKind::Ws));
            assert(wss@ =~= spec_token(TransportKind::Wss));
        }
        if eq_ci_exec(token, &udp) {
            Some(TransportKind::Udp)
        } else if eq_ci_exec(token, &tcp) {
            Some(TransportKind::Tcp)
        } else if eq_ci_exec(token, &tls) {
            Some(TransportKind::Tls)
        } else if eq_ci_exec(token, &ws) {
            Some(TransportKind::Ws)
        } else if eq_ci_exec(token, &wss) {
            Some(TransportKind::Wss)
        } else {
            None
        }
    }

    /// The default port, per RFC 3261 §19.1.2 and RFC 7118.
    pub fn default_port(self) -> (p: u16)
        ensures
            p == spec_default_port(self),
    {
        match self {
            TransportKind::Udp | TransportKind::Tcp => 5060,
            TransportKind::Tls => 5061,
            TransportKind::Ws => 80,
            TransportKind::Wss => 443,
        }
    }
}

/// A destination.
///
/// Not `Copy`, because of `verify_as`: under TLS the address says where to send and the name
/// says who must be there, and the two are established by different means. Deriving the name
/// from the address instead lets whoever controls DNS pick which certificate is acceptable.
#[derive(Debug, Clone, PartialEq, Eq, Hash)]
pub struct Target {
    /// Where to send.
    pub addr: SocketAddress,
    /// How to send.
    pub transport: TransportKind,
    /// The name a TLS certificate must be valid for: the host from the URI set out to reach,
    /// before any resolution. `None` outside TLS, where nothing is verified.
    pub verify_as: Option<String>,
}

/// What makes two connections the same connection: the far end, the transport, and the
/// verified identity. Two names that resolve to one address are two connections.
#[derive(Debug, PartialEq, Eq, Hash)]
pub struct ConnectionKey {
    /// The far end.
    pub peer: SocketAddress,
    /// Which transport it speaks.
    pub transport: TransportKind,
    /// The name whose certificate was verified, for connections opened over TLS.
    pub identity: Option<String>,
}

/// The connection a target is reached over: its address, its transport, and the name it is
/// verified as.
pub open spec fn spec_connection(t: Target) -> ConnectionKey {
    ConnectionKey { peer: t.addr, transport: t.transport, identity: t.verify_as }
}

impl Target {
    /// A destination.
    pub fn new(addr: SocketAddress, transport: TransportKind) -> (r: Target)
        ensures
            r.addr == addr,
            r.transport == transport,
            r.verify_as.is_none(),
    {
        Target { addr, transport, verify_as: None }
    }

    /// A UDP destination.
    pub fn udp(addr: SocketAddress) -> (r: Target)
        ensures
            r.addr == addr,
            r.transport == TransportKind::Udp,
            r.verify_as.is_none(),
    {
        Target::new(addr, TransportKind::Udp)
    }

    /// The same destination, with the name its certificate must be valid for.
    pub fn verifying(self, name: &str) -> (r: Target)
        ensures
            r.addr == self.addr,
            r.transport == self.transport,
            r.verify_as matches Some(n) && n@ == name@,
    {
        let mut t = self;
        t.verify_as = Some(name.to_owned());
        t
    }

    /// Which pooled connection carries traffic for this destination.
    pub fn connection(&self) -> (r: ConnectionKey)
        ensures
            r.peer == self.addr,
            r.transport == self.transport,
            r.identity.is_some() == self.verify_as.is_some(),
            r.identity.is_some() ==> r.identity.unwrap()@ == self.verify_as.unwrap()@,
            r == spec_connection(*self),
    {
        let identity = match &self.verify_as {
            Some(name) => Some(name.clone()),
            None => None,
        };
        ConnectionKey { peer: self.addr, transport: self.transport, identity }
    }
}

impl Clone for ConnectionKey {
    fn clone(&self) -> (r: ConnectionKey)
        ensures
            r == *self,
    {
        let identity = match &self.identity {
            Some(name) => Some(name.clone()),
            None => None,
        };
        ConnectionKey { peer: self.peer, transport: self.transport, identity }
    }
}

impl ConnectionKey {
    /// A connection with nothing verified about it: anything a peer opened, and every cleartext
    /// transport.
    pub fn new(peer: SocketAddress, transport: TransportKind) -> (r: ConnectionKey)
        ensures
            r.peer == peer,
            r.transport == transport,
            r.identity.is_none(),
    {
        ConnectionKey { peer, transport, identity: None }
    }
}

/// The port an `rport` with a value names (RFC 3581 §4), if it names one that parses.
pub open spec fn observed_port(via: ViaHop) -> Option<u16> {
    match via.rport {
        Some(Some(v)) => parse_u16_spec(v@),
        _ => None,
    }
}

/// Where a response to a request with this topmost `Via` must be sent (RFC 3261 §18.2.2).
///
/// `maddr` wins when it is an address; then `received`, at the observed `rport` when there is one;
/// then a sent-by that is an address, again at the observed port; and otherwise the address the
/// request came from.
pub open spec fn response_destination_spec(
    via: ViaHop,
    source: SocketAddress,
    transport: TransportKind,
) -> Target {
    let claimed = match via.port {
        Some(p) => p,
        None => spec_default_port(transport),
    };
    let observed = match observed_port(via) {
        Some(p) => p,
        None => claimed,
    };
    match via.maddr {
        Some(Host::Ip(ip)) => Target {
            addr: SocketAddress { ip, port: claimed },
            transport,
            verify_as: None,
        },
        _ => match via.received {
            Some(Host::Ip(ip)) => Target {
                addr: SocketAddress { ip, port: observed },
                transport,
                verify_as: None,
            },
            _ => match via.host {
                Host::Ip(ip) => Target {
                    addr: SocketAddress { ip, port: observed },
                    transport,
                    verify_as: None,
                },
                Host::Name(_) => Target { addr: source, transport, verify_as: None },
            },
        },
    }
}

/// Where a response to this request must be sent (RFC 3261 §18.2.2).
///
/// The order is the RFC's and each step exists for a reason: `maddr` is an explicit override,
/// `received` is where the request actually came from as opposed to where the sender believed it
/// was, and the sent-by is what the sender claims. Behind a NAT only `received` is true. RFC 3581
/// §4: an observed `rport` names the port whichever address the later steps settle on. A hostname
/// sent-by needs resolution, which the caller does; falling back to the source address is the
/// safest answer and, behind a NAT, the only one that works.
pub fn response_destination(via: &ViaHop, source: SocketAddress, transport: TransportKind) -> (r:
    Target)
    ensures
        r == response_destination_spec(*via, source, transport),
{
    let claimed = match via.port {
        Some(p) => p,
        None => transport.default_port(),
    };
    if let Some(Host::Ip(ip)) = &via.maddr {
        return Target::new(SocketAddress { ip: *ip, port: claimed }, transport);
    }
    let observed = match &via.rport {
        Some(Some(v)) => match parse_u16(v.as_slice()) {
            Some(p) => p,
            None => claimed,
        },
        _ => claimed,
    };
    if let Some(Host::Ip(ip)) = &via.received {
        return Target::new(SocketAddress { ip: *ip, port: observed }, transport);
    }
    match &via.host {
        Host::Ip(ip) => Target::new(SocketAddress { ip: *ip, port: observed }, transport),
        Host::Name(_) => Target::new(source, transport),
    }
}

} // verus!
