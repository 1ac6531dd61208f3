//! Transport errors.

use vstd::prelude::*;
use crate::addr::SocketAddress;
use crate::quic::QuicError;
use crate::tls::TlsError;

verus! {

/// What can go wrong in the transport layer.
#[derive(Debug)]
pub enum Error {
    /// Endpoint configuration cannot create a bounded, live runtime.
    InvalidConfig {
        /// The public configuration field that is invalid.
        field: &'static str,
        /// Its required range.
        reason: &'static str,
    },
    /// A socket operation failed; what the operating system said.
    Io(String),
    /// The endpoint loop has stopped.
    EndpointClosed,
    /// An in-process endpoint was constructed without an entered runtime.
    RuntimeUnavailable,
    /// The next hop asked this endpoint to reduce traffic and this request was not admitted.
    Overloaded {
        /// The downstream server whose active report caused the rejection.
        peer: SocketAddress,
    },
    /// A request could not be sent because it has no usable `Via`.
    NoVia,
    /// A message could not be built; why.
    Build(String),
    /// TLS could not be established or verified. There is deliberately no path from here to a
    /// cleartext retry.
    Tls(TlsError),
    /// QUIC authentication, negotiation, or connection failure.
    Quic(QuicError),
    /// A response was given for a transaction that no longer exists.
    NoTransaction,
    /// A keep-alive was answered with a STUN Binding Error Response (RFC 5626 §4.4.2).
    KeepaliveRefused,
    /// A keep-alive went unanswered (RFC 5626 §4.4.1, §4.4.2).
    KeepaliveUnanswered,
    /// The connection a keep-alive was sent on closed before it was answered.
    ConnectionClosed,
    /// A URI that resolved to no usable candidate (RFC 3263).
    Unresolvable(Vec<u8>),
    /// A transport that is declared but not yet implemented.
    UnsupportedTransport(&'static str),
    /// Every configured live connection slot is still occupied.
    ConnectionCapacity {
        /// The configured live-task limit.
        max: usize,
    },
    /// A capture file could not be opened.
    Capture {
        /// Where the capture was to be written.
        path: String,
        /// Why it could not be.
        source: String,
    },
    /// A datagram larger than the path MTU on an unreliable transport (RFC 3261 §18.1.1).
    TooLarge {
        /// How big the message is.
        size: usize,
        /// The configured limit.
        mtu: usize,
    },
    /// A source-admission generation larger than its configured bound.
    SourceAdmissionCapacity {
        /// The configured bound.
        max: usize,
        /// How many prefixes were offered.
        attempted: usize,
    },
}

} // verus!
