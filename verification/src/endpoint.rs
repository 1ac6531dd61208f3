//! The endpoint's configuration, its validation, and the names it advertises.

use vstd::prelude::*;
use vstd::string::StrSliceExecFns;
use crate::addr::SocketAddress;
use crate::addr_text::{ip_text, ip_text_spec};
use crate::capture::CaptureConfig;
use crate::error::Error;
use crate::overload::{OverloadConfig, OverloadFeedback};
use crate::target::{spec_connection, ConnectionKey, Target, TransportKind};
use crate::tcp::PoolConfig;
use crate::text::{
    ascii_chars, ascii_string, decimal, hex_fixed, lemma_ascii_chars_injective,
    lemma_hex_fixed_injective, lemma_hex_fixed_len, lemma_u64_fits_sixteen_digits, push_char, push_decimal, push_hex16,
};

verus! {

/// How an endpoint is configured.
#[derive(Debug, Clone)]
pub struct Config {
    /// Where to bind.
    pub bind: SocketAddress,
    /// The host to put in `Via` sent-by. Deliberately separate from the bind address: behind a
    /// NAT or a load balancer the two differ.
    pub sent_by: String,
    /// The port to put in `Via` sent-by. `None`, and `Some(0)`, mean the port the socket got.
    pub sent_by_port: Option<u16>,
    /// How many events may queue for the application before new transactions are refused.
    pub capacity: usize,
    /// Most incomplete inbound TLS, WebSocket and secure-WebSocket handshakes at once.
    pub handshake_limit: usize,
    /// How long an inbound handshake may remain incomplete, in nanoseconds.
    pub handshake_timeout_nanos: u64,
    /// The largest datagram put on an unreliable transport (RFC 3261 §18.1.1).
    pub mtu: usize,
    /// Whether to listen for TCP connections on the same port.
    pub tcp: bool,
    /// The port to listen for WebSocket connections on, if any.
    pub ws_server: Option<u16>,
    /// How often to ping an otherwise idle WebSocket, in nanoseconds.
    pub ws_keepalive_nanos: u64,
    /// How long a request may sit unanswered by the application before the transaction is
    /// abandoned, in nanoseconds.
    pub unanswered_limit_nanos: u64,
    /// How the connection pool behaves.
    pub pool: PoolConfig,
    /// Record the signalling this endpoint exchanges to a file.
    pub capture: Option<CaptureConfig>,
    /// Hop-by-hop overload feedback and client advertisement.
    pub overload: OverloadConfig,
    /// Maximum number of IP/CIDR entries in one live source-admission generation.
    pub source_admission_limit: usize,
}

impl Config {
    /// A configuration bound to an address, advertising the bound address, as text, in `Via`.
    ///
    /// An unspecified bind address (`0.0.0.0`) leaves nothing sensible to advertise; set
    /// [`Config::sent_by`] explicitly then.
    pub fn new(bind: SocketAddress) -> (r: Config)
        ensures
            r.bind == bind,
            r.sent_by@ == ascii_chars(ip_text_spec(bind.ip)),
            r.sent_by_port.is_none(),
            r.capacity == 1024,
            r.handshake_limit == 64,
            r.handshake_timeout_nanos == 10_000_000_000,
            r.mtu == 1300,
            r.tcp,
            r.ws_server.is_none(),
            r.ws_keepalive_nanos == 25_000_000_000,
            r.unanswered_limit_nanos == 180_000_000_000,
            r.pool == PoolConfig::default_spec(),
            r.capture.is_none(),
            r.overload == OverloadConfig::default_spec(),
            r.source_admission_limit == 1024,
    {
        let text = ip_text(&bind.ip);
        let sent_by = ascii_string(text.as_slice());
        Config {
            bind,
            sent_by,
            sent_by_port: None,
            capacity: 1024,
            handshake_limit: 64,
            handshake_timeout_nanos: 10_000_000_000,
            mtu: 1300,
            tcp: true,
            ws_server: None,
            ws_keepalive_nanos: 25_000_000_000,
            unanswered_limit_nanos: 180_000_000_000,
            pool: PoolConfig::default(),
            capture: None,
            overload: OverloadConfig::default(),
            source_admission_limit: 1024,
        }
    }

    /// The first configuration field that cannot create a bounded, live runtime, and why, in
    /// the order they are checked; nothing if every field is usable.
    pub open spec fn first_invalid(self) -> Option<(&'static str, &'static str)> {
        if self.capacity == 0 {
            Some(("capacity", "must be non-zero"))
        } else if self.pool.max_connections == 0 {
            Some(("pool.max_connections", "must be non-zero"))
        } else if self.handshake_limit == 0 {
            Some(("handshake_limit", "must be non-zero"))
        } else if self.handshake_timeout_nanos == 0 {
            Some(("handshake_timeout", "must be non-zero"))
        } else if self.source_admission_limit == 0 {
            Some(("source_admission_limit", "must be non-zero"))
        } else if self.overload.validity_nanos == 0 {
            Some(("overload.validity", "must be non-zero"))
        } else if self.overload.validity_nanos < 1_000_000 {
            Some(("overload.validity", "must be at least one millisecond"))
        } else if self.overload.peer_limit == 0 {
            Some(("overload.peer_limit", "must be non-zero"))
        } else if self.overload.feedback matches OverloadFeedback::Loss(v) && v > 100 {
            Some(("overload.feedback", "loss percentage must be between 0 and 100"))
        } else if self.overload.rate_tolerance_intervals
            >= self.overload.rate_priority_tolerance_intervals {
            Some(
                (
                    "overload.rate_priority_tolerance_intervals",
                    "must be greater than overload.rate_tolerance_intervals",
                ),
            )
        } else if self.ws_keepalive_nanos == 0 {
            Some(("ws_keepalive", "must be non-zero"))
        } else {
            None
        }
    }

    /// Refuse a configuration that cannot create a bounded, live runtime.
    pub fn validate(&self) -> (r: Result<(), Error>)
        ensures
            match self.first_invalid() {
                None => r is Ok,
                Some((field, reason)) => r matches Err(Error::InvalidConfig { field: f, reason: why })
                    && f == field && why == reason,
            },
    {
        let nonzero = "must be non-zero";
        if self.capacity == 0 {
            return Err(Error::InvalidConfig { field: "capacity", reason: nonzero });
        }
        if self.pool.max_connections == 0 {
            return Err(Error::InvalidConfig { field: "pool.max_connections", reason: nonzero });
        }
        if self.handshake_limit == 0 {
            return Err(Error::InvalidConfig { field: "handshake_limit", reason: nonzero });
        }
        if self.handshake_timeout_nanos == 0 {
            return Err(Error::InvalidConfig { field: "handshake_timeout", reason: nonzero });
        }
        if self.source_admission_limit == 0 {
            return Err(Error::InvalidConfig { field: "source_admission_limit", reason: nonzero });
        }
        if self.overload.validity_nanos == 0 {
            return Err(Error::InvalidConfig { field: "overload.validity", reason: nonzero });
        }
        if self.overload.validity_nanos < 1_000_000 {
            return Err(
                Error::InvalidConfig {
                    field: "overload.validity",
                    reason: "must be at least one millisecond",
                },
            );
        }
        if self.overload.peer_limit == 0 {
            return Err(Error::InvalidConfig { field: "overload.peer_limit", reason: nonzero });
        }
        if let OverloadFeedback::Loss(value) = self.overload.feedback {
            if value > 100 {
                return Err(
                    Error::InvalidConfig {
                        field: "overload.feedback",
                        reason: "loss percentage must be between 0 and 100",
                    },
                );
            }
        }
        if self.overload.rate_tolerance_intervals >= self.overload.rate_priority_tolerance_intervals {
            return Err(
                Error::InvalidConfig {
                    field: "overload.rate_priority_tolerance_intervals",
                    reason: "must be greater than overload.rate_tolerance_intervals",
                },
            );
        }
        if self.ws_keepalive_nanos == 0 {
            return Err(Error::InvalidConfig { field: "ws_keepalive", reason: nonzero });
        }
        Ok(())
    }
}

/// The magic cookie RFC 3261 §8.1.1.7 puts at the start of every branch: `z9hG4bK`.
pub open spec fn branch_cookie() -> Seq<u8> {
    seq![122u8, 57u8, 104u8, 71u8, 52u8, 98u8, 75u8]
}

/// A `branch` token: the magic cookie and a 64-bit value as sixteen lowercase hex digits.
pub open spec fn branch_spec(value: u64) -> Seq<char> {
    ascii_chars(branch_cookie() + hex_fixed(value as nat, 16))
}

/// The branch token for a 64-bit value.
pub fn branch_for(value: u64) -> (r: String)
    ensures
        r@ == branch_spec(value),
{
    let mut bytes: Vec<u8> = vec![122u8, 57u8, 104u8, 71u8, 52u8, 98u8, 75u8];
    proof {
        assert(bytes@ =~= branch_cookie());
    }
    push_hex16(&mut bytes, value);
    ascii_string(bytes.as_slice())
}

/// Sixty-four bits from `rand::rng()`, the thread-local generator `rand` documents as
/// cryptographically secure, by `RngCore::next_u64`. Nothing is stated of them: they are chance.
#[verifier::external_body]
pub(crate) fn random_u64() -> u64 {
    rand::RngCore::next_u64(&mut rand::rng())
}

/// A `branch` token: the RFC's magic cookie plus 64 bits from a cryptographic generator.
///
/// A guessable branch lets an off-path attacker inject responses into a transaction, so this is
/// not a place for a counter.
pub fn new_branch() -> (r: String)
    ensures
        exists|v: u64| r@ == branch_spec(v),
{
    let value = random_u64();
    branch_for(value)
}

/// A branch is the RFC 3261 magic cookie followed by sixteen hexadecimal digits, and keeps every
/// one of the sixty-four bits it was made from: two values never give the same branch.
pub proof fn a_branch_keeps_the_cookie_and_every_bit(a: u64, b: u64)
    ensures
        branch_spec(a).len() == 23,
        branch_spec(a).take(7) == ascii_chars(branch_cookie()),
        a != b ==> branch_spec(a) != branch_spec(b),
{
    let ha = hex_fixed(a as nat, 16);
    let hb = hex_fixed(b as nat, 16);
    assert(hex_fixed(a as nat, 16).len() == 16) by {
        lemma_hex_fixed_len(a as nat, 16);
    }
    assert(ascii_chars(branch_cookie() + ha).take(7) =~= ascii_chars(branch_cookie()));
    if branch_spec(a) == branch_spec(b) {
        lemma_hex_fixed_len(b as nat, 16);
        lemma_ascii_chars_injective(branch_cookie() + ha, branch_cookie() + hb);
        assert(ha =~= (branch_cookie() + ha).skip(7));
        assert(hb =~= (branch_cookie() + hb).skip(7));
        lemma_u64_fits_sixteen_digits(a);
        lemma_u64_fits_sixteen_digits(b);
        lemma_hex_fixed_injective(a as nat, b as nat, 16);
    }
}

/// What an endpoint advertises as where it can be reached.
#[derive(Debug, Clone)]
pub struct SentBy {
    /// The configured sent-by host.
    pub host: String,
    /// The port the cleartext socket got, or the one configured.
    pub port: u16,
    /// The TLS listener's port, when TLS is listened for.
    pub tls_port: Option<u16>,
    /// Whether WebSocket or secure WebSocket connections are listened for.
    pub listens_for_ws: bool,
    /// The invented, unresolvable name a WebSocket client advertises instead.
    pub ws_sent_by: String,
}

/// The port to advertise in `Via`: the configured one, where it names one; port 0 means the
/// same as none, a request for any port rather than an advertisement of port zero, and both
/// advertise the port the socket was given.
pub fn advertised_port(configured: Option<u16>, bound: u16) -> (r: u16)
    ensures
        r == (match configured {
            Some(p) => if p != 0 {
                p
            } else {
                bound
            },
            None => bound,
        }),
{
    match configured {
        Some(p) if p != 0 => p,
        _ => bound,
    }
}

/// `host:port`, as a sent-by is written.
pub open spec fn host_port(host: Seq<char>, port: u16) -> Seq<char> {
    host.push(':') + ascii_chars(decimal(port as nat))
}

impl SentBy {
    /// The sent-by for a transport: an endpoint that only connects out over WebSocket advertises
    /// its invented name, since nothing can connect back to it (RFC 7118 §5.2); TLS has a port of
    /// its own (RFC 3261 §19.1.2); everything else uses the cleartext port.
    pub open spec fn for_transport(self, transport: TransportKind) -> Seq<char> {
        if (transport is Ws || transport is Wss) && !self.listens_for_ws {
            self.ws_sent_by@
        } else if transport is Tls && self.tls_port.is_some() {
            host_port(self.host@, self.tls_port.unwrap())
        } else {
            host_port(self.host@, self.port)
        }
    }

    /// The sent-by to advertise for a transport.
    pub fn sent_by_for(&self, transport: TransportKind) -> (r: String)
        ensures
            r@ == self.for_transport(transport),
    {
        match transport {
            TransportKind::Ws | TransportKind::Wss => {
                if !self.listens_for_ws {
                    return self.ws_sent_by.clone();
                }
            },
            _ => {},
        }
        let port = match (transport, self.tls_port) {
            (TransportKind::Tls, Some(p)) => p,
            _ => self.port,
        };
        let mut out = self.host.clone();
        push_char(&mut out, ':');
        let mut digits: Vec<u8> = Vec::new();
        push_decimal(&mut digits, port as u64);
        proof {
            assert(digits@ =~= decimal(port as nat));
        }
        let tail = ascii_string(digits.as_slice());
        let mut i: usize = 0;
        let n = tail.as_str().unicode_len();
        let ghost base = out@;
        while i < n
            invariant
                n == tail@.len(),
                i <= n,
                out@ == base + tail@.take(i as int),
            decreases n - i,
        {
            push_char(&mut out, tail.as_str().get_char(i));
            proof {
                assert(tail@.take(i + 1) =~= tail@.take(i as int).push(tail@[i as int]));
            }
            i = i + 1;
        }
        proof {
            assert(tail@.take(n as int) =~= tail@);
        }
        out
    }
}

/// How a message goes out, once the transmit rules have been applied.
#[derive(Debug)]
pub enum Plan {
    /// One datagram to this address.
    Datagram(SocketAddress),
    /// It went on the existing connection of this key, in this generation.
    Existing {
        /// The connection.
        key: ConnectionKey,
        /// Its generation.
        generation: u64,
    },
    /// Send on the pool's connection for this key, opening one if there is none.
    Open {
        /// The connection.
        key: ConnectionKey,
        /// The name a certificate is verified against and a WebSocket authority names; `None`
        /// means the address itself.
        name: Option<String>,
    },
}

/// Whether a message first tries the existing connection to its target: a response over TCP
/// or TLS, which answers on the connection the request came in on, and anything over WebSocket,
/// whose peer has no listening port.
pub open spec fn tries_existing_spec(transport: TransportKind, is_response: bool) -> bool {
    match transport {
        TransportKind::Tcp | TransportKind::Tls => is_response,
        TransportKind::Ws | TransportKind::Wss => true,
        TransportKind::Udp => false,
    }
}

/// Whether a message first tries the existing connection to its target.
pub fn tries_existing(transport: TransportKind, is_response: bool) -> (r: bool)
    ensures
        r == tries_existing_spec(transport, is_response),
{
    match transport {
        TransportKind::Tcp | TransportKind::Tls => is_response,
        TransportKind::Ws | TransportKind::Wss => true,
        TransportKind::Udp => false,
    }
}

/// How a message of `len` bytes goes to `target` (RFC 3261 §18).
///
/// `existing` is the generation of the existing connection the message already went out on,
/// where [`tries_existing`] says to try one and it took the message; `fallback` is the address
/// a response's sender advertised; `tls_client` says whether this endpoint can verify a server
/// it connects to.
///
/// - Over UDP a request larger than the MTU is refused; a response never is, since the
///   responder has no other transport to offer.
/// - A message that went on an existing connection is done.
/// - A TCP response whose connection is gone goes to the advertised address when there is one.
/// - A new TLS connection needs a client configuration, and verifies the target's name, or its
///   address where it names none; a WebSocket connection names the target's name in the same way.
pub fn transmit_plan(
    target: &Target,
    is_response: bool,
    len: usize,
    mtu: usize,
    existing: Option<u64>,
    fallback: Option<&Target>,
    tls_client: bool,
) -> (r: Result<Plan, Error>)
    ensures
        target.transport is Udp && !is_response && len > mtu ==> (r matches Err(
            Error::TooLarge { size, mtu: m },
        ) && size == len && m == mtu),
        target.transport is Udp && (is_response || len <= mtu) ==> (r matches Ok(Plan::Datagram(a))
            && a == target.addr),
        tries_existing_spec(target.transport, is_response) && existing is Some ==> (r matches Ok(
            Plan::Existing { key, generation },
        ) && key == spec_connection(*target) && generation == existing.unwrap()),
        target.transport is Tcp && !(is_response && existing is Some) ==> (r matches Ok(
            Plan::Open { key, name },
        ) && name is None && key == (if is_response && fallback is Some {
            spec_connection(*fallback.unwrap())
        } else {
            spec_connection(*target)
        })),
        target.transport is Tls && !(is_response && existing is Some) && !tls_client ==> (r matches Err(
            Error::UnsupportedTransport(m),
        ) && m@ == "TLS (no client configuration, so no outbound connection can be verified)"@),
        target.transport is Tls && !(is_response && existing is Some) && tls_client ==> (r matches Ok(
            Plan::Open { key, name },
        ) && key == spec_connection(*target) && name == target.verify_as),
        (target.transport is Ws || target.transport is Wss) && existing is None ==> (r matches Ok(
            Plan::Open { key, name },
        ) && key == spec_connection(*target) && name == target.verify_as),
{
    match target.transport {
        TransportKind::Udp => {
            if !is_response && len > mtu {
                return Err(Error::TooLarge { size: len, mtu });
            }
            Ok(Plan::Datagram(target.addr))
        },
        TransportKind::Tcp => {
            if is_response {
                if let Some(generation) = existing {
                    return Ok(Plan::Existing { key: target.connection(), generation });
                }
            }
            let key = match (is_response, fallback) {
                (true, Some(advertised)) => advertised.connection(),
                _ => target.connection(),
            };
            Ok(Plan::Open { key, name: None })
        },
        TransportKind::Tls => {
            if is_response {
                if let Some(generation) = existing {
                    return Ok(Plan::Existing { key: target.connection(), generation });
                }
            }
            if !tls_client {
                return Err(
                    Error::UnsupportedTransport(
                        "TLS (no client configuration, so no outbound connection can be verified)",
                    ),
                );
            }
            let name = match &target.verify_as {
                Some(n) => Some(n.clone()),
                None => None,
            };
            Ok(Plan::Open { key: target.connection(), name })
        },
        TransportKind::Ws | TransportKind::Wss => {
            if let Some(generation) = existing {
                return Ok(Plan::Existing { key: target.connection(), generation });
            }
            let name = match &target.verify_as {
                Some(n) => Some(n.clone()),
                None => None,
            };
            Ok(Plan::Open { key: target.connection(), name })
        },
    }
}

} // verus!
