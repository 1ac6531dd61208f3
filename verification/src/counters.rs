//! What a running endpoint will say about itself: counters and nothing else.
//!
//! **What these numbers do not promise:** each field is individually exact, and the relationship
//! between two fields of one snapshot is not, when the live meters are shared between threads
//! and read one after another.

use vstd::prelude::*;
use crate::target::TransportKind;

verus! {

/// A snapshot of what an endpoint has shed because the application was not keeping up.
///
/// The three kinds are counted apart because their consequences differ by an order of magnitude.
#[derive(Debug, Clone, Copy, PartialEq, Eq, Default)]
pub struct ShedCounts {
    /// Requests that reached a server transaction and could not be handed to the application.
    pub requests: u64,
    /// ACKs that could not be handed over: nothing retransmits them, so a non-zero count here
    /// means calls are leaking.
    pub acks: u64,
    /// Requests that matched no transaction and could not be handed over.
    pub unmatched: u64,
}

/// `a + b`, or `u64::MAX` where that would overflow.
pub open spec fn sat_add(a: u64, b: u64) -> u64 {
    if a + b > u64::MAX {
        u64::MAX
    } else {
        (a + b) as u64
    }
}

/// One more, wrapping as a shared atomic counter does.
pub open spec fn bumped(a: u64) -> u64 {
    a.wrapping_add(1u64)
}

impl ShedCounts {
    /// Everything shed, of every kind, saturating.
    pub open spec fn total_spec(self) -> u64 {
        sat_add(sat_add(self.requests, self.acks), self.unmatched)
    }

    /// Whether anything has been shed at all.
    pub fn any(self) -> (r: bool)
        ensures
            r == (self.total_spec() > 0),
    {
        self.total() > 0
    }

    /// Everything shed, of every kind.
    pub fn total(self) -> (r: u64)
        ensures
            r == self.total_spec(),
    {
        self.requests.saturating_add(self.acks).saturating_add(self.unmatched)
    }
}

/// What crossed one transport, in both directions.
#[derive(Debug, Clone, Copy, PartialEq, Eq, Default)]
pub struct TransportCounts {
    /// Requests that arrived and parsed.
    pub requests_in: u64,
    /// Requests put on the wire, including retransmissions.
    pub requests_out: u64,
    /// Responses that arrived and parsed.
    pub responses_in: u64,
    /// Responses put on the wire, including retransmissions.
    pub responses_out: u64,
    /// Bytes that arrived and could not be parsed as a SIP message. **Not** also counted as a
    /// request or a response: which one it would have been is exactly what could not be told.
    pub parse_failures: u64,
}

/// Transactions abandoned by the timer that gave up on them.
#[derive(Debug, Clone, Copy, PartialEq, Eq, Default)]
pub struct TimeoutCounts {
    /// Timer B: an INVITE client transaction gave up (RFC 3261 §17.1.1.2).
    pub b: u64,
    /// Timer F: a non-INVITE client transaction gave up (RFC 3261 §17.1.2.2).
    pub f: u64,
    /// Timer H: no ACK arrived for a final INVITE response (RFC 3261 §17.2.1).
    pub h: u64,
}

impl TimeoutCounts {
    /// Every transaction any timer gave up on, saturating.
    pub open spec fn total_spec(self) -> u64 {
        sat_add(sat_add(self.b, self.f), self.h)
    }

    /// Every transaction any timer gave up on.
    pub fn total(self) -> (r: u64)
        ensures
            r == self.total_spec(),
    {
        self.b.saturating_add(self.f).saturating_add(self.h)
    }
}

/// How the capture is faring, if one is running. Zero everywhere is the ordinary state.
#[derive(Debug, Clone, Copy, PartialEq, Eq, Default)]
pub struct CaptureCounts {
    /// Records handed to the writer.
    pub records: u64,
    /// Records dropped because the writer was behind.
    pub dropped: u64,
    /// Writes that failed, after which the capture is disabled.
    pub errors: u64,
}

/// Places the endpoint throws something away that are not backpressure.
#[derive(Debug, Clone, Copy, PartialEq, Eq, Default)]
pub struct DiscardCounts {
    /// Events for a client transaction whose application receiver was full or gone.
    pub transaction_events: u64,
    /// Server transactions abandoned because the application never answered them.
    pub unanswered: u64,
    /// Messages a transaction wanted sent that had no destination to send them to.
    pub no_destination: u64,
    /// Sends the transport refused.
    pub send_failures: u64,
    /// STUN replies that matched no keep-alive, and STUN messages that were not replies.
    pub stun_unmatched: u64,
}

impl DiscardCounts {
    /// Everything discarded outside the backpressure path, saturating.
    pub open spec fn total_spec(self) -> u64 {
        sat_add(
            sat_add(
                sat_add(sat_add(self.transaction_events, self.unanswered), self.no_destination),
                self.send_failures,
            ),
            self.stun_unmatched,
        )
    }

    /// Everything discarded outside the backpressure path.
    pub fn total(self) -> (r: u64)
        ensures
            r == self.total_spec(),
    {
        self.transaction_events.saturating_add(self.unanswered).saturating_add(
            self.no_destination,
        ).saturating_add(self.send_failures).saturating_add(self.stun_unmatched)
    }
}

/// The transaction timers of RFC 3261 §17, and the 100 Trying timer of §17.2.1.
#[derive(Debug, Clone, Copy, PartialEq, Eq, Hash)]
pub enum Timer {
    /// INVITE request retransmission.
    A,
    /// INVITE transaction timeout.
    B,
    /// Wait time for response retransmissions.
    D,
    /// Non-INVITE request retransmission.
    E,
    /// Non-INVITE transaction timeout.
    F,
    /// INVITE response retransmission.
    G,
    /// Wait time for ACK receipt.
    H,
    /// Wait time for ACK retransmissions.
    I,
    /// Wait time for non-INVITE request retransmissions.
    J,
    /// Wait time for response retransmissions.
    K,
    /// Wait time for accepted INVITE request retransmissions (RFC 6026).
    L,
    /// Wait time for retransmission of 2xx to INVITE (RFC 6026).
    M,
    /// When a server INVITE transaction sends 100 Trying.
    Trying100,
}

/// Everything an endpoint will tell you about itself, at one moment.
///
/// A snapshot of live counters that are read one after another is not an instant: differences
/// between successive snapshots are sound, arithmetic identities across the fields of one are
/// not, unless the endpoint is quiet.
#[derive(Debug, Clone, Copy, PartialEq, Eq, Default)]
pub struct Counters {
    /// What was dropped because the application was not keeping up.
    pub shed: ShedCounts,
    /// Responses that matched no client transaction (RFC 3261 §16.7).
    pub unmatched_responses: u64,
    /// Retransmissions put on the wire by Timer A, E or G, counted where the timer fires.
    pub retransmissions_sent: u64,
    /// Transactions a timer gave up on.
    pub timeouts: TimeoutCounts,
    /// Discards that are not backpressure.
    pub discards: DiscardCounts,
    /// How the capture is faring, if one is running.
    pub capture: CaptureCounts,
    /// Per-transport message counts, read through [`Counters::transport`].
    pub per_transport: PerTransport,
}

/// What crossed each transport, one slot per transport.
#[derive(Debug, Clone, Copy, PartialEq, Eq, Default)]
pub struct PerTransport {
    /// UDP.
    pub udp: TransportCounts,
    /// TCP.
    pub tcp: TransportCounts,
    /// TLS over TCP.
    pub tls: TransportCounts,
    /// WebSocket.
    pub ws: TransportCounts,
    /// WebSocket over TLS.
    pub wss: TransportCounts,
}

/// All zero.
pub open spec fn zero_transport() -> TransportCounts {
    TransportCounts {
        requests_in: 0,
        requests_out: 0,
        responses_in: 0,
        responses_out: 0,
        parse_failures: 0,
    }
}

impl Counters {
    /// What crossed one transport.
    pub open spec fn counts(self, transport: TransportKind) -> TransportCounts {
        match transport {
            TransportKind::Udp => self.per_transport.udp,
            TransportKind::Tcp => self.per_transport.tcp,
            TransportKind::Tls => self.per_transport.tls,
            TransportKind::Ws => self.per_transport.ws,
            TransportKind::Wss => self.per_transport.wss,
        }
    }

    /// The same counters with one transport's replaced.
    pub open spec fn with_counts(self, transport: TransportKind, c: TransportCounts) -> Counters {
        match transport {
            TransportKind::Udp => Counters {
                per_transport: PerTransport { udp: c, ..self.per_transport },
                ..self
            },
            TransportKind::Tcp => Counters {
                per_transport: PerTransport { tcp: c, ..self.per_transport },
                ..self
            },
            TransportKind::Tls => Counters {
                per_transport: PerTransport { tls: c, ..self.per_transport },
                ..self
            },
            TransportKind::Ws => Counters {
                per_transport: PerTransport { ws: c, ..self.per_transport },
                ..self
            },
            TransportKind::Wss => Counters {
                per_transport: PerTransport { wss: c, ..self.per_transport },
                ..self
            },
        }
    }

    /// A fold of one measure over the five transports, in a fixed order, saturating.
    pub open spec fn fold(self, measure: spec_fn(TransportCounts) -> u64) -> u64 {
        sat_add(
            sat_add(
                sat_add(
                    sat_add(sat_add(0, measure(self.counts(TransportKind::Udp))), measure(self.counts(TransportKind::Tcp))),
                    measure(self.counts(TransportKind::Tls)),
                ),
                measure(self.counts(TransportKind::Ws)),
            ),
            measure(self.counts(TransportKind::Wss)),
        )
    }

    /// Messages that arrived and parsed: each transport adds its requests, then its responses.
    pub open spec fn messages_in_spec(self) -> u64 {
        sat_add(
            sat_add(
                sat_add(
                    sat_add(
                        sat_add(
                            sat_add(
                                sat_add(
                                    sat_add(
                                        sat_add(sat_add(0, self.counts(TransportKind::Udp).requests_in), self.counts(TransportKind::Udp).responses_in),
                                        self.counts(TransportKind::Tcp).requests_in,
                                    ),
                                    self.counts(TransportKind::Tcp).responses_in,
                                ),
                                self.counts(TransportKind::Tls).requests_in,
                            ),
                            self.counts(TransportKind::Tls).responses_in,
                        ),
                        self.counts(TransportKind::Ws).requests_in,
                    ),
                    self.counts(TransportKind::Ws).responses_in,
                ),
                self.counts(TransportKind::Wss).requests_in,
            ),
            self.counts(TransportKind::Wss).responses_in,
        )
    }

    /// Messages put on the wire: each transport adds its requests, then its responses.
    pub open spec fn messages_out_spec(self) -> u64 {
        sat_add(
            sat_add(
                sat_add(
                    sat_add(
                        sat_add(
                            sat_add(
                                sat_add(
                                    sat_add(
                                        sat_add(sat_add(0, self.counts(TransportKind::Udp).requests_out), self.counts(TransportKind::Udp).responses_out),
                                        self.counts(TransportKind::Tcp).requests_out,
                                    ),
                                    self.counts(TransportKind::Tcp).responses_out,
                                ),
                                self.counts(TransportKind::Tls).requests_out,
                            ),
                            self.counts(TransportKind::Tls).responses_out,
                        ),
                        self.counts(TransportKind::Ws).requests_out,
                    ),
                    self.counts(TransportKind::Ws).responses_out,
                ),
                self.counts(TransportKind::Wss).requests_out,
            ),
            self.counts(TransportKind::Wss).responses_out,
        )
    }

    /// Everything that arrived and could not be parsed.
    pub open spec fn parse_failures_spec(self) -> u64 {
        self.fold(|c: TransportCounts| c.parse_failures)
    }

    /// Whether anything at all has been lost: shed, discarded, or dropped from a capture.
    pub open spec fn any_loss_spec(self) -> bool {
        self.shed.total_spec() > 0 || self.discards.total_spec() > 0 || self.capture.dropped > 0
    }

    /// Whether every counter is zero.
    pub open spec fn is_zero(self) -> bool {
        &&& self.shed == ShedCounts { requests: 0, acks: 0, unmatched: 0 }
        &&& self.unmatched_responses == 0
        &&& self.retransmissions_sent == 0
        &&& self.timeouts == TimeoutCounts { b: 0, f: 0, h: 0 }
        &&& self.discards == DiscardCounts {
            transaction_events: 0,
            unanswered: 0,
            no_destination: 0,
            send_failures: 0,
            stun_unmatched: 0,
        }
        &&& self.capture == CaptureCounts { records: 0, dropped: 0, errors: 0 }
        &&& self.per_transport.udp == zero_transport()
        &&& self.per_transport.tcp == zero_transport()
        &&& self.per_transport.tls == zero_transport()
        &&& self.per_transport.ws == zero_transport()
        &&& self.per_transport.wss == zero_transport()
    }

    /// What crossed one transport.
    pub fn transport(&self, transport: TransportKind) -> (r: TransportCounts)
        ensures
            r == self.counts(transport),
    {
        match transport {
            TransportKind::Udp => self.per_transport.udp,
            TransportKind::Tcp => self.per_transport.tcp,
            TransportKind::Tls => self.per_transport.tls,
            TransportKind::Ws => self.per_transport.ws,
            TransportKind::Wss => self.per_transport.wss,
        }
    }

    /// Messages that arrived and parsed, over every transport.
    pub fn messages_in(&self) -> (r: u64)
        ensures
            r == self.messages_in_spec(),
    {
        0u64.saturating_add(self.per_transport.udp.requests_in).saturating_add(self.per_transport.udp.responses_in).saturating_add(
            self.per_transport.tcp.requests_in,
        ).saturating_add(self.per_transport.tcp.responses_in).saturating_add(self.per_transport.tls.requests_in).saturating_add(
            self.per_transport.tls.responses_in,
        ).saturating_add(self.per_transport.ws.requests_in).saturating_add(self.per_transport.ws.responses_in).saturating_add(
            self.per_transport.wss.requests_in,
        ).saturating_add(self.per_transport.wss.responses_in)
    }

    /// Messages put on the wire, over every transport.
    pub fn messages_out(&self) -> (r: u64)
        ensures
            r == self.messages_out_spec(),
    {
        0u64.saturating_add(self.per_transport.udp.requests_out).saturating_add(self.per_transport.udp.responses_out).saturating_add(
            self.per_transport.tcp.requests_out,
        ).saturating_add(self.per_transport.tcp.responses_out).saturating_add(self.per_transport.tls.requests_out).saturating_add(
            self.per_transport.tls.responses_out,
        ).saturating_add(self.per_transport.ws.requests_out).saturating_add(self.per_transport.ws.responses_out).saturating_add(
            self.per_transport.wss.requests_out,
        ).saturating_add(self.per_transport.wss.responses_out)
    }

    /// Everything that arrived and could not be parsed, over every transport.
    pub fn parse_failures(&self) -> (r: u64)
        ensures
            r == self.parse_failures_spec(),
    {
        0u64.saturating_add(self.per_transport.udp.parse_failures).saturating_add(self.per_transport.tcp.parse_failures).saturating_add(
            self.per_transport.tls.parse_failures,
        ).saturating_add(self.per_transport.ws.parse_failures).saturating_add(self.per_transport.wss.parse_failures)
    }

    /// Whether anything at all has been lost: shed, discarded, or dropped from a capture.
    ///
    /// Deliberately not parse failures or timeouts: those happened *to* the endpoint, they are
    /// not things it threw away.
    pub fn any_loss(&self) -> (r: bool)
        ensures
            r == self.any_loss_spec(),
    {
        self.shed.any() || self.discards.total() > 0 || self.capture.dropped > 0
    }
}

/// The live counters, shared between the event loop and every handle.
///
/// Every counter is incremented from exactly one place, the methods below, so no event is
/// counted twice and none is lost. Increments wrap, as the shared atomic counters that hold them
/// do.
#[derive(Debug)]
pub struct Meters {
    now: Counters,
}

impl View for Meters {
    type V = Counters;

    closed spec fn view(&self) -> Counters {
        self.now
    }
}

/// One transport's counts with one more message, of the given kind, arrived.
pub open spec fn arrived(c: TransportCounts, is_response: bool) -> TransportCounts {
    if is_response {
        TransportCounts { responses_in: bumped(c.responses_in), ..c }
    } else {
        TransportCounts { requests_in: bumped(c.requests_in), ..c }
    }
}

/// One transport's counts with one more message, of the given kind, sent.
pub open spec fn sent(c: TransportCounts, is_response: bool) -> TransportCounts {
    if is_response {
        TransportCounts { responses_out: bumped(c.responses_out), ..c }
    } else {
        TransportCounts { requests_out: bumped(c.requests_out), ..c }
    }
}

impl Counters {
    /// Every transport's counts but one are those of `other`.
    pub open spec fn others_unchanged(self, other: Counters, transport: TransportKind) -> bool {
        forall|u: TransportKind| u != transport ==> #[trigger] self.counts(u) == other.counts(u)
    }

    /// Every transport's counts are those of `other`.
    pub open spec fn keeps_transports(self, other: Counters) -> bool {
        &&& self.per_transport.udp == other.per_transport.udp
        &&& self.per_transport.tcp == other.per_transport.tcp
        &&& self.per_transport.tls == other.per_transport.tls
        &&& self.per_transport.ws == other.per_transport.ws
        &&& self.per_transport.wss == other.per_transport.wss
    }

    /// Everything but the per-transport counts is as in `other`.
    pub open spec fn totals_unchanged(self, other: Counters) -> bool {
        &&& self.shed == other.shed
        &&& self.unmatched_responses == other.unmatched_responses
        &&& self.retransmissions_sent == other.retransmissions_sent
        &&& self.timeouts == other.timeouts
        &&& self.discards == other.discards
        &&& self.capture == other.capture
    }
}

/// One more, wrapping.
fn bump(counter: &mut u64)
    ensures
        *final(counter) == bumped(*old(counter)),
{
    *counter = counter.wrapping_add(1);
}

fn zero_counts() -> (c: TransportCounts)
    ensures
        c == zero_transport(),
{
    TransportCounts {
        requests_in: 0,
        requests_out: 0,
        responses_in: 0,
        responses_out: 0,
        parse_failures: 0,
    }
}

impl Meters {
    /// Fresh meters: zero everywhere, and so no loss.
    pub fn new() -> (m: Meters)
        ensures
            m@.is_zero(),
            !m@.any_loss_spec(),
    {
        Meters {
            now: Counters {
                shed: ShedCounts { requests: 0, acks: 0, unmatched: 0 },
                unmatched_responses: 0,
                retransmissions_sent: 0,
                timeouts: TimeoutCounts { b: 0, f: 0, h: 0 },
                discards: DiscardCounts {
                    transaction_events: 0,
                    unanswered: 0,
                    no_destination: 0,
                    send_failures: 0,
                    stun_unmatched: 0,
                },
                capture: CaptureCounts { records: 0, dropped: 0, errors: 0 },
                per_transport: PerTransport {
                    udp: zero_counts(),
                    tcp: zero_counts(),
                    tls: zero_counts(),
                    ws: zero_counts(),
                    wss: zero_counts(),
                },
            },
        }
    }

    fn slot(&mut self, transport: TransportKind) -> (r: &mut TransportCounts)
        ensures
            *r == old(self)@.counts(transport),
            final(self)@ == old(self)@.with_counts(transport, *final(r)),
    {
        match transport {
            TransportKind::Udp => &mut self.now.per_transport.udp,
            TransportKind::Tcp => &mut self.now.per_transport.tcp,
            TransportKind::Tls => &mut self.now.per_transport.tls,
            TransportKind::Ws => &mut self.now.per_transport.ws,
            TransportKind::Wss => &mut self.now.per_transport.wss,
        }
    }

    proof fn lemma_with_counts(c: Counters, transport: TransportKind, t: TransportCounts)
        ensures
            c.with_counts(transport, t).counts(transport) == t,
            c.with_counts(transport, t).others_unchanged(c, transport),
            c.with_counts(transport, t).totals_unchanged(c),
    {
    }

    /// A message arrived and parsed: counted against its own transport only.
    pub fn message_in(&mut self, transport: TransportKind, is_response: bool)
        ensures
            final(self)@.counts(transport) == arrived(old(self)@.counts(transport), is_response),
            final(self)@.others_unchanged(old(self)@, transport),
            final(self)@.totals_unchanged(old(self)@),
    {
        let meter = self.slot(transport);
        if is_response {
            bump(&mut meter.responses_in);
        } else {
            bump(&mut meter.requests_in);
        }
        proof {
            Self::lemma_with_counts(old(self)@, transport, final(self)@.counts(transport));
        }
    }

    /// A message went out: counted against its own transport only.
    pub fn message_out(&mut self, transport: TransportKind, is_response: bool)
        ensures
            final(self)@.counts(transport) == sent(old(self)@.counts(transport), is_response),
            final(self)@.others_unchanged(old(self)@, transport),
            final(self)@.totals_unchanged(old(self)@),
    {
        let meter = self.slot(transport);
        if is_response {
            bump(&mut meter.responses_out);
        } else {
            bump(&mut meter.requests_out);
        }
        proof {
            Self::lemma_with_counts(old(self)@, transport, final(self)@.counts(transport));
        }
    }

    /// Bytes arrived that were not a SIP message.
    ///
    /// Not also a message, since which one it would have been is what could not be told; and not
    /// a loss, since it happened to the endpoint rather than being thrown away by it.
    pub fn parse_failure(&mut self, transport: TransportKind)
        ensures
            final(self)@.counts(transport) == (TransportCounts {
                parse_failures: bumped(old(self)@.counts(transport).parse_failures),
                ..old(self)@.counts(transport)
            }),
            final(self)@.others_unchanged(old(self)@, transport),
            final(self)@.totals_unchanged(old(self)@),
            final(self)@.messages_in_spec() == old(self)@.messages_in_spec(),
            final(self)@.messages_out_spec() == old(self)@.messages_out_spec(),
            final(self)@.any_loss_spec() == old(self)@.any_loss_spec(),
    {
        let meter = self.slot(transport);
        bump(&mut meter.parse_failures);
        proof {
            Self::lemma_with_counts(old(self)@, transport, final(self)@.counts(transport));
        }
    }

    /// A response matched no client transaction.
    pub fn unmatched_response(&mut self)
        ensures
            final(self)@.keeps_transports(old(self)@),
            final(self)@.shed == old(self)@.shed,
            final(self)@.unmatched_responses == bumped(old(self)@.unmatched_responses),
            final(self)@.retransmissions_sent == old(self)@.retransmissions_sent,
            final(self)@.timeouts == old(self)@.timeouts,
            final(self)@.discards == old(self)@.discards,
            final(self)@.capture == old(self)@.capture,
    {
        bump(&mut self.now.unmatched_responses);
    }

    /// A timer fired. Only A, E and G retransmit, and only B, F and H give up on a
    /// transaction; the rest are absorption windows and count as neither.
    pub fn on_timer(&mut self, timer: Timer)
        ensures
            final(self)@.keeps_transports(old(self)@),
            final(self)@.shed == old(self)@.shed,
            final(self)@.unmatched_responses == old(self)@.unmatched_responses,
            final(self)@.discards == old(self)@.discards,
            final(self)@.capture == old(self)@.capture,
            final(self)@.retransmissions_sent == (if timer is A || timer is E || timer is G {
                bumped(old(self)@.retransmissions_sent)
            } else {
                old(self)@.retransmissions_sent
            }),
            final(self)@.timeouts == (match timer {
                Timer::B => TimeoutCounts { b: bumped(old(self)@.timeouts.b), ..old(self)@.timeouts },
                Timer::F => TimeoutCounts { f: bumped(old(self)@.timeouts.f), ..old(self)@.timeouts },
                Timer::H => TimeoutCounts { h: bumped(old(self)@.timeouts.h), ..old(self)@.timeouts },
                _ => old(self)@.timeouts,
            }),
            final(self)@.any_loss_spec() == old(self)@.any_loss_spec(),
    {
        match timer {
            Timer::A | Timer::E | Timer::G => bump(&mut self.now.retransmissions_sent),
            Timer::B => bump(&mut self.now.timeouts.b),
            Timer::F => bump(&mut self.now.timeouts.f),
            Timer::H => bump(&mut self.now.timeouts.h),
            _ => {},
        }
    }

    /// A request reached a server transaction and could not be handed to the application.
    pub fn shed_request(&mut self)
        ensures
            final(self)@.keeps_transports(old(self)@),
            final(self)@.shed == (ShedCounts { requests: bumped(old(self)@.shed.requests), ..old(self)@.shed }),
            final(self)@.unmatched_responses == old(self)@.unmatched_responses,
            final(self)@.retransmissions_sent == old(self)@.retransmissions_sent,
            final(self)@.timeouts == old(self)@.timeouts,
            final(self)@.discards == old(self)@.discards,
            final(self)@.capture == old(self)@.capture,
    {
        bump(&mut self.now.shed.requests);
    }

    /// An ACK could not be handed to the application.
    pub fn shed_ack(&mut self)
        ensures
            final(self)@.keeps_transports(old(self)@),
            final(self)@.shed == (ShedCounts { acks: bumped(old(self)@.shed.acks), ..old(self)@.shed }),
            final(self)@.unmatched_responses == old(self)@.unmatched_responses,
            final(self)@.retransmissions_sent == old(self)@.retransmissions_sent,
            final(self)@.timeouts == old(self)@.timeouts,
            final(self)@.discards == old(self)@.discards,
            final(self)@.capture == old(self)@.capture,
    {
        bump(&mut self.now.shed.acks);
    }

    /// A request that matched no transaction could not be handed to the application.
    pub fn shed_unmatched(&mut self)
        ensures
            final(self)@.keeps_transports(old(self)@),
            final(self)@.shed == (ShedCounts { unmatched: bumped(old(self)@.shed.unmatched), ..old(self)@.shed }),
            final(self)@.unmatched_responses == old(self)@.unmatched_responses,
            final(self)@.retransmissions_sent == old(self)@.retransmissions_sent,
            final(self)@.timeouts == old(self)@.timeouts,
            final(self)@.discards == old(self)@.discards,
            final(self)@.capture == old(self)@.capture,
    {
        bump(&mut self.now.shed.unmatched);
    }

    /// An event for a client transaction could not be handed over: a loss.
    pub fn discard_transaction_event(&mut self)
        ensures
            final(self)@.keeps_transports(old(self)@),
            final(self)@.shed == old(self)@.shed,
            final(self)@.unmatched_responses == old(self)@.unmatched_responses,
            final(self)@.retransmissions_sent == old(self)@.retransmissions_sent,
            final(self)@.timeouts == old(self)@.timeouts,
            final(self)@.discards == (DiscardCounts { transaction_events: bumped(old(self)@.discards.transaction_events), ..old(self)@.discards }),
            final(self)@.capture == old(self)@.capture,
            old(self)@.discards.transaction_events < u64::MAX ==> final(self)@.any_loss_spec(),
    {
        bump(&mut self.now.discards.transaction_events);
    }

    /// A server transaction the application never answered was abandoned.
    pub fn discard_unanswered(&mut self)
        ensures
            final(self)@.keeps_transports(old(self)@),
            final(self)@.shed == old(self)@.shed,
            final(self)@.unmatched_responses == old(self)@.unmatched_responses,
            final(self)@.retransmissions_sent == old(self)@.retransmissions_sent,
            final(self)@.timeouts == old(self)@.timeouts,
            final(self)@.discards == (DiscardCounts { unanswered: bumped(old(self)@.discards.unanswered), ..old(self)@.discards }),
            final(self)@.capture == old(self)@.capture,
    {
        bump(&mut self.now.discards.unanswered);
    }

    /// A message a transaction wanted sent had nowhere to go.
    pub fn discard_no_destination(&mut self)
        ensures
            final(self)@.keeps_transports(old(self)@),
            final(self)@.shed == old(self)@.shed,
            final(self)@.unmatched_responses == old(self)@.unmatched_responses,
            final(self)@.retransmissions_sent == old(self)@.retransmissions_sent,
            final(self)@.timeouts == old(self)@.timeouts,
            final(self)@.discards == (DiscardCounts { no_destination: bumped(old(self)@.discards.no_destination), ..old(self)@.discards }),
            final(self)@.capture == old(self)@.capture,
    {
        bump(&mut self.now.discards.no_destination);
    }

    /// The transport refused a send.
    pub fn discard_send_failure(&mut self)
        ensures
            final(self)@.keeps_transports(old(self)@),
            final(self)@.shed == old(self)@.shed,
            final(self)@.unmatched_responses == old(self)@.unmatched_responses,
            final(self)@.retransmissions_sent == old(self)@.retransmissions_sent,
            final(self)@.timeouts == old(self)@.timeouts,
            final(self)@.discards == (DiscardCounts { send_failures: bumped(old(self)@.discards.send_failures), ..old(self)@.discards }),
            final(self)@.capture == old(self)@.capture,
    {
        bump(&mut self.now.discards.send_failures);
    }

    /// A STUN message matched no keep-alive, or was not a reply.
    pub fn discard_stun_unmatched(&mut self)
        ensures
            final(self)@.keeps_transports(old(self)@),
            final(self)@.shed == old(self)@.shed,
            final(self)@.unmatched_responses == old(self)@.unmatched_responses,
            final(self)@.retransmissions_sent == old(self)@.retransmissions_sent,
            final(self)@.timeouts == old(self)@.timeouts,
            final(self)@.discards == (DiscardCounts { stun_unmatched: bumped(old(self)@.discards.stun_unmatched), ..old(self)@.discards }),
            final(self)@.capture == old(self)@.capture,
    {
        bump(&mut self.now.discards.stun_unmatched);
    }

    /// A record was handed to the capture writer.
    pub fn capture_record(&mut self)
        ensures
            final(self)@.keeps_transports(old(self)@),
            final(self)@.shed == old(self)@.shed,
            final(self)@.unmatched_responses == old(self)@.unmatched_responses,
            final(self)@.retransmissions_sent == old(self)@.retransmissions_sent,
            final(self)@.timeouts == old(self)@.timeouts,
            final(self)@.discards == old(self)@.discards,
            final(self)@.capture == (CaptureCounts { records: bumped(old(self)@.capture.records), ..old(self)@.capture }),
    {
        bump(&mut self.now.capture.records);
    }

    /// A record was dropped because the capture writer was behind: a loss.
    pub fn capture_drop(&mut self)
        ensures
            final(self)@.keeps_transports(old(self)@),
            final(self)@.shed == old(self)@.shed,
            final(self)@.unmatched_responses == old(self)@.unmatched_responses,
            final(self)@.retransmissions_sent == old(self)@.retransmissions_sent,
            final(self)@.timeouts == old(self)@.timeouts,
            final(self)@.discards == old(self)@.discards,
            final(self)@.capture == (CaptureCounts { dropped: bumped(old(self)@.capture.dropped), ..old(self)@.capture }),
    {
        bump(&mut self.now.capture.dropped);
    }

    /// A capture write failed.
    pub fn capture_error(&mut self)
        ensures
            final(self)@.keeps_transports(old(self)@),
            final(self)@.shed == old(self)@.shed,
            final(self)@.unmatched_responses == old(self)@.unmatched_responses,
            final(self)@.retransmissions_sent == old(self)@.retransmissions_sent,
            final(self)@.timeouts == old(self)@.timeouts,
            final(self)@.discards == old(self)@.discards,
            final(self)@.capture == (CaptureCounts { errors: bumped(old(self)@.capture.errors), ..old(self)@.capture }),
    {
        bump(&mut self.now.capture.errors);
    }

    /// Read everything.
    pub fn snapshot(&self) -> (c: Counters)
        ensures
            c == self@,
    {
        self.now
    }
}

impl Default for Meters {
    fn default() -> (m: Meters)
        ensures
            m@.is_zero(),
    {
        Meters::new()
    }
}

/// On fresh counters, one arrival counts once, against its own transport only: that
/// transport's requests or responses in become 1, every other transport stays at zero, the
/// total of messages in is 1 and no parse failure is counted.
pub proof fn an_arrival_counts_once_against_its_own_transport(
    before: Counters,
    after: Counters,
    transport: TransportKind,
    is_response: bool,
)
    requires
        before.is_zero(),
        after.counts(transport) == arrived(before.counts(transport), is_response),
        after.others_unchanged(before, transport),
        after.totals_unchanged(before),
    ensures
        after.counts(transport) == arrived(zero_transport(), is_response),
        forall|u: TransportKind| u != transport ==> #[trigger] after.counts(u) == zero_transport(),
        after.messages_in_spec() == 1,
        after.messages_out_spec() == 0,
        after.parse_failures_spec() == 0,
{
    assert(after.counts(TransportKind::Udp) == zero_transport() || transport == TransportKind::Udp);
    assert(after.counts(TransportKind::Tcp) == zero_transport() || transport == TransportKind::Tcp);
    assert(after.counts(TransportKind::Tls) == zero_transport() || transport == TransportKind::Tls);
    assert(after.counts(TransportKind::Ws) == zero_transport() || transport == TransportKind::Ws);
    assert(after.counts(TransportKind::Wss) == zero_transport() || transport == TransportKind::Wss);
}

/// On fresh counters, one parse failure counts as one parse failure and never as a message.
pub proof fn a_parse_failure_is_not_a_message(before: Counters, after: Counters, transport: TransportKind)
    requires
        before.is_zero(),
        after.counts(transport) == (TransportCounts {
            parse_failures: bumped(before.counts(transport).parse_failures),
            ..before.counts(transport)
        }),
        after.others_unchanged(before, transport),
        after.totals_unchanged(before),
    ensures
        after.parse_failures_spec() == 1,
        after.messages_in_spec() == 0,
        after.messages_out_spec() == 0,
{
    assert(after.counts(TransportKind::Udp) == before.counts(TransportKind::Udp) || transport == TransportKind::Udp);
    assert(after.counts(TransportKind::Tcp) == before.counts(TransportKind::Tcp) || transport == TransportKind::Tcp);
    assert(after.counts(TransportKind::Tls) == before.counts(TransportKind::Tls) || transport == TransportKind::Tls);
    assert(after.counts(TransportKind::Ws) == before.counts(TransportKind::Ws) || transport == TransportKind::Ws);
    assert(after.counts(TransportKind::Wss) == before.counts(TransportKind::Wss) || transport == TransportKind::Wss);
}

/// Counts of one kind of arrival only: `k` requests in, or `k` responses in, and nothing else.
pub open spec fn only_arrivals(k: int, is_response: bool) -> TransportCounts {
    if is_response {
        TransportCounts { responses_in: k as u64, ..zero_transport() }
    } else {
        TransportCounts { requests_in: k as u64, ..zero_transport() }
    }
}

/// Starting from zero, `k` arrivals of one kind over one transport count `k` there, and nothing
/// anywhere else: each event is counted once, against its own transport only.
///
/// `states` are the snapshots of a [`Meters`] fresh from [`Meters::new`] (whose view is zero)
/// and after each of `k` calls of [`Meters::message_in`] with the same transport and kind: each
/// step is exactly what that method's contract says of one call, so the last snapshot holds
/// `k` in the one counter and zero everywhere else.
pub proof fn arrivals_are_counted_exactly(states: Seq<Counters>, transport: TransportKind, is_response: bool)
    requires
        states.len() >= 1,
        states.len() - 1 <= u64::MAX,
        states[0].is_zero(),
        forall|i: int|
            0 <= i < states.len() - 1 ==> {
                &&& (#[trigger] states[i + 1]).counts(transport) == arrived(states[i].counts(transport), is_response)
                &&& states[i + 1].others_unchanged(states[i], transport)
                &&& states[i + 1].totals_unchanged(states[i])
            },
    ensures
        states.last().counts(transport) == only_arrivals(states.len() - 1, is_response),
        forall|u: TransportKind| u != transport ==> #[trigger] states.last().counts(u) == zero_transport(),
        states.last().totals_unchanged(states[0]),
    decreases states.len(),
{
    if states.len() > 1 {
        let front = states.drop_last();
        assert forall|i: int| 0 <= i < front.len() - 1 implies {
            &&& (#[trigger] front[i + 1]).counts(transport) == arrived(front[i].counts(transport), is_response)
            &&& front[i + 1].others_unchanged(front[i], transport)
            &&& front[i + 1].totals_unchanged(front[i])
        } by {
            assert(front[i + 1] == states[i + 1]);
            assert(front[i] == states[i]);
        }
        arrivals_are_counted_exactly(front, transport, is_response);
        let n = states.len() - 1;
        assert(states[n - 1] == front.last());
        assert(states[n] == states.last());
        assert(states[n].counts(transport) == arrived(states[n - 1].counts(transport), is_response));
        assert forall|u: TransportKind| u != transport implies #[trigger] states.last().counts(u)
            == zero_transport() by {
            assert(states[n].others_unchanged(states[n - 1], transport));
            assert(states[n].counts(u) == states[n - 1].counts(u));
        }
    } else {
        assert(states.last() == states[0]);
        assert forall|u: TransportKind| #[trigger] states.last().counts(u) == zero_transport() by {
            match u {
                TransportKind::Udp => {},
                TransportKind::Tcp => {},
                TransportKind::Tls => {},
                TransportKind::Ws => {},
                TransportKind::Wss => {},
            }
        }
    }
}

} // verus!
