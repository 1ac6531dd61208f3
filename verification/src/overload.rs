//! Hop-by-hop overload control (RFC 7339 and RFC 7415): the categories, the feedback an
//! endpoint reports, and the `Via` parameters that carry it.

use vstd::prelude::*;
use crate::addr::{ip_eq, SocketAddress};
use crate::nat_traversal::{param_span, param_span_spec};
use crate::tcp::{first_match, lemma_first_match};
use crate::text::{decimal, push_all, push_decimal, push_range};

verus! {

/// Which RFC 7339 message category local policy assigns to a request.
#[derive(Debug, Clone, Copy, PartialEq, Eq)]
pub enum RequestCategory {
    /// Traffic reduced first.
    Ordinary,
    /// In-dialog, emergency, or other locally important traffic reduced only when necessary.
    Protected,
}

/// The feedback an endpoint reports when its application queue is full.
#[derive(Debug, Clone, Copy, PartialEq, Eq)]
pub enum OverloadFeedback {
    /// Ask the upstream peer to discard this percentage of requests.
    Loss(u8),
    /// Cap the upstream peer at this many requests per second.
    Rate(u32),
}

/// Endpoint overload-control policy.
#[derive(Debug, Clone, Copy, PartialEq, Eq)]
pub struct OverloadConfig {
    /// Advertise RFC 7339/7415 client support on every outgoing topmost `Via`. Off by default,
    /// because overload control is negotiated hop by hop.
    pub advertise: bool,
    /// What to report upstream when the application queue is full.
    pub feedback: OverloadFeedback,
    /// How long that report remains valid, in nanoseconds.
    pub validity_nanos: u64,
    /// RFC 7415's `TAU1` for ordinary requests, in target inter-request intervals.
    pub rate_tolerance_intervals: u32,
    /// RFC 7415's larger `TAU2` for protected requests, in target intervals.
    pub rate_priority_tolerance_intervals: u32,
    /// Most downstream peers whose feedback sequence and algorithm state are retained.
    pub peer_limit: usize,
}

impl OverloadConfig {
    /// No advertisement, a full-loss report valid for half a second, tolerances of five and ten
    /// intervals, and state for a thousand and twenty-four peers.
    pub open spec fn default_spec() -> OverloadConfig {
        OverloadConfig {
            advertise: false,
            feedback: OverloadFeedback::Loss(100),
            validity_nanos: 500_000_000,
            rate_tolerance_intervals: 5,
            rate_priority_tolerance_intervals: 10,
            peer_limit: 1024,
        }
    }
}

impl Default for OverloadConfig {
    fn default() -> (r: OverloadConfig)
        ensures
            r == OverloadConfig::default_spec(),
    {
        OverloadConfig {
            advertise: false,
            feedback: OverloadFeedback::Loss(100),
            validity_nanos: 500_000_000,
            rate_tolerance_intervals: 5,
            rate_priority_tolerance_intervals: 10,
            peer_limit: 1024,
        }
    }
}

/// An overload-control algorithm a `Via` names.
#[derive(Debug, Clone, Copy, PartialEq, Eq)]
pub enum OverloadAlgorithm {
    /// RFC 7339's loss-based algorithm.
    Loss,
    /// RFC 7415's rate-based algorithm.
    Rate,
    /// Anything else.
    Other,
}

/// Whether a feedback is reported with this algorithm.
pub open spec fn uses_algorithm(feedback: OverloadFeedback, algorithm: OverloadAlgorithm) -> bool {
    match (feedback, algorithm) {
        (OverloadFeedback::Loss(_), OverloadAlgorithm::Loss) => true,
        (OverloadFeedback::Rate(_), OverloadAlgorithm::Rate) => true,
        _ => false,
    }
}

/// Whether a request offered the algorithm this feedback uses: `oc` with no value, and the
/// algorithm among those listed in `oc-algo`.
pub open spec fn feedback_offered_spec(
    oc_support: bool,
    algorithms: Seq<OverloadAlgorithm>,
    feedback: OverloadFeedback,
) -> bool {
    oc_support && exists|i: int|
        0 <= i < algorithms.len() && uses_algorithm(feedback, #[trigger] algorithms[i])
}

/// Whether a request offered the algorithm this feedback uses.
pub fn feedback_offered(
    oc_support: bool,
    algorithms: &[OverloadAlgorithm],
    feedback: OverloadFeedback,
) -> (r: bool)
    ensures
        r == feedback_offered_spec(oc_support, algorithms@, feedback),
{
    if !oc_support {
        return false;
    }
    let mut i: usize = 0;
    while i < algorithms.len()
        invariant
            oc_support,
            i <= algorithms@.len(),
            forall|j: int|
                0 <= j < i ==> !uses_algorithm(feedback, #[trigger] algorithms@[j]),
        decreases algorithms.len() - i,
    {
        let hit = match (feedback, algorithms[i]) {
            (OverloadFeedback::Loss(_), OverloadAlgorithm::Loss) => true,
            (OverloadFeedback::Rate(_), OverloadAlgorithm::Rate) => true,
            _ => false,
        };
        if hit {
            proof {
                assert(uses_algorithm(feedback, algorithms@[i as int]));
                assert(feedback_offered_spec(oc_support, algorithms@, feedback));
            }
            return true;
        }
        i = i + 1;
    }
    false
}

/// `oc`.
pub open spec fn oc_name() -> Seq<u8> {
    seq![111u8, 99u8]
}

/// `oc-algo`.
pub open spec fn oc_algo_name() -> Seq<u8> {
    seq![111u8, 99u8, 45u8, 97u8, 108u8, 103u8, 111u8]
}

/// `oc-validity`.
pub open spec fn oc_validity_name() -> Seq<u8> {
    seq![111u8, 99u8, 45u8, 118u8, 97u8, 108u8, 105u8, 100u8, 105u8, 116u8, 121u8]
}

/// `oc-seq`.
pub open spec fn oc_seq_name() -> Seq<u8> {
    seq![111u8, 99u8, 45u8, 115u8, 101u8, 113u8]
}

/// `;oc;oc-algo="loss,rate"`: a client's offer of both algorithms.
pub open spec fn advertisement() -> Seq<u8> {
    seq![59u8, 111u8, 99u8, 59u8, 111u8, 99u8, 45u8, 97u8, 108u8, 103u8, 111u8, 61u8, 34u8, 108u8, 111u8, 115u8, 115u8, 44u8, 114u8, 97u8, 116u8, 101u8, 34u8]
}

/// The offer a client adds to its topmost `Via`.
pub fn advertisement_bytes() -> (r: Vec<u8>)
    ensures
        r@ == advertisement(),
{
    let v = vec![59u8, 111u8, 99u8, 59u8, 111u8, 99u8, 45u8, 97u8, 108u8, 103u8, 111u8, 61u8, 34u8, 108u8, 111u8, 115u8, 115u8, 44u8, 114u8, 97u8, 116u8, 101u8, 34u8];
    proof {
        assert(v@ =~= advertisement());
    }
    v
}

/// A hop with every occurrence of one parameter removed, first to last.
pub open spec fn strip_param(hop: Seq<u8>, name: Seq<u8>) -> Seq<u8>
    decreases hop.len(),
{
    match param_span_spec(hop, name) {
        Some((start, end)) => if 0 <= start < end <= hop.len() {
            strip_param(hop.subrange(0, start) + hop.subrange(end, hop.len() as int), name)
        } else {
            hop
        },
        None => hop,
    }
}

/// A hop with every overload parameter removed: the ones a role does not own go, and the
/// ones it does are written afresh.
pub open spec fn strip_overload(hop: Seq<u8>) -> Seq<u8> {
    strip_param(
        strip_param(strip_param(strip_param(hop, oc_name()), oc_algo_name()), oc_validity_name()),
        oc_seq_name(),
    )
}

/// The `Via` header value with its topmost hop's overload parameters replaced by `addition`; the
/// hops after the first go back out as they arrived.
pub open spec fn rewritten_overload_via(value: Seq<u8>, hop_end: int, addition: Seq<u8>) -> Seq<u8> {
    strip_overload(value.subrange(0, hop_end)) + addition + value.subrange(hop_end, value.len() as int)
}

fn strip_param_exec(hop: Vec<u8>, name: &[u8]) -> (r: Vec<u8>)
    ensures
        r@ == strip_param(hop@, name@),
    decreases hop@.len(),
{
    match param_span(hop.as_slice(), name) {
        Some((start, end)) => {
            let mut next: Vec<u8> = Vec::new();
            push_range(&mut next, hop.as_slice(), 0, start);
            push_range(&mut next, hop.as_slice(), end, hop.len());
            strip_param_exec(next, name)
        },
        None => hop,
    }
}

/// Replace the overload parameters of the topmost hop of a `Via` value with `addition`.
///
/// `hop_end` is where the first hop ends. Every `oc`, `oc-algo`, `oc-validity` and `oc-seq`
/// parameter is removed from that hop, then `addition` is appended to it.
pub fn rewrite_top_via(value: &[u8], hop_end: usize, addition: &[u8]) -> (r: Vec<u8>)
    requires
        hop_end <= value@.len(),
    ensures
        r@ == rewritten_overload_via(value@, hop_end as int, addition@),
{
    let mut hop: Vec<u8> = Vec::new();
    push_range(&mut hop, value, 0, hop_end);
    proof {
        assert(hop@ =~= value@.subrange(0, hop_end as int));
    }
    let oc = [111u8, 99u8];
    let algo = [111u8, 99u8, 45u8, 97u8, 108u8, 103u8, 111u8];
    let validity = [111u8, 99u8, 45u8, 118u8, 97u8, 108u8, 105u8, 100u8, 105u8, 116u8, 121u8];
    let seq_name = [111u8, 99u8, 45u8, 115u8, 101u8, 113u8];
    proof {
        assert(oc@ =~= oc_name());
        assert(algo@ =~= oc_algo_name());
        assert(validity@ =~= oc_validity_name());
        assert(seq_name@ =~= oc_seq_name());
    }
    let hop = strip_param_exec(hop, &oc);
    let hop = strip_param_exec(hop, &algo);
    let hop = strip_param_exec(hop, &validity);
    let mut hop = strip_param_exec(hop, &seq_name);
    push_all(&mut hop, addition);
    push_range(&mut hop, value, hop_end, value.len());
    hop
}

/// `;oc=`.
pub open spec fn oc_value_key() -> Seq<u8> {
    seq![59u8, 111u8, 99u8, 61u8]
}

/// `;oc-algo="`.
pub open spec fn oc_algo_key() -> Seq<u8> {
    seq![59u8, 111u8, 99u8, 45u8, 97u8, 108u8, 103u8, 111u8, 61u8, 34u8]
}

/// `";oc-validity=`.
pub open spec fn oc_validity_key() -> Seq<u8> {
    seq![34u8, 59u8, 111u8, 99u8, 45u8, 118u8, 97u8, 108u8, 105u8, 100u8, 105u8, 116u8, 121u8, 61u8]
}

/// `;oc-seq=`.
pub open spec fn oc_seq_key() -> Seq<u8> {
    seq![59u8, 111u8, 99u8, 45u8, 115u8, 101u8, 113u8, 61u8]
}

/// The algorithm token a feedback uses.
pub open spec fn algorithm_token(feedback: OverloadFeedback) -> Seq<u8> {
    match feedback {
        OverloadFeedback::Loss(_) => seq![108u8, 111u8, 115u8, 115u8],
        OverloadFeedback::Rate(_) => seq![114u8, 97u8, 116u8, 101u8],
    }
}

/// The value a feedback reports.
pub open spec fn feedback_value(feedback: OverloadFeedback) -> nat {
    match feedback {
        OverloadFeedback::Loss(v) => v as nat,
        OverloadFeedback::Rate(v) => v as nat,
    }
}

/// The parameters a server adds to report overload (RFC 7339 §5.2): the value, the one algorithm
/// as a quoted list, the validity in milliseconds, and the sequence.
pub open spec fn feedback_parameters(feedback: OverloadFeedback, validity_nanos: u64, sequence: Seq<u8>) -> Seq<u8> {
    oc_value_key() + decimal(feedback_value(feedback)) + oc_algo_key() + algorithm_token(feedback)
        + oc_validity_key() + decimal((validity_nanos / 1_000_000) as nat) + oc_seq_key() + sequence
}

/// The parameters a server adds to its topmost `Via` to report overload; `sequence` is the
/// report's sequence as written.
pub fn feedback_parameters_bytes(feedback: OverloadFeedback, validity_nanos: u64, sequence: &[u8]) -> (r: Vec<u8>)
    ensures
        r@ == feedback_parameters(feedback, validity_nanos, sequence@),
{
    let mut out: Vec<u8> = Vec::new();
    let k1 = [59u8, 111u8, 99u8, 61u8];
    push_all(&mut out, &k1);
    let (value, token): (u64, Vec<u8>) = match feedback {
        OverloadFeedback::Loss(v) => (v as u64, vec![108u8, 111u8, 115u8, 115u8]),
        OverloadFeedback::Rate(v) => (v as u64, vec![114u8, 97u8, 116u8, 101u8]),
    };
    push_decimal(&mut out, value);
    let k2 = [59u8, 111u8, 99u8, 45u8, 97u8, 108u8, 103u8, 111u8, 61u8, 34u8];
    push_all(&mut out, &k2);
    push_all(&mut out, token.as_slice());
    let k3 = [34u8, 59u8, 111u8, 99u8, 45u8, 118u8, 97u8, 108u8, 105u8, 100u8, 105u8, 116u8, 121u8, 61u8];
    push_all(&mut out, &k3);
    push_decimal(&mut out, validity_nanos / 1_000_000);
    let k4 = [59u8, 111u8, 99u8, 45u8, 115u8, 101u8, 113u8, 61u8];
    push_all(&mut out, &k4);
    push_all(&mut out, sequence);
    proof {
        assert(k1@ =~= oc_value_key());
        assert(k2@ =~= oc_algo_key());
        assert(k3@ =~= oc_validity_key());
        assert(k4@ =~= oc_seq_key());
        assert(token@ =~= algorithm_token(feedback));
        assert(out@ =~= feedback_parameters(feedback, validity_nanos, sequence@));
    }
    out
}

/// The feedback that says overload has ended: the configured algorithm with nothing to shed.
pub open spec fn stopped(feedback: OverloadFeedback) -> OverloadFeedback {
    match feedback {
        OverloadFeedback::Loss(_) => OverloadFeedback::Loss(0),
        OverloadFeedback::Rate(_) => OverloadFeedback::Rate(0),
    }
}

/// What a server reports in a response at `now` (nanoseconds), overloaded until `until`: while
/// overloaded, the configured feedback, valid for the time that remains in whole milliseconds
/// and at least one; otherwise the same algorithm with nothing to shed, valid for no time, and
/// the overload is over. Returns the feedback, its validity in milliseconds, and whether the
/// overload still holds.
pub open spec fn server_feedback_spec(until: Option<u64>, now: u64, configured: OverloadFeedback) -> (
    OverloadFeedback,
    u64,
    bool,
) {
    match until {
        Some(u) if u > now => {
            let ms = (u - now) / 1_000_000;
            (configured, if ms > 0 {
                ms as u64
            } else {
                1
            }, true)
        },
        _ => (stopped(configured), 0, false),
    }
}

/// What a server reports in a response; see [`server_feedback_spec`].
pub fn server_feedback(until: Option<u64>, now: u64, configured: OverloadFeedback) -> (r: (
    OverloadFeedback,
    u64,
    bool,
))
    ensures
        r == server_feedback_spec(until, now, configured),
{
    match until {
        Some(u) => {
            if u > now {
                let ms = (u - now) / 1_000_000;
                return (configured, if ms > 0 {
                    ms
                } else {
                    1
                }, true);
            }
        },
        None => {},
    }
    let off = match configured {
        OverloadFeedback::Loss(_) => OverloadFeedback::Loss(0),
        OverloadFeedback::Rate(_) => OverloadFeedback::Rate(0),
    };
    (off, 0, false)
}

/// The sequence the next report is published under: one more, wrapping to one after the
/// largest value `oc-seq`'s integer part is written with.
pub fn next_report_sequence(sequence: u64) -> (r: u64)
    ensures
        r == (if sequence >= 999_999_999_999 {
            1
        } else {
            sequence + 1
        }),
        1 <= r <= 999_999_999_999,
{
    if sequence >= 999_999_999_999 {
        1
    } else {
        sequence + 1
    }
}

/// What a client holds about one downstream server's overload reports.
#[derive(Debug, Clone, Copy, PartialEq, Eq)]
pub struct PeerState {
    /// The server.
    pub peer: SocketAddress,
    /// The sequence of the newest report taken into account.
    pub sequence: u64,
    /// When that report stops controlling traffic, in nanoseconds on the caller's clock.
    pub until: Option<u64>,
    /// Whether an algorithm is running for it; its arithmetic is the caller's.
    pub active: bool,
    /// When a request was last offered to it.
    pub last_used: u64,
}

/// What happened to a report.
#[derive(Debug, Clone, Copy, PartialEq, Eq)]
pub enum Applied {
    /// A report with this sequence or a newer one is already held; nothing changed.
    Stale,
    /// The report replaced what was held, making room by forgetting `evicted` if the table was
    /// full; `controlling` says whether it now drives an algorithm.
    Taken {
        /// The server forgotten to make room, whose algorithm state the caller drops.
        evicted: Option<SocketAddress>,
        /// Whether the report controls traffic: false for zero validity or an unusable report.
        controlling: bool,
    },
}

/// Whether a request to a server is controlled now.
#[derive(Debug, Clone, Copy, PartialEq, Eq)]
pub enum Control {
    /// Nothing controls it: forward.
    Uncontrolled,
    /// Its report has just expired and no longer controls it: forward, and drop the algorithm.
    Released,
    /// A report controls it: the caller's algorithm decides.
    Controlled,
}

/// Whether a state is for this server.
pub open spec fn is_peer(peer: SocketAddress) -> spec_fn(PeerState) -> bool {
    |s: PeerState| s.peer == peer
}

/// Where a server's state is held.
pub open spec fn find_peer(s: Seq<PeerState>, peer: SocketAddress) -> Option<int> {
    first_match(s, is_peer(peer), 0)
}

/// No server is held twice.
pub open spec fn distinct_peers(s: Seq<PeerState>) -> bool {
    forall|i: int, j: int| 0 <= i < j < s.len() ==> (#[trigger] s[i]).peer != (#[trigger] s[j]).peer
}

/// Whether a state controls traffic at `now`.
pub open spec fn controlling_at(p: PeerState, now: u64) -> bool {
    p.active && (p.until matches Some(u) && now < u)
}

/// Whether `a` goes before `b` when room is made: a state not controlling traffic before one that
/// is, then the least recently used.
pub open spec fn evicted_before(a: PeerState, b: PeerState, now: u64) -> bool {
    (!controlling_at(a, now) && controlling_at(b, now)) || (controlling_at(a, now) == controlling_at(
        b,
        now,
    ) && a.last_used < b.last_used)
}

/// The state made room for first, from `i` on, given the best so far: the first of the least.
pub open spec fn eviction_from(s: Seq<PeerState>, now: u64, i: int, best: int) -> int
    decreases s.len() - i,
{
    if i < 0 || i >= s.len() {
        best
    } else if evicted_before(s[i], s[best], now) {
        eviction_from(s, now, i + 1, i)
    } else {
        eviction_from(s, now, i + 1, best)
    }
}

/// The state made room for first.
pub open spec fn eviction_index(s: Seq<PeerState>, now: u64) -> int {
    eviction_from(s, now, 1, 0)
}

/// How long a report without `oc-validity` controls traffic: half a second (RFC 7339 §5.2).
pub open spec fn default_validity() -> u64 {
    500_000_000
}

/// Take a report with this sequence and validity into account at `now`; `usable` says whether
/// it names an algorithm the caller can run.
///
/// A report no newer than the one held changes nothing. Otherwise, a full table forgets one
/// server first, preferring one no report controls and then the least recently used. A report
/// valid for zero time disables control; one without a validity is valid for half a second.
pub open spec fn apply_spec(
    s: Seq<PeerState>,
    limit: usize,
    peer: SocketAddress,
    sequence: u64,
    validity: Option<u64>,
    now: u64,
    usable: bool,
) -> (Seq<PeerState>, Applied) {
    if find_peer(s, peer) matches Some(i) && sequence <= s[i].sequence {
        (s, Applied::Stale)
    } else {
        let full = find_peer(s, peer) is None && s.len() >= limit && s.len() > 0;
        let v = eviction_index(s, now);
        let s1 = if full {
            s.remove(v)
        } else {
            s
        };
        let evicted = if full {
            Some(s[v].peer)
        } else {
            None
        };
        let valid = match validity {
            Some(d) => d,
            None => default_validity(),
        };
        let state = if valid == 0 {
            PeerState { peer, sequence, until: None, active: false, last_used: now }
        } else {
            PeerState {
                peer,
                sequence,
                until: Some(now.saturating_add(valid)),
                active: usable,
                last_used: now,
            }
        };
        let s2 = match find_peer(s1, peer) {
            Some(i) => s1.update(i, state),
            None => s1.push(state),
        };
        (s2, Applied::Taken { evicted, controlling: state.active })
    }
}

/// Offer a request to a server at `now`: an expired report is released, and a live one with an
/// algorithm controls it.
pub open spec fn offer_spec(s: Seq<PeerState>, peer: SocketAddress, now: u64) -> (Seq<PeerState>, Control) {
    match find_peer(s, peer) {
        None => (s, Control::Uncontrolled),
        Some(i) => {
            let p = s[i];
            let expired = match p.until {
                None => true,
                Some(u) => now >= u,
            };
            if expired {
                (
                    s.update(
                        i,
                        PeerState { peer: p.peer, sequence: p.sequence, until: None, active: false, last_used: now },
                    ),
                    if p.active {
                        Control::Released
                    } else {
                        Control::Uncontrolled
                    },
                )
            } else {
                let q = PeerState {
                    peer: p.peer,
                    sequence: p.sequence,
                    until: p.until,
                    active: p.active,
                    last_used: now,
                };
                (s.update(i, q), if p.active {
                    Control::Controlled
                } else {
                    Control::Uncontrolled
                })
            }
        },
    }
}

proof fn lemma_eviction_in_range(s: Seq<PeerState>, now: u64, i: int, best: int)
    requires
        0 <= best < s.len(),
        0 <= i,
    ensures
        0 <= eviction_from(s, now, i, best) < s.len(),
    decreases s.len() - i,
{
    if i < s.len() {
        if evicted_before(s[i], s[best], now) {
            lemma_eviction_in_range(s, now, i + 1, i);
        } else {
            lemma_eviction_in_range(s, now, i + 1, best);
        }
    }
}

/// Where a taken report leaves its server's state.
proof fn lemma_taken_state(
    s: Seq<PeerState>,
    limit: usize,
    peer: SocketAddress,
    sequence: u64,
    validity: Option<u64>,
    now: u64,
    usable: bool,
) -> (j: int)
    requires
        distinct_peers(s),
        apply_spec(s, limit, peer, sequence, validity, now, usable).1 is Taken,
    ensures
        ({
            let s2 = apply_spec(s, limit, peer, sequence, validity, now, usable).0;
            let valid = match validity {
                Some(d) => d,
                None => default_validity(),
            };
            &&& find_peer(s2, peer) == Some(j)
            &&& s2[j].sequence == sequence
            &&& s2[j].last_used == now
            &&& valid == 0 ==> s2[j].until is None && !s2[j].active
            &&& valid != 0 ==> s2[j].until == Some(now.saturating_add(valid)) && s2[j].active == usable
        }),
{
    lemma_first_match(s, is_peer(peer), 0);
    let full = find_peer(s, peer) is None && s.len() >= limit && s.len() > 0;
    let v = eviction_index(s, now);
    let s1 = if full {
        s.remove(v)
    } else {
        s
    };
    if full {
        lemma_eviction_in_range(s, now, 1, 0);
        lemma_absent_after_removal(s, v, peer);
    }
    lemma_first_match(s1, is_peer(peer), 0);
    let s2 = apply_spec(s, limit, peer, sequence, validity, now, usable).0;
    lemma_first_match(s2, is_peer(peer), 0);
    match find_peer(s1, peer) {
        Some(i) => {
            assert(is_peer(peer)(s2[i]));
            if let Some(k) = find_peer(s2, peer) {
                if k < i {
                    assert(s2[k] == s1[k]);
                }
            }
            i
        },
        None => {
            let n = s1.len() as int;
            assert(is_peer(peer)(s2[n]));
            if let Some(k) = find_peer(s2, peer) {
                if k < n {
                    assert(s2[k] == s1[k]);
                }
            }
            n
        },
    }
}

/// A report no newer than the one held changes nothing: a stale or replayed report never
/// controls traffic.
pub proof fn a_stale_report_changes_nothing(
    s: Seq<PeerState>,
    limit: usize,
    peer: SocketAddress,
    sequence: u64,
    validity: Option<u64>,
    now: u64,
    usable: bool,
)
    requires
        find_peer(s, peer) matches Some(i) && sequence <= s[i].sequence,
    ensures
        apply_spec(s, limit, peer, sequence, validity, now, usable) == (s, Applied::Stale),
{
}

/// A report valid for zero time disables control: until a newer report arrives, nothing
/// controls requests to that server.
pub proof fn zero_validity_disables_control(
    s: Seq<PeerState>,
    limit: usize,
    peer: SocketAddress,
    sequence: u64,
    now: u64,
    usable: bool,
    later: u64,
)
    requires
        distinct_peers(s),
        apply_spec(s, limit, peer, sequence, Some(0), now, usable).1 is Taken,
    ensures
        offer_spec(apply_spec(s, limit, peer, sequence, Some(0), now, usable).0, peer, later).1
            == Control::Uncontrolled,
{
    let j = lemma_taken_state(s, limit, peer, sequence, Some(0), now, usable);
}

/// A report without a validity controls traffic for half a second, then is released.
pub proof fn an_absent_validity_means_half_a_second(
    s: Seq<PeerState>,
    limit: usize,
    peer: SocketAddress,
    sequence: u64,
    now: u64,
    later: u64,
)
    requires
        distinct_peers(s),
        now + default_validity() <= u64::MAX,
        apply_spec(s, limit, peer, sequence, None, now, true).1 is Taken,
    ensures
        later < now + default_validity() ==> offer_spec(
            apply_spec(s, limit, peer, sequence, None, now, true).0,
            peer,
            later,
        ).1 == Control::Controlled,
        later >= now + default_validity() ==> offer_spec(
            apply_spec(s, limit, peer, sequence, None, now, true).0,
            peer,
            later,
        ).1 == Control::Released,
{
    let j = lemma_taken_state(s, limit, peer, sequence, None, now, true);
}

proof fn lemma_eviction_is_least(s: Seq<PeerState>, now: u64, i: int, best: int)
    requires
        0 <= best < i <= s.len(),
        forall|j: int| 0 <= j < i ==> !evicted_before(#[trigger] s[j], s[best], now),
    ensures
        forall|j: int|
            0 <= j < s.len() ==> !evicted_before(#[trigger] s[j], s[eviction_from(s, now, i, best)], now),
    decreases s.len() - i,
{
    if i < s.len() {
        if evicted_before(s[i], s[best], now) {
            assert forall|j: int| 0 <= j < i + 1 implies !evicted_before(#[trigger] s[j], s[i], now) by {
                if j < i {
                    assert(!evicted_before(s[j], s[best], now));
                }
            }
            lemma_eviction_is_least(s, now, i + 1, i);
        } else {
            lemma_eviction_is_least(s, now, i + 1, best);
        }
    }
}

/// When the table is full and a new server's report is taken, the server forgotten is one that
/// was held, no report controlling it unless one controls every server held, and it was used no
/// later than any other server in the same case. It is gone afterwards.
pub proof fn the_least_recently_used_peer_makes_room(
    s: Seq<PeerState>,
    limit: usize,
    peer: SocketAddress,
    sequence: u64,
    validity: Option<u64>,
    now: u64,
    usable: bool,
)
    requires
        distinct_peers(s),
        find_peer(s, peer) is None,
        s.len() >= limit,
        s.len() > 0,
    ensures
        apply_spec(s, limit, peer, sequence, validity, now, usable).1 matches Applied::Taken {
            evicted: Some(e),
            ..
        } && exists|v: int|
            {
                &&& 0 <= v < s.len()
                &&& #[trigger] s[v].peer == e
                &&& forall|j: int|
                    0 <= j < s.len() ==> {
                        let cv = s[v].active && (s[v].until matches Some(u) && now < u);
                        let cj = #[trigger] s[j].active && (s[j].until matches Some(u) && now < u);
                        &&& (cv ==> cj)
                        &&& (cv == cj ==> s[v].last_used <= s[j].last_used)
                    }
                &&& find_peer(apply_spec(s, limit, peer, sequence, validity, now, usable).0, e) is None
            },
{
    lemma_first_match(s, is_peer(peer), 0);
    let v = eviction_index(s, now);
    lemma_eviction_in_range(s, now, 1, 0);
    lemma_eviction_is_least(s, now, 1, 0);
    assert forall|j: int| 0 <= j < s.len() implies {
        let cv = s[v].active && (s[v].until matches Some(u) && now < u);
        let cj = #[trigger] s[j].active && (s[j].until matches Some(u) && now < u);
        &&& (cv ==> cj)
        &&& (cv == cj ==> s[v].last_used <= s[j].last_used)
    } by {
        assert(!evicted_before(s[j], s[v], now));
    }
    lemma_remove_keeps_distinct(s, v);
    let s1 = s.remove(v);
    let e = s[v].peer;
    let s2 = apply_spec(s, limit, peer, sequence, validity, now, usable).0;
    lemma_first_match(s1, is_peer(peer), 0);
    lemma_first_match(s1, is_peer(e), 0);
    lemma_first_match(s2, is_peer(e), 0);
    assert(e != peer);
    if let Some(k) = find_peer(s2, e) {
        assert(s2 == s1.push(s2[s1.len() as int]));
        if k < s1.len() {
            assert(s2[k] == s1[k]);
        }
    }
    assert(s[v].peer == e);
}

/// The report state a client holds for its downstream servers, bounded in size.
#[derive(Debug)]
pub struct PeerTable {
    peers: Vec<PeerState>,
    limit: usize,
}

proof fn lemma_remove_keeps_distinct(s: Seq<PeerState>, i: int)
    requires
        distinct_peers(s),
        0 <= i < s.len(),
    ensures
        distinct_peers(s.remove(i)),
        find_peer(s.remove(i), s[i].peer) is None,
{
    let r = s.remove(i);
    assert forall|a: int, b: int| 0 <= a < b < r.len() implies (#[trigger] r[a]).peer != (
    #[trigger] r[b]).peer by {
        let a2 = if a < i {
            a
        } else {
            a + 1
        };
        let b2 = if b < i {
            b
        } else {
            b + 1
        };
        assert(r[a] == s[a2]);
        assert(r[b] == s[b2]);
    }
    lemma_first_match(r, is_peer(s[i].peer), 0);
    if let Some(k) = find_peer(r, s[i].peer) {
        let k2 = if k < i {
            k
        } else {
            k + 1
        };
        assert(r[k] == s[k2]);
    }
}

proof fn lemma_absent_after_removal(s: Seq<PeerState>, i: int, peer: SocketAddress)
    requires
        0 <= i < s.len(),
        find_peer(s, peer) is None,
    ensures
        find_peer(s.remove(i), peer) is None,
{
    lemma_first_match(s, is_peer(peer), 0);
    let r = s.remove(i);
    lemma_first_match(r, is_peer(peer), 0);
    if let Some(k) = find_peer(r, peer) {
        let k2 = if k < i {
            k
        } else {
            k + 1
        };
        assert(r[k] == s[k2]);
        assert(!is_peer(peer)(s[k2]));
    }
}

impl PeerTable {
    /// The states held, in the order they were first taken.
    pub closed spec fn states(&self) -> Seq<PeerState> {
        self.peers@
    }

    /// The most servers held.
    pub closed spec fn limit_spec(&self) -> usize {
        self.limit
    }

    /// The table's invariant: one state per server, and no more than the limit, or one when the
    /// limit is zero.
    #[verifier::type_invariant]
    pub open spec fn wf(&self) -> bool {
        &&& distinct_peers(self.states())
        &&& self.states().len() <= (if self.limit_spec() > 0 {
            self.limit_spec()
        } else {
            1
        })
    }

    /// An empty table holding at most `limit` servers.
    pub fn new(limit: usize) -> (r: PeerTable)
        ensures
            r.states().len() == 0,
            r.limit_spec() == limit,
    {
        PeerTable { peers: Vec::new(), limit }
    }

    fn position(&self, peer: SocketAddress) -> (r: Option<usize>)
        ensures
            r matches Some(k) ==> find_peer(self.states(), peer) == Some(k as int) && k < self.states().len(),
            r is None ==> find_peer(self.states(), peer) is None,
    {
        let mut i: usize = 0;
        while i < self.peers.len()
            invariant
                i <= self.peers@.len(),
                forall|j: int| 0 <= j < i ==> !is_peer(peer)(#[trigger] self.peers@[j]),
            decreases self.peers.len() - i,
        {
            let p = self.peers[i].peer;
            if ip_eq(&p.ip, &peer.ip) && p.port == peer.port {
                proof {
                    lemma_first_match(self.peers@, is_peer(peer), 0);
                    assert(is_peer(peer)(self.peers@[i as int]));
                }
                return Some(i);
            }
            i = i + 1;
        }
        proof {
            lemma_first_match(self.peers@, is_peer(peer), 0);
        }
        None
    }

    fn eviction(&self, now: u64) -> (r: usize)
        requires
            self.states().len() > 0,
        ensures
            r as int == eviction_index(self.states(), now),
            r < self.states().len(),
    {
        let mut best: usize = 0;
        let mut i: usize = 1;
        while i < self.peers.len()
            invariant
                1 <= i <= self.peers@.len(),
                best < self.peers@.len(),
                eviction_index(self.peers@, now) == eviction_from(self.peers@, now, i as int, best as int),
            decreases self.peers.len() - i,
        {
            let a = self.peers[i];
            let b = self.peers[best];
            let ca = a.active && match a.until {
                Some(u) => now < u,
                None => false,
            };
            let cb = b.active && match b.until {
                Some(u) => now < u,
                None => false,
            };
            if (!ca && cb) || (ca == cb && a.last_used < b.last_used) {
                best = i;
            }
            i = i + 1;
        }
        best
    }

    /// Take a report into account; see [`apply_spec`].
    pub fn apply(
        &mut self,
        peer: SocketAddress,
        sequence: u64,
        validity: Option<u64>,
        now: u64,
        usable: bool,
    ) -> (r: Applied)
        ensures
            final(self).limit_spec() == old(self).limit_spec(),
            (final(self).states(), r) == apply_spec(
                old(self).states(),
                old(self).limit_spec(),
                peer,
                sequence,
                validity,
                now,
                usable,
            ),
    {
        proof {
            use_type_invariant(&*self);
        }
        let ghost s = self.states();
        proof {
            lemma_first_match(s, is_peer(peer), 0);
        }
        let held = self.position(peer);
        if let Some(i) = held {
            if sequence <= self.peers[i].sequence {
                return Applied::Stale;
            }
        }
        let full = held.is_none() && self.peers.len() >= self.limit && self.peers.len() > 0;
        let victim = if full {
            Some(self.eviction(now))
        } else {
            None
        };
        let mut peers: Vec<PeerState> = Vec::new();
        std::mem::swap(&mut peers, &mut self.peers);
        let mut evicted: Option<SocketAddress> = None;
        if let Some(v) = victim {
            proof {
                lemma_remove_keeps_distinct(s, v as int);
                lemma_absent_after_removal(s, v as int, peer);
            }
            let gone = peers.remove(v);
            evicted = Some(gone.peer);
        }
        let ghost s1 = peers@;
        let valid = match validity {
            Some(d) => d,
            None => 500_000_000,
        };
        let state = if valid == 0 {
            PeerState { peer, sequence, until: None, active: false, last_used: now }
        } else {
            PeerState {
                peer,
                sequence,
                until: Some(now.saturating_add(valid)),
                active: usable,
                last_used: now,
            }
        };
        match held {
            Some(i) => {
                peers.set(i, state);
                proof {
                    assert(find_peer(s1, peer) == Some(i as int));
                    let t = peers@;
                    assert forall|a: int, b: int| 0 <= a < b < t.len() implies (#[trigger] t[a]).peer
                        != (#[trigger] t[b]).peer by {
                        assert(t[a].peer == s[a].peer);
                        assert(t[b].peer == s[b].peer);
                    }
                }
            },
            None => {
                peers.push(state);
                proof {
                    lemma_first_match(s1, is_peer(peer), 0);
                    let t = peers@;
                    assert forall|a: int, b: int| 0 <= a < b < t.len() implies (#[trigger] t[a]).peer
                        != (#[trigger] t[b]).peer by {
                        assert(t[a] == s1[a]);
                        if b < s1.len() {
                            assert(t[b] == s1[b]);
                        } else {
                            assert(!is_peer(peer)(s1[a]));
                        }
                    }
                }
            },
        }
        self.peers = peers;
        Applied::Taken { evicted, controlling: state.active }
    }

    /// Offer a request to a server; see [`offer_spec`].
    pub fn offer(&mut self, peer: SocketAddress, now: u64) -> (r: Control)
        ensures
            final(self).limit_spec() == old(self).limit_spec(),
            (final(self).states(), r) == offer_spec(old(self).states(), peer, now),
    {
        proof {
            use_type_invariant(&*self);
        }
        let ghost s = self.states();
        match self.position(peer) {
            None => Control::Uncontrolled,
            Some(i) => {
                let p = self.peers[i];
                let expired = match p.until {
                    None => true,
                    Some(u) => now >= u,
                };
                let (next, control) = if expired {
                    (
                        PeerState { peer: p.peer, sequence: p.sequence, until: None, active: false, last_used: now },
                        if p.active {
                            Control::Released
                        } else {
                            Control::Uncontrolled
                        },
                    )
                } else {
                    (
                        PeerState {
                            peer: p.peer,
                            sequence: p.sequence,
                            until: p.until,
                            active: p.active,
                            last_used: now,
                        },
                        if p.active {
                            Control::Controlled
                        } else {
                            Control::Uncontrolled
                        },
                    )
                };
                let mut peers: Vec<PeerState> = Vec::new();
                std::mem::swap(&mut peers, &mut self.peers);
                peers.set(i, next);
                proof {
                    let t = peers@;
                    assert forall|a: int, b: int| 0 <= a < b < t.len() implies (#[trigger] t[a]).peer
                        != (#[trigger] t[b]).peer by {
                        assert(t[a].peer == s[a].peer);
                        assert(t[b].peer == s[b].peer);
                    }
                }
                self.peers = peers;
                control
            },
        }
    }

    /// How many servers are held.
    pub fn len(&self) -> (r: usize)
        ensures
            r == self.states().len(),
    {
        self.peers.len()
    }
}
} // verus!
