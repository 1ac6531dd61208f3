//! RFC 3263: turning a SIP URI into an ordered list of places to try.
//!
//! - An IP literal or an explicit port means no SRV lookup: the URI has already answered.
//! - NAPTR chooses the *transport*; SRV chooses the *host and port*; A/AAAA the address.
//! - `sips:` restricts the candidates to TLS. Falling back to UDP because TLS was unavailable
//!   would silently downgrade a request the user asked to be secure.
//! - The result is a *list*: the request has not failed until the list is exhausted.
//!
//! DNS itself is behind a trait, so the selection logic is testable without a network.

use vstd::prelude::*;
use vstd::string::{StrSliceExecFns, StringExecFns};
use vstd::multiset::Multiset;
use crate::addr::{IpAddress, SocketAddress};
use crate::dns::{answers_for, clone_naptrs, find_answer_addresses, find_answer_srv, Prefetched};
use crate::sip::{Host, SipUri};
use crate::sort::{Keyed, sort_by_key, sorted_by_key, stable_sort, lemma_stable_sort};
use crate::target::{Target, TransportKind, spec_default_port, spec_is_secure, spec_parse};

verus! {

broadcast use vstd::seq_lib::group_to_multiset_ensures;

/// A NAPTR record, reduced to what RFC 3263 uses.
#[derive(Debug, PartialEq, Eq)]
pub struct Naptr {
    /// Lower is preferred.
    pub order: u16,
    /// Lower is preferred, within an order.
    pub preference: u16,
    /// `SIP+D2U`, `SIPS+D2T` and friends.
    pub service: String,
    /// The SRV name to look up next.
    pub replacement: String,
}

/// An SRV record.
#[derive(Debug, PartialEq, Eq)]
pub struct Srv {
    /// Lower is preferred.
    pub priority: u16,
    /// Relative share within a priority (RFC 2782).
    pub weight: u16,
    /// The port to use.
    pub port: u16,
    /// The host to resolve.
    pub target: String,
}

impl Clone for Naptr {
    fn clone(&self) -> (r: Naptr)
        ensures
            r == *self,
    {
        Naptr {
            order: self.order,
            preference: self.preference,
            service: self.service.clone(),
            replacement: self.replacement.clone(),
        }
    }
}

impl Clone for Srv {
    fn clone(&self) -> (r: Srv)
        ensures
            r == *self,
    {
        Srv {
            priority: self.priority,
            weight: self.weight,
            port: self.port,
            target: self.target.clone(),
        }
    }
}

impl Keyed for Naptr {
    /// Order first, then preference: both ascending.
    open spec fn key_spec(&self) -> u32 {
        (self.order as u32 * 65536 + self.preference as u32) as u32
    }

    fn key(&self) -> (k: u32) {
        (self.order as u32) * 65536 + (self.preference as u32)
    }
}

impl Keyed for Srv {
    open spec fn key_spec(&self) -> u32 {
        self.priority as u32
    }

    fn key(&self) -> (k: u32) {
        self.priority as u32
    }
}

/// What a resolver must be able to answer.
///
/// A trait rather than a concrete DNS client so that the selection logic, which is where the
/// bugs live, is testable without a network. Nothing is assumed of the answers: a resolver may
/// answer the same question differently twice.
pub trait Resolver {
    /// NAPTR records for a domain.
    fn naptr(&self, domain: &str) -> Vec<Naptr>;

    /// SRV records for a name.
    fn srv(&self, name: &str) -> Vec<Srv>;

    /// Addresses for a host.
    fn addresses(&self, host: &str) -> Vec<IpAddress>;
}

/// A source of randomness for RFC 2782 weighted selection.
///
/// Injectable so the distribution is testable with a fixed seed.
pub trait Rng {
    /// A value in `0..=max`.
    fn below(&mut self, max: u32) -> (r: u32)
        ensures
            r <= max,
    ;
}

/// A value drawn uniformly from `0..=max` by `rand::Rng::random_range` on `rand::rng()`, the
/// thread-local generator. Only its range is stated: the value is chance.
#[verifier::external_body]
fn random_at_most(max: u32) -> (r: u32)
    ensures
        r <= max,
{
    rand::Rng::random_range(&mut rand::rng(), 0..=max)
}

/// The thread RNG.
#[derive(Debug, Default)]
pub struct OsRng;

impl Rng for OsRng {
    fn below(&mut self, max: u32) -> (r: u32) {
        if max == 0 {
            return 0;
        }
        random_at_most(max)
    }
}

/// A deterministic RNG for tests: a linear congruential generator with a fixed seed.
#[derive(Debug)]
pub struct SeededRng(u64);

/// One step of the generator: Numerical Recipes' constants, wrapping.
pub open spec fn lcg_next(state: u64) -> u64 {
    state.wrapping_mul(6364136223846793005u64).wrapping_add(1442695040888963407u64)
}

impl SeededRng {
    /// The generator's state.
    pub closed spec fn state(&self) -> u64 {
        self.0
    }

    /// A generator with the given seed.
    pub fn new(seed: u64) -> (r: SeededRng)
        ensures
            r.state() == seed,
    {
        SeededRng(seed)
    }
}

/// What the generator hands out from a state it has just stepped to: nothing to choose from
/// for a bound of 0, else a value in `1..=max`.
pub open spec fn seeded_draw(state: u64, max: u32) -> u32 {
    if max == 0 {
        0
    } else {
        ((state >> 33u64) % (max as u64) + 1) as u32
    }
}

impl Rng for SeededRng {
    fn below(&mut self, max: u32) -> (r: u32)
        ensures
            final(self).state() == lcg_next(old(self).state()),
            r == seeded_draw(final(self).state(), max),
    {
        self.0 = self.0.wrapping_mul(6364136223846793005u64).wrapping_add(1442695040888963407u64);
        if max == 0 {
            return 0;
        }
        let state = self.0;
        let high = state >> 33u64;
        assert(high < 0x8000_0000u64) by (bit_vector)
            requires
                high == state >> 33u64,
        ;
        let r = (high % (max as u64) + 1) as u32;
        r
    }
}

/// Which transports a scheme permits: a `sips:` URI is a request for TLS.
pub open spec fn spec_permitted(secure: bool) -> Seq<TransportKind> {
    if secure {
        seq![TransportKind::Tls, TransportKind::Wss]
    } else {
        seq![
            TransportKind::Udp,
            TransportKind::Tcp,
            TransportKind::Tls,
            TransportKind::Ws,
            TransportKind::Wss,
        ]
    }
}

/// The transport a URI names explicitly, if any.
pub open spec fn spec_explicit_transport(uri: SipUri) -> Option<TransportKind> {
    match uri.transport {
        Some(t) => spec_parse(t@),
        None => None,
    }
}

/// The transport used where nothing else chooses one: the URI's own, else TLS for `sips:` and
/// UDP for `sip:`.
/// Whether a `sips:` URI names a cleartext transport: honouring it would downgrade what the
/// scheme asked for, so such a URI resolves to nothing.
pub open spec fn downgrade_refused(uri: SipUri) -> bool {
    uri.secure && (spec_explicit_transport(uri) matches Some(t) && !spec_is_secure(t))
}

pub open spec fn spec_default_transport(uri: SipUri) -> TransportKind {
    match spec_explicit_transport(uri) {
        Some(t) => t,
        None => if uri.secure {
            TransportKind::Tls
        } else {
            TransportKind::Udp
        },
    }
}

/// The conventional SRV prefix for a transport.
pub open spec fn spec_srv_prefix(t: TransportKind) -> Seq<char> {
    match t {
        TransportKind::Udp => seq!['_', 's', 'i', 'p', '.', '_', 'u', 'd', 'p', '.'],
        TransportKind::Tcp => seq!['_', 's', 'i', 'p', '.', '_', 't', 'c', 'p', '.'],
        TransportKind::Tls => seq!['_', 's', 'i', 'p', 's', '.', '_', 't', 'c', 'p', '.'],
        TransportKind::Ws => seq!['_', 's', 'i', 'p', '.', '_', 'w', 's', '.'],
        TransportKind::Wss => seq!['_', 's', 'i', 'p', 's', '.', '_', 'w', 's', 's', '.'],
    }
}

/// The code of a character after ASCII upper-casing.
pub open spec fn upper_code(c: char) -> u32 {
    if 97 <= (c as u32) <= 122 {
        (c as u32 - 32) as u32
    } else {
        c as u32
    }
}

/// Whether `s`, upper-cased in ASCII, is `upper`.
pub open spec fn eq_upper(s: Seq<char>, upper: Seq<char>) -> bool {
    s.len() == upper.len() && forall|i: int| 0 <= i < s.len() ==> upper_code(#[trigger] s[i])
        == upper[i] as u32
}

/// The NAPTR service fields RFC 3263 §4.1 and RFC 7118 define.
pub open spec fn spec_service_name(t: TransportKind) -> Seq<char> {
    match t {
        TransportKind::Udp => seq!['S', 'I', 'P', '+', 'D', '2', 'U'],
        TransportKind::Tcp => seq!['S', 'I', 'P', '+', 'D', '2', 'T'],
        TransportKind::Tls => seq!['S', 'I', 'P', 'S', '+', 'D', '2', 'T'],
        TransportKind::Ws => seq!['S', 'I', 'P', '+', 'D', '2', 'W'],
        TransportKind::Wss => seq!['S', 'I', 'P', 'S', '+', 'D', '2', 'W'],
    }
}

/// The transport a NAPTR service field names, ignoring ASCII case (RFC 3263 §4.1).
pub open spec fn spec_service_transport(service: Seq<char>) -> Option<TransportKind> {
    if eq_upper(service, spec_service_name(TransportKind::Udp)) {
        Some(TransportKind::Udp)
    } else if eq_upper(service, spec_service_name(TransportKind::Tcp)) {
        Some(TransportKind::Tcp)
    } else if eq_upper(service, spec_service_name(TransportKind::Tls)) {
        Some(TransportKind::Tls)
    } else if eq_upper(service, spec_service_name(TransportKind::Ws)) {
        Some(TransportKind::Ws)
    } else if eq_upper(service, spec_service_name(TransportKind::Wss)) {
        Some(TransportKind::Wss)
    } else {
        None
    }
}

/// NAPTR records in preference order, each that names a known transport turned into that
/// transport and its replacement.
pub open spec fn naptr_choices(records: Seq<Naptr>) -> Seq<(TransportKind, String)>
    decreases records.len(),
{
    if records.len() == 0 {
        Seq::empty()
    } else {
        let rest = naptr_choices(records.drop_last());
        match spec_service_transport(records.last().service@) {
            Some(t) => rest.push((t, records.last().replacement)),
            None => rest,
        }
    }
}

/// The sum of the first `n` weights.
pub open spec fn weight_sum(s: Seq<Srv>, n: int) -> int
    decreases n,
{
    if n <= 0 || n > s.len() {
        0
    } else {
        weight_sum(s, n - 1) + s[n - 1].weight
    }
}

/// RFC 2782's choice for a draw: the first record, from `from` on, whose running sum of weights
/// reaches the draw, or the last record.
pub open spec fn pick_index(s: Seq<Srv>, pick: int, from: int) -> int
    decreases s.len() - from,
{
    if from >= s.len() - 1 {
        s.len() - 1
    } else if weight_sum(s, from + 1) >= pick {
        from
    } else {
        pick_index(s, pick, from + 1)
    }
}

/// The sum of all weights, saturating at `u32::MAX`.
pub open spec fn total_weight_spec(s: Seq<Srv>) -> u32 {
    if weight_sum(s, s.len() as int) > u32::MAX {
        u32::MAX
    } else {
        weight_sum(s, s.len() as int) as u32
    }
}

proof fn lemma_weight_sum_nonneg(s: Seq<Srv>, n: int)
    ensures
        weight_sum(s, n) >= 0,
    decreases n,
{
    if 0 < n <= s.len() {
        lemma_weight_sum_nonneg(s, n - 1);
    }
}

/// A draw always selects a record of a non-empty group.
pub proof fn lemma_pick_index_bounds(s: Seq<Srv>, pick: int, from: int)
    requires
        s.len() > 0,
        0 <= from,
    ensures
        0 <= pick_index(s, pick, from) < s.len(),
    decreases s.len() - from,
{
    if from < s.len() - 1 && weight_sum(s, from + 1) < pick {
        lemma_pick_index_bounds(s, pick, from + 1);
    }
}

/// The sum of a group's weights, saturating rather than wrapping.
fn total_weight(group: &Vec<Srv>) -> (t: u32)
    ensures
        t == total_weight_spec(group@),
{
    let mut total: u32 = 0;
    let mut i: usize = 0;
    while i < group.len()
        invariant
            i <= group@.len(),
            total == (if weight_sum(group@, i as int) > u32::MAX {
                u32::MAX as int
            } else {
                weight_sum(group@, i as int)
            }),
        decreases group.len() - i,
    {
        proof {
            lemma_weight_sum_nonneg(group@, i as int);
        }
        total = total.saturating_add(group[i].weight as u32);
        i = i + 1;
    }
    total
}

/// The index RFC 2782 selects for a draw.
pub fn choose_index(group: &Vec<Srv>, pick: u32) -> (r: usize)
    requires
        group@.len() > 0,
    ensures
        r == pick_index(group@, pick as int, 0),
        r < group@.len(),
{
    proof {
        lemma_pick_index_bounds(group@, pick as int, 0);
    }
    let mut running: u32 = 0;
    let mut index: usize = 0;
    while index < group.len() - 1
        invariant
            index < group@.len(),
            pick_index(group@, pick as int, 0) == pick_index(group@, pick as int, index as int),
            running == (if weight_sum(group@, index as int) > u32::MAX {
                u32::MAX as int
            } else {
                weight_sum(group@, index as int)
            }),
        decreases group.len() - index,
    {
        proof {
            lemma_weight_sum_nonneg(group@, index as int);
        }
        running = running.saturating_add(group[index].weight as u32);
        if running >= pick {
            return index;
        }
        index = index + 1;
    }
    index
}

/// The order in which RFC 2782's selection takes a group's records for a sequence of draws:
/// the first draw picks among all of them, each later draw among those still left.
pub open spec fn drawn_order(group: Seq<Srv>, picks: Seq<u32>) -> Seq<Srv>
    decreases group.len(),
{
    if group.len() == 0 {
        Seq::empty()
    } else {
        proof {
            lemma_pick_index_bounds(group, picks[0] as int, 0);
        }
        let i = pick_index(group, picks[0] as int, 0);
        seq![group[i]] + drawn_order(group.remove(i), picks.drop_first())
    }
}

/// Whether a sequence of draws is one the selection can make for a group: one draw per record,
/// each at most the total weight of the records still left when it is made.
pub open spec fn draws_fit(group: Seq<Srv>, picks: Seq<u32>) -> bool
    decreases group.len(),
{
    picks.len() == group.len() && (group.len() > 0 ==> {
        proof {
            lemma_pick_index_bounds(group, picks[0] as int, 0);
        }
        let i = pick_index(group, picks[0] as int, 0);
        picks[0] <= total_weight_spec(group) && draws_fit(group.remove(i), picks.drop_first())
    })
}

/// RFC 2782's selection within one priority: pick with probability proportional to weight,
/// repeatedly, until every record has been placed.
///
/// A weight of 0 is legal and means "only if nothing else is available", which falls out of the
/// arithmetic. Every record comes out exactly once, whatever the draws; the order is the one
/// that some sequence of draws in range gives.
pub fn weighted_shuffle<G: Rng + ?Sized>(group: Vec<Srv>, rng: &mut G) -> (r: Vec<Srv>)
    ensures
        r@.to_multiset() == group@.to_multiset(),
        r@.len() == group@.len(),
        exists|picks: Seq<u32>| draws_fit(group@, picks) && r@ == drawn_order(group@, picks),
    decreases group@.len(),
{
    if group.len() == 0 {
        proof {
            let none = Seq::<u32>::empty();
            assert(draws_fit(group@, none));
            assert(Seq::<Srv>::empty() =~= drawn_order(group@, none));
            assert(group@.to_multiset() =~= Multiset::empty());
        }
        return Vec::new();
    }
    let ghost before = group@;
    let mut group = group;
    let total = total_weight(&group);
    let pick = rng.below(total);
    let chosen = choose_index(&group, pick);
    let record = group.remove(chosen);
    let ghost left = group@;
    let mut rest = weighted_shuffle(group, rng);
    let ghost tail = rest@;
    let mut out: Vec<Srv> = Vec::new();
    out.push(record);
    out.append(&mut rest);
    proof {
        let p2 = choose|p: Seq<u32>| draws_fit(left, p) && tail == drawn_order(left, p);
        let picks = seq![pick] + p2;
        assert(picks.drop_first() =~= p2);
        assert(picks[0] == pick);
        assert(left == before.remove(chosen as int));
        assert(draws_fit(before, picks));
        assert(out@ =~= seq![record] + tail);
        assert(out@ == drawn_order(before, picks));
        assert(before.remove(chosen as int).to_multiset() == before.to_multiset().remove(record));
        assert(before.to_multiset().contains(record));
        vstd::seq_lib::lemma_multiset_commutative(seq![record], tail);
        assert(seq![record].to_multiset() =~= Multiset::singleton(record));
        assert(out@.to_multiset() =~= before.to_multiset());
    }
    out
}

/// Where the run of records sharing `s[0]`'s priority ends, looking from `n` on.
pub open spec fn run_end(s: Seq<Srv>, n: int) -> int
    decreases s.len() - n,
{
    if n >= s.len() || s[n].priority != s[0].priority {
        n
    } else {
        run_end(s, n + 1)
    }
}

/// The run at the front of a non-empty sequence is non-empty and ends inside it; every record
/// from `n` to its end shares the first record's priority, and the record after it does not.
pub proof fn lemma_run_end(s: Seq<Srv>, n: int)
    requires
        1 <= n <= s.len(),
    ensures
        n <= run_end(s, n) <= s.len(),
        forall|i: int| n <= i < run_end(s, n) ==> (#[trigger] s[i]).priority == s[0].priority,
        run_end(s, n) < s.len() ==> s[run_end(s, n)].priority != s[0].priority,
    decreases s.len() - n,
{
    if n < s.len() && s[n].priority == s[0].priority {
        lemma_run_end(s, n + 1);
    }
}

/// The order the selection gives records sorted by priority for a sequence of draws: each run
/// of equal priority in turn, ordered by its own draws.
pub open spec fn priority_draw_order(s: Seq<Srv>, picks: Seq<u32>) -> Seq<Srv>
    decreases s.len(),
{
    if s.len() == 0 {
        Seq::empty()
    } else {
        proof {
            lemma_run_end(s, 1);
        }
        let n = run_end(s, 1);
        drawn_order(s.take(n), picks.take(n)) + priority_draw_order(s.skip(n), picks.skip(n))
    }
}

/// Whether a sequence of draws is one the selection can make for records sorted by priority:
/// for each run of equal priority, draws that fit it.
pub open spec fn priority_draws_fit(s: Seq<Srv>, picks: Seq<u32>) -> bool
    decreases s.len(),
{
    picks.len() == s.len() && (s.len() > 0 ==> {
        proof {
            lemma_run_end(s, 1);
        }
        let n = run_end(s, 1);
        draws_fit(s.take(n), picks.take(n)) && priority_draws_fit(s.skip(n), picks.skip(n))
    })
}

/// Records already sorted by priority, each run of equal priority shuffled by RFC 2782's draws.
fn order_sorted<G: Rng + ?Sized>(rest: Vec<Srv>, rng: &mut G) -> (r: Vec<Srv>)
    requires
        sorted_by_key(rest@),
    ensures
        r@.to_multiset() == rest@.to_multiset(),
        r@.len() == rest@.len(),
        sorted_by_key(r@),
        exists|picks: Seq<u32>|
            priority_draws_fit(rest@, picks) && r@ == priority_draw_order(rest@, picks),
    decreases rest@.len(),
{
    if rest.len() == 0 {
        proof {
            let none = Seq::<u32>::empty();
            assert(priority_draws_fit(rest@, none));
            assert(Seq::<Srv>::empty() =~= priority_draw_order(rest@, none));
            assert(rest@.to_multiset() =~= Multiset::empty());
        }
        return Vec::new();
    }
    let priority = rest[0].priority;
    let mut n: usize = 1;
    while n < rest.len() && rest[n].priority == priority
        invariant
            1 <= n <= rest@.len(),
            rest@[0].priority == priority,
            forall|i: int| 0 <= i < n ==> (#[trigger] rest@[i]).priority == priority,
            run_end(rest@, 1) == run_end(rest@, n as int),
        decreases rest@.len() - n,
    {
        n = n + 1;
    }
    let ghost whole = rest@;
    proof {
        assert(run_end(whole, n as int) == n);
    }
    let mut rest = rest;
    let remainder = rest.split_off(n);
    let group = rest;
    proof {
        assert(whole =~= group@ + remainder@);
        assert(whole.take(n as int) =~= group@);
        assert(whole.skip(n as int) =~= remainder@);
        vstd::seq_lib::lemma_multiset_commutative(group@, remainder@);
        assert forall|j: int| 0 <= j < remainder@.len() implies (#[trigger] remainder@[j]).priority
            > priority by {
            assert(remainder@[j] == whole[n + j]);
            assert(whole[n as int].priority != priority);
            assert(whole[0].key_spec() <= whole[n as int].key_spec());
            assert(whole[n as int].key_spec() <= whole[n + j].key_spec());
        }
        assert forall|i: int, j: int| 0 <= i <= j < remainder@.len() implies remainder@[
            i
        ].key_spec() <= remainder@[j].key_spec() by {
            assert(remainder@[i] == whole[n + i]);
            assert(remainder@[j] == whole[n + j]);
        }
    }
    let ghost rem = remainder@;
    let ghost grp = group@;
    let mut shuffled = weighted_shuffle(group, rng);
    let mut later = order_sorted(remainder, rng);
    let ghost sh = shuffled@;
    let ghost lt = later@;
    shuffled.append(&mut later);
    proof {
        let out = shuffled@;
        assert(out =~= sh + lt);
        let pg = choose|p: Seq<u32>| draws_fit(grp, p) && sh == drawn_order(grp, p);
        let p3 = choose|p: Seq<u32>| priority_draws_fit(rem, p) && lt == priority_draw_order(rem, p);
        let picks = pg + p3;
        assert(picks.take(n as int) =~= pg);
        assert(picks.skip(n as int) =~= p3);
        assert(priority_draws_fit(whole, picks));
        assert(out == priority_draw_order(whole, picks));
        vstd::seq_lib::lemma_multiset_commutative(sh, lt);
        assert(out.to_multiset() =~= whole.to_multiset());
        assert forall|i: int| 0 <= i < sh.len() implies (#[trigger] sh[i]).priority == priority by {
            let x = sh[i];
            assert(sh.to_multiset().contains(x));
            assert(grp.to_multiset().contains(x));
            assert(grp.contains(x));
        }
        assert forall|j: int| 0 <= j < lt.len() implies (#[trigger] lt[j]).priority > priority by {
            let x = lt[j];
            assert(lt.to_multiset().contains(x));
            assert(rem.to_multiset().contains(x));
            assert(rem.contains(x));
        }
        assert forall|i: int, j: int| 0 <= i <= j < out.len() implies out[i].key_spec()
            <= out[j].key_spec() by {
            if j < sh.len() {
                assert(out[i] == sh[i]);
                assert(out[j] == sh[j]);
            } else if i < sh.len() {
                assert(out[i] == sh[i]);
                assert(out[j] == lt[j - sh.len()]);
            } else {
                assert(out[i] == lt[i - sh.len()]);
                assert(out[j] == lt[j - sh.len()]);
            }
        }
    }
    shuffled
}

/// Order SRV records: priority ascending, and within a priority the RFC 2782 weighted shuffle.
fn order_srv<G: Rng + ?Sized>(records: Vec<Srv>, rng: &mut G) -> (r: Vec<Srv>)
    ensures
        r@.to_multiset() == records@.to_multiset(),
        r@.len() == records@.len(),
        sorted_by_key(r@),
        exists|picks: Seq<u32>|
            priority_draws_fit(stable_sort(records@), picks) && r@ == priority_draw_order(
                stable_sort(records@),
                picks,
            ),
{
    proof {
        lemma_stable_sort(records@);
    }
    let sorted = sort_by_key(records);
    order_sorted(sorted, rng)
}

/// The two texts one after the other.
pub(crate) fn concat(a: &str, b: &str) -> (r: String)
    ensures
        r@ == a@ + b@,
{
    let mut out = a.to_owned();
    out.append(b);
    out
}

/// The conventional SRV prefix for a transport.
fn srv_prefix(transport: TransportKind) -> (r: &'static str)
    ensures
        r@ == spec_srv_prefix(transport),
{
    proof {
        reveal_strlit("_sip._udp.");
        reveal_strlit("_sip._tcp.");
        reveal_strlit("_sips._tcp.");
        reveal_strlit("_sip._ws.");
        reveal_strlit("_sips._wss.");
    }
    match transport {
        TransportKind::Udp => "_sip._udp.",
        TransportKind::Tcp => "_sip._tcp.",
        TransportKind::Tls => "_sips._tcp.",
        TransportKind::Ws => "_sip._ws.",
        TransportKind::Wss => "_sips._wss.",
    }
}

/// The SRV name for a transport in a domain.
pub(crate) fn srv_name(transport: TransportKind, domain: &str) -> (r: String)
    ensures
        r@ == spec_srv_prefix(transport) + domain@,
{
    concat(srv_prefix(transport), domain)
}

/// Whether `s`, upper-cased in ASCII, is `upper`.
fn eq_upper_exec(s: &str, upper: &str) -> (r: bool)
    ensures
        r == eq_upper(s@, upper@),
{
    let n = s.unicode_len();
    if n != upper.unicode_len() {
        return false;
    }
    let mut i: usize = 0;
    while i < n
        invariant
            n == s@.len(),
            n == upper@.len(),
            i <= n,
            forall|j: int| 0 <= j < i ==> upper_code(#[trigger] s@[j]) == upper@[j] as u32,
        decreases n - i,
    {
        let c = s.get_char(i) as u32;
        let u = upper.get_char(i) as u32;
        let folded = if 97 <= c && c <= 122 {
            c - 32
        } else {
            c
        };
        if folded != u {
            return false;
        }
        i = i + 1;
    }
    true
}

/// Map a NAPTR service field to a transport (RFC 3263 §4.1).
fn service_transport(service: &str) -> (r: Option<TransportKind>)
    ensures
        r == spec_service_transport(service@),
{
    proof {
        reveal_strlit("SIP+D2U");
        reveal_strlit("SIP+D2T");
        reveal_strlit("SIPS+D2T");
        reveal_strlit("SIP+D2W");
        reveal_strlit("SIPS+D2W");
    }
    if eq_upper_exec(service, "SIP+D2U") {
        Some(TransportKind::Udp)
    } else if eq_upper_exec(service, "SIP+D2T") {
        Some(TransportKind::Tcp)
    } else if eq_upper_exec(service, "SIPS+D2T") {
        Some(TransportKind::Tls)
    } else if eq_upper_exec(service, "SIP+D2W") {
        Some(TransportKind::Ws)
    } else if eq_upper_exec(service, "SIPS+D2W") {
        Some(TransportKind::Wss)
    } else {
        None
    }
}

/// Which transports a scheme permits.
fn permitted(secure: bool) -> (r: Vec<TransportKind>)
    ensures
        r@ == spec_permitted(secure),
{
    if secure {
        vec![TransportKind::Tls, TransportKind::Wss]
    } else {
        vec![
            TransportKind::Udp,
            TransportKind::Tcp,
            TransportKind::Tls,
            TransportKind::Ws,
            TransportKind::Wss,
        ]
    }
}

/// Whether a transport is among those permitted.
fn contains_transport(allowed: &Vec<TransportKind>, transport: TransportKind) -> (r: bool)
    ensures
        r == allowed@.contains(transport),
{
    let mut i: usize = 0;
    while i < allowed.len()
        invariant
            i <= allowed@.len(),
            forall|j: int| 0 <= j < i ==> allowed@[j] != transport,
        decreases allowed.len() - i,
    {
        if allowed[i] == transport {
            return true;
        }
        i = i + 1;
    }
    false
}

/// The transport a URI names explicitly, if any.
/// The transport a URI resolves over when nothing else chooses: the one it names, else TLS for
/// `sips:` and UDP for `sip:`.
fn default_transport_of(uri: &SipUri) -> (r: TransportKind)
    ensures
        r == spec_default_transport(*uri),
{
    match explicit_transport(uri) {
        Some(t) => t,
        None => if uri.secure {
            TransportKind::Tls
        } else {
            TransportKind::Udp
        },
    }
}

pub(crate) fn explicit_transport(uri: &SipUri) -> (r: Option<TransportKind>)
    ensures
        r == spec_explicit_transport(*uri),
{
    match &uri.transport {
        Some(t) => TransportKind::parse(t.as_slice()),
        None => None,
    }
}

/// The (transport, SRV name) pairs RFC 3263 §4.1 tries when a domain has no NAPTR records:
/// every permitted transport but the WebSocket ones, whose SRV names are not standardised.
pub open spec fn default_srv_names(allowed: Seq<TransportKind>, domain: Seq<char>) -> Seq<
    (TransportKind, Seq<char>),
>
    decreases allowed.len(),
{
    if allowed.len() == 0 {
        Seq::empty()
    } else {
        let rest = default_srv_names(allowed.drop_last(), domain);
        let t = allowed.last();
        if t is Ws || t is Wss {
            rest
        } else {
            rest.push((t, spec_srv_prefix(t) + domain))
        }
    }
}

/// The views of (transport, name) pairs.
pub open spec fn name_views(s: Seq<(TransportKind, String)>) -> Seq<(TransportKind, Seq<char>)> {
    s.map_values(|p: (TransportKind, String)| (p.0, p.1@))
}

fn default_transports(domain: &str, allowed: &Vec<TransportKind>) -> (r: Vec<(TransportKind, String)>)
    ensures
        name_views(r@) == default_srv_names(allowed@, domain@),
{
    let mut out: Vec<(TransportKind, String)> = Vec::new();
    let mut i: usize = 0;
    while i < allowed.len()
        invariant
            i <= allowed@.len(),
            name_views(out@) == default_srv_names(allowed@.take(i as int), domain@),
        decreases allowed.len() - i,
    {
        let t = allowed[i];
        proof {
            assert(allowed@.take(i + 1).drop_last() =~= allowed@.take(i as int));
            assert(allowed@.take(i + 1).last() == t);
        }
        match t {
            TransportKind::Ws | TransportKind::Wss => {},
            _ => {
                let name = srv_name(t, domain);
                let ghost before = out@;
                out.push((t, name));
                proof {
                    assert(name_views(out@) =~= name_views(before).push((t, name@)));
                }
            },
        }
        i = i + 1;
    }
    proof {
        assert(allowed@.take(allowed@.len() as int) =~= allowed@);
    }
    out
}

/// NAPTR records in order then preference, each naming a known transport turned into that
/// transport and the SRV name to look up next.
fn transports_from_naptr(records: Vec<Naptr>) -> (r: Vec<(TransportKind, String)>)
    ensures
        r@ == naptr_choices(stable_sort(records@)),
{
    let sorted = sort_by_key(records);
    let ghost all = sorted@;
    let mut rest = sorted;
    let mut out: Vec<(TransportKind, String)> = Vec::new();
    let ghost mut i: int = 0;
    while rest.len() > 0
        invariant
            0 <= i <= all.len(),
            rest@ == all.skip(i),
            out@ == naptr_choices(all.take(i)),
        decreases rest@.len(),
    {
        let record = rest.remove(0);
        proof {
            assert(all.take(i + 1).drop_last() =~= all.take(i));
            assert(all.take(i + 1).last() == record);
            assert(all.skip(i).remove(0) =~= all.skip(i + 1));
        }
        match service_transport(record.service.as_str()) {
            Some(t) => out.push((t, record.replacement)),
            None => {},
        }
        proof {
            i = i + 1;
        }
    }
    proof {
        assert(all.take(i) =~= all);
    }
    out
}

/// One candidate per address, all at one port over one transport.
pub open spec fn cands(ips: Seq<IpAddress>, port: u16, transport: TransportKind) -> Seq<Target> {
    ips.map_values(|ip: IpAddress| Target { addr: SocketAddress { ip, port }, transport, verify_as: None })
}

/// One candidate per address, all at one port over one transport.
fn candidates(ips: Vec<IpAddress>, port: u16, transport: TransportKind) -> (r: Vec<Target>)
    ensures
        r@ == cands(ips@, port, transport),
        r@.len() == ips@.len(),
        forall|i: int|
            0 <= i < ips@.len() ==> (#[trigger] r@[i]) == (Target {
                addr: SocketAddress { ip: ips@[i], port },
                transport,
                verify_as: None,
            }),
{
    let mut out: Vec<Target> = Vec::new();
    let mut i: usize = 0;
    while i < ips.len()
        invariant
            i <= ips@.len(),
            out@.len() == i,
            forall|j: int|
                0 <= j < i ==> (#[trigger] out@[j]) == (Target {
                    addr: SocketAddress { ip: ips@[j], port },
                    transport,
                    verify_as: None,
                }),
        decreases ips.len() - i,
    {
        out.push(Target::new(SocketAddress { ip: ips[i], port }, transport));
        i = i + 1;
    }
    proof {
        assert(out@ =~= cands(ips@, port, transport));
    }
    out
}

/// The (transport, SRV name) pairs a domain's resolution walks, in order: the URI's explicit
/// transport alone; else the NAPTR choices; else, with no NAPTR records, the conventional names.
pub open spec fn transport_list(uri: SipUri, naptr: Seq<Naptr>, domain: Seq<char>) -> Seq<
    (TransportKind, Seq<char>),
> {
    match spec_explicit_transport(uri) {
        Some(t) => seq![(t, spec_srv_prefix(t) + domain)],
        None => if naptr.len() == 0 {
            default_srv_names(spec_permitted(uri.secure), domain)
        } else {
            name_views(naptr_choices(stable_sort(naptr)))
        },
    }
}

/// Candidates for SRV records in order: each record's target's addresses, at the record's port.
pub open spec fn records_targets(
    addresses: Seq<(String, Vec<IpAddress>)>,
    records: Seq<Srv>,
    transport: TransportKind,
) -> Seq<Target>
    decreases records.len(),
{
    if records.len() == 0 {
        Seq::empty()
    } else {
        records_targets(addresses, records.drop_last(), transport) + cands(
            answers_for(addresses, records.last().target@, 0),
            records.last().port,
            transport,
        )
    }
}

/// Whether an ordering of one entry's SRV records is one the selection may produce: for a
/// permitted transport, its records sorted by priority, each run of equal priority in the order
/// that some RFC 2782 draws in range give; for any other, nothing.
pub open spec fn order_ok(
    entry: (TransportKind, Seq<char>),
    order: Seq<Srv>,
    srv: Seq<(String, Vec<Srv>)>,
    allowed: Seq<TransportKind>,
) -> bool {
    if allowed.contains(entry.0) {
        &&& order.to_multiset() == answers_for(srv, entry.1, 0).to_multiset()
        &&& sorted_by_key(order)
        &&& exists|picks: Seq<u32>|
            priority_draws_fit(stable_sort(answers_for(srv, entry.1, 0)), picks) && order
                == #[trigger] priority_draw_order(stable_sort(answers_for(srv, entry.1, 0)), picks)
    } else {
        order.len() == 0
    }
}

/// Whether every entry of the walk has an ordering the selection may produce.
pub open spec fn valid_orders(
    list: Seq<(TransportKind, Seq<char>)>,
    orders: Seq<Seq<Srv>>,
    srv: Seq<(String, Vec<Srv>)>,
    allowed: Seq<TransportKind>,
) -> bool {
    orders.len() == list.len() && forall|k: int|
        0 <= k < list.len() ==> order_ok(list[k], #[trigger] orders[k], srv, allowed)
}

/// Candidates for the first `n` entries of the walk, given each entry's ordering.
pub open spec fn expansion(
    list: Seq<(TransportKind, Seq<char>)>,
    orders: Seq<Seq<Srv>>,
    allowed: Seq<TransportKind>,
    addresses: Seq<(String, Vec<IpAddress>)>,
    n: int,
) -> Seq<Target>
    decreases n,
{
    if n <= 0 {
        Seq::empty()
    } else {
        expansion(list, orders, allowed, addresses, n - 1) + (if allowed.contains(list[n - 1].0) {
            records_targets(addresses, orders[n - 1], list[n - 1].0)
        } else {
            Seq::empty()
        })
    }
}

/// What a name without a port resolves to: the walk's candidates, or, when it yields none, the
/// name's own addresses at the default port (RFC 3263 §4.2's last resort).
pub open spec fn name_selection(
    uri: SipUri,
    list: Seq<(TransportKind, Seq<char>)>,
    orders: Seq<Seq<Srv>>,
    addresses: Seq<(String, Vec<IpAddress>)>,
    domain: Seq<char>,
) -> Seq<Target> {
    let walked = expansion(list, orders, spec_permitted(uri.secure), addresses, list.len() as int);
    if walked.len() > 0 {
        walked
    } else {
        cands(
            answers_for(addresses, domain, 0),
            spec_default_port(spec_default_transport(uri)),
            spec_default_transport(uri),
        )
    }
}

proof fn lemma_expansion_prefix(
    list: Seq<(TransportKind, Seq<char>)>,
    o1: Seq<Seq<Srv>>,
    o2: Seq<Seq<Srv>>,
    allowed: Seq<TransportKind>,
    addresses: Seq<(String, Vec<IpAddress>)>,
    n: int,
)
    requires
        forall|i: int| 0 <= i < n ==> o1[i] == o2[i],
    ensures
        expansion(list, o1, allowed, addresses, n) == expansion(list, o2, allowed, addresses, n),
    decreases n,
{
    if n > 0 {
        lemma_expansion_prefix(list, o1, o2, allowed, addresses, n - 1);
    }
}

fn transport_list_exec(uri: &SipUri, naptr: &Vec<Naptr>, domain: &str) -> (r: Vec<(TransportKind, String)>)
    ensures
        name_views(r@) == transport_list(*uri, naptr@, domain@),
{
    match explicit_transport(uri) {
        Some(t) => {
            let mut v: Vec<(TransportKind, String)> = Vec::new();
            let n = srv_name(t, domain);
            v.push((t, n));
            proof {
                assert(name_views(v@) =~= seq![(t, spec_srv_prefix(t) + domain@)]);
            }
            v
        },
        None => {
            if naptr.len() == 0 {
                default_transports(domain, &permitted(uri.secure))
            } else {
                let r = transports_from_naptr(clone_naptrs(naptr));
                r
            }
        },
    }
}

/// What RFC 3263 selection gives for a URI over answers in hand: nothing for a URI without a
/// host or one whose `sips:` names a cleartext transport; the one candidate an IP literal names,
/// at its port or the transport's default; for a name with a port, the name's addresses at that
/// port; otherwise the walk's candidates for some ordering of the SRV records that the RFC 2782
/// draws can give, or, when the walk yields none, the name's own addresses at the default port.
pub open spec fn selected(uri: SipUri, answers: Prefetched, r: Seq<Target>) -> bool {
    &&& (uri.host.is_none() || downgrade_refused(uri) ==> r.len() == 0)
    &&& (!downgrade_refused(uri) ==> (uri.host matches Some(Host::Ip(ip)) ==> r == seq![
        Target {
            addr: SocketAddress {
                ip,
                port: match uri.port {
                    Some(p) => p,
                    None => spec_default_port(spec_default_transport(uri)),
                },
            },
            transport: spec_default_transport(uri),
            verify_as: None,
        },
    ]))
    &&& (!downgrade_refused(uri) ==> (uri.host matches Some(Host::Name(d)) ==> (uri.port matches Some(
        p,
    ) ==> r == cands(answers_for(answers.addresses@, d@, 0), p, spec_default_transport(uri)))))
    &&& (!downgrade_refused(uri) ==> (uri.host matches Some(Host::Name(d)) ==> (uri.port is None
        ==> exists|orders: Seq<Seq<Srv>>|
        #[trigger] valid_orders(transport_list(uri, answers.naptr@, d@), orders, answers.srv@, spec_permitted(uri.secure))
            && r == name_selection(uri, transport_list(uri, answers.naptr@, d@), orders, answers.addresses@, d@))))
}

/// RFC 3263 selection over answers already in hand: the ordered candidates for a URI.
///
/// The same rules as [`resolve`], stated exactly: an IP literal is the one candidate; an explicit
/// port puts the name's addresses at that port; otherwise the walk visits each (transport, SRV
/// name) pair in turn, and for a permitted transport lists each SRV record's addresses at its
/// port, records in priority order and within a priority in the order the RFC 2782 draws give;
/// with nothing found, the name's own addresses at the default port.
pub fn select<G: Rng + ?Sized>(uri: &SipUri, answers: &Prefetched, rng: &mut G) -> (r: Vec<Target>)
    ensures
        selected(*uri, *answers, r@),
{
    let allowed = permitted(uri.secure);
    let explicit = explicit_transport(uri);
    let default_transport = match explicit {
        Some(t) => t,
        None => if uri.secure {
            TransportKind::Tls
        } else {
            TransportKind::Udp
        },
    };
    if uri.secure && !default_transport.is_secure() {
        return Vec::new();
    }
    let name: &String = match &uri.host {
        Some(Host::Ip(ip)) => {
            let port = match uri.port {
                Some(p) => p,
                None => default_transport.default_port(),
            };
            let only = Target::new(SocketAddress { ip: *ip, port }, default_transport);
            let mut out: Vec<Target> = Vec::new();
            out.push(only);
            proof {
                assert(out@ =~= seq![only]);
            }
            return out;
        },
        Some(Host::Name(name)) => name,
        None => {
            return Vec::new();
        },
    };
    let domain = name.as_str();
    if let Some(port) = uri.port {
        return candidates(find_answer_addresses(&answers.addresses, domain), port, default_transport);
    }
    let list = transport_list_exec(uri, &answers.naptr, domain);
    let ghost lv = name_views(list@);
    let mut targets: Vec<Target> = Vec::new();
    let ghost mut orders: Seq<Seq<Srv>> = Seq::empty();
    let mut k: usize = 0;
    while k < list.len()
        invariant
            k <= list@.len(),
            lv == name_views(list@),
            allowed@ == spec_permitted(uri.secure),
            orders.len() == k,
            forall|i: int| 0 <= i < k ==> order_ok(lv[i], #[trigger] orders[i], answers.srv@, allowed@),
            targets@ == expansion(lv, orders, allowed@, answers.addresses@, k as int),
        decreases list.len() - k,
    {
        let transport = list[k].0;
        proof {
            assert(lv[k as int] == (transport, list@[k as int].1@));
        }
        let ghost mut this_order: Seq<Srv> = Seq::empty();
        let ghost before = targets@;
        let ghost answer = answers_for(answers.srv@, list@[k as int].1@, 0);
        if contains_transport(&allowed, transport) {
            let records = find_answer_srv(&answers.srv, list[k].1.as_str());
            if records.len() > 0 {
                let ordered = order_srv(records, rng);
                proof {
                    this_order = ordered@;
                }
                let mut j: usize = 0;
                while j < ordered.len()
                    invariant
                        j <= ordered@.len(),
                        targets@ == before + records_targets(
                            answers.addresses@,
                            ordered@.take(j as int),
                            transport,
                        ),
                    decreases ordered.len() - j,
                {
                    let ips = find_answer_addresses(&answers.addresses, ordered[j].target.as_str());
                    let mut found = candidates(ips, ordered[j].port, transport);
                    let ghost t0 = targets@;
                    targets.append(&mut found);
                    proof {
                        assert(ordered@.take(j + 1).drop_last() =~= ordered@.take(j as int));
                        assert(ordered@.take(j + 1).last() == ordered@[j as int]);
                        assert(targets@ =~= before + records_targets(
                            answers.addresses@,
                            ordered@.take(j + 1),
                            transport,
                        ));
                    }
                    j = j + 1;
                }
                proof {
                    assert(ordered@.take(ordered@.len() as int) =~= ordered@);
                    assert(records@ == answer);
                    let picks = choose|picks: Seq<u32>|
                        priority_draws_fit(stable_sort(records@), picks) && ordered@
                            == priority_draw_order(stable_sort(records@), picks);
                    assert(this_order == priority_draw_order(stable_sort(answer), picks));
                    assert(allowed@.contains(lv[k as int].0));
                    assert(answers_for(answers.srv@, lv[k as int].1, 0) == answer);
                    assert(this_order.to_multiset() == answer.to_multiset());
                    assert(sorted_by_key(this_order));
                    assert(order_ok(lv[k as int], this_order, answers.srv@, allowed@));
                }
            } else {
                proof {
                    assert(records@ =~= Seq::<Srv>::empty());
                    assert(answer.to_multiset() =~= this_order.to_multiset());
                    let none = Seq::<u32>::empty();
                    assert(stable_sort(answer) =~= Seq::<Srv>::empty());
                    assert(priority_draws_fit(stable_sort(answer), none));
                    assert(this_order =~= priority_draw_order(stable_sort(answer), none));
                    assert(targets@ =~= before + records_targets(answers.addresses@, this_order, transport));
                    assert(allowed@.contains(lv[k as int].0));
                    assert(answers_for(answers.srv@, lv[k as int].1, 0) == answer);
                    assert(sorted_by_key(this_order));
                    assert(order_ok(lv[k as int], this_order, answers.srv@, allowed@));
                }
            }
        }
        proof {
            let next = orders.push(this_order);
            lemma_expansion_prefix(lv, orders, next, allowed@, answers.addresses@, k as int);
            assert(next[k as int] == this_order);
            if allowed@.contains(transport) {
                assert(targets@ =~= expansion(lv, next, allowed@, answers.addresses@, k + 1));
            } else {
                assert(targets@ =~= expansion(lv, next, allowed@, answers.addresses@, k + 1));
            }
            assert forall|i: int| 0 <= i < k + 1 implies order_ok(
                lv[i],
                #[trigger] next[i],
                answers.srv@,
                allowed@,
            ) by {
                if i < k {
                    assert(next[i] == orders[i]);
                } else {
                    assert(next[i] == this_order);
                }
            }
            orders = next;
        }
        k = k + 1;
    }
    proof {
        assert(valid_orders(lv, orders, answers.srv@, spec_permitted(uri.secure)));
    }
    if targets.len() > 0 {
        return targets;
    }
    candidates(
        find_answer_addresses(&answers.addresses, domain),
        default_transport.default_port(),
        default_transport,
    )
}

/// Every candidate unverified, over the URI's default transport or one its scheme permits.
pub open spec fn resolved_within(uri: SipUri, targets: Seq<Target>) -> bool {
    &&& downgrade_refused(uri) ==> targets.len() == 0
    &&& forall|i: int|
        0 <= i < targets.len() ==> (#[trigger] targets[i]).verify_as.is_none() && (
        targets[i].transport == spec_default_transport(uri) || spec_permitted(uri.secure).contains(
            targets[i].transport,
        ))
}

/// The names an SRV walk asks about: each permitted entry's name, in the walk's order.
pub open spec fn srv_names_asked(
    list: Seq<(TransportKind, Seq<char>)>,
    allowed: Seq<TransportKind>,
) -> Seq<Seq<char>>
    decreases list.len(),
{
    if list.len() == 0 {
        Seq::empty()
    } else {
        let rest = srv_names_asked(list.drop_last(), allowed);
        if allowed.contains(list.last().0) {
            rest.push(list.last().1)
        } else {
            rest
        }
    }
}

/// The targets of some SRV records, in order.
pub open spec fn record_targets(records: Seq<Srv>) -> Seq<Seq<char>> {
    records.map_values(|r: Srv| r.target@)
}

/// The hosts an SRV walk asks addresses of: every target of every answer, in order.
pub open spec fn targets_asked(srv: Seq<(String, Vec<Srv>)>) -> Seq<Seq<char>>
    decreases srv.len(),
{
    if srv.len() == 0 {
        Seq::empty()
    } else {
        targets_asked(srv.drop_last()) + record_targets(srv.last().1@)
    }
}

/// The names the entries of some answers are for, in order.
pub open spec fn srv_keys(srv: Seq<(String, Vec<Srv>)>) -> Seq<Seq<char>> {
    srv.map_values(|e: (String, Vec<Srv>)| e.0@)
}

/// The hosts the entries of some address answers are for, in order.
pub open spec fn address_keys(addresses: Seq<(String, Vec<IpAddress>)>) -> Seq<Seq<char>> {
    addresses.map_values(|e: (String, Vec<IpAddress>)| e.0@)
}

/// Whether every one of some address answers is empty.
pub open spec fn all_empty(addresses: Seq<(String, Vec<IpAddress>)>) -> bool {
    forall|i: int| 0 <= i < addresses.len() ==> (#[trigger] addresses[i]).1@.len() == 0
}

/// Whether `answers` holds what a resolver was asked for `uri`, whatever it answered: nothing
/// for a URI without a name; the name's addresses alone when a port is given; otherwise the
/// name's NAPTR records unless the URI names a transport, the SRV records of every permitted
/// name the walk visits, in order, the addresses of each of their targets, in order, and, when
/// none of those has an address, the name's own addresses last.
pub open spec fn gathered(uri: SipUri, answers: Prefetched) -> bool {
    match uri.host {
        Some(Host::Name(n)) => if uri.port is Some {
            &&& answers.naptr@.len() == 0
            &&& answers.srv@.len() == 0
            &&& address_keys(answers.addresses@) == seq![n@]
        } else {
            let walked = targets_asked(answers.srv@);
            let asked = answers.addresses@.take(walked.len() as int);
            &&& spec_explicit_transport(uri) is Some ==> answers.naptr@.len() == 0
            &&& srv_keys(answers.srv@) == srv_names_asked(
                transport_list(uri, answers.naptr@, n@),
                spec_permitted(uri.secure),
            )
            &&& address_keys(answers.addresses@) == (if all_empty(asked) {
                walked.push(n@)
            } else {
                walked
            })
        },
        _ => {
            &&& answers.naptr@.len() == 0
            &&& answers.srv@.len() == 0
            &&& answers.addresses@.len() == 0
        },
    }
}

/// Ask a resolver what the selection for a URI needs: the name's addresses when a port is
/// given; otherwise its NAPTR records unless the URI names a transport, the SRV records of every
/// permitted name the walk visits and the addresses of their targets, and, when none of those
/// yields an address, the name's own addresses.
fn gather<R: Resolver + ?Sized>(uri: &SipUri, resolver: &R) -> (r: Prefetched)
    ensures
        gathered(*uri, r),
{
    let mut answers = Prefetched::new();
    let name: &String = match &uri.host {
        Some(Host::Name(n)) => n,
        _ => {
            return answers;
        },
    };
    let domain = name.as_str();
    if uri.port.is_some() {
        let found = resolver.addresses(domain);
        answers.addresses.push((domain.to_owned(), found));
        proof {
            assert(address_keys(answers.addresses@) =~= seq![name@]);
        }
        return answers;
    }
    if explicit_transport(uri).is_none() {
        answers.naptr = resolver.naptr(domain);
    }
    let allowed = permitted(uri.secure);
    let list = transport_list_exec(uri, &answers.naptr, domain);
    let ghost lv = name_views(list@);
    let ghost naptr = answers.naptr@;
    let mut found_any = false;
    let mut k: usize = 0;
    proof {
        assert(lv.take(0) =~= Seq::<(TransportKind, Seq<char>)>::empty());
        assert(srv_keys(answers.srv@) =~= Seq::<Seq<char>>::empty());
        assert(address_keys(answers.addresses@) =~= Seq::<Seq<char>>::empty());
    }
    while k < list.len()
        invariant
            k <= list@.len(),
            lv == name_views(list@),
            lv == transport_list(*uri, naptr, domain@),
            answers.naptr@ == naptr,
            allowed@ == spec_permitted(uri.secure),
            srv_keys(answers.srv@) == srv_names_asked(lv.take(k as int), allowed@),
            address_keys(answers.addresses@) == targets_asked(answers.srv@),
            found_any == !all_empty(answers.addresses@),
        decreases list.len() - k,
    {
        proof {
            assert(lv.take(k + 1).drop_last() =~= lv.take(k as int));
            assert(lv[k as int] == (list@[k as int].0, list@[k as int].1@));
        }
        if contains_transport(&allowed, list[k].0) {
            let records = resolver.srv(list[k].1.as_str());
            let ghost srv_before = answers.srv@;
            let ghost before = answers.addresses@;
            let mut j: usize = 0;
            proof {
                assert(record_targets(records@.take(0)) =~= Seq::<Seq<char>>::empty());
                assert(targets_asked(srv_before) + Seq::<Seq<char>>::empty() =~= targets_asked(srv_before));
            }
            while j < records.len()
                invariant
                    j <= records@.len(),
                    answers.srv@ == srv_before,
                    answers.naptr@ == naptr,
                    address_keys(answers.addresses@) == targets_asked(srv_before) + record_targets(
                        records@.take(j as int),
                    ),
                    found_any == !all_empty(answers.addresses@),
                decreases records.len() - j,
            {
                let ips = resolver.addresses(records[j].target.as_str());
                if ips.len() > 0 {
                    found_any = true;
                }
                let ghost prev = answers.addresses@;
                answers.addresses.push((records[j].target.clone(), ips));
                proof {
                    let now = answers.addresses@;
                    assert(now =~= prev.push(now.last()));
                    assert(record_targets(records@.take(j + 1)) =~= record_targets(records@.take(j as int)).push(
                        records@[j as int].target@,
                    ));
                    assert(address_keys(now) =~= address_keys(prev).push(records@[j as int].target@));
                    if ips@.len() > 0 {
                        assert(now[now.len() - 1].1@.len() > 0);
                    } else {
                        assert forall|i: int| 0 <= i < now.len() implies (#[trigger] now[i]).1@.len()
                            == 0 <==> (i < prev.len() ==> prev[i].1@.len() == 0) by {
                            if i < prev.len() {
                                assert(now[i] == prev[i]);
                            }
                        }
                        if !all_empty(prev) {
                            let w = choose|i: int| 0 <= i < prev.len() && prev[i].1@.len() != 0;
                            assert(now[w] == prev[w]);
                        }
                    }
                }
                j = j + 1;
            }
            let ghost addr_now = answers.addresses@;
            answers.srv.push((list[k].1.clone(), records));
            proof {
                let sv = answers.srv@;
                assert(sv.drop_last() =~= srv_before);
                assert(records@.take(records@.len() as int) =~= records@);
                assert(srv_keys(sv) =~= srv_keys(srv_before).push(lv[k as int].1));
            }
        } else {
            proof {
                assert(!allowed@.contains(lv[k as int].0));
            }
        }
        k = k + 1;
    }
    proof {
        assert(lv.take(list@.len() as int) =~= lv);
    }
    let ghost walked_addresses = answers.addresses@;
    if !found_any {
        let found = resolver.addresses(domain);
        answers.addresses.push((domain.to_owned(), found));
        proof {
            let now = answers.addresses@;
            assert(now.take(walked_addresses.len() as int) =~= walked_addresses);
            assert(address_keys(now) =~= address_keys(walked_addresses).push(name@));
        }
    } else {
        proof {
            assert(walked_addresses.take(walked_addresses.len() as int) =~= walked_addresses);
        }
    }
    answers
}

proof fn lemma_cands_within(ips: Seq<IpAddress>, port: u16, transport: TransportKind)
    ensures
        forall|i: int|
            0 <= i < cands(ips, port, transport).len() ==> (#[trigger] cands(ips, port, transport)[i]).verify_as.is_none()
                && cands(ips, port, transport)[i].transport == transport && cands(ips, port, transport)[i].addr.port == port,
{
}

proof fn lemma_records_targets_within(
    addresses: Seq<(String, Vec<IpAddress>)>,
    records: Seq<Srv>,
    transport: TransportKind,
)
    ensures
        forall|i: int|
            0 <= i < records_targets(addresses, records, transport).len() ==> (#[trigger] records_targets(
                addresses,
                records,
                transport,
            )[i]).verify_as.is_none() && records_targets(addresses, records, transport)[i].transport
                == transport,
    decreases records.len(),
{
    if records.len() > 0 {
        lemma_records_targets_within(addresses, records.drop_last(), transport);
        let a = records_targets(addresses, records.drop_last(), transport);
        let b = cands(answers_for(addresses, records.last().target@, 0), records.last().port, transport);
        lemma_cands_within(answers_for(addresses, records.last().target@, 0), records.last().port, transport);
        assert forall|i: int| 0 <= i < (a + b).len() implies (#[trigger] (a + b)[i]).verify_as.is_none()
            && (a + b)[i].transport == transport by {
            if i < a.len() {
                assert((a + b)[i] == a[i]);
            } else {
                assert((a + b)[i] == b[i - a.len()]);
            }
        }
    }
}

proof fn lemma_expansion_within(
    list: Seq<(TransportKind, Seq<char>)>,
    orders: Seq<Seq<Srv>>,
    allowed: Seq<TransportKind>,
    addresses: Seq<(String, Vec<IpAddress>)>,
    n: int,
)
    ensures
        forall|i: int|
            0 <= i < expansion(list, orders, allowed, addresses, n).len() ==> (#[trigger] expansion(
                list,
                orders,
                allowed,
                addresses,
                n,
            )[i]).verify_as.is_none() && allowed.contains(
                expansion(list, orders, allowed, addresses, n)[i].transport,
            ),
    decreases n,
{
    if n > 0 {
        lemma_expansion_within(list, orders, allowed, addresses, n - 1);
        let a = expansion(list, orders, allowed, addresses, n - 1);
        let b = if allowed.contains(list[n - 1].0) {
            records_targets(addresses, orders[n - 1], list[n - 1].0)
        } else {
            Seq::empty()
        };
        lemma_records_targets_within(addresses, orders[n - 1], list[n - 1].0);
        assert forall|i: int| 0 <= i < (a + b).len() implies (#[trigger] (a + b)[i]).verify_as.is_none()
            && allowed.contains((a + b)[i].transport) by {
            if i < a.len() {
                assert((a + b)[i] == a[i]);
            } else {
                assert((a + b)[i] == b[i - a.len()]);
            }
        }
    }
}

/// Resolve a URI to an ordered list of candidates (RFC 3263 §4).
///
/// The list is tried in order; a transport failure moves to the next. An IP literal is the one
/// candidate, at the URI's port or the transport's default; a URI without a host has none; an
/// explicit port skips SRV and puts every address of the name at that port. Otherwise NAPTR (or,
/// without it, the conventional SRV names) chooses transports, SRV chooses hosts and ports in
/// priority order with RFC 2782's weighting, and the name's own addresses at the default port are
/// the last resort.
///
/// The resolver is asked what the selection needs, and [`select`] decides over its answers;
/// nothing is assumed of the answers, so what holds here holds whatever the resolver says.
pub fn resolve<R: Resolver + ?Sized, G: Rng + ?Sized>(
    uri: &SipUri,
    resolver: &R,
    rng: &mut G,
) -> (r: Vec<Target>)
    ensures
        resolved_within(*uri, r@),
        uri.secure ==> forall|i: int| 0 <= i < r@.len() ==> spec_is_secure(#[trigger] r@[i].transport),
        uri.host.is_none() || downgrade_refused(*uri) ==> r@.len() == 0,
        !downgrade_refused(*uri) ==> (uri.host matches Some(Host::Ip(ip)) ==> r@ == seq![
            Target {
                addr: SocketAddress {
                    ip,
                    port: match uri.port {
                        Some(p) => p,
                        None => spec_default_port(spec_default_transport(*uri)),
                    },
                },
                transport: spec_default_transport(*uri),
                verify_as: None,
            },
        ]),
        !downgrade_refused(*uri) ==> (uri.host matches Some(Host::Name(_)) && uri.port is Some
            ==> forall|i: int|
            0 <= i < r@.len() ==> (#[trigger] r@[i]).addr.port == uri.port.unwrap()
                && r@[i].transport == spec_default_transport(*uri)),
{
    if uri.secure && !default_transport_of(uri).is_secure() {
        return Vec::new();
    }
    let answers = gather(uri, resolver);
    let r = select(uri, &answers, rng);
    proof {
        lemma_selected_within(*uri, answers, r@);
    }
    proof {
        if uri.secure {
            sips_never_downgrades(*uri, r@);
        }
    }
    r
}

/// What selection gives is resolved within the URI's bounds: nothing for a refused downgrade,
/// and every candidate unverified, over the URI's default transport or one its scheme permits.
pub proof fn lemma_selected_within(uri: SipUri, answers: Prefetched, r: Seq<Target>)
    requires
        selected(uri, answers, r),
    ensures
        resolved_within(uri, r),
{
    if uri.host is Some && uri.host.unwrap() is Name {
        let d = uri.host.unwrap()->Name_0;
        if uri.port is None {
            let list = transport_list(uri, answers.naptr@, d@);
            let orders = choose|orders: Seq<Seq<Srv>>|
                #[trigger] valid_orders(list, orders, answers.srv@, spec_permitted(uri.secure))
                    && r == name_selection(uri, list, orders, answers.addresses@, d@);
            lemma_expansion_within(
                list,
                orders,
                spec_permitted(uri.secure),
                answers.addresses@,
                list.len() as int,
            );
            lemma_cands_within(
                answers_for(answers.addresses@, d@, 0),
                spec_default_port(spec_default_transport(uri)),
                spec_default_transport(uri),
            );
        } else {
            lemma_cands_within(
                answers_for(answers.addresses@, d@, 0),
                uri.port.unwrap(),
                spec_default_transport(uri),
            );
        }
    }
}

/// A `sips:` URI never resolves to a cleartext candidate: falling back to UDP because TLS was
/// unavailable, or because the URI named a cleartext transport, would silently downgrade exactly
/// what the scheme asked for.
pub proof fn sips_never_downgrades(uri: SipUri, targets: Seq<Target>)
    requires
        resolved_within(uri, targets),
        uri.secure,
    ensures
        forall|i: int| 0 <= i < targets.len() ==> spec_is_secure(#[trigger] targets[i].transport),
{
    assert forall|i: int| 0 <= i < targets.len() implies spec_is_secure(
        #[trigger] targets[i].transport,
    ) by {
        let t = targets[i].transport;
        if spec_permitted(true).contains(t) {
            let j = choose|j: int| 0 <= j < 2 && spec_permitted(true)[j] == t;
            assert(j == 0 || j == 1);
        }
    }
}

} // verus!
