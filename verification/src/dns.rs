//! What a DNS client behind the RFC 3263 [`crate::resolve::Resolver`] trait decides.
//!
//! Two things here are not plumbing. **A failure is not an empty answer:** "there is no such
//! record" is final and the next candidate should be tried; "the resolver did not respond" is
//! transient. Conflating them turns a DNS blip into a permanent routing failure, because the
//! negative gets cached. And **nothing may be held past its TTL**, because that points traffic at
//! a server that has moved.
//!
//! Times are milliseconds on a clock the caller supplies.

use vstd::prelude::*;
use vstd::string::StrSliceExecFns;
use crate::addr::IpAddress;
use crate::resolve::{Naptr, Resolver, Srv, spec_srv_prefix, srv_name};
use crate::target::TransportKind;

verus! {

/// What a lookup produced. The distinction between "no records" and "could not ask" is the
/// whole reason this is not just a list.
#[derive(Debug, Clone, PartialEq, Eq)]
pub enum Answer<T> {
    /// The server answered, with these records — possibly none.
    Records(Vec<T>),
    /// The question could not be asked or answered. Not a statement about the name.
    Unavailable,
}

impl<T> Answer<T> {
    /// The records, treating an unavailable server as empty. Named rather than implicit, so the
    /// loss of information is visible at the call site.
    pub fn or_empty(self) -> (r: Vec<T>)
        ensures
            match self {
                Answer::Records(v) => r@ == v@,
                Answer::Unavailable => r@.len() == 0,
            },
    {
        match self {
            Answer::Records(records) => records,
            Answer::Unavailable => Vec::new(),
        }
    }
}

/// A failed lookup, as the DNS client reported it.
#[derive(Debug, Clone, Copy, PartialEq, Eq)]
pub struct LookupFailure {
    /// The client said no records were found.
    pub no_records: bool,
    /// The reply carried the zone's SOA record.
    pub soa: bool,
    /// The negative TTL the reply carried, in seconds.
    pub negative_ttl: Option<u32>,
}

impl LookupFailure {
    /// Whether a server genuinely answered that there is no such record (RFC 2308).
    ///
    /// The client reports an unreachable nameserver with the same shape as a real negative
    /// answer; what tells them apart is that a genuine one carries the zone's SOA or a negative
    /// TTL, because that is what says how long to cache it. This errs toward "could not ask".
    pub open spec fn answered_spec(self) -> bool {
        self.no_records && (self.soa || self.negative_ttl.is_some())
    }

    /// Whether a server genuinely answered that there is no such record.
    pub fn answered(&self) -> (r: bool)
        ensures
            r == self.answered_spec(),
    {
        self.no_records && (self.soa || self.negative_ttl.is_some())
    }

    /// The failure as an answer: no records, or unavailable.
    pub fn classify<T>(&self) -> (r: Answer<T>)
        ensures
            self.answered_spec() ==> (r matches Answer::Records(v) && v@.len() == 0),
            !self.answered_spec() ==> r is Unavailable,
    {
        if self.answered() {
            Answer::Records(Vec::new())
        } else {
            Answer::Unavailable
        }
    }

    /// How long, in seconds, a negative answer may be remembered (RFC 2308 §5): the zone's own
    /// negative TTL, or 30 seconds without one, never longer than `max`.
    pub open spec fn negative_ttl_spec(self, max: u64) -> u64 {
        let ttl: u64 = if self.no_records && self.negative_ttl.is_some() {
            self.negative_ttl.unwrap() as u64
        } else {
            30
        };
        if ttl < max {
            ttl
        } else {
            max
        }
    }

    /// How long, in seconds, a negative answer may be remembered.
    pub fn negative_ttl(&self, max: u64) -> (r: u64)
        ensures
            r == self.negative_ttl_spec(max),
    {
        let ttl: u64 = match (self.no_records, self.negative_ttl) {
            (true, Some(t)) => t as u64,
            _ => 30,
        };
        if ttl < max {
            ttl
        } else {
            max
        }
    }
}

/// The smallest of some TTLs, if there are any.
pub open spec fn min_ttl(ttls: Seq<u32>) -> Option<u32>
    decreases ttls.len(),
{
    if ttls.len() == 0 {
        None
    } else {
        match min_ttl(ttls.drop_last()) {
            None => Some(ttls.last()),
            Some(m) => Some(if ttls.last() < m {
                ttls.last()
            } else {
                m
            }),
        }
    }
}

/// How long, in seconds, a set of records may be held: its shortest TTL, capped at `max`, or
/// `max` for no records at all.
pub open spec fn shortest_ttl_spec(ttls: Seq<u32>, max: u64) -> u64 {
    match min_ttl(ttls) {
        None => max,
        Some(t) => if (t as u64) < max {
            t as u64
        } else {
            max
        },
    }
}

/// The shortest TTL in a set, which is how long the whole set may be held.
///
/// The shortest rather than the longest: holding a record past its TTL is the failure mode that
/// matters, because it points traffic at a server that has moved.
pub fn shortest_ttl(ttls: &[u32], max: u64) -> (r: u64)
    ensures
        r == shortest_ttl_spec(ttls@, max),
        r <= max,
        forall|i: int| 0 <= i < ttls@.len() ==> r <= ttls@[i],
{
    let mut least: Option<u32> = None;
    let mut i: usize = 0;
    while i < ttls.len()
        invariant
            i <= ttls@.len(),
            least == min_ttl(ttls@.take(i as int)),
            least is None <==> i == 0,
            least matches Some(m) ==> forall|j: int| 0 <= j < i ==> m <= ttls@[j],
        decreases ttls.len() - i,
    {
        proof {
            assert(ttls@.take(i + 1).drop_last() =~= ttls@.take(i as int));
            assert(ttls@.take(i + 1).last() == ttls@[i as int]);
        }
        least = match least {
            None => Some(ttls[i]),
            Some(m) => Some(if ttls[i] < m {
                ttls[i]
            } else {
                m
            }),
        };
        i = i + 1;
    }
    proof {
        assert(ttls@.take(i as int) =~= ttls@);
    }
    match least {
        None => max,
        Some(t) => if (t as u64) < max {
            t as u64
        } else {
            max
        },
    }
}

/// Both address families as one answer (RFC 7984 §3.1: a dual-stack client asks for both).
///
/// IPv4 first, then IPv6. A family that could not be asked is left out when the other produced
/// addresses; with nothing produced and a family unavailable, the whole is unavailable.
pub fn combine_addresses(v6: Answer<IpAddress>, v4: Answer<IpAddress>) -> (r: Answer<IpAddress>)
    ensures
        match (v6, v4) {
            (Answer::Records(a), Answer::Records(b)) => r matches Answer::Records(x) && x@ == b@ + a@,
            (Answer::Records(a), Answer::Unavailable) => if a@.len() > 0 {
                r matches Answer::Records(x) && x@ == a@
            } else {
                r is Unavailable
            },
            (Answer::Unavailable, Answer::Records(b)) => if b@.len() > 0 {
                r matches Answer::Records(x) && x@ == b@
            } else {
                r is Unavailable
            },
            (Answer::Unavailable, Answer::Unavailable) => r is Unavailable,
        },
{
    match (v6, v4) {
        (Answer::Records(v6), Answer::Records(v4)) => {
            let mut out = v4;
            let mut rest = v6;
            out.append(&mut rest);
            Answer::Records(out)
        },
        (Answer::Records(records), Answer::Unavailable) | (Answer::Unavailable, Answer::Records(
            records,
        )) => {
            if records.len() > 0 {
                Answer::Records(records)
            } else {
                Answer::Unavailable
            }
        },
        (Answer::Unavailable, Answer::Unavailable) => Answer::Unavailable,
    }
}

/// What a lookup's outcome means, and how long, in seconds, to remember it.
///
/// Records are held for their shortest TTL; a genuine negative answer (RFC 2308) for the zone's
/// negative TTL, as no records; and a failure to ask is never remembered, because remembering a
/// network blip as a routing decision keeps a domain unreachable after it came back. Every
/// period is capped at `max`.
pub fn settle<T>(outcome: Result<(Vec<T>, Vec<u32>), LookupFailure>, max: u64) -> (r: (
    Answer<T>,
    Option<u64>,
))
    ensures
        match outcome {
            Ok((records, ttls)) => (r.0 matches Answer::Records(v) && v@ == records@) && r.1 == Some(
                shortest_ttl_spec(ttls@, max),
            ),
            Err(failure) => if failure.answered_spec() {
                (r.0 matches Answer::Records(v) && v@.len() == 0) && r.1 == Some(
                    failure.negative_ttl_spec(max),
                )
            } else {
                r.0 is Unavailable && r.1 is None
            },
        },
{
    match outcome {
        Ok((records, ttls)) => {
            let ttl = shortest_ttl(ttls.as_slice(), max);
            (Answer::Records(records), Some(ttl))
        },
        Err(failure) => {
            if failure.answered() {
                (Answer::Records(Vec::new()), Some(failure.negative_ttl(max)))
            } else {
                (Answer::Unavailable, None)
            }
        },
    }
}

/// DNS names are absolute and end in a dot; the rest of the stack works in the relative form the
/// URI used.
pub open spec fn strip_root_spec(name: Seq<char>) -> Seq<char> {
    if name.len() > 0 && name.last() == '.' {
        name.drop_last()
    } else {
        name
    }
}

/// A DNS name without its root dot.
pub fn strip_root(name: &str) -> (r: String)
    ensures
        r@ == strip_root_spec(name@),
{
    let n = name.unicode_len();
    if n > 0 && name.get_char(n - 1) == '.' {
        name.substring_char(0, n - 1).to_owned()
    } else {
        name.to_owned()
    }
}

/// Lookup, record and candidate limits for one resolution.
#[derive(Debug, Clone, Copy, PartialEq, Eq)]
pub struct ResolutionLimits {
    /// Most DNS questions one resolution may ask.
    pub max_lookups: usize,
    /// Most NAPTR records one answer may carry.
    pub max_naptr_records: usize,
    /// Most SRV records one answer may carry.
    pub max_srv_records: usize,
    /// Most addresses one host may resolve to.
    pub max_addresses: usize,
}

/// DNS waiting policy paired with the selection limits.
#[derive(Debug, Clone, Copy, PartialEq, Eq)]
pub struct ResolutionPolicy {
    /// Lookup, record and candidate limits.
    pub limits: ResolutionLimits,
    /// Maximum wait for one DNS question, in nanoseconds.
    pub lookup_timeout_nanos: u64,
    /// Maximum wait for every DNS question and the selection together, in nanoseconds.
    pub resolution_timeout_nanos: u64,
}

/// Why resolution did not produce candidates.
#[derive(Debug, Clone, PartialEq, Eq)]
pub enum ResolutionError {
    /// A finite count was exceeded.
    LimitExceeded {
        /// Which limit.
        limit: &'static str,
        /// Its value.
        maximum: usize,
        /// What was observed.
        observed: usize,
    },
    /// A deadline cannot bound work.
    InvalidTimeout {
        /// The timeout field.
        field: &'static str,
    },
    /// A question produced no trustworthy positive or negative answer.
    LookupUnavailable {
        /// The exact question.
        query: String,
    },
    /// One question exceeded its deadline.
    LookupTimeout {
        /// The exact question.
        query: String,
    },
    /// The complete resolution exceeded its deadline.
    ResolutionTimeout,
}

impl ResolutionPolicy {
    /// A policy with these limits: two seconds for one question, eight for the whole resolution.
    pub fn new(limits: ResolutionLimits) -> (r: ResolutionPolicy)
        ensures
            r.limits == limits,
            r.lookup_timeout_nanos == 2_000_000_000,
            r.resolution_timeout_nanos == 8_000_000_000,
    {
        ResolutionPolicy {
            limits,
            lookup_timeout_nanos: 2_000_000_000,
            resolution_timeout_nanos: 8_000_000_000,
        }
    }

    /// Refuse a deadline that cannot bound work: a zero lookup timeout, then a zero resolution
    /// timeout.
    pub fn validate(&self) -> (r: Result<(), ResolutionError>)
        ensures
            self.lookup_timeout_nanos == 0 ==> (r matches Err(ResolutionError::InvalidTimeout { field })
                && field@ == "lookup_timeout"@),
            self.lookup_timeout_nanos != 0 && self.resolution_timeout_nanos == 0 ==> (r matches Err(
                ResolutionError::InvalidTimeout { field },
            ) && field@ == "resolution_timeout"@),
            self.lookup_timeout_nanos != 0 && self.resolution_timeout_nanos != 0 ==> r is Ok,
    {
        if self.lookup_timeout_nanos == 0 {
            return Err(ResolutionError::InvalidTimeout { field: "lookup_timeout" });
        }
        if self.resolution_timeout_nanos == 0 {
            return Err(ResolutionError::InvalidTimeout { field: "resolution_timeout" });
        }
        Ok(())
    }
}

/// Count `amount` more questions against the budget; refuse once it is exceeded.
pub fn claim_lookups(observed: &mut usize, amount: usize, limits: ResolutionLimits) -> (r: Result<
    (),
    ResolutionError,
>)
    ensures
        *final(observed) == (if *old(observed) + amount > usize::MAX {
            usize::MAX as int
        } else {
            *old(observed) + amount
        }),
        r is Ok <==> *final(observed) <= limits.max_lookups,
        r matches Err(ResolutionError::LimitExceeded { limit, maximum, observed: o }) ==> limit@
            == "lookups"@ && maximum == limits.max_lookups && o == *final(observed),
{
    *observed = observed.saturating_add(amount);
    if *observed > limits.max_lookups {
        return Err(
            ResolutionError::LimitExceeded {
                limit: "lookups",
                maximum: limits.max_lookups,
                observed: *observed,
            },
        );
    }
    Ok(())
}

/// Refuse an answer that carries more records than its limit allows.
pub fn check_record_count(limit: &'static str, observed: usize, maximum: usize) -> (r: Result<
    (),
    ResolutionError,
>)
    ensures
        r is Ok <==> observed <= maximum,
        r matches Err(ResolutionError::LimitExceeded { limit: l, maximum: m, observed: o }) ==> l
            == limit && m == maximum && o == observed,
{
    if observed > maximum {
        return Err(ResolutionError::LimitExceeded { limit, maximum, observed });
    }
    Ok(())
}

/// The DNS record types a resolution asks for.
#[derive(Debug, Clone, Copy, PartialEq, Eq, Hash, Structural)]
pub enum RecordType {
    /// IPv4 addresses.
    A,
    /// IPv6 addresses.
    Aaaa,
    /// NAPTR records.
    Naptr,
    /// SRV records.
    Srv,
}

/// The order record types break ties in when a full cache chooses what to evict.
pub open spec fn record_type_order(t: RecordType) -> u16 {
    match t {
        RecordType::A => 1,
        RecordType::Aaaa => 2,
        RecordType::Naptr => 3,
        RecordType::Srv => 4,
    }
}

fn record_type_rank(t: RecordType) -> (r: u16)
    ensures
        r == record_type_order(t),
{
    match t {
        RecordType::A => 1,
        RecordType::Aaaa => 2,
        RecordType::Naptr => 3,
        RecordType::Srv => 4,
    }
}

/// Records of one type, as the cache holds them.
#[derive(Debug, PartialEq, Eq)]
pub enum CachedRecords {
    /// NAPTR records.
    Naptr(Vec<Naptr>),
    /// SRV records.
    Srv(Vec<Srv>),
    /// Addresses.
    Addresses(Vec<IpAddress>),
}

pub(crate) fn clone_naptrs(v: &Vec<Naptr>) -> (r: Vec<Naptr>)
    ensures
        r@ == v@,
{
    let mut out: Vec<Naptr> = Vec::new();
    let mut i: usize = 0;
    while i < v.len()
        invariant
            i <= v@.len(),
            out@ == v@.take(i as int),
        decreases v.len() - i,
    {
        out.push(v[i].clone());
        proof {
            assert(v@.take(i + 1) =~= v@.take(i as int).push(v@[i as int]));
        }
        i = i + 1;
    }
    proof {
        assert(v@.take(i as int) =~= v@);
    }
    out
}

fn clone_srvs(v: &Vec<Srv>) -> (r: Vec<Srv>)
    ensures
        r@ == v@,
{
    let mut out: Vec<Srv> = Vec::new();
    let mut i: usize = 0;
    while i < v.len()
        invariant
            i <= v@.len(),
            out@ == v@.take(i as int),
        decreases v.len() - i,
    {
        out.push(v[i].clone());
        proof {
            assert(v@.take(i + 1) =~= v@.take(i as int).push(v@[i as int]));
        }
        i = i + 1;
    }
    proof {
        assert(v@.take(i as int) =~= v@);
    }
    out
}

fn clone_addresses(v: &Vec<IpAddress>) -> (r: Vec<IpAddress>)
    ensures
        r@ == v@,
{
    let mut out: Vec<IpAddress> = Vec::new();
    let mut i: usize = 0;
    while i < v.len()
        invariant
            i <= v@.len(),
            out@ == v@.take(i as int),
        decreases v.len() - i,
    {
        out.push(v[i]);
        proof {
            assert(v@.take(i + 1) =~= v@.take(i as int).push(v@[i as int]));
        }
        i = i + 1;
    }
    proof {
        assert(v@.take(i as int) =~= v@);
    }
    out
}

/// Whether two holdings carry the same records.
pub open spec fn same_records(a: CachedRecords, b: CachedRecords) -> bool {
    match (a, b) {
        (CachedRecords::Naptr(x), CachedRecords::Naptr(y)) => x@ == y@,
        (CachedRecords::Srv(x), CachedRecords::Srv(y)) => x@ == y@,
        (CachedRecords::Addresses(x), CachedRecords::Addresses(y)) => x@ == y@,
        _ => false,
    }
}

impl Clone for CachedRecords {
    fn clone(&self) -> (r: CachedRecords)
        ensures
            same_records(r, *self),
    {
        match self {
            CachedRecords::Naptr(v) => CachedRecords::Naptr(clone_naptrs(v)),
            CachedRecords::Srv(v) => CachedRecords::Srv(clone_srvs(v)),
            CachedRecords::Addresses(v) => CachedRecords::Addresses(clone_addresses(v)),
        }
    }
}

/// One cached answer.
#[derive(Debug)]
pub struct CacheEntry {
    /// The name asked about.
    pub name: String,
    /// The type asked for.
    pub record_type: RecordType,
    /// The answer, possibly no records at all.
    pub records: CachedRecords,
    /// When it stops being usable, in milliseconds.
    pub expires: u64,
    /// The cache's clock when it was last stored or served.
    pub last_used: u64,
}

/// Whether an entry answers a question.
pub open spec fn answers(e: CacheEntry, name: Seq<char>, t: RecordType) -> bool {
    e.name@ == name && e.record_type == t
}

/// The position of the entry that answers a question, searched from `i`.
pub open spec fn find_from(s: Seq<CacheEntry>, name: Seq<char>, t: RecordType, i: int) -> Option<int>
    decreases s.len() - i,
{
    if i < 0 || i >= s.len() {
        None
    } else if answers(s[i], name, t) {
        Some(i)
    } else {
        find_from(s, name, t, i + 1)
    }
}

/// The position of the entry that answers a question.
pub open spec fn find(s: Seq<CacheEntry>, name: Seq<char>, t: RecordType) -> Option<int> {
    find_from(s, name, t, 0)
}

/// Whether `a` sorts before `b` by code point, as strings do.
pub open spec fn lex_less(a: Seq<char>, b: Seq<char>) -> bool
    decreases a.len(),
{
    if a.len() == 0 {
        b.len() > 0
    } else if b.len() == 0 {
        false
    } else if (a[0] as u32) < (b[0] as u32) {
        true
    } else if (a[0] as u32) > (b[0] as u32) {
        false
    } else {
        lex_less(a.drop_first(), b.drop_first())
    }
}

/// Whether `a` is evicted before `b`: least recently used first, then by name, then by type.
pub open spec fn evicts_before(a: CacheEntry, b: CacheEntry) -> bool {
    a.last_used < b.last_used || (a.last_used == b.last_used && (lex_less(a.name@, b.name@) || (
    a.name@ == b.name@ && record_type_order(a.record_type) < record_type_order(b.record_type))))
}

/// The position of the entry to evict, scanning from `i` with `best` the choice so far.
pub open spec fn victim_from(s: Seq<CacheEntry>, i: int, best: int) -> int
    decreases s.len() - i,
{
    if i < 0 || i >= s.len() {
        best
    } else if evicts_before(s[i], s[best]) {
        victim_from(s, i + 1, i)
    } else {
        victim_from(s, i + 1, best)
    }
}

/// The entries still usable at `now`, in their order.
pub open spec fn unexpired(s: Seq<CacheEntry>, now: u64) -> Seq<CacheEntry>
    decreases s.len(),
{
    if s.len() == 0 {
        s
    } else {
        let u = unexpired(s.drop_last(), now);
        if s.last().expires > now {
            u.push(s.last())
        } else {
            u
        }
    }
}

proof fn lemma_unexpired(s: Seq<CacheEntry>, now: u64)
    ensures
        unexpired(s, now).len() <= s.len(),
        forall|k: int| 0 <= k < unexpired(s, now).len() ==> s.contains(#[trigger] unexpired(s, now)[k]),
        forall|k: int| 0 <= k < unexpired(s, now).len() ==> (#[trigger] unexpired(s, now)[k]).expires > now,
        distinct_questions(s) ==> distinct_questions(unexpired(s, now)),
    decreases s.len(),
{
    if s.len() > 0 {
        let p = s.drop_last();
        lemma_unexpired(p, now);
        let u = unexpired(p, now);
        assert forall|k: int| 0 <= k < u.len() implies s.contains(#[trigger] u[k]) by {
            assert(p.contains(u[k]));
            let i = choose|i: int| 0 <= i < p.len() && p[i] == u[k];
            assert(s[i] == u[k]);
        }
        if s.last().expires > now {
            let x = s.last();
            let v = u.push(x);
            assert forall|k: int| 0 <= k < v.len() implies s.contains(#[trigger] v[k]) by {
                if k < u.len() {
                    assert(v[k] == u[k]);
                } else {
                    assert(s[s.len() - 1] == x);
                }
            }
            if distinct_questions(s) {
                assert(distinct_questions(p)) by {
                    assert forall|i: int, j: int| 0 <= i < j < p.len() implies !answers(
                        #[trigger] p[j],
                        (#[trigger] p[i]).name@,
                        p[i].record_type,
                    ) by {
                        assert(p[i] == s[i] && p[j] == s[j]);
                    }
                }
                assert forall|i: int, j: int| 0 <= i < j < v.len() implies !answers(
                    #[trigger] v[j],
                    (#[trigger] v[i]).name@,
                    v[i].record_type,
                ) by {
                    if j < u.len() {
                        assert(v[i] == u[i] && v[j] == u[j]);
                    } else {
                        assert(v[j] == x);
                        assert(v[i] == u[i]);
                        assert(p.contains(u[i]));
                        let m = choose|m: int| 0 <= m < p.len() && p[m] == u[i];
                        assert(s[m] == u[i]);
                        assert(s[s.len() - 1] == x);
                        assert(!answers(s[s.len() - 1], s[m].name@, s[m].record_type));
                    }
                }
            }
        } else {
            if distinct_questions(s) {
                assert(distinct_questions(p)) by {
                    assert forall|i: int, j: int| 0 <= i < j < p.len() implies !answers(
                        #[trigger] p[j],
                        (#[trigger] p[i]).name@,
                        p[i].record_type,
                    ) by {
                        assert(p[i] == s[i] && p[j] == s[j]);
                    }
                }
            }
        }
    }
}

/// `a + b`, or `u64::MAX` where that would overflow.
pub open spec fn sat_add64(a: u64, b: u64) -> u64 {
    if a + b > u64::MAX {
        u64::MAX
    } else {
        (a + b) as u64
    }
}

/// A TTL-respecting cache of DNS answers, bounded in size.
///
/// Positive and negative answers alike are held until they expire; an expired entry is never
/// served. When full, the least recently used entry makes room.
#[derive(Debug)]
pub struct DnsCache {
    entries: Vec<CacheEntry>,
    capacity: usize,
    clock: u64,
}

/// Whether no two entries answer the same question.
pub open spec fn distinct_questions(s: Seq<CacheEntry>) -> bool {
    forall|i: int, j: int|
        0 <= i < j < s.len() ==> !answers(#[trigger] s[j], (#[trigger] s[i]).name@, s[i].record_type)
}

impl DnsCache {
    /// The entries, in the order they were first stored.
    pub closed spec fn entries(&self) -> Seq<CacheEntry> {
        self.entries@
    }

    /// The most entries the cache holds; zero disables it.
    pub closed spec fn capacity_spec(&self) -> usize {
        self.capacity
    }

    /// The use clock.
    pub closed spec fn clock(&self) -> u64 {
        self.clock
    }

    /// The cache's invariant: within capacity, and one entry per question.
    #[verifier::type_invariant]
    pub open spec fn wf(&self) -> bool {
        self.entries().len() <= self.capacity_spec() && distinct_questions(self.entries())
    }

    /// An empty cache holding at most `capacity` entries.
    pub fn new(capacity: usize) -> (c: DnsCache)
        ensures
            c.entries().len() == 0,
            c.capacity_spec() == capacity,
            c.clock() == 0,
    {
        DnsCache { entries: Vec::new(), capacity, clock: 0 }
    }

    fn position(&self, name: &str, record_type: RecordType) -> (r: Option<usize>)
        ensures
            match find(self.entries(), name@, record_type) {
                Some(i) => r == Some(i as usize) && 0 <= i < self.entries().len(),
                None => r is None,
            },
    {
        let mut i: usize = 0;
        while i < self.entries.len()
            invariant
                i <= self.entries@.len(),
                find(self.entries@, name@, record_type) == find_from(
                    self.entries@,
                    name@,
                    record_type,
                    i as int,
                ),
            decreases self.entries.len() - i,
        {
            let e = &self.entries[i];
            if e.record_type == record_type && e.name.as_str().unicode_len() == name.unicode_len()
                && str_eq(e.name.as_str(), name) {
                return Some(i);
            }
            i = i + 1;
        }
        None
    }
}

/// Whether two strings hold the same characters.
fn str_eq(a: &str, b: &str) -> (r: bool)
    ensures
        r == (a@ == b@),
{
    let n = a.unicode_len();
    if n != b.unicode_len() {
        return false;
    }
    let mut i: usize = 0;
    while i < n
        invariant
            n == a@.len(),
            n == b@.len(),
            i <= n,
            forall|j: int| 0 <= j < i ==> a@[j] == b@[j],
        decreases n - i,
    {
        if a.get_char(i) != b.get_char(i) {
            return false;
        }
        i = i + 1;
    }
    proof {
        assert(a@ =~= b@);
    }
    true
}

/// Whether `a` sorts before `b` by code point.
fn str_less(a: &str, b: &str) -> (r: bool)
    ensures
        r == lex_less(a@, b@),
{
    let n = a.unicode_len();
    let m = b.unicode_len();
    let mut i: usize = 0;
    proof {
        assert(a@.skip(0) =~= a@);
        assert(b@.skip(0) =~= b@);
    }
    while i < n && i < m
        invariant
            n == a@.len(),
            m == b@.len(),
            i <= n,
            i <= m,
            lex_less(a@, b@) == lex_less(a@.skip(i as int), b@.skip(i as int)),
        decreases n - i,
    {
        let x = a.get_char(i) as u32;
        let y = b.get_char(i) as u32;
        proof {
            assert(a@.skip(i as int)[0] == a@[i as int]);
            assert(b@.skip(i as int)[0] == b@[i as int]);
            assert(a@.skip(i as int).drop_first() =~= a@.skip(i + 1));
            assert(b@.skip(i as int).drop_first() =~= b@.skip(i + 1));
        }
        if x < y {
            return true;
        }
        if x > y {
            return false;
        }
        i = i + 1;
    }
    i == n && i < m
}

fn evicts_before_exec(a: &CacheEntry, b: &CacheEntry) -> (r: bool)
    ensures
        r == evicts_before(*a, *b),
{
    if a.last_used != b.last_used {
        return a.last_used < b.last_used;
    }
    if str_less(a.name.as_str(), b.name.as_str()) {
        return true;
    }
    if !str_eq(a.name.as_str(), b.name.as_str()) {
        return false;
    }
    record_type_rank(a.record_type) < record_type_rank(b.record_type)
}

proof fn lemma_victim_from(s: Seq<CacheEntry>, i: int, best: int)
    requires
        0 <= best < s.len(),
        0 <= i,
    ensures
        0 <= victim_from(s, i, best) < s.len(),
    decreases s.len() - i,
{
    if i < s.len() {
        if evicts_before(s[i], s[best]) {
            lemma_victim_from(s, i + 1, i);
        } else {
            lemma_victim_from(s, i + 1, best);
        }
    }
}

/// Whether `s` answers the same question at most once, and within its capacity.
proof fn lemma_distinct_remove(s: Seq<CacheEntry>, k: int)
    requires
        distinct_questions(s),
        0 <= k < s.len(),
    ensures
        distinct_questions(s.remove(k)),
        forall|name: Seq<char>, t: RecordType|
            find(s.remove(k), name, t) is None <== find(s, name, t) is None,
{
    let r = s.remove(k);
    assert forall|i: int, j: int| 0 <= i < j < r.len() implies !answers(
        #[trigger] r[j],
        (#[trigger] r[i]).name@,
        r[i].record_type,
    ) by {
        let i2 = if i < k {
            i
        } else {
            i + 1
        };
        let j2 = if j < k {
            j
        } else {
            j + 1
        };
        assert(r[i] == s[i2] && r[j] == s[j2]);
    }
    assert forall|name: Seq<char>, t: RecordType| find(s, name, t) is None implies find(
        s.remove(k),
        name,
        t,
    ) is None by {
        lemma_find_none(s, name, t, 0);
        if find(r, name, t) is Some {
            lemma_find_some(r, name, t, 0);
            let m = find(r, name, t).unwrap();
            let m2 = if m < k {
                m
            } else {
                m + 1
            };
            assert(r[m] == s[m2]);
        }
    }
}

proof fn lemma_find_none(s: Seq<CacheEntry>, name: Seq<char>, t: RecordType, i: int)
    requires
        0 <= i,
        find_from(s, name, t, i) is None,
    ensures
        forall|k: int| i <= k < s.len() ==> !answers(#[trigger] s[k], name, t),
    decreases s.len() - i,
{
    if i < s.len() {
        lemma_find_none(s, name, t, i + 1);
    }
}

proof fn lemma_find_some(s: Seq<CacheEntry>, name: Seq<char>, t: RecordType, i: int)
    requires
        0 <= i,
        find_from(s, name, t, i) is Some,
    ensures
        i <= find_from(s, name, t, i).unwrap() < s.len(),
        answers(s[find_from(s, name, t, i).unwrap()], name, t),
    decreases s.len() - i,
{
    if i < s.len() && !answers(s[i], name, t) {
        lemma_find_some(s, name, t, i + 1);
    }
}

proof fn lemma_find_all(s: Seq<CacheEntry>, name: Seq<char>, t: RecordType)
    ensures
        find(s, name, t) is None <==> forall|k: int| 0 <= k < s.len() ==> !answers(
            #[trigger] s[k],
            name,
            t,
        ),
        find(s, name, t) matches Some(i) ==> 0 <= i < s.len() && answers(s[i], name, t),
{
    if find(s, name, t) is None {
        lemma_find_none(s, name, t, 0);
    } else {
        lemma_find_some(s, name, t, 0);
    }
}

/// The entries once room has been made for a question: the unexpired ones, less the one to
/// evict when the question is new and the cache is full.
pub open spec fn with_room(s: Seq<CacheEntry>, name: Seq<char>, t: RecordType, capacity: usize) -> Seq<
    CacheEntry,
> {
    if find(s, name, t) is None && s.len() >= capacity && s.len() > 0 {
        s.remove(victim_from(s, 1, 0))
    } else {
        s
    }
}

/// The entries after an answer is stored: replacing the old answer to the same question where
/// there is one, appended otherwise.
pub open spec fn stored(s: Seq<CacheEntry>, e: CacheEntry) -> Seq<CacheEntry> {
    match find(s, e.name@, e.record_type) {
        Some(i) => s.update(i, e),
        None => s.push(e),
    }
}

impl DnsCache {
    /// The cached answer to a question, if one is held and has not expired.
    ///
    /// An expired entry is dropped and never served; a served entry becomes the most recently
    /// used.
    pub fn lookup(&mut self, name: &str, record_type: RecordType, now: u64) -> (r: Option<
        CachedRecords,
    >)
        ensures
            final(self).capacity_spec() == old(self).capacity_spec(),
            match find(old(self).entries(), name@, record_type) {
                None => r is None && final(self).entries() == old(self).entries() && final(self).clock()
                    == old(self).clock(),
                Some(i) => if old(self).entries()[i].expires <= now {
                    r is None && final(self).entries() == old(self).entries().remove(i)
                        && final(self).clock() == old(self).clock()
                } else {
                    &&& r matches Some(x) && same_records(x, old(self).entries()[i].records)
                    &&& final(self).clock() == sat_add64(old(self).clock(), 1)
                    &&& final(self).entries() == old(self).entries().update(
                        i,
                        CacheEntry { last_used: final(self).clock(), ..old(self).entries()[i] },
                    )
                },
            },
    {
        proof {
            use_type_invariant(&*self);
        }
        let found = self.position(name, record_type);
        match found {
            None => None,
            Some(i) => {
                let ghost before = self.entries@;
                proof {
                    lemma_find_all(before, name@, record_type);
                }
                let mut entries: Vec<CacheEntry> = Vec::new();
                std::mem::swap(&mut entries, &mut self.entries);
                if entries[i].expires <= now {
                    entries.remove(i);
                    proof {
                        lemma_distinct_remove(before, i as int);
                    }
                    self.entries = entries;
                    None
                } else {
                    self.clock = self.clock.saturating_add(1);
                    let mut entry = entries.remove(i);
                    entry.last_used = self.clock;
                    let records = entry.records.clone();
                    entries.insert(i, entry);
                    proof {
                        let after = entries@;
                        assert(after =~= before.update(
                            i as int,
                            CacheEntry { last_used: self.clock, ..before[i as int] },
                        ));
                        assert forall|a: int, b: int| 0 <= a < b < after.len() implies !answers(
                            #[trigger] after[b],
                            (#[trigger] after[a]).name@,
                            after[a].record_type,
                        ) by {
                            assert(after[a].name == before[a].name);
                            assert(after[a].record_type == before[a].record_type);
                            assert(after[b].name == before[b].name);
                            assert(after[b].record_type == before[b].record_type);
                        }
                    }
                    self.entries = entries;
                    Some(records)
                }
            },
        }
    }

    fn victim(&self) -> (r: usize)
        requires
            self.entries@.len() > 0,
        ensures
            r == victim_from(self.entries@, 1, 0),
            r < self.entries@.len(),
    {
        proof {
            lemma_victim_from(self.entries@, 1, 0);
        }
        let mut best: usize = 0;
        let mut i: usize = 1;
        while i < self.entries.len()
            invariant
                1 <= i <= self.entries@.len(),
                best < self.entries@.len(),
                victim_from(self.entries@, 1, 0) == victim_from(self.entries@, i as int, best as int),
            decreases self.entries.len() - i,
        {
            if evicts_before_exec(&self.entries[i], &self.entries[best]) {
                best = i;
            }
            i = i + 1;
        }
        best
    }

    fn drop_expired(&mut self, now: u64)
        ensures
            final(self).entries() == unexpired(old(self).entries(), now),
            final(self).capacity_spec() == old(self).capacity_spec(),
            final(self).clock() == old(self).clock(),
    {
        proof {
            use_type_invariant(&*self);
        }
        let ghost orig = self.entries@;
        proof {
            lemma_unexpired(orig, now);
        }
        let mut rest: Vec<CacheEntry> = Vec::new();
        std::mem::swap(&mut rest, &mut self.entries);
        let mut kept: Vec<CacheEntry> = Vec::new();
        let ghost mut i: int = 0;
        while rest.len() > 0
            invariant
                0 <= i <= orig.len(),
                rest@ == orig.skip(i),
                kept@ == unexpired(orig.take(i), now),
            decreases rest@.len(),
        {
            let e = rest.remove(0);
            proof {
                assert(orig.take(i + 1).drop_last() =~= orig.take(i));
                assert(orig.take(i + 1).last() == e);
                assert(orig.skip(i).remove(0) =~= orig.skip(i + 1));
            }
            if e.expires > now {
                kept.push(e);
            }
            proof {
                i = i + 1;
            }
        }
        proof {
            assert(orig.take(i) =~= orig);
        }
        self.entries = kept;
    }

    fn make_room(&mut self, name: &str, record_type: RecordType)
        requires
            old(self).capacity_spec() > 0,
        ensures
            final(self).entries() == with_room(
                old(self).entries(),
                name@,
                record_type,
                old(self).capacity_spec(),
            ),
            find(final(self).entries(), name@, record_type) is None ==> final(self).entries().len()
                < final(self).capacity_spec(),
            final(self).capacity_spec() == old(self).capacity_spec(),
            final(self).clock() == old(self).clock(),
    {
        proof {
            use_type_invariant(&*self);
        }
        let ghost fresh = self.entries@;
        proof {
            lemma_find_all(fresh, name@, record_type);
        }
        let present = self.position(name, record_type);
        if present.is_none() && self.entries.len() >= self.capacity && self.entries.len() > 0 {
            let v = self.victim();
            let mut entries: Vec<CacheEntry> = Vec::new();
            std::mem::swap(&mut entries, &mut self.entries);
            entries.remove(v);
            proof {
                lemma_distinct_remove(fresh, v as int);
            }
            self.entries = entries;
        }
    }

    fn put(&mut self, entry: CacheEntry)
        requires
            find(old(self).entries(), entry.name@, entry.record_type) is None ==> old(
                self,
            ).entries().len() < old(self).capacity_spec(),
        ensures
            final(self).entries() == stored(old(self).entries(), entry),
            final(self).capacity_spec() == old(self).capacity_spec(),
            final(self).clock() == old(self).clock(),
    {
        proof {
            use_type_invariant(&*self);
        }
        let ghost room = self.entries@;
        let ghost e = entry;
        proof {
            lemma_find_all(room, e.name@, e.record_type);
        }
        let slot = self.position(entry.name.as_str(), entry.record_type);
        let mut entries: Vec<CacheEntry> = Vec::new();
        std::mem::swap(&mut entries, &mut self.entries);
        match slot {
            Some(k) => {
                entries.remove(k);
                entries.insert(k, entry);
                proof {
                    assert(entries@ =~= room.update(k as int, e));
                }
            },
            None => {
                entries.push(entry);
            },
        }
        proof {
            let after = entries@;
            assert forall|a: int, b: int| 0 <= a < b < after.len() implies !answers(
                #[trigger] after[b],
                (#[trigger] after[a]).name@,
                after[a].record_type,
            ) by {
                match find(room, e.name@, e.record_type) {
                    Some(k) => {
                        if a == k {
                            assert(!answers(room[b], room[k].name@, room[k].record_type));
                        } else if b == k {
                            assert(!answers(room[b], room[a].name@, room[a].record_type));
                        } else {
                            assert(after[a] == room[a] && after[b] == room[b]);
                        }
                    },
                    None => {
                        if b == room.len() {
                            assert(!answers(room[a], e.name@, e.record_type));
                        } else {
                            assert(after[a] == room[a] && after[b] == room[b]);
                        }
                    },
                }
            }
        }
        self.entries = entries;
    }

    /// Hold an answer until `now + ttl_ms`.
    ///
    /// Expired entries are dropped first. A new question in a full cache evicts the least
    /// recently used entry, ties broken by name and then by type. A capacity of zero holds
    /// nothing.
    pub fn store(
        &mut self,
        name: String,
        record_type: RecordType,
        records: CachedRecords,
        ttl_ms: u64,
        now: u64,
    )
        ensures
            final(self).capacity_spec() == old(self).capacity_spec(),
            old(self).capacity_spec() == 0 ==> final(self).entries() == old(self).entries()
                && final(self).clock() == old(self).clock(),
            old(self).capacity_spec() > 0 ==> {
                &&& final(self).clock() == sat_add64(old(self).clock(), 1)
                &&& final(self).entries() == stored(
                    with_room(
                        unexpired(old(self).entries(), now),
                        name@,
                        record_type,
                        old(self).capacity_spec(),
                    ),
                    CacheEntry {
                        name,
                        record_type,
                        records,
                        expires: sat_add64(now, ttl_ms),
                        last_used: final(self).clock(),
                    },
                )
            },
    {
        if self.capacity == 0 {
            return;
        }
        self.drop_expired(now);
        self.make_room(name.as_str(), record_type);
        proof {
            use_type_invariant(&*self);
        }
        self.clock = self.clock.saturating_add(1);
        let expires = now.saturating_add(ttl_ms);
        let entry = CacheEntry { name, record_type, records, expires, last_used: self.clock };
        self.put(entry);
    }
}

/// What a store holds is what the next lookup of the same question finds: the stored entry,
/// whose records a lookup before `expires` serves and a lookup at or after it drops.
pub proof fn a_stored_answer_is_what_is_found(s: Seq<CacheEntry>, e: CacheEntry)
    requires
        distinct_questions(s),
    ensures
        find(stored(s, e), e.name@, e.record_type) matches Some(i) && stored(s, e)[i] == e,
{
    lemma_find_all(s, e.name@, e.record_type);
    let t = stored(s, e);
    match find(s, e.name@, e.record_type) {
        Some(k) => {
            assert(t =~= s.update(k, e));
            assert(t[k] == e);
            assert(answers(t[k], e.name@, e.record_type));
            lemma_find_all(t, e.name@, e.record_type);
            let j = find(t, e.name@, e.record_type).unwrap();
            lemma_find_some(t, e.name@, e.record_type, 0);
            if j != k {
                assert(t[j] == s[j]);
                if j < k {
                    assert(!answers(s[k], s[j].name@, s[j].record_type));
                } else {
                    assert(find(t, e.name@, e.record_type) == find_from(t, e.name@, e.record_type, 0));
                    lemma_first_found(t, e.name@, e.record_type, 0, k);
                }
            }
        },
        None => {
            assert(t =~= s.push(e));
            assert(t[s.len() as int] == e);
            assert(answers(t[s.len() as int], e.name@, e.record_type));
            lemma_find_all(t, e.name@, e.record_type);
            let j = find(t, e.name@, e.record_type).unwrap();
            if j < s.len() {
                assert(t[j] == s[j]);
            }
        },
    }
}

proof fn lemma_first_found(s: Seq<CacheEntry>, name: Seq<char>, t: RecordType, i: int, k: int)
    requires
        0 <= i <= k < s.len(),
        answers(s[k], name, t),
    ensures
        find_from(s, name, t, i) matches Some(j) && j <= k,
    decreases k - i,
{
    if i < k && !answers(s[i], name, t) {
        lemma_first_found(s, name, t, i + 1, k);
    }
}

/// Whether some name has this text.
pub open spec fn names_contain(names: Seq<String>, name: Seq<char>) -> bool {
    exists|i: int| 0 <= i < names.len() && (#[trigger] names[i])@ == name
}

/// Whether no text occurs twice.
pub open spec fn names_distinct(names: Seq<String>) -> bool {
    forall|i: int, j: int| 0 <= i < j < names.len() ==> (#[trigger] names[i])@ != (#[trigger] names[j])@
}

/// Whether names are in strictly increasing order by code point, as sorted strings with
/// duplicates removed are.
pub open spec fn sorted_names(names: Seq<String>) -> bool {
    forall|i: int, j: int| 0 <= i < j < names.len() ==> lex_less(#[trigger] names[i]@, #[trigger] names[j]@)
}

/// No text sorts before itself.
pub proof fn lemma_lex_irreflexive(a: Seq<char>)
    ensures
        !lex_less(a, a),
    decreases a.len(),
{
    if a.len() > 0 {
        lemma_lex_irreflexive(a.drop_first());
    }
}

/// Sorting before is transitive.
pub proof fn lemma_lex_transitive(a: Seq<char>, b: Seq<char>, c: Seq<char>)
    requires
        lex_less(a, b),
        lex_less(b, c),
    ensures
        lex_less(a, c),
    decreases a.len(),
{
    if a.len() > 0 && b.len() > 0 && c.len() > 0 && (a[0] as u32) == (b[0] as u32) && (b[0] as u32)
        == (c[0] as u32) {
        lemma_lex_transitive(a.drop_first(), b.drop_first(), c.drop_first());
    }
}

/// Of two different texts, one sorts before the other.
pub proof fn lemma_lex_total(a: Seq<char>, b: Seq<char>)
    requires
        a != b,
    ensures
        lex_less(a, b) || lex_less(b, a),
    decreases a.len(),
{
    if a.len() == 0 && b.len() == 0 {
        assert(a =~= b);
    } else if a.len() > 0 && b.len() > 0 && (a[0] as u32) == (b[0] as u32) {
        vstd::utf8::char_u32_cast(a[0], a[0] as u32);
        vstd::utf8::char_u32_cast(b[0], b[0] as u32);
        assert(a[0] == b[0]);
        if a.drop_first() =~= b.drop_first() {
            assert(a =~= seq![a[0]] + a.drop_first());
            assert(b =~= seq![b[0]] + b.drop_first());
        }
        lemma_lex_total(a.drop_first(), b.drop_first());
    }
}

/// Sorted names are distinct.
pub proof fn lemma_sorted_distinct(names: Seq<String>)
    requires
        sorted_names(names),
    ensures
        names_distinct(names),
{
    assert forall|i: int, j: int| 0 <= i < j < names.len() implies (#[trigger] names[i])@ != (
    #[trigger] names[j])@ by {
        lemma_lex_irreflexive(names[i]@);
    }
}

/// Add a name in its sorted place unless its text is already there.
fn push_unique(names: &mut Vec<String>, name: String)
    requires
        sorted_names(old(names)@),
    ensures
        sorted_names(final(names)@),
        names_distinct(final(names)@),
        forall|n: Seq<char>| #[trigger] names_contain(final(names)@, n) <==> (names_contain(old(names)@, n) || n == name@),
{
    let mut i: usize = 0;
    while i < names.len() && str_less(names[i].as_str(), name.as_str())
        invariant
            i <= names@.len(),
            sorted_names(names@),
            forall|k: int| 0 <= k < i ==> lex_less((#[trigger] names@[k])@, name@),
        decreases names.len() - i,
    {
        i = i + 1;
    }
    let ghost before = names@;
    if i < names.len() && str_eq(names[i].as_str(), name.as_str()) {
        proof {
            lemma_sorted_distinct(before);
            assert(names_contain(before, name@) ) by {
                assert(before[i as int]@ == name@);
            }
        }
        return;
    }
    proof {
        if i < before.len() {
            lemma_lex_total(before[i as int]@, name@);
        }
    }
    names.insert(i, name);
    proof {
        let after = names@;
        assert(after =~= before.insert(i as int, name));
        assert forall|a: int, b: int| 0 <= a < b < after.len() implies lex_less(
            #[trigger] after[a]@,
            #[trigger] after[b]@,
        ) by {
            if b < i {
                assert(after[a] == before[a] && after[b] == before[b]);
            } else if b == i {
                assert(after[a] == before[a]);
            } else if a < i {
                assert(after[a] == before[a] && after[b] == before[b - 1]);
                if b - 1 > i {
                    assert(lex_less(before[i as int]@, before[b - 1]@));
                    lemma_lex_transitive(name@, before[i as int]@, before[b - 1]@);
                }
                lemma_lex_transitive(before[a]@, name@, before[b - 1]@);
            } else if a == i {
                assert(after[b] == before[b - 1]);
                if b - 1 > i {
                    assert(lex_less(before[i as int]@, before[b - 1]@));
                    lemma_lex_transitive(name@, before[i as int]@, before[b - 1]@);
                }
            } else {
                assert(after[a] == before[a - 1] && after[b] == before[b - 1]);
            }
        }
        lemma_sorted_distinct(after);
        assert forall|n: Seq<char>| #[trigger] names_contain(after, n) <==> (names_contain(before, n)
            || n == name@) by {
            if names_contain(after, n) {
                let k = choose|k: int| 0 <= k < after.len() && (#[trigger] after[k])@ == n;
                if k < i {
                    assert(after[k] == before[k]);
                } else if k > i {
                    assert(after[k] == before[k - 1]);
                }
            }
            if names_contain(before, n) {
                let k = choose|k: int| 0 <= k < before.len() && (#[trigger] before[k])@ == n;
                if k < i {
                    assert(after[k] == before[k]);
                } else {
                    assert(after[k + 1] == before[k]);
                }
            }
            if n == name@ {
                assert(after[i as int] == name);
            }
        }
    }
}

/// The SRV name RFC 3263 §4.1 or RFC 7118 §6 defines for some transport.
pub open spec fn conventional_srv_name(domain: Seq<char>, name: Seq<char>) -> bool {
    ||| name == spec_srv_prefix(TransportKind::Udp) + domain
    ||| name == spec_srv_prefix(TransportKind::Tcp) + domain
    ||| name == spec_srv_prefix(TransportKind::Tls) + domain
    ||| name == spec_srv_prefix(TransportKind::Ws) + domain
    ||| name == spec_srv_prefix(TransportKind::Wss) + domain
}

/// Every SRV name worth asking about for a domain: those its NAPTR records point at, and the
/// conventional one for every transport, since a domain with no NAPTR may still have SRV.
pub open spec fn srv_query_wanted(naptr: Seq<Naptr>, domain: Seq<char>, name: Seq<char>) -> bool {
    (exists|i: int| 0 <= i < naptr.len() && (#[trigger] naptr[i]).replacement@ == name)
        || conventional_srv_name(domain, name)
}

/// The SRV names to ask about for a domain, each once.
pub fn srv_queries(naptr: &[Naptr], domain: &str) -> (r: Vec<String>)
    ensures
        sorted_names(r@),
        names_distinct(r@),
        forall|n: Seq<char>| #[trigger] names_contain(r@, n) <==> srv_query_wanted(naptr@, domain@, n),
{
    let mut names: Vec<String> = Vec::new();
    let mut i: usize = 0;
    while i < naptr.len()
        invariant
            i <= naptr@.len(),
            sorted_names(names@),
            names_distinct(names@),
            forall|n: Seq<char>| #[trigger] names_contain(names@, n) <==> exists|k: int|
                0 <= k < i && (#[trigger] naptr@[k]).replacement@ == n,
        decreases naptr.len() - i,
    {
        let ghost before = names@;
        push_unique(&mut names, naptr[i].replacement.clone());
        proof {
            assert forall|n: Seq<char>| #[trigger] names_contain(names@, n) <==> exists|k: int|
                0 <= k < i + 1 && (#[trigger] naptr@[k]).replacement@ == n by {
                if names_contain(names@, n) && !names_contain(before, n) {
                    assert(naptr@[i as int].replacement@ == n);
                }
                if exists|k: int| 0 <= k < i + 1 && (#[trigger] naptr@[k]).replacement@ == n {
                    let k = choose|k: int| 0 <= k < i + 1 && (#[trigger] naptr@[k]).replacement@ == n;
                    if k < i {
                        assert(names_contain(before, n));
                    }
                }
            }
        }
        i = i + 1;
    }
    let ghost from_naptr = names@;
    push_unique(&mut names, srv_name(TransportKind::Udp, domain));
    push_unique(&mut names, srv_name(TransportKind::Tcp, domain));
    push_unique(&mut names, srv_name(TransportKind::Tls, domain));
    push_unique(&mut names, srv_name(TransportKind::Ws, domain));
    push_unique(&mut names, srv_name(TransportKind::Wss, domain));
    names
}

/// The SRV names one URI's resolution asks about once its NAPTR answer is in: those the NAPTR
/// records point at, and the conventional ones its scheme permits (`_sips._tcp` alone for
/// `sips:`; `_sip._udp`, `_sip._tcp` and `_sips._tcp` for `sip:`).
pub open spec fn uri_srv_wanted(naptr: Seq<Naptr>, domain: Seq<char>, secure: bool, name: Seq<char>) -> bool {
    ||| exists|i: int| 0 <= i < naptr.len() && (#[trigger] naptr[i]).replacement@ == name
    ||| name == spec_srv_prefix(TransportKind::Tls) + domain
    ||| !secure && name == spec_srv_prefix(TransportKind::Udp) + domain
    ||| !secure && name == spec_srv_prefix(TransportKind::Tcp) + domain
}

/// The SRV names one URI's resolution asks about, each once.
pub fn uri_srv_queries(naptr: &[Naptr], domain: &str, secure: bool) -> (r: Vec<String>)
    ensures
        sorted_names(r@),
        names_distinct(r@),
        forall|n: Seq<char>| #[trigger] names_contain(r@, n) <==> uri_srv_wanted(naptr@, domain@, secure, n),
{
    let mut names: Vec<String> = Vec::new();
    let mut i: usize = 0;
    while i < naptr.len()
        invariant
            i <= naptr@.len(),
            sorted_names(names@),
            names_distinct(names@),
            forall|n: Seq<char>| #[trigger] names_contain(names@, n) <==> exists|k: int|
                0 <= k < i && (#[trigger] naptr@[k]).replacement@ == n,
        decreases naptr.len() - i,
    {
        let ghost before = names@;
        push_unique(&mut names, naptr[i].replacement.clone());
        proof {
            assert forall|n: Seq<char>| #[trigger] names_contain(names@, n) <==> exists|k: int|
                0 <= k < i + 1 && (#[trigger] naptr@[k]).replacement@ == n by {
                if names_contain(names@, n) && !names_contain(before, n) {
                    assert(naptr@[i as int].replacement@ == n);
                }
                if exists|k: int| 0 <= k < i + 1 && (#[trigger] naptr@[k]).replacement@ == n {
                    let k = choose|k: int| 0 <= k < i + 1 && (#[trigger] naptr@[k]).replacement@ == n;
                    if k < i {
                        assert(names_contain(before, n));
                    }
                }
            }
        }
        i = i + 1;
    }
    if !secure {
        push_unique(&mut names, srv_name(TransportKind::Udp, domain));
        push_unique(&mut names, srv_name(TransportKind::Tcp, domain));
    }
    push_unique(&mut names, srv_name(TransportKind::Tls, domain));
    names
}

/// Whether a host is worth resolving: the domain itself, or a target some SRV answer names.
pub open spec fn host_wanted(domain: Seq<char>, srv: Seq<(String, Vec<Srv>)>, host: Seq<char>) -> bool {
    host == domain || exists|i: int, j: int|
        0 <= i < srv.len() && 0 <= j < srv[i].1@.len() && (#[trigger] srv[i].1@[j]).target@ == host
}

/// The hosts to resolve for a domain and its SRV answers, each once.
pub fn hosts_to_resolve(domain: &str, srv: &Vec<(String, Vec<Srv>)>) -> (r: Vec<String>)
    ensures
        sorted_names(r@),
        names_distinct(r@),
        forall|n: Seq<char>| #[trigger] names_contain(r@, n) <==> host_wanted(domain@, srv@, n),
{
    let mut names: Vec<String> = Vec::new();
    push_unique(&mut names, domain.to_owned());
    let mut i: usize = 0;
    while i < srv.len()
        invariant
            i <= srv@.len(),
            sorted_names(names@),
            names_distinct(names@),
            forall|n: Seq<char>| #[trigger] names_contain(names@, n) <==> (n == domain@ || exists|
                a: int,
                b: int,
            | 0 <= a < i && 0 <= b < srv@[a].1@.len() && (#[trigger] srv@[a].1@[b]).target@ == n),
        decreases srv.len() - i,
    {
        let records = &srv[i].1;
        let mut j: usize = 0;
        while j < records.len()
            invariant
                i < srv@.len(),
                *records == srv@[i as int].1,
                j <= records@.len(),
                sorted_names(names@),
            names_distinct(names@),
                forall|n: Seq<char>| #[trigger] names_contain(names@, n) <==> (n == domain@ || (exists|
                    a: int,
                    b: int,
                | 0 <= a < i && 0 <= b < srv@[a].1@.len() && (#[trigger] srv@[a].1@[b]).target@ == n)
                    || exists|b: int| 0 <= b < j && (#[trigger] records@[b]).target@ == n),
            decreases records.len() - j,
        {
            let ghost before = names@;
            push_unique(&mut names, records[j].target.clone());
            proof {
                assert forall|n: Seq<char>| #[trigger] names_contain(names@, n) <==> (n == domain@ || (
                exists|a: int, b: int|
                    0 <= a < i && 0 <= b < srv@[a].1@.len() && (#[trigger] srv@[a].1@[b]).target@
                        == n) || exists|b: int| 0 <= b < j + 1 && (#[trigger] records@[b]).target@
                    == n) by {
                    if names_contain(names@, n) && !names_contain(before, n) {
                        assert(records@[j as int].target@ == n);
                    }
                    if exists|b: int| 0 <= b < j + 1 && (#[trigger] records@[b]).target@ == n {
                        let b = choose|b: int| 0 <= b < j + 1 && (#[trigger] records@[b]).target@ == n;
                        if b < j {
                            assert(names_contain(before, n));
                        }
                    }
                }
            }
            j = j + 1;
        }
        proof {
            assert forall|n: Seq<char>| #[trigger] names_contain(names@, n) <==> (n == domain@ || exists|
                a: int,
                b: int,
            | 0 <= a < i + 1 && 0 <= b < srv@[a].1@.len() && (#[trigger] srv@[a].1@[b]).target@ == n) by {
                if exists|a: int, b: int|
                    0 <= a < i + 1 && 0 <= b < srv@[a].1@.len() && (#[trigger] srv@[a].1@[b]).target@ == n {
                    let (a, b) = choose|a: int, b: int|
                        0 <= a < i + 1 && 0 <= b < srv@[a].1@.len() && (#[trigger] srv@[a].1@[b]).target@
                            == n;
                    if a == i {
                        assert(records@[b].target@ == n);
                    }
                }
                if names_contain(names@, n) && n != domain@ && !(exists|a: int, b: int|
                    0 <= a < i && 0 <= b < srv@[a].1@.len() && (#[trigger] srv@[a].1@[b]).target@ == n) {
                    let b = choose|b: int| 0 <= b < records@.len() && (#[trigger] records@[b]).target@ == n;
                    assert(srv@[i as int].1@[b].target@ == n);
                }
            }
        }
        i = i + 1;
    }
    names
}

/// The answers an entry list holds for a name: the first entry with that text, or nothing.
pub open spec fn answers_for<T>(entries: Seq<(String, Vec<T>)>, name: Seq<char>, from: int) -> Seq<T>
    decreases entries.len() - from,
{
    if from < 0 || from >= entries.len() {
        Seq::empty()
    } else if entries[from].0@ == name {
        entries[from].1@
    } else {
        answers_for(entries, name, from + 1)
    }
}

/// Every answer RFC 3263 selection could need for one URI, asked for up front so that the
/// selection itself stays synchronous and off the loop that owns the transaction timers.
#[derive(Debug)]
pub struct Prefetched {
    /// The domain's NAPTR records.
    pub naptr: Vec<Naptr>,
    /// SRV answers, by name.
    pub srv: Vec<(String, Vec<Srv>)>,
    /// Addresses, by host.
    pub addresses: Vec<(String, Vec<IpAddress>)>,
}

impl Prefetched {
    /// Nothing fetched: every question has no answer.
    pub fn new() -> (r: Prefetched)
        ensures
            r.naptr@.len() == 0,
            r.srv@.len() == 0,
            r.addresses@.len() == 0,
    {
        Prefetched { naptr: Vec::new(), srv: Vec::new(), addresses: Vec::new() }
    }
}

pub(crate) fn find_answer_srv(entries: &Vec<(String, Vec<Srv>)>, name: &str) -> (r: Vec<Srv>)
    ensures
        r@ == answers_for(entries@, name@, 0),
{
    let wanted = name.to_owned();
    let mut i: usize = 0;
    while i < entries.len()
        invariant
            i <= entries@.len(),
            wanted@ == name@,
            answers_for(entries@, name@, 0) == answers_for(entries@, name@, i as int),
        decreases entries.len() - i,
    {
        if entries[i].0 == wanted {
            return clone_srvs(&entries[i].1);
        }
        i = i + 1;
    }
    Vec::new()
}

pub(crate) fn find_answer_addresses(entries: &Vec<(String, Vec<IpAddress>)>, name: &str) -> (r: Vec<IpAddress>)
    ensures
        r@ == answers_for(entries@, name@, 0),
{
    let wanted = name.to_owned();
    let mut i: usize = 0;
    while i < entries.len()
        invariant
            i <= entries@.len(),
            wanted@ == name@,
            answers_for(entries@, name@, 0) == answers_for(entries@, name@, i as int),
        decreases entries.len() - i,
    {
        if entries[i].0 == wanted {
            return clone_addresses(&entries[i].1);
        }
        i = i + 1;
    }
    Vec::new()
}

impl Resolver for Prefetched {
    fn naptr(&self, domain: &str) -> (r: Vec<Naptr>)
        ensures
            r@ == self.naptr@,
    {
        clone_naptrs(&self.naptr)
    }

    fn srv(&self, name: &str) -> (r: Vec<Srv>)
        ensures
            r@ == answers_for(self.srv@, name@, 0),
    {
        find_answer_srv(&self.srv, name)
    }

    fn addresses(&self, host: &str) -> (r: Vec<IpAddress>)
        ensures
            r@ == answers_for(self.addresses@, host@, 0),
    {
        find_answer_addresses(&self.addresses, host)
    }
}
} // verus!
