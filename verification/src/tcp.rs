//! How the connection pool is configured, and where a connection came from.

use vstd::prelude::*;
use crate::addr::{ip_eq, SocketAddress};
use crate::error::Error;
use crate::target::{ConnectionKey, TransportKind};

verus! {

/// How the connection pool behaves.
#[derive(Debug, Clone, Copy, PartialEq, Eq)]
pub struct PoolConfig {
    /// Most connections held at once.
    pub max_connections: usize,
    /// How long a connection may sit unused before it is closed, in nanoseconds.
    pub idle_timeout_nanos: u64,
    /// Whether an inbound connection may carry unrelated outbound requests. Off by default:
    /// reusing one is how a peer that connected to you gets your outbound traffic routed
    /// through it.
    pub reuse_inbound_for_outbound: bool,
}

impl PoolConfig {
    /// A thousand and twenty-four connections, closed after five idle minutes, inbound ones
    /// never reused for outbound requests.
    pub open spec fn default_spec() -> PoolConfig {
        PoolConfig {
            max_connections: 1024,
            idle_timeout_nanos: 300_000_000_000,
            reuse_inbound_for_outbound: false,
        }
    }
}

impl Default for PoolConfig {
    fn default() -> (r: PoolConfig)
        ensures
            r == PoolConfig::default_spec(),
    {
        PoolConfig {
            max_connections: 1024,
            idle_timeout_nanos: 300_000_000_000,
            reuse_inbound_for_outbound: false,
        }
    }
}

/// How a connection came to exist, which decides whether it may be reused for outbound
/// requests.
#[derive(Debug, Clone, Copy, PartialEq, Eq)]
pub enum Origin {
    /// We opened it.
    Outbound,
    /// A peer opened it.
    Inbound,
}

/// Whether the connection held for a key may carry what is about to be sent: its writer must
/// still be open, and one a peer opened may carry it only where the configuration allows.
pub fn reusable(origin: Origin, writer_open: bool, config: &PoolConfig) -> (r: bool)
    ensures
        r == (writer_open && (origin is Outbound || config.reuse_inbound_for_outbound)),
{
    writer_open && match origin {
        Origin::Outbound => true,
        Origin::Inbound => config.reuse_inbound_for_outbound,
    }
}

/// A key as the pool compares it: the far end, the transport, and the text of the verified name.
pub type KeyView = (SocketAddress, TransportKind, Option<Seq<char>>);

/// How the pool sees a key.
pub open spec fn key_view(k: ConnectionKey) -> KeyView {
    (
        k.peer,
        k.transport,
        match k.identity {
            Some(s) => Some(s@),
            None => None,
        },
    )
}

/// Whether two keys name the same connection.
pub fn same_key(a: &ConnectionKey, b: &ConnectionKey) -> (r: bool)
    ensures
        r == (key_view(*a) == key_view(*b)),
{
    if !ip_eq(&a.peer.ip, &b.peer.ip) || a.peer.port != b.peer.port || a.transport != b.transport {
        return false;
    }
    match (&a.identity, &b.identity) {
        (Some(x), Some(y)) => *x == *y,
        (None, None) => true,
        _ => false,
    }
}

/// One connection the pool holds.
#[derive(Debug)]
pub struct Pooled {
    /// What the connection is to.
    pub key: ConnectionKey,
    /// The generation it was opened under; a later connection for the same key gets another.
    pub id: u64,
    /// Who opened it.
    pub origin: Origin,
    /// When it last carried anything, on the caller's clock.
    pub last_used: u64,
    /// Whether its task holds a live slot; otherwise it waits in the pending queue.
    pub active: bool,
}

/// One generation of one connection.
#[derive(Debug)]
pub struct Generation {
    /// What the connection is to.
    pub key: ConnectionKey,
    /// The generation.
    pub id: u64,
}

/// What the pool holds, as the contracts speak of it.
#[verifier::ext_equal]
pub struct PoolModel {
    /// The connections routing traffic, one per key.
    pub connections: Seq<Pooled>,
    /// Generations retired while their task was live, each still owed one close notification.
    pub retiring: Seq<Generation>,
    /// Generations that own a slot but wait for a live task to end before they start, oldest
    /// first.
    pub pending: Seq<Generation>,
    /// The generation the next connection is opened under.
    pub next_id: u64,
    /// The most connections held at once.
    pub max: usize,
}

/// The first index at or after `from` whose element satisfies `p`.
pub open spec fn first_match<A>(s: Seq<A>, p: spec_fn(A) -> bool, from: int) -> Option<int>
    decreases s.len() - from,
{
    if from < 0 || from >= s.len() {
        None
    } else if p(s[from]) {
        Some(from)
    } else {
        first_match(s, p, from + 1)
    }
}

/// What `first_match` finds is a match with none before it, and nothing means no match.
pub proof fn lemma_first_match<A>(s: Seq<A>, p: spec_fn(A) -> bool, from: int)
    requires
        0 <= from,
    ensures
        first_match(s, p, from) matches Some(i) ==> from <= i < s.len() && p(s[i]) && forall|j: int|
            from <= j < i ==> !p(#[trigger] s[j]),
        first_match(s, p, from) is None ==> forall|j: int| from <= j < s.len() ==> !p(#[trigger] s[j]),
    decreases s.len() - from,
{
    if from < s.len() {
        lemma_first_match(s, p, from + 1);
    }
}

/// Whether a connection is for this key.
pub open spec fn is_key(kv: KeyView) -> spec_fn(Pooled) -> bool {
    |e: Pooled| key_view(e.key) == kv
}

/// Whether a generation is this one.
pub open spec fn is_generation(kv: KeyView, id: u64) -> spec_fn(Generation) -> bool {
    |g: Generation| key_view(g.key) == kv && g.id == id
}

/// Where the connection for a key is held.
pub open spec fn find_key(c: Seq<Pooled>, kv: KeyView) -> Option<int> {
    first_match(c, is_key(kv), 0)
}

/// Where a generation is queued.
pub open spec fn find_generation(q: Seq<Generation>, kv: KeyView, id: u64) -> Option<int> {
    first_match(q, is_generation(kv, id), 0)
}

/// A queue without one generation.
pub open spec fn remove_generation(q: Seq<Generation>, kv: KeyView, id: u64) -> Seq<Generation> {
    match find_generation(q, kv, id) {
        Some(j) => q.remove(j),
        None => q,
    }
}

/// No key is held twice.
pub open spec fn distinct_keys(c: Seq<Pooled>) -> bool {
    forall|i: int, j: int|
        0 <= i < j < c.len() ==> key_view((#[trigger] c[i]).key) != key_view((#[trigger] c[j]).key)
}

/// The pool's invariant: one connection per key, never more than the limit, and a generation
/// counter that never hands out zero.
pub open spec fn model_wf(m: PoolModel) -> bool {
    &&& distinct_keys(m.connections)
    &&& m.connections.len() <= m.max
    &&& m.next_id >= 1
}

/// Every generation the pool has handed out is below the counter.
pub open spec fn ids_below_counter(m: PoolModel) -> bool {
    &&& forall|i: int| 0 <= i < m.connections.len() ==> (#[trigger] m.connections[i]).id < m.next_id
    &&& forall|i: int| 0 <= i < m.retiring.len() ==> (#[trigger] m.retiring[i]).id < m.next_id
    &&& forall|i: int| 0 <= i < m.pending.len() ==> (#[trigger] m.pending[i]).id < m.next_id
}

/// Retire the connection at `i`: it stops routing traffic; a live one is owed its close
/// notification, and one still waiting to start never starts.
pub open spec fn retire_at(m: PoolModel, i: int) -> PoolModel {
    let p = m.connections[i];
    if p.active {
        PoolModel {
            connections: m.connections.remove(i),
            retiring: m.retiring.push(Generation { key: p.key, id: p.id }),
            pending: m.pending,
            next_id: m.next_id,
            max: m.max,
        }
    } else {
        PoolModel {
            connections: m.connections.remove(i),
            retiring: m.retiring,
            pending: remove_generation(m.pending, key_view(p.key), p.id),
            next_id: m.next_id,
            max: m.max,
        }
    }
}

/// Retire the connection held for a key, if there is one.
pub open spec fn retire_spec(m: PoolModel, kv: KeyView) -> PoolModel {
    match find_key(m.connections, kv) {
        Some(i) => retire_at(m, i),
        None => m,
    }
}

/// The least recently used connection from `i` on, given the best so far: the first of the
/// oldest.
pub open spec fn lru_from(c: Seq<Pooled>, i: int, best: int) -> int
    decreases c.len() - i,
{
    if i < 0 || i >= c.len() {
        best
    } else if c[i].last_used < c[best].last_used {
        lru_from(c, i + 1, i)
    } else {
        lru_from(c, i + 1, best)
    }
}

/// The least recently used connection: the first of those used longest ago.
pub open spec fn lru_index(c: Seq<Pooled>) -> int {
    lru_from(c, 1, 0)
}

/// The generation after `n`: one more, wrapping, and never zero.
pub open spec fn next_generation_id(n: u64) -> u64 {
    let next = n.wrapping_add(1u64);
    if next > 1 {
        next
    } else {
        1
    }
}

/// Admit a connection for a key.
///
/// One admission retires at most one connection: the one this key already has, or, at the
/// limit, the least recently used. The new generation starts at once when fewer than `max` tasks
/// are live, and otherwise waits in the pending queue. Refused only when nothing can ever be
/// held.
pub open spec fn register_spec(
    m: PoolModel,
    key: ConnectionKey,
    origin: Origin,
    now: u64,
    live: usize,
) -> (PoolModel, Option<(u64, bool)>) {
    let kv = key_view(key);
    let m1 = if find_key(m.connections, kv) is Some {
        retire_spec(m, kv)
    } else if m.connections.len() >= m.max && m.connections.len() > 0 {
        retire_at(m, lru_index(m.connections))
    } else {
        m
    };
    if m1.connections.len() >= m1.max {
        (m1, None)
    } else {
        let id = m.next_id;
        let start = live < m.max;
        let entry = Pooled { key, id, origin, last_used: now, active: start };
        (
            PoolModel {
                connections: m1.connections.push(entry),
                retiring: m1.retiring,
                pending: if start {
                    m1.pending
                } else {
                    m1.pending.push(Generation { key, id })
                },
                next_id: next_generation_id(m.next_id),
                max: m1.max,
            },
            Some((id, start)),
        )
    }
}

/// Forget a generation that has closed: the connection routing its key if it is that
/// generation, else a retiring one. Whether either was found.
pub open spec fn remove_spec(m: PoolModel, kv: KeyView, id: u64) -> (PoolModel, bool) {
    match find_key(m.connections, kv) {
        Some(i) if m.connections[i].id == id => (
            PoolModel {
                connections: m.connections.remove(i),
                retiring: m.retiring,
                pending: m.pending,
                next_id: m.next_id,
                max: m.max,
            },
            true,
        ),
        _ => match find_generation(m.retiring, kv, id) {
            Some(j) => (
                PoolModel {
                    connections: m.connections,
                    retiring: m.retiring.remove(j),
                    pending: m.pending,
                    next_id: m.next_id,
                    max: m.max,
                },
                true,
            ),
            None => (m, false),
        },
    }
}

/// Start waiting generations, oldest first, while there is room for `room` more live tasks; a
/// waiting generation whose key has since been retired or replaced is dropped unstarted.
pub open spec fn activate_spec(m: PoolModel, room: int) -> (PoolModel, Seq<Generation>)
    decreases m.pending.len(),
{
    if room <= 0 || m.pending.len() == 0 {
        (m, Seq::empty())
    } else {
        let g = m.pending[0];
        let rest = PoolModel {
            connections: m.connections,
            retiring: m.retiring,
            pending: m.pending.drop_first(),
            next_id: m.next_id,
            max: m.max,
        };
        match find_key(m.connections, key_view(g.key)) {
            Some(i) if m.connections[i].id == g.id => {
                let p = m.connections[i];
                let on = PoolModel {
                    connections: m.connections.update(
                        i,
                        Pooled { key: p.key, id: p.id, origin: p.origin, last_used: p.last_used, active: true },
                    ),
                    retiring: rest.retiring,
                    pending: rest.pending,
                    next_id: rest.next_id,
                    max: rest.max,
                };
                let (m2, started) = activate_spec(on, room - 1);
                (m2, seq![g] + started)
            },
            _ => activate_spec(rest, room),
        }
    }
}

/// Whether a connection has been idle for longer than the timeout at `now`.
pub open spec fn idle(p: Pooled, now: u64, timeout: u64) -> bool {
    now >= p.last_used && now - p.last_used > timeout
}

/// Retire every idle connection from `i` on.
pub open spec fn evict_from(m: PoolModel, i: int, now: u64, timeout: u64) -> PoolModel
    decreases m.connections.len() - i,
{
    if i < 0 || i >= m.connections.len() {
        m
    } else if idle(m.connections[i], now, timeout) {
        evict_from(retire_at(m, i), i, now, timeout)
    } else {
        evict_from(m, i + 1, now, timeout)
    }
}

/// The generations `evict_from` retires, in table order.
pub open spec fn evicted_from(m: PoolModel, i: int, now: u64, timeout: u64) -> Seq<Generation>
    decreases m.connections.len() - i,
{
    if i < 0 || i >= m.connections.len() {
        Seq::empty()
    } else if idle(m.connections[i], now, timeout) {
        seq![Generation { key: m.connections[i].key, id: m.connections[i].id }] + evicted_from(
            retire_at(m, i),
            i,
            now,
            timeout,
        )
    } else {
        evicted_from(m, i + 1, now, timeout)
    }
}

/// The connection an admission displaces: the one its key already has, or, at the limit, the
/// least recently used.
pub open spec fn displaced(m: PoolModel, kv: KeyView) -> Option<Generation> {
    match find_key(m.connections, kv) {
        Some(i) => Some(Generation { key: m.connections[i].key, id: m.connections[i].id }),
        None => if m.connections.len() >= m.max && m.connections.len() > 0 {
            let v = lru_index(m.connections);
            Some(Generation { key: m.connections[v].key, id: m.connections[v].id })
        } else {
            None
        },
    }
}

/// A key that is held is found where it is held.
pub proof fn lemma_find_held(c: Seq<Pooled>, i: int)
    requires
        distinct_keys(c),
        0 <= i < c.len(),
    ensures
        find_key(c, key_view(c[i].key)) == Some(i),
{
    let kv = key_view(c[i].key);
    lemma_first_match(c, is_key(kv), 0);
    match find_key(c, kv) {
        Some(k) => {
            if k != i {
                assert(is_key(kv)(c[k]));
                if k < i {
                    assert(key_view(c[k].key) != key_view(c[i].key));
                } else {
                    assert(!is_key(kv)(c[i]));
                }
            }
        },
        None => {
            assert(!is_key(kv)(c[i]));
        },
    }
}

/// Removing a connection keeps the others distinct, and leaves its key unheld.
pub proof fn lemma_remove_distinct(c: Seq<Pooled>, i: int)
    requires
        distinct_keys(c),
        0 <= i < c.len(),
    ensures
        distinct_keys(c.remove(i)),
        find_key(c.remove(i), key_view(c[i].key)) is None,
{
    let r = c.remove(i);
    assert forall|a: int, b: int| 0 <= a < b < r.len() implies key_view((#[trigger] r[a]).key)
        != key_view((#[trigger] r[b]).key) by {
        let a2 = if a < i {
            a
        } else {
            a + 1
        };
        let b2 = if b < i {
            b
        } else {
            b + 1
        };
        assert(r[a] == c[a2]);
        assert(r[b] == c[b2]);
        assert(key_view(c[a2].key) != key_view(c[b2].key));
    }
    let kv = key_view(c[i].key);
    lemma_first_match(r, is_key(kv), 0);
    if let Some(k) = find_key(r, kv) {
        let k2 = if k < i {
            k
        } else {
            k + 1
        };
        assert(r[k] == c[k2]);
        if k2 < i {
            assert(key_view(c[k2].key) != key_view(c[i].key));
        } else {
            assert(key_view(c[i].key) != key_view(c[k2].key));
        }
    }
}

/// A key absent before a removal is absent after it.
pub proof fn lemma_absent_after_remove(c: Seq<Pooled>, i: int, kv: KeyView)
    requires
        0 <= i < c.len(),
        find_key(c, kv) is None,
    ensures
        find_key(c.remove(i), kv) is None,
{
    lemma_first_match(c, is_key(kv), 0);
    let r = c.remove(i);
    lemma_first_match(r, is_key(kv), 0);
    if let Some(k) = find_key(r, kv) {
        let k2 = if k < i {
            k
        } else {
            k + 1
        };
        assert(r[k] == c[k2]);
        assert(!is_key(kv)(c[k2]));
    }
}

/// Retiring keeps the pool well formed, and keeps every generation below the counter.
pub proof fn lemma_retire_at_wf(m: PoolModel, i: int)
    requires
        model_wf(m),
        0 <= i < m.connections.len(),
    ensures
        model_wf(retire_at(m, i)),
        ids_below_counter(m) ==> ids_below_counter(retire_at(m, i)),
        retire_at(m, i).max == m.max,
        retire_at(m, i).next_id == m.next_id,
        retire_at(m, i).connections == m.connections.remove(i),
{
    lemma_remove_distinct(m.connections, i);
    let r = retire_at(m, i);
    if ids_below_counter(m) {
        let p = m.connections[i];
        assert forall|k: int| 0 <= k < r.connections.len() implies (#[trigger] r.connections[k]).id
            < r.next_id by {
            let k2 = if k < i {
                k
            } else {
                k + 1
            };
            assert(r.connections[k] == m.connections[k2]);
        }
        if !p.active {
            let q = m.pending;
            match find_generation(q, key_view(p.key), p.id) {
                Some(j) => {
                    assert forall|k: int| 0 <= k < r.pending.len() implies (
                    #[trigger] r.pending[k]).id < r.next_id by {
                        let k2 = if k < j {
                            k
                        } else {
                            k + 1
                        };
                        lemma_first_match(q, is_generation(key_view(p.key), p.id), 0);
                        assert(r.pending[k] == q[k2]);
                    }
                },
                None => {},
            }
        } else {
            assert forall|k: int| 0 <= k < r.retiring.len() implies (#[trigger] r.retiring[k]).id
                < r.next_id by {
                if k < m.retiring.len() {
                    assert(r.retiring[k] == m.retiring[k]);
                }
            }
        }
    }
}

/// The least recently used connection is one of them, and none was used longer ago.
pub proof fn lemma_lru(c: Seq<Pooled>, i: int, best: int)
    requires
        0 <= best < c.len(),
        0 <= i,
        forall|j: int| 0 <= j < i && j < c.len() ==> c[best].last_used <= (#[trigger] c[j]).last_used,
    ensures
        0 <= lru_from(c, i, best) < c.len(),
        forall|j: int|
            0 <= j < c.len() ==> c[lru_from(c, i, best)].last_used <= (#[trigger] c[j]).last_used,
    decreases c.len() - i,
{
    if i < c.len() {
        if c[i].last_used < c[best].last_used {
            lemma_lru(c, i + 1, i);
        } else {
            lemma_lru(c, i + 1, best);
        }
    }
}

/// What an admission decided.
#[derive(Debug)]
pub struct Registration {
    /// The generation the new connection is opened under.
    pub id: u64,
    /// Whether its task may start now; otherwise it waits for [`Pool::activate_pending`].
    pub start_now: bool,
    /// The connection it displaced, whose task the caller cancels.
    pub retired: Option<Generation>,
}

/// The bookkeeping of a pool of stream connections: which generation routes each key, which
/// retired generations still owe a close notification, and which wait for a live slot.
///
/// Tasks, sockets and clocks belong to the caller, which reports how many tasks are live and
/// what time it is; this decides. One connection per key, never more than the limit, and a
/// close for a stale generation never touches its replacement.
#[derive(Debug)]
pub struct Pool {
    connections: Vec<Pooled>,
    retiring: Vec<Generation>,
    pending: Vec<Generation>,
    next_id: u64,
    config: PoolConfig,
}

impl Pool {
    /// Every pool is well formed: one connection per key, no more than the limit, and a
    /// positive generation counter.
    #[verifier::type_invariant]
    closed spec fn inv(&self) -> bool {
        model_wf(self.model())
    }

    /// What the pool holds.
    pub closed spec fn model(&self) -> PoolModel {
        PoolModel {
            connections: self.connections@,
            retiring: self.retiring@,
            pending: self.pending@,
            next_id: self.next_id,
            max: self.config.max_connections,
        }
    }

    /// How the pool was configured.
    pub closed spec fn config_spec(&self) -> PoolConfig {
        self.config
    }

    /// An empty pool.
    pub fn new(config: PoolConfig) -> (r: Pool)
        ensures
            model_wf(r.model()),
            ids_below_counter(r.model()),
            r.model().connections.len() == 0,
            r.model().retiring.len() == 0,
            r.model().pending.len() == 0,
            r.model().next_id == 1,
            r.model().max == config.max_connections,
            r.config_spec() == config,
    {
        Pool { connections: Vec::new(), retiring: Vec::new(), pending: Vec::new(), next_id: 1, config }
    }

    fn position(&self, key: &ConnectionKey) -> (r: Option<usize>)
        ensures
            r matches Some(k) ==> find_key(self.model().connections, key_view(*key)) == Some(k as int)
                && k < self.model().connections.len(),
            r is None ==> find_key(self.model().connections, key_view(*key)) is None,
    {
        let ghost kv = key_view(*key);
        let mut i: usize = 0;
        while i < self.connections.len()
            invariant
                i <= self.connections@.len(),
                kv == key_view(*key),
                forall|j: int| 0 <= j < i ==> !is_key(kv)(#[trigger] self.connections@[j]),
            decreases self.connections.len() - i,
        {
            if same_key(&self.connections[i].key, key) {
                proof {
                    lemma_first_match(self.connections@, is_key(kv), 0);
                    assert(is_key(kv)(self.connections@[i as int]));
                }
                return Some(i);
            }
            i = i + 1;
        }
        proof {
            lemma_first_match(self.connections@, is_key(kv), 0);
        }
        None
    }

    /// The generation routing traffic for a key, if one is.
    pub fn generation(&self, key: &ConnectionKey) -> (r: Option<u64>)
        ensures
            match find_key(self.model().connections, key_view(*key)) {
                Some(i) => r == Some(self.model().connections[i].id),
                None => r is None,
            },
    {
        match self.position(key) {
            Some(i) => {
                assert(self.model().connections[i as int] == self.connections@[i as int]);
                Some(self.connections[i].id)
            },
            None => None,
        }
    }

    /// Whether a connection is held for a key.
    pub fn holds(&self, key: &ConnectionKey) -> (r: bool)
        ensures
            r == find_key(self.model().connections, key_view(*key)) is Some,
    {
        self.position(key).is_some()
    }

    /// Whether the connection held for a key may carry what is about to be sent, given whether
    /// its writer is still open.
    pub fn is_reusable(&self, key: &ConnectionKey, writer_open: bool) -> (r: bool)
        ensures
            match find_key(self.model().connections, key_view(*key)) {
                Some(i) => r == (writer_open && (self.model().connections[i].origin is Outbound
                    || self.config_spec().reuse_inbound_for_outbound)),
                None => !r,
            },
    {
        match self.position(key) {
            Some(i) => {
                assert(self.model().connections[i as int] == self.connections@[i as int]);
                reusable(self.connections[i].origin, writer_open, &self.config)
            },
            None => false,
        }
    }

    fn lru(&self) -> (r: usize)
        requires
            self.model().connections.len() > 0,
        ensures
            r as int == lru_index(self.model().connections),
            r < self.model().connections.len(),
    {
        let mut best: usize = 0;
        let mut i: usize = 1;
        while i < self.connections.len()
            invariant
                1 <= i <= self.connections@.len(),
                best < self.connections@.len(),
                lru_index(self.connections@) == lru_from(self.connections@, i as int, best as int),
            decreases self.connections.len() - i,
        {
            if self.connections[i].last_used < self.connections[best].last_used {
                best = i;
            }
            i = i + 1;
        }
        best
    }

    fn retire_index(&mut self, i: usize) -> (r: Generation)
        requires
            i < old(self).model().connections.len(),
        ensures
            final(self).model() == retire_at(old(self).model(), i as int),
            final(self).config_spec() == old(self).config_spec(),
            r == (Generation {
                key: old(self).model().connections[i as int].key,
                id: old(self).model().connections[i as int].id,
            }),
    {
        proof {
            use_type_invariant(&*self);
        }
        let ghost m = self.model();
        let mut moved: Vec<Pooled> = Vec::new();
        std::mem::swap(&mut moved, &mut self.connections);
        let p = moved.remove(i);
        proof {
            lemma_remove_distinct(m.connections, i as int);
        }
        self.connections = moved;
        let out = Generation { key: p.key.clone(), id: p.id };
        if p.active {
            let mut retiring: Vec<Generation> = Vec::new();
            std::mem::swap(&mut retiring, &mut self.retiring);
            retiring.push(Generation { key: p.key, id: p.id });
            self.retiring = retiring;
        } else {
            match generation_position(&self.pending, &p.key, p.id) {
                Some(j) => {
                    let mut pending: Vec<Generation> = Vec::new();
                    std::mem::swap(&mut pending, &mut self.pending);
                    pending.remove(j);
                    self.pending = pending;
                },
                None => {},
            }
        }
        proof {
            assert(self.model() =~= retire_at(m, i as int));
        }
        out
    }

    /// Retire the connection held for a key, if there is one: it stops routing traffic, and the
    /// caller cancels its task. A live one is owed its close notification; one still waiting to
    /// start never starts.
    pub fn retire(&mut self, key: &ConnectionKey) -> (r: Option<Generation>)
        ensures
            model_wf(final(self).model()),
            ids_below_counter(old(self).model()) ==> ids_below_counter(final(self).model()),
            final(self).model() == retire_spec(old(self).model(), key_view(*key)),
            final(self).config_spec() == old(self).config_spec(),
            match find_key(old(self).model().connections, key_view(*key)) {
                Some(i) => r == Some(
                    Generation {
                        key: old(self).model().connections[i].key,
                        id: old(self).model().connections[i].id,
                    },
                ),
                None => r is None,
            },
    {
        proof {
            use_type_invariant(&*self);
        }
        match self.position(key) {
            Some(i) => {
                proof {
                    lemma_retire_at_wf(self.model(), i as int);
                }
                Some(self.retire_index(i))
            },
            None => None,
        }
    }

    /// Note that the connection held for a key has just carried something.
    pub fn touch(&mut self, key: &ConnectionKey, now: u64)
        ensures
            model_wf(final(self).model()),
            ids_below_counter(old(self).model()) ==> ids_below_counter(final(self).model()),
            final(self).config_spec() == old(self).config_spec(),
            final(self).model().retiring == old(self).model().retiring,
            final(self).model().pending == old(self).model().pending,
            final(self).model().next_id == old(self).model().next_id,
            final(self).model().max == old(self).model().max,
            match find_key(old(self).model().connections, key_view(*key)) {
                Some(i) => {
                    let p = old(self).model().connections[i];
                    final(self).model().connections == old(self).model().connections.update(
                        i,
                        Pooled { key: p.key, id: p.id, origin: p.origin, last_used: now, active: p.active },
                    )
                },
                None => final(self).model().connections == old(self).model().connections,
            },
    {
        proof {
            use_type_invariant(&*self);
        }
        let ghost m = self.model();
        if let Some(i) = self.position(key) {
            let mut moved: Vec<Pooled> = Vec::new();
            std::mem::swap(&mut moved, &mut self.connections);
            let mut p = moved.remove(i);
            p.last_used = now;
            moved.insert(i, p);
            proof {
                let q = m.connections[i as int];
                assert(moved@ =~= m.connections.update(
                    i as int,
                    Pooled { key: q.key, id: q.id, origin: q.origin, last_used: now, active: q.active },
                ));
                let c = moved@;
                assert forall|a: int, b: int| 0 <= a < b < c.len() implies key_view(
                    (#[trigger] c[a]).key,
                ) != key_view((#[trigger] c[b]).key) by {
                    assert(key_view(c[a].key) == key_view(m.connections[a].key));
                    assert(key_view(c[b].key) == key_view(m.connections[b].key));
                    assert(key_view(m.connections[a].key) != key_view(m.connections[b].key));
                }
                if ids_below_counter(m) {
                    assert forall|k: int| 0 <= k < c.len() implies (#[trigger] c[k]).id < self.next_id by {
                        assert(c[k].id == m.connections[k].id);
                    }
                }
            }
            self.connections = moved;
        }
    }

    /// Admit a connection for a key at `now`, with `live` tasks running.
    ///
    /// The connection this key already has, or at the limit the least recently used one, is
    /// retired, and never both: replacing one key must not evict an unrelated connection. The
    /// new generation starts at once only while fewer than the limit's tasks are live; otherwise
    /// it waits for [`Pool::activate_pending`].
    pub fn register(&mut self, key: ConnectionKey, origin: Origin, now: u64, live: usize) -> (r:
        Result<Registration, Error>)
        ensures
            model_wf(final(self).model()),
            ids_below_counter(old(self).model()) && old(self).model().next_id < u64::MAX
                ==> ids_below_counter(final(self).model()),
            final(self).config_spec() == old(self).config_spec(),
            final(self).model() == register_spec(old(self).model(), key, origin, now, live).0,
            match register_spec(old(self).model(), key, origin, now, live).1 {
                Some((id, start)) => r matches Ok(reg) && reg.id == id && reg.start_now == start
                    && reg.retired == displaced(old(self).model(), key_view(key)),
                None => r matches Err(Error::ConnectionCapacity { max }) && max == old(
                    self,
                ).model().max,
            },
    {
        proof {
            use_type_invariant(&*self);
        }
        let ghost m = self.model();
        let ghost kv = key_view(key);
        proof {
            lemma_first_match(m.connections, is_key(kv), 0);
        }
        let retired = match self.position(&key) {
            Some(i) => {
                proof {
                    lemma_retire_at_wf(m, i as int);
                    lemma_remove_distinct(m.connections, i as int);
                }
                Some(self.retire_index(i))
            },
            None => {
                if self.connections.len() >= self.config.max_connections && self.connections.len()
                    > 0 {
                    let v = self.lru();
                    proof {
                        lemma_retire_at_wf(m, v as int);
                        lemma_absent_after_remove(m.connections, v as int, kv);
                    }
                    Some(self.retire_index(v))
                } else {
                    None
                }
            },
        };
        let ghost m1 = self.model();
        proof {
            assert(find_key(m1.connections, kv) is None);
            assert(model_wf(m1));
            assert(ids_below_counter(m) ==> ids_below_counter(m1));
        }
        if self.connections.len() >= self.config.max_connections {
            return Err(Error::ConnectionCapacity { max: self.config.max_connections });
        }
        let id = self.next_id;
        let start_now = live < self.config.max_connections;
        if !start_now {
            let mut pending: Vec<Generation> = Vec::new();
            std::mem::swap(&mut pending, &mut self.pending);
            pending.push(Generation { key: key.clone(), id });
            self.pending = pending;
        }
        let mut moved: Vec<Pooled> = Vec::new();
        std::mem::swap(&mut moved, &mut self.connections);
        moved.push(Pooled { key, id, origin, last_used: now, active: start_now });
        proof {
            lemma_first_match(m1.connections, is_key(kv), 0);
            let c = moved@;
            assert(c =~= m1.connections.push(Pooled { key, id, origin, last_used: now, active: start_now }));
            assert forall|a: int, b: int| 0 <= a < b < c.len() implies key_view(
                (#[trigger] c[a]).key,
            ) != key_view((#[trigger] c[b]).key) by {
                if b == c.len() - 1 {
                    assert(c[a] == m1.connections[a]);
                    assert(!is_key(kv)(m1.connections[a]));
                } else {
                    assert(c[a] == m1.connections[a]);
                    assert(c[b] == m1.connections[b]);
                }
            }
        }
        self.connections = moved;
        let next = self.next_id.wrapping_add(1);
        self.next_id = if next > 1 {
            next
        } else {
            1
        };
        proof {
            let c = self.connections@;
            if ids_below_counter(m) && m.next_id < u64::MAX {
                let f = self.model();
                assert(f.next_id == m.next_id + 1);
                assert forall|k: int| 0 <= k < f.connections.len() implies (
                #[trigger] f.connections[k]).id < f.next_id by {
                    if k < m1.connections.len() {
                        assert(f.connections[k] == m1.connections[k]);
                    }
                }
                assert forall|k: int| 0 <= k < f.pending.len() implies (#[trigger] f.pending[k]).id
                    < f.next_id by {
                    if k < m1.pending.len() {
                        assert(f.pending[k] == m1.pending[k]);
                    }
                }
                assert forall|k: int| 0 <= k < f.retiring.len() implies (
                #[trigger] f.retiring[k]).id < f.next_id by {
                    assert(f.retiring[k] == m1.retiring[k]);
                }
            }
            assert(self.model() =~= register_spec(m, key, origin, now, live).0);
        }
        Ok(Registration { id, start_now, retired })
    }

    /// Start waiting generations, oldest first, while fewer than the limit's tasks are live,
    /// given `live` running now. A waiting generation whose key has since been retired or
    /// replaced is dropped unstarted. Returns the generations whose tasks the caller starts.
    pub fn activate_pending(&mut self, live: usize) -> (r: Vec<Generation>)
        ensures
            model_wf(final(self).model()),
            ids_below_counter(old(self).model()) ==> ids_below_counter(final(self).model()),
            final(self).config_spec() == old(self).config_spec(),
            final(self).model() == activate_spec(old(self).model(), old(self).model().max - live).0,
            r@ == activate_spec(old(self).model(), old(self).model().max - live).1,
    {
        proof {
            use_type_invariant(&*self);
        }
        let ghost m0 = self.model();
        let room: usize = if live < self.config.max_connections {
            self.config.max_connections - live
        } else {
            0
        };
        let mut started: Vec<Generation> = Vec::new();
        while started.len() < room && self.pending.len() > 0
            invariant
                started@.len() <= room,
                room as int == (if m0.max - live > 0 {
                    m0.max - live
                } else {
                    0
                }),
                model_wf(self.model()),
                ids_below_counter(m0) ==> ids_below_counter(self.model()),
                self.config == old(self).config,
                m0 == old(self).model(),
                activate_spec(m0, m0.max - live).0 == activate_spec(
                    self.model(),
                    room - started@.len(),
                ).0,
                activate_spec(m0, m0.max - live).1 == started@ + activate_spec(
                    self.model(),
                    room - started@.len(),
                ).1,
            decreases self.pending@.len(),
        {
            let ghost m = self.model();
            let ghost k = room - started@.len();
            let mut pending: Vec<Generation> = Vec::new();
            std::mem::swap(&mut pending, &mut self.pending);
            let g = pending.remove(0);
            self.pending = pending;
            proof {
                assert(self.pending@ =~= m.pending.drop_first());
            }
            match self.position(&g.key) {
                Some(i) => {
                    if self.connections[i].id == g.id {
                        let mut moved: Vec<Pooled> = Vec::new();
                        std::mem::swap(&mut moved, &mut self.connections);
                        let mut p = moved.remove(i);
                        p.active = true;
                        moved.insert(i, p);
                        proof {
                            let q = m.connections[i as int];
                            assert(moved@ =~= m.connections.update(
                                i as int,
                                Pooled { key: q.key, id: q.id, origin: q.origin, last_used: q.last_used, active: true },
                            ));
                            let c = moved@;
                            assert forall|a: int, b: int| 0 <= a < b < c.len() implies key_view(
                                (#[trigger] c[a]).key,
                            ) != key_view((#[trigger] c[b]).key) by {
                                assert(key_view(c[a].key) == key_view(m.connections[a].key));
                                assert(key_view(c[b].key) == key_view(m.connections[b].key));
                                assert(key_view(m.connections[a].key) != key_view(m.connections[b].key));
                            }
                        }
                        self.connections = moved;
                        proof {
                            let c = self.connections@;
                            if ids_below_counter(m0) {
                                assert forall|j: int| 0 <= j < c.len() implies (#[trigger] c[j]).id
                                    < self.next_id by {
                                    assert(c[j].id == m.connections[j].id);
                                }
                                assert forall|j: int| 0 <= j < self.pending@.len() implies (
                                #[trigger] self.pending@[j]).id < self.next_id by {
                                    assert(self.pending@[j] == m.pending[j + 1]);
                                }
                            }
                            let (_, rest) = activate_spec(self.model(), k - 1);
                            assert(activate_spec(m, k).1 == seq![g] + rest);
                            assert(started@.push(g) + rest =~= started@ + (seq![g] + rest));
                        }
                        started.push(g);
                    } else {
                        proof {
                            if ids_below_counter(m0) {
                                assert forall|j: int| 0 <= j < self.pending@.len() implies (
                                #[trigger] self.pending@[j]).id < self.next_id by {
                                    assert(self.pending@[j] == m.pending[j + 1]);
                                }
                            }
                            assert(self.model() =~= (PoolModel {
                                connections: m.connections,
                                retiring: m.retiring,
                                pending: m.pending.drop_first(),
                                next_id: m.next_id,
                                max: m.max,
                            }));
                        }
                    }
                },
                None => {
                    proof {
                        if ids_below_counter(m0) {
                            assert forall|j: int| 0 <= j < self.pending@.len() implies (
                            #[trigger] self.pending@[j]).id < self.next_id by {
                                assert(self.pending@[j] == m.pending[j + 1]);
                            }
                        }
                        assert(self.model() =~= (PoolModel {
                            connections: m.connections,
                            retiring: m.retiring,
                            pending: m.pending.drop_first(),
                            next_id: m.next_id,
                            max: m.max,
                        }));
                    }
                },
            }
        }
        proof {
            assert(started@ + Seq::<Generation>::empty() =~= started@);
        }
        started
    }

    /// Forget a generation that has closed: the connection routing its key if it is that
    /// generation, else a retiring one. Whether either was found.
    ///
    /// A close reported for a stale generation never removes the connection that replaced it.
    pub fn remove(&mut self, key: &ConnectionKey, id: u64) -> (r: bool)
        ensures
            model_wf(final(self).model()),
            ids_below_counter(old(self).model()) ==> ids_below_counter(final(self).model()),
            final(self).config_spec() == old(self).config_spec(),
            final(self).model() == remove_spec(old(self).model(), key_view(*key), id).0,
            r == remove_spec(old(self).model(), key_view(*key), id).1,
    {
        proof {
            use_type_invariant(&*self);
        }
        let ghost m = self.model();
        if let Some(i) = self.position(key) {
            if self.connections[i].id == id {
                let mut moved: Vec<Pooled> = Vec::new();
                std::mem::swap(&mut moved, &mut self.connections);
                moved.remove(i);
                proof {
                    lemma_remove_distinct(m.connections, i as int);
                }
                self.connections = moved;
                proof {
                    lemma_retire_at_wf(m, i as int);
                    if ids_below_counter(m) {
                        let c = self.connections@;
                        assert forall|k: int| 0 <= k < c.len() implies (#[trigger] c[k]).id
                            < self.next_id by {
                            let k2 = if k < i {
                                k
                            } else {
                                k + 1
                            };
                            assert(c[k] == m.connections[k2]);
                        }
                    }
                    assert(self.model() =~= remove_spec(m, key_view(*key), id).0);
                }
                return true;
            }
        }
        match generation_position(&self.retiring, key, id) {
            Some(j) => {
                let mut retiring: Vec<Generation> = Vec::new();
                std::mem::swap(&mut retiring, &mut self.retiring);
                retiring.remove(j);
                self.retiring = retiring;
                proof {
                    if ids_below_counter(m) {
                        let q = self.retiring@;
                        assert forall|k: int| 0 <= k < q.len() implies (#[trigger] q[k]).id
                            < self.next_id by {
                            let k2 = if k < j {
                                k
                            } else {
                                k + 1
                            };
                            assert(q[k] == m.retiring[k2]);
                        }
                    }
                    assert(self.model() =~= remove_spec(m, key_view(*key), id).0);
                }
                true
            },
            None => false,
        }
    }

    /// Retire every connection idle for longer than the configured timeout at `now`, on the
    /// caller's clock in nanoseconds. Returns what was retired, in the order the pool holds it.
    pub fn evict_idle(&mut self, now: u64) -> (r: Vec<Generation>)
        ensures
            model_wf(final(self).model()),
            ids_below_counter(old(self).model()) ==> ids_below_counter(final(self).model()),
            final(self).config_spec() == old(self).config_spec(),
            final(self).model() == evict_from(
                old(self).model(),
                0,
                now,
                old(self).config_spec().idle_timeout_nanos,
            ),
            r@ == evicted_from(old(self).model(), 0, now, old(self).config_spec().idle_timeout_nanos),
    {
        proof {
            use_type_invariant(&*self);
        }
        let ghost m0 = self.model();
        let timeout = self.config.idle_timeout_nanos;
        let mut out: Vec<Generation> = Vec::new();
        let mut i: usize = 0;
        while i < self.connections.len()
            invariant
                i <= self.connections@.len(),
                model_wf(self.model()),
                ids_below_counter(m0) ==> ids_below_counter(self.model()),
                self.config == old(self).config,
                timeout == self.config.idle_timeout_nanos,
                evict_from(m0, 0, now, timeout) == evict_from(self.model(), i as int, now, timeout),
                evicted_from(m0, 0, now, timeout) == out@ + evicted_from(
                    self.model(),
                    i as int,
                    now,
                    timeout,
                ),
            decreases self.connections@.len() - i,
        {
            let last_used = self.connections[i].last_used;
            if now >= last_used && now - last_used > timeout {
                let ghost m = self.model();
                proof {
                    lemma_retire_at_wf(m, i as int);
                }
                let g = self.retire_index(i);
                proof {
                    let rest = evicted_from(self.model(), i as int, now, timeout);
                    assert(evicted_from(m, i as int, now, timeout) == seq![g] + rest);
                    assert(out@.push(g) + rest =~= out@ + (seq![g] + rest));
                }
                out.push(g);
            } else {
                i = i + 1;
            }
        }
        proof {
            assert(out@ + Seq::<Generation>::empty() =~= out@);
        }
        out
    }

    /// Forget everything: the caller cancels every task it holds.
    pub fn shutdown(&mut self)
        ensures
            model_wf(final(self).model()),
            ids_below_counter(final(self).model()),
            final(self).config_spec() == old(self).config_spec(),
            final(self).model().connections.len() == 0,
            final(self).model().retiring.len() == 0,
            final(self).model().pending.len() == 0,
            final(self).model().next_id == old(self).model().next_id,
    {
        proof {
            use_type_invariant(&*self);
        }
        self.connections = Vec::new();
        self.retiring = Vec::new();
        self.pending = Vec::new();
    }
}

/// A close reported for a stale generation never removes the connection that replaced it: a
/// replacement is a new generation, and forgetting the old one leaves the new one routing its
/// key.
pub proof fn a_stale_close_never_removes_its_replacement(
    m: PoolModel,
    key: ConnectionKey,
    origin: Origin,
    now: u64,
    live: usize,
    stale: u64,
)
    requires
        model_wf(m),
        ids_below_counter(m),
        m.next_id < u64::MAX,
        find_key(m.connections, key_view(key)) matches Some(i) && m.connections[i].id == stale,
    ensures
        ({
            let (m2, r) = register_spec(m, key, origin, now, live);
            &&& r matches Some((id, _)) && id != stale && (find_key(m2.connections, key_view(key)) matches Some(
                j,
            ) && m2.connections[j].id == id)
            &&& remove_spec(m2, key_view(key), stale).0.connections == m2.connections
        }),
{
    let kv = key_view(key);
    let i = find_key(m.connections, kv).unwrap();
    lemma_first_match(m.connections, is_key(kv), 0);
    lemma_retire_at_wf(m, i);
    let m1 = retire_at(m, i);
    let (m2, r) = register_spec(m, key, origin, now, live);
    assert(m1.connections.len() < m1.max);
    let last = m2.connections.len() - 1;
    assert(m2.connections[last].key == key);
    lemma_remove_distinct(m.connections, i);
    lemma_first_match(m1.connections, is_key(kv), 0);
    assert forall|a: int, b: int| 0 <= a < b < m2.connections.len() implies key_view(
        (#[trigger] m2.connections[a]).key,
    ) != key_view((#[trigger] m2.connections[b]).key) by {
        if b == last {
            assert(m2.connections[a] == m1.connections[a]);
            assert(!is_key(kv)(m1.connections[a]));
        } else {
            assert(m2.connections[a] == m1.connections[a]);
            assert(m2.connections[b] == m1.connections[b]);
        }
    }
    lemma_find_held(m2.connections, last);
}

/// Replacing the connection a key already has retires that connection alone: every connection
/// for another key is still held, untouched.
pub proof fn replacing_a_key_keeps_every_other_connection(
    m: PoolModel,
    key: ConnectionKey,
    origin: Origin,
    now: u64,
    live: usize,
)
    requires
        model_wf(m),
        find_key(m.connections, key_view(key)) is Some,
    ensures
        forall|j: int|
            0 <= j < m.connections.len() && key_view((#[trigger] m.connections[j]).key) != key_view(
                key,
            ) ==> register_spec(m, key, origin, now, live).0.connections.contains(m.connections[j]),
{
    let kv = key_view(key);
    let i = find_key(m.connections, kv).unwrap();
    lemma_first_match(m.connections, is_key(kv), 0);
    lemma_retire_at_wf(m, i);
    let m1 = retire_at(m, i);
    let m2 = register_spec(m, key, origin, now, live).0;
    assert forall|j: int|
        0 <= j < m.connections.len() && key_view((#[trigger] m.connections[j]).key) != kv implies m2.connections.contains(
        m.connections[j],
    ) by {
        let j2 = if j < i {
            j
        } else {
            j - 1
        };
        assert(j != i);
        assert(m1.connections[j2] == m.connections[j]);
        assert(m2.connections[j2] == m1.connections[j2]);
    }
}

/// At the limit, a new key displaces the connection used longest ago.
pub proof fn the_least_recently_used_connection_makes_room(m: PoolModel, key: ConnectionKey)
    requires
        model_wf(m),
        find_key(m.connections, key_view(key)) is None,
        m.connections.len() >= m.max,
        m.connections.len() > 0,
    ensures
        0 <= lru_index(m.connections) < m.connections.len(),
        displaced(m, key_view(key)) == Some(
            Generation {
                key: m.connections[lru_index(m.connections)].key,
                id: m.connections[lru_index(m.connections)].id,
            },
        ),
        forall|j: int|
            0 <= j < m.connections.len() ==> m.connections[lru_index(m.connections)].last_used <= (
            #[trigger] m.connections[j]).last_used,
{
    lemma_lru(m.connections, 1, 0);
}

/// Starting waiting generations never starts more than there is room for.
pub proof fn activation_never_exceeds_the_room(m: PoolModel, room: int)
    ensures
        activate_spec(m, room).1.len() <= (if room > 0 {
            room
        } else {
            0
        }),
    decreases m.pending.len(),
{
    if room > 0 && m.pending.len() > 0 {
        let g = m.pending[0];
        let rest = PoolModel {
            connections: m.connections,
            retiring: m.retiring,
            pending: m.pending.drop_first(),
            next_id: m.next_id,
            max: m.max,
        };
        match find_key(m.connections, key_view(g.key)) {
            Some(i) => {
                if m.connections[i].id == g.id {
                    let p = m.connections[i];
                    let on = PoolModel {
                        connections: m.connections.update(
                            i,
                            Pooled { key: p.key, id: p.id, origin: p.origin, last_used: p.last_used, active: true },
                        ),
                        retiring: rest.retiring,
                        pending: rest.pending,
                        next_id: rest.next_id,
                        max: rest.max,
                    };
                    activation_never_exceeds_the_room(on, room - 1);
                } else {
                    activation_never_exceeds_the_room(rest, room);
                }
            },
            None => {
                activation_never_exceeds_the_room(rest, room);
            },
        }
    }
}

fn generation_position(q: &Vec<Generation>, key: &ConnectionKey, id: u64) -> (r: Option<usize>)
    ensures
        r matches Some(k) ==> find_generation(q@, key_view(*key), id) == Some(k as int) && k < q@.len(),
        r is None ==> find_generation(q@, key_view(*key), id) is None,
{
    let ghost kv = key_view(*key);
    let mut i: usize = 0;
    while i < q.len()
        invariant
            i <= q@.len(),
            kv == key_view(*key),
            forall|j: int| 0 <= j < i ==> !is_generation(kv, id)(#[trigger] q@[j]),
        decreases q.len() - i,
    {
        if q[i].id == id && same_key(&q[i].key, key) {
            proof {
                lemma_first_match(q@, is_generation(kv, id), 0);
                assert(is_generation(kv, id)(q@[i as int]));
            }
            return Some(i);
        }
        i = i + 1;
    }
    proof {
        lemma_first_match(q@, is_generation(kv, id), 0);
    }
    None
}

} // verus!
