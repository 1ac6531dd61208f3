//! An earliest-deadline-first timer queue.
//!
//! One queue for a whole driver, not a task per timer. **The queue does not read the clock**:
//! `now` is an argument to [`TimerQueue::set`] and to [`TimerQueue::take_due`], so a driver on
//! virtual time uses the same queue the endpoint does. Instants and durations are counts of
//! the caller's own unit (milliseconds, ticks of a simulation), and keys are the caller's own
//! numbering of its timers.
//!
//! The pending timers are held in deadline order, at most one per key. Setting a key that is
//! already scheduled replaces it; clearing a key removes it at once, so a queue full of
//! cancelled timers never keeps waking the loop.

use vstd::prelude::*;

verus! {

/// One scheduled timer.
#[derive(Debug, Clone, Copy, PartialEq, Eq)]
pub struct Scheduled {
    /// When it is due.
    pub deadline: u64,
    /// Which timer it is.
    pub key: u64,
}

/// Pending timers, earliest first.
#[derive(Debug)]
pub struct TimerQueue {
    entries: Vec<Scheduled>,
}

/// Whether the deadlines of `s` never decrease.
pub open spec fn deadline_ordered(s: Seq<Scheduled>) -> bool {
    forall|i: int, j: int| 0 <= i <= j < s.len() ==> s[i].deadline <= s[j].deadline
}

/// Whether no key occurs twice in `s`.
pub open spec fn keys_distinct(s: Seq<Scheduled>) -> bool {
    forall|i: int, j: int| 0 <= i < j < s.len() ==> s[i].key != s[j].key
}

/// Whether `k` has a timer in `s`.
pub open spec fn has_key(s: Seq<Scheduled>, k: u64) -> bool {
    exists|i: int| 0 <= i < s.len() && s[i].key == k
}

/// The deadline of `k` in `s`, for a key that has a timer there.
pub open spec fn deadline_of(s: Seq<Scheduled>, k: u64) -> u64 {
    s[choose|i: int| 0 <= i < s.len() && s[i].key == k].deadline
}

/// The pending timers as a map from key to deadline.
pub open spec fn as_map(s: Seq<Scheduled>) -> Map<u64, u64> {
    Map::new(|k: u64| has_key(s, k), |k: u64| deadline_of(s, k))
}

/// The keys of `s`, in order.
pub open spec fn keys_of(s: Seq<Scheduled>) -> Seq<u64> {
    s.map_values(|e: Scheduled| e.key)
}

/// How many entries of `s` are due at `now`.
pub open spec fn due_count(s: Seq<Scheduled>, now: u64) -> nat
    decreases s.len(),
{
    if s.len() == 0 {
        0
    } else if s[0].deadline <= now {
        1 + due_count(s.drop_first(), now)
    } else {
        0
    }
}

proof fn lemma_as_map_deadline(s: Seq<Scheduled>, i: int)
    requires
        keys_distinct(s),
        0 <= i < s.len(),
    ensures
        as_map(s).contains_key(s[i].key),
        as_map(s)[s[i].key] == s[i].deadline,
{
    let k = s[i].key;
    assert(has_key(s, k));
    let j = choose|j: int| 0 <= j < s.len() && s[j].key == k;
    if j != i {
        if j < i {
            assert(s[j].key != s[i].key);
        } else {
            assert(s[i].key != s[j].key);
        }
    }
}

proof fn lemma_remove_facts(s: Seq<Scheduled>, i: int)
    requires
        keys_distinct(s),
        0 <= i < s.len(),
    ensures
        keys_distinct(s.remove(i)),
        deadline_ordered(s) ==> deadline_ordered(s.remove(i)),
        as_map(s.remove(i)) =~= as_map(s).remove(s[i].key),
{
    let t = s.remove(i);
    let k = s[i].key;
    assert forall|a: int, b: int| 0 <= a < b < t.len() implies t[a].key != t[b].key by {
        let aa = if a < i { a } else { a + 1 };
        let bb = if b < i { b } else { b + 1 };
        assert(t[a] == s[aa]);
        assert(t[b] == s[bb]);
    }
    if deadline_ordered(s) {
        assert forall|a: int, b: int| 0 <= a <= b < t.len() implies t[a].deadline
            <= t[b].deadline by {
            let aa = if a < i { a } else { a + 1 };
            let bb = if b < i { b } else { b + 1 };
            assert(t[a] == s[aa]);
            assert(t[b] == s[bb]);
        }
    }
    assert forall|key: u64| #[trigger] as_map(t).contains_key(key) == as_map(s).remove(
        k,
    ).contains_key(key) by {
        if has_key(t, key) {
            let n = choose|n: int| 0 <= n < t.len() && t[n].key == key;
            let nn = if n < i { n } else { n + 1 };
            assert(s[nn] == t[n]);
            assert(s[nn].key != s[i].key);
        }
        if has_key(s, key) && key != k {
            let m = choose|m: int| 0 <= m < s.len() && s[m].key == key;
            assert(m != i);
            let mm = if m < i { m } else { m - 1 };
            assert(t[mm] == s[m]);
        }
    }
    assert forall|key: u64| #[trigger] as_map(t).contains_key(key) implies as_map(t)[key]
        == as_map(s).remove(k)[key] by {
        let n = choose|n: int| 0 <= n < t.len() && t[n].key == key;
        let nn = if n < i { n } else { n + 1 };
        assert(s[nn] == t[n]);
        lemma_as_map_deadline(t, n);
        lemma_as_map_deadline(s, nn);
    }
}

/// Inserting `e` after every entry due no later than it keeps the order and the map.
proof fn lemma_insert_facts(s: Seq<Scheduled>, at: int, e: Scheduled)
    requires
        keys_distinct(s),
        deadline_ordered(s),
        !has_key(s, e.key),
        0 <= at <= s.len(),
        forall|i: int| 0 <= i < at ==> s[i].deadline <= e.deadline,
        forall|i: int| at <= i < s.len() ==> s[i].deadline > e.deadline,
    ensures
        keys_distinct(s.insert(at, e)),
        deadline_ordered(s.insert(at, e)),
        as_map(s.insert(at, e)) =~= as_map(s).insert(e.key, e.deadline),
{
    let t = s.insert(at, e);
    assert forall|i: int, j: int| 0 <= i < j < t.len() implies t[i].key != t[j].key by {
        if i == at {
            assert(t[j] == s[j - 1]);
        } else if j == at {
            assert(t[i] == s[i]);
        } else {
            let ii = if i < at { i } else { i - 1 };
            let jj = if j < at { j } else { j - 1 };
            assert(t[i] == s[ii]);
            assert(t[j] == s[jj]);
        }
    }
    assert forall|key: u64| #[trigger] as_map(t).contains_key(key) == as_map(s).insert(
        e.key,
        e.deadline,
    ).contains_key(key) by {
        if has_key(s, key) {
            let m = choose|m: int| 0 <= m < s.len() && s[m].key == key;
            let mm = if m < at { m } else { m + 1 };
            assert(t[mm].key == key);
        }
        if key == e.key {
            assert(t[at].key == key);
        }
        if has_key(t, key) {
            let n = choose|n: int| 0 <= n < t.len() && t[n].key == key;
            if n != at {
                let nn = if n < at { n } else { n - 1 };
                assert(s[nn].key == key);
            }
        }
    }
    assert forall|key: u64| #[trigger] as_map(t).contains_key(key) implies as_map(t)[key]
        == as_map(s).insert(e.key, e.deadline)[key] by {
        let n = choose|n: int| 0 <= n < t.len() && t[n].key == key;
        lemma_as_map_deadline(t, n);
        if n != at {
            let nn = if n < at { n } else { n - 1 };
            assert(s[nn] == t[n]);
            lemma_as_map_deadline(s, nn);
        }
    }
}

proof fn lemma_due_prefix(s: Seq<Scheduled>, now: u64)
    requires
        deadline_ordered(s),
    ensures
        due_count(s, now) <= s.len(),
        forall|i: int| 0 <= i < due_count(s, now) ==> s[i].deadline <= now,
        forall|i: int| due_count(s, now) <= i < s.len() ==> s[i].deadline > now,
    decreases s.len(),
{
    if s.len() > 0 {
        let r = s.drop_first();
        assert(deadline_ordered(r));
        lemma_due_prefix(r, now);
        if s[0].deadline <= now {
            assert forall|i: int| 0 <= i < due_count(s, now) implies s[i].deadline <= now by {
                if i > 0 {
                    assert(s[i] == r[i - 1]);
                }
            }
            assert forall|i: int| due_count(s, now) <= i < s.len() implies s[i].deadline
                > now by {
                assert(s[i] == r[i - 1]);
            }
        }
    }
}

proof fn lemma_map_skip(s: Seq<Scheduled>, n: int)
    requires
        keys_distinct(s),
        deadline_ordered(s),
        0 <= n <= s.len(),
    ensures
        keys_distinct(s.skip(n)),
        deadline_ordered(s.skip(n)),
        forall|k: u64| #[trigger] as_map(s.skip(n)).contains_key(k) <==> (as_map(s).contains_key(
            k,
        ) && exists|i: int| n <= i < s.len() && s[i].key == k),
        forall|k: u64| #[trigger] as_map(s.skip(n)).contains_key(k) ==> as_map(s.skip(n))[k]
            == as_map(s)[k],
{
    let t = s.skip(n);
    assert forall|k: u64| #[trigger] as_map(t).contains_key(k) <==> (as_map(s).contains_key(k)
        && exists|i: int| n <= i < s.len() && s[i].key == k) by {
        if has_key(t, k) {
            let m = choose|m: int| 0 <= m < t.len() && t[m].key == k;
            assert(s[m + n].key == k);
        }
        if exists|i: int| n <= i < s.len() && s[i].key == k {
            let i = choose|i: int| n <= i < s.len() && s[i].key == k;
            assert(t[i - n].key == k);
        }
    }
    assert forall|k: u64| #[trigger] as_map(t).contains_key(k) implies as_map(t)[k]
        == as_map(s)[k] by {
        let m = choose|m: int| 0 <= m < t.len() && t[m].key == k;
        assert(keys_distinct(t));
        lemma_as_map_deadline(t, m);
        lemma_as_map_deadline(s, m + n);
    }
}

impl TimerQueue {
    /// The pending timers, in the order they will fire.
    pub closed spec fn timers(&self) -> Seq<Scheduled> {
        self.entries@
    }

    /// The pending timers as a map from key to deadline.
    pub open spec fn view(&self) -> Map<u64, u64> {
        as_map(self.timers())
    }

    /// Every queue keeps its timers in deadline order, one per key.
    #[verifier::type_invariant]
    pub open spec fn wf(&self) -> bool {
        &&& deadline_ordered(self.timers())
        &&& keys_distinct(self.timers())
    }

    /// An empty queue.
    pub fn new() -> (q: Self)
        ensures
            q.timers() == Seq::<Scheduled>::empty(),
            q@ =~= Map::<u64, u64>::empty(),
    {
        TimerQueue { entries: Vec::new() }
    }

    /// How many timers are pending.
    pub fn len(&self) -> (n: usize)
        ensures
            n == self.timers().len(),
    {
        self.entries.len()
    }

    /// Whether nothing is scheduled.
    pub fn is_empty(&self) -> (b: bool)
        ensures
            b == (self.timers().len() == 0),
            b == (self@.dom() =~= Set::<u64>::empty()),
    {
        proof {
            use_type_invariant(&*self);
        }
        if self.entries.len() > 0 {
            proof {
                lemma_as_map_deadline(self.timers(), 0);
            }
        }
        self.entries.len() == 0
    }

    /// Remove the timer for `key`, if there is one.
    fn remove_key(&mut self, key: u64)
        ensures
            final(self)@ =~= old(self)@.remove(key),
            final(self).timers().len() <= old(self).timers().len(),
    {
        proof {
            use_type_invariant(&*self);
        }
        let ghost s = self.entries@;
        let mut i: usize = 0;
        while i < self.entries.len()
            invariant
                i <= self.entries.len(),
                self.entries@ == s,
                s == old(self).entries@,
                keys_distinct(s),
                deadline_ordered(s),
                forall|j: int| 0 <= j < i ==> s[j].key != key,
            decreases self.entries.len() - i,
        {
            if self.entries[i].key == key {
                proof {
                    lemma_remove_facts(s, i as int);
                }
                let mut entries: Vec<Scheduled> = Vec::new();
                std::mem::swap(&mut entries, &mut self.entries);
                entries.remove(i);
                assert(entries@ == s.remove(i as int));
                self.entries = entries;
                return;
            }
            i = i + 1;
        }
        proof {
            assert(!has_key(s, key)) by {
                if has_key(s, key) {
                    let m = choose|m: int| 0 <= m < s.len() && s[m].key == key;
                    assert(s[m].key != key);
                }
            }
            assert(as_map(s).remove(key) =~= as_map(s));
        }
    }

    /// Schedule a timer for `after` from `now`, replacing any previous instance of the same key.
    pub fn set(&mut self, key: u64, now: u64, after: u64)
        requires
            now + after <= u64::MAX,
        ensures
            final(self)@ =~= old(self)@.insert(key, (now + after) as u64),
    {
        proof {
            use_type_invariant(&*self);
        }
        self.remove_key(key);
        proof {
            use_type_invariant(&*self);
        }
        let deadline = now + after;
        let ghost s = self.entries@;
        proof {
            assert(!as_map(s).contains_key(key));
        }
        let mut at: usize = 0;
        while at < self.entries.len() && self.entries[at].deadline <= deadline
            invariant
                at <= self.entries.len(),
                self.entries@ == s,
                forall|i: int| 0 <= i < at ==> s[i].deadline <= deadline,
            decreases self.entries.len() - at,
        {
            at = at + 1;
        }
        let e = Scheduled { deadline, key };
        proof {
            assert forall|i: int| at <= i < s.len() implies s[i].deadline > deadline by {
                if at < s.len() {
                    assert(s[at as int].deadline > deadline);
                }
            }
            lemma_insert_facts(s, at as int, e);
        }
        let mut entries: Vec<Scheduled> = Vec::new();
        std::mem::swap(&mut entries, &mut self.entries);
        entries.insert(at, e);
        self.entries = entries;
    }

    /// Cancel a timer.
    pub fn clear(&mut self, key: u64)
        ensures
            final(self)@ =~= old(self)@.remove(key),
    {
        self.remove_key(key);
    }

    /// Forget one timer key. Nothing it scheduled will fire, and a later schedule under the
    /// same key starts afresh.
    pub fn forget(&mut self, key: u64)
        ensures
            final(self)@ =~= old(self)@.remove(key),
    {
        self.remove_key(key);
    }

    /// Cancel every timer whose key matches.
    pub fn clear_matching<F: Fn(u64) -> bool>(&mut self, matches: F)
        requires
            forall|k: u64| call_requires(matches, (k,)),
        ensures
            forall|k: u64| #[trigger] final(self)@.contains_key(k) ==> old(self)@.contains_key(k)
                && final(self)@[k] == old(self)@[k] && call_ensures(matches, (k,), false),
            forall|k: u64| #[trigger] old(self)@.contains_key(k) && !final(self)@.contains_key(
                k,
            ) ==> call_ensures(matches, (k,), true),
    {
        self.retain_unmatched(matches);
    }

    /// Forget every key that matches.
    pub fn forget_matching<F: Fn(u64) -> bool>(&mut self, matches: F)
        requires
            forall|k: u64| call_requires(matches, (k,)),
        ensures
            forall|k: u64| #[trigger] final(self)@.contains_key(k) ==> old(self)@.contains_key(k)
                && final(self)@[k] == old(self)@[k] && call_ensures(matches, (k,), false),
            forall|k: u64| #[trigger] old(self)@.contains_key(k) && !final(self)@.contains_key(
                k,
            ) ==> call_ensures(matches, (k,), true),
    {
        self.retain_unmatched(matches);
    }

    fn retain_unmatched<F: Fn(u64) -> bool>(&mut self, matches: F)
        requires
            forall|k: u64| call_requires(matches, (k,)),
        ensures
            forall|k: u64| #[trigger] final(self)@.contains_key(k) ==> old(self)@.contains_key(k)
                && final(self)@[k] == old(self)@[k] && call_ensures(matches, (k,), false),
            forall|k: u64| #[trigger] old(self)@.contains_key(k) && !final(self)@.contains_key(
                k,
            ) ==> call_ensures(matches, (k,), true),
    {
        proof {
            use_type_invariant(&*self);
        }
        let ghost s = self.entries@;
        let mut kept: Vec<Scheduled> = Vec::new();
        let ghost mut idx: Seq<int> = Seq::empty();
        let mut i: usize = 0;
        while i < self.entries.len()
            invariant
                self.entries@ == s,
                keys_distinct(s),
                deadline_ordered(s),
                i <= s.len(),
                forall|k: u64| call_requires(matches, (k,)),
                idx.len() == kept@.len(),
                forall|a: int, b: int| 0 <= a < b < idx.len() ==> idx[a] < idx[b],
                forall|a: int|
                    0 <= a < idx.len() ==> 0 <= #[trigger] idx[a] < i && kept@[a] == s[idx[a]],
                forall|a: int|
                    0 <= a < kept@.len() ==> call_ensures(matches, (#[trigger] kept@[a].key,), false),
                forall|j: int|
                    0 <= j < i ==> (exists|a: int| 0 <= a < kept@.len() && #[trigger] kept@[a] == s[j])
                        || call_ensures(matches, (#[trigger] s[j].key,), true),
            decreases s.len() - i,
        {
            let e = self.entries[i];
            let hit = matches(e.key);
            let ghost old_kept = kept@;
            if !hit {
                kept.push(e);
                proof {
                    idx = idx.push(i as int);
                }
            }
            proof {
                assert forall|j: int| 0 <= j < i + 1 implies (exists|a: int|
                    0 <= a < kept@.len() && #[trigger] kept@[a] == s[j]) || call_ensures(
                    matches,
                    (#[trigger] s[j].key,),
                    true,
                ) by {
                    if j == i {
                        if !hit {
                            assert(kept@[kept@.len() - 1] == s[j]);
                        }
                    } else if exists|a: int| 0 <= a < old_kept.len() && #[trigger] old_kept[a] == s[j] {
                        let a = choose|a: int| 0 <= a < old_kept.len() && #[trigger] old_kept[a] == s[j];
                        assert(kept@[a] == s[j]);
                    }
                }
            }
            i = i + 1;
        }
        proof {
            let k2 = kept@;
            assert forall|a: int, b: int| 0 <= a < b < k2.len() implies k2[a].key != k2[b].key by {
                assert(idx[a] < idx[b]);
            }
            assert forall|a: int, b: int| 0 <= a <= b < k2.len() implies k2[a].deadline
                <= k2[b].deadline by {
                if a < b {
                    assert(idx[a] < idx[b]);
                }
            }
            assert forall|k: u64| #[trigger] as_map(k2).contains_key(k) implies as_map(
                s,
            ).contains_key(k) && as_map(k2)[k] == as_map(s)[k] && call_ensures(
                matches,
                (k,),
                false,
            ) by {
                let a = choose|a: int| 0 <= a < k2.len() && k2[a].key == k;
                assert(s[idx[a]].key == k);
                lemma_as_map_deadline(k2, a);
                lemma_as_map_deadline(s, idx[a]);
            }
            assert forall|k: u64| #[trigger] as_map(s).contains_key(k) && !as_map(
                k2,
            ).contains_key(k) implies call_ensures(matches, (k,), true) by {
                let j = choose|j: int| 0 <= j < s.len() && s[j].key == k;
                if exists|a: int| 0 <= a < k2.len() && #[trigger] k2[a] == s[j] {
                    let a = choose|a: int| 0 <= a < k2.len() && #[trigger] k2[a] == s[j];
                    assert(k2[a].key == k);
                    assert(has_key(k2, k));
                }
            }
        }
        self.entries = kept;
    }

    /// When the next timer is due, if any.
    pub fn next_deadline(&self) -> (d: Option<u64>)
        ensures
            d is None <==> self@.dom() =~= Set::<u64>::empty(),
            d matches Some(t) ==> (exists|k: u64| #[trigger] self@.contains_key(k) && self@[k]
                == t) && forall|k: u64| #[trigger] self@.contains_key(k) ==> t <= self@[k],
    {
        proof {
            use_type_invariant(&*self);
        }
        if self.entries.len() == 0 {
            None
        } else {
            proof {
                let s = self.timers();
                lemma_as_map_deadline(s, 0);
                assert forall|k: u64| #[trigger] self@.contains_key(k) implies s[0].deadline
                    <= self@[k] by {
                    let m = choose|m: int| 0 <= m < s.len() && s[m].key == k;
                    lemma_as_map_deadline(s, m);
                }
            }
            Some(self.entries[0].deadline)
        }
    }

    /// Take every timer due at or before `now`, earliest first.
    pub fn take_due(&mut self, now: u64) -> (fired: Vec<u64>)
        ensures
            fired@ == keys_of(old(self).timers().take(due_count(old(self).timers(), now) as int)),
            final(self).timers() == old(self).timers().skip(
                due_count(old(self).timers(), now) as int,
            ),
            forall|k: u64| #[trigger] fired@.contains(k) <==> (old(self)@.contains_key(k)
                && old(self)@[k] <= now),
            forall|a: int, b: int|
                0 <= a < b < fired@.len() ==> fired@[a] != fired@[b] && old(self)@[fired@[a]]
                    <= old(self)@[fired@[b]],
            forall|k: u64| #[trigger] final(self)@.contains_key(k) <==> (old(self)@.contains_key(
                k,
            ) && old(self)@[k] > now),
            forall|k: u64| #[trigger] final(self)@.contains_key(k) ==> final(self)@[k] == old(
                self,
            )@[k],
    {
        proof {
            use_type_invariant(&*self);
        }
        let ghost s = self.entries@;
        proof {
            lemma_due_prefix(s, now);
        }
        let ghost n = due_count(s, now) as int;
        let mut count: usize = 0;
        let mut fired: Vec<u64> = Vec::new();
        while count < self.entries.len() && self.entries[count].deadline <= now
            invariant
                self.entries@ == s,
                count <= s.len(),
                count <= n,
                n <= s.len(),
                forall|i: int| 0 <= i < n ==> s[i].deadline <= now,
                forall|i: int| n <= i < s.len() ==> s[i].deadline > now,
                fired@ == keys_of(s.take(count as int)),
            decreases s.len() - count,
        {
            fired.push(self.entries[count].key);
            proof {
                assert(keys_of(s.take(count as int + 1)) =~= keys_of(s.take(count as int)).push(
                    s[count as int].key,
                ));
            }
            count = count + 1;
        }
        proof {
            if count < n {
                assert(s[count as int].deadline <= now);
            }
            assert(count == n);
        }
        let mut entries: Vec<Scheduled> = Vec::new();
        std::mem::swap(&mut entries, &mut self.entries);
        let rest = entries.split_off(count);
        self.entries = rest;
        proof {
            lemma_map_skip(s, n);
            assert forall|k: u64| #[trigger] fired@.contains(k) <==> (as_map(s).contains_key(k)
                && as_map(s)[k] <= now) by {
                if fired@.contains(k) {
                    let a = choose|a: int| 0 <= a < fired@.len() && fired@[a] == k;
                    lemma_as_map_deadline(s, a);
                }
                if as_map(s).contains_key(k) && as_map(s)[k] <= now {
                    let m = choose|m: int| 0 <= m < s.len() && s[m].key == k;
                    lemma_as_map_deadline(s, m);
                    assert(m < n);
                    assert(fired@[m] == k);
                }
            }
            assert forall|a: int, b: int| 0 <= a < b < fired@.len() implies fired@[a]
                != fired@[b] && as_map(s)[fired@[a]] <= as_map(s)[fired@[b]] by {
                lemma_as_map_deadline(s, a);
                lemma_as_map_deadline(s, b);
            }
            assert forall|k: u64| #[trigger] as_map(s.skip(n)).contains_key(k) <==> (as_map(
                s,
            ).contains_key(k) && as_map(s)[k] > now) by {
                if as_map(s).contains_key(k) {
                    let m = choose|m: int| 0 <= m < s.len() && s[m].key == k;
                    lemma_as_map_deadline(s, m);
                    if as_map(s)[k] > now {
                        assert(m >= n);
                    } else {
                        assert(m < n);
                        assert forall|i: int| n <= i < s.len() implies s[i].key != k by {
                            assert(s[m].key != s[i].key);
                        }
                    }
                }
            }
        }
        fired
    }
}

} // verus!
