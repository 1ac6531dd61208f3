//! A stable insertion sort by an integer key, proved to order its input and to lose nothing.

use vstd::prelude::*;

verus! {

broadcast use vstd::seq_lib::group_to_multiset_ensures;

/// A record ordered by an integer key.
pub trait Keyed {
    /// The key, as a value.
    spec fn key_spec(&self) -> u32;

    /// The key.
    fn key(&self) -> (k: u32)
        ensures
            k == self.key_spec(),
    ;
}

/// Whether the keys never decrease along `s`.
pub open spec fn sorted_by_key<T: Keyed>(s: Seq<T>) -> bool {
    forall|i: int, j: int| 0 <= i <= j < s.len() ==> s[i].key_spec() <= s[j].key_spec()
}

/// Where a record with key `k` goes in `s`: after the last record whose key is not greater.
pub open spec fn insert_pos<T: Keyed>(s: Seq<T>, k: u32) -> int
    decreases s.len(),
{
    if s.len() == 0 {
        0
    } else if k < s.last().key_spec() {
        insert_pos(s.drop_last(), k)
    } else {
        s.len() as int
    }
}

/// The stable sort of `s` by key: each record in turn is placed after every record before it
/// whose key is not greater, so records with equal keys keep their order.
pub open spec fn stable_sort<T: Keyed>(s: Seq<T>) -> Seq<T>
    decreases s.len(),
{
    if s.len() == 0 {
        s
    } else {
        let r = stable_sort(s.drop_last());
        r.insert(insert_pos(r, s.last().key_spec()), s.last())
    }
}

/// In a sorted sequence, the insertion point splits the keys that are not greater from those
/// that are.
pub proof fn lemma_insert_pos<T: Keyed>(s: Seq<T>, k: u32)
    requires
        sorted_by_key(s),
    ensures
        0 <= insert_pos(s, k) <= s.len(),
        forall|i: int| 0 <= i < insert_pos(s, k) ==> (#[trigger] s[i]).key_spec() <= k,
        forall|i: int| insert_pos(s, k) <= i < s.len() ==> (#[trigger] s[i]).key_spec() > k,
    decreases s.len(),
{
    if s.len() > 0 {
        if k < s.last().key_spec() {
            lemma_insert_pos(s.drop_last(), k);
            assert forall|i: int| 0 <= i < insert_pos(s, k) implies (#[trigger] s[i]).key_spec()
                <= k by {
                assert(s[i] == s.drop_last()[i]);
            }
            assert forall|i: int| insert_pos(s, k) <= i < s.len() implies (#[trigger] s[
                i
            ]).key_spec() > k by {
                if i < s.len() - 1 {
                    assert(s[i] == s.drop_last()[i]);
                }
            }
        }
    }
}

/// The stable sort orders by key, keeps every record, and has the input's length.
pub proof fn lemma_stable_sort<T: Keyed>(s: Seq<T>)
    ensures
        sorted_by_key(stable_sort(s)),
        stable_sort(s).to_multiset() == s.to_multiset(),
        stable_sort(s).len() == s.len(),
    decreases s.len(),
{
    if s.len() > 0 {
        let r = stable_sort(s.drop_last());
        lemma_stable_sort(s.drop_last());
        let x = s.last();
        let p = insert_pos(r, x.key_spec());
        lemma_insert_pos(r, x.key_spec());
        let out = r.insert(p, x);
        assert forall|i: int, j: int| 0 <= i <= j < out.len() implies out[i].key_spec()
            <= out[j].key_spec() by {
            if i < p && j < p {
            } else if i < p && j == p {
            } else if i < p {
                assert(out[j] == r[j - 1]);
            } else if i == p && j == p {
            } else if i == p {
                assert(out[j] == r[j - 1]);
            } else {
                assert(out[i] == r[i - 1]);
                assert(out[j] == r[j - 1]);
            }
        }
        assert(s =~= s.drop_last().push(x));
    }
}

/// The position of a record with key `k` in `s`, searched from the end.
fn insert_position<T: Keyed>(s: &Vec<T>, k: u32) -> (p: usize)
    ensures
        p == insert_pos(s@, k),
        p <= s@.len(),
{
    let mut p = s.len();
    proof {
        assert(s@.take(p as int) =~= s@);
    }
    while p > 0
        invariant
            p <= s@.len(),
            insert_pos(s@, k) == insert_pos(s@.take(p as int), k),
        decreases p,
    {
        let below = s[p - 1].key();
        proof {
            assert(s@.take(p as int).last() == s@[p - 1]);
            assert(s@.take(p as int).drop_last() =~= s@.take(p - 1));
        }
        if k < below {
            p = p - 1;
        } else {
            return p;
        }
    }
    p
}

/// Sort by key, keeping records with equal keys in the order they came.
pub fn sort_by_key<T: Keyed>(items: Vec<T>) -> (r: Vec<T>)
    ensures
        r@ == stable_sort(items@),
{
    let ghost orig = items@;
    let mut rest = items;
    let mut out: Vec<T> = Vec::new();
    let ghost mut i: int = 0;
    while rest.len() > 0
        invariant
            0 <= i <= orig.len(),
            rest@ == orig.skip(i),
            out@ == stable_sort(orig.take(i)),
        decreases rest@.len(),
    {
        let x = rest.remove(0);
        let k = x.key();
        let p = insert_position(&out, k);
        proof {
            assert(orig.take(i + 1).drop_last() =~= orig.take(i));
            assert(orig.take(i + 1).last() == x);
            assert(orig.skip(i).remove(0) =~= orig.skip(i + 1));
        }
        out.insert(p, x);
        proof {
            i = i + 1;
        }
    }
    proof {
        assert(orig.take(i) =~= orig);
    }
    out
}

} // verus!
