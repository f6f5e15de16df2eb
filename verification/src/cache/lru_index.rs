//! A table of bounded size from lists of numbers to positions, which gives up what was used
//! least recently.

use lru::{DefaultHasher, LruCache};
use std::num::NonZeroUsize;
use vstd::prelude::*;

verus! {

/// `LruCache` of lru; nothing is said of it but through the two names below.
#[verifier::external_type_specification]
#[verifier::external_body]
#[verifier::reject_recursive_types(K)]
#[verifier::reject_recursive_types(V)]
#[verifier::reject_recursive_types(S)]
pub struct ExLruCache<K, V, S>(LruCache<K, V, S>);

/// `DefaultHasher` of lru, the hasher of its caches.
#[verifier::external_type_specification]
#[verifier::external_body]
pub struct ExDefaultHasher(DefaultHasher);

/// The entries of an `LruCache`, the most recently used first.
pub uninterp spec fn lru_entries(c: LruCache<Vec<u64>, usize>) -> Seq<(Seq<u64>, usize)>;

/// The number of entries that an `LruCache` holds at most.
pub uninterp spec fn lru_limit(c: LruCache<Vec<u64>, usize>) -> nat;

/// The place of a key.
pub open spec fn place_of(e: Seq<(Seq<u64>, usize)>, key: Seq<u64>, i: int) -> Option<int>
    decreases e.len() - i,
{
    if i < 0 || i >= e.len() {
        None
    } else if e[i].0 == key {
        Some(i)
    } else {
        place_of(e, key, i + 1)
    }
}

/// The entries with one of them put in front.
pub open spec fn to_front(e: Seq<(Seq<u64>, usize)>, i: int, x: (Seq<u64>, usize)) -> Seq<(Seq<u64>, usize)> {
    seq![x] + e.remove(i)
}

/// `LruCache::sparse` of lru: a cache without entries that holds at most `cap`.
#[verifier::external_body]
fn lru_new(cap: usize) -> (r: LruCache<Vec<u64>, usize>)
    requires
        cap > 0,
    ensures
        lru_entries(r).len() == 0,
        lru_limit(r) == cap,
{
    LruCache::sparse(NonZeroUsize::new(cap).unwrap())
}

/// `LruCache::get` of lru: the value of the key, whose entry becomes the most recent one.
#[verifier::external_body]
fn lru_get(c: &mut LruCache<Vec<u64>, usize>, key: &Vec<u64>) -> (r: Option<usize>)
    ensures
        match place_of(lru_entries(*old(c)), key@, 0) {
            Some(i) => r == Some(lru_entries(*old(c))[i].1) && lru_entries(*final(c)) == to_front(
                lru_entries(*old(c)),
                i,
                lru_entries(*old(c))[i],
            ),
            None => r is None && lru_entries(*final(c)) == lru_entries(*old(c)),
        },
        lru_limit(*final(c)) == lru_limit(*old(c)),
{
    c.get(key).copied()
}

/// `LruCache::put` of lru, where the key is new and the cache is not full: the entry becomes the
/// most recent one.
#[verifier::external_body]
fn lru_put(c: &mut LruCache<Vec<u64>, usize>, key: Vec<u64>, v: usize)
    requires
        place_of(lru_entries(*old(c)), key@, 0) is None,
        lru_entries(*old(c)).len() < lru_limit(*old(c)),
    ensures
        lru_entries(*final(c)) == seq![(key@, v)] + lru_entries(*old(c)),
        lru_limit(*final(c)) == lru_limit(*old(c)),
{
    c.put(key, v);
}

/// `LruCache::pop_lru` of lru: takes the least recent entry out, and gives its value.
#[verifier::external_body]
fn lru_pop(c: &mut LruCache<Vec<u64>, usize>) -> (r: Option<usize>)
    ensures
        lru_entries(*old(c)).len() == 0 ==> r is None && lru_entries(*final(c)) == lru_entries(*old(c)),
        lru_entries(*old(c)).len() > 0 ==> r == Some(lru_entries(*old(c)).last().1) && lru_entries(*final(c))
            == lru_entries(*old(c)).drop_last(),
        lru_limit(*final(c)) == lru_limit(*old(c)),
{
    c.pop_lru().map(|e| e.1)
}

/// `LruCache::len` of lru: the number of entries.
#[verifier::external_body]
fn lru_len(c: &LruCache<Vec<u64>, usize>) -> (r: usize)
    ensures
        r == lru_entries(*c).len(),
{
    c.len()
}

/// A cache of bounded size, with lists of numbers as keys. What was used least recently leaves
/// first.
pub struct SlotCache<V> {
    index: LruCache<Vec<u64>, usize>,
    slots: Vec<V>,
    cap: usize,
}

/// The place of a key among entries.
pub open spec fn entry_of<V>(e: Seq<(Seq<u64>, V)>, key: Seq<u64>, i: int) -> Option<int>
    decreases e.len() - i,
{
    if i < 0 || i >= e.len() {
        None
    } else if e[i].0 == key {
        Some(i)
    } else {
        entry_of(e, key, i + 1)
    }
}

/// The entries after one was used: it comes first.
pub open spec fn used<V>(e: Seq<(Seq<u64>, V)>, i: int) -> Seq<(Seq<u64>, V)> {
    seq![e[i]] + e.remove(i)
}

/// The entries after a value was put under a key: it comes first, in place of what the key had
/// before, and where there is no room for it the last entry leaves.
pub open spec fn stored<V>(e: Seq<(Seq<u64>, V)>, cap: nat, key: Seq<u64>, v: V) -> Seq<(Seq<u64>, V)> {
    match entry_of(e, key, 0) {
        Some(i) => seq![(key, v)] + e.remove(i),
        None => seq![(key, v)] + if e.len() >= cap { e.drop_last() } else { e },
    }
}

proof fn lemma_place(e: Seq<(Seq<u64>, usize)>, key: Seq<u64>, i: int)
    requires
        0 <= i,
    ensures
        match place_of(e, key, i) {
            Some(k) => i <= k < e.len() && e[k].0 == key,
            None => forall|k: int| i <= k < e.len() ==> (#[trigger] e[k]).0 != key,
        },
    decreases e.len() - i,
{
    if i < e.len() && e[i].0 != key {
        lemma_place(e, key, i + 1);
    }
}

/// Where an entry stands.
pub proof fn lemma_entry<V>(e: Seq<(Seq<u64>, V)>, key: Seq<u64>, i: int)
    requires
        0 <= i,
    ensures
        match entry_of(e, key, i) {
            Some(k) => i <= k < e.len() && e[k].0 == key,
            None => forall|k: int| i <= k < e.len() ==> (#[trigger] e[k]).0 != key,
        },
    decreases e.len() - i,
{
    if i < e.len() && e[i].0 != key {
        lemma_entry(e, key, i + 1);
    }
}

proof fn lemma_same_place<V>(a: Seq<(Seq<u64>, usize)>, b: Seq<(Seq<u64>, V)>, key: Seq<u64>, i: int)
    requires
        a.len() == b.len(),
        forall|k: int| 0 <= k < a.len() ==> (#[trigger] a[k]).0 == b[k].0,
        0 <= i,
    ensures
        place_of(a, key, i) == entry_of(b, key, i),
    decreases a.len() - i,
{
    if i < a.len() {
        assert(a[i].0 == b[i].0);
        lemma_same_place(a, b, key, i + 1);
    }
}

/// Whether no key occurs twice.
pub open spec fn distinct_keys<V>(e: Seq<(Seq<u64>, V)>) -> bool {
    forall|i: int, j: int| #![trigger e[i], e[j]] 0 <= i < j < e.len() ==> e[i].0 != e[j].0
}

impl<V> SlotCache<V> {
    /// The slots of the entries.
    spec fn places(self) -> Seq<(Seq<u64>, usize)> {
        lru_entries(self.index)
    }

    /// The entries, the most recently used first.
    pub closed spec fn entries(self) -> Seq<(Seq<u64>, V)> {
        Seq::new(self.places().len(), |i: int| (self.places()[i].0, self.slots@[self.places()[i].1 as int]))
    }

    /// The number of entries that the cache holds at most.
    pub closed spec fn limit(self) -> nat {
        self.cap as nat
    }

    spec fn slots_used(self) -> bool {
        &&& self.slots@.len() == self.places().len()
        &&& forall|i: int| 0 <= i < self.places().len() ==> (#[trigger] self.places()[i]).1 < self.slots@.len()
        &&& forall|i: int, j: int|
            #![trigger self.places()[i], self.places()[j]]
            0 <= i < j < self.places().len() ==> self.places()[i].1 != self.places()[j].1
    }

    pub closed spec fn wf(self) -> bool {
        &&& self.cap > 0
        &&& lru_limit(self.index) == self.cap
        &&& self.places().len() <= self.cap
        &&& self.slots_used()
        &&& distinct_keys(self.entries())
    }

    /// A cache holds no more than it may, and has no key twice.
    pub proof fn lemma_wf(self)
        requires
            self.wf(),
        ensures
            self.limit() > 0,
            self.entries().len() <= self.limit(),
            distinct_keys(self.entries()),
    {
    }

    /// A cache without entries that holds at most `cap`.
    pub fn new(cap: usize) -> (r: SlotCache<V>)
        requires
            cap > 0,
        ensures
            r.wf(),
            r.entries().len() == 0,
            r.limit() == cap,
    {
        SlotCache { index: lru_new(cap), slots: Vec::new(), cap }
    }

    /// The number of entries.
    pub fn len(&self) -> (r: usize)
        ensures
            r == self.entries().len(),
    {
        lru_len(&self.index)
    }

    /// The number of entries that the cache holds at most.
    pub fn cap(&self) -> (r: usize)
        ensures
            r == self.limit(),
    {
        self.cap
    }

    /// The value under a key, if there is one; its entry becomes the most recent.
    pub fn get(&mut self, key: &Vec<u64>) -> (r: Option<&V>)
        requires
            old(self).wf(),
        ensures
            final(self).wf(),
            final(self).limit() == old(self).limit(),
            match entry_of(old(self).entries(), key@, 0) {
                Some(i) => r is Some && *(r->0) == old(self).entries()[i].1 && final(self).entries() == used(
                    old(self).entries(),
                    i,
                ),
                None => r is None && final(self).entries() == old(self).entries(),
            },
    {
        let ghost before = *self;
        let found: Option<usize> = lru_get(&mut self.index, key);
        proof {
            lemma_same_place(before.places(), before.entries(), key@, 0);
            lemma_place(before.places(), key@, 0);
            match place_of(before.places(), key@, 0) {
                Some(i) => {
                    lemma_moved(before, *self, i);
                },
                None => {
                    assert(self.entries() =~= before.entries());
                },
            }
        }
        match found {
            Some(slot) => Some(&self.slots[slot]),
            None => None,
        }
    }

    /// Takes the value under a key out and leaves another in its place, if there is one; its
    /// entry becomes the most recent.
    pub fn exchange(&mut self, key: &Vec<u64>, v: V) -> (r: Option<V>)
        requires
            old(self).wf(),
        ensures
            final(self).wf(),
            final(self).limit() == old(self).limit(),
            match entry_of(old(self).entries(), key@, 0) {
                Some(i) => r is Some && r->0 == old(self).entries()[i].1 && final(self).entries() == seq![(key@, v)]
                    + old(self).entries().remove(i),
                None => r is None && final(self).entries() == old(self).entries(),
            },
    {
        let ghost before = *self;
        let found: Option<usize> = lru_get(&mut self.index, key);
        proof {
            lemma_same_place(before.places(), before.entries(), key@, 0);
            lemma_place(before.places(), key@, 0);
        }
        match found {
            Some(slot) => {
                let ghost i = place_of(before.places(), key@, 0)->0;
                let ghost mid = *self;
                proof {
                    lemma_moved(before, mid, i);
                    assert(mid.places()[0] == before.places()[i]);
                }
                let mut out: V = v;
                std::mem::swap(&mut out, &mut self.slots[slot]);
                proof {
                    lemma_slot_set(before, mid, *self, i, key@, v);
                }
                Some(out)
            },
            None => {
                assert(self.entries() =~= before.entries());
                None
            },
        }
    }

    /// Puts a value under a key.
    pub fn put(&mut self, key: Vec<u64>, v: V)
        requires
            old(self).wf(),
        ensures
            final(self).wf(),
            final(self).limit() == old(self).limit(),
            final(self).entries() == stored(old(self).entries(), old(self).limit(), key@, v),
    {
        let ghost before = *self;
        proof {
            lemma_same_place(before.places(), before.entries(), key@, 0);
            lemma_place(before.places(), key@, 0);
            lemma_entry(before.entries(), key@, 0);
        }
        match lru_get(&mut self.index, &key) {
            Some(slot) => {
                let ghost i = place_of(before.places(), key@, 0)->0;
                let ghost mid = *self;
                proof {
                    lemma_moved(before, mid, i);
                    assert(mid.places()[0] == before.places()[i]);
                }
                self.slots.set(slot, v);
                proof {
                    lemma_slot_set(before, mid, *self, i, key@, v);
                }
            },
            None => {
                let n: usize = lru_len(&self.index);
                if n >= self.cap {
                    let slot: usize = lru_pop(&mut self.index).unwrap();
                    let ghost mid = *self;
                    let ghost last = before.places().len() - 1;
                    assert(mid.places() =~= before.places().drop_last());
                    proof {
                        lemma_place(mid.places(), key@, 0);
                    }
                    self.slots.set(slot, v);
                    lru_put(&mut self.index, key, slot);
                    proof {
                        assert forall|k: int| 1 <= k < self.places().len() implies #[trigger] self.places()[k]
                            == before.places()[k - 1] by {}
                        assert(self.slots_used()) by {
                            assert forall|i: int, j: int|
                                #![trigger self.places()[i], self.places()[j]]
                                0 <= i < j < self.places().len() implies self.places()[i].1 != self.places()[j].1 by {
                                if i == 0 {
                                    assert(before.places()[j - 1].1 != before.places()[last].1);
                                } else {
                                    assert(before.places()[i - 1].1 != before.places()[j - 1].1);
                                }
                            }
                        }
                        assert(self.entries() =~= seq![(key@, v)] + before.entries().drop_last()) by {
                            assert forall|k: int| 1 <= k < self.places().len() implies self.entries()[k]
                                == before.entries()[k - 1] by {
                                assert(before.places()[k - 1].1 != before.places()[last].1);
                            }
                        }
                        lemma_stays_distinct(before.entries(), key@, v, None);
                        lemma_fewer_distinct(seq![(key@, v)] + before.entries());
                        assert((seq![(key@, v)] + before.entries()).drop_last() =~= seq![(key@, v)]
                            + before.entries().drop_last());
                    }
                } else {
                    let slot: usize = self.slots.len();
                    self.slots.push(v);
                    lru_put(&mut self.index, key, slot);
                    proof {
                        assert forall|k: int| 1 <= k < self.places().len() implies #[trigger] self.places()[k]
                            == before.places()[k - 1] by {}
                        assert(self.entries() =~= seq![(key@, v)] + before.entries());
                        lemma_stays_distinct(before.entries(), key@, v, None);
                    }
                }
            },
        }
    }
}

/// Moving an entry to the front keeps the cache well formed.
proof fn lemma_moved<V>(before: SlotCache<V>, after: SlotCache<V>, i: int)
    requires
        before.wf(),
        0 <= i < before.places().len(),
        after.slots == before.slots,
        after.cap == before.cap,
        lru_limit(after.index) == lru_limit(before.index),
        after.places() == to_front(before.places(), i, before.places()[i]),
    ensures
        after.wf(),
        after.entries() == used(before.entries(), i),
{
    let (p, q) = (before.places(), after.places());
    assert forall|k: int| 0 <= k < q.len() implies #[trigger] q[k] == p[old_place(i, k)] by {}
    assert(after.entries() =~= used(before.entries(), i));
    assert(after.slots_used()) by {
        assert forall|k: int| 0 <= k < q.len() implies (#[trigger] q[k]).1 < after.slots@.len() by {
            assert(p[old_place(i, k)].1 < before.slots@.len());
        }
        assert forall|a: int, b: int| #![trigger q[a], q[b]] 0 <= a < b < q.len() implies q[a].1 != q[b].1 by {
            let (x, y) = (old_place(i, a), old_place(i, b));
            assert(x != y);
            if x < y {
                assert(p[x].1 != p[y].1);
            } else {
                assert(p[y].1 != p[x].1);
            }
        }
    }
    assert(distinct_keys(after.entries())) by {
        let (e, f) = (before.entries(), after.entries());
        assert forall|a: int, b: int| #![trigger f[a], f[b]] 0 <= a < b < f.len() implies f[a].0 != f[b].0 by {
            let (x, y) = (old_place(i, a), old_place(i, b));
            assert(f[a] == e[x] && f[b] == e[y]);
            if x < y {
                assert(e[x].0 != e[y].0);
            } else {
                assert(e[y].0 != e[x].0);
            }
        }
    }
}

/// Setting the value of the entry that was moved to the front keeps the cache well formed.
proof fn lemma_slot_set<V>(before: SlotCache<V>, mid: SlotCache<V>, after: SlotCache<V>, i: int, key: Seq<u64>, v: V)
    requires
        before.wf(),
        mid.wf(),
        0 <= i < before.places().len(),
        before.places()[i].0 == key,
        mid.entries() == used(before.entries(), i),
        mid.places()[0] == before.places()[i],
        mid.places().len() == before.places().len(),
        after.index == mid.index,
        after.cap == mid.cap,
        after.slots@ == mid.slots@.update(mid.places()[0].1 as int, v),
    ensures
        after.wf(),
        after.entries() == seq![(key, v)] + before.entries().remove(i),
{
    assert(after.entries() =~= seq![(key, v)] + before.entries().remove(i)) by {
        assert forall|k: int| 0 < k < after.places().len() implies after.entries()[k] == before.entries().remove(i)[k - 1] by {
            assert(after.places()[0].1 != after.places()[k].1);
            assert(mid.entries()[k] == used(before.entries(), i)[k]);
            assert(after.entries()[k] == mid.entries()[k]);
        }
    }
    assert(before.entries()[i].0 == key);
    lemma_stays_distinct(before.entries(), key, v, Some(i));
}

/// Where the entry at `k` stood before the one at `i` came first.
spec fn old_place(i: int, k: int) -> int {
    if k == 0 {
        i
    } else if k <= i {
        k - 1
    } else {
        k
    }
}

proof fn lemma_stays_distinct<V>(e: Seq<(Seq<u64>, V)>, key: Seq<u64>, v: V, at: Option<int>)
    requires
        distinct_keys(e),
        match at {
            Some(i) => 0 <= i < e.len() && e[i].0 == key,
            None => forall|k: int| 0 <= k < e.len() ==> (#[trigger] e[k]).0 != key,
        },
    ensures
        match at {
            Some(i) => distinct_keys(seq![(key, v)] + e.remove(i)),
            None => distinct_keys(seq![(key, v)] + e),
        },
{
    let rest = match at {
        Some(i) => e.remove(i),
        None => e,
    };
    let f = seq![(key, v)] + rest;
    assert forall|a: int, b: int| #![trigger f[a], f[b]] 0 <= a < b < f.len() implies f[a].0 != f[b].0 by {
        let back = |k: int| match at {
            Some(i) => if k - 1 < i { k - 1 } else { k },
            None => k - 1,
        };
        assert(f[b] == e[back(b)]);
        if a == 0 {
            if at is Some {
                let i = at->0;
                if back(b) < i {
                    assert(e[back(b)].0 != e[i].0);
                } else {
                    assert(e[i].0 != e[back(b)].0);
                }
            }
        } else {
            assert(f[a] == e[back(a)]);
            assert(e[back(a)].0 != e[back(b)].0);
        }
    }
}

proof fn lemma_fewer_distinct<V>(e: Seq<(Seq<u64>, V)>)
    requires
        distinct_keys(e),
        e.len() > 0,
    ensures
        distinct_keys(e.drop_last()),
{
    let f = e.drop_last();
    assert forall|a: int, b: int| #![trigger f[a], f[b]] 0 <= a < b < f.len() implies f[a].0 != f[b].0 by {
        assert(e[a].0 != e[b].0);
    }
}

/// What was put last under a key is what is found there.
pub proof fn law_put_then_get<V>(e: Seq<(Seq<u64>, V)>, cap: nat, key: Seq<u64>, v: V)
    ensures
        entry_of(stored(e, cap, key, v), key, 0) == Some(0int),
        stored(e, cap, key, v)[0] == (key, v),
{
}

/// A cache never holds more than it may.
pub proof fn law_put_is_bounded<V>(e: Seq<(Seq<u64>, V)>, cap: nat, key: Seq<u64>, v: V)
    requires
        e.len() <= cap,
        cap > 0,
    ensures
        stored(e, cap, key, v).len() <= cap,
{
    lemma_entry(e, key, 0);
}

/// A value under one key leaves what is under another key, but for the last entry.
pub proof fn law_put_keeps_others<V>(e: Seq<(Seq<u64>, V)>, cap: nat, key: Seq<u64>, v: V, i: int)
    requires
        0 <= i < e.len(),
        e[i].0 != key,
        i < e.len() - 1 || e.len() < cap || entry_of(e, key, 0) is Some,
    ensures
        stored(e, cap, key, v).contains(e[i]),
{
    lemma_entry(e, key, 0);
    let s = stored(e, cap, key, v);
    match entry_of(e, key, 0) {
        Some(k) => {
            if i < k {
                assert(s[i + 1] == e[i]);
            } else {
                assert(s[i] == e[i]);
            }
        },
        None => {
            assert(s[i + 1] == e[i]);
        },
    }
}

/// An entry that is used comes first, and the others stay in their order.
pub proof fn law_use_comes_first<V>(e: Seq<(Seq<u64>, V)>, i: int)
    requires
        0 <= i < e.len(),
    ensures
        used(e, i).len() == e.len(),
        used(e, i)[0] == e[i],
        forall|k: int| #![trigger e[k]] 0 <= k < i ==> used(e, i)[k + 1] == e[k],
        forall|k: int| #![trigger e[k]] i < k < e.len() ==> used(e, i)[k] == e[k],
{
}

/// A value under a new key comes before all the others, which stay in their order; where there is no
/// room, the one that was used longest ago leaves.
pub proof fn law_oldest_leaves<V>(e: Seq<(Seq<u64>, V)>, cap: nat, key: Seq<u64>, v: V)
    requires
        forall|k: int| 0 <= k < e.len() ==> (#[trigger] e[k]).0 != key,
        0 < cap,
        e.len() <= cap,
    ensures
        stored(e, cap, key, v).len() == (if e.len() < cap { e.len() + 1 } else { cap }),
        stored(e, cap, key, v)[0] == (key, v),
        forall|k: int| #![trigger e[k]] 0 <= k < stored(e, cap, key, v).len() - 1 ==> stored(e, cap, key, v)[k + 1] == e[k],
{
    lemma_entry(e, key, 0);
}

/// A value under a known key takes the place of what the key had, and nothing else leaves.
pub proof fn law_put_replaces<V>(e: Seq<(Seq<u64>, V)>, cap: nat, key: Seq<u64>, v: V, i: int)
    requires
        0 <= i < e.len(),
        e[i].0 == key,
        forall|k: int| 0 <= k < i ==> (#[trigger] e[k]).0 != key,
    ensures
        stored(e, cap, key, v).len() == e.len(),
        stored(e, cap, key, v)[0] == (key, v),
        forall|k: int| #![trigger e[k]] 0 <= k < i ==> stored(e, cap, key, v)[k + 1] == e[k],
        forall|k: int| #![trigger e[k]] i < k < e.len() ==> stored(e, cap, key, v)[k] == e[k],
{
    lemma_entry(e, key, 0);
    let x = entry_of(e, key, 0)->0;
    assert(x == i) by {
        lemma_no_earlier(e, key, 0, x);
    }
}

proof fn lemma_no_earlier<V>(e: Seq<(Seq<u64>, V)>, key: Seq<u64>, i: int, x: int)
    requires
        0 <= i,
        entry_of(e, key, i) == Some(x),
    ensures
        i <= x < e.len(),
        e[x].0 == key,
        forall|k: int| i <= k < x ==> (#[trigger] e[k]).0 != key,
    decreases e.len() - i,
{
    if i < e.len() && e[i].0 != key {
        lemma_no_earlier(e, key, i + 1, x);
    }
}

}
