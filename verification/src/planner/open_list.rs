//! The open list of a best-first search: entries leave in ascending order.

use vstd::prelude::*;

verus! {

/// A search entry. Entries order by `rank`, then `cost`, then the two tie-breakers, then the
/// order in which they were made; `item` is what the entry is about.
#[derive(Debug, Clone, Copy, PartialEq, Eq, Structural)]
pub struct Entry {
    pub rank: u128,
    pub cost: u128,
    pub tie1: i64,
    pub tie2: i64,
    pub seq: u64,
    pub item: usize,
}

impl Entry {
    /// Whether this entry leaves no later than `o`.
    pub open spec fn le(self, o: Entry) -> bool {
        self.rank < o.rank || (self.rank == o.rank && (self.cost < o.cost || (self.cost == o.cost && (self.tie1 < o.tie1
            || (self.tie1 == o.tie1 && (self.tie2 < o.tie2 || (self.tie2 == o.tie2 && self.seq <= o.seq)))))))
    }

    fn not_after(&self, o: &Entry) -> (r: bool)
        ensures
            r == self.le(*o),
    {
        if self.rank != o.rank {
            self.rank < o.rank
        } else if self.cost != o.cost {
            self.cost < o.cost
        } else if self.tie1 != o.tie1 {
            self.tie1 < o.tie1
        } else if self.tie2 != o.tie2 {
            self.tie2 < o.tie2
        } else {
            self.seq <= o.seq
        }
    }
}

/// The place of a new entry among entries in descending order: behind all that leave no earlier.
pub open spec fn place_for(s: Seq<Entry>, e: Entry) -> int
    decreases s.len(),
{
    if s.len() == 0 {
        0
    } else if e.le(s.last()) {
        s.len() as int
    } else {
        place_for(s.drop_last(), e)
    }
}

/// The entries with a new one at its place.
pub open spec fn with_entry(s: Seq<Entry>, e: Entry) -> Seq<Entry> {
    s.insert(place_for(s, e), e)
}

proof fn lemma_place(s: Seq<Entry>, e: Entry, p: int)
    requires
        0 <= p <= s.len(),
        p > 0 ==> e.le(s[p - 1]),
        forall|i: int| p <= i < s.len() ==> !e.le(#[trigger] s[i]),
    ensures
        place_for(s, e) == p,
    decreases s.len(),
{
    if s.len() > 0 && p < s.len() {
        assert(!e.le(s[s.len() - 1]));
        assert forall|i: int| p <= i < s.drop_last().len() implies !e.le(#[trigger] s.drop_last()[i]) by {
            assert(s.drop_last()[i] == s[i]);
        }
        lemma_place(s.drop_last(), e, p);
    }
}

/// Entries in descending order, so that the first to leave is the last.
pub struct OpenList {
    items: Vec<Entry>,
}

impl View for OpenList {
    type V = Seq<Entry>;

    closed spec fn view(&self) -> Seq<Entry> {
        self.items@
    }
}

impl OpenList {
    /// Whether the entries are in descending order.
    pub open spec fn wf(self) -> bool {
        forall|i: int, j: int| #![trigger self@[i], self@[j]] 0 <= i < j < self@.len() ==> self@[j].le(self@[i])
    }

    pub fn new() -> (r: Self)
        ensures
            r.wf(),
            r@ == Seq::<Entry>::empty(),
    {
        OpenList { items: Vec::new() }
    }

    /// Adds an entry at its place.
    pub fn push(&mut self, e: Entry)
        requires
            old(self).wf(),
        ensures
            final(self).wf(),
            0 <= place_for(old(self)@, e) <= old(self)@.len(),
            final(self)@ == with_entry(old(self)@, e),
    {
        let ghost before = self@;
        let mut lo: usize = 0;
        let mut hi: usize = self.items.len();
        while lo < hi
            invariant
                lo <= hi <= self.items@.len(),
                self.items@ == before,
                forall|i: int, j: int| #![trigger before[i], before[j]] 0 <= i < j < before.len() ==> before[j].le(before[i]),
                forall|i: int| 0 <= i < lo ==> e.le(#[trigger] before[i]),
                forall|i: int| hi <= i < before.len() ==> !e.le(#[trigger] before[i]),
            decreases hi - lo,
        {
            let mid: usize = lo + (hi - lo) / 2;
            if e.not_after(&self.items[mid]) {
                lo = mid + 1;
            } else {
                hi = mid;
            }
        }
        self.items.insert(lo, e);
        proof {
            lemma_place(before, e, lo as int);
        }
        assert(self@ == before.insert(lo as int, e));
        assert(self.wf()) by {
            assert forall|i: int, j: int| #![trigger self@[i], self@[j]] 0 <= i < j < self@.len() implies self@[j].le(self@[i]) by {
                let a = if i < lo { i } else { i - 1 };
                let b = if j < lo { j } else { j - 1 };
                if i != lo && j != lo {
                    assert(self@[i] == before[a]);
                    assert(self@[j] == before[b]);
                } else if i == lo {
                    assert(self@[j] == before[b]);
                } else {
                    assert(self@[i] == before[a]);
                }
            }
        }
    }

    /// Takes the first entry out.
    pub fn pop(&mut self) -> (r: Option<Entry>)
        requires
            old(self).wf(),
        ensures
            final(self).wf(),
            match r {
                None => old(self)@.len() == 0 && final(self)@ == old(self)@,
                Some(e) => old(self)@.len() > 0 && e == old(self)@.last() && final(self)@ == old(self)@.drop_last()
                    && forall|i: int| 0 <= i < old(self)@.len() ==> e.le(#[trigger] old(self)@[i]),
            },
    {
        let ghost before = self@;
        let r: Option<Entry> = self.items.pop();
        assert(self.wf()) by {
            assert forall|i: int, j: int| #![trigger self@[i], self@[j]] 0 <= i < j < self@.len() implies self@[j].le(self@[i]) by {
                assert(self@[i] == before[i] && self@[j] == before[j]);
            }
        }
        if let Some(e) = r {
            assert(self@ =~= before.drop_last());
            assert forall|i: int| 0 <= i < before.len() implies e.le(#[trigger] before[i]) by {
                if i < before.len() - 1 {
                    assert(before[before.len() - 1].le(before[i]));
                }
            }
        }
        r
    }
}

}
