//! Stable ordering by integer keys.

use vstd::prelude::*;

verus! {

/// A sort key; keys order by their first number, then their second, and so on.
#[derive(Debug, Clone, Copy, PartialEq, Eq, Structural)]
pub struct SortKey {
    pub a: i64,
    pub b: i64,
    pub c: i64,
    pub d: i64,
}

impl SortKey {
    /// Whether this key comes before `o`.
    pub open spec fn lt(self, o: SortKey) -> bool {
        self.a < o.a || (self.a == o.a && (self.b < o.b || (self.b == o.b && (self.c < o.c || (self.c == o.c && self.d
            < o.d)))))
    }

    fn less(&self, o: &SortKey) -> (r: bool)
        ensures
            r == self.lt(*o),
    {
        if self.a != o.a {
            self.a < o.a
        } else if self.b != o.b {
            self.b < o.b
        } else if self.c != o.c {
            self.c < o.c
        } else {
            self.d < o.d
        }
    }
}

/// Whether position `x` comes before position `y`: by its key, and among equal keys by the
/// position itself.
pub open spec fn comes_before(keys: Seq<SortKey>, x: usize, y: usize) -> bool {
    keys[x as int].lt(keys[y as int]) || (keys[x as int] == keys[y as int] && x < y)
}

/// Whether `r` lists all positions of `keys` in ascending order, equal keys in their given order.
pub open spec fn is_stable_order(keys: Seq<SortKey>, r: Seq<usize>) -> bool {
    &&& r.len() == keys.len()
    &&& forall|i: int| 0 <= i < r.len() ==> #[trigger] r[i] < keys.len()
    &&& forall|i: int, j: int| #![trigger r[i], r[j]] 0 <= i < j < r.len() ==> comes_before(keys, r[i], r[j])
    &&& forall|k: usize| k < keys.len() ==> #[trigger] r.contains(k)
}

/// The positions of `keys` in ascending order, equal keys in their given order.
pub open spec fn sorted_positions(keys: Seq<SortKey>) -> Seq<usize> {
    choose|r: Seq<usize>| is_stable_order(keys, r)
}

/// The positions of `keys` in ascending order, equal keys in their given order.
pub fn stable_order(keys: &Vec<SortKey>) -> (r: Vec<usize>)
    ensures
        is_stable_order(keys@, r@),
        r@ == sorted_positions(keys@),
{
    let mut r: Vec<usize> = Vec::new();
    let mut n: usize = 0;
    while n < keys.len()
        invariant
            n <= keys@.len(),
            r@.len() == n,
            forall|i: int| 0 <= i < n ==> #[trigger] r@[i] < n,
            forall|i: int, j: int| #![trigger r@[i], r@[j]] 0 <= i < j < n ==> comes_before(keys@, r@[i], r@[j]),
            forall|k: usize| k < n ==> #[trigger] r@.contains(k),
        decreases keys@.len() - n,
    {
        let ghost before = r@;
        let mut lo: usize = 0;
        let mut hi: usize = n;
        while lo < hi
            invariant
                lo <= hi <= n,
                n < keys@.len(),
                r@ == before,
                before.len() == n,
                forall|i: int| 0 <= i < n ==> #[trigger] before[i] < n,
                forall|i: int, j: int| #![trigger before[i], before[j]] 0 <= i < j < n ==> comes_before(keys@, before[i], before[j]),
                forall|i: int| 0 <= i < lo ==> comes_before(keys@, #[trigger] before[i], n),
                forall|i: int| hi <= i < n ==> comes_before(keys@, n, #[trigger] before[i]),
            decreases hi - lo,
        {
            let mid: usize = lo + (hi - lo) / 2;
            if keys[n].less(&keys[r[mid]]) {
                hi = mid;
            } else {
                lo = mid + 1;
            }
        }
        r.insert(lo, n);
        proof {
            assert forall|i: int| 0 <= i < n + 1 implies #[trigger] r@[i] < n + 1 by {
                if i < lo {
                    assert(r@[i] == before[i]);
                } else if i > lo {
                    assert(r@[i] == before[i - 1]);
                }
            }
            assert forall|i: int, j: int| #![trigger r@[i], r@[j]] 0 <= i < j < n + 1 implies comes_before(keys@, r@[i], r@[j]) by {
                let x = if i < lo { i } else { i - 1 };
                let y = if j < lo { j } else { j - 1 };
                if i != lo {
                    assert(r@[i] == before[x]);
                }
                if j != lo {
                    assert(r@[j] == before[y]);
                }
            }
            assert forall|k: usize| k < n + 1 implies #[trigger] r@.contains(k) by {
                if k < n {
                    assert(before.contains(k));
                    let i = choose|i: int| 0 <= i < before.len() && before[i] == k;
                    let x = if i < lo { i } else { i + 1 };
                    assert(r@[x] == k);
                } else {
                    assert(r@[lo as int] == k);
                }
            }
        }
        n += 1;
    }
    proof {
        assert(is_stable_order(keys@, r@));
        lemma_order_unique(keys@, r@, sorted_positions(keys@));
    }
    r
}

/// There is only one such order.
pub proof fn lemma_order_unique(keys: Seq<SortKey>, r: Seq<usize>, s: Seq<usize>)
    requires
        is_stable_order(keys, r),
        is_stable_order(keys, s),
    ensures
        r == s,
{
    assert forall|i: int| 0 <= i < r.len() implies r[i] == s[i] by {
        lemma_order_unique_at(keys, r, s, i);
    }
    assert(r =~= s);
}

proof fn lemma_order_unique_at(keys: Seq<SortKey>, r: Seq<usize>, s: Seq<usize>, i: int)
    requires
        is_stable_order(keys, r),
        is_stable_order(keys, s),
        0 <= i < r.len(),
    ensures
        r[i] == s[i],
    decreases i,
{
    assert forall|k: int| 0 <= k < i implies r[k] == s[k] by {
        lemma_order_unique_at(keys, r, s, k);
    }
    assert(s.contains(r[i]));
    assert(r.contains(s[i]));
    let j = choose|j: int| 0 <= j < s.len() && s[j] == r[i];
    let k = choose|k: int| 0 <= k < r.len() && r[k] == s[i];
    if j < i {
        assert(r[j] == s[j]);
        assert(comes_before(keys, r[j], r[i]));
    } else if k < i {
        assert(r[k] == s[k]);
        assert(comes_before(keys, s[k], s[i]));
    } else if i < j && i < k {
        assert(comes_before(keys, s[i], s[j]));
        assert(comes_before(keys, r[i], r[k]));
    }
}

/// How many of the first `k` positions in `r` come no later than the last one before `x`.
spec fn cut(keys: Seq<SortKey>, r: Seq<usize>, x: usize, k: int) -> int
    decreases k,
{
    if k <= 0 {
        0
    } else if comes_before(keys, r[k - 1], x) {
        k
    } else {
        cut(keys, r, x, k - 1)
    }
}

proof fn lemma_cut(keys: Seq<SortKey>, r: Seq<usize>, x: usize, k: int)
    requires
        0 <= k,
    ensures
        0 <= cut(keys, r, x, k) <= k,
        cut(keys, r, x, k) > 0 ==> comes_before(keys, r[cut(keys, r, x, k) - 1], x),
        forall|i: int| cut(keys, r, x, k) <= i < k ==> !comes_before(keys, #[trigger] r[i], x),
    decreases k,
{
    if k > 0 {
        lemma_cut(keys, r, x, k - 1);
    }
}

/// Every sequence of keys has a stable order.
pub proof fn lemma_sorted_positions(keys: Seq<SortKey>)
    requires
        keys.len() <= usize::MAX,
    ensures
        is_stable_order(keys, sorted_positions(keys)),
    decreases keys.len(),
{
    if keys.len() == 0 {
        assert(is_stable_order(keys, Seq::<usize>::empty()));
    } else {
        let short = keys.drop_last();
        lemma_sorted_positions(short);
        let r = sorted_positions(short);
        let n = keys.len() - 1;
        let x = n as usize;
        let p = cut(keys, r, x, n as int);
        lemma_cut(keys, r, x, n as int);
        let s = r.insert(p, x);
        assert forall|i: int, j: int| #![trigger r[i], r[j]] 0 <= i < j < n implies comes_before(keys, r[i], r[j]) by {
            assert(comes_before(short, r[i], r[j]));
        }
        assert forall|i: int| 0 <= i < s.len() implies #[trigger] s[i] < keys.len() by {
            if i < p {
                assert(s[i] == r[i]);
            } else if i > p {
                assert(s[i] == r[i - 1]);
            }
        }
        assert forall|i: int, j: int| #![trigger s[i], s[j]] 0 <= i < j < s.len() implies comes_before(keys, s[i], s[j]) by {
            let a = if i < p { i } else { i - 1 };
            let b = if j < p { j } else { j - 1 };
            if i != p {
                assert(s[i] == r[a]);
            }
            if j != p {
                assert(s[j] == r[b]);
            }
            if i == p {
                assert(!comes_before(keys, r[b], x));
                assert(r[b] < n);
            } else if j == p {
                if a < p - 1 {
                    assert(comes_before(keys, r[a], r[p - 1]));
                }
            }
        }
        assert forall|k: usize| k < keys.len() implies #[trigger] s.contains(k) by {
            if k < n {
                assert(r.contains(k));
                let i = choose|i: int| 0 <= i < r.len() && r[i] == k;
                let a = if i < p { i } else { i + 1 };
                assert(s[a] == k);
            } else {
                assert(s[p] == k);
            }
        }
        assert(is_stable_order(keys, s));
    }
}

/// Whether `p` lists every position below its length, and each once.
pub open spec fn is_shuffle(p: Seq<usize>) -> bool {
    &&& forall|i: int| 0 <= i < p.len() ==> #[trigger] p[i] < p.len()
    &&& forall|i: int, j: int| #![trigger p[i], p[j]] 0 <= i < j < p.len() ==> p[i] != p[j]
    &&& forall|k: usize| k < p.len() ==> #[trigger] p.contains(k)
}

/// Whether `b` holds what `a` does, in the order that `p` gives.
pub open spec fn shuffles<T>(a: Seq<T>, p: Seq<usize>, b: Seq<T>) -> bool {
    &&& is_shuffle(p)
    &&& a.len() == p.len()
    &&& b.len() == p.len()
    &&& forall|i: int| 0 <= i < p.len() ==> #[trigger] b[i] == a[p[i] as int]
}

/// Whether no two keys are equal.
pub open spec fn keys_differ(a: Seq<SortKey>) -> bool {
    forall|i: int, j: int| #![trigger a[i], a[j]] 0 <= i < j < a.len() ==> a[i] != a[j]
}

/// Keys that differ stand in the same order wherever they stood before.
pub proof fn lemma_same_order(a: Seq<SortKey>, p: Seq<usize>, b: Seq<SortKey>)
    requires
        shuffles(a, p, b),
        a.len() <= usize::MAX,
        keys_differ(a),
    ensures
        is_stable_order(a, sorted_positions(a)),
        is_stable_order(b, sorted_positions(b)),
        forall|k: int| 0 <= k < a.len() ==> sorted_positions(a)[k] == p[#[trigger] sorted_positions(b)[k] as int],
{
    lemma_sorted_positions(a);
    lemma_sorted_positions(b);
    let s = sorted_positions(b);
    let r = Seq::new(s.len(), |k: int| p[s[k] as int]);
    assert forall|i: int, j: int| #![trigger r[i], r[j]] 0 <= i < j < r.len() implies comes_before(a, r[i], r[j]) by {
        assert(comes_before(b, s[i], s[j]));
        assert(b[s[i] as int] == a[p[s[i] as int] as int]);
        assert(b[s[j] as int] == a[p[s[j] as int] as int]);
        if b[s[i] as int] == b[s[j] as int] {
            let (x, y) = (p[s[i] as int], p[s[j] as int]);
            if x < y {
                assert(a[x as int] != a[y as int]);
            } else if y < x {
                assert(a[y as int] != a[x as int]);
            }
        }
    }
    assert forall|i: int| 0 <= i < r.len() implies #[trigger] r[i] < a.len() by {
        assert(s[i] < b.len());
    }
    assert forall|k: usize| k < a.len() implies #[trigger] r.contains(k) by {
        assert(p.contains(k));
        let i = choose|i: int| 0 <= i < p.len() && p[i] == k;
        assert(s.contains(i as usize));
        let j = choose|j: int| 0 <= j < s.len() && s[j] == i as usize;
        assert(r[j] == k);
    }
    assert(is_stable_order(a, r));
    lemma_order_unique(a, r, sorted_positions(a));
    assert forall|k: int| 0 <= k < a.len() implies sorted_positions(a)[k] == p[#[trigger] s[k] as int] by {
        assert(r[k] == p[s[k] as int]);
    }
}

/// Positions in order: each key is less than the next, by its first number, or where those are equal by the
/// second, and so on; and equal keys stay as they were given.
pub proof fn law_keys_ascend(keys: Seq<SortKey>, r: Seq<usize>, i: int, j: int)
    requires
        is_stable_order(keys, r),
        0 <= i < j < r.len(),
    ensures
        ({
            let (x, y) = (keys[r[i] as int], keys[r[j] as int]);
            &&& x.a <= y.a
            &&& x.a == y.a ==> x.b <= y.b
            &&& x.a == y.a && x.b == y.b ==> x.c <= y.c
            &&& x.a == y.a && x.b == y.b && x.c == y.c ==> x.d <= y.d
            &&& x == y ==> r[i] < r[j]
        }),
        r[i] != r[j],
{
    assert(comes_before(keys, r[i], r[j]));
}

}
