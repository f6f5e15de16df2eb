//! Cheapest paths in a graph given by adjacency lists.

use crate::planner::open_list::{Entry, OpenList};
use vstd::prelude::*;
#[allow(unused_imports)]
use crate::planner::open_list::{place_for, with_entry};

verus! {

/// The adjacency lists: for each node its edges, each a target and a weight.
pub open spec fn lists(adj: Seq<Vec<(usize, i64)>>) -> Seq<Seq<(usize, i64)>> {
    Seq::new(adj.len(), |i: int| adj[i]@)
}

/// Whether every edge leads to a node and no weight is negative.
pub open spec fn edges_valid(g: Seq<Seq<(usize, i64)>>) -> bool {
    forall|u: int, s: int|
        0 <= u < g.len() && 0 <= s < g[u].len() ==> (#[trigger] g[u][s]).0 < g.len() && g[u][s].1 >= 0
}

/// Whether the nodes `p` are joined by the edges `s`, edge `s[i]` of node `p[i]` leading to `p[i + 1]`.
pub open spec fn is_walk(g: Seq<Seq<(usize, i64)>>, p: Seq<usize>, s: Seq<int>) -> bool {
    &&& p.len() > 0
    &&& s.len() == p.len() - 1
    &&& forall|i: int| 0 <= i < p.len() ==> #[trigger] p[i] < g.len()
    &&& forall|i: int|
        0 <= i < s.len() ==> 0 <= #[trigger] s[i] < g[p[i] as int].len() && g[p[i] as int][s[i]].0 == p[i + 1]
}

/// The sum of the weights of a walk.
pub open spec fn walk_cost(g: Seq<Seq<(usize, i64)>>, p: Seq<usize>, s: Seq<int>) -> int
    decreases s.len(),
{
    if s.len() == 0 {
        0
    } else {
        walk_cost(g, p.drop_last(), s.drop_last()) + g[p[s.len() - 1] as int][s.last()].1
    }
}

/// Whether `s` joins `p` into a walk from `a` to `b`.
pub open spec fn leads(g: Seq<Seq<(usize, i64)>>, a: usize, b: usize, p: Seq<usize>, s: Seq<int>) -> bool {
    is_walk(g, p, s) && p[0] == a && p.last() == b
}

/// Whether `p` is a cheapest walk from `a` to `b`.
pub open spec fn is_cheapest(g: Seq<Seq<(usize, i64)>>, a: usize, b: usize, p: Seq<usize>) -> bool {
    exists|s: Seq<int>| #[trigger]
        leads(g, a, b, p, s) && forall|q: Seq<usize>, t: Seq<int>| #[trigger]
            leads(g, a, b, q, t) ==> walk_cost(g, p, s) <= walk_cost(g, q, t)
}

/// What a search knows: the nodes that it has found, each with its cost and with the place of the
/// node that it was reached from, the entries that wait, and the number of the entry that was made
/// last.
#[verifier::ext_equal]
pub struct Trail {
    pub nodes: Seq<usize>,
    pub cost: Seq<u128>,
    pub parent: Seq<usize>,
    pub open: Seq<Entry>,
    pub made: u64,
}

/// The entry of a node: it ranks by its cost. Of entries of one cost that of the node with the
/// lower index leaves first, then the older one.
pub open spec fn node_entry(v: usize, c: u128, made: u64, item: usize) -> Entry {
    Entry { rank: c, cost: c, tie1: v as i64, tie2: 0, seq: made, item }
}

/// What a search knows when it begins.
pub open spec fn trail_start(start: usize) -> Trail {
    Trail {
        nodes: seq![start],
        cost: seq![0u128],
        parent: seq![0usize],
        open: seq![node_entry(start, 0, 0, 0)],
        made: 0,
    }
}

/// The trail once node `v` is come to at cost `c` from the node at `from`: another one only where
/// the node was not found at that cost before.
pub open spec fn come_to(t: Trail, v: usize, c: u128, from: usize) -> Trail {
    let known = t.nodes.contains(v);
    let j = if known { t.nodes.index_of(v) } else { t.nodes.len() as int };
    let made = if t.made == u64::MAX { 0u64 } else { (t.made + 1) as u64 };
    if known && t.cost[j] <= c {
        t
    } else {
        Trail {
            nodes: if known { t.nodes } else { t.nodes.push(v) },
            cost: if known { t.cost.update(j, c) } else { t.cost.push(c) },
            parent: if known { t.parent.update(j, from) } else { t.parent.push(from) },
            open: with_entry(t.open, node_entry(v, c, made, j as usize)),
            made,
        }
    }
}

/// The trail after the first `d` edges of the node at `cur` were followed.
pub open spec fn looked_along(t: Trail, edges: Seq<(usize, i64)>, cur: usize, d: int) -> Trail
    decreases d,
{
    if d <= 0 {
        t
    } else {
        let (v, w) = edges[d - 1];
        come_to(looked_along(t, edges, cur, d - 1), v, (t.cost[cur as int] + w) as u128, cur)
    }
}

/// The trail after the entry that leaves first was taken up, which is passed over where its node
/// has been found at another cost since.
pub open spec fn trail_next(t: Trail, g: Seq<Seq<(usize, i64)>>) -> Trail {
    let e = t.open.last();
    let rest = Trail { open: t.open.drop_last(), ..t };
    if e.cost == t.cost[e.item as int] {
        let edges = g[t.nodes[e.item as int] as int];
        looked_along(rest, edges, e.item, edges.len() as int)
    } else {
        rest
    }
}

/// The trail after `n` entries were taken up.
pub open spec fn trail_after(g: Seq<Seq<(usize, i64)>>, start: usize, n: nat) -> Trail
    decreases n,
{
    if n == 0 { trail_start(start) } else { trail_next(trail_after(g, start, (n - 1) as nat), g) }
}

/// Whether a search is over: nothing waits, or the end is to be taken up.
pub open spec fn is_over(t: Trail, end: usize) -> bool {
    t.open.len() == 0 || t.nodes[t.open.last().item as int] == end
}

/// Whether the search is over after `n` entries, and no sooner.
pub open spec fn ends_after(g: Seq<Seq<(usize, i64)>>, start: usize, end: usize, n: nat) -> bool {
    is_over(trail_after(g, start, n), end) && forall|m: nat| m < n ==> !is_over(#[trigger] trail_after(g, start, m), end)
}

/// Whether `places` lead from the first node that was found to the one at `i`, each reached from the
/// one before.
pub open spec fn is_way_to(parent: Seq<usize>, i: usize, places: Seq<usize>) -> bool {
    &&& places.len() > 0
    &&& places[0] == 0
    &&& places.last() == i
    &&& forall|k: int|
        0 < k < places.len() ==> #[trigger] places[k] != 0 && parent[places[k] as int] == places[k - 1]
}

/// The nodes at the given places.
pub open spec fn nodes_at(nodes: Seq<usize>, places: Seq<usize>) -> Seq<usize> {
    Seq::new(places.len(), |k: int| nodes[places[k] as int])
}

/// Whether `r` is the walk with which a search ends, if it ends with one.
pub open spec fn is_walk_found(t: Trail, r: Option<Seq<usize>>) -> bool {
    match r {
        Some(p) => t.open.len() > 0 && exists|places: Seq<usize>| #[trigger]
            is_way_to(t.parent, t.open.last().item, places) && p == nodes_at(t.nodes, places),
        None => t.open.len() == 0,
    }
}

/// Whether `r` is the walk of the search from `start` to `end`.
pub open spec fn is_search_walk(g: Seq<Seq<(usize, i64)>>, start: usize, end: usize, r: Option<Seq<usize>>) -> bool {
    exists|n: nat| #[trigger] ends_after(g, start, end, n) && is_walk_found(trail_after(g, start, n), r)
}

pub open spec fn walk_of(r: Option<Vec<usize>>) -> Option<Seq<usize>> {
    match r {
        Some(v) => Some(v@),
        None => None,
    }
}

proof fn lemma_one_way(parent: Seq<usize>, i: usize, a: Seq<usize>, b: Seq<usize>)
    requires
        is_way_to(parent, i, a),
        is_way_to(parent, i, b),
    ensures
        a == b,
    decreases a.len(),
{
    if a.len() == 1 || b.len() == 1 {
        if a.len() > 1 {
            assert(a[a.len() - 1] != 0);
        }
        if b.len() > 1 {
            assert(b[b.len() - 1] != 0);
        }
        assert(a =~= b);
    } else {
        assert(a[a.len() - 1] == i && b[b.len() - 1] == i);
        let before = parent[i as int];
        assert(a[a.len() - 2] == before && b[b.len() - 2] == before);
        assert(is_way_to(parent, before, a.drop_last()));
        assert(is_way_to(parent, before, b.drop_last()));
        lemma_one_way(parent, before, a.drop_last(), b.drop_last());
        assert(a =~= a.drop_last().push(i));
        assert(b =~= b.drop_last().push(i));
    }
}

/// Searches in the same graph with the same ends find the same walk.
pub proof fn law_search_has_one_walk(
    g: Seq<Seq<(usize, i64)>>,
    start: usize,
    end: usize,
    a: Option<Seq<usize>>,
    b: Option<Seq<usize>>,
)
    requires
        is_search_walk(g, start, end, a),
        is_search_walk(g, start, end, b),
    ensures
        a == b,
{
    let n = choose|n: nat| #[trigger] ends_after(g, start, end, n) && is_walk_found(trail_after(g, start, n), a);
    let m = choose|m: nat| #[trigger] ends_after(g, start, end, m) && is_walk_found(trail_after(g, start, m), b);
    if n < m {
        assert(!is_over(trail_after(g, start, n), end));
    } else if m < n {
        assert(!is_over(trail_after(g, start, m), end));
    }
    let t = trail_after(g, start, n);
    if a is Some && b is Some {
        let i = t.open.last().item;
        let x = choose|x: Seq<usize>| #[trigger] is_way_to(t.parent, i, x) && a->0 == nodes_at(t.nodes, x);
        let y = choose|y: Seq<usize>| #[trigger] is_way_to(t.parent, i, y) && b->0 == nodes_at(t.nodes, y);
        lemma_one_way(t.parent, i, x, y);
    }
}

/// The sum of all costs.
spec fn total(s: Seq<u128>) -> nat
    decreases s.len(),
{
    if s.len() == 0 { 0 } else { total(s.drop_last()) + s.last() as nat }
}

proof fn lemma_total_update(s: Seq<u128>, i: int, v: u128)
    requires
        0 <= i < s.len(),
    ensures
        total(s.update(i, v)) == total(s) - s[i] + v,
    decreases s.len(),
{
    let t = s.update(i, v);
    if i == s.len() - 1 {
        assert(t.drop_last() =~= s.drop_last());
    } else {
        assert(t.drop_last() =~= s.drop_last().update(i, v));
        lemma_total_update(s.drop_last(), i, v);
    }
}

/// The nodes found so far, each with its cost and the edge by which it was reached.
struct Found {
    nodes: Vec<usize>,
    cost: Vec<u128>,
    parent: Vec<usize>,
    slot: Vec<usize>,
    /// For each node of the graph its position among the found ones.
    at: Vec<Option<usize>>,
    /// When each found node got its cost.
    stamp: Ghost<Seq<nat>>,
}

impl Found {
    spec fn within(self, v: usize, c: int) -> bool {
        exists|j: int| 0 <= j < self.nodes@.len() && #[trigger] self.nodes@[j] == v && self.cost@[j] <= c
    }

    spec fn link_ok(self, g: Seq<Seq<(usize, i64)>>, i: int) -> bool {
        let p = self.parent@[i] as int;
        &&& 0 <= p < self.nodes@.len()
        &&& 0 <= self.slot@[i] < g[self.nodes@[p] as int].len()
        &&& g[self.nodes@[p] as int][self.slot@[i] as int].0 == self.nodes@[i]
        &&& self.cost@[p] + g[self.nodes@[p] as int][self.slot@[i] as int].1 <= self.cost@[i]
        &&& self.cost@[p] < self.cost@[i] || self.stamp@[p] < self.stamp@[i]
    }

    /// Whether all stamps are below `t`.
    spec fn before(self, t: nat) -> bool {
        forall|i: int| 0 <= i < self.stamp@.len() ==> #[trigger] self.stamp@[i] < t
    }

    /// Takes up node `v` at cost `c`, reached by edge `slot` of the found node `from`, if that is
    /// better than what is known of it; its position then.
    fn improve(&mut self, adj: &Vec<Vec<(usize, i64)>>, v: usize, c: u128, from: usize, slot: usize, Ghost(t): Ghost<nat>) -> (r: Option<usize>)
        requires
            edges_valid(lists(adj@)),
            old(self).shape(lists(adj@)),
            old(self).before(t),
            from < old(self).nodes@.len(),
            slot < lists(adj@)[old(self).nodes@[from as int] as int].len(),
            lists(adj@)[old(self).nodes@[from as int] as int][slot as int].0 == v,
            c == old(self).cost@[from as int] + lists(adj@)[old(self).nodes@[from as int] as int][slot as int].1,
        ensures
            final(self).shape(lists(adj@)),
            final(self).before(t + 1),
            final(self).within(v, c as int),
            final(self).nodes@.len() >= old(self).nodes@.len(),
            forall|j: int| 0 <= j < old(self).nodes@.len() ==> final(self).nodes@[j] == #[trigger] old(self).nodes@[j],
            match r {
                None => *final(self) == *old(self) && old(self).nodes@.contains(v) && old(self).cost@[old(self).nodes@.index_of(
                    v,
                )] <= c,
                Some(j) => {
                    &&& if old(self).nodes@.contains(v) {
                        &&& j == old(self).nodes@.index_of(v)
                        &&& final(self).nodes@ == old(self).nodes@
                        &&& final(self).cost@ == old(self).cost@.update(j as int, c)
                        &&& final(self).parent@ == old(self).parent@.update(j as int, from)
                    } else {
                        &&& j == old(self).nodes@.len()
                        &&& final(self).nodes@ == old(self).nodes@.push(v)
                        &&& final(self).cost@ == old(self).cost@.push(c)
                        &&& final(self).parent@ == old(self).parent@.push(from)
                    }
                    &&& j < final(self).nodes@.len()
                    &&& j != 0
                    &&& final(self).nodes@[j as int] == v
                    &&& final(self).cost@[j as int] == c
                    &&& j != from
                    &&& forall|i: int|
                        0 <= i < old(self).nodes@.len() && i != j ==> final(self).cost@[i] == #[trigger] old(self).cost@[i]
                    &&& j < old(self).nodes@.len() ==> old(self).cost@[j as int] > c
                    &&& (final(self).nodes@.len() == old(self).nodes@.len() + 1 && j == old(self).nodes@.len()) || (
                    final(self).nodes@.len() == old(self).nodes@.len() && total(final(self).cost@) < total(old(self).cost@))
                },
            },
    {
        let ghost g = lists(adj@);
        let ghost b = *self;
        proof {
            assert(b.nodes@[from as int] < g.len());
            assert(g[b.nodes@[from as int] as int][slot as int].0 < g.len());
        }
        assert(self.nodes.len() <= usize::MAX);
        match self.at[v] {
            Some(j) => {
                proof {
                    assert(self.nodes@[j as int] == v);
                    let k = self.nodes@.index_of(v);
                    assert(self.nodes@[k] == v && self.at@[v as int] == Some(k as usize));
                }
                if c < self.cost[j] {
                    self.cost.set(j, c);
                    self.parent.set(j, from);
                    self.slot.set(j, slot);
                    proof {
                        self.stamp@ = self.stamp@.update(j as int, t);
                        lemma_total_update(b.cost@, j as int, c);
                        assert(b.stamp@[from as int] < t);
                        assert(b.cost@[j as int] <= i64::MAX * (b.nodes@.len() - 1));
                        assert forall|i: int| 0 < i < self.nodes@.len() implies #[trigger] self.link_ok(g, i) by {
                            if i != j {
                                assert(b.link_ok(g, i));
                            }
                        }
                        assert forall|i: int| 0 <= i < self.nodes@.len() implies #[trigger] self.cost@[i] <= i64::MAX * (
                        self.nodes@.len() - 1) by {
                            if i != j {
                                assert(b.cost@[i] <= i64::MAX * (b.nodes@.len() - 1));
                            }
                        }
                        assert forall|i: int| 0 <= i < self.stamp@.len() implies #[trigger] self.stamp@[i] < t + 1 by {
                            if i != j {
                                assert(b.stamp@[i] < t);
                            }
                        }
                        assert(self.nodes@[j as int] == v);
                        assert(j != from);
                    }
                    Some(j)
                } else {
                    assert(self.nodes@[j as int] == v);
                    None
                }
            },
            None => {
                let j: usize = self.nodes.len();
                assert(!self.nodes@.contains(v)) by {
                    if self.nodes@.contains(v) {
                        let k = self.nodes@.index_of(v);
                        assert(self.at@[self.nodes@[k] as int] is Some);
                    }
                }
                self.nodes.push(v);
                self.cost.push(c);
                self.parent.push(from);
                self.slot.push(slot);
                self.at.set(v, Some(j));
                proof {
                    self.stamp@ = self.stamp@.push(t);
                    assert(b.stamp@[from as int] < t);
                    assert(b.cost@[from as int] <= i64::MAX * (b.nodes@.len() - 1));
                    assert forall|i: int| 0 <= i < self.nodes@.len() implies #[trigger] self.nodes@[i] < g.len()
                        && self.at@[self.nodes@[i] as int] == Some(i as usize) by {
                        if i < j {
                            assert(self.nodes@[i] == b.nodes@[i]);
                            assert(b.at@[b.nodes@[i] as int] is Some);
                        }
                    }
                    assert forall|u: int| 0 <= u < g.len() && (#[trigger] self.at@[u]) is Some implies self.at@[u]->0
                        < self.nodes@.len() && self.nodes@[self.at@[u]->0 as int] == u by {
                        if u != v {
                            assert(b.at@[u] is Some);
                        }
                    }
                    assert forall|i: int| 0 < i < self.nodes@.len() implies #[trigger] self.link_ok(g, i) by {
                        if i < j {
                            assert(b.link_ok(g, i));
                        }
                    }
                    assert forall|i: int| 0 <= i < self.nodes@.len() implies #[trigger] self.cost@[i] <= i64::MAX * (
                    self.nodes@.len() - 1) by {
                        if i < j {
                            assert(b.cost@[i] <= i64::MAX * (b.nodes@.len() - 1));
                        }
                    }
                    assert forall|i: int| 0 <= i < self.stamp@.len() implies #[trigger] self.stamp@[i] < t + 1 by {
                        if i != j {
                            assert(b.stamp@[i] < t);
                        }
                    }
                    assert(self.nodes@[j as int] == v);
                }
                Some(j)
            },
        }
    }

    spec fn shape(self, g: Seq<Seq<(usize, i64)>>) -> bool {
        &&& self.nodes@.len() > 0
        &&& self.cost@.len() == self.nodes@.len()
        &&& self.parent@.len() == self.nodes@.len()
        &&& self.slot@.len() == self.nodes@.len()
        &&& self.at@.len() == g.len()
        &&& self.cost@[0] == 0
        &&& forall|i: int| 0 <= i < self.nodes@.len() ==> #[trigger] self.nodes@[i] < g.len() && self.at@[self.nodes@[i] as int] == Some(
            i as usize,
        )
        &&& forall|v: int|
            0 <= v < g.len() && (#[trigger] self.at@[v]) is Some ==> self.at@[v]->0 < self.nodes@.len()
                && self.nodes@[self.at@[v]->0 as int] == v
        &&& forall|i: int| 0 <= i < self.nodes@.len() ==> #[trigger] self.cost@[i] <= i64::MAX * (self.nodes@.len() - 1)
        &&& forall|i: int| 0 < i < self.nodes@.len() ==> #[trigger] self.link_ok(g, i)
        &&& self.stamp@.len() == self.nodes@.len()
    }

    spec fn settled(self, g: Seq<Seq<(usize, i64)>>, end: usize, i: int) -> bool {
        &&& self.nodes@[i] != end
        &&& forall|s: int|
            0 <= s < g[self.nodes@[i] as int].len() ==> self.within(
                (#[trigger] g[self.nodes@[i] as int][s]).0,
                self.cost@[i] + g[self.nodes@[i] as int][s].1,
            )
    }

    spec fn entries_fit(self, open: Seq<Entry>) -> bool {
        forall|k: int|
            0 <= k < open.len() ==> (#[trigger] open[k]).item < self.nodes@.len() && open[k].cost
                >= self.cost@[open[k].item as int] && open[k].rank == open[k].cost
    }

    spec fn cared_for(self, g: Seq<Seq<(usize, i64)>>, end: usize, open: Seq<Entry>, i: int) -> bool {
        self.settled(g, end, i) || waits(open, i, self.cost@[i] as int)
    }
}

spec fn trail(f: Found, open: Seq<Entry>, made: u64) -> Trail {
    Trail { nodes: f.nodes@, cost: f.cost@, parent: f.parent@, open, made }
}

spec fn waits(open: Seq<Entry>, i: int, c: int) -> bool {
    exists|k: int| 0 <= k < open.len() && (#[trigger] open[k]).item == i && open[k].cost == c
}

proof fn lemma_waits_insert(open: Seq<Entry>, p: int, e: Entry, i: int, c: int)
    requires
        0 <= p <= open.len(),
    ensures
        waits(open, i, c) ==> waits(open.insert(p, e), i, c),
        waits(open.insert(p, e), e.item as int, e.cost as int),
{
    let n = open.insert(p, e);
    assert(n[p] == e);
    if waits(open, i, c) {
        let k = choose|k: int| 0 <= k < open.len() && (#[trigger] open[k]).item == i && open[k].cost == c;
        let m = if k < p { k } else { k + 1 };
        assert(n[m] == open[k]);
    }
}

/// A longer walk costs the shorter one and the step before it.
pub proof fn lemma_cost_prepend(g: Seq<Seq<(usize, i64)>>, u: usize, x: int, p: Seq<usize>, s: Seq<int>)
    requires
        p.len() == s.len() + 1,
    ensures
        walk_cost(g, seq![u] + p, seq![x] + s) == g[u as int][x].1 + walk_cost(g, p, s),
    decreases s.len(),
{
    let p2 = seq![u] + p;
    let s2 = seq![x] + s;
    if s.len() == 0 {
        assert(s2.drop_last() =~= Seq::<int>::empty());
        assert(walk_cost(g, p2.drop_last(), s2.drop_last()) == 0);
        assert(s2.last() == x);
        assert(p2[s2.len() - 1] == u);
    } else {
        assert(p2.drop_last() =~= seq![u] + p.drop_last());
        assert(s2.drop_last() =~= seq![x] + s.drop_last());
        lemma_cost_prepend(g, u, x, p.drop_last(), s.drop_last());
        assert(p2[s2.len() - 1] == p[s.len() - 1]);
        assert(s2.last() == s.last());
    }
}

/// The cost of a walk up to its `i`-th node.
proof fn lemma_cost_step(g: Seq<Seq<(usize, i64)>>, p: Seq<usize>, s: Seq<int>, i: int)
    requires
        p.len() == s.len() + 1,
        0 <= i < s.len(),
    ensures
        walk_cost(g, p.take(i + 2), s.take(i + 1)) == walk_cost(g, p.take(i + 1), s.take(i)) + g[p[i] as int][s[i]].1,
{
    assert(p.take(i + 2).drop_last() =~= p.take(i + 1));
    assert(s.take(i + 1).drop_last() =~= s.take(i));
}

/// Costs grow along a walk.
proof fn lemma_cost_grows(g: Seq<Seq<(usize, i64)>>, p: Seq<usize>, s: Seq<int>, i: int)
    requires
        edges_valid(g),
        is_walk(g, p, s),
        0 <= i <= s.len(),
    ensures
        0 <= walk_cost(g, p.take(i + 1), s.take(i)) <= walk_cost(g, p, s),
    decreases s.len() - i, 0nat,
{
    if i == s.len() {
        assert(p.take(i + 1) =~= p);
        assert(s.take(i) =~= s);
        lemma_cost_nonneg(g, p, s, i);
    } else {
        lemma_cost_grows(g, p, s, i + 1);
        lemma_cost_step(g, p, s, i);
        assert(g[p[i] as int][s[i]].1 >= 0) by {
            assert(p[i] < g.len());
        }
        lemma_cost_nonneg(g, p, s, i);
    }
}

pub proof fn lemma_cost_nonneg(g: Seq<Seq<(usize, i64)>>, p: Seq<usize>, s: Seq<int>, i: int)
    requires
        edges_valid(g),
        is_walk(g, p, s),
        0 <= i <= s.len(),
    ensures
        0 <= walk_cost(g, p.take(i + 1), s.take(i)),
    decreases i,
{
    if i > 0 {
        lemma_cost_nonneg(g, p, s, i - 1);
        lemma_cost_step(g, p, s, i - 1);
        assert(p[i - 1] < g.len());
    }
}

/// While a walk exists, some entry ranks no higher than the walk costs.
proof fn lemma_walk_waits(
    g: Seq<Seq<(usize, i64)>>,
    end: usize,
    f: Found,
    open: Seq<Entry>,
    q: Seq<usize>,
    t: Seq<int>,
    i: int,
)
    requires
        edges_valid(g),
        is_walk(g, q, t),
        q.last() == end,
        0 <= i <= t.len(),
        f.cost@.len() == f.nodes@.len(),
        f.within(q[i], walk_cost(g, q.take(i + 1), t.take(i))),
        f.entries_fit(open),
        forall|j: int| 0 <= j < f.nodes@.len() ==> #[trigger] f.cared_for(g, end, open, j),
    ensures
        exists|k: int| 0 <= k < open.len() && (#[trigger] open[k]).rank <= walk_cost(g, q, t),
    decreases t.len() - i,
{
    let c = walk_cost(g, q.take(i + 1), t.take(i));
    let j = choose|j: int| 0 <= j < f.nodes@.len() && #[trigger] f.nodes@[j] == q[i] && f.cost@[j] <= c;
    lemma_cost_grows(g, q, t, i);
    assert(f.cared_for(g, end, open, j));
    if f.settled(g, end, j) {
        assert(i < t.len());
        lemma_cost_step(g, q, t, i);
        let s = t[i];
        assert(g[q[i] as int][s].0 == q[i + 1]);
        assert(f.within(g[f.nodes@[j] as int][s].0, f.cost@[j] + g[f.nodes@[j] as int][s].1));
        let m = choose|m: int|
            0 <= m < f.nodes@.len() && #[trigger] f.nodes@[m] == q[i + 1] && f.cost@[m] <= f.cost@[j] + g[q[i] as int][s].1;
        assert(f.nodes@[m] == q[i + 1] && f.cost@[m] <= walk_cost(g, q.take(i + 2), t.take(i + 1)));
        lemma_walk_waits(g, end, f, open, q, t, i + 1);
    } else {
        let k = choose|k: int| 0 <= k < open.len() && (#[trigger] open[k]).item == j && open[k].cost == f.cost@[j];
        assert(open[k].rank <= walk_cost(g, q, t));
    }
}

/// The walk from the first found node to the one at `at`.
fn trace(adj: &Vec<Vec<(usize, i64)>>, f: &Found, at: usize) -> (r: (Vec<usize>, Ghost<Seq<int>>))
    requires
        f.shape(lists(adj@)),
        edges_valid(lists(adj@)),
        at < f.nodes@.len(),
    ensures
        leads(lists(adj@), f.nodes@[0], f.nodes@[at as int], r.0@, r.1@),
        walk_cost(lists(adj@), r.0@, r.1@) <= f.cost@[at as int],
        exists|places: Seq<usize>| #[trigger] is_way_to(f.parent@, at, places) && r.0@ == nodes_at(f.nodes@, places),
{
    let ghost g = lists(adj@);
    let mut rev: Vec<usize> = Vec::new();
    let mut i: usize = at;
    rev.push(f.nodes[i]);
    let ghost mut p: Seq<usize> = seq![f.nodes@[at as int]];
    let ghost mut s: Seq<int> = Seq::empty();
    let ghost mut places: Seq<usize> = seq![at];
    assert(p =~= nodes_at(f.nodes@, places));
    while i != 0
        invariant
            g == lists(adj@),
            edges_valid(g),
            f.shape(g),
            i < f.nodes@.len(),
            at < f.nodes@.len(),
            is_walk(g, p, s),
            p[0] == f.nodes@[i as int],
            p.last() == f.nodes@[at as int],
            rev@.len() == p.len(),
            forall|k: int| 0 <= k < p.len() ==> #[trigger] p[k] == rev@[p.len() - 1 - k],
            f.cost@[i as int] + walk_cost(g, p, s) <= f.cost@[at as int],
            places.len() > 0,
            places[0] == i,
            places.last() == at,
            p == nodes_at(f.nodes@, places),
            forall|k: int|
                0 < k < places.len() ==> #[trigger] places[k] != 0 && f.parent@[places[k] as int] == places[k - 1],
        decreases f.cost@[i as int], f.stamp@[i as int],
    {
        proof {
            assert(f.link_ok(g, i as int));
            let u = f.nodes@[f.parent@[i as int] as int];
            let x = f.slot@[i as int] as int;
            assert(u < g.len() && g[u as int][x].1 >= 0);
            lemma_cost_prepend(g, u, x, p, s);
            let p2 = seq![u] + p;
            let s2 = seq![x] + s;
            assert forall|k: int| 0 <= k < s2.len() implies 0 <= #[trigger] s2[k] < g[p2[k] as int].len() && g[p2[k] as int][s2[k]].0
                == p2[k + 1] by {
                if k > 0 {
                    assert(s2[k] == s[k - 1] && p2[k] == p[k - 1] && p2[k + 1] == p[k]);
                }
            }
            assert forall|k: int| 0 <= k < p2.len() implies #[trigger] p2[k] < g.len() by {
                if k > 0 {
                    assert(p2[k] == p[k - 1]);
                }
            }
            let longer = seq![f.parent@[i as int]] + places;
            assert forall|k: int| 0 < k < longer.len() implies #[trigger] longer[k] != 0 && f.parent@[longer[k] as int] == longer[k
                - 1] by {
                assert(longer[k] == places[k - 1]);
                if k > 1 {
                    assert(places[k - 1] != 0);
                    assert(longer[k - 1] == places[k - 2]);
                }
            }
            assert(p2 =~= nodes_at(f.nodes@, longer));
            p = p2;
            s = s2;
            places = longer;
        }
        i = f.parent[i];
        rev.push(f.nodes[i]);
    }
    let n: usize = rev.len();
    let mut path: Vec<usize> = Vec::new();
    let mut k: usize = 0;
    while k < n
        invariant
            n == rev@.len(),
            k <= n,
            path@.len() == k,
            forall|m: int| 0 <= m < k ==> #[trigger] path@[m] == rev@[n - 1 - m],
        decreases n - k,
    {
        path.push(rev[n - 1 - k]);
        k += 1;
    }
    assert(path@ =~= p);
    assert(is_way_to(f.parent@, at, places));
    (path, Ghost(s))
}

/// A cheapest path from `start_idx` to `end_idx`, as node indices.
///
/// Of several cheapest paths it is the one that the search comes to first.
pub fn dijkstra_indices_with_adj(adj: &Vec<Vec<(usize, i64)>>, start_idx: usize, end_idx: usize) -> (r: Option<Vec<usize>>)
    requires
        edges_valid(lists(adj@)),
        start_idx < adj@.len(),
    ensures
        match r {
            Some(p) => is_cheapest(lists(adj@), start_idx, end_idx, p@),
            None => forall|q: Seq<usize>, t: Seq<int>| !#[trigger] leads(lists(adj@), start_idx, end_idx, q, t),
        },
        is_search_walk(lists(adj@), start_idx, end_idx, walk_of(r)),
{
    match search_within(adj, start_idx, end_idx, None).0 {
        Bounded::Found(p) => Some(p),
        _ => None,
    }
}

/// How a bounded search ends.
#[derive(Debug)]
pub enum Bounded {
    Found(Vec<usize>),
    NotFound,
    /// It has taken up as many entries as it may.
    Cut,
}

/// The number of entries that were taken up, as far as 32 bits can tell.
pub open spec fn told_pops(n: nat) -> u32 {
    if n < u32::MAX { n as u32 } else { u32::MAX }
}

/// Whether a search that may take up `most` entries may go on after `n`.
pub open spec fn may_go_on(most: Option<u32>, n: nat) -> bool {
    match most {
        Some(m) => n < m,
        None => true,
    }
}

/// How a bounded search ends: with a walk or without one, or not at all where it is cut short.
pub open spec fn ending(r: Bounded) -> Option<Option<Seq<usize>>> {
    match r {
        Bounded::Found(p) => Some(Some(p@)),
        Bounded::NotFound => Some(None),
        Bounded::Cut => None,
    }
}

/// Whether `r` and `pops` are how a search ends that may take up `most` entries: with its walk, or
/// that there is none, where it is over before then; else cut short.
pub open spec fn is_bounded_search(
    g: Seq<Seq<(usize, i64)>>,
    start: usize,
    end: usize,
    most: Option<u32>,
    r: Option<Option<Seq<usize>>>,
    pops: u32,
) -> bool {
    match r {
        None => most == Some(pops) && forall|m: nat| m < pops ==> !is_over(#[trigger] trail_after(g, start, m), end),
        Some(w) => exists|n: nat| #[trigger]
            ends_after(g, start, end, n) && may_go_on(most, n) && pops == told_pops(n) && is_walk_found(
                trail_after(g, start, n),
                w,
            ),
    }
}

/// A cheapest path from `start_idx` to `end_idx`, as node indices, found by a search that takes up
/// at most so many entries; and how many it has taken up.
pub fn search_within(adj: &Vec<Vec<(usize, i64)>>, start_idx: usize, end_idx: usize, most: Option<u32>) -> (r: (Bounded, u32))
    requires
        edges_valid(lists(adj@)),
        start_idx < adj@.len(),
    ensures
        is_bounded_search(lists(adj@), start_idx, end_idx, most, ending(r.0), r.1),
        match r.0 {
            Bounded::Found(p) => is_cheapest(lists(adj@), start_idx, end_idx, p@),
            Bounded::NotFound => forall|q: Seq<usize>, t: Seq<int>| !#[trigger] leads(lists(adj@), start_idx, end_idx, q, t),
            Bounded::Cut => true,
        },
{
    let ghost g = lists(adj@);
    let n: usize = adj.len();
    let mut at: Vec<Option<usize>> = Vec::new();
    let mut i: usize = 0;
    while i < n
        invariant
            i <= n,
            at@.len() == i,
            forall|k: int| 0 <= k < i ==> #[trigger] at@[k] is None,
        decreases n - i,
    {
        at.push(None);
        i += 1;
    }
    let stamp: Ghost<Seq<nat>> = Ghost(Seq::empty().push(0nat));
    let mut f: Found = Found {
        nodes: Vec::new(),
        cost: Vec::new(),
        parent: Vec::new(),
        slot: Vec::new(),
        at,
        stamp,
    };
    f.nodes.push(start_idx);
    f.cost.push(0);
    f.parent.push(0);
    f.slot.push(0);
    f.at.set(start_idx, Some(0));
    let ghost mut clock: nat = 1;
    let mut seq: u64 = 0;
    let mut open: OpenList = OpenList::new();
    let first: Entry = Entry { rank: 0, cost: 0, tie1: start_idx as i64, tie2: 0, seq, item: 0 };
    open.push(first);
    assert(open@ =~= seq![first]);
    assert(open@[0] == first);
    let ghost mut taken: nat = 0;
    let mut pops: u32 = 0;
    assert(trail(f, open@, seq) =~= trail_start(start_idx));
    loop
        invariant
            g == lists(adj@),
            trail(f, open@, seq) == trail_after(g, start_idx, taken),
            pops == told_pops(taken),
            forall|m: nat| m < taken ==> !is_over(#[trigger] trail_after(g, start_idx, m), end_idx),
            n == adj@.len(),
            edges_valid(g),
            f.shape(g),
            f.before(clock),
            f.nodes@[0] == start_idx,
            open.wf(),
            f.entries_fit(open@),
            forall|j: int| 0 <= j < f.nodes@.len() ==> #[trigger] f.cared_for(g, end_idx, open@, j),
        decreases usize::MAX - f.nodes@.len(), total(f.cost@), open@.len(),
    {
        if let Some(m) = most {
            if pops >= m {
                return (Bounded::Cut, m);
            }
        }
        let ghost open0 = open@;
        let ghost f0 = f;
        let ghost t0 = trail(f, open@, seq);
        let e: Entry = match open.pop() {
            None => {
                assert forall|q: Seq<usize>, t: Seq<int>| !#[trigger] leads(g, start_idx, end_idx, q, t) by {
                    if leads(g, start_idx, end_idx, q, t) {
                        assert(f.nodes@[0] == q[0]);
                        lemma_walk_waits(g, end_idx, f, open0, q, t, 0);
                    }
                }
                assert(ends_after(g, start_idx, end_idx, taken));
                return (Bounded::NotFound, pops);
            },
            Some(e) => e,
        };
        assert(open0[open0.len() - 1] == e);
        let cur: usize = e.item;
        let u: usize = f.nodes[cur];
        if u == end_idx {
            let (path, Ghost(s)) = trace(adj, &f, cur);
            proof {
                assert forall|q: Seq<usize>, t: Seq<int>| #[trigger] leads(g, start_idx, end_idx, q, t) implies walk_cost(
                    g,
                    path@,
                    s,
                ) <= walk_cost(g, q, t) by {
                    assert(f.nodes@[0] == q[0]);
                    lemma_walk_waits(g, end_idx, f, open0, q, t, 0);
                    let k = choose|k: int| 0 <= k < open0.len() && (#[trigger] open0[k]).rank <= walk_cost(g, q, t);
                    assert(e.le(open0[k]));
                }
                assert(leads(g, start_idx, end_idx, path@, s));
                assert(ends_after(g, start_idx, end_idx, taken));
                assert(is_walk_found(t0, Some(path@)));
            }
            return (Bounded::Found(path), pops);
        }
        assert(!is_over(t0, end_idx));
        let ghost stale = e.cost != f.cost@[cur as int];
        assert forall|j: int| 0 <= j < f.nodes@.len() && (j != cur || stale) implies #[trigger] f.cared_for(
            g,
            end_idx,
            open@,
            j,
        ) by {
            assert(f.cared_for(g, end_idx, open0, j));
            if !f.settled(g, end_idx, j) {
                let k = choose|k: int|
                    0 <= k < open0.len() && (#[trigger] open0[k]).item == j && open0[k].cost == f.cost@[j];
                assert(k < open0.len() - 1);
                assert(open@[k] == open0[k]);
            }
        }
        assert(f.entries_fit(open@)) by {
            assert forall|k: int| 0 <= k < open@.len() implies open@[k] == #[trigger] open0[k] by {}
        }
        let c0: u128 = f.cost[cur];
        // An entry whose cost is no longer the node's finds nothing to improve.
        if pops < u32::MAX {
            pops += 1;
        }
        if e.cost != c0 {
            proof {
                assert(trail(f, open@, seq) == trail_next(t0, g));
                taken = taken + 1;
            }
            continue;
        }
        let ghost rest = Trail { open: t0.open.drop_last(), ..t0 };
        assert(trail(f, open@, seq) == rest);
        let edges: &Vec<(usize, i64)> = &adj[u];
        assert(g[u as int] == edges@);
        let mut d: usize = 0;
        while d < edges.len()
            invariant
                d <= edges@.len(),
                g == lists(adj@),
                edges_valid(g),
                u < g.len(),
                g[u as int] == edges@,
                f0.shape(g),
                f.shape(g),
                f.before(clock),
                f.nodes@[0] == start_idx,
                open.wf(),
                f.entries_fit(open@),
                cur < f.nodes@.len(),
                f.nodes@[cur as int] == u,
                u != end_idx,
                pops == told_pops(taken + 1),
                f.cost@[cur as int] == c0,
                rest.cost[cur as int] == c0,
                trail(f, open@, seq) == looked_along(rest, edges@, cur, d as int),
                forall|j: int|
                    0 <= j < f.nodes@.len() && j != cur ==> #[trigger] f.cared_for(g, end_idx, open@, j),
                forall|s: int| 0 <= s < d ==> f.within((#[trigger] g[u as int][s]).0, c0 + g[u as int][s].1),
                f.nodes@.len() >= f0.nodes@.len(),
                f.nodes@.len() > f0.nodes@.len() || total(f.cost@) < total(f0.cost@) || (f.cost@ == f0.cost@ && open@.len()
                    == open0.len() - 1),
                f.nodes@.len() == f0.nodes@.len() ==> total(f.cost@) <= total(f0.cost@),
            decreases edges@.len() - d,
        {
            let (v, w): (usize, i64) = edges[d];
            assert(g[u as int][d as int] == (v, w));
            let ghost f1 = f;
            let ghost open1 = open@;
            let ghost t1 = trail(f, open@, seq);
            assert(f.nodes.len() <= usize::MAX);
            assert(f.cost@[cur as int] <= i64::MAX * (f.nodes@.len() - 1));
            assert(i64::MAX * (f.nodes@.len() - 1) <= 0x7FFF_FFFF_FFFF_FFFF * 0xFFFF_FFFF_FFFF_FFFF);
            let c: u128 = c0 + w as u128;
            match f.improve(adj, v, c, cur, d, Ghost(clock)) {
                None => {},
                Some(j) => {
                    seq = seq.wrapping_add(1);
                    let entry: Entry = Entry { rank: c, cost: c, tie1: v as i64, tie2: 0, seq, item: j };
                    open.push(entry);
                    proof {
                        let p = place_for(open1, entry);
                        assert forall|i: int| 0 <= i < f.nodes@.len() && i != cur implies #[trigger] f.cared_for(
                            g,
                            end_idx,
                            open@,
                            i,
                        ) by {
                            if i == j {
                                lemma_waits_insert(open1, p, entry, 0, 0);
                            } else {
                                assert(f1.cared_for(g, end_idx, open1, i));
                                lemma_waits_insert(open1, p, entry, i, f1.cost@[i] as int);
                                if f1.settled(g, end_idx, i) {
                                    lemma_settled_kept(g, end_idx, f1, f, i);
                                }
                            }
                        }
                        assert(f.entries_fit(open@)) by {
                            assert forall|k: int| 0 <= k < open@.len() implies (#[trigger] open@[k]).item < f.nodes@.len()
                                && open@[k].cost >= f.cost@[open@[k].item as int] && open@[k].rank == open@[k].cost by {
                                if k != p {
                                    let m = if k < p { k } else { k - 1 };
                                    assert(open@[k] == open1[m]);
                                    assert(f1.cost@[open1[m].item as int] >= f.cost@[open1[m].item as int]);
                                }
                            }
                        }
                    }
                },
            }
            assert(trail(f, open@, seq) =~= come_to(t1, v, c, cur));
            proof {
                clock = clock + 1;
                assert forall|s: int| 0 <= s < d + 1 implies f.within((#[trigger] g[u as int][s]).0, c0 + g[u as int][s].1) by {
                    if s < d {
                        lemma_within_kept(f1, f, g[u as int][s].0, c0 + g[u as int][s].1);
                    }
                }
            }
            d += 1;
        }
        proof {
            assert(trail(f, open@, seq) == trail_next(t0, g));
            taken = taken + 1;
            assert(f.settled(g, end_idx, cur as int));
            assert(f.cared_for(g, end_idx, open@, cur as int));
        }
        assert(f.nodes.len() <= usize::MAX);
    }
}

proof fn lemma_within_kept(a: Found, b: Found, v: usize, c: int)
    requires
        a.cost@.len() == a.nodes@.len(),
        b.nodes@.len() >= a.nodes@.len(),
        forall|j: int| 0 <= j < a.nodes@.len() ==> b.nodes@[j] == #[trigger] a.nodes@[j],
        forall|j: int| 0 <= j < a.nodes@.len() ==> b.cost@[j] <= #[trigger] a.cost@[j],
        a.within(v, c),
    ensures
        b.within(v, c),
{
    let j = choose|j: int| 0 <= j < a.nodes@.len() && #[trigger] a.nodes@[j] == v && a.cost@[j] <= c;
    assert(a.cost@[j] <= c);
    assert(b.nodes@[j] == v);
}

proof fn lemma_settled_kept(g: Seq<Seq<(usize, i64)>>, end: usize, a: Found, b: Found, i: int)
    requires
        a.cost@.len() == a.nodes@.len(),
        0 <= i < a.nodes@.len(),
        b.nodes@.len() >= a.nodes@.len(),
        forall|j: int| 0 <= j < a.nodes@.len() ==> b.nodes@[j] == #[trigger] a.nodes@[j],
        forall|j: int| 0 <= j < a.nodes@.len() ==> b.cost@[j] <= #[trigger] a.cost@[j],
        b.cost@[i] == a.cost@[i],
        a.settled(g, end, i),
    ensures
        b.settled(g, end, i),
{
    let u = a.nodes@[i] as int;
    assert forall|s: int| 0 <= s < g[b.nodes@[i] as int].len() implies b.within(
        (#[trigger] g[b.nodes@[i] as int][s]).0,
        b.cost@[i] + g[b.nodes@[i] as int][s].1,
    ) by {
        assert(a.within(g[u][s].0, a.cost@[i] + g[u][s].1));
        lemma_within_kept(a, b, g[u][s].0, a.cost@[i] + g[u][s].1);
    }
}

}
