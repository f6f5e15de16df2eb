//! One attempt of a search: from where the caller is to the goal, over the edges that the caller may
//! take, in either direction.

use crate::engine::edges::{adjacency, list_usable_edges, route_nodes, Means, UsableEdge};
use crate::engine::macros::MacroLookup;
use crate::engine::outcome::{SearchResult, SearchStatus};
use crate::engine::weight::Weight;
use crate::planner::dijkstra::{search_within, Bounded};
use crate::snapshot::reader::Snapshot;
use vstd::prelude::*;
#[allow(unused_imports)]
use crate::engine::edges::{
    all_join, joins, nodes_of_route, told_cost, usable_edges, usable_lists, walk_edges, with_ends, with_macros, with_rings, with_steps,
    with_usable,
};
#[allow(unused_imports)]
use crate::engine::weight::{scaled, INFINITE};
#[allow(unused_imports)]
use crate::planner::high_level::with_link;
#[allow(unused_imports)]
use crate::planner::dijkstra::{
    ending, is_bounded_search, is_cheapest, is_walk, leads, lemma_cost_prepend, lists, walk_cost,
};

verus! {

/// The adjacency lists that a search goes by, with every edge turned round where `back` says so.
pub open spec fn search_lists(
    s: Snapshot,
    lookup: MacroLookup,
    m: Means,
    start: Option<u32>,
    back: bool,
) -> Seq<Seq<(usize, i64)>> {
    let edges = usable_edges(s, lookup, m, start);
    usable_lists(edges, (s.man().counts.nodes + 1) as nat, back, edges.len() as int)
}

/// Whether an edge of this cost leads from `u` to `v`.
pub open spec fn has_link(g: Seq<Seq<(usize, i64)>>, u: int, v: usize, c: i64) -> bool {
    exists|x: int| 0 <= x < g[u].len() && #[trigger] g[u][x] == (v, c)
}

/// Whether every edge of `g` stands in `h`, turned round.
pub open spec fn turns(g: Seq<Seq<(usize, i64)>>, h: Seq<Seq<(usize, i64)>>) -> bool {
    forall|u: int, x: int|
        0 <= u < g.len() && 0 <= x < g[u].len() ==> has_link(
            h,
            (#[trigger] g[u][x]).0 as int,
            u as usize,
            g[u][x].1,
        )
}

/// Where an edge leads from and to, turned round where `back` says so.
pub open spec fn ends_of(e: UsableEdge, back: bool) -> (usize, usize) {
    if back { (e.to, e.from) } else { (e.from, e.to) }
}

/// Whether one of the first `k` edges is this one.
pub open spec fn is_listed(edges: Seq<UsableEdge>, back: bool, k: int, u: int, v: usize, c: i64) -> bool {
    exists|i: int|
        0 <= i < k && ends_of(#[trigger] edges[i], back) == (u as usize, v) && told_cost(edges[i].cost) == c
}

pub proof fn lemma_lists_hold(edges: Seq<UsableEdge>, size: nat, back: bool, k: int)
    requires
        size > 0,
        size <= usize::MAX,
        all_join(edges, size - 1),
        0 <= k <= edges.len(),
    ensures
        usable_lists(edges, size, back, k).len() == size,
        forall|u: int, x: int|
            0 <= u < size && 0 <= x < usable_lists(edges, size, back, k)[u].len() ==> {
                let to = #[trigger] usable_lists(edges, size, back, k)[u][x];
                is_listed(edges, back, k, u, to.0, to.1)
            },
        forall|i: int|
            0 <= i < k ==> has_link(
                usable_lists(edges, size, back, k),
                ends_of(#[trigger] edges[i], back).0 as int,
                ends_of(edges[i], back).1,
                told_cost(edges[i].cost),
            ),
    decreases k,
{
    let g = usable_lists(edges, size, back, k);
    if k > 0 {
        let l = usable_lists(edges, size, back, k - 1);
        lemma_lists_hold(edges, size, back, k - 1);
        assert(joins(size as int, size - 1, edges[k - 1]));
        let (a, b) = ends_of(edges[k - 1], back);
        let c = told_cost(edges[k - 1].cost);
        assert(g == l.update(a as int, l[a as int].push((b, c))));
        assert forall|u: int, x: int| 0 <= u < size && 0 <= x < g[u].len() implies {
            let to = #[trigger] g[u][x];
            is_listed(edges, back, k, u, to.0, to.1)
        } by {
            if u == a && x == l[u].len() {
                assert(ends_of(edges[k - 1], back) == (u as usize, b));
            } else {
                let to = l[u][x];
                assert(g[u][x] == to);
                assert(is_listed(edges, back, k - 1, u, to.0, to.1));
                let i = choose|i: int|
                    0 <= i < k - 1 && ends_of(#[trigger] edges[i], back) == (u as usize, to.0) && told_cost(
                        edges[i].cost,
                    ) == to.1;
                assert(ends_of(edges[i], back) == (u as usize, to.0));
            }
        }
        assert forall|i: int| 0 <= i < k implies has_link(
            g,
            ends_of(#[trigger] edges[i], back).0 as int,
            ends_of(edges[i], back).1,
            told_cost(edges[i].cost),
        ) by {
            let (u, v) = ends_of(edges[i], back);
            let d = told_cost(edges[i].cost);
            if i == k - 1 {
                assert(g[u as int][l[u as int].len() as int] == (v, d));
            } else {
                assert(has_link(l, u as int, v, d));
                assert(joins(size as int, size - 1, edges[i]));
                let x = choose|x: int| 0 <= x < l[u as int].len() && #[trigger] l[u as int][x] == (v, d);
                assert(g[u as int][x] == (v, d));
            }
        }
    }
}

/// The lists of one direction hold the edges of the other, turned round.
proof fn lemma_lists_turn(edges: Seq<UsableEdge>, size: nat, back: bool)
    requires
        size > 0,
        size <= usize::MAX,
        all_join(edges, size - 1),
    ensures
        turns(
            usable_lists(edges, size, back, edges.len() as int),
            usable_lists(edges, size, !back, edges.len() as int),
        ),
{
    let k = edges.len() as int;
    let (g, h) = (usable_lists(edges, size, back, k), usable_lists(edges, size, !back, k));
    lemma_lists_hold(edges, size, back, k);
    lemma_lists_hold(edges, size, !back, k);
    assert forall|u: int, x: int| 0 <= u < g.len() && 0 <= x < g[u].len() implies has_link(
        h,
        (#[trigger] g[u][x]).0 as int,
        u as usize,
        g[u][x].1,
    ) by {
        let to = g[u][x];
        assert(is_listed(edges, back, k, u, to.0, to.1));
        let i = choose|i: int|
            0 <= i < k && ends_of(#[trigger] edges[i], back) == (u as usize, to.0) && told_cost(edges[i].cost) == to.1;
        assert(ends_of(edges[i], !back) == (to.0, u as usize));
    }
}

/// A walk can be gone backwards, at the same cost, where every edge is turned round.
proof fn lemma_walk_turns(g: Seq<Seq<(usize, i64)>>, h: Seq<Seq<(usize, i64)>>, p: Seq<usize>, s: Seq<int>) -> (t: Seq<int>)
    requires
        turns(g, h),
        g.len() == h.len(),
        is_walk(g, p, s),
    ensures
        is_walk(h, p.reverse(), t),
        walk_cost(h, p.reverse(), t) == walk_cost(g, p, s),
    decreases s.len(),
{
    if s.len() == 0 {
        let t: Seq<int> = Seq::empty();
        assert(p.reverse() =~= p);
        t
    } else {
        let n = s.len() as int;
        let (p1, s1) = (p.drop_last(), s.drop_last());
        assert forall|i: int| 0 <= i < s1.len() implies 0 <= #[trigger] s1[i] < g[p1[i] as int].len() && g[p1[i] as int][s1[i]].0
            == p1[i + 1] by {
            assert(s[i] == s1[i]);
        }
        assert forall|i: int| 0 <= i < p1.len() implies #[trigger] p1[i] < g.len() by {
            assert(p[i] == p1[i]);
        }
        let t1 = lemma_walk_turns(g, h, p1, s1);
        let (u, v) = (p[n - 1], p[n]);
        assert(0 <= s[n - 1] < g[u as int].len());
        let c = g[u as int][s[n - 1]].1;
        assert(has_link(h, v as int, u, c));
        let x = choose|x: int| 0 <= x < h[v as int].len() && #[trigger] h[v as int][x] == (u, c);
        let t = seq![x] + t1;
        let r = p1.reverse();
        assert(p.reverse() =~= seq![v] + r);
        lemma_cost_prepend(h, v, x, r, t1);
        let q = p.reverse();
        assert forall|i: int| 0 <= i < t.len() implies 0 <= #[trigger] t[i] < h[q[i] as int].len() && h[q[i] as int][t[i]].0
            == q[i + 1] by {
            if i > 0 {
                assert(t[i] == t1[i - 1]);
                assert(q[i] == r[i - 1] && q[i + 1] == r[i]);
            } else {
                assert(r[0] == u);
            }
        }
        assert forall|i: int| 0 <= i < q.len() implies #[trigger] q[i] < h.len() by {
            assert(q[i] == p[n - i]);
        }
        t
    }
}

/// A search may go backwards: a cheapest walk over the edges turned round, itself turned round, is a
/// cheapest walk.
pub proof fn law_search_may_go_backwards(
    g: Seq<Seq<(usize, i64)>>,
    h: Seq<Seq<(usize, i64)>>,
    a: usize,
    b: usize,
    p: Seq<usize>,
)
    requires
        g.len() == h.len(),
        turns(g, h),
        turns(h, g),
        is_cheapest(h, b, a, p),
    ensures
        is_cheapest(g, a, b, p.reverse()),
{
    let s = choose|s: Seq<int>| #[trigger]
        leads(h, b, a, p, s) && forall|q: Seq<usize>, t: Seq<int>| #[trigger]
            leads(h, b, a, q, t) ==> walk_cost(h, p, s) <= walk_cost(h, q, t);
    let r = lemma_walk_turns(h, g, p, s);
    assert(leads(g, a, b, p.reverse(), r));
    assert forall|q: Seq<usize>, t: Seq<int>| #[trigger] leads(g, a, b, q, t) implies walk_cost(g, p.reverse(), r)
        <= walk_cost(g, q, t) by {
        let x = lemma_walk_turns(g, h, q, t);
        assert(leads(h, b, a, q.reverse(), x));
    }
}

proof fn lemma_no_walk_turns(g: Seq<Seq<(usize, i64)>>, h: Seq<Seq<(usize, i64)>>, a: usize, b: usize)
    requires
        g.len() == h.len(),
        turns(g, h),
        forall|q: Seq<usize>, t: Seq<int>| !#[trigger] leads(h, b, a, q, t),
    ensures
        forall|q: Seq<usize>, t: Seq<int>| !#[trigger] leads(g, a, b, q, t),
{
    assert forall|q: Seq<usize>, t: Seq<int>| !#[trigger] leads(g, a, b, q, t) by {
        if leads(g, a, b, q, t) {
            let x = lemma_walk_turns(g, h, q, t);
            assert(leads(h, b, a, q.reverse(), x));
        }
    }
}

fn turned(p: Vec<usize>) -> (r: Vec<usize>)
    ensures
        r@ == p@.reverse(),
{
    let mut r: Vec<usize> = Vec::new();
    let mut i: usize = p.len();
    while i > 0
        invariant
            i <= p@.len(),
            r@ == p@.reverse().take(p@.len() - i),
        decreases i,
    {
        i -= 1;
        r.push(p[i]);
        assert(r@ =~= p@.reverse().take(p@.len() - i));
    }
    assert(r@ =~= p@.reverse());
    r
}

/// Whether the start, where there is one, and the goal are nodes of the snapshot.
pub open spec fn ends_known(s: Snapshot, start: Option<u32>, goal: u32) -> bool {
    goal < s.man().counts.nodes && match start {
        Some(v) => v < s.man().counts.nodes,
        None => true,
    }
}

/// What a search that went backwards has found, turned round.
pub open spec fn turned_ending(r: Option<Option<Seq<usize>>>, back: bool) -> Option<Option<Seq<usize>>> {
    match r {
        Some(Some(p)) => if back { Some(Some(p.reverse())) } else { r },
        _ => r,
    }
}

/// Whether `end` and `pops` are how one attempt ends that takes up at most so many entries: with a
/// cheapest path from the node that stands for where the caller is to the goal, where there is one and
/// the search, in its direction, comes to it in time.
pub open spec fn is_attempt(
    s: Snapshot,
    lookup: MacroLookup,
    m: Means,
    start: Option<u32>,
    goal: u32,
    most: Option<u32>,
    back: bool,
    end: Option<Option<Seq<usize>>>,
    pops: u32,
) -> bool {
    let edges = usable_edges(s, lookup, m, start);
    is_search_over(edges, s.man().counts.nodes as usize, goal as usize, most, back, end, pops)
}

/// Whether `end` and `pops` are how a search over the edges ends.
pub open spec fn is_search_over(
    edges: Seq<UsableEdge>,
    n: usize,
    goal: usize,
    most: Option<u32>,
    back: bool,
    end: Option<Option<Seq<usize>>>,
    pops: u32,
) -> bool {
    let g = usable_lists(edges, (n + 1) as nat, false, edges.len() as int);
    let (a, b) = if back { (goal, n) } else { (n, goal) };
    &&& is_bounded_search(
        usable_lists(edges, (n + 1) as nat, back, edges.len() as int),
        a,
        b,
        most,
        turned_ending(end, back),
        pops,
    )
    &&& match end {
        Some(Some(p)) => is_cheapest(g, n, goal, p),
        Some(None) => forall|q: Seq<usize>, t: Seq<int>| !#[trigger] leads(g, n, goal, q, t),
        None => true,
    }
}

fn search_over(edges: &Vec<UsableEdge>, n: usize, goal: usize, most: Option<u32>, back: bool) -> (r: (Bounded, u32))
    requires
        all_join(edges@, n as int),
        goal < n < usize::MAX,
    ensures
        is_search_over(edges@, n, goal, most, back, ending(r.0), r.1),
{
    let adj: Vec<Vec<(usize, i64)>> = adjacency(edges, n + 1, back);
    let ghost g = usable_lists(edges@, (n + 1) as nat, false, edges@.len() as int);
    if !back {
        return search_within(&adj, n, goal, most);
    }
    let ghost h = lists(adj@);
    proof {
        lemma_lists_turn(edges@, (n + 1) as nat, false);
        lemma_lists_turn(edges@, (n + 1) as nat, true);
        lemma_lists_hold(edges@, (n + 1) as nat, false, edges@.len() as int);
    }
    let (found, pops): (Bounded, u32) = search_within(&adj, goal, n, most);
    match found {
        Bounded::Found(p) => {
            proof {
                law_search_may_go_backwards(g, h, n, goal, p@);
                assert(p@.reverse().reverse() =~= p@);
            }
            (Bounded::Found(turned(p)), pops)
        },
        Bounded::NotFound => {
            proof {
                lemma_no_walk_turns(g, h, n, goal);
            }
            (Bounded::NotFound, pops)
        },
        Bounded::Cut => (Bounded::Cut, pops),
    }
}

/// The smaller of a cost and that of an edge, where the edge leads on to `b`.
pub open spec fn lesser(c: Weight, b: usize, to: usize, w: Weight) -> Weight {
    if to == b && w.lt(c) { w } else { c }
}

/// What the cheapest of the edges from `a` to `b` costs; without end where there is none.
pub open spec fn step_cost(edges: Seq<UsableEdge>, a: usize, b: usize) -> Weight
    decreases edges.len(),
{
    if edges.len() == 0 {
        Weight { bits: INFINITE }
    } else {
        let c = step_cost(edges.drop_last(), a, b);
        if edges.last().from == a { lesser(c, b, edges.last().to, edges.last().cost) } else { c }
    }
}

/// What a path costs up to its `i`-th node: each step added to those before it.
pub open spec fn cost_up_to(edges: Seq<UsableEdge>, p: Seq<usize>, i: int) -> Weight
    decreases i,
{
    if i <= 0 {
        Weight { bits: 0 }
    } else {
        cost_up_to(edges, p, i - 1).plus(step_cost(edges, p[i - 1], p[i]))
    }
}

/// The same as `step_cost`, of edges that all leave from one node.
spec fn least_to(out: Seq<(usize, Weight)>, b: usize) -> Weight
    decreases out.len(),
{
    if out.len() == 0 {
        Weight { bits: INFINITE }
    } else {
        lesser(least_to(out.drop_last(), b), b, out.last().0, out.last().1)
    }
}

fn find_least(out: &Vec<(usize, Weight)>, b: usize) -> (r: Weight)
    ensures
        r == least_to(out@, b),
{
    let mut r: Weight = Weight::infinite();
    let mut i: usize = 0;
    while i < out.len()
        invariant
            i <= out@.len(),
            r == least_to(out@.take(i as int), b),
        decreases out@.len() - i,
    {
        assert(out@.take(i + 1).drop_last() =~= out@.take(i as int));
        let (to, w): (usize, Weight) = out[i];
        if to == b && w.less(&r) {
            r = w;
        }
        i += 1;
    }
    assert(out@.take(i as int) =~= out@);
    r
}

/// The edges by the node that they leave from.
fn by_origin(edges: &Vec<UsableEdge>, size: usize) -> (r: Vec<Vec<(usize, Weight)>>)
    requires
        forall|i: int| 0 <= i < edges@.len() ==> (#[trigger] edges@[i]).from < size,
    ensures
        r@.len() == size,
        forall|u: int, b: usize|
            0 <= u < size ==> #[trigger] least_to(r@[u]@, b) == step_cost(edges@, u as usize, b),
{
    let mut out: Vec<Vec<(usize, Weight)>> = Vec::new();
    let mut i: usize = 0;
    while i < size
        invariant
            i <= size,
            out@.len() == i,
            forall|k: int| 0 <= k < i ==> (#[trigger] out@[k])@.len() == 0,
        decreases size - i,
    {
        out.push(Vec::new());
        i += 1;
    }
    let mut j: usize = 0;
    assert forall|u: int, b: usize| 0 <= u < size implies #[trigger] least_to(out@[u]@, b) == step_cost(
        edges@.take(0),
        u as usize,
        b,
    ) by {
        assert(out@[u]@.len() == 0);
    }
    while j < edges.len()
        invariant
            j <= edges@.len(),
            out@.len() == size,
            forall|i: int| 0 <= i < edges@.len() ==> (#[trigger] edges@[i]).from < size,
            forall|u: int, b: usize|
                0 <= u < size ==> #[trigger] least_to(out@[u]@, b) == step_cost(edges@.take(j as int), u as usize, b),
        decreases edges@.len() - j,
    {
        let e: UsableEdge = edges[j];
        assert(edges@[j as int].from < size);
        let ghost before = out@;
        let mut row: Vec<(usize, Weight)> = Vec::new();
        std::mem::swap(&mut row, &mut out[e.from]);
        let ghost list = row@;
        row.push((e.to, e.cost));
        out.set(e.from, row);
        assert(list == before[e.from as int]@);
        assert(out@[e.from as int]@.drop_last() =~= list);
        assert(edges@.take(j + 1).drop_last() =~= edges@.take(j as int));
        assert forall|u: int, b: usize| 0 <= u < size implies #[trigger] least_to(out@[u]@, b) == step_cost(
            edges@.take(j + 1),
            u as usize,
            b,
        ) by {
            assert(least_to(before[u]@, b) == step_cost(edges@.take(j as int), u as usize, b));
            if u != e.from {
                assert(out@[u] == before[u]);
            }
        }
        j += 1;
    }
    assert(edges@.take(j as int) =~= edges@);
    out
}

/// The costs up to each node of a path.
fn costs_along(edges: &Vec<UsableEdge>, size: usize, p: &Vec<usize>) -> (r: Vec<Weight>)
    requires
        forall|i: int| 0 <= i < edges@.len() ==> (#[trigger] edges@[i]).from < size,
        forall|i: int| 0 <= i < p@.len() ==> #[trigger] p@[i] < size,
        p@.len() > 0,
    ensures
        r@ == Seq::new(p@.len(), |i: int| cost_up_to(edges@, p@, i)),
{
    let out: Vec<Vec<(usize, Weight)>> = by_origin(edges, size);
    let mut r: Vec<Weight> = Vec::new();
    let mut sum: Weight = Weight { bits: 0 };
    r.push(sum);
    let mut i: usize = 1;
    while i < p.len()
        invariant
            1 <= i <= p@.len(),
            out@.len() == size,
            forall|i: int| 0 <= i < p@.len() ==> #[trigger] p@[i] < size,
            forall|u: int, b: usize|
                0 <= u < size ==> #[trigger] least_to(out@[u]@, b) == step_cost(edges@, u as usize, b),
            sum == cost_up_to(edges@, p@, i - 1),
            r@ =~= Seq::new(i as nat, |k: int| cost_up_to(edges@, p@, k)),
        decreases p@.len() - i,
    {
        assert(p@[i - 1] < size);
        sum = sum.sum(&find_least(&out[p[i - 1]], p[i]));
        r.push(sum);
        i += 1;
    }
    r
}

/// Whether `r` tells how an attempt ended: the nodes of the route with the cost up to each, and how
/// many entries were taken up in which direction.
pub open spec fn is_told(edges: Seq<UsableEdge>, start: Option<u32>, back: bool, end: Option<Option<Seq<usize>>>, r: SearchResult) -> bool {
    &&& r.pops_f == if back { 0 } else { r.pops }
    &&& r.pops_b == if back { r.pops } else { 0 }
    &&& match end {
        Some(Some(p)) => {
            let costs = Seq::new(p.len(), |i: int| cost_up_to(edges, p, i));
            &&& r.found
            &&& r.status == SearchStatus::Found
            &&& r.path@ == nodes_of_route(p, start)
            &&& r.path_g@ == if r.path@.len() == p.len() { costs } else { costs.skip(1) }
            &&& r.cost == costs.last()
        },
        _ => {
            &&& !r.found
            &&& r.status == if end is None { SearchStatus::BudgetExceeded } else { SearchStatus::NotFound }
            &&& r.path@.len() == 0
            &&& r.path_g@.len() == 0
            &&& r.cost == (Weight { bits: INFINITE })
        },
    }
}

/// A result without a path.
pub fn without_path(status: SearchStatus, pops: u32, back: bool) -> (r: SearchResult)
    ensures
        !r.found,
        r.status == status,
        r.path@.len() == 0,
        r.path_g@.len() == 0,
        r.cost == (Weight { bits: INFINITE }),
        r.pops == pops,
        r.pops_f == if back { 0 } else { pops },
        r.pops_b == if back { pops } else { 0 },
{
    SearchResult {
        found: false,
        status,
        path: Vec::new(),
        path_g: Vec::new(),
        cost: Weight::infinite(),
        pops,
        pops_f: if back { 0 } else { pops },
        pops_b: if back { pops } else { 0 },
    }
}

/// The room for the edges of a search, kept for the searches that follow.
#[derive(Debug)]
pub struct SearchContext {
    pub edges: Vec<UsableEdge>,
}

impl SearchContext {
    pub fn new() -> (r: SearchContext)
        ensures
            r.edges@.len() == 0,
    {
        SearchContext { edges: Vec::new() }
    }
}

/// Searches once, taking up at most so many entries, and tells what was found. Where the start or the
/// goal is no node there is nothing to find.
pub fn attempt(
    s: &Snapshot,
    lookup: &MacroLookup,
    m: &Means,
    start: Option<u32>,
    goal: u32,
    most: Option<u32>,
    back: bool,
    ctx: &mut SearchContext,
) -> (r: SearchResult)
    requires
        s.wf(),
        s.man().counts.nodes < usize::MAX,
    ensures
        !ends_known(*s, start, goal) ==> is_told(Seq::empty(), start, back, Some(None), r) && r.pops == 0,
        ends_known(*s, start, goal) ==> exists|end: Option<Option<Seq<usize>>>| #[trigger]
            is_attempt(*s, *lookup, *m, start, goal, most, back, end, r.pops) && is_told(
                usable_edges(*s, *lookup, *m, start),
                start,
                back,
                end,
                r,
            ) && final(ctx).edges@ == usable_edges(*s, *lookup, *m, start),
        !ends_known(*s, start, goal) ==> *final(ctx) == *old(ctx),
{
    let n: usize = s.counts().nodes as usize;
    let known: bool = match start {
        Some(v) => (v as usize) < n,
        None => true,
    };
    if goal as usize >= n || !known {
        return without_path(SearchStatus::NotFound, 0, back);
    }
    list_usable_edges(s, lookup, m, start, &mut ctx.edges);
    let edges: &Vec<UsableEdge> = &ctx.edges;
    let (found, pops): (Bounded, u32) = search_over(edges, n, goal as usize, most, back);
    let ghost end = ending(found);
    assert(is_attempt(*s, *lookup, *m, start, goal, most, back, end, pops));
    match found {
        Bounded::Found(p) => {
            let ghost g = usable_lists(edges@, (n + 1) as nat, false, edges@.len() as int);
            proof {
                lemma_lists_hold(edges@, (n + 1) as nat, false, edges@.len() as int);
                let w = choose|w: Seq<int>| #[trigger] leads(g, n, goal as usize, p@, w);
                assert(leads(g, n, goal as usize, p@, w));
                assert forall|i: int| 0 <= i < edges@.len() implies (#[trigger] edges@[i]).from < n + 1 by {
                    assert(joins(n + 1, n as int, edges@[i]));
                }
            }
            let costs: Vec<Weight> = costs_along(edges, n + 1, &p);
            let (nodes, put): (Vec<u32>, bool) = route_nodes(&p, start);
            let cost: Weight = costs[costs.len() - 1];
            let mut path_g: Vec<Weight> = costs;
            let ghost all = path_g@;
            if !put {
                path_g.remove(0);
                assert(path_g@ =~= all.skip(1));
            }
            let r: SearchResult = SearchResult {
                found: true,
                status: SearchStatus::Found,
                path: nodes,
                path_g,
                cost,
                pops,
                pops_f: if back { 0 } else { pops },
                pops_b: if back { pops } else { 0 },
            };
            assert(all =~= Seq::new(p@.len(), |i: int| cost_up_to(usable_edges(*s, *lookup, *m, start), p@, i)));
            assert(is_told(usable_edges(*s, *lookup, *m, start), start, back, end, r));
            r
        },
        Bounded::NotFound => without_path(SearchStatus::NotFound, pops, back),
        Bounded::Cut => without_path(SearchStatus::BudgetExceeded, pops, back),
    }
}

/// Whether every edge leads from a node of the snapshot to one.
spec fn inner(edges: Seq<UsableEdge>, n: int) -> bool {
    forall|i: int| 0 <= i < edges.len() ==> joins(n, n, #[trigger] edges[i])
}

proof fn lemma_steps_inner(edges: Seq<UsableEdge>, s: Snapshot, u: int, end: int)
    requires
        inner(edges, s.man().counts.nodes as int),
    ensures
        inner(with_steps(edges, s, u, end), s.man().counts.nodes as int),
    decreases end - s.walk_starts()[u],
{
    if end > s.walk_starts()[u] {
        lemma_steps_inner(edges, s, u, end - 1);
    }
}

proof fn lemma_walks_inner(s: Snapshot, n: int)
    ensures
        inner(walk_edges(s, n), s.man().counts.nodes as int),
    decreases n,
{
    if n > 0 {
        lemma_walks_inner(s, n - 1);
        lemma_steps_inner(walk_edges(s, n - 1), s, n - 1, s.walk_starts()[n] as int);
    }
}

proof fn lemma_macros_inner(edges: Seq<UsableEdge>, s: Snapshot, lookup: MacroLookup, mask: Seq<bool>, quick_tele: bool, k: int)
    requires
        inner(edges, s.man().counts.nodes as int),
    ensures
        inner(with_macros(edges, s, lookup, mask, quick_tele, k), s.man().counts.nodes as int),
    decreases k,
{
    if k > 0 {
        lemma_macros_inner(edges, s, lookup, mask, quick_tele, k - 1);
    }
}

proof fn lemma_ends_inner(edges: Seq<UsableEdge>, n: int, u: usize, ends: Seq<(u32, Weight)>, k: int)
    requires
        inner(edges, n),
    ensures
        inner(with_ends(edges, n, n, u, ends, k), n),
    decreases k,
{
    if k > 0 {
        lemma_ends_inner(edges, n, u, ends, k - 1);
    }
}

proof fn lemma_rings_inner(edges: Seq<UsableEdge>, n: int, sources: Seq<u32>, dests: Seq<(u32, Weight)>, k: int)
    requires
        inner(edges, n),
    ensures
        inner(with_rings(edges, n, sources, dests, k), n),
    decreases k,
{
    if k > 0 {
        lemma_rings_inner(edges, n, sources, dests, k - 1);
        lemma_ends_inner(
            with_rings(edges, n, sources, dests, k - 1),
            n,
            sources[k - 1] as usize,
            dests,
            dests.len() as int,
        );
    }
}

/// The lists of a search are those of the edges one after the other.
proof fn lemma_lists_push(edges: Seq<UsableEdge>, e: UsableEdge, size: nat)
    ensures
        usable_lists(edges.push(e), size, false, (edges.len() + 1) as int) == with_link(
            usable_lists(edges, size, false, edges.len() as int),
            e.from as int,
            e.to,
            told_cost(e.cost),
        ),
{
    lemma_lists_first(edges.push(e), edges, size, edges.len() as int);
}

proof fn lemma_lists_first(a: Seq<UsableEdge>, b: Seq<UsableEdge>, size: nat, k: int)
    requires
        k <= a.len(),
        k <= b.len(),
        forall|i: int| 0 <= i < k ==> a[i] == b[i],
    ensures
        usable_lists(a, size, false, k) == usable_lists(b, size, false, k),
    decreases k,
{
    if k > 0 {
        lemma_lists_first(a, b, size, k - 1);
    }
}

/// What the edges are, as lists.
spec fn listed(edges: Seq<UsableEdge>, size: nat) -> Seq<Seq<(usize, i64)>> {
    usable_lists(edges, size, false, edges.len() as int)
}

proof fn lemma_inner_lists(edges: Seq<UsableEdge>, n: nat, k: int)
    requires
        inner(edges, n as int),
        0 <= k <= edges.len(),
    ensures
        usable_lists(edges, n + 1, false, k).len() == n + 1,
        usable_lists(edges, n + 1, false, k)[n as int].len() == 0,
        forall|u: int, x: int|
            0 <= u <= n && 0 <= x < usable_lists(edges, n + 1, false, k)[u].len() ==> (#[trigger] usable_lists(
                edges,
                n + 1,
                false,
                k,
            )[u][x]).0 < n && usable_lists(edges, n + 1, false, k)[u][x].1 >= 0,
    decreases k,
{
    if k > 0 {
        lemma_inner_lists(edges, n, k - 1);
        assert(joins(n as int, n as int, edges[k - 1]));
        let l = usable_lists(edges, n + 1, false, k - 1);
        let e = edges[k - 1];
        assert forall|u: int, x: int|
            0 <= u <= n && 0 <= x < usable_lists(edges, n + 1, false, k)[u].len() implies (#[trigger] usable_lists(
            edges,
            n + 1,
            false,
            k,
        )[u][x]).0 < n && usable_lists(edges, n + 1, false, k)[u][x].1 >= 0 by {
            if u == e.from && x == l[u].len() {
            } else {
                assert(usable_lists(edges, n + 1, false, k)[u][x] == l[u][x]);
            }
        }
    }
}

/// Whether two graphs of `n` nodes and the one that stands for where the caller is differ only in how
/// the caller starts: the first has `d` edges for that, the second an edge to `b` that costs nothing.
pub open spec fn start_apart(g: Seq<Seq<(usize, i64)>>, h: Seq<Seq<(usize, i64)>>, n: int, d: int, b: usize) -> bool {
    &&& g.len() == n + 1
    &&& h.len() == n + 1
    &&& forall|u: int| 0 <= u < n ==> g[u] == #[trigger] h[u]
    &&& g[n].len() == h[n].len() - 1 + d
    &&& 0 <= d
    &&& h[n].len() >= 1
    &&& h[n][0] == (b, 0i64)
    &&& forall|x: int| 1 <= x < h[n].len() ==> #[trigger] h[n][x] == g[n][x - 1 + d]
    &&& forall|u: int, x: int| 0 <= u <= n && 0 <= x < h[u].len() ==> (#[trigger] h[u][x]).0 < n && h[u][x].1 >= 0
    &&& forall|u: int, x: int| 0 <= u <= n && 0 <= x < g[u].len() ==> (#[trigger] g[u][x]).0 < n && g[u][x].1 >= 0
}

proof fn lemma_apart_push(
    g: Seq<Seq<(usize, i64)>>,
    h: Seq<Seq<(usize, i64)>>,
    n: int,
    d: int,
    b: usize,
    v: usize,
    c: i64,
)
    requires
        start_apart(g, h, n, d, b),
        0 <= n,
        v < n,
        c >= 0,
    ensures
        start_apart(with_link(g, n, v, c), with_link(h, n, v, c), n, d, b),
{
    let (g2, h2) = (with_link(g, n, v, c), with_link(h, n, v, c));
    assert forall|u: int| 0 <= u < n implies g2[u] == #[trigger] h2[u] by {
        assert(g[u] == h[u]);
    }
    assert forall|x: int| 1 <= x < h2[n].len() implies #[trigger] h2[n][x] == g2[n][x - 1 + d] by {
        if x < h[n].len() {
            assert(h[n][x] == g[n][x - 1 + d]);
        }
    }
    assert forall|u: int, x: int| 0 <= u <= n && 0 <= x < h2[u].len() implies (#[trigger] h2[u][x]).0 < n && h2[u][x].1 >= 0 by {
        if !(u == n && x == h[u].len()) {
            assert(h2[u][x] == h[u][x]);
        }
    }
    assert forall|u: int, x: int| 0 <= u <= n && 0 <= x < g2[u].len() implies (#[trigger] g2[u][x]).0 < n && g2[u][x].1 >= 0 by {
        if !(u == n && x == g[u].len()) {
            assert(g2[u][x] == g[u][x]);
        }
    }
}

proof fn lemma_ends_apart(
    ea: Seq<UsableEdge>,
    eb: Seq<UsableEdge>,
    n: int,
    d: int,
    b: usize,
    ends: Seq<(u32, Weight)>,
    k: int,
)
    requires
        0 <= n < usize::MAX,
        start_apart(listed(ea, (n + 1) as nat), listed(eb, (n + 1) as nat), n, d, b),
    ensures
        start_apart(
            listed(with_ends(ea, n + 1, n, n as usize, ends, k), (n + 1) as nat),
            listed(with_ends(eb, n + 1, n, n as usize, ends, k), (n + 1) as nat),
            n,
            d,
            b,
        ),
    decreases k,
{
    if k > 0 {
        lemma_ends_apart(ea, eb, n, d, b, ends, k - 1);
        let fa = with_ends(ea, n + 1, n, n as usize, ends, k - 1);
        let fb = with_ends(eb, n + 1, n, n as usize, ends, k - 1);
        let (v, w) = ends[k - 1];
        let e = UsableEdge { from: n as usize, to: v as usize, cost: w };
        if n as usize != v && joins(n + 1, n, e) {
            lemma_lists_push(fa, e, (n + 1) as nat);
            lemma_lists_push(fb, e, (n + 1) as nat);
            lemma_apart_push(
                listed(fa, (n + 1) as nat),
                listed(fb, (n + 1) as nat),
                n,
                d,
                b,
                v as usize,
                told_cost(w),
            );
        }
    }
}

proof fn lemma_nothing_scaled(e: int)
    ensures
        scaled(0, e) == 0,
    decreases (if e < 0 { -e } else { e }),
{
    if e > 0 {
        lemma_nothing_scaled(e - 1);
    } else if e < 0 {
        lemma_nothing_scaled(e + 1);
    }
}

/// The lists of two searches by the same means differ only in how the caller starts.
pub proof fn lemma_start_apart(s: Snapshot, lookup: MacroLookup, m: Means, start: Option<u32>, b: u32) -> (d: int)
    requires
        s.man().counts.nodes < usize::MAX,
        b < s.man().counts.nodes,
    ensures
        start_apart(
            search_lists(s, lookup, m, start, false),
            search_lists(s, lookup, m, Some(b), false),
            s.man().counts.nodes as int,
            d,
            b as usize,
        ),
{
    let n = s.man().counts.nodes as int;
    let size = (n + 1) as nat;
    let steps = walk_edges(s, n);
    lemma_walks_inner(s, n);
    let macros = with_macros(steps, s, lookup, m.mask.satisfied@, m.quick_tele, s.man().counts.macro_edges as int);
    lemma_macros_inner(steps, s, lookup, m.mask.satisfied@, m.quick_tele, s.man().counts.macro_edges as int);
    let rings = with_rings(macros, n, m.fairy_sources@, m.fairy_dests@, m.fairy_sources@.len() as int);
    lemma_rings_inner(macros, n, m.fairy_sources@, m.fairy_dests@, m.fairy_sources@.len() as int);
    let l = listed(rings, size);
    lemma_inner_lists(rings, n as nat, rings.len() as int);
    let zero = Weight { bits: 0 };
    lemma_nothing_scaled(-119);
    assert(told_cost(zero) == 0);
    let eb = UsableEdge { from: n as usize, to: b as usize, cost: zero };
    lemma_lists_push(rings, eb, size);
    let began_b = rings.push(eb);
    let h = listed(began_b, size);
    assert(h[n] =~= seq![(b as usize, 0i64)]);
    assert forall|u: int, x: int| 0 <= u <= n && 0 <= x < h[u].len() implies (#[trigger] h[u][x]).0 < n && h[u][x].1 >= 0 by {
        if u < n {
            assert(h[u][x] == l[u][x]);
        }
    }
    let began_a = match start {
        Some(v) => with_usable(rings, n + 1, n, UsableEdge { from: n as usize, to: v as usize, cost: zero }),
        None => rings,
    };
    let d: int = if began_a.len() == rings.len() { 0 } else { 1 };
    let g = listed(began_a, size);
    if d == 1 {
        let ea = UsableEdge { from: n as usize, to: start->0 as usize, cost: zero };
        lemma_lists_push(rings, ea, size);
        assert forall|u: int, x: int| 0 <= u <= n && 0 <= x < g[u].len() implies (#[trigger] g[u][x]).0 < n && g[u][x].1 >= 0 by {
            if u < n {
                assert(g[u][x] == l[u][x]);
            }
        }
    }
    assert(start_apart(g, h, n, d, b as usize));
    lemma_ends_apart(began_a, began_b, n, d, b as usize, m.globals@, m.globals@.len() as int);
    d
}

proof fn lemma_ends_join(edges: Seq<UsableEdge>, n: int, u: usize, ends: Seq<(u32, Weight)>, k: int)
    requires
        all_join(edges, n),
    ensures
        all_join(with_ends(edges, n + 1, n, u, ends, k), n),
    decreases k,
{
    if k > 0 {
        lemma_ends_join(edges, n, u, ends, k - 1);
    }
}

/// Every edge of a search leads from a node, or from where the caller is, to a node.
pub proof fn lemma_usable_join(s: Snapshot, lookup: MacroLookup, m: Means, start: Option<u32>)
    requires
        s.man().counts.nodes < usize::MAX,
    ensures
        all_join(usable_edges(s, lookup, m, start), s.man().counts.nodes as int),
{
    let n = s.man().counts.nodes as int;
    let steps = walk_edges(s, n);
    lemma_walks_inner(s, n);
    let macros = with_macros(steps, s, lookup, m.mask.satisfied@, m.quick_tele, s.man().counts.macro_edges as int);
    lemma_macros_inner(steps, s, lookup, m.mask.satisfied@, m.quick_tele, s.man().counts.macro_edges as int);
    let rings = with_rings(macros, n, m.fairy_sources@, m.fairy_dests@, m.fairy_sources@.len() as int);
    lemma_rings_inner(macros, n, m.fairy_sources@, m.fairy_dests@, m.fairy_sources@.len() as int);
    assert(all_join(rings, n)) by {
        assert forall|i: int| 0 <= i < rings.len() implies joins(n + 1, n, #[trigger] rings[i]) by {
            assert(joins(n, n, rings[i]));
        }
    }
    let began = match start {
        Some(v) => with_usable(
            rings,
            n + 1,
            n,
            UsableEdge { from: n as usize, to: v as usize, cost: Weight { bits: 0 } },
        ),
        None => rings,
    };
    lemma_ends_join(began, n, n as usize, m.globals@, m.globals@.len() as int);
}

/// No edge of a search leads to where the caller is.
pub proof fn lemma_leads_to_nodes(s: Snapshot, lookup: MacroLookup, m: Means, start: Option<u32>)
    requires
        s.man().counts.nodes < usize::MAX,
    ensures
        search_lists(s, lookup, m, start, false).len() == s.man().counts.nodes + 1,
        forall|u: int, x: int|
            0 <= u <= s.man().counts.nodes && 0 <= x < search_lists(s, lookup, m, start, false)[u].len()
                ==> (#[trigger] search_lists(s, lookup, m, start, false)[u][x]).0 < s.man().counts.nodes,
{
    let n = s.man().counts.nodes as int;
    lemma_usable_join(s, lookup, m, start);
    let edges = usable_edges(s, lookup, m, start);
    let k = edges.len() as int;
    lemma_lists_hold(edges, (n + 1) as nat, false, k);
    let g = search_lists(s, lookup, m, start, false);
    assert forall|u: int, x: int| 0 <= u <= n && 0 <= x < g[u].len() implies (#[trigger] g[u][x]).0 < n by {
        let to = g[u][x];
        assert(is_listed(edges, false, k, u, to.0, to.1));
        let i = choose|i: int|
            0 <= i < k && ends_of(#[trigger] edges[i], false) == (u as usize, to.0) && told_cost(edges[i].cost) == to.1;
        assert(joins(n + 1, n, edges[i]));
    }
}

}
