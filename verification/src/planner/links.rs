//! The links that a search through the abstract graph may take, and what it makes of them.

use crate::models::Tile;
use crate::planner::graph::{EdgeV, Graph, GraphInputs, Node, NodeKind};
use crate::planner::high_level::HopPlan;
use crate::planner::tiles::ClusterTiles;
use vstd::prelude::*;
#[allow(unused_imports)]
use crate::planner::dijkstra::{is_cheapest, is_walk, leads, walk_cost};
#[allow(unused_imports)]
use crate::planner::graph::{edge_ok, edge_views, graph_draft, law_graph_is_sound, BuildOptions};
#[allow(unused_imports)]
use crate::planner::high_level::{
    can_cross, edge_lists, entrance_ids, hop_result, is_hop_plan, micro_costs_ok, micro_lists, micro_result,
    must_cross, on_plane, route_lists, steps_of, with_link,
};
#[allow(unused_imports)]
use crate::planner::micro_astar::is_path;
#[allow(unused_imports)]
use crate::requirements::RequirementKV;

verus! {

/// Whether two tiles are neighbours along one axis.
pub open spec fn is_step(a: Tile, b: Tile) -> bool {
    a.plane == b.plane && ((a.x == b.x && (a.y - b.y == 1 || b.y - a.y == 1)) || (a.y == b.y && (a.x - b.x == 1 || b.x - a.x
        == 1)))
}

/// Whether `p` leads from `a` to `b` by steps inside the cluster, over tiles that may be said to be
/// open.
pub open spec fn is_inner_way<F: Fn(i32, i32, i32) -> bool>(tiles: ClusterTiles, c: i64, walk: F, a: Tile, b: Tile, p: Seq<Tile>) -> bool {
    &&& p.len() > 0
    &&& p[0] == a
    &&& p.last() == b
    &&& forall|i: int|
        #![trigger p[i]]
        0 <= i < p.len() ==> tiles.has(c, p[i]) && call_ensures(walk, (p[i].x, p[i].y, p[i].plane), true)
    &&& forall|i: int| 0 < i < p.len() ==> is_step(p[i - 1], #[trigger] p[i])
}

/// Whether `p` is such a way, over tiles that are never said to be blocked.
pub open spec fn is_sure_way<F: Fn(i32, i32, i32) -> bool>(tiles: ClusterTiles, c: i64, walk: F, a: Tile, b: Tile, p: Seq<Tile>) -> bool {
    &&& p.len() > 0
    &&& p[0] == a
    &&& p.last() == b
    &&& forall|i: int|
        #![trigger p[i]]
        0 <= i < p.len() ==> tiles.has(c, p[i]) && !call_ensures(walk, (p[i].x, p[i].y, p[i].plane), false)
    &&& forall|i: int| 0 < i < p.len() ==> is_step(p[i - 1], #[trigger] p[i])
}

proof fn lemma_planes(p: Seq<Tile>, i: int)
    requires
        0 <= i < p.len(),
        forall|j: int| 0 < j < p.len() ==> is_step(p[j - 1], #[trigger] p[j]),
    ensures
        p[i].plane == p[0].plane,
    decreases i,
{
    if i > 0 {
        lemma_planes(p, i - 1);
        assert(is_step(p[i - 1], p[i]));
    }
}

proof fn lemma_inner<F: Fn(i32, i32, i32) -> bool>(tiles: ClusterTiles, c: i64, walk: F, a: Tile, b: Tile, p: Seq<Tile>)
    requires
        is_path(can_cross(tiles, c, walk, a.plane), a, b, p),
    ensures
        is_inner_way(tiles, c, walk, a, b, p),
{
    assert forall|i: int| #![trigger p[i]] 0 <= i < p.len() implies tiles.has(c, p[i]) && call_ensures(
        walk,
        (p[i].x, p[i].y, p[i].plane),
        true,
    ) by {
        assert(can_cross(tiles, c, walk, a.plane)(p[i].x, p[i].y));
        assert(p[i] == Tile { x: p[i].x, y: p[i].y, plane: a.plane });
    }
    assert forall|i: int| 0 < i < p.len() implies is_step(p[i - 1], #[trigger] p[i]) by {
        assert(p[i - 1].plane == p[i].plane);
    }
}

proof fn lemma_sure<F: Fn(i32, i32, i32) -> bool>(tiles: ClusterTiles, c: i64, walk: F, a: Tile, b: Tile, p: Seq<Tile>)
    requires
        is_sure_way(tiles, c, walk, a, b, p),
    ensures
        is_path(must_cross(tiles, c, walk, a.plane), a, b, p),
{
    assert forall|i: int| 0 <= i < p.len() implies (#[trigger] p[i]).plane == a.plane && must_cross(tiles, c, walk, a.plane)(
        p[i].x,
        p[i].y,
    ) by {
        lemma_planes(p, i);
        assert(p[i] == Tile { x: p[i].x, y: p[i].y, plane: a.plane });
    }
    assert forall|i: int| 0 <= i < p.len() - 1 implies crate::planner::micro_astar::steps_apart(
        (#[trigger] p[i]).x as int,
        p[i].y as int,
        p[i + 1].x as int,
        p[i + 1].y as int,
    ) == 1 by {
        assert(is_step(p[i + 1 - 1], p[i + 1]));
    }
}

/// Whether `cost` is what it takes to walk from `a` to `b` inside the cluster: nothing where they are
/// one tile, and else the steps of a way that is no longer than any that is sure.
pub open spec fn is_walk_cost<F: Fn(i32, i32, i32) -> bool>(tiles: ClusterTiles, c: i64, walk: F, a: Tile, b: Tile, cost: i64) -> bool {
    &&& tiles.knows(c)
    &&& a.plane == b.plane
    &&& a == b ==> cost == 0
    &&& a != b ==> exists|p: Seq<Tile>| #[trigger]
        is_inner_way(tiles, c, walk, a, b, p) && (p.len() <= i64::MAX ==> cost == p.len() - 1) && forall|q: Seq<Tile>| #[trigger]
            is_sure_way(tiles, c, walk, a, b, q) ==> p.len() <= q.len()
}

proof fn lemma_walk_cost<F: Fn(i32, i32, i32) -> bool>(tiles: ClusterTiles, c: i64, walk: F, a: Tile, b: Tile, r: Option<i64>)
    requires
        micro_result(tiles, c, walk, a, b, r),
    ensures
        r is Some ==> is_walk_cost(tiles, c, walk, a, b, r->0),
        r is None ==> !tiles.knows(c) || a.plane != b.plane || (a != b && forall|q: Seq<Tile>| !#[trigger]
            is_sure_way(tiles, c, walk, a, b, q)),
{
    if tiles.knows(c) && a.plane == b.plane && a != b {
        assert forall|q: Seq<Tile>| #[trigger] is_sure_way(tiles, c, walk, a, b, q) implies is_path(
            must_cross(tiles, c, walk, a.plane),
            a,
            b,
            q,
        ) by {
            lemma_sure(tiles, c, walk, a, b, q);
        }
        if r is Some {
            let p = choose|p: Seq<Tile>| #[trigger]
                is_path(can_cross(tiles, c, walk, a.plane), a, b, p) && r->0 == steps_of(p.len() as int) && forall|q: Seq<Tile>|
                 #[trigger]
                    is_path(must_cross(tiles, c, walk, a.plane), a, b, q) ==> p.len() <= q.len();
            lemma_inner(tiles, c, walk, a, b, p);
        }
    }
}

/// From the start of a route one walks to the entrances on its plane whose cluster has a way to them,
/// and from such entrances to its end; where both planes count, to those on the planes of both.
pub proof fn law_ends_are_joined_by_walks<F: Fn(i32, i32, i32) -> bool>(
    nodes: Seq<Node>,
    tiles: ClusterTiles,
    walk: F,
    start: Tile,
    end: Tile,
    both: bool,
    from: Seq<Option<i64>>,
    to: Seq<Option<i64>>,
    i: int,
)
    requires
        micro_costs_ok(nodes, tiles, walk, start, end, both, from, to),
        0 <= i < nodes.len(),
    ensures
        nodes[i].kind is VirtualStart || nodes[i].kind is VirtualEnd ==> from[i] is None && to[i] is None,
        nodes[i].kind matches NodeKind::Entrance { cluster_id, x, y, plane, .. } ==> {
            let t = Tile { x, y, plane };
            &&& from[i] is Some ==> (both ==> plane == end.plane) && is_walk_cost(tiles, cluster_id, walk, start, t, from[i]->0)
            &&& to[i] is Some ==> (both ==> plane == start.plane) && is_walk_cost(tiles, cluster_id, walk, t, end, to[i]->0)
            &&& plane == start.plane && (both ==> plane == end.plane) && tiles.knows(cluster_id) && (t == start
                || exists|q: Seq<Tile>| #[trigger] is_sure_way(tiles, cluster_id, walk, start, t, q)) ==> from[i] is Some
            &&& plane == end.plane && (both ==> plane == start.plane) && tiles.knows(cluster_id) && (t == end
                || exists|q: Seq<Tile>| #[trigger] is_sure_way(tiles, cluster_id, walk, t, end, q)) ==> to[i] is Some
        },
{
    match nodes[i].kind {
        NodeKind::Entrance { cluster_id, x, y, plane, .. } => {
            let t = Tile { x, y, plane };
            assert(from[i] is Some || from[i] is None);
            assert(to[i] is Some || to[i] is None);
            if on_plane(both, plane, start.plane, end.plane) {
                lemma_walk_cost(tiles, cluster_id, walk, start, t, from[i]);
            }
            if on_plane(both, plane, end.plane, start.plane) {
                lemma_walk_cost(tiles, cluster_id, walk, t, end, to[i]);
            }
        },
        _ => {
            assert(from[i] is None);
            assert(to[i] is None);
        },
    }
}

/// Whether a link leads from `u` to `v` at the cost: an edge of the graph, a walk from the start of the
/// route to an entrance, or one from an entrance to its end.
pub open spec fn is_link(
    edges: Seq<EdgeV>,
    from: Seq<Option<i64>>,
    to: Seq<Option<i64>>,
    s: usize,
    e: usize,
    u: usize,
    v: usize,
    cost: i64,
) -> bool {
    ||| exists|j: int| 0 <= j < edges.len() && (#[trigger] edges[j]).from == u && edges[j].to == v && edges[j].cost == cost
    ||| u == s && v < from.len() && from[v as int] == Some(cost)
    ||| v == e && u < to.len() && to[u as int] == Some(cost)
}

/// Whether the first `k` of the edges hold one from `u` to `v` at the cost.
spec fn holds_edge(edges: Seq<EdgeV>, k: int, u: usize, v: usize, cost: i64) -> bool {
    exists|j: int| 0 <= j < k && (#[trigger] edges[j]).from == u && edges[j].to == v && edges[j].cost == cost
}

proof fn lemma_push_holds(l: Seq<(usize, i64)>, x: (usize, i64), y: (usize, i64))
    ensures
        l.push(x).contains(y) <==> l.contains(y) || x == y,
{
    if l.contains(y) {
        let i = choose|i: int| 0 <= i < l.len() && l[i] == y;
        assert(l.push(x)[i] == y);
    }
    assert(l.push(x)[l.len() as int] == x);
    if l.push(x).contains(y) && x != y {
        let i = choose|i: int| 0 <= i < l.push(x).len() && l.push(x)[i] == y;
        assert(l[i] == y);
    }
}

proof fn lemma_edge_lists(n: nat, edges: Seq<EdgeV>, k: int, u: usize, v: usize, cost: i64)
    requires
        0 <= k <= edges.len(),
        u < n,
        forall|j: int| 0 <= j < edges.len() ==> (#[trigger] edges[j]).from < n,
    ensures
        edge_lists(n, edges, k).len() == n,
        edge_lists(n, edges, k)[u as int].contains((v, cost)) <==> holds_edge(edges, k, u, v, cost),
    decreases k,
{
    if k > 0 {
        lemma_edge_lists(n, edges, k - 1, u, v, cost);
        let p = edge_lists(n, edges, k - 1);
        let x = edges[k - 1];
        lemma_push_holds(p[x.from as int], (x.to, x.cost), (v, cost));
        if holds_edge(edges, k, u, v, cost) {
            let j = choose|j: int|
                0 <= j < k && (#[trigger] edges[j]).from == u && edges[j].to == v && edges[j].cost == cost;
            if j < k - 1 {
                assert(holds_edge(edges, k - 1, u, v, cost));
            }
        }
        if holds_edge(edges, k - 1, u, v, cost) {
            let j = choose|j: int|
                0 <= j < k - 1 && (#[trigger] edges[j]).from == u && edges[j].to == v && edges[j].cost == cost;
            assert(holds_edge(edges, k, u, v, cost));
        }
    } else {
        assert(edge_lists(n, edges, k)[u as int] =~= Seq::empty());
    }
}

proof fn lemma_micro_lists(
    l: Seq<Seq<(usize, i64)>>,
    from: Seq<Option<i64>>,
    to: Seq<Option<i64>>,
    s: usize,
    e: usize,
    k: int,
    u: usize,
    v: usize,
    cost: i64,
)
    requires
        0 <= k <= l.len(),
        l.len() == from.len() == to.len(),
        l.len() <= usize::MAX,
        u < l.len(),
        s < l.len(),
    ensures
        micro_lists(l, from, to, s, e, k).len() == l.len(),
        micro_lists(l, from, to, s, e, k)[u as int].contains((v, cost)) <==> l[u as int].contains((v, cost)) || (u == s && v < k
            && from[v as int] == Some(cost)) || (v == e && u < k && to[u as int] == Some(cost)),
    decreases k,
{
    if k > 0 {
        lemma_micro_lists(l, from, to, s, e, k - 1, u, v, cost);
        let p = micro_lists(l, from, to, s, e, k - 1);
        let q = match from[k - 1] {
            Some(c) => with_link(p, s as int, (k - 1) as usize, c),
            None => p,
        };
        if from[k - 1] is Some {
            lemma_push_holds(p[s as int], ((k - 1) as usize, from[k - 1]->0), (v, cost));
        }
        if to[k - 1] is Some {
            lemma_push_holds(q[k - 1], (e, to[k - 1]->0), (v, cost));
        }
    }
}

/// The lists that a search through the abstract graph follows hold the links and nothing else.
pub proof fn law_lists_hold_the_links(
    n: nat,
    edges: Seq<EdgeV>,
    from: Seq<Option<i64>>,
    to: Seq<Option<i64>>,
    s: usize,
    e: usize,
    u: usize,
    v: usize,
    cost: i64,
)
    requires
        n <= usize::MAX,
        from.len() == n,
        to.len() == n,
        s < n,
        u < n,
        forall|j: int| 0 <= j < edges.len() ==> (#[trigger] edges[j]).from < n,
    ensures
        route_lists(n, edges, from, to, s, e).len() == n,
        route_lists(n, edges, from, to, s, e)[u as int].contains((v, cost)) <==> is_link(edges, from, to, s, e, u, v, cost),
{
    lemma_edge_lists(n, edges, edges.len() as int, u, v, cost);
    lemma_micro_lists(edge_lists(n, edges, edges.len() as int), from, to, s, e, n as int, u, v, cost);
}

/// Whether the nodes `p` are joined by links at the costs `c`.
pub open spec fn is_linked(
    edges: Seq<EdgeV>,
    from: Seq<Option<i64>>,
    to: Seq<Option<i64>>,
    s: usize,
    e: usize,
    p: Seq<usize>,
    c: Seq<i64>,
) -> bool {
    &&& p.len() > 0
    &&& c.len() == p.len() - 1
    &&& p[0] == s
    &&& p.last() == e
    &&& forall|i: int| 0 <= i < c.len() ==> is_link(edges, from, to, s, e, p[i], p[i + 1], #[trigger] c[i])
}

pub open spec fn sum(c: Seq<i64>) -> int
    decreases c.len(),
{
    if c.len() == 0 {
        0
    } else {
        sum(c.drop_last()) + c.last()
    }
}

/// The costs of the slots of a walk.
spec fn slot_costs(g: Seq<Seq<(usize, i64)>>, p: Seq<usize>, t: Seq<int>) -> Seq<i64> {
    Seq::new(t.len(), |i: int| g[p[i] as int][t[i]].1)
}

proof fn lemma_slot_costs(g: Seq<Seq<(usize, i64)>>, p: Seq<usize>, t: Seq<int>)
    requires
        t.len() == p.len() - 1,
    ensures
        sum(slot_costs(g, p, t)) == walk_cost(g, p, t),
    decreases t.len(),
{
    let c = slot_costs(g, p, t);
    if t.len() > 0 {
        lemma_slot_costs(g, p.drop_last(), t.drop_last());
        assert(c.drop_last() =~= slot_costs(g, p.drop_last(), t.drop_last()));
    }
}

/// The slots of linked nodes.
proof fn lemma_slots(g: Seq<Seq<(usize, i64)>>, p: Seq<usize>, c: Seq<i64>) -> (t: Seq<int>)
    requires
        p.len() > 0,
        c.len() == p.len() - 1,
        forall|i: int| 0 <= i < p.len() ==> #[trigger] p[i] < g.len(),
        forall|i: int| 0 <= i < c.len() ==> g[p[i] as int].contains((p[i + 1], #[trigger] c[i])),
    ensures
        is_walk(g, p, t),
        walk_cost(g, p, t) == sum(c),
{
    let t = Seq::new(c.len(), |i: int| choose|x: int| 0 <= x < g[p[i] as int].len() && g[p[i] as int][x] == (p[i + 1], c[i]));
    assert forall|i: int| 0 <= i < t.len() implies 0 <= #[trigger] t[i] < g[p[i] as int].len() && g[p[i] as int][t[i]] == (
        p[i + 1],
        c[i],
    ) by {
        assert(g[p[i] as int].contains((p[i + 1], c[i])));
    }
    assert(slot_costs(g, p, t) =~= c);
    lemma_slot_costs(g, p, t);
    t
}

/// Whether the links `from` and `to` at the ends of a route make `r` its way: linked nodes of which no
/// others cost less in all, or nothing where no nodes are linked.
pub open spec fn is_least(
    edges: Seq<EdgeV>,
    from: Seq<Option<i64>>,
    to: Seq<Option<i64>>,
    s: usize,
    e: usize,
    r: Option<Seq<usize>>,
) -> bool {
    match r {
        Some(p) => exists|c: Seq<i64>| #[trigger]
            is_linked(edges, from, to, s, e, p, c) && forall|q: Seq<usize>, d: Seq<i64>| #[trigger]
                is_linked(edges, from, to, s, e, q, d) ==> sum(c) <= sum(d),
        None => forall|q: Seq<usize>, d: Seq<i64>| !#[trigger] is_linked(edges, from, to, s, e, q, d),
    }
}

proof fn lemma_least(
    n: nat,
    edges: Seq<EdgeV>,
    from: Seq<Option<i64>>,
    to: Seq<Option<i64>>,
    s: usize,
    e: usize,
    r: Option<Seq<usize>>,
)
    requires
        n <= usize::MAX,
        from.len() == n,
        to.len() == n,
        s < n,
        e < n,
        forall|j: int| 0 <= j < edges.len() ==> (#[trigger] edges[j]).from < n && edges[j].to < n,
        match r {
            Some(p) => is_cheapest(route_lists(n, edges, from, to, s, e), s, e, p),
            None => forall|q: Seq<usize>, t: Seq<int>| !#[trigger] leads(route_lists(n, edges, from, to, s, e), s, e, q, t),
        },
    ensures
        is_least(edges, from, to, s, e, r),
{
    let g = route_lists(n, edges, from, to, s, e);
    law_lists_hold_the_links(n, edges, from, to, s, e, s, s, 0);
    assert forall|q: Seq<usize>, d: Seq<i64>| #[trigger] is_linked(edges, from, to, s, e, q, d) implies exists|t: Seq<int>|
        #[trigger] leads(g, s, e, q, t) && walk_cost(g, q, t) == sum(d) by {
        assert forall|i: int| 0 <= i < q.len() implies #[trigger] q[i] < g.len() by {
            if i < d.len() {
                assert(is_link(edges, from, to, s, e, q[i], q[i + 1], d[i]));
                if i > 0 {
                    assert(is_link(edges, from, to, s, e, q[i - 1], q[i - 1 + 1], d[i - 1]));
                }
            }
        }
        assert forall|i: int| 0 <= i < d.len() implies g[q[i] as int].contains((q[i + 1], #[trigger] d[i])) by {
            law_lists_hold_the_links(n, edges, from, to, s, e, q[i], q[i + 1], d[i]);
        }
        let t = lemma_slots(g, q, d);
        assert(leads(g, s, e, q, t));
    }
    if r is Some {
        let p = r->0;
        let t = choose|t: Seq<int>| #[trigger]
            leads(g, s, e, p, t) && forall|q: Seq<usize>, u: Seq<int>| #[trigger]
                leads(g, s, e, q, u) ==> walk_cost(g, p, t) <= walk_cost(g, q, u);
        let c = slot_costs(g, p, t);
        lemma_slot_costs(g, p, t);
        assert forall|i: int| 0 <= i < c.len() implies is_link(edges, from, to, s, e, p[i], p[i + 1], #[trigger] c[i]) by {
            assert(0 <= t[i] < g[p[i] as int].len());
            assert(g[p[i] as int][t[i]] == (p[i + 1], c[i]));
            assert(g[p[i] as int].contains((p[i + 1], c[i])));
            law_lists_hold_the_links(n, edges, from, to, s, e, p[i], p[i + 1], c[i]);
        }
        assert(is_linked(edges, from, to, s, e, p, c));
    }
}

/// The search through the abstract graph finds the linked nodes from the start to the end that cost
/// least in all, and nothing only where none are linked.
pub proof fn law_hops_cost_least<F: Fn(i32, i32, i32) -> bool>(
    inputs: GraphInputs,
    given: Seq<RequirementKV>,
    start: Tile,
    end: Tile,
    both: bool,
    tiles: ClusterTiles,
    walk: F,
    r: Option<(Graph, Vec<usize>)>,
) -> (ends: (Seq<Option<i64>>, Seq<Option<i64>>))
    requires
        hop_result(inputs, given, start, end, both, tiles, walk, r),
        graph_draft(inputs, given, BuildOptions { start, end }, tiles).nodes.len() <= usize::MAX,
    ensures
        ({
            let d = graph_draft(inputs, given, BuildOptions { start, end }, tiles);
            let s = inputs.entrances@.len() as usize;
            let e = (s + 1) as usize;
            &&& micro_costs_ok(d.nodes, tiles, walk, start, end, both, ends.0, ends.1)
            &&& d.nodes[s as int].kind == NodeKind::VirtualStart(start)
            &&& d.nodes[e as int].kind == NodeKind::VirtualEnd(end)
            &&& match r {
                Some((g, p)) => g.nodes@ == d.nodes && edge_views(g.edges@) == d.edges && is_least(
                    d.edges,
                    ends.0,
                    ends.1,
                    s,
                    e,
                    Some(p@),
                ),
                None => is_least(d.edges, ends.0, ends.1, s, e, None),
            }
        }),
{
    let d = graph_draft(inputs, given, BuildOptions { start, end }, tiles);
    let s = inputs.entrances@.len() as usize;
    let e = (s + 1) as usize;
    let n = d.nodes.len();
    law_graph_is_sound(inputs, given, BuildOptions { start, end }, tiles);
    assert forall|j: int| 0 <= j < d.edges.len() implies (#[trigger] d.edges[j]).from < n && d.edges[j].to < n by {
        assert(edge_ok(d.edges[j], n as int, given, inputs.teleport_requirements@));
    }
    let found = match r {
        Some((_, p)) => Some(p@),
        None => None,
    };
    let (from, to) = choose|from: Seq<Option<i64>>, to: Seq<Option<i64>>| #[trigger]
        micro_costs_ok(d.nodes, tiles, walk, start, end, both, from, to) && match r {
            Some((g, p)) => g.nodes@ == d.nodes && edge_views(g.edges@) == d.edges && is_cheapest(
                route_lists(d.nodes.len(), d.edges, from, to, s, e),
                s,
                e,
                p@,
            ),
            None => forall|q: Seq<usize>, t: Seq<int>| !#[trigger]
                leads(route_lists(d.nodes.len(), d.edges, from, to, s, e), s, e, q, t),
        };
    lemma_least(n, d.edges, from, to, s, e, found);
    (from, to)
}

/// The places of the entrances among nodes.
pub open spec fn entrances_among(nodes: Seq<Node>, p: Seq<usize>) -> Seq<usize> {
    p.filter(|i: usize| nodes[i as int].kind is Entrance)
}

proof fn lemma_entrance_ids(nodes: Seq<Node>, p: Seq<usize>)
    ensures
        entrance_ids(nodes, p).len() == entrances_among(nodes, p).len(),
        forall|k: int|
            #![trigger entrance_ids(nodes, p)[k]]
            0 <= k < entrance_ids(nodes, p).len() ==> nodes[entrances_among(nodes, p)[k] as int].kind is Entrance
                && nodes[entrances_among(nodes, p)[k] as int].kind->entrance_id == entrance_ids(nodes, p)[k],
    decreases p.len(),
{
    reveal(Seq::filter);
    if p.len() > 0 {
        lemma_entrance_ids(nodes, p.drop_last());
    }
}

/// A plan by hops names the entrances on the way that was found, all of them, in their order.
pub proof fn law_plans_name_the_entrances<F: Fn(i32, i32, i32) -> bool>(
    inputs: GraphInputs,
    given: Seq<RequirementKV>,
    start: Tile,
    end: Tile,
    tiles: ClusterTiles,
    walk: F,
    r: Option<HopPlan>,
) -> (found: Option<(Graph, Vec<usize>)>)
    requires
        is_hop_plan(inputs, given, start, end, tiles, walk, r),
    ensures
        hop_result(inputs, given, start, end, false, tiles, walk, found),
        r is Some <==> found is Some,
        r is Some ==> {
            let ids = r->0.entrances@;
            let nodes = (found->0).0.nodes@;
            let places = entrances_among(nodes, (found->0).1@);
            &&& ids.len() == places.len()
            &&& forall|k: int|
                #![trigger ids[k]]
                0 <= k < ids.len() ==> nodes[places[k] as int].kind is Entrance && nodes[places[k] as int].kind->entrance_id
                    == ids[k]
        },
{
    let found = choose|found: Option<(Graph, Vec<usize>)>| #[trigger]
        hop_result(inputs, given, start, end, false, tiles, walk, found) && match found {
            Some((g, indices)) => r is Some && r->0.entrances@ == entrance_ids(g.nodes@, indices@),
            None => r is None,
        };
    if r is Some {
        lemma_entrance_ids((found->0).0.nodes@, (found->0).1@);
    }
    found
}

}
