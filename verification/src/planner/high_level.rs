//! Cheapest hops through the abstract graph.

use crate::models::Tile;
use crate::planner::dijkstra::dijkstra_indices_with_adj;
use crate::planner::graph::{build_graph, no_negative_costs, BuildOptions, Graph, GraphInputs, NegativeCost, Node, NodeKind};
use crate::planner::micro_astar::find_path_4dir;
use crate::planner::tiles::ClusterTiles;
use crate::requirements::RequirementEvaluator;
use vstd::prelude::*;
#[allow(unused_imports)]
use crate::planner::dijkstra::{edges_valid, is_cheapest, is_search_walk, leads, lists};
#[allow(unused_imports)]
use crate::planner::graph::{
    costs_ok, draft_ok, edge_ok, edge_views, graph_draft, law_costs_stay_nonnegative, law_graph_is_sound,
    rows_cost_nothing_negative, EdgeV,
};
#[allow(unused_imports)]
use crate::planner::micro_astar::{answers, can_pass, is_path, is_search_path, lemma_path_mono, must_pass, seq_of, tells};
#[allow(unused_imports)]
use crate::requirements::RequirementKV;

verus! {

/// The entrances that a route passes, in order.
#[derive(Debug, Clone)]
pub struct HopPlan {
    pub entrances: Vec<i64>,
}

/// Whether a predicate on tiles answers every call.
pub open spec fn answers_tiles<F: Fn(i32, i32, i32) -> bool>(f: F) -> bool {
    forall|x: i32, y: i32, p: i32| call_requires(f, (x, y, p))
}

spec fn may_ask<F: Fn(i32, i32, i32) -> bool>(f: &F, x: i32, y: i32, p: i32) -> bool {
    call_requires(*f, (x, y, p))
}

spec fn can_say<F: Fn(i32, i32, i32) -> bool>(f: &F, x: i32, y: i32, p: i32, answer: bool) -> bool {
    call_ensures(*f, (x, y, p), answer)
}

/// The cells of a plane that belong to the cluster and can be walked.
pub open spec fn can_cross<F: Fn(i32, i32, i32) -> bool>(tiles: ClusterTiles, cluster: i64, walk: F, plane: i32) -> spec_fn(
    i32,
    i32,
) -> bool {
    |x: i32, y: i32| tiles.has(cluster, Tile { x, y, plane }) && call_ensures(walk, (x, y, plane), true)
}

/// The cells of a plane that belong to the cluster and are never said to be blocked.
pub open spec fn must_cross<F: Fn(i32, i32, i32) -> bool>(tiles: ClusterTiles, cluster: i64, walk: F, plane: i32) -> spec_fn(
    i32,
    i32,
) -> bool {
    |x: i32, y: i32| tiles.has(cluster, Tile { x, y, plane }) && !call_ensures(walk, (x, y, plane), false)
}

/// Whether the cells of a plane that belong to the cluster are said to be open or to be blocked, and
/// not sometimes the one and sometimes the other.
pub open spec fn one_answer<F: Fn(i32, i32, i32) -> bool>(tiles: ClusterTiles, cluster: i64, walk: F, plane: i32) -> bool {
    forall|x: i32, y: i32| #[trigger]
        can_cross(tiles, cluster, walk, plane)(x, y) ==> must_cross(tiles, cluster, walk, plane)(x, y)
}

/// The steps of a path, as far as they can be told.
pub open spec fn steps_of(len: int) -> int {
    if len - 1 <= i64::MAX { len - 1 } else { i64::MAX as int }
}

/// Whether `r` is the length of a shortest way from `a` to `b` inside the cluster.
pub open spec fn micro_result<F: Fn(i32, i32, i32) -> bool>(
    tiles: ClusterTiles,
    cluster: i64,
    walk: F,
    a: Tile,
    b: Tile,
    r: Option<i64>,
) -> bool {
    if !tiles.knows(cluster) || a.plane != b.plane {
        r is None
    } else if a == b {
        r == Some(0i64)
    } else {
        match r {
            Some(c) => exists|p: Seq<Tile>| #[trigger]
                is_path(can_cross(tiles, cluster, walk, a.plane), a, b, p) && c == steps_of(p.len() as int) && forall|q: Seq<Tile>|
                 #[trigger]
                    is_path(must_cross(tiles, cluster, walk, a.plane), a, b, q) ==> p.len() <= q.len(),
            None => forall|q: Seq<Tile>| !#[trigger] is_path(must_cross(tiles, cluster, walk, a.plane), a, b, q),
        }
    }
}

/// Whether `r` is a shortest way from `a` to `b` inside the cluster; of several the one that the
/// search comes to first.
pub open spec fn micro_path<F: Fn(i32, i32, i32) -> bool>(
    tiles: ClusterTiles,
    cluster: i64,
    walk: F,
    a: Tile,
    b: Tile,
    r: Option<Seq<Tile>>,
) -> bool {
    if !tiles.knows(cluster) || a.plane != b.plane {
        r is None
    } else if a == b {
        r == Some(seq![a])
    } else {
        &&& match r {
            Some(p) => is_path(can_cross(tiles, cluster, walk, a.plane), a, b, p) && forall|q: Seq<Tile>| #[trigger]
                is_path(must_cross(tiles, cluster, walk, a.plane), a, b, q) ==> p.len() <= q.len(),
            None => forall|q: Seq<Tile>| !#[trigger] is_path(must_cross(tiles, cluster, walk, a.plane), a, b, q),
        }
        &&& one_answer(tiles, cluster, walk, a.plane) ==> is_search_path(can_cross(tiles, cluster, walk, a.plane), a, b, r)
    }
}

/// A shortest way from `a` to `b` inside the cluster.
pub fn path_within_cluster<F: Fn(i32, i32, i32) -> bool>(
    a: Tile,
    b: Tile,
    cluster_id: i64,
    cluster_tiles: &ClusterTiles,
    is_walkable: &F,
) -> (r: Option<Vec<Tile>>)
    requires
        cluster_tiles.wf(),
        answers_tiles(*is_walkable),
    ensures
        micro_path(*cluster_tiles, cluster_id, *is_walkable, a, b, seq_of(r)),
{
    if !cluster_tiles.is_known(cluster_id) {
        return None;
    }
    let plane: i32 = a.plane;
    let allowed = |x: i32, y: i32| -> (ok: bool)
        requires
            cluster_tiles.wf(),
        ensures
            ok == cluster_tiles.has(cluster_id, (Tile { x, y, plane })),
        { cluster_tiles.contains(cluster_id, Tile { x, y, plane }) };
    let walk = |x: i32, y: i32| -> (ok: bool)
        requires
            may_ask(is_walkable, x, y, plane),
        ensures
            can_say(is_walkable, x, y, plane, ok),
        { is_walkable(x, y, plane) };
    let r: Option<Vec<Tile>> = find_path_4dir(a, b, allowed, walk);
    proof {
        let can = can_cross(*cluster_tiles, cluster_id, *is_walkable, plane);
        let must = must_cross(*cluster_tiles, cluster_id, *is_walkable, plane);
        if a.plane == b.plane && a != b {
            if r is Some {
                lemma_path_mono(can_pass(allowed, walk), can, a, b, r->0@);
            }
            assert forall|q: Seq<Tile>| #[trigger] is_path(must, a, b, q) implies is_path(must_pass(allowed, walk), a, b, q) by {
                lemma_path_mono(must, must_pass(allowed, walk), a, b, q);
            }
            if one_answer(*cluster_tiles, cluster_id, *is_walkable, plane) {
                assert forall|x: i32, y: i32|
                    #![trigger can(x, y)]
                    (can_pass(allowed, walk)(x, y) ==> can(x, y)) && (can(x, y) ==> must_pass(allowed, walk)(x, y)) by {}
                assert(tells(allowed, walk, can));
            }
        }
    }
    r
}

/// The number of steps of a shortest way from `a` to `b` inside the cluster.
pub fn micro_cost_within_cluster<F: Fn(i32, i32, i32) -> bool>(
    a: Tile,
    b: Tile,
    cluster_id: i64,
    cluster_tiles: &ClusterTiles,
    is_walkable: &F,
) -> (r: Option<i64>)
    requires
        cluster_tiles.wf(),
        answers_tiles(*is_walkable),
    ensures
        micro_result(*cluster_tiles, cluster_id, *is_walkable, a, b, r),
        r is Some ==> r->0 >= 0,
{
    match path_within_cluster(a, b, cluster_id, cluster_tiles, is_walkable) {
        Some(p) => {
            let n: u64 = p.len() as u64;
            if n == 0 || n - 1 > i64::MAX as u64 {
                Some(i64::MAX)
            } else {
                Some((n - 1) as i64)
            }
        },
        None => None,
    }
}

/// The cluster and tile of an entrance.
pub open spec fn entrance_at(n: Node) -> Option<(i64, Tile)> {
    match n.kind {
        NodeKind::Entrance { cluster_id, x, y, plane, .. } => Some((cluster_id, Tile { x, y, plane })),
        _ => None,
    }
}

/// Whether an entrance on `plane` is joined to a tile on `own`. With `both` it has to lie on the
/// planes of both ends of the route.
pub open spec fn on_plane(both: bool, plane: i32, own: i32, other: i32) -> bool {
    plane == own && (both ==> plane == other)
}

/// Whether `from[i]` and `to[i]` are the steps between the ends of the route and each entrance.
pub open spec fn micro_costs_ok<F: Fn(i32, i32, i32) -> bool>(
    nodes: Seq<Node>,
    tiles: ClusterTiles,
    walk: F,
    start: Tile,
    end: Tile,
    both: bool,
    from: Seq<Option<i64>>,
    to: Seq<Option<i64>>,
) -> bool {
    &&& from.len() == nodes.len()
    &&& to.len() == nodes.len()
    &&& forall|i: int|
        #![trigger from[i]]
        0 <= i < nodes.len() ==> match entrance_at(nodes[i]) {
            Some((c, t)) => if on_plane(both, t.plane, start.plane, end.plane) {
                micro_result(tiles, c, walk, start, t, from[i])
            } else {
                from[i] is None
            },
            None => from[i] is None,
        }
    &&& forall|i: int|
        #![trigger to[i]]
        0 <= i < nodes.len() ==> match entrance_at(nodes[i]) {
            Some((c, t)) => if on_plane(both, t.plane, end.plane, start.plane) {
                micro_result(tiles, c, walk, t, end, to[i])
            } else {
                to[i] is None
            },
            None => to[i] is None,
        }
}

/// Adjacency lists with one more edge.
pub open spec fn with_link(l: Seq<Seq<(usize, i64)>>, from: int, to: usize, cost: i64) -> Seq<Seq<(usize, i64)>> {
    l.update(from, l[from].push((to, cost)))
}

/// The first `k` edges of the graph as adjacency lists.
pub open spec fn edge_lists(n: nat, edges: Seq<EdgeV>, k: int) -> Seq<Seq<(usize, i64)>>
    decreases k,
{
    if k <= 0 {
        Seq::new(n, |i: int| Seq::empty())
    } else {
        let e = edges[k - 1];
        with_link(edge_lists(n, edges, k - 1), e.from as int, e.to, e.cost)
    }
}

/// The lists `l` with the steps between the ends of the route and the first `k` nodes.
pub open spec fn micro_lists(
    l: Seq<Seq<(usize, i64)>>,
    from: Seq<Option<i64>>,
    to: Seq<Option<i64>>,
    s: usize,
    e: usize,
    k: int,
) -> Seq<Seq<(usize, i64)>>
    decreases k,
{
    if k <= 0 {
        l
    } else {
        let p = micro_lists(l, from, to, s, e, k - 1);
        let q = match from[k - 1] {
            Some(c) => with_link(p, s as int, (k - 1) as usize, c),
            None => p,
        };
        match to[k - 1] {
            Some(c) => with_link(q, k - 1, e, c),
            None => q,
        }
    }
}

/// All adjacency lists of a route: the edges of the graph and the steps at both ends.
pub open spec fn route_lists(
    n: nat,
    edges: Seq<EdgeV>,
    from: Seq<Option<i64>>,
    to: Seq<Option<i64>>,
    s: usize,
    e: usize,
) -> Seq<Seq<(usize, i64)>> {
    micro_lists(edge_lists(n, edges, edges.len() as int), from, to, s, e, n as int)
}

pub(crate) fn push_link(adj: &mut Vec<Vec<(usize, i64)>>, from: usize, to: usize, cost: i64)
    requires
        from < old(adj)@.len(),
        to < old(adj)@.len(),
        cost >= 0,
        edges_valid(lists(old(adj)@)),
    ensures
        lists(final(adj)@) == with_link(lists(old(adj)@), from as int, to, cost),
        final(adj)@.len() == old(adj)@.len(),
        edges_valid(lists(final(adj)@)),
{
    let ghost before = adj@;
    let mut row: Vec<(usize, i64)> = Vec::new();
    std::mem::swap(&mut row, &mut adj[from]);
    row.push((to, cost));
    adj.set(from, row);
    proof {
        let g = lists(adj@);
        let l = lists(before);
        assert(g =~= with_link(l, from as int, to, cost));
        assert forall|u: int, s: int| 0 <= u < g.len() && 0 <= s < g[u].len() implies (#[trigger] g[u][s]).0 < g.len()
            && g[u][s].1 >= 0 by {
            if u != from || s < l[u].len() {
                assert(g[u][s] == l[u][s]);
            }
        }
    }
}

/// The adjacency lists of a route through `graph`.
fn build_adjacency<F: Fn(i32, i32, i32) -> bool>(
    graph: &Graph,
    s: usize,
    e: usize,
    start: Tile,
    end: Tile,
    both: bool,
    cluster_tiles: &ClusterTiles,
    is_walkable: &F,
) -> (r: (Vec<Vec<(usize, i64)>>, Ghost<Seq<Option<i64>>>, Ghost<Seq<Option<i64>>>))
    requires
        cluster_tiles.wf(),
        answers_tiles(*is_walkable),
        s < graph.nodes@.len(),
        e < graph.nodes@.len(),
        forall|i: int|
            0 <= i < graph.edges@.len() ==> (#[trigger] edge_views(graph.edges@)[i]).from < graph.nodes@.len() && edge_views(
                graph.edges@,
            )[i].to < graph.nodes@.len() && edge_views(graph.edges@)[i].cost >= 0,
    ensures
        r.0@.len() == graph.nodes@.len(),
        edges_valid(lists(r.0@)),
        micro_costs_ok(graph.nodes@, *cluster_tiles, *is_walkable, start, end, both, r.1@, r.2@),
        lists(r.0@) == route_lists(graph.nodes@.len(), edge_views(graph.edges@), r.1@, r.2@, s, e),
{
    let n: usize = graph.nodes.len();
    let ghost views = edge_views(graph.edges@);
    let mut adj: Vec<Vec<(usize, i64)>> = Vec::new();
    let mut i: usize = 0;
    while i < n
        invariant
            i <= n,
            adj@.len() == i,
            forall|k: int| 0 <= k < i ==> (#[trigger] adj@[k])@.len() == 0,
        decreases n - i,
    {
        adj.push(Vec::new());
        i += 1;
    }
    assert(lists(adj@) =~= edge_lists(n as nat, views, 0)) by {
        assert forall|k: int| 0 <= k < n implies lists(adj@)[k] =~= edge_lists(n as nat, views, 0)[k] by {}
    }
    let mut j: usize = 0;
    while j < graph.edges.len()
        invariant
            j <= graph.edges@.len(),
            n == graph.nodes@.len(),
            adj@.len() == n,
            views == edge_views(graph.edges@),
            edges_valid(lists(adj@)),
            lists(adj@) == edge_lists(n as nat, views, j as int),
            forall|i: int|
                0 <= i < graph.edges@.len() ==> (#[trigger] views[i]).from < n && views[i].to < n && views[i].cost >= 0,
        decreases graph.edges@.len() - j,
    {
        assert(views[j as int] == graph.edges@[j as int]@);
        push_link(&mut adj, graph.edges[j].from.0, graph.edges[j].to.0, graph.edges[j].cost);
        j += 1;
    }
    let ghost base = lists(adj@);
    let ghost mut from: Seq<Option<i64>> = Seq::empty();
    let ghost mut to: Seq<Option<i64>> = Seq::empty();
    let mut k: usize = 0;
    while k < n
        invariant
            k <= n,
            n == graph.nodes@.len(),
            s < n,
            e < n,
            adj@.len() == n,
            cluster_tiles.wf(),
            answers_tiles(*is_walkable),
            edges_valid(lists(adj@)),
            from.len() == k,
            to.len() == k,
            micro_costs_ok(graph.nodes@.take(k as int), *cluster_tiles, *is_walkable, start, end, both, from, to),
            lists(adj@) == micro_lists(base, from, to, s, e, k as int),
        decreases n - k,
    {
        let ghost from0 = from;
        let ghost to0 = to;
        let mut cf: Option<i64> = None;
        let mut ct: Option<i64> = None;
        if let NodeKind::Entrance { cluster_id, x, y, plane, .. } = graph.nodes[k].kind {
            let t: Tile = Tile { x, y, plane };
            if plane == start.plane && (!both || plane == end.plane) {
                cf = micro_cost_within_cluster(start, t, cluster_id, cluster_tiles, is_walkable);
            }
            if plane == end.plane && (!both || plane == start.plane) {
                ct = micro_cost_within_cluster(t, end, cluster_id, cluster_tiles, is_walkable);
            }
        }
        if let Some(c) = cf {
            push_link(&mut adj, s, k, c);
        }
        if let Some(c) = ct {
            push_link(&mut adj, k, e, c);
        }
        proof {
            from = from.push(cf);
            to = to.push(ct);
            lemma_micro_lists_prefix(base, from0, to0, from, to, s, e, k as int);
            lemma_micro_costs_push(graph.nodes@, k as int, *cluster_tiles, *is_walkable, start, end, both, from0, to0, cf, ct);
        }
        k += 1;
    }
    assert(graph.nodes@.take(n as int) =~= graph.nodes@);
    (adj, Ghost(from), Ghost(to))
}

/// Whether `cf` and `ct` are the steps between the ends of the route and a node.
spec fn steps_ok<F: Fn(i32, i32, i32) -> bool>(
    node: Node,
    tiles: ClusterTiles,
    walk: F,
    start: Tile,
    end: Tile,
    both: bool,
    cf: Option<i64>,
    ct: Option<i64>,
) -> bool {
    match entrance_at(node) {
        Some((c, t)) => {
            &&& if on_plane(both, t.plane, start.plane, end.plane) {
                micro_result(tiles, c, walk, start, t, cf)
            } else {
                cf is None
            }
            &&& if on_plane(both, t.plane, end.plane, start.plane) {
                micro_result(tiles, c, walk, t, end, ct)
            } else {
                ct is None
            }
        },
        None => cf is None && ct is None,
    }
}

proof fn lemma_micro_costs_push<F: Fn(i32, i32, i32) -> bool>(
    nodes: Seq<Node>,
    k: int,
    tiles: ClusterTiles,
    walk: F,
    start: Tile,
    end: Tile,
    both: bool,
    from: Seq<Option<i64>>,
    to: Seq<Option<i64>>,
    cf: Option<i64>,
    ct: Option<i64>,
)
    requires
        0 <= k < nodes.len(),
        micro_costs_ok(nodes.take(k), tiles, walk, start, end, both, from, to),
        steps_ok(nodes[k], tiles, walk, start, end, both, cf, ct),
    ensures
        micro_costs_ok(nodes.take(k + 1), tiles, walk, start, end, both, from.push(cf), to.push(ct)),
{
    let (a, b) = (nodes.take(k), nodes.take(k + 1));
    let (f, t) = (from.push(cf), to.push(ct));
    assert forall|i: int| #![trigger f[i]] 0 <= i < k implies f[i] == from[i] && b[i] == a[i] by {}
    assert forall|i: int| #![trigger t[i]] 0 <= i < k implies t[i] == to[i] && b[i] == a[i] by {}
}

proof fn lemma_micro_lists_prefix(
    l: Seq<Seq<(usize, i64)>>,
    from: Seq<Option<i64>>,
    to: Seq<Option<i64>>,
    from2: Seq<Option<i64>>,
    to2: Seq<Option<i64>>,
    s: usize,
    e: usize,
    k: int,
)
    requires
        0 <= k <= from.len(),
        k <= to.len(),
        k <= from2.len(),
        k <= to2.len(),
        forall|i: int| 0 <= i < k ==> #[trigger] from[i] == from2[i],
        forall|i: int| 0 <= i < k ==> #[trigger] to[i] == to2[i],
    ensures
        micro_lists(l, from, to, s, e, k) == micro_lists(l, from2, to2, s, e, k),
    decreases k,
{
    if k > 0 {
        lemma_micro_lists_prefix(l, from, to, from2, to2, s, e, k - 1);
        assert(from[k - 1] == from2[k - 1]);
        assert(to[k - 1] == to2[k - 1]);
    }
}

pub open spec fn hops_of(r: Option<(Graph, Vec<usize>)>) -> Option<Seq<usize>> {
    match r {
        Some((_, indices)) => Some(indices@),
        None => None,
    }
}

/// What a search through the abstract graph has to find: the graph of the rows, and a cheapest
/// way through it from the start to the end of the route, of several the one that it comes to
/// first; or that there is none.
pub open spec fn hop_result<F: Fn(i32, i32, i32) -> bool>(
    inputs: GraphInputs,
    given: Seq<RequirementKV>,
    start: Tile,
    end: Tile,
    both: bool,
    tiles: ClusterTiles,
    walk: F,
    r: Option<(Graph, Vec<usize>)>,
) -> bool {
    let d = graph_draft(inputs, given, BuildOptions { start, end }, tiles);
    let s = inputs.entrances@.len() as usize;
    let e = (s + 1) as usize;
    exists|from: Seq<Option<i64>>, to: Seq<Option<i64>>| #[trigger]
        micro_costs_ok(d.nodes, tiles, walk, start, end, both, from, to) && is_search_walk(
            route_lists(d.nodes.len(), d.edges, from, to, s, e),
            s,
            e,
            hops_of(r),
        ) && match r {
            Some((g, indices)) => g.nodes@ == d.nodes && edge_views(g.edges@) == d.edges && is_cheapest(
                route_lists(d.nodes.len(), d.edges, from, to, s, e),
                s,
                e,
                indices@,
            ),
            None => forall|q: Seq<usize>, t: Seq<int>| !#[trigger]
                leads(route_lists(d.nodes.len(), d.edges, from, to, s, e), s, e, q, t),
        }
}

/// The abstract graph and a cheapest way through it, as node positions.
pub(crate) fn search_hops<F: Fn(i32, i32, i32) -> bool>(
    inputs: &GraphInputs,
    evaluator: &RequirementEvaluator,
    start: Tile,
    end: Tile,
    both: bool,
    cluster_tiles: &ClusterTiles,
    is_walkable: &F,
) -> (r: Option<(Graph, Vec<usize>)>)
    requires
        cluster_tiles.wf(),
        answers_tiles(*is_walkable),
        inputs.entrances@.len() < usize::MAX - 1,
        inputs.teleports@.len() < 0x2000_0000_0000_0000,
        rows_cost_nothing_negative(*inputs),
    ensures
        hop_result(*inputs, evaluator@, start, end, both, *cluster_tiles, *is_walkable, r),
        r is Some ==> forall|i: int| 0 <= i < (r->0).1@.len() ==> #[trigger] (r->0).1@[i] < (r->0).0.nodes@.len(),
{
    let options: BuildOptions = BuildOptions { start, end };
    let graph: Graph = build_graph(inputs, evaluator, &options, cluster_tiles);
    let ghost d = graph_draft(*inputs, evaluator@, options, *cluster_tiles);
    let s: usize = inputs.entrances.len();
    let e: usize = s + 1;
    proof {
        assert(graph.nodes.len() <= usize::MAX);
        assert(inputs.intra.len() <= usize::MAX && inputs.inter.len() <= usize::MAX && inputs.teleports.len() <= usize::MAX);
        law_graph_is_sound(*inputs, evaluator@, options, *cluster_tiles);
        law_costs_stay_nonnegative(*inputs, evaluator@, options, *cluster_tiles);
        assert forall|i: int| 0 <= i < graph.edges@.len() implies (#[trigger] edge_views(graph.edges@)[i]).from
            < graph.nodes@.len() && edge_views(graph.edges@)[i].to < graph.nodes@.len() && edge_views(graph.edges@)[i].cost
            >= 0 by {
            assert(edge_ok(d.edges[i], d.nodes.len() as int, evaluator@, inputs.teleport_requirements@));
            assert(d.edges[i].cost >= 0);
        }
    }
    let (adj, Ghost(from), Ghost(to)) = build_adjacency(&graph, s, e, start, end, both, cluster_tiles, is_walkable);
    match dijkstra_indices_with_adj(&adj, s, e) {
        Some(indices) => {
            proof {
                let g = lists(adj@);
                let w = choose|w: Seq<int>| #[trigger]
                    leads(g, s, e, indices@, w) && forall|q: Seq<usize>, t: Seq<int>| #[trigger]
                        leads(g, s, e, q, t) ==> crate::planner::dijkstra::walk_cost(g, indices@, w)
                            <= crate::planner::dijkstra::walk_cost(g, q, t);
                assert(leads(g, s, e, indices@, w));
            }
            Some((graph, indices))
        },
        None => None,
    }
}

/// The abstract graph and a cheapest way through it from `start` to `end`, as node positions.
pub fn plan_hl_indices<F: Fn(i32, i32, i32) -> bool>(
    inputs: &GraphInputs,
    evaluator: &RequirementEvaluator,
    start: Tile,
    end: Tile,
    cluster_tiles: &ClusterTiles,
    is_walkable: &F,
) -> (r: Option<(Graph, Vec<usize>)>)
    requires
        cluster_tiles.wf(),
        answers_tiles(*is_walkable),
        inputs.entrances@.len() < usize::MAX - 1,
        inputs.teleports@.len() < 0x2000_0000_0000_0000,
        rows_cost_nothing_negative(*inputs),
    ensures
        hop_result(*inputs, evaluator@, start, end, false, *cluster_tiles, *is_walkable, r),
        r is Some ==> forall|i: int| 0 <= i < (r->0).1@.len() ==> #[trigger] (r->0).1@[i] < (r->0).0.nodes@.len(),
{
    search_hops(inputs, evaluator, start, end, false, cluster_tiles, is_walkable)
}

/// The abstract graph and a cheapest way through it from `start` to `end`, as node positions, where no
/// row has a negative cost.
pub fn checked_plan_hl_indices<F: Fn(i32, i32, i32) -> bool>(
    inputs: &GraphInputs,
    evaluator: &RequirementEvaluator,
    start: Tile,
    end: Tile,
    cluster_tiles: &ClusterTiles,
    is_walkable: &F,
) -> (r: Result<Option<(Graph, Vec<usize>)>, NegativeCost>)
    requires
        cluster_tiles.wf(),
        answers_tiles(*is_walkable),
        inputs.entrances@.len() < usize::MAX - 1,
        inputs.teleports@.len() < 0x2000_0000_0000_0000,
    ensures
        r is Err <==> !rows_cost_nothing_negative(*inputs),
        r is Ok ==> hop_result(*inputs, evaluator@, start, end, false, *cluster_tiles, *is_walkable, r->Ok_0),
{
    if no_negative_costs(inputs) {
        Ok(plan_hl_indices(inputs, evaluator, start, end, cluster_tiles, is_walkable))
    } else {
        Err(NegativeCost)
    }
}

/// The entrance ids of the nodes at `indices`, other nodes left out.
pub open spec fn entrance_ids(nodes: Seq<Node>, indices: Seq<usize>) -> Seq<i64>
    decreases indices.len(),
{
    if indices.len() == 0 {
        Seq::empty()
    } else {
        let rest = entrance_ids(nodes, indices.drop_last());
        match nodes[indices.last() as int].kind {
            NodeKind::Entrance { entrance_id, .. } => rest.push(entrance_id),
            _ => rest,
        }
    }
}

/// Whether `r` are the entrances on a way that the search through the abstract graph finds.
pub open spec fn is_hop_plan<F: Fn(i32, i32, i32) -> bool>(
    inputs: GraphInputs,
    caller: Seq<RequirementKV>,
    start: Tile,
    end: Tile,
    tiles: ClusterTiles,
    walk: F,
    r: Option<HopPlan>,
) -> bool {
    exists|found: Option<(Graph, Vec<usize>)>| #[trigger]
        hop_result(inputs, caller, start, end, false, tiles, walk, found) && match found {
            Some((g, indices)) => r is Some && r->0.entrances@ == entrance_ids(g.nodes@, indices@),
            None => r is None,
        }
}

/// The entrances on a cheapest way from `start` to `end`, where no row has a negative cost.
pub fn checked_plan_hops<F: Fn(i32, i32, i32) -> bool>(
    inputs: &GraphInputs,
    evaluator: &RequirementEvaluator,
    start: Tile,
    end: Tile,
    cluster_tiles: &ClusterTiles,
    is_walkable: &F,
) -> (r: Result<Option<HopPlan>, NegativeCost>)
    requires
        cluster_tiles.wf(),
        answers_tiles(*is_walkable),
        inputs.entrances@.len() < usize::MAX - 1,
        inputs.teleports@.len() < 0x2000_0000_0000_0000,
    ensures
        r is Err <==> !rows_cost_nothing_negative(*inputs),
        r is Ok ==> is_hop_plan(*inputs, evaluator@, start, end, *cluster_tiles, *is_walkable, r->Ok_0),
{
    if no_negative_costs(inputs) {
        Ok(plan_hops(inputs, evaluator, start, end, cluster_tiles, is_walkable))
    } else {
        Err(NegativeCost)
    }
}

/// The entrances on a cheapest way from `start` to `end`.
pub fn plan_hops<F: Fn(i32, i32, i32) -> bool>(
    inputs: &GraphInputs,
    evaluator: &RequirementEvaluator,
    start: Tile,
    end: Tile,
    cluster_tiles: &ClusterTiles,
    is_walkable: &F,
) -> (r: Option<HopPlan>)
    requires
        cluster_tiles.wf(),
        answers_tiles(*is_walkable),
        inputs.entrances@.len() < usize::MAX - 1,
        inputs.teleports@.len() < 0x2000_0000_0000_0000,
        rows_cost_nothing_negative(*inputs),
    ensures
        is_hop_plan(*inputs, evaluator@, start, end, *cluster_tiles, *is_walkable, r),
{
    let found: Option<(Graph, Vec<usize>)> = plan_hl_indices(
        inputs,
        evaluator,
        start,
        end,
        cluster_tiles,
        is_walkable,
    );
    let ghost whole = found;
    match found {
        None => {
            assert(hop_result(*inputs, evaluator@, start, end, false, *cluster_tiles, *is_walkable, whole));
            None
        },
        Some((graph, indices)) => {
            let mut entrances: Vec<i64> = Vec::new();
            let mut i: usize = 0;
            while i < indices.len()
                invariant
                    i <= indices@.len(),
                    forall|k: int| 0 <= k < indices@.len() ==> #[trigger] indices@[k] < graph.nodes@.len(),
                    entrances@ == entrance_ids(graph.nodes@, indices@.take(i as int)),
                decreases indices@.len() - i,
            {
                assert(indices@.take(i + 1).drop_last() =~= indices@.take(i as int));
                if let NodeKind::Entrance { entrance_id, .. } = graph.nodes[indices[i]].kind {
                    entrances.push(entrance_id);
                }
                i += 1;
            }
            assert(indices@.take(i as int) =~= indices@);
            assert(hop_result(*inputs, evaluator@, start, end, false, *cluster_tiles, *is_walkable, whole));
            Some(HopPlan { entrances })
        },
    }
}

}
