//! Hierarchical planning: hops through the abstract graph, filled in with tiles.

use crate::json::Json;
use crate::models::Tile;
use crate::planner::graph::{no_negative_costs, Edge, EdgeKind, Graph, GraphInputs, NegativeCost, Node, NodeKind};
use crate::planner::high_level::{path_within_cluster, search_hops};
use crate::planner::path_blob::try_decode_default;
use crate::planner::tiles::ClusterTiles;
use crate::requirements::RequirementEvaluator;
use vstd::prelude::*;
#[allow(unused_imports)]
use crate::json::{parsed_json, JsonV};
#[allow(unused_imports)]
use crate::planner::graph::{blob_view, edge_views, rows_cost_nothing_negative, EdgeKindV, EdgeV};
#[allow(unused_imports)]
use crate::planner::micro_astar::seq_of;
#[allow(unused_imports)]
use crate::planner::high_level::{answers_tiles, hop_result, micro_path};
#[allow(unused_imports)]
use crate::planner::path_blob::json_path;
#[allow(unused_imports)]
use crate::requirements::RequirementKV;

verus! {

/// What a hierarchical plan is made from: the rows of the abstract graph, the tiles of each
/// cluster, and a predicate that says which tiles can be walked.
pub struct HpaInputs<'a, F: Fn(i32, i32, i32) -> bool> {
    pub graph_inputs: GraphInputs<'a>,
    pub cluster_tiles: ClusterTiles,
    pub is_walkable: F,
}

#[derive(Debug, Clone, Copy, PartialEq, Eq, Structural)]
pub struct HpaOptions {
    pub start: Tile,
    pub end: Tile,
}

#[derive(Debug)]
pub struct HpaResult {
    pub path: Vec<Tile>,
    pub actions: Vec<Json>,
}

/// The tile of a node.
pub open spec fn tile_of(n: Node) -> Tile {
    match n.kind {
        NodeKind::Entrance { x, y, plane, .. } => Tile { x, y, plane },
        NodeKind::VirtualStart(t) => t,
        NodeKind::VirtualEnd(t) => t,
    }
}

/// The cluster of an entrance.
pub open spec fn cluster_at(n: Node) -> Option<i64> {
    match n.kind {
        NodeKind::Entrance { cluster_id, .. } => Some(cluster_id),
        _ => None,
    }
}

/// The cluster of the first node, else that of the second.
pub open spec fn cluster_of_either(a: Node, b: Node) -> Option<i64> {
    match cluster_at(a) {
        Some(c) => Some(c),
        None => cluster_at(b),
    }
}

/// The first edge from `a` to `b` at position `i` or later.
pub open spec fn first_edge(edges: Seq<EdgeV>, a: usize, b: usize, i: int) -> Option<EdgeV>
    decreases edges.len() - i,
{
    if i < 0 || i >= edges.len() {
        None
    } else if edges[i].from == a && edges[i].to == b {
        Some(edges[i])
    } else {
        first_edge(edges, a, b, i + 1)
    }
}

/// The tiles `pts` behind `acc`, a tile where the two meet only once.
pub open spec fn joined(acc: Seq<Tile>, pts: Seq<Tile>) -> Seq<Tile> {
    if acc.len() > 0 && pts.len() > 0 && acc.last() == pts[0] { acc + pts.skip(1) } else { acc + pts }
}

/// The path that a stored blob spells.
pub open spec fn stored_path(blob: Option<Seq<u8>>) -> Option<Seq<Tile>> {
    match blob {
        Some(b) => match parsed_json(b) {
            Some(v) => json_path(v),
            None => None,
        },
        None => None,
    }
}

/// Whether `out` is `acc` with a way from `a` to `b` inside the cluster behind it, or with `b`
/// alone where there is no cluster or no way.
pub open spec fn walked<F: Fn(i32, i32, i32) -> bool>(
    tiles: ClusterTiles,
    walk: F,
    acc: Seq<Tile>,
    a: Tile,
    b: Tile,
    cluster: Option<i64>,
    out: Seq<Tile>,
) -> bool {
    match cluster {
        Some(c) => exists|p: Option<Seq<Tile>>| #[trigger]
            micro_path(tiles, c, walk, a, b, p) && out == match p {
                Some(pts) => joined(acc, pts),
                None => acc.push(b),
            },
        None => out == acc.push(b),
    }
}

/// Whether `out` is `acc` with the tiles of the hop from node `a` to node `b` behind it.
pub open spec fn hopped<F: Fn(i32, i32, i32) -> bool>(
    nodes: Seq<Node>,
    edges: Seq<EdgeV>,
    tiles: ClusterTiles,
    walk: F,
    acc: Seq<Tile>,
    a: usize,
    b: usize,
    out: Seq<Tile>,
) -> bool {
    let (na, nb) = (nodes[a as int], nodes[b as int]);
    match first_edge(edges, a, b, 0) {
        Some(e) => match e.kind {
            EdgeKindV::Intra { path_blob } => match stored_path(path_blob) {
                Some(pts) => out == joined(acc, pts),
                None => walked(tiles, walk, acc, tile_of(na), tile_of(nb), cluster_of_either(na, nb), out),
            },
            _ => out == joined(acc, seq![tile_of(nb)]),
        },
        None => walked(tiles, walk, acc, tile_of(na), tile_of(nb), cluster_of_either(na, nb), out),
    }
}

/// Whether `out` are the tiles of the hops of `hl`.
pub open spec fn rebuilt<F: Fn(i32, i32, i32) -> bool>(
    nodes: Seq<Node>,
    edges: Seq<EdgeV>,
    tiles: ClusterTiles,
    walk: F,
    hl: Seq<usize>,
    out: Seq<Tile>,
) -> bool
    decreases hl.len(),
{
    if hl.len() <= 1 {
        out.len() == 0
    } else {
        exists|acc: Seq<Tile>|
            rebuilt(nodes, edges, tiles, walk, hl.drop_last(), acc) && #[trigger] hopped(
                nodes,
                edges,
                tiles,
                walk,
                acc,
                hl[hl.len() - 2],
                hl.last(),
                out,
            )
    }
}

proof fn lemma_rebuilt_step<F: Fn(i32, i32, i32) -> bool>(
    nodes: Seq<Node>,
    edges: Seq<EdgeV>,
    tiles: ClusterTiles,
    walk: F,
    hl: Seq<usize>,
    acc: Seq<Tile>,
    out: Seq<Tile>,
)
    requires
        hl.len() >= 2,
        rebuilt(nodes, edges, tiles, walk, hl.drop_last(), acc),
        hopped(nodes, edges, tiles, walk, acc, hl[hl.len() - 2], hl.last(), out),
    ensures
        rebuilt(nodes, edges, tiles, walk, hl, out),
{
}

/// The tiles `t` with the start in front and the end behind, where they are missing.
pub open spec fn closed_off(t: Seq<Tile>, start: Tile, end: Tile) -> Seq<Tile> {
    let a = if t.len() > 0 && t[0] == start { t } else { seq![start] + t };
    if a.last() == end { a } else { a.push(end) }
}

/// The action of a teleport.
pub open spec fn teleport_action(edge_id: i64, requirement_id: Option<i64>) -> JsonV {
    JsonV::Obj(
        Map::empty().insert("type"@, JsonV::Str("teleport"@)).insert("edge_id"@, JsonV::Num(edge_id as int)).insert(
            "requirement_id"@,
            match requirement_id {
                Some(r) => JsonV::Num(r as int),
                None => JsonV::Null,
            },
        ),
    )
}

/// The actions of the first `k` hops: one for each hop whose first edge is a teleport.
pub open spec fn hop_actions(edges: Seq<EdgeV>, hl: Seq<usize>, k: int) -> Seq<JsonV>
    decreases k,
{
    if k <= 0 {
        Seq::empty()
    } else {
        let rest = hop_actions(edges, hl, k - 1);
        match first_edge(edges, hl[k - 1], hl[k], 0) {
            Some(e) => match e.kind {
                EdgeKindV::Teleport { edge_id, requirement_id, .. } => rest.push(teleport_action(edge_id, requirement_id)),
                _ => rest,
            },
            None => rest,
        }
    }
}

/// What a list of actions holds.
pub open spec fn action_views(a: Seq<Json>) -> Seq<JsonV> {
    Seq::new(a.len(), |i: int| a[i]@)
}

/// Whether `path` and `actions` are the tiles and the actions of the hops `hl`.
pub open spec fn reconstructed<F: Fn(i32, i32, i32) -> bool>(
    nodes: Seq<Node>,
    edges: Seq<EdgeV>,
    tiles: ClusterTiles,
    walk: F,
    hl: Seq<usize>,
    start: Tile,
    end: Tile,
    path: Seq<Tile>,
    actions: Seq<JsonV>,
) -> bool {
    &&& actions == hop_actions(edges, hl, hl.len() - 1)
    &&& exists|t: Seq<Tile>| #[trigger]
        rebuilt(nodes, edges, tiles, walk, hl, t) && path == closed_off(t, start, end)
}

/// Appends `pts`, a tile where the two meet only once.
pub fn append_path(acc: &mut Vec<Tile>, pts: &Vec<Tile>)
    ensures
        final(acc)@ == joined(old(acc)@, pts@),
{
    let ghost before = acc@;
    let meet: bool = acc.len() > 0 && pts.len() > 0 && acc[acc.len() - 1] == pts[0];
    let first: usize = if meet { 1 } else { 0 };
    let mut i: usize = first;
    assert(acc@ =~= before + pts@.subrange(first as int, i as int));
    while i < pts.len()
        invariant
            first <= i <= pts@.len(),
            acc@ == before + pts@.subrange(first as int, i as int),
        decreases pts@.len() - i,
    {
        acc.push(pts[i]);
        assert(acc@ =~= before + pts@.subrange(first as int, i + 1));
        i += 1;
    }
    assert(pts@.subrange(0, pts@.len() as int) =~= pts@);
    assert(meet ==> pts@.subrange(1, pts@.len() as int) =~= pts@.skip(1));
}

/// Appends a way from `a` to `b` inside the cluster, or `b` alone.
pub fn append_micro<F: Fn(i32, i32, i32) -> bool>(
    acc: &mut Vec<Tile>,
    a: Tile,
    b: Tile,
    cluster_tiles: &ClusterTiles,
    is_walkable: &F,
    cluster_id: Option<i64>,
)
    requires
        cluster_tiles.wf(),
        answers_tiles(*is_walkable),
    ensures
        walked(*cluster_tiles, *is_walkable, old(acc)@, a, b, cluster_id, final(acc)@),
{
    if let Some(c) = cluster_id {
        let p: Option<Vec<Tile>> = path_within_cluster(a, b, c, cluster_tiles, is_walkable);
        let ghost found = seq_of(p);
        assert(micro_path(*cluster_tiles, c, *is_walkable, a, b, found));
        if let Some(pts) = p {
            append_path(acc, &pts);
            return;
        }
    }
    acc.push(b);
}

/// The tile of a node.
pub fn node_tile(n: &Node) -> (r: Tile)
    ensures
        r == tile_of(*n),
{
    match n.kind {
        NodeKind::Entrance { x, y, plane, .. } => Tile { x, y, plane },
        NodeKind::VirtualStart(t) => t,
        NodeKind::VirtualEnd(t) => t,
    }
}

/// The cluster of an entrance.
pub fn cluster_id_for_node(n: &Node) -> (r: Option<i64>)
    ensures
        r == cluster_at(*n),
{
    match n.kind {
        NodeKind::Entrance { cluster_id, .. } => Some(cluster_id),
        _ => None,
    }
}

/// The cluster of the first node, else that of the second.
pub fn cluster_id_for_either(a: &Node, b: &Node) -> (r: Option<i64>)
    ensures
        r == cluster_of_either(*a, *b),
{
    match cluster_id_for_node(a) {
        Some(c) => Some(c),
        None => cluster_id_for_node(b),
    }
}

fn find_edge(edges: &Vec<Edge>, a: usize, b: usize) -> (r: Option<usize>)
    ensures
        match r {
            Some(i) => i < edges@.len() && first_edge(edge_views(edges@), a, b, 0) == Some(edges@[i as int]@),
            None => first_edge(edge_views(edges@), a, b, 0) is None,
        },
{
    let ghost v = edge_views(edges@);
    let mut i: usize = 0;
    while i < edges.len()
        invariant
            i <= edges@.len(),
            v == edge_views(edges@),
            first_edge(v, a, b, 0) == first_edge(v, a, b, i as int),
        decreases edges@.len() - i,
    {
        assert(v[i as int] == edges@[i as int]@);
        if edges[i].from.0 == a && edges[i].to.0 == b {
            return Some(i);
        }
        i += 1;
    }
    None
}

fn make_action(edge_id: i64, requirement_id: Option<i64>) -> (r: Json)
    ensures
        r@ == teleport_action(edge_id, requirement_id),
{
    let id: Json = match requirement_id {
        Some(x) => Json::Int(x),
        None => Json::Null,
    };
    Json::object().with("type", Json::text("teleport")).with("edge_id", Json::Int(edge_id)).with("requirement_id", id)
}

/// Appends the tiles of one hop.
fn append_hop<F: Fn(i32, i32, i32) -> bool>(
    graph: &Graph,
    a: usize,
    b: usize,
    acc: &mut Vec<Tile>,
    cluster_tiles: &ClusterTiles,
    is_walkable: &F,
) -> (r: Option<Json>)
    requires
        cluster_tiles.wf(),
        answers_tiles(*is_walkable),
        a < graph.nodes@.len(),
        b < graph.nodes@.len(),
    ensures
        hopped(
            graph.nodes@,
            edge_views(graph.edges@),
            *cluster_tiles,
            *is_walkable,
            old(acc)@,
            a,
            b,
            final(acc)@,
        ),
        match first_edge(edge_views(graph.edges@), a, b, 0) {
            Some(e) => match e.kind {
                EdgeKindV::Teleport { edge_id, requirement_id, .. } => r is Some && r->0@ == teleport_action(
                    edge_id,
                    requirement_id,
                ),
                _ => r is None,
            },
            None => r is None,
        },
{
    let na: &Node = &graph.nodes[a];
    let nb: &Node = &graph.nodes[b];
    let cluster: Option<i64> = cluster_id_for_either(na, nb);
    match find_edge(&graph.edges, a, b) {
        Some(i) => match &graph.edges[i].kind {
            EdgeKind::Intra { path_blob } => {
                let stored: Option<Vec<Tile>> = match path_blob {
                    Some(blob) => try_decode_default(blob.as_slice()),
                    None => None,
                };
                match stored {
                    Some(pts) => {
                        append_path(acc, &pts);
                    },
                    None => {
                        append_micro(acc, node_tile(na), node_tile(nb), cluster_tiles, is_walkable, cluster);
                    },
                }
                None
            },
            EdgeKind::Inter => {
                let mut one: Vec<Tile> = Vec::new();
                one.push(node_tile(nb));
                assert(one@ =~= seq![tile_of(*nb)]);
                append_path(acc, &one);
                None
            },
            EdgeKind::Teleport { edge_id, requirement_id, .. } => {
                let mut one: Vec<Tile> = Vec::new();
                one.push(node_tile(nb));
                assert(one@ =~= seq![tile_of(*nb)]);
                append_path(acc, &one);
                Some(make_action(*edge_id, *requirement_id))
            },
        },
        None => {
            append_micro(acc, node_tile(na), node_tile(nb), cluster_tiles, is_walkable, cluster);
            None
        },
    }
}

/// The tiles and the actions of the hops `hl_path`.
pub fn reconstruct_tiles_and_actions<F: Fn(i32, i32, i32) -> bool>(
    graph: &Graph,
    hl_path: &Vec<usize>,
    opts: &HpaOptions,
    cluster_tiles: &ClusterTiles,
    is_walkable: &F,
) -> (r: (Vec<Tile>, Vec<Json>))
    requires
        cluster_tiles.wf(),
        answers_tiles(*is_walkable),
        forall|i: int| 0 <= i < hl_path@.len() ==> #[trigger] hl_path@[i] < graph.nodes@.len(),
    ensures
        reconstructed(
            graph.nodes@,
            edge_views(graph.edges@),
            *cluster_tiles,
            *is_walkable,
            hl_path@,
            opts.start,
            opts.end,
            r.0@,
            action_views(r.1@),
        ),
        r.0@.len() > 0,
        r.0@[0] == opts.start,
        r.0@.last() == opts.end,
{
    let ghost views = edge_views(graph.edges@);
    let mut tiles: Vec<Tile> = Vec::new();
    let mut actions: Vec<Json> = Vec::new();
    let n: usize = hl_path.len();
    let mut k: usize = 0;
    assert(action_views(actions@) =~= hop_actions(views, hl_path@, 0));
    while n > 0 && k < n - 1
        invariant
            n == hl_path@.len(),
            n == 0 ==> k == 0 && tiles@.len() == 0,
            n > 0 ==> k < n,
            views == edge_views(graph.edges@),
            cluster_tiles.wf(),
            answers_tiles(*is_walkable),
            forall|i: int| 0 <= i < hl_path@.len() ==> #[trigger] hl_path@[i] < graph.nodes@.len(),
            n > 0 ==> rebuilt(graph.nodes@, views, *cluster_tiles, *is_walkable, hl_path@.take(k + 1), tiles@),
            action_views(actions@) == hop_actions(views, hl_path@, k as int),
        decreases n - k,
    {
        let ghost before = tiles@;
        let ghost acts = actions@;
        let made: Option<Json> = append_hop(graph, hl_path[k], hl_path[k + 1], &mut tiles, cluster_tiles, is_walkable);
        if let Some(a) = made {
            actions.push(a);
            assert(action_views(actions@) =~= action_views(acts).push(a@));
        }
        assert(hl_path@.take(k + 2).drop_last() =~= hl_path@.take(k + 1));
        assert(rebuilt(graph.nodes@, views, *cluster_tiles, *is_walkable, hl_path@.take(k + 2).drop_last(), before));
        assert(hl_path@.take(k + 2)[k as int] == hl_path@[k as int]);
        assert(hl_path@.take(k + 2).last() == hl_path@[k + 1]);
        proof {
            lemma_rebuilt_step(
                graph.nodes@,
                views,
                *cluster_tiles,
                *is_walkable,
                hl_path@.take(k + 2),
                before,
                tiles@,
            );
        }
        k += 1;
    }
    let ghost t = tiles@;
    assert(n > 0 ==> hl_path@.take(k + 1) =~= hl_path@);
    assert(rebuilt(graph.nodes@, views, *cluster_tiles, *is_walkable, hl_path@, t));
    if tiles.len() == 0 || tiles[0] != opts.start {
        tiles.insert(0, opts.start);
        assert(tiles@ =~= seq![opts.start] + t);
    }
    if tiles[tiles.len() - 1] != opts.end {
        tiles.push(opts.end);
    }
    (tiles, actions)
}

/// Whether `r` is the plan of a route: nothing but its tile where it ends where it starts; else the way
/// that the search through the abstract graph finds, filled in with tiles from the start to the end.
pub open spec fn is_plan<F: Fn(i32, i32, i32) -> bool>(
    inputs: HpaInputs<F>,
    caller: Seq<RequirementKV>,
    opts: HpaOptions,
    r: Option<HpaResult>,
) -> bool {
    &&& opts.start == opts.end ==> r is Some && r->0.path@ == seq![opts.start] && r->0.actions@.len() == 0
    &&& opts.start != opts.end ==> exists|found: Option<(Graph, Vec<usize>)>| #[trigger]
        hop_result(
            inputs.graph_inputs,
            caller,
            opts.start,
            opts.end,
            true,
            inputs.cluster_tiles,
            inputs.is_walkable,
            found,
        ) && match found {
            Some((g, hl)) => r is Some && reconstructed(
                g.nodes@,
                edge_views(g.edges@),
                inputs.cluster_tiles,
                inputs.is_walkable,
                hl@,
                opts.start,
                opts.end,
                r->0.path@,
                action_views(r->0.actions@),
            ),
            None => r is None,
        }
    &&& r is Some ==> r->0.path@.len() > 0 && r->0.path@[0] == opts.start && r->0.path@.last() == opts.end
}

/// Plans a route: a cheapest way through the abstract graph, filled in with tiles.
pub fn plan<F: Fn(i32, i32, i32) -> bool>(
    inputs: &HpaInputs<F>,
    evaluator: &RequirementEvaluator,
    opts: &HpaOptions,
) -> (r: Option<HpaResult>)
    requires
        inputs.cluster_tiles.wf(),
        answers_tiles(inputs.is_walkable),
        inputs.graph_inputs.entrances@.len() < usize::MAX - 1,
        inputs.graph_inputs.teleports@.len() < 0x2000_0000_0000_0000,
        opts.start != opts.end ==> rows_cost_nothing_negative(inputs.graph_inputs),
    ensures
        is_plan(*inputs, evaluator@, *opts, r),
{
    if opts.start == opts.end {
        let mut path: Vec<Tile> = Vec::new();
        path.push(opts.start);
        assert(path@ =~= seq![opts.start]);
        return Some(HpaResult { path, actions: Vec::new() });
    }
    let found: Option<(Graph, Vec<usize>)> = search_hops(
        &inputs.graph_inputs,
        evaluator,
        opts.start,
        opts.end,
        true,
        &inputs.cluster_tiles,
        &inputs.is_walkable,
    );
    let ghost whole = found;
    assert(hop_result(
        inputs.graph_inputs,
        evaluator@,
        opts.start,
        opts.end,
        true,
        inputs.cluster_tiles,
        inputs.is_walkable,
        whole,
    ));
    match found {
        None => None,
        Some((graph, hl)) => {
            let (path, actions): (Vec<Tile>, Vec<Json>) = reconstruct_tiles_and_actions(
                &graph,
                &hl,
                opts,
                &inputs.cluster_tiles,
                &inputs.is_walkable,
            );
            Some(HpaResult { path, actions })
        },
    }
}

/// Plans a route where no row has a negative cost, or none is looked at because the route ends where it
/// starts.
pub fn checked_plan<F: Fn(i32, i32, i32) -> bool>(
    inputs: &HpaInputs<F>,
    evaluator: &RequirementEvaluator,
    opts: &HpaOptions,
) -> (r: Result<Option<HpaResult>, NegativeCost>)
    requires
        inputs.cluster_tiles.wf(),
        answers_tiles(inputs.is_walkable),
        inputs.graph_inputs.entrances@.len() < usize::MAX - 1,
        inputs.graph_inputs.teleports@.len() < 0x2000_0000_0000_0000,
    ensures
        r is Err <==> opts.start != opts.end && !rows_cost_nothing_negative(inputs.graph_inputs),
        r is Ok ==> is_plan(*inputs, evaluator@, *opts, r->Ok_0),
{
    if opts.start == opts.end || no_negative_costs(&inputs.graph_inputs) {
        Ok(plan(inputs, evaluator, opts))
    } else {
        Err(NegativeCost)
    }
}

}
