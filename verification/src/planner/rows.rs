//! The edges of the abstract graph are those that its rows ask for.

use crate::db::{AbstractTeleportEdge, ClusterEntrance, ClusterInterConnection, ClusterIntraConnection, TeleportRequirement};
use crate::models::Tile;
use crate::planner::graph::{BuildOptions, Draft, EdgeKindV, EdgeV, GraphInputs, Node, NodeKind};
use crate::planner::tiles::ClusterTiles;
use vstd::prelude::*;
#[allow(unused_imports)]
use crate::planner::graph::{
    base_draft, destination, dst_tile, entrance_keys, entrance_node, entrance_order, entrance_tile, graph_draft,
    inter_keys, inter_order, intra_keys, intra_order, known_node, node_at, source, src_tile, teleport_allowed,
    teleport_keys, teleport_order, with_destination, with_edge, with_ends, with_entrances, with_inter, with_intra,
    with_source, with_teleport, with_teleports, with_tile,
};
#[allow(unused_imports)]
use crate::planner::tiles::{lemma_tile_key, tile_key};
#[allow(unused_imports)]
use crate::requirements::{condition_met, RequirementKV};
#[allow(unused_imports)]
use crate::sort::lemma_sorted_positions;

verus! {

/// Whether the node is the entrance with the id.
pub open spec fn is_entrance(n: Node, id: i64) -> bool {
    n.kind matches NodeKind::Entrance { entrance_id, .. } && entrance_id == id
}

/// Whether the node is an entrance on the tile.
pub open spec fn is_on(n: Node, t: Tile) -> bool {
    n.kind matches NodeKind::Entrance { x, y, plane, .. } && x == t.x && y == t.y && plane == t.plane
}

/// Whether a row tells of an entrance with the id.
pub open spec fn is_told(rows: Seq<ClusterEntrance>, id: i64) -> bool {
    exists|i: int| 0 <= i < rows.len() && (#[trigger] rows[i]).entrance_id == id
}

/// Whether the edge is a connection inside a cluster, as the row tells it.
pub open spec fn is_intra(nodes: Seq<Node>, e: EdgeV, row: ClusterIntraConnection) -> bool {
    &&& e.from < nodes.len()
    &&& e.to < nodes.len()
    &&& is_entrance(nodes[e.from as int], row.entrance_from)
    &&& is_entrance(nodes[e.to as int], row.entrance_to)
    &&& e.cost == row.cost
    &&& e.kind matches EdgeKindV::Intra { path_blob } && match row.path_blob {
        Some(b) => path_blob == Some(b@),
        None => path_blob is None,
    }
}

/// Whether the edge is a connection between clusters, as the row tells it.
pub open spec fn is_inter(nodes: Seq<Node>, e: EdgeV, row: ClusterInterConnection) -> bool {
    &&& e.from < nodes.len()
    &&& e.to < nodes.len()
    &&& is_entrance(nodes[e.from as int], row.entrance_from)
    &&& is_entrance(nodes[e.to as int], row.entrance_to)
    &&& e.cost == row.cost
    &&& e.kind is Inter
}

/// Whether the node stands for an end of a teleport: for its entrance, where a row tells of it, and
/// else for an entrance with that id or for one on its tile.
pub open spec fn is_end(n: Node, told: Seq<ClusterEntrance>, entrance: Option<i64>, tile: Option<Tile>) -> bool {
    if entrance is Some && is_told(told, entrance->0) {
        is_entrance(n, entrance->0)
    } else {
        (entrance is Some && is_entrance(n, entrance->0)) || (tile is Some && is_on(n, tile->0))
    }
}

/// The tile that a teleport leads to.
pub open spec fn tile_to(row: AbstractTeleportEdge) -> Tile {
    Tile { x: row.dst_x as i32, y: row.dst_y as i32, plane: row.dst_plane as i32 }
}

/// The tile that a teleport leads from, where it names one.
pub open spec fn tile_from(row: AbstractTeleportEdge) -> Option<Tile> {
    if row.src_x is Some && row.src_y is Some && row.src_plane is Some {
        Some(Tile { x: row.src_x->0 as i32, y: row.src_y->0 as i32, plane: row.src_plane->0 as i32 })
    } else {
        None
    }
}

/// Whether the edge is the teleport that the row tells: it leads to its destination, from its source,
/// and from the start of the route where it has none.
pub open spec fn is_teleport(nodes: Seq<Node>, e: EdgeV, row: AbstractTeleportEdge, told: Seq<ClusterEntrance>) -> bool {
    &&& e.from < nodes.len()
    &&& e.to < nodes.len()
    &&& is_end(nodes[e.to as int], told, row.dst_entrance, Some(tile_to(row)))
    &&& is_end(nodes[e.from as int], told, row.src_entrance, tile_from(row)) || (e.from == told.len() && tile_from(
        row,
    ) is None && (row.src_entrance is Some ==> !is_told(told, row.src_entrance->0)))
    &&& e.cost == row.cost
    &&& e.kind matches EdgeKindV::Teleport { edge_id, requirement_id, kind, node_id } && edge_id == row.edge_id
        && requirement_id == row.requirement_id && kind == row.kind@ && node_id == row.node_id
}

/// Whether every condition with the id of the row's requirement is met.
pub open spec fn is_free(given: Seq<RequirementKV>, reqs: Seq<TeleportRequirement>, row: AbstractTeleportEdge) -> bool {
    row.requirement_id is Some ==> forall|i: int|
        0 <= i < reqs.len() && (#[trigger] reqs[i]).id == row.requirement_id->0 ==> condition_met(given, reqs[i])
}

pub open spec fn is_some_intra(nodes: Seq<Node>, rows: Seq<ClusterIntraConnection>, e: EdgeV) -> bool {
    exists|i: int| 0 <= i < rows.len() && is_intra(nodes, e, #[trigger] rows[i])
}

pub open spec fn is_some_inter(nodes: Seq<Node>, rows: Seq<ClusterInterConnection>, e: EdgeV) -> bool {
    exists|i: int| 0 <= i < rows.len() && is_inter(nodes, e, #[trigger] rows[i])
}

/// Whether the edge is a teleport of the rows that the caller may use.
pub open spec fn is_some_teleport(
    nodes: Seq<Node>,
    rows: Seq<AbstractTeleportEdge>,
    told: Seq<ClusterEntrance>,
    given: Seq<RequirementKV>,
    reqs: Seq<TeleportRequirement>,
    e: EdgeV,
) -> bool {
    exists|i: int|
        0 <= i < rows.len() && is_teleport(nodes, e, #[trigger] rows[i], told) && is_free(given, reqs, rows[i])
}

pub open spec fn has_intra(nodes: Seq<Node>, edges: Seq<EdgeV>, row: ClusterIntraConnection) -> bool {
    exists|j: int| 0 <= j < edges.len() && is_intra(nodes, #[trigger] edges[j], row)
}

pub open spec fn has_inter(nodes: Seq<Node>, edges: Seq<EdgeV>, row: ClusterInterConnection) -> bool {
    exists|j: int| 0 <= j < edges.len() && is_inter(nodes, #[trigger] edges[j], row)
}

/// Whether a teleport with the row's id leads between its ends.
pub open spec fn has_teleport(nodes: Seq<Node>, edges: Seq<EdgeV>, row: AbstractTeleportEdge, told: Seq<ClusterEntrance>) -> bool {
    exists|j: int|
        0 <= j < edges.len() && joins_ends(nodes, #[trigger] edges[j], row, told)
}

/// Whether the edge is a teleport with the row's id between the row's ends.
pub open spec fn joins_ends(nodes: Seq<Node>, e: EdgeV, row: AbstractTeleportEdge, told: Seq<ClusterEntrance>) -> bool {
    &&& e.from < nodes.len()
    &&& e.to < nodes.len()
    &&& is_end(nodes[e.to as int], told, row.dst_entrance, Some(tile_to(row)))
    &&& is_end(nodes[e.from as int], told, row.src_entrance, tile_from(row)) || (e.from == told.len() && tile_from(
        row,
    ) is None && (row.src_entrance is Some ==> !is_told(told, row.src_entrance->0)))
    &&& e.kind matches EdgeKindV::Teleport { edge_id, .. } && edge_id == row.edge_id
}

/// Whether what a draft knows of entrances and tiles is so.
spec fn is_right(d: Draft, told: Seq<ClusterEntrance>) -> bool {
    &&& d.nodes.len() <= usize::MAX
    &&& told.len() < d.nodes.len()
    &&& forall|e: i64| #[trigger] d.by_id.contains_key(e) ==> d.by_id[e] < d.nodes.len() && is_entrance(
        d.nodes[d.by_id[e] as int],
        e,
    )
    &&& forall|t: Tile|
        #![trigger tile_key(t)]
        d.by_tile.contains_key(tile_key(t)) ==> d.by_tile[tile_key(t)] < d.nodes.len() && is_on(
            d.nodes[d.by_tile[tile_key(t)] as int],
            t,
        )
    &&& forall|e: i64| is_told(told, e) ==> #[trigger] d.by_id.contains_key(e)
}

/// Whether `b` has the nodes and edges of `a`, and maybe more behind them.
spec fn is_more(a: Draft, b: Draft) -> bool {
    &&& a.nodes.len() <= b.nodes.len()
    &&& a.edges.len() <= b.edges.len()
    &&& forall|i: int| 0 <= i < a.nodes.len() ==> b.nodes[i] == #[trigger] a.nodes[i]
    &&& forall|j: int| 0 <= j < a.edges.len() ==> b.edges[j] == #[trigger] a.edges[j]
}

proof fn lemma_entrances(rows: Seq<ClusterEntrance>, order: Seq<usize>, k: int)
    requires
        0 <= k <= order.len(),
        order.len() <= usize::MAX,
        forall|i: int| 0 <= i < order.len() ==> #[trigger] order[i] < rows.len(),
    ensures
        ({
            let d = with_entrances(rows, order, k);
            &&& d.nodes.len() == k
            &&& d.edges.len() == 0
            &&& d.made.len() == 0
            &&& forall|e: i64| #[trigger] d.by_id.contains_key(e) ==> d.by_id[e] < k && is_entrance(
                d.nodes[d.by_id[e] as int],
                e,
            ) && is_told(rows, e)
            &&& forall|t: Tile|
                #![trigger tile_key(t)]
                d.by_tile.contains_key(tile_key(t)) ==> d.by_tile[tile_key(t)] < k && is_on(
                    d.nodes[d.by_tile[tile_key(t)] as int],
                    t,
                )
            &&& forall|i: int| 0 <= i < k ==> d.by_id.contains_key(rows[#[trigger] order[i] as int].entrance_id)
        }),
    decreases k,
{
    if k > 0 {
        lemma_entrances(rows, order, k - 1);
        let p = with_entrances(rows, order, k - 1);
        let d = with_entrances(rows, order, k);
        let e = rows[order[k - 1] as int];
        assert(d.nodes[k - 1] == entrance_node(e, k - 1));
        assert forall|t: Tile| #![trigger tile_key(t)] d.by_tile.contains_key(tile_key(t)) implies d.by_tile[tile_key(t)]
            < k && is_on(d.nodes[d.by_tile[tile_key(t)] as int], t) by {
            lemma_tile_key(t, entrance_tile(e));
        }
    }
}

proof fn lemma_intra(d: Draft, rows: Seq<ClusterIntraConnection>, order: Seq<usize>, k: int, told: Seq<ClusterEntrance>)
    requires
        is_right(d, told),
        0 <= k <= order.len(),
        forall|i: int| 0 <= i < order.len() ==> #[trigger] order[i] < rows.len(),
    ensures
        ({
            let r = with_intra(d, rows, order, k);
            &&& r == (Draft { edges: r.edges, ..d })
            &&& is_more(d, r)
            &&& forall|j: int| d.edges.len() <= j < r.edges.len() ==> is_some_intra(d.nodes, rows, #[trigger] r.edges[j])
            &&& forall|i: int|
                #![trigger order[i]]
                0 <= i < k && d.by_id.contains_key(rows[order[i] as int].entrance_from) && d.by_id.contains_key(
                    rows[order[i] as int].entrance_to,
                ) ==> has_intra(d.nodes, r.edges, rows[order[i] as int])
        }),
    decreases k,
{
    if k > 0 {
        lemma_intra(d, rows, order, k - 1, told);
        let p = with_intra(d, rows, order, k - 1);
        let r = with_intra(d, rows, order, k);
        let c = rows[order[k - 1] as int];
        if d.by_id.contains_key(c.entrance_from) && d.by_id.contains_key(c.entrance_to) {
            assert(is_intra(d.nodes, r.edges[p.edges.len() as int], c));
            assert(is_some_intra(d.nodes, rows, r.edges[p.edges.len() as int]));
        }
        assert forall|i: int|
            #![trigger order[i]]
            0 <= i < k && d.by_id.contains_key(rows[order[i] as int].entrance_from) && d.by_id.contains_key(
                rows[order[i] as int].entrance_to,
            ) implies has_intra(d.nodes, r.edges, rows[order[i] as int]) by {
            if i < k - 1 {
                let j = choose|j: int| 0 <= j < p.edges.len() && is_intra(d.nodes, #[trigger] p.edges[j], rows[order[i] as int]);
                assert(r.edges[j] == p.edges[j]);
            }
        }
    }
}

proof fn lemma_inter(d: Draft, rows: Seq<ClusterInterConnection>, order: Seq<usize>, k: int, told: Seq<ClusterEntrance>)
    requires
        is_right(d, told),
        0 <= k <= order.len(),
        forall|i: int| 0 <= i < order.len() ==> #[trigger] order[i] < rows.len(),
    ensures
        ({
            let r = with_inter(d, rows, order, k);
            &&& r == (Draft { edges: r.edges, ..d })
            &&& is_more(d, r)
            &&& forall|j: int| d.edges.len() <= j < r.edges.len() ==> is_some_inter(d.nodes, rows, #[trigger] r.edges[j])
            &&& forall|i: int|
                #![trigger order[i]]
                0 <= i < k && d.by_id.contains_key(rows[order[i] as int].entrance_from) && d.by_id.contains_key(
                    rows[order[i] as int].entrance_to,
                ) ==> has_inter(d.nodes, r.edges, rows[order[i] as int])
        }),
    decreases k,
{
    if k > 0 {
        lemma_inter(d, rows, order, k - 1, told);
        let p = with_inter(d, rows, order, k - 1);
        let r = with_inter(d, rows, order, k);
        let c = rows[order[k - 1] as int];
        if d.by_id.contains_key(c.entrance_from) && d.by_id.contains_key(c.entrance_to) {
            assert(is_inter(d.nodes, r.edges[p.edges.len() as int], c));
            assert(is_some_inter(d.nodes, rows, r.edges[p.edges.len() as int]));
        }
        assert forall|i: int|
            #![trigger order[i]]
            0 <= i < k && d.by_id.contains_key(rows[order[i] as int].entrance_from) && d.by_id.contains_key(
                rows[order[i] as int].entrance_to,
            ) implies has_inter(d.nodes, r.edges, rows[order[i] as int]) by {
            if i < k - 1 {
                let j = choose|j: int| 0 <= j < p.edges.len() && is_inter(d.nodes, #[trigger] p.edges[j], rows[order[i] as int]);
                assert(r.edges[j] == p.edges[j]);
            }
        }
    }
}

proof fn lemma_tile(d: Draft, t: Tile, tiles: ClusterTiles, told: Seq<ClusterEntrance>)
    requires
        is_right(d, told),
        with_tile(d, t, tiles).nodes.len() <= usize::MAX,
    ensures
        is_right(with_tile(d, t, tiles), told),
        is_more(d, with_tile(d, t, tiles)),
        node_at(with_tile(d, t, tiles), t) < with_tile(d, t, tiles).nodes.len(),
        is_on(with_tile(d, t, tiles).nodes[node_at(with_tile(d, t, tiles), t) as int], t),
        with_tile(d, t, tiles).edges == d.edges,
        with_tile(d, t, tiles).made == d.made,
{
    let r = with_tile(d, t, tiles);
    if !d.by_tile.contains_key(tile_key(t)) {
        assert forall|u: Tile| #![trigger tile_key(u)] r.by_tile.contains_key(tile_key(u)) implies r.by_tile[tile_key(u)]
            < r.nodes.len() && is_on(r.nodes[r.by_tile[tile_key(u)] as int], u) by {
            lemma_tile_key(u, t);
        }
    }
}

/// Whether every teleport that a draft has made stands among its edges.
spec fn all_made(d: Draft) -> bool {
    forall|m: (usize, usize, i64)| #[trigger] d.made.contains(m) ==> is_made(d, m)
}

spec fn is_made(d: Draft, m: (usize, usize, i64)) -> bool {
    exists|j: int|
        0 <= j < d.edges.len() && (#[trigger] d.edges[j]).from == m.0 && d.edges[j].to == m.1 && (d.edges[j].kind matches EdgeKindV::Teleport {
            edge_id,
            ..
        } && edge_id == m.2)
}

proof fn lemma_edge(d: Draft, from: usize, to: usize, t: AbstractTeleportEdge)
    requires
        all_made(d),
    ensures
        all_made(with_edge(d, from, to, t)),
        is_made(with_edge(d, from, to, t), (from, to, t.edge_id)),
{
    let r = with_edge(d, from, to, t);
    if !d.made.contains((from, to, t.edge_id)) {
        assert(r.edges[d.edges.len() as int].from == from);
        assert(is_made(r, (from, to, t.edge_id)));
        assert forall|m: (usize, usize, i64)| #[trigger] r.made.contains(m) implies is_made(r, m) by {
            let x = choose|x: int| 0 <= x < r.made.len() && r.made[x] == m;
            if x < d.made.len() {
                assert(d.made[x] == m);
                assert(d.made.contains(m));
                let j = choose|j: int|
                    0 <= j < d.edges.len() && (#[trigger] d.edges[j]).from == m.0 && d.edges[j].to == m.1 && (
                    d.edges[j].kind matches EdgeKindV::Teleport { edge_id, .. } && edge_id == m.2);
                assert(r.edges[j] == d.edges[j]);
            }
        }
    }
}

/// What an edge is stays so where nodes are added.
proof fn lemma_stays(a: Seq<Node>, b: Seq<Node>, e: EdgeV, row: AbstractTeleportEdge, told: Seq<ClusterEntrance>)
    requires
        a.len() <= b.len(),
        forall|i: int| 0 <= i < a.len() ==> b[i] == #[trigger] a[i],
    ensures
        is_teleport(a, e, row, told) ==> is_teleport(b, e, row, told),
        joins_ends(a, e, row, told) ==> joins_ends(b, e, row, told),
{
    if e.from < a.len() && e.to < a.len() {
        assert(b[e.from as int] == a[e.from as int]);
        assert(b[e.to as int] == a[e.to as int]);
    }
}

proof fn lemma_teleport(d: Draft, t: AbstractTeleportEdge, ok: bool, tiles: ClusterTiles, told: Seq<ClusterEntrance>)
    requires
        is_right(d, told),
        all_made(d),
        with_teleport(d, t, ok, tiles, told.len() as usize).nodes.len() <= usize::MAX,
    ensures
        ({
            let r = with_teleport(d, t, ok, tiles, told.len() as usize);
            &&& is_right(r, told)
            &&& all_made(r)
            &&& is_more(d, r)
            &&& r.edges.len() <= d.edges.len() + 1
            &&& r.edges.len() > d.edges.len() ==> ok && is_teleport(r.nodes, r.edges.last(), t, told)
            &&& ok ==> has_teleport(r.nodes, r.edges, t, told)
        }),
{
    let start = told.len() as usize;
    let r = with_teleport(d, t, ok, tiles, start);
    let d1 = with_destination(d, t, tiles);
    let to = destination(d, t, tiles);
    let d2 = with_source(d1, t, tiles);
    let from = source(d1, t, tiles, start);
    assert(d1.nodes.len() <= d2.nodes.len() == r.nodes.len());
    if known_node(d, t.dst_entrance) is None {
        lemma_tile(d, dst_tile(t), tiles, told);
    }
    assert(to < d1.nodes.len() && is_end(d1.nodes[to as int], told, t.dst_entrance, Some(tile_to(t))));
    if known_node(d1, t.src_entrance) is None && src_tile(t) is Some {
        lemma_tile(d1, src_tile(t)->0, tiles, told);
    }
    assert(src_tile(t) == tile_from(t));
    assert(d2.nodes[to as int] == d1.nodes[to as int]);
    assert(d2.edges == d.edges && d2.made == d.made);
    assert(all_made(d2)) by {
        assert forall|m: (usize, usize, i64)| #[trigger] d2.made.contains(m) implies is_made(d2, m) by {
            assert(is_made(d, m));
        }
    }
    assert(is_end(d2.nodes[from as int], told, t.src_entrance, tile_from(t)) || (from == told.len() && tile_from(t) is None && (
    t.src_entrance is Some ==> !is_told(told, t.src_entrance->0))));
    if ok {
        lemma_edge(d2, from, to, t);
        let j = choose|j: int|
            0 <= j < r.edges.len() && (#[trigger] r.edges[j]).from == from && r.edges[j].to == to && (
            r.edges[j].kind matches EdgeKindV::Teleport { edge_id, .. } && edge_id == t.edge_id);
        assert(joins_ends(r.nodes, r.edges[j], t, told));
    }
}

proof fn lemma_teleports(
    d: Draft,
    rows: Seq<AbstractTeleportEdge>,
    order: Seq<usize>,
    given: Seq<RequirementKV>,
    reqs: Seq<TeleportRequirement>,
    tiles: ClusterTiles,
    told: Seq<ClusterEntrance>,
    k: int,
)
    requires
        is_right(d, told),
        all_made(d),
        0 <= k <= order.len(),
        forall|i: int| 0 <= i < order.len() ==> #[trigger] order[i] < rows.len(),
        with_teleports(d, rows, order, given, reqs, tiles, told.len() as usize, k).nodes.len() <= usize::MAX,
    ensures
        ({
            let r = with_teleports(d, rows, order, given, reqs, tiles, told.len() as usize, k);
            &&& is_right(r, told)
            &&& all_made(r)
            &&& is_more(d, r)
            &&& forall|j: int|
                d.edges.len() <= j < r.edges.len() ==> is_some_teleport(r.nodes, rows, told, given, reqs, #[trigger] r.edges[j])
            &&& forall|i: int|
                #![trigger order[i]]
                0 <= i < k && is_free(given, reqs, rows[order[i] as int]) ==> has_teleport(
                    r.nodes,
                    r.edges,
                    rows[order[i] as int],
                    told,
                )
        }),
    decreases k,
{
    if k > 0 {
        let start = told.len() as usize;
        let p = with_teleports(d, rows, order, given, reqs, tiles, start, k - 1);
        let r = with_teleports(d, rows, order, given, reqs, tiles, start, k);
        let t = rows[order[k - 1] as int];
        let ok = teleport_allowed(given, reqs, t.requirement_id);
        assert(p.nodes.len() <= with_destination(p, t, tiles).nodes.len());
        assert(with_destination(p, t, tiles).nodes.len() <= with_source(with_destination(p, t, tiles), t, tiles).nodes.len());
        lemma_teleports(d, rows, order, given, reqs, tiles, told, k - 1);
        lemma_teleport(p, t, ok, tiles, told);
        assert(is_free(given, reqs, t) == ok);
        assert forall|j: int| d.edges.len() <= j < r.edges.len() implies is_some_teleport(
            r.nodes,
            rows,
            told,
            given,
            reqs,
            #[trigger] r.edges[j],
        ) by {
            if j < p.edges.len() {
                assert(r.edges[j] == p.edges[j]);
                let i = choose|i: int|
                    0 <= i < rows.len() && is_teleport(p.nodes, p.edges[j], #[trigger] rows[i], told) && is_free(
                        given,
                        reqs,
                        rows[i],
                    );
                lemma_stays(p.nodes, r.nodes, p.edges[j], rows[i], told);
                assert(is_teleport(r.nodes, r.edges[j], rows[i], told));
            } else {
                assert(is_teleport(r.nodes, r.edges[j], rows[order[k - 1] as int], told));
            }
        }
        assert forall|i: int| #![trigger order[i]] 0 <= i < k && is_free(given, reqs, rows[order[i] as int]) implies has_teleport(
            r.nodes,
            r.edges,
            rows[order[i] as int],
            told,
        ) by {
            if i < k - 1 {
                let row = rows[order[i] as int];
                let j = choose|j: int| 0 <= j < p.edges.len() && joins_ends(p.nodes, #[trigger] p.edges[j], row, told);
                lemma_stays(p.nodes, r.nodes, p.edges[j], row, told);
                assert(r.edges[j] == p.edges[j]);
            }
        }
    }
}

/// The edges of a graph are those of its rows: each is a connection inside a cluster or between
/// clusters whose two entrances are known, or a teleport whose conditions the caller meets; and each of
/// these rows has its edge.
pub proof fn law_edges_are_those_of_the_rows(inputs: GraphInputs, given: Seq<RequirementKV>, o: BuildOptions, tiles: ClusterTiles)
    requires
        graph_draft(inputs, given, o, tiles).nodes.len() <= usize::MAX,
        inputs.intra@.len() <= usize::MAX,
        inputs.inter@.len() <= usize::MAX,
        inputs.teleports@.len() <= usize::MAX,
    ensures
        ({
            let g = graph_draft(inputs, given, o, tiles);
            let told = inputs.entrances@;
            &&& forall|j: int|
                #![trigger g.edges[j]]
                0 <= j < g.edges.len() ==> is_some_intra(g.nodes, inputs.intra@, g.edges[j]) || is_some_inter(
                    g.nodes,
                    inputs.inter@,
                    g.edges[j],
                ) || is_some_teleport(g.nodes, inputs.teleports@, told, given, inputs.teleport_requirements@, g.edges[j])
            &&& forall|i: int|
                #![trigger inputs.intra@[i]]
                0 <= i < inputs.intra@.len() && is_told(told, inputs.intra@[i].entrance_from) && is_told(
                    told,
                    inputs.intra@[i].entrance_to,
                ) ==> has_intra(g.nodes, g.edges, inputs.intra@[i])
            &&& forall|i: int|
                #![trigger inputs.inter@[i]]
                0 <= i < inputs.inter@.len() && is_told(told, inputs.inter@[i].entrance_from) && is_told(
                    told,
                    inputs.inter@[i].entrance_to,
                ) ==> has_inter(g.nodes, g.edges, inputs.inter@[i])
            &&& forall|i: int|
                #![trigger inputs.teleports@[i]]
                0 <= i < inputs.teleports@.len() && is_free(given, inputs.teleport_requirements@, inputs.teleports@[i])
                    ==> has_teleport(g.nodes, g.edges, inputs.teleports@[i], told)
        }),
{
    let told = inputs.entrances@;
    let reqs = inputs.teleport_requirements@;
    let (ra, ri, rt) = (inputs.intra@, inputs.inter@, inputs.teleports@);
    let (oa, oi, ot) = (intra_order(ra), inter_order(ri), teleport_order(rt));
    let g = graph_draft(inputs, given, o, tiles);
    crate::planner::graph::law_graph_is_sound(inputs, given, o, tiles);
    lemma_sorted_positions(entrance_keys(told));
    lemma_sorted_positions(intra_keys(ra));
    lemma_sorted_positions(inter_keys(ri));
    lemma_sorted_positions(teleport_keys(rt));
    let oe = entrance_order(told);
    let dn = with_entrances(told, oe, told.len() as int);
    lemma_entrances(told, oe, told.len() as int);
    let d0 = with_ends(dn, o);
    assert(is_right(d0, told)) by {
        assert forall|e: i64| is_told(told, e) implies #[trigger] d0.by_id.contains_key(e) by {
            let i = choose|i: int| 0 <= i < told.len() && (#[trigger] told[i]).entrance_id == e;
            assert(oe.contains(i as usize));
            let x = choose|x: int| 0 <= x < oe.len() && oe[x] == i as usize;
            assert(dn.by_id.contains_key(told[oe[x] as int].entrance_id));
        }
        assert forall|e: i64| #[trigger] d0.by_id.contains_key(e) implies d0.by_id[e] < d0.nodes.len() && is_entrance(
            d0.nodes[d0.by_id[e] as int],
            e,
        ) by {
            assert(d0.nodes[dn.by_id[e] as int] == dn.nodes[dn.by_id[e] as int]);
        }
        assert forall|t: Tile| #![trigger tile_key(t)] d0.by_tile.contains_key(tile_key(t)) implies d0.by_tile[tile_key(t)]
            < d0.nodes.len() && is_on(d0.nodes[d0.by_tile[tile_key(t)] as int], t) by {
            assert(d0.nodes[dn.by_tile[tile_key(t)] as int] == dn.nodes[dn.by_tile[tile_key(t)] as int]);
        }
    }
    let d1 = with_intra(d0, ra, oa, ra.len() as int);
    lemma_intra(d0, ra, oa, ra.len() as int, told);
    assert(is_right(d1, told));
    let d2 = with_inter(d1, ri, oi, ri.len() as int);
    lemma_inter(d1, ri, oi, ri.len() as int, told);
    assert(is_right(d2, told));
    assert(d2 == base_draft(inputs, o));
    assert(all_made(d2));
    lemma_teleports(d2, rt, ot, given, reqs, tiles, told, rt.len() as int);
    lemma_sides(d2, g, ra, ri);
    assert forall|j: int| #![trigger g.edges[j]] 0 <= j < g.edges.len() implies is_some_intra(g.nodes, ra, g.edges[j])
        || is_some_inter(g.nodes, ri, g.edges[j]) || is_some_teleport(g.nodes, rt, told, given, reqs, g.edges[j]) by {
        if j < d2.edges.len() {
            assert(g.edges[j] == d2.edges[j]);
            if j < d1.edges.len() {
                assert(d2.edges[j] == d1.edges[j]);
                assert(is_some_intra(d2.nodes, ra, d1.edges[j]));
            } else {
                assert(is_some_inter(d2.nodes, ri, d2.edges[j]));
            }
        }
    }
    assert forall|i: int| #![trigger ra[i]] 0 <= i < ra.len() && is_told(told, ra[i].entrance_from) && is_told(
        told,
        ra[i].entrance_to,
    ) implies has_intra(g.nodes, g.edges, ra[i]) by {
        assert(oa.contains(i as usize));
        let x = choose|x: int| 0 <= x < oa.len() && oa[x] == i as usize;
        assert(has_intra(d0.nodes, d1.edges, ra[oa[x] as int]));
        let j = choose|j: int| 0 <= j < d1.edges.len() && is_intra(d0.nodes, #[trigger] d1.edges[j], ra[i]);
        assert(d2.edges[j] == d1.edges[j]);
        assert(is_intra(d2.nodes, d2.edges[j], ra[i]));
        assert(has_intra(d2.nodes, d2.edges, ra[i]));
    }
    assert forall|i: int| #![trigger ri[i]] 0 <= i < ri.len() && is_told(told, ri[i].entrance_from) && is_told(
        told,
        ri[i].entrance_to,
    ) implies has_inter(g.nodes, g.edges, ri[i]) by {
        assert(oi.contains(i as usize));
        let x = choose|x: int| 0 <= x < oi.len() && oi[x] == i as usize;
        assert(has_inter(d1.nodes, d2.edges, ri[oi[x] as int]));
    }
    assert forall|i: int| #![trigger rt[i]] 0 <= i < rt.len() && is_free(given, reqs, rt[i]) implies has_teleport(
        g.nodes,
        g.edges,
        rt[i],
        told,
    ) by {
        assert(ot.contains(i as usize));
        let x = choose|x: int| 0 <= x < ot.len() && ot[x] == i as usize;
        assert(has_teleport(g.nodes, g.edges, rt[ot[x] as int], told));
    }
}

/// What an edge is and what rows have stays so in a draft with more.
proof fn lemma_sides(a: Draft, b: Draft, ra: Seq<ClusterIntraConnection>, ri: Seq<ClusterInterConnection>)
    requires
        is_more(a, b),
    ensures
        forall|e: EdgeV| #[trigger] is_some_intra(a.nodes, ra, e) ==> is_some_intra(b.nodes, ra, e),
        forall|e: EdgeV| #[trigger] is_some_inter(a.nodes, ri, e) ==> is_some_inter(b.nodes, ri, e),
        forall|r: ClusterIntraConnection| #[trigger] has_intra(a.nodes, a.edges, r) ==> has_intra(b.nodes, b.edges, r),
        forall|r: ClusterInterConnection| #[trigger] has_inter(a.nodes, a.edges, r) ==> has_inter(b.nodes, b.edges, r),
{
    assert forall|e: EdgeV, r: ClusterIntraConnection| #[trigger] is_intra(a.nodes, e, r) implies is_intra(b.nodes, e, r) by {
        assert(b.nodes[e.from as int] == a.nodes[e.from as int]);
        assert(b.nodes[e.to as int] == a.nodes[e.to as int]);
    }
    assert forall|e: EdgeV, r: ClusterInterConnection| #[trigger] is_inter(a.nodes, e, r) implies is_inter(b.nodes, e, r) by {
        assert(b.nodes[e.from as int] == a.nodes[e.from as int]);
        assert(b.nodes[e.to as int] == a.nodes[e.to as int]);
    }
    assert forall|e: EdgeV| #[trigger] is_some_intra(a.nodes, ra, e) implies is_some_intra(b.nodes, ra, e) by {
        let i = choose|i: int| 0 <= i < ra.len() && is_intra(a.nodes, e, #[trigger] ra[i]);
        assert(is_intra(b.nodes, e, ra[i]));
    }
    assert forall|e: EdgeV| #[trigger] is_some_inter(a.nodes, ri, e) implies is_some_inter(b.nodes, ri, e) by {
        let i = choose|i: int| 0 <= i < ri.len() && is_inter(a.nodes, e, #[trigger] ri[i]);
        assert(is_inter(b.nodes, e, ri[i]));
    }
    assert forall|r: ClusterIntraConnection| #[trigger] has_intra(a.nodes, a.edges, r) implies has_intra(b.nodes, b.edges, r) by {
        let j = choose|j: int| 0 <= j < a.edges.len() && is_intra(a.nodes, #[trigger] a.edges[j], r);
        assert(b.edges[j] == a.edges[j]);
        assert(is_intra(b.nodes, b.edges[j], r));
    }
    assert forall|r: ClusterInterConnection| #[trigger] has_inter(a.nodes, a.edges, r) implies has_inter(b.nodes, b.edges, r) by {
        let j = choose|j: int| 0 <= j < a.edges.len() && is_inter(a.nodes, #[trigger] a.edges[j], r);
        assert(b.edges[j] == a.edges[j]);
        assert(is_inter(b.nodes, b.edges[j], r));
    }
}

/// Whether the node is the one that was added as number `n` for an end of a teleport that no entrance stands
/// for: ids count down from -1, and it belongs to a cluster that has its tile, or to -1.
pub open spec fn is_added(node: Node, n: int, tiles: ClusterTiles) -> bool {
    node.kind matches NodeKind::Entrance { entrance_id, cluster_id, x, y, plane } && entrance_id == -1 - n && {
        ||| tiles.has(cluster_id, Tile { x, y, plane })
        ||| cluster_id == -1 && forall|c: i64| !#[trigger] tiles.has(c, Tile { x, y, plane })
    }
}

/// Whether everything in a draft from node `base` on was added so, and the next would be too.
spec fn adds_well(d: Draft, base: int, tiles: ClusterTiles) -> bool {
    &&& 0 <= base <= d.nodes.len()
    &&& d.next_id == -1 - (d.nodes.len() - base)
    &&& forall|i: int| base <= i < d.nodes.len() ==> is_added(#[trigger] d.nodes[i], i - base, tiles)
}

proof fn lemma_adds_tile(d: Draft, t: Tile, base: int, tiles: ClusterTiles)
    requires
        tiles.wf(),
        adds_well(d, base, tiles),
        d.nodes.len() - base < 0x7fff_ffff_ffff_ffff,
    ensures
        adds_well(with_tile(d, t, tiles), base, tiles),
        with_tile(d, t, tiles).nodes.len() <= d.nodes.len() + 1,
{
    tiles.law_tiles_count_to_their_clusters(t);
    let r = with_tile(d, t, tiles);
    if !d.by_tile.contains_key(tile_key(t)) {
        let n = d.nodes.len() as int;
        assert(is_added(r.nodes[n], n - base, tiles));
        assert forall|i: int| base <= i < r.nodes.len() implies is_added(#[trigger] r.nodes[i], i - base, tiles) by {
            if i < n {
                assert(r.nodes[i] == d.nodes[i]);
            }
        }
    }
}

proof fn lemma_adds(
    d: Draft,
    rows: Seq<AbstractTeleportEdge>,
    order: Seq<usize>,
    given: Seq<RequirementKV>,
    reqs: Seq<TeleportRequirement>,
    tiles: ClusterTiles,
    start: usize,
    k: int,
)
    requires
        tiles.wf(),
        d.next_id == -1,
        0 <= k < 0x2000_0000_0000_0000,
    ensures
        ({
            let r = with_teleports(d, rows, order, given, reqs, tiles, start, k);
            adds_well(r, d.nodes.len() as int, tiles) && r.nodes.len() <= d.nodes.len() + 2 * k
        }),
    decreases k,
{
    if k > 0 {
        let base = d.nodes.len() as int;
        lemma_adds(d, rows, order, given, reqs, tiles, start, k - 1);
        let p = with_teleports(d, rows, order, given, reqs, tiles, start, k - 1);
        let t = rows[order[k - 1] as int];
        let d1 = with_destination(p, t, tiles);
        lemma_adds_tile(p, dst_tile(t), base, tiles);
        if src_tile(t) is Some {
            lemma_adds_tile(d1, src_tile(t)->0, base, tiles);
        }
        assert(adds_well(d1, base, tiles));
        assert(adds_well(with_source(d1, t, tiles), base, tiles));
    }
}

/// After the entrances of the rows and the two ends of the route a graph has only nodes that were added for
/// the ends of teleports.
pub proof fn law_added_nodes(inputs: GraphInputs, given: Seq<RequirementKV>, o: BuildOptions, tiles: ClusterTiles, i: int)
    requires
        tiles.wf(),
        inputs.teleports@.len() < 0x2000_0000_0000_0000,
        inputs.entrances@.len() < usize::MAX - 1,
        inputs.entrances@.len() + 2 <= i < graph_draft(inputs, given, o, tiles).nodes.len(),
    ensures
        is_added(graph_draft(inputs, given, o, tiles).nodes[i], i - inputs.entrances@.len() - 2, tiles),
{
    let told = inputs.entrances@;
    let oe = entrance_order(told);
    lemma_sorted_positions(entrance_keys(told));
    lemma_entrances(told, oe, told.len() as int);
    lemma_next_id(told, oe, told.len() as int);
    let d0 = with_ends(with_entrances(told, oe, told.len() as int), o);
    lemma_intra_next(d0, inputs.intra@, intra_order(inputs.intra@), inputs.intra@.len() as int);
    let d1 = with_intra(d0, inputs.intra@, intra_order(inputs.intra@), inputs.intra@.len() as int);
    lemma_inter_next(d1, inputs.inter@, inter_order(inputs.inter@), inputs.inter@.len() as int);
    lemma_adds(
        base_draft(inputs, o),
        inputs.teleports@,
        teleport_order(inputs.teleports@),
        given,
        inputs.teleport_requirements@,
        tiles,
        told.len() as usize,
        inputs.teleports@.len() as int,
    );
}

proof fn lemma_next_id(rows: Seq<ClusterEntrance>, order: Seq<usize>, k: int)
    ensures
        with_entrances(rows, order, k).next_id == -1,
    decreases k,
{
    if k > 0 {
        lemma_next_id(rows, order, k - 1);
    }
}

proof fn lemma_intra_next(d: Draft, rows: Seq<ClusterIntraConnection>, order: Seq<usize>, k: int)
    ensures
        with_intra(d, rows, order, k).next_id == d.next_id,
        with_intra(d, rows, order, k).nodes == d.nodes,
    decreases k,
{
    if k > 0 {
        lemma_intra_next(d, rows, order, k - 1);
    }
}

proof fn lemma_inter_next(d: Draft, rows: Seq<ClusterInterConnection>, order: Seq<usize>, k: int)
    ensures
        with_inter(d, rows, order, k).next_id == d.next_id,
        with_inter(d, rows, order, k).nodes == d.nodes,
    decreases k,
{
    if k > 0 {
        lemma_inter_next(d, rows, order, k - 1);
    }
}

/// The entrances of a graph stand in the order of their ids.
pub proof fn law_entrances_ascend(inputs: GraphInputs, given: Seq<RequirementKV>, o: BuildOptions, tiles: ClusterTiles, i: int, j: int)
    requires
        graph_draft(inputs, given, o, tiles).nodes.len() <= usize::MAX,
        0 <= i < j < inputs.entrances@.len(),
    ensures
        ({
            let nodes = graph_draft(inputs, given, o, tiles).nodes;
            &&& nodes[i].kind is Entrance
            &&& nodes[j].kind is Entrance
            &&& nodes[i].kind->entrance_id <= nodes[j].kind->entrance_id
            &&& nodes[i].id.0 == i
        }),
{
    let told = inputs.entrances@;
    let keys = entrance_keys(told);
    crate::planner::graph::law_graph_is_sound(inputs, given, o, tiles);
    lemma_sorted_positions(keys);
    let order = entrance_order(told);
    crate::sort::law_keys_ascend(keys, order, i, j);
    let nodes = graph_draft(inputs, given, o, tiles).nodes;
    assert(nodes[i] == entrance_node(told[order[i] as int], i));
    assert(nodes[j] == entrance_node(told[order[j] as int], j));
}

}
