//! What holds of the tiles and actions of a plan, hop by hop.

use vstd::prelude::*;
#[allow(unused_imports)]
use crate::json::{member, parsed_json, JsonV};
#[allow(unused_imports)]
use crate::models::Tile;
#[allow(unused_imports)]
use crate::planner::graph::{EdgeKindV, EdgeV, Node, NodeKind};
#[allow(unused_imports)]
use crate::planner::high_level::{must_cross, micro_path};
#[allow(unused_imports)]
use crate::planner::hpa::{
    closed_off, first_edge, hop_actions, hopped, joined, rebuilt, reconstructed, stored_path, teleport_action, tile_of,
    walked,
};
#[allow(unused_imports)]
use crate::planner::micro_astar::{is_path, steps_apart};
#[allow(unused_imports)]
use crate::planner::path_blob::json_path;
#[allow(unused_imports)]
use crate::planner::tiles::ClusterTiles;

verus! {

/// Whether the edge at place `x` is the first that leads from `a` to `b`.
pub open spec fn is_first(edges: Seq<EdgeV>, a: usize, b: usize, x: int) -> bool {
    &&& 0 <= x < edges.len()
    &&& edges[x].from == a && edges[x].to == b
    &&& forall|y: int| 0 <= y < x ==> (#[trigger] edges[y]).from != a || edges[y].to != b
}

/// Whether no edge leads from `a` to `b`.
pub open spec fn is_unlinked(edges: Seq<EdgeV>, a: usize, b: usize) -> bool {
    forall|y: int| 0 <= y < edges.len() ==> (#[trigger] edges[y]).from != a || edges[y].to != b
}

/// Whether a stored blob spells the path.
pub open spec fn spells(blob: Option<Seq<u8>>, pts: Seq<Tile>) -> bool {
    blob is Some && parsed_json(blob->0) is Some && json_path(parsed_json(blob->0)->0) == Some(pts)
}

/// Whether a stored blob spells some path.
pub open spec fn is_spelled(blob: Option<Seq<u8>>) -> bool {
    blob is Some && parsed_json(blob->0) is Some && json_path(parsed_json(blob->0)->0) is Some
}

/// The tile that a node stands on.
pub open spec fn stands_on(n: Node, t: Tile) -> bool {
    match n.kind {
        NodeKind::Entrance { x, y, plane, .. } => t.x == x && t.y == y && t.plane == plane,
        NodeKind::VirtualStart(s) => t == s,
        NodeKind::VirtualEnd(e) => t == e,
    }
}

/// Whether one of the two nodes is an entrance of the cluster: the first, or the second where the first
/// is no entrance.
pub open spec fn is_between(na: Node, nb: Node, c: i64) -> bool {
    match na.kind {
        NodeKind::Entrance { cluster_id, .. } => cluster_id == c,
        _ => match nb.kind {
            NodeKind::Entrance { cluster_id, .. } => cluster_id == c,
            _ => false,
        },
    }
}

/// Whether neither of the two nodes is an entrance.
pub open spec fn no_entrance(na: Node, nb: Node) -> bool {
    !(na.kind is Entrance) && !(nb.kind is Entrance)
}

/// Whether the tiles are a walk inside the cluster of the nodes from the one to the other, or the tile
/// of the second alone where there is no cluster or no such walk.
pub open spec fn is_walked<F: Fn(i32, i32, i32) -> bool>(tiles: ClusterTiles, walk: F, na: Node, nb: Node, piece: Seq<Tile>) -> bool {
    ||| no_entrance(na, nb) && piece.len() == 1 && stands_on(nb, piece[0])
    ||| exists|c: i64, p: Option<Seq<Tile>>|
        is_between(na, nb, c) && (#[trigger] micro_path(tiles, c, walk, tile_of(na), tile_of(nb), p)) && match p {
            Some(pts) => piece == pts,
            None => piece.len() == 1 && stands_on(nb, piece[0]),
        }
}

/// Whether the tiles are those of the hop from node `a` to node `b`: the stored path of the connection
/// inside a cluster, where it has one that can be read; the tile of the second node after a connection
/// between clusters or a teleport; else a walk.
pub open spec fn is_piece<F: Fn(i32, i32, i32) -> bool>(
    nodes: Seq<Node>,
    edges: Seq<EdgeV>,
    tiles: ClusterTiles,
    walk: F,
    a: usize,
    b: usize,
    piece: Seq<Tile>,
) -> bool {
    &&& forall|x: int|
        is_first(edges, a, b, x) ==> match (#[trigger] edges[x]).kind {
            EdgeKindV::Intra { path_blob } => spells(path_blob, piece) || (!is_spelled(path_blob) && is_walked(
                tiles,
                walk,
                nodes[a as int],
                nodes[b as int],
                piece,
            )),
            _ => piece.len() == 1 && stands_on(nodes[b as int], piece[0]),
        }
    &&& is_unlinked(edges, a, b) ==> is_walked(tiles, walk, nodes[a as int], nodes[b as int], piece)
}

proof fn lemma_first_edge(edges: Seq<EdgeV>, a: usize, b: usize, i: int)
    requires
        0 <= i <= edges.len(),
        forall|y: int| 0 <= y < i ==> (#[trigger] edges[y]).from != a || edges[y].to != b,
    ensures
        match first_edge(edges, a, b, i) {
            Some(e) => exists|x: int| #[trigger] is_first(edges, a, b, x) && edges[x] == e,
            None => is_unlinked(edges, a, b),
        },
    decreases edges.len() - i,
{
    if i < edges.len() {
        if edges[i].from == a && edges[i].to == b {
            assert(is_first(edges, a, b, i));
        } else {
            lemma_first_edge(edges, a, b, i + 1);
        }
    }
}

proof fn lemma_one_first(edges: Seq<EdgeV>, a: usize, b: usize, x: int, y: int)
    requires
        is_first(edges, a, b, x),
        is_first(edges, a, b, y),
    ensures
        x == y,
{
    if x < y {
        assert(edges[x].from != a || edges[x].to != b);
    }
    if y < x {
        assert(edges[y].from != a || edges[y].to != b);
    }
}

/// The tiles that a hop puts behind those before it: all of its own, the first of them only where it is
/// not there already.
proof fn lemma_piece<F: Fn(i32, i32, i32) -> bool>(
    nodes: Seq<Node>,
    edges: Seq<EdgeV>,
    tiles: ClusterTiles,
    walk: F,
    acc: Seq<Tile>,
    a: usize,
    b: usize,
    out: Seq<Tile>,
) -> (piece: Seq<Tile>)
    requires
        hopped(nodes, edges, tiles, walk, acc, a, b, out),
    ensures
        is_piece(nodes, edges, tiles, walk, a, b, piece),
        out == acc + piece || (acc.len() > 0 && piece.len() > 0 && acc.last() == piece[0] && out == acc + piece.skip(1)),
{
    let (na, nb) = (nodes[a as int], nodes[b as int]);
    let (ta, tb) = (tile_of(na), tile_of(nb));
    lemma_first_edge(edges, a, b, 0);
    let lone = seq![tb];
    assert(stands_on(nb, lone[0]));
    assert(acc.push(tb) =~= acc + lone);
    let by_walk = match first_edge(edges, a, b, 0) {
        Some(e) => match e.kind {
            EdgeKindV::Intra { path_blob } => stored_path(path_blob) is None,
            _ => false,
        },
        None => true,
    };
    let piece = if by_walk {
        let cluster = crate::planner::hpa::cluster_of_either(na, nb);
        match cluster {
            Some(c) => {
                let p = choose|p: Option<Seq<Tile>>| #[trigger]
                    micro_path(tiles, c, walk, ta, tb, p) && out == match p {
                        Some(pts) => joined(acc, pts),
                        None => acc.push(tb),
                    };
                assert(is_between(na, nb, c));
                let piece = match p {
                    Some(pts) => pts,
                    None => lone,
                };
                assert(is_walked(tiles, walk, na, nb, piece));
                piece
            },
            None => {
                assert(is_walked(tiles, walk, na, nb, lone));
                lone
            },
        }
    } else {
        match first_edge(edges, a, b, 0) {
            Some(e) => match e.kind {
                EdgeKindV::Intra { path_blob } => stored_path(path_blob)->0,
                _ => lone,
            },
            None => lone,
        }
    };
    assert forall|x: int| is_first(edges, a, b, x) implies match (#[trigger] edges[x]).kind {
        EdgeKindV::Intra { path_blob } => spells(path_blob, piece) || (!is_spelled(path_blob) && is_walked(
            tiles,
            walk,
            na,
            nb,
            piece,
        )),
        _ => piece.len() == 1 && stands_on(nb, piece[0]),
    } by {
        if first_edge(edges, a, b, 0) is None {
            assert(edges[x].from != a || edges[x].to != b);
        } else {
            let e = first_edge(edges, a, b, 0)->0;
            let y = choose|y: int| #[trigger] is_first(edges, a, b, y) && edges[y] == e;
            lemma_one_first(edges, a, b, x, y);
        }
    }
    assert(is_unlinked(edges, a, b) ==> is_walked(tiles, walk, na, nb, piece)) by {
        if let Some(e) = first_edge(edges, a, b, 0) {
            let y = choose|y: int| #[trigger] is_first(edges, a, b, y) && edges[y] == e;
            assert(edges[y].from == a);
        }
    }
    piece
}

/// Where the tiles of a hop stand: they end before place `end`.
pub open spec fn stands_at(path: Seq<Tile>, piece: Seq<Tile>, end: int) -> bool {
    0 <= end - piece.len() && end <= path.len() && path.subrange(end - piece.len(), end) == piece
}

/// Whether the pieces stand in the path, each behind the one before it, with at most the first tile
/// shared, from place `first` on.
pub open spec fn are_placed(path: Seq<Tile>, pieces: Seq<Seq<Tile>>, ends: Seq<int>, first: int) -> bool {
    &&& ends.len() == pieces.len()
    &&& forall|k: int|
        0 <= k < pieces.len() ==> {
            let before = if k == 0 { first } else { ends[k - 1] };
            &&& stands_at(path, #[trigger] pieces[k], ends[k])
            &&& ends[k] - pieces[k].len() <= before <= ends[k]
            &&& before <= ends[k] - pieces[k].len() + 1
        }
}

/// Whether the pieces are the tiles of the hops.
pub open spec fn are_pieces<F: Fn(i32, i32, i32) -> bool>(
    nodes: Seq<Node>,
    edges: Seq<EdgeV>,
    tiles: ClusterTiles,
    walk: F,
    hl: Seq<usize>,
    pieces: Seq<Seq<Tile>>,
) -> bool {
    &&& pieces.len() == hl.len() - 1
    &&& forall|k: int|
        0 <= k < pieces.len() ==> is_piece(nodes, edges, tiles, walk, hl[k], hl[k + 1], #[trigger] pieces[k])
}

proof fn lemma_place_next(acc: Seq<Tile>, pieces: Seq<Seq<Tile>>, ends: Seq<int>, piece: Seq<Tile>, out: Seq<Tile>)
    requires
        are_placed(acc, pieces, ends, 0),
        acc.len() == if ends.len() == 0 { 0 } else { ends.last() },
        out == acc + piece || (acc.len() > 0 && piece.len() > 0 && acc.last() == piece[0] && out == acc + piece.skip(1)),
    ensures
        are_placed(out, pieces.push(piece), ends.push(out.len() as int), 0),
{
    let (p, e) = (pieces.push(piece), ends.push(out.len() as int));
    assert(out.subrange(0, acc.len() as int) =~= acc);
    assert(out.subrange(out.len() - piece.len(), out.len() as int) =~= piece);
    assert forall|k: int| 0 <= k < p.len() implies {
        let before = if k == 0 { 0 } else { e[k - 1] };
        &&& stands_at(out, #[trigger] p[k], e[k])
        &&& e[k] - p[k].len() <= before <= e[k]
        &&& before <= e[k] - p[k].len() + 1
    } by {
        if k < pieces.len() {
            assert(p[k] == pieces[k] && e[k] == ends[k]);
            assert(stands_at(acc, pieces[k], ends[k]));
            assert(out.subrange(e[k] - p[k].len(), e[k]) =~= acc.subrange(e[k] - p[k].len(), e[k]));
        }
    }
}

proof fn lemma_pieces<F: Fn(i32, i32, i32) -> bool>(
    nodes: Seq<Node>,
    edges: Seq<EdgeV>,
    tiles: ClusterTiles,
    walk: F,
    hl: Seq<usize>,
    out: Seq<Tile>,
) -> (r: (Seq<Seq<Tile>>, Seq<int>))
    requires
        hl.len() > 0,
        rebuilt(nodes, edges, tiles, walk, hl, out),
    ensures
        are_pieces(nodes, edges, tiles, walk, hl, r.0),
        are_placed(out, r.0, r.1, 0),
        out.len() == if hl.len() == 1 { 0 } else { r.1.last() },
    decreases hl.len(),
{
    if hl.len() == 1 {
        (Seq::empty(), Seq::empty())
    } else {
        let short = hl.drop_last();
        let (a, b) = (hl[hl.len() - 2], hl.last());
        let acc = choose|acc: Seq<Tile>|
            rebuilt(nodes, edges, tiles, walk, short, acc) && #[trigger] hopped(nodes, edges, tiles, walk, acc, a, b, out);
        let (p1, e1) = lemma_pieces(nodes, edges, tiles, walk, short, acc);
        let piece = lemma_piece(nodes, edges, tiles, walk, acc, a, b, out);
        lemma_place_next(acc, p1, e1, piece, out);
        let pieces = p1.push(piece);
        assert forall|k: int| 0 <= k < pieces.len() implies is_piece(
            nodes,
            edges,
            tiles,
            walk,
            hl[k],
            hl[k + 1],
            #[trigger] pieces[k],
        ) by {
            if k < p1.len() {
                assert(is_piece(nodes, edges, tiles, walk, short[k], short[k + 1], p1[k]));
            }
        }
        (pieces, e1.push(out.len() as int))
    }
}

/// The tiles of a plan are those of its hops, in their order: every tile of each hop stands in the plan,
/// one after the other, and of two hops that meet the tile is told once. Nothing else stands in the plan
/// but the start in front and the end behind, where they are missing.
pub proof fn law_plans_go_hop_by_hop<F: Fn(i32, i32, i32) -> bool>(
    nodes: Seq<Node>,
    edges: Seq<EdgeV>,
    tiles: ClusterTiles,
    walk: F,
    hl: Seq<usize>,
    start: Tile,
    end: Tile,
    path: Seq<Tile>,
    actions: Seq<JsonV>,
) -> (r: (Seq<Seq<Tile>>, Seq<int>, int))
    requires
        hl.len() > 1,
        reconstructed(nodes, edges, tiles, walk, hl, start, end, path, actions),
    ensures
        are_pieces(nodes, edges, tiles, walk, hl, r.0),
        are_placed(path, r.0, r.1, r.2),
        r.2 == 0 || r.2 == 1,
        path.len() > 0 && path[0] == start && path.last() == end,
        path.len() == r.1.last() || path.len() == r.1.last() + 1,
{
    let t = choose|t: Seq<Tile>| #[trigger]
        rebuilt(nodes, edges, tiles, walk, hl, t) && path == closed_off(t, start, end);
    let (pieces, ends0) = lemma_pieces(nodes, edges, tiles, walk, hl, t);
    let first: int = if t.len() > 0 && t[0] == start { 0 } else { 1 };
    let ends = Seq::new(ends0.len(), |k: int| ends0[k] + first);
    assert(path.subrange(first, first + t.len()) =~= t);
    assert forall|k: int| 0 <= k < pieces.len() implies {
        let before = if k == 0 { first } else { ends[k - 1] };
        &&& stands_at(path, #[trigger] pieces[k], ends[k])
        &&& ends[k] - pieces[k].len() <= before <= ends[k]
        &&& before <= ends[k] - pieces[k].len() + 1
    } by {
        assert(stands_at(t, pieces[k], ends0[k]));
        assert(ends0[k] <= t.len());
        assert(path.subrange(ends[k] - pieces[k].len(), ends[k]) =~= t.subrange(ends0[k] - pieces[k].len(), ends0[k]));
    }
    (pieces, ends, first)
}

/// The stored path of a connection inside a cluster is walked tile by tile: where a hop goes by such a
/// connection and its path can be read, every tile of it stands in the plan, one after the other.
pub proof fn law_stored_paths_are_walked<F: Fn(i32, i32, i32) -> bool>(
    nodes: Seq<Node>,
    edges: Seq<EdgeV>,
    tiles: ClusterTiles,
    walk: F,
    hl: Seq<usize>,
    start: Tile,
    end: Tile,
    path: Seq<Tile>,
    actions: Seq<JsonV>,
    k: int,
    x: int,
    pts: Seq<Tile>,
)
    requires
        reconstructed(nodes, edges, tiles, walk, hl, start, end, path, actions),
        0 <= k < hl.len() - 1,
        is_first(edges, hl[k], hl[k + 1], x),
        edges[x].kind is Intra,
        spells(edges[x].kind->path_blob, pts),
    ensures
        exists|o: int| 0 <= o && o + pts.len() <= path.len() && #[trigger] path.subrange(o, o + pts.len()) == pts,
{
    let (pieces, ends, first) = law_plans_go_hop_by_hop(nodes, edges, tiles, walk, hl, start, end, path, actions);
    assert(is_piece(nodes, edges, tiles, walk, hl[k], hl[k + 1], pieces[k]));
    assert(edges[x].kind is Intra);
    assert(pieces[k] == pts);
    assert(stands_at(path, pieces[k], ends[k]));
    let o = ends[k] - pts.len();
    assert(path.subrange(o, o + pts.len()) == pts);
}

/// Whether two tiles lie beside one another.
pub open spec fn are_beside(a: Tile, b: Tile) -> bool {
    a.plane == b.plane && -1 <= b.x - a.x <= 1 && -1 <= b.y - a.y <= 1
}

/// Whether a hop goes from one tile to another at once: by a connection between clusters or by a
/// teleport.
pub open spec fn is_leap(nodes: Seq<Node>, edges: Seq<EdgeV>, a: usize, b: usize, s: Tile, t: Tile) -> bool {
    stands_on(nodes[a as int], s) && stands_on(nodes[b as int], t) && exists|x: int| #[trigger]
        is_first(edges, a, b, x) && !(edges[x].kind is Intra)
}

/// Whether the ways that a hop may go are without gaps: a stored path leads from the one node's tile to
/// the other's, each tile beside the one before it; and where none is stored a way leads there inside
/// the cluster.
pub open spec fn is_gapless<F: Fn(i32, i32, i32) -> bool>(
    nodes: Seq<Node>,
    edges: Seq<EdgeV>,
    tiles: ClusterTiles,
    walk: F,
    a: usize,
    b: usize,
) -> bool {
    let (na, nb) = (nodes[a as int], nodes[b as int]);
    let can_walk = exists|c: i64, q: Seq<Tile>|
        is_between(na, nb, c) && tiles.knows(c) && #[trigger] is_path(
            must_cross(tiles, c, walk, tile_of(na).plane),
            tile_of(na),
            tile_of(nb),
            q,
        );
    &&& forall|x: int, pts: Seq<Tile>|
        is_first(edges, a, b, x) && edges[x].kind is Intra && #[trigger] spells(edges[x].kind->path_blob, pts)
            ==> pts.len() > 0 && pts[0] == tile_of(na) && pts.last() == tile_of(nb) && forall|i: int|
            0 < i < pts.len() ==> are_beside(pts[i - 1], #[trigger] pts[i])
    &&& is_unlinked(edges, a, b) || (exists|x: int| #[trigger]
        is_first(edges, a, b, x) && edges[x].kind is Intra && !is_spelled(edges[x].kind->path_blob))
        ==> can_walk
}

/// Whether every tile of a path lies beside the one before it, or follows it at once by one of the hops.
pub open spec fn has_no_gaps(nodes: Seq<Node>, edges: Seq<EdgeV>, hl: Seq<usize>, path: Seq<Tile>) -> bool {
    forall|i: int|
        0 < i < path.len() ==> are_beside(path[i - 1], #[trigger] path[i]) || exists|k: int|
            0 <= k < hl.len() - 1 && #[trigger] is_leap(nodes, edges, hl[k], hl[k + 1], path[i - 1], path[i])
}

/// The tiles of a hop without gaps lead from the one node's tile to the other's, each beside the one
/// before it; or the hop goes there at once.
proof fn lemma_gapless_piece<F: Fn(i32, i32, i32) -> bool>(
    nodes: Seq<Node>,
    edges: Seq<EdgeV>,
    tiles: ClusterTiles,
    walk: F,
    a: usize,
    b: usize,
    piece: Seq<Tile>,
)
    requires
        is_piece(nodes, edges, tiles, walk, a, b, piece),
        is_gapless(nodes, edges, tiles, walk, a, b),
    ensures
        piece.len() > 0,
        piece.last() == tile_of(nodes[b as int]),
        (piece[0] == tile_of(nodes[a as int]) && forall|i: int|
            0 < i < piece.len() ==> are_beside(piece[i - 1], #[trigger] piece[i])) || (piece.len() == 1 && is_leap(
            nodes,
            edges,
            a,
            b,
            tile_of(nodes[a as int]),
            piece[0],
        )),
{
    let (na, nb) = (nodes[a as int], nodes[b as int]);
    let (ta, tb) = (tile_of(na), tile_of(nb));
    lemma_first_edge(edges, a, b, 0);
    let linked = first_edge(edges, a, b, 0) is Some;
    let x = if linked {
        choose|y: int| #[trigger] is_first(edges, a, b, y) && edges[y] == first_edge(edges, a, b, 0)->0
    } else {
        0
    };
    if linked && !(edges[x].kind is Intra) {
        assert(is_first(edges, a, b, x));
        assert(piece.len() == 1 && stands_on(nb, piece[0]));
        assert(is_leap(nodes, edges, a, b, ta, piece[0]));
    } else if linked && is_spelled(edges[x].kind->path_blob) {
        assert(is_first(edges, a, b, x));
        assert(spells(edges[x].kind->path_blob, piece));
    } else {
        if linked {
            assert(is_first(edges, a, b, x));
            assert(edges[x].kind is Intra);
        }
        assert(is_walked(tiles, walk, na, nb, piece));
        let (c, q) = choose|c: i64, q: Seq<Tile>|
            is_between(na, nb, c) && tiles.knows(c) && #[trigger] is_path(must_cross(tiles, c, walk, ta.plane), ta, tb, q);
        assert(is_path(must_cross(tiles, c, walk, ta.plane), ta, tb, q));
        assert(q[q.len() - 1].plane == ta.plane);
        assert(!no_entrance(na, nb));
        let (d, p) = choose|d: i64, p: Option<Seq<Tile>>|
            is_between(na, nb, d) && (#[trigger] micro_path(tiles, d, walk, ta, tb, p)) && match p {
                Some(pts) => piece == pts,
                None => piece.len() == 1 && stands_on(nb, piece[0]),
            };
        assert(d == c);
        assert(p is Some);
        if ta != tb {
            assert forall|i: int| 0 < i < piece.len() implies are_beside(piece[i - 1], #[trigger] piece[i]) by {
                assert(piece[i].plane == ta.plane);
                assert(piece[i - 1].plane == ta.plane);
                assert(steps_apart(
                    piece[i - 1].x as int,
                    piece[i - 1].y as int,
                    piece[i - 1 + 1].x as int,
                    piece[i - 1 + 1].y as int,
                ) == 1);
            }
        }
    }
}

/// The tiles so far, with the start in front where it is missing.
spec fn with_start(t: Seq<Tile>, start: Tile) -> Seq<Tile> {
    if t.len() > 0 && t[0] == start { t } else { seq![start] + t }
}

spec fn flows(ok: spec_fn(Tile, Tile) -> bool, p: Seq<Tile>) -> bool {
    forall|i: int| 0 < i < p.len() ==> ok(p[i - 1], #[trigger] p[i])
}

proof fn lemma_flow_on(ok: spec_fn(Tile, Tile) -> bool, acc: Seq<Tile>, start: Tile, from: Tile, piece: Seq<Tile>, out: Seq<Tile>)
    requires
        flows(ok, with_start(acc, start)),
        with_start(acc, start).last() == from,
        flows(ok, piece),
        piece.len() > 0,
        ok(from, piece[0]),
        out == acc + piece || (acc.len() > 0 && piece.len() > 0 && acc.last() == piece[0] && out == acc + piece.skip(1)),
    ensures
        flows(ok, with_start(out, start)),
        out.len() > 0,
        out.last() == piece.last(),
        with_start(out, start).last() == piece.last(),
{
    let (w, f) = (with_start(out, start), with_start(acc, start));
    let base = w.len() - piece.len();
    assert forall|i: int| 0 < i < w.len() implies ok(w[i - 1], #[trigger] w[i]) by {
        if i > base {
            assert(w[i] == piece[i - base] && w[i - 1] == piece[i - 1 - base]);
            assert(ok(piece[i - base - 1], piece[i - base]));
        } else if i < f.len() {
            assert(w[i] == f[i] && w[i - 1] == f[i - 1]);
            assert(ok(f[i - 1], f[i]));
        } else {
            assert(w[i - 1] == f.last() && w[i] == piece[0]);
        }
    }
}

/// Whether one tile may follow another in a plan.
spec fn may_follow(nodes: Seq<Node>, edges: Seq<EdgeV>, hl: Seq<usize>) -> spec_fn(Tile, Tile) -> bool {
    |s: Tile, t: Tile|
        are_beside(s, t) || exists|k: int|
            0 <= k < hl.len() - 1 && #[trigger] is_leap(nodes, edges, hl[k], hl[k + 1], s, t)
}

proof fn lemma_no_gaps<F: Fn(i32, i32, i32) -> bool>(
    nodes: Seq<Node>,
    edges: Seq<EdgeV>,
    tiles: ClusterTiles,
    walk: F,
    hl: Seq<usize>,
    start: Tile,
    n: int,
    out: Seq<Tile>,
)
    requires
        0 < n <= hl.len(),
        rebuilt(nodes, edges, tiles, walk, hl.take(n), out),
        tile_of(nodes[hl[0] as int]) == start,
        forall|k: int| 0 <= k < hl.len() - 1 ==> is_gapless(nodes, edges, tiles, walk, #[trigger] hl[k], hl[k + 1]),
    ensures
        flows(may_follow(nodes, edges, hl), with_start(out, start)),
        with_start(out, start).last() == tile_of(nodes[hl[n - 1] as int]),
        n > 1 ==> out.len() > 0 && out.last() == tile_of(nodes[hl[n - 1] as int]),
    decreases n,
{
    let ok = may_follow(nodes, edges, hl);
    let all = hl.take(n);
    if n > 1 {
        let (a, b) = (hl[n - 2], hl[n - 1]);
        assert(all.drop_last() =~= hl.take(n - 1));
        assert(all[all.len() - 2] == a && all.last() == b);
        let acc = choose|acc: Seq<Tile>|
            rebuilt(nodes, edges, tiles, walk, all.drop_last(), acc) && #[trigger] hopped(
                nodes,
                edges,
                tiles,
                walk,
                acc,
                a,
                b,
                out,
            );
        lemma_no_gaps(nodes, edges, tiles, walk, hl, start, n - 1, acc);
        let piece = lemma_piece(nodes, edges, tiles, walk, acc, a, b, out);
        assert(is_gapless(nodes, edges, tiles, walk, hl[n - 2], hl[n - 2 + 1]));
        lemma_gapless_piece(nodes, edges, tiles, walk, a, b, piece);
        let ta = tile_of(nodes[a as int]);
        assert(flows(ok, piece)) by {
            assert forall|i: int| 0 < i < piece.len() implies ok(piece[i - 1], #[trigger] piece[i]) by {}
        }
        assert(ok(ta, piece[0])) by {
            if piece[0] != ta {
                assert(is_leap(nodes, edges, hl[n - 2], hl[n - 2 + 1], ta, piece[0]));
            }
        }
        lemma_flow_on(ok, acc, start, ta, piece, out);
    }
}

/// A plan has no gaps where its hops have none: two tiles that follow one another lie beside one
/// another, unless a connection between clusters or a teleport leads from the one to the other.
pub proof fn law_plans_have_no_gaps<F: Fn(i32, i32, i32) -> bool>(
    nodes: Seq<Node>,
    edges: Seq<EdgeV>,
    tiles: ClusterTiles,
    walk: F,
    hl: Seq<usize>,
    start: Tile,
    end: Tile,
    path: Seq<Tile>,
    actions: Seq<JsonV>,
)
    requires
        hl.len() > 0,
        reconstructed(nodes, edges, tiles, walk, hl, start, end, path, actions),
        stands_on(nodes[hl[0] as int], start),
        stands_on(nodes[hl.last() as int], end),
        forall|k: int| 0 <= k < hl.len() - 1 ==> is_gapless(nodes, edges, tiles, walk, #[trigger] hl[k], hl[k + 1]),
    ensures
        has_no_gaps(nodes, edges, hl, path),
{
    let t = choose|t: Seq<Tile>| #[trigger]
        rebuilt(nodes, edges, tiles, walk, hl, t) && path == closed_off(t, start, end);
    assert(hl.take(hl.len() as int) =~= hl);
    lemma_no_gaps(nodes, edges, tiles, walk, hl, start, hl.len() as int, t);
    assert(path == with_start(t, start));
    let ok = may_follow(nodes, edges, hl);
    assert forall|i: int| 0 < i < path.len() implies are_beside(path[i - 1], #[trigger] path[i]) || exists|k: int|
        0 <= k < hl.len() - 1 && #[trigger] is_leap(nodes, edges, hl[k], hl[k + 1], path[i - 1], path[i]) by {
        assert(ok(path[i - 1], path[i]));
    }
}

/// How many of the first `k` hops are teleports.
pub open spec fn teleports_among(edges: Seq<EdgeV>, hl: Seq<usize>, k: int) -> nat
    decreases k,
{
    if k <= 0 {
        0
    } else {
        teleports_among(edges, hl, k - 1) + if exists|x: int| #[trigger]
            is_first(edges, hl[k - 1], hl[k], x) && edges[x].kind is Teleport {
            1nat
        } else {
            0
        }
    }
}

proof fn lemma_actions(edges: Seq<EdgeV>, hl: Seq<usize>, k: int)
    requires
        0 <= k < hl.len(),
    ensures
        hop_actions(edges, hl, k).len() == teleports_among(edges, hl, k),
        forall|j: int, x: int|
            #![trigger is_first(edges, hl[j], hl[j + 1], x)]
            0 <= j < k && is_first(edges, hl[j], hl[j + 1], x) && edges[x].kind is Teleport ==> teleports_among(
                edges,
                hl,
                j,
            ) < hop_actions(edges, hl, k).len() && hop_actions(edges, hl, k)[teleports_among(edges, hl, j) as int]
                == teleport_action(edges[x].kind->edge_id, edges[x].kind->requirement_id),
    decreases k,
{
    if k > 0 {
        lemma_actions(edges, hl, k - 1);
        let (a, b) = (hl[k - 1], hl[k]);
        lemma_first_edge(edges, a, b, 0);
        let (rest, all) = (hop_actions(edges, hl, k - 1), hop_actions(edges, hl, k));
        let e = first_edge(edges, a, b, 0);
        if e is Some {
            let y = choose|y: int| #[trigger] is_first(edges, a, b, y) && edges[y] == e->0;
            if exists|x: int| #[trigger] is_first(edges, a, b, x) && edges[x].kind is Teleport {
                let x = choose|x: int| #[trigger] is_first(edges, a, b, x) && edges[x].kind is Teleport;
                lemma_one_first(edges, a, b, x, y);
            }
        }
        assert forall|j: int, x: int|
            #![trigger is_first(edges, hl[j], hl[j + 1], x)]
            0 <= j < k && is_first(edges, hl[j], hl[j + 1], x) && edges[x].kind is Teleport implies teleports_among(
            edges,
            hl,
            j,
        ) < all.len() && all[teleports_among(edges, hl, j) as int] == teleport_action(
            edges[x].kind->edge_id,
            edges[x].kind->requirement_id,
        ) by {
            if j == k - 1 {
                assert(e is Some) by {
                    if e is None {
                        assert(edges[x].from != a || edges[x].to != b);
                    }
                }
                let y = choose|y: int| #[trigger] is_first(edges, a, b, y) && edges[y] == e->0;
                lemma_one_first(edges, a, b, x, y);
            } else {
                assert(rest[teleports_among(edges, hl, j) as int] == teleport_action(
                    edges[x].kind->edge_id,
                    edges[x].kind->requirement_id,
                ));
            }
        }
    }
}

/// A plan has an action for each hop by a teleport, in the order of the hops, and no other: it says that
/// it is a teleport, which one, and what it requires.
pub proof fn law_teleports_are_told<F: Fn(i32, i32, i32) -> bool>(
    nodes: Seq<Node>,
    edges: Seq<EdgeV>,
    tiles: ClusterTiles,
    walk: F,
    hl: Seq<usize>,
    start: Tile,
    end: Tile,
    path: Seq<Tile>,
    actions: Seq<JsonV>,
    k: int,
    x: int,
)
    requires
        reconstructed(nodes, edges, tiles, walk, hl, start, end, path, actions),
        0 <= k < hl.len() - 1,
        is_first(edges, hl[k], hl[k + 1], x),
        edges[x].kind is Teleport,
    ensures
        actions.len() == teleports_among(edges, hl, hl.len() - 1),
        teleports_among(edges, hl, k) < actions.len(),
        ({
            let a = actions[teleports_among(edges, hl, k) as int];
            &&& member(a, "type"@) == Some(JsonV::Str("teleport"@))
            &&& member(a, "edge_id"@) == Some(JsonV::Num(edges[x].kind->edge_id as int))
            &&& member(a, "requirement_id"@) == Some(
                match edges[x].kind->requirement_id {
                    Some(r) => JsonV::Num(r as int),
                    None => JsonV::Null,
                },
            )
        }),
{
    lemma_actions(edges, hl, hl.len() - 1);
    reveal_strlit("type");
    reveal_strlit("edge_id");
    reveal_strlit("requirement_id");
    assert("type"@.len() == 4 && "edge_id"@.len() == 7 && "requirement_id"@.len() == 14);
}

}
