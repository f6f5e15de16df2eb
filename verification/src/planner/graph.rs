//! The abstract graph: cluster entrances, their connections and teleports.

use crate::db::{AbstractTeleportEdge, ClusterEntrance, ClusterInterConnection, ClusterIntraConnection, TeleportRequirement};
use crate::models::Tile;
use crate::planner::tiles::{key_of_tile, ClusterTiles};
use crate::requirements::RequirementEvaluator;
use crate::sort::{stable_order, SortKey};
use crate::text::owned;
use std::collections::HashMap;
use vstd::prelude::*;
#[allow(unused_imports)]
use crate::planner::tiles::tile_key;
#[allow(unused_imports)]
use crate::requirements::{condition_met, RequirementKV};
#[allow(unused_imports)]
use crate::sort::{is_stable_order, keys_differ, lemma_same_order, lemma_sorted_positions, shuffles, sorted_positions};

verus! {

broadcast use vstd::std_specs::hash::group_hash_axioms;

/// The position of a node in the graph.
#[derive(Debug, Clone, Copy, PartialEq, Eq, Hash, Structural)]
pub struct NodeId(pub usize);

#[derive(Debug, Clone, Copy, PartialEq, Eq, Structural)]
pub enum NodeKind {
    Entrance { entrance_id: i64, cluster_id: i64, x: i32, y: i32, plane: i32 },
    VirtualStart(Tile),
    VirtualEnd(Tile),
}

#[derive(Debug, Clone, Copy, PartialEq, Eq, Structural)]
pub struct Node {
    pub id: NodeId,
    pub kind: NodeKind,
}

#[derive(Debug, Clone)]
pub enum EdgeKind {
    Intra { path_blob: Option<Vec<u8>> },
    Inter,
    Teleport { edge_id: i64, requirement_id: Option<i64>, kind: String, node_id: i64 },
}

#[derive(Debug, Clone)]
pub struct Edge {
    pub from: NodeId,
    pub to: NodeId,
    pub cost: i64,
    pub kind: EdgeKind,
}

#[derive(Debug, Clone)]
pub struct Graph {
    pub nodes: Vec<Node>,
    pub edges: Vec<Edge>,
}

/// The rows that a graph is built from.
pub struct GraphInputs<'a> {
    pub entrances: &'a [ClusterEntrance],
    pub intra: &'a [ClusterIntraConnection],
    pub inter: &'a [ClusterInterConnection],
    pub teleports: &'a [AbstractTeleportEdge],
    pub teleport_requirements: &'a [TeleportRequirement],
}

#[derive(Debug, Clone, Copy, PartialEq, Eq, Structural)]
pub struct BuildOptions {
    pub start: Tile,
    pub end: Tile,
}

impl Default for BuildOptions {
    fn default() -> (r: Self)
        ensures
            r == (BuildOptions { start: Tile { x: 0, y: 0, plane: 0 }, end: Tile { x: 0, y: 0, plane: 0 } }),
    {
        BuildOptions { start: Tile { x: 0, y: 0, plane: 0 }, end: Tile { x: 0, y: 0, plane: 0 } }
    }
}

// ---- what an edge holds ----

pub enum EdgeKindV {
    Intra { path_blob: Option<Seq<u8>> },
    Inter,
    Teleport { edge_id: i64, requirement_id: Option<i64>, kind: Seq<char>, node_id: i64 },
}

pub struct EdgeV {
    pub from: usize,
    pub to: usize,
    pub cost: i64,
    pub kind: EdgeKindV,
}

pub open spec fn blob_view(b: Option<Vec<u8>>) -> Option<Seq<u8>> {
    match b {
        Some(v) => Some(v@),
        None => None,
    }
}

impl EdgeKind {
    pub open spec fn view(self) -> EdgeKindV {
        match self {
            EdgeKind::Intra { path_blob } => EdgeKindV::Intra { path_blob: blob_view(path_blob) },
            EdgeKind::Inter => EdgeKindV::Inter,
            EdgeKind::Teleport { edge_id, requirement_id, kind, node_id } => EdgeKindV::Teleport {
                edge_id,
                requirement_id,
                kind: kind@,
                node_id,
            },
        }
    }
}

impl Edge {
    pub open spec fn view(self) -> EdgeV {
        EdgeV { from: self.from.0, to: self.to.0, cost: self.cost, kind: self.kind@ }
    }
}

pub open spec fn edge_views(e: Seq<Edge>) -> Seq<EdgeV> {
    Seq::new(e.len(), |i: int| e[i]@)
}

// ---- the graph of given rows ----

/// The tile of an entrance, each coordinate cut to 32 bits.
pub open spec fn entrance_tile(e: ClusterEntrance) -> Tile {
    Tile { x: e.x as i32, y: e.y as i32, plane: e.plane as i32 }
}

pub open spec fn entrance_node(e: ClusterEntrance, i: int) -> Node {
    Node {
        id: NodeId(i as usize),
        kind: NodeKind::Entrance {
            entrance_id: e.entrance_id,
            cluster_id: e.cluster_id,
            x: e.x as i32,
            y: e.y as i32,
            plane: e.plane as i32,
        },
    }
}

/// The keys that rows are ordered by.
pub open spec fn entrance_keys(rows: Seq<ClusterEntrance>) -> Seq<SortKey> {
    Seq::new(rows.len(), |i: int| SortKey { a: rows[i].entrance_id, b: 0, c: 0, d: 0 })
}

pub open spec fn intra_keys(rows: Seq<ClusterIntraConnection>) -> Seq<SortKey> {
    Seq::new(rows.len(), |i: int| SortKey { a: rows[i].entrance_from, b: rows[i].entrance_to, c: 0, d: 0 })
}

pub open spec fn inter_keys(rows: Seq<ClusterInterConnection>) -> Seq<SortKey> {
    Seq::new(rows.len(), |i: int| SortKey { a: rows[i].entrance_from, b: rows[i].entrance_to, c: 0, d: 0 })
}

pub open spec fn teleport_keys(rows: Seq<AbstractTeleportEdge>) -> Seq<SortKey> {
    Seq::new(
        rows.len(),
        |i: int| SortKey { a: or_least(rows[i].src_entrance), b: or_least(rows[i].dst_entrance), c: rows[i].edge_id, d: 0 },
    )
}

/// Entrances in ascending order of their ids.
pub open spec fn entrance_order(rows: Seq<ClusterEntrance>) -> Seq<usize> {
    sorted_positions(entrance_keys(rows))
}

pub open spec fn intra_order(rows: Seq<ClusterIntraConnection>) -> Seq<usize> {
    sorted_positions(intra_keys(rows))
}

pub open spec fn inter_order(rows: Seq<ClusterInterConnection>) -> Seq<usize> {
    sorted_positions(inter_keys(rows))
}

pub open spec fn or_least(v: Option<i64>) -> i64 {
    match v {
        Some(x) => x,
        None => i64::MIN,
    }
}

pub open spec fn teleport_order(rows: Seq<AbstractTeleportEdge>) -> Seq<usize> {
    sorted_positions(teleport_keys(rows))
}

/// What is known while a graph is built: its nodes and edges, the node of each entrance id and
/// of each tile, the next id for a node that no entrance stands for, and the teleport edges made.
pub struct Draft {
    pub nodes: Seq<Node>,
    pub by_id: Map<i64, usize>,
    pub by_tile: Map<u128, usize>,
    pub next_id: int,
    pub edges: Seq<EdgeV>,
    pub made: Seq<(usize, usize, i64)>,
}

/// The draft with the first `k` entrances of the order.
pub open spec fn with_entrances(rows: Seq<ClusterEntrance>, order: Seq<usize>, k: int) -> Draft
    decreases k,
{
    if k <= 0 {
        Draft {
            nodes: Seq::empty(),
            by_id: Map::empty(),
            by_tile: Map::empty(),
            next_id: -1,
            edges: Seq::empty(),
            made: Seq::empty(),
        }
    } else {
        let d = with_entrances(rows, order, k - 1);
        let e = rows[order[k - 1] as int];
        let i = (k - 1) as usize;
        Draft {
            nodes: d.nodes.push(entrance_node(e, k - 1)),
            by_id: d.by_id.insert(e.entrance_id, i),
            by_tile: d.by_tile.insert(tile_key(entrance_tile(e)), i),
            ..d
        }
    }
}

/// The draft with the two nodes for the start and the end of the route.
pub open spec fn with_ends(d: Draft, o: BuildOptions) -> Draft {
    let n = d.nodes.len() as usize;
    Draft {
        nodes: d.nodes.push(Node { id: NodeId(n), kind: NodeKind::VirtualStart(o.start) }).push(
            Node { id: NodeId((n + 1) as usize), kind: NodeKind::VirtualEnd(o.end) },
        ),
        ..d
    }
}

/// The draft with the first `k` connections inside clusters, as far as both ends are known.
pub open spec fn with_intra(d: Draft, rows: Seq<ClusterIntraConnection>, order: Seq<usize>, k: int) -> Draft
    decreases k,
{
    if k <= 0 {
        d
    } else {
        let p = with_intra(d, rows, order, k - 1);
        let c = rows[order[k - 1] as int];
        if d.by_id.contains_key(c.entrance_from) && d.by_id.contains_key(c.entrance_to) {
            Draft {
                edges: p.edges.push(
                    EdgeV {
                        from: d.by_id[c.entrance_from],
                        to: d.by_id[c.entrance_to],
                        cost: c.cost,
                        kind: EdgeKindV::Intra { path_blob: blob_view(c.path_blob) },
                    },
                ),
                ..p
            }
        } else {
            p
        }
    }
}

/// The draft with the first `k` connections between clusters, as far as both ends are known.
pub open spec fn with_inter(d: Draft, rows: Seq<ClusterInterConnection>, order: Seq<usize>, k: int) -> Draft
    decreases k,
{
    if k <= 0 {
        d
    } else {
        let p = with_inter(d, rows, order, k - 1);
        let c = rows[order[k - 1] as int];
        if d.by_id.contains_key(c.entrance_from) && d.by_id.contains_key(c.entrance_to) {
            Draft {
                edges: p.edges.push(
                    EdgeV {
                        from: d.by_id[c.entrance_from],
                        to: d.by_id[c.entrance_to],
                        cost: c.cost,
                        kind: EdgeKindV::Inter,
                    },
                ),
                ..p
            }
        } else {
            p
        }
    }
}

/// The draft with a node for the tile: one that stands there already, or a new one.
pub open spec fn with_tile(d: Draft, t: Tile, tiles: ClusterTiles) -> Draft {
    if d.by_tile.contains_key(tile_key(t)) {
        d
    } else {
        let i = d.nodes.len() as usize;
        Draft {
            nodes: d.nodes.push(
                Node {
                    id: NodeId(i),
                    kind: NodeKind::Entrance {
                        entrance_id: d.next_id as i64,
                        cluster_id: match tiles.home(t) {
                            Some(c) => c,
                            None => (-1) as i64,
                        },
                        x: t.x,
                        y: t.y,
                        plane: t.plane,
                    },
                },
            ),
            by_id: d.by_id.insert(d.next_id as i64, i),
            by_tile: d.by_tile.insert(tile_key(t), i),
            next_id: d.next_id - 1,
            ..d
        }
    }
}

/// The node of a tile, after `with_tile`.
pub open spec fn node_at(d: Draft, t: Tile) -> usize {
    d.by_tile[tile_key(t)]
}

/// The known node of an entrance, if an entrance is given and known.
pub open spec fn known_node(d: Draft, entrance: Option<i64>) -> Option<usize> {
    match entrance {
        Some(e) => if d.by_id.contains_key(e) { Some(d.by_id[e]) } else { None },
        None => None,
    }
}

pub open spec fn dst_tile(t: AbstractTeleportEdge) -> Tile {
    Tile { x: t.dst_x as i32, y: t.dst_y as i32, plane: t.dst_plane as i32 }
}

/// The tile that a teleport starts from, where one is given.
pub open spec fn src_tile(t: AbstractTeleportEdge) -> Option<Tile> {
    match (t.src_x, t.src_y, t.src_plane) {
        (Some(x), Some(y), Some(p)) => Some(Tile { x: x as i32, y: y as i32, plane: p as i32 }),
        _ => None,
    }
}

/// The draft with a node for the destination of a teleport.
pub open spec fn with_destination(d: Draft, t: AbstractTeleportEdge, tiles: ClusterTiles) -> Draft {
    match known_node(d, t.dst_entrance) {
        Some(_) => d,
        None => with_tile(d, dst_tile(t), tiles),
    }
}

pub open spec fn destination(d: Draft, t: AbstractTeleportEdge, tiles: ClusterTiles) -> usize {
    match known_node(d, t.dst_entrance) {
        Some(i) => i,
        None => node_at(with_tile(d, dst_tile(t), tiles), dst_tile(t)),
    }
}

/// The draft with a node for the source of a teleport.
pub open spec fn with_source(d: Draft, t: AbstractTeleportEdge, tiles: ClusterTiles) -> Draft {
    match (known_node(d, t.src_entrance), src_tile(t)) {
        (Some(_), _) => d,
        (None, Some(s)) => with_tile(d, s, tiles),
        (None, None) => d,
    }
}

/// The source of a teleport: its entrance, else its tile, else the start of the route.
pub open spec fn source(d: Draft, t: AbstractTeleportEdge, tiles: ClusterTiles, start: usize) -> usize {
    match (known_node(d, t.src_entrance), src_tile(t)) {
        (Some(i), _) => i,
        (None, Some(s)) => node_at(with_tile(d, s, tiles), s),
        (None, None) => start,
    }
}

/// Whether every condition of a requirement is met. A teleport without a requirement, or with
/// one that has no conditions, is free.
pub open spec fn teleport_allowed(given: Seq<RequirementKV>, reqs: Seq<TeleportRequirement>, id: Option<i64>) -> bool {
    match id {
        None => true,
        Some(id) => forall|i: int| 0 <= i < reqs.len() && (#[trigger] reqs[i]).id == id ==> condition_met(given, reqs[i]),
    }
}

/// The draft with a teleport edge, unless it was made before.
pub open spec fn with_edge(d: Draft, from: usize, to: usize, t: AbstractTeleportEdge) -> Draft {
    if d.made.contains((from, to, t.edge_id)) {
        d
    } else {
        Draft {
            edges: d.edges.push(
                EdgeV {
                    from,
                    to,
                    cost: t.cost,
                    kind: EdgeKindV::Teleport {
                        edge_id: t.edge_id,
                        requirement_id: t.requirement_id,
                        kind: t.kind@,
                        node_id: t.node_id,
                    },
                },
            ),
            made: d.made.push((from, to, t.edge_id)),
            ..d
        }
    }
}

/// The draft with one teleport: its nodes, and its edge where it is allowed.
pub open spec fn with_teleport(d: Draft, t: AbstractTeleportEdge, allowed: bool, tiles: ClusterTiles, start: usize) -> Draft {
    let d1 = with_destination(d, t, tiles);
    let to = destination(d, t, tiles);
    let d2 = with_source(d1, t, tiles);
    let from = source(d1, t, tiles, start);
    if !allowed {
        d2
    } else {
        with_edge(d2, from, to, t)
    }
}

/// The draft with the first `k` teleports of the order.
pub open spec fn with_teleports(
    d: Draft,
    rows: Seq<AbstractTeleportEdge>,
    order: Seq<usize>,
    given: Seq<RequirementKV>,
    reqs: Seq<TeleportRequirement>,
    tiles: ClusterTiles,
    start: usize,
    k: int,
) -> Draft
    decreases k,
{
    if k <= 0 {
        d
    } else {
        let t = rows[order[k - 1] as int];
        with_teleport(
            with_teleports(d, rows, order, given, reqs, tiles, start, k - 1),
            t,
            teleport_allowed(given, reqs, t.requirement_id),
            tiles,
            start,
        )
    }
}

/// The entrances, the ends of the route and the connections.
pub open spec fn base_draft(inputs: GraphInputs, o: BuildOptions) -> Draft {
    let e = inputs.entrances@;
    let d0 = with_ends(with_entrances(e, entrance_order(e), e.len() as int), o);
    let d1 = with_intra(d0, inputs.intra@, intra_order(inputs.intra@), inputs.intra@.len() as int);
    with_inter(d1, inputs.inter@, inter_order(inputs.inter@), inputs.inter@.len() as int)
}

/// The whole graph.
pub open spec fn graph_draft(inputs: GraphInputs, given: Seq<RequirementKV>, o: BuildOptions, tiles: ClusterTiles) -> Draft {
    with_teleports(
        base_draft(inputs, o),
        inputs.teleports@,
        teleport_order(inputs.teleports@),
        given,
        inputs.teleport_requirements@,
        tiles,
        inputs.entrances@.len() as usize,
        inputs.teleports@.len() as int,
    )
}

// ---- building ----

/// A graph under construction.
struct Builder {
    nodes: Vec<Node>,
    edges: Vec<Edge>,
    by_id: HashMap<i64, usize>,
    by_tile: HashMap<u128, usize>,
    next_id: i64,
    made: Vec<(usize, usize, i64)>,
}

impl Builder {
    spec fn draft(self) -> Draft {
        Draft {
            nodes: self.nodes@,
            by_id: self.by_id@,
            by_tile: self.by_tile@,
            next_id: self.next_id as int,
            edges: edge_views(self.edges@),
            made: self.made@,
        }
    }

    fn known(&self, entrance: Option<i64>) -> (r: Option<usize>)
        ensures
            r == known_node(self.draft(), entrance),
    {
        match entrance {
            Some(e) => match self.by_id.get(&e) {
                Some(i) => Some(*i),
                None => None,
            },
            None => None,
        }
    }

    fn push_edge(&mut self, e: Edge)
        ensures
            final(self).draft() == (Draft { edges: old(self).draft().edges.push(e@), ..old(self).draft() }),
            final(self).next_id == old(self).next_id,
    {
        let ghost before = self.edges@;
        self.edges.push(e);
        assert(edge_views(self.edges@) =~= edge_views(before).push(e@));
    }

    /// The node of a tile: one that stands there already, or a new one.
    fn ensure_node_for_coords(&mut self, t: Tile, tiles: &ClusterTiles) -> (r: usize)
        requires
            tiles.wf(),
            old(self).next_id > i64::MIN,
        ensures
            final(self).draft() == with_tile(old(self).draft(), t, *tiles),
            r == node_at(final(self).draft(), t),
            final(self).next_id >= old(self).next_id - 1,
    {
        let key: u128 = key_of_tile(t);
        if let Some(i) = self.by_tile.get(&key) {
            return *i;
        }
        let cluster_id: i64 = match tiles.cluster_of(t) {
            Some(c) => c,
            None => -1,
        };
        let i: usize = self.nodes.len();
        self.nodes.push(
            Node {
                id: NodeId(i),
                kind: NodeKind::Entrance { entrance_id: self.next_id, cluster_id, x: t.x, y: t.y, plane: t.plane },
            },
        );
        self.by_id.insert(self.next_id, i);
        self.by_tile.insert(key, i);
        self.next_id = self.next_id - 1;
        i
    }

    fn was_made(&self, key: (usize, usize, i64)) -> (r: bool)
        ensures
            r == self.made@.contains(key),
    {
        let mut i: usize = 0;
        while i < self.made.len()
            invariant
                i <= self.made@.len(),
                forall|k: int| 0 <= k < i ==> #[trigger] self.made@[k] != key,
            decreases self.made@.len() - i,
        {
            let m: (usize, usize, i64) = self.made[i];
            if m.0 == key.0 && m.1 == key.1 && m.2 == key.2 {
                assert(self.made@[i as int] == key);
                return true;
            }
            i += 1;
        }
        false
    }

    /// Adds a teleport edge, unless it was made before.
    fn add_teleport_edge(&mut self, from: usize, to: usize, t: &AbstractTeleportEdge)
        ensures
            final(self).draft() == with_edge(old(self).draft(), from, to, *t),
            final(self).next_id == old(self).next_id,
    {
        if self.was_made((from, to, t.edge_id)) {
            return;
        }
        self.made.push((from, to, t.edge_id));
        let kind: EdgeKind = EdgeKind::Teleport {
            edge_id: t.edge_id,
            requirement_id: t.requirement_id,
            kind: owned(t.kind.as_str()),
            node_id: t.node_id,
        };
        self.push_edge(Edge { from: NodeId(from), to: NodeId(to), cost: t.cost, kind });
    }

    fn add_teleport(&mut self, t: &AbstractTeleportEdge, allowed: bool, tiles: &ClusterTiles, start: usize)
        requires
            tiles.wf(),
            old(self).next_id > i64::MIN + 1,
        ensures
            final(self).draft() == with_teleport(old(self).draft(), *t, allowed, *tiles, start),
            final(self).next_id >= old(self).next_id - 2,
    {
        let to: usize = match self.known(t.dst_entrance) {
            Some(i) => i,
            None => self.ensure_node_for_coords(
                Tile { x: t.dst_x as i32, y: t.dst_y as i32, plane: t.dst_plane as i32 },
                tiles,
            ),
        };
        let from: usize = match self.known(t.src_entrance) {
            Some(i) => i,
            None => match (t.src_x, t.src_y, t.src_plane) {
                (Some(x), Some(y), Some(p)) => self.ensure_node_for_coords(
                    Tile { x: x as i32, y: y as i32, plane: p as i32 },
                    tiles,
                ),
                _ => start,
            },
        };
        if !allowed {
            return;
        }
        self.add_teleport_edge(from, to, t);
    }
}

fn copy_blob(b: &Option<Vec<u8>>) -> (r: Option<Vec<u8>>)
    ensures
        blob_view(r) == blob_view(*b),
{
    match b {
        Some(v) => {
            let mut out: Vec<u8> = Vec::new();
            crate::bytes::append_bytes(&mut out, v.as_slice());
            assert(out@ =~= v@);
            Some(out)
        },
        None => None,
    }
}

fn or_min(v: Option<i64>) -> (r: i64)
    ensures
        r == or_least(v),
{
    match v {
        Some(x) => x,
        None => i64::MIN,
    }
}

/// Whether every condition of a requirement is met.
fn allowed(evaluator: &RequirementEvaluator, reqs: &[TeleportRequirement], id: Option<i64>) -> (r: bool)
    ensures
        r == teleport_allowed(evaluator@, reqs@, id),
{
    let wanted: i64 = match id {
        Some(x) => x,
        None => {
            return true;
        },
    };
    let mut i: usize = 0;
    while i < reqs.len()
        invariant
            i <= reqs@.len(),
            id == Some(wanted),
            forall|k: int| 0 <= k < i && (#[trigger] reqs@[k]).id == wanted ==> condition_met(evaluator@, reqs@[k]),
        decreases reqs@.len() - i,
    {
        if reqs[i].id == wanted && !evaluator.satisfies_one(&reqs[i]) {
            assert(reqs@[i as int].id == wanted);
            return false;
        }
        i += 1;
    }
    true
}

fn order_entrances(rows: &[ClusterEntrance]) -> (r: Vec<usize>)
    ensures
        r@ == entrance_order(rows@),
        r@.len() == rows@.len(),
        forall|i: int| 0 <= i < r@.len() ==> #[trigger] r@[i] < rows@.len(),
{
    let mut keys: Vec<SortKey> = Vec::new();
    let mut i: usize = 0;
    let ghost all = Seq::new(rows@.len(), |i: int| SortKey { a: rows@[i].entrance_id, b: 0, c: 0, d: 0 });
    while i < rows.len()
        invariant
            i <= rows@.len(),
            all == Seq::new(rows@.len(), |i: int| SortKey { a: rows@[i].entrance_id, b: 0, c: 0, d: 0 }),
            keys@ == all.take(i as int),
        decreases rows@.len() - i,
    {
        keys.push(SortKey { a: rows[i].entrance_id, b: 0, c: 0, d: 0 });
        assert(keys@ =~= all.take(i + 1));
        i += 1;
    }
    assert(keys@ =~= all);
    stable_order(&keys)
}

fn order_intra(rows: &[ClusterIntraConnection]) -> (r: Vec<usize>)
    ensures
        r@ == intra_order(rows@),
        r@.len() == rows@.len(),
        forall|i: int| 0 <= i < r@.len() ==> #[trigger] r@[i] < rows@.len(),
{
    let mut keys: Vec<SortKey> = Vec::new();
    let mut i: usize = 0;
    let ghost all = Seq::new(
        rows@.len(),
        |i: int| SortKey { a: rows@[i].entrance_from, b: rows@[i].entrance_to, c: 0, d: 0 },
    );
    while i < rows.len()
        invariant
            i <= rows@.len(),
            all == Seq::new(
                rows@.len(),
                |i: int| SortKey { a: rows@[i].entrance_from, b: rows@[i].entrance_to, c: 0, d: 0 },
            ),
            keys@ == all.take(i as int),
        decreases rows@.len() - i,
    {
        keys.push(SortKey { a: rows[i].entrance_from, b: rows[i].entrance_to, c: 0, d: 0 });
        assert(keys@ =~= all.take(i + 1));
        i += 1;
    }
    assert(keys@ =~= all);
    stable_order(&keys)
}

fn order_inter(rows: &[ClusterInterConnection]) -> (r: Vec<usize>)
    ensures
        r@ == inter_order(rows@),
        r@.len() == rows@.len(),
        forall|i: int| 0 <= i < r@.len() ==> #[trigger] r@[i] < rows@.len(),
{
    let mut keys: Vec<SortKey> = Vec::new();
    let mut i: usize = 0;
    let ghost all = Seq::new(
        rows@.len(),
        |i: int| SortKey { a: rows@[i].entrance_from, b: rows@[i].entrance_to, c: 0, d: 0 },
    );
    while i < rows.len()
        invariant
            i <= rows@.len(),
            all == Seq::new(
                rows@.len(),
                |i: int| SortKey { a: rows@[i].entrance_from, b: rows@[i].entrance_to, c: 0, d: 0 },
            ),
            keys@ == all.take(i as int),
        decreases rows@.len() - i,
    {
        keys.push(SortKey { a: rows[i].entrance_from, b: rows[i].entrance_to, c: 0, d: 0 });
        assert(keys@ =~= all.take(i + 1));
        i += 1;
    }
    assert(keys@ =~= all);
    stable_order(&keys)
}

fn order_teleports(rows: &[AbstractTeleportEdge]) -> (r: Vec<usize>)
    ensures
        r@ == teleport_order(rows@),
        r@.len() == rows@.len(),
        forall|i: int| 0 <= i < r@.len() ==> #[trigger] r@[i] < rows@.len(),
{
    let mut keys: Vec<SortKey> = Vec::new();
    let mut i: usize = 0;
    let ghost all = Seq::new(
        rows@.len(),
        |i: int| SortKey {
            a: or_least(rows@[i].src_entrance),
            b: or_least(rows@[i].dst_entrance),
            c: rows@[i].edge_id,
            d: 0,
        },
    );
    while i < rows.len()
        invariant
            i <= rows@.len(),
            all == Seq::new(
                rows@.len(),
                |i: int| SortKey {
                    a: or_least(rows@[i].src_entrance),
                    b: or_least(rows@[i].dst_entrance),
                    c: rows@[i].edge_id,
                    d: 0,
                },
            ),
            keys@ == all.take(i as int),
        decreases rows@.len() - i,
    {
        keys.push(SortKey { a: or_min(rows[i].src_entrance), b: or_min(rows[i].dst_entrance), c: rows[i].edge_id, d: 0 });
        assert(keys@ =~= all.take(i + 1));
        i += 1;
    }
    assert(keys@ =~= all);
    stable_order(&keys)
}

/// The entrances, the ends of the route and the connections.
fn build_base(inputs: &GraphInputs, options: &BuildOptions) -> (r: Builder)
    requires
        inputs.entrances@.len() < usize::MAX,
    ensures
        r.draft() == base_draft(*inputs, *options),
        r.next_id == -1,
{
    let mut b: Builder = Builder {
        nodes: Vec::new(),
        edges: Vec::new(),
        by_id: HashMap::new(),
        by_tile: HashMap::new(),
        next_id: -1,
        made: Vec::new(),
    };
    let rows: &[ClusterEntrance] = inputs.entrances;
    let order: Vec<usize> = order_entrances(rows);
    assert(edge_views(b.edges@) =~= Seq::empty());
    let mut i: usize = 0;
    while i < order.len()
        invariant
            i <= order@.len(),
            order@ == entrance_order(rows@),
            order@.len() == rows@.len(),
            forall|k: int| 0 <= k < order@.len() ==> #[trigger] order@[k] < rows@.len(),
            b.next_id == -1,
            b.nodes@.len() == i,
            b.draft() == with_entrances(rows@, order@, i as int),
        decreases order@.len() - i,
    {
        let e: &ClusterEntrance = &rows[order[i]];
        let t: Tile = Tile { x: e.x as i32, y: e.y as i32, plane: e.plane as i32 };
        b.nodes.push(
            Node {
                id: NodeId(i),
                kind: NodeKind::Entrance {
                    entrance_id: e.entrance_id,
                    cluster_id: e.cluster_id,
                    x: t.x,
                    y: t.y,
                    plane: t.plane,
                },
            },
        );
        b.by_id.insert(e.entrance_id, i);
        b.by_tile.insert(key_of_tile(t), i);
        i += 1;
    }
    let n: usize = b.nodes.len();
    b.nodes.push(Node { id: NodeId(n), kind: NodeKind::VirtualStart(options.start) });
    b.nodes.push(Node { id: NodeId(n + 1), kind: NodeKind::VirtualEnd(options.end) });
    let ghost d0 = b.draft();
    assert(d0 == with_ends(with_entrances(rows@, order@, rows@.len() as int), *options));
    let intra: &[ClusterIntraConnection] = inputs.intra;
    let order: Vec<usize> = order_intra(intra);
    let mut i: usize = 0;
    while i < order.len()
        invariant
            i <= order@.len(),
            order@ == intra_order(intra@),
            order@.len() == intra@.len(),
            forall|k: int| 0 <= k < order@.len() ==> #[trigger] order@[k] < intra@.len(),
            b.next_id == -1,
            b.by_id@ == d0.by_id,
            b.draft() == with_intra(d0, intra@, order@, i as int),
        decreases order@.len() - i,
    {
        let c: &ClusterIntraConnection = &intra[order[i]];
        let from: Option<usize> = b.known(Some(c.entrance_from));
        let to: Option<usize> = b.known(Some(c.entrance_to));
        if let (Some(from), Some(to)) = (from, to) {
            b.push_edge(
                Edge {
                    from: NodeId(from),
                    to: NodeId(to),
                    cost: c.cost,
                    kind: EdgeKind::Intra { path_blob: copy_blob(&c.path_blob) },
                },
            );
        }
        i += 1;
    }
    let ghost d1 = b.draft();
    let inter: &[ClusterInterConnection] = inputs.inter;
    let order: Vec<usize> = order_inter(inter);
    let mut i: usize = 0;
    while i < order.len()
        invariant
            i <= order@.len(),
            order@ == inter_order(inter@),
            order@.len() == inter@.len(),
            forall|k: int| 0 <= k < order@.len() ==> #[trigger] order@[k] < inter@.len(),
            b.next_id == -1,
            b.by_id@ == d1.by_id,
            b.draft() == with_inter(d1, inter@, order@, i as int),
        decreases order@.len() - i,
    {
        let c: &ClusterInterConnection = &inter[order[i]];
        let from: Option<usize> = b.known(Some(c.entrance_from));
        let to: Option<usize> = b.known(Some(c.entrance_to));
        if let (Some(from), Some(to)) = (from, to) {
            b.push_edge(Edge { from: NodeId(from), to: NodeId(to), cost: c.cost, kind: EdgeKind::Inter });
        }
        i += 1;
    }
    b
}

/// Builds the abstract graph of the rows: a node per entrance in the order of their ids, the
/// two ends of the route, nodes for the tiles of teleports that no entrance stands on, and the
/// edges that the caller may use.
pub fn build_graph(
    inputs: &GraphInputs,
    evaluator: &RequirementEvaluator,
    options: &BuildOptions,
    cluster_tiles: &ClusterTiles,
) -> (r: Graph)
    requires
        cluster_tiles.wf(),
        inputs.entrances@.len() < usize::MAX,
        inputs.teleports@.len() < 0x2000_0000_0000_0000,
    ensures
        r.nodes@ == graph_draft(*inputs, evaluator@, *options, *cluster_tiles).nodes,
        edge_views(r.edges@) == graph_draft(*inputs, evaluator@, *options, *cluster_tiles).edges,
{
    let mut b: Builder = build_base(inputs, options);
    let start: usize = inputs.entrances.len();
    let ghost d = b.draft();
    let rows: &[AbstractTeleportEdge] = inputs.teleports;
    let order: Vec<usize> = order_teleports(rows);
    let mut i: usize = 0;
    while i < order.len()
        invariant
            i <= order@.len(),
            cluster_tiles.wf(),
            rows@ == inputs.teleports@,
            rows@.len() < 0x2000_0000_0000_0000,
            order@ == teleport_order(rows@),
            order@.len() == rows@.len(),
            forall|k: int| 0 <= k < order@.len() ==> #[trigger] order@[k] < rows@.len(),
            b.next_id >= -1 - 2 * i,
            b.draft() == with_teleports(
                d,
                rows@,
                order@,
                evaluator@,
                inputs.teleport_requirements@,
                *cluster_tiles,
                start,
                i as int,
            ),
        decreases order@.len() - i,
    {
        let t: &AbstractTeleportEdge = &rows[order[i]];
        let ok: bool = allowed(evaluator, inputs.teleport_requirements, t.requirement_id);
        b.add_teleport(t, ok, cluster_tiles, start);
        i += 1;
    }
    Graph { nodes: b.nodes, edges: b.edges }
}

// ---- what holds of every graph ----

/// Whether an edge joins nodes and, where it is a teleport, the caller may use it.
pub open spec fn edge_ok(e: EdgeV, n: int, given: Seq<RequirementKV>, reqs: Seq<TeleportRequirement>) -> bool {
    &&& e.from < n
    &&& e.to < n
    &&& e.kind matches EdgeKindV::Teleport { requirement_id, .. } ==> teleport_allowed(given, reqs, requirement_id)
}

/// Whether everything that is known of a draft points at its nodes.
pub open spec fn draft_ok(d: Draft, given: Seq<RequirementKV>, reqs: Seq<TeleportRequirement>) -> bool {
    &&& forall|e: i64| #[trigger] d.by_id.contains_key(e) ==> d.by_id[e] < d.nodes.len()
    &&& forall|k: u128| #[trigger] d.by_tile.contains_key(k) ==> d.by_tile[k] < d.nodes.len()
    &&& forall|i: int| 0 <= i < d.edges.len() ==> edge_ok(#[trigger] d.edges[i], d.nodes.len() as int, given, reqs)
}

/// Whether `b` has the nodes of `a`, and maybe more behind them.
pub open spec fn extends(a: Draft, b: Draft) -> bool {
    a.nodes.len() <= b.nodes.len() && b.nodes.take(a.nodes.len() as int) == a.nodes
}

proof fn lemma_extends_trans(a: Draft, b: Draft, c: Draft)
    requires
        extends(a, b),
        extends(b, c),
    ensures
        extends(a, c),
{
    assert(c.nodes.take(a.nodes.len() as int) =~= b.nodes.take(a.nodes.len() as int));
}

proof fn lemma_extends_self(a: Draft)
    ensures
        extends(a, a),
{
    assert(a.nodes.take(a.nodes.len() as int) =~= a.nodes);
}

proof fn lemma_with_tile(d: Draft, t: Tile, tiles: ClusterTiles, given: Seq<RequirementKV>, reqs: Seq<TeleportRequirement>)
    requires
        draft_ok(d, given, reqs),
        with_tile(d, t, tiles).nodes.len() <= usize::MAX,
    ensures
        draft_ok(with_tile(d, t, tiles), given, reqs),
        node_at(with_tile(d, t, tiles), t) < with_tile(d, t, tiles).nodes.len(),
        extends(d, with_tile(d, t, tiles)),
        with_tile(d, t, tiles).edges == d.edges,
{
    let r = with_tile(d, t, tiles);
    assert(r.nodes.take(d.nodes.len() as int) =~= d.nodes);
    assert forall|i: int| 0 <= i < r.edges.len() implies edge_ok(#[trigger] r.edges[i], r.nodes.len() as int, given, reqs) by {
        assert(edge_ok(d.edges[i], d.nodes.len() as int, given, reqs));
    }
}

proof fn lemma_with_edge(
    d: Draft,
    from: usize,
    to: usize,
    t: AbstractTeleportEdge,
    given: Seq<RequirementKV>,
    reqs: Seq<TeleportRequirement>,
)
    requires
        draft_ok(d, given, reqs),
        from < d.nodes.len(),
        to < d.nodes.len(),
        teleport_allowed(given, reqs, t.requirement_id),
    ensures
        draft_ok(with_edge(d, from, to, t), given, reqs),
        with_edge(d, from, to, t).nodes == d.nodes,
        with_edge(d, from, to, t).by_id == d.by_id,
{
}

proof fn lemma_with_teleport(
    d: Draft,
    t: AbstractTeleportEdge,
    tiles: ClusterTiles,
    start: usize,
    given: Seq<RequirementKV>,
    reqs: Seq<TeleportRequirement>,
)
    requires
        draft_ok(d, given, reqs),
        start < d.nodes.len(),
        with_teleport(d, t, teleport_allowed(given, reqs, t.requirement_id), tiles, start).nodes.len() <= usize::MAX,
    ensures
        draft_ok(with_teleport(d, t, teleport_allowed(given, reqs, t.requirement_id), tiles, start), given, reqs),
        extends(d, with_teleport(d, t, teleport_allowed(given, reqs, t.requirement_id), tiles, start)),
{
    let d1 = with_destination(d, t, tiles);
    let d2 = with_source(d1, t, tiles);
    assert(d1.nodes.len() <= d2.nodes.len());
    lemma_extends_self(d);
    lemma_extends_self(d1);
    if known_node(d, t.dst_entrance) is None {
        lemma_with_tile(d, dst_tile(t), tiles, given, reqs);
    }
    if known_node(d1, t.src_entrance) is None && src_tile(t) is Some {
        lemma_with_tile(d1, src_tile(t)->0, tiles, given, reqs);
    }
    lemma_extends_trans(d, d1, d2);
    let to = destination(d, t, tiles);
    let from = source(d1, t, tiles, start);
    if teleport_allowed(given, reqs, t.requirement_id) {
        lemma_with_edge(d2, from, to, t, given, reqs);
    }
}

proof fn lemma_with_teleports(
    d: Draft,
    rows: Seq<AbstractTeleportEdge>,
    order: Seq<usize>,
    given: Seq<RequirementKV>,
    reqs: Seq<TeleportRequirement>,
    tiles: ClusterTiles,
    start: usize,
    k: int,
)
    requires
        draft_ok(d, given, reqs),
        start < d.nodes.len(),
        0 <= k,
        with_teleports(d, rows, order, given, reqs, tiles, start, k).nodes.len() <= usize::MAX,
    ensures
        draft_ok(with_teleports(d, rows, order, given, reqs, tiles, start, k), given, reqs),
        extends(d, with_teleports(d, rows, order, given, reqs, tiles, start, k)),
    decreases k,
{
    if k <= 0 {
        lemma_extends_self(d);
    } else {
        let p = with_teleports(d, rows, order, given, reqs, tiles, start, k - 1);
        let t = rows[order[k - 1] as int];
        let ok = teleport_allowed(given, reqs, t.requirement_id);
        let r = with_teleports(d, rows, order, given, reqs, tiles, start, k);
        assert(p.nodes.len() <= with_destination(p, t, tiles).nodes.len());
        assert(with_destination(p, t, tiles).nodes.len() <= with_source(with_destination(p, t, tiles), t, tiles).nodes.len());
        lemma_with_teleports(d, rows, order, given, reqs, tiles, start, k - 1);
        lemma_with_teleport(p, t, tiles, start, given, reqs);
        lemma_extends_trans(d, p, r);
    }
}

proof fn lemma_with_entrances(rows: Seq<ClusterEntrance>, order: Seq<usize>, k: int)
    requires
        0 <= k <= usize::MAX,
    ensures
        ({
            let d = with_entrances(rows, order, k);
            &&& d.nodes.len() == k
            &&& d.edges.len() == 0
            &&& forall|e: i64| #[trigger] d.by_id.contains_key(e) ==> d.by_id[e] < k
            &&& forall|t: u128| #[trigger] d.by_tile.contains_key(t) ==> d.by_tile[t] < k
            &&& forall|i: int| 0 <= i < k ==> #[trigger] d.nodes[i] == entrance_node(rows[order[i] as int], i)
        }),
    decreases k,
{
    if k > 0 {
        lemma_with_entrances(rows, order, k - 1);
    }
}

proof fn lemma_with_intra(
    d: Draft,
    rows: Seq<ClusterIntraConnection>,
    order: Seq<usize>,
    k: int,
    given: Seq<RequirementKV>,
    reqs: Seq<TeleportRequirement>,
)
    requires
        draft_ok(d, given, reqs),
    ensures
        draft_ok(with_intra(d, rows, order, k), given, reqs),
        with_intra(d, rows, order, k).nodes == d.nodes,
    decreases k,
{
    if k > 0 {
        lemma_with_intra(d, rows, order, k - 1, given, reqs);
    }
}

proof fn lemma_with_inter(
    d: Draft,
    rows: Seq<ClusterInterConnection>,
    order: Seq<usize>,
    k: int,
    given: Seq<RequirementKV>,
    reqs: Seq<TeleportRequirement>,
)
    requires
        draft_ok(d, given, reqs),
    ensures
        draft_ok(with_inter(d, rows, order, k), given, reqs),
        with_inter(d, rows, order, k).nodes == d.nodes,
    decreases k,
{
    if k > 0 {
        lemma_with_inter(d, rows, order, k - 1, given, reqs);
    }
}

/// In every graph the entrances come first, in the order of their ids, then the start and the
/// end of the route; every edge joins nodes of the graph; and no teleport edge stands there
/// whose requirement the caller does not meet.
pub proof fn law_graph_is_sound(inputs: GraphInputs, given: Seq<RequirementKV>, o: BuildOptions, tiles: ClusterTiles)
    requires
        graph_draft(inputs, given, o, tiles).nodes.len() <= usize::MAX,
    ensures
        ({
            let g = graph_draft(inputs, given, o, tiles);
            let n = inputs.entrances@.len() as int;
            let order = entrance_order(inputs.entrances@);
            &&& draft_ok(g, given, inputs.teleport_requirements@)
            &&& g.nodes.len() >= n + 2
            &&& forall|i: int| 0 <= i < n ==> #[trigger] g.nodes[i] == entrance_node(inputs.entrances@[order[i] as int], i)
            &&& g.nodes[n].kind == NodeKind::VirtualStart(o.start)
            &&& g.nodes[n + 1].kind == NodeKind::VirtualEnd(o.end)
        }),
{
    let reqs = inputs.teleport_requirements@;
    let e = inputs.entrances@;
    let order = entrance_order(e);
    let n = e.len() as int;
    let dn = with_entrances(e, order, n);
    let g = graph_draft(inputs, given, o, tiles);
    let base = base_draft(inputs, o);
    lemma_nodes_grow(
        base,
        inputs.teleports@,
        teleport_order(inputs.teleports@),
        given,
        reqs,
        tiles,
        e.len() as usize,
        inputs.teleports@.len() as int,
    );
    lemma_base_nodes(inputs, o);
    lemma_with_entrances(e, order, n);
    let d0 = with_ends(dn, o);
    assert(draft_ok(d0, given, reqs));
    let d1 = with_intra(d0, inputs.intra@, intra_order(inputs.intra@), inputs.intra@.len() as int);
    lemma_with_intra(d0, inputs.intra@, intra_order(inputs.intra@), inputs.intra@.len() as int, given, reqs);
    lemma_with_inter(d1, inputs.inter@, inter_order(inputs.inter@), inputs.inter@.len() as int, given, reqs);
    lemma_with_teleports(
        base,
        inputs.teleports@,
        teleport_order(inputs.teleports@),
        given,
        reqs,
        tiles,
        e.len() as usize,
        inputs.teleports@.len() as int,
    );
    assert(g.nodes.take(n + 2) == d0.nodes);
    assert forall|i: int| 0 <= i < n implies #[trigger] g.nodes[i] == entrance_node(e[order[i] as int], i) by {
        assert(g.nodes.take(n + 2)[i] == dn.nodes[i]);
    }
    assert(g.nodes.take(n + 2)[n] == d0.nodes[n]);
    assert(g.nodes.take(n + 2)[n + 1] == d0.nodes[n + 1]);
}

proof fn lemma_base_nodes(inputs: GraphInputs, o: BuildOptions)
    ensures
        base_draft(inputs, o).nodes.len() == inputs.entrances@.len() + 2,
{
    let e = inputs.entrances@;
    lemma_count(e, entrance_order(e), e.len() as int);
    let d0 = with_ends(with_entrances(e, entrance_order(e), e.len() as int), o);
    lemma_intra_nodes(d0, inputs.intra@, intra_order(inputs.intra@), inputs.intra@.len() as int);
    let d1 = with_intra(d0, inputs.intra@, intra_order(inputs.intra@), inputs.intra@.len() as int);
    lemma_inter_nodes(d1, inputs.inter@, inter_order(inputs.inter@), inputs.inter@.len() as int);
}

proof fn lemma_count(rows: Seq<ClusterEntrance>, order: Seq<usize>, k: int)
    requires
        0 <= k,
    ensures
        with_entrances(rows, order, k).nodes.len() == k,
    decreases k,
{
    if k > 0 {
        lemma_count(rows, order, k - 1);
    }
}

proof fn lemma_intra_nodes(d: Draft, rows: Seq<ClusterIntraConnection>, order: Seq<usize>, k: int)
    ensures
        with_intra(d, rows, order, k).nodes == d.nodes,
    decreases k,
{
    if k > 0 {
        lemma_intra_nodes(d, rows, order, k - 1);
    }
}

proof fn lemma_inter_nodes(d: Draft, rows: Seq<ClusterInterConnection>, order: Seq<usize>, k: int)
    ensures
        with_inter(d, rows, order, k).nodes == d.nodes,
    decreases k,
{
    if k > 0 {
        lemma_inter_nodes(d, rows, order, k - 1);
    }
}

proof fn lemma_nodes_grow(
    d: Draft,
    rows: Seq<AbstractTeleportEdge>,
    order: Seq<usize>,
    given: Seq<RequirementKV>,
    reqs: Seq<TeleportRequirement>,
    tiles: ClusterTiles,
    start: usize,
    k: int,
)
    ensures
        d.nodes.len() <= with_teleports(d, rows, order, given, reqs, tiles, start, k).nodes.len(),
    decreases k,
{
    if k > 0 {
        lemma_nodes_grow(d, rows, order, given, reqs, tiles, start, k - 1);
        let p = with_teleports(d, rows, order, given, reqs, tiles, start, k - 1);
        let t = rows[order[k - 1] as int];
        assert(p.nodes.len() <= with_destination(p, t, tiles).nodes.len());
        assert(with_destination(p, t, tiles).nodes.len() <= with_source(with_destination(p, t, tiles), t, tiles).nodes.len());
    }
}

/// Whether no row has a negative cost.
pub open spec fn rows_cost_nothing_negative(inputs: GraphInputs) -> bool {
    &&& forall|i: int| 0 <= i < inputs.intra@.len() ==> (#[trigger] inputs.intra@[i]).cost >= 0
    &&& forall|i: int| 0 <= i < inputs.inter@.len() ==> (#[trigger] inputs.inter@[i]).cost >= 0
    &&& forall|i: int| 0 <= i < inputs.teleports@.len() ==> (#[trigger] inputs.teleports@[i]).cost >= 0
}

/// The answer where a row has a negative cost, so that no way can be told to be cheapest.
#[derive(Debug, Clone, Copy, PartialEq, Eq, Structural)]
pub struct NegativeCost;

/// Whether no row has a negative cost, which the planners ask of their rows.
pub fn no_negative_costs(inputs: &GraphInputs) -> (r: bool)
    ensures
        r == rows_cost_nothing_negative(*inputs),
{
    let mut i: usize = 0;
    while i < inputs.intra.len()
        invariant
            i <= inputs.intra@.len(),
            forall|k: int| 0 <= k < i ==> (#[trigger] inputs.intra@[k]).cost >= 0,
        decreases inputs.intra@.len() - i,
    {
        if inputs.intra[i].cost < 0 {
            return false;
        }
        i += 1;
    }
    let mut j: usize = 0;
    while j < inputs.inter.len()
        invariant
            j <= inputs.inter@.len(),
            forall|k: int| 0 <= k < j ==> (#[trigger] inputs.inter@[k]).cost >= 0,
        decreases inputs.inter@.len() - j,
    {
        if inputs.inter[j].cost < 0 {
            return false;
        }
        j += 1;
    }
    let mut n: usize = 0;
    while n < inputs.teleports.len()
        invariant
            n <= inputs.teleports@.len(),
            forall|k: int| 0 <= k < n ==> (#[trigger] inputs.teleports@[k]).cost >= 0,
        decreases inputs.teleports@.len() - n,
    {
        if inputs.teleports[n].cost < 0 {
            return false;
        }
        n += 1;
    }
    true
}

pub open spec fn costs_ok(d: Draft) -> bool {
    forall|i: int| 0 <= i < d.edges.len() ==> (#[trigger] d.edges[i]).cost >= 0
}

proof fn lemma_intra_costs(d: Draft, rows: Seq<ClusterIntraConnection>, order: Seq<usize>, k: int)
    requires
        costs_ok(d),
        forall|i: int| 0 <= i < rows.len() ==> (#[trigger] rows[i]).cost >= 0,
        forall|i: int| 0 <= i < k ==> #[trigger] order[i] < rows.len(),
    ensures
        costs_ok(with_intra(d, rows, order, k)),
    decreases k,
{
    if k > 0 {
        lemma_intra_costs(d, rows, order, k - 1);
        assert(order[k - 1] < rows.len());
        assert(rows[order[k - 1] as int].cost >= 0);
    }
}

proof fn lemma_inter_costs(d: Draft, rows: Seq<ClusterInterConnection>, order: Seq<usize>, k: int)
    requires
        costs_ok(d),
        forall|i: int| 0 <= i < rows.len() ==> (#[trigger] rows[i]).cost >= 0,
        forall|i: int| 0 <= i < k ==> #[trigger] order[i] < rows.len(),
    ensures
        costs_ok(with_inter(d, rows, order, k)),
    decreases k,
{
    if k > 0 {
        lemma_inter_costs(d, rows, order, k - 1);
        assert(order[k - 1] < rows.len());
        assert(rows[order[k - 1] as int].cost >= 0);
    }
}

proof fn lemma_teleport_costs(
    d: Draft,
    rows: Seq<AbstractTeleportEdge>,
    order: Seq<usize>,
    given: Seq<RequirementKV>,
    reqs: Seq<TeleportRequirement>,
    tiles: ClusterTiles,
    start: usize,
    k: int,
)
    requires
        costs_ok(d),
        forall|i: int| 0 <= i < rows.len() ==> (#[trigger] rows[i]).cost >= 0,
        forall|i: int| 0 <= i < k ==> #[trigger] order[i] < rows.len(),
    ensures
        costs_ok(with_teleports(d, rows, order, given, reqs, tiles, start, k)),
    decreases k,
{
    if k > 0 {
        lemma_teleport_costs(d, rows, order, given, reqs, tiles, start, k - 1);
        assert(order[k - 1] < rows.len());
        let t = rows[order[k - 1] as int];
        assert(t.cost >= 0);
        let p = with_teleports(d, rows, order, given, reqs, tiles, start, k - 1);
        let d1 = with_destination(p, t, tiles);
        let d2 = with_source(d1, t, tiles);
        assert(d2.edges == p.edges);
        let d3 = with_edge(d2, source(d1, t, tiles, start), destination(p, t, tiles), t);
        assert(costs_ok(d3));
    }
}

/// Where no row has a negative cost, no edge of the graph has one.
pub proof fn law_costs_stay_nonnegative(inputs: GraphInputs, given: Seq<RequirementKV>, o: BuildOptions, tiles: ClusterTiles)
    requires
        rows_cost_nothing_negative(inputs),
        inputs.intra@.len() <= usize::MAX,
        inputs.inter@.len() <= usize::MAX,
        inputs.teleports@.len() <= usize::MAX,
    ensures
        costs_ok(graph_draft(inputs, given, o, tiles)),
{
    let e = inputs.entrances@;
    let d0 = with_ends(with_entrances(e, entrance_order(e), e.len() as int), o);
    lemma_no_edges(e, entrance_order(e), e.len() as int);
    lemma_sorted_positions(
        Seq::new(
            inputs.intra@.len(),
            |i: int| SortKey { a: inputs.intra@[i].entrance_from, b: inputs.intra@[i].entrance_to, c: 0, d: 0 },
        ),
    );
    lemma_sorted_positions(
        Seq::new(
            inputs.inter@.len(),
            |i: int| SortKey { a: inputs.inter@[i].entrance_from, b: inputs.inter@[i].entrance_to, c: 0, d: 0 },
        ),
    );
    lemma_sorted_positions(
        Seq::new(
            inputs.teleports@.len(),
            |i: int| SortKey {
                a: or_least(inputs.teleports@[i].src_entrance),
                b: or_least(inputs.teleports@[i].dst_entrance),
                c: inputs.teleports@[i].edge_id,
                d: 0,
            },
        ),
    );
    lemma_intra_costs(d0, inputs.intra@, intra_order(inputs.intra@), inputs.intra@.len() as int);
    let d1 = with_intra(d0, inputs.intra@, intra_order(inputs.intra@), inputs.intra@.len() as int);
    lemma_inter_costs(d1, inputs.inter@, inter_order(inputs.inter@), inputs.inter@.len() as int);
    lemma_teleport_costs(
        base_draft(inputs, o),
        inputs.teleports@,
        teleport_order(inputs.teleports@),
        given,
        inputs.teleport_requirements@,
        tiles,
        e.len() as usize,
        inputs.teleports@.len() as int,
    );
}

proof fn lemma_no_edges(rows: Seq<ClusterEntrance>, order: Seq<usize>, k: int)
    ensures
        with_entrances(rows, order, k).edges.len() == 0,
    decreases k,
{
    if k > 0 {
        lemma_no_edges(rows, order, k - 1);
    }
}

/// Whether no two rows of one kind go by the same ids: entrances by their own, connections by those
/// of their two ends, teleports by their own.
pub open spec fn rows_told_apart(inputs: GraphInputs) -> bool {
    let (e, a, b, t) = (inputs.entrances@, inputs.intra@, inputs.inter@, inputs.teleports@);
    &&& forall|i: int, j: int| #![trigger e[i], e[j]] 0 <= i < j < e.len() ==> e[i].entrance_id != e[j].entrance_id
    &&& forall|i: int, j: int|
        #![trigger a[i], a[j]]
        0 <= i < j < a.len() ==> a[i].entrance_from != a[j].entrance_from || a[i].entrance_to != a[j].entrance_to
    &&& forall|i: int, j: int|
        #![trigger b[i], b[j]]
        0 <= i < j < b.len() ==> b[i].entrance_from != b[j].entrance_from || b[i].entrance_to != b[j].entrance_to
    &&& forall|i: int, j: int| #![trigger t[i], t[j]] 0 <= i < j < t.len() ==> t[i].edge_id != t[j].edge_id
}

/// Whether two orders list the same rows one after the other.
spec fn same_rows<T>(a: Seq<T>, order_a: Seq<usize>, b: Seq<T>, order_b: Seq<usize>) -> bool {
    &&& a.len() == b.len()
    &&& forall|k: int| 0 <= k < a.len() ==> a[#[trigger] order_a[k] as int] == b[order_b[k] as int]
}

proof fn lemma_same_entrances(a: Seq<ClusterEntrance>, oa: Seq<usize>, b: Seq<ClusterEntrance>, ob: Seq<usize>, k: int)
    requires
        same_rows(a, oa, b, ob),
        k <= a.len(),
    ensures
        with_entrances(a, oa, k) == with_entrances(b, ob, k),
    decreases k,
{
    if k > 0 {
        lemma_same_entrances(a, oa, b, ob, k - 1);
        assert(a[oa[k - 1] as int] == b[ob[k - 1] as int]);
    }
}

proof fn lemma_same_intra(
    d: Draft,
    a: Seq<ClusterIntraConnection>,
    oa: Seq<usize>,
    b: Seq<ClusterIntraConnection>,
    ob: Seq<usize>,
    k: int,
)
    requires
        same_rows(a, oa, b, ob),
        k <= a.len(),
    ensures
        with_intra(d, a, oa, k) == with_intra(d, b, ob, k),
    decreases k,
{
    if k > 0 {
        lemma_same_intra(d, a, oa, b, ob, k - 1);
        assert(a[oa[k - 1] as int] == b[ob[k - 1] as int]);
    }
}

proof fn lemma_same_inter(
    d: Draft,
    a: Seq<ClusterInterConnection>,
    oa: Seq<usize>,
    b: Seq<ClusterInterConnection>,
    ob: Seq<usize>,
    k: int,
)
    requires
        same_rows(a, oa, b, ob),
        k <= a.len(),
    ensures
        with_inter(d, a, oa, k) == with_inter(d, b, ob, k),
    decreases k,
{
    if k > 0 {
        lemma_same_inter(d, a, oa, b, ob, k - 1);
        assert(a[oa[k - 1] as int] == b[ob[k - 1] as int]);
    }
}

proof fn lemma_same_allowed(
    given: Seq<RequirementKV>,
    a: Seq<TeleportRequirement>,
    p: Seq<usize>,
    b: Seq<TeleportRequirement>,
    id: Option<i64>,
)
    requires
        shuffles(a, p, b),
        a.len() <= usize::MAX,
    ensures
        teleport_allowed(given, a, id) == teleport_allowed(given, b, id),
{
    if let Some(id) = id {
        if teleport_allowed(given, a, Some(id)) {
            assert forall|i: int| 0 <= i < b.len() && (#[trigger] b[i]).id == id implies condition_met(given, b[i]) by {
                assert(b[i] == a[p[i] as int]);
            }
        }
        if teleport_allowed(given, b, Some(id)) {
            assert forall|i: int| 0 <= i < a.len() && (#[trigger] a[i]).id == id implies condition_met(given, a[i]) by {
                assert(p.contains(i as usize));
                let j = choose|j: int| 0 <= j < p.len() && p[j] == i as usize;
                assert(b[j] == a[i]);
            }
        }
    }
}

proof fn lemma_same_teleports(
    d: Draft,
    a: Seq<AbstractTeleportEdge>,
    oa: Seq<usize>,
    b: Seq<AbstractTeleportEdge>,
    ob: Seq<usize>,
    given: Seq<RequirementKV>,
    reqs_a: Seq<TeleportRequirement>,
    p: Seq<usize>,
    reqs_b: Seq<TeleportRequirement>,
    tiles: ClusterTiles,
    start: usize,
    k: int,
)
    requires
        same_rows(a, oa, b, ob),
        shuffles(reqs_a, p, reqs_b),
        reqs_a.len() <= usize::MAX,
        k <= a.len(),
    ensures
        with_teleports(d, a, oa, given, reqs_a, tiles, start, k) == with_teleports(d, b, ob, given, reqs_b, tiles, start, k),
    decreases k,
{
    if k > 0 {
        lemma_same_teleports(d, a, oa, b, ob, given, reqs_a, p, reqs_b, tiles, start, k - 1);
        assert(a[oa[k - 1] as int] == b[ob[k - 1] as int]);
        lemma_same_allowed(given, reqs_a, p, reqs_b, a[oa[k - 1] as int].requirement_id);
    }
}

proof fn lemma_keys_differ(inputs: GraphInputs)
    requires
        rows_told_apart(inputs),
    ensures
        keys_differ(entrance_keys(inputs.entrances@)),
        keys_differ(intra_keys(inputs.intra@)),
        keys_differ(inter_keys(inputs.inter@)),
        keys_differ(teleport_keys(inputs.teleports@)),
{
    let (e, a, b, t) = (inputs.entrances@, inputs.intra@, inputs.inter@, inputs.teleports@);
    let (ke, ka, kb, kt) = (entrance_keys(e), intra_keys(a), inter_keys(b), teleport_keys(t));
    assert forall|i: int, j: int| #![trigger ka[i], ka[j]] 0 <= i < j < ka.len() implies ka[i] != ka[j] by {
        assert(a[i].entrance_from != a[j].entrance_from || a[i].entrance_to != a[j].entrance_to);
    }
    assert forall|i: int, j: int| #![trigger kb[i], kb[j]] 0 <= i < j < kb.len() implies kb[i] != kb[j] by {
        assert(b[i].entrance_from != b[j].entrance_from || b[i].entrance_to != b[j].entrance_to);
    }
    assert forall|i: int, j: int| #![trigger kt[i], kt[j]] 0 <= i < j < kt.len() implies kt[i] != kt[j] by {
        assert(t[i].edge_id != t[j].edge_id);
    }
}

/// The graph does not depend on the order in which its rows are given, as long as the rows of
/// each kind can be told apart by their ids: it has the same nodes and the same edges, in the same
/// order.
pub proof fn law_order_of_rows_does_not_matter(
    a: GraphInputs,
    b: GraphInputs,
    entrances: Seq<usize>,
    intra: Seq<usize>,
    inter: Seq<usize>,
    teleports: Seq<usize>,
    requirements: Seq<usize>,
    given: Seq<RequirementKV>,
    o: BuildOptions,
    tiles: ClusterTiles,
)
    requires
        rows_told_apart(a),
        shuffles(a.entrances@, entrances, b.entrances@),
        shuffles(a.intra@, intra, b.intra@),
        shuffles(a.inter@, inter, b.inter@),
        shuffles(a.teleports@, teleports, b.teleports@),
        shuffles(a.teleport_requirements@, requirements, b.teleport_requirements@),
        a.entrances@.len() <= usize::MAX,
        a.intra@.len() <= usize::MAX,
        a.inter@.len() <= usize::MAX,
        a.teleports@.len() <= usize::MAX,
        a.teleport_requirements@.len() <= usize::MAX,
    ensures
        graph_draft(a, given, o, tiles).nodes == graph_draft(b, given, o, tiles).nodes,
        graph_draft(a, given, o, tiles).edges == graph_draft(b, given, o, tiles).edges,
{
    lemma_keys_differ(a);
    let (ea, eb) = (a.entrances@, b.entrances@);
    lemma_same_order(entrance_keys(ea), entrances, entrance_keys(eb));
    assert(same_rows(ea, entrance_order(ea), eb, entrance_order(eb)));
    lemma_same_entrances(ea, entrance_order(ea), eb, entrance_order(eb), ea.len() as int);
    let d0 = with_ends(with_entrances(ea, entrance_order(ea), ea.len() as int), o);
    let (ia, ib) = (a.intra@, b.intra@);
    lemma_same_order(intra_keys(ia), intra, intra_keys(ib));
    lemma_same_intra(d0, ia, intra_order(ia), ib, intra_order(ib), ia.len() as int);
    let d1 = with_intra(d0, ia, intra_order(ia), ia.len() as int);
    let (xa, xb) = (a.inter@, b.inter@);
    lemma_same_order(inter_keys(xa), inter, inter_keys(xb));
    lemma_same_inter(d1, xa, inter_order(xa), xb, inter_order(xb), xa.len() as int);
    let (ta, tb) = (a.teleports@, b.teleports@);
    lemma_same_order(teleport_keys(ta), teleports, teleport_keys(tb));
    lemma_same_teleports(
        base_draft(a, o),
        ta,
        teleport_order(ta),
        tb,
        teleport_order(tb),
        given,
        a.teleport_requirements@,
        requirements,
        b.teleport_requirements@,
        tiles,
        ea.len() as usize,
        ta.len() as int,
    );
}

}
