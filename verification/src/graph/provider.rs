//! The edges that lead from a tile: steps, doors, and nodes of every other kind.

use crate::cost::CostModel;
use crate::graph::chain_index::{build_chain_head_index, ChainHeadIndex};
use crate::graph::movement::{decode_allowed_mask_str, mask_from_tiledata, movement_order, Movement};
use crate::graph::nodes::{req_passes, ChainResolution, NodeChainResolver, NodeKind, NodeTables};
use crate::graph::tables::{NodeRow, Place, TileRow, TileTable};
use crate::json::Json;
use crate::models::{NodeRef, Tile};
use crate::options::SearchOptions;
use crate::sort::{stable_order, SortKey};
use crate::text::owned;
use vstd::prelude::*;
#[allow(unused_imports)]
use crate::cost::node_price;
#[allow(unused_imports)]
use crate::graph::chain_index::is_handed_to;
#[allow(unused_imports)]
use crate::graph::movement::{allowed_mask, steps_in_order, tiledata_mask};
#[allow(unused_imports)]
use crate::graph::nodes::{capped, chain_end, chase, is_chain, links_cost, passes, plain_name, LinkV};
#[allow(unused_imports)]
use crate::graph::tables::{first_tile, tile_known};
#[allow(unused_imports)]
use crate::json::{array_view, lemma_array_view, member, JsonV};
#[allow(unused_imports)]
use crate::models::NodeRefV;
#[allow(unused_imports)]
use crate::sort::{is_stable_order, lemma_sorted_positions, sorted_positions};

verus! {

/// A way from one tile to another.
#[derive(Debug)]
pub struct Edge {
    pub type_: String,
    pub from_tile: Tile,
    pub to_tile: Tile,
    pub cost_ms: i64,
    pub node: Option<NodeRef>,
    pub metadata: Option<Json>,
}

pub struct EdgeV {
    pub type_: Seq<char>,
    pub from_tile: Tile,
    pub to_tile: Tile,
    pub cost_ms: i64,
    pub node: Option<NodeRefV>,
    pub metadata: Option<JsonV>,
}

impl View for Edge {
    type V = EdgeV;

    open spec fn view(&self) -> EdgeV {
        EdgeV {
            type_: self.type_@,
            from_tile: self.from_tile,
            to_tile: self.to_tile,
            cost_ms: self.cost_ms,
            node: match self.node {
                Some(n) => Some(n@),
                None => None,
            },
            metadata: match self.metadata {
                Some(m) => Some(m@),
                None => None,
            },
        }
    }
}

impl Edge {
    pub fn copy(&self) -> (r: Edge)
        ensures
            r@ == self@,
    {
        Edge {
            type_: self.type_.clone(),
            from_tile: self.from_tile,
            to_tile: self.to_tile,
            cost_ms: self.cost_ms,
            node: match &self.node {
                Some(n) => Some(n.copy()),
                None => None,
            },
            metadata: match &self.metadata {
                Some(m) => Some(m.copy()),
                None => None,
            },
        }
    }
}

pub open spec fn edges_view(s: Seq<Edge>) -> Seq<EdgeV> {
    s.map_values(|e: Edge| e@)
}

/// Why a provider could not read its edges.
#[derive(Debug)]
pub struct ReadError {
    pub message: String,
}

/// What gives the edges that lead from a tile. Of a provider that does not tell its edges, nothing is
/// known but that it gives some or fails.
pub trait GraphProvider {
    /// Whether the provider tells which edges it gives.
    open spec fn tells(&self) -> bool {
        false
    }

    /// The edges that lead from a tile, in their order, of a provider that tells them.
    open spec fn edges_from(&self, tile: Tile, goal: Tile, options: SearchOptions) -> Seq<EdgeV> {
        Seq::empty()
    }

    /// Whether reading the edges may fail.
    open spec fn may_fail(&self) -> bool {
        true
    }

    fn neighbors(&self, tile: Tile, goal: Tile, options: &SearchOptions) -> (r: Result<Vec<Edge>, ReadError>)
        ensures
            self.tells() && r is Ok ==> edges_view(r->Ok_0@) == self.edges_from(tile, goal, *options),
            !self.may_fail() ==> r is Ok,
    ;
}

/// The tile that a step leads to, where the coordinates go that far.
pub open spec fn stepped(t: Tile, dx: int, dy: int) -> Option<Tile> {
    if i32::MIN <= t.x + dx <= i32::MAX && i32::MIN <= t.y + dy <= i32::MAX {
        Some(Tile { x: (t.x + dx) as i32, y: (t.y + dy) as i32, plane: t.plane })
    } else {
        None
    }
}

/// The tile that a step leads to.
pub fn step_from(t: Tile, dx: i32, dy: i32) -> (r: Option<Tile>)
    ensures
        r == stepped(t, dx as int, dy as int),
{
    let x: i64 = t.x as i64 + dx as i64;
    let y: i64 = t.y as i64 + dy as i64;
    if i32::MIN as i64 <= x && x <= i32::MAX as i64 && i32::MIN as i64 <= y && y <= i32::MAX as i64 {
        Some(Tile { x: x as i32, y: y as i32, plane: t.plane })
    } else {
        None
    }
}

/// The steps that a tile lets one take: by its data where it has any, else by its directions.
pub open spec fn open_steps(row: TileRow) -> u32 {
    match row.tiledata {
        Some(v) => tiledata_mask(v),
        None => match row.allowed_directions {
            Some(s) => allowed_mask(s@),
            None => 0,
        },
    }
}

pub open spec fn move_edge(from: Tile, to: Tile, cost: i64) -> EdgeV {
    EdgeV { type_: "move"@, from_tile: from, to_tile: to, cost_ms: cost, node: None, metadata: None }
}

/// Whether a step leads from a tile to one that is there.
pub open spec fn takes(tiles: Seq<TileRow>, mask: u32, from: Tile, m: Movement) -> bool {
    mask & m.flag() != 0 && match stepped(from, m.offset().0, m.offset().1) {
        Some(to) => tile_known(tiles, to),
        None => false,
    }
}

/// The edges of the first `k` steps in order.
pub open spec fn move_edges(tiles: Seq<TileRow>, mask: u32, from: Tile, cost: i64, k: int) -> Seq<EdgeV>
    decreases k,
{
    if k <= 0 {
        Seq::empty()
    } else {
        let m = steps_in_order()[k - 1];
        let rest = move_edges(tiles, mask, from, cost, k - 1);
        if takes(tiles, mask, from, m) {
            rest.push(move_edge(from, stepped(from, m.offset().0, m.offset().1)->0, cost))
        } else {
            rest
        }
    }
}

/// Steps to the tiles around, along the axes first.
pub fn neighbors_movement(tiles: &TileTable, model: &CostModel, tile: Tile, row: &TileRow) -> (r: Vec<Edge>)
    ensures
        edges_view(r@) == move_edges(tiles@, open_steps(*row), tile, model.step_cost_ms, 8),
{
    let mask: u32 = match mask_from_tiledata(row.tiledata) {
        Some(m) => m,
        None => match &row.allowed_directions {
            Some(s) => decode_allowed_mask_str(Some(s.as_str())),
            None => decode_allowed_mask_str(None),
        },
    };
    let order: [Movement; 8] = movement_order();
    let mut edges: Vec<Edge> = Vec::new();
    let mut i: usize = 0;
    assert(edges_view(edges@) =~= Seq::<EdgeV>::empty());
    while i < 8
        invariant
            i <= 8,
            order@ == steps_in_order(),
            mask == open_steps(*row),
            edges_view(edges@) == move_edges(tiles@, mask, tile, model.step_cost_ms, i as int),
        decreases 8 - i,
    {
        let ghost before = edges_view(edges@);
        let m: Movement = order[i];
        if mask & m.bit() != 0 {
            if let Some(to) = step_from(tile, m.dx(), m.dy()) {
                if tiles.tile_exists(to) {
                    let e: Edge = Edge {
                        type_: owned("move"),
                        from_tile: tile,
                        to_tile: to,
                        cost_ms: model.step_cost_ms,
                        node: None,
                        metadata: None,
                    };
                    let ghost v = e@;
                    edges.push(e);
                    assert(edges_view(edges@) =~= before.push(v));
                }
            }
        }
        i += 1;
    }
    edges
}

/// A column of a row; null where there is none.
pub open spec fn column(row: NodeRow, name: Seq<char>) -> JsonV {
    match member(row.columns@, name) {
        Some(v) => v,
        None => JsonV::Null,
    }
}

fn column_of(row: &NodeRow, name: &str) -> (r: Json)
    ensures
        r@ == column(*row, name@),
{
    match row.columns.get(name) {
        Some(v) => v.copy(),
        None => Json::Null,
    }
}

/// Some columns of a row, under their names.
pub open spec fn columns_named(row: NodeRow, names: Seq<Seq<char>>) -> Map<Seq<char>, JsonV>
    decreases names.len(),
{
    if names.len() == 0 {
        Map::empty()
    } else {
        columns_named(row, names.drop_last()).insert(names.last(), column(row, names.last()))
    }
}

/// The columns that the edge of a node shows.
pub open spec fn shown(kind: NodeKind) -> Seq<Seq<char>> {
    match kind {
        NodeKind::Object => seq!["action"@, "object_id"@, "object_name"@, "match_type"@],
        NodeKind::Npc => seq!["action"@, "npc_id"@, "npc_name"@, "match_type"@],
        NodeKind::Ifslot => seq!["interface_id"@, "component_id"@, "slot_id"@, "click_id"@],
        NodeKind::Item => seq!["action"@, "item_id"@],
        NodeKind::Lodestone => seq!["lodestone"@],
        NodeKind::Door => seq!["real_id_open"@, "real_id_closed"@],
    }
}

fn shown_columns(kind: NodeKind) -> (r: Vec<&'static str>)
    ensures
        r@.map_values(|s: &'static str| s@) == shown(kind),
{
    let mut r: Vec<&'static str> = Vec::new();
    match kind {
        NodeKind::Object => {
            r.push("action");
            r.push("object_id");
            r.push("object_name");
            r.push("match_type");
        },
        NodeKind::Npc => {
            r.push("action");
            r.push("npc_id");
            r.push("npc_name");
            r.push("match_type");
        },
        NodeKind::Ifslot => {
            r.push("interface_id");
            r.push("component_id");
            r.push("slot_id");
            r.push("click_id");
        },
        NodeKind::Item => {
            r.push("action");
            r.push("item_id");
        },
        NodeKind::Lodestone => {
            r.push("lodestone");
        },
        NodeKind::Door => {
            r.push("real_id_open");
            r.push("real_id_closed");
        },
    }
    assert(r@.map_values(|s: &'static str| s@) =~= shown(kind));
    r
}

fn show(kind: NodeKind, row: &NodeRow) -> (r: Json)
    ensures
        r@ == JsonV::Obj(columns_named(*row, shown(kind))),
{
    let names: Vec<&'static str> = shown_columns(kind);
    let ghost all = shown(kind);
    let mut r: Json = Json::object();
    let mut i: usize = 0;
    assert(all.take(0) =~= Seq::<Seq<char>>::empty());
    while i < names.len()
        invariant
            i <= names@.len(),
            all == names@.map_values(|s: &'static str| s@),
            r@ == JsonV::Obj(columns_named(*row, all.take(i as int))),
        decreases names@.len() - i,
    {
        proof {
            assert(all.take(i + 1).drop_last() =~= all.take(i as int));
            assert(all[i as int] == names@[i as int]@);
        }
        r = r.with(names[i], column_of(row, names[i]));
        i += 1;
    }
    assert(all.take(i as int) =~= all);
    r
}

/// What the edge of a door tells: which way one goes through it, what its row says, and the
/// row itself.
pub open spec fn door_meta(row: NodeRow, way: Seq<char>) -> JsonV {
    JsonV::Obj(
        columns_named(row, shown(NodeKind::Door)).insert("door_direction"@, JsonV::Str(way)).insert(
            "db_door_direction"@,
            column(row, "direction"@),
        ).insert("action"@, column(row, "open_action"@)).insert("db_row"@, row.columns@),
    )
}

/// What the edge of a lodestone tells.
pub open spec fn lodestone_meta(row: NodeRow) -> JsonV {
    JsonV::Obj(
        columns_named(row, shown(NodeKind::Lodestone)).insert("target_lodestone"@, column(row, "lodestone"@)).insert(
            "db_row"@,
            row.columns@,
        ),
    )
}

/// What the edge of another node tells: some columns and the row itself.
pub open spec fn node_meta(kind: NodeKind, row: NodeRow) -> JsonV {
    JsonV::Obj(columns_named(row, shown(kind)).insert("db_row"@, row.columns@))
}

/// A way that a row opens, before it is written as an edge.
pub struct Lead {
    pub row: usize,
    pub to: Tile,
    pub cost_ms: i64,
    /// Whether it goes out through a door.
    pub out: bool,
}

/// The edge of a way.
pub open spec fn lead_edge(kind: NodeKind, rows: Seq<NodeRow>, from: Tile, l: Lead) -> EdgeV {
    let row = rows[l.row as int];
    EdgeV {
        type_: kind.label(),
        from_tile: from,
        to_tile: l.to,
        cost_ms: l.cost_ms,
        node: Some(NodeRefV { type_: kind.label(), id: row.id }),
        metadata: Some(
            match kind {
                NodeKind::Door => door_meta(row, if l.out { "OUT"@ } else { "IN"@ }),
                NodeKind::Lodestone => lodestone_meta(row),
                _ => node_meta(kind, row),
            },
        ),
    }
}

pub open spec fn lead_edges(kind: NodeKind, rows: Seq<NodeRow>, from: Tile, leads: Seq<Lead>) -> Seq<EdgeV> {
    leads.map_values(|l: Lead| lead_edge(kind, rows, from, l))
}

fn edge_of(kind: NodeKind, rows: &Vec<NodeRow>, from: Tile, l: &Lead) -> (r: Edge)
    requires
        l.row < rows@.len(),
    ensures
        r@ == lead_edge(kind, rows@, from, *l),
{
    let row: &NodeRow = &rows[l.row];
    let base: Json = show(kind, row);
    let meta: Json = match kind {
        NodeKind::Door => base.with("door_direction", Json::text(if l.out { "OUT" } else { "IN" })).with(
            "db_door_direction",
            column_of(row, "direction"),
        ).with("action", column_of(row, "open_action")),
        NodeKind::Lodestone => base.with("target_lodestone", column_of(row, "lodestone")),
        _ => base,
    };
    Edge {
        type_: owned(kind.name()),
        from_tile: from,
        to_tile: l.to,
        cost_ms: l.cost_ms,
        node: Some(NodeRef::new(kind.name(), row.id)),
        metadata: Some(meta.with("db_row", row.columns.copy())),
    }
}

/// The sort key of a node's edge: doors by where they lead and then by their ids, other nodes by
/// their ids and then by where they lead.
pub open spec fn lead_key(kind: NodeKind, rows: Seq<NodeRow>, l: Lead) -> SortKey {
    let id = rows[l.row as int].id as i64;
    if kind == NodeKind::Door {
        SortKey { a: l.to.x as i64, b: l.to.y as i64, c: l.to.plane as i64, d: id }
    } else {
        SortKey { a: id, b: l.to.x as i64, c: l.to.y as i64, d: l.to.plane as i64 }
    }
}

/// Ways in the order of their keys.
pub open spec fn sorted_leads(kind: NodeKind, rows: Seq<NodeRow>, leads: Seq<Lead>) -> Seq<Lead> {
    let order = sorted_positions(leads.map_values(|l: Lead| lead_key(kind, rows, l)));
    Seq::new(leads.len(), |i: int| leads[order[i] as int])
}

fn ordered_edges(kind: NodeKind, rows: &Vec<NodeRow>, from: Tile, leads: &Vec<Lead>) -> (r: Vec<Edge>)
    requires
        forall|i: int| 0 <= i < leads@.len() ==> (#[trigger] leads@[i]).row < rows@.len(),
    ensures
        edges_view(r@) == lead_edges(kind, rows@, from, sorted_leads(kind, rows@, leads@)),
{
    let ghost want = leads@.map_values(|l: Lead| lead_key(kind, rows@, l));
    let mut keys: Vec<SortKey> = Vec::new();
    let mut i: usize = 0;
    while i < leads.len()
        invariant
            i <= leads@.len(),
            keys@.len() == i,
            want == leads@.map_values(|l: Lead| lead_key(kind, rows@, l)),
            forall|j: int| 0 <= j < leads@.len() ==> (#[trigger] leads@[j]).row < rows@.len(),
            forall|j: int| 0 <= j < i ==> #[trigger] keys@[j] == want[j],
        decreases leads@.len() - i,
    {
        let id: i64 = rows[leads[i].row].id as i64;
        let to: Tile = leads[i].to;
        let key: SortKey = match kind {
            NodeKind::Door => SortKey { a: to.x as i64, b: to.y as i64, c: to.plane as i64, d: id },
            _ => SortKey { a: id, b: to.x as i64, c: to.y as i64, d: to.plane as i64 },
        };
        keys.push(key);
        i += 1;
    }
    assert(keys@ =~= want);
    let order: Vec<usize> = stable_order(&keys);
    let ghost sorted = sorted_leads(kind, rows@, leads@);
    let mut r: Vec<Edge> = Vec::new();
    let mut k: usize = 0;
    while k < order.len()
        invariant
            k <= order@.len(),
            order@.len() == leads@.len(),
            sorted.len() == leads@.len(),
            forall|j: int| 0 <= j < order@.len() ==> #[trigger] order@[j] < leads@.len(),
            forall|j: int| 0 <= j < order@.len() ==> sorted[j] == leads@[#[trigger] order@[j] as int],
            forall|j: int| 0 <= j < leads@.len() ==> (#[trigger] leads@[j]).row < rows@.len(),
            r@.len() == k,
            forall|j: int| 0 <= j < k ==> (#[trigger] r@[j])@ == lead_edge(kind, rows@, from, sorted[j]),
        decreases order@.len() - k,
    {
        let e: Edge = edge_of(kind, rows, from, &leads[order[k]]);
        r.push(e);
        k += 1;
    }
    assert(edges_view(r@) =~= lead_edges(kind, rows@, from, sorted));
    r
}

/// Whether a node starts no chain of its own.
pub open spec fn handed_to(t: NodeTables, kind: NodeKind, id: i32) -> bool {
    is_handed_to(t, NodeRefV { type_: plain_name(kind.label()), id })
}

/// Where a door leads from a tile, and what it costs.
pub open spec fn door_lead(t: NodeTables, tiles: Seq<TileRow>, model: CostModel, from: Tile, i: int) -> Option<Lead> {
    let row = t.doors@[i];
    match row.place {
        Place::Door { inside, outside } => {
            let to = if inside == from { outside } else { inside };
            if !handed_to(t, NodeKind::Door, row.id) && (inside == from || outside == from) && tile_known(tiles, to) {
                Some(Lead { row: i as usize, to, cost_ms: node_price(model.door, row.cost), out: inside == from })
            } else {
                None
            }
        },
        _ => None,
    }
}

/// The ways that doors open, among the first `k`.
pub open spec fn door_leads(t: NodeTables, tiles: Seq<TileRow>, model: CostModel, from: Tile, k: int) -> Seq<Lead>
    decreases k,
{
    if k <= 0 {
        Seq::empty()
    } else {
        let rest = door_leads(t, tiles, model, from, k - 1);
        match door_lead(t, tiles, model, from, k - 1) {
            Some(l) => rest.push(l),
            None => rest,
        }
    }
}

/// The tile that was named as the start, where one was.
pub open spec fn named_start(extras: JsonV) -> Option<Tile> {
    match member(extras, "start_tile"@) {
        Some(JsonV::Arr(a)) => match (a.len() == 3, fits(a[0]), fits(a[1]), fits(a[2])) {
            (true, Some(x), Some(y), Some(plane)) => Some(Tile { x: x as i32, y: y as i32, plane: plane as i32 }),
            _ => None,
        },
        _ => None,
    }
}

/// An integer that fits 64 bits.
pub open spec fn fits(v: JsonV) -> Option<i64> {
    match v {
        JsonV::Num(n) => if i64::MIN <= n <= i64::MAX { Some(n as i64) } else { None },
        _ => None,
    }
}

fn start_named(extras: &Json) -> (r: Option<Tile>)
    ensures
        r == named_start(extras@),
{
    match extras.get("start_tile") {
        Some(v) => match v.as_array() {
            Some(a) => {
                proof {
                    lemma_array_view(a@);
                }
                if a.len() != 3 {
                    return None;
                }
                assert(array_view(a@)[0] == a@[0]@ && array_view(a@)[1] == a@[1]@ && array_view(a@)[2] == a@[2]@);
                match (a[0].as_i64(), a[1].as_i64(), a[2].as_i64()) {
                    (Some(x), Some(y), Some(plane)) => Some(Tile { x: x as i32, y: y as i32, plane: plane as i32 }),
                    _ => None,
                }
            },
            None => None,
        },
        None => None,
    }
}

/// Where a lodestone leads, and what it costs.
pub open spec fn lodestone_lead(
    t: NodeTables,
    tiles: Seq<TileRow>,
    model: CostModel,
    extras: JsonV,
    from: Tile,
    i: int,
) -> Option<Lead> {
    let row = t.lodestones@[i];
    match row.place {
        Place::Spot(to) => if !handed_to(t, NodeKind::Lodestone, row.id) && (row.requirement_id is Some ==> passes(
            t.requirements@,
            extras,
            row.requirement_id->0,
        )) && to != from && tile_known(tiles, to) {
            Some(Lead { row: i as usize, to, cost_ms: node_price(model.lodestone, row.cost), out: false })
        } else {
            None
        },
        _ => None,
    }
}

/// The ways that lodestones open, among the first `k`.
pub open spec fn lodestone_leads(
    t: NodeTables,
    tiles: Seq<TileRow>,
    model: CostModel,
    extras: JsonV,
    from: Tile,
    k: int,
) -> Seq<Lead>
    decreases k,
{
    if k <= 0 {
        Seq::empty()
    } else {
        let rest = lodestone_leads(t, tiles, model, extras, from, k - 1);
        match lodestone_lead(t, tiles, model, extras, from, k - 1) {
            Some(l) => rest.push(l),
            None => rest,
        }
    }
}

/// Whether a node can be used from a tile: an object or a person where the tile lies in the
/// rectangle of its row, an interface slot or an item from everywhere.
pub open spec fn usable(kind: NodeKind, row: NodeRow, from: Tile) -> bool {
    if kind == NodeKind::Object || kind == NodeKind::Npc { row.origin is Some && row.origin->0.has(from) } else { true }
}

/// Where the chain that a node starts leads from a tile, and what it costs.
pub open spec fn chain_lead(
    t: NodeTables,
    tiles: Seq<TileRow>,
    model: CostModel,
    options: SearchOptions,
    kind: NodeKind,
    from: Tile,
    i: int,
) -> Option<Lead> {
    let row = t.of_kind(kind)[i];
    let n = NodeRefV { type_: plain_name(kind.label()), id: row.id };
    let (links, failure) = chase(t, model, options.extras@, options.max_chain_depth as nat, Seq::empty(), n);
    match (failure, chain_end(links)) {
        (None, Some(b)) => {
            let to = Tile {
                x: b.min_x,
                y: b.min_y,
                plane: match b.plane {
                    Some(p) => p,
                    None => from.plane,
                },
            };
            if usable(kind, row, from) && !handed_to(t, kind, row.id) && to != from && tile_known(tiles, to) {
                Some(Lead { row: i as usize, to, cost_ms: capped(links_cost(links)), out: false })
            } else {
                None
            }
        },
        _ => None,
    }
}

/// Whether a way is among others: one by a node with the same id to the same tile.
pub open spec fn repeats(rows: Seq<NodeRow>, leads: Seq<Lead>, l: Lead) -> bool {
    exists|j: int|
        0 <= j < leads.len() && rows[(#[trigger] leads[j]).row as int].id == rows[l.row as int].id && leads[j].to == l.to
}

/// The ways that nodes open, among the first `k`; the first of those that repeat one another.
pub open spec fn chain_leads(
    t: NodeTables,
    tiles: Seq<TileRow>,
    model: CostModel,
    options: SearchOptions,
    kind: NodeKind,
    from: Tile,
    k: int,
) -> Seq<Lead>
    decreases k,
{
    if k <= 0 {
        Seq::empty()
    } else {
        let rest = chain_leads(t, tiles, model, options, kind, from, k - 1);
        match chain_lead(t, tiles, model, options, kind, from, k - 1) {
            Some(l) => if repeats(t.of_kind(kind), rest, l) { rest } else { rest.push(l) },
            None => rest,
        }
    }
}

fn is_repeat(rows: &Vec<NodeRow>, leads: &Vec<Lead>, l: &Lead) -> (r: bool)
    requires
        l.row < rows@.len(),
        forall|i: int| 0 <= i < leads@.len() ==> (#[trigger] leads@[i]).row < rows@.len(),
    ensures
        r == repeats(rows@, leads@, *l),
{
    let mut i: usize = 0;
    while i < leads.len()
        invariant
            i <= leads@.len(),
            l.row < rows@.len(),
            forall|j: int| 0 <= j < leads@.len() ==> (#[trigger] leads@[j]).row < rows@.len(),
            forall|j: int|
                0 <= j < i ==> !(rows@[(#[trigger] leads@[j]).row as int].id == rows@[l.row as int].id && leads@[j].to == l.to),
        decreases leads@.len() - i,
    {
        if rows[leads[i].row].id == rows[l.row].id && leads[i].to == l.to {
            return true;
        }
        i += 1;
    }
    false
}

/// The tiles and nodes of a world, read from its database.
pub struct SqliteGraphProvider {
    tables: NodeTables,
    tiles: TileTable,
    cost_model: CostModel,
    heads: ChainHeadIndex,
}

/// The edges of doors.
pub open spec fn door_edges(t: NodeTables, tiles: Seq<TileRow>, model: CostModel, from: Tile) -> Seq<EdgeV> {
    let leads = door_leads(t, tiles, model, from, t.doors@.len() as int);
    lead_edges(NodeKind::Door, t.doors@, from, sorted_leads(NodeKind::Door, t.doors@, leads))
}

/// The edges of lodestones: only at the tile that was named as the start.
pub open spec fn lodestone_edges(t: NodeTables, tiles: Seq<TileRow>, model: CostModel, extras: JsonV, from: Tile) -> Seq<EdgeV> {
    if named_start(extras) == Some(from) {
        let leads = lodestone_leads(t, tiles, model, extras, from, t.lodestones@.len() as int);
        lead_edges(NodeKind::Lodestone, t.lodestones@, from, sorted_leads(NodeKind::Lodestone, t.lodestones@, leads))
    } else {
        Seq::empty()
    }
}

/// The edges of the nodes of another kind.
pub open spec fn chain_edges(
    t: NodeTables,
    tiles: Seq<TileRow>,
    model: CostModel,
    options: SearchOptions,
    kind: NodeKind,
    from: Tile,
) -> Seq<EdgeV> {
    let rows = t.of_kind(kind);
    let leads = chain_leads(t, tiles, model, options, kind, from, rows.len() as int);
    lead_edges(kind, rows, from, sorted_leads(kind, rows, leads))
}

pub open spec fn if_used(used: bool, edges: Seq<EdgeV>) -> Seq<EdgeV> {
    if used { edges } else { Seq::empty() }
}

/// All edges from a tile: steps first, then the edges of each kind of node that may be used. From
/// a tile that is not there nothing leads.
pub open spec fn all_edges(t: NodeTables, tiles: Seq<TileRow>, model: CostModel, options: SearchOptions, from: Tile) -> Seq<EdgeV> {
    match first_tile(tiles, from) {
        Some(i) => move_edges(tiles, open_steps(tiles[i as int]), from, model.step_cost_ms, 8) + if_used(
            options.use_doors,
            door_edges(t, tiles, model, from),
        ) + if_used(options.use_lodestones, lodestone_edges(t, tiles, model, options.extras@, from)) + if_used(
            options.use_objects,
            chain_edges(t, tiles, model, options, NodeKind::Object, from),
        ) + if_used(options.use_ifslots, chain_edges(t, tiles, model, options, NodeKind::Ifslot, from)) + if_used(
            options.use_npcs,
            chain_edges(t, tiles, model, options, NodeKind::Npc, from),
        ) + if_used(options.use_items, chain_edges(t, tiles, model, options, NodeKind::Item, from)),
        None => Seq::empty(),
    }
}

impl SqliteGraphProvider {
    pub closed spec fn nodes(self) -> NodeTables {
        self.tables
    }

    pub closed spec fn ground(self) -> Seq<TileRow> {
        self.tiles@
    }

    pub closed spec fn model(self) -> CostModel {
        self.cost_model
    }

    #[verifier::type_invariant]
    spec fn heads_known(self) -> bool {
        forall|n: NodeRefV| #[trigger] self.heads@.contains(n) <==> is_handed_to(self.tables, n)
    }

    pub fn new(tables: NodeTables, tiles: TileTable, cost_model: CostModel) -> (r: SqliteGraphProvider)
        ensures
            r.nodes() == tables,
            r.ground() == tiles@,
            r.model() == cost_model,
    {
        let heads: ChainHeadIndex = build_chain_head_index(&tables);
        SqliteGraphProvider { tables, tiles, cost_model, heads }
    }

    pub fn set_cost_model(&mut self, cost_model: CostModel)
        ensures
            final(self).nodes() == old(self).nodes(),
            final(self).ground() == old(self).ground(),
            final(self).model() == cost_model,
    {
        proof {
            use_type_invariant(&*self);
        }
        self.cost_model = cost_model;
    }

    /// The edges of doors, by where they lead and then by their ids.
    pub fn neighbors_doors(&self, tile: Tile) -> (r: Vec<Edge>)
        ensures
            edges_view(r@) == door_edges(self.nodes(), self.ground(), self.model(), tile),
    {
        proof {
            use_type_invariant(&*self);
        }
        let rows: &Vec<NodeRow> = self.tables.doors.rows();
        let mut leads: Vec<Lead> = Vec::new();
        let mut i: usize = 0;
        while i < rows.len()
            invariant
                i <= rows@.len(),
                rows@ == self.tables.doors@,
                forall|n: NodeRefV| #[trigger] self.heads@.contains(n) <==> is_handed_to(self.tables, n),
                leads@ == door_leads(self.tables, self.tiles@, self.cost_model, tile, i as int),
                forall|j: int| 0 <= j < leads@.len() ==> (#[trigger] leads@[j]).row < rows@.len(),
            decreases rows@.len() - i,
        {
            let row: &NodeRow = &rows[i];
            if let Place::Door { inside, outside } = row.place {
                let out: bool = inside == tile;
                let to: Tile = if out {
                    outside
                } else {
                    inside
                };
                if !self.heads.is_non_head("door", row.id) && (out || outside == tile) && self.tiles.tile_exists(to) {
                    leads.push(Lead { row: i, to, cost_ms: self.cost_model.door_cost(row.cost), out });
                }
            }
            i += 1;
        }
        ordered_edges(NodeKind::Door, rows, tile, &leads)
    }

    /// The edges of lodestones, by their ids and then by where they lead. They are there only at
    /// the tile that was named as the start.
    pub fn neighbors_lodestones(&self, tile: Tile, options: &SearchOptions) -> (r: Vec<Edge>)
        ensures
            edges_view(r@) == lodestone_edges(self.nodes(), self.ground(), self.model(), options.extras@, tile),
    {
        proof {
            use_type_invariant(&*self);
        }
        let here: bool = match start_named(&options.extras) {
            Some(t) => t == tile,
            None => false,
        };
        if !here {
            let r: Vec<Edge> = Vec::new();
            assert(edges_view(r@) =~= Seq::<EdgeV>::empty());
            return r;
        }
        let rows: &Vec<NodeRow> = self.tables.lodestones.rows();
        let mut leads: Vec<Lead> = Vec::new();
        let mut i: usize = 0;
        while i < rows.len()
            invariant
                i <= rows@.len(),
                rows@ == self.tables.lodestones@,
                forall|n: NodeRefV| #[trigger] self.heads@.contains(n) <==> is_handed_to(self.tables, n),
                leads@ == lodestone_leads(self.tables, self.tiles@, self.cost_model, options.extras@, tile, i as int),
                forall|j: int| 0 <= j < leads@.len() ==> (#[trigger] leads@[j]).row < rows@.len(),
            decreases rows@.len() - i,
        {
            let row: &NodeRow = &rows[i];
            if let Place::Spot(to) = row.place {
                let met: bool = match row.requirement_id {
                    Some(id) => req_passes(&self.tables.requirements, &options.extras, id),
                    None => true,
                };
                if !self.heads.is_non_head("lodestone", row.id) && met && to != tile && self.tiles.tile_exists(to) {
                    leads.push(Lead { row: i, to, cost_ms: self.cost_model.lodestone_cost(row.cost), out: false });
                }
            }
            i += 1;
        }
        ordered_edges(NodeKind::Lodestone, rows, tile, &leads)
    }

    fn lead_of_chain(&self, tile: Tile, options: &SearchOptions, kind: NodeKind, i: usize, row: &NodeRow) -> (r: Option<Lead>)
        requires
            i < self.nodes().of_kind(kind).len(),
            *row == self.nodes().of_kind(kind)[i as int],
        ensures
            r == chain_lead(self.nodes(), self.ground(), self.model(), *options, kind, tile, i as int),
    {
        proof {
            use_type_invariant(&*self);
        }
        let near: bool = match kind {
            NodeKind::Object | NodeKind::Npc => match &row.origin {
                Some(a) => a.contains(tile),
                None => false,
            },
            _ => true,
        };
        if !near || self.heads.is_non_head(kind.name(), row.id) {
            return None;
        }
        let resolver: NodeChainResolver = NodeChainResolver::new(&self.tables, &self.cost_model, options);
        let start: NodeRef = NodeRef::new(kind.name(), row.id);
        let res: ChainResolution = resolver.resolve(&start);
        if !res.is_success() {
            return None;
        }
        match res.destination {
            Some(b) => {
                let plane: i32 = match b.plane {
                    Some(p) => p,
                    None => tile.plane,
                };
                let to: Tile = Tile { x: b.min_x, y: b.min_y, plane };
                if to == tile || !self.tiles.tile_exists(to) {
                    None
                } else {
                    Some(Lead { row: i, to, cost_ms: res.total_cost_ms, out: false })
                }
            },
            None => None,
        }
    }

    /// The edges of the objects, people, interface slots or items that can be used from a tile,
    /// by their ids and then by where their chains lead.
    pub fn neighbors_chained(&self, tile: Tile, options: &SearchOptions, kind: NodeKind) -> (r: Vec<Edge>)
        ensures
            edges_view(r@) == chain_edges(self.nodes(), self.ground(), self.model(), *options, kind, tile),
    {
        let rows: &Vec<NodeRow> = self.tables.table(kind).rows();
        let mut leads: Vec<Lead> = Vec::new();
        let mut i: usize = 0;
        while i < rows.len()
            invariant
                i <= rows@.len(),
                rows@ == self.tables.of_kind(kind),
                leads@ == chain_leads(self.tables, self.tiles@, self.cost_model, *options, kind, tile, i as int),
                forall|j: int| 0 <= j < leads@.len() ==> (#[trigger] leads@[j]).row < rows@.len(),
            decreases rows@.len() - i,
        {
            if let Some(l) = self.lead_of_chain(tile, options, kind, i, &rows[i]) {
                if !is_repeat(rows, &leads, &l) {
                    leads.push(l);
                }
            }
            i += 1;
        }
        ordered_edges(kind, rows, tile, &leads)
    }

    /// The edges of items.
    pub fn neighbors_items(&self, tile: Tile, options: &SearchOptions) -> (r: Vec<Edge>)
        ensures
            edges_view(r@) == chain_edges(self.nodes(), self.ground(), self.model(), *options, NodeKind::Item, tile),
    {
        self.neighbors_chained(tile, options, NodeKind::Item)
    }
}

fn take_all(edges: &mut Vec<Edge>, more: Vec<Edge>)
    ensures
        edges_view(final(edges)@) == edges_view(old(edges)@) + edges_view(more@),
{
    let mut more: Vec<Edge> = more;
    let ghost (a, b) = (edges@, more@);
    edges.append(&mut more);
    assert(edges_view(edges@) =~= edges_view(a) + edges_view(b));
}

impl GraphProvider for SqliteGraphProvider {
    open spec fn edges_from(&self, tile: Tile, goal: Tile, options: SearchOptions) -> Seq<EdgeV> {
        all_edges(self.nodes(), self.ground(), self.model(), options, tile)
    }

    open spec fn tells(&self) -> bool {
        true
    }

    open spec fn may_fail(&self) -> bool {
        false
    }

    fn neighbors(&self, tile: Tile, goal: Tile, options: &SearchOptions) -> (r: Result<Vec<Edge>, ReadError>) {
        let row: &TileRow = match self.tiles.fetch_tile(tile) {
            Some(r) => r,
            None => {
                let r: Vec<Edge> = Vec::new();
                assert(edges_view(r@) =~= Seq::<EdgeV>::empty());
                return Ok(r);
            },
        };
        let ghost none = Seq::<EdgeV>::empty();
        let mut edges: Vec<Edge> = neighbors_movement(&self.tiles, &self.cost_model, tile, row);
        assert(forall|s: Seq<EdgeV>| #[trigger] (s + none) =~= s);
        if options.use_doors {
            take_all(&mut edges, self.neighbors_doors(tile));
        }
        if options.use_lodestones {
            take_all(&mut edges, self.neighbors_lodestones(tile, options));
        }
        if options.use_objects {
            take_all(&mut edges, self.neighbors_chained(tile, options, NodeKind::Object));
        }
        if options.use_ifslots {
            take_all(&mut edges, self.neighbors_chained(tile, options, NodeKind::Ifslot));
        }
        if options.use_npcs {
            take_all(&mut edges, self.neighbors_chained(tile, options, NodeKind::Npc));
        }
        if options.use_items {
            take_all(&mut edges, self.neighbors_items(tile, options));
        }
        Ok(edges)
    }
}

/// Whether an edge leads from a tile to one that is there, and by no node that another hands on
/// to.
pub open spec fn sound_edge(t: NodeTables, tiles: Seq<TileRow>, from: Tile, e: EdgeV) -> bool {
    &&& e.from_tile == from
    &&& tile_known(tiles, e.to_tile)
    &&& e.node is Some ==> !is_handed_to(t, NodeRefV { type_: plain_name(e.node->0.type_), id: e.node->0.id })
}

pub open spec fn sound_edges(t: NodeTables, tiles: Seq<TileRow>, from: Tile, s: Seq<EdgeV>) -> bool {
    forall|i: int| 0 <= i < s.len() ==> sound_edge(t, tiles, from, #[trigger] s[i])
}

proof fn lemma_move_edges(t: NodeTables, tiles: Seq<TileRow>, mask: u32, from: Tile, cost: i64, k: int)
    ensures
        sound_edges(t, tiles, from, move_edges(tiles, mask, from, cost, k)),
    decreases k,
{
    if k > 0 {
        lemma_move_edges(t, tiles, mask, from, cost, k - 1);
    }
}

/// Whether ways lead to tiles that are there, by nodes that start a chain.
spec fn sound_leads(t: NodeTables, tiles: Seq<TileRow>, kind: NodeKind, leads: Seq<Lead>) -> bool {
    forall|i: int|
        0 <= i < leads.len() ==> tile_known(tiles, (#[trigger] leads[i]).to) && !handed_to(
            t,
            kind,
            t.of_kind(kind)[leads[i].row as int].id,
        )
}

proof fn lemma_sorted_leads(t: NodeTables, tiles: Seq<TileRow>, kind: NodeKind, from: Tile, leads: Seq<Lead>)
    requires
        sound_leads(t, tiles, kind, leads),
        leads.len() <= usize::MAX,
    ensures
        sound_edges(
            t,
            tiles,
            from,
            lead_edges(kind, t.of_kind(kind), from, sorted_leads(kind, t.of_kind(kind), leads)),
        ),
{
    let rows = t.of_kind(kind);
    let keys = leads.map_values(|l: Lead| lead_key(kind, rows, l));
    lemma_sorted_positions(keys);
    let order = sorted_positions(keys);
    let s = lead_edges(kind, rows, from, sorted_leads(kind, rows, leads));
    assert forall|i: int| 0 <= i < s.len() implies sound_edge(t, tiles, from, #[trigger] s[i]) by {
        let l = leads[order[i] as int];
        assert(s[i] == lead_edge(kind, rows, from, l));
    }
}

proof fn lemma_door_leads(t: NodeTables, tiles: Seq<TileRow>, model: CostModel, from: Tile, k: int)
    requires
        k <= t.doors@.len() <= usize::MAX,
    ensures
        sound_leads(t, tiles, NodeKind::Door, door_leads(t, tiles, model, from, k)),
        door_leads(t, tiles, model, from, k).len() <= (if k > 0 { k } else { 0 }),
    decreases k,
{
    if k > 0 {
        lemma_door_leads(t, tiles, model, from, k - 1);
    }
}

proof fn lemma_lodestone_leads(t: NodeTables, tiles: Seq<TileRow>, model: CostModel, extras: JsonV, from: Tile, k: int)
    requires
        k <= t.lodestones@.len() <= usize::MAX,
    ensures
        sound_leads(t, tiles, NodeKind::Lodestone, lodestone_leads(t, tiles, model, extras, from, k)),
        lodestone_leads(t, tiles, model, extras, from, k).len() <= (if k > 0 { k } else { 0 }),
    decreases k,
{
    if k > 0 {
        lemma_lodestone_leads(t, tiles, model, extras, from, k - 1);
    }
}

proof fn lemma_chain_leads(
    t: NodeTables,
    tiles: Seq<TileRow>,
    model: CostModel,
    options: SearchOptions,
    kind: NodeKind,
    from: Tile,
    k: int,
)
    requires
        k <= t.of_kind(kind).len() <= usize::MAX,
    ensures
        sound_leads(t, tiles, kind, chain_leads(t, tiles, model, options, kind, from, k)),
        chain_leads(t, tiles, model, options, kind, from, k).len() <= (if k > 0 { k } else { 0 }),
    decreases k,
{
    if k > 0 {
        lemma_chain_leads(t, tiles, model, options, kind, from, k - 1);
    }
}

proof fn lemma_chain_edges(t: NodeTables, tiles: Seq<TileRow>, model: CostModel, options: SearchOptions, kind: NodeKind, from: Tile)
    requires
        t.of_kind(kind).len() <= usize::MAX,
    ensures
        sound_edges(t, tiles, from, chain_edges(t, tiles, model, options, kind, from)),
{
    let n = t.of_kind(kind).len() as int;
    lemma_chain_leads(t, tiles, model, options, kind, from, n);
    lemma_sorted_leads(t, tiles, kind, from, chain_leads(t, tiles, model, options, kind, from, n));
}

proof fn lemma_door_edges(t: NodeTables, tiles: Seq<TileRow>, model: CostModel, from: Tile)
    requires
        t.doors@.len() <= usize::MAX,
    ensures
        sound_edges(t, tiles, from, door_edges(t, tiles, model, from)),
{
    let n = t.doors@.len() as int;
    lemma_door_leads(t, tiles, model, from, n);
    lemma_sorted_leads(t, tiles, NodeKind::Door, from, door_leads(t, tiles, model, from, n));
}

proof fn lemma_lodestone_edges(t: NodeTables, tiles: Seq<TileRow>, model: CostModel, extras: JsonV, from: Tile)
    requires
        t.lodestones@.len() <= usize::MAX,
    ensures
        sound_edges(t, tiles, from, lodestone_edges(t, tiles, model, extras, from)),
{
    let n = t.lodestones@.len() as int;
    lemma_lodestone_leads(t, tiles, model, extras, from, n);
    lemma_sorted_leads(t, tiles, NodeKind::Lodestone, from, lodestone_leads(t, tiles, model, extras, from, n));
}

proof fn lemma_more_edges(t: NodeTables, tiles: Seq<TileRow>, from: Tile, a: Seq<EdgeV>, used: bool, b: Seq<EdgeV>)
    requires
        sound_edges(t, tiles, from, a),
        sound_edges(t, tiles, from, b),
    ensures
        sound_edges(t, tiles, from, a + if_used(used, b)),
{
}

/// Every edge leads from the tile that was asked about to a tile that is there, and by no node
/// that another node hands on to.
pub proof fn law_edges_are_sound(t: NodeTables, tiles: Seq<TileRow>, model: CostModel, options: SearchOptions, from: Tile)
    requires
        forall|kind: NodeKind| #[trigger] t.of_kind(kind).len() <= usize::MAX,
    ensures
        sound_edges(t, tiles, from, all_edges(t, tiles, model, options, from)),
{
    if let Some(i) = first_tile(tiles, from) {
        let a0 = move_edges(tiles, open_steps(tiles[i as int]), from, model.step_cost_ms, 8);
        lemma_move_edges(t, tiles, open_steps(tiles[i as int]), from, model.step_cost_ms, 8);
        assert(t.of_kind(NodeKind::Door).len() <= usize::MAX);
        let b1 = door_edges(t, tiles, model, from);
        lemma_door_edges(t, tiles, model, from);
        lemma_more_edges(t, tiles, from, a0, options.use_doors, b1);
        let a1 = a0 + if_used(options.use_doors, b1);
        assert(t.of_kind(NodeKind::Lodestone).len() <= usize::MAX);
        let b2 = lodestone_edges(t, tiles, model, options.extras@, from);
        lemma_lodestone_edges(t, tiles, model, options.extras@, from);
        lemma_more_edges(t, tiles, from, a1, options.use_lodestones, b2);
        let a2 = a1 + if_used(options.use_lodestones, b2);
        let b3 = chain_edges(t, tiles, model, options, NodeKind::Object, from);
        lemma_chain_edges(t, tiles, model, options, NodeKind::Object, from);
        lemma_more_edges(t, tiles, from, a2, options.use_objects, b3);
        let a3 = a2 + if_used(options.use_objects, b3);
        let b4 = chain_edges(t, tiles, model, options, NodeKind::Ifslot, from);
        lemma_chain_edges(t, tiles, model, options, NodeKind::Ifslot, from);
        lemma_more_edges(t, tiles, from, a3, options.use_ifslots, b4);
        let a4 = a3 + if_used(options.use_ifslots, b4);
        let b5 = chain_edges(t, tiles, model, options, NodeKind::Npc, from);
        lemma_chain_edges(t, tiles, model, options, NodeKind::Npc, from);
        lemma_more_edges(t, tiles, from, a4, options.use_npcs, b5);
        let a5 = a4 + if_used(options.use_npcs, b5);
        let b6 = chain_edges(t, tiles, model, options, NodeKind::Item, from);
        lemma_chain_edges(t, tiles, model, options, NodeKind::Item, from);
        lemma_more_edges(t, tiles, from, a5, options.use_items, b6);
        assert(all_edges(t, tiles, model, options, from) == a5 + if_used(options.use_items, b6));
    }
}

/// Where no node may be used, only steps lead from a tile.
pub proof fn law_only_steps_without_nodes(t: NodeTables, tiles: Seq<TileRow>, model: CostModel, options: SearchOptions, from: Tile)
    requires
        !options.use_doors && !options.use_lodestones && !options.use_objects && !options.use_ifslots && !options.use_npcs
            && !options.use_items,
    ensures
        all_edges(t, tiles, model, options, from) == match first_tile(tiles, from) {
            Some(i) => move_edges(tiles, open_steps(tiles[i as int]), from, model.step_cost_ms, 8),
            None => Seq::empty(),
        },
{
    if let Some(i) = first_tile(tiles, from) {
        assert(all_edges(t, tiles, model, options, from) =~= move_edges(
            tiles,
            open_steps(tiles[i as int]),
            from,
            model.step_cost_ms,
            8,
        ));
    }
}

}
