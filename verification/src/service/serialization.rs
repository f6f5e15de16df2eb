//! Paths and actions as JSON values.

use crate::json::Json;
use crate::models::Tile;
use vstd::prelude::*;
#[allow(unused_imports)]
use crate::json::{array_view, lemma_array_view, JsonV};

verus! {

/// The three numbers of a tile.
pub open spec fn triplet(t: Tile) -> Seq<i32> {
    seq![t.x, t.y, t.plane]
}

fn triplet_of(t: Tile) -> (r: [i32; 3])
    ensures
        r@ == triplet(t),
{
    let r: [i32; 3] = [t.x, t.y, t.plane];
    assert(r@ =~= triplet(t));
    r
}

/// A path as a list of three numbers for each tile.
pub fn serialize_path(path: &[Tile]) -> (r: Vec<[i32; 3]>)
    ensures
        r@.len() == path@.len(),
        forall|i: int| 0 <= i < r@.len() ==> (#[trigger] r@[i])@ == triplet(path@[i]),
{
    let mut r: Vec<[i32; 3]> = Vec::new();
    let mut i: usize = 0;
    while i < path.len()
        invariant
            i <= path@.len(),
            r@.len() == i,
            forall|j: int| 0 <= j < i ==> (#[trigger] r@[j])@ == triplet(path@[j]),
        decreases path@.len() - i,
    {
        r.push(triplet_of(path[i]));
        i += 1;
    }
    r
}

/// A rectangle of tiles, by two opposite corners.
#[derive(Debug, Clone, Copy)]
pub struct Bounds {
    pub min: [i32; 3],
    pub max: [i32; 3],
}

impl Bounds {
    /// The rectangle of one tile.
    pub fn from_tile(t: Tile) -> (r: Bounds)
        ensures
            r.min@ == triplet(t),
            r.max@ == triplet(t),
    {
        Bounds { min: triplet_of(t), max: triplet_of(t) }
    }

    pub fn from_min_max_plane(min_x: i32, max_x: i32, min_y: i32, max_y: i32, plane: i32) -> (r: Bounds)
        ensures
            r.min@ == seq![min_x, min_y, plane],
            r.max@ == seq![max_x, max_y, plane],
    {
        let r: Bounds = Bounds { min: [min_x, min_y, plane], max: [max_x, max_y, plane] };
        assert(r.min@ =~= seq![min_x, min_y, plane]);
        assert(r.max@ =~= seq![max_x, max_y, plane]);
        r
    }

    pub fn to_json(&self) -> (r: Json)
        ensures
            r@ == bounds_json(self.min@, self.max@),
    {
        Json::object().with("min", numbers(&self.min)).with("max", numbers(&self.max))
    }
}

/// Numbers as a list.
pub open spec fn numbers_json(s: Seq<i32>) -> JsonV {
    JsonV::Arr(s.map_values(|n: i32| JsonV::Num(n as int)))
}

pub open spec fn bounds_json(min: Seq<i32>, max: Seq<i32>) -> JsonV {
    JsonV::Obj(Map::<Seq<char>, JsonV>::empty().insert("min"@, numbers_json(min)).insert("max"@, numbers_json(max)))
}

fn numbers(a: &[i32; 3]) -> (r: Json)
    ensures
        r@ == numbers_json(a@),
{
    let mut v: Vec<Json> = Vec::new();
    v.push(Json::Int(a[0] as i64));
    v.push(Json::Int(a[1] as i64));
    v.push(Json::Int(a[2] as i64));
    proof {
        lemma_array_view(v@);
        assert(array_view(v@) =~= numbers_json(a@)->Arr_0);
    }
    Json::Array(v)
}

/// What every action is written with: its kind, where it starts and ends, and what it costs.
pub open spec fn action_json(kind: Seq<char>, from: Tile, to: Tile, cost_ms: i64) -> Map<Seq<char>, JsonV> {
    Map::<Seq<char>, JsonV>::empty().insert("type"@, JsonV::Str(kind)).insert(
        "from"@,
        bounds_json(triplet(from), triplet(from)),
    ).insert("to"@, bounds_json(triplet(to), triplet(to))).insert("cost_ms"@, JsonV::Num(cost_ms as int))
}

fn action(kind: &str, from: Tile, to: Tile, cost_ms: i64) -> (r: Json)
    ensures
        r@ == JsonV::Obj(action_json(kind@, from, to, cost_ms)),
{
    Json::object().with("type", Json::text(kind)).with("from", Bounds::from_tile(from).to_json()).with(
        "to",
        Bounds::from_tile(to).to_json(),
    ).with("cost_ms", Json::Int(cost_ms))
}

pub fn move_action(from: Tile, to: Tile, cost_ms: i64) -> (r: Json)
    ensures
        r@ == JsonV::Obj(action_json("move"@, from, to, cost_ms)),
{
    action("move", from, to, cost_ms)
}

pub fn door_action(from: Tile, to: Tile, cost_ms: i64) -> (r: Json)
    ensures
        r@ == JsonV::Obj(action_json("door"@, from, to, cost_ms)),
{
    action("door", from, to, cost_ms)
}

pub fn npc_action(from: Tile, to: Tile, cost_ms: i64) -> (r: Json)
    ensures
        r@ == JsonV::Obj(action_json("npc"@, from, to, cost_ms)),
{
    action("npc", from, to, cost_ms)
}

pub fn object_action(from: Tile, to: Tile, cost_ms: i64) -> (r: Json)
    ensures
        r@ == JsonV::Obj(action_json("object"@, from, to, cost_ms)),
{
    action("object", from, to, cost_ms)
}

pub fn item_action(from: Tile, to: Tile, cost_ms: i64) -> (r: Json)
    ensures
        r@ == JsonV::Obj(action_json("item"@, from, to, cost_ms)),
{
    action("item", from, to, cost_ms)
}

pub fn ifslot_action(from: Tile, to: Tile, cost_ms: i64) -> (r: Json)
    ensures
        r@ == JsonV::Obj(action_json("ifslot"@, from, to, cost_ms)),
{
    action("ifslot", from, to, cost_ms)
}

/// The row of a lodestone.
pub open spec fn lodestone_row(id: i64, name: Seq<char>, to: Tile, cost_ms: i64, requirement_id: Option<i64>) -> JsonV {
    JsonV::Obj(
        Map::<Seq<char>, JsonV>::empty().insert("id"@, JsonV::Num(id as int)).insert("lodestone"@, JsonV::Str(name)).insert(
            "dest"@,
            numbers_json(triplet(to)),
        ).insert("cost"@, JsonV::Num(cost_ms as int)).insert("next_node_type"@, JsonV::Null).insert(
            "next_node_id"@,
            JsonV::Null,
        ).insert(
            "requirement_id"@,
            match requirement_id {
                Some(n) => JsonV::Num(n as int),
                None => JsonV::Null,
            },
        ),
    )
}

/// A teleport to a lodestone: with the node that it uses, the names of the lodestones, and the
/// row of the node.
pub fn lodestone_action(
    from: Tile,
    to: Tile,
    cost_ms: i64,
    node_id: i64,
    lodestone_name: &str,
    target_lodestone: &str,
    requirement_id: Option<i64>,
) -> (r: Json)
    ensures
        r@ == JsonV::Obj(
            action_json("lodestone"@, from, to, cost_ms).insert(
                "node"@,
                JsonV::Obj(
                    Map::<Seq<char>, JsonV>::empty().insert("type"@, JsonV::Str("lodestone"@)).insert(
                        "id"@,
                        JsonV::Num(node_id as int),
                    ),
                ),
            ).insert(
                "metadata"@,
                JsonV::Obj(
                    Map::<Seq<char>, JsonV>::empty().insert("lodestone"@, JsonV::Str(lodestone_name@)).insert(
                        "target_lodestone"@,
                        JsonV::Str(target_lodestone@),
                    ).insert("db_row"@, lodestone_row(node_id, lodestone_name@, to, cost_ms, requirement_id)),
                ),
            ),
        ),
{
    let node: Json = Json::object().with("type", Json::text("lodestone")).with("id", Json::Int(node_id));
    let needs: Json = match requirement_id {
        Some(n) => Json::Int(n),
        None => Json::Null,
    };
    let row: Json = Json::object().with("id", Json::Int(node_id)).with("lodestone", Json::text(lodestone_name)).with(
        "dest",
        numbers(&triplet_of(to)),
    ).with("cost", Json::Int(cost_ms)).with("next_node_type", Json::Null).with("next_node_id", Json::Null).with(
        "requirement_id",
        needs,
    );
    let meta: Json = Json::object().with("lodestone", Json::text(lodestone_name)).with(
        "target_lodestone",
        Json::text(target_lodestone),
    ).with("db_row", row);
    action("lodestone", from, to, cost_ms).with("node", node).with("metadata", meta)
}

/// A tile is written as its x, its y and its plane.
pub proof fn law_tiles_are_written(t: Tile)
    ensures
        triplet(t).len() == 3,
        triplet(t)[0] == t.x,
        triplet(t)[1] == t.y,
        triplet(t)[2] == t.plane,
{
}

}
