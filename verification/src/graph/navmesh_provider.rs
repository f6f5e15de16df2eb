//! The edges between the cells of a mesh: portals from cell to cell, and links off the mesh.

use crate::cost::{CostModel, DEFAULT_NODE_COST_MS};
use crate::graph::nodes::req_passes;
use crate::graph::provider::{Edge, GraphProvider, ReadError};
use crate::graph::tables::RequirementRow;
use crate::json::{parse_json, Json};
use crate::models::{NodeRef, Tile};
use crate::options::SearchOptions;
use crate::sort::{stable_order, SortKey};
use crate::text::{owned, same};
use vstd::prelude::*;
#[allow(unused_imports)]
use crate::cost::node_price;
#[allow(unused_imports)]
use crate::graph::nodes::passes;
#[allow(unused_imports)]
use crate::graph::provider::{edges_view, EdgeV};
#[allow(unused_imports)]
use crate::json::{array_view, lemma_array_view, member, parsed_json, JsonV};
#[allow(unused_imports)]
use crate::models::{tile_json, NodeRefV};
#[allow(unused_imports)]
use crate::sort::{is_stable_order, lemma_sorted_positions, sorted_positions};

verus! {

/// An opening between two cells.
#[derive(Debug)]
pub struct PortalRow {
    pub id: i32,
    pub plane: i32,
    pub a_id: i32,
    pub b_id: i32,
    pub x1: Json,
    pub y1: Json,
    pub x2: Json,
    pub y2: Json,
    pub length: Json,
    /// The length as the nearest integer.
    pub rounded_length: i64,
}

/// A link off the mesh, to a cell from one cell or from every cell.
#[derive(Debug)]
pub struct OffmeshLinkRow {
    pub id: i32,
    pub link_type: String,
    pub node_table: String,
    pub node_id: i32,
    pub requirement_id: Option<i32>,
    /// The cost as the nearest integer.
    pub cost: Option<i64>,
    pub plane_from: Option<i32>,
    pub plane_to: i32,
    pub src_cell_id: Option<i32>,
    pub dst_cell_id: i32,
    pub meta_json: Option<String>,
}

/// The tile that stands for a cell.
pub open spec fn cell_tile(cell_id: i32, plane: i32) -> Tile {
    Tile { x: cell_id, y: 0, plane }
}

pub fn encode_cell(cell_id: i32, plane: i32) -> (r: Tile)
    ensures
        r == cell_tile(cell_id, plane),
{
    Tile { x: cell_id, y: 0, plane }
}

pub fn decode_cell(tile: Tile) -> (r: (i32, i32))
    ensures
        r == (tile.x, tile.plane),
{
    (tile.x, tile.plane)
}

/// A cell comes back from the tile that stands for it.
pub proof fn law_cells_come_back(cell_id: i32, plane: i32)
    ensures
        (cell_tile(cell_id, plane).x, cell_tile(cell_id, plane).plane) == (cell_id, plane),
{
}

/// The members of an object; none of any other value.
pub open spec fn members(v: JsonV) -> Map<Seq<char>, JsonV> {
    match v {
        JsonV::Obj(m) => m,
        _ => Map::empty(),
    }
}

/// A member; null where there is none.
pub open spec fn or_null(m: Map<Seq<char>, JsonV>, name: Seq<char>) -> JsonV {
    if m.contains_key(name) { m[name] } else { JsonV::Null }
}

fn member_or_null(m: &Json, name: &str) -> (r: Json)
    ensures
        r@ == or_null(members(m@), name@),
{
    match m.get(name) {
        Some(v) => v.copy(),
        None => Json::Null,
    }
}

pub open spec fn num_or_null(n: Option<i32>) -> JsonV {
    match n {
        Some(v) => JsonV::Num(v as int),
        None => JsonV::Null,
    }
}

fn number_or_null(n: Option<i32>) -> (r: Json)
    ensures
        r@ == num_or_null(n),
{
    match n {
        Some(v) => Json::Int(v as i64),
        None => Json::Null,
    }
}

pub open spec fn texts(names: Seq<&'static str>) -> Seq<Seq<char>> {
    names.map_values(|s: &'static str| s@)
}

/// An object with members of another one; null for those that it does not have.
pub open spec fn filled(base: Map<Seq<char>, JsonV>, m: Map<Seq<char>, JsonV>, names: Seq<Seq<char>>) -> Map<Seq<char>, JsonV>
    decreases names.len(),
{
    if names.len() == 0 { base } else { filled(base, m, names.drop_last()).insert(names.last(), or_null(m, names.last())) }
}

/// An object with members of another one, as far as that has them.
pub open spec fn copied(base: Map<Seq<char>, JsonV>, m: Map<Seq<char>, JsonV>, names: Seq<Seq<char>>) -> Map<Seq<char>, JsonV>
    decreases names.len(),
{
    if names.len() == 0 {
        base
    } else {
        let rest = copied(base, m, names.drop_last());
        if m.contains_key(names.last()) { rest.insert(names.last(), m[names.last()]) } else { rest }
    }
}

/// An object with the values of a list under the given names, the first `k` of them.
pub open spec fn spread(base: Map<Seq<char>, JsonV>, a: Seq<JsonV>, names: Seq<Seq<char>>, k: int) -> Map<Seq<char>, JsonV>
    decreases k,
{
    if k <= 0 { base } else { spread(base, a, names, k - 1).insert(names[k - 1], a[k - 1]) }
}

/// An object with the values of another one's list under the given names, where that list has as
/// many values as there are names.
pub open spec fn unrolled(
    base: Map<Seq<char>, JsonV>,
    m: Map<Seq<char>, JsonV>,
    list: Seq<char>,
    names: Seq<Seq<char>>,
) -> Map<Seq<char>, JsonV> {
    match or_null(m, list) {
        JsonV::Arr(a) => if a.len() == names.len() { spread(base, a, names, names.len() as int) } else { base },
        _ => base,
    }
}

fn fill(base: Json, m: &Json, names: &Vec<&'static str>) -> (r: Json)
    requires
        base@ is Obj,
    ensures
        r@ == JsonV::Obj(filled(base@->Obj_0, members(m@), texts(names@))),
{
    let ghost all = texts(names@);
    let mut r: Json = base;
    let mut i: usize = 0;
    assert(all.take(0) =~= Seq::<Seq<char>>::empty());
    while i < names.len()
        invariant
            i <= names@.len(),
            all == texts(names@),
            base@ is Obj,
            r@ == JsonV::Obj(filled(base@->Obj_0, members(m@), all.take(i as int))),
        decreases names@.len() - i,
    {
        assert(all.take(i + 1).drop_last() =~= all.take(i as int));
        assert(all[i as int] == names@[i as int]@);
        r = r.with(names[i], member_or_null(m, names[i]));
        i += 1;
    }
    assert(all.take(i as int) =~= all);
    r
}

fn copy_in(base: Json, m: &Json, names: &Vec<&'static str>) -> (r: Json)
    requires
        base@ is Obj,
    ensures
        r@ == JsonV::Obj(copied(base@->Obj_0, members(m@), texts(names@))),
{
    let ghost all = texts(names@);
    let mut r: Json = base;
    let mut i: usize = 0;
    assert(all.take(0) =~= Seq::<Seq<char>>::empty());
    while i < names.len()
        invariant
            i <= names@.len(),
            all == texts(names@),
            base@ is Obj,
            r@ == JsonV::Obj(copied(base@->Obj_0, members(m@), all.take(i as int))),
        decreases names@.len() - i,
    {
        assert(all.take(i + 1).drop_last() =~= all.take(i as int));
        assert(all[i as int] == names@[i as int]@);
        if let Some(v) = m.get(names[i]) {
            r = r.with(names[i], v.copy());
        }
        i += 1;
    }
    assert(all.take(i as int) =~= all);
    r
}

fn unroll(base: Json, m: &Json, list: &str, names: &Vec<&'static str>) -> (r: Json)
    requires
        base@ is Obj,
    ensures
        r@ == JsonV::Obj(unrolled(base@->Obj_0, members(m@), list@, texts(names@))),
{
    let ghost all = texts(names@);
    let a: &Vec<Json> = match m.get(list) {
        Some(v) => match v.as_array() {
            Some(a) => a,
            None => {
                return base;
            },
        },
        None => {
            return base;
        },
    };
    let ghost vals = array_view(a@);
    proof {
        lemma_array_view(a@);
    }
    if a.len() != names.len() {
        return base;
    }
    let mut r: Json = base;
    let mut i: usize = 0;
    while i < names.len()
        invariant
            i <= names@.len(),
            a@.len() == names@.len(),
            all == texts(names@),
            vals == array_view(a@),
            vals.len() == a@.len(),
            forall|j: int| 0 <= j < a@.len() ==> #[trigger] vals[j] == a@[j]@,
            base@ is Obj,
            r@ == JsonV::Obj(spread(base@->Obj_0, vals, all, i as int)),
        decreases names@.len() - i,
    {
        assert(all[i as int] == names@[i as int]@);
        r = r.with(names[i], a[i].copy());
        i += 1;
    }
    r
}

/// The columns of the rectangle that a node leads into.
pub open spec fn dest_sides() -> Seq<Seq<char>> {
    seq!["dest_min_x"@, "dest_max_x"@, "dest_min_y"@, "dest_max_y"@, "dest_plane"@]
}

fn list_dest_sides() -> (r: Vec<&'static str>)
    ensures
        texts(r@) == dest_sides(),
{
    let r: Vec<&'static str> = vec!["dest_min_x", "dest_max_x", "dest_min_y", "dest_max_y", "dest_plane"];
    assert(texts(r@) =~= dest_sides());
    r
}

/// The columns of the rectangle that a node can be used from.
pub open spec fn orig_sides() -> Seq<Seq<char>> {
    seq!["orig_min_x"@, "orig_max_x"@, "orig_min_y"@, "orig_max_y"@, "orig_plane"@]
}

fn list_orig_sides() -> (r: Vec<&'static str>)
    ensures
        texts(r@) == orig_sides(),
{
    let r: Vec<&'static str> = vec!["orig_min_x", "orig_max_x", "orig_min_y", "orig_max_y", "orig_plane"];
    assert(texts(r@) =~= orig_sides());
    r
}

/// The columns of the tile inside a door.
pub open spec fn inside_names() -> Seq<Seq<char>> {
    seq!["tile_inside_x"@, "tile_inside_y"@, "tile_inside_plane"@]
}

fn list_inside_names() -> (r: Vec<&'static str>)
    ensures
        texts(r@) == inside_names(),
{
    let r: Vec<&'static str> = vec!["tile_inside_x", "tile_inside_y", "tile_inside_plane"];
    assert(texts(r@) =~= inside_names());
    r
}

/// The columns of the tile outside a door.
pub open spec fn outside_names() -> Seq<Seq<char>> {
    seq!["tile_outside_x"@, "tile_outside_y"@, "tile_outside_plane"@]
}

fn list_outside_names() -> (r: Vec<&'static str>)
    ensures
        texts(r@) == outside_names(),
{
    let r: Vec<&'static str> = vec!["tile_outside_x", "tile_outside_y", "tile_outside_plane"];
    assert(texts(r@) =~= outside_names());
    r
}

/// The columns of the node that a node hands on to.
pub open spec fn next_names() -> Seq<Seq<char>> {
    seq!["next_node_type"@, "next_node_id"@]
}

fn list_next_names() -> (r: Vec<&'static str>)
    ensures
        texts(r@) == next_names(),
{
    let r: Vec<&'static str> = vec!["next_node_type", "next_node_id"];
    assert(texts(r@) =~= next_names());
    r
}

/// What the edge of a door shows as its link has it.
pub open spec fn door_told() -> Seq<Seq<char>> {
    seq!["real_id_open"@, "real_id_closed"@]
}

fn list_door_told() -> (r: Vec<&'static str>)
    ensures
        texts(r@) == door_told(),
{
    let r: Vec<&'static str> = vec!["real_id_open", "real_id_closed"];
    assert(texts(r@) =~= door_told());
    r
}

/// What the edge of an object shows.
pub open spec fn object_told() -> Seq<Seq<char>> {
    seq!["action"@, "object_id"@, "object_name"@, "match_type"@]
}

fn list_object_told() -> (r: Vec<&'static str>)
    ensures
        texts(r@) == object_told(),
{
    let r: Vec<&'static str> = vec!["action", "object_id", "object_name", "match_type"];
    assert(texts(r@) =~= object_told());
    r
}

/// What the edge of a person shows.
pub open spec fn npc_told() -> Seq<Seq<char>> {
    seq!["action"@, "npc_id"@, "npc_name"@, "match_type"@]
}

fn list_npc_told() -> (r: Vec<&'static str>)
    ensures
        texts(r@) == npc_told(),
{
    let r: Vec<&'static str> = vec!["action", "npc_id", "npc_name", "match_type"];
    assert(texts(r@) =~= npc_told());
    r
}

/// What the edge of an item shows.
pub open spec fn item_told() -> Seq<Seq<char>> {
    seq!["action"@, "item_id"@]
}

fn list_item_told() -> (r: Vec<&'static str>)
    ensures
        texts(r@) == item_told(),
{
    let r: Vec<&'static str> = vec!["action", "item_id"];
    assert(texts(r@) =~= item_told());
    r
}

/// What describes an interface slot.
pub open spec fn ifslot_told() -> Seq<Seq<char>> {
    seq!["interface_id"@, "component_id"@, "slot_id"@, "click_id"@]
}

fn list_ifslot_told() -> (r: Vec<&'static str>)
    ensures
        texts(r@) == ifslot_told(),
{
    let r: Vec<&'static str> = vec!["interface_id", "component_id", "slot_id", "click_id"];
    assert(texts(r@) =~= ifslot_told());
    r
}

/// The columns of a door that its link can have.
pub open spec fn door_columns() -> Seq<Seq<char>> {
    seq!["direction"@, "open_action"@, "location_open_x"@, "location_open_y"@, "location_open_plane"@, "location_closed_x"@, "location_closed_y"@, "location_closed_plane"@]
}

fn list_door_columns() -> (r: Vec<&'static str>)
    ensures
        texts(r@) == door_columns(),
{
    let r: Vec<&'static str> = vec!["direction", "open_action", "location_open_x", "location_open_y", "location_open_plane", "location_closed_x", "location_closed_y", "location_closed_plane"];
    assert(texts(r@) =~= door_columns());
    r
}

/// The columns of a door that are null but for the tiles that its link has.
pub open spec fn door_nulls() -> Seq<Seq<char>> {
    seq!["tile_inside_x"@, "tile_inside_y"@, "tile_inside_plane"@, "tile_outside_x"@, "tile_outside_y"@, "tile_outside_plane"@, "next_node_type"@, "next_node_id"@]
}

fn list_door_nulls() -> (r: Vec<&'static str>)
    ensures
        texts(r@) == door_nulls(),
{
    let r: Vec<&'static str> = vec!["tile_inside_x", "tile_inside_y", "tile_inside_plane", "tile_outside_x", "tile_outside_y", "tile_outside_plane", "next_node_type", "next_node_id"];
    assert(texts(r@) =~= door_nulls());
    r
}

/// The columns of a person that are null but for the rectangles that its link has.
pub open spec fn npc_nulls() -> Seq<Seq<char>> {
    seq!["dest_min_x"@, "dest_max_x"@, "dest_min_y"@, "dest_max_y"@, "dest_plane"@, "search_radius"@, "orig_min_x"@, "orig_max_x"@, "orig_min_y"@, "orig_max_y"@, "orig_plane"@]
}

fn list_npc_nulls() -> (r: Vec<&'static str>)
    ensures
        texts(r@) == npc_nulls(),
{
    let r: Vec<&'static str> = vec!["dest_min_x", "dest_max_x", "dest_min_y", "dest_max_y", "dest_plane", "search_radius", "orig_min_x", "orig_max_x", "orig_min_y", "orig_max_y", "orig_plane"];
    assert(texts(r@) =~= npc_nulls());
    r
}

/// What a link costs by its row.
pub open spec fn link_price(l: OffmeshLinkRow) -> i64 {
    match l.cost {
        Some(c) => c,
        None => DEFAULT_NODE_COST_MS,
    }
}

fn price_of(l: &OffmeshLinkRow) -> (r: i64)
    ensures
        r == link_price(*l),
{
    match l.cost {
        Some(c) => c,
        None => DEFAULT_NODE_COST_MS,
    }
}

/// What a link costs: a door or a lodestone what its kind costs, any other what its row says.
pub open spec fn link_cost(model: CostModel, l: OffmeshLinkRow) -> i64 {
    if l.link_type@ == "door"@ {
        node_price(model.door, l.cost)
    } else if l.link_type@ == "lodestone"@ {
        node_price(model.lodestone, l.cost)
    } else {
        link_price(l)
    }
}

fn cost_of_link(model: &CostModel, l: &OffmeshLinkRow) -> (r: i64)
    ensures
        r == link_cost(*model, *l),
{
    if same(l.link_type.as_str(), "door") {
        model.door_cost(l.cost)
    } else if same(l.link_type.as_str(), "lodestone") {
        model.lodestone_cost(l.cost)
    } else {
        price_of(l)
    }
}

/// What the edge of every link tells.
pub open spec fn link_base(l: OffmeshLinkRow) -> Map<Seq<char>, JsonV> {
    Map::<Seq<char>, JsonV>::empty().insert("offmesh_id"@, JsonV::Num(l.id as int)).insert(
        "link_type"@,
        JsonV::Str(l.link_type@),
    ).insert("node_table"@, JsonV::Str(l.node_table@)).insert("node_id"@, JsonV::Num(l.node_id as int)).insert(
        "requirement_id"@,
        num_or_null(l.requirement_id),
    ).insert("plane_from"@, num_or_null(l.plane_from)).insert("plane_to"@, JsonV::Num(l.plane_to as int)).insert(
        "src_cell_id"@,
        num_or_null(l.src_cell_id),
    ).insert("dst_cell_id"@, JsonV::Num(l.dst_cell_id as int))
}

fn base_of(l: &OffmeshLinkRow) -> (r: Json)
    ensures
        r@ == JsonV::Obj(link_base(*l)),
{
    Json::object().with("offmesh_id", Json::Int(l.id as i64)).with("link_type", Json::text(l.link_type.as_str())).with(
        "node_table",
        Json::text(l.node_table.as_str()),
    ).with("node_id", Json::Int(l.node_id as i64)).with("requirement_id", number_or_null(l.requirement_id)).with(
        "plane_from",
        number_or_null(l.plane_from),
    ).with("plane_to", Json::Int(l.plane_to as i64)).with("src_cell_id", number_or_null(l.src_cell_id)).with(
        "dst_cell_id",
        Json::Int(l.dst_cell_id as i64),
    )
}

/// What the row of every node shows.
pub open spec fn row_base(l: OffmeshLinkRow) -> Map<Seq<char>, JsonV> {
    Map::<Seq<char>, JsonV>::empty().insert("id"@, JsonV::Num(l.node_id as int)).insert(
        "cost"@,
        JsonV::Num(link_price(l) as int),
    ).insert("requirement_id"@, num_or_null(l.requirement_id))
}

fn row_start(l: &OffmeshLinkRow) -> (r: Json)
    ensures
        r@ == JsonV::Obj(row_base(*l)),
{
    Json::object().with("id", Json::Int(l.node_id as i64)).with("cost", Json::Int(price_of(l))).with(
        "requirement_id",
        number_or_null(l.requirement_id),
    )
}

/// The name of a lodestone; the empty text where there is none.
pub open spec fn lodestone_name(m: Map<Seq<char>, JsonV>) -> Seq<char> {
    match or_null(m, "lodestone"@) {
        JsonV::Str(s) => s,
        _ => ""@,
    }
}

/// A coordinate in a list; 0 for what is no integer of 64 bits.
pub open spec fn coordinate(v: JsonV) -> i32 {
    match v {
        JsonV::Num(n) => if i64::MIN <= n <= i64::MAX { (n as i64) as i32 } else { 0 },
        _ => 0,
    }
}

/// Where a lodestone leads; the tile of zeros where that is not told.
pub open spec fn dest_point(m: Map<Seq<char>, JsonV>) -> Tile {
    match or_null(m, "dest_point"@) {
        JsonV::Arr(a) => if a.len() == 3 {
            Tile { x: coordinate(a[0]), y: coordinate(a[1]), plane: coordinate(a[2]) }
        } else {
            Tile { x: 0, y: 0, plane: 0 }
        },
        _ => Tile { x: 0, y: 0, plane: 0 },
    }
}

fn coordinate_of(v: &Json) -> (r: i32)
    ensures
        r == coordinate(v@),
{
    match v.as_i64() {
        Some(n) => n as i32,
        None => 0,
    }
}

fn dest_of(m: &Json) -> (r: Tile)
    ensures
        r == dest_point(members(m@)),
{
    if let Some(v) = m.get("dest_point") {
        if let Some(a) = v.as_array() {
            proof {
                lemma_array_view(a@);
            }
            if a.len() == 3 {
                assert(array_view(a@)[0] == a@[0]@ && array_view(a@)[1] == a@[1]@ && array_view(a@)[2] == a@[2]@);
                return Tile { x: coordinate_of(&a[0]), y: coordinate_of(&a[1]), plane: coordinate_of(&a[2]) };
            }
        }
    }
    Tile { x: 0, y: 0, plane: 0 }
}

fn name_of(m: &Json) -> (r: &str)
    ensures
        r@ == lodestone_name(members(m@)),
{
    match m.get("lodestone") {
        Some(v) => match v.as_str() {
            Some(s) => s,
            None => "",
        },
        None => "",
    }
}

/// A node's row with some columns of its link, null columns, and the rectangle that it leads into.
pub open spec fn placed(
    l: OffmeshLinkRow,
    m: Map<Seq<char>, JsonV>,
    told: Seq<Seq<char>>,
    nulls: Seq<Seq<char>>,
) -> Map<Seq<char>, JsonV> {
    let columns = filled(filled(row_base(l), m, told), m, next_names());
    unrolled(filled(columns, Map::empty(), nulls), m, "dest_rect"@, dest_sides())
}

/// The row of a link's node, as far as the link tells it; `None` for a kind that is not known.
pub open spec fn link_row(l: OffmeshLinkRow, m: Map<Seq<char>, JsonV>) -> Option<Map<Seq<char>, JsonV>> {
    if l.link_type@ == "lodestone"@ {
        Some(
            filled(
                row_base(l).insert("lodestone"@, JsonV::Str(lodestone_name(m))).insert("dest"@, tile_json(dest_point(m))),
                m,
                next_names(),
            ),
        )
    } else if l.link_type@ == "door"@ {
        let columns = filled(filled(row_base(l), m, door_columns()), Map::empty(), door_nulls());
        Some(unrolled(unrolled(columns, m, "inside"@, inside_names()), m, "outside"@, outside_names()))
    } else if l.link_type@ == "object"@ {
        Some(unrolled(placed(l, m, object_told(), dest_sides()), m, "orig_rect"@, orig_sides()))
    } else if l.link_type@ == "npc"@ {
        Some(unrolled(placed(l, m, npc_told(), npc_nulls()), m, "orig_rect"@, orig_sides()))
    } else if l.link_type@ == "ifslot"@ {
        Some(placed(l, m, ifslot_told(), dest_sides()))
    } else if l.link_type@ == "item"@ {
        Some(placed(l, m, item_told(), dest_sides()))
    } else {
        None
    }
}

fn place(l: &OffmeshLinkRow, m: &Json, told: &Vec<&'static str>, nulls: &Vec<&'static str>) -> (r: Json)
    ensures
        r@ == JsonV::Obj(placed(*l, members(m@), texts(told@), texts(nulls@))),
{
    let columns: Json = fill(fill(row_start(l), m, told), m, &list_next_names());
    unroll(fill(columns, &Json::Null, nulls), m, "dest_rect", &list_dest_sides())
}

fn row_of_link(l: &OffmeshLinkRow, m: &Json) -> (r: Option<Json>)
    ensures
        match link_row(*l, members(m@)) {
            Some(row) => r is Some && r->0@ == JsonV::Obj(row),
            None => r is None,
        },
{
    let kind: &str = l.link_type.as_str();
    if same(kind, "lodestone") {
        let start: Json = row_start(l).with("lodestone", Json::text(name_of(m))).with("dest", dest_of(m).to_json());
        Some(fill(start, m, &list_next_names()))
    } else if same(kind, "door") {
        let columns: Json = fill(fill(row_start(l), m, &list_door_columns()), &Json::Null, &list_door_nulls());
        let inner: Json = unroll(columns, m, "inside", &list_inside_names());
        Some(unroll(inner, m, "outside", &list_outside_names()))
    } else if same(kind, "object") {
        Some(unroll(place(l, m, &list_object_told(), &list_dest_sides()), m, "orig_rect", &list_orig_sides()))
    } else if same(kind, "npc") {
        Some(unroll(place(l, m, &list_npc_told(), &list_npc_nulls()), m, "orig_rect", &list_orig_sides()))
    } else if same(kind, "ifslot") {
        Some(place(l, m, &list_ifslot_told(), &list_dest_sides()))
    } else if same(kind, "item") {
        Some(place(l, m, &list_item_told(), &list_dest_sides()))
    } else {
        None
    }
}

/// An object with a member of another one under another name, where that has it.
pub open spec fn renamed(
    base: Map<Seq<char>, JsonV>,
    m: Map<Seq<char>, JsonV>,
    from: Seq<char>,
    to: Seq<char>,
) -> Map<Seq<char>, JsonV> {
    if m.contains_key(from) { base.insert(to, m[from]) } else { base }
}

fn rename(base: Json, m: &Json, from: &str, to: &str) -> (r: Json)
    requires
        base@ is Obj,
    ensures
        r@ == JsonV::Obj(renamed(base@->Obj_0, members(m@), from@, to@)),
{
    match m.get(from) {
        Some(v) => base.with(to, v.copy()),
        None => base,
    }
}

/// What the edge of a link tells, without the row of its node.
pub open spec fn link_told(l: OffmeshLinkRow, m: Map<Seq<char>, JsonV>) -> Map<Seq<char>, JsonV> {
    let base = link_base(l);
    if l.link_type@ == "lodestone"@ {
        base.insert("lodestone"@, JsonV::Str(lodestone_name(m))).insert("target_lodestone"@, JsonV::Str(lodestone_name(m)))
    } else if l.link_type@ == "door"@ {
        let acted = renamed(copied(base, m, door_told()), m, "open_action"@, "action"@);
        renamed(renamed(acted, m, "direction"@, "db_door_direction"@), m, "direction"@, "door_direction"@)
    } else if l.link_type@ == "object"@ {
        copied(base, m, object_told())
    } else if l.link_type@ == "npc"@ {
        copied(base, m, npc_told())
    } else if l.link_type@ == "item"@ {
        copied(base, m, item_told())
    } else {
        base
    }
}

fn told_of(l: &OffmeshLinkRow, m: &Json) -> (r: Json)
    ensures
        r@ == JsonV::Obj(link_told(*l, members(m@))),
{
    let kind: &str = l.link_type.as_str();
    let base: Json = base_of(l);
    if same(kind, "lodestone") {
        base.with("lodestone", Json::text(name_of(m))).with("target_lodestone", Json::text(name_of(m)))
    } else if same(kind, "door") {
        let acted: Json = rename(copy_in(base, m, &list_door_told()), m, "open_action", "action");
        rename(rename(acted, m, "direction", "db_door_direction"), m, "direction", "door_direction")
    } else if same(kind, "object") {
        copy_in(base, m, &list_object_told())
    } else if same(kind, "npc") {
        copy_in(base, m, &list_npc_told())
    } else if same(kind, "item") {
        copy_in(base, m, &list_item_told())
    } else {
        base
    }
}

/// What the edge of a link tells, given what its description spells: with the row of its node
/// where the description is an object and the kind is known.
pub open spec fn link_json(l: OffmeshLinkRow, spelt: Option<JsonV>) -> JsonV {
    match spelt {
        Some(JsonV::Obj(m)) => match link_row(l, m) {
            Some(row) => JsonV::Obj(link_told(l, m).insert("db_row"@, JsonV::Obj(row))),
            None => JsonV::Obj(link_base(l)),
        },
        _ => JsonV::Obj(link_base(l)),
    }
}

pub open spec fn spelt_view(spelt: Option<Json>) -> Option<JsonV> {
    match spelt {
        Some(v) => Some(v@),
        None => None,
    }
}

/// What the edge of a link tells.
pub fn link_metadata(l: &OffmeshLinkRow, spelt: &Option<Json>) -> (r: Json)
    ensures
        r@ == link_json(*l, spelt_view(*spelt)),
{
    if let Some(m) = spelt {
        if m.is_object() {
            if let Some(row) = row_of_link(l, m) {
                return told_of(l, m).with("db_row", row);
            }
        }
    }
    base_of(l)
}

/// What the description of a link spells.
pub open spec fn link_spelt(l: OffmeshLinkRow) -> Option<JsonV> {
    match l.meta_json {
        Some(s) => parsed_json(vstd::utf8::encode_utf8(s@)),
        None => None,
    }
}

fn spelt_of(l: &OffmeshLinkRow) -> (r: Option<Json>)
    ensures
        spelt_view(r) == link_spelt(*l),
{
    match &l.meta_json {
        Some(s) => parse_json(s.as_str().as_bytes()),
        None => None,
    }
}

/// Whether a link leads from a cell, or from every cell.
pub open spec fn starts_in(l: OffmeshLinkRow, cell: Option<i32>) -> bool {
    l.src_cell_id == cell
}

/// Whether a link can be used from a tile: its requirement is met, and it leads elsewhere.
pub open spec fn link_open(reqs: Seq<RequirementRow>, extras: JsonV, tile: Tile, l: OffmeshLinkRow) -> bool {
    (l.requirement_id is Some ==> passes(reqs, extras, l.requirement_id->0)) && cell_tile(l.dst_cell_id, l.plane_to) != tile
}

/// The places of the links among the first `k` that start in a cell and can be used.
pub open spec fn open_links(
    links: Seq<OffmeshLinkRow>,
    reqs: Seq<RequirementRow>,
    extras: JsonV,
    tile: Tile,
    cell: Option<i32>,
    k: int,
) -> Seq<usize>
    decreases k,
{
    if k <= 0 {
        Seq::empty()
    } else {
        let rest = open_links(links, reqs, extras, tile, cell, k - 1);
        if starts_in(links[k - 1], cell) && link_open(reqs, extras, tile, links[k - 1]) {
            rest.push((k - 1) as usize)
        } else {
            rest
        }
    }
}

fn find_links(
    links: &Vec<OffmeshLinkRow>,
    reqs: &Vec<RequirementRow>,
    extras: &Json,
    tile: Tile,
    cell: Option<i32>,
) -> (r: Vec<usize>)
    ensures
        r@ == open_links(links@, reqs@, extras@, tile, cell, links@.len() as int),
        forall|i: int| 0 <= i < r@.len() ==> #[trigger] r@[i] < links@.len(),
{
    let mut r: Vec<usize> = Vec::new();
    let mut i: usize = 0;
    while i < links.len()
        invariant
            i <= links@.len(),
            r@ == open_links(links@, reqs@, extras@, tile, cell, i as int),
            forall|j: int| 0 <= j < r@.len() ==> #[trigger] r@[j] < links@.len(),
        decreases links@.len() - i,
    {
        let l: &OffmeshLinkRow = &links[i];
        let from_here: bool = match (l.src_cell_id, cell) {
            (Some(a), Some(b)) => a == b,
            (None, None) => true,
            _ => false,
        };
        let met: bool = match l.requirement_id {
            Some(id) => req_passes(reqs, extras, id),
            None => true,
        };
        if from_here && met && encode_cell(l.dst_cell_id, l.plane_to) != tile {
            r.push(i);
        }
        i += 1;
    }
    r
}

/// Positions in the order of the keys of what stands there.
pub open spec fn ordered(places: Seq<usize>, key: spec_fn(usize) -> SortKey) -> Seq<usize> {
    let order = sorted_positions(places.map_values(|p: usize| key(p)));
    Seq::new(places.len(), |i: int| places[order[i] as int])
}

fn put_in_order(places: &Vec<usize>, keys: &Vec<SortKey>, key: Ghost<spec_fn(usize) -> SortKey>) -> (r: Vec<usize>)
    requires
        keys@ == places@.map_values(|p: usize| key@(p)),
    ensures
        r@ == ordered(places@, key@),
        forall|i: int| 0 <= i < r@.len() ==> places@.contains(#[trigger] r@[i]),
{
    let order: Vec<usize> = stable_order(keys);
    let mut r: Vec<usize> = Vec::new();
    let mut k: usize = 0;
    while k < order.len()
        invariant
            k <= order@.len(),
            order@.len() == places@.len(),
            forall|j: int| 0 <= j < order@.len() ==> #[trigger] order@[j] < places@.len(),
            r@.len() == k,
            forall|j: int| 0 <= j < k ==> #[trigger] r@[j] == places@[order@[j] as int],
        decreases order@.len() - k,
    {
        r.push(places[order[k]]);
        k += 1;
    }
    assert(r@ =~= ordered(places@, key@));
    r
}

/// The sort key of a link's edge: the cell that it leads to, then its id.
pub open spec fn link_key(l: OffmeshLinkRow) -> SortKey {
    SortKey { a: l.dst_cell_id as i64, b: l.id as i64, c: 0, d: 0 }
}

/// The edge of a link.
pub open spec fn link_edge(model: CostModel, tile: Tile, l: OffmeshLinkRow) -> EdgeV {
    EdgeV {
        type_: l.link_type@,
        from_tile: tile,
        to_tile: cell_tile(l.dst_cell_id, l.plane_to),
        cost_ms: link_cost(model, l),
        node: Some(NodeRefV { type_: l.link_type@, id: l.node_id }),
        metadata: Some(link_json(l, link_spelt(l))),
    }
}

/// The edges of links: those from the cell and those from everywhere, by the cells that they lead
/// to and then by their ids.
pub open spec fn offmesh_edges(
    links: Seq<OffmeshLinkRow>,
    reqs: Seq<RequirementRow>,
    model: CostModel,
    extras: JsonV,
    tile: Tile,
) -> Seq<EdgeV> {
    let n = links.len() as int;
    let places = open_links(links, reqs, extras, tile, Some(tile.x), n) + open_links(links, reqs, extras, tile, None, n);
    ordered(places, |p: usize| link_key(links[p as int])).map_values(|p: usize| link_edge(model, tile, links[p as int]))
}

/// An opening that leads from a cell.
pub open spec fn opens(p: PortalRow, cell: i32, plane: i32) -> bool {
    p.plane == plane && (p.a_id == cell || p.b_id == cell)
}

/// The cell beyond an opening.
pub open spec fn beyond(p: PortalRow, cell: i32) -> i32 {
    if p.a_id == cell { p.b_id } else { p.a_id }
}

/// The places of the openings among the first `k` that lead from a cell.
pub open spec fn open_portals(portals: Seq<PortalRow>, cell: i32, plane: i32, k: int) -> Seq<usize>
    decreases k,
{
    if k <= 0 {
        Seq::empty()
    } else {
        let rest = open_portals(portals, cell, plane, k - 1);
        if opens(portals[k - 1], cell, plane) { rest.push((k - 1) as usize) } else { rest }
    }
}

pub open spec fn portal_json(p: PortalRow) -> JsonV {
    JsonV::Obj(
        Map::<Seq<char>, JsonV>::empty().insert("portal_id"@, JsonV::Num(p.id as int)).insert(
            "plane"@,
            JsonV::Num(p.plane as int),
        ).insert("a_id"@, JsonV::Num(p.a_id as int)).insert("b_id"@, JsonV::Num(p.b_id as int)).insert("x1"@, p.x1@).insert(
            "y1"@,
            p.y1@,
        ).insert("x2"@, p.x2@).insert("y2"@, p.y2@).insert("length"@, p.length@),
    )
}

/// The edge of an opening: it costs its length.
pub open spec fn portal_edge(tile: Tile, p: PortalRow) -> EdgeV {
    EdgeV {
        type_: "move"@,
        from_tile: tile,
        to_tile: cell_tile(beyond(p, tile.x), p.plane),
        cost_ms: if p.rounded_length > 0 { p.rounded_length } else { 0 },
        node: None,
        metadata: Some(portal_json(p)),
    }
}

/// The sort key of an opening's edge: the cell beyond it, then its id.
pub open spec fn portal_key(cell: i32, p: PortalRow) -> SortKey {
    SortKey { a: beyond(p, cell) as i64, b: p.id as i64, c: 0, d: 0 }
}

/// The edges of the openings of a cell.
pub open spec fn portal_edges(portals: Seq<PortalRow>, tile: Tile) -> Seq<EdgeV> {
    let places = open_portals(portals, tile.x, tile.plane, portals.len() as int);
    ordered(places, |p: usize| portal_key(tile.x, portals[p as int])).map_values(
        |p: usize| portal_edge(tile, portals[p as int]),
    )
}

/// The cells of a mesh, with the openings between them and the links off the mesh.
pub struct NavmeshGraphProvider {
    pub portals: Vec<PortalRow>,
    pub links: Vec<OffmeshLinkRow>,
    pub requirements: Vec<RequirementRow>,
    pub cost_model: CostModel,
}

impl NavmeshGraphProvider {
    pub fn new(
        portals: Vec<PortalRow>,
        links: Vec<OffmeshLinkRow>,
        requirements: Vec<RequirementRow>,
        cost_model: CostModel,
    ) -> (r: NavmeshGraphProvider)
        ensures
            r.portals == portals,
            r.links == links,
            r.requirements == requirements,
            r.cost_model == cost_model,
    {
        NavmeshGraphProvider { portals, links, requirements, cost_model }
    }

    /// The edges of the openings of a cell, by the cells beyond them and then by their ids.
    pub fn neighbors_portals(&self, tile: Tile) -> (r: Vec<Edge>)
        ensures
            edges_view(r@) == portal_edges(self.portals@, tile),
    {
        let (cell, plane) = decode_cell(tile);
        let portals: &Vec<PortalRow> = &self.portals;
        let ghost key = |p: usize| portal_key(cell, portals@[p as int]);
        let mut places: Vec<usize> = Vec::new();
        let mut keys: Vec<SortKey> = Vec::new();
        let mut i: usize = 0;
        while i < portals.len()
            invariant
                i <= portals@.len(),
                key == |p: usize| portal_key(cell, portals@[p as int]),
                places@ == open_portals(portals@, cell, plane, i as int),
                forall|j: int| 0 <= j < places@.len() ==> #[trigger] places@[j] < portals@.len(),
                keys@.len() == places@.len(),
                forall|j: int| 0 <= j < keys@.len() ==> #[trigger] keys@[j] == key(places@[j]),
            decreases portals@.len() - i,
        {
            let p: &PortalRow = &portals[i];
            if p.plane == plane && (p.a_id == cell || p.b_id == cell) {
                let next: i32 = if p.a_id == cell {
                    p.b_id
                } else {
                    p.a_id
                };
                places.push(i);
                keys.push(SortKey { a: next as i64, b: p.id as i64, c: 0, d: 0 });
            }
            i += 1;
        }
        assert(keys@ =~= places@.map_values(|p: usize| key(p)));
        let sorted: Vec<usize> = put_in_order(&places, &keys, Ghost(key));
        let mut edges: Vec<Edge> = Vec::new();
        let mut k: usize = 0;
        while k < sorted.len()
            invariant
                k <= sorted@.len(),
                cell == tile.x,
                forall|j: int| 0 <= j < sorted@.len() ==> #[trigger] sorted@[j] < portals@.len(),
                edges@.len() == k,
                forall|j: int| 0 <= j < k ==> (#[trigger] edges@[j])@ == portal_edge(tile, portals@[sorted@[j] as int]),
            decreases sorted@.len() - k,
        {
            let p: &PortalRow = &portals[sorted[k]];
            let next: i32 = if p.a_id == cell {
                p.b_id
            } else {
                p.a_id
            };
            let meta: Json = Json::object().with("portal_id", Json::Int(p.id as i64)).with("plane", Json::Int(p.plane as i64)).with(
                "a_id",
                Json::Int(p.a_id as i64),
            ).with("b_id", Json::Int(p.b_id as i64)).with("x1", p.x1.copy()).with("y1", p.y1.copy()).with("x2", p.x2.copy()).with(
                "y2",
                p.y2.copy(),
            ).with("length", p.length.copy());
            edges.push(
                Edge {
                    type_: owned("move"),
                    from_tile: tile,
                    to_tile: encode_cell(next, p.plane),
                    cost_ms: if p.rounded_length > 0 {
                        p.rounded_length
                    } else {
                        0
                    },
                    node: None,
                    metadata: Some(meta),
                },
            );
            k += 1;
        }
        assert(edges_view(edges@) =~= portal_edges(self.portals@, tile));
        edges
    }

    /// The edges of the links off the mesh, by the cells that they lead to and then by their ids.
    pub fn neighbors_offmesh(&self, tile: Tile, options: &SearchOptions) -> (r: Vec<Edge>)
        ensures
            edges_view(r@) == offmesh_edges(
                self.links@,
                self.requirements@,
                self.cost_model,
                options.extras@,
                tile,
            ),
    {
        let links: &Vec<OffmeshLinkRow> = &self.links;
        let ghost key = |p: usize| link_key(links@[p as int]);
        let mut places: Vec<usize> = find_links(links, &self.requirements, &options.extras, tile, Some(tile.x));
        let mut everywhere: Vec<usize> = find_links(links, &self.requirements, &options.extras, tile, None);
        let ghost (near, far) = (places@, everywhere@);
        places.append(&mut everywhere);
        assert(places@ =~= near + far);
        let mut keys: Vec<SortKey> = Vec::new();
        let mut i: usize = 0;
        while i < places.len()
            invariant
                i <= places@.len(),
                key == |p: usize| link_key(links@[p as int]),
                forall|j: int| 0 <= j < places@.len() ==> #[trigger] places@[j] < links@.len(),
                keys@.len() == i,
                forall|j: int| 0 <= j < i ==> #[trigger] keys@[j] == key(places@[j]),
            decreases places@.len() - i,
        {
            let l: &OffmeshLinkRow = &links[places[i]];
            keys.push(SortKey { a: l.dst_cell_id as i64, b: l.id as i64, c: 0, d: 0 });
            i += 1;
        }
        assert(keys@ =~= places@.map_values(|p: usize| key(p)));
        let sorted: Vec<usize> = put_in_order(&places, &keys, Ghost(key));
        let mut edges: Vec<Edge> = Vec::new();
        let mut k: usize = 0;
        while k < sorted.len()
            invariant
                k <= sorted@.len(),
                links@ == self.links@,
                forall|j: int| 0 <= j < sorted@.len() ==> #[trigger] sorted@[j] < links@.len(),
                edges@.len() == k,
                forall|j: int|
                    0 <= j < k ==> (#[trigger] edges@[j])@ == link_edge(self.cost_model, tile, links@[sorted@[j] as int]),
            decreases sorted@.len() - k,
        {
            let l: &OffmeshLinkRow = &links[sorted[k]];
            edges.push(
                Edge {
                    type_: owned(l.link_type.as_str()),
                    from_tile: tile,
                    to_tile: encode_cell(l.dst_cell_id, l.plane_to),
                    cost_ms: cost_of_link(&self.cost_model, l),
                    node: Some(NodeRef::new(l.link_type.as_str(), l.node_id)),
                    metadata: Some(link_metadata(l, &spelt_of(l))),
                },
            );
            k += 1;
        }
        assert(edges_view(edges@) =~= offmesh_edges(
            self.links@,
            self.requirements@,
            self.cost_model,
            options.extras@,
            tile,
        ));
        edges
    }
}

impl GraphProvider for NavmeshGraphProvider {
    open spec fn edges_from(&self, tile: Tile, goal: Tile, options: SearchOptions) -> Seq<EdgeV> {
        portal_edges(self.portals@, tile) + offmesh_edges(
            self.links@,
            self.requirements@,
            self.cost_model,
            options.extras@,
            tile,
        )
    }

    open spec fn tells(&self) -> bool {
        true
    }

    open spec fn may_fail(&self) -> bool {
        false
    }

    fn neighbors(&self, tile: Tile, goal: Tile, options: &SearchOptions) -> (r: Result<Vec<Edge>, ReadError>) {
        let mut edges: Vec<Edge> = self.neighbors_portals(tile);
        let mut more: Vec<Edge> = self.neighbors_offmesh(tile, options);
        let ghost (a, b) = (edges@, more@);
        edges.append(&mut more);
        assert(edges_view(edges@) =~= edges_view(a) + edges_view(b));
        Ok(edges)
    }
}

proof fn lemma_ordered(places: Seq<usize>, key: spec_fn(usize) -> SortKey)
    requires
        places.len() <= usize::MAX,
    ensures
        ordered(places, key).len() == places.len(),
        forall|i: int| 0 <= i < places.len() ==> places.contains(#[trigger] ordered(places, key)[i]),
        forall|p: usize| #[trigger] places.contains(p) ==> ordered(places, key).contains(p),
{
    let keys = places.map_values(|p: usize| key(p));
    lemma_sorted_positions(keys);
    let order = sorted_positions(keys);
    assert forall|p: usize| #[trigger] places.contains(p) implies ordered(places, key).contains(p) by {
        let i = choose|i: int| 0 <= i < places.len() && places[i] == p;
        assert(order.contains(i as usize));
        let j = choose|j: int| 0 <= j < order.len() && order[j] == i as usize;
        assert(ordered(places, key)[j] == p);
    }
}

proof fn lemma_open_links(
    links: Seq<OffmeshLinkRow>,
    reqs: Seq<RequirementRow>,
    extras: JsonV,
    tile: Tile,
    cell: Option<i32>,
    k: int,
)
    requires
        0 <= k <= links.len() <= usize::MAX,
    ensures
        forall|p: usize| #[trigger]
            open_links(links, reqs, extras, tile, cell, k).contains(p) <==> p < k && starts_in(links[p as int], cell) && link_open(
                reqs,
                extras,
                tile,
                links[p as int],
            ),
    decreases k,
{
    if k > 0 {
        lemma_open_links(links, reqs, extras, tile, cell, k - 1);
        let rest = open_links(links, reqs, extras, tile, cell, k - 1);
        let last = (k - 1) as usize;
        assert forall|p: usize| #[trigger] rest.push(last).contains(p) <==> rest.contains(p) || p == last by {
            if rest.contains(p) {
                let i = choose|i: int| 0 <= i < rest.len() && rest[i] == p;
                assert(rest.push(last)[i] == p);
            }
            assert(rest.push(last)[rest.len() as int] == last);
        }
    }
}

proof fn lemma_links_counted(links: Seq<OffmeshLinkRow>, reqs: Seq<RequirementRow>, extras: JsonV, tile: Tile, cell: i32, k: int)
    requires
        0 <= k,
    ensures
        open_links(links, reqs, extras, tile, Some(cell), k).len() + open_links(links, reqs, extras, tile, None, k).len() <= k,
    decreases k,
{
    if k > 0 {
        lemma_links_counted(links, reqs, extras, tile, cell, k - 1);
    }
}

/// The edges of links are exactly those of the links that start in the cell or everywhere, lead
/// elsewhere and have their requirement met: each of these has an edge, and a link whose
/// requirement is not met has none.
pub proof fn law_links_stay_shut_unless_met(
    links: Seq<OffmeshLinkRow>,
    reqs: Seq<RequirementRow>,
    model: CostModel,
    extras: JsonV,
    tile: Tile,
)
    requires
        links.len() <= usize::MAX,
    ensures
        forall|i: int|
            0 <= i < offmesh_edges(links, reqs, model, extras, tile).len() ==> exists|p: int|
                0 <= p < links.len() && #[trigger] link_open(reqs, extras, tile, links[p]) && (starts_in(links[p], Some(tile.x))
                    || starts_in(links[p], None)) && #[trigger] offmesh_edges(links, reqs, model, extras, tile)[i] == link_edge(
                    model,
                    tile,
                    links[p],
                ),
        forall|p: int|
            0 <= p < links.len() && #[trigger] link_open(reqs, extras, tile, links[p]) && (starts_in(links[p], Some(tile.x))
                || starts_in(links[p], None)) ==> offmesh_edges(links, reqs, model, extras, tile).contains(
                link_edge(model, tile, links[p]),
            ),
{
    let n = links.len() as int;
    let near = open_links(links, reqs, extras, tile, Some(tile.x), n);
    let far = open_links(links, reqs, extras, tile, None, n);
    let places = near + far;
    let key = |p: usize| link_key(links[p as int]);
    let sorted = ordered(places, key);
    let edges = offmesh_edges(links, reqs, model, extras, tile);
    lemma_open_links(links, reqs, extras, tile, Some(tile.x), n);
    lemma_open_links(links, reqs, extras, tile, None, n);
    lemma_links_counted(links, reqs, extras, tile, tile.x, n);
    lemma_ordered(places, key);
    assert forall|i: int| 0 <= i < edges.len() implies exists|p: int|
        0 <= p < links.len() && #[trigger] link_open(reqs, extras, tile, links[p]) && (starts_in(links[p], Some(tile.x))
            || starts_in(links[p], None)) && #[trigger] edges[i] == link_edge(model, tile, links[p]) by {
        let p = sorted[i];
        assert(places.contains(p));
        assert(near.contains(p) || far.contains(p));
        assert(link_open(reqs, extras, tile, links[p as int]));
    }
    assert forall|p: int|
        0 <= p < links.len() && #[trigger] link_open(reqs, extras, tile, links[p]) && (starts_in(links[p], Some(tile.x))
            || starts_in(links[p], None)) implies edges.contains(link_edge(model, tile, links[p])) by {
        let q = p as usize;
        assert(near.contains(q) || far.contains(q));
        if near.contains(q) {
            let i = choose|i: int| 0 <= i < near.len() && near[i] == q;
            assert(places[i] == q);
        } else {
            let i = choose|i: int| 0 <= i < far.len() && far[i] == q;
            assert(places[near.len() + i] == q);
        }
        assert(places.contains(q));
        assert(sorted.contains(q));
        let j = choose|j: int| 0 <= j < sorted.len() && sorted[j] == q;
        assert(edges[j] == link_edge(model, tile, links[p]));
    }
}

proof fn lemma_open_portals(portals: Seq<PortalRow>, cell: i32, plane: i32, k: int)
    requires
        0 <= k <= portals.len() <= usize::MAX,
    ensures
        open_portals(portals, cell, plane, k).len() <= k,
        forall|p: usize| #[trigger]
            open_portals(portals, cell, plane, k).contains(p) <==> p < k && opens(portals[p as int], cell, plane),
    decreases k,
{
    if k > 0 {
        lemma_open_portals(portals, cell, plane, k - 1);
        let rest = open_portals(portals, cell, plane, k - 1);
        let last = (k - 1) as usize;
        assert forall|p: usize| #[trigger] rest.push(last).contains(p) <==> rest.contains(p) || p == last by {
            if rest.contains(p) {
                let i = choose|i: int| 0 <= i < rest.len() && rest[i] == p;
                assert(rest.push(last)[i] == p);
            }
            assert(rest.push(last)[rest.len() as int] == last);
        }
    }
}

/// An opening leads both ways: where an edge of an opening leads from a cell to another, one leads
/// back, at the same cost.
pub proof fn law_portals_lead_both_ways(portals: Seq<PortalRow>, cell: i32, plane: i32, i: int)
    requires
        portals.len() <= usize::MAX,
        0 <= i < portal_edges(portals, cell_tile(cell, plane)).len(),
    ensures
        exists|e: EdgeV| #[trigger]
            portal_edges(portals, portal_edges(portals, cell_tile(cell, plane))[i].to_tile).contains(e) && e.to_tile == cell_tile(
                cell,
                plane,
            ) && e.cost_ms == portal_edges(portals, cell_tile(cell, plane))[i].cost_ms,
{
    let n = portals.len() as int;
    let here = cell_tile(cell, plane);
    let key = |p: usize| portal_key(cell, portals[p as int]);
    let places = open_portals(portals, cell, plane, n);
    lemma_open_portals(portals, cell, plane, n);
    lemma_ordered(places, key);
    let p = ordered(places, key)[i];
    let edge = portal_edges(portals, here)[i];
    assert(places.contains(p));
    assert(edge == portal_edge(here, portals[p as int]));
    let there = edge.to_tile;
    let back_key = |q: usize| portal_key(there.x, portals[q as int]);
    let back = open_portals(portals, there.x, there.plane, n);
    lemma_open_portals(portals, there.x, there.plane, n);
    lemma_ordered(back, back_key);
    assert(opens(portals[p as int], there.x, there.plane));
    assert(back.contains(p));
    let sorted = ordered(back, back_key);
    assert(sorted.contains(p));
    let j = choose|j: int| 0 <= j < sorted.len() && sorted[j] == p;
    let e = portal_edge(there, portals[p as int]);
    assert(portal_edges(portals, there)[j] == e);
    assert(portal_edges(portals, there).contains(e));
}

/// Whether a link can be taken from a cell: it starts there or everywhere, what it requires is met, and
/// it leads elsewhere.
pub open spec fn may_take_link(links: Seq<OffmeshLinkRow>, reqs: Seq<RequirementRow>, extras: JsonV, tile: Tile, p: int) -> bool {
    &&& 0 <= p < links.len()
    &&& links[p].src_cell_id is None || links[p].src_cell_id == Some(tile.x)
    &&& links[p].requirement_id is Some ==> passes(reqs, extras, links[p].requirement_id->0)
    &&& links[p].dst_cell_id != tile.x || tile.y != 0 || links[p].plane_to != tile.plane
}

/// Whether an edge is that of a link: it leads to the tile of the link's cell, by its node, and costs what
/// its row says, or 600 ms; a door or a lodestone costs what is laid down for it, where that is.
pub open spec fn is_link_edge(l: OffmeshLinkRow, model: CostModel, tile: Tile, e: EdgeV) -> bool {
    let row = if l.cost is Some { l.cost->0 } else { 600 };
    &&& e.type_ == l.link_type@ && e.from_tile == tile
    &&& e.to_tile.x == l.dst_cell_id && e.to_tile.y == 0 && e.to_tile.plane == l.plane_to
    &&& e.node == Some(NodeRefV { type_: l.link_type@, id: l.node_id })
    &&& e.cost_ms == if l.link_type@ == "door"@ && model.door is Some {
        model.door->0
    } else if l.link_type@ == "lodestone"@ && model.lodestone is Some {
        model.lodestone->0
    } else {
        row
    }
}

proof fn lemma_link_edge(l: OffmeshLinkRow, model: CostModel, tile: Tile)
    ensures
        is_link_edge(l, model, tile, link_edge(model, tile, l)),
{
    reveal_strlit("door");
    reveal_strlit("lodestone");
    assert("door"@.len() == 4 && "lodestone"@.len() == 9);
}

/// Whether an edge is that of a link that can be taken.
pub open spec fn is_taken_link(
    links: Seq<OffmeshLinkRow>,
    reqs: Seq<RequirementRow>,
    model: CostModel,
    extras: JsonV,
    tile: Tile,
    e: EdgeV,
) -> bool {
    exists|p: int| #[trigger] may_take_link(links, reqs, extras, tile, p) && is_link_edge(links[p], model, tile, e)
}

/// From a cell exactly the links lead that can be taken: each of them has an edge, and each edge is that
/// of one of them.
pub proof fn law_links_lead_off_the_mesh(
    links: Seq<OffmeshLinkRow>,
    reqs: Seq<RequirementRow>,
    model: CostModel,
    extras: JsonV,
    tile: Tile,
)
    requires
        links.len() <= usize::MAX,
    ensures
        forall|i: int|
            0 <= i < offmesh_edges(links, reqs, model, extras, tile).len() ==> is_taken_link(
                links,
                reqs,
                model,
                extras,
                tile,
                #[trigger] offmesh_edges(links, reqs, model, extras, tile)[i],
            ),
        forall|p: int| #[trigger]
            may_take_link(links, reqs, extras, tile, p) ==> exists|i: int|
                0 <= i < offmesh_edges(links, reqs, model, extras, tile).len() && is_link_edge(
                    links[p],
                    model,
                    tile,
                    #[trigger] offmesh_edges(links, reqs, model, extras, tile)[i],
                ),
{
    law_links_stay_shut_unless_met(links, reqs, model, extras, tile);
    let edges = offmesh_edges(links, reqs, model, extras, tile);
    assert forall|i: int| 0 <= i < edges.len() implies is_taken_link(links, reqs, model, extras, tile, #[trigger] edges[i]) by {
        let p = choose|p: int|
            0 <= p < links.len() && #[trigger] link_open(reqs, extras, tile, links[p]) && (starts_in(links[p], Some(tile.x))
                || starts_in(links[p], None)) && edges[i] == link_edge(model, tile, links[p]);
        lemma_link_edge(links[p], model, tile);
        assert(may_take_link(links, reqs, extras, tile, p));
    }
    assert forall|p: int| #[trigger] may_take_link(links, reqs, extras, tile, p) implies exists|i: int|
        0 <= i < edges.len() && is_link_edge(links[p], model, tile, #[trigger] edges[i]) by {
        assert(link_open(reqs, extras, tile, links[p]));
        let e = link_edge(model, tile, links[p]);
        lemma_link_edge(links[p], model, tile);
        assert(edges.contains(e));
        let i = choose|i: int| 0 <= i < edges.len() && edges[i] == e;
        assert(is_link_edge(links[p], model, tile, edges[i]));
    }
}

/// Whether an edge is that of an opening of a cell: the opening is on its plane and at the cell on one
/// side, the edge leads to the cell on the other, and costs its length.
pub open spec fn is_opening(portals: Seq<PortalRow>, tile: Tile, p: int, e: EdgeV) -> bool {
    &&& 0 <= p < portals.len()
    &&& portals[p].plane == tile.plane
    &&& e.from_tile == tile && e.type_ == "move"@ && e.to_tile.y == 0 && e.to_tile.plane == tile.plane
    &&& (portals[p].a_id == tile.x && e.to_tile.x == portals[p].b_id) || (portals[p].a_id != tile.x && portals[p].b_id == tile.x
        && e.to_tile.x == portals[p].a_id)
    &&& e.cost_ms == if portals[p].rounded_length > 0 { portals[p].rounded_length } else { 0 }
}

/// Whether an edge is that of some opening of a cell.
pub open spec fn is_some_opening(portals: Seq<PortalRow>, tile: Tile, e: EdgeV) -> bool {
    exists|p: int| #[trigger] is_opening(portals, tile, p, e)
}

/// From a cell exactly its openings lead: each has an edge, and each edge is that of one of them.
pub proof fn law_openings_lead_across(portals: Seq<PortalRow>, tile: Tile)
    requires
        portals.len() <= usize::MAX,
    ensures
        forall|i: int|
            0 <= i < portal_edges(portals, tile).len() ==> is_some_opening(
                portals,
                tile,
                #[trigger] portal_edges(portals, tile)[i],
            ),
        forall|p: int|
            0 <= p < portals.len() && (#[trigger] portals[p]).plane == tile.plane && (portals[p].a_id == tile.x || portals[p].b_id
                == tile.x) ==> exists|i: int|
                0 <= i < portal_edges(portals, tile).len() && is_opening(
                    portals,
                    tile,
                    p,
                    #[trigger] portal_edges(portals, tile)[i],
                ),
{
    let n = portals.len() as int;
    let key = |p: usize| portal_key(tile.x, portals[p as int]);
    let places = open_portals(portals, tile.x, tile.plane, n);
    lemma_open_portals(portals, tile.x, tile.plane, n);
    lemma_ordered(places, key);
    let sorted = ordered(places, key);
    let edges = portal_edges(portals, tile);
    assert forall|i: int| 0 <= i < edges.len() implies is_some_opening(portals, tile, #[trigger] edges[i]) by {
        let p = sorted[i];
        assert(places.contains(p));
        assert(edges[i] == portal_edge(tile, portals[p as int]));
        assert(is_opening(portals, tile, p as int, edges[i]));
    }
    assert forall|p: int|
        0 <= p < portals.len() && (#[trigger] portals[p]).plane == tile.plane && (portals[p].a_id == tile.x || portals[p].b_id
            == tile.x) implies exists|i: int|
        0 <= i < edges.len() && is_opening(portals, tile, p, #[trigger] edges[i]) by {
        let q = p as usize;
        assert(places.contains(q));
        assert(sorted.contains(q));
        let i = choose|i: int| 0 <= i < sorted.len() && sorted[i] == q;
        assert(edges[i] == portal_edge(tile, portals[p]));
        assert(is_opening(portals, tile, p, edges[i]));
    }
}

proof fn lemma_ordered_by(places: Seq<usize>, key: spec_fn(usize) -> SortKey, i: int, j: int)
    requires
        places.len() <= usize::MAX,
        0 <= i < j < places.len(),
    ensures
        ({
            let (x, y) = (key(ordered(places, key)[i]), key(ordered(places, key)[j]));
            x.a <= y.a && (x.a == y.a ==> x.b <= y.b)
        }),
{
    let keys = places.map_values(|p: usize| key(p));
    lemma_sorted_positions(keys);
    let order = sorted_positions(keys);
    crate::sort::law_keys_ascend(keys, order, i, j);
}

/// Links and openings are told by the cells that they lead to, those with the least number first.
pub proof fn law_edges_come_by_their_cells(
    links: Seq<OffmeshLinkRow>,
    reqs: Seq<RequirementRow>,
    model: CostModel,
    extras: JsonV,
    portals: Seq<PortalRow>,
    tile: Tile,
    i: int,
    j: int,
)
    requires
        links.len() <= usize::MAX,
        portals.len() <= usize::MAX,
        0 <= i < j,
    ensures
        j < offmesh_edges(links, reqs, model, extras, tile).len() ==> offmesh_edges(links, reqs, model, extras, tile)[i].to_tile.x
            <= offmesh_edges(links, reqs, model, extras, tile)[j].to_tile.x,
        j < portal_edges(portals, tile).len() ==> portal_edges(portals, tile)[i].to_tile.x <= portal_edges(portals, tile)[j].to_tile.x,
{
    let n = links.len() as int;
    let places = open_links(links, reqs, extras, tile, Some(tile.x), n) + open_links(links, reqs, extras, tile, None, n);
    let key = |p: usize| link_key(links[p as int]);
    lemma_links_counted(links, reqs, extras, tile, tile.x, n);
    if j < offmesh_edges(links, reqs, model, extras, tile).len() {
        lemma_ordered_by(places, key, i, j);
    }
    let doors = open_portals(portals, tile.x, tile.plane, portals.len() as int);
    let side = |p: usize| portal_key(tile.x, portals[p as int]);
    lemma_open_portals(portals, tile.x, tile.plane, portals.len() as int);
    if j < portal_edges(portals, tile).len() {
        lemma_ordered_by(doors, side, i, j);
    }
}

}
