use navpath::cost::CostModel;
use navpath::graph::chain_index::{build_chain_head_index, ChainHeadIndex, ChainHeadIndexState};
use navpath::graph::movement::{
    decode_allowed_mask_int, decode_allowed_mask_str, mask_from_tiledata, movement_order, EAST, NORTH, NORTHEAST, NORTHWEST,
    SOUTH, SOUTHEAST, SOUTHWEST, WEST,
};
use navpath::graph::navmesh_provider::{
    decode_cell, encode_cell, link_metadata, NavmeshGraphProvider, OffmeshLinkRow, PortalRow,
};
use navpath::graph::nodes::{
    eval_requirement, normalise_type, req_passes, value_given, Bounds2D, ChainResolution, NodeChainResolver, NodeTables,
};
use navpath::graph::plane_cache::PlaneTileCache;
use navpath::graph::provider::{step_from, Edge, GraphProvider, SqliteGraphProvider};
use navpath::graph::tables::{Area, NodeRow, Place, RequirementRow, RowTable, TileRow, TileTable};
use navpath::graph::touch_cache::{TouchCacheConfig, TouchingNodesCache};
use navpath::json::Json;
use navpath::models::{NodeRef, Tile};
use navpath::options::{SearchOptions, DEFAULT_MAX_CHAIN_DEPTH, DEFAULT_MAX_EXPANSIONS, DEFAULT_TIMEOUT_MS};

fn tile(x: i32, y: i32, plane: i32) -> Tile {
    Tile { x, y, plane }
}

fn tile_row(x: i32, y: i32, plane: i32) -> TileRow {
    TileRow { x, y, plane, tiledata: None, allowed_directions: None }
}

fn row(id: i32, place: Place) -> NodeRow {
    NodeRow {
        id,
        cost: None,
        next_node_type: None,
        next_node_id: None,
        requirement_id: None,
        place,
        origin: None,
        columns: Json::object(),
    }
}

fn nowhere() -> Place {
    Place::Area { min_x: None, max_x: None, min_y: None, max_y: None, plane: None }
}

fn area(min_x: i32, max_x: i32, min_y: i32, max_y: i32, plane: i32) -> Place {
    Place::Area {
        min_x: Some(min_x),
        max_x: Some(max_x),
        min_y: Some(min_y),
        max_y: Some(max_y),
        plane: Some(plane),
    }
}

fn door(inside: Tile, outside: Tile) -> Place {
    Place::Door { inside, outside }
}

fn handing_on(mut r: NodeRow, t: &str, id: i32) -> NodeRow {
    r.next_node_type = Some(t.to_string());
    r.next_node_id = Some(id);
    r
}

fn costing(mut r: NodeRow, cost: i64) -> NodeRow {
    r.cost = Some(cost);
    r
}

fn needing(mut r: NodeRow, id: i32) -> NodeRow {
    r.requirement_id = Some(id);
    r
}

fn usable_from(mut r: NodeRow, t: Tile) -> NodeRow {
    r.origin = Some(Area { min_x: t.x, max_x: t.x, min_y: t.y, max_y: t.y, plane: Some(t.plane) });
    r
}

fn with_columns(mut r: NodeRow, columns: Json) -> NodeRow {
    r.columns = columns;
    r
}

fn no_tables() -> NodeTables {
    NodeTables {
        doors: RowTable::new(vec![]),
        lodestones: RowTable::new(vec![]),
        objects: RowTable::new(vec![]),
        ifslots: RowTable::new(vec![]),
        npcs: RowTable::new(vec![]),
        items: RowTable::new(vec![]),
        requirements: vec![],
    }
}

fn magic(id: i32) -> RequirementRow {
    RequirementRow {
        id,
        key: Some("magic".to_string()),
        value: Some(50),
        comparison: Some(">=".to_string()),
    }
}

fn magic_given(level: i64) -> Json {
    Json::object().with("requirements_map", Json::object().with("magic", Json::Int(level)))
}

fn as_array(t: Tile) -> [i32; 3] {
    [t.x, t.y, t.plane]
}

#[test]
fn order_matches_python() {
    let order = movement_order();
    let names: Vec<&str> = order.iter().map(|m| m.name()).collect();
    assert_eq!(
        names,
        vec!["north", "south", "east", "west", "northeast", "northwest", "southeast", "southwest"]
    );
}

#[test]
fn tiledata_bits_map_to_internal_mask() {
    assert_eq!(mask_from_tiledata(Some(1)).unwrap(), WEST.bit());
    assert_eq!(mask_from_tiledata(Some(1 << 1)).unwrap(), NORTH.bit());
    assert_eq!(mask_from_tiledata(Some(1 << 2)).unwrap(), EAST.bit());
    assert_eq!(mask_from_tiledata(Some(1 << 3)).unwrap(), SOUTH.bit());
    assert_eq!(mask_from_tiledata(Some(1 << 4)).unwrap(), NORTHWEST.bit());
    assert_eq!(mask_from_tiledata(Some(1 << 5)).unwrap(), NORTHEAST.bit());
    assert_eq!(mask_from_tiledata(Some(1 << 6)).unwrap(), SOUTHEAST.bit());
    assert_eq!(mask_from_tiledata(Some(1 << 7)).unwrap(), SOUTHWEST.bit());
    let m = mask_from_tiledata(Some((1 << 0) | (1 << 2) | (1 << 7))).unwrap();
    assert_eq!(m, WEST.bit() | EAST.bit() | SOUTHWEST.bit());
}

#[test]
fn decode_allowed_from_int_or_tokens() {
    assert_eq!(decode_allowed_mask_int(Some((NORTH.bit() | WEST.bit()) as i64)), NORTH.bit() | WEST.bit());
    assert_eq!(decode_allowed_mask_int(None), 0);

    let m = decode_allowed_mask_str(Some(
        "north, south, east, west, northeast, northwest, southeast, southwest",
    ));
    assert_eq!(
        m,
        NORTH.bit()
            | SOUTH.bit()
            | EAST.bit()
            | WEST.bit()
            | NORTHEAST.bit()
            | NORTHWEST.bit()
            | SOUTHEAST.bit()
            | SOUTHWEST.bit()
    );

    let m2 = decode_allowed_mask_str(Some(&format!("{}", NORTH.bit() | EAST.bit())));
    assert_eq!(m2, NORTH.bit() | EAST.bit());

    let m3 = decode_allowed_mask_str(Some("north,unknown"));
    assert_eq!(m3, NORTH.bit());

    assert_eq!(decode_allowed_mask_str(Some("   ")), 0);
    assert_eq!(decode_allowed_mask_str(None), 0);
}

#[test]
fn tiledata_above_the_lowest_byte_and_below_zero() {
    assert_eq!(mask_from_tiledata(Some(256 + 2)), Some(NORTH.bit()));
    assert_eq!(mask_from_tiledata(Some(-1)), Some(255));
    assert_eq!(mask_from_tiledata(None), None);
    assert_eq!(decode_allowed_mask_int(Some(-1)), u32::MAX);
    assert_eq!(decode_allowed_mask_str(Some(" NORTH , SouthWest ")), NORTH.bit() | SOUTHWEST.bit());
    assert_eq!(decode_allowed_mask_str(Some("+4")), EAST.bit());
    assert_eq!(decode_allowed_mask_str(Some("4294967296")), 0);
}

#[test]
fn steps_stop_where_the_coordinates_end() {
    assert_eq!(step_from(tile(1, 2, 3), -1, 1), Some(tile(0, 3, 3)));
    assert_eq!(step_from(tile(i32::MAX, 0, 0), 1, 0), None);
    assert_eq!(step_from(tile(0, i32::MIN, 0), 0, -1), None);
}

#[test]
fn index_marks_referenced_nodes_as_non_heads() {
    let mut t = no_tables();
    t.doors = RowTable::new(vec![
        handing_on(row(1, door(tile(0, 0, 0), tile(1, 0, 0))), "object", 42),
        handing_on(row(2, door(tile(1, 0, 0), tile(2, 0, 0))), "lodestone", 7),
    ]);
    let idx = build_chain_head_index(&t);
    assert!(idx.is_non_head("object", 42));
    assert!(idx.is_non_head("lodestone", 7));
    assert!(!idx.is_non_head("object", 99));
    assert!(!idx.is_non_head("npc", 1));
}

#[test]
fn state_builds_once_and_is_shared() {
    let mut t = no_tables();
    let mut state = ChainHeadIndexState::new();
    assert!(state.get().is_none());
    state.ensure_built(&t);
    assert!(state.get().is_some());
    t.doors = RowTable::new(vec![handing_on(row(1, nowhere()), "object", 42)]);
    state.ensure_built(&t);
    assert!(!state.get().unwrap().is_non_head("object", 42));
}

#[test]
fn index_marks_non_heads_across_all_node_types() {
    let mut t = no_tables();
    t.doors = RowTable::new(vec![handing_on(row(10, door(tile(0, 0, 0), tile(1, 0, 0))), "object", 42)]);
    t.lodestones = RowTable::new(vec![handing_on(row(11, Place::Spot(tile(3200, 3200, 0))), "npc", 17)]);
    t.objects = RowTable::new(vec![handing_on(row(12, area(1000, 1000, 1000, 1000, 0)), "ifslot", 99)]);
    t.ifslots = RowTable::new(vec![handing_on(row(13, area(3000, 3001, 4000, 4000, 0)), "item", 5)]);
    t.npcs = RowTable::new(vec![handing_on(row(14, area(3201, 3201, 3201, 3201, 0)), "lodestone", 7)]);
    t.items = RowTable::new(vec![handing_on(row(15, area(3210, 3210, 3210, 3210, 0)), "door", 3)]);
    let idx = build_chain_head_index(&t);

    assert!(idx.is_non_head("object", 42));
    assert!(idx.is_non_head("npc", 17));
    assert!(idx.is_non_head("ifslot", 99));
    assert!(idx.is_non_head("item", 5));
    assert!(idx.is_non_head("lodestone", 7));
    assert!(idx.is_non_head("door", 3));

    assert!(!idx.is_non_head("object", 41));
    assert!(!idx.is_non_head("npc", 18));
    assert!(!idx.is_non_head("ifslot", 100));
    assert!(!idx.is_non_head("item", 6));
    assert!(!idx.is_non_head("lodestone", 8));
    assert!(!idx.is_non_head("door", 4));
}

#[test]
fn heads_are_noted_whatever_the_case_of_their_kind() {
    let mut idx = ChainHeadIndex::new();
    idx.add_non_head("  OBJECT ", 4);
    idx.add_non_head("object", 4);
    assert!(idx.is_non_head("Object", 4));
    assert!(!idx.is_non_head("objects", 4));
}

fn resolved<'a>(t: &'a NodeTables, opts: &'a SearchOptions, cm: &'a CostModel, type_: &str, id: i32) -> ChainResolution<'a> {
    NodeChainResolver::new(t, cm, opts).resolve(&NodeRef::new(type_, id))
}

#[test]
fn detects_cycle() {
    let mut t = no_tables();
    t.objects = RowTable::new(vec![handing_on(row(1, nowhere()), "object", 1)]);
    let opts = SearchOptions::default();
    let cm = CostModel::new(&opts);
    let res = resolved(&t, &opts, &cm, "object", 1);
    assert_eq!(res.failure_reason.as_deref(), Some("cycle-detected"));
    assert!(!res.is_success());
}

#[test]
fn enforces_depth_limit() {
    let mut t = no_tables();
    t.objects = RowTable::new(vec![
        handing_on(row(1, nowhere()), "object", 2),
        handing_on(row(2, nowhere()), "object", 3),
        row(3, nowhere()),
    ]);
    let mut opts = SearchOptions::default();
    opts.max_chain_depth = 2;
    let cm = CostModel::new(&opts);
    let res = resolved(&t, &opts, &cm, "object", 1);
    assert_eq!(res.failure_reason.as_deref(), Some("chain-depth-exceeded"));
    assert!(!res.is_success());
}

#[test]
fn missing_destination_fails() {
    let mut t = no_tables();
    t.objects = RowTable::new(vec![row(1, nowhere())]);
    let opts = SearchOptions::default();
    let cm = CostModel::new(&opts);
    let res = resolved(&t, &opts, &cm, "object", 1);
    assert_eq!(res.failure_reason.as_deref(), Some("missing-destination"));
    assert!(!res.is_success());
}

#[test]
fn chains_add_up_and_end_where_the_last_node_leads() {
    let mut t = no_tables();
    t.objects = RowTable::new(vec![handing_on(row(1, nowhere()), " Door ", 2)]);
    t.doors = RowTable::new(vec![handing_on(row(2, door(tile(4, 9, 0), tile(6, 8, 1))), "lodestone", 3)]);
    t.lodestones = RowTable::new(vec![row(3, Place::Spot(tile(7, 8, 9)))]);
    let opts = SearchOptions::default();
    let cm = CostModel::new(&opts);
    let res = resolved(&t, &opts, &cm, " OBJECT", 1);
    assert!(res.is_success());
    assert_eq!(res.start.type_, "object");
    assert_eq!(res.links.len(), 3);
    assert_eq!(res.total_cost_ms, 2000 + 600 + 17000);
    assert_eq!(res.destination, Some(Bounds2D::single_tile(tile(7, 8, 9))));
    assert_eq!(res.terminal_ref().unwrap().type_, "lodestone");
    assert_eq!(res.terminal_ref().unwrap().id, 3);
    assert_eq!(
        res.links[1].destination,
        Some(Bounds2D { min_x: 4, max_x: 6, min_y: 8, max_y: 9, plane: None })
    );
    let ids: Vec<i32> = res.links.iter().map(|l| l.ref_.id).collect();
    assert_eq!(ids, vec![1, 2, 3]);
    assert_eq!(res.links[2].row.id, 3);
}

#[test]
fn chains_break_off_at_missing_nodes_and_unmet_requirements() {
    let mut t = no_tables();
    t.objects = RowTable::new(vec![
        handing_on(row(1, area(1, 1, 1, 1, 0)), "object", 2),
        handing_on(row(3, area(1, 1, 1, 1, 0)), "wagon", 2),
        needing(row(4, area(1, 1, 1, 1, 0)), 7),
        needing(row(5, area(1, 1, 1, 1, 0)), 8),
    ]);
    t.requirements = vec![magic(7)];
    let mut opts = SearchOptions::default();
    let cm = CostModel::new(&opts);
    let res = resolved(&t, &opts, &cm, "object", 1);
    assert_eq!(res.failure_reason.as_deref(), Some("missing-node"));
    assert_eq!(res.links.len(), 1);
    let res = resolved(&t, &opts, &cm, "object", 3);
    assert_eq!(res.failure_reason.as_deref(), Some("missing-node"));
    let res = resolved(&t, &opts, &cm, "object", 4);
    assert_eq!(res.failure_reason.as_deref(), Some("requirement-unmet"));
    assert!(res.links.is_empty());
    let res = resolved(&t, &opts, &cm, "object", 5);
    assert_eq!(res.failure_reason.as_deref(), Some("requirement-unmet"));
    opts.extras = magic_given(50);
    assert!(resolved(&t, &opts, &cm, "object", 4).is_success());
}

#[test]
fn rectangles_need_all_their_sides() {
    assert_eq!(Bounds2D::from_optional(Some(1), Some(0), Some(0), Some(0), None), None);
    assert_eq!(Bounds2D::from_optional(Some(1), None, Some(0), Some(0), None), None);
    let b = Bounds2D::from_optional(Some(1), Some(2), Some(3), Some(4), Some(5)).unwrap();
    assert!(b.is_valid());
    let m = b.merge(&Bounds2D::single_tile(tile(0, 9, 5)));
    assert_eq!(m, Bounds2D { min_x: 0, max_x: 2, min_y: 3, max_y: 9, plane: Some(5) });
}

#[test]
fn requirement_comparisons() {
    let extras = magic_given(55);
    let cases = [
        (Some("=="), 55, true),
        (Some("=="), 54, false),
        (Some("!="), 55, false),
        (Some("!="), 54, true),
        (Some(">="), 55, true),
        (Some(">="), 56, false),
        (Some(">"), 55, false),
        (Some(">"), 54, true),
        (Some("<="), 55, true),
        (Some("<="), 54, false),
        (Some("<"), 55, false),
        (Some("<"), 56, true),
        (None, 55, true),
        (None, 56, false),
        (Some("~"), 55, true),
        (Some("~"), 56, false),
    ];
    for (op, value, met) in cases {
        let r = RequirementRow {
            id: 1,
            key: Some("magic".to_string()),
            value: Some(value),
            comparison: op.map(|s| s.to_string()),
        };
        assert_eq!(eval_requirement(&r, &extras), met, "{:?} {}", op, value);
    }
    let keyless = RequirementRow { id: 1, key: None, value: Some(1), comparison: None };
    assert!(eval_requirement(&keyless, &extras));
    let valueless = RequirementRow { id: 1, key: Some("x".to_string()), value: None, comparison: None };
    assert!(eval_requirement(&valueless, &extras));
    let other = RequirementRow { id: 1, key: Some("prayer".to_string()), value: Some(1), comparison: None };
    assert!(!eval_requirement(&other, &extras));
    assert!(req_passes(&vec![magic(3)], &extras, 3));
    assert!(!req_passes(&vec![magic(3)], &extras, 4));
}

#[test]
fn values_come_from_the_map_or_else_from_the_list() {
    let entry = |k: &str, v: i64| Json::object().with("key", Json::text(k)).with("value", Json::Int(v));
    let list = Json::object().with(
        "requirements",
        Json::Array(vec![entry("a", 1), entry("b", 2), entry("a", 3), Json::object().with("key", Json::text("a"))]),
    );
    assert_eq!(value_given(&list, "a"), Some(3));
    assert_eq!(value_given(&list, "b"), Some(2));
    assert_eq!(value_given(&list, "c"), None);
    let both = list.with("requirements_map", Json::object().with("b", Json::Int(9)));
    assert_eq!(value_given(&both, "a"), None);
    assert_eq!(value_given(&both, "b"), Some(9));
}

#[test]
fn rows_are_found_by_their_ids_and_tiles_by_where_they_are() {
    let table = RowTable::new(vec![
        costing(row(5, nowhere()), 1),
        costing(row(-3, nowhere()), 2),
        costing(row(5, nowhere()), 3),
    ]);
    assert_eq!(table.fetch(5).unwrap().cost, Some(1));
    assert_eq!(table.fetch(-3).unwrap().cost, Some(2));
    assert!(table.fetch(4).is_none());
    let tiles = TileTable::new(vec![tile_row(1, 2, 0), tile_row(-1, -2, 1), tile_row(i32::MIN, i32::MAX, 3)]);
    assert!(tiles.tile_exists(tile(1, 2, 0)));
    assert!(!tiles.tile_exists(tile(2, 1, 0)));
    assert!(!tiles.tile_exists(tile(1, 2, 1)));
    assert!(tiles.tile_exists(tile(-1, -2, 1)));
    assert!(tiles.tile_exists(tile(i32::MIN, i32::MAX, 3)));
    assert_eq!(tiles.fetch_tile(tile(-1, -2, 1)).unwrap().plane, 1);
}

fn provider(t: NodeTables, tiles: Vec<TileRow>) -> SqliteGraphProvider {
    SqliteGraphProvider::new(t, TileTable::new(tiles), CostModel::new(&SearchOptions::default()))
}

fn of_type<'a>(edges: &'a Vec<Edge>, type_: &str) -> Vec<&'a Edge> {
    edges.iter().filter(|e| e.type_ == type_).collect()
}

fn node_id(e: &Edge) -> i32 {
    e.node.as_ref().unwrap().id
}

fn here() -> Tile {
    tile(0, 0, 0)
}

#[test]
fn ifslot_neighbors_gating_and_sorting() {
    let mut t = no_tables();
    t.requirements = vec![magic(7)];
    t.ifslots = RowTable::new(vec![
        costing(row(1, area(10, 10, 30, 30, 0)), 100),
        needing(costing(row(2, area(15, 15, 35, 35, 0)), 150), 7),
        costing(row(3, area(10, 10, 30, 30, 0)), 120),
    ]);
    t.doors = RowTable::new(vec![handing_on(costing(row(77, door(here(), here())), 0), "ifslot", 3)]);
    let gp = provider(t, vec![tile_row(0, 0, 0), tile_row(10, 30, 0), tile_row(15, 35, 0)]);
    let mut opts = SearchOptions::default();
    opts.extras = magic_given(55);
    let edges = gp.neighbors(here(), here(), &opts).unwrap();
    let ifs = of_type(&edges, "ifslot");
    assert_eq!(ifs.len(), 2);
    assert_eq!(node_id(ifs[0]), 1);
    assert_eq!(as_array(ifs[0].to_tile), [10, 30, 0]);
    assert_eq!(node_id(ifs[1]), 2);
    assert_eq!(as_array(ifs[1].to_tile), [15, 35, 0]);
}

#[test]
fn npc_neighbors_gating_sorting_and_nonhead() {
    let mut t = no_tables();
    t.requirements = vec![magic(8)];
    t.npcs = RowTable::new(vec![
        usable_from(costing(row(1, area(10, 10, 20, 20, 0)), 5), here()),
        usable_from(needing(costing(row(2, area(11, 11, 21, 21, 0)), 7), 8), here()),
        usable_from(costing(row(3, area(10, 10, 20, 20, 0)), 5), here()),
    ]);
    t.doors = RowTable::new(vec![handing_on(costing(row(88, door(here(), here())), 0), "npc", 3)]);
    let gp = provider(t, vec![tile_row(0, 0, 0), tile_row(10, 20, 0), tile_row(11, 21, 0)]);
    let mut opts = SearchOptions::default();
    opts.extras = magic_given(55);
    let edges = gp.neighbors(here(), here(), &opts).unwrap();
    let npcs = of_type(&edges, "npc");
    assert_eq!(npcs.len(), 2);
    assert_eq!(node_id(npcs[0]), 1);
    assert_eq!(as_array(npcs[0].to_tile), [10, 20, 0]);
    assert_eq!(node_id(npcs[1]), 2);
    assert_eq!(as_array(npcs[1].to_tile), [11, 21, 0]);
}

#[test]
fn item_neighbors_gating_and_sorting() {
    let mut t = no_tables();
    t.requirements = vec![magic(9)];
    t.items = RowTable::new(vec![
        costing(row(1, area(10, 10, 30, 30, 0)), 100),
        needing(costing(row(2, area(15, 15, 35, 35, 0)), 150), 9),
        costing(row(3, area(10, 10, 30, 30, 0)), 120),
    ]);
    t.doors = RowTable::new(vec![handing_on(costing(row(99, door(here(), here())), 0), "item", 3)]);
    let gp = provider(t, vec![tile_row(0, 0, 0), tile_row(10, 30, 0), tile_row(15, 35, 0)]);
    let mut opts = SearchOptions::default();
    opts.extras = magic_given(55);
    let edges = gp.neighbors_items(here(), &opts);
    assert_eq!(edges.len(), 2);
    assert_eq!(node_id(&edges[0]), 1);
    assert_eq!(as_array(edges[0].to_tile), [10, 30, 0]);
    assert_eq!(node_id(&edges[1]), 2);
    assert_eq!(as_array(edges[1].to_tile), [15, 35, 0]);
}

fn full_tables() -> NodeTables {
    let mut t = no_tables();
    let door_columns = Json::object()
        .with("id", Json::Int(500))
        .with("direction", Json::text("east"))
        .with("open_action", Json::text("Open"));
    t.doors = RowTable::new(vec![with_columns(
        costing(row(500, door(here(), tile(1, 0, 0))), 50),
        door_columns,
    )]);
    t.lodestones = RowTable::new(vec![with_columns(
        costing(row(10, Place::Spot(tile(2, 0, 0))), 5),
        Json::object().with("lodestone", Json::text("Start")),
    )]);
    t.objects = RowTable::new(vec![with_columns(
        usable_from(costing(row(20, area(3, 3, 0, 0, 0)), 25), here()),
        Json::object().with("action", Json::text("Open")).with("object_id", Json::Int(100)),
    )]);
    t.ifslots = RowTable::new(vec![costing(row(30, area(4, 4, 0, 0, 0)), 40)]);
    t.npcs = RowTable::new(vec![usable_from(costing(row(40, area(5, 5, 0, 0, 0)), 35), here())]);
    t.items = RowTable::new(vec![costing(row(50, area(6, 6, 0, 0, 0)), 60)]);
    t
}

fn full_tiles() -> Vec<TileRow> {
    let mut start = tile_row(0, 0, 0);
    start.allowed_directions = Some("1".to_string());
    let mut tiles = vec![start, tile_row(0, 1, 0)];
    for x in 1..=6 {
        tiles.push(tile_row(x, 0, 0));
    }
    tiles
}

fn at_start() -> SearchOptions {
    let mut opts = SearchOptions::default();
    opts.extras = Json::object().with("start_tile", here().to_json());
    opts
}

fn only_steps() -> SearchOptions {
    let mut opts = SearchOptions::default();
    opts.use_doors = false;
    opts.use_lodestones = false;
    opts.use_objects = false;
    opts.use_ifslots = false;
    opts.use_npcs = false;
    opts.use_items = false;
    opts
}

#[test]
fn neighbors_integration_respects_toggles_and_ordering() {
    let gp = provider(full_tables(), full_tiles());
    let edges = gp.neighbors(here(), tile(99, 99, 0), &at_start()).unwrap();
    let types: Vec<&str> = edges.iter().map(|e| e.type_.as_str()).collect();
    let tos: Vec<[i32; 3]> = edges.iter().map(|e| as_array(e.to_tile)).collect();
    assert_eq!(types, vec!["move", "door", "lodestone", "object", "ifslot", "npc", "item"]);
    assert_eq!(
        tos,
        vec![[0, 1, 0], [1, 0, 0], [2, 0, 0], [3, 0, 0], [4, 0, 0], [5, 0, 0], [6, 0, 0]]
    );

    let edges2 = gp.neighbors(here(), tile(99, 99, 0), &only_steps()).unwrap();
    assert_eq!(edges2.len(), 1);
    assert_eq!(edges2[0].type_.as_str(), "move");
    assert_eq!(as_array(edges2[0].to_tile), [0, 1, 0]);
}

#[test]
fn edges_cost_what_the_model_says_and_show_their_rows() {
    let gp = provider(full_tables(), full_tiles());
    let edges = gp.neighbors(here(), here(), &at_start()).unwrap();
    let costs: Vec<i64> = edges.iter().map(|e| e.cost_ms).collect();
    assert_eq!(costs, vec![600, 600, 17000, 2000, 1000, 1000, 3000]);
    let door = edges[1].metadata.as_ref().unwrap();
    assert_eq!(door.get("door_direction").unwrap().as_str(), Some("OUT"));
    assert_eq!(door.get("db_door_direction").unwrap().as_str(), Some("east"));
    assert_eq!(door.get("action").unwrap().as_str(), Some("Open"));
    assert!(matches!(door.get("real_id_open"), Some(Json::Null)));
    assert_eq!(door.get("db_row").unwrap().get("id").unwrap().as_i64(), Some(500));
    let lode = edges[2].metadata.as_ref().unwrap();
    assert_eq!(lode.get("target_lodestone").unwrap().as_str(), Some("Start"));
    let object = edges[3].metadata.as_ref().unwrap();
    assert_eq!(object.get("object_id").unwrap().as_i64(), Some(100));
    assert!(matches!(object.get("match_type"), Some(Json::Null)));
    let back = gp.neighbors_doors(tile(1, 0, 0));
    assert_eq!(as_array(back[0].to_tile), [0, 0, 0]);
    assert_eq!(
        back[0].metadata.as_ref().unwrap().get("door_direction").unwrap().as_str(),
        Some("IN")
    );
}

#[test]
fn a_cost_model_without_overrides_goes_by_the_rows() {
    let mut gp = provider(full_tables(), full_tiles());
    let mut opts = at_start();
    opts.door_cost_override = None;
    opts.lodestone_cost_override = None;
    opts.object_cost_override = None;
    opts.ifslot_cost_override = None;
    opts.npc_cost_override = None;
    opts.item_cost_override = None;
    gp.set_cost_model(CostModel::new(&opts));
    let costs: Vec<i64> = gp.neighbors(here(), here(), &opts).unwrap().iter().map(|e| e.cost_ms).collect();
    assert_eq!(costs, vec![600, 50, 5, 25, 40, 35, 60]);
}

#[test]
fn nothing_leads_from_a_tile_that_is_not_there() {
    let gp = provider(full_tables(), full_tiles());
    assert!(gp.neighbors(tile(9, 9, 9), here(), &at_start()).unwrap().is_empty());
}

#[test]
fn lodestones_are_used_only_where_the_route_starts() {
    let gp = provider(full_tables(), full_tiles());
    let mut opts = at_start();
    assert_eq!(gp.neighbors_lodestones(here(), &opts).len(), 1);
    assert!(gp.neighbors_lodestones(tile(1, 0, 0), &opts).is_empty());
    opts.extras = Json::object();
    assert!(gp.neighbors_lodestones(here(), &opts).is_empty());
    opts.extras = Json::object().with("start_tile", Json::Array(vec![Json::Int(0), Json::Int(0)]));
    assert!(gp.neighbors_lodestones(here(), &opts).is_empty());
}

#[test]
fn edges_lead_to_tiles_that_are_there_and_by_chain_heads() {
    let mut t = full_tables();
    t.items = RowTable::new(vec![
        handing_on(row(50, nowhere()), "ifslot", 30),
        row(51, area(70, 70, 0, 0, 0)),
        row(52, area(0, 0, 0, 0, 0)),
    ]);
    let gp = provider(t, full_tiles());
    let edges = gp.neighbors(here(), here(), &at_start()).unwrap();
    assert!(of_type(&edges, "ifslot").is_empty());
    let items = of_type(&edges, "item");
    assert_eq!(items.len(), 1);
    assert_eq!(as_array(items[0].to_tile), [4, 0, 0]);
    assert_eq!(items[0].cost_ms, 4000);
    assert!(edges.iter().all(|e| as_array(e.from_tile) == [0, 0, 0]));
}

fn plane_rows(plane: i32) -> Result<Vec<(i32, i32)>, String> {
    match plane {
        0 => Ok(vec![(1, 1), (2, 2)]),
        1 => Ok(vec![(10, 10)]),
        7 => Err("no such plane".to_string()),
        _ => Ok(vec![]),
    }
}

#[test]
fn existence_queries_hit_cache() {
    let mut cache = PlaneTileCache::with_capacity(8);
    assert!(cache.tile_exists(plane_rows, 1, 1, 0).unwrap());
    assert!(cache.tile_exists(plane_rows, 2, 2, 0).unwrap());
    assert!(!cache.tile_exists(plane_rows, 5, 5, 0).unwrap());
    assert!(cache.planes_cached() >= 1);

    assert!(cache.tile_exists(plane_rows, 10, 10, 1).unwrap());
    assert!(!cache.tile_exists(plane_rows, 11, 10, 1).unwrap());
    assert!(cache.planes_cached() >= 2);

    assert!(cache.tile_exists(plane_rows, 1, 1, 0).unwrap());
    let never = |_: i32| -> Result<Vec<(i32, i32)>, String> { Err("loaded twice".to_string()) };
    assert_eq!(cache.tile_exists(never, 2, 2, 0), Ok(true));
}

#[test]
fn lru_eviction_of_planes() {
    let mut cache = PlaneTileCache::with_capacity(1);
    assert!(cache.tile_exists(plane_rows, 1, 1, 0).unwrap());
    assert_eq!(cache.planes_cached(), 1);
    assert!(cache.tile_exists(plane_rows, 10, 10, 1).unwrap());
    assert_eq!(cache.planes_cached(), 1);
    assert!(cache.tile_exists(plane_rows, 2, 2, 0).unwrap());
    assert_eq!(cache.planes_cached(), 1);
}

#[test]
fn simple_bench_like_loop() {
    let mut cache = PlaneTileCache::new();
    let mut c = 0;
    for i in 0..10_000 {
        if cache.tile_exists(plane_rows, 1 + (i % 2), 1 + (i % 2), 0).unwrap() {
            c += 1;
        }
    }
    assert!(c > 0);
}

#[test]
fn a_plane_that_cannot_be_loaded_is_not_kept() {
    let mut cache = PlaneTileCache::with_capacity(0);
    assert_eq!(cache.capacity(), 0);
    assert_eq!(cache.tile_exists(plane_rows, 1, 1, 7), Err("no such plane".to_string()));
    assert_eq!(cache.planes_cached(), 0);
    assert_eq!(cache.tile_exists(plane_rows, 1, 1, 0), Ok(true));
    assert_eq!(cache.planes_cached(), 1);
    assert_eq!(PlaneTileCache::new().capacity(), 8);
}

fn fetch_ids(t: Tile) -> Result<Vec<i32>, String> {
    Ok(vec![t.x * 100 + t.y])
}

#[test]
fn object_cache_hit_rate_and_capacity() {
    let mut cache: TouchingNodesCache<i32, i32> =
        TouchingNodesCache::with_config(TouchCacheConfig { objects_capacity: 2, npcs_capacity: 2 });
    let (t1, t2, t3) = (tile(1, 1, 0), tile(2, 2, 0), tile(3, 3, 0));
    assert_eq!(cache.object_nodes_touching(t1, fetch_ids), Ok(&vec![101]));
    let _ = cache.object_nodes_touching(t2, fetch_ids).unwrap();
    assert_eq!(cache.object_misses(), 2);
    assert_eq!(cache.objects_cached(), 2);
    let _ = cache.object_nodes_touching(t1, fetch_ids).unwrap();
    assert_eq!(cache.object_hits(), 1);
    let _ = cache.object_nodes_touching(t3, fetch_ids).unwrap();
    assert_eq!(cache.objects_cached(), 2);
    let _ = cache.object_nodes_touching(t2, fetch_ids).unwrap();
    assert!(cache.object_misses() >= 3);
    assert_eq!(cache.object_misses(), 4);
    assert_eq!(cache.npcs_cached(), 0);
}

#[test]
fn npc_cache_hit_rate_and_capacity() {
    let mut cache: TouchingNodesCache<i32, i32> =
        TouchingNodesCache::with_config(TouchCacheConfig { objects_capacity: 2, npcs_capacity: 1 });
    let (t1, t2) = (tile(5, 5, 0), tile(6, 5, 0));
    let _ = cache.npc_nodes_touching(t1, fetch_ids).unwrap();
    let _ = cache.npc_nodes_touching(t1, fetch_ids).unwrap();
    assert_eq!(cache.npc_misses(), 1);
    assert_eq!(cache.npc_hits(), 1);
    let _ = cache.npc_nodes_touching(t2, fetch_ids).unwrap();
    assert_eq!(cache.npcs_cached(), 1);
    let _ = cache.npc_nodes_touching(t1, fetch_ids).unwrap();
    assert!(cache.npc_misses() >= 2);
}

#[test]
fn what_cannot_be_fetched_is_not_kept() {
    let mut cache: TouchingNodesCache<i32, i32> = TouchingNodesCache::new();
    let fail = |_: Tile| -> Result<Vec<i32>, String> { Err("broken".to_string()) };
    assert_eq!(cache.object_nodes_touching(here(), fail), Err("broken".to_string()));
    assert_eq!((cache.object_hits(), cache.object_misses(), cache.objects_cached()), (0, 0, 0));
    assert_eq!((cache.objects_capacity(), cache.npcs_capacity()), (4096, 4096));
    assert_eq!(TouchCacheConfig::default().objects_capacity, 4096);
}

#[test]
fn defaults_match_perf_doc() {
    let o = SearchOptions::default();
    assert_eq!(o.max_expansions, DEFAULT_MAX_EXPANSIONS);
    assert_eq!(o.timeout_ms, DEFAULT_TIMEOUT_MS);
    assert_eq!(o.max_chain_depth, DEFAULT_MAX_CHAIN_DEPTH);
    assert!(o.use_doors && o.use_lodestones && o.use_objects && o.use_ifslots && o.use_npcs && o.use_items);
}

#[test]
fn movement_only_detects_correctly() {
    let mut o = SearchOptions::default();
    assert!(!o.movement_only());
    o.use_doors = false;
    o.use_lodestones = false;
    o.use_objects = false;
    o.use_ifslots = false;
    o.use_npcs = false;
    o.use_items = false;
    assert!(o.movement_only());
}

fn float(x: f64) -> Json {
    Json::Float(x.to_bits())
}

/// Two adjacent cells with a portal between them and a door from the one to the other.
fn two_cells() -> NavmeshGraphProvider {
    NavmeshGraphProvider {
        portals: vec![PortalRow {
            id: 10,
            plane: 0,
            a_id: 1,
            b_id: 2,
            x1: float(1.0),
            y1: float(0.25),
            x2: float(1.0),
            y2: float(0.75),
            length: float(0.5),
            rounded_length: 1,
        }],
        links: vec![OffmeshLinkRow {
            id: 20,
            link_type: "door".to_string(),
            node_table: "door_nodes".to_string(),
            node_id: 5,
            requirement_id: Some(7),
            cost: Some(10),
            plane_from: Some(0),
            plane_to: 0,
            src_cell_id: Some(1),
            dst_cell_id: 2,
            meta_json: None,
        }],
        requirements: vec![magic(7)],
        cost_model: CostModel::new(&SearchOptions::default()),
    }
}

#[test]
fn mapping_and_portal_neighbors_work_and_are_sorted() {
    let prov = two_cells();
    let s = encode_cell(1, 0);
    let g = encode_cell(2, 0);
    assert_eq!(s.x, 1);
    assert_eq!(g.x, 2);
    let opts = SearchOptions::default();
    let edges = prov.neighbors(s, g, &opts).unwrap();
    assert!(edges.iter().any(|e| e.type_ == "move" && e.to_tile.x == 2));
    let mut open = SearchOptions::default();
    open.extras = magic_given(50);
    let edges = prov.neighbors(s, g, &open).unwrap();
    let idx_move = edges.iter().position(|e| e.type_ == "move" && e.to_tile.x == 2);
    let idx_off = edges.iter().position(|e| e.type_ == "door" && e.to_tile.x == 2);
    assert!(idx_move.unwrap() < idx_off.unwrap(), "portal move should sort before offmesh to same dst cell");
}

#[test]
fn offmesh_requirement_gating_respected() {
    let prov = two_cells();
    let s = encode_cell(1, 0);
    let g = encode_cell(2, 0);
    let opts = SearchOptions::default();
    let edges = prov.neighbors(s, g, &opts).unwrap();
    let has_door = edges.iter().any(|e| e.type_ == "door");
    assert!(!has_door, "door offmesh should be gated without requirements_map");
    let mut opts2 = SearchOptions::default();
    opts2.extras = magic_given(50);
    let edges2 = prov.neighbors(s, g, &opts2).unwrap();
    assert!(edges2.iter().any(|e| e.type_ == "door"));
    let mut weak = SearchOptions::default();
    weak.extras = magic_given(49);
    assert!(!prov.neighbors(s, g, &weak).unwrap().iter().any(|e| e.type_ == "door"));
}

#[test]
fn portals_lead_both_ways_and_links_one() {
    let prov = two_cells();
    let mut open = SearchOptions::default();
    open.extras = magic_given(99);
    let back = prov.neighbors(encode_cell(2, 0), encode_cell(1, 0), &open).unwrap();
    assert_eq!(back.len(), 1);
    assert_eq!(back[0].to_tile, encode_cell(1, 0));
    assert_eq!(decode_cell(back[0].to_tile), (1, 0));
    assert!(prov.neighbors_portals(encode_cell(1, 1)).is_empty());
    assert_eq!(prov.neighbors_portals(encode_cell(1, 0)).len(), 1);
}

#[test]
fn links_tell_what_their_description_spells() {
    let mut prov = two_cells();
    prov.links[0].requirement_id = None;
    prov.links[0].meta_json = Some("{\"open_action\": \"Open\", \"direction\": \"N\", \"inside\": [1, 2, 0]}".to_string());
    let edges = prov.neighbors_offmesh(encode_cell(1, 0), &SearchOptions::default());
    let meta = edges[0].metadata.as_ref().unwrap();
    assert_eq!(meta.get("action").unwrap().as_str(), Some("Open"));
    assert_eq!(meta.get("door_direction").unwrap().as_str(), Some("N"));
    assert_eq!(meta.get("db_row").unwrap().get("id").unwrap().as_i64(), Some(5));
    prov.links[0].meta_json = Some("{not json".to_string());
    let edges = prov.neighbors_offmesh(encode_cell(1, 0), &SearchOptions::default());
    assert_eq!(edges.len(), 1);
    assert!(edges[0].metadata.as_ref().unwrap().get("db_row").is_none());
    let spelt = Json::object().with("lodestone", Json::text("EDGEVILLE"));
    prov.links[0].link_type = "lodestone".to_string();
    let told = link_metadata(&prov.links[0], &Some(spelt));
    assert_eq!(told.get("target_lodestone").unwrap().as_str(), Some("EDGEVILLE"));
    assert!(link_metadata(&prov.links[0], &None).get("lodestone").is_none());
}

#[test]
fn kinds_are_trimmed_and_in_lower_case() {
    assert_eq!(normalise_type(" \tObject\n"), "object");
    assert_eq!(normalise_type("\u{3000}NPC\u{a0}\u{85}"), "npc");
    assert_eq!(normalise_type("\u{200b}npc"), "\u{200b}npc");
    assert_eq!(normalise_type("\u{c9}TAGE"), "\u{e9}tage");
    assert_eq!(normalise_type("  "), "");
}
