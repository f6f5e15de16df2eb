use navpath::graph::movement::movement_order;
use navpath::graph::provider::{step_from, Edge, GraphProvider, ReadError, SqliteGraphProvider};
use navpath::graph::nodes::NodeTables;
use navpath::graph::tables::{RowTable, TileRow, TileTable};
use navpath::cost::CostModel;
use navpath::jps::{JpsConfig, JpsPruner, Step};
use navpath::models::Tile;
use navpath::options::SearchOptions;

fn tile(x: i32, y: i32, plane: i32) -> Tile {
    Tile { x, y, plane }
}

/// A grid of open tiles, with steps to every open tile around.
fn grid(open: &[[i32; 3]]) -> SqliteGraphProvider {
    let rows = open
        .iter()
        .map(|t| TileRow { x: t[0], y: t[1], plane: t[2], tiledata: Some(255), allowed_directions: None })
        .collect();
    let none = || RowTable::new(vec![]);
    let tables = NodeTables {
        doors: none(),
        lodestones: none(),
        objects: none(),
        ifslots: none(),
        npcs: none(),
        items: none(),
        requirements: vec![],
    };
    SqliteGraphProvider::new(tables, TileTable::new(rows), CostModel::new(&SearchOptions::default()))
}

#[test]
fn direction_normalizes() {
    let d = |a, b| JpsPruner::<SqliteGraphProvider>::direction(a, b);
    assert_eq!(d(tile(0, 0, 0), tile(3, 0, 0)), Some(Step { dx: 1, dy: 0 }));
    assert_eq!(d(tile(0, 0, 0), tile(0, -5, 0)), Some(Step { dx: 0, dy: -1 }));
    assert_eq!(d(tile(0, 0, 0), tile(7, 7, 0)), Some(Step { dx: 1, dy: 1 }));
    assert_eq!(d(tile(0, 0, 0), tile(0, 0, 0)), None);
}

#[test]
fn directions_across_all_coordinates() {
    let d = JpsPruner::<SqliteGraphProvider>::direction(tile(i32::MIN, i32::MAX, 0), tile(i32::MAX, i32::MIN, 0));
    assert_eq!(d, Some(Step { dx: 1, dy: -1 }));
}

#[test]
fn prune_includes_natural_and_forced_for_cardinal() {
    let gp = grid(&[[0, 0, 0], [1, 0, 0], [1, 1, 0]]);
    let opts = SearchOptions::default();
    let cfg = JpsConfig { enabled: true, ..Default::default() };
    let pruner = JpsPruner::new(&gp, tile(10, 10, 0), &opts, cfg);
    let cur = tile(0, 0, 0);
    let raw = gp.neighbors(cur, tile(10, 10, 0), &opts).unwrap();
    let pruned = pruner.prune_neighbors(cur, Some(tile(-1, 0, 0)), raw);
    let dests: Vec<Tile> = pruned.iter().filter(|e| e.type_ == "move").map(|e| e.to_tile).collect();
    assert!(dests.contains(&tile(1, 0, 0)));
    assert!(dests.contains(&tile(1, 1, 0)));
    assert!(!dests.contains(&tile(0, 1, 0)));
}

fn open_square() -> Vec<[i32; 3]> {
    let mut open = vec![];
    for x in -1..=1 {
        for y in -1..=1 {
            open.push([x, y, 0]);
        }
    }
    open
}

#[test]
fn pruning_keeps_what_is_no_step_and_the_order_of_steps() {
    let gp = grid(&open_square());
    let opts = SearchOptions::default();
    let pruner = JpsPruner::new(&gp, tile(9, 9, 0), &opts, JpsConfig::enabled());
    let cur = tile(0, 0, 0);
    let with_door = || {
        let mut raw = gp.neighbors(cur, cur, &opts).unwrap();
        let mut e = raw[0].copy();
        e.type_ = "door".to_string();
        raw.insert(0, e);
        raw
    };
    let told = |edges: Vec<Edge>| -> Vec<(String, i32, i32)> {
        edges.iter().map(|e| (e.type_.clone(), e.to_tile.x, e.to_tile.y)).collect()
    };
    let m = |x: i32, y: i32| ("move".to_string(), x, y);
    let door = ("door".to_string(), 0, 1);
    assert_eq!(
        told(pruner.prune_neighbors(cur, Some(tile(-1, 0, 0)), with_door())),
        vec![m(1, 0), door.clone()]
    );
    assert_eq!(
        told(pruner.prune_neighbors(cur, Some(tile(-1, -1, 0)), with_door())),
        vec![m(0, 1), m(1, 0), m(1, 1), door]
    );
    assert_eq!(pruner.prune_neighbors(cur, None, with_door()).len(), 9);
    assert_eq!(pruner.prune_neighbors(cur, Some(cur), with_door()).len(), 9);
    let off = JpsPruner::new(&gp, tile(9, 9, 0), &opts, JpsConfig::disabled());
    assert_eq!(off.prune_neighbors(cur, Some(tile(-1, 0, 0)), with_door()).len(), 9);
}

#[test]
fn jump_reaches_goal_in_straight_corridor() {
    let gp = grid(&[[0, 0, 0], [1, 0, 0], [2, 0, 0], [3, 0, 0], [4, 0, 0], [5, 0, 0]]);
    let opts = SearchOptions::default();
    let cfg = JpsConfig { enabled: true, ..Default::default() };
    let pruner = JpsPruner::new(&gp, tile(5, 0, 0), &opts, cfg);
    assert_eq!(pruner.jump(tile(0, 0, 0), Step { dx: 1, dy: 0 }).unwrap(), Some(tile(5, 0, 0)));
}

#[test]
fn jump_reaches_goal_in_diagonal_corridor() {
    let gp = grid(&[[0, 0, 0], [1, 1, 0], [2, 2, 0], [3, 3, 0]]);
    let opts = SearchOptions::default();
    let cfg = JpsConfig { enabled: true, ..Default::default() };
    let pruner = JpsPruner::new(&gp, tile(3, 3, 0), &opts, cfg);
    assert_eq!(pruner.jump(tile(0, 0, 0), Step { dx: 1, dy: 1 }).unwrap(), Some(tile(3, 3, 0)));
}

#[test]
fn jumps_end_where_a_neighbour_is_forced() {
    let gp = grid(&[[0, 0, 0], [1, 0, 0], [2, 1, 0]]);
    let opts = SearchOptions::default();
    let pruner = JpsPruner::new(&gp, tile(9, 9, 0), &opts, JpsConfig::enabled());
    // North of (1, 0) is shut and northeast of it open.
    assert_eq!(pruner.jump(tile(0, 0, 0), Step { dx: 1, dy: 0 }).unwrap(), Some(tile(1, 0, 0)));
    let open = grid(&[[0, 0, 0], [1, 0, 0], [1, 1, 0], [2, 1, 0]]);
    let pruner = JpsPruner::new(&open, tile(9, 9, 0), &opts, JpsConfig::enabled());
    assert_eq!(pruner.jump(tile(0, 0, 0), Step { dx: 1, dy: 0 }).unwrap(), None);
}

#[test]
fn jumps_end_at_their_limit_or_nowhere() {
    let gp = grid(&[[0, 0, 0], [1, 0, 0], [2, 0, 0], [3, 0, 0]]);
    let opts = SearchOptions::default();
    let goal = tile(9, 9, 0);
    let short = JpsPruner::new(&gp, goal, &opts, JpsConfig { enabled: true, allow_diagonals: true, max_jump: Some(2) });
    assert_eq!(short.jump(tile(0, 0, 0), Step { dx: 1, dy: 0 }).unwrap(), Some(tile(2, 0, 0)));
    let none = JpsPruner::new(&gp, goal, &opts, JpsConfig { enabled: true, allow_diagonals: true, max_jump: Some(0) });
    assert_eq!(none.jump(tile(0, 0, 0), Step { dx: 1, dy: 0 }).unwrap(), Some(tile(0, 0, 0)));
    let free = JpsPruner::new(&gp, goal, &opts, JpsConfig::default());
    assert_eq!(free.jump(tile(0, 0, 0), Step { dx: 1, dy: 0 }).unwrap(), None);
    let off = JpsPruner::new(&gp, goal, &opts, JpsConfig::disabled());
    assert_eq!(off.jump(tile(0, 0, 0), Step { dx: 1, dy: 0 }).unwrap(), None);
}

#[test]
fn a_jump_in_no_direction_goes_nowhere() {
    let gp = grid(&[[0, 0, 0], [1, 0, 0]]);
    let opts = SearchOptions::default();
    let (here, still) = (tile(0, 0, 0), Step { dx: 0, dy: 0 });
    let free = JpsPruner::new(&gp, tile(9, 9, 0), &opts, JpsConfig::enabled());
    assert_eq!(free.jump(here, still).unwrap(), None);
    let at_goal = JpsPruner::new(&gp, here, &opts, JpsConfig::enabled());
    assert_eq!(at_goal.jump(here, still).unwrap(), None);
    let none = JpsPruner::new(&gp, here, &opts, JpsConfig { enabled: true, allow_diagonals: true, max_jump: Some(0) });
    assert_eq!(none.jump(here, still).unwrap(), Some(here));
}

struct Failing;

impl GraphProvider for Failing {
    fn neighbors(&self, _tile: Tile, _goal: Tile, _options: &SearchOptions) -> Result<Vec<Edge>, ReadError> {
        Err(ReadError { message: "the table is locked".to_string() })
    }
}

#[test]
fn what_a_provider_cannot_read_is_told() {
    let opts = SearchOptions::default();
    let on = JpsPruner::new(&Failing, tile(5, 0, 0), &opts, JpsConfig::enabled());
    let east = Step { dx: 1, dy: 0 };
    assert_eq!(on.jump(tile(0, 0, 0), east).unwrap_err().message, "the table is locked");
    let off = JpsPruner::new(&Failing, tile(5, 0, 0), &opts, JpsConfig::disabled());
    assert_eq!(off.jump(tile(0, 0, 0), east).unwrap(), None);
}

#[test]
fn grids_step_to_every_open_tile_around() {
    let gp = grid(&open_square());
    let opts = SearchOptions::default();
    let cur = tile(0, 0, 0);
    let dests: Vec<Tile> = gp.neighbors(cur, cur, &opts).unwrap().iter().map(|e| e.to_tile).collect();
    let want: Vec<Tile> = movement_order().iter().map(|m| step_from(cur, m.dx(), m.dy()).unwrap()).collect();
    assert_eq!(dests, want);
    assert!(Step { dx: 1, dy: 1 }.is_diagonal());
    assert!(!Step { dx: 1, dy: 0 }.is_diagonal());
}
