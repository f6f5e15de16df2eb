use navpath::db::{
    AbstractTeleportEdge, ClusterEntrance, ClusterInterConnection, ClusterIntraConnection, ClusterTile, TeleportRequirement,
};
use navpath::json::Json;
use navpath::models::Tile;
use navpath::planner::dijkstra::{dijkstra_indices_with_adj, search_within, Bounded};
use navpath::planner::cluster::{checked_plan_cluster_aware, collect_cluster_tiles, plan_cluster_aware, plan_same_cluster, CommonCluster};
use navpath::planner::graph::{build_graph, no_negative_costs, BuildOptions, EdgeKind, GraphInputs, NegativeCost, NodeKind};
use navpath::planner::high_level::{checked_plan_hl_indices, checked_plan_hops, plan_hops};
use navpath::planner::hpa::{checked_plan, plan, HpaInputs, HpaOptions};
use navpath::planner::micro_astar::find_path_4dir;
use navpath::planner::path_blob::{try_decode_default, try_decode_with_decoders, JsonPathBlobDecoder, PathBlobDecoder};
use navpath::planner::tiles::ClusterTiles;
use navpath::requirements::{CallerValue, Num, RequirementEvaluator, RequirementKV};

fn tile(x: i32, y: i32, plane: i32) -> Tile {
    Tile { x, y, plane }
}

fn allow_rect(x: i32, y: i32, min_x: i32, max_x: i32, min_y: i32, max_y: i32) -> bool {
    x >= min_x && x <= max_x && y >= min_y && y <= max_y
}

#[test]
fn of_equal_paths_the_first_is_found() {
    // The cell further north leaves the open list first, so the way goes east before it goes south.
    let yes = |_: i32, _: i32| true;
    let path = find_path_4dir(tile(0, 0, 0), tile(1, 1, 0), yes, yes).expect("path");
    assert_eq!(path, vec![tile(0, 0, 0), tile(1, 0, 0), tile(1, 1, 0)]);
    // Both ways cost the same; the one by the lower index is taken up first.
    let adj = vec![vec![(2, 1), (1, 1)], vec![(3, 1)], vec![(3, 1)], vec![]];
    assert_eq!(dijkstra_indices_with_adj(&adj, 0, 3), Some(vec![0, 1, 3]));
    assert_eq!(dijkstra_indices_with_adj(&adj, 3, 0), None);
}

#[test]
fn a_bounded_search_is_cut_short() {
    let adj = vec![vec![(2, 1), (1, 1)], vec![(3, 1)], vec![(3, 1)], vec![]];
    assert!(matches!(search_within(&adj, 0, 3, Some(3)), (Bounded::Cut, 3)));
    assert!(matches!(search_within(&adj, 0, 3, Some(0)), (Bounded::Cut, 0)));
    let (found, pops) = search_within(&adj, 0, 3, Some(4));
    assert!(matches!(found, Bounded::Found(p) if p == vec![0, 1, 3]));
    assert_eq!(pops, 3);
    assert!(matches!(search_within(&adj, 3, 0, None), (Bounded::NotFound, 1)));
}

#[test]
fn path_straight_line_no_diagonals() {
    let start = Tile { x: 0, y: 0, plane: 0 };
    let goal = Tile { x: 3, y: 0, plane: 0 };
    let is_allowed = |x: i32, y: i32| allow_rect(x, y, 0, 3, 0, 3);
    let is_walkable = |_x: i32, _y: i32| true;
    let path = find_path_4dir(start, goal, is_allowed, is_walkable).expect("path");
    assert_eq!(
        path,
        vec![
            Tile { x: 0, y: 0, plane: 0 },
            Tile { x: 1, y: 0, plane: 0 },
            Tile { x: 2, y: 0, plane: 0 },
            Tile { x: 3, y: 0, plane: 0 },
        ]
    );
}

#[test]
fn path_avoids_blocked_and_respects_bounds() {
    let start = Tile { x: 0, y: 0, plane: 0 };
    let goal = Tile { x: 2, y: 0, plane: 0 };
    let is_allowed = |x: i32, y: i32| allow_rect(x, y, 0, 3, 0, 3);
    let is_walkable = |x: i32, y: i32| !(x == 1 && (y == 0 || y == 1));
    let path = find_path_4dir(start, goal, is_allowed, is_walkable).expect("path");
    assert_eq!(path.first().copied(), Some(start));
    assert_eq!(path.last().copied(), Some(goal));
    for w in path.windows(2) {
        let a = w[0];
        let b = w[1];
        let dx = (a.x - b.x).abs();
        let dy = (a.y - b.y).abs();
        assert!(dx + dy == 1, "only 4-neighbor moves allowed");
        assert!(is_allowed(b.x, b.y));
        assert!(is_walkable(b.x, b.y));
    }
    assert_eq!(path.len(), 7);
}

#[test]
fn returns_none_when_not_allowed_or_not_walkable() {
    let start = Tile { x: 0, y: 0, plane: 0 };
    let goal = Tile { x: 1, y: 0, plane: 0 };
    let is_allowed = |_x: i32, _y: i32| false;
    let is_walkable = |_x: i32, _y: i32| true;
    assert!(find_path_4dir(start, goal, is_allowed, is_walkable).is_none());

    let is_allowed2 = |_x: i32, _y: i32| true;
    let is_walkable2 = |_x: i32, _y: i32| false;
    assert!(find_path_4dir(start, goal, is_allowed2, is_walkable2).is_none());
}

#[test]
fn paths_stay_on_their_plane_and_may_be_one_tile() {
    let yes = |_x: i32, _y: i32| true;
    assert!(find_path_4dir(tile(0, 0, 0), tile(0, 0, 1), yes, yes).is_none());
    assert_eq!(find_path_4dir(tile(4, 4, 2), tile(4, 4, 2), yes, yes), Some(vec![tile(4, 4, 2)]));
}

#[test]
fn decode_array_of_arrays_ok() {
    let blob = br"[[1,2,3],[2,2,3],[3,2,3]]";
    let out = try_decode_default(blob).expect("should decode");
    assert_eq!(
        out,
        vec![
            Tile { x: 1, y: 2, plane: 3 },
            Tile { x: 2, y: 2, plane: 3 },
            Tile { x: 3, y: 2, plane: 3 },
        ]
    );
}

#[test]
fn decode_array_of_objects_ok() {
    let blob = br#"[{"x":1,"y":2,"plane":3},{"x":2,"y":2,"plane":3}]"#;
    let out = try_decode_default(blob).expect("should decode");
    assert_eq!(out, vec![Tile { x: 1, y: 2, plane: 3 }, Tile { x: 2, y: 2, plane: 3 }]);
}

#[test]
fn decode_invalid_returns_none() {
    let blob = b"not json";
    assert!(try_decode_default(blob).is_none());
    let blob = &[0xff, 0xfe, 0xfd];
    let dec = JsonPathBlobDecoder;
    assert!(dec.decode(blob).is_none());
}

struct Never;

impl PathBlobDecoder for Never {
    fn decode(&self, _blob: &[u8]) -> Option<Vec<Tile>> {
        None
    }
}

#[test]
fn decode_uses_first_successful_decoder() {
    let good = JsonPathBlobDecoder;
    let blob = br"[[4,5,6]]";
    let out = try_decode_with_decoders(blob, &[&Never as &dyn PathBlobDecoder, &good]);
    assert_eq!(out, Some(vec![Tile { x: 4, y: 5, plane: 6 }]));
}

fn ent(id: i64, cid: i64, x: i64, y: i64, plane: i64) -> ClusterEntrance {
    ClusterEntrance {
        entrance_id: id,
        cluster_id: cid,
        x,
        y,
        plane,
        neighbor_dir: "N".to_string(),
        teleport_edge_id: None,
    }
}

fn intra(from: i64, to: i64, cost: i64, path_blob: Option<Vec<u8>>) -> ClusterIntraConnection {
    ClusterIntraConnection { entrance_from: from, entrance_to: to, cost, path_blob }
}

fn inter(from: i64, to: i64, cost: i64) -> ClusterInterConnection {
    ClusterInterConnection { entrance_from: from, entrance_to: to, cost }
}

fn teleport(edge_id: i64, kind: &str, cost: i64, requirement: i64, src: i64, dst: i64) -> AbstractTeleportEdge {
    AbstractTeleportEdge {
        edge_id,
        kind: kind.to_string(),
        node_id: 0,
        src_x: None,
        src_y: None,
        src_plane: None,
        dst_x: 0,
        dst_y: 0,
        dst_plane: 0,
        cost,
        requirement_id: Some(requirement),
        src_entrance: Some(src),
        dst_entrance: Some(dst),
    }
}

fn token_needed(id: i64) -> TeleportRequirement {
    TeleportRequirement {
        id,
        meta_info: None,
        key: Some("token".to_string()),
        value: Some("yes".to_string()),
        comparison: Some("==".to_string()),
        number: None,
    }
}

fn with_token() -> RequirementEvaluator {
    RequirementEvaluator::new(vec![RequirementKV {
        key: "token".to_string(),
        value: CallerValue { number: None, text: Some("yes".to_string()) },
    }])
}

fn nobody() -> RequirementEvaluator {
    RequirementEvaluator::new(vec![])
}

fn tiles_of(sets: &[(i64, Vec<(i32, i32, i32)>)]) -> ClusterTiles {
    let mut tiles = ClusterTiles::new();
    for (id, coords) in sets {
        tiles.add_cluster(*id);
        for c in coords {
            tiles.add(*id, tile(c.0, c.1, c.2));
        }
    }
    tiles
}

#[test]
fn graph_builds_nodes_and_edges_without_teleport_when_gated() {
    let entrances = vec![ent(1, 10, 0, 0, 0), ent(2, 10, 1, 0, 0), ent(3, 20, 2, 0, 0)];
    let intras = vec![intra(1, 2, 5, Some(vec![1, 2, 3]))];
    let inters = vec![inter(2, 3, 7)];
    let teleports = vec![teleport(42, "door", 1, 100, 1, 3)];
    let reqs = vec![token_needed(100)];
    let inputs = GraphInputs {
        entrances: &entrances,
        intra: &intras,
        inter: &inters,
        teleports: &teleports,
        teleport_requirements: &reqs,
    };
    let opts = BuildOptions { start: tile(-1, -1, 0), end: tile(99, 99, 0) };
    let g = build_graph(&inputs, &nobody(), &opts, &ClusterTiles::new());
    assert_eq!(g.nodes.len(), 5);
    assert_eq!(g.edges.len(), 2);
    let has_intra_with_blob =
        g.edges.iter().any(|e| matches!(&e.kind, EdgeKind::Intra { path_blob: Some(b) } if !b.is_empty()));
    assert!(has_intra_with_blob);
    let has_start = g.nodes.iter().any(|n| matches!(n.kind, NodeKind::VirtualStart(_)));
    let has_end = g.nodes.iter().any(|n| matches!(n.kind, NodeKind::VirtualEnd(_)));
    assert!(has_start && has_end);
}

#[test]
fn graph_includes_teleport_when_requirements_met() {
    let entrances = vec![ent(1, 10, 0, 0, 0), ent(2, 10, 1, 0, 0), ent(3, 20, 2, 0, 0)];
    let intras = vec![intra(1, 2, 5, None)];
    let inters = vec![inter(2, 3, 7)];
    let teleports = vec![teleport(42, "door", 1, 100, 1, 3)];
    let reqs = vec![token_needed(100)];
    let inputs = GraphInputs {
        entrances: &entrances,
        intra: &intras,
        inter: &inters,
        teleports: &teleports,
        teleport_requirements: &reqs,
    };
    let opts = BuildOptions { start: tile(-1, -1, 0), end: tile(99, 99, 0) };
    let g = build_graph(&inputs, &with_token(), &opts, &ClusterTiles::new());
    assert_eq!(g.nodes.len(), 5);
    assert_eq!(g.edges.len(), 3);
    let has_tp = g.edges.iter().any(|e| matches!(e.kind, EdgeKind::Teleport { .. }));
    assert!(has_tp);
}

fn two_clusters() -> ClusterTiles {
    tiles_of(&[
        (10, vec![(-1, 0, 0), (0, 0, 0), (1, 0, 0), (2, 0, 0)]),
        (20, vec![(4, 0, 0), (5, 0, 0)]),
    ])
}

fn is_teleport(a: &Json) -> bool {
    a.get("type").and_then(|t| t.as_str()) == Some("teleport")
}

#[test]
fn hpa_without_teleport_gates_edge() {
    let entrances = vec![ent(1, 10, 0, 0, 0), ent(2, 10, 2, 0, 0), ent(3, 20, 4, 0, 0)];
    let intras = vec![intra(1, 2, 2, None)];
    let inters = vec![inter(2, 3, 2)];
    let teleports = vec![teleport(99, "teleport", 1, 100, 1, 3)];
    let reqs = vec![token_needed(100)];
    let inputs = GraphInputs {
        entrances: &entrances,
        intra: &intras,
        inter: &inters,
        teleports: &teleports,
        teleport_requirements: &reqs,
    };
    let hpa = HpaInputs { graph_inputs: inputs, cluster_tiles: two_clusters(), is_walkable: |_: i32, _: i32, _: i32| true };
    let opts = HpaOptions { start: tile(-1, 0, 0), end: tile(5, 0, 0) };
    let res = plan(&hpa, &nobody(), &opts).expect("plan");
    assert_eq!(res.path.first().copied(), Some(opts.start));
    assert_eq!(res.path.last().copied(), Some(opts.end));
    assert!(res.actions.iter().all(|a| !is_teleport(a)));
}

#[test]
fn hpa_with_teleport_included() {
    let entrances = vec![ent(1, 10, 0, 0, 0), ent(2, 10, 2, 0, 0), ent(3, 20, 4, 0, 0)];
    let intras = vec![intra(1, 2, 2, None)];
    let inters = vec![inter(2, 3, 2)];
    let teleports = vec![teleport(99, "teleport", 1, 100, 1, 3)];
    let reqs = vec![token_needed(100)];
    let inputs = GraphInputs {
        entrances: &entrances,
        intra: &intras,
        inter: &inters,
        teleports: &teleports,
        teleport_requirements: &reqs,
    };
    let hpa = HpaInputs { graph_inputs: inputs, cluster_tiles: two_clusters(), is_walkable: |_: i32, _: i32, _: i32| true };
    let opts = HpaOptions { start: tile(-1, 0, 0), end: tile(5, 0, 0) };
    let res = plan(&hpa, &with_token(), &opts).expect("plan");
    assert!(res.actions.iter().any(is_teleport));
    assert_eq!(res.path.first().copied(), Some(opts.start));
    assert_eq!(res.path.last().copied(), Some(opts.end));
    let here = HpaOptions { start: tile(0, 0, 0), end: tile(0, 0, 0) };
    let still = plan(&hpa, &with_token(), &here).expect("plan");
    assert_eq!(still.path, vec![tile(0, 0, 0)]);
    assert!(still.actions.is_empty());
}

fn cluster_row(cluster_id: i64, x: i64) -> ClusterTile {
    ClusterTile { cluster_id, x, y: 0, plane: 0 }
}

#[test]
fn same_cluster_micro_astar_returns_path() {
    let rows: Vec<ClusterTile> = (0..=2).map(|x| cluster_row(1, x)).collect();
    let start = tile(0, 0, 0);
    let end = tile(2, 0, 0);
    let is_walkable = |x: i32, y: i32, p: i32| (0..=2).contains(&x) && y == 0 && p == 0;
    let path = plan_same_cluster(Some(1), Some(1), &rows, start, end, &is_walkable)
        .expect("same cluster should plan micro path");
    assert_eq!(path.len(), 3);
    assert_eq!(path[0], start);
    assert_eq!(path[2], end);
    assert!(plan_same_cluster(Some(1), Some(2), &rows, start, end, &is_walkable).is_none());
    assert!(plan_same_cluster(None, None, &[], start, end, &is_walkable).is_none());
}

#[test]
fn cross_cluster_hops_via_teleport_with_requirements() {
    let entrances = vec![ent(1, 100, 0, 0, 0), ent(2, 100, 10, 0, 0), ent(3, 200, 20, 0, 0)];
    let mut tp = teleport(7, "item", 5, 42, 2, 3);
    tp.node_id = 123;
    tp.dst_x = 20;
    let req = TeleportRequirement {
        id: 42,
        meta_info: None,
        key: Some("level".to_string()),
        value: Some("10".to_string()),
        comparison: Some(">=".to_string()),
        number: Some(Num::Key(10f64.to_bits() as i64)),
    };
    let evaluator = RequirementEvaluator::new(vec![RequirementKV {
        key: "level".to_string(),
        value: CallerValue { number: Some(Num::Key(50f64.to_bits() as i64)), text: Some("50".to_string()) },
    }]);
    let inputs = GraphInputs {
        entrances: &entrances,
        intra: &[],
        inter: &[],
        teleports: &[tp],
        teleport_requirements: &[req],
    };
    let tiles = tiles_of(&[
        (100, (0..=10).map(|x| (x, 0, 0)).collect()),
        (200, (20..=21).map(|x| (x, 0, 0)).collect()),
    ]);
    let is_walkable = |_: i32, _: i32, _: i32| true;
    let start = tile(9, 0, 0);
    let end = tile(21, 0, 0);
    let hops = plan_hops(&inputs, &evaluator, start, end, &tiles, &is_walkable)
        .expect("should find cross-cluster via teleport");
    assert_eq!(hops.entrances, vec![2, 3]);
    let apart = CommonCluster { start: Some(100), end: Some(200), tiles: &[] };
    let res = plan_cluster_aware(&apart, &inputs, &evaluator, start, end, &tiles, &is_walkable).expect("plan");
    assert_eq!(res.path, vec![tile(9, 0, 0), tile(10, 0, 0), tile(20, 0, 0), tile(21, 0, 0)]);
    assert!(plan_hops(&inputs, &nobody(), start, end, &tiles, &is_walkable).is_none());
}

#[test]
fn the_order_of_rows_does_not_matter() {
    let entrances = vec![ent(3, 200, 20, 0, 0), ent(1, 100, 0, 0, 0), ent(2, 100, 10, 0, 0)];
    let inside = vec![intra(2, 1, 4, None), intra(1, 2, 5, None)];
    let between = vec![inter(3, 2, 8), inter(2, 3, 7)];
    let ways = vec![teleport(9, "npc", 6, 0, 1, 3), teleport(4, "npc", 6, 0, 1, 3)];
    let options = BuildOptions { start: tile(0, 0, 0), end: tile(20, 0, 0) };
    let told = |e: &[ClusterEntrance], i: &[ClusterIntraConnection], x: &[ClusterInterConnection], t: &[AbstractTeleportEdge]| {
        let rows = GraphInputs { entrances: e, intra: i, inter: x, teleports: t, teleport_requirements: &[] };
        let g = build_graph(&rows, &nobody(), &options, &ClusterTiles::new());
        format!("{:?}", g)
    };
    let first = told(&entrances, &inside, &between, &ways);
    let turn = |n: usize| (0..n).rev();
    let e: Vec<ClusterEntrance> = turn(3).map(|i| entrances[i].clone()).collect();
    let i: Vec<ClusterIntraConnection> = turn(2).map(|k| inside[k].clone()).collect();
    let x: Vec<ClusterInterConnection> = turn(2).map(|k| between[k].clone()).collect();
    let t: Vec<AbstractTeleportEdge> = turn(2).map(|k| ways[k].clone()).collect();
    assert_eq!(told(&e, &i, &x, &t), first);
}

#[test]
fn negative_costs_are_told() {
    let inside = vec![intra(1, 2, 0, None)];
    let mut between = vec![inter(1, 2, 3)];
    let rows = GraphInputs { entrances: &[], intra: &inside, inter: &between, teleports: &[], teleport_requirements: &[] };
    assert!(no_negative_costs(&rows));
    between.push(inter(2, 1, -1));
    let rows = GraphInputs { entrances: &[], intra: &inside, inter: &between, teleports: &[], teleport_requirements: &[] };
    assert!(!no_negative_costs(&rows));
}

#[test]
fn plans_are_refused_over_negative_costs() {
    let entrances = vec![ent(1, 100, 0, 0, 0), ent(2, 200, 20, 0, 0)];
    let tiles = tiles_of(&[(100, vec![(0, 0, 0)]), (200, vec![(20, 0, 0)])]);
    let is_walkable = |_: i32, _: i32, _: i32| true;
    let (start, end) = (tile(0, 0, 0), tile(20, 0, 0));
    let apart = CommonCluster { start: Some(100), end: Some(200), tiles: &[] };
    let told = |cost: i64| {
        let between = vec![inter(1, 2, cost)];
        let rows =
            GraphInputs { entrances: &entrances, intra: &[], inter: &between, teleports: &[], teleport_requirements: &[] };
        let hops = checked_plan_hops(&rows, &nobody(), start, end, &tiles, &is_walkable);
        let indices = checked_plan_hl_indices(&rows, &nobody(), start, end, &tiles, &is_walkable);
        let plan = checked_plan_cluster_aware(&apart, &rows, &nobody(), start, end, &tiles, &is_walkable);
        let inputs = HpaInputs { graph_inputs: rows, cluster_tiles: tiles_of(&[]), is_walkable };
        let still = checked_plan(&inputs, &nobody(), &HpaOptions { start, end: start });
        assert_eq!(still.unwrap().unwrap().path, vec![start], "no row is looked at");
        let whole = checked_plan(&inputs, &nobody(), &HpaOptions { start, end });
        (
            hops.map(|r| r.map(|p| p.entrances)),
            indices.map(|r| r.is_some()),
            plan.map(|r| r.map(|p| p.path)),
            whole.map(|r| r.is_some()),
        )
    };
    let (hops, indices, plan, _) = told(3);
    assert_eq!(hops, Ok(Some(vec![1, 2])));
    assert_eq!(indices, Ok(true));
    assert_eq!(plan, Ok(Some(vec![start, end])));
    let (hops, indices, plan, whole) = told(-1);
    assert_eq!((hops, indices, plan, whole), (Err(NegativeCost), Err(NegativeCost), Err(NegativeCost), Err(NegativeCost)));
}

#[test]
fn a_common_cluster_is_walked_without_entrances() {
    let rows = vec![cluster_row(1, 0), cluster_row(1, 1)];
    let inputs = GraphInputs { entrances: &[], intra: &[], inter: &[], teleports: &[], teleport_requirements: &[] };
    let tiles = tiles_of(&[]);
    let is_walkable = |_: i32, _: i32, _: i32| true;
    let (start, end) = (tile(0, 0, 0), tile(1, 0, 0));
    let common = CommonCluster { start: Some(1), end: Some(1), tiles: &rows };
    let res = plan_cluster_aware(&common, &inputs, &nobody(), start, end, &tiles, &is_walkable).expect("a walk");
    assert_eq!(res.path, vec![start, end]);
    assert!(res.actions.is_empty());
    let apart = CommonCluster { start: Some(1), end: Some(2), tiles: &rows };
    assert!(plan_cluster_aware(&apart, &inputs, &nobody(), start, end, &tiles, &is_walkable).is_none());
    let shut = |_: i32, _: i32, _: i32| false;
    assert!(plan_cluster_aware(&common, &inputs, &nobody(), start, end, &tiles, &shut).is_none());
}

#[test]
fn no_route_returns_none() {
    let entrances = vec![ent(1, 100, 0, 0, 0), ent(2, 200, 20, 0, 0)];
    let inputs =
        GraphInputs { entrances: &entrances, intra: &[], inter: &[], teleports: &[], teleport_requirements: &[] };
    let tiles = tiles_of(&[(100, vec![(5, 0, 0)]), (200, vec![(25, 0, 0)])]);
    let is_walkable = |_: i32, _: i32, _: i32| true;
    let hops = plan_hops(&inputs, &nobody(), tile(9, 0, 0), tile(21, 0, 0), &tiles, &is_walkable);
    assert!(hops.is_none());
}

#[test]
fn clusters_hold_the_tiles_of_their_rows() {
    let tiles = collect_cluster_tiles(&[7], &[cluster_row(1, 4), cluster_row(1, 5)]);
    assert!(tiles.is_known(7) && tiles.is_known(1) && !tiles.is_known(2));
    assert!(tiles.contains(1, tile(4, 0, 0)));
    assert!(!tiles.contains(7, tile(4, 0, 0)));
    assert_eq!(tiles.cluster_of(tile(5, 0, 0)), Some(1));
    assert_eq!(tiles.cluster_of(tile(6, 0, 0)), None);
}
