use std::collections::HashMap;

use navpath::cache::lru_index::SlotCache;
use navpath::cache::route_cache::{new_route_cache, new_seed_shadow, CacheOutcome, RouteCacheEntry};
use navpath::cache::subpath::{new_subpath_cache, subpath_cache_paths};
use navpath::engine::attempt::{attempt, SearchContext};
use navpath::engine::edges::{adjacency, list_usable_edges, route_nodes, Means, UsableEdge};
use navpath::engine::eligibility::EligibilityMask;
use navpath::engine::fx_map::FxIndex;
use navpath::engine::macros::{build_fairy_rings, build_neighbor_provider, FairyRing, GlobalTeleport, MacroLookup};
use navpath::engine::millis::Millis;
use navpath::engine::outcome::{Engine, EngineChoice, SearchOutcome, SearchResult, SearchStatus};
use navpath::engine::profile::build_component_graph;
use navpath::engine::reach::ComponentGraph;
use navpath::engine::weight::Weight;
use navpath::json::Json;
use navpath::models::Tile;
use navpath::route::abilities::{is_valid_ability_hop, Direction, DiveConfig, SurgeConfig, MAX_ABILITY_TILES};
use navpath::route::decide::{begin_route, Begin, Caches, RouteSettings, World};
use navpath::route::payload::{build_route_payload, optimize_with_surge_dive, Action, PayloadInput};
use navpath::route::race::{
    plan_search, primary_is_uni, race_primary, Race, RaceAction, RaceEvent, RaceHint, RacePrimary, Report,
};
use navpath::route::reachable::{find_tile, reachable, ReachableAnswer};
use navpath::route::request::{
    effective_seed, req_has_quick_tele, RequirementKV, RouteError, RouteOptions, RouteRequest,
};
use navpath::route::respond::{respond, Hit, Served, Source};
use navpath::service::lifecycle::tile_exists;
use navpath::service::metrics::{Counter, Metrics};
use navpath::snapshot::manifest::pack_coord;
use navpath::snapshot::reader::Snapshot;
use navpath::snapshot::writer::{write_snapshot_v8, SnapshotSections};

fn t(x: i32, y: i32, plane: i32) -> Tile {
    Tile { x, y, plane }
}

fn ms(f: f64) -> Millis {
    Millis { bits: f.to_bits() }
}

fn w(f: f32) -> Weight {
    Weight { bits: f.to_bits() }
}

fn mv(x: i32, y: i32) -> Action {
    Action::Move { to: t(x, y, 0), cost_ms: 600 }
}

fn cfgs() -> (SurgeConfig, DiveConfig) {
    (
        SurgeConfig { enabled: true, charges: 2, cooldown: ms(20400.0) },
        DiveConfig { enabled: true, available_in: ms(0.0), cooldown: ms(20400.0) },
    )
}

fn abilities(actions: &[Action]) -> Vec<(&'static str, Tile, Tile)> {
    actions
        .iter()
        .filter_map(|a| match a {
            Action::Ability { surge, from, to, .. } => Some((if *surge { "surge" } else { "dive" }, *from, *to)),
            _ => None,
        })
        .collect()
}

/// Where the character is after each action; an ability starts where the character is.
fn covered_tiles(out: &[Action], origin: Tile) -> Vec<Tile> {
    let mut seen = vec![origin];
    for a in out {
        if let Action::Ability { from, .. } = a {
            assert_eq!(*from, *seen.last().unwrap(), "ability starts where the character is");
        }
        seen.push(a.to_coords());
    }
    seen
}

fn told(path: Vec<Action>) -> Vec<Action> {
    let (s, d) = cfgs();
    optimize_with_surge_dive(path, &s, &d, Some(t(0, 0, 0)))
}

fn eastward() -> Vec<Action> {
    (1..=20).map(|x| mv(x, 0)).collect()
}

#[test]
fn same_direction_dive_waives_walk_requirement() {
    let out = told(eastward());
    let abs = abilities(&out);
    assert_eq!(abs.len(), 2, "expected a dive followed immediately by a surge");
    assert_eq!(abs[0].0, "dive");
    assert_eq!(abs[1].0, "surge");
    assert_eq!(abs[1].1, abs[0].2);
}

#[test]
fn turning_dive_still_requires_walk() {
    let mut path: Vec<Action> = (1..=11).map(|y| mv(0, y)).collect();
    path.extend((1..=15).map(|x| mv(x, 11)));
    let out = told(path);
    let abs = abilities(&out);
    assert_eq!(abs[0].0, "dive");
    if let Some(surge) = abs.iter().find(|a| a.0 == "surge") {
        assert_ne!(surge.1, abs[0].2, "surge must not fire straight off a turning dive");
    }
}

#[test]
fn leading_ability_starts_at_the_route_origin() {
    let out = told(eastward());
    let abs = abilities(&out);
    assert_eq!(abs[0].1, t(0, 0, 0), "dive must start on the character's tile");
    assert_eq!(abs[0].2, t(10, 0, 0));
    let Action::Ability { tiles_covered, .. } = &out[0] else { panic!("first action is the dive") };
    assert_eq!(*tiles_covered, 10);
    let seen = covered_tiles(&out, t(0, 0, 0));
    assert_eq!(*seen.last().unwrap(), t(20, 0, 0));
}

fn assert_all_abilities_in_range(out: &[Action]) {
    for (kind, from, to) in abilities(out) {
        let (dx, dy) = ((to.x - from.x) as f64, (to.y - from.y) as f64);
        let dist = (dx * dx + dy * dy).sqrt();
        assert!(dist <= MAX_ABILITY_TILES as f64 + 0.5, "{kind} spans {dist} tiles from {from:?} to {to:?}");
    }
}

#[test]
fn leading_dive_respects_the_ten_tile_range() {
    assert_all_abilities_in_range(&told(eastward()));
}

#[test]
fn diagonal_run_never_emits_an_out_of_range_surge() {
    let path: Vec<Action> = (1..=20).map(|i| mv(i, i)).collect();
    let out = told(path);
    assert_all_abilities_in_range(&out);
    let seen = covered_tiles(&out, t(0, 0, 0));
    assert_eq!(*seen.last().unwrap(), t(20, 20, 0));
}

#[test]
fn virtual_start_action_supplies_the_origin() {
    let mut path: Vec<Action> = vec![Action::VirtualStart {
        kind: "lodestone".to_string(),
        from: t(-1, -1, 0),
        to: t(0, 0, 0),
        cost: None,
        metadata: Json::object(),
    }];
    path.extend(eastward());
    let out = told(path);
    let abs = abilities(&out);
    assert_eq!(abs[0].1, t(0, 0, 0), "dive starts where the teleport landed");
    let seen = covered_tiles(&out, t(-1, -1, 0));
    assert_eq!(*seen.last().unwrap(), t(20, 0, 0));
}

/// Where the dive starts on a walk eastward of 600 ms a tile, for the time it is ready at.
fn dives_from(available_in: f64) -> Option<i32> {
    let none = SurgeConfig { enabled: false, charges: 0, cooldown: ms(20400.0) };
    let dive = DiveConfig { enabled: true, available_in: ms(available_in), cooldown: ms(20400.0) };
    let out = optimize_with_surge_dive(eastward(), &none, &dive, Some(t(0, 0, 0)));
    abilities(&out).first().map(|a| a.1.x)
}

#[test]
fn a_dive_waits_for_the_very_millisecond() {
    assert_eq!(dives_from(0.0), Some(0));
    assert_eq!(dives_from(-5.5), Some(0));
    assert_eq!(dives_from(600.0), Some(1));
    assert_eq!(dives_from(600.0000001), Some(2), "a fraction of a microsecond is waited for");
    assert_eq!(dives_from(599.9999999), Some(1));
    assert_eq!(dives_from(f64::INFINITY), None);
    assert_eq!(dives_from(f64::NAN), None, "what is no number is never reached");
}

#[test]
fn actions_take_the_time_of_their_cost() {
    assert_eq!(mv(1, 0).cost_ms(), ms(600.0));
    let teleport = Action::Teleport { from: t(0, 0, 0), to: t(1, 1, 0) };
    assert_eq!(teleport.cost_ms(), ms(0.0));
    for cost in [0.1f32, 2400.5, 1e-40, f32::MAX, f32::INFINITY] {
        let start = Action::VirtualStart {
            kind: "lodestone".to_string(),
            from: t(-1, -1, 0),
            to: t(0, 0, 0),
            cost: Some(w(cost)),
            metadata: Json::object(),
        };
        assert_eq!(start.cost_ms(), ms(cost as f64), "{cost}");
    }
}

#[test]
fn without_abilities_a_path_stays_as_it_is() {
    let none = SurgeConfig { enabled: false, charges: 2, cooldown: ms(0.0) };
    let no_dive = DiveConfig { enabled: false, available_in: ms(0.0), cooldown: ms(0.0) };
    let out = optimize_with_surge_dive(eastward(), &none, &no_dive, Some(t(0, 0, 0)));
    assert_eq!(out.len(), 20);
    assert!(abilities(&out).is_empty());
    assert_eq!(Direction::from_delta(3, -3), Some(Direction::SouthEast));
    assert_eq!(Direction::from_delta(0, 0), None);
    assert_eq!(Direction::from_delta(2, 1), Some(Direction::NorthEast));
    assert!(is_valid_ability_hop(t(0, 0, 0), t(10, 3, 0)));
    assert!(!is_valid_ability_hop(t(0, 0, 0), t(10, 4, 0)));
    assert!(!is_valid_ability_hop(t(0, 0, 0), t(1, 0, 1)));
}

fn sections<'a>(coords: &'a [u32], offsets: &'a [u32], dst: &'a [u32], diag: &'a [u8], comp: &'a [u16]) -> SnapshotSections<'a> {
    SnapshotSections {
        coords_packed: coords,
        walk_offsets: offsets,
        walk_dst: dst,
        walk_diag: diag,
        comp,
        walk_components: 1,
        macro_src: &[],
        macro_dst: &[],
        macro_w: &[],
        macro_kind_first: &[],
        macro_id_first: &[],
        macro_meta_offs: &[],
        macro_meta_lens: &[],
        macro_meta_blob: &[],
        req_tags: &[],
        landmarks: &[],
        lm_tab: &[],
        fairy_nodes: &[],
        fairy_cost_ms: &[],
        fairy_meta_offs: &[],
        fairy_meta_lens: &[],
        fairy_meta_blob: &[],
    }
}

/// Two columns of 27 tiles that are joined only across the top, a cell behind a door, and a cell
/// far away.
fn columns_snapshot() -> Snapshot {
    let mut tiles: Vec<(i32, i32)> = Vec::new();
    for y in 3200..=3226 {
        tiles.push((3200, y));
        tiles.push((3202, y));
    }
    tiles.push((3201, 3226));
    tiles.push((3205, 3200));
    tiles.push((3300, 3200));
    tiles.sort_by_key(|&(x, y)| pack_coord(x, y, 0));
    let index: HashMap<(i32, i32), u32> = tiles.iter().enumerate().map(|(i, &c)| (c, i as u32)).collect();
    let coords: Vec<u32> = tiles.iter().map(|&(x, y)| pack_coord(x, y, 0)).collect();
    let mut offsets: Vec<u32> = vec![0];
    let mut dst: Vec<u32> = Vec::new();
    for &(x, y) in &tiles {
        for n in [(x + 1, y), (x - 1, y), (x, y + 1), (x, y - 1)] {
            if let Some(&v) = index.get(&n) {
                dst.push(v);
            }
        }
        offsets.push(dst.len() as u32);
    }
    let diag = vec![0u8; dst.len().div_ceil(8)];
    let comp: Vec<u16> = tiles
        .iter()
        .map(|&c| match c {
            (3205, _) => 1,
            (3300, _) => 2,
            _ => 0,
        })
        .collect();
    let macro_src = [index[&(3202, 3200)]];
    let macro_dst = [index[&(3205, 3200)]];
    let macro_w = [600f32.to_bits()];
    let mut s = sections(&coords, &offsets, &dst, &diag, &comp);
    s.walk_components = 3;
    s.macro_src = &macro_src;
    s.macro_dst = &macro_dst;
    s.macro_w = &macro_w;
    s.macro_kind_first = &[1];
    s.macro_id_first = &[7];
    s.macro_meta_offs = &[0];
    s.macro_meta_lens = &[2];
    s.macro_meta_blob = b"{}";
    let (bytes, _) = write_snapshot_v8(&s).expect("write snapshot");
    Snapshot::open(bytes).expect("open snapshot")
}

#[test]
fn reachable_is_walk_only_and_range_bounded() {
    let snap = columns_snapshot();
    let check = |s: (i32, i32, i32), g: (i32, i32, i32)| {
        let a = reachable(&snap, t(s.0, s.1, s.2), t(g.0, g.1, g.2));
        (a == ReachableAnswer::Reachable, a.reason_text())
    };
    assert_eq!(check((3200, 3200, 0), (3200, 3201, 0)), (true, None));
    assert_eq!(check((3200, 3200, 0), (3200, 3215, 0)), (true, None));
    assert_eq!(check((3200, 3200, 0), (3200, 3200, 0)), (true, None));
    assert_eq!(check((3202, 3200, 0), (3205, 3200, 0)), (false, Some("not_connected")));
    assert_eq!(check((3200, 3200, 0), (3300, 3200, 0)), (false, Some("out_of_range")));
    assert_eq!(check((3200, 3200, 0), (3200, 3201, 1)), (false, Some("different_plane")));
    assert_eq!(check((3199, 3200, 0), (3200, 3200, 0)), (false, Some("start_tile_not_found")));
    assert_eq!(check((3200, 3200, 0), (3210, 3210, 0)), (false, Some("goal_tile_not_found")));
    assert_eq!(check((3200, 3200, 0), (3202, 3200, 0)), (false, Some("no_path_in_range")));
    assert!(find_tile(&snap, t(3201, 3226, 0)).is_some());
    assert!(find_tile(&snap, t(3201, 3225, 0)).is_none());
    assert_eq!(tile_exists(&snap, 3201, 3225, 0).get("exists").and_then(|v| v.as_bool()), Some(false));
}

/// A chain of three nodes, a dear edge from the first to the last, and a global teleport into the
/// middle.
fn chain_snapshot() -> Snapshot {
    let coords: Vec<u32> = (0..3).map(|i| pack_coord(3200 + i, 3200, 0)).collect();
    let meta0 = b"{}".to_vec();
    let meta1 =
        br#"{"global":[{"dst":1,"cost_ms":10000.0,"steps":[{"kind":"npc"}],"requirements":[]}]}"#.to_vec();
    let mut blob = meta0.clone();
    blob.extend_from_slice(&meta1);
    let offs = [0u32, meta0.len() as u32];
    let lens = [meta0.len() as u32, meta1.len() as u32];
    let macro_w = [700f32.to_bits(), 0f32.to_bits()];
    let mut s = sections(&coords, &[0, 1, 3, 4], &[1, 0, 2, 1], &[0], &[0, 0, 0]);
    s.macro_src = &[0, 0];
    s.macro_dst = &[2, 0];
    s.macro_w = &macro_w;
    s.macro_kind_first = &[2, 0];
    s.macro_id_first = &[13, 0];
    s.macro_meta_offs = &offs;
    s.macro_meta_lens = &lens;
    s.macro_meta_blob = &blob;
    let (bytes, _) = write_snapshot_v8(&s).expect("write snapshot");
    Snapshot::open(bytes).expect("open snapshot")
}

struct Loaded {
    snapshot: Snapshot,
    globals: Vec<GlobalTeleport>,
    lookup: MacroLookup,
    rings: Vec<FairyRing>,
    ring_at: FxIndex,
    graph: ComponentGraph,
}

fn load(snapshot: Snapshot) -> Loaded {
    let (_, globals, lookup) = build_neighbor_provider(&snapshot);
    let (rings, ring_at) = build_fairy_rings(&snapshot);
    let graph = build_component_graph(&snapshot, &globals, &rings, &lookup);
    Loaded { snapshot, globals, lookup, rings, ring_at, graph }
}

impl Loaded {
    fn world(&self) -> World<'_> {
        World {
            snapshot: &self.snapshot,
            globals: &self.globals,
            fairy_rings: &self.rings,
            comp_graph: &self.graph,
        }
    }

    fn payload<'a>(&'a self, mask: &'a EligibilityMask, from: Option<Tile>, sid: u32) -> PayloadInput<'a> {
        PayloadInput {
            snapshot: &self.snapshot,
            globals: &self.globals,
            lookup: &self.lookup,
            fairy_rings: &self.rings,
            ring_at: &self.ring_at,
            mask,
            quick_tele: false,
            return_geometry: true,
            only_actions: false,
            virtual_start_from: from,
            sid,
            surge: SurgeConfig { enabled: false, charges: 0, cooldown: ms(0.0) },
            dive: DiveConfig { enabled: false, available_in: ms(0.0), cooldown: ms(0.0) },
        }
    }
}

fn no_caches() -> Caches {
    Caches {
        route: new_route_cache(Some(16)),
        shadow: new_seed_shadow(false, Some(16)),
        subpath: new_subpath_cache(None, false, None),
        profiles: SlotCache::new(4),
        paths: subpath_cache_paths(None),
    }
}

fn request() -> RouteRequest {
    RouteRequest {
        start_id: None,
        goal_id: None,
        start: None,
        goal: None,
        requirements: Vec::new(),
        options: RouteOptions { return_geometry: true, only_actions: false },
        surge: SurgeConfig { enabled: false, charges: 0, cooldown: ms(0.0) },
        dive: DiveConfig { enabled: false, available_in: ms(0.0), cooldown: ms(0.0) },
        seed: None,
    }
}

const SETTINGS: RouteSettings = RouteSettings { seeding_disabled: false, cache_ignore_seed: false };

fn found(path: Vec<u32>, costs: Vec<f32>) -> SearchResult {
    SearchResult {
        found: true,
        status: SearchStatus::Found,
        path,
        cost: w(*costs.last().unwrap()),
        path_g: costs.into_iter().map(w).collect(),
        pops: 4,
        pops_f: 4,
        pops_b: 0,
    }
}

fn outcome(res: SearchResult, engine: Engine) -> SearchOutcome {
    SearchOutcome { res, retried: false, attempts_pops: [4, 0, 0], seed_dropped: false, engine }
}

#[test]
fn requests_are_refused_for_a_reason() {
    let l = load(chain_snapshot());
    let mut caches = no_caches();
    let mut m = Metrics::new();
    let mut refusal = |ready: bool, world: Option<World>, req: &RouteRequest| {
        match begin_route(ready, world, req, &SETTINGS, &mut caches, &mut m) {
            Begin::Refuse(e) => (e, e.status()),
            other => panic!("not refused: {other:?}"),
        }
    };
    let mut req = request();
    assert_eq!(refusal(false, Some(l.world()), &req), (RouteError::WarmingUp, 503));
    assert_eq!(refusal(true, None, &req), (RouteError::SnapshotNotLoaded, 503));
    assert_eq!(refusal(true, Some(l.world()), &req), (RouteError::MissingEndpoints, 400));
    req.start_id = Some(0);
    req.goal_id = Some(3);
    assert_eq!(refusal(true, Some(l.world()), &req), (RouteError::OutOfRange, 400));
    req = request();
    req.start = Some(t(3200, 3200, 0));
    req.goal = Some(t(1, 1, 0));
    assert_eq!(refusal(true, Some(l.world()), &req), (RouteError::GoalTileNotFound, 400));
    assert_eq!(RouteError::AtCapacity.status(), 503);
    assert_eq!(RouteError::DeadlineExceeded.status(), 504);
    assert_eq!(RouteError::GoalTileNotFound.message(), "goal tile not found in snapshot");
    assert_eq!(m.get(Counter::Requests), 5);
}

#[test]
fn a_route_is_searched_once_and_then_served_with_its_parts() {
    let l = load(chain_snapshot());
    let mut caches = no_caches();
    let mut m = Metrics::new();
    let mut req = request();
    req.start_id = Some(0);
    req.goal_id = Some(2);
    let Begin::Search { job, query, outcome: told } =
        begin_route(true, Some(l.world()), &req, &SETTINGS, &mut caches, &mut m)
    else {
        panic!("a search has to run")
    };
    assert_eq!(told, CacheOutcome::MissCold);
    let out = outcome(found(vec![0, 1, 2], vec![0.0, 300.0, 600.0]), Engine::Bidir);
    assert!(caches.record(&query, job.index_subpath, &out.res, None, false));
    let s = Served::from_search(&out, 77);
    let r = respond(&mut m, &s, Source::Search, job.seed_ignored);
    assert!(r.found && r.reason.is_none() && r.degraded.is_none());
    assert_eq!((r.cost, r.length_tiles), (w(600.0), 3));
    let p = l.payload(&job.mask, None, 0);
    let (actions, geometry) = build_route_payload(&p, true, &out.res.path, None);
    let actions = actions.unwrap();
    assert_eq!(actions.len(), 2);
    assert!(matches!(actions[0], Action::Move { to: Tile { x: 3201, y: 3200, plane: 0 }, cost_ms: 300 }));
    assert_eq!(geometry.unwrap(), vec![t(3200, 3200, 0), t(3201, 3200, 0), t(3202, 3200, 0)]);

    let Begin::Served { hit, outcome: told, .. } =
        begin_route(true, Some(l.world()), &req, &SETTINGS, &mut caches, &mut m)
    else {
        panic!("the route is kept")
    };
    assert_eq!(told, CacheOutcome::Hit);
    assert_eq!(hit.path(), &vec![0, 1, 2]);
    req.start_id = Some(1);
    let Begin::Served { hit, .. } = begin_route(true, Some(l.world()), &req, &SETTINGS, &mut caches, &mut m) else {
        panic!("a part of the route is kept")
    };
    assert!(matches!(hit, Hit::Subpath { .. }));
    assert_eq!(Served::from_hit(&hit).cost, w(300.0));
    assert!(hit.is_inline(true) && hit.found());
    req.start_id = Some(0);
    req.seed = Some(5);
    let Begin::Search { outcome: told, .. } = begin_route(true, Some(l.world()), &req, &SETTINGS, &mut caches, &mut m)
    else {
        panic!("a seed makes another request")
    };
    assert_eq!(told, CacheOutcome::MissSeed);
}

#[test]
fn a_search_takes_the_edges_that_the_caller_may_use() {
    let l = load(chain_snapshot());
    let mask = EligibilityMask { satisfied: vec![] };
    let globals = vec![(1u32, w(10000.0))];
    let (sources, dests) = (vec![0u32, 2], vec![(0u32, w(500.0)), (2, w(500.0))]);
    let none: Vec<u32> = vec![];
    let nowhere: Vec<(u32, Weight)> = vec![];
    let walk = Means { mask: &mask, quick_tele: false, globals: &globals, fairy_sources: &none, fairy_dests: &nowhere };
    let told = |edges: &Vec<UsableEdge>| -> Vec<(usize, usize, f32)> {
        edges.iter().map(|e| (e.from, e.to, f32::from_bits(e.cost.bits))).collect()
    };
    let mut edges = Vec::new();
    list_usable_edges(&l.snapshot, &l.lookup, &walk, Some(0), &mut edges);
    let steps = vec![(0, 1, 300.0), (1, 0, 300.0), (1, 2, 300.0), (2, 1, 300.0)];
    let mut want = steps.clone();
    want.extend([(0, 2, 700.0), (3, 0, 0.0), (3, 1, 10000.0)]);
    assert_eq!(told(&edges), want);
    let all = Means { mask: &mask, quick_tele: true, globals: &globals, fairy_sources: &sources, fairy_dests: &dests };
    let mut want = steps;
    want.extend([(0, 2, 2400.0), (0, 2, 500.0), (2, 0, 500.0), (3, 1, 10000.0)]);
    let mut more = edges.clone();
    list_usable_edges(&l.snapshot, &l.lookup, &all, None, &mut more);
    assert_eq!(told(&more), want);
    let adj = adjacency(&edges, 4, false);
    assert_eq!(adj[0], vec![(1, 300 << 30), (2, 700 << 30)]);
    assert_eq!(adjacency(&edges, 4, true)[0], vec![(1, 300 << 30), (3, 0)]);
    assert_eq!(route_nodes(&vec![3, 0, 1], Some(0)), (vec![0, 1], false));
    assert_eq!(route_nodes(&vec![3, 1, 2], Some(0)), (vec![0, 1, 2], true));
    assert_eq!(route_nodes(&vec![3, 1, 2], None), (vec![1, 2], false));
}

fn gs(costs: &[Weight]) -> Vec<f32> {
    costs.iter().map(|w| f32::from_bits(w.bits)).collect()
}

#[test]
fn one_attempt_finds_the_cheapest_route_in_either_direction() {
    let l = load(chain_snapshot());
    let mask = EligibilityMask { satisfied: vec![] };
    let globals = vec![(1u32, w(250.5))];
    let (none, nowhere): (Vec<u32>, Vec<(u32, Weight)>) = (vec![], vec![]);
    let m = Means { mask: &mask, quick_tele: false, globals: &globals, fairy_sources: &none, fairy_dests: &nowhere };
    let mut ctx = SearchContext::new();
    let mut go = |start, goal, most, back| attempt(&l.snapshot, &l.lookup, &m, start, goal, most, back, &mut ctx);
    for back in [false, true] {
        // The teleport to the node in between beats the first step.
        let r = go(Some(0), 2, None, back);
        assert!(r.found && r.status == SearchStatus::Found);
        assert_eq!(r.path, vec![0, 1, 2]);
        assert_eq!(gs(&r.path_g), vec![0.0, 250.5, 550.5]);
        assert_eq!(f32::from_bits(r.cost.bits), 550.5);
        assert!(r.pops > 0);
        assert_eq!((r.pops_f, r.pops_b), if back { (0, r.pops) } else { (r.pops, 0) });
        // From the node in between the rest of that route is cheapest, and costs what is left of it.
        let part = go(Some(1), 2, None, back);
        assert_eq!((part.path, gs(&part.path_g)), (vec![1, 2], vec![0.0, 300.0]));
        let head = go(Some(0), 1, None, back);
        assert_eq!((head.path, gs(&head.path_g)), (vec![0, 1], vec![0.0, 250.5]));
        // Without a start the route enters by the teleport.
        let virtual_start = go(None, 0, None, back);
        assert_eq!((virtual_start.path, gs(&virtual_start.path_g)), (vec![1, 0], vec![250.5, 550.5]));
        assert_eq!(go(Some(0), 0, None, back).path, vec![0]);
        let cut = go(Some(0), 2, Some(1), back);
        assert!(!cut.found && cut.status == SearchStatus::BudgetExceeded && cut.pops == 1);
        for (start, goal) in [(Some(0), 3), (Some(3), 0)] {
            let r = go(start, goal, None, back);
            assert!(!r.found && r.status == SearchStatus::NotFound && r.pops == 0 && r.path.is_empty());
            assert_eq!(f32::from_bits(r.cost.bits), f32::INFINITY);
        }
    }
    let alone = Means { globals: &nowhere, ..m };
    let r = attempt(&l.snapshot, &l.lookup, &alone, None, 2, None, false, &mut ctx);
    assert!(!r.found && r.status == SearchStatus::NotFound);
}

#[test]
fn without_landmarks_the_cheapest_teleport_is_known() {
    let globals = vec![(1u32, w(700.0)), (2, w(250.5)), (3, w(900.0))];
    let hint = RaceHint::without_landmarks(true, &globals);
    assert_eq!(hint, RaceHint { h_start: w(0.0), h_teleport: w(250.5), blind: true });
    let hint = RaceHint::without_landmarks(false, &vec![]);
    assert_eq!((hint.h_start, hint.h_teleport), (w(f32::INFINITY), w(f32::INFINITY)));
}

#[test]
fn a_start_off_the_map_enters_by_a_global_teleport() {
    let l = load(chain_snapshot());
    assert_eq!(l.globals.len(), 1);
    assert_eq!((l.globals[0].dst, l.globals[0].cost, l.globals[0].kind_first), (1, w(10000.0), 3));
    let mut req = request();
    req.start = Some(t(2212, 4944, 1));
    req.goal = Some(t(3202, 3200, 0));
    req.options = RouteOptions { return_geometry: false, only_actions: true };
    let Begin::Search { job, .. } =
        begin_route(true, Some(l.world()), &req, &SETTINGS, &mut no_caches(), &mut Metrics::new())
    else {
        panic!("a search has to run")
    };
    assert!(job.ends.virtual_start);
    assert_eq!(job.virtual_start_from, req.start);
    let p = l.payload(&job.mask, job.virtual_start_from, 0);
    let (actions, _) = build_route_payload(&p, true, &[1, 2], Some(1));
    let actions = actions.unwrap();
    assert!(!actions.is_empty());
    let Action::VirtualStart { kind, to, metadata, .. } = &actions[0] else { panic!("the first action enters the map") };
    assert_eq!(kind, "npc");
    assert_eq!(*to, t(3201, 3200, 0));
    assert_eq!(metadata.get("reason").and_then(|r| r.as_str()), Some("start_coordinate_not_found"));
}

#[test]
fn what_no_means_leads_to_has_no_route() {
    let mut s = load(columns_snapshot());
    let mut req = request();
    req.start = Some(t(3200, 3200, 0));
    req.goal = Some(t(3300, 3200, 0));
    let mut m = Metrics::new();
    let b = begin_route(true, Some(s.world()), &req, &SETTINGS, &mut no_caches(), &mut m);
    assert!(matches!(b, Begin::NoRoute { .. }));
    assert_eq!(m.get(Counter::PrecheckRejects), 1);
    req.goal = Some(t(3205, 3200, 0));
    let b = begin_route(true, Some(s.world()), &req, &SETTINGS, &mut no_caches(), &mut m);
    assert!(matches!(b, Begin::Search { .. }));
    s.graph.macro_edges.clear();
    let b = begin_route(true, Some(s.world()), &req, &SETTINGS, &mut no_caches(), &mut m);
    assert!(matches!(b, Begin::NoRoute { .. }));
}

#[test]
fn refused_seeds_and_unproven_answers_are_told() {
    assert_eq!(effective_seed(Some(4), true), (None, true));
    assert_eq!(effective_seed(Some(4), false), (Some(4), false));
    assert_eq!(effective_seed(None, true), (None, false));
    let quick = |v: Json| req_has_quick_tele(&vec![RequirementKV { key: "hasQuickTele".to_string(), value: v }]);
    assert!(quick(Json::Int(1)));
    assert!(!quick(Json::Int(0)));
    let mut m = Metrics::new();
    let mut out = outcome(found(vec![0, 1], vec![0.0, 1.0]), Engine::Uni);
    out.res.status = SearchStatus::BudgetExceeded;
    let r = respond(&mut m, &Served::from_search(&out, 1), Source::Search, false);
    assert!(r.degraded.is_some() || r.reason.is_some());
    let kept = Hit::Cached(RouteCacheEntry {
        res: found(vec![3, 4], vec![0.0, 2.0]),
        virtual_entry: Some(3),
        seed_dropped: true,
    });
    assert_eq!(kept.virtual_entry(), Some(3));
    assert_eq!(Served::from_hit(&kept).engine, Engine::Cache);
}

fn report(status: SearchStatus, cost: f32, engine: Engine) -> Report {
    let mut res = found(vec![0, 1], vec![0.0, cost]);
    res.status = status;
    Report { outcome: outcome(res, engine), virtual_entry: None, search_us: 1 }
}

#[test]
fn the_first_proven_answer_of_a_race_wins() {
    let mut race = Race::begin();
    assert!(matches!(race.step(RaceEvent::HedgeDue { permit: true }), RaceAction::StartHedge));
    let first = race.step(RaceEvent::Ended(report(SearchStatus::BudgetExceeded, 5.0, Engine::Uni)));
    assert!(matches!(first, RaceAction::Wait));
    match race.step(RaceEvent::Ended(report(SearchStatus::Found, 7.0, Engine::Bidir))) {
        RaceAction::Serve { report, counter } => {
            assert_eq!(report.outcome.res.cost, w(7.0));
            assert_eq!(counter, Some(Counter::RaceWinsBidir));
        }
        other => panic!("not served: {other:?}"),
    }

    let mut both = Race::begin();
    let _ = both.step(RaceEvent::HedgeDue { permit: true });
    let _ = both.step(RaceEvent::Ended(report(SearchStatus::BudgetExceeded, 5.0, Engine::Uni)));
    match both.step(RaceEvent::Ended(report(SearchStatus::BudgetExceeded, 3.0, Engine::Bidir))) {
        RaceAction::ServeTruncated(r) => assert_eq!(r.outcome.res.cost, w(3.0)),
        other => panic!("not served: {other:?}"),
    }

    let mut dead = Race::begin();
    let _ = dead.step(RaceEvent::HedgeDue { permit: false });
    assert!(matches!(dead.step(RaceEvent::Died), RaceAction::Fail));
}

#[test]
fn engines_are_chosen_by_settings_and_bounds() {
    assert_eq!(race_primary(Some(" uni ")), RacePrimary::Uni);
    assert_eq!(race_primary(Some("jps")), RacePrimary::Uni);
    assert_eq!(race_primary(Some("bidir")), RacePrimary::Bidir);
    assert_eq!(race_primary(Some("other")), RacePrimary::Auto);
    assert!(primary_is_uni(RacePrimary::Auto, None, true, true));
    assert!(!primary_is_uni(RacePrimary::Auto, Some(1), true, true));
    let near = RaceHint { h_start: w(100.0), h_teleport: w(f32::INFINITY), blind: false };
    let far = RaceHint { h_start: w(25_000.0), h_teleport: w(f32::INFINITY), blind: false };
    let tele = RaceHint { h_start: w(100.0), h_teleport: w(50.0), blind: true };
    assert!(!near.worth_racing(false) && far.worth_racing(false) && tele.worth_racing(false));
    assert!(!far.worth_racing(true) && tele.worth_racing(true));
    assert!(tele.teleport_dominated() && !far.teleport_dominated());
    let p = plan_search(true, true, false, &near);
    assert!(!p.race && p.gated);
    assert_eq!(p.primary, EngineChoice::Bidir);
    assert!(plan_search(true, false, false, &near).race);
    assert_eq!(plan_search(false, true, true, &far).primary, EngineChoice::Policy);
}
