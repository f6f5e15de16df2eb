use navpath::json::Json;
use navpath::models::{ActionStep, NodeRef, Rect, Tile};
use navpath::service::lifecycle::{
    begin_warming, continue_warming, health, keep_warm_step, reload_json, reload_unchanged, stats, StatsInput, WarmState,
    WarmStep,
};
use navpath::service::metrics::{Counter, Metrics};
use navpath::service::serialization::{
    door_action, ifslot_action, item_action, lodestone_action, move_action, npc_action, object_action, serialize_path, Bounds,
};
use navpath::service::settings::{
    choose_db, cli_flags, keep_warm_interval, number_setting, port_setting, reload_forced, result_dump_path, route_deadline,
    runtime_size, size_setting, Config, ConfigValues,
};
use navpath::route::race::RacePrimary;
use navpath::snapshot::manifest::SnapshotCounts;

fn tile(x: i32, y: i32, plane: i32) -> Tile {
    Tile { x, y, plane }
}

fn at<'a>(v: &'a Json, path: &[&str]) -> &'a Json {
    path.iter().fold(v, |v, k| v.get(k).unwrap_or_else(|| panic!("no member {k}")))
}

fn ints(v: &Json) -> Vec<i64> {
    v.as_array().expect("a list").iter().map(|n| n.as_i64().expect("an integer")).collect()
}

#[test]
fn serialize_path_as_array_of_int_triplets() {
    let path = vec![tile(1, 2, 3), tile(4, 5, 6)];
    let arr = serialize_path(&path);
    assert_eq!(arr, vec![[1, 2, 3], [4, 5, 6]]);
}

#[test]
fn move_action_shape_matches() {
    let from = tile(3067, 3505, 0);
    let to = tile(3068, 3505, 0);
    let v = move_action(from, to, 200);
    assert_eq!(v.get("type").and_then(|x| x.as_str()), Some("move"));
    assert_eq!(ints(at(&v, &["from", "min"])), vec![3067, 3505, 0]);
    assert_eq!(ints(at(&v, &["to", "min"])), vec![3068, 3505, 0]);
    assert_eq!(at(&v, &["cost_ms"]).as_i64(), Some(200));
}

#[test]
fn lodestone_action_shape_matches_sample() {
    let from = tile(2900, 3537, 0);
    let to = tile(3067, 3505, 0);
    let v = lodestone_action(from, to, 17000, 13, "EDGEVILLE", "EDGEVILLE", Some(8));

    assert_eq!(v.get("type").and_then(|x| x.as_str()), Some("lodestone"));
    assert_eq!(ints(at(&v, &["from", "min"])), vec![2900, 3537, 0]);
    assert_eq!(ints(at(&v, &["from", "max"])), vec![2900, 3537, 0]);
    assert_eq!(ints(at(&v, &["to", "min"])), vec![3067, 3505, 0]);
    assert_eq!(ints(at(&v, &["to", "max"])), vec![3067, 3505, 0]);
    assert_eq!(at(&v, &["cost_ms"]).as_i64(), Some(17000));
    assert_eq!(at(&v, &["node", "type"]).as_str(), Some("lodestone"));
    assert_eq!(at(&v, &["node", "id"]).as_i64(), Some(13));
    let db_row = at(&v, &["metadata", "db_row"]);
    assert_eq!(at(db_row, &["id"]).as_i64(), Some(13));
    assert_eq!(at(db_row, &["lodestone"]).as_str(), Some("EDGEVILLE"));
    assert_eq!(ints(at(db_row, &["dest"])), vec![3067, 3505, 0]);
    assert_eq!(at(db_row, &["cost"]).as_i64(), Some(17000));
    assert!(matches!(at(db_row, &["next_node_type"]), Json::Null));
    assert!(matches!(at(db_row, &["next_node_id"]), Json::Null));
    assert_eq!(at(db_row, &["requirement_id"]).as_i64(), Some(8));
}

#[test]
fn actions_are_named_by_their_kind() {
    let (a, b) = (tile(1, 2, 0), tile(3, 4, 1));
    for (v, kind) in [
        (door_action(a, b, 5), "door"),
        (npc_action(a, b, 5), "npc"),
        (object_action(a, b, 5), "object"),
        (item_action(a, b, 5), "item"),
        (ifslot_action(a, b, 5), "ifslot"),
    ] {
        assert_eq!(at(&v, &["type"]).as_str(), Some(kind));
        assert_eq!(ints(at(&v, &["to", "max"])), vec![3, 4, 1]);
    }
    let r = Bounds::from_min_max_plane(1, 5, 2, 6, 3);
    assert_eq!((r.min, r.max), ([1, 2, 3], [5, 6, 3]));
    assert_eq!(Bounds::from_tile(b).max, [3, 4, 1]);
}

fn rect(x1: i32, y1: i32, p1: i32, x2: i32, y2: i32, p2: i32) -> Rect {
    Rect { min: tile(x1, y1, p1), max: tile(x2, y2, p2) }
}

#[test]
fn node_ref_serializes_with_type_and_id() {
    let n = NodeRef { type_: "door".to_string(), id: 123 };
    let v = n.to_json();
    assert_eq!(at(&v, &["type"]).as_str(), Some("door"));
    assert_eq!(at(&v, &["id"]).as_i64(), Some(123));
}

#[test]
fn action_step_omits_empty_metadata() {
    let step = |metadata: Option<Json>| ActionStep {
        type_: "move".to_string(),
        from_rect: rect(1, 2, 0, 1, 2, 0),
        to_rect: rect(2, 2, 0, 2, 2, 0),
        cost_ms: 600,
        node: None,
        metadata,
    };
    let v = step(Some(Json::object())).to_json();
    assert!(v.get("metadata").is_none(), "empty metadata should be omitted");
    assert!(v.get("node").is_none());
    let v2 = step(None).to_json();
    assert!(v2.get("metadata").is_none());
    let v3 = step(Some(Json::object().with("db_row", Json::object().with("k", Json::Int(1))))).to_json();
    assert!(v3.get("metadata").is_some());
    assert_eq!(ints(at(&v3, &["to", "min"])), vec![2, 2, 0]);
}

#[test]
fn counters_count_and_buckets_fill() {
    let mut m = Metrics::new();
    m.count(Counter::Requests);
    m.count(Counter::Requests);
    m.count(Counter::CacheHits);
    m.record_pops(1);
    m.record_search_ms(3);
    m.record_search_us(10, 5);
    assert_eq!(m.get(Counter::Requests), 2);
    assert_eq!(m.get(Counter::CachePuts), 0);
    let v = m.snapshot_json();
    assert_eq!(at(&v, &["requests"]).as_u64(), Some(2));
    assert_eq!(at(&v, &["cache_hits"]).as_u64(), Some(1));
    let s = stats(
        v,
        &StatsInput {
            route_cache: Some((3, 2048)),
            ignore_seed: true,
            subpaths: false,
            paths_per_profile: 0,
            seeding_disabled: false,
            race_enabled: true,
            primary: RacePrimary::Auto,
            hedge_ms: &Json::Int(3),
            gate: true,
            permits_total: 8,
            permits_available: 7,
            idle: 2,
            fresh_allocations: 1,
            ready: true,
        },
    );
    assert_eq!(at(&s, &["requests"]).as_u64(), Some(2));
    assert_eq!(at(&s, &["route_cache", "entries"]).as_u64(), Some(3));
    assert_eq!(at(&s, &["race", "primary"]).as_str(), Some("auto"));
    assert_eq!(at(&s, &["search_permits", "available"]).as_u64(), Some(7));
    assert_eq!(at(&s, &["ctx_pool", "fresh_allocations"]).as_u64(), Some(1));
}

#[test]
fn settings_are_trimmed_and_read_as_numbers() {
    assert_eq!(number_setting(Some(" 42 ")), Some(42));
    assert_eq!(number_setting(Some("+7")), Some(7));
    assert_eq!(number_setting(Some("-7")), None);
    assert_eq!(number_setting(Some("18446744073709551615")), Some(u64::MAX));
    assert_eq!(number_setting(Some("18446744073709551616")), None);
    assert_eq!(number_setting(Some("x")), None);
    assert_eq!(number_setting(None), None);
    assert_eq!(size_setting(Some("12")), Some(12));
    assert_eq!(route_deadline(None), 10_000);
    assert_eq!(route_deadline(Some("0")), 86_400_000);
    assert_eq!(route_deadline(Some("250")), 250);
    assert_eq!(keep_warm_interval(None), Some(60));
    assert_eq!(keep_warm_interval(Some("0")), None);
    assert_eq!(keep_warm_interval(Some("5")), Some(5));
    assert_eq!(result_dump_path(Some("  ")), None);
    assert_eq!(result_dump_path(Some(" a ")), Some(" a "));
    assert_eq!(port_setting(Some("9000")), 9000);
    assert_eq!(port_setting(Some("70000")), 8080);
    assert_eq!(port_setting(None), 8080);
    assert!(reload_forced(Some("1")) && !reload_forced(None) && !reload_forced(Some("no")));
    let size = runtime_size(None, Some("0"), Some("9"), Some(2), 10);
    assert_eq!((size.workers, size.keep_alive_s), (2, 9));
    assert_eq!(runtime_size(Some("6"), None, None, None, 10).workers, 6);
}

#[test]
fn arguments_and_surroundings_configure_a_service() {
    let args = |a: &[&str]| a.iter().map(|s| s.to_string()).collect::<Vec<String>>();
    let f = cli_flags(&args(&["--no-seed", "--dump-result", "out.json"]));
    assert!(f.no_seed);
    assert_eq!(f.dump_result.as_deref(), Some("out.json"));
    let f = cli_flags(&args(&["--dump-result=a", "--dump-result=b", "--other"]));
    assert!(!f.no_seed);
    assert_eq!(f.dump_result.as_deref(), Some("b"));
    let none = ConfigValues { host: None, port: None, db_path: None, move_cost_ms: None, debug_result_path: None };
    let c = Config::from_env(&none);
    assert_eq!((c.host.as_str(), c.port, c.move_cost_ms), ("127.0.0.1", 8080, Some(600)));
    let some = ConfigValues {
        host: Some("0.0.0.0"),
        port: Some("99"),
        db_path: Some("x.db"),
        move_cost_ms: Some("250"),
        debug_result_path: Some("r"),
    };
    let c = Config::from_env(&some);
    assert_eq!((c.host.as_str(), c.port, c.move_cost_ms), ("0.0.0.0", 99, Some(250)));
    assert_eq!(c.db_path.as_deref(), Some("x.db"));
    assert_eq!(choose_db(Some("a"), Some("b")), Ok("a"));
    assert_eq!(choose_db(None, Some("b")), Ok("b"));
    assert_eq!(choose_db(None, None), Err("no db_path provided and NAVPATH_DB not set".to_string()));
}

#[test]
fn warming_locks_or_pages_in_and_ends() {
    assert_eq!(begin_warming(false, false), WarmStep::Done(WarmState::Unlocked));
    assert_eq!(begin_warming(true, false), WarmStep::PopulateAll);
    assert_eq!(begin_warming(true, true), WarmStep::LockAll);
    assert_eq!(continue_warming(WarmStep::LockAll, true, true), WarmStep::Done(WarmState::LockedAll));
    assert_eq!(continue_warming(WarmStep::LockAll, false, true), WarmStep::LockHead);
    assert_eq!(continue_warming(WarmStep::LockHead, true, true), WarmStep::PopulateTables);
    assert_eq!(continue_warming(WarmStep::LockHead, true, false), WarmStep::Done(WarmState::LockedHead));
    assert_eq!(continue_warming(WarmStep::LockHead, false, true), WarmStep::PopulateAll);
    assert_eq!(keep_warm_step(WarmState::LockedAll), None);
    assert_eq!(keep_warm_step(WarmState::LockedHead), Some(WarmStep::PopulateTables));
    assert_eq!(keep_warm_step(WarmState::Unlocked), Some(WarmStep::PopulateAll));
    for s in [WarmState::Unlocked, WarmState::LockedHead, WarmState::LockedAll] {
        assert_eq!(WarmState::from_code(s.code()), s);
    }
}

#[test]
fn health_and_reloads_are_told() {
    assert!(reload_unchanged(false, true, Some("ab"), Some("ab")));
    assert!(!reload_unchanged(true, true, Some("ab"), Some("ab")));
    assert!(!reload_unchanged(false, false, Some("ab"), Some("ab")));
    assert!(!reload_unchanged(false, true, None, None));
    assert!(!reload_unchanged(false, true, Some("ab"), Some("ac")));
    let v = reload_json(true, Some("ab"), 5);
    assert!(v.get("unchanged").is_none());
    assert_eq!(at(&v, &["reloaded"]).as_bool(), Some(true));
    assert_eq!(at(&reload_json(false, None, 5), &["unchanged"]).as_bool(), Some(true));
    let counts = SnapshotCounts {
        nodes: 3,
        walk_edges: 4,
        macro_edges: 2,
        req_tags: 0,
        landmarks: 0,
        fairy_rings: 0,
        walk_components: 1,
    };
    let (status, v) = health(true, Some("ab"), 123, Some(8), Some(counts));
    assert_eq!(status, 200);
    assert_eq!(at(&v, &["version"]).as_i64(), Some(8));
    assert_eq!(at(&v, &["counts", "nodes"]).as_i64(), Some(3));
    let (status, v) = health(false, None, 0, None, None);
    assert_eq!(status, 503);
    assert_eq!(at(&v, &["version"]).as_i64(), Some(0));
    assert!(matches!(at(&v, &["counts"]), Json::Null));
}
