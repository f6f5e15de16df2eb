//! How a snapshot is warmed, kept warm and replaced, and what a service says of itself.

use crate::json::Json;
use crate::route::race::RacePrimary;
use crate::snapshot::manifest::SnapshotCounts;
use crate::snapshot::reader::Snapshot;
use crate::text::same;
use vstd::prelude::*;
#[allow(unused_imports)]
use crate::engine::budget::text_view;
#[allow(unused_imports)]
use crate::json::JsonV;
#[allow(unused_imports)]
use crate::snapshot::manifest::{coord_in_range, coord_key};

verus! {

/// How much of a snapshot is locked in memory.
#[derive(Debug, Clone, Copy, PartialEq, Eq, Structural)]
pub enum WarmState {
    Unlocked,
    /// All but the distance tables.
    LockedHead,
    LockedAll,
}

impl WarmState {
    pub open spec fn number(self) -> u8 {
        match self {
            WarmState::Unlocked => 0,
            WarmState::LockedHead => 1,
            WarmState::LockedAll => 2,
        }
    }

    pub fn code(&self) -> (r: u8)
        ensures
            r == self.number(),
    {
        match self {
            WarmState::Unlocked => 0,
            WarmState::LockedHead => 1,
            WarmState::LockedAll => 2,
        }
    }

    /// The state of a number; a number that stands for none means that nothing is locked.
    pub fn from_code(n: u8) -> (r: WarmState)
        ensures
            r == (if n == 1 {
                WarmState::LockedHead
            } else if n == 2 {
                WarmState::LockedAll
            } else {
                WarmState::Unlocked
            }),
    {
        if n == 1 {
            WarmState::LockedHead
        } else if n == 2 {
            WarmState::LockedAll
        } else {
            WarmState::Unlocked
        }
    }
}

/// What is done next to warm a snapshot.
#[derive(Debug, Clone, Copy, PartialEq, Eq, Structural)]
pub enum WarmStep {
    LockAll,
    LockHead,
    /// Page in all of it, or only the distance tables.
    PopulateAll,
    PopulateTables,
    Done(WarmState),
}

/// How warming starts: with locking where that is asked for, else with paging in where that is
/// not switched off.
pub fn begin_warming(populate: bool, mlock: bool) -> (r: WarmStep)
    ensures
        r == (if mlock {
            WarmStep::LockAll
        } else if populate {
            WarmStep::PopulateAll
        } else {
            WarmStep::Done(WarmState::Unlocked)
        }),
{
    if mlock {
        WarmStep::LockAll
    } else if populate {
        WarmStep::PopulateAll
    } else {
        WarmStep::Done(WarmState::Unlocked)
    }
}

/// What follows a step that went well or not.
pub open spec fn warmed(step: WarmStep, ok: bool, populate: bool) -> WarmStep {
    match step {
        WarmStep::LockAll => if ok { WarmStep::Done(WarmState::LockedAll) } else { WarmStep::LockHead },
        WarmStep::LockHead => if ok && populate {
            WarmStep::PopulateTables
        } else if ok {
            WarmStep::Done(WarmState::LockedHead)
        } else if populate {
            WarmStep::PopulateAll
        } else {
            WarmStep::Done(WarmState::Unlocked)
        },
        WarmStep::PopulateTables => WarmStep::Done(WarmState::LockedHead),
        WarmStep::PopulateAll => WarmStep::Done(WarmState::Unlocked),
        WarmStep::Done(s) => WarmStep::Done(s),
    }
}

/// What follows a step. What cannot be locked as a whole is locked without its tables if that
/// works, and what is not locked is paged in.
pub fn continue_warming(step: WarmStep, ok: bool, populate: bool) -> (r: WarmStep)
    ensures
        r == warmed(step, ok, populate),
{
    match step {
        WarmStep::LockAll => if ok {
            WarmStep::Done(WarmState::LockedAll)
        } else {
            WarmStep::LockHead
        },
        WarmStep::LockHead => if ok && populate {
            WarmStep::PopulateTables
        } else if ok {
            WarmStep::Done(WarmState::LockedHead)
        } else if populate {
            WarmStep::PopulateAll
        } else {
            WarmStep::Done(WarmState::Unlocked)
        },
        WarmStep::PopulateTables => WarmStep::Done(WarmState::LockedHead),
        WarmStep::PopulateAll => WarmStep::Done(WarmState::Unlocked),
        WarmStep::Done(s) => WarmStep::Done(s),
    }
}

/// Warming is done after three steps at most, whatever they come to.
pub proof fn law_warming_ends(populate: bool, mlock: bool, a: bool, b: bool, c: bool)
    ensures
        ({
            let first = if mlock {
                WarmStep::LockAll
            } else if populate {
                WarmStep::PopulateAll
            } else {
                WarmStep::Done(WarmState::Unlocked)
            };
            warmed(warmed(warmed(first, a, populate), b, populate), c, populate) is Done
        }),
{
}

/// What is paged in again from time to time: what is not locked.
pub fn keep_warm_step(state: WarmState) -> (r: Option<WarmStep>)
    ensures
        r == match state {
            WarmState::LockedAll => None,
            WarmState::LockedHead => Some(WarmStep::PopulateTables),
            WarmState::Unlocked => Some(WarmStep::PopulateAll),
        },
{
    match state {
        WarmState::LockedAll => None,
        WarmState::LockedHead => Some(WarmStep::PopulateTables),
        WarmState::Unlocked => Some(WarmStep::PopulateAll),
    }
}

/// Whether the snapshot that serves is kept when a reload is asked for: where the reload is not
/// forced, a snapshot serves, and the file has the hash of that snapshot.
pub fn reload_unchanged(force: bool, serving: bool, disk: Option<&str>, hash: Option<&str>) -> (r: bool)
    ensures
        r == (!force && serving && disk is Some && text_view(disk) == text_view(hash)),
{
    if force || !serving {
        return false;
    }
    match (disk, hash) {
        (Some(d), Some(h)) => same(d, h),
        _ => false,
    }
}

/// A text, or null.
pub open spec fn text_or_null(t: Option<&str>) -> JsonV {
    match t {
        Some(s) => JsonV::Str(s@),
        None => JsonV::Null,
    }
}

fn text_json(t: Option<&str>) -> (r: Json)
    ensures
        r@ == text_or_null(t),
{
    match t {
        Some(s) => Json::text(s),
        None => Json::Null,
    }
}

fn count_json(n: u64) -> (r: Json)
    ensures
        r@ == JsonV::Num(n as int),
{
    Json::UInt(n)
}

/// The answer to a reload.
pub fn reload_json(reloaded: bool, hash: Option<&str>, loaded_at: u64) -> (r: Json)
    ensures
        r@ == JsonV::Obj(
            (if reloaded {
                Map::<Seq<char>, JsonV>::empty()
            } else {
                Map::<Seq<char>, JsonV>::empty().insert("unchanged"@, JsonV::Bool(true))
            }).insert("reloaded"@, JsonV::Bool(reloaded)).insert("snapshot_hash"@, text_or_null(hash)).insert(
                "loaded_at"@,
                JsonV::Num(loaded_at as int),
            ),
        ),
{
    let base: Json = if reloaded {
        Json::object()
    } else {
        Json::object().with("unchanged", Json::Bool(true))
    };
    base.with("reloaded", Json::Bool(reloaded)).with("snapshot_hash", text_json(hash)).with("loaded_at", count_json(loaded_at))
}

pub open spec fn counts_json(c: SnapshotCounts) -> JsonV {
    JsonV::Obj(
        Map::<Seq<char>, JsonV>::empty().insert("nodes"@, JsonV::Num(c.nodes as int)).insert(
            "walk_edges"@,
            JsonV::Num(c.walk_edges as int),
        ).insert("macro_edges"@, JsonV::Num(c.macro_edges as int)).insert("req_tags"@, JsonV::Num(c.req_tags as int)).insert(
            "landmarks"@,
            JsonV::Num(c.landmarks as int),
        ),
    )
}

/// What a service says of its health: with 200 once it is ready, with 503 before.
pub fn health(ready: bool, hash: Option<&str>, loaded_at: u64, version: Option<u32>, counts: Option<SnapshotCounts>) -> (r: (
    u16,
    Json,
))
    ensures
        r.0 == (if ready { 200u16 } else { 503u16 }),
        r.1@ == JsonV::Obj(
            Map::<Seq<char>, JsonV>::empty().insert("ready"@, JsonV::Bool(ready)).insert(
                "version"@,
                JsonV::Num(
                    match version {
                        Some(v) => v as int,
                        None => 0,
                    },
                ),
            ).insert("snapshot_hash"@, text_or_null(hash)).insert("loaded_at"@, JsonV::Num(loaded_at as int)).insert(
                "counts"@,
                match counts {
                    Some(c) => counts_json(c),
                    None => JsonV::Null,
                },
            ),
        ),
{
    let version: u32 = match version {
        Some(v) => v,
        None => 0,
    };
    let numbers: Json = match counts {
        Some(c) => Json::object().with("nodes", count_json(c.nodes as u64)).with("walk_edges", count_json(c.walk_edges as u64)).with(
            "macro_edges",
            count_json(c.macro_edges as u64),
        ).with("req_tags", count_json(c.req_tags as u64)).with("landmarks", count_json(c.landmarks as u64)),
        None => Json::Null,
    };
    let body: Json = Json::object().with("ready", Json::Bool(ready)).with("version", count_json(version as u64)).with(
        "snapshot_hash",
        text_json(hash),
    ).with("loaded_at", count_json(loaded_at)).with("counts", numbers);
    (
        if ready {
            200
        } else {
            503
        },
        body,
    )
}

/// What a service counts beside its searches.
pub struct StatsInput<'a> {
    /// The entries and the capacity of the route cache, where there is one.
    pub route_cache: Option<(usize, usize)>,
    pub ignore_seed: bool,
    pub subpaths: bool,
    pub paths_per_profile: usize,
    pub seeding_disabled: bool,
    pub race_enabled: bool,
    pub primary: RacePrimary,
    /// The delay of the second engine in milliseconds.
    pub hedge_ms: &'a Json,
    pub gate: bool,
    pub permits_total: usize,
    pub permits_available: usize,
    pub idle: usize,
    pub fresh_allocations: u64,
    pub ready: bool,
}

pub open spec fn cache_json(c: Option<(usize, usize)>, ignore_seed: bool) -> JsonV {
    JsonV::Obj(
        Map::<Seq<char>, JsonV>::empty().insert("enabled"@, JsonV::Bool(c is Some)).insert(
            "entries"@,
            JsonV::Num(
                match c {
                    Some(n) => n.0 as int,
                    None => 0,
                },
            ),
        ).insert(
            "capacity"@,
            JsonV::Num(
                match c {
                    Some(n) => n.1 as int,
                    None => 0,
                },
            ),
        ).insert("ignore_seed"@, JsonV::Bool(ignore_seed)),
    )
}

pub open spec fn pair_json(a: Seq<char>, x: JsonV, b: Seq<char>, y: JsonV) -> JsonV {
    JsonV::Obj(Map::<Seq<char>, JsonV>::empty().insert(a, x).insert(b, y))
}

/// The counters of a service with everything else that it says of itself.
pub open spec fn stats_json(counters: Map<Seq<char>, JsonV>, s: StatsInput) -> Map<Seq<char>, JsonV> {
    counters.insert("route_cache"@, cache_json(s.route_cache, s.ignore_seed)).insert(
        "subpath_cache"@,
        pair_json("enabled"@, JsonV::Bool(s.subpaths), "paths_per_profile"@, JsonV::Num(s.paths_per_profile as int)),
    ).insert("seeding_disabled"@, JsonV::Bool(s.seeding_disabled)).insert("race_enabled"@, JsonV::Bool(s.race_enabled)).insert(
        "race"@,
        JsonV::Obj(
            Map::<Seq<char>, JsonV>::empty().insert("primary"@, JsonV::Str(s.primary.label())).insert(
                "hedge_ms"@,
                s.hedge_ms@,
            ).insert("gate"@, JsonV::Bool(s.gate)),
        ),
    ).insert(
        "search_permits"@,
        pair_json("total"@, JsonV::Num(s.permits_total as int), "available"@, JsonV::Num(s.permits_available as int)),
    ).insert(
        "ctx_pool"@,
        pair_json("idle"@, JsonV::Num(s.idle as int), "fresh_allocations"@, JsonV::Num(s.fresh_allocations as int)),
    ).insert("ready"@, JsonV::Bool(s.ready))
}

pub fn stats(counters: Json, s: &StatsInput) -> (r: Json)
    requires
        counters@ is Obj,
    ensures
        r@ == JsonV::Obj(stats_json(counters@->Obj_0, *s)),
{
    let (entries, capacity): (usize, usize) = match s.route_cache {
        Some(n) => n,
        None => (0, 0),
    };
    let cache: Json = Json::object().with("enabled", Json::Bool(s.route_cache.is_some())).with(
        "entries",
        count_json(entries as u64),
    ).with("capacity", count_json(capacity as u64)).with("ignore_seed", Json::Bool(s.ignore_seed));
    let parts: Json = Json::object().with("enabled", Json::Bool(s.subpaths)).with(
        "paths_per_profile",
        count_json(s.paths_per_profile as u64),
    );
    let race: Json = Json::object().with("primary", Json::text(s.primary.as_str())).with("hedge_ms", s.hedge_ms.copy()).with(
        "gate",
        Json::Bool(s.gate),
    );
    let permits: Json = Json::object().with("total", count_json(s.permits_total as u64)).with(
        "available",
        count_json(s.permits_available as u64),
    );
    let pool: Json = Json::object().with("idle", count_json(s.idle as u64)).with(
        "fresh_allocations",
        count_json(s.fresh_allocations),
    );
    counters.with("route_cache", cache).with("subpath_cache", parts).with(
        "seeding_disabled",
        Json::Bool(s.seeding_disabled),
    ).with("race_enabled", Json::Bool(s.race_enabled)).with("race", race).with("search_permits", permits).with(
        "ctx_pool",
        pool,
    ).with("ready", Json::Bool(s.ready))
}

/// Whether the node of a tile is the given one; `None` where the tile has none.
pub open spec fn is_node_of(snap: Snapshot, x: int, y: int, plane: int, node: Option<u32>) -> bool {
    match node {
        Some(id) => coord_in_range(x, y, plane) && id < snap.keys().len() && snap.keys()[id as int] == coord_key(x, y, plane),
        None => !coord_in_range(x, y, plane) || forall|id: int|
            0 <= id < snap.keys().len() ==> #[trigger] snap.keys()[id] != coord_key(x, y, plane),
    }
}

/// Whether there is a tile, and its node where there is one.
pub fn tile_exists(snap: &Snapshot, x: i32, y: i32, plane: i32) -> (r: Json)
    requires
        snap.wf(),
    ensures
        exists|node: Option<u32>| #[trigger]
            is_node_of(*snap, x as int, y as int, plane as int, node) && r@ == JsonV::Obj(
                match node {
                    Some(id) => Map::<Seq<char>, JsonV>::empty().insert("exists"@, JsonV::Bool(true)).insert(
                        "node_id"@,
                        JsonV::Num(id as int),
                    ),
                    None => Map::<Seq<char>, JsonV>::empty().insert("exists"@, JsonV::Bool(false)),
                },
            ),
{
    let node: Option<u32> = snap.find_node(x, y, plane);
    assert(is_node_of(*snap, x as int, y as int, plane as int, node));
    match node {
        Some(id) => Json::object().with("exists", Json::Bool(true)).with("node_id", count_json(id as u64)),
        None => Json::object().with("exists", Json::Bool(false)),
    }
}

/// The state after warming: all is locked where that went well; else the head, where that did; else
/// nothing. What is not locked is paged in where that is asked for.
pub proof fn law_warming(populate: bool, b: bool)
    ensures
        warmed(WarmStep::LockAll, true, populate) == WarmStep::Done(WarmState::LockedAll),
        warmed(WarmStep::LockAll, false, populate) == WarmStep::LockHead,
        warmed(WarmStep::LockHead, true, true) == WarmStep::PopulateTables,
        warmed(WarmStep::LockHead, true, false) == WarmStep::Done(WarmState::LockedHead),
        warmed(WarmStep::LockHead, false, true) == WarmStep::PopulateAll,
        warmed(WarmStep::LockHead, false, false) == WarmStep::Done(WarmState::Unlocked),
        warmed(WarmStep::PopulateTables, b, populate) == WarmStep::Done(WarmState::LockedHead),
        warmed(WarmStep::PopulateAll, b, populate) == WarmStep::Done(WarmState::Unlocked),
{
}

}
