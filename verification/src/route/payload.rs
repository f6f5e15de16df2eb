//! A path told as actions: what the character does at each step, and with which means.

use crate::engine::eligibility::EligibilityMask;
use crate::engine::fx_map::FxIndex;
use crate::engine::macros::{FairyRing, GlobalTeleport, MacroLookup};
use crate::engine::millis::Millis;
use crate::engine::profile::{cost_of_global, LODESTONE, QUICK_TELE_COST};
use crate::engine::weight::Weight;
use crate::json::Json;
use crate::models::Tile;
use crate::route::abilities::{tell_route, DiveConfig, Step, SurgeConfig, Told};
use crate::snapshot::reader::{Snapshot, WalkStep};
use crate::text::{owned, same};
use vstd::prelude::*;
#[allow(unused_imports)]
use crate::engine::eligibility::all_hold;
#[allow(unused_imports)]
use crate::engine::fx_map::entry;
#[allow(unused_imports)]
use crate::engine::macros::{edges_between, list_at, macro_blob_placed, meta_doc, text_at};
#[allow(unused_imports)]
use crate::engine::profile::global_cost;
#[allow(unused_imports)]
use crate::json::{array_view, lemma_array_view, member, JsonV};
#[allow(unused_imports)]
use crate::route::abilities::{accounted, begin, law_route_is_told_in_full, tell, told_truly, true_telling, Gear};
#[allow(unused_imports)]
use crate::snapshot::manifest::key_coord;
#[allow(unused_imports)]
use crate::snapshot::reader::bit_set;

verus! {

/// One thing the character does.
#[derive(Debug)]
pub enum Action {
    /// Walks to the next tile.
    Move { to: Tile, cost_ms: u32 },
    /// Surges or dives over a run of tiles.
    Ability { surge: bool, from: Tile, to: Tile, tiles_covered: usize },
    /// Uses a macro edge.
    Macro { kind: &'static str, from: Tile, to: Tile, cost: Weight, id: u32, metadata: Json },
    /// Uses a global teleport.
    Global { kind: String, from: Tile, to: Tile, cost: Weight, metadata: Json },
    /// Uses a fairy ring.
    Fairy { from: Tile, object_id: u64, to: Tile, code: String, cost: Weight, metadata: Json },
    /// Gets there in a way that is not known.
    Teleport { from: Tile, to: Tile },
    /// Enters the map from a start that is not on it; without a cost it is free.
    VirtualStart { kind: String, from: Tile, to: Tile, cost: Option<Weight>, metadata: Json },
}

/// What an action holds.
pub enum ActionV {
    Move { to: Tile, cost_ms: u32 },
    Ability { surge: bool, from: Tile, to: Tile, tiles_covered: usize },
    Macro { kind: Seq<char>, from: Tile, to: Tile, cost: Weight, id: u32, metadata: JsonV },
    Global { kind: Seq<char>, from: Tile, to: Tile, cost: Weight, metadata: JsonV },
    Fairy { from: Tile, object_id: u64, to: Tile, code: Seq<char>, cost: Weight, metadata: JsonV },
    Teleport { from: Tile, to: Tile },
    VirtualStart { kind: Seq<char>, from: Tile, to: Tile, cost: Option<Weight>, metadata: JsonV },
}

impl View for Action {
    type V = ActionV;

    open spec fn view(&self) -> ActionV {
        match *self {
            Action::Move { to, cost_ms } => ActionV::Move { to, cost_ms },
            Action::Ability { surge, from, to, tiles_covered } => ActionV::Ability { surge, from, to, tiles_covered },
            Action::Macro { kind, from, to, cost, id, metadata } => ActionV::Macro {
                kind: kind@,
                from,
                to,
                cost,
                id,
                metadata: metadata@,
            },
            Action::Global { kind, from, to, cost, metadata } => ActionV::Global {
                kind: kind@,
                from,
                to,
                cost,
                metadata: metadata@,
            },
            Action::Fairy { from, object_id, to, code, cost, metadata } => ActionV::Fairy {
                from,
                object_id,
                to,
                code: code@,
                cost,
                metadata: metadata@,
            },
            Action::Teleport { from, to } => ActionV::Teleport { from, to },
            Action::VirtualStart { kind, from, to, cost, metadata } => ActionV::VirtualStart {
                kind: kind@,
                from,
                to,
                cost,
                metadata: metadata@,
            },
        }
    }
}

impl ActionV {
    /// Where the action leads.
    pub open spec fn end(self) -> Tile {
        match self {
            ActionV::Move { to, .. } => to,
            ActionV::Ability { to, .. } => to,
            ActionV::Macro { to, .. } => to,
            ActionV::Global { to, .. } => to,
            ActionV::Fairy { to, .. } => to,
            ActionV::Teleport { to, .. } => to,
            ActionV::VirtualStart { to, .. } => to,
        }
    }

    /// How long the action takes.
    pub open spec fn time(self) -> Millis {
        match self {
            ActionV::Move { cost_ms, .. } => Millis::whole(cost_ms as int),
            ActionV::Ability { .. } => Millis { bits: 0 },
            ActionV::Macro { cost, .. } => Millis::of_weight(cost),
            ActionV::Global { cost, .. } => Millis::of_weight(cost),
            ActionV::Fairy { cost, .. } => Millis::of_weight(cost),
            ActionV::Teleport { .. } => Millis { bits: 0 },
            ActionV::VirtualStart { cost, .. } => match cost {
                Some(c) => Millis::of_weight(c),
                None => Millis { bits: 0 },
            },
        }
    }

    /// The action as a step of a route.
    pub open spec fn step(self) -> Step {
        Step { to: self.end(), cost: self.time(), walk: self is Move }
    }
}

impl Action {
    /// Where the action leads.
    pub fn to_coords(&self) -> (r: Tile)
        ensures
            r == self@.end(),
    {
        match self {
            Action::Move { to, .. } => *to,
            Action::Ability { to, .. } => *to,
            Action::Macro { to, .. } => *to,
            Action::Global { to, .. } => *to,
            Action::Fairy { to, .. } => *to,
            Action::Teleport { to, .. } => *to,
            Action::VirtualStart { to, .. } => *to,
        }
    }

    /// How long the action takes.
    pub fn cost_ms(&self) -> (r: Millis)
        ensures
            r == self@.time(),
    {
        match self {
            Action::Move { cost_ms, .. } => Millis::from_unsigned(*cost_ms as u64),
            Action::Ability { .. } => Millis { bits: 0 },
            Action::Macro { cost, .. } => Millis::from_weight(cost),
            Action::Global { cost, .. } => Millis::from_weight(cost),
            Action::Fairy { cost, .. } => Millis::from_weight(cost),
            Action::Teleport { .. } => Millis { bits: 0 },
            Action::VirtualStart { cost, .. } => match cost {
                Some(c) => Millis::from_weight(c),
                None => Millis { bits: 0 },
            },
        }
    }
}

/// What a list of actions holds.
pub open spec fn actions_view(s: Seq<Action>) -> Seq<ActionV> {
    Seq::new(s.len(), |i: int| s[i]@)
}

/// The actions as steps of a route.
pub open spec fn steps_of(a: Seq<ActionV>) -> Seq<Step> {
    Seq::new(a.len(), |i: int| a[i].step())
}

/// The action that is told.
pub open spec fn told_action(a: Seq<ActionV>, t: Told) -> ActionV {
    match t {
        Told::Keep(j) => a[j as int],
        Told::Ability { surge, from, to, tiles } => ActionV::Ability { surge, from, to, tiles_covered: tiles },
    }
}

/// The actions with surges and dives.
pub open spec fn with_abilities(a: Seq<ActionV>, gear: Gear) -> Seq<ActionV> {
    let told = tell(steps_of(a), gear, begin(gear));
    Seq::new(told.len(), |i: int| told_action(a, told[i]))
}

/// The actions that are told of the given ones.
fn tell_actions(actions: Vec<Action>, told: &Vec<Told>, steps: &Vec<Step>, origin: Option<Tile>) -> (r: Vec<Action>)
    requires
        steps@.len() == actions@.len(),
        told_truly(steps@, origin, told@),
        accounted(told@) == actions@.len(),
    ensures
        actions_view(r@) == Seq::new(told@.len(), |i: int| told_action(actions_view(actions@), told@[i])),
{
    let ghost all = actions_view(actions@);
    let mut rest: Vec<Option<Action>> = Vec::new();
    let mut given: Vec<Action> = actions;
    while given.len() > 0
        invariant
            given@.len() + rest@.len() == all.len(),
            forall|k: int| 0 <= k < given@.len() ==> (#[trigger] given@[k])@ == all[k],
            forall|k: int|
                0 <= k < rest@.len() ==> (#[trigger] rest@[k]) is Some && rest@[k]->0@ == all[all.len() - 1 - k],
        decreases given@.len(),
    {
        let a: Action = given.pop().unwrap();
        rest.push(Some(a));
    }
    let n: usize = rest.len();
    let mut out: Vec<Action> = Vec::new();
    let mut k: usize = 0;
    let ghost want = Seq::new(told@.len(), |i: int| told_action(all, told@[i]));
    let ghost mut done: nat = 0;
    while k < told.len()
        invariant
            k <= told@.len(),
            n == rest@.len(),
            n == all.len(),
            n == steps@.len(),
            want == Seq::new(told@.len(), |i: int| told_action(all, told@[i])),
            told_truly(steps@, origin, told@),
            accounted(told@) == n,
            done == accounted(told@.take(k as int)),
            forall|j: int|
                done <= j < n ==> (#[trigger] rest@[n - 1 - j]) is Some && rest@[n - 1 - j]->0@ == all[j],
            actions_view(out@) == want.take(k as int),
        decreases told@.len() - k,
    {
        assert(told@.take(k + 1).drop_last() =~= told@.take(k as int));
        assert(true_telling(steps@, origin, accounted(told@.take(k as int)) as int, told@[k as int]));
        let ghost before = out@;
        match told[k] {
            Told::Keep(j) => {
                assert(rest@[n - 1 - j] is Some);
                let mut slot: Option<Action> = None;
                std::mem::swap(&mut slot, &mut rest[n - 1 - j]);
                match slot {
                    Some(a) => {
                        out.push(a);
                    },
                    None => {},
                }
            },
            Told::Ability { surge, from, to, tiles } => {
                out.push(Action::Ability { surge, from, to, tiles_covered: tiles });
            },
        }
        assert(out@.len() == before.len() + 1);
        assert(out@.last()@ == told_action(all, told@[k as int]));
        assert(actions_view(out@) =~= actions_view(before).push(out@.last()@));
        assert(want.take(k + 1) =~= want.take(k as int).push(want[k as int]));
        proof {
            done = accounted(told@.take(k + 1));
        }
        k += 1;
    }
    assert(want.take(k as int) =~= want);
    out
}

/// Puts surges and dives into the actions of a route, where the character has them.
pub fn optimize_with_surge_dive(
    actions: Vec<Action>,
    surge: &SurgeConfig,
    dive: &DiveConfig,
    origin: Option<Tile>,
) -> (r: Vec<Action>)
    ensures
        actions_view(r@) == with_abilities(actions_view(actions@), Gear { surge: *surge, dive: *dive, origin }),
{
    let ghost gear = Gear { surge: *surge, dive: *dive, origin };
    let ghost all = actions_view(actions@);
    let mut steps: Vec<Step> = Vec::new();
    let mut i: usize = 0;
    while i < actions.len()
        invariant
            i <= actions@.len(),
            all == actions_view(actions@),
            steps@ == steps_of(all).take(i as int),
        decreases actions@.len() - i,
    {
        let walk: bool = match &actions[i] {
            Action::Move { .. } => true,
            _ => false,
        };
        steps.push(Step { to: actions[i].to_coords(), cost: actions[i].cost_ms(), walk });
        assert(steps@ =~= steps_of(all).take(i + 1));
        i += 1;
    }
    assert(steps@ =~= steps_of(all));
    let told: Vec<Told> = tell_route(&steps, surge, dive, origin);
    assert(steps.len() <= usize::MAX);
    proof {
        law_route_is_told_in_full(steps@, gear);
    }
    tell_actions(actions, &told, &steps, origin)
}

/// What a path is told from.
pub struct PayloadInput<'a> {
    pub snapshot: &'a Snapshot,
    pub globals: &'a Vec<GlobalTeleport>,
    pub lookup: &'a MacroLookup,
    pub fairy_rings: &'a Vec<FairyRing>,
    pub ring_at: &'a FxIndex,
    pub mask: &'a EligibilityMask,
    pub quick_tele: bool,
    pub return_geometry: bool,
    pub only_actions: bool,
    /// Where the route was asked to start, where that is not on the map.
    pub virtual_start_from: Option<Tile>,
    /// The start node, where the route has one.
    pub sid: u32,
    pub surge: SurgeConfig,
    pub dive: DiveConfig,
}

/// Whether the parts belong together.
pub open spec fn fits_together(p: PayloadInput) -> bool {
    &&& p.snapshot.wf()
    &&& macro_blob_placed(*p.snapshot)
    &&& p.lookup.describes(*p.snapshot)
    &&& forall|k: u64| #[trigger] p.ring_at@.contains_key(k) ==> p.ring_at@[k] < p.fairy_rings@.len()
}

/// The tile of a node; the origin for an id that is no node.
pub open spec fn tile_at(s: Snapshot, id: u32) -> Tile {
    let c = if id < s.keys().len() { key_coord(s.keys()[id as int]) } else { (0int, 0int, 0int) };
    Tile { x: c.0 as i32, y: c.1 as i32, plane: c.2 as i32 }
}

pub fn tile_of_node(s: &Snapshot, id: u32) -> (r: Tile)
    requires
        s.wf(),
    ensures
        r == tile_at(*s, id),
{
    let (x, y, plane): (i32, i32, i32) = s.node_coord(id);
    Tile { x, y, plane }
}

/// The name of a kind of macro edge.
pub open spec fn kind_name(k: u32) -> Seq<char> {
    if k == 1 {
        "door"@
    } else if k == 2 {
        "lodestone"@
    } else if k == 3 {
        "npc"@
    } else if k == 4 {
        "object"@
    } else if k == 5 {
        "item"@
    } else if k == 6 {
        "ifslot"@
    } else if k == 7 {
        "poa_item"@
    } else if k == 8 {
        "use_on"@
    } else {
        "teleport"@
    }
}

pub fn kind_text(k: u32) -> (r: &'static str)
    ensures
        r@ == kind_name(k),
{
    match k {
        1 => "door",
        2 => "lodestone",
        3 => "npc",
        4 => "object",
        5 => "item",
        6 => "ifslot",
        7 => "poa_item",
        8 => "use_on",
        _ => "teleport",
    }
}

/// What macro edge `i` costs a caller.
pub open spec fn macro_cost(s: Snapshot, i: int, quick_tele: bool) -> Weight {
    if quick_tele && s.macro_words(s.man().off_macro_kind_first)[i] == LODESTONE {
        Weight { bits: QUICK_TELE_COST }
    } else {
        Weight { bits: s.macro_words(s.man().off_macro_w)[i] }
    }
}

/// The first of the cheapest among the first `k` edges that the caller may use.
pub open spec fn cheapest(p: PayloadInput, edges: Seq<u32>, k: int) -> Option<u32>
    decreases k,
{
    if k <= 0 {
        None
    } else {
        let e = edges[k - 1];
        let best = cheapest(p, edges, k - 1);
        if !all_hold(p.mask.satisfied@, p.lookup.reqs(e as int)) {
            best
        } else {
            match best {
                Some(b) => if macro_cost(*p.snapshot, e as int, p.quick_tele).lt(
                    macro_cost(*p.snapshot, b as int, p.quick_tele),
                ) {
                    Some(e)
                } else {
                    best
                },
                None => Some(e),
            }
        }
    }
}

/// The macro edge that is told: the cheapest that the caller may use, else the first.
pub open spec fn told_edge(p: PayloadInput, edges: Seq<u32>) -> u32 {
    match cheapest(p, edges, edges.len() as int) {
        Some(e) => e,
        None => edges[0],
    }
}

/// The tile that a list of three numbers spells.
pub open spec fn listed_tile(v: Option<JsonV>) -> Option<Tile> {
    match v {
        Some(JsonV::Arr(a)) => if a.len() == 3 {
            match (small(a[0]), small(a[1]), small(a[2])) {
                (Some(x), Some(y), Some(plane)) => Some(Tile { x: x as i32, y: y as i32, plane: plane as i32 }),
                _ => None,
            }
        } else {
            None
        },
        _ => None,
    }
}

/// The number, where the value is one that fits.
pub open spec fn small(v: JsonV) -> Option<i64> {
    match v {
        JsonV::Num(n) => if i64::MIN <= n <= i64::MAX { Some(n as i64) } else { None },
        _ => None,
    }
}

fn read_tile(v: Option<&Json>) -> (r: Option<Tile>)
    ensures
        r == listed_tile(
            match v {
                Some(j) => Some(j@),
                None => None,
            },
        ),
{
    match v {
        Some(j) => match j.as_array() {
            Some(a) => {
                proof {
                    lemma_array_view(a@);
                }
                if a.len() != 3 {
                    return None;
                }
                match (a[0].as_i64(), a[1].as_i64(), a[2].as_i64()) {
                    (Some(x), Some(y), Some(plane)) => Some(Tile { x: x as i32, y: y as i32, plane: plane as i32 }),
                    _ => None,
                }
            },
            None => None,
        },
        None => None,
    }
}

/// Which way a door is gone through: in, if from its outer tile, or else not from its inner one
/// but to it; out likewise.
pub open spec fn door_way(row: JsonV, from: Tile, to: Tile) -> Option<Seq<char>> {
    let inner = listed_tile(member(row, "tile_inside"@));
    let outer = listed_tile(member(row, "tile_outside"@));
    if outer == Some(from) {
        Some("IN"@)
    } else if inner == Some(from) {
        Some("OUT"@)
    } else if inner == Some(to) {
        Some("IN"@)
    } else if outer == Some(to) {
        Some("OUT"@)
    } else {
        None
    }
}

fn find_door_way(row: &Json, from: Tile, to: Tile) -> (r: Option<&'static str>)
    ensures
        match door_way(row@, from, to) {
            Some(d) => r is Some && r->0@ == d,
            None => r is None,
        },
{
    let inner: Option<Tile> = read_tile(row.get("tile_inside"));
    let outer: Option<Tile> = read_tile(row.get("tile_outside"));
    if outer == Some(from) {
        Some("IN")
    } else if inner == Some(from) {
        Some("OUT")
    } else if inner == Some(to) {
        Some("IN")
    } else if outer == Some(to) {
        Some("OUT")
    } else {
        None
    }
}

/// An object with a member set; anything else as it is.
pub open spec fn with_member(v: JsonV, key: Seq<char>, x: JsonV) -> JsonV {
    match v {
        JsonV::Obj(m) => JsonV::Obj(m.insert(key, x)),
        other => other,
    }
}

/// An object without a member; anything else as it is.
pub open spec fn without_member(v: JsonV, key: Seq<char>) -> JsonV {
    match v {
        JsonV::Obj(m) => JsonV::Obj(m.remove(key)),
        other => other,
    }
}

/// The metadata of a macro edge as it is told: with the way through a door, and without the
/// database row.
pub open spec fn told_meta(meta: JsonV, kind: u32, from: Tile, to: Tile) -> JsonV {
    let way = match member(meta, "db_row"@) {
        Some(row) => if kind == 1 { door_way(row, from, to) } else { None },
        None => None,
    };
    let marked = match way {
        Some(d) => with_member(meta, "door_direction"@, JsonV::Str(d)),
        None => meta,
    };
    without_member(marked, "db_row"@)
}

/// The action over a macro edge.
pub open spec fn macro_action(p: PayloadInput, e: u32, from: Tile, to: Tile) -> ActionV {
    let s = *p.snapshot;
    let kind = s.macro_words(s.man().off_macro_kind_first)[e as int];
    let meta = match meta_doc(s, e as int) {
        Some(doc) => doc,
        None => JsonV::Obj(Map::empty()),
    };
    ActionV::Macro {
        kind: kind_name(kind),
        from,
        to,
        cost: macro_cost(s, e as int, p.quick_tele),
        id: s.macro_words(s.man().off_macro_id_first)[e as int],
        metadata: told_meta(meta, kind, from, to),
    }
}

/// How a walk edge leads from `u` to `v`, where one does: as the first of them does.
pub open spec fn walk_kind(s: Snapshot, u: u32, v: u32) -> Option<WalkStep> {
    if exists|slot: int| #[trigger] s.is_first_slot(u as int, v, slot) {
        let slot = choose|slot: int| #[trigger] s.is_first_slot(u as int, v, slot);
        Some(
            if bit_set(s.diagonals(), slot) {
                WalkStep::Diagonal
            } else {
                WalkStep::Cardinal
            },
        )
    } else {
        None
    }
}

fn walk_of(s: &Snapshot, u: u32, v: u32) -> (r: Option<WalkStep>)
    requires
        s.wf(),
    ensures
        r == walk_kind(*s, u, v),
{
    let r: Option<WalkStep> = s.walk_edge_weight(u, v);
    proof {
        if r is Some {
            let slot = choose|slot: int| #[trigger]
                s.is_first_slot(u as int, v, slot) && (r->0 is Diagonal <==> bit_set(s.diagonals(), slot));
            let other = choose|slot: int| #[trigger] s.is_first_slot(u as int, v, slot);
            assert(s.is_slot(u as int, v, slot) && s.is_slot(u as int, v, other));
            assert(slot == other);
        } else {
            assert forall|slot: int| !#[trigger] s.is_first_slot(u as int, v, slot) by {
                assert(!s.is_slot(u as int, v, slot));
            }
        }
    }
    r
}

/// The whole milliseconds of a walk step.
pub open spec fn walk_ms(w: WalkStep) -> u32 {
    if w is Cardinal { 300 } else { 424 }
}

/// The first of the cheapest among the first `k` global teleports that lead to `dst` and that
/// the caller may use.
pub open spec fn best_global(p: PayloadInput, dst: u32, k: int) -> Option<int>
    decreases k,
{
    if k <= 0 {
        None
    } else {
        let g = p.globals@[k - 1];
        let best = best_global(p, dst, k - 1);
        if g.dst != dst || !all_hold(p.mask.satisfied@, g.reqs@) {
            best
        } else {
            match best {
                Some(b) => if global_cost(g, p.quick_tele).lt(global_cost(p.globals@[b], p.quick_tele)) {
                    Some(k - 1)
                } else {
                    best
                },
                None => Some(k - 1),
            }
        }
    }
}

/// The first of the cheapest global teleports that lead to `dst` and that the caller may use.
fn eligible_global_to(p: &PayloadInput, dst: u32) -> (r: Option<usize>)
    ensures
        match best_global(*p, dst, p.globals@.len() as int) {
            Some(i) => r is Some && r->0 == i && i < p.globals@.len(),
            None => r is None,
        },
{
    let mut best: Option<usize> = None;
    let mut k: usize = 0;
    while k < p.globals.len()
        invariant
            k <= p.globals@.len(),
            match best_global(*p, dst, k as int) {
                Some(i) => best is Some && best->0 == i && i < p.globals@.len(),
                None => best is None,
            },
        decreases p.globals@.len() - k,
    {
        let g: &GlobalTeleport = &p.globals[k];
        if g.dst == dst && p.mask.satisfies_all(&g.reqs) {
            let cost: Weight = cost_of_global(g, p.quick_tele);
            let better: bool = match best {
                Some(b) => cost.less(&cost_of_global(&p.globals[b], p.quick_tele)),
                None => true,
            };
            if better {
                best = Some(k);
            }
        }
        k += 1;
    }
    best
}

/// The kind of a global teleport's first step, or a general name.
pub open spec fn step_kind(meta: JsonV) -> Seq<char> {
    let steps = list_at(meta, "steps"@);
    if steps.len() > 0 {
        match text_at(steps[0], "kind"@) {
            Some(s) => s,
            None => "global_teleport"@,
        }
    } else {
        "global_teleport"@
    }
}

fn global_step_kind(meta: &Json) -> (r: String)
    ensures
        r@ == step_kind(meta@),
{
    if let Some(steps) = meta.get("steps") {
        if let Some(arr) = steps.as_array() {
            proof {
                lemma_array_view(arr@);
            }
            if arr.len() > 0 {
                if let Some(kind) = arr[0].get("kind") {
                    if let Some(s) = kind.as_str() {
                        return owned(s);
                    }
                }
            }
        }
    }
    owned("global_teleport")
}

/// The action over global teleport `i`.
pub open spec fn global_action(p: PayloadInput, i: int, from: Tile, to: Tile) -> ActionV {
    let g = p.globals@[i];
    let kind = step_kind(g.meta@);
    ActionV::Global {
        kind,
        from,
        to,
        cost: if p.quick_tele && kind == "lodestone"@ {
            Weight { bits: QUICK_TELE_COST }
        } else {
            global_cost(g, p.quick_tele)
        },
        metadata: g.meta@,
    }
}

/// The action from one fairy ring to another.
pub open spec fn fairy_action(p: PayloadInput, a: int, b: int, from: Tile, to: Tile) -> ActionV {
    let (src, dst) = (p.fairy_rings@[a], p.fairy_rings@[b]);
    let codes = Map::empty().insert("source_code"@, JsonV::Str(src.code@)).insert(
        "destination_code"@,
        JsonV::Str(dst.code@),
    );
    ActionV::Fairy {
        from,
        object_id: src.object_id,
        to,
        code: dst.code@,
        cost: dst.cost_ms,
        metadata: JsonV::Obj(
            match dst.action {
                Some(t) => codes.insert("action"@, JsonV::Str(t@)),
                None => codes,
            },
        ),
    }
}

/// What the character does to get from node `u` to node `v`: a macro edge where there is one;
/// else a walk; else a global teleport; else a fairy ring; else what is not known.
pub open spec fn step_action(p: PayloadInput, u: u32, v: u32) -> ActionV {
    let s = *p.snapshot;
    let (from, to) = (tile_at(s, u), tile_at(s, v));
    let edges = p.lookup.between(u, v);
    if edges.len() > 0 {
        macro_action(p, told_edge(p, edges), from, to)
    } else {
        match walk_kind(s, u, v) {
            Some(w) => ActionV::Move { to, cost_ms: walk_ms(w) },
            None => match best_global(p, v, p.globals@.len() as int) {
                Some(i) => global_action(p, i, from, to),
                None => match (entry(p.ring_at@, u as u64), entry(p.ring_at@, v as u64)) {
                    (Some(a), Some(b)) => fairy_action(p, a as int, b as int, from, to),
                    _ => ActionV::Teleport { from, to },
                },
            },
        }
    }
}

proof fn lemma_edges_bounded(src: Seq<u32>, dst: Seq<u32>, a: u32, b: u32, k: int)
    requires
        0 <= k <= src.len(),
        src.len() <= u32::MAX,
    ensures
        forall|i: int| 0 <= i < edges_between(src, dst, a, b, k).len() ==> #[trigger] edges_between(src, dst, a, b, k)[i] < k,
    decreases k,
{
    if k > 0 {
        lemma_edges_bounded(src, dst, a, b, k - 1);
        let (less, all) = (edges_between(src, dst, a, b, k - 1), edges_between(src, dst, a, b, k));
        assert forall|i: int| 0 <= i < all.len() implies #[trigger] all[i] < k by {
            if i < less.len() {
                assert(less[i] < k - 1);
                assert(all[i] == less[i]);
            }
        }
    }
}

fn edge_cost(p: &PayloadInput, i: u32) -> (r: Weight)
    requires
        p.snapshot.wf(),
        i < p.snapshot.man().counts.macro_edges,
    ensures
        r == macro_cost(*p.snapshot, i as int, p.quick_tele),
{
    let kinds: &[u32] = p.snapshot.macro_kind_first();
    let costs: &[u32] = p.snapshot.macro_w();
    if p.quick_tele && kinds[i as usize] == LODESTONE {
        Weight { bits: QUICK_TELE_COST }
    } else {
        Weight { bits: costs[i as usize] }
    }
}

fn choose_edge(p: &PayloadInput, edges: &Vec<u32>) -> (r: u32)
    requires
        p.snapshot.wf(),
        edges@.len() > 0,
        forall|i: int| 0 <= i < edges@.len() ==> #[trigger] edges@[i] < p.snapshot.man().counts.macro_edges,
    ensures
        r == told_edge(*p, edges@),
        r < p.snapshot.man().counts.macro_edges,
{
    let mut best: Option<u32> = None;
    let mut k: usize = 0;
    while k < edges.len()
        invariant
            k <= edges@.len(),
            p.snapshot.wf(),
            forall|i: int| 0 <= i < edges@.len() ==> #[trigger] edges@[i] < p.snapshot.man().counts.macro_edges,
            best == cheapest(*p, edges@, k as int),
            best is Some ==> best->0 < p.snapshot.man().counts.macro_edges,
        decreases edges@.len() - k,
    {
        let e: u32 = edges[k];
        if p.lookup.allowed(e as usize, p.mask) {
            let better: bool = match best {
                Some(b) => edge_cost(p, e).less(&edge_cost(p, b)),
                None => true,
            };
            if better {
                best = Some(e);
            }
        }
        k += 1;
    }
    match best {
        Some(b) => b,
        None => edges[0],
    }
}

fn make_macro(p: &PayloadInput, e: u32, from: Tile, to: Tile) -> (r: Action)
    requires
        fits_together(*p),
        e < p.snapshot.man().counts.macro_edges,
    ensures
        r@ == macro_action(*p, e, from, to),
{
    let kind: u32 = p.snapshot.macro_kind_first()[e as usize];
    let id: u32 = p.snapshot.macro_id_first()[e as usize];
    let mut meta: Json = p.lookup.meta_value(p.snapshot, e as usize);
    if kind == 1 {
        let way: Option<&'static str> = match meta.get("db_row") {
            Some(row) => find_door_way(row, from, to),
            None => None,
        };
        if let Some(d) = way {
            meta = meta.with("door_direction", Json::text(d));
        }
    }
    Action::Macro { kind: kind_text(kind), from, to, cost: edge_cost(p, e), id, metadata: meta.without("db_row") }
}

fn make_global(p: &PayloadInput, i: usize, from: Tile, to: Tile) -> (r: Action)
    requires
        i < p.globals@.len(),
    ensures
        r@ == global_action(*p, i as int, from, to),
{
    let g: &GlobalTeleport = &p.globals[i];
    let kind: String = global_step_kind(&g.meta);
    let cost: Weight = if p.quick_tele && same(kind.as_str(), "lodestone") {
        Weight { bits: QUICK_TELE_COST }
    } else {
        cost_of_global(g, p.quick_tele)
    };
    Action::Global { kind, from, to, cost, metadata: g.meta.copy() }
}

fn make_fairy(p: &PayloadInput, a: usize, b: usize, from: Tile, to: Tile) -> (r: Action)
    requires
        a < p.fairy_rings@.len(),
        b < p.fairy_rings@.len(),
    ensures
        r@ == fairy_action(*p, a as int, b as int, from, to),
{
    let src: &FairyRing = &p.fairy_rings[a];
    let dst: &FairyRing = &p.fairy_rings[b];
    let codes: Json = Json::object().with("source_code", Json::text(src.code.as_str())).with(
        "destination_code",
        Json::text(dst.code.as_str()),
    );
    let metadata: Json = match &dst.action {
        Some(t) => codes.with("action", Json::text(t.as_str())),
        None => codes,
    };
    Action::Fairy {
        from,
        object_id: src.object_id,
        to,
        code: owned(dst.code.as_str()),
        cost: dst.cost_ms,
        metadata,
    }
}

fn make_step(p: &PayloadInput, u: u32, v: u32) -> (r: Action)
    requires
        fits_together(*p),
    ensures
        r@ == step_action(*p, u, v),
{
    let from: Tile = tile_of_node(p.snapshot, u);
    let to: Tile = tile_of_node(p.snapshot, v);
    if let Some(edges) = p.lookup.get(u, v) {
        proof {
            let s = *p.snapshot;
            lemma_edges_bounded(
                s.macro_words(s.man().off_macro_src),
                s.macro_words(s.man().off_macro_dst),
                u,
                v,
                s.man().counts.macro_edges as int,
            );
        }
        let e: u32 = choose_edge(p, edges);
        return make_macro(p, e, from, to);
    }
    if let Some(w) = walk_of(p.snapshot, u, v) {
        return Action::Move { to, cost_ms: w.cost_ms() };
    }
    if let Some(i) = eligible_global_to(p, v) {
        return make_global(p, i, from, to);
    }
    match (p.ring_at.get(u as u64), p.ring_at.get(v as u64)) {
        (Some(a), Some(b)) => make_fairy(p, a, b, from, to),
        _ => Action::Teleport { from, to },
    }
}

/// The first action of a route whose start is not on the map: the global teleport through which
/// it enters, where one is known.
pub open spec fn virtual_action(p: PayloadInput, from: Tile, virtual_entry: Option<u32>) -> ActionV {
    let entry_id = match virtual_entry {
        Some(e) => e,
        None => p.sid,
    };
    let to = tile_at(*p.snapshot, entry_id);
    let reason = Map::empty().insert("reason"@, JsonV::Str("start_coordinate_not_found"@));
    let best = match virtual_entry {
        Some(e) => best_global(p, e, p.globals@.len() as int),
        None => None,
    };
    match best {
        Some(i) => {
            let g = p.globals@[i];
            let cost = global_cost(g, p.quick_tele);
            ActionV::VirtualStart {
                kind: step_kind(g.meta@),
                from,
                to,
                cost: if cost.is_finite() { Some(cost) } else { None },
                metadata: JsonV::Obj(reason.insert("teleport"@, g.meta@)),
            }
        },
        None => ActionV::VirtualStart {
            kind: "global_teleport"@,
            from,
            to,
            cost: None,
            metadata: JsonV::Obj(reason),
        },
    }
}

fn make_virtual(p: &PayloadInput, from: Tile, virtual_entry: Option<u32>) -> (r: Action)
    requires
        fits_together(*p),
    ensures
        r@ == virtual_action(*p, from, virtual_entry),
{
    let entry_id: u32 = match virtual_entry {
        Some(e) => e,
        None => p.sid,
    };
    let to: Tile = tile_of_node(p.snapshot, entry_id);
    let reason: Json = Json::object().with("reason", Json::text("start_coordinate_not_found"));
    let best: Option<usize> = match virtual_entry {
        Some(e) => eligible_global_to(p, e),
        None => None,
    };
    match best {
        Some(i) => {
            let g: &GlobalTeleport = &p.globals[i];
            let cost: Weight = cost_of_global(g, p.quick_tele);
            Action::VirtualStart {
                kind: global_step_kind(&g.meta),
                from,
                to,
                cost: if cost.finite() {
                    Some(cost)
                } else {
                    None
                },
                metadata: reason.with("teleport", g.meta.copy()),
            }
        },
        None => Action::VirtualStart { kind: owned("global_teleport"), from, to, cost: None, metadata: reason },
    }
}

/// The actions over the first `k` steps of a path, after what comes before the path.
pub open spec fn path_actions(p: PayloadInput, path: Seq<u32>, virtual_entry: Option<u32>, k: int) -> Seq<ActionV>
    decreases k,
{
    if k <= 0 {
        match p.virtual_start_from {
            Some(from) => seq![virtual_action(p, from, virtual_entry)],
            None => Seq::empty(),
        }
    } else {
        path_actions(p, path, virtual_entry, k - 1).push(step_action(p, path[k - 1], path[k]))
    }
}

/// The actions of a path, with surges and dives.
pub open spec fn payload_actions(p: PayloadInput, path: Seq<u32>, virtual_entry: Option<u32>) -> Seq<ActionV> {
    with_abilities(
        path_actions(p, path, virtual_entry, path.len() - 1),
        Gear {
            surge: p.surge,
            dive: p.dive,
            origin: if path.len() > 0 { Some(tile_at(*p.snapshot, path[0])) } else { None },
        },
    )
}

/// The tiles of a path.
pub open spec fn path_tiles(s: Snapshot, path: Seq<u32>) -> Seq<Tile> {
    Seq::new(path.len(), |i: int| tile_at(s, path[i]))
}

/// Tells a path that was found: its actions, where they or the tiles are asked for, and its
/// tiles, where they are.
pub fn build_route_payload(p: &PayloadInput, found: bool, path: &[u32], virtual_entry: Option<u32>) -> (r: (
    Option<Vec<Action>>,
    Option<Vec<Tile>>,
))
    requires
        fits_together(*p),
    ensures
        r.0 is Some <==> found && (p.only_actions || p.return_geometry),
        r.0 is Some ==> actions_view(r.0->0@) == payload_actions(*p, path@, virtual_entry),
        r.1 is Some <==> found && p.return_geometry,
        r.1 is Some ==> r.1->0@ == path_tiles(*p.snapshot, path@),
{
    if !found {
        return (None, None);
    }
    let len: usize = path.len();
    let mut geometry: Option<Vec<Tile>> = None;
    if p.return_geometry {
        let ghost want = path_tiles(*p.snapshot, path@);
        let mut tiles: Vec<Tile> = Vec::new();
        let mut i: usize = 0;
        while i < len
            invariant
                i <= len,
                len == path@.len(),
                p.snapshot.wf(),
                want == path_tiles(*p.snapshot, path@),
                tiles@ == want.take(i as int),
            decreases len - i,
        {
            tiles.push(tile_of_node(p.snapshot, path[i]));
            assert(tiles@ =~= want.take(i + 1));
            i += 1;
        }
        assert(tiles@ =~= want);
        geometry = Some(tiles);
    }
    if !(p.only_actions || p.return_geometry) {
        return (None, geometry);
    }
    let mut acts: Vec<Action> = Vec::new();
    if let Some(from) = p.virtual_start_from {
        acts.push(make_virtual(p, from, virtual_entry));
    }
    assert(actions_view(acts@) =~= path_actions(*p, path@, virtual_entry, 0));
    let mut k: usize = 0;
    while len > 0 && k < len - 1
        invariant
            len == path@.len(),
            len > 0 ==> k <= len - 1,
            len == 0 ==> k == 0,
            fits_together(*p),
            actions_view(acts@) == path_actions(*p, path@, virtual_entry, k as int),
        decreases len - k,
    {
        let ghost before = acts@;
        let a: Action = make_step(p, path[k], path[k + 1]);
        acts.push(a);
        assert(actions_view(acts@) =~= actions_view(before).push(a@));
        k += 1;
    }
    let origin: Option<Tile> = if len > 0 { Some(tile_of_node(p.snapshot, path[0])) } else { None };
    (Some(optimize_with_surge_dive(acts, &p.surge, &p.dive, origin)), geometry)
}

/// A step ends at its node.
proof fn lemma_step_end(p: PayloadInput, u: u32, v: u32)
    ensures
        step_action(p, u, v).end() == tile_at(*p.snapshot, v),
{
}

/// Putting in surges and dives does not change where a route ends.
pub proof fn law_abilities_keep_the_end(a: Seq<ActionV>, gear: Gear)
    requires
        0 < a.len() <= usize::MAX,
    ensures
        with_abilities(a, gear).len() > 0,
        with_abilities(a, gear).last().end() == a.last().end(),
{
    let steps = steps_of(a);
    law_route_is_told_in_full(steps, gear);
    let told = tell(steps, gear, begin(gear));
    let k = told.len() - 1;
    assert(told.len() > 0);
    assert(true_telling(steps, gear.origin, accounted(told.take(k)) as int, told[k]));
    assert(told.take(k) =~= told.drop_last());
    assert(steps[steps.len() - 1].to == a.last().end());
}

/// The actions of a path lead to its last node.
pub proof fn law_actions_lead_to_the_goal(p: PayloadInput, path: Seq<u32>, virtual_entry: Option<u32>)
    requires
        2 <= path.len() < usize::MAX,
    ensures
        payload_actions(p, path, virtual_entry).len() > 0,
        payload_actions(p, path, virtual_entry).last().end() == tile_at(*p.snapshot, path.last()),
{
    let k = path.len() - 1;
    let acts = path_actions(p, path, virtual_entry, k);
    lemma_path_actions(p, path, virtual_entry, k);
    lemma_step_end(p, path[k - 1], path[k]);
    let gear = Gear {
        surge: p.surge,
        dive: p.dive,
        origin: if path.len() > 0 { Some(tile_at(*p.snapshot, path[0])) } else { None },
    };
    law_abilities_keep_the_end(acts, gear);
}

proof fn lemma_path_actions(p: PayloadInput, path: Seq<u32>, virtual_entry: Option<u32>, k: int)
    requires
        0 <= k,
    ensures
        path_actions(p, path, virtual_entry, k).len() == k + if p.virtual_start_from is Some { 1int } else { 0int },
    decreases k,
{
    if k > 0 {
        lemma_path_actions(p, path, virtual_entry, k - 1);
    }
}

}
