//! What holds of the actions that a path is told as, in terms of the snapshot and of what the caller
//! has.

use vstd::prelude::*;
#[allow(unused_imports)]
use crate::engine::eligibility::{all_hold, law_masks_satisfy_all};
#[allow(unused_imports)]
use crate::engine::fx_map::entry;
#[allow(unused_imports)]
use crate::engine::macros::{edges_between, law_edges_between, GlobalTeleport};
#[allow(unused_imports)]
use crate::engine::millis::Millis;
#[allow(unused_imports)]
use crate::engine::weight::Weight;
#[allow(unused_imports)]
use crate::json::{member, JsonV};
#[allow(unused_imports)]
use crate::models::Tile;
#[allow(unused_imports)]
use crate::route::abilities::{begin, law_without_abilities, tell, Gear, Told};
#[allow(unused_imports)]
use crate::route::payload::{
    best_global, cheapest, door_way, fits_together, kind_name, listed_tile, path_actions, payload_actions, small,
    step_action, steps_of, tile_at, told_edge, told_meta, virtual_action, with_abilities, ActionV, PayloadInput,
};
#[allow(unused_imports)]
use crate::snapshot::reader::{bit_set, Snapshot};

verus! {

/// Whether macro edge `i` leads from node `u` to node `v`.
pub open spec fn joins_nodes(s: Snapshot, u: u32, v: u32, i: int) -> bool {
    0 <= i < s.man().counts.macro_edges && s.macro_words(s.man().off_macro_src)[i] == u && s.macro_words(
        s.man().off_macro_dst,
    )[i] == v
}

/// Whether a mask satisfies every tag.
pub open spec fn satisfies(mask: Seq<bool>, reqs: Seq<usize>) -> bool {
    forall|k: int| 0 <= k < reqs.len() ==> (#[trigger] reqs[k]) < mask.len() && mask[reqs[k] as int]
}

/// What macro edge `i` costs the caller: a lodestone, which is kind 2, costs 2400 ms with the quick
/// teleport.
pub open spec fn told_cost_of(s: Snapshot, quick_tele: bool, i: int) -> Weight {
    Weight {
        bits: if quick_tele && s.macro_words(s.man().off_macro_kind_first)[i] == 2 {
            0x4516_0000
        } else {
            s.macro_words(s.man().off_macro_w)[i]
        },
    }
}

/// Whether the edge at a place is one that the caller may use.
spec fn usable_at(p: PayloadInput, edges: Seq<u32>, j: int) -> bool {
    all_hold(p.mask.satisfied@, p.lookup.reqs(edges[j] as int))
}

proof fn lemma_cheapest(p: PayloadInput, edges: Seq<u32>, k: int)
    requires
        0 <= k <= edges.len(),
    ensures
        match cheapest(p, edges, k) {
            Some(e) => exists|i: int|
                0 <= i < k && edges[i] == e && #[trigger] usable_at(p, edges, i) && (forall|j: int|
                    0 <= j < k && #[trigger] usable_at(p, edges, j) ==> !told_cost_of(
                        *p.snapshot,
                        p.quick_tele,
                        edges[j] as int,
                    ).lt(told_cost_of(*p.snapshot, p.quick_tele, e as int))) && (forall|j: int|
                    0 <= j < i && #[trigger] usable_at(p, edges, j) ==> told_cost_of(
                        *p.snapshot,
                        p.quick_tele,
                        edges[j] as int,
                    ).is_nan() || told_cost_of(*p.snapshot, p.quick_tele, e as int).lt(
                        told_cost_of(*p.snapshot, p.quick_tele, edges[j] as int),
                    )),
            None => forall|j: int| 0 <= j < k ==> !#[trigger] usable_at(p, edges, j),
        },
    decreases k,
{
    if k > 0 {
        lemma_cheapest(p, edges, k - 1);
        let e = edges[k - 1];
        assert(usable_at(p, edges, k - 1) == all_hold(p.mask.satisfied@, p.lookup.reqs(e as int)));
    }
}

/// Where macro edges lead from one node to the next, the action is over one of them: the first of the
/// cheapest that the caller may use, or the first of all where it may use none. It leads from the one
/// node's tile to the other's, and has the edge's kind, cost and id.
pub proof fn law_macro_edges_are_told(p: PayloadInput, u: u32, v: u32, i: int)
    requires
        fits_together(p),
        joins_nodes(*p.snapshot, u, v, i),
    ensures
        exists|e: int|
            #[trigger] joins_nodes(*p.snapshot, u, v, e) && (step_action(p, u, v) matches ActionV::Macro {
                kind,
                from,
                to,
                cost,
                id,
                metadata,
            } && from == tile_at(*p.snapshot, u) && to == tile_at(*p.snapshot, v) && cost == told_cost_of(
                *p.snapshot,
                p.quick_tele,
                e,
            ) && id == p.snapshot.macro_words(p.snapshot.man().off_macro_id_first)[e] && kind == kind_name(
                p.snapshot.macro_words(p.snapshot.man().off_macro_kind_first)[e],
            )) && (satisfies(p.mask.satisfied@, p.lookup.reqs(i)) ==> satisfies(p.mask.satisfied@, p.lookup.reqs(e)))
                && (forall|j: int|
                #[trigger] joins_nodes(*p.snapshot, u, v, j) && satisfies(p.mask.satisfied@, p.lookup.reqs(j))
                    ==> !told_cost_of(*p.snapshot, p.quick_tele, j).lt(told_cost_of(*p.snapshot, p.quick_tele, e)) && (j < e
                    ==> told_cost_of(*p.snapshot, p.quick_tele, j).is_nan() || told_cost_of(
                    *p.snapshot,
                    p.quick_tele,
                    e,
                ).lt(told_cost_of(*p.snapshot, p.quick_tele, j)))) && ((forall|j: int|
                #[trigger] joins_nodes(*p.snapshot, u, v, j) ==> !satisfies(p.mask.satisfied@, p.lookup.reqs(j))) ==> forall|
                j: int,
            |
                #[trigger] joins_nodes(*p.snapshot, u, v, j) ==> e <= j),
{
    let s = *p.snapshot;
    let (src, dst) = (s.macro_words(s.man().off_macro_src), s.macro_words(s.man().off_macro_dst));
    let n = src.len() as int;
    let edges = p.lookup.between(u, v);
    assert(edges == edges_between(src, dst, u, v, n));
    assert(n == s.man().counts.macro_edges) by {
        s.lemma_wf();
    }
    law_edges_between(src, dst, u, v, n);
    assert(src[i] == u && dst[i] == v);
    assert(edges.contains(i as u32));
    lemma_cheapest(p, edges, edges.len() as int);
    let t = told_edge(p, edges);
    let e = t as int;
    let x = if cheapest(p, edges, edges.len() as int) is Some {
        choose|x: int|
            0 <= x < edges.len() && edges[x] == t && #[trigger] usable_at(p, edges, x) && (forall|j: int|
                0 <= j < edges.len() && #[trigger] usable_at(p, edges, j) ==> !told_cost_of(s, p.quick_tele, edges[j] as int).lt(
                    told_cost_of(s, p.quick_tele, e),
                )) && (forall|j: int|
                0 <= j < x && #[trigger] usable_at(p, edges, j) ==> told_cost_of(s, p.quick_tele, edges[j] as int).is_nan()
                    || told_cost_of(s, p.quick_tele, e).lt(told_cost_of(s, p.quick_tele, edges[j] as int)))
    } else {
        0
    };
    assert(edges[x] == t);
    assert(joins_nodes(s, u, v, e));
    assert forall|j: int| #[trigger] joins_nodes(s, u, v, j) implies exists|y: int| 0 <= y < edges.len() && edges[y] == j by {
        assert(src[j] == u && dst[j] == v);
        assert(edges.contains(j as u32));
        let y = choose|y: int| 0 <= y < edges.len() && edges[y] == j as u32;
        assert(edges[y] == j);
    }
    assert forall|j: int| #[trigger] joins_nodes(s, u, v, j) && satisfies(p.mask.satisfied@, p.lookup.reqs(j)) implies
        !told_cost_of(s, p.quick_tele, j).lt(told_cost_of(s, p.quick_tele, e)) && (j < e ==> told_cost_of(
        s,
        p.quick_tele,
        j,
    ).is_nan() || told_cost_of(s, p.quick_tele, e).lt(told_cost_of(s, p.quick_tele, j))) && satisfies(
        p.mask.satisfied@,
        p.lookup.reqs(e),
    ) by {
        let y = choose|y: int| 0 <= y < edges.len() && edges[y] == j;
        law_masks_satisfy_all(p.mask.satisfied@, p.lookup.reqs(j));
        law_masks_satisfy_all(p.mask.satisfied@, p.lookup.reqs(e));
        assert(usable_at(p, edges, y));
        assert(cheapest(p, edges, edges.len() as int) is Some);
        assert(usable_at(p, edges, x));
        if j < e {
            assert(y < x) by {
                if y > x {
                    assert(edges[x] < edges[y]);
                }
            }
        }
    }
    if forall|j: int| #[trigger] joins_nodes(s, u, v, j) ==> !satisfies(p.mask.satisfied@, p.lookup.reqs(j)) {
        law_masks_satisfy_all(p.mask.satisfied@, p.lookup.reqs(e));
        assert(cheapest(p, edges, edges.len() as int) is None) by {
            if cheapest(p, edges, edges.len() as int) is Some {
                assert(usable_at(p, edges, x));
            }
        }
        assert forall|j: int| #[trigger] joins_nodes(s, u, v, j) implies e <= j by {
            let y = choose|y: int| 0 <= y < edges.len() && edges[y] == j;
            if y > 0 {
                assert(edges[0] < edges[y]);
            }
        }
    }
}

proof fn lemma_no_macro(p: PayloadInput, u: u32, v: u32)
    requires
        fits_together(p),
        forall|i: int| !#[trigger] joins_nodes(*p.snapshot, u, v, i),
    ensures
        p.lookup.between(u, v).len() == 0,
{
    let s = *p.snapshot;
    let (src, dst) = (s.macro_words(s.man().off_macro_src), s.macro_words(s.man().off_macro_dst));
    let n = src.len() as int;
    let edges = p.lookup.between(u, v);
    assert(edges == edges_between(src, dst, u, v, n));
    s.lemma_wf();
    law_edges_between(src, dst, u, v, n);
    if edges.len() > 0 {
        assert(edges[0] < n);
        assert(joins_nodes(s, u, v, edges[0] as int));
    }
}

/// Where no macro edge but a step leads from one node to the next, the action is a move to its tile, of
/// 300 ms straight on and 424 ms on a diagonal.
pub proof fn law_steps_are_told(p: PayloadInput, u: u32, v: u32, slot: int)
    requires
        fits_together(p),
        forall|i: int| !#[trigger] joins_nodes(*p.snapshot, u, v, i),
        p.snapshot.is_first_slot(u as int, v, slot),
    ensures
        step_action(p, u, v) == (ActionV::Move {
            to: tile_at(*p.snapshot, v),
            cost_ms: if bit_set(p.snapshot.diagonals(), slot) { 424 } else { 300 },
        }),
{
    lemma_no_macro(p, u, v);
    let s = *p.snapshot;
    let other = choose|x: int| #[trigger] s.is_first_slot(u as int, v, x);
    assert(s.is_slot(u as int, v, slot) && s.is_slot(u as int, v, other));
    assert(slot == other);
}

/// What a global teleport costs the caller.
pub open spec fn told_global_cost(g: GlobalTeleport, quick_tele: bool) -> Weight {
    if quick_tele && g.kind_first == 2 { Weight { bits: 0x4516_0000 } } else { g.cost }
}

/// Whether a global teleport leads to the node and the caller may use it.
pub open spec fn leads_there(p: PayloadInput, dst: u32, i: int) -> bool {
    0 <= i < p.globals@.len() && p.globals@[i].dst == dst && satisfies(p.mask.satisfied@, p.globals@[i].reqs@)
}

proof fn lemma_best_global(p: PayloadInput, dst: u32, k: int)
    requires
        0 <= k <= p.globals@.len(),
    ensures
        match best_global(p, dst, k) {
            Some(b) => b < k && leads_there(p, dst, b) && forall|j: int|
                j < k && #[trigger] leads_there(p, dst, j) ==> !told_global_cost(p.globals@[j], p.quick_tele).lt(
                    told_global_cost(p.globals@[b], p.quick_tele),
                ),
            None => forall|j: int| j < k ==> !#[trigger] leads_there(p, dst, j),
        },
    decreases k,
{
    if k > 0 {
        lemma_best_global(p, dst, k - 1);
        law_masks_satisfy_all(p.mask.satisfied@, p.globals@[k - 1].reqs@);
        assert(leads_there(p, dst, k - 1) <==> p.globals@[k - 1].dst == dst && all_hold(
            p.mask.satisfied@,
            p.globals@[k - 1].reqs@,
        ));
    }
}

/// Where neither a macro edge nor a step leads from one node to the next, the action is over a global
/// teleport that leads there and that the caller may use, of which none is cheaper; without one it goes
/// from fairy ring to fairy ring, where both nodes have one; and else it is a teleport of which nothing
/// is known.
pub proof fn law_teleports_are_told(p: PayloadInput, u: u32, v: u32)
    requires
        fits_together(p),
        forall|i: int| !#[trigger] joins_nodes(*p.snapshot, u, v, i),
        forall|slot: int| !#[trigger] p.snapshot.is_first_slot(u as int, v, slot),
    ensures
        ({
            let (from, to) = (tile_at(*p.snapshot, u), tile_at(*p.snapshot, v));
            let a = step_action(p, u, v);
            &&& (exists|j: int| #[trigger] leads_there(p, v, j)) ==> exists|b: int| #[trigger]
                leads_there(p, v, b) && (forall|j: int| #[trigger]
                    leads_there(p, v, j) ==> !told_global_cost(p.globals@[j], p.quick_tele).lt(
                        told_global_cost(p.globals@[b], p.quick_tele),
                    )) && (a matches ActionV::Global { from: f, to: t, metadata, .. } && f == from && t == to && metadata
                    == p.globals@[b].meta@)
            &&& (forall|j: int| !#[trigger] leads_there(p, v, j)) ==> match (
                entry(p.ring_at@, u as u64),
                entry(p.ring_at@, v as u64),
            ) {
                (Some(x), Some(y)) => a matches ActionV::Fairy { from: f, object_id, to: t, code, cost, .. } && f == from
                    && t == to && object_id == p.fairy_rings@[x as int].object_id && code == p.fairy_rings@[y as int].code@ && cost
                    == p.fairy_rings@[y as int].cost_ms,
                _ => a == (ActionV::Teleport { from, to }),
            }
        }),
{
    lemma_no_macro(p, u, v);
    lemma_best_global(p, v, p.globals@.len() as int);
    if let Some(b) = best_global(p, v, p.globals@.len() as int) {
        assert(leads_there(p, v, b));
    }
}

/// The names of the kinds of macro edges.
pub proof fn law_kinds_have_names(k: u32)
    ensures
        kind_name(1) == "door"@,
        kind_name(2) == "lodestone"@,
        kind_name(3) == "npc"@,
        kind_name(4) == "object"@,
        kind_name(5) == "item"@,
        kind_name(6) == "ifslot"@,
        kind_name(7) == "poa_item"@,
        kind_name(8) == "use_on"@,
        k == 0 || k > 8 ==> kind_name(k) == "teleport"@,
{
}

/// Whether a value lists the coordinates of a tile.
pub open spec fn lists_tile(v: Option<JsonV>, t: Tile) -> bool {
    v == Some(JsonV::Arr(seq![JsonV::Num(t.x as int), JsonV::Num(t.y as int), JsonV::Num(t.plane as int)]))
}

proof fn lemma_lists_tile(v: Option<JsonV>, t: Tile)
    requires
        lists_tile(v, t),
    ensures
        listed_tile(v) == Some(t),
{
    let a = seq![JsonV::Num(t.x as int), JsonV::Num(t.y as int), JsonV::Num(t.plane as int)];
    assert(a.len() == 3);
    assert(small(a[0]) == Some(t.x as i64) && small(a[1]) == Some(t.y as i64) && small(a[2]) == Some(t.plane as i64));
}

/// One goes in through a door from its outer tile and out from its inner one; from elsewhere, in where
/// one comes to the inner tile, and out where to the outer one.
pub proof fn law_doors_lead_in_and_out(row: JsonV, inner: Tile, outer: Tile, from: Tile, to: Tile)
    requires
        lists_tile(member(row, "tile_inside"@), inner),
        lists_tile(member(row, "tile_outside"@), outer),
    ensures
        from == outer ==> door_way(row, from, to) == Some("IN"@),
        from == inner && from != outer ==> door_way(row, from, to) == Some("OUT"@),
        from != inner && from != outer && to == inner ==> door_way(row, from, to) == Some("IN"@),
        from != inner && from != outer && to == outer && to != inner ==> door_way(row, from, to) == Some("OUT"@),
        from != inner && from != outer && to != inner && to != outer ==> door_way(row, from, to) is None,
{
    lemma_lists_tile(member(row, "tile_inside"@), inner);
    lemma_lists_tile(member(row, "tile_outside"@), outer);
}

/// The metadata of a macro edge is told without the database row; the way through is told of a door
/// alone; and everything else stays.
pub proof fn law_metadata_is_told(meta: JsonV, kind: u32, from: Tile, to: Tile, key: Seq<char>)
    ensures
        member(told_meta(meta, kind, from, to), "db_row"@) is None,
        key != "db_row"@ && (key != "door_direction"@ || kind != 1) ==> member(told_meta(meta, kind, from, to), key) == member(
            meta,
            key,
        ),
        kind == 1 && member(meta, "db_row"@) is Some && door_way(member(meta, "db_row"@)->0, from, to) is Some ==> member(
            told_meta(meta, kind, from, to),
            "door_direction"@,
        ) == Some(JsonV::Str(door_way(member(meta, "db_row"@)->0, from, to)->0)),
{
    reveal_strlit("db_row");
    reveal_strlit("door_direction");
    assert("db_row"@.len() == 6 && "door_direction"@.len() == 14);
}

/// A path is told step by step, in its order: first what enters the map, where the start is not on it,
/// and after that the action from each node to the next.
pub proof fn law_paths_are_told_in_order(p: PayloadInput, path: Seq<u32>, virtual_entry: Option<u32>, k: int)
    requires
        0 <= k < path.len(),
    ensures
        ({
            let all = path_actions(p, path, virtual_entry, k);
            let first: int = if p.virtual_start_from is Some { 1 } else { 0 };
            &&& all.len() == k + first
            &&& p.virtual_start_from is Some ==> all[0] == virtual_action(p, p.virtual_start_from->0, virtual_entry)
            &&& forall|j: int| first <= j < k + first ==> #[trigger] all[j] == step_action(p, path[j - first], path[j - first + 1])
        }),
    decreases k,
{
    if k > 0 {
        law_paths_are_told_in_order(p, path, virtual_entry, k - 1);
        let first: int = if p.virtual_start_from is Some { 1 } else { 0 };
        let (s, all) = (path_actions(p, path, virtual_entry, k - 1), path_actions(p, path, virtual_entry, k));
        assert forall|j: int| first <= j < k + first implies #[trigger] all[j] == step_action(
            p,
            path[j - first],
            path[j - first + 1],
        ) by {
            if j < s.len() {
                assert(all[j] == s[j]);
            }
        }
    }
}

/// Without surges and dives the actions of a path are those of its steps.
pub proof fn law_payload_without_abilities(p: PayloadInput, path: Seq<u32>, virtual_entry: Option<u32>)
    requires
        0 < path.len() < usize::MAX,
        !p.surge.enabled,
        !p.dive.enabled,
    ensures
        payload_actions(p, path, virtual_entry) == path_actions(p, path, virtual_entry, path.len() - 1),
{
    let k = path.len() - 1;
    let all = path_actions(p, path, virtual_entry, k);
    law_paths_are_told_in_order(p, path, virtual_entry, k);
    let gear = Gear { surge: p.surge, dive: p.dive, origin: Some(tile_at(*p.snapshot, path[0])) };
    law_without_abilities(steps_of(all), gear);
    assert(payload_actions(p, path, virtual_entry) =~= all);
}

/// An action is a walk exactly where it is a move; it takes its cost, and abilities and plain teleports
/// take no time.
pub proof fn law_actions_take_their_time(a: ActionV)
    ensures
        a.step().walk <==> a is Move,
        a.step().to == a.end(),
        match a {
            ActionV::Move { to, cost_ms } => a.end() == to && a.step().cost == Millis::whole(cost_ms as int),
            ActionV::Ability { to, .. } => a.end() == to && a.step().cost == (Millis { bits: 0 }),
            ActionV::Macro { to, cost, .. } => a.end() == to && a.step().cost == Millis::of_weight(cost),
            ActionV::Global { to, cost, .. } => a.end() == to && a.step().cost == Millis::of_weight(cost),
            ActionV::Fairy { to, cost, .. } => a.end() == to && a.step().cost == Millis::of_weight(cost),
            ActionV::Teleport { to, .. } => a.end() == to && a.step().cost == (Millis { bits: 0 }),
            ActionV::VirtualStart { to, cost, .. } => a.end() == to && a.step().cost == match cost {
                Some(c) => Millis::of_weight(c),
                None => Millis { bits: 0 },
            },
        },
{
}

/// What is told of the actions is what is told of them as steps: a kept step is the action itself, and
/// an ability says what it is, from where to where, and over how many tiles.
pub proof fn law_told_actions(a: Seq<ActionV>, gear: Gear, k: int)
    requires
        0 <= k < tell(Seq::new(a.len(), |i: int| a[i].step()), gear, begin(gear)).len(),
    ensures
        with_abilities(a, gear).len() == tell(Seq::new(a.len(), |i: int| a[i].step()), gear, begin(gear)).len(),
        match tell(Seq::new(a.len(), |i: int| a[i].step()), gear, begin(gear))[k] {
            Told::Keep(j) => with_abilities(a, gear)[k] == a[j as int],
            Told::Ability { surge, from, to, tiles } => with_abilities(a, gear)[k] == (ActionV::Ability {
                surge,
                from,
                to,
                tiles_covered: tiles,
            }),
        },
{
    assert(steps_of(a) =~= Seq::new(a.len(), |i: int| a[i].step()));
}

/// A route whose start is not on the map begins with a teleport from there that says so, to where the
/// route enters the map. Where it enters by a global teleport that the caller may use, it tells one of
/// which none is cheaper.
pub proof fn law_virtual_starts_are_told(p: PayloadInput, from: Tile, virtual_entry: Option<u32>)
    ensures
        virtual_action(p, from, virtual_entry) matches ActionV::VirtualStart { kind, from: f, to, cost, metadata } && f == from
            && to == tile_at(
            *p.snapshot,
            match virtual_entry {
                Some(e) => e,
                None => p.sid,
            },
        ) && member(metadata, "reason"@) == Some(JsonV::Str("start_coordinate_not_found"@)) && (virtual_entry is Some && (
        exists|j: int| #[trigger] leads_there(p, virtual_entry->0, j)) ==> exists|b: int| #[trigger]
            leads_there(p, virtual_entry->0, b) && (forall|j: int| #[trigger]
                leads_there(p, virtual_entry->0, j) ==> !told_global_cost(p.globals@[j], p.quick_tele).lt(
                    told_global_cost(p.globals@[b], p.quick_tele),
                )) && member(metadata, "teleport"@) == Some(p.globals@[b].meta@) && cost == if told_global_cost(
                p.globals@[b],
                p.quick_tele,
            ).is_finite() {
                Some(told_global_cost(p.globals@[b], p.quick_tele))
            } else {
                None
            }),
{
    reveal_strlit("reason");
    reveal_strlit("teleport");
    assert("reason"@.len() == 6 && "teleport"@.len() == 8);
    if let Some(e) = virtual_entry {
        lemma_best_global(p, e, p.globals@.len() as int);
        if let Some(b) = best_global(p, e, p.globals@.len() as int) {
            assert(leads_there(p, e, b));
        }
    }
}

}
