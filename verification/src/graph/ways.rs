//! What holds of the edges that lead from a tile: which there are, and that there are no others.

use vstd::prelude::*;
#[allow(unused_imports)]
use crate::cost::CostModel;
#[allow(unused_imports)]
use crate::graph::chain_index::is_handed_to;
#[allow(unused_imports)]
use crate::graph::movement::{data_bit, law_tiledata_bits, steps_in_order, Movement};
#[allow(unused_imports)]
use crate::graph::nodes::{
    capped, chain_end, chase, links_cost, passes, plain_name, NodeKind, NodeTables,
};
#[allow(unused_imports)]
use crate::graph::provider::{
    all_edges, chain_edges, chain_lead, chain_leads, door_edges, door_lead, door_leads, lead_edge, lead_edges,
    lodestone_edges, lodestone_lead, lodestone_leads, move_edge, move_edges, named_start, open_steps, repeats,
    sorted_leads, stepped, takes, EdgeV, Lead,
};
#[allow(unused_imports)]
use crate::graph::provider::lead_key;
#[allow(unused_imports)]
use crate::graph::tables::{first_tile, tile_known, NodeRow, Place, TileRow};
#[allow(unused_imports)]
use crate::json::{member, JsonV};
#[allow(unused_imports)]
use crate::models::{NodeRefV, Tile};
#[allow(unused_imports)]
use crate::options::SearchOptions;
#[allow(unused_imports)]
use crate::sort::{lemma_sorted_positions, sorted_positions};

verus! {

// ---- steps ----

proof fn lemma_moves(tiles: Seq<TileRow>, mask: u32, from: Tile, cost: i64, k: int)
    requires
        0 <= k <= 8,
    ensures
        forall|j: int|
            0 <= j < k && takes(tiles, mask, from, #[trigger] steps_in_order()[j]) ==> move_edges(tiles, mask, from, cost, k).contains(
                move_edge(
                    from,
                    stepped(from, steps_in_order()[j].offset().0, steps_in_order()[j].offset().1)->0,
                    cost,
                ),
            ),
        forall|i: int|
            0 <= i < move_edges(tiles, mask, from, cost, k).len() ==> exists|j: int|
                0 <= j < k && takes(tiles, mask, from, #[trigger] steps_in_order()[j]) && (#[trigger] move_edges(
                    tiles,
                    mask,
                    from,
                    cost,
                    k,
                )[i]) == move_edge(
                    from,
                    stepped(from, steps_in_order()[j].offset().0, steps_in_order()[j].offset().1)->0,
                    cost,
                ),
    decreases k,
{
    if k > 0 {
        lemma_moves(tiles, mask, from, cost, k - 1);
        let o = steps_in_order();
        let (s, all) = (move_edges(tiles, mask, from, cost, k - 1), move_edges(tiles, mask, from, cost, k));
        assert forall|j: int| 0 <= j < k && takes(tiles, mask, from, #[trigger] o[j]) implies all.contains(
            move_edge(from, stepped(from, o[j].offset().0, o[j].offset().1)->0, cost),
        ) by {
            let e = move_edge(from, stepped(from, o[j].offset().0, o[j].offset().1)->0, cost);
            if j < k - 1 {
                let x = choose|x: int| 0 <= x < s.len() && s[x] == e;
                assert(all[x] == e);
            } else {
                assert(all[all.len() - 1] == e);
            }
        }
        assert forall|i: int| 0 <= i < all.len() implies exists|j: int|
            0 <= j < k && takes(tiles, mask, from, #[trigger] o[j]) && (#[trigger] all[i]) == move_edge(
                from,
                stepped(from, o[j].offset().0, o[j].offset().1)->0,
                cost,
            ) by {
            if i < s.len() {
                assert(all[i] == s[i]);
                let j = choose|j: int|
                    0 <= j < k - 1 && takes(tiles, mask, from, #[trigger] o[j]) && s[i] == move_edge(
                        from,
                        stepped(from, o[j].offset().0, o[j].offset().1)->0,
                        cost,
                    );
                assert(takes(tiles, mask, from, o[j]));
            } else {
                assert(takes(tiles, mask, from, o[k - 1]));
            }
        }
    }
}

/// From a tile with data a step leads to a tile around it exactly where the bit of the step is set and
/// the tile is there; it costs a step.
pub proof fn law_steps_follow_the_data(tiles: Seq<TileRow>, row: TileRow, data: i64, from: Tile, cost: i64, m: Movement, to: Tile)
    requires
        row.tiledata == Some(data),
        to.x == from.x + m.offset().0 && to.y == from.y + m.offset().1 && to.plane == from.plane,
    ensures
        move_edges(tiles, open_steps(row), from, cost, 8).contains(
            (EdgeV { type_: "move"@, from_tile: from, to_tile: to, cost_ms: cost, node: None, metadata: None }),
        ) <==> data & data_bit(m) != 0 && tile_known(tiles, to),
{
    let mask = open_steps(row);
    let all = move_edges(tiles, mask, from, cost, 8);
    let e = EdgeV { type_: "move"@, from_tile: from, to_tile: to, cost_ms: cost, node: None, metadata: None };
    let o = steps_in_order();
    lemma_moves(tiles, mask, from, cost, 8);
    law_tiledata_bits(data, m);
    let j: int = match m {
        Movement::North => 0,
        Movement::South => 1,
        Movement::East => 2,
        Movement::West => 3,
        Movement::NorthEast => 4,
        Movement::NorthWest => 5,
        Movement::SouthEast => 6,
        Movement::SouthWest => 7,
    };
    assert(o[j] == m);
    assert(stepped(from, m.offset().0, m.offset().1) == Some(to));
    assert(move_edge(from, to, cost) == e);
    if all.contains(e) {
        let i = choose|i: int| 0 <= i < all.len() && all[i] == e;
        let k = choose|k: int|
            0 <= k < 8 && takes(tiles, mask, from, #[trigger] o[k]) && all[i] == move_edge(
                from,
                stepped(from, o[k].offset().0, o[k].offset().1)->0,
                cost,
            );
        assert(o[k].offset() == m.offset());
        assert(o[k] == m);
    }
}

/// The steps and their bits in a tile's data: which way each leads.
pub proof fn law_steps_have_their_ways()
    ensures
        Movement::West.offset() == (-1int, 0int) && data_bit(Movement::West) == 1,
        Movement::North.offset() == (0int, 1int) && data_bit(Movement::North) == 2,
        Movement::East.offset() == (1int, 0int) && data_bit(Movement::East) == 4,
        Movement::South.offset() == (0int, -1int) && data_bit(Movement::South) == 8,
        Movement::NorthWest.offset() == (-1int, 1int) && data_bit(Movement::NorthWest) == 16,
        Movement::NorthEast.offset() == (1int, 1int) && data_bit(Movement::NorthEast) == 32,
        Movement::SouthEast.offset() == (1int, -1int) && data_bit(Movement::SouthEast) == 64,
        Movement::SouthWest.offset() == (-1int, -1int) && data_bit(Movement::SouthWest) == 128,
{
}

// ---- nodes ----

/// Sorted ways are the ways that were given, and their edges theirs.
proof fn lemma_sorted(kind: NodeKind, rows: Seq<NodeRow>, from: Tile, leads: Seq<Lead>)
    requires
        leads.len() <= usize::MAX,
    ensures
        forall|i: int|
            0 <= i < leads.len() ==> lead_edges(kind, rows, from, sorted_leads(kind, rows, leads)).contains(
                lead_edge(kind, rows, from, #[trigger] leads[i]),
            ),
        forall|j: int|
            0 <= j < lead_edges(kind, rows, from, sorted_leads(kind, rows, leads)).len() ==> exists|i: int|
                0 <= i < leads.len() && (#[trigger] lead_edges(kind, rows, from, sorted_leads(kind, rows, leads))[j])
                    == lead_edge(kind, rows, from, #[trigger] leads[i]),
{
    let keys = leads.map_values(|l: Lead| lead_key(kind, rows, l));
    lemma_sorted_positions(keys);
    let order = sorted_positions(keys);
    let s = lead_edges(kind, rows, from, sorted_leads(kind, rows, leads));
    assert forall|i: int| 0 <= i < leads.len() implies s.contains(lead_edge(kind, rows, from, #[trigger] leads[i])) by {
        assert(order.contains(i as usize));
        let j = choose|j: int| 0 <= j < order.len() && order[j] == i as usize;
        assert(s[j] == lead_edge(kind, rows, from, leads[i]));
    }
    assert forall|j: int| 0 <= j < s.len() implies exists|i: int|
        0 <= i < leads.len() && (#[trigger] s[j]) == lead_edge(kind, rows, from, #[trigger] leads[i]) by {
        let i = order[j] as int;
        assert(order[j] < keys.len());
        assert(s[j] == lead_edge(kind, rows, from, leads[i]));
    }
}

proof fn lemma_doors(t: NodeTables, tiles: Seq<TileRow>, model: CostModel, from: Tile, k: int)
    requires
        0 <= k <= t.doors@.len() <= usize::MAX,
    ensures
        door_leads(t, tiles, model, from, k).len() <= k,
        forall|i: int|
            0 <= i < k && (#[trigger] door_lead(t, tiles, model, from, i)) is Some ==> door_leads(t, tiles, model, from, k).contains(
                door_lead(t, tiles, model, from, i)->0,
            ),
        forall|j: int|
            0 <= j < door_leads(t, tiles, model, from, k).len() ==> exists|i: int|
                0 <= i < k && (#[trigger] door_lead(t, tiles, model, from, i)) == Some(
                    #[trigger] door_leads(t, tiles, model, from, k)[j],
                ),
    decreases k,
{
    if k > 0 {
        lemma_doors(t, tiles, model, from, k - 1);
        let (s, all) = (door_leads(t, tiles, model, from, k - 1), door_leads(t, tiles, model, from, k));
        assert forall|i: int| 0 <= i < k && (#[trigger] door_lead(t, tiles, model, from, i)) is Some implies all.contains(
            door_lead(t, tiles, model, from, i)->0,
        ) by {
            let l = door_lead(t, tiles, model, from, i)->0;
            if i < k - 1 {
                let x = choose|x: int| 0 <= x < s.len() && s[x] == l;
                assert(all[x] == l);
            } else {
                assert(all[all.len() - 1] == l);
            }
        }
        assert forall|j: int| 0 <= j < all.len() implies exists|i: int|
            0 <= i < k && (#[trigger] door_lead(t, tiles, model, from, i)) == Some(#[trigger] all[j]) by {
            if j < s.len() {
                assert(all[j] == s[j]);
                let i = choose|i: int| 0 <= i < k - 1 && (#[trigger] door_lead(t, tiles, model, from, i)) == Some(s[j]);
                assert(door_lead(t, tiles, model, from, i) == Some(all[j]));
            } else {
                assert(door_lead(t, tiles, model, from, k - 1) == Some(all[j]));
            }
        }
    }
}

/// Whether a door can be gone through from a tile to another: it stands between the two, no other node
/// hands on to it, and the other tile is there.
pub open spec fn is_way_through(t: NodeTables, tiles: Seq<TileRow>, i: int, from: Tile, to: Tile) -> bool {
    &&& 0 <= i < t.doors@.len()
    &&& t.doors@[i].place matches Place::Door { inside, outside } && ((inside == from && outside == to) || (inside != from
        && outside == from && inside == to))
    &&& !is_handed_to(t, NodeRefV { type_: plain_name("door"@), id: t.doors@[i].id })
    &&& tile_known(tiles, to)
}

/// The cost of a node: what is laid down for its kind, else what its row says, else 600 ms.
pub open spec fn node_cost(laid_down: Option<i64>, row: Option<i64>) -> i64 {
    if laid_down is Some {
        laid_down->0
    } else if row is Some {
        row->0
    } else {
        600
    }
}

/// Every door that can be gone through from a tile has an edge, to its other side, at its cost, that says
/// whether it leads in or out; and doors have no other edges.
pub proof fn law_doors_lead_through(t: NodeTables, tiles: Seq<TileRow>, model: CostModel, from: Tile)
    requires
        t.doors@.len() <= usize::MAX,
    ensures
        forall|i: int, to: Tile| #[trigger]
            is_way_through(t, tiles, i, from, to) ==> exists|j: int|
                0 <= j < door_edges(t, tiles, model, from).len() && is_door_edge(
                    t,
                    model,
                    i,
                    from,
                    to,
                    #[trigger] door_edges(t, tiles, model, from)[j],
                ),
        forall|j: int|
            0 <= j < door_edges(t, tiles, model, from).len() ==> is_some_door(
                t,
                tiles,
                model,
                from,
                #[trigger] door_edges(t, tiles, model, from)[j],
            ),
{
    let n = t.doors@.len() as int;
    let leads = door_leads(t, tiles, model, from, n);
    let edges = door_edges(t, tiles, model, from);
    let rows = t.doors@;
    lemma_doors(t, tiles, model, from, n);
    lemma_sorted(NodeKind::Door, rows, from, leads);
    assert forall|i: int, to: Tile| #[trigger] is_way_through(t, tiles, i, from, to) implies exists|j: int|
        0 <= j < edges.len() && is_door_edge(t, model, i, from, to, #[trigger] edges[j]) by {
        let l = door_lead(t, tiles, model, from, i);
        assert(l is Some);
        assert(leads.contains(l->0));
        let x = choose|x: int| 0 <= x < leads.len() && leads[x] == l->0;
        let e = lead_edge(NodeKind::Door, rows, from, leads[x]);
        assert(edges.contains(e));
        let j = choose|j: int| 0 <= j < edges.len() && edges[j] == e;
        lemma_door_edge(t, tiles, model, from, i);
        assert(is_door_edge(t, model, i, from, to, edges[j]));
    }
    assert forall|j: int| 0 <= j < edges.len() implies is_some_door(t, tiles, model, from, #[trigger] edges[j]) by {
        let x = choose|x: int| 0 <= x < leads.len() && edges[j] == lead_edge(NodeKind::Door, rows, from, #[trigger] leads[x]);
        let i = choose|i: int| 0 <= i < n && (#[trigger] door_lead(t, tiles, model, from, i)) == Some(leads[x]);
        lemma_door_edge(t, tiles, model, from, i);
        assert(is_way_through(t, tiles, i, from, leads[x].to));
    }
}

/// Whether an edge is that of a door: it says from where to where, what it costs, by which door and
/// which way.
pub open spec fn is_door_edge(t: NodeTables, model: CostModel, i: int, from: Tile, to: Tile, e: EdgeV) -> bool {
    let row = t.doors@[i];
    &&& e.type_ == "door"@ && e.from_tile == from && e.to_tile == to
    &&& e.cost_ms == node_cost(model.door, row.cost)
    &&& e.node == Some(NodeRefV { type_: "door"@, id: row.id })
    &&& e.metadata is Some && member(e.metadata->0, "door_direction"@) == Some(
        JsonV::Str(
            if row.place matches Place::Door { inside, outside } && inside == from {
                "OUT"@
            } else {
                "IN"@
            },
        ),
    )
}

/// Whether an edge is that of a door that can be gone through.
pub open spec fn is_some_door(t: NodeTables, tiles: Seq<TileRow>, model: CostModel, from: Tile, e: EdgeV) -> bool {
    exists|i: int, to: Tile| #[trigger] is_way_through(t, tiles, i, from, to) && is_door_edge(t, model, i, from, to, e)
}

proof fn lemma_door_edge(t: NodeTables, tiles: Seq<TileRow>, model: CostModel, from: Tile, i: int)
    requires
        0 <= i < t.doors@.len() <= usize::MAX,
        door_lead(t, tiles, model, from, i) is Some,
    ensures
        is_way_through(t, tiles, i, from, door_lead(t, tiles, model, from, i)->0.to),
        is_door_edge(
            t,
            model,
            i,
            from,
            door_lead(t, tiles, model, from, i)->0.to,
            lead_edge(NodeKind::Door, t.doors@, from, door_lead(t, tiles, model, from, i)->0),
        ),
{
    reveal_strlit("door_direction");
    reveal_strlit("db_door_direction");
    reveal_strlit("action");
    reveal_strlit("db_row");
    assert("door_direction"@.len() == 14 && "db_door_direction"@.len() == 17 && "action"@.len() == 6 && "db_row"@.len() == 6);
}

proof fn lemma_lodestones(t: NodeTables, tiles: Seq<TileRow>, model: CostModel, extras: JsonV, from: Tile, k: int)
    requires
        0 <= k <= t.lodestones@.len() <= usize::MAX,
    ensures
        lodestone_leads(t, tiles, model, extras, from, k).len() <= k,
        forall|i: int|
            0 <= i < k && (#[trigger] lodestone_lead(t, tiles, model, extras, from, i)) is Some ==> lodestone_leads(
                t,
                tiles,
                model,
                extras,
                from,
                k,
            ).contains(lodestone_lead(t, tiles, model, extras, from, i)->0),
        forall|j: int|
            0 <= j < lodestone_leads(t, tiles, model, extras, from, k).len() ==> exists|i: int|
                0 <= i < k && (#[trigger] lodestone_lead(t, tiles, model, extras, from, i)) == Some(
                    #[trigger] lodestone_leads(t, tiles, model, extras, from, k)[j],
                ),
    decreases k,
{
    if k > 0 {
        lemma_lodestones(t, tiles, model, extras, from, k - 1);
        let s = lodestone_leads(t, tiles, model, extras, from, k - 1);
        let all = lodestone_leads(t, tiles, model, extras, from, k);
        assert forall|i: int|
            0 <= i < k && (#[trigger] lodestone_lead(t, tiles, model, extras, from, i)) is Some implies all.contains(
            lodestone_lead(t, tiles, model, extras, from, i)->0,
        ) by {
            let l = lodestone_lead(t, tiles, model, extras, from, i)->0;
            if i < k - 1 {
                let x = choose|x: int| 0 <= x < s.len() && s[x] == l;
                assert(all[x] == l);
            } else {
                assert(all[all.len() - 1] == l);
            }
        }
        assert forall|j: int| 0 <= j < all.len() implies exists|i: int|
            0 <= i < k && (#[trigger] lodestone_lead(t, tiles, model, extras, from, i)) == Some(#[trigger] all[j]) by {
            if j < s.len() {
                assert(all[j] == s[j]);
                let i = choose|i: int|
                    0 <= i < k - 1 && (#[trigger] lodestone_lead(t, tiles, model, extras, from, i)) == Some(s[j]);
                assert(lodestone_lead(t, tiles, model, extras, from, i) == Some(all[j]));
            } else {
                assert(lodestone_lead(t, tiles, model, extras, from, k - 1) == Some(all[j]));
            }
        }
    }
}

/// Whether a lodestone can be used from a tile: it stands elsewhere, on a tile that is there, what it
/// requires is met, and no other node hands on to it.
pub open spec fn is_lodestone_open(t: NodeTables, tiles: Seq<TileRow>, extras: JsonV, i: int, from: Tile, to: Tile) -> bool {
    &&& 0 <= i < t.lodestones@.len()
    &&& t.lodestones@[i].place == Place::Spot(to)
    &&& t.lodestones@[i].requirement_id is Some ==> passes(t.requirements@, extras, t.lodestones@[i].requirement_id->0)
    &&& !is_handed_to(t, NodeRefV { type_: plain_name("lodestone"@), id: t.lodestones@[i].id })
    &&& to != from && tile_known(tiles, to)
}

/// Whether an edge is that of a lodestone.
pub open spec fn is_lodestone_edge(t: NodeTables, model: CostModel, i: int, from: Tile, to: Tile, e: EdgeV) -> bool {
    let row = t.lodestones@[i];
    &&& e.type_ == "lodestone"@ && e.from_tile == from && e.to_tile == to
    &&& e.cost_ms == node_cost(model.lodestone, row.cost)
    &&& e.node == Some(NodeRefV { type_: "lodestone"@, id: row.id })
}

/// Whether an edge is that of a lodestone that can be used.
pub open spec fn is_some_lodestone(t: NodeTables, tiles: Seq<TileRow>, model: CostModel, extras: JsonV, from: Tile, e: EdgeV) -> bool {
    exists|i: int, to: Tile| #[trigger]
        is_lodestone_open(t, tiles, extras, i, from, to) && is_lodestone_edge(t, model, i, from, to, e)
}

/// At the tile that was named as the start every lodestone that can be used has an edge, at its cost, and
/// lodestones have no other edges; elsewhere they have none.
pub proof fn law_lodestones_lead_from_the_start(t: NodeTables, tiles: Seq<TileRow>, model: CostModel, extras: JsonV, from: Tile)
    requires
        t.lodestones@.len() <= usize::MAX,
    ensures
        named_start(extras) != Some(from) ==> lodestone_edges(t, tiles, model, extras, from).len() == 0,
        forall|i: int, to: Tile| #[trigger]
            is_lodestone_open(t, tiles, extras, i, from, to) && named_start(extras) == Some(from) ==> exists|j: int|
                0 <= j < lodestone_edges(t, tiles, model, extras, from).len() && is_lodestone_edge(
                    t,
                    model,
                    i,
                    from,
                    to,
                    #[trigger] lodestone_edges(t, tiles, model, extras, from)[j],
                ),
        forall|j: int|
            0 <= j < lodestone_edges(t, tiles, model, extras, from).len() ==> is_some_lodestone(
                t,
                tiles,
                model,
                extras,
                from,
                #[trigger] lodestone_edges(t, tiles, model, extras, from)[j],
            ),
{
    if named_start(extras) == Some(from) {
        let n = t.lodestones@.len() as int;
        let leads = lodestone_leads(t, tiles, model, extras, from, n);
        let edges = lodestone_edges(t, tiles, model, extras, from);
        let rows = t.lodestones@;
        lemma_lodestones(t, tiles, model, extras, from, n);
        lemma_sorted(NodeKind::Lodestone, rows, from, leads);
        assert forall|i: int, to: Tile| #[trigger] is_lodestone_open(t, tiles, extras, i, from, to) implies exists|j: int|
            0 <= j < edges.len() && is_lodestone_edge(t, model, i, from, to, #[trigger] edges[j]) by {
            let l = lodestone_lead(t, tiles, model, extras, from, i);
            assert(l is Some);
            assert(leads.contains(l->0));
            let x = choose|x: int| 0 <= x < leads.len() && leads[x] == l->0;
            let e = lead_edge(NodeKind::Lodestone, rows, from, leads[x]);
            assert(edges.contains(e));
            let j = choose|j: int| 0 <= j < edges.len() && edges[j] == e;
            assert(is_lodestone_edge(t, model, i, from, to, edges[j]));
        }
        assert forall|j: int| 0 <= j < edges.len() implies is_some_lodestone(
            t,
            tiles,
            model,
            extras,
            from,
            #[trigger] edges[j],
        ) by {
            let x = choose|x: int|
                0 <= x < leads.len() && edges[j] == lead_edge(NodeKind::Lodestone, rows, from, #[trigger] leads[x]);
            let i = choose|i: int|
                0 <= i < n && (#[trigger] lodestone_lead(t, tiles, model, extras, from, i)) == Some(leads[x]);
            assert(is_lodestone_open(t, tiles, extras, i, from, leads[x].to));
        }
    }
}

/// Whether the chain that a node starts can be used from a tile: the tile lies in the node's rectangle,
/// where it is an object or a person; no other node hands on to it; its chain does not break off, and
/// leads to another tile that is there.
pub open spec fn is_chain_open(
    t: NodeTables,
    tiles: Seq<TileRow>,
    model: CostModel,
    options: SearchOptions,
    kind: NodeKind,
    i: int,
    from: Tile,
    to: Tile,
) -> bool {
    let row = t.of_kind(kind)[i];
    let n = NodeRefV { type_: plain_name(kind.label()), id: row.id };
    let (links, failure) = chase(t, model, options.extras@, options.max_chain_depth as nat, Seq::empty(), n);
    &&& 0 <= i < t.of_kind(kind).len()
    &&& kind == NodeKind::Object || kind == NodeKind::Npc ==> row.origin is Some && row.origin->0.min_x <= from.x
        <= row.origin->0.max_x && row.origin->0.min_y <= from.y <= row.origin->0.max_y && (row.origin->0.plane is Some
        ==> row.origin->0.plane->0 == from.plane)
    &&& !is_handed_to(t, n)
    &&& failure is None && chain_end(links) is Some
    &&& to.x == chain_end(links)->0.min_x && to.y == chain_end(links)->0.min_y && to.plane == match chain_end(links)->0.plane {
        Some(p) => p,
        None => from.plane,
    }
    &&& to != from && tile_known(tiles, to)
}

/// Whether an edge is that of a chain: it leads to the chain's end and costs what its links cost
/// together.
pub open spec fn is_chain_edge(
    t: NodeTables,
    model: CostModel,
    options: SearchOptions,
    kind: NodeKind,
    i: int,
    from: Tile,
    to: Tile,
    e: EdgeV,
) -> bool {
    let row = t.of_kind(kind)[i];
    let n = NodeRefV { type_: plain_name(kind.label()), id: row.id };
    let links = chase(t, model, options.extras@, options.max_chain_depth as nat, Seq::empty(), n).0;
    &&& e.type_ == kind.label() && e.from_tile == from && e.to_tile == to
    &&& e.cost_ms == capped(links_cost(links))
    &&& e.node == Some(NodeRefV { type_: kind.label(), id: row.id })
}

/// What is collected of the first `k` ways, without those that repeat one another.
spec fn collected(rows: Seq<NodeRow>, lead: spec_fn(int) -> Option<Lead>, k: int) -> Seq<Lead>
    decreases k,
{
    if k <= 0 {
        Seq::empty()
    } else {
        let rest = collected(rows, lead, k - 1);
        match lead(k - 1) {
            Some(l) => if repeats(rows, rest, l) { rest } else { rest.push(l) },
            None => rest,
        }
    }
}

spec fn comes_from(lead: spec_fn(int) -> Option<Lead>, k: int, l: Lead) -> bool {
    exists|i: int| 0 <= i < k && (#[trigger] lead(i)) == Some(l)
}

proof fn lemma_collected(rows: Seq<NodeRow>, lead: spec_fn(int) -> Option<Lead>, k: int)
    requires
        0 <= k,
    ensures
        collected(rows, lead, k).len() <= k,
        forall|i: int|
            0 <= i < k && (#[trigger] lead(i)) is Some ==> repeats(rows, collected(rows, lead, k), lead(i)->0),
        forall|j: int|
            0 <= j < collected(rows, lead, k).len() ==> comes_from(lead, k, #[trigger] collected(rows, lead, k)[j]),
    decreases k,
{
    if k > 0 {
        lemma_collected(rows, lead, k - 1);
        let (s, all) = (collected(rows, lead, k - 1), collected(rows, lead, k));
        assert forall|i: int| 0 <= i < k && (#[trigger] lead(i)) is Some implies repeats(rows, all, lead(i)->0) by {
            let l = lead(i)->0;
            if i < k - 1 || all.len() == s.len() {
                assert(repeats(rows, s, l));
                let x = choose|x: int|
                    0 <= x < s.len() && rows[(#[trigger] s[x]).row as int].id == rows[l.row as int].id && s[x].to == l.to;
                assert(all[x] == s[x]);
            } else {
                assert(all[all.len() - 1] == l);
            }
        }
        assert forall|j: int| 0 <= j < all.len() implies comes_from(lead, k, #[trigger] all[j]) by {
            if j < s.len() {
                assert(all[j] == s[j]);
                assert(comes_from(lead, k - 1, s[j]));
                let i = choose|i: int| 0 <= i < k - 1 && (#[trigger] lead(i)) == Some(s[j]);
                assert(lead(i) == Some(all[j]));
            } else {
                assert(lead(k - 1) == Some(all[j]));
            }
        }
    }
}

proof fn lemma_chains_collected(
    t: NodeTables,
    tiles: Seq<TileRow>,
    model: CostModel,
    options: SearchOptions,
    kind: NodeKind,
    from: Tile,
    k: int,
)
    ensures
        chain_leads(t, tiles, model, options, kind, from, k) == collected(
            t.of_kind(kind),
            |i: int| chain_lead(t, tiles, model, options, kind, from, i),
            k,
        ),
    decreases k,
{
    if k > 0 {
        lemma_chains_collected(t, tiles, model, options, kind, from, k - 1);
    }
}

/// Whether an edge is that of a chain that can be used.
pub open spec fn is_some_chain(
    t: NodeTables,
    tiles: Seq<TileRow>,
    model: CostModel,
    options: SearchOptions,
    kind: NodeKind,
    from: Tile,
    e: EdgeV,
) -> bool {
    exists|i: int, to: Tile| #[trigger]
        is_chain_open(t, tiles, model, options, kind, i, from, to) && is_chain_edge(
            t,
            model,
            options,
            kind,
            i,
            from,
            to,
            e,
        )
}

/// What the way that a chain opens is.
proof fn lemma_chain_lead(
    t: NodeTables,
    tiles: Seq<TileRow>,
    model: CostModel,
    options: SearchOptions,
    kind: NodeKind,
    from: Tile,
    i: int,
    to: Tile,
)
    requires
        0 <= i < t.of_kind(kind).len() <= usize::MAX,
    ensures
        is_chain_open(t, tiles, model, options, kind, i, from, to) <==> (chain_lead(
            t,
            tiles,
            model,
            options,
            kind,
            from,
            i,
        ) matches Some(l) && l.to == to),
        chain_lead(t, tiles, model, options, kind, from, i) matches Some(l) ==> l.row == i && is_chain_edge(
            t,
            model,
            options,
            kind,
            i,
            from,
            l.to,
            lead_edge(kind, t.of_kind(kind), from, l),
        ),
{
}

/// Every chain that can be used from a tile has an edge, by a node with the id of its first, to where it
/// leads.
pub proof fn law_chains_lead_on(
    t: NodeTables,
    tiles: Seq<TileRow>,
    model: CostModel,
    options: SearchOptions,
    kind: NodeKind,
    from: Tile,
    i: int,
    to: Tile,
)
    requires
        t.of_kind(kind).len() <= usize::MAX,
        is_chain_open(t, tiles, model, options, kind, i, from, to),
    ensures
        exists|j: int|
            0 <= j < chain_edges(t, tiles, model, options, kind, from).len() && (#[trigger] chain_edges(
                t,
                tiles,
                model,
                options,
                kind,
                from,
            )[j]).to_tile == to && chain_edges(t, tiles, model, options, kind, from)[j].node == Some(
                NodeRefV { type_: kind.label(), id: t.of_kind(kind)[i].id },
            ),
{
    let rows = t.of_kind(kind);
    let n = rows.len() as int;
    let leads = chain_leads(t, tiles, model, options, kind, from, n);
    let edges = chain_edges(t, tiles, model, options, kind, from);
    let lead = |x: int| chain_lead(t, tiles, model, options, kind, from, x);
    lemma_chains_collected(t, tiles, model, options, kind, from, n);
    lemma_collected(rows, lead, n);
    lemma_sorted(kind, rows, from, leads);
    lemma_chain_lead(t, tiles, model, options, kind, from, i, to);
    let l = lead(i)->0;
    assert(repeats(rows, leads, l));
    let x = choose|x: int|
        0 <= x < leads.len() && rows[(#[trigger] leads[x]).row as int].id == rows[l.row as int].id && leads[x].to == l.to;
    let e = lead_edge(kind, rows, from, leads[x]);
    assert(edges.contains(e));
    let j = choose|j: int| 0 <= j < edges.len() && edges[j] == e;
    assert(edges[j].to_tile == to);
}

/// The edges of objects, interface slots, persons and items are those of chains that can be used.
pub proof fn law_only_open_chains_lead_on(
    t: NodeTables,
    tiles: Seq<TileRow>,
    model: CostModel,
    options: SearchOptions,
    kind: NodeKind,
    from: Tile,
    j: int,
)
    requires
        t.of_kind(kind).len() <= usize::MAX,
        0 <= j < chain_edges(t, tiles, model, options, kind, from).len(),
    ensures
        is_some_chain(t, tiles, model, options, kind, from, chain_edges(t, tiles, model, options, kind, from)[j]),
{
    let rows = t.of_kind(kind);
    let n = rows.len() as int;
    let leads = chain_leads(t, tiles, model, options, kind, from, n);
    let edges = chain_edges(t, tiles, model, options, kind, from);
    let lead = |x: int| chain_lead(t, tiles, model, options, kind, from, x);
    lemma_chains_collected(t, tiles, model, options, kind, from, n);
    lemma_collected(rows, lead, n);
    lemma_sorted(kind, rows, from, leads);
    let x = choose|x: int| 0 <= x < leads.len() && edges[j] == lead_edge(kind, rows, from, #[trigger] leads[x]);
    assert(comes_from(lead, n, leads[x]));
    let i = choose|i: int| 0 <= i < n && (#[trigger] lead(i)) == Some(leads[x]);
    lemma_chain_lead(t, tiles, model, options, kind, from, i, leads[x].to);
    assert(is_chain_open(t, tiles, model, options, kind, i, from, leads[x].to));
}

/// The edges from a tile that is there are its steps and, of the nodes that may be used, those of the
/// doors, the lodestones, the objects, the interface slots, the persons and the items, in this order;
/// from a tile that is not there nothing leads.
pub proof fn law_edges_come_in_order(t: NodeTables, tiles: Seq<TileRow>, model: CostModel, options: SearchOptions, from: Tile)
    requires
        tiles.len() <= usize::MAX,
    ensures
        !tile_known(tiles, from) ==> all_edges(t, tiles, model, options, from).len() == 0,
        forall|i: int|
            0 <= i < tiles.len() && (#[trigger] tiles[i]).tile() == from && (forall|j: int|
                0 <= j < i ==> (#[trigger] tiles[j]).tile() != from) ==> all_edges(t, tiles, model, options, from)
                == move_edges(tiles, open_steps(tiles[i]), from, model.step_cost_ms, 8) + (if options.use_doors {
                door_edges(t, tiles, model, from)
            } else {
                Seq::empty()
            }) + (if options.use_lodestones {
                lodestone_edges(t, tiles, model, options.extras@, from)
            } else {
                Seq::empty()
            }) + (if options.use_objects {
                chain_edges(t, tiles, model, options, NodeKind::Object, from)
            } else {
                Seq::empty()
            }) + (if options.use_ifslots {
                chain_edges(t, tiles, model, options, NodeKind::Ifslot, from)
            } else {
                Seq::empty()
            }) + (if options.use_npcs {
                chain_edges(t, tiles, model, options, NodeKind::Npc, from)
            } else {
                Seq::empty()
            }) + (if options.use_items {
                chain_edges(t, tiles, model, options, NodeKind::Item, from)
            } else {
                Seq::empty()
            }),
{
    crate::graph::tables::law_first_tiles(tiles, from);
    if !tile_known(tiles, from) {
        assert(first_tile(tiles, from) is None);
    }
    assert forall|i: int|
        0 <= i < tiles.len() && (#[trigger] tiles[i]).tile() == from && (forall|j: int|
            0 <= j < i ==> (#[trigger] tiles[j]).tile() != from) implies first_tile(tiles, from) == Some(i as usize) by {
        let k = first_tile(tiles, from)->0 as int;
        assert(tiles[k].tile() == from);
        if k < i {
            assert(tiles[k].tile() != from);
        }
        if i < k {
            assert(tiles[i].tile() != from);
        }
    }
}

}
