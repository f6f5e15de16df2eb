//! The rows that describe tiles and the nodes that lead from tile to tile.

use crate::engine::fx_map::{pair_number, FxIndex};
use crate::json::Json;
use crate::models::Tile;
use vstd::prelude::*;
#[allow(unused_imports)]
use crate::engine::fx_map::{entry, law_pair_key, pair_key};

verus! {

/// A rectangle of tiles; without a plane, on every plane.
#[derive(Debug, Clone, Copy, PartialEq, Eq, Structural)]
pub struct Area {
    pub min_x: i32,
    pub max_x: i32,
    pub min_y: i32,
    pub max_y: i32,
    pub plane: Option<i32>,
}

impl Area {
    pub open spec fn has(self, t: Tile) -> bool {
        self.min_x <= t.x <= self.max_x && self.min_y <= t.y <= self.max_y && (self.plane is Some ==> self.plane->0 == t.plane)
    }

    /// Whether a tile lies in the rectangle.
    pub fn contains(&self, t: Tile) -> (r: bool)
        ensures
            r == self.has(t),
    {
        let on_plane: bool = match self.plane {
            Some(p) => p == t.plane,
            None => true,
        };
        self.min_x <= t.x && t.x <= self.max_x && self.min_y <= t.y && t.y <= self.max_y && on_plane
    }
}

/// Where a node leads.
#[derive(Debug, Clone, Copy)]
pub enum Place {
    /// To either side of a door, from the other.
    Door { inside: Tile, outside: Tile },
    /// To one tile.
    Spot(Tile),
    /// Into a rectangle, where its four sides are given.
    Area { min_x: Option<i32>, max_x: Option<i32>, min_y: Option<i32>, max_y: Option<i32>, plane: Option<i32> },
}

/// A node.
#[derive(Debug)]
pub struct NodeRow {
    pub id: i32,
    pub cost: Option<i64>,
    pub next_node_type: Option<String>,
    pub next_node_id: Option<i32>,
    pub requirement_id: Option<i32>,
    pub place: Place,
    /// Where the node can be used from, where that is a rectangle.
    pub origin: Option<Area>,
    /// The columns of the row, as an object.
    pub columns: Json,
}

/// A requirement: a condition on a named value.
#[derive(Debug)]
pub struct RequirementRow {
    pub id: i32,
    pub key: Option<String>,
    pub value: Option<i64>,
    pub comparison: Option<String>,
}

/// A tile, with the steps that lead from it.
#[derive(Debug)]
pub struct TileRow {
    pub x: i32,
    pub y: i32,
    pub plane: i32,
    pub tiledata: Option<i64>,
    pub allowed_directions: Option<String>,
}

impl TileRow {
    pub open spec fn tile(self) -> Tile {
        Tile { x: self.x, y: self.y, plane: self.plane }
    }
}

/// The place of the first row with an id.
pub open spec fn first_row(rows: Seq<NodeRow>, id: i32) -> Option<usize>
    decreases rows.len(),
{
    if rows.len() == 0 {
        None
    } else {
        match first_row(rows.drop_last(), id) {
            Some(i) => Some(i),
            None => if rows.last().id == id { Some((rows.len() - 1) as usize) } else { None },
        }
    }
}

/// The place of the first row with a tile.
pub open spec fn first_tile(rows: Seq<TileRow>, t: Tile) -> Option<usize>
    decreases rows.len(),
{
    if rows.len() == 0 {
        None
    } else {
        match first_tile(rows.drop_last(), t) {
            Some(i) => Some(i),
            None => if rows.last().tile() == t { Some((rows.len() - 1) as usize) } else { None },
        }
    }
}

proof fn lemma_first_row(rows: Seq<NodeRow>, id: i32)
    requires
        rows.len() <= usize::MAX,
    ensures
        match first_row(rows, id) {
            Some(i) => i < rows.len() && rows[i as int].id == id,
            None => forall|i: int| 0 <= i < rows.len() ==> (#[trigger] rows[i]).id != id,
        },
    decreases rows.len(),
{
    if rows.len() > 0 {
        lemma_first_row(rows.drop_last(), id);
        assert forall|i: int| first_row(rows, id) is None && 0 <= i < rows.len() implies (#[trigger] rows[i]).id != id by {
            if i < rows.len() - 1 {
                assert(rows.drop_last()[i].id != id);
            }
        }
    }
}

proof fn lemma_first_tile(rows: Seq<TileRow>, t: Tile)
    requires
        rows.len() <= usize::MAX,
    ensures
        match first_tile(rows, t) {
            Some(i) => i < rows.len() && rows[i as int].tile() == t,
            None => forall|i: int| 0 <= i < rows.len() ==> (#[trigger] rows[i]).tile() != t,
        },
    decreases rows.len(),
{
    if rows.len() > 0 {
        lemma_first_tile(rows.drop_last(), t);
        assert forall|i: int| first_tile(rows, t) is None && 0 <= i < rows.len() implies (#[trigger] rows[i]).tile() != t by {
            if i < rows.len() - 1 {
                assert(rows.drop_last()[i].tile() != t);
            }
        }
    }
}

/// An integer, counted from the smallest one.
pub open spec fn from_least(v: i32) -> u32 {
    (v + 0x8000_0000) as u32
}

pub fn above_least(v: i32) -> (r: u32)
    ensures
        r == from_least(v),
{
    (v as i64 + 0x8000_0000) as u32
}

/// A table of nodes, looked up by their ids.
pub struct RowTable {
    rows: Vec<NodeRow>,
    index: FxIndex,
}

impl View for RowTable {
    type V = Seq<NodeRow>;

    closed spec fn view(&self) -> Seq<NodeRow> {
        self.rows@
    }
}

impl RowTable {
    #[verifier::type_invariant]
    spec fn indexed(self) -> bool {
        forall|id: i32| #[trigger] entry(self.index@, from_least(id) as u64) == first_row(self.rows@, id)
    }

    pub fn new(rows: Vec<NodeRow>) -> (r: RowTable)
        ensures
            r@ == rows@,
    {
        let mut index: FxIndex = FxIndex::new();
        let mut i: usize = 0;
        while i < rows.len()
            invariant
                i <= rows@.len(),
                forall|id: i32| #[trigger] entry(index@, from_least(id) as u64) == first_row(rows@.take(i as int), id),
            decreases rows@.len() - i,
        {
            let ghost before = index@;
            let k: u64 = above_least(rows[i].id) as u64;
            assert(rows@.take(i + 1).drop_last() =~= rows@.take(i as int));
            assert(entry(before, from_least(rows@[i as int].id) as u64) == first_row(rows@.take(i as int), rows@[i as int].id));
            if index.get(k).is_none() {
                index.insert(k, i);
            }
            assert forall|id: i32| #[trigger] entry(index@, from_least(id) as u64) == first_row(rows@.take(i + 1), id) by {
                assert(entry(before, from_least(id) as u64) == first_row(rows@.take(i as int), id));
            }
            i += 1;
        }
        assert(rows@.take(i as int) =~= rows@);
        RowTable { rows, index }
    }

    pub fn rows(&self) -> (r: &Vec<NodeRow>)
        ensures
            r@ == self@,
    {
        &self.rows
    }

    /// The first row with an id.
    pub fn fetch(&self, id: i32) -> (r: Option<&NodeRow>)
        ensures
            match first_row(self@, id) {
                Some(i) => i < self@.len() && r is Some && *r->0 == self@[i as int],
                None => r is None,
            },
    {
        proof {
            use_type_invariant(&*self);
            assert(entry(self.index@, from_least(id) as u64) == first_row(self.rows@, id));
            assert(self.rows.len() <= usize::MAX);
            lemma_first_row(self.rows@, id);
        }
        match self.index.get(above_least(id) as u64) {
            Some(i) => Some(&self.rows[i]),
            None => None,
        }
    }
}

/// The place of a plane among the planes.
spec fn plane_at(planes: Seq<i32>, p: i32) -> Option<int>
    decreases planes.len(),
{
    if planes.len() == 0 {
        None
    } else if planes.last() == p {
        Some(planes.len() - 1)
    } else {
        plane_at(planes.drop_last(), p)
    }
}

proof fn lemma_plane_at(planes: Seq<i32>, p: i32)
    ensures
        match plane_at(planes, p) {
            Some(k) => 0 <= k < planes.len() && planes[k] == p,
            None => forall|k: int| 0 <= k < planes.len() ==> planes[k] != p,
        },
    decreases planes.len(),
{
    if planes.len() > 0 {
        lemma_plane_at(planes.drop_last(), p);
        assert forall|k: int| plane_at(planes, p) is None && 0 <= k < planes.len() implies planes[k] != p by {
            if k < planes.len() - 1 {
                assert(planes.drop_last()[k] != p);
            }
        }
    }
}

fn find_plane(planes: &Vec<i32>, p: i32) -> (r: Option<usize>)
    ensures
        match plane_at(planes@, p) {
            Some(k) => r is Some && r->0 == k && 0 <= k < planes@.len(),
            None => r is None,
        },
{
    let mut i: usize = planes.len();
    assert(planes@.take(i as int) =~= planes@);
    while i > 0
        invariant
            i <= planes@.len(),
            plane_at(planes@, p) == plane_at(planes@.take(i as int), p),
        decreases i,
    {
        i -= 1;
        assert(planes@.take(i + 1).drop_last() =~= planes@.take(i as int));
        if planes[i] == p {
            return Some(i);
        }
    }
    None
}

spec fn found(planes: Seq<i32>, index: Seq<FxIndex>, t: Tile) -> Option<usize> {
    match plane_at(planes, t.plane) {
        Some(k) => entry(index[k]@, pair_key(from_least(t.x), from_least(t.y))),
        None => None,
    }
}

/// A table of tiles, looked up by where they are.
pub struct TileTable {
    rows: Vec<TileRow>,
    planes: Vec<i32>,
    index: Vec<FxIndex>,
}

impl View for TileTable {
    type V = Seq<TileRow>;

    closed spec fn view(&self) -> Seq<TileRow> {
        self.rows@
    }
}

impl TileTable {
    #[verifier::type_invariant]
    spec fn indexed(self) -> bool {
        &&& self.planes@.len() == self.index@.len()
        &&& forall|t: Tile| #[trigger] found(self.planes@, self.index@, t) == first_tile(self.rows@, t)
    }

    pub fn new(rows: Vec<TileRow>) -> (r: TileTable)
        ensures
            r@ == rows@,
    {
        let mut planes: Vec<i32> = Vec::new();
        let mut index: Vec<FxIndex> = Vec::new();
        let mut i: usize = 0;
        while i < rows.len()
            invariant
                i <= rows@.len(),
                planes@.len() == index@.len(),
                forall|t: Tile| #[trigger] found(planes@, index@, t) == first_tile(rows@.take(i as int), t),
            decreases rows@.len() - i,
        {
            let ghost seen = rows@.take(i as int);
            let ghost (planes0, index0) = (planes@, index@);
            let ghost here = rows@[i as int].tile();
            let p: i32 = rows[i].plane;
            let slot: usize = match find_plane(&planes, p) {
                Some(k) => k,
                None => {
                    let k: usize = planes.len();
                    planes.push(p);
                    index.push(FxIndex::new());
                    assert(planes@.drop_last() =~= planes0);
                    k
                },
            };
            let ghost (planes1, index1) = (planes@, index@);
            proof {
                lemma_plane_at(planes1, p);
                assert forall|t: Tile| #[trigger] found(planes1, index1, t) == first_tile(seen, t) by {
                    assert(found(planes0, index0, t) == first_tile(seen, t));
                    lemma_plane_at(planes0, t.plane);
                }
            }
            let k: u64 = pair_number(above_least(rows[i].x), above_least(rows[i].y));
            assert(found(planes1, index1, here) == first_tile(seen, here));
            if index[slot].get(k).is_none() {
                index[slot].insert(k, i);
            }
            proof {
                assert(rows@.take(i + 1).drop_last() =~= seen);
                assert forall|t: Tile| #[trigger] found(planes@, index@, t) == first_tile(rows@.take(i + 1), t) by {
                    assert(found(planes1, index1, t) == first_tile(seen, t));
                    lemma_plane_at(planes1, t.plane);
                    law_pair_key(from_least(t.x), from_least(t.y), from_least(here.x), from_least(here.y));
                }
            }
            i += 1;
        }
        assert(rows@.take(i as int) =~= rows@);
        TileTable { rows, planes, index }
    }

    /// The row of a tile.
    pub fn fetch_tile(&self, t: Tile) -> (r: Option<&TileRow>)
        ensures
            match first_tile(self@, t) {
                Some(i) => i < self@.len() && r is Some && *r->0 == self@[i as int],
                None => r is None,
            },
    {
        proof {
            use_type_invariant(&*self);
            assert(found(self.planes@, self.index@, t) == first_tile(self.rows@, t));
            assert(self.rows.len() <= usize::MAX);
            lemma_first_tile(self.rows@, t);
            lemma_plane_at(self.planes@, t.plane);
        }
        match find_plane(&self.planes, t.plane) {
            Some(k) => match self.index[k].get(pair_number(above_least(t.x), above_least(t.y))) {
                Some(i) => Some(&self.rows[i]),
                None => None,
            },
            None => None,
        }
    }

    /// Whether there is a tile.
    pub fn tile_exists(&self, t: Tile) -> (r: bool)
        ensures
            r == tile_known(self@, t),
    {
        proof {
            assert(self.rows.len() <= usize::MAX);
            lemma_first_tile(self.rows@, t);
        }
        self.fetch_tile(t).is_some()
    }
}

/// Whether a row has the tile.
pub open spec fn tile_known(rows: Seq<TileRow>, t: Tile) -> bool {
    exists|i: int| 0 <= i < rows.len() && (#[trigger] rows[i]).tile() == t
}

/// A row is found exactly by the first place at which its id stands.
pub proof fn law_first_rows(rows: Seq<NodeRow>, id: i32)
    requires
        rows.len() <= usize::MAX,
    ensures
        match first_row(rows, id) {
            Some(i) => i < rows.len() && rows[i as int].id == id && forall|j: int| 0 <= j < i ==> (#[trigger] rows[j]).id != id,
            None => forall|j: int| 0 <= j < rows.len() ==> (#[trigger] rows[j]).id != id,
        },
    decreases rows.len(),
{
    if rows.len() > 0 {
        let short = rows.drop_last();
        law_first_rows(short, id);
        let m: int = match first_row(short, id) {
            Some(i) => i as int,
            None => short.len() as int,
        };
        assert forall|j: int| 0 <= j < m implies (#[trigger] rows[j]).id != id by {
            assert(short[j].id != id);
        }
    }
}

/// A tile is found exactly by the first place at which it stands.
pub proof fn law_first_tiles(rows: Seq<TileRow>, t: Tile)
    requires
        rows.len() <= usize::MAX,
    ensures
        match first_tile(rows, t) {
            Some(i) => i < rows.len() && rows[i as int].tile() == t && forall|j: int|
                0 <= j < i ==> (#[trigger] rows[j]).tile() != t,
            None => forall|j: int| 0 <= j < rows.len() ==> (#[trigger] rows[j]).tile() != t,
        },
    decreases rows.len(),
{
    if rows.len() > 0 {
        let short = rows.drop_last();
        law_first_tiles(short, t);
        let m: int = match first_tile(short, t) {
            Some(i) => i as int,
            None => short.len() as int,
        };
        assert forall|j: int| 0 <= j < m implies (#[trigger] rows[j]).tile() != t by {
            assert(short[j].tile() != t);
        }
    }
}

}
