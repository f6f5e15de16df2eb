//! Shortest four-neighbour paths on a tile grid.

use crate::models::Tile;
use crate::planner::open_list::{Entry, OpenList};
use std::collections::HashMap;
use vstd::prelude::*;
#[allow(unused_imports)]
use crate::planner::open_list::{place_for, with_entry};

verus! {

broadcast use vstd::std_specs::hash::group_hash_axioms;

/// Whether both predicates can answer yes at (x, y).
pub open spec fn can_pass<FA: Fn(i32, i32) -> bool, FW: Fn(i32, i32) -> bool>(fa: FA, fw: FW) -> spec_fn(i32, i32) -> bool {
    |x: i32, y: i32| call_ensures(fa, (x, y), true) && call_ensures(fw, (x, y), true)
}

/// Whether neither predicate can answer no at (x, y).
pub open spec fn must_pass<FA: Fn(i32, i32) -> bool, FW: Fn(i32, i32) -> bool>(fa: FA, fw: FW) -> spec_fn(i32, i32) -> bool {
    |x: i32, y: i32| !call_ensures(fa, (x, y), false) && !call_ensures(fw, (x, y), false)
}

/// Whether a predicate answers every call.
pub open spec fn answers<F: Fn(i32, i32) -> bool>(f: F) -> bool {
    forall|x: i32, y: i32| call_requires(f, (x, y))
}

/// The distance of two cells in steps along the axes.
pub open spec fn steps_apart(ax: int, ay: int, bx: int, by: int) -> int {
    (if ax < bx { bx - ax } else { ax - bx }) + (if ay < by { by - ay } else { ay - by })
}

/// Whether a path of passable cells, each a neighbour of the one before, leads from `start` to `goal`.
pub open spec fn is_path(pass: spec_fn(i32, i32) -> bool, start: Tile, goal: Tile, p: Seq<Tile>) -> bool {
    &&& p.len() > 0
    &&& p[0] == start
    &&& p.last() == goal
    &&& forall|i: int| 0 <= i < p.len() ==> (#[trigger] p[i]).plane == start.plane && pass(p[i].x, p[i].y)
    &&& forall|i: int|
        0 <= i < p.len() - 1 ==> steps_apart((#[trigger] p[i]).x as int, p[i].y as int, p[i + 1].x as int, p[i + 1].y as int) == 1
}

/// The neighbour of (x, y) in direction `d`: north, east, south, west. `None` at the edge of
/// the coordinate range.
pub open spec fn neighbour(x: i32, y: i32, d: int) -> Option<(i32, i32)> {
    if d == 0 {
        if y > i32::MIN { Some((x, (y - 1) as i32)) } else { None }
    } else if d == 1 {
        if x < i32::MAX { Some(((x + 1) as i32, y)) } else { None }
    } else if d == 2 {
        if y < i32::MAX { Some((x, (y + 1) as i32)) } else { None }
    } else {
        if x > i32::MIN { Some(((x - 1) as i32, y)) } else { None }
    }
}

/// What a search over the grid knows: the cells that it has found, each with its cost and with the
/// place of the cell that it was reached from, the entries that wait, and the number of the entry
/// that was made last.
#[verifier::ext_equal]
pub struct Trail {
    pub cells: Seq<(i32, i32)>,
    pub cost: Seq<usize>,
    pub parent: Seq<usize>,
    pub open: Seq<Entry>,
    pub made: u64,
}

/// The entry of a cell: it ranks by its cost and its distance from the goal. Of entries of one rank
/// the one with the lower cost leaves first, then that further north, then that further west, then
/// the older one.
pub open spec fn cell_entry(x: i32, y: i32, c: usize, goal: Tile, made: u64, item: usize) -> Entry {
    Entry {
        rank: (c + steps_apart(x as int, y as int, goal.x as int, goal.y as int)) as u128,
        cost: c as u128,
        tie1: y as i64,
        tie2: x as i64,
        seq: made,
        item,
    }
}

/// What a search knows when it begins.
pub open spec fn trail_start(start: Tile, goal: Tile) -> Trail {
    Trail {
        cells: seq![(start.x, start.y)],
        cost: seq![0usize],
        parent: seq![0usize],
        open: seq![cell_entry(start.x, start.y, 0, goal, 0, 0)],
        made: 0,
    }
}

/// The trail once the cell (x, y) is come to at cost `c` from the cell at `from`: another one only
/// where the cell was not found at that cost before.
pub open spec fn come_to(t: Trail, goal: Tile, x: i32, y: i32, c: usize, from: usize) -> Trail {
    let known = t.cells.contains((x, y));
    let j = if known { t.cells.index_of((x, y)) } else { t.cells.len() as int };
    let made = if t.made == u64::MAX { 0u64 } else { (t.made + 1) as u64 };
    if known && t.cost[j] <= c {
        t
    } else {
        Trail {
            cells: if known { t.cells } else { t.cells.push((x, y)) },
            cost: if known { t.cost.update(j, c) } else { t.cost.push(c) },
            parent: if known { t.parent.update(j, from) } else { t.parent.push(from) },
            open: with_entry(t.open, cell_entry(x, y, c, goal, made, j as usize)),
            made,
        }
    }
}

/// The trail after the first `d` neighbours of the cell at `cur` were looked at: north, east, south
/// and west of it.
pub open spec fn looked_around(t: Trail, pass: spec_fn(i32, i32) -> bool, goal: Tile, cur: usize, d: int) -> Trail
    decreases d,
{
    if d <= 0 {
        t
    } else {
        let before = looked_around(t, pass, goal, cur, d - 1);
        match neighbour(t.cells[cur as int].0, t.cells[cur as int].1, d - 1) {
            Some((x, y)) => if pass(x, y) {
                come_to(before, goal, x, y, (t.cost[cur as int] + 1) as usize, cur)
            } else {
                before
            },
            None => before,
        }
    }
}

/// The trail after the entry that leaves first was taken up, which is passed over where its cell
/// has been found at another cost since.
pub open spec fn trail_next(t: Trail, pass: spec_fn(i32, i32) -> bool, goal: Tile) -> Trail {
    let e = t.open.last();
    let rest = Trail { open: t.open.drop_last(), ..t };
    if e.cost == t.cost[e.item as int] { looked_around(rest, pass, goal, e.item, 4) } else { rest }
}

/// The trail after `n` entries were taken up.
pub open spec fn trail_after(pass: spec_fn(i32, i32) -> bool, start: Tile, goal: Tile, n: nat) -> Trail
    decreases n,
{
    if n == 0 { trail_start(start, goal) } else { trail_next(trail_after(pass, start, goal, (n - 1) as nat), pass, goal) }
}

/// Whether a search is over: nothing waits, or the goal is to be taken up.
pub open spec fn is_over(t: Trail, goal: Tile) -> bool {
    t.open.len() == 0 || t.cells[t.open.last().item as int] == (goal.x, goal.y)
}

/// The way by which the cell at `i` was reached, followed back at most `most` cells.
pub open spec fn way_to(cells: Seq<(i32, i32)>, parent: Seq<usize>, plane: i32, i: usize, most: nat) -> Seq<Tile>
    decreases most,
{
    let here = Tile { x: cells[i as int].0, y: cells[i as int].1, plane };
    if i == 0 || most == 0 {
        seq![here]
    } else {
        way_to(cells, parent, plane, parent[i as int], (most - 1) as nat).push(here)
    }
}

/// The path with which a search ends, if it ends with one.
pub open spec fn path_found(t: Trail, goal: Tile) -> Option<Seq<Tile>> {
    if t.open.len() == 0 {
        None
    } else {
        Some(way_to(t.cells, t.parent, goal.plane, t.open.last().item, t.cells.len()))
    }
}

/// Whether the search is over after `n` entries, and no sooner.
pub open spec fn ends_after(pass: spec_fn(i32, i32) -> bool, start: Tile, goal: Tile, n: nat) -> bool {
    is_over(trail_after(pass, start, goal, n), goal) && forall|m: nat| m < n ==> !is_over(#[trigger] trail_after(pass, start, goal, m), goal)
}

/// Whether `r` is the path of the search from `start` to `goal` over the cells that `pass` names.
pub open spec fn is_search_path(pass: spec_fn(i32, i32) -> bool, start: Tile, goal: Tile, r: Option<Seq<Tile>>) -> bool {
    if start.plane != goal.plane {
        r is None
    } else if start == goal {
        r == Some(seq![start])
    } else if !pass(start.x, start.y) || !pass(goal.x, goal.y) {
        r is None
    } else {
        exists|n: nat| #[trigger] ends_after(pass, start, goal, n) && r == path_found(trail_after(pass, start, goal, n), goal)
    }
}

/// Whether `pass` tells how the predicates answer: yes wherever both can, and only where neither
/// can say no.
pub open spec fn tells<FA: Fn(i32, i32) -> bool, FW: Fn(i32, i32) -> bool>(fa: FA, fw: FW, pass: spec_fn(i32, i32) -> bool) -> bool {
    forall|x: i32, y: i32|
        #![trigger pass(x, y)]
        (can_pass(fa, fw)(x, y) ==> pass(x, y)) && (pass(x, y) ==> must_pass(fa, fw)(x, y))
}

pub open spec fn seq_of(r: Option<Vec<Tile>>) -> Option<Seq<Tile>> {
    match r {
        Some(v) => Some(v@),
        None => None,
    }
}

/// Searches over the same cells with the same ends find the same path.
pub proof fn law_search_has_one_path(
    pass: spec_fn(i32, i32) -> bool,
    start: Tile,
    goal: Tile,
    a: Option<Seq<Tile>>,
    b: Option<Seq<Tile>>,
)
    requires
        is_search_path(pass, start, goal, a),
        is_search_path(pass, start, goal, b),
    ensures
        a == b,
{
    if start.plane == goal.plane && start != goal && pass(start.x, start.y) && pass(goal.x, goal.y) {
        let n = choose|n: nat| #[trigger] ends_after(pass, start, goal, n) && a == path_found(trail_after(pass, start, goal, n), goal);
        let m = choose|m: nat| #[trigger] ends_after(pass, start, goal, m) && b == path_found(trail_after(pass, start, goal, m), goal);
        assert(n == m) by {
            if n < m {
                assert(!is_over(trail_after(pass, start, goal, n), goal));
            } else if m < n {
                assert(!is_over(trail_after(pass, start, goal, m), goal));
            }
        }
    }
}

/// A path stays one when more cells are passable.
pub proof fn lemma_path_mono(
    pass: spec_fn(i32, i32) -> bool,
    more: spec_fn(i32, i32) -> bool,
    start: Tile,
    goal: Tile,
    p: Seq<Tile>,
)
    requires
        is_path(pass, start, goal, p),
        forall|x: i32, y: i32| #[trigger] pass(x, y) ==> more(x, y),
    ensures
        is_path(more, start, goal, p),
{
    assert forall|i: int| 0 <= i < p.len() implies (#[trigger] p[i]).plane == start.plane && more(p[i].x, p[i].y) by {
        assert(pass(p[i].x, p[i].y));
    }
}

/// The distance of two cells in steps along the axes.
fn manhattan(a: (i32, i32), b: (i32, i32)) -> (r: u64)
    ensures
        r == steps_apart(a.0 as int, a.1 as int, b.0 as int, b.1 as int),
{
    let dx: i64 = a.0 as i64 - b.0 as i64;
    let dy: i64 = a.1 as i64 - b.1 as i64;
    (if dx < 0 { -dx } else { dx }) as u64 + (if dy < 0 { -dy } else { dy }) as u64
}

/// A number for each cell.
spec fn cell_key(x: i32, y: i32) -> u64 {
    ((x as int + 0x8000_0000) * 0x1_0000_0000 + (y as int + 0x8000_0000)) as u64
}

fn key_of(x: i32, y: i32) -> (r: u64)
    ensures
        r == cell_key(x, y),
{
    (x as i64 + 0x8000_0000) as u64 * 0x1_0000_0000 + (y as i64 + 0x8000_0000) as u64
}

proof fn lemma_key(x: i32, y: i32, u: i32, v: i32)
    ensures
        cell_key(x, y) == cell_key(u, v) ==> x == u && y == v,
{
}

/// The sum of all costs.
spec fn total(s: Seq<usize>) -> nat
    decreases s.len(),
{
    if s.len() == 0 { 0 } else { total(s.drop_last()) + s.last() as nat }
}

proof fn lemma_total_update(s: Seq<usize>, i: int, v: usize)
    requires
        0 <= i < s.len(),
    ensures
        total(s.update(i, v)) == total(s) - s[i] + v,
    decreases s.len(),
{
    let t = s.update(i, v);
    if i == s.len() - 1 {
        assert(t.drop_last() =~= s.drop_last());
    } else {
        assert(t.drop_last() =~= s.drop_last().update(i, v));
        lemma_total_update(s.drop_last(), i, v);
    }
}

/// The cells found so far, each with its cost and the cell it was reached from.
struct Found {
    cells: Vec<(i32, i32)>,
    cost: Vec<usize>,
    parent: Vec<usize>,
    index: HashMap<u64, usize>,
}

impl Found {
    /// Whether the cell is found at a cost of at most `c`.
    spec fn within(self, x: i32, y: i32, c: int) -> bool {
        exists|j: int| 0 <= j < self.cells@.len() && #[trigger] self.cells@[j] == (x, y) && self.cost@[j] <= c
    }

    spec fn shape(self) -> bool {
        &&& self.cells@.len() > 0
        &&& self.cost@.len() == self.cells@.len()
        &&& self.parent@.len() == self.cells@.len()
        &&& self.cost@[0] == 0
        &&& forall|i: int|
            0 <= i < self.cells@.len() ==> self.index@.contains_key(
                cell_key((#[trigger] self.cells@[i]).0, self.cells@[i].1),
            ) && self.index@[cell_key(self.cells@[i].0, self.cells@[i].1)] == i
        &&& forall|k: u64| #[trigger]
            self.index@.contains_key(k) ==> self.index@[k] < self.cells@.len() && k == cell_key(
                self.cells@[self.index@[k] as int].0,
                self.cells@[self.index@[k] as int].1,
            )
        &&& forall|i: int| 0 <= i < self.cells@.len() ==> #[trigger] self.cost@[i] < self.cells@.len()
        &&& forall|i: int|
            0 < i < self.cells@.len() ==> (#[trigger] self.parent@[i]) < self.cells@.len()
                && self.cost@[self.parent@[i] as int] + 1 <= self.cost@[i] && steps_apart(
                self.cells@[self.parent@[i] as int].0 as int,
                self.cells@[self.parent@[i] as int].1 as int,
                self.cells@[i].0 as int,
                self.cells@[i].1 as int,
            ) == 1
    }

    spec fn all_open(self, pass: spec_fn(i32, i32) -> bool) -> bool {
        forall|i: int| 0 <= i < self.cells@.len() ==> pass((#[trigger] self.cells@[i]).0, self.cells@[i].1)
    }

    /// Whether every open neighbour of cell `i` is found at most one step further.
    spec fn settled(self, sure: spec_fn(i32, i32) -> bool, goal: (i32, i32), i: int) -> bool {
        &&& self.cells@[i] != goal
        &&& forall|x: i32, y: i32|
            steps_apart(self.cells@[i].0 as int, self.cells@[i].1 as int, x as int, y as int) == 1 && #[trigger] sure(x, y) ==> self.within(x, y, self.cost@[i] + 1)
    }

    spec fn entries_fit(self, open: Seq<Entry>, goal: (i32, i32)) -> bool {
        forall|k: int|
            0 <= k < open.len() ==> (#[trigger] open[k]).item < self.cells@.len() && open[k].cost
                >= self.cost@[open[k].item as int] && open[k].rank == open[k].cost + steps_apart(
                self.cells@[open[k].item as int].0 as int,
                self.cells@[open[k].item as int].1 as int,
                goal.0 as int,
                goal.1 as int,
            )
    }

    /// Whether cell `i` is settled or waits with its cost.
    spec fn cared_for(
        self,
        sure: spec_fn(i32, i32) -> bool,
        goal: (i32, i32),
        open: Seq<Entry>,
        i: int,
    ) -> bool {
        self.settled(sure, goal, i) || waits(open, i, self.cost@[i] as int)
    }

    /// The cell's position and cost, if it is found.
    fn lookup(&self, x: i32, y: i32) -> (r: Option<usize>)
        requires
            self.shape(),
        ensures
            match r {
                Some(j) => j < self.cells@.len() && self.cells@[j as int] == (x, y),
                None => forall|j: int| 0 <= j < self.cells@.len() ==> #[trigger] self.cells@[j] != (x, y),
            },
    {
        let k: u64 = key_of(x, y);
        match self.index.get(&k) {
            Some(j) => {
                proof {
                    lemma_key(x, y, self.cells@[*j as int].0, self.cells@[*j as int].1);
                }
                Some(*j)
            },
            None => {
                None
            },
        }
    }

    /// Takes up the cell at cost `c`, reached from cell `from`, if that is better than what is
    /// known of it; its position then.
    fn improve(&mut self, x: i32, y: i32, c: usize, from: usize) -> (r: Option<usize>)
        requires
            old(self).shape(),
            from < old(self).cells@.len(),
            old(self).cost@[from as int] + 1 <= c <= old(self).cells@.len(),
            steps_apart(
                old(self).cells@[from as int].0 as int,
                old(self).cells@[from as int].1 as int,
                x as int,
                y as int,
            ) == 1,
        ensures
            final(self).shape(),
            final(self).within(x, y, c as int),
            final(self).cells@.len() >= old(self).cells@.len(),
            forall|j: int| 0 <= j < old(self).cells@.len() ==> final(self).cells@[j] == #[trigger] old(self).cells@[j],
            match r {
                None => *final(self) == *old(self) && old(self).cells@.contains((x, y)) && old(self).cost@[old(
                    self,
                ).cells@.index_of((x, y))] <= c,
                Some(j) => {
                    &&& if old(self).cells@.contains((x, y)) {
                        &&& j == old(self).cells@.index_of((x, y))
                        &&& final(self).cells@ == old(self).cells@
                        &&& final(self).cost@ == old(self).cost@.update(j as int, c)
                        &&& final(self).parent@ == old(self).parent@.update(j as int, from)
                    } else {
                        &&& j == old(self).cells@.len()
                        &&& final(self).cells@ == old(self).cells@.push((x, y))
                        &&& final(self).cost@ == old(self).cost@.push(c)
                        &&& final(self).parent@ == old(self).parent@.push(from)
                    }
                    &&& j < final(self).cells@.len()
                    &&& j != 0
                    &&& final(self).cells@[j as int] == (x, y)
                    &&& final(self).cost@[j as int] == c
                    &&& forall|i: int|
                        0 <= i < old(self).cells@.len() && i != j ==> final(self).cost@[i] == #[trigger] old(self).cost@[i]
                    &&& j < old(self).cells@.len() ==> old(self).cost@[j as int] > c
                    &&& final(self).cells@.len() == old(self).cells@.len() + 1 && j == old(self).cells@.len() || (
                    final(self).cells@.len() == old(self).cells@.len() && total(final(self).cost@) < total(old(self).cost@))
                },
            },
    {
        let ghost before = *self;
        match self.lookup(x, y) {
            Some(j) => {
                proof {
                    assert(self.cells@[j as int] == (x, y));
                    let k = self.cells@.index_of((x, y));
                    assert(self.cells@[k] == (x, y));
                    assert(self.index@[cell_key(x, y)] == j && self.index@[cell_key(x, y)] == k);
                }
                if c < self.cost[j] {
                    self.cost.set(j, c);
                    self.parent.set(j, from);
                    proof {
                        lemma_total_update(before.cost@, j as int, c);
                        assert(before.cost@[j as int] < before.cells@.len());
                        assert forall|i: int| 0 < i < self.cells@.len() implies (#[trigger] self.parent@[i])
                            < self.cells@.len() && self.cost@[self.parent@[i] as int] + 1 <= self.cost@[i]
                            && steps_apart(
                            self.cells@[self.parent@[i] as int].0 as int,
                            self.cells@[self.parent@[i] as int].1 as int,
                            self.cells@[i].0 as int,
                            self.cells@[i].1 as int,
                        ) == 1 by {
                            if i != j {
                                assert(before.parent@[i] < before.cells@.len());
                            }
                        }
                        assert forall|i: int| 0 <= i < self.cells@.len() implies #[trigger] self.cost@[i]
                            < self.cells@.len() by {
                            if i != j {
                                assert(before.cost@[i] < before.cells@.len());
                            }
                        }
                        assert(self.cells@[j as int] == (x, y));
                    }
                    Some(j)
                } else {
                    assert(self.cells@[j as int] == (x, y));
                    None
                }
            },
            None => {
                let j: usize = self.cells.len();
                self.cells.push((x, y));
                self.cost.push(c);
                self.parent.push(from);
                self.index.insert(key_of(x, y), j);
                proof {
                    assert forall|i: int| 0 <= i < before.cells@.len() implies cell_key(
                        (#[trigger] before.cells@[i]).0,
                        before.cells@[i].1,
                    ) != cell_key(x, y) by {
                        lemma_key(x, y, before.cells@[i].0, before.cells@[i].1);
                    }
                    assert forall|i: int| 0 <= i < self.cells@.len() implies self.index@.contains_key(
                        cell_key((#[trigger] self.cells@[i]).0, self.cells@[i].1),
                    ) && self.index@[cell_key(self.cells@[i].0, self.cells@[i].1)] == i by {
                        if i < j {
                            assert(self.cells@[i] == before.cells@[i]);
                        }
                    }
                    assert forall|k: u64| #[trigger] self.index@.contains_key(k) implies self.index@[k]
                        < self.cells@.len() && k == cell_key(
                        self.cells@[self.index@[k] as int].0,
                        self.cells@[self.index@[k] as int].1,
                    ) by {
                        if k != cell_key(x, y) {
                            assert(before.index@.contains_key(k));
                        }
                    }
                    assert forall|i: int| 0 <= i < self.cells@.len() implies #[trigger] self.cost@[i]
                        < self.cells@.len() by {
                        if i < j {
                            assert(before.cost@[i] < before.cells@.len());
                        }
                    }
                    assert forall|i: int| 0 < i < self.cells@.len() implies (#[trigger] self.parent@[i])
                        < self.cells@.len() && self.cost@[self.parent@[i] as int] + 1 <= self.cost@[i] && steps_apart(
                        self.cells@[self.parent@[i] as int].0 as int,
                        self.cells@[self.parent@[i] as int].1 as int,
                        self.cells@[i].0 as int,
                        self.cells@[i].1 as int,
                    ) == 1 by {
                        if i < j {
                            assert(before.parent@[i] < before.cells@.len());
                        }
                    }
                    assert(self.cells@[j as int] == (x, y));
                }
                Some(j)
            },
        }
    }
}

spec fn trail(f: Found, open: Seq<Entry>, made: u64) -> Trail {
    Trail { cells: f.cells@, cost: f.cost@, parent: f.parent@, open, made }
}

/// Whether the search stands as it does after `n` entries, none of which has ended it, whichever
/// way the predicates' answers are told.
spec fn stands_at<FA: Fn(i32, i32) -> bool, FW: Fn(i32, i32) -> bool>(
    fa: FA,
    fw: FW,
    start: Tile,
    goal: Tile,
    t: Trail,
    n: nat,
) -> bool {
    forall|p: spec_fn(i32, i32) -> bool| #[trigger]
        tells(fa, fw, p) ==> t == trail_after(p, start, goal, n) && forall|m: nat|
            m < n ==> !is_over(#[trigger] trail_after(p, start, goal, m), goal)
}

/// Whether an entry for `i` with cost `c` is in the list.
spec fn waits(open: Seq<Entry>, i: int, c: int) -> bool {
    exists|k: int| 0 <= k < open.len() && (#[trigger] open[k]).item == i && open[k].cost == c
}

/// Inserting an entry keeps the others.
proof fn lemma_waits_insert(open: Seq<Entry>, p: int, e: Entry, i: int, c: int)
    requires
        0 <= p <= open.len(),
    ensures
        waits(open, i, c) ==> waits(open.insert(p, e), i, c),
        waits(open.insert(p, e), e.item as int, e.cost as int),
{
    let n = open.insert(p, e);
    assert(n[p] == e);
    if waits(open, i, c) {
        let k = choose|k: int| 0 <= k < open.len() && (#[trigger] open[k]).item == i && open[k].cost == c;
        let m = if k < p { k } else { k + 1 };
        assert(n[m] == open[k]);
    }
}

/// The straight-line distance to the end of a path is at most the steps that are left on it.
proof fn lemma_remaining(
    sure: spec_fn(i32, i32) -> bool,
    start: Tile,
    goal: Tile,
    q: Seq<Tile>,
    i: int,
)
    requires
        is_path(sure, start, goal, q),
        0 <= i < q.len(),
    ensures
        steps_apart(q[i].x as int, q[i].y as int, goal.x as int, goal.y as int) <= q.len() - 1 - i,
    decreases q.len() - i,
{
    if i < q.len() - 1 {
        lemma_remaining(sure, start, goal, q, i + 1);
        assert(steps_apart(q[i].x as int, q[i].y as int, q[i + 1].x as int, q[i + 1].y as int) == 1);
    }
}

/// While a path exists, some entry ranks no higher than the path is long.
proof fn lemma_path_waits(
    sure: spec_fn(i32, i32) -> bool,
    start: Tile,
    goal: Tile,
    f: Found,
    open: Seq<Entry>,
    q: Seq<Tile>,
    i: int,
)
    requires
        is_path(sure, start, goal, q),
        0 <= i < q.len(),
        f.within(q[i].x, q[i].y, i),
        f.cost@.len() == f.cells@.len(),
        f.entries_fit(open, (goal.x, goal.y)),
        forall|j: int| 0 <= j < f.cells@.len() ==> #[trigger] f.cared_for(sure, (goal.x, goal.y), open, j),
    ensures
        exists|k: int| 0 <= k < open.len() && (#[trigger] open[k]).rank <= q.len() - 1,
    decreases q.len() - i,
{
    let j = choose|j: int| 0 <= j < f.cells@.len() && #[trigger] f.cells@[j] == (q[i].x, q[i].y) && f.cost@[j] <= i;
    lemma_remaining(sure, start, goal, q, i);
    assert(f.cared_for(sure, (goal.x, goal.y), open, j));
    if f.settled(sure, (goal.x, goal.y), j) {
        if i == q.len() - 1 {
            assert(q[i] == goal);
        }
        let (x, y) = (q[i + 1].x, q[i + 1].y);
        assert(steps_apart(q[i].x as int, q[i].y as int, x as int, y as int) == 1);
        assert(sure(x, y));
        assert(f.within(x, y, f.cost@[j] + 1));
        let m = choose|m: int| 0 <= m < f.cells@.len() && #[trigger] f.cells@[m] == (x, y) && f.cost@[m] <= f.cost@[j] + 1;
        assert(f.cells@[m] == (x, y) && f.cost@[m] <= i + 1);
        lemma_path_waits(sure, start, goal, f, open, q, i + 1);
    } else {
        let k = choose|k: int| 0 <= k < open.len() && (#[trigger] open[k]).item == j && open[k].cost == f.cost@[j];
        assert(open[k].rank <= q.len() - 1);
    }
}

/// The path from the first cell to cell `at`.
fn trace(
    Ghost(pass): Ghost<spec_fn(i32, i32) -> bool>,
    f: &Found,
    at: usize,
    start: Tile,
    goal: Tile,
) -> (r: Vec<Tile>)
    requires
        f.shape(),
        f.all_open(pass),
        at < f.cells@.len(),
        f.cells@[0] == (start.x, start.y),
        f.cells@[at as int] == (goal.x, goal.y),
        start.plane == goal.plane,
    ensures
        is_path(pass, start, goal, r@),
        r@.len() - 1 <= f.cost@[at as int],
        r@ == way_to(f.cells@, f.parent@, goal.plane, at, f.cells@.len()),
{
    let plane: i32 = start.plane;
    let mut rev: Vec<Tile> = Vec::new();
    let mut i: usize = at;
    rev.push(Tile { x: f.cells[i].0, y: f.cells[i].1, plane });
    assert(rev@.drop_last().reverse() =~= Seq::<Tile>::empty());
    while i != 0
        invariant
            f.shape(),
            f.all_open(pass),
            i < f.cells@.len(),
            at < f.cells@.len(),
            f.cells@[0] == (start.x, start.y),
            f.cells@[at as int] == (goal.x, goal.y),
            start.plane == goal.plane,
            plane == start.plane,
            rev@.len() > 0,
            rev@[0] == goal,
            rev@.last() == (Tile { x: f.cells@[i as int].0, y: f.cells@[i as int].1, plane }),
            rev@.len() - 1 + f.cost@[i as int] <= f.cost@[at as int],
            way_to(f.cells@, f.parent@, plane, at, f.cells@.len()) == way_to(
                f.cells@,
                f.parent@,
                plane,
                i,
                (f.cells@.len() - (rev@.len() - 1)) as nat,
            ) + rev@.drop_last().reverse(),
            forall|k: int|
                0 <= k < rev@.len() ==> (#[trigger] rev@[k]).plane == plane && pass(rev@[k].x, rev@[k].y),
            forall|k: int|
                0 <= k < rev@.len() - 1 ==> steps_apart(
                    (#[trigger] rev@[k]).x as int,
                    rev@[k].y as int,
                    rev@[k + 1].x as int,
                    rev@[k + 1].y as int,
                ) == 1,
        decreases f.cost@[i as int],
    {
        let ghost before = rev@;
        let ghost child = i;
        assert(f.cost@[at as int] < f.cells@.len());
        i = f.parent[i];
        assert(pass(f.cells@[i as int].0, f.cells@[i as int].1));
        rev.push(Tile { x: f.cells[i].0, y: f.cells[i].1, plane });
        proof {
            let most = (f.cells@.len() - (before.len() - 1)) as nat;
            let (shorter, here) = (way_to(f.cells@, f.parent@, plane, i, (most - 1) as nat), before.last());
            assert(way_to(f.cells@, f.parent@, plane, child, most) == shorter.push(here));
            assert(rev@.drop_last() =~= before);
            assert(shorter.push(here) + before.drop_last().reverse() =~= shorter + before.reverse());
        }
        assert forall|k: int| 0 <= k < rev@.len() - 1 implies steps_apart(
            (#[trigger] rev@[k]).x as int,
            rev@[k].y as int,
            rev@[k + 1].x as int,
            rev@[k + 1].y as int,
        ) == 1 by {
            if k < before.len() - 1 {
                assert(before[k] == rev@[k] && before[k + 1] == rev@[k + 1]);
            } else {
                assert(rev@[k] == before.last());
            }
        }
    }
    assert(way_to(f.cells@, f.parent@, plane, at, f.cells@.len()) =~= rev@.reverse()) by {
        let last = rev@.last();
        assert(way_to(f.cells@, f.parent@, plane, i, (f.cells@.len() - (rev@.len() - 1)) as nat) =~= seq![last]);
    }
    let n: usize = rev.len();
    let mut path: Vec<Tile> = Vec::new();
    let mut k: usize = 0;
    while k < n
        invariant
            n == rev@.len(),
            k <= n,
            path@.len() == k,
            forall|m: int| 0 <= m < k ==> #[trigger] path@[m] == rev@[n - 1 - m],
        decreases n - k,
    {
        path.push(rev[n - 1 - k]);
        k += 1;
    }
    assert(path@ =~= rev@.reverse());
    assert(is_path(pass, start, goal, path@)) by {
        assert forall|m: int| 0 <= m < path@.len() - 1 implies steps_apart(
            (#[trigger] path@[m]).x as int,
            path@[m].y as int,
            path@[m + 1].x as int,
            path@[m + 1].y as int,
        ) == 1 by {
            assert(path@[m] == rev@[n - 1 - m]);
            assert(path@[m + 1] == rev@[n - 2 - m]);
            assert(steps_apart(
                rev@[n - 2 - m].x as int,
                rev@[n - 2 - m].y as int,
                rev@[n - 2 - m + 1].x as int,
                rev@[n - 2 - m + 1].y as int,
            ) == 1);
        }
    }
    path
}

fn step_to(x: i32, y: i32, d: usize) -> (r: Option<(i32, i32)>)
    ensures
        r == neighbour(x, y, d as int),
        r is Some ==> steps_apart(x as int, y as int, (r->0).0 as int, (r->0).1 as int) == 1,
{
    if d == 0 {
        if y > i32::MIN { Some((x, y - 1)) } else { None }
    } else if d == 1 {
        if x < i32::MAX { Some((x + 1, y)) } else { None }
    } else if d == 2 {
        if y < i32::MAX { Some((x, y + 1)) } else { None }
    } else {
        if x > i32::MIN { Some((x - 1, y)) } else { None }
    }
}

/// A shortest path from `start` to `goal` over tiles on which both predicates say yes. No path
/// over tiles on which neither can say no is shorter.
///
/// Tiles on different planes have no path. A tile has the path of itself alone, whatever the
/// predicates say of it. Of several shortest paths it is the one that the search comes to first.
pub fn find_path_4dir<FA: Fn(i32, i32) -> bool, FW: Fn(i32, i32) -> bool>(
    start: Tile,
    goal: Tile,
    is_allowed: FA,
    is_walkable: FW,
) -> (r: Option<Vec<Tile>>)
    requires
        answers(is_allowed),
        answers(is_walkable),
    ensures
        start.plane != goal.plane ==> r is None,
        start == goal ==> r is Some && r->0@ == seq![start],
        start.plane == goal.plane && start != goal ==> match r {
            Some(p) => is_path(can_pass(is_allowed, is_walkable), start, goal, p@) && forall|q: Seq<Tile>| #[trigger]
                is_path(must_pass(is_allowed, is_walkable), start, goal, q) ==> p@.len() <= q.len(),
            None => forall|q: Seq<Tile>| !#[trigger] is_path(must_pass(is_allowed, is_walkable), start, goal, q),
        },
        forall|p: spec_fn(i32, i32) -> bool| #[trigger]
            tells(is_allowed, is_walkable, p) ==> is_search_path(p, start, goal, seq_of(r)),
{
    let ghost pass = can_pass(is_allowed, is_walkable);
    let ghost sure = must_pass(is_allowed, is_walkable);
    if start.plane != goal.plane {
        return None;
    }
    if start.x == goal.x && start.y == goal.y {
        let mut only: Vec<Tile> = Vec::new();
        only.push(start);
        assert(only@ =~= seq![start]);
        return Some(only);
    }
    if !is_allowed(start.x, start.y) || !is_allowed(goal.x, goal.y) || !is_walkable(start.x, start.y) || !is_walkable(
        goal.x,
        goal.y,
    ) {
        assert forall|q: Seq<Tile>| !#[trigger] is_path(sure, start, goal, q) by {
            if is_path(sure, start, goal, q) {
                assert(sure(q[0].x, q[0].y));
                assert(sure(q[q.len() - 1].x, q[q.len() - 1].y));
            }
        }
        assert forall|p: spec_fn(i32, i32) -> bool| #[trigger] tells(is_allowed, is_walkable, p) implies !p(start.x, start.y)
            || !p(goal.x, goal.y) by {
            assert(p(start.x, start.y) ==> sure(start.x, start.y));
            assert(p(goal.x, goal.y) ==> sure(goal.x, goal.y));
        }
        return None;
    }
    assert forall|p: spec_fn(i32, i32) -> bool| #[trigger] tells(is_allowed, is_walkable, p) implies p(start.x, start.y)
        && p(goal.x, goal.y) by {
        assert(pass(start.x, start.y) ==> p(start.x, start.y));
        assert(pass(goal.x, goal.y) ==> p(goal.x, goal.y));
    }
    let ghost target = (goal.x, goal.y);
    let goal_pos: (i32, i32) = (goal.x, goal.y);
    let mut seq: u64 = 0;
    let mut f: Found = Found { cells: Vec::new(), cost: Vec::new(), parent: Vec::new(), index: HashMap::new() };
    f.cells.push((start.x, start.y));
    f.cost.push(0);
    f.parent.push(0);
    f.index.insert(key_of(start.x, start.y), 0);
    let mut open: OpenList = OpenList::new();
    let first: Entry = Entry {
        rank: manhattan((start.x, start.y), goal_pos) as u128,
        cost: 0,
        tie1: start.y as i64,
        tie2: start.x as i64,
        seq,
        item: 0,
    };
    open.push(first);
    assert(open@ =~= seq![first]);
    assert(open@[0] == first);
    let ghost mut n: nat = 0;
    assert(trail(f, open@, seq) =~= trail_start(start, goal));
    loop
        invariant
            answers(is_allowed),
            answers(is_walkable),
            pass == can_pass(is_allowed, is_walkable),
            sure == must_pass(is_allowed, is_walkable),
            start.plane == goal.plane,
            start != goal,
            goal_pos == (goal.x, goal.y),
            forall|p: spec_fn(i32, i32) -> bool| #[trigger]
                tells(is_allowed, is_walkable, p) ==> p(start.x, start.y) && p(goal.x, goal.y),
            stands_at(is_allowed, is_walkable, start, goal, trail(f, open@, seq), n),
            f.shape(),
            f.all_open(pass),
            f.cells@[0] == (start.x, start.y),
            open.wf(),
            f.entries_fit(open@, goal_pos),
            forall|j: int|
                0 <= j < f.cells@.len() ==> #[trigger] f.cared_for(sure, goal_pos, open@, j),
        decreases usize::MAX - f.cells@.len(), total(f.cost@), open@.len(),
    {
        let ghost open0 = open@;
        let ghost f0 = f;
        let ghost t0 = trail(f, open@, seq);
        let e: Entry = match open.pop() {
            None => {
                assert forall|q: Seq<Tile>| !#[trigger] is_path(sure, start, goal, q) by {
                    if is_path(sure, start, goal, q) {
                        assert(f.cells@[0] == (q[0].x, q[0].y));
                        lemma_path_waits(sure, start, goal, f, open0, q, 0);
                    }
                }
                assert forall|p: spec_fn(i32, i32) -> bool| #[trigger] tells(is_allowed, is_walkable, p) implies is_search_path(
                    p,
                    start,
                    goal,
                    None,
                ) by {
                    assert(ends_after(p, start, goal, n));
                }
                return None;
            },
            Some(e) => e,
        };
        assert(open0[open0.len() - 1] == e);
        let cur: usize = e.item;
        let (cx, cy): (i32, i32) = f.cells[cur];
        if cx == goal.x && cy == goal.y {
            let path: Vec<Tile> = trace(Ghost(pass), &f, cur, start, goal);
            assert forall|q: Seq<Tile>| #[trigger] is_path(sure, start, goal, q) implies path@.len()
                <= q.len() by {
                assert(f.cells@[0] == (q[0].x, q[0].y));
                lemma_path_waits(sure, start, goal, f, open0, q, 0);
                let k = choose|k: int| 0 <= k < open0.len() && (#[trigger] open0[k]).rank <= q.len() - 1;
                assert(e.le(open0[k]));
            }
            assert forall|p: spec_fn(i32, i32) -> bool| #[trigger] tells(is_allowed, is_walkable, p) implies is_search_path(
                p,
                start,
                goal,
                Some(path@),
            ) by {
                assert(ends_after(p, start, goal, n));
            }
            return Some(path);
        }
        assert(!is_over(t0, goal));
        let ghost stale = e.cost != f.cost@[cur as int];
        assert forall|j: int| 0 <= j < f.cells@.len() && (j != cur || stale) implies #[trigger] f.cared_for(sure,
            goal_pos,
            open@,
            j,
        ) by {
            assert(f.cared_for(sure, goal_pos, open0, j));
            if !f.settled(sure, goal_pos, j) {
                let k = choose|k: int|
                    0 <= k < open0.len() && (#[trigger] open0[k]).item == j && open0[k].cost == f.cost@[j];
                assert(k < open0.len() - 1);
                assert(open@[k] == open0[k]);
            }
        }
        assert(f.entries_fit(open@, goal_pos)) by {
            assert forall|k: int| 0 <= k < open@.len() implies open@[k] == #[trigger] open0[k] by {}
        }
        let c0: usize = f.cost[cur];
        // An entry whose cost is no longer the cell's finds nothing to improve.
        if e.cost != c0 as u128 {
            proof {
                assert(trail(f, open@, seq) == trail_next(t0, pass, goal));
                lemma_goes_on(is_allowed, is_walkable, start, goal, t0, trail(f, open@, seq), n);
                n = n + 1;
            }
            continue;
        }
        let ghost rest = Trail { open: t0.open.drop_last(), ..t0 };
        assert(trail(f, open@, seq) == rest);
        let mut d: usize = 0;
        while d < 4
            invariant
                d <= 4,
                answers(is_allowed),
                answers(is_walkable),
                pass == can_pass(is_allowed, is_walkable),
                sure == must_pass(is_allowed, is_walkable),
                start.plane == goal.plane,
                goal_pos == (goal.x, goal.y),
                f0.shape(),
                f.shape(),
                f.all_open(pass),
                f.cells@[0] == (start.x, start.y),
                open.wf(),
                f.entries_fit(open@, goal_pos),
                cur < f.cells@.len(),
                f.cells@[cur as int] == (cx, cy),
                (cx, cy) != goal_pos,
                f.cost@[cur as int] == c0,
                rest.cells[cur as int] == (cx, cy),
                rest.cost[cur as int] == c0,
                forall|p: spec_fn(i32, i32) -> bool| #[trigger]
                    tells(is_allowed, is_walkable, p) ==> trail(f, open@, seq) == looked_around(rest, p, goal, cur, d as int),
                forall|j: int|
                    0 <= j < f.cells@.len() && j != cur ==> #[trigger] f.cared_for(sure,
                        goal_pos,
                        open@,
                        j,
                    ),
                forall|b: int|
                    #![trigger neighbour(cx, cy, b)]
                    0 <= b < d && neighbour(cx, cy, b) is Some && sure((neighbour(cx, cy, b)->0).0,
                        (neighbour(cx, cy, b)->0).1,
                    ) ==> f.within((neighbour(cx, cy, b)->0).0, (neighbour(cx, cy, b)->0).1, c0 + 1),
                f.cells@.len() >= f0.cells@.len(),
                f.cells@.len() > f0.cells@.len() || total(f.cost@) < total(f0.cost@) || (f.cost@ == f0.cost@ && open@.len()
                    == open0.len() - 1),
                f.cells@.len() == f0.cells@.len() ==> total(f.cost@) <= total(f0.cost@),
            decreases 4 - d,
        {
            let ghost t1 = trail(f, open@, seq);
            if let Some((nx, ny)) = step_to(cx, cy, d) {
                let may: bool = is_allowed(nx, ny) && is_walkable(nx, ny);
                assert forall|p: spec_fn(i32, i32) -> bool| #[trigger] tells(is_allowed, is_walkable, p) implies p(nx, ny) == may by {
                    assert(pass(nx, ny) ==> p(nx, ny));
                    assert(p(nx, ny) ==> sure(nx, ny));
                }
                if may {
                    let ghost f1 = f;
                    let ghost open1 = open@;
                    let limit: usize = f.cells.len();
                    assert(f.cost@[cur as int] < f.cells@.len());
                    let g: usize = c0 + 1;
                    match f.improve(nx, ny, g, cur) {
                        None => {},
                        Some(j) => {
                            seq = seq.wrapping_add(1);
                            let entry: Entry = Entry {
                                rank: g as u128 + manhattan((nx, ny), goal_pos) as u128,
                                cost: g as u128,
                                tie1: ny as i64,
                                tie2: nx as i64,
                                seq,
                                item: j,
                            };
                            open.push(entry);
                            proof {
                                let p = place_for(open1, entry);
                                assert(j != cur);
                                assert forall|i: int| 0 <= i < f.cells@.len() && i != cur implies #[trigger] f.cared_for(sure,
                                    goal_pos,
                                    open@,
                                    i,
                                ) by {
                                    if i == j {
                                        lemma_waits_insert(open1, p, entry, 0, 0);
                                    } else {
                                        assert(f1.cared_for(sure, goal_pos, open1, i));
                                        lemma_waits_insert(open1, p, entry, i, f1.cost@[i] as int);
                                        if f1.settled(sure, goal_pos, i) {
                                            lemma_settled_kept(sure, goal_pos, f1, f, i);
                                        }
                                    }
                                }
                                assert(f.entries_fit(open@, goal_pos)) by {
                                    assert forall|k: int| 0 <= k < open@.len() implies (#[trigger] open@[k]).item
                                        < f.cells@.len() && open@[k].cost >= f.cost@[open@[k].item as int] && open@[k].rank
                                        == open@[k].cost + steps_apart(
                                        f.cells@[open@[k].item as int].0 as int,
                                        f.cells@[open@[k].item as int].1 as int,
                                        goal_pos.0 as int,
                                        goal_pos.1 as int,
                                    ) by {
                                        if k != p {
                                            let m = if k < p { k } else { k - 1 };
                                            assert(open@[k] == open1[m]);
                                            assert(f1.cost@[open1[m].item as int] >= f.cost@[open1[m].item as int]);
                                        }
                                    }
                                }
                                assert(f.all_open(pass)) by {
                                    assert forall|i: int| 0 <= i < f.cells@.len() implies pass(
                                        (#[trigger] f.cells@[i]).0,
                                        f.cells@[i].1,
                                    ) by {
                                        if i < f1.cells@.len() {
                                            assert(f.cells@[i] == f1.cells@[i]);
                                        }
                                    }
                                }
                            }
                        },
                    }
                    proof {
                        assert(trail(f, open@, seq) =~= come_to(t1, goal, nx, ny, g, cur));
                        assert forall|b: int|
                            #![trigger neighbour(cx, cy, b)]
                            0 <= b < d && neighbour(cx, cy, b) is Some && sure((neighbour(cx, cy, b)->0).0,
                                (neighbour(cx, cy, b)->0).1,
                            ) implies f.within((neighbour(cx, cy, b)->0).0, (neighbour(cx, cy, b)->0).1, c0 + 1) by {
                            lemma_within_kept(f1, f, (neighbour(cx, cy, b)->0).0, (neighbour(cx, cy, b)->0).1, c0 + 1);
                        }
                    }
                }
            }
            assert forall|p: spec_fn(i32, i32) -> bool| #[trigger] tells(is_allowed, is_walkable, p) implies trail(f, open@, seq)
                == looked_around(rest, p, goal, cur, d + 1) by {
                assert(t1 == looked_around(rest, p, goal, cur, d as int));
            }
            d += 1;
        }
        proof {
            assert forall|p: spec_fn(i32, i32) -> bool| #[trigger] tells(is_allowed, is_walkable, p) implies trail(f, open@, seq)
                == trail_next(t0, p, goal) by {}
            lemma_goes_on(is_allowed, is_walkable, start, goal, t0, trail(f, open@, seq), n);
            n = n + 1;
            assert(f.settled(sure, goal_pos, cur as int)) by {
                assert forall|x: i32, y: i32|
                    steps_apart(cx as int, cy as int, x as int, y as int) == 1 && #[trigger] sure(x, y) implies f.within(x, y, f.cost@[cur as int] + 1) by {
                    let b: int = if y < cy { 0 } else if x > cx { 1 } else if y > cy { 2 } else { 3 };
                    assert(neighbour(cx, cy, b) == Some((x, y)));
                }
            }
            assert(f.cared_for(sure, goal_pos, open@, cur as int));
        }
        assert(f.cells.len() <= usize::MAX);
    }
}

proof fn lemma_goes_on<FA: Fn(i32, i32) -> bool, FW: Fn(i32, i32) -> bool>(
    fa: FA,
    fw: FW,
    start: Tile,
    goal: Tile,
    t: Trail,
    next: Trail,
    n: nat,
)
    requires
        stands_at(fa, fw, start, goal, t, n),
        !is_over(t, goal),
        forall|p: spec_fn(i32, i32) -> bool| #[trigger] tells(fa, fw, p) ==> next == trail_next(t, p, goal),
    ensures
        stands_at(fa, fw, start, goal, next, n + 1),
{
    assert forall|p: spec_fn(i32, i32) -> bool| #[trigger] tells(fa, fw, p) implies next == trail_after(p, start, goal, n + 1)
        && forall|m: nat| m < n + 1 ==> !is_over(#[trigger] trail_after(p, start, goal, m), goal) by {
        assert(t == trail_after(p, start, goal, n));
        assert forall|m: nat| m < n + 1 implies !is_over(#[trigger] trail_after(p, start, goal, m), goal) by {}
    }
}

/// Costs that only fall keep what is found within a bound.
proof fn lemma_within_kept(a: Found, b: Found, x: i32, y: i32, c: int)
    requires
        a.cost@.len() == a.cells@.len(),
        b.cells@.len() >= a.cells@.len(),
        forall|j: int| 0 <= j < a.cells@.len() ==> b.cells@[j] == #[trigger] a.cells@[j],
        forall|j: int| 0 <= j < a.cells@.len() ==> b.cost@[j] <= #[trigger] a.cost@[j],
        a.within(x, y, c),
    ensures
        b.within(x, y, c),
{
    let j = choose|j: int| 0 <= j < a.cells@.len() && #[trigger] a.cells@[j] == (x, y) && a.cost@[j] <= c;
    assert(a.cost@[j] <= c);
    assert(b.cells@[j] == (x, y));
}

proof fn lemma_settled_kept(
    sure: spec_fn(i32, i32) -> bool,
    goal: (i32, i32),
    a: Found,
    b: Found,
    i: int,
)
    requires
        a.cost@.len() == a.cells@.len(),
        0 <= i < a.cells@.len(),
        b.cells@.len() >= a.cells@.len(),
        forall|j: int| 0 <= j < a.cells@.len() ==> b.cells@[j] == #[trigger] a.cells@[j],
        forall|j: int| 0 <= j < a.cells@.len() ==> b.cost@[j] <= #[trigger] a.cost@[j],
        b.cost@[i] == a.cost@[i],
        a.settled(sure, goal, i),
    ensures
        b.settled(sure, goal, i),
{
    assert forall|x: i32, y: i32|
        steps_apart(b.cells@[i].0 as int, b.cells@[i].1 as int, x as int, y as int) == 1 && #[trigger] sure(x, y) implies b.within(x, y, b.cost@[i] + 1) by {
        assert(a.within(x, y, a.cost@[i] + 1));
        lemma_within_kept(a, b, x, y, a.cost@[i] + 1);
    }
}

}
