//! Whether a tile near by can be walked to.

use crate::models::Tile;
use crate::route::payload::tile_of_node;
use crate::snapshot::reader::Snapshot;
use std::collections::HashSet;
use vstd::prelude::*;
#[allow(unused_imports)]
use crate::engine::reach::{lemma_unseen, unseen};
#[allow(unused_imports)]
use crate::route::payload::tile_at;
#[allow(unused_imports)]
use crate::snapshot::manifest::{key_coord, law_pack_unpack, law_unpack_pack};
#[allow(unused_imports)]
use crate::snapshot::reader::{destinations_valid, lemma_ascending, lemma_monotone, offsets_monotone};

verus! {

broadcast use vstd::std_specs::hash::group_hash_axioms;

/// How far apart start and goal may be, in each direction.
pub const REACHABLE_RANGE_TILES: i64 = 20;

/// The answer to a request.
#[derive(Debug, Clone, Copy, PartialEq, Eq, Structural)]
pub enum ReachableAnswer {
    Reachable,
    DifferentPlane,
    OutOfRange,
    StartTileNotFound,
    GoalTileNotFound,
    NotConnected,
    NoPathInRange,
}

impl ReachableAnswer {
    /// The reason for a refusal.
    pub open spec fn reason(self) -> Option<Seq<char>> {
        match self {
            ReachableAnswer::Reachable => None,
            ReachableAnswer::DifferentPlane => Some("different_plane"@),
            ReachableAnswer::OutOfRange => Some("out_of_range"@),
            ReachableAnswer::StartTileNotFound => Some("start_tile_not_found"@),
            ReachableAnswer::GoalTileNotFound => Some("goal_tile_not_found"@),
            ReachableAnswer::NotConnected => Some("not_connected"@),
            ReachableAnswer::NoPathInRange => Some("no_path_in_range"@),
        }
    }

    pub fn reason_text(&self) -> (r: Option<&'static str>)
        ensures
            match self.reason() {
                Some(t) => r is Some && r->0@ == t,
                None => r is None,
            },
    {
        match self {
            ReachableAnswer::Reachable => None,
            ReachableAnswer::DifferentPlane => Some("different_plane"),
            ReachableAnswer::OutOfRange => Some("out_of_range"),
            ReachableAnswer::StartTileNotFound => Some("start_tile_not_found"),
            ReachableAnswer::GoalTileNotFound => Some("goal_tile_not_found"),
            ReachableAnswer::NotConnected => Some("not_connected"),
            ReachableAnswer::NoPathInRange => Some("no_path_in_range"),
        }
    }
}

/// Whether two tiles are at most [`REACHABLE_RANGE_TILES`] apart in each direction.
pub open spec fn near(a: Tile, b: Tile) -> bool {
    -REACHABLE_RANGE_TILES <= a.x - b.x <= REACHABLE_RANGE_TILES && -REACHABLE_RANGE_TILES <= a.y - b.y
        <= REACHABLE_RANGE_TILES
}

fn is_near(a: Tile, b: Tile) -> (r: bool)
    ensures
        r == near(a, b),
{
    let dx: i64 = a.x as i64 - b.x as i64;
    let dy: i64 = a.y as i64 - b.y as i64;
    -REACHABLE_RANGE_TILES <= dx && dx <= REACHABLE_RANGE_TILES && -REACHABLE_RANGE_TILES <= dy && dy
        <= REACHABLE_RANGE_TILES
}

/// Whether a walk between start and goal may pass the tile: it is on their plane, and near one
/// of them.
pub open spec fn may_pass(t: Tile, start: Tile, goal: Tile) -> bool {
    t.plane == start.plane && (near(t, start) || near(t, goal))
}

/// Whether a walk edge leads from `u` to `v`.
pub open spec fn walks(s: Snapshot, u: u32, v: u32) -> bool {
    exists|slot: int| #[trigger] s.is_slot(u as int, v, slot)
}

/// Whether step `i` of `p` is a walk edge.
pub open spec fn walked(s: Snapshot, p: Seq<u32>, i: int) -> bool {
    walks(s, p[i], p[i + 1])
}

/// Whether `p` is a walk from node `a` to node `b` that stays near start and goal.
pub open spec fn is_local_walk(s: Snapshot, p: Seq<u32>, a: u32, b: u32, start: Tile, goal: Tile) -> bool {
    &&& p.len() > 0
    &&& p[0] == a
    &&& p.last() == b
    &&& forall|i: int| 0 <= i < p.len() - 1 ==> #[trigger] walked(s, p, i)
    &&& forall|i: int| 0 < i < p.len() - 1 ==> may_pass(tile_at(s, #[trigger] p[i]), start, goal)
}

/// Whether some walk from `a` to `b` stays near start and goal.
pub open spec fn local_walk(s: Snapshot, a: u32, b: u32, start: Tile, goal: Tile) -> bool {
    exists|p: Seq<u32>| #[trigger] is_local_walk(s, p, a, b, start, goal)
}

/// The walk to `u` goes on to `v`.
proof fn lemma_walk_on(s: Snapshot, a: u32, u: u32, v: u32, start: Tile, goal: Tile)
    requires
        local_walk(s, a, u, start, goal),
        u == a || may_pass(tile_at(s, u), start, goal),
        walks(s, u, v),
    ensures
        local_walk(s, a, v, start, goal),
{
    if u == a {
        let q = seq![a, v];
        assert(walked(s, q, 0));
        assert(is_local_walk(s, q, a, v, start, goal));
    } else {
        let p = choose|p: Seq<u32>| #[trigger] is_local_walk(s, p, a, u, start, goal);
        let q = p.push(v);
        assert forall|i: int| 0 <= i < q.len() - 1 implies #[trigger] walked(s, q, i) by {
            if i < p.len() - 1 {
                assert(walked(s, p, i));
            }
        }
        assert forall|i: int| 0 < i < q.len() - 1 implies may_pass(tile_at(s, #[trigger] q[i]), start, goal) by {
            assert(q[i] == p[i]);
        }
        assert(is_local_walk(s, q, a, v, start, goal));
    }
}

/// A set that holds the start and is closed under local walk edges holds every node before the
/// last of a local walk.
proof fn lemma_closed_walk(
    s: Snapshot,
    p: Seq<u32>,
    a: u32,
    b: u32,
    start: Tile,
    goal: Tile,
    seen: Set<u32>,
    i: int,
)
    requires
        is_local_walk(s, p, a, b, start, goal),
        seen.contains(a),
        forall|u: u32, v: u32|
            seen.contains(u) && #[trigger] walks(s, u, v) && may_pass(tile_at(s, v), start, goal) ==> seen.contains(v),
        0 <= i < p.len(),
        i < p.len() - 1 || i == 0,
    ensures
        seen.contains(p[i]),
    decreases i,
{
    if i > 0 {
        lemma_closed_walk(s, p, a, b, start, goal, seen, i - 1);
        assert(walked(s, p, i - 1));
        assert(walks(s, p[i - 1], p[i]));
    }
}

/// Whether a search has only seen what local walks lead to, and has followed every edge of what
/// it has seen and no longer holds back.
spec fn sound(
    s: Snapshot,
    a: u32,
    start: Tile,
    goal: Tile,
    seen: Set<u32>,
    stack: Seq<u32>,
    gid: u32,
) -> bool {
    &&& seen.contains(a)
    &&& forall|u: u32| #[trigger]
        seen.contains(u) ==> local_walk(s, a, u, start, goal) && u < s.man().counts.nodes && (u == a || may_pass(
            tile_at(s, u),
            start,
            goal,
        ))
    &&& forall|u: u32| #[trigger] stack.contains(u) ==> seen.contains(u)
    &&& forall|u: u32| #[trigger] seen.contains(u) ==> stack.contains(u) || followed(s, start, goal, seen, u, gid)
}

spec fn followed(s: Snapshot, start: Tile, goal: Tile, seen: Set<u32>, u: u32, gid: u32) -> bool {
    forall|v: u32| #[trigger] walks(s, u, v) ==> v != gid && (may_pass(tile_at(s, v), start, goal) ==> seen.contains(v))
}

/// Whether a local walk leads from node `sid` to node `gid`, another one.
fn search_walk(snap: &Snapshot, sid: u32, gid: u32, start: Tile, goal: Tile) -> (r: bool)
    requires
        snap.wf(),
        sid < snap.man().counts.nodes,
        sid != gid,
    ensures
        r == local_walk(*snap, sid, gid, start, goal),
{
    let ghost s = *snap;
    let offs: &[u32] = snap.walk_offsets();
    let dst: &[u32] = snap.walk_dst();
    proof {
        s.lemma_wf();
    }
    let mut seen: HashSet<u32> = HashSet::new();
    let mut stack: Vec<u32> = Vec::new();
    let ghost mut flags: Seq<bool> = Seq::new(s.man().counts.nodes as nat, |i: int| false);
    seen.insert(sid);
    stack.push(sid);
    proof {
        flags = flags.update(sid as int, true);
        assert(is_local_walk(s, seq![sid], sid, sid, start, goal));
        assert(stack@[0] == sid);
    }
    while stack.len() > 0
        invariant
            s == *snap,
            snap.wf(),
            offs@ == s.walk_starts(),
            dst@ == s.walk_ends(),
            offs@.len() == s.man().counts.nodes + 1,
            offsets_monotone(offs@),
            offs@[s.man().counts.nodes as int] == dst@.len(),
            destinations_valid(dst@, s.man().counts.nodes as int),
            sid != gid,
            sound(s, sid, start, goal, seen@, stack@, gid),
            flags.len() == s.man().counts.nodes,
            forall|u: u32| u < flags.len() ==> (seen@.contains(u) <==> #[trigger] flags[u as int]),
        decreases 2 * unseen(flags) + stack@.len(),
    {
        let ghost stack0 = stack@;
        let u: u32 = stack.pop().unwrap();
        assert(stack0[stack0.len() - 1] == u);
        assert(stack0.contains(u));
        assert(seen@.contains(u));
        proof {
            lemma_monotone(offs@, u as int, u + 1);
            lemma_monotone(offs@, u + 1, offs@.len() - 1);
        }
        let first: usize = offs[u as usize] as usize;
        let end: usize = offs[u as usize + 1] as usize;
        let mut slot: usize = first;
        let ghost room = 2 * unseen(flags) + stack@.len();
        assert forall|w: u32| #[trigger] seen@.contains(w) implies w == u || stack@.contains(w) || followed(
            s,
            start,
            goal,
            seen@,
            w,
            gid,
        ) by {
            if stack0.contains(w) && w != u {
                let k = choose|k: int| 0 <= k < stack0.len() && stack0[k] == w;
                assert(stack@[k] == w);
            }
        }
        assert forall|w: u32| #[trigger] stack@.contains(w) implies seen@.contains(w) by {
            let k = choose|k: int| 0 <= k < stack@.len() && stack@[k] == w;
            assert(stack0[k] == w);
            assert(stack0.contains(w));
        }
        while slot < end
            invariant
                s == *snap,
                snap.wf(),
                u < s.man().counts.nodes,
                offs@ == s.walk_starts(),
                dst@ == s.walk_ends(),
                first == offs@[u as int],
                end == offs@[u + 1],
                end <= dst@.len(),
                first <= slot <= end,
                destinations_valid(dst@, s.man().counts.nodes as int),
                sid != gid,
                seen@.contains(sid),
                seen@.contains(u),
                forall|w: u32| #[trigger]
                    seen@.contains(w) ==> local_walk(s, sid, w, start, goal) && w < s.man().counts.nodes && (w == sid
                        || may_pass(tile_at(s, w), start, goal)),
                forall|w: u32| #[trigger] stack@.contains(w) ==> seen@.contains(w),
                forall|w: u32| #[trigger]
                    seen@.contains(w) ==> w == u || stack@.contains(w) || followed(s, start, goal, seen@, w, gid),
                forall|k: int|
                    first <= k < slot ==> #[trigger] dst@[k] != gid && (may_pass(tile_at(s, dst@[k]), start, goal)
                        ==> seen@.contains(dst@[k])),
                flags.len() == s.man().counts.nodes,
                forall|w: u32| w < flags.len() ==> (seen@.contains(w) <==> #[trigger] flags[w as int]),
                2 * unseen(flags) + stack@.len() <= room,
            decreases end - slot,
        {
            let v: u32 = dst[slot];
            proof {
                assert(s.is_slot(u as int, v, slot as int));
                lemma_walk_on(s, sid, u, v, start, goal);
            }
            if v == gid {
                return true;
            }
            let t: Tile = tile_of_node(snap, v);
            let ghost (seen1, stack1) = (seen@, stack@);
            if t.plane == start.plane && (is_near(t, start) || is_near(t, goal)) && !seen.contains(&v) {
                seen.insert(v);
                stack.push(v);
                proof {
                    assert(!flags[v as int]);
                    lemma_unseen(flags, v as int);
                    flags = flags.update(v as int, true);
                    assert(stack@[stack1.len() as int] == v);
                }
            }
            assert forall|w: u32| stack1.contains(w) implies #[trigger] stack@.contains(w) by {
                let k = choose|k: int| 0 <= k < stack1.len() && stack1[k] == w;
                assert(stack@[k] == w);
            }
            assert forall|w: u32| #[trigger] stack@.contains(w) implies seen@.contains(w) by {
                let k = choose|k: int| 0 <= k < stack@.len() && stack@[k] == w;
                if k < stack1.len() {
                    assert(stack1[k] == w);
                    assert(stack1.contains(w));
                }
            }
            assert forall|w: u32| #[trigger] seen@.contains(w) implies w == u || stack@.contains(w) || followed(
                s,
                start,
                goal,
                seen@,
                w,
                gid,
            ) by {
                if seen1.contains(w) && w != u && !stack1.contains(w) {
                    assert(followed(s, start, goal, seen1, w, gid));
                }
            }
            slot += 1;
        }
        assert(followed(s, start, goal, seen@, u, gid)) by {
            assert forall|v: u32| #[trigger] walks(s, u, v) implies v != gid && (may_pass(tile_at(s, v), start, goal)
                ==> seen@.contains(v)) by {
                let k = choose|k: int| #[trigger] s.is_slot(u as int, v, k);
                assert(dst@[k] == v);
            }
        }
    }
    proof {
        if local_walk(s, sid, gid, start, goal) {
            let p = choose|p: Seq<u32>| #[trigger] is_local_walk(s, p, sid, gid, start, goal);
            assert forall|a: u32, b: u32|
                seen@.contains(a) && #[trigger] walks(s, a, b) && may_pass(tile_at(s, b), start, goal) implies seen@.contains(b) by {
                assert(followed(s, start, goal, seen@, a, gid));
            }
            assert(p.len() > 1);
            let k = p.len() - 2;
            lemma_closed_walk(s, p, sid, gid, start, goal, seen@, k);
            assert(walked(s, p, k));
            assert(walks(s, p[k], gid));
            assert(followed(s, start, goal, seen@, p[k], gid));
        }
    }
    false
}

/// The node of a tile.
pub open spec fn is_node_at(s: Snapshot, t: Tile, id: u32) -> bool {
    id < s.keys().len() && tile_at(s, id) == t
}

/// The node of a tile, where there is one.
pub fn find_tile(snap: &Snapshot, t: Tile) -> (r: Option<u32>)
    requires
        snap.wf(),
    ensures
        match r {
            Some(id) => is_node_at(*snap, t, id),
            None => forall|id: u32| !#[trigger] is_node_at(*snap, t, id),
        },
{
    let r: Option<u32> = snap.find_node(t.x, t.y, t.plane);
    proof {
        match r {
            Some(id) => {
                law_unpack_pack(t.x as int, t.y as int, t.plane as int);
            },
            None => {
                assert forall|id: u32| !#[trigger] is_node_at(*snap, t, id) by {
                    if id < snap.keys().len() {
                        law_pack_unpack(snap.keys()[id as int]);
                    }
                }
            },
        }
    }
    r
}

/// Whether `r` answers whether the goal can be walked to from the start.
pub open spec fn answers(s: Snapshot, start: Tile, goal: Tile, r: ReachableAnswer) -> bool {
    if start.plane != goal.plane {
        r == ReachableAnswer::DifferentPlane
    } else if !near(start, goal) {
        r == ReachableAnswer::OutOfRange
    } else if forall|id: u32| !#[trigger] is_node_at(s, start, id) {
        r == ReachableAnswer::StartTileNotFound
    } else if forall|id: u32| !#[trigger] is_node_at(s, goal, id) {
        r == ReachableAnswer::GoalTileNotFound
    } else {
        exists|a: u32, b: u32| #![trigger is_node_at(s, start, a), is_node_at(s, goal, b)]
            is_node_at(s, start, a) && is_node_at(s, goal, b) && r == if a == b {
                ReachableAnswer::Reachable
            } else if s.components()[a as int] != s.components()[b as int] {
                ReachableAnswer::NotConnected
            } else if local_walk(s, a, b, start, goal) {
                ReachableAnswer::Reachable
            } else {
                ReachableAnswer::NoPathInRange
            }
    }
}

/// Whether the goal can be walked to from the start, without any other means and without
/// leaving the tiles near the two.
pub fn reachable(snap: &Snapshot, start: Tile, goal: Tile) -> (r: ReachableAnswer)
    requires
        snap.wf(),
    ensures
        answers(*snap, start, goal, r),
{
    if start.plane != goal.plane {
        return ReachableAnswer::DifferentPlane;
    }
    if !is_near(start, goal) {
        return ReachableAnswer::OutOfRange;
    }
    let sid: u32 = match find_tile(snap, start) {
        Some(id) => id,
        None => {
            return ReachableAnswer::StartTileNotFound;
        },
    };
    let gid: u32 = match find_tile(snap, goal) {
        Some(id) => id,
        None => {
            return ReachableAnswer::GoalTileNotFound;
        },
    };
    assert(is_node_at(*snap, start, sid));
    assert(is_node_at(*snap, goal, gid));
    if sid == gid {
        return ReachableAnswer::Reachable;
    }
    let comps: &[u16] = snap.comp_ids();
    if comps[sid as usize] != comps[gid as usize] {
        return ReachableAnswer::NotConnected;
    }
    if search_walk(snap, sid, gid, start, goal) {
        ReachableAnswer::Reachable
    } else {
        ReachableAnswer::NoPathInRange
    }
}

proof fn lemma_reversed(s: Snapshot, a: u32, b: u32, start: Tile, goal: Tile)
    requires
        forall|u: u32, v: u32| #[trigger] walks(s, u, v) ==> walks(s, v, u),
        start.plane == goal.plane,
        local_walk(s, a, b, start, goal),
    ensures
        local_walk(s, b, a, goal, start),
{
    let p = choose|p: Seq<u32>| #[trigger] is_local_walk(s, p, a, b, start, goal);
    let q = Seq::new(p.len(), |i: int| p[p.len() - 1 - i]);
    assert forall|i: int| 0 <= i < q.len() - 1 implies #[trigger] walked(s, q, i) by {
        assert(walked(s, p, p.len() - 2 - i));
        assert(walks(s, q[i + 1], q[i]));
    }
    assert forall|i: int| 0 < i < q.len() - 1 implies may_pass(tile_at(s, #[trigger] q[i]), goal, start) by {
        assert(may_pass(tile_at(s, p[p.len() - 1 - i]), start, goal));
    }
    assert(is_local_walk(s, q, b, a, goal, start));
}

/// Where every walk edge has its counterpart, the way back is open exactly where the way there
/// is.
pub proof fn law_walks_go_both_ways(s: Snapshot, a: u32, b: u32, start: Tile, goal: Tile)
    requires
        forall|u: u32, v: u32| #[trigger] walks(s, u, v) ==> walks(s, v, u),
        start.plane == goal.plane,
    ensures
        local_walk(s, a, b, start, goal) == local_walk(s, b, a, goal, start),
{
    if local_walk(s, a, b, start, goal) {
        lemma_reversed(s, a, b, start, goal);
    }
    if local_walk(s, b, a, goal, start) {
        lemma_reversed(s, b, a, goal, start);
    }
}

/// A tile has one node at most.
proof fn lemma_one_node(s: Snapshot, t: Tile, a: u32, b: u32)
    requires
        s.wf(),
        is_node_at(s, t, a),
        is_node_at(s, t, b),
    ensures
        a == b,
{
    s.lemma_wf();
    lemma_ascending(s.keys());
    let (ka, kb) = (s.keys()[a as int], s.keys()[b as int]);
    assert(key_coord(ka) == key_coord(kb)) by {
        assert(tile_at(s, a) == tile_at(s, b));
        lemma_coords_fit(ka);
        lemma_coords_fit(kb);
    }
    lemma_one_key(ka, kb);
}

proof fn lemma_coords_fit(k: u32)
    ensures
        0 <= key_coord(k).0 < 32768 && 0 <= key_coord(k).1 < 32768 && 0 <= key_coord(k).2 < 4,
{
}

proof fn lemma_one_key(a: u32, b: u32)
    requires
        key_coord(a) == key_coord(b),
    ensures
        a == b,
{
    law_pack_unpack(a);
    law_pack_unpack(b);
}

/// A request is out of range exactly where its ends are on one plane and more than 20 tiles apart
/// in x or in y, and tells of different planes exactly where they are on two.
pub proof fn law_range_of_requests(s: Snapshot, start: Tile, goal: Tile, r: ReachableAnswer)
    requires
        answers(s, start, goal, r),
    ensures
        r == ReachableAnswer::DifferentPlane <==> start.plane != goal.plane,
        r == ReachableAnswer::OutOfRange <==> start.plane == goal.plane && (start.x - goal.x > 20 || goal.x - start.x > 20
            || start.y - goal.y > 20 || goal.y - start.y > 20),
{
}

/// Whether `p` leads from the tile `start` to the tile `goal` by walk edges, and every tile between
/// them is on the start's plane and at most 20 tiles from one of the two, in x and in y.
pub open spec fn is_way(s: Snapshot, p: Seq<u32>, start: Tile, goal: Tile) -> bool {
    &&& p.len() > 0
    &&& p[0] < s.keys().len()
    &&& p.last() < s.keys().len()
    &&& tile_at(s, p[0]) == start
    &&& tile_at(s, p.last()) == goal
    &&& forall|i: int| 0 <= i < p.len() - 1 ==> #[trigger] walked(s, p, i)
    &&& forall|i: int|
        #![trigger p[i]]
        0 < i < p.len() - 1 ==> {
            let t = tile_at(s, p[i]);
            t.plane == start.plane && ((-20 <= t.x - start.x <= 20 && -20 <= t.y - start.y <= 20) || (-20 <= t.x - goal.x
                <= 20 && -20 <= t.y - goal.y <= 20))
        }
}

/// What is reachable is reached by walk edges that stay near the two ends.
pub proof fn law_reachable_tiles_have_a_way(s: Snapshot, start: Tile, goal: Tile)
    requires
        s.wf(),
        answers(s, start, goal, ReachableAnswer::Reachable),
    ensures
        exists|p: Seq<u32>| #[trigger] is_way(s, p, start, goal),
{
    let (a, b) = choose|a: u32, b: u32| #![trigger is_node_at(s, start, a), is_node_at(s, goal, b)]
        is_node_at(s, start, a) && is_node_at(s, goal, b) && (a == b || local_walk(s, a, b, start, goal));
    if a == b {
        let p = seq![a];
        assert(is_way(s, p, start, goal));
    } else {
        let p = choose|p: Seq<u32>| #[trigger] is_local_walk(s, p, a, b, start, goal);
        assert forall|i: int| #![trigger p[i]] 0 < i < p.len() - 1 implies {
            let t = tile_at(s, p[i]);
            t.plane == start.plane && ((-20 <= t.x - start.x <= 20 && -20 <= t.y - start.y <= 20) || (-20 <= t.x - goal.x
                <= 20 && -20 <= t.y - goal.y <= 20))
        } by {
            assert(may_pass(tile_at(s, p[i]), start, goal));
        }
        assert(is_way(s, p, start, goal));
    }
}

/// Where walk edges that stay near the two ends lead from one to the other, in one component, the
/// goal is reachable.
pub proof fn law_ways_are_found(s: Snapshot, p: Seq<u32>, start: Tile, goal: Tile, r: ReachableAnswer)
    requires
        s.wf(),
        answers(s, start, goal, r),
        is_way(s, p, start, goal),
        start.plane == goal.plane,
        -20 <= start.x - goal.x <= 20,
        -20 <= start.y - goal.y <= 20,
        s.components()[p[0] as int] == s.components()[p.last() as int],
    ensures
        r == ReachableAnswer::Reachable,
{
    assert(is_node_at(s, start, p[0]));
    assert(is_node_at(s, goal, p.last()));
    assert(is_local_walk(s, p, p[0], p.last(), start, goal));
    assert forall|a: u32| is_node_at(s, start, a) implies a == p[0] by {
        lemma_one_node(s, start, a, p[0]);
    }
    assert forall|b: u32| is_node_at(s, goal, b) implies b == p.last() by {
        lemma_one_node(s, goal, b, p.last());
    }
}

/// What stops a request is named by the first thing that is wrong: the start's tile, the goal's, and
/// their components.
pub proof fn law_what_stops_a_request(s: Snapshot, start: Tile, goal: Tile, r: ReachableAnswer)
    requires
        s.wf(),
        answers(s, start, goal, r),
        start.plane == goal.plane,
        -20 <= start.x - goal.x <= 20,
        -20 <= start.y - goal.y <= 20,
    ensures
        r == ReachableAnswer::StartTileNotFound <==> forall|a: u32| a < s.keys().len() ==> #[trigger] tile_at(s, a) != start,
        r == ReachableAnswer::GoalTileNotFound <==> r != ReachableAnswer::StartTileNotFound && (forall|b: u32|
            b < s.keys().len() ==> #[trigger] tile_at(s, b) != goal),
        forall|a: u32, b: u32|
            #![trigger tile_at(s, a), tile_at(s, b)]
            a < s.keys().len() && b < s.keys().len() && tile_at(s, a) == start && tile_at(s, b) == goal ==> (r
                == ReachableAnswer::NotConnected <==> s.components()[a as int] != s.components()[b as int]),
{
    if exists|a: u32| a < s.keys().len() && #[trigger] tile_at(s, a) == start {
        let a = choose|a: u32| a < s.keys().len() && #[trigger] tile_at(s, a) == start;
        assert(is_node_at(s, start, a));
    }
    if exists|b: u32| b < s.keys().len() && #[trigger] tile_at(s, b) == goal {
        let b = choose|b: u32| b < s.keys().len() && #[trigger] tile_at(s, b) == goal;
        assert(is_node_at(s, goal, b));
    }
    assert forall|a: u32, b: u32|
        #![trigger tile_at(s, a), tile_at(s, b)]
        a < s.keys().len() && b < s.keys().len() && tile_at(s, a) == start && tile_at(s, b) == goal implies (r
        == ReachableAnswer::NotConnected <==> s.components()[a as int] != s.components()[b as int]) by {
        assert(is_node_at(s, start, a));
        assert(is_node_at(s, goal, b));
        assert forall|c: u32| is_node_at(s, start, c) implies c == a by {
            lemma_one_node(s, start, c, a);
        }
        assert forall|c: u32| is_node_at(s, goal, c) implies c == b by {
            lemma_one_node(s, goal, c, b);
        }
    }
}

/// Each answer but the good one has its reason.
pub proof fn law_reasons(r: ReachableAnswer)
    ensures
        r.reason() is None <==> r == ReachableAnswer::Reachable,
        r == ReachableAnswer::DifferentPlane ==> r.reason() == Some("different_plane"@),
        r == ReachableAnswer::OutOfRange ==> r.reason() == Some("out_of_range"@),
        r == ReachableAnswer::StartTileNotFound ==> r.reason() == Some("start_tile_not_found"@),
        r == ReachableAnswer::GoalTileNotFound ==> r.reason() == Some("goal_tile_not_found"@),
        r == ReachableAnswer::NotConnected ==> r.reason() == Some("not_connected"@),
        r == ReachableAnswer::NoPathInRange ==> r.reason() == Some("no_path_in_range"@),
{
}

}
