//! Parts of paths that are known to be cheapest. A part of a cheapest path is a cheapest path
//! itself, so that a request whose start and goal lie on one that is kept needs no search.

use crate::cache::lru_index::SlotCache;
use crate::engine::fx_map::FxIndex;
use crate::engine::outcome::{SearchResult, SearchStatus};
use crate::engine::weight::Weight;
use vstd::prelude::*;
#[allow(unused_imports)]
use crate::cache::lru_index::{entry_of, stored, used};
#[allow(unused_imports)]
use crate::engine::fx_map::entry;
#[allow(unused_imports)]
use crate::engine::attempt::{lemma_leads_to_nodes, lemma_start_apart, search_lists, start_apart};
#[allow(unused_imports)]
use crate::engine::edges::{nodes_of_route, Means};
#[allow(unused_imports)]
use crate::engine::macros::MacroLookup;
#[allow(unused_imports)]
use crate::planner::dijkstra::{
    edges_valid, is_cheapest, is_walk, leads, lemma_cost_nonneg, lemma_cost_prepend, walk_cost,
};
#[allow(unused_imports)]
use crate::snapshot::reader::Snapshot;

verus! {

/// The paths that are kept of one profile where no other number is set.
pub const DEFAULT_SUBPATH_PATHS: usize = 64;

/// The profiles of which paths are kept.
pub const SUBPATH_PROFILES: usize = 32;

/// Where a node first stands on a path, at `i` or later.
pub open spec fn first_at(path: Seq<u32>, node: u32, i: int) -> Option<int>
    decreases path.len() - i,
{
    if i < 0 || i >= path.len() {
        None
    } else if path[i] == node {
        Some(i)
    } else {
        first_at(path, node, i + 1)
    }
}

/// A path that is kept, and where each node first stands on it.
pub struct PathRecord {
    res: SearchResult,
    pos: FxIndex,
}

/// Whether a result may be kept: a path that is proven to be cheapest, of two nodes at least,
/// with a cost for each node.
pub open spec fn may_keep(res: SearchResult) -> bool {
    res.found && res.status == SearchStatus::Found && res.path@.len() >= 2 && res.path_g@.len() == res.path@.len()
}

impl PathRecord {
    /// The result that is kept.
    pub closed spec fn result(self) -> SearchResult {
        self.res
    }

    pub closed spec fn wf(self) -> bool {
        &&& may_keep(self.res)
        &&& forall|n: u32|
            match first_at(self.res.path@, n, 0) {
                Some(i) => entry(self.pos@, #[trigger] key_of(n)) == Some(i as usize) && i <= usize::MAX,
                None => entry(self.pos@, key_of(n)) is None,
            }
    }

    /// Keeps a result, where it may be kept.
    pub fn new(res: SearchResult) -> (r: Option<PathRecord>)
        ensures
            match r {
                Some(rec) => may_keep(res) && rec.wf() && rec.result() == res,
                None => !may_keep(res),
            },
    {
        if !(res.found && res.status == SearchStatus::Found) || res.path.len() < 2 || res.path_g.len() != res.path.len() {
            return None;
        }
        let mut pos: FxIndex = FxIndex::new();
        let mut i: usize = res.path.len();
        let ghost path = res.path@;
        while i > 0
            invariant
                i <= res.path@.len(),
                path == res.path@,
                forall|n: u32|
                    match first_at(path, n, i as int) {
                        Some(k) => entry(pos@, #[trigger] key_of(n)) == Some(k as usize) && i <= k < path.len(),
                        None => entry(pos@, key_of(n)) is None,
                    },
            decreases i,
        {
            i -= 1;
            let ghost before = pos@;
            pos.insert(res.path[i] as u64, i);
            assert forall|n: u32|
                match first_at(path, n, i as int) {
                    Some(k) => entry(pos@, #[trigger] key_of(n)) == Some(k as usize) && i <= k < path.len(),
                    None => entry(pos@, key_of(n)) is None,
                } by {
                assert(match first_at(path, n, i + 1) {
                    Some(k) => entry(before, key_of(n)) == Some(k as usize) && i + 1 <= k < path.len(),
                    None => entry(before, key_of(n)) is None,
                });
            }
        }
        assert(res.path.len() <= usize::MAX);
        Some(PathRecord { res, pos })
    }

    /// Where a node first stands on the path.
    pub fn position(&self, node: u32) -> (r: Option<usize>)
        requires
            self.wf(),
        ensures
            match first_at(self.result().path@, node, 0) {
                Some(i) => r is Some && r->0 == i && i < self.result().path@.len(),
                None => r is None,
            },
    {
        proof {
            lemma_first_at(self.res.path@, node, 0);
            assert(key_of(node) == node as u64);
        }
        self.pos.get(node as u64)
    }

    /// The nodes of the path from position `ps` to position `pg`.
    pub fn path(&self, ps: usize, pg: usize) -> (r: &[u32])
        requires
            ps <= pg < self.result().path@.len(),
        ensures
            r@ == self.result().path@.subrange(ps as int, pg + 1),
    {
        let len: usize = self.res.path.len();
        &self.res.path.as_slice()[ps..pg + 1]
    }

    /// What the part from position `ps` to position `pg` costs.
    pub fn cost(&self, ps: usize, pg: usize) -> (r: Weight)
        requires
            self.wf(),
            ps <= pg < self.result().path@.len(),
        ensures
            r == self.result().path_g@[pg as int].minus(self.result().path_g@[ps as int]),
    {
        self.res.path_g[pg].difference(&self.res.path_g[ps])
    }

    /// The costs along the part from position `ps` to position `pg`, each counted from its start.
    pub fn path_g(&self, ps: usize, pg: usize) -> (r: Vec<Weight>)
        requires
            self.wf(),
            ps <= pg < self.result().path@.len(),
        ensures
            r@ == Seq::new(
                (pg - ps + 1) as nat,
                |i: int| self.result().path_g@[ps + i].minus(self.result().path_g@[ps as int]),
            ),
    {
        let mut r: Vec<Weight> = Vec::new();
        r.push(self.cost(ps, ps));
        let mut i: usize = ps;
        while i < pg
            invariant
                self.wf(),
                ps <= i <= pg,
                pg < self.result().path@.len(),
                r@ =~= Seq::new(
                    (i - ps + 1) as nat,
                    |k: int| self.result().path_g@[ps + k].minus(self.result().path_g@[ps as int]),
                ),
            decreases pg - i,
        {
            i += 1;
            r.push(self.cost(ps, i));
        }
        r
    }
}

/// The number of a node in the index.
pub open spec fn key_of(n: u32) -> u64 {
    n as u64
}

/// The first position of a node is one at which it stands, with none before.
pub proof fn lemma_first_at(path: Seq<u32>, node: u32, i: int)
    requires
        0 <= i,
    ensures
        match first_at(path, node, i) {
            Some(k) => i <= k < path.len() && path[k] == node && forall|j: int| i <= j < k ==> #[trigger] path[j] != node,
            None => forall|j: int| i <= j < path.len() ==> #[trigger] path[j] != node,
        },
    decreases path.len() - i,
{
    if i < path.len() && path[i] != node {
        lemma_first_at(path, node, i + 1);
    }
}

/// A part of a path that is kept: which path, and from where to where.
#[derive(Debug, Clone, Copy, PartialEq, Eq, Structural)]
pub struct SubpathHit {
    pub record: usize,
    pub ps: usize,
    pub pg: usize,
}

/// Whether the path leads from `sid` to `gid`, by the first position of each.
pub open spec fn leads_on(path: Seq<u32>, sid: u32, gid: u32) -> bool {
    match (first_at(path, sid, 0), first_at(path, gid, 0)) {
        (Some(a), Some(b)) => a <= b,
        _ => false,
    }
}

/// Whether every record is well formed.
pub open spec fn all_wf(paths: Seq<PathRecord>) -> bool {
    forall|i: int| 0 <= i < paths.len() ==> (#[trigger] paths[i]).wf()
}

/// The first path from `sid` to `gid`, and whether any path passes the goal.
pub open spec fn lookup_result(paths: Seq<PathRecord>, sid: u32, gid: u32, r: (Option<SubpathHit>, bool)) -> bool {
    match r.0 {
        Some(h) => {
            let path = paths[h.record as int].result().path@;
            &&& h.record < paths.len()
            &&& leads_on(path, sid, gid)
            &&& first_at(path, sid, 0) == Some(h.ps as int)
            &&& first_at(path, gid, 0) == Some(h.pg as int)
            &&& h.ps <= h.pg < path.len()
            &&& forall|i: int| 0 <= i < h.record ==> !leads_on((#[trigger] paths[i]).result().path@, sid, gid)
            &&& r.1
        },
        None => {
            &&& forall|i: int| 0 <= i < paths.len() ==> !leads_on((#[trigger] paths[i]).result().path@, sid, gid)
            &&& r.1 == exists|i: int|
                0 <= i < paths.len() && first_at((#[trigger] paths[i]).result().path@, gid, 0) is Some
        },
    }
}

/// The first path from `sid` to `gid` among those of a profile, and whether any of them passes
/// the goal.
pub fn subpath_lookup(paths: &Vec<PathRecord>, sid: u32, gid: u32) -> (r: (Option<SubpathHit>, bool))
    requires
        all_wf(paths@),
    ensures
        lookup_result(paths@, sid, gid, r),
{
    let mut goal_known: bool = false;
    let mut i: usize = 0;
    while i < paths.len()
        invariant
            i <= paths@.len(),
            all_wf(paths@),
            forall|k: int| 0 <= k < i ==> !leads_on((#[trigger] paths@[k]).result().path@, sid, gid),
            goal_known == exists|k: int| 0 <= k < i && first_at((#[trigger] paths@[k]).result().path@, gid, 0) is Some,
        decreases paths@.len() - i,
    {
        let rec: &PathRecord = &paths[i];
        assert(paths@[i as int].wf());
        proof {
            lemma_first_at(rec.result().path@, gid, 0);
        }
        if let Some(pg) = rec.position(gid) {
            goal_known = true;
            assert(first_at(paths@[i as int].result().path@, gid, 0) is Some);
            if let Some(ps) = rec.position(sid) {
                if ps <= pg {
                    return (Some(SubpathHit { record: i, ps, pg }), true);
                }
            }
        }
        i += 1;
    }
    (None, goal_known)
}

/// The paths of each profile, the newest first.
pub type SubpathCache = SlotCache<Vec<PathRecord>>;

/// The number of paths that are kept of one profile.
pub fn subpath_cache_paths(setting: Option<usize>) -> (r: usize)
    ensures
        r == (match setting {
            Some(n) => n,
            None => DEFAULT_SUBPATH_PATHS,
        }),
{
    match setting {
        Some(n) => n,
        None => DEFAULT_SUBPATH_PATHS,
    }
}

/// A cache of paths. There is none where no path is to be kept, nor where the route cache is
/// switched off and nothing is said of this one.
pub fn new_subpath_cache(setting: Option<usize>, said: bool, route_cache: Option<usize>) -> (r: Option<SubpathCache>)
    ensures
        match r {
            Some(c) => setting != Some(0usize) && (said || route_cache != Some(0usize)) && c.wf() && c.entries().len() == 0
                && c.limit() == SUBPATH_PROFILES,
            None => setting == Some(0usize) || (!said && route_cache == Some(0usize)),
        },
{
    if subpath_cache_paths(setting) == 0 {
        return None;
    }
    let off: bool = match route_cache {
        Some(n) => n == 0,
        None => false,
    };
    if off && !said {
        return None;
    }
    Some(SlotCache::new(SUBPATH_PROFILES))
}

/// The paths of a profile with one more, the newest first, and at most `cap` of them.
pub open spec fn with_path(paths: Seq<PathRecord>, rec: PathRecord, cap: int) -> Seq<PathRecord> {
    let all = seq![rec] + paths;
    if all.len() > cap { all.take(cap) } else { all }
}

/// The paths of a profile.
pub open spec fn paths_of(e: Seq<(Seq<u64>, Vec<PathRecord>)>, key: Seq<u64>) -> Seq<PathRecord> {
    match entry_of(e, key, 0) {
        Some(i) => e[i].1@,
        None => Seq::empty(),
    }
}

/// Keeps a path as the newest of its profile.
pub fn subpath_insert(cache: &mut SubpathCache, key: &Vec<u64>, rec: PathRecord, cap: usize)
    requires
        old(cache).wf(),
    ensures
        final(cache).wf(),
        final(cache).limit() == old(cache).limit(),
        exists|paths: Vec<PathRecord>|
            paths@ == with_path(paths_of(old(cache).entries(), key@), rec, cap as int) && #[trigger] stored(
                old(cache).entries(),
                old(cache).limit(),
                key@,
                paths,
            ) == final(cache).entries(),
{
    let ghost e0 = cache.entries();
    let empty: Vec<PathRecord> = Vec::new();
    let ghost none = empty;
    let mut paths: Vec<PathRecord> = match cache.exchange(key, empty) {
        Some(p) => p,
        None => Vec::new(),
    };
    let ghost e1 = cache.entries();
    proof {
        lemma_entry_found(e0, key@);
    }
    paths.insert(0, rec);
    paths.truncate(cap);
    assert(paths@ =~= with_path(paths_of(e0, key@), rec, cap as int));
    let words: Vec<u64> = crate::cache::route_cache::copy_words(key);
    let ghost kept = paths;
    cache.put(words, paths);
    proof {
        match entry_of(e0, key@, 0) {
            Some(i) => {
                assert(e1[0] == (key@, none));
                assert(entry_of(e1, key@, 0) == Some(0int));
                assert(seq![(key@, kept)] + e1.remove(0) =~= seq![(key@, kept)] + e0.remove(i));
            },
            None => {},
        }
        assert(stored(e0, cache.limit(), key@, kept) == cache.entries());
    }
}

proof fn lemma_entry_found<V>(e: Seq<(Seq<u64>, V)>, key: Seq<u64>)
    ensures
        match entry_of(e, key, 0) {
            Some(i) => 0 <= i < e.len(),
            None => true,
        },
{
    crate::cache::lru_index::lemma_entry(e, key, 0);
}

/// Two walks one after the other: the second starts where the first ends.
spec fn then_walk(p: Seq<usize>, q: Seq<usize>) -> Seq<usize> {
    p + q.skip(1)
}

proof fn lemma_join(g: Seq<Seq<(usize, i64)>>, p: Seq<usize>, s: Seq<int>, q: Seq<usize>, t: Seq<int>)
    requires
        is_walk(g, p, s),
        is_walk(g, q, t),
        p.last() == q[0],
    ensures
        is_walk(g, then_walk(p, q), s + t),
        walk_cost(g, then_walk(p, q), s + t) == walk_cost(g, p, s) + walk_cost(g, q, t),
        then_walk(p, q)[0] == p[0],
        then_walk(p, q).last() == q.last(),
    decreases t.len(),
{
    let (r, u) = (then_walk(p, q), s + t);
    assert forall|i: int| 0 <= i < u.len() implies 0 <= #[trigger] u[i] < g[r[i] as int].len() && g[r[i] as int][u[i]].0
        == r[i + 1] by {
        if i < s.len() {
            assert(u[i] == s[i]);
            assert(r[i] == p[i]);
            assert(r[i + 1] == p[i + 1]);
        } else {
            let k = i - s.len();
            assert(u[i] == t[k]);
            assert(r[i] == q[k]);
            assert(r[i + 1] == q[k + 1]);
        }
    }
    assert forall|i: int| 0 <= i < r.len() implies #[trigger] r[i] < g.len() by {
        if i < p.len() {
            assert(r[i] == p[i]);
        } else {
            assert(r[i] == q[i - p.len() + 1]);
        }
    }
    if t.len() == 0 {
        assert(r =~= p);
        assert(u =~= s);
    } else {
        let (q1, t1) = (q.drop_last(), t.drop_last());
        assert forall|i: int| 0 <= i < t1.len() implies 0 <= #[trigger] t1[i] < g[q1[i] as int].len() && g[q1[i] as int][t1[i]].0
            == q1[i + 1] by {
            assert(t[i] == t1[i]);
        }
        assert forall|i: int| 0 <= i < q1.len() implies #[trigger] q1[i] < g.len() by {
            assert(q[i] == q1[i]);
        }
        lemma_join(g, p, s, q1, t1);
        assert(r.drop_last() =~= then_walk(p, q1));
        assert(u.drop_last() =~= s + t1);
        assert(u.last() == t.last());
        assert(r[u.len() - 1] == q[t.len() - 1]);
    }
}

proof fn lemma_part(g: Seq<Seq<(usize, i64)>>, p: Seq<usize>, s: Seq<int>, i: int, j: int)
    requires
        is_walk(g, p, s),
        0 <= i <= j < p.len(),
    ensures
        is_walk(g, p.subrange(i, j + 1), s.subrange(i, j)),
{
    let (q, t) = (p.subrange(i, j + 1), s.subrange(i, j));
    assert forall|k: int| 0 <= k < t.len() implies 0 <= #[trigger] t[k] < g[q[k] as int].len() && g[q[k] as int][t[k]].0 == q[k
        + 1] by {
        assert(s[i + k] == t[k]);
    }
    assert forall|k: int| 0 <= k < q.len() implies #[trigger] q[k] < g.len() by {
        assert(p[i + k] == q[k]);
    }
}

/// A part of a cheapest path is a cheapest path between its ends. So a path that is kept
/// answers every request from one of its nodes to a later one.
pub proof fn law_part_of_a_cheapest_path(g: Seq<Seq<(usize, i64)>>, p: Seq<usize>, i: int, j: int)
    requires
        p.len() > 0,
        is_cheapest(g, p[0], p.last(), p),
        0 <= i <= j < p.len(),
    ensures
        is_cheapest(g, p[i], p[j], p.subrange(i, j + 1)),
{
    let (a, b) = (p[0], p.last());
    let s = choose|s: Seq<int>| #[trigger]
        leads(g, a, b, p, s) && forall|q: Seq<usize>, t: Seq<int>| #[trigger]
            leads(g, a, b, q, t) ==> walk_cost(g, p, s) <= walk_cost(g, q, t);
    let n = p.len() as int;
    lemma_part(g, p, s, 0, i);
    lemma_part(g, p, s, i, j);
    lemma_part(g, p, s, j, n - 1);
    let (p1, s1) = (p.subrange(0, i + 1), s.subrange(0, i));
    let (p2, s2) = (p.subrange(i, j + 1), s.subrange(i, j));
    let (p3, s3) = (p.subrange(j, n), s.subrange(j, n - 1));
    lemma_join(g, p1, s1, p2, s2);
    lemma_join(g, then_walk(p1, p2), s1 + s2, p3, s3);
    assert(then_walk(then_walk(p1, p2), p3) =~= p);
    assert(s1 + s2 + s3 =~= s);
    assert(leads(g, p[i], p[j], p2, s2));
    assert forall|q: Seq<usize>, t: Seq<int>| #[trigger] leads(g, p[i], p[j], q, t) implies walk_cost(g, p2, s2)
        <= walk_cost(g, q, t) by {
        lemma_join(g, p1, s1, q, t);
        lemma_join(g, then_walk(p1, q), s1 + t, p3, s3);
        assert(leads(g, a, b, then_walk(then_walk(p1, q), p3), s1 + t + s3));
    }
}

proof fn lemma_cost_alike(g: Seq<Seq<(usize, i64)>>, h: Seq<Seq<(usize, i64)>>, p: Seq<usize>, s: Seq<int>)
    requires
        p.len() == s.len() + 1,
        forall|i: int| 0 <= i < s.len() ==> g[(#[trigger] p[i]) as int] == h[p[i] as int],
    ensures
        walk_cost(g, p, s) == walk_cost(h, p, s),
    decreases s.len(),
{
    if s.len() > 0 {
        let (p1, s1) = (p.drop_last(), s.drop_last());
        assert forall|i: int| 0 <= i < s1.len() implies g[(#[trigger] p1[i]) as int] == h[p1[i] as int] by {
            assert(p1[i] == p[i]);
        }
        lemma_cost_alike(g, h, p1, s1);
        assert(g[p[s.len() - 1] as int] == h[p[s.len() - 1] as int]);
    }
}

/// A walk among nodes below `n` is one in every graph with the same lists there.
proof fn lemma_walk_alike(g: Seq<Seq<(usize, i64)>>, h: Seq<Seq<(usize, i64)>>, n: int, p: Seq<usize>, s: Seq<int>)
    requires
        is_walk(g, p, s),
        g.len() == h.len(),
        forall|u: int| 0 <= u < n ==> g[u] == #[trigger] h[u],
        forall|i: int| 0 <= i < p.len() ==> #[trigger] p[i] < n,
    ensures
        is_walk(h, p, s),
        walk_cost(h, p, s) == walk_cost(g, p, s),
{
    assert forall|i: int| 0 <= i < s.len() implies g[(#[trigger] p[i]) as int] == h[p[i] as int] by {
        assert(g[p[i] as int] == h[p[i] as int]);
    }
    lemma_cost_alike(g, h, p, s);
    assert forall|i: int| 0 <= i < s.len() implies 0 <= #[trigger] s[i] < h[p[i] as int].len() && h[p[i] as int][s[i]].0
        == p[i + 1] by {
        assert(g[p[i] as int] == h[p[i] as int]);
    }
}

/// A walk with a step in front.
proof fn lemma_walk_prepend(g: Seq<Seq<(usize, i64)>>, u: usize, x: int, p: Seq<usize>, s: Seq<int>)
    requires
        is_walk(g, p, s),
        u < g.len(),
        0 <= x < g[u as int].len(),
        g[u as int][x].0 == p[0],
    ensures
        is_walk(g, seq![u] + p, seq![x] + s),
        walk_cost(g, seq![u] + p, seq![x] + s) == g[u as int][x].1 + walk_cost(g, p, s),
{
    let (q, t) = (seq![u] + p, seq![x] + s);
    lemma_cost_prepend(g, u, x, p, s);
    assert forall|i: int| 0 <= i < t.len() implies 0 <= #[trigger] t[i] < g[q[i] as int].len() && g[q[i] as int][t[i]].0 == q[i
        + 1] by {
        if i > 0 {
            assert(t[i] == s[i - 1]);
            assert(q[i] == p[i - 1] && q[i + 1] == p[i]);
        }
    }
    assert forall|i: int| 0 <= i < q.len() implies #[trigger] q[i] < g.len() by {
        if i > 0 {
            assert(q[i] == p[i - 1]);
        }
    }
}

proof fn lemma_part_apart(
    g: Seq<Seq<(usize, i64)>>,
    h: Seq<Seq<(usize, i64)>>,
    n: usize,
    d: int,
    p: Seq<usize>,
    i: int,
    j: int,
)
    requires
        start_apart(g, h, n as int, d, p[i]),
        p.len() > 0,
        p[0] == n,
        is_cheapest(g, n, p.last(), p),
        0 < i <= j < p.len(),
    ensures
        is_cheapest(h, n, p[j], seq![n] + p.subrange(i, j + 1)),
{
    let s = choose|s: Seq<int>| #[trigger]
        leads(g, n, p.last(), p, s) && forall|q: Seq<usize>, t: Seq<int>| #[trigger]
            leads(g, n, p.last(), q, t) ==> walk_cost(g, p, s) <= walk_cost(g, q, t);
    let part = p.subrange(i, j + 1);
    let head = p.subrange(0, j + 1);
    law_part_of_a_cheapest_path(g, p, i, j);
    law_part_of_a_cheapest_path(g, p, 0, j);
    let x = choose|x: Seq<int>| #[trigger]
        leads(g, p[i], p[j], part, x) && forall|q: Seq<usize>, t: Seq<int>| #[trigger]
            leads(g, p[i], p[j], q, t) ==> walk_cost(g, part, x) <= walk_cost(g, q, t);
    let y = choose|y: Seq<int>| #[trigger]
        leads(g, n, p[j], head, y) && forall|q: Seq<usize>, t: Seq<int>| #[trigger]
            leads(g, n, p[j], q, t) ==> walk_cost(g, head, y) <= walk_cost(g, q, t);
    assert forall|k: int| 0 < k < p.len() implies #[trigger] p[k] < n by {
        assert(0 <= s[k - 1] < g[p[k - 1] as int].len());
        assert(g[p[k - 1] as int][s[k - 1]].0 == p[k]);
    }
    assert forall|k: int| 0 <= k < part.len() implies #[trigger] part[k] < n by {
        assert(part[k] == p[i + k]);
    }
    // The whole part is no dearer than the walk that leads to it and goes on along it.
    lemma_part(g, head, y, 0, i);
    lemma_part(g, head, y, i, j);
    let (h1, y1) = (head.subrange(0, i + 1), y.subrange(0, i));
    let (h2, y2) = (head.subrange(i, j + 1), y.subrange(i, j));
    assert(h2 =~= part);
    lemma_join(g, h1, y1, h2, y2);
    assert(then_walk(h1, h2) =~= head);
    assert(y1 + y2 =~= y);
    assert(edges_valid(g));
    lemma_cost_nonneg(g, h1, y1, i);
    assert(h1.take(i + 1) =~= h1 && y1.take(i) =~= y1);
    assert(leads(g, p[i], p[j], part, y2));
    assert(walk_cost(g, part, x) <= walk_cost(g, head, y));
    // The part behind the caller's node.
    lemma_walk_alike(g, h, n as int, part, x);
    lemma_walk_prepend(h, n, 0, part, x);
    let (w, z) = (seq![n] + part, seq![0int] + x);
    assert(leads(h, n, p[j], w, z));
    assert(walk_cost(h, w, z) == walk_cost(g, part, x));
    assert forall|q: Seq<usize>, t: Seq<int>| #[trigger] leads(h, n, p[j], q, t) implies walk_cost(h, w, z) <= walk_cost(
        h,
        q,
        t,
    ) by {
        assert(q.len() > 1) by {
            assert(q.last() == p[j]);
        }
        let (q1, t1) = (q.subrange(1, q.len() as int), t.subrange(1, t.len() as int));
        lemma_part(h, q, t, 1, q.len() - 1);
        assert(t1 =~= t.subrange(1, q.len() - 1));
        assert(q =~= seq![n] + q1);
        assert(t =~= seq![t[0]] + t1);
        assert(0 <= t[0] < h[n as int].len() && h[n as int][t[0]].0 == q[1]);
        lemma_walk_prepend(h, n, t[0], q1, t1);
        assert forall|k: int| 0 <= k < q1.len() implies #[trigger] q1[k] < n by {
            assert(q1[k] == q[k + 1]);
            assert(0 <= t[k] < h[q[k] as int].len() && h[q[k] as int][t[k]].0 == q[k + 1]);
        }
        assert forall|u: int| 0 <= u < n implies h[u] == #[trigger] g[u] by {
            assert(g[u] == h[u]);
        }
        lemma_walk_alike(h, g, n as int, q1, t1);
        if t[0] == 0 {
            assert(leads(g, p[i], p[j], q1, t1));
        } else {
            let o = t[0] - 1 + d;
            assert(h[n as int][t[0]] == g[n as int][o]);
            lemma_walk_prepend(g, n, o, q1, t1);
            assert(leads(g, n, p[j], seq![n] + q1, seq![o] + t1));
        }
    }
}

/// A route that was searched for answers every request between two of its nodes: where `p` is a
/// cheapest path of a search, from the node that stands for where the caller is, its part from the
/// `i`-th node to the `j`-th, behind that node, is a cheapest path of the search that starts at the
/// `i`-th node by the same means.
pub proof fn law_part_of_a_route(
    s: Snapshot,
    lookup: MacroLookup,
    m: Means,
    start: Option<u32>,
    p: Seq<usize>,
    i: int,
    j: int,
)
    requires
        s.man().counts.nodes < usize::MAX,
        p.len() > 0,
        is_cheapest(search_lists(s, lookup, m, start, false), s.man().counts.nodes as usize, p.last(), p),
        0 < i <= j < p.len(),
    ensures
        p[i] < s.man().counts.nodes,
        is_cheapest(
            search_lists(s, lookup, m, Some(p[i] as u32), false),
            s.man().counts.nodes as usize,
            p[j],
            seq![s.man().counts.nodes as usize] + p.subrange(i, j + 1),
        ),
{
    let n = s.man().counts.nodes as usize;
    let g = search_lists(s, lookup, m, start, false);
    let t = choose|t: Seq<int>| #[trigger]
        leads(g, n, p.last(), p, t) && forall|q: Seq<usize>, r: Seq<int>| #[trigger]
            leads(g, n, p.last(), q, r) ==> walk_cost(g, p, t) <= walk_cost(g, q, r);
    lemma_leads_to_nodes(s, lookup, m, start);
    assert(0 <= t[i - 1] < g[p[i - 1] as int].len() && g[p[i - 1] as int][t[i - 1]].0 == p[i]);
    let d = lemma_start_apart(s, lookup, m, start, p[i] as u32);
    lemma_part_apart(g, search_lists(s, lookup, m, Some(p[i] as u32), false), n, d, p, i, j);
}

/// A caller is at its start for nothing.
proof fn lemma_start_is_free(s: Snapshot, lookup: MacroLookup, m: Means, b: u32)
    requires
        s.man().counts.nodes < usize::MAX,
        b < s.man().counts.nodes,
    ensures
        is_cheapest(
            search_lists(s, lookup, m, Some(b), false),
            s.man().counts.nodes as usize,
            b as usize,
            seq![s.man().counts.nodes as usize, b as usize],
        ),
{
    let n = s.man().counts.nodes as usize;
    let g = search_lists(s, lookup, m, Some(b), false);
    let d = lemma_start_apart(s, lookup, m, Some(b), b);
    let (p, x) = (seq![b as usize], Seq::<int>::empty());
    assert(is_walk(g, p, x));
    lemma_walk_prepend(g, n, 0, p, x);
    let (w, z) = (seq![n] + p, seq![0int] + x);
    assert(w =~= seq![n, b as usize]);
    assert(leads(g, n, b as usize, w, z));
    assert(walk_cost(g, p, x) == 0);
    assert(edges_valid(g));
    assert forall|q: Seq<usize>, t: Seq<int>| #[trigger] leads(g, n, b as usize, q, t) implies walk_cost(g, w, z)
        <= walk_cost(g, q, t) by {
        lemma_cost_nonneg(g, q, t, t.len() as int);
        assert(q.take((t.len() + 1) as int) =~= q && t.take(t.len() as int) =~= t);
    }
}

/// A part of a route that was searched for is itself a route: the nodes from the `i`-th to the `j`-th
/// are those of a cheapest path `q` of the search that starts at the first of them and ends at the last,
/// by the same means.
pub proof fn law_part_of_a_route_is_a_route(
    s: Snapshot,
    lookup: MacroLookup,
    m: Means,
    start: Option<u32>,
    p: Seq<usize>,
    i: int,
    j: int,
) -> (q: Seq<usize>)
    requires
        s.man().counts.nodes < usize::MAX,
        start is Some ==> start->0 < s.man().counts.nodes,
        p.len() > 0,
        is_cheapest(search_lists(s, lookup, m, start, false), s.man().counts.nodes as usize, p.last(), p),
        0 <= i <= j < nodes_of_route(p, start).len(),
    ensures
        is_cheapest(
            search_lists(s, lookup, m, Some(nodes_of_route(p, start)[i]), false),
            s.man().counts.nodes as usize,
            nodes_of_route(p, start)[j] as usize,
            q,
        ),
        nodes_of_route(q, Some(nodes_of_route(p, start)[i])) == nodes_of_route(p, start).subrange(i, j + 1),
{
    let n = s.man().counts.nodes as usize;
    let g = search_lists(s, lookup, m, start, false);
    let route = nodes_of_route(p, start);
    let part = route.subrange(i, j + 1);
    let t = choose|t: Seq<int>| #[trigger]
        leads(g, n, p.last(), p, t) && forall|q: Seq<usize>, r: Seq<int>| #[trigger]
            leads(g, n, p.last(), q, r) ==> walk_cost(g, p, t) <= walk_cost(g, q, r);
    assert(leads(g, n, p.last(), p, t));
    lemma_leads_to_nodes(s, lookup, m, start);
    assert forall|k: int| 0 < k < p.len() implies #[trigger] p[k] < n by {
        assert(0 <= t[k - 1] < g[p[k - 1] as int].len() && g[p[k - 1] as int][t[k - 1]].0 == p[k]);
    }
    let put: int = if route.len() == p.len() { 0 } else { 1 };
    if i + put > 0 {
        law_part_of_a_route(s, lookup, m, start, p, i + put, j + put);
        let q = seq![n] + p.subrange(i + put, j + put + 1);
        assert(route[i] == p[i + put] as u32);
        assert(route[j] == p[j + put] as u32);
        assert(nodes_of_route(q, Some(route[i])) =~= part);
        q
    } else if j == 0 {
        lemma_start_is_free(s, lookup, m, route[0]);
        let q = seq![n, route[0] as usize];
        assert(nodes_of_route(q, Some(route[0])) =~= part);
        q
    } else {
        law_part_of_a_cheapest_path(g, p, 0, j);
        let q = p.subrange(0, j + 1);
        assert(route[0] == start->0);
        assert(nodes_of_route(q, start) =~= part);
        q
    }
}

/// Whether no node stands on the path twice.
pub open spec fn has_no_repeats(path: Seq<u32>) -> bool {
    forall|i: int, j: int| #![trigger path[i], path[j]] 0 <= i < j < path.len() ==> path[i] != path[j]
}

/// Where a part of a kept path is found, it leads from the start to the goal; and where none is found,
/// no kept path without repeats passes the start and then the goal. The goal is known exactly where a
/// kept path passes it.
pub proof fn law_kept_parts_are_found(paths: Seq<PathRecord>, sid: u32, gid: u32, r: (Option<SubpathHit>, bool))
    requires
        lookup_result(paths, sid, gid, r),
    ensures
        r.0 matches Some(h) ==> {
            let path = paths[h.record as int].result().path@;
            h.record < paths.len() && h.ps <= h.pg < path.len() && path[h.ps as int] == sid && path[h.pg as int] == gid
        },
        r.0 is None ==> forall|k: int, i: int, j: int|
            #![trigger paths[k].result().path@[i], paths[k].result().path@[j]]
            0 <= k < paths.len() && has_no_repeats(paths[k].result().path@) && 0 <= i <= j < paths[k].result().path@.len()
                ==> !(paths[k].result().path@[i] == sid && paths[k].result().path@[j] == gid),
        r.1 <==> exists|k: int| 0 <= k < paths.len() && (#[trigger] paths[k]).result().path@.contains(gid),
{
    assert forall|k: int| 0 <= k < paths.len() implies ((#[trigger] paths[k]).result().path@.contains(gid) <==> first_at(
        paths[k].result().path@,
        gid,
        0,
    ) is Some) by {
        lemma_first_at(paths[k].result().path@, gid, 0);
        if paths[k].result().path@.contains(gid) {
            let j = choose|j: int| 0 <= j < paths[k].result().path@.len() && paths[k].result().path@[j] == gid;
            assert(paths[k].result().path@[j] == gid);
        }
    }
    match r.0 {
        Some(h) => {
            let path = paths[h.record as int].result().path@;
            lemma_first_at(path, sid, 0);
            lemma_first_at(path, gid, 0);
            assert(paths[h.record as int].result().path@.contains(gid));
        },
        None => {
            assert forall|k: int, i: int, j: int|
                #![trigger paths[k].result().path@[i], paths[k].result().path@[j]]
                0 <= k < paths.len() && has_no_repeats(paths[k].result().path@) && 0 <= i <= j < paths[k].result().path@.len() implies !(
            paths[k].result().path@[i] == sid && paths[k].result().path@[j] == gid) by {
                let path = paths[k].result().path@;
                lemma_first_at(path, sid, 0);
                lemma_first_at(path, gid, 0);
                assert(!leads_on(path, sid, gid));
            }
        },
    }
}

/// A path that is kept comes before the others of its profile, and the oldest leave where there are more
/// than may be kept.
pub proof fn law_newest_path_comes_first(paths: Seq<PathRecord>, rec: PathRecord, cap: int)
    requires
        cap > 0,
    ensures
        with_path(paths, rec, cap).len() == (if paths.len() < cap { paths.len() as int + 1 } else { cap }),
        with_path(paths, rec, cap)[0] == rec,
        forall|k: int| #![trigger paths[k]] 0 <= k < with_path(paths, rec, cap).len() - 1 ==> with_path(paths, rec, cap)[k + 1] == paths[k],
{
}

/// Only a path that is proven to be cheapest, with two nodes at least and a cost for each, is kept.
pub proof fn law_only_proven_paths_are_kept(res: SearchResult)
    ensures
        may_keep(res) <==> res.found && res.status == SearchStatus::Found && res.path@.len() > 1 && res.path_g@.len()
            == res.path@.len(),
{
}

}
