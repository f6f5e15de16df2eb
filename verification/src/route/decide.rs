//! How a request is answered: refused, from what is kept, as impossible, or by a search.

use crate::cache::lru_index::SlotCache;
use crate::cache::route_cache::{
    copy_words, pack_mask_bits, profile_key, CacheOutcome, RouteCache, RouteCacheEntry, RouteCacheKey, SeedShadow,
};
use crate::cache::subpath::{subpath_insert, subpath_lookup, PathRecord, SubpathCache, SubpathHit};
use crate::engine::eligibility::EligibilityMask;
use crate::engine::macros::{FairyRing, GlobalTeleport};
use crate::engine::outcome::{SearchResult, SearchStatus};
use crate::engine::profile::{build_profile_artifacts, ProfileArtifacts};
use crate::engine::reach::ComponentGraph;
use crate::engine::weight::Weight;
use crate::models::Tile;
use crate::route::abilities::{DiveConfig, SurgeConfig};
use crate::route::request::{
    effective_seed, profile_mask, req_has_quick_tele, resolve_endpoints, Endpoints, RouteError, RouteOptions, RouteRequest,
};
use crate::route::respond::Hit;
use crate::service::metrics::{Counter, Metrics};
use crate::snapshot::reader::Snapshot;
use vstd::prelude::*;
#[allow(unused_imports)]
use crate::cache::lru_index::{entry_of, lemma_entry, stored, used};
#[allow(unused_imports)]
use crate::cache::route_cache::{
    flag, key_words, law_packing_is_lossless, packs, profile_words, RouteKeyV,
};
#[allow(unused_imports)]
use crate::cache::subpath::{all_wf, lookup_result, may_keep, paths_of, with_path};
#[allow(unused_imports)]
use crate::engine::outcome::is_stable;
#[allow(unused_imports)]
use crate::engine::profile::{ascends, names_ends, sorted_edges, usable_globals, usable_rings};
#[allow(unused_imports)]
use crate::engine::reach::{can_reach, hop, law_profile_decides, origin};
#[allow(unused_imports)]
use crate::route::request::{is_quick_tele, mask_of, resolves};
#[allow(unused_imports)]
use crate::route::respond::counted;
#[allow(unused_imports)]
use crate::service::metrics::MetricsV;

verus! {

/// Whether two results are the same.
pub open spec fn same_result(a: SearchResult, b: SearchResult) -> bool {
    &&& a.found == b.found
    &&& a.status == b.status
    &&& a.path@ == b.path@
    &&& a.path_g@ == b.path_g@
    &&& a.cost == b.cost
    &&& a.pops == b.pops
    &&& a.pops_f == b.pops_f
    &&& a.pops_b == b.pops_b
}

fn copy_ids(v: &[u32]) -> (r: Vec<u32>)
    ensures
        r@ == v@,
{
    let len: usize = v.len();
    let mut r: Vec<u32> = Vec::new();
    let mut i: usize = 0;
    while i < len
        invariant
            i <= len,
            len == v@.len(),
            r@ == v@.take(i as int),
        decreases len - i,
    {
        r.push(v[i]);
        assert(r@ =~= v@.take(i + 1));
        i += 1;
    }
    assert(v@.take(i as int) =~= v@);
    r
}

fn copy_weights(v: &Vec<Weight>) -> (r: Vec<Weight>)
    ensures
        r@ == v@,
{
    let mut r: Vec<Weight> = Vec::new();
    let mut i: usize = 0;
    while i < v.len()
        invariant
            i <= v@.len(),
            r@ == v@.take(i as int),
        decreases v@.len() - i,
    {
        r.push(v[i]);
        assert(r@ =~= v@.take(i + 1));
        i += 1;
    }
    assert(v@.take(i as int) =~= v@);
    r
}

/// A copy of a result.
pub fn copy_result(res: &SearchResult) -> (r: SearchResult)
    ensures
        same_result(r, *res),
{
    SearchResult {
        found: res.found,
        status: res.status,
        path: copy_ids(res.path.as_slice()),
        path_g: copy_weights(&res.path_g),
        cost: res.cost,
        pops: res.pops,
        pops_f: res.pops_f,
        pops_b: res.pops_b,
    }
}

/// What is kept for one snapshot.
pub struct Caches {
    pub route: Option<RouteCache>,
    pub shadow: Option<SeedShadow>,
    pub subpath: Option<SubpathCache>,
    pub profiles: SlotCache<ProfileArtifacts>,
    /// How many paths are kept of one profile.
    pub paths: usize,
}

/// Whether what is kept of a profile is what its mask may use.
pub open spec fn built_for(
    a: ProfileArtifacts,
    cg: ComponentGraph,
    globals: Seq<GlobalTeleport>,
    rings: Seq<FairyRing>,
    mask: Seq<bool>,
    quick_tele: bool,
) -> bool {
    &&& a.eligible_globals@ == sorted_edges(usable_globals(globals, mask, quick_tele, globals.len() as int))
    &&& a.fairy_dests@ == sorted_edges(usable_rings(rings, mask, rings.len() as int))
    &&& ascends(a.fairy_sources@)
    &&& names_ends(a.fairy_sources@, a.fairy_dests@)
    &&& a.reach.wf()
    &&& a.reach.describes(cg, mask)
}

/// Whether every profile that is kept is right for each mask of `tags` flags that it stands for.
pub open spec fn profiles_right(
    e: Seq<(Seq<u64>, ProfileArtifacts)>,
    cg: ComponentGraph,
    globals: Seq<GlobalTeleport>,
    rings: Seq<FairyRing>,
    tags: nat,
) -> bool {
    forall|i: int, bits: Seq<u64>, mask: Seq<bool>, quick: bool|
        #![trigger e[i], packs(bits, mask), profile_words(bits, quick)]
        0 <= i < e.len() && e[i].0 == profile_words(bits, quick) && packs(bits, mask) && mask.len() == tags ==> built_for(
            e[i].1,
            cg,
            globals,
            rings,
            mask,
            quick,
        )
}

/// Whether every path that is kept is in order.
pub open spec fn paths_right(e: Seq<(Seq<u64>, Vec<PathRecord>)>) -> bool {
    forall|i: int| 0 <= i < e.len() ==> all_wf((#[trigger] e[i]).1@)
}

impl Caches {
    pub open spec fn wf(self) -> bool {
        &&& self.route is Some ==> self.route->0.wf()
        &&& self.shadow is Some ==> self.shadow->0.wf()
        &&& self.subpath is Some ==> self.subpath->0.wf() && paths_right(self.subpath->0.entries())
        &&& self.profiles.wf()
    }
}

/// The entries after a key was asked for.
pub open spec fn asked<V>(e: Seq<(Seq<u64>, V)>, key: Seq<u64>) -> Seq<(Seq<u64>, V)> {
    match entry_of(e, key, 0) {
        Some(i) => used(e, i),
        None => e,
    }
}

/// Whether the hit is the entry that was kept.
pub open spec fn is_entry(hit: RouteCacheEntry, kept: RouteCacheEntry) -> bool {
    same_result(hit.res, kept.res) && hit.virtual_entry == kept.virtual_entry && hit.seed_dropped == kept.seed_dropped
}

/// The result kept under a key.
fn lookup_route(cache: &mut RouteCache, key: &Vec<u64>) -> (r: Option<RouteCacheEntry>)
    requires
        old(cache).wf(),
    ensures
        final(cache).wf(),
        final(cache).limit() == old(cache).limit(),
        final(cache).entries() == asked(old(cache).entries(), key@),
        match entry_of(old(cache).entries(), key@, 0) {
            Some(i) => r is Some && is_entry(r->0, old(cache).entries()[i].1),
            None => r is None,
        },
{
    match cache.get(key) {
        Some(e) => Some(
            RouteCacheEntry { res: copy_result(&e.res), virtual_entry: e.virtual_entry, seed_dropped: e.seed_dropped },
        ),
        None => None,
    }
}

/// Whether `r` is the part of a path from `sid` to `gid`, and whether the goal is known.
pub open spec fn part_of(paths: Seq<PathRecord>, sid: u32, gid: u32, hit: Option<Hit>, goal_known: bool) -> bool {
    exists|l: (Option<SubpathHit>, bool)| #[trigger]
        lookup_result(paths, sid, gid, l) && goal_known == l.1 && match l.0 {
            Some(h) => {
                let res = paths[h.record as int].result();
                &&& hit is Some
                &&& hit->0 is Subpath
                &&& hit->0->path@ == res.path@.subrange(h.ps as int, h.pg + 1)
                &&& hit->0->cost == res.path_g@[h.pg as int].minus(res.path_g@[h.ps as int])
            },
            None => hit is None,
        }
}

/// The part of a path from `sid` to `gid` that is kept of a profile, and whether the goal lies on
/// any of its paths.
fn lookup_part(cache: &mut SubpathCache, profile: &Vec<u64>, sid: u32, gid: u32) -> (r: (Option<Hit>, bool))
    requires
        old(cache).wf(),
        paths_right(old(cache).entries()),
    ensures
        final(cache).wf(),
        final(cache).limit() == old(cache).limit(),
        final(cache).entries() == asked(old(cache).entries(), profile@),
        part_of(paths_of(old(cache).entries(), profile@), sid, gid, r.0, r.1),
{
    let ghost e0 = cache.entries();
    proof {
        lemma_entry(e0, profile@, 0);
    }
    match cache.get(profile) {
        Some(paths) => {
            let l: (Option<SubpathHit>, bool) = subpath_lookup(paths, sid, gid);
            assert(lookup_result(paths@, sid, gid, l));
            match l.0 {
                Some(h) => {
                    let rec: &PathRecord = &paths[h.record];
                    let nodes: Vec<u32> = copy_ids(rec.path(h.ps, h.pg));
                    let cost: Weight = rec.cost(h.ps, h.pg);
                    (Some(Hit::Subpath { path: nodes, cost }), true)
                },
                None => (None, l.1),
            }
        },
        None => {
            let ghost none: (Option<SubpathHit>, bool) = (None, false);
            assert(lookup_result(paths_of(e0, profile@), sid, gid, none));
            (None, false)
        },
    }
}

/// What the caches say of a request.
#[derive(Debug)]
pub struct Consulted {
    pub hit: Option<Hit>,
    pub outcome: CacheOutcome,
    pub goal_known: bool,
}

/// A request as the caches see it.
#[derive(Debug)]
pub struct Query {
    pub key: RouteCacheKey,
    pub profile: Vec<u64>,
    /// Whether a part of a path may be served.
    pub parts: bool,
}

/// Whether `c` is what the caches say of a request: the result under its key; else a part of a
/// path, where one may be served; else why there is none.
pub open spec fn says(caches: Caches, q: Query, c: Consulted) -> bool {
    let key = key_words(q.key@);
    let cached = caches.route is Some && entry_of(caches.route->0.entries(), key, 0) is Some;
    let blind = key_words(RouteKeyV { seed: None, ..q.key@ });
    if cached {
        &&& c.hit is Some
        &&& c.hit->0 is Cached
        &&& is_entry(
            c.hit->0->Cached_0,
            caches.route->0.entries()[entry_of(caches.route->0.entries(), key, 0)->0].1,
        )
        &&& c.outcome == CacheOutcome::Hit
        &&& !c.goal_known
    } else {
        &&& if q.parts && caches.subpath is Some {
            part_of(paths_of(caches.subpath->0.entries(), q.profile@), q.key.sid, q.key.gid, c.hit, c.goal_known)
        } else {
            c.hit is None && !c.goal_known
        }
        &&& c.outcome == if c.hit is Some {
            CacheOutcome::Subpath
        } else if caches.route is None {
            CacheOutcome::Disabled
        } else if q.key.seed is Some && caches.shadow is Some && entry_of(caches.shadow->0.entries(), blind, 0) is Some {
            CacheOutcome::MissSeed
        } else {
            CacheOutcome::MissCold
        }
    }
}

/// Whether a cache is what another one is after a key was asked for, or was not.
pub open spec fn slot_after<V>(later: Option<SlotCache<V>>, before: Option<SlotCache<V>>, touched: bool, key: Seq<u64>) -> bool {
    match before {
        Some(o) => {
            &&& later is Some
            &&& later->0.limit() == o.limit()
            &&& later->0.entries() == if touched { asked(o.entries(), key) } else { o.entries() }
        },
        None => later is None,
    }
}

/// Whether `later` are the caches after they said `c` of a request: what was looked up counts as used
/// last, and nothing else changes.
pub open spec fn caches_asked(before: Caches, q: Query, c: Consulted, later: Caches) -> bool {
    let key = key_words(q.key@);
    let cached = before.route is Some && entry_of(before.route->0.entries(), key, 0) is Some;
    let blamed = before.route is Some && c.hit is None && q.key.seed is Some;
    &&& slot_after(later.route, before.route, true, key)
    &&& slot_after(later.subpath, before.subpath, !cached && q.parts, q.profile@)
    &&& slot_after(later.shadow, before.shadow, blamed, key_words(RouteKeyV { seed: None, ..q.key@ }))
    &&& later.profiles == before.profiles
    &&& later.paths == before.paths
}

/// Whether `later` are the kept profiles after one was asked for: it is the one used last, and was
/// added where it was not kept.
pub open spec fn profiles_asked(before: SlotCache<ProfileArtifacts>, key: Seq<u64>, later: SlotCache<ProfileArtifacts>) -> bool {
    &&& later.limit() == before.limit()
    &&& match entry_of(before.entries(), key, 0) {
        Some(i) => later.entries() == used(before.entries(), i),
        None => later.entries() == stored(before.entries(), before.limit(), key, later.entries()[0].1),
    }
}

impl Caches {
    /// What the caches say of a request.
    pub fn consult(&mut self, q: &Query) -> (c: Consulted)
        requires
            old(self).wf(),
        ensures
            final(self).wf(),
            says(*old(self), *q, c),
            caches_asked(*old(self), *q, c, *final(self)),
    {
        let key: Vec<u64> = q.key.words();
        let mut outcome: CacheOutcome = CacheOutcome::Disabled;
        if let Some(cache) = &mut self.route {
            if let Some(e) = lookup_route(cache, &key) {
                return Consulted { hit: Some(Hit::Cached(e)), outcome: CacheOutcome::Hit, goal_known: false };
            }
            outcome = CacheOutcome::MissCold;
        }
        let mut hit: Option<Hit> = None;
        let mut goal_known: bool = false;
        if q.parts {
            if let Some(cache) = &mut self.subpath {
                let ghost e0 = cache.entries();
                let r: (Option<Hit>, bool) = lookup_part(cache, &q.profile, q.key.sid, q.key.gid);
                proof {
                    lemma_asked_paths(e0, q.profile@);
                }
                hit = r.0;
                goal_known = r.1;
            }
        }
        if hit.is_some() {
            return Consulted { hit, outcome: CacheOutcome::Subpath, goal_known };
        }
        if self.route.is_some() && q.key.seed.is_some() {
            if let Some(cache) = &mut self.shadow {
                let blind: Vec<u64> = q.key.seed_blind().words();
                if cache.get(&blind).is_some() {
                    outcome = CacheOutcome::MissSeed;
                }
            }
        }
        Consulted { hit: None, outcome, goal_known }
    }

}

proof fn lemma_asked_paths(e: Seq<(Seq<u64>, Vec<PathRecord>)>, key: Seq<u64>)
    requires
        paths_right(e),
    ensures
        paths_right(asked(e, key)),
{
    lemma_entry(e, key, 0);
    match entry_of(e, key, 0) {
        Some(i) => {
            let f = used(e, i);
            assert forall|k: int| 0 <= k < f.len() implies all_wf((#[trigger] f[k]).1@) by {
                if k == 0 {
                    assert(f[k] == e[i]);
                } else if k <= i {
                    assert(f[k] == e[k - 1]);
                } else {
                    assert(f[k] == e[k]);
                }
            }
        },
        None => {},
    }
}

/// The entry of the route cache that keeps a result.
pub open spec fn keeps(e: RouteCacheEntry, res: SearchResult, virtual_entry: Option<u32>, seed_dropped: bool) -> bool {
    same_result(e.res, res) && e.virtual_entry == virtual_entry && e.seed_dropped == seed_dropped
}

/// Whether the route cache, with the entries `before`, kept the result under the key.
pub open spec fn kept_under(
    before: Seq<(Seq<u64>, RouteCacheEntry)>,
    limit: nat,
    key: Seq<u64>,
    res: SearchResult,
    virtual_entry: Option<u32>,
    seed_dropped: bool,
    after: Seq<(Seq<u64>, RouteCacheEntry)>,
) -> bool {
    exists|e: RouteCacheEntry| #[trigger]
        keeps(e, res, virtual_entry, seed_dropped) && after == stored(before, limit, key, e)
}

/// Whether the paths of the profile, with the entries `before`, now begin with the result.
pub open spec fn path_kept(
    before: Seq<(Seq<u64>, Vec<PathRecord>)>,
    limit: nat,
    profile: Seq<u64>,
    res: SearchResult,
    cap: int,
    after: Seq<(Seq<u64>, Vec<PathRecord>)>,
) -> bool {
    exists|rec: PathRecord, paths: Vec<PathRecord>|
        #![trigger rec.wf(), stored(before, limit, profile, paths)]
        rec.wf() && same_result(rec.result(), res) && paths@ == with_path(paths_of(before, profile), rec, cap) && after
            == stored(before, limit, profile, paths)
}

proof fn lemma_paths_stored(before: Seq<(Seq<u64>, Vec<PathRecord>)>, limit: nat, key: Seq<u64>, paths: Vec<PathRecord>)
    requires
        paths_right(before),
        all_wf(paths@),
        limit > 0,
    ensures
        paths_right(stored(before, limit, key, paths)),
{
    lemma_entry(before, key, 0);
    let f = stored(before, limit, key, paths);
    assert forall|k: int| 0 <= k < f.len() implies all_wf((#[trigger] f[k]).1@) by {
        if k > 0 {
            match entry_of(before, key, 0) {
                Some(i) => {
                    if k <= i {
                        assert(f[k] == before[k - 1]);
                    } else {
                        assert(f[k] == before[k]);
                    }
                },
                None => {
                    assert(f[k] == before[k - 1]);
                },
            }
        }
    }
}

proof fn lemma_with_path(paths: Seq<PathRecord>, rec: PathRecord, cap: int)
    requires
        all_wf(paths),
        rec.wf(),
        cap >= 0,
    ensures
        all_wf(with_path(paths, rec, cap)),
{
    let f = with_path(paths, rec, cap);
    assert forall|k: int| 0 <= k < f.len() implies (#[trigger] f[k]).wf() by {
        if k > 0 {
            assert(f[k] == paths[k - 1]);
        }
    }
}

fn keep_path(cache: &mut SubpathCache, profile: &Vec<u64>, res: &SearchResult, cap: usize)
    requires
        old(cache).wf(),
        paths_right(old(cache).entries()),
    ensures
        final(cache).wf(),
        final(cache).limit() == old(cache).limit(),
        paths_right(final(cache).entries()),
        if may_keep(*res) {
            path_kept(old(cache).entries(), old(cache).limit(), profile@, *res, cap as int, final(cache).entries())
        } else {
            final(cache).entries() == old(cache).entries()
        },
{
    let copy: SearchResult = copy_result(res);
    let ghost whole = copy;
    match PathRecord::new(copy) {
        Some(rec) => {
            let ghost kept = rec;
            let ghost e0 = cache.entries();
            subpath_insert(cache, profile, rec, cap);
            proof {
                let paths = choose|paths: Vec<PathRecord>|
                    paths@ == with_path(paths_of(e0, profile@), kept, cap as int) && #[trigger] stored(
                        e0,
                        cache.limit(),
                        profile@,
                        paths,
                    ) == cache.entries();
                lemma_entry(e0, profile@, 0);
                assert(all_wf(paths_of(e0, profile@)));
                lemma_with_path(paths_of(e0, profile@), kept, cap as int);
                cache.lemma_wf();
                lemma_paths_stored(e0, cache.limit(), profile@, paths);
                assert(kept.wf() && stored(e0, cache.limit(), profile@, paths) == cache.entries());
            }
        },
        None => {},
    }
}

impl Caches {
    /// Keeps the result of a search: its path, where that may serve other requests, and the
    /// result itself where it holds of the route. Gives whether the route cache took it.
    pub fn record(
        &mut self,
        q: &Query,
        index_subpath: bool,
        res: &SearchResult,
        virtual_entry: Option<u32>,
        seed_dropped: bool,
    ) -> (r: bool)
        requires
            old(self).wf(),
        ensures
            final(self).wf(),
            final(self).profiles == old(self).profiles,
            final(self).paths == old(self).paths,
            r == (old(self).route is Some && is_stable(res.status)),
            final(self).route is Some <==> old(self).route is Some,
            final(self).shadow is Some <==> old(self).shadow is Some,
            final(self).subpath is Some <==> old(self).subpath is Some,
            old(self).route is Some ==> final(self).route->0.limit() == old(self).route->0.limit(),
            old(self).shadow is Some ==> final(self).shadow->0.limit() == old(self).shadow->0.limit(),
            old(self).subpath is Some ==> final(self).subpath->0.limit() == old(self).subpath->0.limit(),
            old(self).route is Some ==> if is_stable(res.status) {
                kept_under(
                    old(self).route->0.entries(),
                    old(self).route->0.limit(),
                    key_words(q.key@),
                    *res,
                    virtual_entry,
                    seed_dropped,
                    final(self).route->0.entries(),
                )
            } else {
                final(self).route->0.entries() == old(self).route->0.entries()
            },
            old(self).shadow is Some ==> if r {
                final(self).shadow->0.entries() == stored(
                    old(self).shadow->0.entries(),
                    old(self).shadow->0.limit(),
                    key_words(RouteKeyV { seed: None, ..q.key@ }),
                    true,
                )
            } else {
                final(self).shadow->0.entries() == old(self).shadow->0.entries()
            },
            old(self).subpath is Some ==> if index_subpath && may_keep(*res) {
                path_kept(
                    old(self).subpath->0.entries(),
                    old(self).subpath->0.limit(),
                    q.profile@,
                    *res,
                    old(self).paths as int,
                    final(self).subpath->0.entries(),
                )
            } else {
                final(self).subpath->0.entries() == old(self).subpath->0.entries()
            },
    {
        if index_subpath {
            let cap: usize = self.paths;
            if let Some(cache) = &mut self.subpath {
                keep_path(cache, &q.profile, res, cap);
            }
        }
        let stable: bool = match res.status {
            SearchStatus::Found => true,
            SearchStatus::NotFound => true,
            _ => false,
        };
        if !stable {
            return false;
        }
        let mut taken: bool = false;
        if let Some(cache) = &mut self.route {
            let e: RouteCacheEntry = RouteCacheEntry { res: copy_result(res), virtual_entry, seed_dropped };
            assert(keeps(e, *res, virtual_entry, seed_dropped));
            cache.put(q.key.words(), e);
            taken = true;
        }
        if taken {
            if let Some(cache) = &mut self.shadow {
                cache.put(q.key.seed_blind().words(), true);
            }
        }
        taken
    }

    /// What a caller with the mask may use, kept or built anew.
    pub fn artifacts(
        &mut self,
        profile: &Vec<u64>,
        cg: &ComponentGraph,
        globals: &Vec<GlobalTeleport>,
        rings: &Vec<FairyRing>,
        mask: &EligibilityMask,
        quick_tele: bool,
        mask_bits: &Vec<u64>,
    ) -> (r: &ProfileArtifacts)
        requires
            old(self).wf(),
            profiles_right(old(self).profiles.entries(), *cg, globals@, rings@, mask.satisfied@.len()),
            packs(mask_bits@, mask.satisfied@),
            profile@ == profile_words(mask_bits@, quick_tele),
        ensures
            final(self).wf(),
            final(self).route == old(self).route,
            final(self).shadow == old(self).shadow,
            final(self).subpath == old(self).subpath,
            final(self).paths == old(self).paths,
            profiles_asked(old(self).profiles, profile@, final(self).profiles),
            profiles_right(final(self).profiles.entries(), *cg, globals@, rings@, mask.satisfied@.len()),
            built_for(*r, *cg, globals@, rings@, mask.satisfied@, quick_tele),
    {
        let ghost tags = mask.satisfied@.len();
        let ghost e0 = self.profiles.entries();
        let mut known: bool = false;
        if self.profiles.get(profile).is_some() {
            known = true;
        }
        proof {
            lemma_asked_profiles(e0, profile@, *cg, globals@, rings@, tags);
            lemma_entry(e0, profile@, 0);
        }
        let ghost e1 = self.profiles.entries();
        if !known {
            let built: ProfileArtifacts = build_profile_artifacts(cg, globals, rings, mask, quick_tele);
            proof {
                self.profiles.lemma_wf();
                lemma_profile_stored(
                    e1,
                    self.profiles.limit(),
                    profile@,
                    built,
                    *cg,
                    globals@,
                    rings@,
                    mask_bits@,
                    mask.satisfied@,
                    quick_tele,
                );
            }
            self.profiles.put(copy_words(profile), built);
        }
        let ghost e2 = self.profiles.entries();
        assert(e2.len() > 0 && e2[0].0 == profile@);
        proof {
            assert(entry_of(e2, profile@, 0) == Some(0int));
            assert(used(e2, 0) =~= e2);
            assert(built_for(e2[0].1, *cg, globals@, rings@, mask.satisfied@, quick_tele)) by {
                assert(packs(mask_bits@, mask.satisfied@));
                assert(e2[0].0 == profile_words(mask_bits@, quick_tele));
            }
        }
        self.profiles.get(profile).unwrap()
    }
}

proof fn lemma_asked_profiles(
    e: Seq<(Seq<u64>, ProfileArtifacts)>,
    key: Seq<u64>,
    cg: ComponentGraph,
    globals: Seq<GlobalTeleport>,
    rings: Seq<FairyRing>,
    tags: nat,
)
    requires
        profiles_right(e, cg, globals, rings, tags),
    ensures
        profiles_right(asked(e, key), cg, globals, rings, tags),
{
    lemma_entry(e, key, 0);
    match entry_of(e, key, 0) {
        Some(i) => {
            let f = used(e, i);
            assert forall|k: int, bits: Seq<u64>, mask: Seq<bool>, quick: bool|
                #![trigger f[k], packs(bits, mask), profile_words(bits, quick)]
                0 <= k < f.len() && f[k].0 == profile_words(bits, quick) && packs(bits, mask) && mask.len() == tags implies built_for(
                f[k].1,
                cg,
                globals,
                rings,
                mask,
                quick,
            ) by {
                let x = if k == 0 {
                    i
                } else if k <= i {
                    k - 1
                } else {
                    k
                };
                assert(f[k] == e[x]);
            }
        },
        None => {},
    }
}

proof fn lemma_profile_stored(
    e: Seq<(Seq<u64>, ProfileArtifacts)>,
    limit: nat,
    key: Seq<u64>,
    built: ProfileArtifacts,
    cg: ComponentGraph,
    globals: Seq<GlobalTeleport>,
    rings: Seq<FairyRing>,
    bits0: Seq<u64>,
    mask0: Seq<bool>,
    quick0: bool,
)
    requires
        profiles_right(e, cg, globals, rings, mask0.len()),
        built_for(built, cg, globals, rings, mask0, quick0),
        packs(bits0, mask0),
        key == profile_words(bits0, quick0),
        limit > 0,
    ensures
        profiles_right(stored(e, limit, key, built), cg, globals, rings, mask0.len()),
{
    lemma_entry(e, key, 0);
    let f = stored(e, limit, key, built);
    assert forall|k: int, bits: Seq<u64>, mask: Seq<bool>, quick: bool|
        #![trigger f[k], packs(bits, mask), profile_words(bits, quick)]
        0 <= k < f.len() && f[k].0 == profile_words(bits, quick) && packs(bits, mask) && mask.len() == mask0.len() implies built_for(
        f[k].1,
        cg,
        globals,
        rings,
        mask,
        quick,
    ) by {
        if k == 0 {
            assert(profile_words(bits, quick).skip(1) =~= bits);
            assert(profile_words(bits0, quick0).skip(1) =~= bits0);
            assert(profile_words(bits, quick)[0] == profile_words(bits0, quick0)[0]);
            law_packing_is_lossless(bits, mask, mask0);
        } else {
            let x = match entry_of(e, key, 0) {
                Some(i) => if k <= i { k - 1 } else { k },
                None => k - 1,
            };
            assert(f[k] == e[x]);
        }
    }
}

/// A result that was kept is what is found next under the same request.
pub proof fn law_kept_results_are_found(
    before: Seq<(Seq<u64>, RouteCacheEntry)>,
    limit: nat,
    key: Seq<u64>,
    res: SearchResult,
    virtual_entry: Option<u32>,
    seed_dropped: bool,
    after: Seq<(Seq<u64>, RouteCacheEntry)>,
)
    requires
        kept_under(before, limit, key, res, virtual_entry, seed_dropped, after),
    ensures
        entry_of(after, key, 0) == Some(0int),
        keeps(after[0].1, res, virtual_entry, seed_dropped),
{
    let e = choose|e: RouteCacheEntry| #[trigger]
        keeps(e, res, virtual_entry, seed_dropped) && after == stored(before, limit, key, e);
    crate::cache::lru_index::law_put_then_get(before, limit, key, e);
}

/// What was kept of a request is what the caches say when it comes again.
pub proof fn law_asked_again_is_served(
    before: Seq<(Seq<u64>, RouteCacheEntry)>,
    limit: nat,
    caches: Caches,
    q: Query,
    res: SearchResult,
    virtual_entry: Option<u32>,
    seed_dropped: bool,
    c: Consulted,
)
    requires
        caches.route is Some,
        kept_under(before, limit, key_words(q.key@), res, virtual_entry, seed_dropped, caches.route->0.entries()),
        says(caches, q, c),
    ensures
        c.outcome == CacheOutcome::Hit,
        c.hit is Some,
        c.hit->0 is Cached,
        same_result(c.hit->0->Cached_0.res, res),
        c.hit->0->Cached_0.virtual_entry == virtual_entry,
        c.hit->0->Cached_0.seed_dropped == seed_dropped,
{
    law_kept_results_are_found(
        before,
        limit,
        key_words(q.key@),
        res,
        virtual_entry,
        seed_dropped,
        caches.route->0.entries(),
    );
}

/// A request whose result was kept is not new when it comes again under another seed: where it is
/// not served, its seed is what is named as the cause.
pub proof fn law_seeds_are_blamed(before: Seq<(Seq<u64>, bool)>, limit: nat, caches: Caches, kept: Query, q: Query, c: Consulted)
    requires
        caches.route is Some,
        caches.shadow is Some,
        caches.shadow->0.entries() == stored(before, limit, key_words(RouteKeyV { seed: None, ..kept.key@ }), true),
        q.key.seed is Some,
        q.key@ == (RouteKeyV { seed: q.key.seed, ..kept.key@ }),
        says(caches, q, c),
    ensures
        c.hit is None ==> c.outcome == CacheOutcome::MissSeed,
{
    let blind = key_words(RouteKeyV { seed: None, ..kept.key@ });
    assert(RouteKeyV { seed: None, ..q.key@ } == RouteKeyV { seed: None, ..kept.key@ });
    crate::cache::lru_index::law_put_then_get(before, limit, blind, true);
}

/// What a request is answered from.
pub struct World<'a> {
    pub snapshot: &'a Snapshot,
    pub globals: &'a Vec<GlobalTeleport>,
    pub fairy_rings: &'a Vec<FairyRing>,
    pub comp_graph: &'a ComponentGraph,
}

/// The settings that requests are answered under.
#[derive(Debug, Clone, Copy, PartialEq, Eq, Structural)]
pub struct RouteSettings {
    /// Whether seeds are passed over altogether.
    pub seeding_disabled: bool,
    /// Whether what is kept serves every seed.
    pub cache_ignore_seed: bool,
}

/// A request, read and resolved.
#[derive(Debug)]
pub struct RouteJob {
    pub ends: Endpoints,
    pub mask: EligibilityMask,
    pub mask_bits: Vec<u64>,
    pub quick_tele: bool,
    pub seed: Option<u64>,
    pub seed_ignored: bool,
    pub options: RouteOptions,
    pub surge: SurgeConfig,
    pub dive: DiveConfig,
    /// Where the route was asked to start, where that is not on the map.
    pub virtual_start_from: Option<Tile>,
    /// Whether a path that is found may serve other requests.
    pub index_subpath: bool,
}

/// How the answering of a request begins.
#[derive(Debug)]
pub enum Begin {
    Refuse(RouteError),
    /// It is answered from what is kept.
    Served { job: RouteJob, query: Query, hit: Hit, outcome: CacheOutcome },
    /// There is no route at all.
    NoRoute { job: RouteJob, query: Query, outcome: CacheOutcome },
    /// A search has to run.
    Search { job: RouteJob, query: Query, outcome: CacheOutcome },
}

/// Whether `job` is the request, read and resolved.
pub open spec fn is_job(s: Snapshot, req: RouteRequest, settings: RouteSettings, subpaths: bool, job: RouteJob) -> bool {
    &&& resolves(s, req, Ok(job.ends))
    &&& mask_of(s, req.requirements@, job.mask.satisfied@)
    &&& packs(job.mask_bits@, job.mask.satisfied@)
    &&& job.quick_tele == exists|i: int|
        0 <= i < req.requirements@.len() && is_quick_tele(#[trigger] req.requirements@[i])
    &&& (job.seed, job.seed_ignored) == (if settings.seeding_disabled {
        (None::<u64>, req.seed is Some)
    } else {
        (req.seed, false)
    })
    &&& job.options == req.options
    &&& job.surge == req.surge
    &&& job.dive == req.dive
    &&& job.virtual_start_from == (if job.ends.virtual_start { req.start } else { None })
    &&& job.index_subpath == (subpaths && !job.ends.virtual_start && job.seed is None)
}

/// Whether `q` is the request as the caches see it.
pub open spec fn is_query(job: RouteJob, settings: RouteSettings, q: Query) -> bool {
    &&& q.key@ == (RouteKeyV {
        virtual_start: job.ends.virtual_start,
        sid: if job.ends.virtual_start { 0 } else { job.ends.sid },
        gid: job.ends.gid,
        mask_bits: job.mask_bits@,
        quick_tele: job.quick_tele,
        seed: if settings.cache_ignore_seed { None } else { job.seed },
    })
    &&& q.profile@ == profile_words(job.mask_bits@, job.quick_tele)
    &&& q.parts == (!job.ends.virtual_start && (job.seed is None || settings.cache_ignore_seed))
}

/// The counts after the caches were asked.
pub open spec fn consult_counted(m: MetricsV, c: Consulted) -> MetricsV {
    let m1 = match c.outcome {
        CacheOutcome::MissSeed => counted(m, Counter::CacheMissSeed),
        CacheOutcome::MissCold => counted(m, Counter::CacheMissCold),
        _ => m,
    };
    if c.hit is None && c.goal_known { counted(m1, Counter::CacheMissGoalKnown) } else { m1 }
}

/// Whether the goal of a request can be reached with what the caller may use.
pub open spec fn goal_in_reach(w: World, job: RouteJob) -> bool {
    let comps = w.snapshot.components();
    let mask = job.mask.satisfied@;
    let start = if job.ends.virtual_start { None } else { Some(comps[job.ends.sid as int]) };
    can_reach(hop(*w.comp_graph, mask), origin(*w.comp_graph, mask, start), comps[job.ends.gid as int])
}

/// Whether the request, read and resolved, was put to the caches, which said `c`.
pub open spec fn was_asked(
    w: World,
    req: RouteRequest,
    settings: RouteSettings,
    caches: Caches,
    job: RouteJob,
    q: Query,
    c: Consulted,
) -> bool {
    is_job(*w.snapshot, req, settings, caches.subpath is Some, job) && is_query(job, settings, q) && says(caches, q, c)
}

/// Whether `later` are the caches after they said `c` of a request whose profile was then asked for.
pub open spec fn caches_profiled(before: Caches, q: Query, c: Consulted, later: Caches) -> bool {
    &&& caches_asked(before, q, c, Caches { profiles: before.profiles, ..later })
    &&& profiles_asked(before.profiles, q.profile@, later.profiles)
}

/// Whether the answering of a request begins with `r`: refused while the service is not ready,
/// without a snapshot and where its ends cannot be resolved; served where the caches have it;
/// without a route where its goal cannot be reached; else with a search. `later` are the caches and
/// `after` the counts later.
pub open spec fn begins(
    ready: bool,
    world: Option<World>,
    req: RouteRequest,
    settings: RouteSettings,
    caches: Caches,
    later: Caches,
    m: MetricsV,
    after: MetricsV,
    r: Begin,
) -> bool {
    let m1 = counted(m, Counter::Requests);
    if !ready {
        r == Begin::Refuse(RouteError::WarmingUp) && after == m1 && later == caches
    } else if world is None {
        r == Begin::Refuse(RouteError::SnapshotNotLoaded) && after == m1 && later == caches
    } else {
        let w = world->0;
        match r {
            Begin::Refuse(e) => resolves(*w.snapshot, req, Err(e)) && after == m1 && later == caches,
            Begin::Served { job, query, hit, outcome } => exists|c: Consulted| #[trigger]
                was_asked(w, req, settings, caches, job, query, c) && c.hit == Some(hit) && c.outcome == outcome && after
                    == consult_counted(m1, c) && caches_asked(caches, query, c, later),
            Begin::NoRoute { job, query, outcome } => !goal_in_reach(w, job) && exists|c: Consulted| #[trigger]
                was_asked(w, req, settings, caches, job, query, c) && c.hit is None && c.outcome == outcome && after
                    == counted(counted(consult_counted(m1, c), Counter::PrecheckRejects), Counter::NotFound)
                    && caches_profiled(caches, query, c, later),
            Begin::Search { job, query, outcome } => goal_in_reach(w, job) && exists|c: Consulted| #[trigger]
                was_asked(w, req, settings, caches, job, query, c) && c.hit is None && c.outcome == outcome && after
                    == consult_counted(m1, c) && caches_profiled(caches, query, c, later),
        }
    }
}

fn read_job(snap: &Snapshot, req: &RouteRequest, ends: Endpoints, settings: &RouteSettings, subpaths: bool) -> (r: RouteJob)
    requires
        snap.wf(),
        resolves(*snap, *req, Ok(ends)),
    ensures
        is_job(*snap, *req, *settings, subpaths, r),
        r.ends == ends,
{
    let mask: EligibilityMask = profile_mask(snap, &req.requirements);
    let mask_bits: Vec<u64> = pack_mask_bits(mask.satisfied.as_slice());
    let (seed, seed_ignored): (Option<u64>, bool) = effective_seed(req.seed, settings.seeding_disabled);
    RouteJob {
        ends,
        mask,
        mask_bits,
        quick_tele: req_has_quick_tele(&req.requirements),
        seed,
        seed_ignored,
        options: req.options,
        surge: req.surge,
        dive: req.dive,
        virtual_start_from: if ends.virtual_start {
            req.start
        } else {
            None
        },
        index_subpath: subpaths && !ends.virtual_start && seed.is_none(),
    }
}

fn make_query(job: &RouteJob, settings: &RouteSettings) -> (r: Query)
    ensures
        is_query(*job, *settings, r),
{
    let key: RouteCacheKey = RouteCacheKey {
        virtual_start: job.ends.virtual_start,
        sid: if job.ends.virtual_start {
            0
        } else {
            job.ends.sid
        },
        gid: job.ends.gid,
        mask_bits: copy_words(&job.mask_bits),
        quick_tele: job.quick_tele,
        seed: if settings.cache_ignore_seed {
            None
        } else {
            job.seed
        },
    };
    Query {
        key,
        profile: profile_key(&job.mask_bits, job.quick_tele),
        parts: !job.ends.virtual_start && (job.seed.is_none() || settings.cache_ignore_seed),
    }
}

fn count_consulted(metrics: &mut Metrics, c: &Consulted)
    requires
        old(metrics).wf(),
    ensures
        final(metrics).wf(),
        final(metrics)@ == consult_counted(old(metrics)@, *c),
{
    match c.outcome {
        CacheOutcome::MissSeed => metrics.count(Counter::CacheMissSeed),
        CacheOutcome::MissCold => metrics.count(Counter::CacheMissCold),
        _ => {},
    }
    if c.hit.is_none() && c.goal_known {
        metrics.count(Counter::CacheMissGoalKnown);
    }
}

/// Begins to answer a request.
pub fn begin_route(
    ready: bool,
    world: Option<World>,
    req: &RouteRequest,
    settings: &RouteSettings,
    caches: &mut Caches,
    metrics: &mut Metrics,
) -> (r: Begin)
    requires
        old(caches).wf(),
        old(metrics).wf(),
        world is Some ==> world->0.snapshot.wf() && profiles_right(
            old(caches).profiles.entries(),
            *world->0.comp_graph,
            world->0.globals@,
            world->0.fairy_rings@,
            (world->0.snapshot.man().counts.req_tags / 4) as nat,
        ),
    ensures
        final(caches).wf(),
        final(metrics).wf(),
        begins(ready, world, *req, *settings, *old(caches), *final(caches), old(metrics)@, final(metrics)@, r),
        world is Some ==> profiles_right(
            final(caches).profiles.entries(),
            *world->0.comp_graph,
            world->0.globals@,
            world->0.fairy_rings@,
            (world->0.snapshot.man().counts.req_tags / 4) as nat,
        ),
{
    metrics.count(Counter::Requests);
    if !ready {
        return Begin::Refuse(RouteError::WarmingUp);
    }
    let w: World = match world {
        Some(w) => w,
        None => {
            return Begin::Refuse(RouteError::SnapshotNotLoaded);
        },
    };
    let ends: Endpoints = match resolve_endpoints(w.snapshot, req) {
        Ok(e) => e,
        Err(e) => {
            return Begin::Refuse(e);
        },
    };
    let job: RouteJob = read_job(w.snapshot, req, ends, settings, caches.subpath.is_some());
    let query: Query = make_query(&job, settings);
    let ghost asked_of = *caches;
    let c: Consulted = caches.consult(&query);
    let ghost said = c;
    assert(was_asked(w, *req, *settings, asked_of, job, query, said));
    count_consulted(metrics, &c);
    let outcome: CacheOutcome = c.outcome;
    if let Some(hit) = c.hit {
        return Begin::Served { job, query, hit, outcome };
    }
    let comps: &[u16] = w.snapshot.comp_ids();
    let start_comp: Option<u16> = if ends.virtual_start { None } else { Some(comps[ends.sid as usize]) };
    let goal_comp: u16 = comps[ends.gid as usize];
    assert(job.mask.satisfied@.len() == w.snapshot.man().counts.req_tags / 4);
    let in_reach: bool = {
        let arts: &ProfileArtifacts = caches.artifacts(
            &query.profile,
            w.comp_graph,
            w.globals,
            w.fairy_rings,
            &job.mask,
            job.quick_tele,
            &job.mask_bits,
        );
        proof {
            law_profile_decides(arts.reach, *w.comp_graph, job.mask.satisfied@, start_comp, goal_comp);
        }
        arts.reach.reachable(start_comp, goal_comp)
    };
    if !in_reach {
        metrics.count(Counter::PrecheckRejects);
        metrics.count(Counter::NotFound);
        return Begin::NoRoute { job, query, outcome };
    }
    Begin::Search { job, query, outcome }
}

/// Whether one of the entries has the key.
pub open spec fn has_key<V>(e: Seq<(Seq<u64>, V)>, key: Seq<u64>) -> bool {
    exists|i: int| 0 <= i < e.len() && (#[trigger] e[i]).0 == key
}

proof fn lemma_has_key<V>(e: Seq<(Seq<u64>, V)>, key: Seq<u64>)
    ensures
        has_key(e, key) <==> entry_of(e, key, 0) is Some,
{
    lemma_entry(e, key, 0);
    if entry_of(e, key, 0) is Some {
        assert(e[entry_of(e, key, 0)->0].0 == key);
    }
}

/// What the caches come to: a hit where the route cache has the request's key; a part where it has not
/// and a part of a kept path serves; and else a miss, for its seed alone where the same request is known
/// under another.
pub proof fn law_outcomes(caches: Caches, q: Query, c: Consulted)
    requires
        says(caches, q, c),
    ensures
        c.outcome == CacheOutcome::Hit <==> caches.route is Some && has_key(caches.route->0.entries(), key_words(q.key@)),
        c.outcome == CacheOutcome::Hit <==> c.hit is Some && c.hit->0 is Cached,
        c.outcome == CacheOutcome::Subpath <==> c.hit is Some && c.hit->0 is Subpath,
        c.outcome == CacheOutcome::Subpath ==> q.parts && caches.subpath is Some,
        c.outcome == CacheOutcome::Disabled <==> c.hit is None && caches.route is None,
        c.outcome == CacheOutcome::MissSeed <==> c.hit is None && caches.route is Some && q.key.seed is Some && caches.shadow is Some
            && has_key(caches.shadow->0.entries(), key_words(RouteKeyV { seed: None, ..q.key@ })),
        c.hit is None ==> (c.outcome == CacheOutcome::MissCold || c.outcome == CacheOutcome::MissSeed || c.outcome
            == CacheOutcome::Disabled),
{
    if caches.route is Some {
        lemma_has_key(caches.route->0.entries(), key_words(q.key@));
    }
    if caches.shadow is Some {
        lemma_has_key(caches.shadow->0.entries(), key_words(RouteKeyV { seed: None, ..q.key@ }));
    }
}

/// A part of a kept path that serves a request leads from its start to its goal, is a part of one of the
/// paths of its profile, and costs what that path costs between the two.
pub proof fn law_parts_lead_to_the_goal(paths: Seq<PathRecord>, sid: u32, gid: u32, hit: Option<Hit>, goal_known: bool)
    requires
        part_of(paths, sid, gid, hit, goal_known),
        hit is Some,
    ensures
        hit->0 is Subpath,
        hit->0->path@.len() > 0,
        hit->0->path@[0] == sid,
        hit->0->path@.last() == gid,
        exists|k: int, a: int, b: int|
            #![trigger paths[k].result().path@.subrange(a, b + 1)]
            0 <= k < paths.len() && 0 <= a <= b < paths[k].result().path@.len() && hit->0->path@
                == paths[k].result().path@.subrange(a, b + 1) && hit->0->cost == paths[k].result().path_g@[b].minus(
                paths[k].result().path_g@[a],
            ),
{
    let l = choose|l: (Option<SubpathHit>, bool)| #[trigger]
        lookup_result(paths, sid, gid, l) && goal_known == l.1 && match l.0 {
            Some(h) => {
                let res = paths[h.record as int].result();
                &&& hit is Some
                &&& hit->0 is Subpath
                &&& hit->0->path@ == res.path@.subrange(h.ps as int, h.pg + 1)
                &&& hit->0->cost == res.path_g@[h.pg as int].minus(res.path_g@[h.ps as int])
            },
            None => hit is None,
        };
    let h = l.0->0;
    crate::cache::subpath::law_kept_parts_are_found(paths, sid, gid, l);
    let k = h.record as int;
    assert(paths[k].result().path@.subrange(h.ps as int, h.pg as int + 1) == hit->0->path@);
}

/// A request is refused while the service is not ready, then while there is no snapshot, and then where
/// its ends cannot be resolved, and only for these. One that is refused leaves the caches as they are,
/// and every request is counted.
pub proof fn law_refusals(
    ready: bool,
    world: Option<World>,
    req: RouteRequest,
    settings: RouteSettings,
    caches: Caches,
    later: Caches,
    m: MetricsV,
    after: MetricsV,
    r: Begin,
)
    requires
        begins(ready, world, req, settings, caches, later, m, after, r),
        m.counts.len() == crate::service::metrics::COUNTERS,
    ensures
        !ready <==> r == Begin::Refuse(RouteError::WarmingUp),
        ready && world is None <==> r == Begin::Refuse(RouteError::SnapshotNotLoaded),
        r is Refuse && ready && world is Some ==> resolves(*world->0.snapshot, req, Err(r->Refuse_0)),
        r is Refuse ==> later == caches,
        m.counts[Counter::Requests.place()] < u64::MAX ==> after.counts[Counter::Requests.place()]
            == m.counts[Counter::Requests.place()] + 1,
{
}

/// A request goes to a search or without a route only where its key is not in the route cache; without a
/// route where what its caller may use leads to the goal's component neither from the start's nor from
/// one in which a global teleport ends, and to a search where it does.
pub proof fn law_searches_are_for_goals_in_reach(
    w: World,
    req: RouteRequest,
    settings: RouteSettings,
    caches: Caches,
    later: Caches,
    m: MetricsV,
    after: MetricsV,
    r: Begin,
)
    requires
        begins(true, Some(w), req, settings, caches, later, m, after, r),
    ensures
        r matches Begin::Search { job, query, .. } ==> {
            &&& caches.route is Some ==> !has_key(caches.route->0.entries(), key_words(query.key@))
            &&& can_reach(
                hop(*w.comp_graph, job.mask.satisfied@),
                origin(
                    *w.comp_graph,
                    job.mask.satisfied@,
                    if job.ends.virtual_start { None } else { Some(w.snapshot.components()[job.ends.sid as int]) },
                ),
                w.snapshot.components()[job.ends.gid as int],
            )
        },
        r matches Begin::NoRoute { job, query, .. } ==> {
            &&& caches.route is Some ==> !has_key(caches.route->0.entries(), key_words(query.key@))
            &&& !can_reach(
                hop(*w.comp_graph, job.mask.satisfied@),
                origin(
                    *w.comp_graph,
                    job.mask.satisfied@,
                    if job.ends.virtual_start { None } else { Some(w.snapshot.components()[job.ends.sid as int]) },
                ),
                w.snapshot.components()[job.ends.gid as int],
            )
        },
        r matches Begin::Served { query, hit, .. } ==> (hit is Cached <==> caches.route is Some && has_key(
            caches.route->0.entries(),
            key_words(query.key@),
        )),
{
    match r {
        Begin::Search { job, query, outcome } => {
            let c = choose|c: Consulted| #[trigger]
                was_asked(w, req, settings, caches, job, query, c) && c.hit is None && c.outcome == outcome;
            law_outcomes(caches, query, c);
        },
        Begin::NoRoute { job, query, outcome } => {
            let c = choose|c: Consulted| #[trigger]
                was_asked(w, req, settings, caches, job, query, c) && c.hit is None && c.outcome == outcome;
            law_outcomes(caches, query, c);
        },
        Begin::Served { job, query, hit, outcome } => {
            let c = choose|c: Consulted| #[trigger]
                was_asked(w, req, settings, caches, job, query, c) && c.hit == Some(hit) && c.outcome == outcome;
            law_outcomes(caches, query, c);
        },
        _ => {},
    }
}

/// Two requests share an entry of the route cache only where they ask for the same: for the same goal,
/// from the same start or both from off the map, with the same tags and the same seed, unless seeds do
/// not count.
pub proof fn law_entries_are_shared_by_equals(
    settings: RouteSettings,
    a: RouteJob,
    qa: Query,
    b: RouteJob,
    qb: Query,
)
    requires
        is_query(a, settings, qa),
        is_query(b, settings, qb),
        packs(a.mask_bits@, a.mask.satisfied@),
        packs(b.mask_bits@, b.mask.satisfied@),
        a.mask.satisfied@.len() == b.mask.satisfied@.len(),
    ensures
        key_words(qa.key@) == key_words(qb.key@) ==> {
            &&& a.ends.gid == b.ends.gid
            &&& a.ends.virtual_start == b.ends.virtual_start
            &&& !a.ends.virtual_start ==> a.ends.sid == b.ends.sid
            &&& a.quick_tele == b.quick_tele
            &&& a.mask.satisfied@ == b.mask.satisfied@
            &&& settings.cache_ignore_seed || a.seed == b.seed
        },
        qa.profile@ == qb.profile@ ==> a.quick_tele == b.quick_tele && a.mask.satisfied@ == b.mask.satisfied@,
        a.ends == b.ends && a.quick_tele == b.quick_tele && a.mask_bits@ == b.mask_bits@ && (settings.cache_ignore_seed
            || a.seed == b.seed) ==> key_words(qa.key@) == key_words(qb.key@),
{
    if key_words(qa.key@) == key_words(qb.key@) {
        crate::cache::route_cache::law_keys_are_lossless(qa.key@, qb.key@);
        law_packing_is_lossless(a.mask_bits@, a.mask.satisfied@, b.mask.satisfied@);
    }
    if qa.profile@ == qb.profile@ {
        let (x, y) = (profile_words(a.mask_bits@, a.quick_tele), profile_words(b.mask_bits@, b.quick_tele));
        assert(x.skip(1) =~= a.mask_bits@);
        assert(y.skip(1) =~= b.mask_bits@);
        assert(x[0] == y[0]);
        law_packing_is_lossless(a.mask_bits@, a.mask.satisfied@, b.mask.satisfied@);
    }
}

/// A seed is passed over exactly where seeding is disabled, and a request that had one is told so. A path
/// may serve other requests where paths are kept, the route starts on the map and has no seed.
pub proof fn law_seeds_and_parts(s: Snapshot, req: RouteRequest, settings: RouteSettings, subpaths: bool, job: RouteJob, q: Query)
    requires
        is_job(s, req, settings, subpaths, job),
        is_query(job, settings, q),
    ensures
        settings.seeding_disabled ==> job.seed is None && (job.seed_ignored <==> req.seed is Some),
        !settings.seeding_disabled ==> job.seed == req.seed && !job.seed_ignored,
        job.index_subpath <==> subpaths && !job.ends.virtual_start && (settings.seeding_disabled || req.seed is None),
        q.parts <==> !job.ends.virtual_start && (settings.seeding_disabled || settings.cache_ignore_seed || req.seed is None),
        q.key.seed == (if settings.seeding_disabled || settings.cache_ignore_seed { None } else { req.seed }),
        job.virtual_start_from is Some ==> job.ends.virtual_start,
{
}

/// A request that is not served is counted as a miss for its seed or as a cold one, as the caches say,
/// and also where its goal lies on a path that is kept; one that is served is not.
pub proof fn law_misses_are_counted(m: MetricsV, c: Consulted)
    requires
        m.counts.len() == crate::service::metrics::COUNTERS,
        m.counts[Counter::CacheMissSeed.place()] < u64::MAX,
        m.counts[Counter::CacheMissCold.place()] < u64::MAX,
        m.counts[Counter::CacheMissGoalKnown.place()] < u64::MAX,
    ensures
        consult_counted(m, c).counts[Counter::CacheMissSeed.place()] == m.counts[Counter::CacheMissSeed.place()] + (
        if c.outcome == CacheOutcome::MissSeed { 1int } else { 0int }),
        consult_counted(m, c).counts[Counter::CacheMissCold.place()] == m.counts[Counter::CacheMissCold.place()] + (
        if c.outcome == CacheOutcome::MissCold { 1int } else { 0int }),
        consult_counted(m, c).counts[Counter::CacheMissGoalKnown.place()] == m.counts[Counter::CacheMissGoalKnown.place()] + (
        if c.hit is None && c.goal_known { 1int } else { 0int }),
{
}

}
