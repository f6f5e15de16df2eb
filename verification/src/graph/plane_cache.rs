//! Which tiles there are, plane by plane, for the planes that were asked about last.

use crate::cache::lru_index::SlotCache;
use crate::engine::fx_map::{pair_number, FxIndex};
use crate::graph::tables::above_least;
use vstd::prelude::*;
#[allow(unused_imports)]
use crate::cache::lru_index::{entry_of, lemma_entry, stored, used};
#[allow(unused_imports)]
use crate::engine::fx_map::{entry, law_pair_key, no_entries, pair_key};
#[allow(unused_imports)]
use crate::graph::tables::from_least;

verus! {

/// The number of planes that are kept where nothing else is said.
pub const DEFAULT_PLANES: usize = 8;

/// How a cache is configured.
#[derive(Debug, Clone, Copy, PartialEq, Eq, Structural)]
pub struct PlaneTileCacheConfig {
    /// The number of planes that are kept.
    pub capacity: usize,
}

impl Default for PlaneTileCacheConfig {
    fn default() -> (r: PlaneTileCacheConfig)
        ensures
            r == (PlaneTileCacheConfig { capacity: DEFAULT_PLANES }),
    {
        PlaneTileCacheConfig { capacity: DEFAULT_PLANES }
    }
}

/// The tiles of a plane.
pub struct PlaneTiles {
    index: FxIndex,
}

spec fn spot(t: (i32, i32)) -> u64 {
    pair_key(from_least(t.0), from_least(t.1))
}

impl View for PlaneTiles {
    type V = Set<(i32, i32)>;

    closed spec fn view(&self) -> Set<(i32, i32)> {
        Set::new(|t: (i32, i32)| self.index@.contains_key(spot(t)))
    }
}

impl PlaneTiles {
    pub fn new(rows: &Vec<(i32, i32)>) -> (r: PlaneTiles)
        ensures
            r@ == rows@.to_set(),
    {
        let mut index: FxIndex = FxIndex::new();
        let mut i: usize = 0;
        while i < rows.len()
            invariant
                i <= rows@.len(),
                forall|t: (i32, i32)| #[trigger] index@.contains_key(spot(t)) <==> rows@.take(i as int).contains(t),
            decreases rows@.len() - i,
        {
            let ghost before = index@;
            let ghost here = rows@[i as int];
            index.insert(pair_number(above_least(rows[i].0), above_least(rows[i].1)), i);
            proof {
                let (a, b) = (rows@.take(i as int), rows@.take(i + 1));
                assert forall|t: (i32, i32)| #[trigger] index@.contains_key(spot(t)) <==> b.contains(t) by {
                    assert(before.contains_key(spot(t)) <==> a.contains(t));
                    law_pair_key(from_least(t.0), from_least(t.1), from_least(here.0), from_least(here.1));
                    assert(b[i as int] == here);
                    if a.contains(t) {
                        let j = choose|j: int| 0 <= j < a.len() && a[j] == t;
                        assert(b[j] == t);
                    }
                    if b.contains(t) && t != here {
                        let j = choose|j: int| 0 <= j < b.len() && b[j] == t;
                        assert(a[j] == t);
                    }
                }
            }
            i += 1;
        }
        assert(rows@.take(i as int) =~= rows@);
        let r: PlaneTiles = PlaneTiles { index };
        assert(r@ =~= rows@.to_set());
        r
    }

    pub fn contains(&self, x: i32, y: i32) -> (r: bool)
        ensures
            r == self@.contains((x, y)),
    {
        self.index.get(pair_number(above_least(x), above_least(y))).is_some()
    }
}

/// The tiles of a bounded number of planes. The plane that was asked about least recently leaves
/// first.
pub struct PlaneTileCache {
    capacity: usize,
    inner: SlotCache<PlaneTiles>,
}

/// The key of a plane.
pub open spec fn plane_key(plane: i32) -> Seq<u64> {
    seq![from_least(plane) as u64]
}

impl PlaneTileCache {
    /// The planes, the one that was asked about last first.
    pub closed spec fn planes(self) -> Seq<(Seq<u64>, PlaneTiles)> {
        self.inner.entries()
    }

    /// The number of planes that are kept at most.
    pub closed spec fn limit(self) -> nat {
        self.inner.limit()
    }

    pub closed spec fn configured(self) -> usize {
        self.capacity
    }

    pub closed spec fn wf(self) -> bool {
        self.inner.wf()
    }

    /// A cache for so many planes, but for one at least.
    pub fn with_capacity(capacity: usize) -> (r: PlaneTileCache)
        ensures
            r.wf(),
            r.planes().len() == 0,
            r.limit() == (if capacity == 0 { 1 } else { capacity as nat }),
            r.configured() == capacity,
    {
        let cap: usize = if capacity == 0 {
            1
        } else {
            capacity
        };
        PlaneTileCache { capacity, inner: SlotCache::new(cap) }
    }

    pub fn new() -> (r: PlaneTileCache)
        ensures
            r.wf(),
            r.planes().len() == 0,
            r.limit() == DEFAULT_PLANES,
            r.configured() == DEFAULT_PLANES,
    {
        PlaneTileCache::with_capacity(PlaneTileCacheConfig::default().capacity)
    }

    fn key(plane: i32) -> (r: Vec<u64>)
        ensures
            r@ == plane_key(plane),
    {
        let mut r: Vec<u64> = Vec::new();
        r.push(above_least(plane) as u64);
        assert(r@ =~= plane_key(plane));
        r
    }

    /// Whether there is a tile, where its plane is kept.
    fn lookup_cached(&mut self, x: i32, y: i32, plane: i32) -> (r: Option<bool>)
        requires
            old(self).wf(),
        ensures
            final(self).wf(),
            final(self).limit() == old(self).limit(),
            final(self).configured() == old(self).configured(),
            match entry_of(old(self).planes(), plane_key(plane), 0) {
                Some(i) => r == Some(old(self).planes()[i].1@.contains((x, y))) && final(self).planes() == used(
                    old(self).planes(),
                    i,
                ),
                None => r is None && final(self).planes() == old(self).planes(),
            },
    {
        let key: Vec<u64> = PlaneTileCache::key(plane);
        match self.inner.get(&key) {
            Some(tiles) => Some(tiles.contains(x, y)),
            None => None,
        }
    }

    /// Whether there is a tile. A plane that is not kept is loaded, and kept from then on; where
    /// it cannot be loaded nothing changes.
    pub fn tile_exists<E, F: Fn(i32) -> Result<Vec<(i32, i32)>, E>>(&mut self, load: F, x: i32, y: i32, plane: i32) -> (r: Result<
        bool,
        E,
    >)
        requires
            old(self).wf(),
            load.requires((plane,)),
        ensures
            final(self).wf(),
            final(self).limit() == old(self).limit(),
            final(self).configured() == old(self).configured(),
            match entry_of(old(self).planes(), plane_key(plane), 0) {
                Some(i) => r == Ok::<bool, E>(old(self).planes()[i].1@.contains((x, y))) && final(self).planes() == used(
                    old(self).planes(),
                    i,
                ),
                None => exists|loaded: Result<Vec<(i32, i32)>, E>| #[trigger]
                    load.ensures((plane,), loaded) && match loaded {
                        Ok(rows) => r == Ok::<bool, E>(rows@.contains((x, y))) && exists|tiles: PlaneTiles|
                            tiles@ == rows@.to_set() && final(self).planes() == #[trigger] stored(
                                old(self).planes(),
                                old(self).limit(),
                                plane_key(plane),
                                tiles,
                            ),
                        Err(e) => r == Err::<bool, E>(e) && final(self).planes() == old(self).planes(),
                    },
            },
    {
        if let Some(hit) = self.lookup_cached(x, y, plane) {
            return Ok(hit);
        }
        match load(plane) {
            Ok(rows) => {
                let tiles: PlaneTiles = PlaneTiles::new(&rows);
                let found: bool = tiles.contains(x, y);
                let key: Vec<u64> = PlaneTileCache::key(plane);
                self.inner.put(key, tiles);
                Ok(found)
            },
            Err(e) => Err(e),
        }
    }

    /// The number of planes that are kept.
    pub fn planes_cached(&self) -> (r: usize)
        ensures
            r == self.planes().len(),
    {
        self.inner.len()
    }

    /// The capacity that was asked for.
    pub fn capacity(&self) -> (r: usize)
        ensures
            r == self.configured(),
    {
        self.capacity
    }
}

/// Whether every plane that is kept has the tiles that it has in the world.
pub open spec fn faithful(planes: Seq<(Seq<u64>, PlaneTiles)>, world: spec_fn(i32) -> Set<(i32, i32)>) -> bool {
    forall|i: int, p: i32|
        #![trigger planes[i], plane_key(p)]
        0 <= i < planes.len() && planes[i].0 == plane_key(p) ==> planes[i].1@ == world(p)
}

/// What is kept stays true to the world, whether a plane is used again or another one is put in.
pub proof fn law_kept_planes_stay_faithful(
    planes: Seq<(Seq<u64>, PlaneTiles)>,
    world: spec_fn(i32) -> Set<(i32, i32)>,
    limit: nat,
    plane: i32,
    tiles: PlaneTiles,
)
    requires
        faithful(planes, world),
        tiles@ == world(plane),
        limit > 0,
    ensures
        faithful(stored(planes, limit, plane_key(plane), tiles), world),
        match entry_of(planes, plane_key(plane), 0) {
            Some(i) => planes[i].1@ == world(plane) && faithful(used(planes, i), world),
            None => true,
        },
{
    let key = plane_key(plane);
    lemma_entry(planes, key, 0);
    assert forall|p: i32| #[trigger] plane_key(p) == key implies p == plane by {
        assert(plane_key(p)[0] == key[0]);
    }
    let s = stored(planes, limit, key, tiles);
    assert forall|i: int, p: i32| #![trigger s[i], plane_key(p)] 0 <= i < s.len() && s[i].0 == plane_key(p) implies s[i].1@
        == world(p) by {
        if i > 0 {
            match entry_of(planes, key, 0) {
                Some(k) => {
                    let j = if i - 1 < k { i - 1 } else { i };
                    assert(s[i] == planes[j]);
                },
                None => {
                    assert(s[i] == planes[i - 1]);
                },
            }
        }
    }
    if let Some(k) = entry_of(planes, key, 0) {
        let u = used(planes, k);
        assert forall|i: int, p: i32| #![trigger u[i], plane_key(p)] 0 <= i < u.len() && u[i].0 == plane_key(p) implies u[i].1@
            == world(p) by {
            let j = if i == 0 {
                k
            } else if i - 1 < k {
                i - 1
            } else {
                i
            };
            assert(u[i] == planes[j]);
        }
        assert(planes[k].0 == plane_key(plane));
    }
}

}
