//! Which objects and people can be used from a tile, for the tiles that were asked about last.

use crate::cache::lru_index::SlotCache;
use crate::graph::tables::above_least;
use crate::models::Tile;
use vstd::prelude::*;
#[allow(unused_imports)]
use crate::cache::lru_index::{entry_of, law_put_then_get, lemma_entry, stored, used};
#[allow(unused_imports)]
use crate::graph::tables::from_least;
#[allow(unused_imports)]
use crate::service::pool::more;

verus! {

/// How many tiles are kept.
#[derive(Debug, Clone, Copy, PartialEq, Eq, Structural)]
pub struct TouchCacheConfig {
    pub objects_capacity: usize,
    pub npcs_capacity: usize,
}

impl Default for TouchCacheConfig {
    fn default() -> (r: TouchCacheConfig)
        ensures
            r == (TouchCacheConfig { objects_capacity: 4096, npcs_capacity: 4096 }),
    {
        TouchCacheConfig { objects_capacity: 4096, npcs_capacity: 4096 }
    }
}

/// The key of a tile.
pub open spec fn tile_key(t: Tile) -> Seq<u64> {
    seq![from_least(t.x) as u64, from_least(t.y) as u64, from_least(t.plane) as u64]
}

/// Two tiles with one key are the same tile.
pub proof fn law_tile_keys(a: Tile, b: Tile)
    ensures
        tile_key(a) == tile_key(b) <==> a == b,
{
    if tile_key(a) == tile_key(b) {
        assert(tile_key(a)[0] == tile_key(b)[0] && tile_key(a)[1] == tile_key(b)[1] && tile_key(a)[2] == tile_key(b)[2]);
    }
}

fn key(t: Tile) -> (r: Vec<u64>)
    ensures
        r@ == tile_key(t),
{
    let mut r: Vec<u64> = Vec::new();
    r.push(above_least(t.x) as u64);
    r.push(above_least(t.y) as u64);
    r.push(above_least(t.plane) as u64);
    assert(r@ =~= tile_key(t));
    r
}

fn at_least_one(n: usize) -> (r: usize)
    ensures
        r == (if n == 0 { 1 } else { n }),
{
    if n == 0 {
        1
    } else {
        n
    }
}

/// What is kept of one kind of node, with how often it was there and how often it was not.
pub struct TouchSide<R> {
    cache: SlotCache<Vec<R>>,
    hits: u64,
    misses: u64,
}

/// One more; after the largest number it starts again.
fn count(n: u64) -> (r: u64)
    ensures
        r == more(n),
{
    if n == u64::MAX {
        0
    } else {
        n + 1
    }
}

/// What asking about a tile does: what is kept of it is used again and counted as found; else it
/// is fetched, kept and counted as missed, unless it cannot be fetched.
pub open spec fn touched<R, E, F: Fn(Tile) -> Result<Vec<R>, E>>(
    before: TouchSide<R>,
    after: TouchSide<R>,
    tile: Tile,
    fetch: F,
    r: Result<&Vec<R>, E>,
) -> bool {
    &&& after.limit() == before.limit()
    &&& match entry_of(before.tiles(), tile_key(tile), 0) {
        Some(i) => r is Ok && *r->Ok_0 == before.tiles()[i].1 && after.tiles() == used(before.tiles(), i) && after.found()
            == more(before.found()) && after.missed() == before.missed(),
        None => exists|got: Result<Vec<R>, E>| #[trigger]
            fetch.ensures((tile,), got) && match got {
                Ok(rows) => r is Ok && *r->Ok_0 == rows && after.tiles() == stored(
                    before.tiles(),
                    before.limit(),
                    tile_key(tile),
                    rows,
                ) && after.found() == before.found() && after.missed() == more(before.missed()),
                Err(e) => r is Err && r->Err_0 == e && after.tiles() == before.tiles() && after.found() == before.found()
                    && after.missed() == before.missed(),
            },
    }
}

impl<R> TouchSide<R> {
    /// The tiles, the one that was asked about last first.
    pub closed spec fn tiles(self) -> Seq<(Seq<u64>, Vec<R>)> {
        self.cache.entries()
    }

    pub closed spec fn limit(self) -> nat {
        self.cache.limit()
    }

    pub closed spec fn found(self) -> u64 {
        self.hits
    }

    pub closed spec fn missed(self) -> u64 {
        self.misses
    }

    pub closed spec fn wf(self) -> bool {
        self.cache.wf()
    }

    fn new(capacity: usize) -> (r: TouchSide<R>)
        ensures
            r.wf(),
            r.tiles().len() == 0,
            r.limit() == (if capacity == 0 { 1 } else { capacity as nat }),
            r.found() == 0,
            r.missed() == 0,
    {
        TouchSide { cache: SlotCache::new(at_least_one(capacity)), hits: 0, misses: 0 }
    }

    /// The nodes that can be used from a tile. Where they are not kept they are fetched, and kept
    /// from then on; where they cannot be fetched nothing changes.
    fn touching<E, F: Fn(Tile) -> Result<Vec<R>, E>>(&mut self, tile: Tile, fetch: F) -> (r: Result<&Vec<R>, E>)
        requires
            old(self).wf(),
            fetch.requires((tile,)),
        ensures
            final(self).wf(),
            touched(*old(self), *final(self), tile, fetch, r),
    {
        let ghost before = *self;
        proof {
            lemma_entry(before.tiles(), tile_key(tile), 0);
        }
        let k: Vec<u64> = key(tile);
        if self.cache.get(&k).is_some() {
            self.hits = count(self.hits);
        } else {
            match fetch(tile) {
                Ok(rows) => {
                    proof {
                        law_put_then_get(before.tiles(), before.limit(), tile_key(tile), rows);
                    }
                    let again: Vec<u64> = key(tile);
                    self.cache.put(again, rows);
                    self.misses = count(self.misses);
                },
                Err(e) => {
                    return Err(e);
                },
            }
        }
        let ghost mid = self.cache.entries();
        assert(entry_of(mid, tile_key(tile), 0) == Some(0int));
        assert(used(mid, 0) =~= mid);
        Ok(self.cache.get(&k).unwrap())
    }
}

/// The objects and the people that can be used from the tiles that were asked about last.
pub struct TouchingNodesCache<O, N> {
    cfg: TouchCacheConfig,
    objects: TouchSide<O>,
    npcs: TouchSide<N>,
}

impl<O, N> TouchingNodesCache<O, N> {
    pub closed spec fn config(self) -> TouchCacheConfig {
        self.cfg
    }

    pub closed spec fn of_objects(self) -> TouchSide<O> {
        self.objects
    }

    pub closed spec fn of_npcs(self) -> TouchSide<N> {
        self.npcs
    }

    pub open spec fn wf(self) -> bool {
        self.of_objects().wf() && self.of_npcs().wf()
    }

    pub fn new() -> (r: TouchingNodesCache<O, N>)
        ensures
            r.wf(),
            r.config() == (TouchCacheConfig { objects_capacity: 4096, npcs_capacity: 4096 }),
            r.of_objects().tiles().len() == 0 && r.of_npcs().tiles().len() == 0,
            r.of_objects().limit() == 4096 && r.of_npcs().limit() == 4096,
            r.of_objects().found() == 0 && r.of_objects().missed() == 0,
            r.of_npcs().found() == 0 && r.of_npcs().missed() == 0,
    {
        let cfg: TouchCacheConfig = TouchCacheConfig { objects_capacity: 4096, npcs_capacity: 4096 };
        TouchingNodesCache::with_config(cfg)
    }

    /// A cache for so many tiles, but for one at least on each side.
    pub fn with_config(cfg: TouchCacheConfig) -> (r: TouchingNodesCache<O, N>)
        ensures
            r.wf(),
            r.config() == cfg,
            r.of_objects().tiles().len() == 0 && r.of_npcs().tiles().len() == 0,
            r.of_objects().limit() == (if cfg.objects_capacity == 0 { 1 } else { cfg.objects_capacity as nat }),
            r.of_npcs().limit() == (if cfg.npcs_capacity == 0 { 1 } else { cfg.npcs_capacity as nat }),
            r.of_objects().found() == 0 && r.of_objects().missed() == 0,
            r.of_npcs().found() == 0 && r.of_npcs().missed() == 0,
    {
        TouchingNodesCache { cfg, objects: TouchSide::new(cfg.objects_capacity), npcs: TouchSide::new(cfg.npcs_capacity) }
    }

    /// The objects that can be used from a tile.
    pub fn object_nodes_touching<E, F: Fn(Tile) -> Result<Vec<O>, E>>(&mut self, tile: Tile, fetch: F) -> (r: Result<
        &Vec<O>,
        E,
    >)
        requires
            old(self).wf(),
            fetch.requires((tile,)),
        ensures
            final(self).wf(),
            final(self).config() == old(self).config(),
            final(self).of_npcs() == old(self).of_npcs(),
            touched(old(self).of_objects(), final(self).of_objects(), tile, fetch, r),
    {
        self.objects.touching(tile, fetch)
    }

    /// The people that can be used from a tile.
    pub fn npc_nodes_touching<E, F: Fn(Tile) -> Result<Vec<N>, E>>(&mut self, tile: Tile, fetch: F) -> (r: Result<&Vec<N>, E>)
        requires
            old(self).wf(),
            fetch.requires((tile,)),
        ensures
            final(self).wf(),
            final(self).config() == old(self).config(),
            final(self).of_objects() == old(self).of_objects(),
            touched(old(self).of_npcs(), final(self).of_npcs(), tile, fetch, r),
    {
        self.npcs.touching(tile, fetch)
    }

    pub fn object_hits(&self) -> (r: u64)
        ensures
            r == self.of_objects().found(),
    {
        self.objects.hits
    }

    pub fn object_misses(&self) -> (r: u64)
        ensures
            r == self.of_objects().missed(),
    {
        self.objects.misses
    }

    pub fn npc_hits(&self) -> (r: u64)
        ensures
            r == self.of_npcs().found(),
    {
        self.npcs.hits
    }

    pub fn npc_misses(&self) -> (r: u64)
        ensures
            r == self.of_npcs().missed(),
    {
        self.npcs.misses
    }

    pub fn objects_cached(&self) -> (r: usize)
        ensures
            r == self.of_objects().tiles().len(),
    {
        self.objects.cache.len()
    }

    pub fn npcs_cached(&self) -> (r: usize)
        ensures
            r == self.of_npcs().tiles().len(),
    {
        self.npcs.cache.len()
    }

    pub fn objects_capacity(&self) -> (r: usize)
        ensures
            r == self.config().objects_capacity,
    {
        self.cfg.objects_capacity
    }

    pub fn npcs_capacity(&self) -> (r: usize)
        ensures
            r == self.config().npcs_capacity,
    {
        self.cfg.npcs_capacity
    }
}

}
