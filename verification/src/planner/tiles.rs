//! The tiles of each cluster.

use crate::models::Tile;
use std::collections::{HashMap, HashSet};
use vstd::prelude::*;

verus! {

broadcast use vstd::std_specs::hash::group_hash_axioms;

/// A number for each tile.
pub open spec fn tile_key(t: Tile) -> u128 {
    (((t.x as int + 0x8000_0000) * 0x1_0000_0000 + (t.y as int + 0x8000_0000)) * 0x1_0000_0000 + (t.plane as int
        + 0x8000_0000)) as u128
}

/// The number of a tile.
pub fn key_of_tile(t: Tile) -> (r: u128)
    ensures
        r == tile_key(t),
{
    (((t.x as i64 + 0x8000_0000) as u128 * 0x1_0000_0000 + (t.y as i64 + 0x8000_0000) as u128) * 0x1_0000_0000 + (
    t.plane as i64 + 0x8000_0000) as u128)
}

/// Different tiles have different numbers.
pub proof fn lemma_tile_key(a: Tile, b: Tile)
    ensures
        tile_key(a) == tile_key(b) ==> a == b,
{
}

/// The tiles of each known cluster.
pub struct ClusterTiles {
    ids: Vec<i64>,
    sets: Vec<HashSet<u128>>,
    index: HashMap<i64, usize>,
}

impl ClusterTiles {
    pub closed spec fn wf(&self) -> bool {
        &&& self.ids@.len() == self.sets@.len()
        &&& forall|i: int| 0 <= i < self.ids@.len() ==> self.index@.contains_key(#[trigger] self.ids@[i]) && self.index@[self.ids@[i]] == i
        &&& forall|c: i64| #[trigger] self.index@.contains_key(c) ==> self.index@[c] < self.ids@.len() && self.ids@[self.index@[c] as int] == c
    }

    /// Whether the cluster is known.
    pub closed spec fn knows(&self, cluster: i64) -> bool {
        self.index@.contains_key(cluster)
    }

    /// Whether the tile belongs to the cluster.
    pub closed spec fn has(&self, cluster: i64, t: Tile) -> bool {
        self.index@.contains_key(cluster) && self.sets@[self.index@[cluster] as int]@.contains(tile_key(t))
    }

    pub fn new() -> (r: Self)
        ensures
            r.wf(),
            forall|c: i64| !#[trigger] r.knows(c),
            forall|c: i64, t: Tile| !#[trigger] r.has(c, t),
    {
        ClusterTiles { ids: Vec::new(), sets: Vec::new(), index: HashMap::new() }
    }

    /// Makes a cluster known, with the tiles it has.
    pub fn add_cluster(&mut self, cluster: i64)
        requires
            old(self).wf(),
        ensures
            final(self).wf(),
            forall|c: i64| #[trigger] final(self).knows(c) <==> old(self).knows(c) || c == cluster,
            forall|c: i64, t: Tile| #[trigger] final(self).has(c, t) <==> old(self).has(c, t),
    {
        if !self.index.contains_key(&cluster) {
            let ghost before = *self;
            let i: usize = self.ids.len();
            self.ids.push(cluster);
            self.sets.push(HashSet::new());
            self.index.insert(cluster, i);
            proof {
                assert forall|c: i64, t: Tile| #[trigger] self.has(c, t) <==> before.has(c, t) by {
                    if c != cluster && before.index@.contains_key(c) {
                        assert(self.sets@[self.index@[c] as int] == before.sets@[before.index@[c] as int]);
                    }
                }
                assert forall|k: int| 0 <= k < self.ids@.len() implies self.index@.contains_key(#[trigger] self.ids@[k])
                    && self.index@[self.ids@[k]] == k by {
                    if k < i {
                        assert(before.index@.contains_key(before.ids@[k]));
                    }
                }
            }
        }
    }

    /// Adds a tile to a cluster, which becomes known.
    pub fn add(&mut self, cluster: i64, t: Tile)
        requires
            old(self).wf(),
        ensures
            final(self).wf(),
            forall|c: i64| #[trigger] final(self).knows(c) <==> old(self).knows(c) || c == cluster,
            forall|c: i64, u: Tile| #[trigger] final(self).has(c, u) <==> old(self).has(c, u) || (c == cluster && u == t),
    {
        let ghost start = *self;
        self.add_cluster(cluster);
        let ghost before = *self;
        let i: usize = match self.index.get(&cluster) {
            Some(i) => *i,
            None => {
                assert(self.knows(cluster));
                return;
            },
        };
        let mut set: HashSet<u128> = HashSet::new();
        std::mem::swap(&mut set, &mut self.sets[i]);
        set.insert(key_of_tile(t));
        self.sets.set(i, set);
        proof {
            assert forall|c: i64, u: Tile| #[trigger] self.has(c, u) <==> start.has(c, u) || (c == cluster && u == t) by {
                assert(before.has(c, u) <==> start.has(c, u));
                lemma_tile_key(u, t);
                if c != cluster && before.index@.contains_key(c) {
                    assert(before.ids@[before.index@[c] as int] == c);
                    assert(before.index@[c] != i);
                }
            }
            assert forall|c: i64| #[trigger] self.knows(c) <==> start.knows(c) || c == cluster by {
                assert(before.knows(c) <==> start.knows(c) || c == cluster);
            }
        }
    }

    /// Whether the cluster is known.
    pub fn is_known(&self, cluster: i64) -> (r: bool)
        ensures
            r == self.knows(cluster),
    {
        self.index.contains_key(&cluster)
    }

    /// Whether the tile belongs to the cluster.
    pub fn contains(&self, cluster: i64, t: Tile) -> (r: bool)
        requires
            self.wf(),
        ensures
            r == self.has(cluster, t),
    {
        match self.index.get(&cluster) {
            Some(i) => self.sets[*i].contains(&key_of_tile(t)),
            None => false,
        }
    }

    /// The cluster that a tile counts to: the first known one that has it.
    pub closed spec fn home(&self, t: Tile) -> Option<i64> {
        if exists|i: int| 0 <= i < self.ids@.len() && (#[trigger] self.sets@[i])@.contains(tile_key(t)) {
            Some(
                self.ids@[choose|i: int|
                    0 <= i < self.ids@.len() && (#[trigger] self.sets@[i])@.contains(tile_key(t)) && forall|j: int|
                        0 <= j < i ==> !(#[trigger] self.sets@[j])@.contains(tile_key(t))],
            )
        } else {
            None
        }
    }

    /// The cluster that a tile counts to: one that has it, if any does.
    pub fn cluster_of(&self, t: Tile) -> (r: Option<i64>)
        requires
            self.wf(),
        ensures
            r == self.home(t),
            match r {
                Some(c) => self.has(c, t),
                None => forall|c: i64| !#[trigger] self.has(c, t),
            },
    {
        let k: u128 = key_of_tile(t);
        let mut i: usize = 0;
        while i < self.ids.len()
            invariant
                self.wf(),
                i <= self.ids@.len(),
                k == tile_key(t),
                forall|j: int| 0 <= j < i ==> !(#[trigger] self.sets@[j])@.contains(k),
            decreases self.ids@.len() - i,
        {
            if self.sets[i].contains(&k) {
                assert(self.index@.contains_key(self.ids@[i as int]));
                return Some(self.ids[i]);
            }
            i += 1;
        }
        None
    }
}

impl ClusterTiles {
    proof fn lemma_least(self, t: Tile, i: int) -> (k: int)
        requires
            0 <= i < self.ids@.len(),
            self.sets@[i]@.contains(tile_key(t)),
        ensures
            0 <= k <= i,
            self.sets@[k]@.contains(tile_key(t)),
            forall|j: int| 0 <= j < k ==> !(#[trigger] self.sets@[j])@.contains(tile_key(t)),
        decreases i,
    {
        if exists|j: int| 0 <= j < i && (#[trigger] self.sets@[j])@.contains(tile_key(t)) {
            let j = choose|j: int| 0 <= j < i && (#[trigger] self.sets@[j])@.contains(tile_key(t));
            self.lemma_least(t, j)
        } else {
            i
        }
    }

    /// A tile counts to a cluster that has it, and to none only where none has it.
    pub proof fn law_tiles_count_to_their_clusters(self, t: Tile)
        requires
            self.wf(),
        ensures
            match self.home(t) {
                Some(c) => self.has(c, t),
                None => forall|c: i64| !#[trigger] self.has(c, t),
            },
    {
        if exists|i: int| 0 <= i < self.ids@.len() && (#[trigger] self.sets@[i])@.contains(tile_key(t)) {
            let i = choose|i: int| 0 <= i < self.ids@.len() && (#[trigger] self.sets@[i])@.contains(tile_key(t));
            let k = self.lemma_least(t, i);
            let x = choose|i: int|
                0 <= i < self.ids@.len() && (#[trigger] self.sets@[i])@.contains(tile_key(t)) && forall|j: int|
                    0 <= j < i ==> !(#[trigger] self.sets@[j])@.contains(tile_key(t));
            assert(self.home(t) == Some(self.ids@[x]));
        } else {
            assert forall|c: i64| !#[trigger] self.has(c, t) by {
                if self.has(c, t) {
                    assert(self.sets@[self.index@[c] as int]@.contains(tile_key(t)));
                }
            }
        }
    }
}

}
