//! Lookup tables from integers to positions.

use rustc_hash::{FxBuildHasher, FxHashMap};
use vstd::prelude::*;

verus! {

/// `FxBuildHasher` of rustc_hash, the hasher of its maps.
#[verifier::external_type_specification]
#[verifier::external_body]
pub struct ExFxBuildHasher(FxBuildHasher);

/// The table without entries.
pub open spec fn no_entries() -> Map<u64, usize> {
    Map::empty()
}

/// `FxHashMap::default` of rustc_hash: a map without entries.
#[verifier::external_body]
fn map_new() -> (r: FxHashMap<u64, usize>)
    ensures
        r@ == no_entries(),
{
    FxHashMap::default()
}

/// `insert` of an `FxHashMap`, a `HashMap` of std with the hasher of rustc_hash: the key now
/// has the value, and no other entry changes.
#[verifier::external_body]
fn map_insert(m: &mut FxHashMap<u64, usize>, k: u64, v: usize)
    ensures
        final(m)@ == old(m)@.insert(k, v),
{
    m.insert(k, v);
}

/// `get` of an `FxHashMap`, a `HashMap` of std with the hasher of rustc_hash: the value of the
/// key, where it has one.
#[verifier::external_body]
fn map_get(m: &FxHashMap<u64, usize>, k: u64) -> (r: Option<usize>)
    ensures
        r == if m@.contains_key(k) { Some(m@[k]) } else { None::<usize> },
{
    m.get(&k).copied()
}

/// A table from integers to positions.
pub struct FxIndex {
    map: FxHashMap<u64, usize>,
}

impl View for FxIndex {
    type V = Map<u64, usize>;

    closed spec fn view(&self) -> Map<u64, usize> {
        self.map@
    }
}

/// What the table holds of a key.
pub open spec fn entry(m: Map<u64, usize>, k: u64) -> Option<usize> {
    if m.contains_key(k) { Some(m[k]) } else { None }
}

impl FxIndex {
    pub fn new() -> (r: FxIndex)
        ensures
            r@ == no_entries(),
    {
        FxIndex { map: map_new() }
    }

    pub fn insert(&mut self, k: u64, v: usize)
        ensures
            final(self)@ == old(self)@.insert(k, v),
    {
        map_insert(&mut self.map, k, v);
    }

    pub fn get(&self, k: u64) -> (r: Option<usize>)
        ensures
            r == entry(self@, k),
    {
        map_get(&self.map, k)
    }
}

/// The number of a pair: the first in the upper half, the second in the lower.
pub open spec fn pair_key(a: u32, b: u32) -> u64 {
    (a * 0x1_0000_0000 + b) as u64
}

pub fn pair_number(a: u32, b: u32) -> (r: u64)
    ensures
        r == pair_key(a, b),
        r == a * 0x1_0000_0000 + b,
{
    a as u64 * 0x1_0000_0000 + b as u64
}

/// Two pairs with one number are the same pair.
pub proof fn law_pair_key(a: u32, b: u32, c: u32, d: u32)
    ensures
        pair_key(a, b) == pair_key(c, d) <==> a == c && b == d,
{
}

}
