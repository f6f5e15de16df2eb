//! Results of route searches, kept by everything that they depend on.

use crate::cache::lru_index::SlotCache;
use crate::engine::outcome::SearchResult;
use vstd::prelude::*;
#[allow(unused_imports)]
use crate::cache::lru_index::{entry_of, stored};

verus! {

/// The entries of the route cache where no other number is set.
pub const DEFAULT_ROUTE_CACHE_ENTRIES: usize = 2048;

/// The profiles that are kept.
pub const PROFILE_CACHE_ENTRIES: usize = 32;

/// Bit `i` of a word.
pub open spec fn bit(word: u64, i: int) -> bool {
    (word >> (i as u64)) & 1 == 1
}

/// Whether the words hold the flags, 64 in a word from the lowest bit up, with nothing beyond
/// the last.
pub open spec fn packs(words: Seq<u64>, flags: Seq<bool>) -> bool {
    &&& words.len() == (flags.len() + 63) / 64
    &&& forall|w: int, i: int|
        0 <= w < words.len() && 0 <= i < 64 ==> #[trigger] bit(words[w], i) == (64 * w + i < flags.len() && flags[64 * w
            + i])
}

/// The flags in words, 64 in a word from the lowest bit up.
pub fn pack_mask_bits(satisfied: &[bool]) -> (r: Vec<u64>)
    ensures
        packs(r@, satisfied@),
{
    let n: usize = satisfied.len();
    let mut words: Vec<u64> = Vec::new();
    let mut at: usize = 0;
    while at < n
        invariant
            n == satisfied@.len(),
            at <= n,
            at < n ==> at == 64 * words@.len(),
            words@.len() == (at + 63) / 64,
            forall|w: int, i: int|
                0 <= w < words@.len() && 0 <= i < 64 ==> #[trigger] bit(words@[w], i) == (64 * w + i < n && satisfied@[64 * w
                    + i]),
        decreases n - at,
    {
        let mut word: u64 = 0;
        let mut i: usize = 0;
        let ghost w = words@.len() as int;
        assert forall|j: int| 0 <= j < 64 implies !#[trigger] bit(0, j) by {
            let k = j as u64;
            assert((0u64 >> k) & 1 == 0) by (bit_vector);
        }
        while i < 64 && i < n - at
            invariant
                n == satisfied@.len(),
                at < n,
                at == 64 * w,
                i <= 64,
                i <= n - at,
                forall|j: int| 0 <= j < 64 ==> #[trigger] bit(word, j) == (j < i && satisfied@[64 * w + j]),
            decreases 64 - i,
        {
            if satisfied[at + i] {
                let ghost before = word;
                let k: u64 = i as u64;
                word = word | (1u64 << k);
                assert forall|j: int| 0 <= j < 64 implies #[trigger] bit(word, j) == (bit(before, j) || j == i) by {
                    let m = j as u64;
                    assert(((before | (1u64 << k)) >> m) & 1 == 1 <==> ((before >> m) & 1 == 1 || m == k)) by (bit_vector)
                        requires
                            m < 64,
                            k < 64,
                    ;
                }
            }
            i += 1;
        }
        let ghost before = words@;
        words.push(word);
        assert forall|x: int, j: int| 0 <= x < words@.len() && 0 <= j < 64 implies #[trigger] bit(words@[x], j) == (64 * x + j
            < n && satisfied@[64 * x + j]) by {
            if x < before.len() {
                assert(bit(before[x], j) == (64 * x + j < n && satisfied@[64 * x + j]));
            } else {
                assert(bit(word, j) == (j < i && satisfied@[64 * w + j]));
            }
        }
        at = at + i;
    }
    words
}

/// Packing loses nothing: two lists of flags of one length that pack into the same words are
/// the same.
pub proof fn law_packing_is_lossless(words: Seq<u64>, a: Seq<bool>, b: Seq<bool>)
    requires
        packs(words, a),
        packs(words, b),
        a.len() == b.len(),
    ensures
        a == b,
{
    assert forall|i: int| 0 <= i < a.len() implies a[i] == b[i] by {
        let (w, j) = (i / 64, i % 64);
        assert(bit(words[w], j) == (64 * w + j < a.len() && a[64 * w + j]));
        assert(bit(words[w], j) == (64 * w + j < b.len() && b[64 * w + j]));
    }
    assert(a =~= b);
}

/// Everything that the result of a route search depends on, within one snapshot.
#[derive(Debug, Clone)]
pub struct RouteCacheKey {
    pub virtual_start: bool,
    pub sid: u32,
    pub gid: u32,
    pub mask_bits: Vec<u64>,
    pub quick_tele: bool,
    pub seed: Option<u64>,
}

/// What a key holds.
pub struct RouteKeyV {
    pub virtual_start: bool,
    pub sid: u32,
    pub gid: u32,
    pub mask_bits: Seq<u64>,
    pub quick_tele: bool,
    pub seed: Option<u64>,
}

impl View for RouteCacheKey {
    type V = RouteKeyV;

    open spec fn view(&self) -> RouteKeyV {
        RouteKeyV {
            virtual_start: self.virtual_start,
            sid: self.sid,
            gid: self.gid,
            mask_bits: self.mask_bits@,
            quick_tele: self.quick_tele,
            seed: self.seed,
        }
    }
}

/// 1 for true, 0 for false.
pub open spec fn flag(b: bool) -> u64 {
    if b { 1 } else { 0 }
}

/// The numbers of a key.
pub open spec fn key_words(k: RouteKeyV) -> Seq<u64> {
    seq![
        flag(k.virtual_start),
        k.sid as u64,
        k.gid as u64,
        flag(k.quick_tele),
        flag(k.seed is Some),
        match k.seed {
            Some(s) => s,
            None => 0,
        },
    ] + k.mask_bits
}

/// Two keys with the same numbers are the same: no two requests that differ share an entry.
pub proof fn law_keys_are_lossless(a: RouteKeyV, b: RouteKeyV)
    requires
        key_words(a) == key_words(b),
    ensures
        a == b,
{
    let (x, y) = (key_words(a), key_words(b));
    assert(x[0] == y[0] && x[1] == y[1] && x[2] == y[2] && x[3] == y[3] && x[4] == y[4] && x[5] == y[5]);
    assert(x.skip(6) =~= a.mask_bits);
    assert(y.skip(6) =~= b.mask_bits);
}

impl RouteCacheKey {
    /// The numbers of the key.
    pub fn words(&self) -> (r: Vec<u64>)
        ensures
            r@ == key_words(self@),
    {
        let mut r: Vec<u64> = Vec::new();
        r.push(if self.virtual_start { 1 } else { 0 });
        r.push(self.sid as u64);
        r.push(self.gid as u64);
        r.push(if self.quick_tele { 1 } else { 0 });
        match self.seed {
            Some(s) => {
                r.push(1);
                r.push(s);
            },
            None => {
                r.push(0);
                r.push(0);
            },
        }
        let ghost head = r@;
        let mut i: usize = 0;
        while i < self.mask_bits.len()
            invariant
                i <= self.mask_bits@.len(),
                r@ == head + self.mask_bits@.take(i as int),
            decreases self.mask_bits@.len() - i,
        {
            r.push(self.mask_bits[i]);
            assert(r@ =~= head + self.mask_bits@.take(i + 1));
            i += 1;
        }
        assert(self.mask_bits@.take(i as int) =~= self.mask_bits@);
        assert(r@ =~= key_words(self@));
        r
    }

    /// The key without its seed.
    pub fn seed_blind(&self) -> (r: RouteCacheKey)
        ensures
            r@ == (RouteKeyV { seed: None, ..self@ }),
    {
        RouteCacheKey {
            virtual_start: self.virtual_start,
            sid: self.sid,
            gid: self.gid,
            mask_bits: copy_words(&self.mask_bits),
            quick_tele: self.quick_tele,
            seed: None,
        }
    }
}

/// A copy of the words.
pub fn copy_words(v: &Vec<u64>) -> (r: Vec<u64>)
    ensures
        r@ == v@,
{
    let mut r: Vec<u64> = Vec::new();
    let mut i: usize = 0;
    while i < v.len()
        invariant
            i <= v@.len(),
            r@ == v@.take(i as int),
        decreases v@.len() - i,
    {
        r.push(v[i]);
        assert(r@ =~= v@.take(i + 1));
        i += 1;
    }
    assert(v@.take(i as int) =~= v@);
    r
}

/// The numbers of a profile: the words of its mask, and whether it has the quick teleport.
pub open spec fn profile_words(mask_bits: Seq<u64>, quick_tele: bool) -> Seq<u64> {
    seq![flag(quick_tele)] + mask_bits
}

pub fn profile_key(mask_bits: &Vec<u64>, quick_tele: bool) -> (r: Vec<u64>)
    ensures
        r@ == profile_words(mask_bits@, quick_tele),
{
    let mut r: Vec<u64> = copy_words(mask_bits);
    r.insert(0, if quick_tele { 1 } else { 0 });
    assert(r@ =~= profile_words(mask_bits@, quick_tele));
    r
}

/// A result that is kept.
#[derive(Debug)]
pub struct RouteCacheEntry {
    pub res: SearchResult,
    pub virtual_entry: Option<u32>,
    pub seed_dropped: bool,
}

/// The results of one snapshot.
pub type RouteCache = SlotCache<RouteCacheEntry>;

/// Which requests were seen, whatever their seed.
pub type SeedShadow = SlotCache<bool>;

/// A cache of the size that the setting says, 2048 entries where it says nothing and none at
/// all where it says 0.
pub fn new_route_cache(setting: Option<usize>) -> (r: Option<RouteCache>)
    ensures
        match r {
            Some(c) => setting != Some(0usize) && c.wf() && c.entries().len() == 0 && c.limit() == (match setting {
                Some(n) => n,
                None => DEFAULT_ROUTE_CACHE_ENTRIES,
            }),
            None => setting == Some(0usize),
        },
{
    let n: usize = match setting {
        Some(n) => n,
        None => DEFAULT_ROUTE_CACHE_ENTRIES,
    };
    if n == 0 {
        None
    } else {
        Some(SlotCache::new(n))
    }
}

/// An index of requests without their seeds, as large as the route cache. There is none where
/// keys carry no seed anyway.
pub fn new_seed_shadow(ignore_seed: bool, setting: Option<usize>) -> (r: Option<SeedShadow>)
    ensures
        match r {
            Some(c) => !ignore_seed && setting != Some(0usize) && c.wf() && c.entries().len() == 0 && c.limit() == (match setting {
                Some(n) => n,
                None => DEFAULT_ROUTE_CACHE_ENTRIES,
            }),
            None => ignore_seed || setting == Some(0usize),
        },
{
    let n: usize = match setting {
        Some(n) => n,
        None => DEFAULT_ROUTE_CACHE_ENTRIES,
    };
    if ignore_seed || n == 0 {
        None
    } else {
        Some(SlotCache::new(n))
    }
}

/// How a request fared with the caches.
#[derive(Debug, Clone, Copy, PartialEq, Eq, Structural)]
pub enum CacheOutcome {
    /// Served from the route cache.
    Hit,
    /// Not served, but it would have been with another seed.
    MissSeed,
    /// Not seen before.
    MissCold,
    /// There is no cache.
    Disabled,
    /// Served as a part of a path that is kept.
    Subpath,
}

impl CacheOutcome {
    pub open spec fn label(self) -> Seq<char> {
        match self {
            CacheOutcome::Hit => "hit"@,
            CacheOutcome::MissSeed => "miss_seed"@,
            CacheOutcome::MissCold => "miss_cold"@,
            CacheOutcome::Disabled => "off"@,
            CacheOutcome::Subpath => "subpath"@,
        }
    }

    pub fn as_str(self) -> (r: &'static str)
        ensures
            r@ == self.label(),
    {
        match self {
            CacheOutcome::Hit => "hit",
            CacheOutcome::MissSeed => "miss_seed",
            CacheOutcome::MissCold => "miss_cold",
            CacheOutcome::Disabled => "off",
            CacheOutcome::Subpath => "subpath",
        }
    }
}

}
