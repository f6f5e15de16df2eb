use navpath::cache::lru_index::SlotCache;
use navpath::cache::route_cache::{
    new_route_cache, new_seed_shadow, pack_mask_bits, profile_key, CacheOutcome, RouteCacheKey,
};
use navpath::cache::subpath::{
    new_subpath_cache, subpath_cache_paths, subpath_insert, subpath_lookup, PathRecord, SubpathCache,
};
use navpath::engine::outcome::{SearchResult, SearchStatus};
use navpath::engine::weight::Weight;
use navpath::service::pool::{default_search_permits, prewarm_contexts, ContextPool, PooledContexts, SearchPermits};

fn res(path: Vec<u32>, path_g: Vec<f32>) -> SearchResult {
    let cost = *path_g.last().unwrap();
    SearchResult {
        found: true,
        status: SearchStatus::Found,
        path,
        path_g: path_g.iter().map(|g| Weight { bits: g.to_bits() }).collect(),
        cost: Weight { bits: cost.to_bits() },
        pops: 7,
        pops_f: 7,
        pops_b: 0,
    }
}

fn insert(cache: &mut SubpathCache, key: &Vec<u64>, r: SearchResult) {
    if let Some(rec) = PathRecord::new(r) {
        subpath_insert(cache, key, rec, subpath_cache_paths(None));
    }
}

fn g(w: Weight) -> f32 {
    f32::from_bits(w.bits)
}

/// The nodes of the part that a lookup finds, its costs from its start, and whether the goal is
/// on any path.
fn look(cache: &mut SubpathCache, key: &Vec<u64>, sid: u32, gid: u32) -> (Option<(Vec<u32>, Vec<f32>)>, bool) {
    match cache.get(key) {
        None => (None, false),
        Some(paths) => {
            let (hit, known) = subpath_lookup(paths, sid, gid);
            let part = hit.map(|h| {
                let rec = &paths[h.record];
                let costs: Vec<f32> = rec.path_g(h.ps, h.pg).iter().map(|w| g(*w)).collect();
                assert_eq!(*costs.last().unwrap(), g(rec.cost(h.ps, h.pg)));
                (rec.path(h.ps, h.pg).to_vec(), costs)
            });
            (part, known)
        }
    }
}

#[test]
fn subpath_cache_serves_exact_slices_and_reports_goal_known() {
    let mut cache = new_subpath_cache(None, false, None).expect("enabled by default");
    let key = profile_key(&vec![0b101u64], false);
    insert(&mut cache, &key, res(vec![10, 11, 12, 13], vec![0.0, 300.0, 600.0, 1024.0]));

    let (hit, known) = look(&mut cache, &key, 11, 13);
    let (path, costs) = hit.expect("suffix hit");
    assert!(known);
    assert_eq!(path, &[11, 12, 13]);
    assert_eq!(costs, vec![0.0, 300.0, 724.0]);
    assert_eq!(*look(&mut cache, &key, 10, 12).0.unwrap().1.last().unwrap(), 600.0);
    assert_eq!(look(&mut cache, &key, 11, 12).0.unwrap().0, &[11, 12]);
    let (hit, known) = look(&mut cache, &key, 13, 11);
    assert!(hit.is_none() && known);
    let (hit, known) = look(&mut cache, &key, 99, 12);
    assert!(hit.is_none() && known);
    let (hit, known) = look(&mut cache, &key, 10, 99);
    assert!(hit.is_none() && !known);
    assert!(look(&mut cache, &profile_key(&vec![0b111u64], false), 11, 13).0.is_none());
    assert!(look(&mut cache, &profile_key(&vec![0b101u64], true), 11, 13).0.is_none());
    let mut bad = res(vec![1, 2], vec![0.0, 300.0]);
    bad.status = SearchStatus::BudgetExceeded;
    assert!(PathRecord::new(bad.clone()).is_none());
    insert(&mut cache, &key, bad);
    assert!(look(&mut cache, &key, 1, 2).0.is_none());
}

#[test]
fn paths_that_cannot_be_cut_are_not_kept() {
    assert!(PathRecord::new(res(vec![4], vec![0.0])).is_none());
    let mut short = res(vec![1, 2, 3], vec![0.0, 1.0, 2.0]);
    short.path_g.pop();
    assert!(PathRecord::new(short).is_none());
    let twice = PathRecord::new(res(vec![5, 6, 5], vec![0.0, 1.0, 2.0])).unwrap();
    assert_eq!(twice.position(5), Some(0));
    assert_eq!(twice.position(6), Some(1));
    assert_eq!(twice.position(7), None);
}

#[test]
fn the_newest_paths_of_a_profile_stay() {
    let mut cache = new_subpath_cache(None, false, None).unwrap();
    let key = profile_key(&vec![1], true);
    for i in 0..3u32 {
        let rec = PathRecord::new(res(vec![10 * i, 10 * i + 1], vec![0.0, 1.0])).unwrap();
        subpath_insert(&mut cache, &key, rec, 2);
    }
    assert!(look(&mut cache, &key, 0, 1).0.is_none());
    assert!(look(&mut cache, &key, 10, 11).0.is_some());
    assert!(look(&mut cache, &key, 20, 21).0.is_some());
}

#[test]
fn settings_switch_the_caches_off() {
    assert!(new_subpath_cache(Some(0), true, None).is_none());
    assert!(new_subpath_cache(None, false, Some(0)).is_none());
    assert!(new_subpath_cache(Some(3), true, Some(0)).is_some());
    assert_eq!(subpath_cache_paths(Some(3)), 3);
    assert_eq!(new_route_cache(None).unwrap().cap(), 2048);
    assert_eq!(new_route_cache(Some(5)).unwrap().cap(), 5);
    assert!(new_route_cache(Some(0)).is_none());
    assert!(new_seed_shadow(true, None).is_none());
    assert!(new_seed_shadow(false, Some(0)).is_none());
    assert_eq!(new_seed_shadow(false, None).unwrap().cap(), 2048);
}

#[test]
fn pack_mask_bits_is_lossless_and_word_aligned() {
    let mut bits = vec![false; 130];
    for i in [0usize, 5, 63, 64, 127, 129] {
        bits[i] = true;
    }
    let packed = pack_mask_bits(&bits);
    assert_eq!(packed.len(), 3);
    assert_eq!(packed[0], 1 | (1 << 5) | (1 << 63));
    assert_eq!(packed[1], 1 | (1 << 63));
    assert_eq!(packed[2], 1 << 1);
    assert!(pack_mask_bits(&[]).is_empty());
}

fn route_key(sid: u32, seed: Option<u64>) -> RouteCacheKey {
    RouteCacheKey { virtual_start: false, sid, gid: 9, mask_bits: vec![3], quick_tele: false, seed }
}

#[test]
fn keys_tell_requests_apart() {
    assert_eq!(route_key(1, Some(4)).words(), route_key(1, Some(4)).words());
    assert_ne!(route_key(1, Some(4)).words(), route_key(1, None).words());
    assert_ne!(route_key(1, Some(0)).words(), route_key(1, None).words());
    assert_ne!(route_key(1, None).words(), route_key(2, None).words());
    let mut through = route_key(1, None);
    through.virtual_start = true;
    assert_ne!(through.words(), route_key(1, None).words());
    assert_eq!(route_key(1, Some(4)).seed_blind().words(), route_key(1, None).words());
    assert_eq!(CacheOutcome::Hit.as_str(), "hit");
    assert_eq!(CacheOutcome::MissSeed.as_str(), "miss_seed");
    assert_eq!(CacheOutcome::MissCold.as_str(), "miss_cold");
}

#[test]
fn the_entry_used_longest_ago_leaves_first() {
    let mut c: SlotCache<u32> = SlotCache::new(2);
    c.put(vec![1], 10);
    c.put(vec![2], 20);
    assert_eq!(c.get(&vec![1]), Some(&10));
    c.put(vec![3], 30);
    assert_eq!(c.len(), 2);
    assert_eq!(c.get(&vec![2]), None);
    assert_eq!(c.get(&vec![1]), Some(&10));
    assert_eq!(c.get(&vec![3]), Some(&30));
    c.put(vec![1], 11);
    assert_eq!(c.len(), 2);
    assert_eq!(c.get(&vec![1]), Some(&11));
    assert_eq!(c.exchange(&vec![3], 31), Some(30));
    assert_eq!(c.exchange(&vec![4], 40), None);
    assert_eq!(c.get(&vec![3]), Some(&31));
    assert_eq!(c.cap(), 2);
}

#[test]
fn pooled_lease_takes_contexts_only_on_demand() {
    let mut pool: ContextPool<Vec<u8>> = ContextPool::new();
    let make = || vec![0u8; 16];
    pool.prewarm((0..3).map(|_| make()).collect());
    {
        let mut lease = PooledContexts::checkout();
        assert_eq!(pool.idle(), 3, "a lease takes nothing up front");
        let _ = lease.one(&mut pool, &make);
        assert_eq!(pool.idle(), 2, "unidirectional searches take one context");
        lease.give_back(&mut pool);
    }
    assert_eq!(pool.idle(), 3);
    {
        let mut lease = PooledContexts::checkout();
        let _ = lease.two(&mut pool, &make);
        assert_eq!(pool.idle(), 1, "bidirectional searches take two");
        let mut other = PooledContexts::checkout();
        let _ = other.two(&mut pool, &make);
        assert_eq!(pool.fresh_allocations(), 1, "the fourth context had to be allocated");
        other.give_back(&mut pool);
        lease.give_back(&mut pool);
    }
    assert_eq!(pool.idle(), 4);
}

#[test]
fn hedges_leave_a_quarter_of_the_permits() {
    let mut p = SearchPermits::new(4);
    assert!(p.try_acquire_hedge());
    assert!(p.try_acquire_hedge());
    assert!(!p.try_acquire_hedge());
    assert_eq!(p.available(), 2);
    assert!(p.try_acquire());
    assert!(p.try_acquire());
    assert!(!p.try_acquire());
    assert!(!p.try_acquire_hedge());
    assert_eq!(p.available(), 0);
    p.release();
    assert_eq!(p.available(), 1);
    assert_eq!(p.total(), 4);
    assert_eq!(default_search_permits(Some(7), Some(2)).total(), 7);
    assert_eq!(prewarm_contexts(Some(3), 10, true), 3);
    assert_eq!(prewarm_contexts(None, 2, true), 6);
    assert_eq!(prewarm_contexts(None, 2, false), 4);
    assert_eq!(prewarm_contexts(None, 100, false), 16);
}
