//! Counters of a running service.

use crate::json::Json;
use vstd::prelude::*;
#[allow(unused_imports)]
use crate::json::{array_view, JsonV};

verus! {

/// What is counted.
#[derive(Debug, Clone, Copy, PartialEq, Eq, Structural)]
pub enum Counter {
    /// Requests that came in.
    Requests,
    /// Requests served from the route cache.
    CacheHits,
    /// Results that the route cache took.
    CachePuts,
    /// Requests that missed the cache for their seed alone.
    CacheMissSeed,
    /// Requests that were not seen before.
    CacheMissCold,
    /// Requests served as a part of a path.
    CacheSubpathHits,
    /// Requests not served whose goal lies on a path that is kept.
    CacheMissGoalKnown,
    /// Searches that ran.
    Searches,
    /// Searches that were tried again.
    Retries,
    /// Searches that were tried again and found a path.
    RetryFound,
    /// Requests with a proven path.
    Found,
    /// Requests without a path.
    NotFound,
    /// Requests whose search gave up.
    BudgetExceeded,
    /// Requests whose search was called off.
    Cancelled,
    /// Requests refused for want of capacity.
    SemaphoreRejects,
    /// Requests that took too long.
    DeadlineTimeouts,
    /// Requests whose goal cannot be reached at all.
    PrecheckRejects,
    /// Races in which both engines searched.
    RaceRuns,
    /// Races that the one-sided engine won.
    RaceWinsUni,
    /// Races that the two-sided engine won.
    RaceWinsBidir,
    /// Requests not worth a second engine.
    RaceGated,
    /// Requests done before the second engine was due.
    RaceHedgeSkipped,
    /// Requests for whose second engine there was no permit.
    RaceHedgeDenied,
}

/// The number of counters.
pub const COUNTERS: usize = 23;

impl Counter {
    /// The place of the counter.
    pub open spec fn place(self) -> int {
        match self {
            Counter::Requests => 0,
            Counter::CacheHits => 1,
            Counter::CachePuts => 2,
            Counter::CacheMissSeed => 3,
            Counter::CacheMissCold => 4,
            Counter::CacheSubpathHits => 5,
            Counter::CacheMissGoalKnown => 6,
            Counter::Searches => 7,
            Counter::Retries => 8,
            Counter::RetryFound => 9,
            Counter::Found => 10,
            Counter::NotFound => 11,
            Counter::BudgetExceeded => 12,
            Counter::Cancelled => 13,
            Counter::SemaphoreRejects => 14,
            Counter::DeadlineTimeouts => 15,
            Counter::PrecheckRejects => 16,
            Counter::RaceRuns => 17,
            Counter::RaceWinsUni => 18,
            Counter::RaceWinsBidir => 19,
            Counter::RaceGated => 20,
            Counter::RaceHedgeSkipped => 21,
            Counter::RaceHedgeDenied => 22,
        }
    }

    pub fn index(&self) -> (r: usize)
        ensures
            r == self.place(),
            r < COUNTERS,
    {
        match self {
            Counter::Requests => 0,
            Counter::CacheHits => 1,
            Counter::CachePuts => 2,
            Counter::CacheMissSeed => 3,
            Counter::CacheMissCold => 4,
            Counter::CacheSubpathHits => 5,
            Counter::CacheMissGoalKnown => 6,
            Counter::Searches => 7,
            Counter::Retries => 8,
            Counter::RetryFound => 9,
            Counter::Found => 10,
            Counter::NotFound => 11,
            Counter::BudgetExceeded => 12,
            Counter::Cancelled => 13,
            Counter::SemaphoreRejects => 14,
            Counter::DeadlineTimeouts => 15,
            Counter::PrecheckRejects => 16,
            Counter::RaceRuns => 17,
            Counter::RaceWinsUni => 18,
            Counter::RaceWinsBidir => 19,
            Counter::RaceGated => 20,
            Counter::RaceHedgeSkipped => 21,
            Counter::RaceHedgeDenied => 22,
        }
    }
}

/// The name of the counter at a place.
pub open spec fn counter_label(i: int) -> Seq<char> {
    if i == 0 {
        "requests"@
    } else if i == 1 {
        "cache_hits"@
    } else if i == 2 {
        "cache_puts"@
    } else if i == 3 {
        "cache_miss_seed"@
    } else if i == 4 {
        "cache_miss_cold"@
    } else if i == 5 {
        "cache_subpath_hits"@
    } else if i == 6 {
        "cache_miss_goal_known"@
    } else if i == 7 {
        "searches"@
    } else if i == 8 {
        "retries"@
    } else if i == 9 {
        "retry_found"@
    } else if i == 10 {
        "found"@
    } else if i == 11 {
        "not_found"@
    } else if i == 12 {
        "budget_exceeded"@
    } else if i == 13 {
        "cancelled"@
    } else if i == 14 {
        "semaphore_rejects"@
    } else if i == 15 {
        "deadline_timeouts"@
    } else if i == 16 {
        "precheck_rejects"@
    } else if i == 17 {
        "race_runs"@
    } else if i == 18 {
        "race_wins_uni"@
    } else if i == 19 {
        "race_wins_bidir"@
    } else if i == 20 {
        "race_gated"@
    } else if i == 21 {
        "race_hedge_skipped"@
    } else if i == 22 {
        "race_hedge_denied"@
    } else {
        ""@
    }
}

pub fn counter_name(i: usize) -> (r: &'static str)
    ensures
        r@ == counter_label(i as int),
{
    match i {
        0 => "requests",
        1 => "cache_hits",
        2 => "cache_puts",
        3 => "cache_miss_seed",
        4 => "cache_miss_cold",
        5 => "cache_subpath_hits",
        6 => "cache_miss_goal_known",
        7 => "searches",
        8 => "retries",
        9 => "retry_found",
        10 => "found",
        11 => "not_found",
        12 => "budget_exceeded",
        13 => "cancelled",
        14 => "semaphore_rejects",
        15 => "deadline_timeouts",
        16 => "precheck_rejects",
        17 => "race_runs",
        18 => "race_wins_uni",
        19 => "race_wins_bidir",
        20 => "race_gated",
        21 => "race_hedge_skipped",
        22 => "race_hedge_denied",
        _ => "",
    }
}

/// The next count; after the largest it starts again.
pub open spec fn next_count(n: u64) -> u64 {
    if n == u64::MAX { 0 } else { (n + 1) as u64 }
}

fn count_on(n: u64) -> (r: u64)
    ensures
        r == next_count(n),
{
    if n == u64::MAX {
        0
    } else {
        n + 1
    }
}

/// The binary digits of a number.
pub open spec fn bit_length(v: nat) -> nat
    decreases v,
{
    if v == 0 { 0 } else { 1 + bit_length(v / 2) }
}

/// The bucket of a value among `len`: the number of its binary digits, at most the last.
pub open spec fn bucket_of(v: u64, len: nat) -> int {
    if bit_length(v as nat) < len { bit_length(v as nat) as int } else { len - 1 }
}

/// Two to the power of `k`.
pub open spec fn two_to(k: nat) -> nat
    decreases k,
{
    if k == 0 { 1 } else { 2 * two_to((k - 1) as nat) }
}

/// Bucket `k` holds the values from 2 to the power of `k - 1` up to 2 to the power of `k`, and
/// bucket 0 holds 0.
pub proof fn law_buckets(v: nat)
    ensures
        v < two_to(bit_length(v)),
        v > 0 ==> bit_length(v) > 0 && two_to((bit_length(v) - 1) as nat) <= v,
    decreases v,
{
    if v > 0 {
        law_buckets(v / 2);
        if v / 2 > 0 {
            let k = bit_length(v / 2);
            assert(two_to(k) == 2 * two_to((k - 1) as nat));
        }
    }
}

fn log2_bucket(v: u64, len: usize) -> (r: usize)
    requires
        len > 0,
    ensures
        r == bucket_of(v, len as nat),
        r < len,
{
    let mut x: u64 = v;
    let mut k: usize = 0;
    while x > 0 && k < len
        invariant
            k <= len,
            bit_length(v as nat) == k + bit_length(x as nat),
        decreases x,
    {
        x = x / 2;
        k += 1;
    }
    if k < len {
        k
    } else {
        len - 1
    }
}

/// The number of buckets of each histogram.
pub const POPS_BUCKETS: usize = 26;

pub const SEARCH_MS_BUCKETS: usize = 18;

pub const SEARCH_US_BUCKETS: usize = 28;

pub const NS_PER_POP_BUCKETS: usize = 22;

/// Counts and histograms since the service started.
#[derive(Debug)]
pub struct Metrics {
    counts: Vec<u64>,
    pops: Vec<u64>,
    search_ms: Vec<u64>,
    search_us: Vec<u64>,
    ns_per_pop: Vec<u64>,
}

/// What is counted so far.
pub struct MetricsV {
    pub counts: Seq<u64>,
    pub pops: Seq<u64>,
    pub search_ms: Seq<u64>,
    pub search_us: Seq<u64>,
    pub ns_per_pop: Seq<u64>,
}

impl View for Metrics {
    type V = MetricsV;

    closed spec fn view(&self) -> MetricsV {
        MetricsV {
            counts: self.counts@,
            pops: self.pops@,
            search_ms: self.search_ms@,
            search_us: self.search_us@,
            ns_per_pop: self.ns_per_pop@,
        }
    }
}

fn zeros(n: usize) -> (r: Vec<u64>)
    ensures
        r@ == Seq::new(n as nat, |i: int| 0u64),
{
    let mut r: Vec<u64> = Vec::new();
    while r.len() < n
        invariant
            r@.len() <= n,
            r@ == Seq::new(r@.len(), |i: int| 0u64),
        decreases n - r@.len(),
    {
        r.push(0);
        assert(r@ =~= Seq::new(r@.len(), |i: int| 0u64));
    }
    r
}

/// A histogram with one more value.
pub open spec fn recorded(h: Seq<u64>, v: u64) -> Seq<u64> {
    h.update(bucket_of(v, h.len()), next_count(h[bucket_of(v, h.len())]))
}

fn record(h: &mut Vec<u64>, v: u64)
    requires
        old(h)@.len() > 0,
    ensures
        final(h)@ == recorded(old(h)@, v),
{
    let i: usize = log2_bucket(v, h.len());
    let n: u64 = count_on(h[i]);
    h.set(i, n);
}

/// The nanoseconds of one pop.
pub open spec fn pop_ns(us: u64, pops: u64) -> u64 {
    let ns = if us * 1000 > u64::MAX { u64::MAX } else { (us * 1000) as u64 };
    ns / pops
}

/// The lower end of bucket `i`.
pub open spec fn bucket_start(i: int) -> nat {
    if i <= 0 { 0 } else { two_to((i - 1) as nat) }
}

/// The buckets with values among the first `k`, each with its lower end and its count.
pub open spec fn histogram(h: Seq<u64>, k: int) -> Seq<JsonV>
    decreases k,
{
    if k <= 0 {
        Seq::empty()
    } else if h[k - 1] == 0 {
        histogram(h, k - 1)
    } else {
        histogram(h, k - 1).push(
            JsonV::Obj(
                Map::empty().insert("ge"@, JsonV::Num(bucket_start(k - 1) as int)).insert(
                    "count"@,
                    JsonV::Num(h[k - 1] as int),
                ),
            ),
        )
    }
}

fn histogram_json(h: &Vec<u64>) -> (r: Json)
    requires
        h@.len() <= 64,
    ensures
        r@ == JsonV::Arr(histogram(h@, h@.len() as int)),
{
    let mut out: Vec<Json> = Vec::new();
    let mut start: u64 = 0;
    let mut i: usize = 0;
    while i < h.len()
        invariant
            i <= h@.len() <= 64,
            start == bucket_start(i as int) || i == 64,
            array_view(out@) == histogram(h@, i as int),
        decreases h@.len() - i,
    {
        if h[i] != 0 {
            let ghost before = out@;
            let e: Json = Json::object().with("ge", Json::UInt(start)).with("count", Json::UInt(h[i]));
            out.push(e);
            assert(out@.drop_last() =~= before);
        }
        proof {
            lemma_two_to(i as nat);
        }
        if i == 0 {
            start = 1;
        } else if i < 63 {
            assert(two_to(i as nat) == 2 * two_to((i - 1) as nat));
            start = 2 * start;
        } else {
            start = 0;
        }
        i += 1;
    }
    Json::Array(out)
}

proof fn lemma_two_to(k: nat)
    ensures
        k <= 62 ==> 0 < two_to(k) <= 0x4000_0000_0000_0000,
{
    assert(two_to(62) == 0x4000_0000_0000_0000) by {
        reveal_with_fuel(two_to, 63);
    }
    if k <= 62 {
        lemma_two_monotone(k, 62);
    }
}

proof fn lemma_two_monotone(a: nat, b: nat)
    requires
        a <= b,
    ensures
        0 < two_to(a) <= two_to(b),
    decreases b,
{
    if a < b {
        lemma_two_monotone(a, (b - 1) as nat);
    } else if a > 0 {
        lemma_two_monotone((a - 1) as nat, (a - 1) as nat);
    }
}

/// The counts of the first `k` counters, each under its name.
pub open spec fn counts_object(counts: Seq<u64>, k: int) -> Map<Seq<char>, JsonV>
    decreases k,
{
    if k <= 0 {
        Map::empty()
    } else {
        counts_object(counts, k - 1).insert(counter_label(k - 1), JsonV::Num(counts[k - 1] as int))
    }
}

/// Everything that is counted, as it is reported.
pub open spec fn metrics_json(m: MetricsV) -> JsonV {
    JsonV::Obj(
        counts_object(m.counts, COUNTERS as int).insert(
            "pops_log2"@,
            JsonV::Arr(histogram(m.pops, m.pops.len() as int)),
        ).insert("search_ms_log2"@, JsonV::Arr(histogram(m.search_ms, m.search_ms.len() as int))).insert(
            "search_us_log2"@,
            JsonV::Arr(histogram(m.search_us, m.search_us.len() as int)),
        ).insert("ns_per_pop_log2"@, JsonV::Arr(histogram(m.ns_per_pop, m.ns_per_pop.len() as int))),
    )
}

impl Metrics {
    /// Whether there is a count for every counter, and for every bucket of the histograms.
    pub open spec fn wf(self) -> bool {
        &&& self@.counts.len() == COUNTERS
        &&& self@.pops.len() == POPS_BUCKETS
        &&& self@.search_ms.len() == SEARCH_MS_BUCKETS
        &&& self@.search_us.len() == SEARCH_US_BUCKETS
        &&& self@.ns_per_pop.len() == NS_PER_POP_BUCKETS
    }

    pub fn new() -> (r: Metrics)
        ensures
            r.wf(),
            r@.counts == Seq::new(COUNTERS as nat, |i: int| 0u64),
            r@.pops == Seq::new(POPS_BUCKETS as nat, |i: int| 0u64),
            r@.search_ms == Seq::new(SEARCH_MS_BUCKETS as nat, |i: int| 0u64),
            r@.search_us == Seq::new(SEARCH_US_BUCKETS as nat, |i: int| 0u64),
            r@.ns_per_pop == Seq::new(NS_PER_POP_BUCKETS as nat, |i: int| 0u64),
    {
        Metrics {
            counts: zeros(COUNTERS),
            pops: zeros(POPS_BUCKETS),
            search_ms: zeros(SEARCH_MS_BUCKETS),
            search_us: zeros(SEARCH_US_BUCKETS),
            ns_per_pop: zeros(NS_PER_POP_BUCKETS),
        }
    }

    /// Counts one more.
    pub fn count(&mut self, c: Counter)
        requires
            old(self).wf(),
        ensures
            final(self).wf(),
            final(self)@ == (MetricsV {
                counts: old(self)@.counts.update(c.place(), next_count(old(self)@.counts[c.place()])),
                ..old(self)@
            }),
    {
        let i: usize = c.index();
        let n: u64 = count_on(self.counts[i]);
        self.counts.set(i, n);
    }

    /// How much was counted.
    pub fn get(&self, c: Counter) -> (r: u64)
        requires
            self.wf(),
        ensures
            r == self@.counts[c.place()],
    {
        self.counts[c.index()]
    }

    pub fn record_pops(&mut self, pops: u64)
        requires
            old(self).wf(),
        ensures
            final(self).wf(),
            final(self)@ == (MetricsV { pops: recorded(old(self)@.pops, pops), ..old(self)@ }),
    {
        record(&mut self.pops, pops);
    }

    pub fn record_search_ms(&mut self, ms: u64)
        requires
            old(self).wf(),
        ensures
            final(self).wf(),
            final(self)@ == (MetricsV { search_ms: recorded(old(self)@.search_ms, ms), ..old(self)@ }),
    {
        record(&mut self.search_ms, ms);
    }

    /// Records how long a search took, and how long each of its pops.
    pub fn record_search_us(&mut self, us: u64, pops: u64)
        requires
            old(self).wf(),
        ensures
            final(self).wf(),
            final(self)@ == (MetricsV {
                search_us: recorded(old(self)@.search_us, us),
                ns_per_pop: if pops > 0 {
                    recorded(old(self)@.ns_per_pop, pop_ns(us, pops))
                } else {
                    old(self)@.ns_per_pop
                },
                ..old(self)@
            }),
    {
        record(&mut self.search_us, us);
        if pops > 0 {
            let ns: u64 = if us > u64::MAX / 1000 { u64::MAX } else { us * 1000 };
            record(&mut self.ns_per_pop, ns / pops);
        }
    }

    /// Everything that is counted.
    pub fn snapshot_json(&self) -> (r: Json)
        requires
            self.wf(),
        ensures
            r@ == metrics_json(self@),
    {
        let mut out: Json = Json::object();
        let mut i: usize = 0;
        while i < COUNTERS
            invariant
                i <= COUNTERS,
                self.wf(),
                out@ == JsonV::Obj(counts_object(self@.counts, i as int)),
            decreases COUNTERS - i,
        {
            out = out.with(counter_name(i), Json::UInt(self.counts[i]));
            i += 1;
        }
        out.with("pops_log2", histogram_json(&self.pops)).with("search_ms_log2", histogram_json(&self.search_ms)).with(
            "search_us_log2",
            histogram_json(&self.search_us),
        ).with("ns_per_pop_log2", histogram_json(&self.ns_per_pop))
    }
}

/// Each counter has a place of its own and its name in the report.
pub proof fn law_counters_have_names(a: Counter, b: Counter)
    ensures
        a.place() == b.place() ==> a == b,
        0 <= a.place() < COUNTERS,
        counter_label(Counter::Requests.place()) == "requests"@,
        counter_label(Counter::CacheHits.place()) == "cache_hits"@,
        counter_label(Counter::CachePuts.place()) == "cache_puts"@,
        counter_label(Counter::CacheMissSeed.place()) == "cache_miss_seed"@,
        counter_label(Counter::CacheMissCold.place()) == "cache_miss_cold"@,
        counter_label(Counter::CacheSubpathHits.place()) == "cache_subpath_hits"@,
        counter_label(Counter::CacheMissGoalKnown.place()) == "cache_miss_goal_known"@,
        counter_label(Counter::Searches.place()) == "searches"@,
        counter_label(Counter::Retries.place()) == "retries"@,
        counter_label(Counter::RetryFound.place()) == "retry_found"@,
        counter_label(Counter::Found.place()) == "found"@,
        counter_label(Counter::NotFound.place()) == "not_found"@,
        counter_label(Counter::BudgetExceeded.place()) == "budget_exceeded"@,
        counter_label(Counter::Cancelled.place()) == "cancelled"@,
        counter_label(Counter::SemaphoreRejects.place()) == "semaphore_rejects"@,
        counter_label(Counter::DeadlineTimeouts.place()) == "deadline_timeouts"@,
        counter_label(Counter::PrecheckRejects.place()) == "precheck_rejects"@,
        counter_label(Counter::RaceRuns.place()) == "race_runs"@,
        counter_label(Counter::RaceWinsUni.place()) == "race_wins_uni"@,
        counter_label(Counter::RaceWinsBidir.place()) == "race_wins_bidir"@,
        counter_label(Counter::RaceGated.place()) == "race_gated"@,
        counter_label(Counter::RaceHedgeSkipped.place()) == "race_hedge_skipped"@,
        counter_label(Counter::RaceHedgeDenied.place()) == "race_hedge_denied"@,
{
}

/// Whether a value belongs into bucket `i` of so many: 0 into the first, the values from two to the power
/// of `i - 1` up to two to the power of `i` into the next ones, and all larger ones into the last.
pub open spec fn is_bucket_of(v: u64, len: nat, i: int) -> bool {
    &&& 0 <= i < len
    &&& i > 0 ==> two_to((i - 1) as nat) <= v
    &&& i < len - 1 ==> v < two_to(i as nat)
}

proof fn lemma_powers_grow(a: nat, b: nat)
    requires
        a <= b,
    ensures
        two_to(a) <= two_to(b),
    decreases b,
{
    if a < b {
        lemma_powers_grow(a, (b - 1) as nat);
    }
}

/// A value that is recorded adds one to the bucket that it belongs into, and to no other.
pub proof fn law_values_are_recorded(h: Seq<u64>, v: u64, i: int)
    requires
        is_bucket_of(v, h.len(), i),
        h[i] < u64::MAX,
    ensures
        recorded(h, v).len() == h.len(),
        recorded(h, v)[i] == h[i] + 1,
        forall|k: int| #![trigger h[k]] 0 <= k < h.len() && k != i ==> recorded(h, v)[k] == h[k],
{
    let n = bit_length(v as nat);
    law_buckets(v as nat);
    let b = bucket_of(v, h.len());
    assert(b == i) by {
        if i < b {
            lemma_powers_grow(i as nat, (b - 1) as nat);
            lemma_powers_grow((b - 1) as nat, (n - 1) as nat);
        }
        if b < i {
            lemma_powers_grow(n, (i - 1) as nat);
        }
    }
}

/// The time of a pop is the time of the search over its pops, rounded down to nanoseconds.
pub proof fn law_time_of_a_pop(us: u64, pops: u64)
    requires
        us * 1000 <= u64::MAX,
        pops > 0,
    ensures
        pop_ns(us, pops) * pops <= us * 1000 < (pop_ns(us, pops) + 1) * pops,
{
    let n = (us * 1000) as u64;
    assert((n / pops) * pops <= n < (n / pops + 1) * pops) by (nonlinear_arith)
        requires
            pops > 0,
    ;
}

/// Whether the report of a histogram tells of bucket `i`: with its lower end and its count.
pub open spec fn tells_of(h: Seq<u64>, i: int, e: JsonV) -> bool {
    e matches JsonV::Obj(m) && m.contains_key("ge"@) && m["ge"@] == JsonV::Num(
        if i == 0 { 0int } else { two_to((i - 1) as nat) as int },
    ) && m.contains_key("count"@) && m["count"@] == JsonV::Num(h[i] as int)
}

/// Whether the report tells of bucket `i` at all.
pub open spec fn is_told_of(h: Seq<u64>, i: int, r: Seq<JsonV>) -> bool {
    exists|k: int| 0 <= k < r.len() && tells_of(h, i, #[trigger] r[k])
}

pub open spec fn tells_of_some(h: Seq<u64>, n: int, e: JsonV) -> bool {
    exists|i: int| 0 <= i < n && #[trigger] h[i] > 0 && tells_of(h, i, e)
}

proof fn lemma_histogram(h: Seq<u64>, k: int)
    requires
        0 <= k <= h.len(),
    ensures
        forall|i: int| 0 <= i < k && #[trigger] h[i] > 0 ==> is_told_of(h, i, histogram(h, k)),
        forall|j: int| 0 <= j < histogram(h, k).len() ==> tells_of_some(h, k, #[trigger] histogram(h, k)[j]),
    decreases k,
{
    if k > 0 {
        lemma_histogram(h, k - 1);
        let p = histogram(h, k - 1);
        let r = histogram(h, k);
        reveal_strlit("ge");
        reveal_strlit("count");
        assert("ge"@.len() == 2 && "count"@.len() == 5);
        if h[k - 1] > 0 {
            assert(tells_of(h, k - 1, r[p.len() as int]));
            assert(is_told_of(h, k - 1, r));
        }
        assert forall|i: int| 0 <= i < k && #[trigger] h[i] > 0 implies is_told_of(h, i, r) by {
            if i < k - 1 {
                let x = choose|x: int| 0 <= x < p.len() && tells_of(h, i, #[trigger] p[x]);
                assert(r[x] == p[x]);
            }
        }
        assert forall|j: int| 0 <= j < r.len() implies tells_of_some(h, k, #[trigger] r[j]) by {
            if j < p.len() {
                assert(r[j] == p[j]);
                let i = choose|i: int| 0 <= i < k - 1 && #[trigger] h[i] > 0 && tells_of(h, i, p[j]);
                assert(h[i] > 0 && tells_of(h, i, r[j]));
            } else {
                assert(h[k - 1] > 0 && tells_of(h, k - 1, r[j]));
            }
        }
    }
}

/// The report of a histogram tells of each bucket that holds values, and of nothing else.
pub proof fn law_histograms_tell_of_buckets(h: Seq<u64>)
    ensures
        forall|i: int| 0 <= i < h.len() && #[trigger] h[i] > 0 ==> is_told_of(h, i, histogram(h, h.len() as int)),
        forall|j: int|
            0 <= j < histogram(h, h.len() as int).len() ==> tells_of_some(
                h,
                h.len() as int,
                #[trigger] histogram(h, h.len() as int)[j],
            ),
{
    lemma_histogram(h, h.len() as int);
}

}
