//! What is answered to a request, and what is counted of it.

use crate::cache::route_cache::RouteCacheEntry;
use crate::engine::outcome::{Engine, SearchOutcome, SearchResult, SearchStatus};
use crate::engine::weight::Weight;
use crate::service::metrics::{Counter, Metrics};
use vstd::prelude::*;
#[allow(unused_imports)]
use crate::service::metrics::{next_count, pop_ns, recorded, MetricsV, COUNTERS};

verus! {

/// Hits with at most this many nodes are told at once.
pub const INLINE_HIT_PAYLOAD_NODES: usize = 256;

/// A request answered without a search.
#[derive(Debug)]
pub enum Hit {
    /// A result that was kept.
    Cached(RouteCacheEntry),
    /// A part of a path that was kept: its nodes and what it costs.
    Subpath { path: Vec<u32>, cost: Weight },
}

/// What is answered.
#[derive(Debug, Clone, Copy, PartialEq, Eq, Structural)]
pub struct Served {
    pub found: bool,
    pub status: SearchStatus,
    pub cost: Weight,
    pub length_tiles: usize,
    pub pops: u32,
    pub pops_f: u32,
    pub pops_b: u32,
    pub retried: bool,
    pub seed_dropped: bool,
    pub engine: Engine,
    pub search_us: u64,
}

/// What is answered from a result.
pub open spec fn served_of(res: SearchResult, retried: bool, seed_dropped: bool, engine: Engine, search_us: u64) -> Served {
    Served {
        found: res.found,
        status: res.status,
        cost: res.cost,
        length_tiles: res.path@.len() as usize,
        pops: res.pops,
        pops_f: res.pops_f,
        pops_b: res.pops_b,
        retried,
        seed_dropped,
        engine,
        search_us,
    }
}

/// What is answered from a hit.
pub open spec fn served_hit(hit: Hit) -> Served {
    match hit {
        Hit::Cached(e) => served_of(e.res, false, e.seed_dropped, Engine::Cache, 0),
        Hit::Subpath { path, cost } => Served {
            found: true,
            status: SearchStatus::Found,
            cost,
            length_tiles: path@.len() as usize,
            pops: 0,
            pops_f: 0,
            pops_b: 0,
            retried: false,
            seed_dropped: false,
            engine: Engine::Cache,
            search_us: 0,
        },
    }
}

impl Hit {
    pub open spec fn nodes(self) -> Seq<u32> {
        match self {
            Hit::Cached(e) => e.res.path@,
            Hit::Subpath { path, .. } => path@,
        }
    }

    pub fn path(&self) -> (r: &Vec<u32>)
        ensures
            r@ == self.nodes(),
    {
        match self {
            Hit::Cached(e) => &e.res.path,
            Hit::Subpath { path, .. } => path,
        }
    }

    /// Whether the hit has a path.
    pub fn found(&self) -> (r: bool)
        ensures
            r == served_hit(*self).found,
    {
        match self {
            Hit::Cached(e) => e.res.found,
            Hit::Subpath { .. } => true,
        }
    }

    /// The node at which the route enters the map, where it has no start.
    pub fn virtual_entry(&self) -> (r: Option<u32>)
        ensures
            r == match *self {
                Hit::Cached(e) => e.virtual_entry,
                Hit::Subpath { .. } => None,
            },
    {
        match self {
            Hit::Cached(e) => e.virtual_entry,
            Hit::Subpath { .. } => None,
        }
    }

    /// Whether the hit is told at once: it is short, or nothing of it is told.
    pub fn is_inline(&self, wants_payload: bool) -> (r: bool)
        ensures
            r == (!wants_payload || self.nodes().len() <= INLINE_HIT_PAYLOAD_NODES),
    {
        !wants_payload || self.path().len() <= INLINE_HIT_PAYLOAD_NODES
    }
}

impl Served {
    pub fn from_hit(hit: &Hit) -> (r: Served)
        ensures
            r == served_hit(*hit),
    {
        match hit {
            Hit::Cached(e) => Served {
                found: e.res.found,
                status: e.res.status,
                cost: e.res.cost,
                length_tiles: e.res.path.len(),
                pops: e.res.pops,
                pops_f: e.res.pops_f,
                pops_b: e.res.pops_b,
                retried: false,
                seed_dropped: e.seed_dropped,
                engine: Engine::Cache,
                search_us: 0,
            },
            Hit::Subpath { path, cost } => Served {
                found: true,
                status: SearchStatus::Found,
                cost: *cost,
                length_tiles: path.len(),
                pops: 0,
                pops_f: 0,
                pops_b: 0,
                retried: false,
                seed_dropped: false,
                engine: Engine::Cache,
                search_us: 0,
            },
        }
    }

    pub fn from_search(out: &SearchOutcome, search_us: u64) -> (r: Served)
        ensures
            r == served_of(out.res, out.retried, out.seed_dropped, out.engine, search_us),
    {
        Served {
            found: out.res.found,
            status: out.res.status,
            cost: out.res.cost,
            length_tiles: out.res.path.len(),
            pops: out.res.pops,
            pops_f: out.res.pops_f,
            pops_b: out.res.pops_b,
            retried: out.retried,
            seed_dropped: out.seed_dropped,
            engine: out.engine,
            search_us,
        }
    }
}

/// The counts with one more of a counter.
pub open spec fn counted(m: MetricsV, c: Counter) -> MetricsV {
    MetricsV { counts: m.counts.update(c.place(), next_count(m.counts[c.place()])), ..m }
}

/// The counter of a status.
pub open spec fn status_counter(s: SearchStatus) -> Counter {
    match s {
        SearchStatus::Found => Counter::Found,
        SearchStatus::NotFound => Counter::NotFound,
        SearchStatus::BudgetExceeded => Counter::BudgetExceeded,
        SearchStatus::Cancelled => Counter::Cancelled,
    }
}

/// The counts after a search was answered.
pub open spec fn search_counted(m: MetricsV, s: Served) -> MetricsV {
    let m1 = counted(m, Counter::Searches);
    let m2 = if s.retried { counted(m1, Counter::Retries) } else { m1 };
    let m3 = if s.retried && s.found { counted(m2, Counter::RetryFound) } else { m2 };
    MetricsV {
        pops: recorded(m3.pops, s.pops as u64),
        search_ms: recorded(m3.search_ms, s.search_us / 1000),
        search_us: recorded(m3.search_us, s.search_us),
        ns_per_pop: if s.pops > 0 {
            recorded(m3.ns_per_pop, pop_ns(s.search_us, s.pops as u64))
        } else {
            m3.ns_per_pop
        },
        ..m3
    }
}

/// How a request was answered.
#[derive(Debug, Clone, Copy, PartialEq, Eq, Structural)]
pub enum Source {
    Cache,
    Subpath,
    Search,
}

/// The counts after a request was answered.
pub open spec fn answer_counted(m: MetricsV, s: Served, source: Source) -> MetricsV {
    let m1 = match source {
        Source::Subpath => counted(m, Counter::CacheSubpathHits),
        Source::Cache => counted(m, Counter::CacheHits),
        Source::Search => search_counted(m, s),
    };
    counted(m1, status_counter(s.status))
}

/// What is said of an answer that is not proven.
pub open spec fn reason_of(s: SearchStatus) -> Option<Seq<char>> {
    match s {
        SearchStatus::BudgetExceeded => Some("budget_exceeded"@),
        SearchStatus::Cancelled => Some("cancelled"@),
        _ => None,
    }
}

/// What is said of an answer that does not do all that was asked for.
pub open spec fn degraded_of(seed_dropped: bool, seed_ignored: bool) -> Option<Seq<char>> {
    if seed_dropped {
        Some("seed_dropped"@)
    } else if seed_ignored {
        Some("seed_ignored"@)
    } else {
        None
    }
}

/// The parts of an answer that are not its payload.
#[derive(Debug)]
pub struct RouteResponse {
    pub found: bool,
    pub cost: Weight,
    pub length_tiles: usize,
    pub reason: Option<&'static str>,
    pub degraded: Option<&'static str>,
}

/// Whether an optional text is this one.
pub open spec fn is_text(t: Option<&'static str>, want: Option<Seq<char>>) -> bool {
    match want {
        Some(w) => t is Some && t->0@ == w,
        None => t is None,
    }
}

fn count_search(metrics: &mut Metrics, s: &Served)
    requires
        old(metrics).wf(),
    ensures
        final(metrics).wf(),
        final(metrics)@ == search_counted(old(metrics)@, *s),
{
    metrics.count(Counter::Searches);
    if s.retried {
        metrics.count(Counter::Retries);
        if s.found {
            metrics.count(Counter::RetryFound);
        }
    }
    metrics.record_pops(s.pops as u64);
    metrics.record_search_ms(s.search_us / 1000);
    metrics.record_search_us(s.search_us, s.pops as u64);
}

/// Counts a request that is answered, and says what its answer is.
pub fn respond(metrics: &mut Metrics, s: &Served, source: Source, seed_ignored: bool) -> (r: RouteResponse)
    requires
        old(metrics).wf(),
    ensures
        final(metrics).wf(),
        final(metrics)@ == answer_counted(old(metrics)@, *s, source),
        r.found == s.found,
        r.cost == s.cost,
        r.length_tiles == s.length_tiles,
        is_text(r.reason, reason_of(s.status)),
        is_text(r.degraded, degraded_of(s.seed_dropped, seed_ignored)),
{
    match source {
        Source::Subpath => metrics.count(Counter::CacheSubpathHits),
        Source::Cache => metrics.count(Counter::CacheHits),
        Source::Search => count_search(metrics, s),
    }
    match s.status {
        SearchStatus::Found => metrics.count(Counter::Found),
        SearchStatus::NotFound => metrics.count(Counter::NotFound),
        SearchStatus::BudgetExceeded => metrics.count(Counter::BudgetExceeded),
        SearchStatus::Cancelled => metrics.count(Counter::Cancelled),
    }
    let reason: Option<&'static str> = match s.status {
        SearchStatus::BudgetExceeded => Some("budget_exceeded"),
        SearchStatus::Cancelled => Some("cancelled"),
        _ => None,
    };
    let degraded: Option<&'static str> = if s.seed_dropped {
        Some("seed_dropped")
    } else if seed_ignored {
        Some("seed_ignored")
    } else {
        None
    };
    RouteResponse { found: s.found, cost: s.cost, length_tiles: s.length_tiles, reason, degraded }
}

/// A reason is given exactly where an answer does not hold of the route itself.
pub proof fn law_reason_of_unproven(s: SearchStatus)
    ensures
        reason_of(s) is None <==> crate::engine::outcome::is_stable(s),
{
}

/// An answer counts once under its status, and once under how it was come by; no other counter changes
/// but those of a retry.
pub proof fn law_answers_are_counted(m: MetricsV, s: Served, source: Source, c: Counter)
    requires
        m.counts.len() == COUNTERS,
    ensures
        ({
            let more = answer_counted(m, s, source);
            let hit = (c == Counter::Found && s.status == SearchStatus::Found) || (c == Counter::NotFound && s.status
                == SearchStatus::NotFound) || (c == Counter::BudgetExceeded && s.status == SearchStatus::BudgetExceeded) || (c
                == Counter::Cancelled && s.status == SearchStatus::Cancelled) || (c == Counter::CacheHits && source
                == Source::Cache) || (c == Counter::CacheSubpathHits && source == Source::Subpath) || (c == Counter::Searches
                && source == Source::Search) || (c == Counter::Retries && source == Source::Search && s.retried) || (c
                == Counter::RetryFound && source == Source::Search && s.retried && s.found);
            more.counts.len() == m.counts.len() && more.counts[c.place()] == if hit {
                next_count(m.counts[c.place()])
            } else {
                m.counts[c.place()]
            }
        }),
{
    let st = status_counter(s.status);
    assert(st.place() == c.place() ==> st == c);
    assert(Counter::Searches.place() == c.place() ==> c == Counter::Searches);
    assert(Counter::Retries.place() == c.place() ==> c == Counter::Retries);
    assert(Counter::RetryFound.place() == c.place() ==> c == Counter::RetryFound);
    assert(Counter::CacheHits.place() == c.place() ==> c == Counter::CacheHits);
    assert(Counter::CacheSubpathHits.place() == c.place() ==> c == Counter::CacheSubpathHits);
}

/// Only a search is recorded in the histograms: its entries, its time in milliseconds and microseconds,
/// and the time for each entry, where it took up any.
pub proof fn law_searches_are_recorded(m: MetricsV, s: Served, source: Source)
    ensures
        source != Source::Search ==> answer_counted(m, s, source).pops == m.pops && answer_counted(m, s, source).search_ms
            == m.search_ms && answer_counted(m, s, source).search_us == m.search_us && answer_counted(m, s, source).ns_per_pop
            == m.ns_per_pop,
        source == Source::Search ==> answer_counted(m, s, source).pops == recorded(m.pops, s.pops as u64) && answer_counted(
            m,
            s,
            source,
        ).search_ms == recorded(m.search_ms, s.search_us / 1000) && answer_counted(m, s, source).search_us == recorded(
            m.search_us,
            s.search_us,
        ) && answer_counted(m, s, source).ns_per_pop == if s.pops == 0 {
            m.ns_per_pop
        } else {
            recorded(m.ns_per_pop, pop_ns(s.search_us, s.pops as u64))
        },
{
}

/// An answer says why it is not proven, and only of one that is not; a seed that was given up is told
/// before one that was passed over.
pub proof fn law_answers_say_what_is_wrong(s: SearchStatus, ignored: bool)
    ensures
        reason_of(SearchStatus::BudgetExceeded) == Some("budget_exceeded"@),
        reason_of(SearchStatus::Cancelled) == Some("cancelled"@),
        reason_of(SearchStatus::Found) is None,
        reason_of(SearchStatus::NotFound) is None,
        degraded_of(true, ignored) == Some("seed_dropped"@),
        degraded_of(false, true) == Some("seed_ignored"@),
        degraded_of(false, false) is None,
{
}

/// What is answered from what was kept is what was kept: a part of a path has been found, at its cost,
/// with as many tiles as nodes, and nothing was searched for either.
pub proof fn law_hits_are_served_as_kept(hit: Hit)
    requires
        hit.nodes().len() <= usize::MAX,
    ensures
        served_hit(hit).length_tiles == hit.nodes().len(),
        served_hit(hit).engine == Engine::Cache && served_hit(hit).search_us == 0 && !served_hit(hit).retried,
        match hit {
            Hit::Cached(e) => served_hit(hit).found == e.res.found && served_hit(hit).status == e.res.status && served_hit(
                hit,
            ).cost == e.res.cost && served_hit(hit).seed_dropped == e.seed_dropped && served_hit(hit).pops == e.res.pops,
            Hit::Subpath { path, cost } => served_hit(hit).found && served_hit(hit).status == SearchStatus::Found
                && served_hit(hit).cost == cost && !served_hit(hit).seed_dropped && served_hit(hit).pops == 0,
        },
{
}

}
