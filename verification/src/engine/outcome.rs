//! What a search found, and which of several results is served.

use crate::engine::weight::Weight;
use vstd::prelude::*;
#[allow(unused_imports)]
use crate::engine::weight::INFINITE;

verus! {

#[derive(Debug, Clone, Copy, PartialEq, Eq, Structural)]
pub enum SearchStatus {
    /// A path that is proven to be cheapest.
    Found,
    /// There is no path.
    NotFound,
    /// The search gave up at its budget.
    BudgetExceeded,
    /// The search was called off.
    Cancelled,
}

/// The result of one search.
#[derive(Debug, Clone)]
pub struct SearchResult {
    pub found: bool,
    pub status: SearchStatus,
    pub path: Vec<u32>,
    /// The cost from the start to each node of the path.
    pub path_g: Vec<Weight>,
    pub cost: Weight,
    pub pops: u32,
    pub pops_f: u32,
    pub pops_b: u32,
}

/// Which engine gave a result.
#[derive(Debug, Clone, Copy, PartialEq, Eq, Structural)]
pub enum Engine {
    Uni,
    Jps,
    Bidir,
    Cache,
}

/// Which engine a route runs on: as the settings say, or one of the two for a race.
#[derive(Debug, Clone, Copy, PartialEq, Eq, Structural)]
pub enum EngineChoice {
    Policy,
    Uni,
    Bidir,
}

/// A result with what happened on the way to it.
#[derive(Debug, Clone)]
pub struct SearchOutcome {
    pub res: SearchResult,
    /// Whether the search was tried again after it ran out of its budget.
    pub retried: bool,
    /// The pops of the first attempt, the retry and the fallback without a seed; 0 for one that
    /// did not run.
    pub attempts_pops: [u32; 3],
    /// Whether the result comes from a search without the seed that was asked for.
    pub seed_dropped: bool,
    pub engine: Engine,
}

impl Engine {
    pub open spec fn label(self) -> Seq<char> {
        match self {
            Engine::Uni => "uni"@,
            Engine::Jps => "jps"@,
            Engine::Bidir => "bidir"@,
            Engine::Cache => "cache"@,
        }
    }

    pub fn as_str(&self) -> (r: &'static str)
        ensures
            r@ == self.label(),
    {
        match self {
            Engine::Uni => "uni",
            Engine::Jps => "jps",
            Engine::Bidir => "bidir",
            Engine::Cache => "cache",
        }
    }
}

/// The result of a search that found nothing.
pub fn not_found_result() -> (r: SearchResult)
    ensures
        !r.found,
        r.status == SearchStatus::NotFound,
        r.path@.len() == 0,
        r.path_g@.len() == 0,
        r.cost.bits == INFINITE,
        r.pops == 0,
        r.pops_f == 0,
        r.pops_b == 0,
{
    SearchResult {
        found: false,
        status: SearchStatus::NotFound,
        path: Vec::new(),
        path_g: Vec::new(),
        cost: Weight::infinite(),
        pops: 0,
        pops_f: 0,
        pops_b: 0,
    }
}

/// Which of a first attempt and its retry is served: a proven one, first the retry; else a path
/// rather than none, and of two paths the retry's only where it is cheaper.
pub open spec fn better(first: SearchResult, retry: SearchResult) -> SearchResult {
    if retry.status == SearchStatus::Found {
        retry
    } else if first.found && (first.status == SearchStatus::Found || !retry.found || !retry.cost.lt(first.cost)) {
        first
    } else {
        retry
    }
}

pub fn better_of(first: SearchResult, retry: SearchResult) -> (r: SearchResult)
    ensures
        r == better(first, retry),
{
    if retry.status == SearchStatus::Found {
        return retry;
    }
    match (first.found, retry.found) {
        (true, true) => if first.status != SearchStatus::Found && retry.cost.less(&first.cost) {
            retry
        } else {
            first
        },
        (true, false) => first,
        _ => retry,
    }
}

/// Whether a result says how things are, and not only how far a search came.
pub open spec fn is_stable(status: SearchStatus) -> bool {
    status == SearchStatus::Found || status == SearchStatus::NotFound
}

/// Whether the result of a search holds of the route itself.
pub fn stable(o: &SearchOutcome) -> (r: bool)
    ensures
        r == is_stable(o.res.status),
{
    match o.res.status {
        SearchStatus::Found => true,
        SearchStatus::NotFound => true,
        _ => false,
    }
}

/// The served result is one of the two, and has a path if either has one.
pub proof fn law_better_keeps_a_path(first: SearchResult, retry: SearchResult)
    requires
        retry.status == SearchStatus::Found ==> retry.found,
    ensures
        better(first, retry) == first || better(first, retry) == retry,
        first.found || retry.found ==> better(first, retry).found,
{
}

/// A proven result wins, and of two unproven paths none is cheaper than the one that is served.
pub proof fn law_better_is_cheapest(first: SearchResult, retry: SearchResult)
    requires
        first.found,
        retry.found,
    ensures
        retry.status == SearchStatus::Found ==> better(first, retry) == retry,
        first.status == SearchStatus::Found || retry.status == SearchStatus::Found ==> better(first, retry).status
            == SearchStatus::Found,
        first.status != SearchStatus::Found && retry.status != SearchStatus::Found ==> !first.cost.lt(better(first, retry).cost) && !retry.cost.lt(
            better(first, retry).cost,
        ),
{
}

}
