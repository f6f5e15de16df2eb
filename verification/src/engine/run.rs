//! A route's search, attempt by attempt: what to search for first, and what comes after each
//! result.

use crate::engine::budget::{default_max_pops, entry_of, retry_ladder, Ladder, LadderInput, Rung};
use crate::engine::outcome::{not_found_result, Engine, SearchOutcome, SearchResult};
use vstd::prelude::*;
#[allow(unused_imports)]
use crate::engine::budget::{attempts_left, first_budget, ladder_goes_on};
#[allow(unused_imports)]
use crate::engine::outcome::SearchStatus;
#[allow(unused_imports)]
use crate::engine::weight::INFINITE;

verus! {

/// What a route's search starts from.
#[derive(Debug, Clone, Copy, PartialEq, Eq, Structural)]
pub struct RunInput {
    /// The node to start from; without one the route enters the map by a teleport.
    pub start: Option<u32>,
    pub goal: u32,
    /// The number of teleports that the caller may use.
    pub entries: usize,
    pub ladder: LadderInput,
}

/// What a route's search does next.
#[derive(Debug)]
pub enum Run {
    /// Search: from the start, or from every teleport at once where there is none.
    Search { rung: Rung, from: Option<u32>, to: u32, seed: Option<u64>, max_pops: Option<u32>, resume: bool },
    /// The outcome, with the node at which a route without a start enters the map.
    Done { outcome: SearchOutcome, entry: Option<u32> },
}

/// The node at which a route enters the map: the first one of its path, where it has no start.
pub open spec fn entered(start: Option<u32>, outcome: SearchOutcome) -> Option<u32> {
    if start is None && outcome.res.found && outcome.res.path@.len() > 0 { Some(outcome.res.path@[0]) } else { None }
}

/// Whether an outcome says that nothing was searched and nothing found.
pub open spec fn nothing_found(o: SearchOutcome) -> bool {
    &&& !o.res.found && o.res.status == SearchStatus::NotFound
    &&& o.res.path@.len() == 0 && o.res.path_g@.len() == 0
    &&& o.res.cost.bits == INFINITE
    &&& o.res.pops == 0 && o.res.pops_f == 0 && o.res.pops_b == 0
    &&& !o.retried && !o.seed_dropped && o.engine == Engine::Uni
    &&& o.attempts_pops@ == seq![0u32, 0, 0]
}

/// What comes first: a search with the first budget, unless there is neither a start nor a
/// teleport.
pub fn begin_run(input: &RunInput) -> (r: Run)
    ensures
        input.start is None && input.entries == 0 ==> r is Done && nothing_found(r->outcome) && r->entry is None,
        input.start is Some || input.entries > 0 ==> r == (Run::Search {
            rung: Rung::First,
            from: input.start,
            to: input.goal,
            seed: input.ladder.seed,
            max_pops: first_budget(input.ladder.budgets.first, input.ladder.nodes as nat),
            resume: false,
        }),
{
    if input.start.is_none() && input.entries == 0 {
        let attempts_pops: [u32; 3] = [0, 0, 0];
        assert(attempts_pops@ =~= seq![0u32, 0, 0]);
        return Run::Done {
            outcome: SearchOutcome {
                res: not_found_result(),
                retried: false,
                attempts_pops,
                seed_dropped: false,
                engine: Engine::Uni,
            },
            entry: None,
        };
    }
    Run::Search {
        rung: Rung::First,
        from: input.start,
        to: input.goal,
        seed: input.ladder.seed,
        max_pops: default_max_pops(input.ladder.budgets.first, input.ladder.nodes),
        resume: false,
    }
}

/// Whether `next` is what follows when the attempt of this rung ended with `res`.
pub open spec fn run_goes_on(rung: Rung, res: SearchResult, input: RunInput, cancelled: bool, next: Run) -> bool {
    match next {
        Run::Done { outcome, entry } => ladder_goes_on(rung, res, input.ladder, cancelled, Ladder::Serve(outcome)) && entry
            == entered(input.start, outcome),
        Run::Search { rung: r, from, to, seed, max_pops, resume } => from == input.start && to == input.goal && max_pops is Some
            && ladder_goes_on(
            rung,
            res,
            input.ladder,
            cancelled,
            Ladder::Search { rung: r, seed, max_pops: max_pops->0, resume },
        ),
    }
}

/// What comes after an attempt.
pub fn continue_run(rung: Rung, res: SearchResult, input: &RunInput, cancelled: bool) -> (next: Run)
    ensures
        run_goes_on(rung, res, *input, cancelled, next),
{
    match retry_ladder(rung, res, &input.ladder, cancelled) {
        Ladder::Serve(outcome) => {
            let entry: Option<u32> = if input.start.is_none() {
                entry_of(&outcome)
            } else {
                None
            };
            Run::Done { outcome, entry }
        },
        Ladder::Search { rung, seed, max_pops, resume } => Run::Search {
            rung,
            from: input.start,
            to: input.goal,
            seed,
            max_pops: Some(max_pops),
            resume,
        },
    }
}

/// Every attempt searches for the same thing, and after three of them the outcome is there.
pub proof fn law_runs_end(rung: Rung, res: SearchResult, input: RunInput, cancelled: bool, next: Run)
    requires
        run_goes_on(rung, res, input, cancelled, next),
        next is Search,
    ensures
        next->from == input.start,
        next->to == input.goal,
        attempts_left(next->rung) < attempts_left(rung),
        !cancelled,
{
}

/// A route that starts off the map is entered by the first node of the path that was found; one that starts
/// on the map, or has no path, has no entry.
pub proof fn law_entries(start: Option<u32>, outcome: SearchOutcome)
    ensures
        start is Some ==> entered(start, outcome) is None,
        !outcome.res.found || outcome.res.path@.len() == 0 ==> entered(start, outcome) is None,
        start is None && outcome.res.found && outcome.res.path@.len() > 0 ==> entered(start, outcome) == Some(outcome.res.path@[0]),
{
}

/// Every search of a run leads from its start to its goal.
pub proof fn law_runs_keep_their_ends(rung: Rung, res: SearchResult, input: RunInput, cancelled: bool, next: Run)
    requires
        run_goes_on(rung, res, input, cancelled, next),
    ensures
        next matches Run::Search { from, to, max_pops, .. } ==> from == input.start && to == input.goal && max_pops is Some,
        next matches Run::Done { outcome, entry } ==> (entry is Some ==> input.start is None && outcome.res.found),
{
}

}
