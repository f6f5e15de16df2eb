//! How far a search may go, and what is tried when that was not far enough.

use crate::engine::outcome::{better_of, Engine, EngineChoice, SearchOutcome, SearchResult, SearchStatus};
use crate::text::{parse_u32, same, trim};
use vstd::prelude::*;
#[allow(unused_imports)]
use crate::engine::outcome::better;
#[allow(unused_imports)]
use crate::text::{trimmed, unsigned_value};

verus! {

/// The least budget of a first attempt.
pub const LEAST_POPS: u32 = 1_500_000;

/// What a setting says of a budget: nothing, that there is no limit, or a limit.
#[derive(Debug, Clone, Copy, PartialEq, Eq, Structural)]
pub enum BudgetSetting {
    Unset,
    Unlimited,
    Limit(u32),
}

/// The setting that a text spells: a number, where 0 lifts the limit.
pub open spec fn setting_of(text: Option<Seq<char>>) -> BudgetSetting {
    match text {
        None => BudgetSetting::Unset,
        Some(t) => match unsigned_value(trimmed(t)) {
            Some(n) => if n > u32::MAX {
                BudgetSetting::Unset
            } else if n == 0 {
                BudgetSetting::Unlimited
            } else {
                BudgetSetting::Limit(n as u32)
            },
            None => BudgetSetting::Unset,
        },
    }
}

/// What holds an optional text.
pub open spec fn text_view(s: Option<&str>) -> Option<Seq<char>> {
    match s {
        Some(t) => Some(t@),
        None => None,
    }
}

pub fn budget_env(value: Option<&str>) -> (r: BudgetSetting)
    ensures
        r == setting_of(text_view(value)),
{
    match value {
        None => BudgetSetting::Unset,
        Some(t) => match parse_u32(trim(t)) {
            Some(n) => if n == 0 {
                BudgetSetting::Unlimited
            } else {
                BudgetSetting::Limit(n)
            },
            None => BudgetSetting::Unset,
        },
    }
}

/// Whether the text, without white space around it, is `a` or `b`.
pub open spec fn says(text: Option<Seq<char>>, a: Seq<char>, b: Seq<char>) -> bool {
    text is Some && (trimmed(text->0) == a || trimmed(text->0) == b)
}

/// Whether the setting turns something off: `0` or `false`.
pub fn switched_off(value: Option<&str>) -> (r: bool)
    ensures
        r == says(text_view(value), "0"@, "false"@),
{
    match value {
        None => false,
        Some(t) => same(trim(t), "0") || same(trim(t), "false"),
    }
}

/// Whether the setting turns something on: `1` or `true`.
pub fn switched_on(value: Option<&str>) -> (r: bool)
    ensures
        r == says(text_view(value), "1"@, "true"@),
{
    match value {
        None => false,
        Some(t) => same(trim(t), "1") || same(trim(t), "true"),
    }
}

/// The budget of a first attempt, if it has a limit: what the setting says, else half the nodes
/// of the snapshot, but no less than [`LEAST_POPS`].
pub open spec fn first_budget(setting: BudgetSetting, nodes: nat) -> Option<u32> {
    match setting {
        BudgetSetting::Limit(n) => Some(n),
        BudgetSetting::Unlimited => None,
        BudgetSetting::Unset => {
            let half = nodes / 2;
            Some(
                if half >= u32::MAX {
                    u32::MAX
                } else if half > LEAST_POPS {
                    half as u32
                } else {
                    LEAST_POPS
                },
            )
        },
    }
}

pub fn default_max_pops(setting: BudgetSetting, nodes: usize) -> (r: Option<u32>)
    ensures
        r == first_budget(setting, nodes as nat),
{
    match setting {
        BudgetSetting::Limit(n) => Some(n),
        BudgetSetting::Unlimited => None,
        BudgetSetting::Unset => {
            let half: usize = nodes / 2;
            let capped: u32 = if half >= u32::MAX as usize { u32::MAX } else { half as u32 };
            Some(if capped > LEAST_POPS { capped } else { LEAST_POPS })
        },
    }
}

/// The settings of the two budgets.
#[derive(Debug, Clone, Copy, PartialEq, Eq, Structural)]
pub struct Budgets {
    pub first: BudgetSetting,
    pub retry: BudgetSetting,
}

/// The budget of a retry: what the setting says, else four times the first. Without one there
/// is no retry.
pub open spec fn retry_budget(b: Budgets, nodes: nat) -> Option<u32> {
    match b.retry {
        BudgetSetting::Limit(n) => Some(n),
        BudgetSetting::Unlimited => None,
        BudgetSetting::Unset => match first_budget(b.first, nodes) {
            Some(p) => Some(if 4 * p > u32::MAX { u32::MAX } else { (4 * p) as u32 }),
            None => None,
        },
    }
}

pub fn retry_max_pops(b: Budgets, nodes: usize) -> (r: Option<u32>)
    ensures
        r == retry_budget(b, nodes as nat),
{
    match b.retry {
        BudgetSetting::Limit(n) => Some(n),
        BudgetSetting::Unlimited => None,
        BudgetSetting::Unset => match default_max_pops(b.first, nodes) {
            Some(p) => Some(if p > u32::MAX / 4 { u32::MAX } else { 4 * p }),
            None => None,
        },
    }
}

/// The budget with which a search that gave up is tried again, if it is. It is not where the
/// request is dead, where there is no retry, or where a search without a seed would go no
/// further than it did.
pub open spec fn retry_pops(
    status: SearchStatus,
    seed: Option<u64>,
    cancelled: bool,
    b: Budgets,
    nodes: nat,
) -> Option<u32> {
    let first = match first_budget(b.first, nodes) {
        Some(p) => p,
        None => u32::MAX,
    };
    if status != SearchStatus::BudgetExceeded || cancelled {
        None
    } else {
        match retry_budget(b, nodes) {
            Some(p) => if seed is None && p <= first { None } else { Some(p) },
            None => None,
        }
    }
}

pub fn budget_retry_pops(res: &SearchResult, seed: Option<u64>, cancelled: bool, b: Budgets, nodes: usize) -> (r: Option<u32>)
    ensures
        r == retry_pops(res.status, seed, cancelled, b, nodes as nat),
{
    if res.status != SearchStatus::BudgetExceeded || cancelled {
        return None;
    }
    match retry_max_pops(b, nodes) {
        None => None,
        Some(p) => {
            let first: u32 = match default_max_pops(b.first, nodes) {
                Some(f) => f,
                None => u32::MAX,
            };
            if seed.is_none() && p <= first {
                None
            } else {
                Some(p)
            }
        },
    }
}

/// How far up the ladder of attempts a request is.
#[derive(Debug, Clone)]
pub enum Rung {
    /// The first attempt runs.
    First,
    /// The first attempt is being continued with a larger budget.
    Second { first: SearchResult, pops: u32 },
    /// A search without the seed runs; `best` is the better of the two attempts before.
    Third { best: SearchResult, pops: u32, attempts: [u32; 3] },
}

/// What comes after an attempt.
#[derive(Debug, Clone)]
pub enum Ladder {
    /// Serve this.
    Serve(SearchOutcome),
    /// Search again: with this seed and budget, going on from where the last one stopped or
    /// anew.
    Search { rung: Rung, seed: Option<u64>, max_pops: u32, resume: bool },
}

/// What does not change from attempt to attempt.
#[derive(Debug, Clone, Copy, PartialEq, Eq, Structural)]
pub struct LadderInput {
    pub seed: Option<u64>,
    pub nodes: usize,
    pub budgets: Budgets,
    pub engine: Engine,
}

/// The pops of a continued search that are new.
pub open spec fn new_pops(first: u32, second: u32) -> u32 {
    if second >= first { (second - first) as u32 } else { 0 }
}

/// Whether the fallback without a seed is served: where it is proven, or is a path and none was
/// found before or only a dearer one.
pub open spec fn fallback_wins(best: SearchResult, third: SearchResult) -> bool {
    third.status == SearchStatus::Found || (third.found && (!best.found || third.cost.lt(best.cost)))
}

/// Whether `next` is what follows when the attempt of this rung ended with `res`.
pub open spec fn ladder_goes_on(rung: Rung, res: SearchResult, input: LadderInput, cancelled: bool, next: Ladder) -> bool {
    match rung {
        Rung::First => match retry_pops(res.status, input.seed, cancelled, input.budgets, input.nodes as nat) {
            None => next is Serve && {
                let o = next->0;
                &&& o.res == res
                &&& !o.retried
                &&& !o.seed_dropped
                &&& o.engine == input.engine
                &&& o.attempts_pops@ == seq![res.pops, 0, 0]
            },
            Some(p) => next == (Ladder::Search {
                rung: Rung::Second { first: res, pops: p },
                seed: input.seed,
                max_pops: p,
                resume: true,
            }),
        },
        Rung::Second { first, pops } => if input.seed is None || res.status == SearchStatus::Found || cancelled {
            next is Serve && {
                let o = next->0;
                &&& o.res == better(first, res)
                &&& o.retried
                &&& !o.seed_dropped
                &&& o.engine == input.engine
                &&& o.attempts_pops@ == seq![first.pops, new_pops(first.pops, res.pops), 0]
            }
        } else {
            next is Search && next->seed is None && next->max_pops == pops && !next->resume && match next->rung {
                Rung::Third { best, pops: p, attempts } => {
                    &&& best == better(first, res)
                    &&& p == pops
                    &&& attempts@ == seq![first.pops, new_pops(first.pops, res.pops), 0]
                },
                _ => false,
            }
        },
        Rung::Third { best, pops, attempts } => next is Serve && {
            let o = next->0;
            &&& o.res == if fallback_wins(best, res) {
                res
            } else if best.found {
                best
            } else {
                better(best, res)
            }
            &&& o.retried
            &&& o.seed_dropped == fallback_wins(best, res)
            &&& o.engine == input.engine
            &&& o.attempts_pops@ == seq![attempts@[0], attempts@[1], res.pops]
        },
    }
}

/// What follows when the attempt of this rung ended with `res`. A first attempt that ran out of
/// its budget is continued with a larger one; if that gives up too, a request with a seed is
/// searched once more without it.
pub fn retry_ladder(rung: Rung, res: SearchResult, input: &LadderInput, cancelled: bool) -> (next: Ladder)
    ensures
        ladder_goes_on(rung, res, *input, cancelled, next),
{
    match rung {
        Rung::First => match budget_retry_pops(&res, input.seed, cancelled, input.budgets, input.nodes) {
            None => {
                let attempts_pops: [u32; 3] = [res.pops, 0, 0];
                assert(attempts_pops@ =~= seq![res.pops, 0, 0]);
                Ladder::Serve(
                    SearchOutcome { res, retried: false, attempts_pops, seed_dropped: false, engine: input.engine },
                )
            },
            Some(p) => Ladder::Search {
                rung: Rung::Second { first: res, pops: p },
                seed: input.seed,
                max_pops: p,
                resume: true,
            },
        },
        Rung::Second { first, pops } => {
            let extra: u32 = if res.pops >= first.pops { res.pops - first.pops } else { 0 };
            let attempts: [u32; 3] = [first.pops, extra, 0];
            assert(attempts@ =~= seq![first.pops, new_pops(first.pops, res.pops), 0]);
            let proven: bool = res.status == SearchStatus::Found;
            let best: SearchResult = better_of(first, res);
            if input.seed.is_none() || proven || cancelled {
                Ladder::Serve(
                    SearchOutcome {
                        res: best,
                        retried: true,
                        attempts_pops: attempts,
                        seed_dropped: false,
                        engine: input.engine,
                    },
                )
            } else {
                Ladder::Search { rung: Rung::Third { best, pops, attempts }, seed: None, max_pops: pops, resume: false }
            }
        },
        Rung::Third { best, pops: _, attempts } => {
            let attempts_pops: [u32; 3] = [attempts[0], attempts[1], res.pops];
            assert(attempts_pops@ =~= seq![attempts@[0], attempts@[1], res.pops]);
            let wins: bool = res.status == SearchStatus::Found || (res.found && (!best.found || res.cost.less(&best.cost)));
            let served: SearchResult = if wins {
                res
            } else if best.found {
                best
            } else {
                better_of(best, res)
            };
            Ladder::Serve(
                SearchOutcome { res: served, retried: true, attempts_pops, seed_dropped: wins, engine: input.engine },
            )
        },
    }
}

/// How many more attempts may follow.
pub open spec fn attempts_left(rung: Rung) -> nat {
    match rung {
        Rung::First => 2,
        Rung::Second { .. } => 1,
        Rung::Third { .. } => 0,
    }
}

/// The ladder ends: each further attempt leaves fewer to come, so that a request is searched
/// three times at most.
pub proof fn law_ladder_ends(rung: Rung, res: SearchResult, input: LadderInput, cancelled: bool, next: Ladder)
    requires
        ladder_goes_on(rung, res, input, cancelled, next),
        next is Search,
    ensures
        attempts_left(next->rung) < attempts_left(rung),
{
}

/// A request that is called off is not searched again.
pub proof fn law_cancelled_is_served(rung: Rung, res: SearchResult, input: LadderInput, next: Ladder)
    requires
        ladder_goes_on(rung, res, input, true, next),
    ensures
        next is Serve,
{
}

/// A path that an attempt found is never lost: what is served has one too.
pub proof fn law_ladder_keeps_a_path(rung: Rung, res: SearchResult, input: LadderInput, cancelled: bool, next: Ladder)
    requires
        ladder_goes_on(rung, res, input, cancelled, next),
        res.status == SearchStatus::Found ==> res.found,
        res.found || match rung {
            Rung::First => false,
            Rung::Second { first, .. } => first.found,
            Rung::Third { best, .. } => best.found,
        },
    ensures
        match next {
            Ladder::Serve(o) => o.res.found,
            Ladder::Search { rung: r, .. } => match r {
                Rung::First => false,
                Rung::Second { first, .. } => first.found,
                Rung::Third { best, .. } => best.found,
            },
        },
{
}

/// The seed is only given up for a request that has one.
pub proof fn law_only_a_seed_is_dropped(first: SearchResult, second: SearchResult, input: LadderInput, c1: bool, c2: bool, n1: Ladder, n2: Ladder)
    requires
        ladder_goes_on(Rung::First, first, input, c1, n1),
        n1 is Search ==> ladder_goes_on(n1->rung, second, input, c2, n2),
        input.seed is None,
    ensures
        n1 is Serve || n2 is Serve,
        n1 is Serve ==> !n1->0.seed_dropped,
        n1 is Search ==> !n2->0.seed_dropped,
{
}

/// Whether a route may run on both sides at once: where that is not switched off, the reversed
/// edges are there, the one-sided engine was not asked for, and the bound from the goal is not
/// too weak.
pub fn bidir_allowed(enabled: bool, reversed: bool, choice: EngineChoice, weak_backward: bool) -> (r: bool)
    ensures
        r == (enabled && reversed && choice != EngineChoice::Uni && (choice == EngineChoice::Bidir || !weak_backward)),
{
    enabled && reversed && choice != EngineChoice::Uni && (choice == EngineChoice::Bidir || !weak_backward)
}

/// The engine that a search runs on.
pub fn engine_of(bidir: bool, jps: bool, canonical: bool) -> (r: Engine)
    ensures
        r == if bidir {
            Engine::Bidir
        } else if jps && canonical {
            Engine::Jps
        } else {
            Engine::Uni
        },
{
    if bidir {
        Engine::Bidir
    } else if jps && canonical {
        Engine::Jps
    } else {
        Engine::Uni
    }
}

/// The node at which a route without a start enters the map.
pub fn entry_of(outcome: &SearchOutcome) -> (r: Option<u32>)
    ensures
        r == if outcome.res.found && outcome.res.path@.len() > 0 {
            Some(outcome.res.path@[0])
        } else {
            None
        },
{
    if outcome.res.found && outcome.res.path.len() > 0 {
        Some(outcome.res.path[0])
    } else {
        None
    }
}

/// The first budget is what was set; where nothing was, half of the nodes, but no less than a million and
/// a half and no more than 32 bits can tell.
pub proof fn law_first_budget(nodes: nat, n: u32)
    ensures
        first_budget(BudgetSetting::Limit(n), nodes) == Some(n),
        first_budget(BudgetSetting::Unlimited, nodes) is None,
        first_budget(BudgetSetting::Unset, nodes) is Some,
        first_budget(BudgetSetting::Unset, nodes)->0 >= 1_500_000,
        3_000_000 <= nodes && nodes / 2 <= u32::MAX ==> first_budget(BudgetSetting::Unset, nodes)->0 == nodes / 2,
        nodes <= 3_000_000 ==> first_budget(BudgetSetting::Unset, nodes)->0 == 1_500_000,
        nodes / 2 > u32::MAX ==> first_budget(BudgetSetting::Unset, nodes)->0 == u32::MAX,
{
}

/// The second budget is what was set; where nothing was, four times the first, as far as 32 bits can
/// tell, and none where the first is none.
pub proof fn law_second_budget(b: Budgets, nodes: nat, n: u32)
    ensures
        b.retry == BudgetSetting::Limit(n) ==> retry_budget(b, nodes) == Some(n),
        b.retry == BudgetSetting::Unlimited ==> retry_budget(b, nodes) is None,
        b.retry == BudgetSetting::Unset && first_budget(b.first, nodes) is None ==> retry_budget(b, nodes) is None,
        b.retry == BudgetSetting::Unset && first_budget(b.first, nodes) == Some(n) ==> retry_budget(b, nodes) is Some && (if 4 * n
            <= u32::MAX {
            retry_budget(b, nodes)->0 == 4 * n
        } else {
            retry_budget(b, nodes)->0 == u32::MAX
        }),
{
}

/// A search is tried again exactly where it ran out of its budget, was not called off, and there is a
/// second budget, which without a seed has to be larger than the first.
pub proof fn law_retries_need_a_larger_budget(status: SearchStatus, seed: Option<u64>, cancelled: bool, b: Budgets, nodes: nat)
    ensures
        retry_pops(status, seed, cancelled, b, nodes) is Some <==> status == SearchStatus::BudgetExceeded && !cancelled
            && retry_budget(b, nodes) is Some && (seed is Some || retry_budget(b, nodes)->0 > (match first_budget(
            b.first,
            nodes,
        ) {
            Some(p) => p,
            None => u32::MAX,
        })),
        retry_pops(status, seed, cancelled, b, nodes) is Some ==> retry_pops(status, seed, cancelled, b, nodes) == retry_budget(
            b,
            nodes,
        ),
{
}

/// A setting is read as a number: 0 lifts the budget, another sets it, and what is no number of 32 bits
/// sets nothing.
pub proof fn law_budget_settings(text: Seq<char>, n: u32)
    ensures
        setting_of(None) == BudgetSetting::Unset,
        unsigned_value(trimmed(text)) is None ==> setting_of(Some(text)) == BudgetSetting::Unset,
        unsigned_value(trimmed(text)) == Some(0nat) ==> setting_of(Some(text)) == BudgetSetting::Unlimited,
        n > 0 && unsigned_value(trimmed(text)) == Some(n as nat) ==> setting_of(Some(text)) == BudgetSetting::Limit(n),
{
}

/// A result that holds of the route ends the ladder at once and is served as it is.
pub proof fn law_proven_results_are_served(rung: Rung, res: SearchResult, input: LadderInput, cancelled: bool, next: Ladder)
    requires
        ladder_goes_on(rung, res, input, cancelled, next),
        res.status == SearchStatus::Found,
    ensures
        next is Serve,
        next->0.res == res,
        next->0.seed_dropped == (rung is Third),
        next->0.retried == !(rung is First),
{
}

/// What is served is a result of one of the attempts; the seed counts as dropped exactly where what is
/// served comes from the attempt without it and wins over those before.
pub proof fn law_served_results_come_from_attempts(
    rung: Rung,
    res: SearchResult,
    input: LadderInput,
    cancelled: bool,
    next: Ladder,
)
    requires
        ladder_goes_on(rung, res, input, cancelled, next),
        next is Serve,
    ensures
        next->0.res == res || (match rung {
            Rung::First => false,
            Rung::Second { first, .. } => next->0.res == first,
            Rung::Third { best, .. } => next->0.res == best,
        }),
        next->0.seed_dropped ==> rung is Third && next->0.res == res,
        rung matches Rung::Third { best, .. } ==> (best.found && !(res.status == SearchStatus::Found) && !(res.found
            && res.cost.lt(best.cost)) ==> next->0.res == best && !next->0.seed_dropped),
{
}

/// An attempt that follows searches on with the seed and what was found before, or, after a second one
/// that gave up, without the seed and from the start, with the same budget.
pub proof fn law_attempts_follow_one_another(rung: Rung, res: SearchResult, input: LadderInput, cancelled: bool, next: Ladder)
    requires
        ladder_goes_on(rung, res, input, cancelled, next),
        next is Search,
    ensures
        !cancelled && res.status != SearchStatus::Found,
        rung is First ==> next->seed == input.seed && next->resume && res.status == SearchStatus::BudgetExceeded && Some(
            next->max_pops,
        ) == retry_budget(input.budgets, input.nodes as nat) && (next->rung matches Rung::Second { first, .. } && first == res),
        rung is Second ==> input.seed is Some && next->seed is None && !next->resume && (rung matches Rung::Second {
            pops,
            ..
        } && pops == next->max_pops),
        !(rung is Third),
{
}

}
