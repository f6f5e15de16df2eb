//! Two engines on one request. The first answer that holds of the route is served.

use crate::engine::outcome::{stable, Engine, EngineChoice, SearchOutcome};
use crate::engine::weight::{Weight, INFINITE};
use crate::service::metrics::Counter;
use crate::text::{same, trim};
use vstd::prelude::*;
#[allow(unused_imports)]
use crate::engine::outcome::is_stable;
#[allow(unused_imports)]
use crate::engine::budget::text_view;
#[allow(unused_imports)]
use crate::text::trimmed;

verus! {

/// Routes with a bound of 20 seconds are worth a second engine.
pub const BIDIR_POLICY_MIN_H_MS: u32 = 0x469c_4000;

/// What the bounds of a search say of a route.
#[derive(Debug, Clone, Copy, PartialEq, Eq, Structural)]
pub struct RaceHint {
    /// The bound from the start; infinite without one.
    pub h_start: Weight,
    /// The least bound through a global teleport; infinite where there is none.
    pub h_teleport: Weight,
    /// Whether the bound says nothing where the search begins.
    pub blind: bool,
}

/// What the cheapest of the ends costs; without end where there is none.
pub open spec fn least_cost(ends: Seq<(u32, Weight)>) -> Weight
    decreases ends.len(),
{
    if ends.len() == 0 {
        Weight { bits: INFINITE }
    } else {
        let c = least_cost(ends.drop_last());
        if ends.last().1.lt(c) { ends.last().1 } else { c }
    }
}

impl RaceHint {
    /// What is known where there are no landmarks: that from a start nothing less than nothing is left,
    /// and what the cheapest global teleport costs.
    pub fn without_landmarks(has_start: bool, globals: &Vec<(u32, Weight)>) -> (r: RaceHint)
        ensures
            r == (RaceHint {
                h_start: Weight { bits: if has_start { 0 } else { INFINITE } },
                h_teleport: least_cost(globals@),
                blind: true,
            }),
    {
        let mut least: Weight = Weight::infinite();
        let mut i: usize = 0;
        while i < globals.len()
            invariant
                i <= globals@.len(),
                least == least_cost(globals@.take(i as int)),
            decreases globals@.len() - i,
        {
            assert(globals@.take(i + 1).drop_last() =~= globals@.take(i as int));
            if globals[i].1.less(&least) {
                least = globals[i].1;
            }
            i += 1;
        }
        assert(globals@.take(i as int) =~= globals@);
        RaceHint { h_start: Weight { bits: if has_start { 0 } else { INFINITE } }, h_teleport: least, blind: true }
    }

    /// Whether a teleport promises more than the start.
    pub open spec fn by_teleport(self) -> bool {
        self.h_teleport.lt(self.h_start)
    }

    pub open spec fn worth(self, uni_primary: bool) -> bool {
        if uni_primary {
            self.blind
        } else {
            self.by_teleport() || (!self.h_start.is_nan() && self.h_start.rank() >= BIDIR_POLICY_MIN_H_MS)
        }
    }

    pub fn teleport_dominated(&self) -> (r: bool)
        ensures
            r == self.by_teleport(),
    {
        self.h_teleport.less(&self.h_start)
    }

    /// Whether a second engine may win: after the one-sided one only where the bound says
    /// nothing, after the two-sided one where a teleport dominates or the route is long.
    pub fn worth_racing(&self, uni_primary: bool) -> (r: bool)
        ensures
            r == self.worth(uni_primary),
    {
        if uni_primary {
            self.blind
        } else {
            self.teleport_dominated() || (!self.h_start.not_a_number() && self.h_start.rank_of()
                >= BIDIR_POLICY_MIN_H_MS as i64)
        }
    }
}

/// Which engine of a race starts first.
#[derive(Debug, Clone, Copy, PartialEq, Eq, Structural)]
pub enum RacePrimary {
    Auto,
    Uni,
    Bidir,
}

impl RacePrimary {
    pub open spec fn label(self) -> Seq<char> {
        match self {
            RacePrimary::Auto => "auto"@,
            RacePrimary::Uni => "uni"@,
            RacePrimary::Bidir => "bidir"@,
        }
    }

    pub fn as_str(self) -> (r: &'static str)
        ensures
            r@ == self.label(),
    {
        match self {
            RacePrimary::Auto => "auto",
            RacePrimary::Uni => "uni",
            RacePrimary::Bidir => "bidir",
        }
    }
}

/// The engine that a setting names to start first.
pub open spec fn primary_named(setting: Option<Seq<char>>) -> RacePrimary {
    match setting {
        Some(t) => if trimmed(t) == "uni"@ || trimmed(t) == "jps"@ {
            RacePrimary::Uni
        } else if trimmed(t) == "bidir"@ {
            RacePrimary::Bidir
        } else {
            RacePrimary::Auto
        },
        None => RacePrimary::Auto,
    }
}

pub fn race_primary(setting: Option<&str>) -> (r: RacePrimary)
    ensures
        r == primary_named(text_view(setting)),
{
    match setting {
        Some(t) => if same(trim(t), "uni") || same(trim(t), "jps") {
            RacePrimary::Uni
        } else if same(trim(t), "bidir") {
            RacePrimary::Bidir
        } else {
            RacePrimary::Auto
        },
        None => RacePrimary::Auto,
    }
}

/// Whether the one-sided engine starts first: as the setting says, else where it can jump.
pub fn primary_is_uni(primary: RacePrimary, seed: Option<u64>, canonical_loaded: bool, jps: bool) -> (r: bool)
    ensures
        r == match primary {
            RacePrimary::Uni => true,
            RacePrimary::Bidir => false,
            RacePrimary::Auto => seed is None && canonical_loaded && jps,
        },
{
    match primary {
        RacePrimary::Uni => true,
        RacePrimary::Bidir => false,
        RacePrimary::Auto => seed.is_none() && canonical_loaded && jps,
    }
}

/// How a search runs.
#[derive(Debug, Clone, Copy, PartialEq, Eq, Structural)]
pub struct SearchPlan {
    /// Whether both engines may run.
    pub race: bool,
    /// The engine that starts, or the only one.
    pub primary: EngineChoice,
    /// The engine that may start later.
    pub hedge: EngineChoice,
    /// Whether a race was possible but is not worth it.
    pub gated: bool,
}

/// How a search runs: with two engines where a race is possible and either every route is raced
/// or this one is worth it; else with the engine that would start first, or as the policy says
/// where no race is possible.
pub open spec fn plan_of(possible: bool, gate: bool, uni_primary: bool, worth: bool) -> SearchPlan {
    SearchPlan {
        race: possible && (!gate || worth),
        primary: if !possible {
            EngineChoice::Policy
        } else if uni_primary {
            EngineChoice::Uni
        } else {
            EngineChoice::Bidir
        },
        hedge: if uni_primary { EngineChoice::Bidir } else { EngineChoice::Uni },
        gated: possible && gate && !worth,
    }
}

pub fn plan_search(possible: bool, gate: bool, uni_primary: bool, hint: &RaceHint) -> (r: SearchPlan)
    ensures
        r == plan_of(possible, gate, uni_primary, hint.worth(uni_primary)),
{
    let worth: bool = hint.worth_racing(uni_primary);
    SearchPlan {
        race: possible && (!gate || worth),
        primary: if !possible {
            EngineChoice::Policy
        } else if uni_primary {
            EngineChoice::Uni
        } else {
            EngineChoice::Bidir
        },
        hedge: if uni_primary {
            EngineChoice::Bidir
        } else {
            EngineChoice::Uni
        },
        gated: possible && gate && !worth,
    }
}

/// What an engine reports.
#[derive(Debug)]
pub struct Report {
    pub outcome: SearchOutcome,
    pub virtual_entry: Option<u32>,
    pub search_us: u64,
}

/// How a race stands.
#[derive(Debug)]
pub enum Hedge {
    /// The second engine is due later.
    Due,
    /// It runs.
    Running,
    /// It was not given a permit.
    Denied,
}

#[derive(Debug)]
pub struct Race {
    pub hedge: Hedge,
    /// Whether an answer has claimed the request.
    pub claimed: bool,
    /// The best answer that does not hold of the route itself.
    pub truncated: Option<Report>,
    /// The engines that still run.
    pub running: u8,
}

/// What happens in a race.
#[derive(Debug)]
pub enum RaceEvent {
    /// The time for the second engine has come; whether it got a permit.
    HedgeDue { permit: bool },
    /// An engine has ended.
    Ended(Report),
    /// An engine has died without an answer.
    Died,
}

/// What follows.
#[derive(Debug)]
pub enum RaceAction {
    /// Wait.
    Wait,
    /// Start the second engine, and wait.
    StartHedge,
    /// Ask for a permit for the second engine at once.
    AskPermit,
    /// Call the other engine off and serve this answer.
    Serve { report: Report, counter: Option<Counter> },
    /// Every engine is done: serve the best that there is.
    ServeTruncated(Report),
    /// Every engine is done and none has answered.
    Fail,
}

/// Whether a later answer that does not hold of the route is better than an earlier one.
pub open spec fn replaces(new: SearchOutcome, kept: SearchOutcome) -> bool {
    is_stable(new.res.status) || (new.res.found && (!kept.res.found || new.res.cost.lt(kept.res.cost)))
}

fn is_better(new: &SearchOutcome, kept: &SearchOutcome) -> (r: bool)
    ensures
        r == replaces(*new, *kept),
{
    stable(new) || (new.res.found && (!kept.res.found || new.res.cost.less(&kept.res.cost)))
}

/// The counter of a win: none where no second engine ran and none was due.
pub open spec fn win_counter(hedge: Hedge, engine: Engine) -> Option<Counter> {
    match hedge {
        Hedge::Running => Some(
            if engine == Engine::Bidir {
                Counter::RaceWinsBidir
            } else {
                Counter::RaceWinsUni
            },
        ),
        Hedge::Due => Some(Counter::RaceHedgeSkipped),
        Hedge::Denied => None,
    }
}

/// What is kept of two answers.
pub open spec fn kept_of(kept: Option<Report>, new: Report) -> Report {
    match kept {
        None => new,
        Some(k) => if replaces(new.outcome, k.outcome) { new } else { k },
    }
}

impl Race {
    /// A race in which the first engine runs.
    pub fn begin() -> (r: Race)
        ensures
            r.hedge is Due,
            !r.claimed,
            r.truncated is None,
            r.running == 1,
    {
        Race { hedge: Hedge::Due, claimed: false, truncated: None, running: 1 }
    }

    /// Whether the parts fit: one or two engines run until all have ended.
    pub open spec fn wf(self) -> bool {
        self.running <= 2 && (self.running == 2 ==> self.hedge is Running)
    }

    /// Whether `r` follows from the event, with the race as it stands then.
    pub open spec fn follows(self, event: RaceEvent, after: Race, r: RaceAction) -> bool {
        match event {
            RaceEvent::HedgeDue { permit } => if self.hedge is Due {
                &&& after.claimed == self.claimed
                &&& if permit {
                    after.hedge is Running && after.running == self.running + 1 && after.truncated == self.truncated
                        && r is StartHedge
                } else {
                    after.hedge is Denied && after.running == self.running && if self.running > 0 {
                        after.truncated == self.truncated && r is Wait
                    } else {
                        after.truncated is None && match self.truncated {
                            Some(t) => r == RaceAction::ServeTruncated(t),
                            None => r is Fail,
                        }
                    }
                }
            } else {
                after == self && r is Wait
            },
            RaceEvent::Ended(report) => if is_stable(report.outcome.res.status) && !self.claimed {
                &&& after.claimed
                &&& after.hedge == self.hedge
                &&& after.running == self.running - 1
                &&& after.truncated == self.truncated
                &&& r == (RaceAction::Serve { counter: win_counter(self.hedge, report.outcome.engine), report })
            } else {
                &&& after.claimed == self.claimed
                &&& after.hedge == self.hedge
                &&& after.running == self.running - 1
                &&& if self.hedge is Due {
                    after.truncated == Some(kept_of(self.truncated, report)) && r is AskPermit
                } else if self.running > 1 {
                    after.truncated == Some(kept_of(self.truncated, report)) && r is Wait
                } else {
                    after.truncated is None && r == RaceAction::ServeTruncated(kept_of(self.truncated, report))
                }
            },
            RaceEvent::Died => {
                &&& after.claimed == self.claimed
                &&& after.hedge == self.hedge
                &&& after.running == self.running - 1
                &&& if self.running > 1 || self.hedge is Due {
                    after.truncated == self.truncated && r is Wait
                } else {
                    after.truncated is None && match self.truncated {
                        Some(t) => r == RaceAction::ServeTruncated(t),
                        None => r is Fail,
                    }
                }
            },
        }
    }

    /// What follows from an event. The first answer that holds of the route is served; where no
    /// engine has one, the best of the others. An engine that gives up while the second is still
    /// due brings the second forward.
    pub fn step(&mut self, event: RaceEvent) -> (r: RaceAction)
        requires
            old(self).wf(),
            event is HedgeDue || old(self).running > 0,
        ensures
            final(self).wf(),
            old(self).follows(event, *final(self), r),
    {
        match event {
            RaceEvent::HedgeDue { permit } => {
                match self.hedge {
                    Hedge::Due => {},
                    _ => {
                        return RaceAction::Wait;
                    },
                }
                if permit {
                    self.hedge = Hedge::Running;
                    self.running = self.running + 1;
                    return RaceAction::StartHedge;
                }
                self.hedge = Hedge::Denied;
                if self.running > 0 {
                    return RaceAction::Wait;
                }
                let mut kept: Option<Report> = None;
                std::mem::swap(&mut kept, &mut self.truncated);
                self.serve_kept(kept)
            },
            RaceEvent::Ended(report) => {
                if stable(&report.outcome) && !self.claimed {
                    self.claimed = true;
                    self.running = self.running - 1;
                    let bidir: bool = report.outcome.engine == Engine::Bidir;
                    let counter: Option<Counter> = match self.hedge {
                        Hedge::Running => Some(
                            if bidir {
                                Counter::RaceWinsBidir
                            } else {
                                Counter::RaceWinsUni
                            },
                        ),
                        Hedge::Due => Some(Counter::RaceHedgeSkipped),
                        Hedge::Denied => None,
                    };
                    return RaceAction::Serve { report, counter };
                }
                self.running = self.running - 1;
                let mut kept: Option<Report> = None;
                std::mem::swap(&mut kept, &mut self.truncated);
                let best: Report = match kept {
                    None => report,
                    Some(k) => if is_better(&report.outcome, &k.outcome) {
                        report
                    } else {
                        k
                    },
                };
                match self.hedge {
                    Hedge::Due => {
                        self.truncated = Some(best);
                        RaceAction::AskPermit
                    },
                    _ => if self.running > 0 {
                        self.truncated = Some(best);
                        RaceAction::Wait
                    } else {
                        RaceAction::ServeTruncated(best)
                    },
                }
            },
            RaceEvent::Died => {
                self.running = self.running - 1;
                let due: bool = match self.hedge {
                    Hedge::Due => true,
                    _ => false,
                };
                if self.running > 0 || due {
                    return RaceAction::Wait;
                }
                let mut kept: Option<Report> = None;
                std::mem::swap(&mut kept, &mut self.truncated);
                self.serve_kept(kept)
            },
        }
    }

    fn serve_kept(&self, kept: Option<Report>) -> (r: RaceAction)
        ensures
            match kept {
                Some(t) => r == RaceAction::ServeTruncated(t),
                None => r is Fail,
            },
    {
        match kept {
            Some(t) => RaceAction::ServeTruncated(t),
            None => RaceAction::Fail,
        }
    }
}

/// An answer that holds of the route is served at once, unless one was served before; an answer
/// that does not is never served while an engine still runs or is due.
pub proof fn law_first_stable_answer_wins(before: Race, event: RaceEvent, after: Race, r: RaceAction)
    requires
        before.wf(),
        before.follows(event, after, r),
    ensures
        event is Ended && is_stable(event->Ended_0.outcome.res.status) && !before.claimed ==> r is Serve && r->report
            == event->Ended_0,
        r is Serve ==> is_stable(r->report.outcome.res.status) && !before.claimed && after.claimed,
        r is ServeTruncated ==> after.running == 0 && !(after.hedge is Due),
{
}

/// The second engine starts only where it is due and a permit is there, once; and where it is not
/// granted the race goes on without it.
pub proof fn law_second_engine_needs_a_permit(before: Race, event: RaceEvent, after: Race, r: RaceAction)
    requires
        before.wf(),
        before.follows(event, after, r),
    ensures
        r is StartHedge ==> before.hedge is Due && after.hedge is Running && event == (RaceEvent::HedgeDue { permit: true })
            && after.running == before.running + 1,
        event == (RaceEvent::HedgeDue { permit: true }) && before.hedge is Due ==> r is StartHedge,
        event == (RaceEvent::HedgeDue { permit: false }) && before.hedge is Due && before.running > 0 ==> r is Wait && after.hedge
            is Denied,
        before.hedge is Running ==> after.hedge is Running,
{
}

/// Of two answers that do not hold of the route the better is kept: one with a path rather than one
/// without, and of two paths the cheaper; and what is kept is served in the end.
pub proof fn law_better_truncated_answer_is_kept(before: Race, report: Report, after: Race, r: RaceAction)
    requires
        before.wf(),
        before.follows(RaceEvent::Ended(report), after, r),
        !is_stable(report.outcome.res.status),
    ensures
        !(r is Serve) && !(r is Fail),
        ({
            let kept = if r is ServeTruncated { r->ServeTruncated_0 } else { after.truncated->0 };
            &&& r is ServeTruncated || after.truncated is Some
            &&& before.truncated is None ==> kept == report
            &&& before.truncated is Some ==> kept == report || kept == before.truncated->0
            &&& report.outcome.res.found ==> kept.outcome.res.found
            &&& before.truncated is Some && before.truncated->0.outcome.res.found ==> kept.outcome.res.found
            &&& before.truncated is Some && before.truncated->0.outcome.res.found && report.outcome.res.found
                ==> !report.outcome.res.cost.lt(kept.outcome.res.cost) && (kept == report && kept != before.truncated->0
                ==> report.outcome.res.cost.lt(before.truncated->0.outcome.res.cost))
        }),
        r is AskPermit ==> before.hedge is Due,
{
}

/// A race fails only where every engine has died without an answer.
pub proof fn law_races_fail_without_answers(before: Race, event: RaceEvent, after: Race, r: RaceAction)
    requires
        before.wf(),
        before.follows(event, after, r),
        r is Fail,
    ensures
        before.truncated is None && after.running == 0,
        !(event is Ended),
{
}

/// A search is raced only where that is possible and, where races are held back, only where the second
/// engine may win. The first engine is the one that is set first, and the second the other.
pub proof fn law_plans(possible: bool, gate: bool, uni_primary: bool, worth: bool)
    ensures
        ({
            let p = plan_of(possible, gate, uni_primary, worth);
            &&& p.race <==> possible && (!gate || worth)
            &&& p.gated <==> possible && gate && !worth
            &&& !(p.race && p.gated)
            &&& possible ==> (p.race || p.gated)
            &&& possible && uni_primary ==> p.primary == EngineChoice::Uni && p.hedge == EngineChoice::Bidir
            &&& possible && !uni_primary ==> p.primary == EngineChoice::Bidir && p.hedge == EngineChoice::Uni
            &&& !possible ==> p.primary == EngineChoice::Policy
        }),
{
}

/// A second engine may win after the one-sided one where the bound says nothing; after the two-sided one
/// where a teleport promises more than the start, or the route is at least 20000 ms long.
pub proof fn law_second_engines_may_win(h: RaceHint)
    ensures
        h.worth(true) <==> h.blind,
        h.h_teleport.lt(h.h_start) ==> h.worth(false),
        !h.h_start.is_nan() && h.h_start.rank() >= 0x469c_4000 ==> h.worth(false),
        h.worth(false) ==> h.h_teleport.lt(h.h_start) || h.h_start.rank() >= 0x469c_4000,
{
}

/// What the cheapest teleport costs: none costs less, and where there is one it is one of them.
pub proof fn law_cheapest_teleport(ends: Seq<(u32, Weight)>)
    ensures
        forall|i: int| 0 <= i < ends.len() ==> !(#[trigger] ends[i]).1.lt(least_cost(ends)),
        least_cost(ends) == (Weight { bits: INFINITE }) || exists|i: int|
            0 <= i < ends.len() && (#[trigger] ends[i]).1 == least_cost(ends),
        !least_cost(ends).is_nan(),
    decreases ends.len(),
{
    if ends.len() > 0 {
        let short = ends.drop_last();
        law_cheapest_teleport(short);
        assert forall|i: int| 0 <= i < ends.len() implies !(#[trigger] ends[i]).1.lt(least_cost(ends)) by {
            if i < short.len() {
                assert(!short[i].1.lt(least_cost(short)));
            }
        }
        if least_cost(ends) == ends.last().1 {
            assert(ends[ends.len() - 1].1 == least_cost(ends));
        } else if least_cost(short) != (Weight { bits: INFINITE }) {
            let i = choose|i: int| 0 <= i < short.len() && (#[trigger] short[i]).1 == least_cost(short);
            assert(ends[i].1 == least_cost(ends));
        }
    }
}

}
