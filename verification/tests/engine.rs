use navpath::engine::budget::{
    bidir_allowed, budget_env, budget_retry_pops, default_max_pops, engine_of, entry_of, retry_ladder, retry_max_pops,
    switched_off, switched_on, BudgetSetting, Budgets, Ladder, LadderInput, Rung,
};
use navpath::engine::eligibility::{
    build_mask_from_u32, decode_opbits, encode_opbits, fnv1a32, ClientEntry, ClientValue, EligibilityMask, Op,
};
use navpath::engine::fx_map::{pair_number, FxIndex};
use navpath::engine::millis::Millis;
use navpath::engine::outcome::{better_of, not_found_result, stable, Engine, EngineChoice, SearchOutcome, SearchResult, SearchStatus};
use navpath::engine::reach::{goal_reachable, ComponentGraph, ProfileReach};
use navpath::engine::run::{begin_run, continue_run, Run, RunInput};
use navpath::engine::weight::Weight;

fn w(f: f32) -> Weight {
    Weight { bits: f.to_bits() }
}

fn f(w: Weight) -> f32 {
    f32::from_bits(w.bits)
}

fn res(found: bool, status: SearchStatus, cost: f32) -> SearchResult {
    SearchResult {
        found,
        status,
        path: if found { vec![0, 1] } else { Vec::new() },
        path_g: if found { vec![w(0.0), w(cost)] } else { Vec::new() },
        cost: w(cost),
        pops: 0,
        pops_f: 0,
        pops_b: 0,
    }
}

fn mask_of(bits: &[bool]) -> EligibilityMask {
    EligibilityMask { satisfied: bits.to_vec() }
}

fn num(key: &str, n: i64) -> ClientEntry {
    ClientEntry { key: key.to_string(), value: ClientValue::Num(n) }
}

fn text(key: &str, s: &str) -> ClientEntry {
    ClientEntry { key: key.to_string(), value: ClientValue::Str(s.to_string()) }
}

#[test]
fn numeric_vs_string_satisfied() {
    let tags: Vec<[u32; 4]> = vec![
        [1, fnv1a32("coins"), encode_opbits(Op::Ge, true), 100i32 as u32],
        [2, fnv1a32("varbit_38"), encode_opbits(Op::Eq, true), 1i32 as u32],
        [3, fnv1a32("quest_state"), encode_opbits(Op::Eq, false), fnv1a32("done")],
    ];
    let mut words = Vec::<u32>::new();
    for t in &tags {
        words.extend_from_slice(t);
    }
    let mask =
        build_mask_from_u32(&words, &vec![num("coins", 150), num("varbit_38", 1), text("quest_state", "done")]);
    assert_eq!(mask.len(), 3);
    assert!(mask.is_satisfied(0));
    assert!(mask.is_satisfied(1));
    assert!(mask.is_satisfied(2));
}

#[test]
fn unsatisfied_mixed_types_and_ops() {
    let tags: Vec<[u32; 4]> = vec![
        [10, fnv1a32("membership"), encode_opbits(Op::Ne, false), fnv1a32("ironman")],
        [11, fnv1a32("level"), encode_opbits(Op::Gt, true), 50i32 as u32],
        [12, fnv1a32("skill"), encode_opbits(Op::Le, true), 20i32 as u32],
    ];
    let mut words = Vec::<u32>::new();
    for t in &tags {
        words.extend_from_slice(t);
    }
    let mask = build_mask_from_u32(&words, &vec![text("membership", "ironman"), num("level", 49), text("skill", "20")]);
    assert_eq!(mask.satisfied, vec![false, false, false]);
}

#[test]
fn operators_come_back_and_hashes_are_fnv() {
    for op in [Op::Eq, Op::Ne, Op::Lt, Op::Le, Op::Gt, Op::Ge] {
        for numeric in [false, true] {
            assert_eq!(decode_opbits(encode_opbits(op, numeric)), Some((op, numeric)));
        }
    }
    assert_eq!(decode_opbits(7), None);
    assert_eq!(fnv1a32(""), 0x811c9dc5);
    assert_eq!(fnv1a32("a"), 0xe40c292c);
    assert_eq!(fnv1a32("foobar"), 0xbf9cf968);
    assert!(!mask_of(&[true]).is_satisfied(1));
    assert!(mask_of(&[true, false]).satisfies_all(&vec![0]));
    assert!(!mask_of(&[true, false]).satisfies_all(&vec![0, 1]));
}

#[test]
fn goal_reachable_macro_chain_and_gating() {
    let cg = ComponentGraph {
        components: 3,
        macro_edges: vec![(0, 1, vec![0]), (1, 2, vec![1])],
        fairy: vec![],
        globals: vec![],
    };
    assert!(goal_reachable(&cg, &mask_of(&[true, true]), Some(0), 2));
    assert!(!goal_reachable(&cg, &mask_of(&[true, false]), Some(0), 2));
    assert!(goal_reachable(&cg, &mask_of(&[true, false]), Some(0), 1));
    assert!(goal_reachable(&cg, &mask_of(&[false, false]), Some(2), 2));
    assert!(!goal_reachable(&cg, &mask_of(&[true, true]), Some(2), 0));
}

#[test]
fn goal_reachable_fairy_clique_and_globals() {
    let cg = ComponentGraph {
        components: 4,
        macro_edges: vec![],
        fairy: vec![(1, vec![]), (3, vec![0])],
        globals: vec![(1, vec![])],
    };
    assert!(goal_reachable(&cg, &mask_of(&[true]), None, 3));
    assert!(!goal_reachable(&cg, &mask_of(&[false]), None, 3));
    assert!(goal_reachable(&cg, &mask_of(&[false]), None, 1));
    let cg2 = ComponentGraph { components: 2, macro_edges: vec![], fairy: vec![], globals: vec![(1, vec![0])] };
    assert!(!goal_reachable(&cg2, &mask_of(&[false]), None, 1));
}

/// Filtering on every request, and sweeps until nothing changes.
fn goal_reachable_reference(cg: &ComponentGraph, mask: &EligibilityMask, start_comp: Option<u16>, goal_comp: u16) -> bool {
    let n = cg.components.max(goal_comp as usize + 1);
    let mut reached = vec![false; n];
    if let Some(sc) = start_comp {
        if (sc as usize) < n {
            reached[sc as usize] = true;
        }
    }
    for (c, reqs) in &cg.globals {
        if reqs.iter().all(|&i| mask.is_satisfied(i)) {
            reached[*c as usize] = true;
        }
    }
    let edges: Vec<(u16, u16)> = cg
        .macro_edges
        .iter()
        .filter(|(_, _, reqs)| reqs.iter().all(|&i| mask.is_satisfied(i)))
        .map(|e| (e.0, e.1))
        .collect();
    let ring_comps: Vec<u16> = cg
        .fairy
        .iter()
        .filter(|(_, reqs)| reqs.iter().all(|&i| mask.is_satisfied(i)))
        .map(|e| e.0)
        .collect();
    let mut fairy_joined = false;
    loop {
        if reached[goal_comp as usize] {
            return true;
        }
        let mut changed = false;
        for &(s, d) in &edges {
            if reached[s as usize] && !reached[d as usize] {
                reached[d as usize] = true;
                changed = true;
            }
        }
        if !fairy_joined && ring_comps.iter().any(|&c| reached[c as usize]) {
            for &c in &ring_comps {
                if !reached[c as usize] {
                    reached[c as usize] = true;
                    changed = true;
                }
            }
            fairy_joined = true;
        }
        if !changed {
            return reached[goal_comp as usize];
        }
    }
}

#[test]
fn profile_reach_matches_the_fixpoint_precheck() {
    let mut state: u64 = 0x5EED_1234_ABCD_0001;
    let mut next = |m: u64| -> u64 {
        state = state.wrapping_mul(6364136223846793005).wrapping_add(1442695040888963407);
        (state >> 33) % m
    };
    for round in 0..300 {
        let comps = 2 + next(if round % 10 == 0 { 1100 } else { 60 }) as usize;
        let tags = 1 + next(6) as usize;
        let reqs = |next: &mut dyn FnMut(u64) -> u64| -> Vec<usize> {
            (0..next(3)).map(|_| if next(10) == 0 { usize::MAX } else { next(tags as u64) as usize }).collect()
        };
        let macro_edges = (0..next(3 * comps as u64))
            .map(|_| (next(comps as u64) as u16, next(comps as u64) as u16, reqs(&mut next)))
            .collect();
        let fairy = (0..next(5)).map(|_| (next(comps as u64) as u16, reqs(&mut next))).collect();
        let globals = (0..next(4)).map(|_| (next(comps as u64) as u16, reqs(&mut next))).collect();
        let cg = ComponentGraph { components: comps, macro_edges, fairy, globals };
        for _ in 0..8 {
            let mask = mask_of(&(0..tags).map(|_| next(3) != 0).collect::<Vec<_>>());
            let reach = ProfileReach::build(&cg, &mask);
            for _ in 0..8 {
                let start = if next(5) == 0 { None } else { Some(next(comps as u64) as u16) };
                let goal = if next(20) == 0 { comps as u16 + next(3) as u16 } else { next(comps as u64) as u16 };
                assert_eq!(
                    reach.reachable(start, goal),
                    goal_reachable_reference(&cg, &mask, start, goal),
                    "round {round} start {start:?} goal {goal}"
                );
            }
        }
    }
}

#[test]
fn a_proven_result_wins() {
    let r = better_of(res(true, SearchStatus::Found, 10.0), res(true, SearchStatus::BudgetExceeded, 8.0));
    assert_eq!((r.status, f(r.cost)), (SearchStatus::Found, 10.0));
    let r = better_of(res(true, SearchStatus::Found, 10.0), res(true, SearchStatus::Found, 12.0));
    assert_eq!((r.status, f(r.cost)), (SearchStatus::Found, 12.0));
}

#[test]
fn better_of_prefers_proven_then_found_then_cheaper() {
    let r = better_of(res(true, SearchStatus::BudgetExceeded, 10.0), res(true, SearchStatus::Found, 3.0));
    assert_eq!(r.status, SearchStatus::Found);
    assert!((f(r.cost) - 3.0).abs() < 1e-6);
    let r = better_of(
        res(true, SearchStatus::BudgetExceeded, 10.0),
        res(false, SearchStatus::BudgetExceeded, f32::INFINITY),
    );
    assert!(r.found);
    assert!((f(r.cost) - 10.0).abs() < 1e-6);
    let r = better_of(res(true, SearchStatus::BudgetExceeded, 10.0), res(true, SearchStatus::BudgetExceeded, 8.0));
    assert!((f(r.cost) - 8.0).abs() < 1e-6);
    let r = better_of(
        res(false, SearchStatus::BudgetExceeded, f32::INFINITY),
        res(false, SearchStatus::NotFound, f32::INFINITY),
    );
    assert_eq!(r.status, SearchStatus::NotFound);
}

fn ms(f: f64) -> Millis {
    Millis { bits: f.to_bits() }
}

/// Whether the time holds the number; what is no number holds any that is none.
fn holds(m: Millis, f: f64) -> bool {
    m.bits == f.to_bits() || (f.is_nan() && f64::from_bits(m.bits).is_nan())
}

#[test]
fn times_add_and_compare_as_binary64() {
    let mut samples: Vec<f64> = vec![
        0.0,
        -0.0,
        1.0,
        -1.0,
        0.1,
        0.2,
        600.0,
        20400.0,
        1e-9,
        1e300,
        f64::MIN_POSITIVE,
        5e-324,
        -5e-324,
        f64::MAX,
        f64::MIN,
        f64::INFINITY,
        f64::NEG_INFINITY,
        f64::NAN,
        9007199254740991.0,
        9007199254740992.0,
        1.0 + f64::EPSILON,
        1.0 - f64::EPSILON / 2.0,
        9.9e-17,
    ];
    let mut state: u64 = 0x9e37_79b9_7f4a_7c15;
    for k in 0..300u64 {
        state = state.wrapping_mul(6364136223846793005).wrapping_add(1442695040888963407);
        let near = 0x3ff0_0000_0000_0000 + ((k % 70) << 52);
        samples.push(f64::from_bits(if k % 3 == 0 { state } else { near ^ (state >> 12) }));
    }
    for &a in &samples {
        for &b in &samples {
            let c = ms(a).sum(&ms(b));
            assert!(holds(c, a + b), "{a:e} + {b:e} gave {:e}, not {:e}", f64::from_bits(c.bits), a + b);
            assert_eq!(ms(a).at_most(&ms(b)), a <= b, "{a:e} <= {b:e}");
        }
    }
}

#[test]
fn weights_and_whole_numbers_become_times_exactly() {
    let mut samples = vec![0.0f32, -0.0, 0.1, -2400.5, f32::MIN_POSITIVE, 1e-45, f32::MAX, f32::INFINITY, f32::NEG_INFINITY, f32::NAN];
    let mut state: u32 = 12345;
    for _ in 0..1000 {
        state = state.wrapping_mul(1664525).wrapping_add(1013904223);
        samples.push(f32::from_bits(state));
    }
    for f in samples {
        assert!(holds(Millis::from_weight(&w(f)), f as f64), "{f:e}");
    }
    for n in [0u32, 1, 300, 424, 600, 20400, u32::MAX] {
        assert_eq!(Millis::from_unsigned(n as u64), ms(n as f64));
    }
}

#[test]
fn times_narrow_to_the_nearest_weight() {
    let mut samples: Vec<f64> = vec![
        0.0,
        -0.0,
        0.1,
        -2400.5,
        16777217.0,
        16777219.0,
        1e-40,
        7e-46,
        7.1e-46,
        1e-46,
        5e-324,
        f32::MAX as f64,
        3.4028235677973366e38,
        3.4028235677973362e38,
        1e300,
        f64::MAX,
        f64::INFINITY,
        f64::NEG_INFINITY,
        f64::NAN,
    ];
    let mut state: u64 = 77;
    for k in 0..3000u64 {
        state = state.wrapping_mul(6364136223846793005).wrapping_add(1442695040888963407);
        let near = 0x3690_0000_0000_0000 + ((k % 300) << 52);
        samples.push(f64::from_bits(if k % 2 == 0 { state } else { near ^ (state >> 12) }));
    }
    for x in samples {
        let narrow = ms(x).to_weight();
        assert!(narrow.bits == (x as f32).to_bits() || (x.is_nan() && f(narrow).is_nan()), "{x:e}");
    }
    for n in [0i64, 1, -1, 250, i64::MAX, i64::MIN, 9007199254740993, -9007199254740993, 9007199254740995] {
        assert_eq!(Millis::from_signed(n), ms(n as f64), "{n}");
    }
    for n in [0u64, 9007199254740993, u64::MAX, 1 << 63] {
        assert_eq!(Millis::from_unsigned(n), ms(n as f64), "{n}");
    }
}

#[test]
fn weights_add_as_binary32() {
    let mut samples: Vec<f32> = vec![
        0.0,
        -0.0,
        1.0,
        -1.0,
        0.1,
        300.0,
        424.264,
        16777216.0,
        1e-45,
        -1e-45,
        f32::MIN_POSITIVE,
        f32::MAX,
        f32::MIN,
        f32::INFINITY,
        f32::NEG_INFINITY,
        f32::NAN,
    ];
    let mut state: u32 = 99;
    for k in 0..300u32 {
        state = state.wrapping_mul(1664525).wrapping_add(1013904223);
        let near = 0x3f80_0000 + ((k % 40) << 23);
        samples.push(f32::from_bits(if k % 3 == 0 { state } else { near ^ (state >> 9) }));
    }
    let holds = |w: Weight, x: f32| w.bits == x.to_bits() || (x.is_nan() && f(w).is_nan());
    for &a in &samples {
        for &b in &samples {
            assert!(holds(w(a).sum(&w(b)), a + b), "{a:e} + {b:e}");
            assert!(holds(w(a).difference(&w(b)), a - b), "{a:e} - {b:e}");
        }
    }
}

#[test]
fn weights_compare_as_the_numbers_they_hold() {
    let samples = [0.0f32, -0.0, 1.0, -1.0, 0.1, 600.0, 2400.5, f32::MIN_POSITIVE, f32::MAX, f32::INFINITY, f32::NEG_INFINITY, f32::NAN];
    for a in samples {
        for b in samples {
            assert_eq!(w(a).less(&w(b)), a < b, "{a} < {b}");
        }
        assert_eq!(w(a).finite(), a.is_finite());
        assert_eq!(w(a).not_a_number(), a.is_nan());
    }
    assert_eq!(w(600.0).to_ticks(), 600 << 30);
    assert_eq!(w(0.5).to_ticks(), 1 << 29);
    assert_eq!(w(-2.25).to_ticks(), -(9 << 28));
    for exact in [0.0078125f32, 0.1, 424.26407, 1e9] {
        assert_eq!(w(exact).to_ticks(), (exact as f64 * 1073741824.0) as i64);
    }
    assert_eq!(w(f32::NAN).to_ticks(), 0);
    assert_eq!(w(f32::INFINITY).to_ticks(), i64::MAX);
    assert_eq!(f(Weight::infinite()), f32::INFINITY);
}

#[test]
fn nothing_found_costs_infinitely_much() {
    let r = not_found_result();
    assert!(!r.found);
    assert_eq!(r.status, SearchStatus::NotFound);
    assert_eq!(f(r.cost), f32::INFINITY);
    assert!(r.path.is_empty());
}

#[test]
fn settings_of_budgets() {
    assert_eq!(budget_env(None), BudgetSetting::Unset);
    assert_eq!(budget_env(Some(" 12 ")), BudgetSetting::Limit(12));
    assert_eq!(budget_env(Some("0")), BudgetSetting::Unlimited);
    assert_eq!(budget_env(Some("many")), BudgetSetting::Unset);
    assert!(switched_on(Some(" true ")) && switched_on(Some("1")));
    assert!(!switched_on(Some("yes")) && !switched_on(None));
    assert!(switched_off(Some("0")) && switched_off(Some("false")));
    assert!(!switched_off(Some("off")) && !switched_off(None));
    assert_eq!(default_max_pops(BudgetSetting::Unlimited, 10), None);
    assert_eq!(default_max_pops(BudgetSetting::Limit(7), 10), Some(7));
    assert_eq!(default_max_pops(BudgetSetting::Unset, 10), Some(1_500_000));
    assert_eq!(default_max_pops(BudgetSetting::Unset, 4_000_000), Some(2_000_000));
}

fn limits(first: u32, retry: u32) -> Budgets {
    Budgets { first: BudgetSetting::Limit(first), retry: BudgetSetting::Limit(retry) }
}

fn with_pops(mut r: SearchResult, pops: u32) -> SearchResult {
    r.pops = pops;
    r
}

fn gave_up(pops: u32) -> SearchResult {
    with_pops(res(false, SearchStatus::BudgetExceeded, f32::INFINITY), pops)
}

fn ladder(seed: Option<u64>) -> LadderInput {
    LadderInput { seed, nodes: 100, budgets: limits(10, 40), engine: Engine::Bidir }
}

#[test]
fn retries_need_a_search_that_gave_up() {
    assert_eq!(retry_max_pops(limits(10, 40), 100), Some(40));
    assert_eq!(budget_retry_pops(&gave_up(10), None, false, limits(10, 40), 100), Some(40));
    assert_eq!(budget_retry_pops(&gave_up(10), None, true, limits(10, 40), 100), None);
    assert_eq!(budget_retry_pops(&gave_up(10), None, false, limits(40, 40), 100), None);
    assert_eq!(budget_retry_pops(&gave_up(10), Some(1), false, limits(40, 40), 100), Some(40));
    assert_eq!(budget_retry_pops(&res(true, SearchStatus::Found, 1.0), None, false, limits(10, 40), 100), None);
}

#[test]
fn the_ladder_continues_and_then_drops_the_seed() {
    let input = ladder(Some(5));
    let next = retry_ladder(Rung::First, gave_up(10), &input, false);
    let Ladder::Search { rung, seed, max_pops, resume } = next else { panic!("a retry") };
    assert_eq!((seed, max_pops, resume), (Some(5), 40, true));
    let next = retry_ladder(rung, gave_up(45), &input, false);
    let Ladder::Search { rung, seed, max_pops, resume } = next else { panic!("a fallback") };
    assert_eq!((seed, max_pops, resume), (None, 40, false));
    let next = retry_ladder(rung, with_pops(res(true, SearchStatus::Found, 9.0), 21), &input, false);
    let Ladder::Serve(o) = next else { panic!("an outcome") };
    assert!(o.res.found && o.retried && o.seed_dropped);
    assert_eq!(o.attempts_pops, [10, 35, 21]);
    assert_eq!(o.engine.as_str(), "bidir");
}

#[test]
fn the_ladder_serves_without_a_seed_or_when_called_off() {
    let input = ladder(None);
    let Ladder::Search { rung, .. } = retry_ladder(Rung::First, gave_up(10), &input, false) else { panic!("a retry") };
    let Ladder::Serve(o) = retry_ladder(rung, gave_up(40), &input, false) else { panic!("an outcome") };
    assert!(o.retried && !o.seed_dropped && !o.res.found);
    let input = ladder(Some(1));
    let Ladder::Serve(o) = retry_ladder(Rung::First, gave_up(10), &input, true) else { panic!("an outcome") };
    assert!(!o.retried);
    let first = with_pops(res(true, SearchStatus::BudgetExceeded, 50.0), 10);
    let Ladder::Search { rung, .. } = retry_ladder(Rung::First, first, &input, false) else { panic!("a retry") };
    let Ladder::Search { rung, .. } = retry_ladder(rung, gave_up(40), &input, false) else { panic!("a fallback") };
    let Ladder::Serve(o) = retry_ladder(rung, gave_up(40), &input, false) else { panic!("an outcome") };
    assert!(o.res.found && !o.seed_dropped);
    assert_eq!(f(o.res.cost), 50.0);
}

#[test]
fn engines_and_entries() {
    assert!(bidir_allowed(true, true, EngineChoice::Policy, false));
    assert!(!bidir_allowed(true, true, EngineChoice::Policy, true));
    assert!(bidir_allowed(true, true, EngineChoice::Bidir, true));
    assert!(!bidir_allowed(true, true, EngineChoice::Uni, false));
    assert!(!bidir_allowed(false, true, EngineChoice::Bidir, false));
    assert_eq!(engine_of(true, true, true), Engine::Bidir);
    assert_eq!(engine_of(false, true, true), Engine::Jps);
    assert_eq!(engine_of(false, true, false), Engine::Uni);
    let o = |r: SearchResult| SearchOutcome {
        res: r,
        retried: false,
        attempts_pops: [0, 0, 0],
        seed_dropped: false,
        engine: Engine::Uni,
    };
    assert_eq!(entry_of(&o(res(true, SearchStatus::Found, 1.0))), Some(0));
    assert_eq!(entry_of(&o(gave_up(1))), None);
    assert!(stable(&o(res(true, SearchStatus::Found, 1.0))));
    assert!(!stable(&o(gave_up(1))));
}

#[test]
fn runs_without_start_or_teleport_find_nothing() {
    let input = RunInput { start: None, goal: 3, entries: 0, ladder: ladder(Some(1)) };
    let Run::Done { outcome, entry } = begin_run(&input) else { panic!("nothing to search") };
    assert!(!outcome.res.found && outcome.engine == Engine::Uni && entry.is_none());
    assert_eq!(outcome.attempts_pops, [0, 0, 0]);
}

#[test]
fn runs_enter_where_their_paths_begin() {
    let input = RunInput { start: None, goal: 3, entries: 2, ladder: ladder(None) };
    let Run::Search { rung, from, to, max_pops, resume, .. } = begin_run(&input) else { panic!("a search") };
    assert_eq!((from, to, max_pops, resume), (None, 3, Some(10), false));
    let mut found = res(true, SearchStatus::Found, 4.0);
    found.path = vec![8, 3];
    let Run::Done { outcome, entry } = continue_run(rung, found, &input, false) else { panic!("an outcome") };
    assert!(outcome.res.found);
    assert_eq!(entry, Some(8));
    let input = RunInput { start: Some(8), ..input };
    let Run::Search { rung, from, .. } = begin_run(&input) else { panic!("a search") };
    assert_eq!(from, Some(8));
    let Run::Search { rung, max_pops, resume, .. } = continue_run(rung, gave_up(10), &input, false) else { panic!("a retry") };
    assert_eq!((max_pops, resume), (Some(40), true));
    let Run::Done { entry, .. } = continue_run(rung, res(true, SearchStatus::Found, 4.0), &input, false) else {
        panic!("an outcome")
    };
    assert_eq!(entry, None);
}

#[test]
fn positions_are_found_by_pairs() {
    let mut index = FxIndex::new();
    index.insert(pair_number(1, 2), 10);
    index.insert(pair_number(2, 1), 20);
    assert_eq!(index.get(pair_number(1, 2)), Some(10));
    assert_eq!(index.get(pair_number(2, 1)), Some(20));
    assert_eq!(index.get(pair_number(1, 1)), None);
    index.insert(pair_number(1, 2), 30);
    assert_eq!(index.get(pair_number(1, 2)), Some(30));
    assert_eq!(pair_number(u32::MAX, 7), 0xFFFF_FFFF_0000_0007);
}
