//! What holds of the surges and dives that are told of a route: how long each is waited for, how far
//! they carry, which way they go, and that none is left out.

use vstd::prelude::*;
#[allow(unused_imports)]
use crate::engine::millis::Millis;
#[allow(unused_imports)]
use crate::models::Tile;
#[allow(unused_imports)]
use crate::route::abilities::{
    accounted, after_dive, after_surge, begin, dive_tiles, faces, first_ready, in_reach, lemma_run, lemma_turn, limit,
    run_len, stand, surge_fits, surge_tiles, tell, told_truly, toward, turn, walks_toward, Gear, Step, Telling, Told,
};
#[allow(unused_imports)]
use vstd::set_lib::{lemma_int_range, lemma_len_subset, set_int_range};

verus! {

/// The time at which what was told is done: the kept steps take their time one after the other, and an
/// ability takes none.
pub open spec fn time_after(steps: Seq<Step>, told: Seq<Told>) -> Millis
    decreases told.len(),
{
    if told.len() == 0 {
        Millis { bits: 0 }
    } else {
        match told.last() {
            Told::Keep(j) => time_after(steps, told.drop_last()).plus(steps[j as int].cost),
            Told::Ability { .. } => time_after(steps, told.drop_last()),
        }
    }
}

pub open spec fn is_dive(t: Told) -> bool {
    t matches Told::Ability { surge, .. } && !surge
}

pub open spec fn is_surge(t: Told) -> bool {
    t matches Told::Ability { surge, .. } && surge
}

/// When the dive is ready after what was told: a cooldown after the last dive, or when it is first
/// available.
pub open spec fn dive_ready(steps: Seq<Step>, gear: Gear, told: Seq<Told>) -> Millis
    decreases told.len(),
{
    if told.len() == 0 {
        gear.dive.available_in
    } else if is_dive(told.last()) {
        time_after(steps, told.drop_last()).plus(gear.dive.cooldown)
    } else {
        dive_ready(steps, gear, told.drop_last())
    }
}

/// When charge `c` is ready after what was told, where `by` says which charge each surge has used: a
/// cooldown after it was used last, or at once.
pub open spec fn charge_ready(steps: Seq<Step>, gear: Gear, told: Seq<Told>, by: Seq<int>, c: int) -> Millis
    decreases told.len(),
{
    if told.len() == 0 {
        Millis { bits: 0 }
    } else if is_surge(told.last()) && by[told.len() - 1] == c {
        time_after(steps, told.drop_last()).plus(gear.surge.cooldown)
    } else {
        charge_ready(steps, gear, told.drop_last(), by, c)
    }
}

/// Where the character stands before step `i`.
pub open spec fn here(steps: Seq<Step>, origin: Option<Tile>, i: int) -> Tile {
    if i > 0 {
        steps[i - 1].to
    } else if origin is Some {
        origin->0
    } else {
        steps[0].to
    }
}

/// Whether the `n` steps from `i` on are walked.
pub open spec fn are_walked(steps: Seq<Step>, i: int, n: int) -> bool {
    0 <= i && i + n <= steps.len() && forall|k: int| i <= k < i + n ==> (#[trigger] steps[k]).walk
}

/// The square of how far a tile lies from another.
pub open spec fn far_squared(a: Tile, b: Tile) -> int {
    (b.x - a.x) * (b.x - a.x) + (b.y - a.y) * (b.y - a.y)
}

/// Whether a dive can cover the `n` steps from `i` on: two to ten walked tiles, on one plane, that carry
/// at most ten and a half tiles far.
pub open spec fn can_dive(steps: Seq<Step>, origin: Option<Tile>, i: int, n: int) -> bool {
    let (a, b) = (here(steps, origin, i), steps[i + n - 1].to);
    2 <= n <= 10 && are_walked(steps, i, n) && a.plane == b.plane && 4 * far_squared(a, b) <= 441
}

/// Whether a surge can cover the `n` steps from `i` on: five to ten walked tiles, on one plane, that
/// lead somewhere, carry at most ten and a half tiles far, and at least as far as there are tiles but
/// two.
pub open spec fn can_surge(steps: Seq<Step>, origin: Option<Tile>, i: int, n: int) -> bool {
    let (a, b) = (here(steps, origin, i), steps[i + n - 1].to);
    &&& 5 <= n <= 10 && are_walked(steps, i, n)
    &&& a.plane == b.plane && 4 * far_squared(a, b) <= 441 && (n - 2) * (n - 2) <= far_squared(a, b)
    &&& a.x != b.x || a.y != b.y
}

pub open spec fn sgn(n: int) -> int {
    if n > 0 {
        1
    } else if n < 0 {
        -1
    } else {
        0
    }
}

/// Whether the way from `a` to `b` has the direction of the way from `c` to `d`.
pub open spec fn same_way(a: Tile, b: Tile, c: Tile, d: Tile) -> bool {
    sgn(b.x - a.x) == sgn(d.x - c.x) && sgn(b.y - a.y) == sgn(d.y - c.y)
}

/// Whether what was told is a walked step in the direction of the way from `a` to `b`.
pub open spec fn walks_like(steps: Seq<Step>, origin: Option<Tile>, t: Told, a: Tile, b: Tile) -> bool {
    t matches Told::Keep(j) && j < steps.len() && steps[j as int].walk && (j > 0 || origin is Some) && same_way(
        here(steps, origin, j as int),
        steps[j as int].to,
        a,
        b,
    )
}

/// Whether the character faces the way from `a` to `b` after what was told: it walked the last three
/// steps in that direction.
pub open spec fn is_faced(steps: Seq<Step>, origin: Option<Tile>, told: Seq<Told>, a: Tile, b: Tile) -> bool {
    told.len() >= 3 && walks_like(steps, origin, told[told.len() - 1], a, b) && walks_like(
        steps,
        origin,
        told[told.len() - 2],
        a,
        b,
    ) && walks_like(steps, origin, told[told.len() - 3], a, b)
}

/// Whether the character has just dived in the direction of the way from `a` to `b`.
pub open spec fn is_dived(told: Seq<Told>, a: Tile, b: Tile) -> bool {
    told.len() > 0 && is_dive(told.last()) && (told.last() matches Told::Ability { from, to, .. } && same_way(from, to, a, b))
}

/// Whether a charge is ready.
pub open spec fn has_charge(steps: Seq<Step>, gear: Gear, past: Seq<Told>, by: Seq<int>, c: int) -> bool {
    0 <= c < gear.surge.charges && charge_ready(steps, gear, past, by, c).le(time_after(steps, past))
}

/// Whether no surge is left out that could go on in the direction of the dive that was told last.
pub open spec fn is_followed_up(steps: Seq<Step>, gear: Gear, past: Seq<Told>, by: Seq<int>) -> bool {
    let i = accounted(past) as int;
    forall|d: int, n: int|
        #![trigger has_charge(steps, gear, past, by, d), can_surge(steps, gear.origin, i, n)]
        gear.surge.enabled && has_charge(steps, gear, past, by, d) && can_surge(steps, gear.origin, i, n) && (forall|m: int|
            #[trigger] can_surge(steps, gear.origin, i, m) ==> m <= n) ==> !is_dived(
            past,
            here(steps, gear.origin, i),
            steps[i + n - 1].to,
        )
}

/// Whether `t` may be told after `past`, with `c` for the charge that a surge uses.
pub open spec fn is_due(steps: Seq<Step>, gear: Gear, past: Seq<Told>, by: Seq<int>, t: Told, c: int) -> bool {
    let i = accounted(past) as int;
    match t {
        Told::Ability { surge, from, to, tiles } => if surge {
            // A ready charge, the most tiles, and the character faces that way.
            &&& gear.surge.enabled
            &&& has_charge(steps, gear, past, by, c)
            &&& can_surge(steps, gear.origin, i, tiles as int)
            &&& forall|n: int| #[trigger] can_surge(steps, gear.origin, i, n) ==> n <= tiles
            &&& from == here(steps, gear.origin, i) && to == steps[i + tiles - 1].to
            &&& is_dived(past, from, to) || is_faced(steps, gear.origin, past, from, to)
        } else {
            // A ready dive and the most tiles, and no surge that could have followed a dive before it.
            &&& is_followed_up(steps, gear, past, by)
            &&& gear.dive.enabled
            &&& dive_ready(steps, gear, past).le(time_after(steps, past))
            &&& can_dive(steps, gear.origin, i, tiles as int)
            &&& forall|n: int| #[trigger] can_dive(steps, gear.origin, i, n) ==> n <= tiles
            &&& from == here(steps, gear.origin, i) && to == steps[i + tiles - 1].to
        },
        Told::Keep(j) => {
            &&& j == i
            &&& i < steps.len()
            &&& is_followed_up(steps, gear, past, by)
            // No dive was ready that could have covered the step.
            &&& gear.dive.enabled && dive_ready(steps, gear, past).le(time_after(steps, past)) ==> forall|n: int|
                !#[trigger] can_dive(steps, gear.origin, i, n)
            // No surge was ready that could have covered the step and that the character faced.
            &&& forall|d: int, n: int|
                #![trigger has_charge(steps, gear, past, by, d), can_surge(steps, gear.origin, i, n)]
                gear.surge.enabled && has_charge(steps, gear, past, by, d) && can_surge(steps, gear.origin, i, n) && (forall|
                    m: int,
                | #[trigger]
                    can_surge(steps, gear.origin, i, m) ==> m <= n) ==> !is_faced(
                    steps,
                    gear.origin,
                    past,
                    here(steps, gear.origin, i),
                    steps[i + n - 1].to,
                )
        },
    }
}

/// Whether everything that was told was due when it was told.
pub open spec fn all_due(steps: Seq<Step>, gear: Gear, told: Seq<Told>, by: Seq<int>) -> bool {
    by.len() == told.len() && forall|k: int|
        0 <= k < told.len() ==> is_due(steps, gear, told.take(k), by.take(k), #[trigger] told[k], by[k])
}

// ---- the tiles that an ability covers ----

proof fn lemma_walked(steps: Seq<Step>, i: int, n: int)
    requires
        0 <= i <= steps.len(),
        n >= 0,
    ensures
        are_walked(steps, i, n) <==> n <= run_len(steps, i),
    decreases n,
{
    lemma_run(steps, i);
    if n > 0 {
        if are_walked(steps, i, n) {
            assert(steps[i].walk);
            assert(are_walked(steps, i + 1, n - 1));
            lemma_walked(steps, i + 1, n - 1);
        }
    }
}

proof fn lemma_dive_most(steps: Seq<Step>, origin: Option<Tile>, i: int, n: int)
    requires
        0 <= i < steps.len(),
        0 <= n <= limit(steps, i),
    ensures
        dive_tiles(steps, origin, i, n) > 0 ==> can_dive(steps, origin, i, dive_tiles(steps, origin, i, n) as int),
        forall|m: int| m <= n && #[trigger] can_dive(steps, origin, i, m) ==> m <= dive_tiles(steps, origin, i, n),
        dive_tiles(steps, origin, i, n) <= n,
    decreases n,
{
    if n >= 2 {
        lemma_walked(steps, i, n);
        if !in_reach(stand(steps, origin, i), steps[i + n - 1].to) {
            lemma_dive_most(steps, origin, i, n - 1);
        }
    }
}

proof fn lemma_longest_dive(steps: Seq<Step>, origin: Option<Tile>, i: int)
    requires
        0 <= i < steps.len(),
    ensures
        ({
            let n = dive_tiles(steps, origin, i, limit(steps, i)) as int;
            &&& n > 0 ==> can_dive(steps, origin, i, n)
            &&& forall|m: int| #[trigger] can_dive(steps, origin, i, m) ==> m <= n
        }),
{
    lemma_dive_most(steps, origin, i, limit(steps, i));
    assert forall|m: int| #[trigger] can_dive(steps, origin, i, m) implies m <= dive_tiles(
        steps,
        origin,
        i,
        limit(steps, i),
    ) by {
        lemma_walked(steps, i, m);
    }
}

proof fn lemma_way(a: Tile, b: Tile, c: Tile, d: Tile)
    ensures
        toward(a, b) is Some <==> a.x != b.x || a.y != b.y,
        toward(a, b) is Some ==> (toward(a, b) == toward(c, d) <==> same_way(a, b, c, d)),
{
}

proof fn lemma_surge_most(steps: Seq<Step>, origin: Option<Tile>, i: int, n: int)
    requires
        0 <= i < steps.len(),
        0 <= n <= limit(steps, i),
    ensures
        surge_tiles(steps, origin, i, n) > 0 ==> can_surge(steps, origin, i, surge_tiles(steps, origin, i, n) as int),
        forall|m: int| m <= n && #[trigger] can_surge(steps, origin, i, m) ==> m <= surge_tiles(steps, origin, i, n),
        surge_tiles(steps, origin, i, n) <= n,
    decreases n,
{
    if n >= 5 {
        lemma_walked(steps, i, n);
        let (a, b) = (stand(steps, origin, i), steps[i + n - 1].to);
        lemma_way(a, b, a, b);
        if !surge_fits(steps, origin, i, n) {
            lemma_surge_most(steps, origin, i, n - 1);
        }
    }
}

proof fn lemma_longest_surge(steps: Seq<Step>, origin: Option<Tile>, i: int)
    requires
        0 <= i < steps.len(),
    ensures
        ({
            let n = surge_tiles(steps, origin, i, limit(steps, i)) as int;
            &&& n > 0 ==> can_surge(steps, origin, i, n)
            &&& forall|m: int| #[trigger] can_surge(steps, origin, i, m) ==> m <= n
        }),
{
    lemma_surge_most(steps, origin, i, limit(steps, i));
    assert forall|m: int| #[trigger] can_surge(steps, origin, i, m) implies m <= surge_tiles(
        steps,
        origin,
        i,
        limit(steps, i),
    ) by {
        lemma_walked(steps, i, m);
    }
}

proof fn lemma_faces(steps: Seq<Step>, origin: Option<Tile>, told: Seq<Told>, a: Tile, b: Tile)
    requires
        a.x != b.x || a.y != b.y,
        forall|k: int|
            0 <= k < told.len() ==> match #[trigger] told[k] {
                Told::Keep(j) => j < steps.len(),
                _ => true,
            },
    ensures
        faces(steps, origin, told, toward(a, b)->0) <==> is_faced(steps, origin, told, a, b),
{
    let d = toward(a, b)->0;
    assert forall|k: int| 0 <= k < told.len() implies walks_toward(steps, origin, #[trigger] told[k], d) == walks_like(
        steps,
        origin,
        told[k],
        a,
        b,
    ) by {
        if let Told::Keep(j) = told[k] {
            let (c, e) = (stand(steps, origin, j as int), steps[j as int].to);
            lemma_way(a, b, c, e);
            assert(here(steps, origin, j as int) == c);
        }
    }
    if is_faced(steps, origin, told, a, b) {
        assert forall|k: int| told.len() - 3 <= k < told.len() implies walks_toward(steps, origin, #[trigger] told[k], d) by {
            assert(k == told.len() - 1 || k == told.len() - 2 || k == told.len() - 3);
        }
    }
    if faces(steps, origin, told, d) {
        assert(walks_toward(steps, origin, told[told.len() - 1], d));
        assert(walks_toward(steps, origin, told[told.len() - 2], d));
        assert(walks_toward(steps, origin, told[told.len() - 3], d));
    }
}

proof fn lemma_first_ready(charges: Seq<Millis>, time: Millis, k: int)
    requires
        0 <= k,
    ensures
        match first_ready(charges, time, k) {
            Some(c) => k <= c < charges.len() && charges[c].le(time),
            None => forall|c: int| k <= c < charges.len() ==> !(#[trigger] charges[c]).le(time),
        },
    decreases charges.len() - k,
{
    if k < charges.len() && !charges[k].le(time) {
        lemma_first_ready(charges, time, k + 1);
    }
}

// ---- the telling ----

/// Whether the telling knows when the dive and the charges are ready, and all that was told was due.
spec fn is_kept(steps: Seq<Step>, gear: Gear, t: Telling, by: Seq<int>) -> bool {
    &&& 0 <= t.next <= steps.len() <= usize::MAX
    &&& told_truly(steps, gear.origin, t.told)
    &&& accounted(t.told) == t.next
    &&& t.time == time_after(steps, t.told)
    &&& t.dive_at == dive_ready(steps, gear, t.told)
    &&& t.charges.len() == gear.surge.charges
    &&& forall|c: int|
        0 <= c < t.charges.len() ==> #[trigger] t.charges[c] == charge_ready(steps, gear, t.told, by, c)
    &&& all_due(steps, gear, t.told, by)
    &&& is_followed_up(steps, gear, t.told, by)
}

proof fn lemma_charges_kept(steps: Seq<Step>, gear: Gear, told: Seq<Told>, by: Seq<int>, more: Seq<int>, c: int)
    requires
        by.len() >= told.len(),
        more.len() >= told.len(),
        forall|k: int| 0 <= k < told.len() ==> by[k] == #[trigger] more[k],
    ensures
        charge_ready(steps, gear, told, by, c) == charge_ready(steps, gear, told, more, c),
    decreases told.len(),
{
    if told.len() > 0 {
        lemma_charges_kept(steps, gear, told.drop_last(), by, more, c);
        assert(by[told.len() - 1] == more[told.len() - 1]);
    }
}

proof fn lemma_due_push(steps: Seq<Step>, gear: Gear, told: Seq<Told>, by: Seq<int>, t: Told, c: int)
    requires
        all_due(steps, gear, told, by),
        is_due(steps, gear, told, by, t, c),
    ensures
        all_due(steps, gear, told.push(t), by.push(c)),
{
    let (m, b) = (told.push(t), by.push(c));
    assert forall|k: int| 0 <= k < m.len() implies is_due(steps, gear, m.take(k), b.take(k), #[trigger] m[k], b[k]) by {
        if k < told.len() {
            assert(m.take(k) =~= told.take(k));
            assert(b.take(k) =~= by.take(k));
            assert(is_due(steps, gear, told.take(k), by.take(k), told[k], by[k]));
        } else {
            assert(m.take(k) =~= told);
            assert(b.take(k) =~= by);
        }
    }
}

/// What changes when something more is told.
proof fn lemma_more(steps: Seq<Step>, gear: Gear, told: Seq<Told>, by: Seq<int>, t: Told, c: int)
    requires
        by.len() == told.len(),
    ensures
        time_after(steps, told.push(t)) == match t {
            Told::Keep(j) => time_after(steps, told).plus(steps[j as int].cost),
            _ => time_after(steps, told),
        },
        dive_ready(steps, gear, told.push(t)) == if is_dive(t) {
            time_after(steps, told).plus(gear.dive.cooldown)
        } else {
            dive_ready(steps, gear, told)
        },
        forall|d: int|
            #[trigger] charge_ready(steps, gear, told.push(t), by.push(c), d) == if is_surge(t) && c == d {
                time_after(steps, told).plus(gear.surge.cooldown)
            } else {
                charge_ready(steps, gear, told, by, d)
            },
{
    assert(told.push(t).drop_last() =~= told);
    assert forall|d: int| #[trigger] charge_ready(steps, gear, told.push(t), by.push(c), d) == if is_surge(t) && c == d {
        time_after(steps, told).plus(gear.surge.cooldown)
    } else {
        charge_ready(steps, gear, told, by, d)
    } by {
        lemma_charges_kept(steps, gear, told, by, by.push(c), d);
    }
}

proof fn lemma_keeps_steps(steps: Seq<Step>, origin: Option<Tile>, told: Seq<Told>)
    requires
        told_truly(steps, origin, told),
    ensures
        forall|k: int|
            0 <= k < told.len() ==> match #[trigger] told[k] {
                Told::Keep(j) => j < steps.len(),
                _ => true,
            },
{
}

proof fn lemma_kept_dive(steps: Seq<Step>, gear: Gear, t: Telling, by: Seq<int>) -> (r: Seq<int>)
    requires
        is_kept(steps, gear, t, by),
        t.next < steps.len(),
        steps[t.next].walk,
    ensures
        ({
            let t1 = after_dive(steps, gear, t);
            &&& all_due(steps, gear, t1.told, r)
            &&& t1.time == time_after(steps, t1.told)
            &&& t1.dive_at == dive_ready(steps, gear, t1.told)
            &&& t1.charges == t.charges
            &&& forall|c: int|
                0 <= c < t1.charges.len() ==> #[trigger] t1.charges[c] == charge_ready(steps, gear, t1.told, r, c)
            &&& t1.next == t.next ==> t1 == t && r == by && (gear.dive.enabled && dive_ready(steps, gear, t.told).le(
                time_after(steps, t.told),
            ) ==> forall|n: int| !#[trigger] can_dive(steps, gear.origin, t.next, n))
            &&& t1.next > t.next ==> t1.told.len() > 0 && is_dive(t1.told.last()) && (t1.told.last() matches Told::Ability {
                from,
                to,
                ..
            } && from == here(steps, gear.origin, t.next) && to == here(steps, gear.origin, t1.next))
            &&& t1.told.len() >= t.told.len()
        }),
{
    let i = t.next;
    lemma_longest_dive(steps, gear.origin, i);
    let n = dive_tiles(steps, gear.origin, i, limit(steps, i));
    let t1 = after_dive(steps, gear, t);
    if gear.dive.enabled && t.dive_at.le(t.time) && n > 0 {
        let x = Told::Ability {
            surge: false,
            from: stand(steps, gear.origin, i),
            to: steps[i + n - 1].to,
            tiles: n as usize,
        };
        assert(is_due(steps, gear, t.told, by, x, 0));
        lemma_due_push(steps, gear, t.told, by, x, 0);
        lemma_more(steps, gear, t.told, by, x, 0);
        assert(t1.told == t.told.push(x));
        by.push(0)
    } else {
        assert(gear.dive.enabled && t.dive_at.le(t.time) ==> forall|m: int| !#[trigger] can_dive(steps, gear.origin, i, m));
        by
    }
}

proof fn lemma_kept_surge(steps: Seq<Step>, gear: Gear, from: int, t: Telling, by: Seq<int>) -> (r: Seq<int>)
    requires
        0 <= from <= t.next <= steps.len() <= usize::MAX,
        told_truly(steps, gear.origin, t.told),
        accounted(t.told) == t.next,
        t.time == time_after(steps, t.told),
        t.dive_at == dive_ready(steps, gear, t.told),
        t.charges.len() == gear.surge.charges,
        forall|c: int| 0 <= c < t.charges.len() ==> #[trigger] t.charges[c] == charge_ready(steps, gear, t.told, by, c),
        all_due(steps, gear, t.told, by),
        t.next > from ==> t.told.len() > 0 && is_dive(t.told.last()) && (t.told.last() matches Told::Ability {
            from: a,
            to: b,
            ..
        } && a == here(steps, gear.origin, from) && b == here(steps, gear.origin, t.next)),
    ensures
        ({
            let t2 = after_surge(steps, gear, from, t);
            &&& all_due(steps, gear, t2.told, r)
            &&& t2.time == time_after(steps, t2.told)
            &&& t2.dive_at == dive_ready(steps, gear, t2.told)
            &&& t2.charges.len() == gear.surge.charges
            &&& forall|c: int|
                0 <= c < t2.charges.len() ==> #[trigger] t2.charges[c] == charge_ready(steps, gear, t2.told, r, c)
            &&& t2.next == t.next ==> t2 == t && r == by
            &&& t2.next > t.next ==> t2.told.len() > 0 && is_surge(t2.told.last())
            &&& t2.next == t.next && from < t.next ==> is_followed_up(steps, gear, t.told, by)
            &&& t2.next == t.next && from == t.next && t.next < steps.len() ==> forall|d: int, n: int|
                #![trigger has_charge(steps, gear, t.told, by, d), can_surge(steps, gear.origin, t.next, n)]
                gear.surge.enabled && has_charge(steps, gear, t.told, by, d) && can_surge(steps, gear.origin, t.next, n) && (
                forall|m: int| #[trigger] can_surge(steps, gear.origin, t.next, m) ==> m <= n) ==> !is_faced(
                    steps,
                    gear.origin,
                    t.told,
                    here(steps, gear.origin, t.next),
                    steps[t.next + n - 1].to,
                )
        }),
{
    let i = t.next;
    let t2 = after_surge(steps, gear, from, t);
    if i == steps.len() {
        assert(run_len(steps, i) == 0);
        assert(surge_tiles(steps, gear.origin, i, limit(steps, i)) == 0);
        assert forall|n: int| !#[trigger] can_surge(steps, gear.origin, i, n) by {}
        by
    } else {
        lemma_longest_surge(steps, gear.origin, i);
        lemma_first_ready(t.charges, t.time, 0);
        lemma_keeps_steps(steps, gear.origin, t.told);
        let n = surge_tiles(steps, gear.origin, i, limit(steps, i));
        let a = stand(steps, gear.origin, i);
        let b = steps[i + n - 1].to;
        assert(a == here(steps, gear.origin, i));
        let start = stand(steps, gear.origin, from);
        assert(start == here(steps, gear.origin, from));
        if n > 0 {
            assert(can_surge(steps, gear.origin, i, n as int));
            lemma_way(a, b, start, a);
            lemma_faces(steps, gear.origin, t.told, a, b);
        }
        if t2.next > t.next {
            let c = first_ready(t.charges, t.time, 0)->0;
            let x = Told::Ability { surge: true, from: a, to: b, tiles: n as usize };
            assert(t.charges[c] == charge_ready(steps, gear, t.told, by, c));
            assert(has_charge(steps, gear, t.told, by, c));
            assert(is_dived(t.told, a, b) || is_faced(steps, gear.origin, t.told, a, b));
            assert(is_due(steps, gear, t.told, by, x, c));
            lemma_due_push(steps, gear, t.told, by, x, c);
            lemma_more(steps, gear, t.told, by, x, c);
            assert(t2.told == t.told.push(x));
            by.push(c)
        } else {
            if from == i {
                assert forall|d: int, m: int|
                    #![trigger has_charge(steps, gear, t.told, by, d), can_surge(steps, gear.origin, i, m)]
                    gear.surge.enabled && has_charge(steps, gear, t.told, by, d) && can_surge(steps, gear.origin, i, m) && (
                    forall|k: int| #[trigger] can_surge(steps, gear.origin, i, k) ==> k <= m) implies !is_faced(
                    steps,
                    gear.origin,
                    t.told,
                    here(steps, gear.origin, i),
                    steps[i + m - 1].to,
                ) by {
                    assert(m <= n);
                    assert(n > 0);
                    assert(n <= m);
                    assert(t.charges[d] == charge_ready(steps, gear, t.told, by, d));
                    assert(first_ready(t.charges, t.time, 0) is Some);
                }
            } else {
                assert forall|d: int, m: int|
                    #![trigger has_charge(steps, gear, t.told, by, d), can_surge(steps, gear.origin, i, m)]
                    gear.surge.enabled && has_charge(steps, gear, t.told, by, d) && can_surge(steps, gear.origin, i, m) && (
                    forall|k: int| #[trigger] can_surge(steps, gear.origin, i, k) ==> k <= m) implies !is_dived(
                    t.told,
                    here(steps, gear.origin, i),
                    steps[i + m - 1].to,
                ) by {
                    assert(m <= n);
                    assert(n > 0);
                    assert(n <= m);
                    assert(t.charges[d] == charge_ready(steps, gear, t.told, by, d));
                    assert(first_ready(t.charges, t.time, 0) is Some);
                }
            }
            by
        }
    }
}

proof fn lemma_kept_turn(steps: Seq<Step>, gear: Gear, t: Telling, by: Seq<int>) -> (r: Seq<int>)
    requires
        is_kept(steps, gear, t, by),
        t.next < steps.len(),
    ensures
        is_kept(steps, gear, turn(steps, gear, t), r),
{
    lemma_turn(steps, gear, t);
    let next = turn(steps, gear, t);
    let x = Told::Keep(t.next as usize);
    lemma_more(steps, gear, t.told, by, x, 0);
    if !steps[t.next].walk {
        assert forall|n: int| !#[trigger] can_dive(steps, gear.origin, t.next, n) by {
            if can_dive(steps, gear.origin, t.next, n) {
                assert(steps[t.next].walk);
            }
        }
        assert forall|n: int| !#[trigger] can_surge(steps, gear.origin, t.next, n) by {
            if can_surge(steps, gear.origin, t.next, n) {
                assert(steps[t.next].walk);
            }
        }
        assert(is_due(steps, gear, t.told, by, x, 0));
        lemma_due_push(steps, gear, t.told, by, x, 0);
        assert(next.told == t.told.push(x));
        assert(is_followed_up(steps, gear, next.told, by.push(0)));
        by.push(0)
    } else {
        let t1 = after_dive(steps, gear, t);
        let b1 = lemma_kept_dive(steps, gear, t, by);
        lemma_dive_told(steps, gear, t);
        let b2 = lemma_kept_surge(steps, gear, t.next, t1, b1);
        let t2 = after_surge(steps, gear, t.next, t1);
        if t2.next > t.next {
            assert(next == t2);
            if t2.next > t1.next {
                assert(!is_dive(t2.told.last()));
            }
            assert(is_followed_up(steps, gear, next.told, b2));
            b2
        } else {
            assert(t1 == t && t2 == t);
            assert(is_due(steps, gear, t.told, by, x, 0));
            lemma_due_push(steps, gear, t.told, by, x, 0);
            assert(next.told == t.told.push(x));
            by.push(0)
        }
    }
}

/// A dive keeps the telling true.
proof fn lemma_dive_told(steps: Seq<Step>, gear: Gear, t: Telling)
    requires
        0 <= t.next < steps.len() <= usize::MAX,
        told_truly(steps, gear.origin, t.told),
        accounted(t.told) == t.next,
    ensures
        told_truly(steps, gear.origin, after_dive(steps, gear, t).told),
        accounted(after_dive(steps, gear, t).told) == after_dive(steps, gear, t).next,
        t.next <= after_dive(steps, gear, t).next <= steps.len(),
{
    let quiet = Gear { surge: crate::route::abilities::SurgeConfig { enabled: false, ..gear.surge }, ..gear };
    lemma_turn(steps, quiet, t);
    lemma_run(steps, t.next);
    lemma_longest_dive(steps, gear.origin, t.next);
    let t1 = after_dive(steps, gear, t);
    assert(after_dive(steps, quiet, t) == t1);
    if t1.next > t.next {
        assert(steps[t.next].walk);
        assert(after_surge(steps, quiet, t.next, t1) == t1);
        assert(turn(steps, quiet, t) == t1);
    }
}

proof fn lemma_kept_tell(steps: Seq<Step>, gear: Gear, t: Telling, by: Seq<int>) -> (r: Seq<int>)
    requires
        is_kept(steps, gear, t, by),
    ensures
        all_due(steps, gear, tell(steps, gear, t), r),
    decreases steps.len() - t.next,
{
    if t.next < steps.len() {
        lemma_turn(steps, gear, t);
        let b = lemma_kept_turn(steps, gear, t, by);
        lemma_kept_tell(steps, gear, turn(steps, gear, t), b)
    } else {
        by
    }
}

/// Everything that is told of a route is due when it is told. A dive is ready, and a surge has a ready
/// charge and goes the way that the character faces; each covers as many tiles as it can. A step is kept
/// only where no dive is ready that could cover it, nor a surge that the character faces; and a dive is
/// followed by the surge that goes on in its direction, where one is ready. What is returned says which
/// charge each surge uses.
pub proof fn law_abilities_are_due(steps: Seq<Step>, gear: Gear) -> (by: Seq<int>)
    requires
        steps.len() <= usize::MAX,
    ensures
        all_due(steps, gear, tell(steps, gear, begin(gear)), by),
{
    let t = begin(gear);
    let by: Seq<int> = Seq::empty();
    assert(is_kept(steps, gear, t, by));
    lemma_kept_tell(steps, gear, t, by)
}

proof fn lemma_dive_ready(steps: Seq<Step>, gear: Gear, told: Seq<Told>, a: int, b: int)
    requires
        0 <= a < b <= told.len(),
        is_dive(told[a]),
        forall|k: int| a < k < b ==> !is_dive(#[trigger] told[k]),
    ensures
        dive_ready(steps, gear, told.take(b)) == time_after(steps, told.take(a)).plus(gear.dive.cooldown),
    decreases b,
{
    let p = told.take(b);
    assert(p.drop_last() =~= told.take(b - 1));
    assert(p.last() == told[b - 1]);
    if b - 1 > a {
        lemma_dive_ready(steps, gear, told, a, b - 1);
    }
}

/// A dive is told only when it is ready again: from one dive to the next the steps that are told between
/// them take at least the cooldown, and before the first as long as it takes until it is available.
pub proof fn law_dives_wait_for_the_cooldown(steps: Seq<Step>, gear: Gear, b: int)
    requires
        steps.len() <= usize::MAX,
        0 <= b < tell(steps, gear, begin(gear)).len(),
        is_dive(tell(steps, gear, begin(gear))[b]),
    ensures
        gear.dive.enabled,
        forall|a: int|
            0 <= a < b && is_dive(#[trigger] tell(steps, gear, begin(gear))[a]) && (forall|k: int|
                a < k < b ==> !is_dive(#[trigger] tell(steps, gear, begin(gear))[k])) ==> time_after(
                steps,
                tell(steps, gear, begin(gear)).take(a),
            ).plus(gear.dive.cooldown).le(time_after(steps, tell(steps, gear, begin(gear)).take(b))),
        (forall|k: int| 0 <= k < b ==> !is_dive(#[trigger] tell(steps, gear, begin(gear))[k]))
            ==> gear.dive.available_in.le(time_after(steps, tell(steps, gear, begin(gear)).take(b))),
{
    let told = tell(steps, gear, begin(gear));
    let by = law_abilities_are_due(steps, gear);
    assert(is_due(steps, gear, told.take(b), by.take(b), told[b], by[b]));
    assert forall|a: int|
        0 <= a < b && is_dive(#[trigger] told[a]) && (forall|k: int| a < k < b ==> !is_dive(#[trigger] told[k])) implies time_after(
        steps,
        told.take(a),
    ).plus(gear.dive.cooldown).le(time_after(steps, told.take(b))) by {
        lemma_dive_ready(steps, gear, told, a, b);
    }
    if forall|k: int| 0 <= k < b ==> !is_dive(#[trigger] told[k]) {
        lemma_no_dive(steps, gear, told, b);
    }
}

proof fn lemma_no_dive(steps: Seq<Step>, gear: Gear, told: Seq<Told>, b: int)
    requires
        0 <= b <= told.len(),
        forall|k: int| 0 <= k < b ==> !is_dive(#[trigger] told[k]),
    ensures
        dive_ready(steps, gear, told.take(b)) == gear.dive.available_in,
    decreases b,
{
    if b > 0 {
        assert(told.take(b).drop_last() =~= told.take(b - 1));
        assert(told.take(b).last() == told[b - 1]);
        lemma_no_dive(steps, gear, told, b - 1);
    }
}

proof fn lemma_charge_ready(steps: Seq<Step>, gear: Gear, told: Seq<Told>, by: Seq<int>, a: int, b: int)
    requires
        by.len() == told.len(),
        0 <= a < b <= told.len(),
        is_surge(told[a]),
        forall|k: int| a < k < b && is_surge(#[trigger] told[k]) ==> by[k] != by[a],
    ensures
        charge_ready(steps, gear, told.take(b), by, by[a]) == time_after(steps, told.take(a)).plus(gear.surge.cooldown),
    decreases b,
{
    let p = told.take(b);
    assert(p.drop_last() =~= told.take(b - 1));
    assert(p.last() == told[b - 1]);
    if b - 1 > a {
        lemma_charge_ready(steps, gear, told, by, a, b - 1);
    }
}

/// Two surges by one charge, of which the nearest two are a cooldown apart.
proof fn lemma_apart(steps: Seq<Step>, gear: Gear, told: Seq<Told>, by: Seq<int>, a: int, b: int) -> (r: int)
    requires
        all_due(steps, gear, told, by),
        0 <= a < b < told.len(),
        is_surge(told[a]) && is_surge(told[b]),
        by[a] == by[b],
    ensures
        a < r <= b,
        is_surge(told[r]),
        time_after(steps, told.take(a)).plus(gear.surge.cooldown).le(time_after(steps, told.take(r))),
    decreases b - a,
{
    if exists|k: int| a < k < b && is_surge(#[trigger] told[k]) && by[k] == by[a] {
        let k = choose|k: int| a < k < b && is_surge(#[trigger] told[k]) && by[k] == by[a];
        lemma_apart(steps, gear, told, by, a, k)
    } else {
        lemma_charge_ready(steps, gear, told, by, a, b);
        assert(is_due(steps, gear, told.take(b), by.take(b), told[b], by[b]));
        lemma_charges_kept(steps, gear, told.take(b), by, by.take(b), by[b]);
        b
    }
}

/// How many surges are told from place `x` up to place `y`.
pub open spec fn surges_among(told: Seq<Told>, x: int, y: int) -> nat
    decreases y - x,
{
    if y <= x {
        0
    } else {
        surges_among(told, x, y - 1) + if is_surge(told[y - 1]) { 1nat } else { 0 }
    }
}

spec fn used(told: Seq<Told>, by: Seq<int>, x: int, y: int) -> Set<int>
    decreases y - x,
{
    if y <= x {
        Set::empty()
    } else if is_surge(told[y - 1]) {
        used(told, by, x, y - 1).insert(by[y - 1])
    } else {
        used(told, by, x, y - 1)
    }
}

proof fn lemma_used(told: Seq<Told>, by: Seq<int>, x: int, y: int, n: int)
    requires
        0 <= x <= y <= told.len(),
        by.len() == told.len(),
        forall|k: int| 0 <= k < told.len() && is_surge(#[trigger] told[k]) ==> 0 <= by[k] < n,
        forall|a: int, b: int|
            x <= a < b < y && is_surge(#[trigger] told[a]) && is_surge(#[trigger] told[b]) ==> by[a] != by[b],
    ensures
        used(told, by, x, y).finite(),
        used(told, by, x, y).len() == surges_among(told, x, y),
        used(told, by, x, y).subset_of(set_int_range(0, n)),
        forall|c: int| #[trigger] used(told, by, x, y).contains(c) ==> exists|k: int|
            x <= k < y && is_surge(#[trigger] told[k]) && by[k] == c,
    decreases y - x,
{
    if x < y {
        lemma_used(told, by, x, y - 1, n);
        if is_surge(told[y - 1]) {
            let s = used(told, by, x, y - 1);
            assert(!s.contains(by[y - 1])) by {
                if s.contains(by[y - 1]) {
                    let k = choose|k: int| x <= k < y - 1 && is_surge(#[trigger] told[k]) && by[k] == by[y - 1];
                    assert(is_surge(told[k]) && is_surge(told[y - 1]));
                }
            }
            assert forall|c: int| #[trigger] used(told, by, x, y).contains(c) implies exists|k: int|
                x <= k < y && is_surge(#[trigger] told[k]) && by[k] == c by {
                if c == by[y - 1] {
                    assert(is_surge(told[y - 1]));
                } else {
                    assert(s.contains(c));
                    let k = choose|k: int| x <= k < y - 1 && is_surge(#[trigger] told[k]) && by[k] == c;
                    assert(is_surge(told[k]));
                }
            }
        } else {
            assert forall|c: int| #[trigger] used(told, by, x, y).contains(c) implies exists|k: int|
                x <= k < y && is_surge(#[trigger] told[k]) && by[k] == c by {
                assert(used(told, by, x, y - 1).contains(c));
                let k = choose|k: int| x <= k < y - 1 && is_surge(#[trigger] told[k]) && by[k] == c;
                assert(is_surge(told[k]));
            }
        }
    }
}

/// Surges wait for their charges: where more surges are told in a stretch than there are charges, the
/// stretch holds two surges between which the steps that are told take at least the cooldown.
pub proof fn law_surges_wait_for_the_cooldown(steps: Seq<Step>, gear: Gear, x: int, y: int) -> (r: (int, int))
    requires
        steps.len() <= usize::MAX,
        0 <= x <= y <= tell(steps, gear, begin(gear)).len(),
        surges_among(tell(steps, gear, begin(gear)), x, y) > gear.surge.charges,
    ensures
        gear.surge.enabled,
        x <= r.0 < r.1 < y,
        is_surge(tell(steps, gear, begin(gear))[r.0]) && is_surge(tell(steps, gear, begin(gear))[r.1]),
        time_after(steps, tell(steps, gear, begin(gear)).take(r.0)).plus(gear.surge.cooldown).le(
            time_after(steps, tell(steps, gear, begin(gear)).take(r.1)),
        ),
{
    let told = tell(steps, gear, begin(gear));
    let by = law_abilities_are_due(steps, gear);
    let n = gear.surge.charges as int;
    assert forall|k: int| 0 <= k < told.len() && is_surge(#[trigger] told[k]) implies 0 <= by[k] < n && gear.surge.enabled by {
        assert(is_due(steps, gear, told.take(k), by.take(k), told[k], by[k]));
        assert(has_charge(steps, gear, told.take(k), by.take(k), by[k]));
    }
    assert(exists|a: int, b: int|
        x <= a < b < y && is_surge(#[trigger] told[a]) && is_surge(#[trigger] told[b]) && by[a] == by[b]) by {
        if forall|a: int, b: int|
            x <= a < b < y && is_surge(#[trigger] told[a]) && is_surge(#[trigger] told[b]) ==> by[a] != by[b] {
            lemma_used(told, by, x, y, n);
            lemma_int_range(0, n);
            lemma_len_subset(used(told, by, x, y), set_int_range(0, n));
        }
    }
    let (a, b) = choose|a: int, b: int|
        x <= a < b < y && is_surge(#[trigger] told[a]) && is_surge(#[trigger] told[b]) && by[a] == by[b];
    assert(is_surge(told[a]) && is_surge(told[b]));
    let c = lemma_apart(steps, gear, told, by, a, b);
    (a, c)
}

}
