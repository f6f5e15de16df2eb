//! Surges and dives. A character that walks a run of tiles can cover part of it at once: with a
//! dive in any direction, with a surge only in the direction it faces.

use crate::engine::millis::Millis;
use crate::models::Tile;
use vstd::prelude::*;

verus! {

/// A surge covers at least this many tiles.
pub const MIN_SURGE_TILES: usize = 5;

/// A dive covers at least this many tiles.
pub const MIN_DIVE_TILES: usize = 2;

/// A surge or a dive covers at most this many tiles.
pub const MAX_ABILITY_TILES: usize = 10;

/// The tiles to walk in one direction before a surge in it.
pub const MIN_WALK_BEFORE_SURGE: usize = 3;

/// The time after which a charge can be used again where none is given: the bit pattern of
/// 20400 milliseconds.
pub const DEFAULT_COOLDOWN: u64 = 0x40d3_ec00_0000_0000;

/// What a caller says of its surges. Times are in milliseconds.
#[derive(Debug, Clone, Copy, PartialEq, Eq, Structural)]
pub struct SurgeConfig {
    pub enabled: bool,
    pub charges: u32,
    pub cooldown: Millis,
}

/// What a caller says of its dive. Times are in milliseconds.
#[derive(Debug, Clone, Copy, PartialEq, Eq, Structural)]
pub struct DiveConfig {
    pub enabled: bool,
    pub available_in: Millis,
    pub cooldown: Millis,
}

impl Default for SurgeConfig {
    fn default() -> (r: SurgeConfig)
        ensures
            r == (SurgeConfig { enabled: false, charges: 0, cooldown: Millis { bits: DEFAULT_COOLDOWN } }),
    {
        SurgeConfig { enabled: false, charges: 0, cooldown: Millis { bits: DEFAULT_COOLDOWN } }
    }
}

impl Default for DiveConfig {
    fn default() -> (r: DiveConfig)
        ensures
            r == (DiveConfig { enabled: false, available_in: Millis { bits: 0 }, cooldown: Millis { bits: DEFAULT_COOLDOWN } }),
    {
        DiveConfig { enabled: false, available_in: Millis { bits: 0 }, cooldown: Millis { bits: DEFAULT_COOLDOWN } }
    }
}

#[derive(Debug, Clone, Copy, PartialEq, Eq, Structural)]
pub enum Direction {
    North,
    South,
    East,
    West,
    NorthEast,
    NorthWest,
    SouthEast,
    SouthWest,
}

/// The direction of a displacement; none for a displacement of nothing.
pub open spec fn heading(dx: int, dy: int) -> Option<Direction> {
    if dx == 0 && dy > 0 {
        Some(Direction::North)
    } else if dx == 0 && dy < 0 {
        Some(Direction::South)
    } else if dx > 0 && dy == 0 {
        Some(Direction::East)
    } else if dx < 0 && dy == 0 {
        Some(Direction::West)
    } else if dx > 0 && dy > 0 {
        Some(Direction::NorthEast)
    } else if dx < 0 && dy > 0 {
        Some(Direction::NorthWest)
    } else if dx > 0 && dy < 0 {
        Some(Direction::SouthEast)
    } else if dx < 0 && dy < 0 {
        Some(Direction::SouthWest)
    } else {
        None
    }
}

impl Direction {
    pub fn from_delta(dx: i64, dy: i64) -> (r: Option<Direction>)
        ensures
            r == heading(dx as int, dy as int),
    {
        if dx == 0 {
            if dy > 0 {
                Some(Direction::North)
            } else if dy < 0 {
                Some(Direction::South)
            } else {
                None
            }
        } else if dx > 0 {
            Some(
                if dy > 0 {
                    Direction::NorthEast
                } else if dy < 0 {
                    Direction::SouthEast
                } else {
                    Direction::East
                },
            )
        } else {
            Some(
                if dy > 0 {
                    Direction::NorthWest
                } else if dy < 0 {
                    Direction::SouthWest
                } else {
                    Direction::West
                },
            )
        }
    }
}

/// The direction from one tile to another.
pub open spec fn toward(a: Tile, b: Tile) -> Option<Direction> {
    heading(b.x - a.x, b.y - a.y)
}

fn direction_to(a: Tile, b: Tile) -> (r: Option<Direction>)
    ensures
        r == toward(a, b),
{
    Direction::from_delta(b.x as i64 - a.x as i64, b.y as i64 - a.y as i64)
}

/// The square of the straight distance between two tiles.
pub open spec fn distance_squared(a: Tile, b: Tile) -> int {
    (b.x - a.x) * (b.x - a.x) + (b.y - a.y) * (b.y - a.y)
}

fn squared(a: Tile, b: Tile) -> (r: i128)
    ensures
        r == distance_squared(a, b),
{
    let dx: i128 = b.x as i128 - a.x as i128;
    let dy: i128 = b.y as i128 - a.y as i128;
    assert(-0x1_0000_0000 < dx < 0x1_0000_0000 && -0x1_0000_0000 < dy < 0x1_0000_0000);
    assert(0 <= dx * dx <= 0x1_0000_0000_0000_0000) by (nonlinear_arith)
        requires
            -0x1_0000_0000 < dx < 0x1_0000_0000,
    ;
    assert(0 <= dy * dy <= 0x1_0000_0000_0000_0000) by (nonlinear_arith)
        requires
            -0x1_0000_0000 < dy < 0x1_0000_0000,
    ;
    dx * dx + dy * dy
}

/// Whether an ability carries from `a` to `b`: on one plane, and at most ten and a half tiles in
/// a straight line, of which the square is 110 and a quarter.
pub open spec fn in_reach(a: Tile, b: Tile) -> bool {
    a.plane == b.plane && distance_squared(a, b) <= 110
}

pub fn is_valid_ability_hop(start: Tile, end: Tile) -> (r: bool)
    ensures
        r == in_reach(start, end),
{
    start.plane == end.plane && squared(start, end) <= 110
}

/// Whether a run of `n` tiles from `a` to `b` is at most two tiles longer than the straight
/// line.
pub open spec fn near_straight(a: Tile, b: Tile, n: int) -> bool {
    (n - 2) * (n - 2) <= distance_squared(a, b)
}

/// A step of a route: where it leads, how long it takes, and whether it is a
/// walk to the next tile.
#[derive(Debug, Clone, Copy, PartialEq, Eq, Structural)]
pub struct Step {
    pub to: Tile,
    pub cost: Millis,
    pub walk: bool,
}

/// What is told of a route: a step as it is, or an ability over a run of walked tiles.
#[derive(Debug, Clone, Copy, PartialEq, Eq, Structural)]
pub enum Told {
    Keep(usize),
    Ability { surge: bool, from: Tile, to: Tile, tiles: usize },
}

/// Where the character stands before step `i`.
pub open spec fn stand(steps: Seq<Step>, origin: Option<Tile>, i: int) -> Tile {
    if i > 0 {
        steps[i - 1].to
    } else {
        match origin {
            Some(o) => o,
            None => steps[0].to,
        }
    }
}

/// How many steps from `i` on are walked in one run.
pub open spec fn run_len(steps: Seq<Step>, i: int) -> nat
    decreases steps.len() - i,
{
    if i < 0 || i >= steps.len() || !steps[i].walk { 0 } else { 1 + run_len(steps, i + 1) }
}

/// The most tiles, up to `n`, that a dive from step `i` on covers; 0 for no dive.
pub open spec fn dive_tiles(steps: Seq<Step>, origin: Option<Tile>, i: int, n: int) -> nat
    decreases n,
{
    if n < MIN_DIVE_TILES {
        0
    } else if in_reach(stand(steps, origin, i), steps[i + n - 1].to) {
        n as nat
    } else {
        dive_tiles(steps, origin, i, n - 1)
    }
}

/// Whether a surge from step `i` on can cover `n` tiles.
pub open spec fn surge_fits(steps: Seq<Step>, origin: Option<Tile>, i: int, n: int) -> bool {
    let (a, b) = (stand(steps, origin, i), steps[i + n - 1].to);
    in_reach(a, b) && near_straight(a, b, n) && toward(a, b) is Some
}

/// The most tiles, up to `n`, that a surge from step `i` on covers; 0 for no surge.
pub open spec fn surge_tiles(steps: Seq<Step>, origin: Option<Tile>, i: int, n: int) -> nat
    decreases n,
{
    if n < MIN_SURGE_TILES {
        0
    } else if surge_fits(steps, origin, i, n) {
        n as nat
    } else {
        surge_tiles(steps, origin, i, n - 1)
    }
}

/// The smaller of ten and the run from step `i` on.
pub open spec fn limit(steps: Seq<Step>, i: int) -> int {
    if run_len(steps, i) < MAX_ABILITY_TILES { run_len(steps, i) as int } else { MAX_ABILITY_TILES as int }
}

/// Whether what was told last is a walked step in the direction.
pub open spec fn walks_toward(steps: Seq<Step>, origin: Option<Tile>, t: Told, d: Direction) -> bool {
    match t {
        Told::Keep(j) => steps[j as int].walk && (j > 0 || origin is Some) && toward(
            stand(steps, origin, j as int),
            steps[j as int].to,
        ) == Some(d),
        _ => false,
    }
}

/// Whether the last three that were told are walked steps in the direction.
pub open spec fn faces(steps: Seq<Step>, origin: Option<Tile>, told: Seq<Told>, d: Direction) -> bool {
    &&& told.len() >= MIN_WALK_BEFORE_SURGE
    &&& forall|k: int|
        told.len() - MIN_WALK_BEFORE_SURGE <= k < told.len() ==> walks_toward(steps, origin, #[trigger] told[k], d)
}

/// The first charge that is ready at the time.
pub open spec fn first_ready(charges: Seq<Millis>, time: Millis, k: int) -> Option<int>
    decreases charges.len() - k,
{
    if k < 0 || k >= charges.len() {
        None
    } else if charges[k].le(time) {
        Some(k)
    } else {
        first_ready(charges, time, k + 1)
    }
}

/// How far the telling is: the next step, the time, when the dive and each charge of the surge
/// are ready, and what was told.
pub struct Telling {
    pub next: int,
    pub time: Millis,
    pub dive_at: Millis,
    pub charges: Seq<Millis>,
    pub told: Seq<Told>,
}

/// What a caller has.
pub struct Gear {
    pub surge: SurgeConfig,
    pub dive: DiveConfig,
    pub origin: Option<Tile>,
}

/// The telling after a dive, where one is ready and fits.
pub open spec fn after_dive(steps: Seq<Step>, gear: Gear, t: Telling) -> Telling {
    let n = dive_tiles(steps, gear.origin, t.next, limit(steps, t.next));
    if gear.dive.enabled && t.dive_at.le(t.time) && n > 0 {
        Telling {
            next: t.next + n,
            dive_at: t.time.plus(gear.dive.cooldown),
            told: t.told.push(
                Told::Ability {
                    surge: false,
                    from: stand(steps, gear.origin, t.next),
                    to: steps[t.next + n - 1].to,
                    tiles: n as usize,
                },
            ),
            ..t
        }
    } else {
        t
    }
}

/// The telling after a surge, where a charge is ready, one fits, and the character faces that
/// way: it has just dived in that direction (from step `from`), or walked three tiles in it.
pub open spec fn after_surge(steps: Seq<Step>, gear: Gear, from: int, t: Telling) -> Telling {
    let n = surge_tiles(steps, gear.origin, t.next, limit(steps, t.next));
    let here = stand(steps, gear.origin, t.next);
    let there = steps[t.next + n - 1].to;
    let dived = t.next > from && toward(stand(steps, gear.origin, from), here) == toward(here, there);
    match first_ready(t.charges, t.time, 0) {
        Some(c) => if gear.surge.enabled && n > 0 && (dived || faces(
            steps,
            gear.origin,
            t.told,
            toward(here, there)->0,
        )) {
            Telling {
                next: t.next + n,
                charges: t.charges.update(c, t.time.plus(gear.surge.cooldown)),
                told: t.told.push(Told::Ability { surge: true, from: here, to: there, tiles: n as usize }),
                ..t
            }
        } else {
            t
        },
        None => t,
    }
}

/// The telling after the next step is kept as it is.
pub open spec fn after_keep(steps: Seq<Step>, t: Telling) -> Telling {
    Telling {
        next: t.next + 1,
        time: t.time.plus(steps[t.next].cost),
        told: t.told.push(Told::Keep(t.next as usize)),
        ..t
    }
}

/// The telling after one turn: a step that is no walk is kept; else a dive, a surge or both
/// cover what comes next, and where neither does the step is kept.
pub open spec fn turn(steps: Seq<Step>, gear: Gear, t: Telling) -> Telling {
    if !steps[t.next].walk {
        after_keep(steps, t)
    } else {
        let used = after_surge(steps, gear, t.next, after_dive(steps, gear, t));
        if used.next > t.next { used } else { after_keep(steps, t) }
    }
}

/// All that is told, from where the telling is.
pub open spec fn tell(steps: Seq<Step>, gear: Gear, t: Telling) -> Seq<Told>
    decreases steps.len() - t.next,
    when 0 <= t.next
{
    if t.next >= steps.len() || !(t.next < turn(steps, gear, t).next <= steps.len()) {
        t.told
    } else {
        tell(steps, gear, turn(steps, gear, t))
    }
}

/// The telling at its start.
pub open spec fn begin(gear: Gear) -> Telling {
    Telling {
        next: 0,
        time: Millis { bits: 0 },
        dive_at: gear.dive.available_in,
        charges: Seq::new(gear.surge.charges as nat, |i: int| Millis { bits: 0 }),
        told: Seq::empty(),
    }
}

fn stand_at(steps: &Vec<Step>, origin: Option<Tile>, i: usize) -> (r: Tile)
    requires
        i <= steps@.len(),
        steps@.len() > 0,
    ensures
        r == stand(steps@, origin, i as int),
{
    if i > 0 {
        steps[i - 1].to
    } else {
        match origin {
            Some(o) => o,
            None => steps[0].to,
        }
    }
}

pub proof fn lemma_run(steps: Seq<Step>, i: int)
    requires
        0 <= i <= steps.len(),
    ensures
        i + run_len(steps, i) <= steps.len(),
        forall|k: int| i <= k < i + run_len(steps, i) ==> (#[trigger] steps[k]).walk,
        forall|k: int|
            0 <= k <= run_len(steps, i) ==> #[trigger] run_len(steps, i + k) == run_len(steps, i) - k,
    decreases steps.len() - i,
{
    if i < steps.len() && steps[i].walk {
        lemma_run(steps, i + 1);
        assert forall|k: int| 0 <= k <= run_len(steps, i) implies #[trigger] run_len(steps, i + k) == run_len(steps, i) - k by {
            if k > 0 {
                assert(run_len(steps, (i + 1) + (k - 1)) == run_len(steps, i + 1) - (k - 1));
            }
        }
    }
}

fn count_run(steps: &Vec<Step>, i: usize) -> (r: usize)
    requires
        i <= steps@.len(),
    ensures
        r == limit(steps@, i as int),
        i + r <= steps@.len(),
{
    let len: usize = steps.len();
    let mut j: usize = 0;
    while j < MAX_ABILITY_TILES && j < len - i && steps[i + j].walk
        invariant
            len == steps@.len(),
            i <= len,
            j <= len - i,
            j <= MAX_ABILITY_TILES,
            run_len(steps@, i as int) == j + run_len(steps@, i + j),
        decreases len - j,
    {
        j += 1;
    }
    j
}

fn longest_dive(steps: &Vec<Step>, origin: Option<Tile>, i: usize, most: usize) -> (r: usize)
    requires
        i + most <= steps@.len(),
        steps@.len() > 0,
    ensures
        r == dive_tiles(steps@, origin, i as int, most as int),
        r <= most,
{
    let here: Tile = stand_at(steps, origin, i);
    let len: usize = steps.len();
    let mut n: usize = most;
    while n >= MIN_DIVE_TILES
        invariant
            n <= most,
            len == steps@.len(),
            i + most <= len,
            here == stand(steps@, origin, i as int),
            dive_tiles(steps@, origin, i as int, most as int) == dive_tiles(steps@, origin, i as int, n as int),
        decreases n,
    {
        if is_valid_ability_hop(here, steps[i + n - 1].to) {
            return n;
        }
        n -= 1;
    }
    0
}

fn longest_surge(steps: &Vec<Step>, origin: Option<Tile>, i: usize, most: usize) -> (r: usize)
    requires
        i + most <= steps@.len(),
        most <= MAX_ABILITY_TILES,
        steps@.len() > 0,
    ensures
        r == surge_tiles(steps@, origin, i as int, most as int),
        r <= most,
{
    let here: Tile = stand_at(steps, origin, i);
    let len: usize = steps.len();
    let mut n: usize = most;
    while n >= MIN_SURGE_TILES
        invariant
            n <= most,
            most <= MAX_ABILITY_TILES,
            len == steps@.len(),
            i + most <= len,
            here == stand(steps@, origin, i as int),
            surge_tiles(steps@, origin, i as int, most as int) == surge_tiles(steps@, origin, i as int, n as int),
        decreases n,
    {
        let there: Tile = steps[i + n - 1].to;
        let m: i128 = n as i128 - 2;
        assert(0 <= m * m <= 64) by (nonlinear_arith)
            requires
                0 <= m <= 8,
        ;
        if is_valid_ability_hop(here, there) && m * m <= squared(here, there) && direction_to(here, there).is_some() {
            return n;
        }
        n -= 1;
    }
    0
}

fn is_facing(steps: &Vec<Step>, origin: Option<Tile>, told: &Vec<Told>, d: Direction) -> (r: bool)
    requires
        steps@.len() > 0,
        forall|k: int|
            0 <= k < told@.len() ==> match #[trigger] told@[k] {
                Told::Keep(j) => j < steps@.len(),
                _ => true,
            },
    ensures
        r == faces(steps@, origin, told@, d),
{
    let n: usize = told.len();
    if n < MIN_WALK_BEFORE_SURGE {
        return false;
    }
    let mut k: usize = n - MIN_WALK_BEFORE_SURGE;
    while k < n
        invariant
            n == told@.len(),
            n - MIN_WALK_BEFORE_SURGE <= k <= n,
            steps@.len() > 0,
            forall|k: int|
                0 <= k < told@.len() ==> match #[trigger] told@[k] {
                    Told::Keep(j) => j < steps@.len(),
                    _ => true,
                },
            forall|i: int| n - MIN_WALK_BEFORE_SURGE <= i < k ==> walks_toward(steps@, origin, #[trigger] told@[i], d),
        decreases n - k,
    {
        let ok: bool = match told[k] {
            Told::Keep(j) => steps[j].walk && (j > 0 || origin.is_some()) && direction_to(
                stand_at(steps, origin, j),
                steps[j].to,
            ) == Some(d),
            _ => false,
        };
        if !ok {
            assert(!walks_toward(steps@, origin, told@[k as int], d));
            return false;
        }
        k += 1;
    }
    true
}

fn find_available_surge_charge(charges: &Vec<Millis>, time: Millis) -> (r: Option<usize>)
    ensures
        match first_ready(charges@, time, 0) {
            Some(k) => r is Some && r->0 == k && k < charges@.len(),
            None => r is None,
        },
{
    let mut k: usize = 0;
    while k < charges.len()
        invariant
            k <= charges@.len(),
            first_ready(charges@, time, 0) == first_ready(charges@, time, k as int),
        decreases charges@.len() - k,
    {
        if charges[k].at_most(&time) {
            return Some(k);
        }
        k += 1;
    }
    None
}

/// Whether every kept step is one.
spec fn keeps_steps(told: Seq<Told>, steps: Seq<Step>) -> bool {
    forall|k: int|
        0 <= k < told.len() ==> match #[trigger] told[k] {
            Told::Keep(j) => j < steps.len(),
            _ => true,
        }
}

/// Tells a route with surges and dives.
pub fn tell_route(steps: &Vec<Step>, surge: &SurgeConfig, dive: &DiveConfig, origin: Option<Tile>) -> (r: Vec<Told>)
    ensures
        r@ == tell(steps@, Gear { surge: *surge, dive: *dive, origin }, begin(Gear { surge: *surge, dive: *dive, origin })),
{
    let ghost gear = Gear { surge: *surge, dive: *dive, origin };
    let mut charges: Vec<Millis> = Vec::new();
    let mut c: u32 = 0;
    while c < surge.charges
        invariant
            c <= surge.charges,
            charges@ == Seq::new(c as nat, |i: int| Millis { bits: 0 }),
        decreases surge.charges - c,
    {
        charges.push(Millis { bits: 0 });
        c += 1;
        assert(charges@ =~= Seq::new(c as nat, |i: int| Millis { bits: 0 }));
    }
    let mut dive_at: Millis = dive.available_in;
    let mut time: Millis = Millis { bits: 0 };
    let mut told: Vec<Told> = Vec::new();
    let mut i: usize = 0;
    let len: usize = steps.len();
    let ghost start = begin(gear);
    let ghost mut t = start;
    assert(t.charges =~= charges@);
    while i < len
        invariant
            i <= len,
            len == steps@.len(),
            gear == (Gear { surge: *surge, dive: *dive, origin }),
            t == (Telling { next: i as int, time, dive_at, charges: charges@, told: told@ }),
            keeps_steps(told@, steps@),
            tell(steps@, gear, start) == tell(steps@, gear, t),
        decreases len - i,
    {
        let from: usize = i;
        if steps[i].walk {
            let most: usize = count_run(steps, i);
            let mut dived: bool = false;
            let here: Tile = stand_at(steps, origin, i);
            if dive.enabled && dive_at.at_most(&time) {
                let n: usize = longest_dive(steps, origin, i, most);
                if n > 0 {
                    told.push(Told::Ability { surge: false, from: here, to: steps[i + n - 1].to, tiles: n });
                    dive_at = time.sum(&dive.cooldown);
                    i = i + n;
                    dived = true;
                }
            }
            let ghost t1 = after_dive(steps@, gear, t);
            assert(t1 == (Telling { next: i as int, time, dive_at, charges: charges@, told: told@ }));
            if surge.enabled {
                if let Some(charge) = find_available_surge_charge(&charges, time) {
                    let left: usize = count_run(steps, i);
                    let n: usize = longest_surge(steps, origin, i, left);
                    if n > 0 {
                        let now: Tile = stand_at(steps, origin, i);
                        let there: Tile = steps[i + n - 1].to;
                        proof {
                            lemma_surge(steps@, origin, i as int, left as int);
                        }
                        if let Some(d) = direction_to(now, there) {
                            let turned: bool = dived && direction_to(here, now) == Some(d);
                            if turned || is_facing(steps, origin, &told, d) {
                                told.push(Told::Ability { surge: true, from: now, to: there, tiles: n });
                                charges.set(charge, time.sum(&surge.cooldown));
                                i = i + n;
                            }
                        }
                    }
                }
            }
            let ghost t2 = after_surge(steps@, gear, from as int, t1);
            assert(t2 == (Telling { next: i as int, time, dive_at, charges: charges@, told: told@ }));
        }
        if i == from {
            time = time.sum(&steps[i].cost);
            told.push(Told::Keep(i));
            i += 1;
        }
        proof {
            let next = turn(steps@, gear, t);
            assert(next == (Telling { next: i as int, time, dive_at, charges: charges@, told: told@ }));
            assert(tell(steps@, gear, t) == tell(steps@, gear, next));
            t = next;
        }
    }
    told
}

proof fn lemma_surge(steps: Seq<Step>, origin: Option<Tile>, i: int, n: int)
    ensures
        surge_tiles(steps, origin, i, n) > 0 ==> surge_fits(steps, origin, i, surge_tiles(steps, origin, i, n) as int)
            && MIN_SURGE_TILES <= surge_tiles(steps, origin, i, n) <= n,
    decreases n,
{
    if n >= MIN_SURGE_TILES && !surge_fits(steps, origin, i, n) {
        lemma_surge(steps, origin, i, n - 1);
    }
}

proof fn lemma_dive(steps: Seq<Step>, origin: Option<Tile>, i: int, n: int)
    ensures
        dive_tiles(steps, origin, i, n) > 0 ==> in_reach(
            stand(steps, origin, i),
            steps[i + dive_tiles(steps, origin, i, n) - 1].to,
        ) && MIN_DIVE_TILES <= dive_tiles(steps, origin, i, n) <= n,
    decreases n,
{
    if n >= MIN_DIVE_TILES && !in_reach(stand(steps, origin, i), steps[i + n - 1].to) {
        lemma_dive(steps, origin, i, n - 1);
    }
}

/// The steps that what was told accounts for.
pub open spec fn accounted(told: Seq<Told>) -> nat
    decreases told.len(),
{
    if told.len() == 0 {
        0
    } else {
        accounted(told.drop_last()) + match told.last() {
            Told::Keep(_) => 1nat,
            Told::Ability { tiles, .. } => tiles as nat,
        }
    }
}

/// Whether `t` is a true telling of the steps from `i` on: the step itself, or an ability that
/// covers a run of two to ten walked tiles, starts where the character stands, ends where the
/// run ends, and carries that far.
pub open spec fn true_telling(steps: Seq<Step>, origin: Option<Tile>, i: int, t: Told) -> bool {
    match t {
        Told::Keep(j) => j == i && i < steps.len(),
        Told::Ability { surge, from, to, tiles } => {
            &&& MIN_DIVE_TILES <= tiles <= MAX_ABILITY_TILES
            &&& surge ==> tiles >= MIN_SURGE_TILES
            &&& i + tiles <= steps.len()
            &&& forall|k: int| i <= k < i + tiles ==> (#[trigger] steps[k]).walk
            &&& from == stand(steps, origin, i)
            &&& to == steps[i + tiles - 1].to
            &&& in_reach(from, to)
        },
    }
}

/// Whether each part of what was told is true of the steps that it accounts for.
pub open spec fn told_truly(steps: Seq<Step>, origin: Option<Tile>, told: Seq<Told>) -> bool {
    forall|k: int|
        0 <= k < told.len() ==> true_telling(steps, origin, accounted(told.take(k)) as int, #[trigger] told[k])
}

proof fn lemma_told_push(steps: Seq<Step>, origin: Option<Tile>, told: Seq<Told>, t: Told)
    requires
        told_truly(steps, origin, told),
        true_telling(steps, origin, accounted(told) as int, t),
    ensures
        told_truly(steps, origin, told.push(t)),
        accounted(told.push(t)) == accounted(told) + match t {
            Told::Keep(_) => 1nat,
            Told::Ability { tiles, .. } => tiles as nat,
        },
{
    let more = told.push(t);
    assert(more.drop_last() =~= told);
    assert forall|k: int| 0 <= k < more.len() implies true_telling(
        steps,
        origin,
        accounted(more.take(k)) as int,
        #[trigger] more[k],
    ) by {
        if k < told.len() {
            assert(more.take(k) =~= told.take(k));
            assert(true_telling(steps, origin, accounted(told.take(k)) as int, told[k]));
        } else {
            assert(more.take(k) =~= told);
        }
    }
}

pub proof fn lemma_turn(steps: Seq<Step>, gear: Gear, t: Telling)
    requires
        0 <= t.next < steps.len() <= usize::MAX,
        told_truly(steps, gear.origin, t.told),
        accounted(t.told) == t.next,
    ensures
        told_truly(steps, gear.origin, turn(steps, gear, t).told),
        accounted(turn(steps, gear, t).told) == turn(steps, gear, t).next,
        t.next < turn(steps, gear, t).next <= steps.len(),
{
    lemma_run(steps, t.next);
    if !steps[t.next].walk {
        lemma_told_push(steps, gear.origin, t.told, Told::Keep(t.next as usize));
    } else {
        lemma_dive(steps, gear.origin, t.next, limit(steps, t.next));
        let t1 = after_dive(steps, gear, t);
        if t1.next > t.next {
            lemma_told_push(steps, gear.origin, t.told, t1.told.last());
            assert(t1.told =~= t.told.push(t1.told.last()));
        }
        lemma_run(steps, t1.next);
        lemma_surge(steps, gear.origin, t1.next, limit(steps, t1.next));
        let t2 = after_surge(steps, gear, t.next, t1);
        if t2.next > t1.next {
            lemma_told_push(steps, gear.origin, t1.told, t2.told.last());
            assert(t2.told =~= t1.told.push(t2.told.last()));
        }
        if t2.next == t.next {
            lemma_told_push(steps, gear.origin, t.told, Told::Keep(t.next as usize));
        }
    }
}

proof fn lemma_tell(steps: Seq<Step>, gear: Gear, t: Telling)
    requires
        0 <= t.next <= steps.len() <= usize::MAX,
        told_truly(steps, gear.origin, t.told),
        accounted(t.told) == t.next,
    ensures
        told_truly(steps, gear.origin, tell(steps, gear, t)),
        accounted(tell(steps, gear, t)) == steps.len(),
    decreases steps.len() - t.next,
{
    if t.next < steps.len() {
        lemma_turn(steps, gear, t);
        lemma_tell(steps, gear, turn(steps, gear, t));
    }
}

/// No tile of a route is lost and no ability reaches too far: what is told accounts for every
/// step, in order, and each ability starts where the character stands and carries to where its
/// run of walked tiles ends.
pub proof fn law_route_is_told_in_full(steps: Seq<Step>, gear: Gear)
    requires
        steps.len() <= usize::MAX,
    ensures
        told_truly(steps, gear.origin, tell(steps, gear, begin(gear))),
        accounted(tell(steps, gear, begin(gear))) == steps.len(),
{
    lemma_tell(steps, gear, begin(gear));
}

proof fn lemma_kept(steps: Seq<Step>, gear: Gear, t: Telling)
    requires
        !gear.surge.enabled,
        !gear.dive.enabled,
        0 <= t.next <= steps.len() <= usize::MAX,
        t.told == Seq::new(t.next as nat, |i: int| Told::Keep(i as usize)),
    ensures
        tell(steps, gear, t) == Seq::new(steps.len(), |i: int| Told::Keep(i as usize)),
    decreases steps.len() - t.next,
{
    if t.next < steps.len() {
        let n = turn(steps, gear, t);
        assert(n.told =~= Seq::new(n.next as nat, |i: int| Told::Keep(i as usize)));
        lemma_kept(steps, gear, n);
    }
}

/// Without abilities a route is told step by step.
pub proof fn law_without_abilities(steps: Seq<Step>, gear: Gear)
    requires
        !gear.surge.enabled,
        !gear.dive.enabled,
        steps.len() <= usize::MAX,
    ensures
        tell(steps, gear, begin(gear)) == Seq::new(steps.len(), |i: int| Told::Keep(i as usize)),
{
    assert(begin(gear).told =~= Seq::new(0, |i: int| Told::Keep(i as usize)));
    lemma_kept(steps, gear, begin(gear));
}

}
