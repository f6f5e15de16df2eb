//! Jump point search: which steps need not be looked at, and how far to run straight on.

use crate::graph::movement::{movement_order, Movement};
use crate::graph::provider::{step_from, Edge, GraphProvider, ReadError};
use crate::models::Tile;
use crate::options::SearchOptions;
use crate::text::same;
use vstd::prelude::*;
#[allow(unused_imports)]
use crate::graph::movement::steps_in_order;
#[allow(unused_imports)]
use crate::graph::provider::{edges_view, stepped, EdgeV};

verus! {

/// How one goes from a tile to the next.
#[derive(Debug, Clone, Copy, PartialEq, Eq, Structural)]
pub struct Step {
    pub dx: i32,
    pub dy: i32,
}

impl Step {
    pub open spec fn diagonal(self) -> bool {
        self.dx != 0 && self.dy != 0
    }

    pub fn is_diagonal(&self) -> (r: bool)
        ensures
            r == self.diagonal(),
    {
        self.dx != 0 && self.dy != 0
    }
}

#[derive(Debug, Clone, Copy, PartialEq, Eq, Structural)]
pub struct JpsConfig {
    pub enabled: bool,
    pub allow_diagonals: bool,
    pub max_jump: Option<u32>,
}

impl Default for JpsConfig {
    fn default() -> (r: JpsConfig)
        ensures
            r == (JpsConfig { enabled: true, allow_diagonals: true, max_jump: None }),
    {
        JpsConfig { enabled: true, allow_diagonals: true, max_jump: None }
    }
}

impl JpsConfig {
    pub fn disabled() -> (r: JpsConfig)
        ensures
            r == (JpsConfig { enabled: false, allow_diagonals: true, max_jump: None }),
    {
        JpsConfig { enabled: false, allow_diagonals: true, max_jump: None }
    }

    pub fn enabled() -> (r: JpsConfig)
        ensures
            r == (JpsConfig { enabled: true, allow_diagonals: true, max_jump: None }),
    {
        JpsConfig { enabled: true, allow_diagonals: true, max_jump: None }
    }
}

pub open spec fn sign(n: int) -> i32 {
    if n > 0 {
        1
    } else if n < 0 {
        (-1) as i32
    } else {
        0
    }
}

/// The way from one tile to another as a step of at most one along each axis; none where they
/// are above one another.
pub open spec fn heading(from: Tile, to: Tile) -> Option<Step> {
    if from.x == to.x && from.y == to.y { None } else { Some(Step { dx: sign(to.x - from.x), dy: sign(to.y - from.y) }) }
}

fn sign_of(from: i32, to: i32) -> (r: i32)
    ensures
        r == sign(to - from),
{
    if to > from {
        1
    } else if to < from {
        -1
    } else {
        0
    }
}

/// The steps among the edges.
pub open spec fn moves_of(s: Seq<EdgeV>) -> Seq<EdgeV>
    decreases s.len(),
{
    if s.len() == 0 {
        Seq::empty()
    } else if s.last().type_ == "move"@ {
        moves_of(s.drop_last()).push(s.last())
    } else {
        moves_of(s.drop_last())
    }
}

/// The edges that are no steps.
pub open spec fn others_of(s: Seq<EdgeV>) -> Seq<EdgeV>
    decreases s.len(),
{
    if s.len() == 0 {
        Seq::empty()
    } else if s.last().type_ == "move"@ {
        others_of(s.drop_last())
    } else {
        others_of(s.drop_last()).push(s.last())
    }
}

/// The place of the first edge that leads to a tile.
pub open spec fn first_to(s: Seq<EdgeV>, t: Tile) -> Option<int>
    decreases s.len(),
{
    if s.len() == 0 {
        None
    } else {
        match first_to(s.drop_last(), t) {
            Some(i) => Some(i),
            None => if s.last().to_tile == t { Some(s.len() - 1) } else { None },
        }
    }
}

/// Whether an edge leads to the tile at an offset.
pub open spec fn has_offset(moves: Seq<EdgeV>, at: Tile, dx: int, dy: int) -> bool {
    match stepped(at, dx, dy) {
        Some(t) => first_to(moves, t) is Some,
        None => false,
    }
}

/// Whether the neighbour beside the way ahead is forced: the tile to that side is shut, the one
/// ahead of it is open.
pub open spec fn side_forced(moves: Seq<EdgeV>, at: Tile, dir: Step, sx: int, sy: int) -> bool {
    !has_offset(moves, at, sx, sy) && has_offset(moves, at, dir.dx + sx, dir.dy + sy)
}

/// Whether going straight on becomes forced on a diagonal: one of its sides is shut.
pub open spec fn corner_forced(moves: Seq<EdgeV>, at: Tile, dir: Step) -> bool {
    (!has_offset(moves, at, dir.dx as int, 0) || !has_offset(moves, at, 0, dir.dy as int)) && has_offset(
        moves,
        at,
        dir.dx as int,
        dir.dy as int,
    )
}

/// A step along an axis.
pub open spec fn along_x(dir: Step) -> bool {
    (dir.dx == 1 || dir.dx == -1) && dir.dy == 0
}

pub open spec fn along_y(dir: Step) -> bool {
    dir.dx == 0 && (dir.dy == 1 || dir.dy == -1)
}

/// Whether the neighbour at an offset is forced.
pub open spec fn is_forced(moves: Seq<EdgeV>, at: Tile, dir: Step, ox: int, oy: int) -> bool {
    ||| dir.diagonal() && ox == dir.dx && oy == dir.dy && corner_forced(moves, at, dir)
    ||| along_x(dir) && ox == dir.dx && (oy == 1 || oy == -1) && side_forced(moves, at, dir, 0, oy)
    ||| along_y(dir) && oy == dir.dy && (ox == 1 || ox == -1) && side_forced(moves, at, dir, ox, 0)
}

/// Whether any neighbour is forced.
pub open spec fn some_forced(moves: Seq<EdgeV>, at: Tile, dir: Step) -> bool {
    ||| dir.diagonal() && corner_forced(moves, at, dir)
    ||| along_x(dir) && (side_forced(moves, at, dir, 0, 1) || side_forced(moves, at, dir, 0, -1))
    ||| along_y(dir) && (side_forced(moves, at, dir, 1, 0) || side_forced(moves, at, dir, -1, 0))
}

/// Whether the neighbour at an offset is a natural one: straight on, or on a diagonal along one
/// of its axes.
pub open spec fn is_natural(dir: Step, ox: int, oy: int) -> bool {
    (ox == dir.dx && oy == dir.dy) || (dir.diagonal() && ((ox == dir.dx && oy == 0) || (ox == 0 && oy == dir.dy)))
}

/// The steps that are kept, among the first `k` in order.
pub open spec fn kept_moves(moves: Seq<EdgeV>, at: Tile, dir: Step, k: int) -> Seq<EdgeV>
    decreases k,
{
    if k <= 0 {
        Seq::empty()
    } else {
        let (ox, oy) = steps_in_order()[k - 1].offset();
        let rest = kept_moves(moves, at, dir, k - 1);
        if (is_natural(dir, ox, oy) || is_forced(moves, at, dir, ox, oy)) && has_offset(moves, at, ox, oy) {
            rest.push(moves[first_to(moves, stepped(at, ox, oy)->0)->0])
        } else {
            rest
        }
    }
}

/// The edges that are kept: all where nothing is pruned or the way here is not known, else the
/// natural and forced steps and then everything that is no step.
pub open spec fn pruned(enabled: bool, current: Tile, parent: Option<Tile>, raw: Seq<EdgeV>) -> Seq<EdgeV> {
    if !enabled || parent is None || heading(parent->0, current) is None {
        raw
    } else {
        kept_moves(moves_of(raw), current, heading(parent->0, current)->0, 8) + others_of(raw)
    }
}

proof fn lemma_first_to(s: Seq<EdgeV>, t: Tile)
    ensures
        match first_to(s, t) {
            Some(i) => 0 <= i < s.len() && s[i].to_tile == t && forall|j: int| 0 <= j < i ==> (#[trigger] s[j]).to_tile != t,
            None => forall|j: int| 0 <= j < s.len() ==> (#[trigger] s[j]).to_tile != t,
        },
    decreases s.len(),
{
    if s.len() > 0 {
        let short = s.drop_last();
        lemma_first_to(short, t);
        assert forall|j: int| first_to(short, t) is None && 0 <= j < short.len() implies (#[trigger] s[j]).to_tile != t by {
            assert(short[j].to_tile != t);
        }
        if let Some(i) = first_to(short, t) {
            assert forall|j: int| 0 <= j < i implies (#[trigger] s[j]).to_tile != t by {
                assert(short[j].to_tile != t);
            }
        }
    }
}

fn find_to(moves: &Vec<&Edge>, t: Tile) -> (r: Option<usize>)
    ensures
        match first_to(refs_view(moves@), t) {
            Some(i) => r is Some && r->0 == i && 0 <= i < moves@.len(),
            None => r is None,
        },
{
    let ghost s = refs_view(moves@);
    proof {
        lemma_first_to(s, t);
    }
    let mut i: usize = 0;
    while i < moves.len()
        invariant
            i <= moves@.len(),
            s == refs_view(moves@),
            forall|j: int| 0 <= j < i ==> (#[trigger] s[j]).to_tile != t,
        decreases moves@.len() - i,
    {
        assert(s[i as int] == moves@[i as int]@);
        if moves[i].to_tile == t {
            proof {
                lemma_first_to(s, t);
            }
            return Some(i);
        }
        i += 1;
    }
    None
}

pub open spec fn refs_view(s: Seq<&Edge>) -> Seq<EdgeV> {
    s.map_values(|e: &Edge| e@)
}

fn leads(moves: &Vec<&Edge>, at: Tile, dx: i32, dy: i32) -> (r: bool)
    ensures
        r == has_offset(refs_view(moves@), at, dx as int, dy as int),
{
    match step_from(at, dx, dy) {
        Some(t) => find_to(moves, t).is_some(),
        None => false,
    }
}

fn corner(moves: &Vec<&Edge>, at: Tile, dir: Step) -> (r: bool)
    ensures
        r == corner_forced(refs_view(moves@), at, dir),
{
    (!leads(moves, at, dir.dx, 0) || !leads(moves, at, 0, dir.dy)) && leads(moves, at, dir.dx, dir.dy)
}

fn side(moves: &Vec<&Edge>, at: Tile, dir: Step, sx: i32, sy: i32) -> (r: bool)
    requires
        -1 <= dir.dx <= 1 && -1 <= dir.dy <= 1 && -1 <= sx <= 1 && -1 <= sy <= 1,
    ensures
        r == side_forced(refs_view(moves@), at, dir, sx as int, sy as int),
{
    !leads(moves, at, sx, sy) && leads(moves, at, dir.dx + sx, dir.dy + sy)
}

/// The offsets of the neighbours that are forced.
fn forced_offsets(moves: &Vec<&Edge>, at: Tile, dir: Step) -> (r: Vec<(i32, i32)>)
    ensures
        forall|ox: i32, oy: i32| r@.contains((ox, oy)) <==> #[trigger] is_forced(
            refs_view(moves@),
            at,
            dir,
            ox as int,
            oy as int,
        ),
        r@.len() > 0 <==> some_forced(refs_view(moves@), at, dir),
{
    let ghost s = refs_view(moves@);
    let mut r: Vec<(i32, i32)> = Vec::new();
    if dir.is_diagonal() {
        if corner(moves, at, dir) {
            r.push((dir.dx, dir.dy));
            assert(r@[0] == (dir.dx, dir.dy));
        }
        return r;
    }
    if (dir.dx == 1 || dir.dx == -1) && dir.dy == 0 {
        let (up, down) = (side(moves, at, dir, 0, 1), side(moves, at, dir, 0, -1));
        if up {
            r.push((dir.dx, 1));
        }
        if down {
            r.push((dir.dx, -1));
        }
        proof {
            if up {
                assert(r@[0] == (dir.dx, 1i32));
            }
            if down {
                assert(r@[r@.len() - 1] == (dir.dx, ((-1) as i32)));
            }
        }
    } else if dir.dx == 0 && (dir.dy == 1 || dir.dy == -1) {
        let (right, left) = (side(moves, at, dir, 1, 0), side(moves, at, dir, -1, 0));
        if right {
            r.push((1, dir.dy));
        }
        if left {
            r.push((-1, dir.dy));
        }
        proof {
            if right {
                assert(r@[0] == (1i32, dir.dy));
            }
            if left {
                assert(r@[r@.len() - 1] == (((-1) as i32), dir.dy));
            }
        }
    }
    r
}

fn lists(offsets: &Vec<(i32, i32)>, ox: i32, oy: i32) -> (r: bool)
    ensures
        r == offsets@.contains((ox, oy)),
{
    let mut i: usize = 0;
    while i < offsets.len()
        invariant
            i <= offsets@.len(),
            forall|j: int| 0 <= j < i ==> #[trigger] offsets@[j] != (ox, oy),
        decreases offsets@.len() - i,
    {
        if offsets[i].0 == ox && offsets[i].1 == oy {
            assert(offsets@[i as int] == (ox, oy));
            return true;
        }
        i += 1;
    }
    false
}

fn moves_among<'b>(edges: &'b Vec<Edge>) -> (r: Vec<&'b Edge>)
    ensures
        refs_view(r@) == moves_of(edges_view(edges@)),
{
    let ghost s = edges_view(edges@);
    let mut r: Vec<&'b Edge> = Vec::new();
    let mut i: usize = 0;
    assert(refs_view(r@) =~= moves_of(s.take(0)));
    while i < edges.len()
        invariant
            i <= edges@.len(),
            s == edges_view(edges@),
            refs_view(r@) == moves_of(s.take(i as int)),
        decreases edges@.len() - i,
    {
        let ghost before = r@;
        assert(s.take(i + 1).drop_last() =~= s.take(i as int));
        assert(s[i as int] == edges@[i as int]@);
        if same(edges[i].type_.as_str(), "move") {
            r.push(&edges[i]);
            assert(refs_view(r@) =~= refs_view(before).push(s[i as int]));
        }
        i += 1;
    }
    assert(s.take(i as int) =~= s);
    r
}

/// Prunes steps by the rules of jump point search.
pub struct JpsPruner<'a, P: GraphProvider> {
    pub provider: &'a P,
    pub goal: Tile,
    pub options: &'a SearchOptions,
    pub config: JpsConfig,
}

/// How many tiles lie ahead before the coordinates end.
pub open spec fn room(t: Tile, dir: Step) -> int {
    if dir.dx > 0 {
        i32::MAX - t.x
    } else if dir.dx < 0 {
        t.x - i32::MIN
    } else if dir.dy > 0 {
        i32::MAX - t.y
    } else {
        t.y - i32::MIN
    }
}

/// The steps among which the forced neighbours of a tile that a run has come to are looked for:
/// along an axis the tile's own, on a diagonal those of the tile before it.
pub open spec fn steps_around(edges: spec_fn(Tile) -> Seq<EdgeV>, before: Tile, at: Tile, dir: Step) -> Seq<EdgeV> {
    moves_of(edges(if dir.diagonal() { before } else { at }))
}

/// Where a run ends that goes straight on from a tile, `steps` tiles after its start: at the
/// goal, where a neighbour is forced, where on a diagonal a run along one of its axes ends
/// somewhere, or where it is long enough. A run that comes to no such tile ends nowhere. One in no
/// direction ends where it is, if there is a step from the tile to itself, and else nowhere.
pub open spec fn run_end(
    edges: spec_fn(Tile) -> Seq<EdgeV>,
    goal: Tile,
    most: Option<u32>,
    from: Tile,
    dir: Step,
    steps: int,
) -> Option<Tile>
    decreases (if dir.diagonal() { 1int } else { 0int }), room(from, dir),
{
    if most is Some && steps >= most->0 {
        Some(from)
    } else if dir.dx == 0 && dir.dy == 0 {
        if first_to(moves_of(edges(from)), from) is None { None } else { Some(from) }
    } else {
        match stepped(from, dir.dx as int, dir.dy as int) {
            None => None,
            Some(next) => {
                let moves = moves_of(edges(from));
                if first_to(moves, next) is None {
                    None
                } else if next == goal || some_forced(steps_around(edges, from, next, dir), next, dir) {
                    Some(next)
                } else if dir.diagonal() && (run_end(edges, goal, most, next, Step { dx: dir.dx, dy: 0 }, 0) is Some || run_end(
                    edges,
                    goal,
                    most,
                    next,
                    Step { dx: 0, dy: dir.dy },
                    0,
                ) is Some) {
                    Some(next)
                } else {
                    run_end(edges, goal, most, next, dir, steps + 1)
                }
            },
        }
    }
}

/// Whether a run comes to an end: one in no direction goes on for ever where there is a step from its
/// tile to itself, the tile is not the goal and no length is set.
pub open spec fn comes_to_an_end(
    edges: spec_fn(Tile) -> Seq<EdgeV>,
    goal: Tile,
    most: Option<u32>,
    from: Tile,
    dir: Step,
) -> bool {
    dir.dx != 0 || dir.dy != 0 || most is Some || from == goal || first_to(moves_of(edges(from)), from) is None
}

impl<'a, P: GraphProvider> JpsPruner<'a, P> {
    pub open spec fn edges(self) -> spec_fn(Tile) -> Seq<EdgeV> {
        |t: Tile| self.provider.edges_from(t, self.goal, *self.options)
    }

    pub fn new(provider: &'a P, goal: Tile, options: &'a SearchOptions, config: JpsConfig) -> (r: JpsPruner<'a, P>)
        ensures
            *r.provider == *provider && r.goal == goal && *r.options == *options && r.config == config,
    {
        JpsPruner { provider, goal, options, config }
    }

    /// The way from one tile to another as a step of at most one along each axis.
    pub fn direction(from: Tile, to: Tile) -> (r: Option<Step>)
        ensures
            r == heading(from, to),
    {
        if from.x == to.x && from.y == to.y {
            None
        } else {
            Some(Step { dx: sign_of(from.x, to.x), dy: sign_of(from.y, to.y) })
        }
    }

    /// Keeps the natural and the forced steps, in the order of steps, and after them everything
    /// that is no step.
    pub fn prune_neighbors(&self, current: Tile, parent: Option<Tile>, raw: Vec<Edge>) -> (r: Vec<Edge>)
        ensures
            edges_view(r@) == pruned(self.config.enabled, current, parent, edges_view(raw@)),
    {
        if !self.config.enabled {
            return raw;
        }
        let dir: Step = match parent {
            Some(p) => match Self::direction(p, current) {
                Some(d) => d,
                None => {
                    return raw;
                },
            },
            None => {
                return raw;
            },
        };
        let ghost s = edges_view(raw@);
        let moves: Vec<&Edge> = moves_among(&raw);
        let ghost m = refs_view(moves@);
        let forced: Vec<(i32, i32)> = forced_offsets(&moves, current, dir);
        let order: [Movement; 8] = movement_order();
        let mut kept: Vec<Edge> = Vec::new();
        let mut i: usize = 0;
        assert(edges_view(kept@) =~= Seq::<EdgeV>::empty());
        while i < 8
            invariant
                i <= 8,
                order@ == steps_in_order(),
                m == refs_view(moves@),
                forall|ox: i32, oy: i32| forced@.contains((ox, oy)) <==> #[trigger] is_forced(
                    m,
                    current,
                    dir,
                    ox as int,
                    oy as int,
                ),
                edges_view(kept@) == kept_moves(m, current, dir, i as int),
            decreases 8 - i,
        {
            let ghost before = edges_view(kept@);
            let (ox, oy) = (order[i].dx(), order[i].dy());
            let natural: bool = (ox == dir.dx && oy == dir.dy) || (dir.is_diagonal() && ((ox == dir.dx && oy == 0) || (ox == 0
                && oy == dir.dy)));
            assert(forced@.contains((ox, oy)) <==> is_forced(m, current, dir, ox as int, oy as int));
            if natural || lists(&forced, ox, oy) {
                if let Some(t) = step_from(current, ox, oy) {
                    if let Some(k) = find_to(&moves, t) {
                        let e: Edge = moves[k].copy();
                        assert(e@ == m[k as int]);
                        kept.push(e);
                        assert(edges_view(kept@) =~= before.push(m[k as int]));
                    }
                }
            }
            i += 1;
        }
        let ghost steps = edges_view(kept@);
        let mut j: usize = 0;
        assert(edges_view(kept@) =~= steps + others_of(s.take(0)));
        while j < raw.len()
            invariant
                j <= raw@.len(),
                s == edges_view(raw@),
                edges_view(kept@) == steps + others_of(s.take(j as int)),
            decreases raw@.len() - j,
        {
            let ghost before = edges_view(kept@);
            assert(s.take(j + 1).drop_last() =~= s.take(j as int));
            assert(s[j as int] == raw@[j as int]@);
            if !same(raw[j].type_.as_str(), "move") {
                let e: Edge = raw[j].copy();
                kept.push(e);
                assert(edges_view(kept@) =~= before.push(s[j as int]));
                assert(before.push(s[j as int]) =~= steps + others_of(s.take(j + 1)));
            }
            j += 1;
        }
        assert(s.take(j as int) =~= s);
        kept
    }

    fn read_moves(&self, at: Tile) -> (r: Result<Vec<Edge>, ReadError>)
        ensures
            self.provider.tells() && r is Ok ==> edges_view(r->Ok_0@) == self.edges()(at),
            !self.provider.may_fail() ==> r is Ok,
    {
        self.provider.neighbors(at, self.goal, self.options)
    }

    fn run(&self, from: Tile, dir: Step) -> (r: Result<Option<Tile>, ReadError>)
        requires
            dir.dx != 0 || dir.dy != 0,
        ensures
            self.provider.tells() && r is Ok ==> r->Ok_0 == run_end(self.edges(), self.goal, self.config.max_jump, from, dir, 0),
            !self.provider.may_fail() ==> r is Ok,
        decreases (if dir.diagonal() { 1int } else { 0int }),
    {
        let ghost edges = self.edges();
        let ghost most = self.config.max_jump;
        let mut steps: u64 = 0;
        let mut current: Tile = from;
        loop
            invariant
                dir.dx != 0 || dir.dy != 0,
                edges == self.edges(),
                most == self.config.max_jump,
                room(current, dir) >= 0,
                steps + room(current, dir) <= 0xFFFF_FFFF,
                self.provider.tells() ==> run_end(edges, self.goal, most, from, dir, 0) == run_end(
                    edges,
                    self.goal,
                    most,
                    current,
                    dir,
                    steps as int,
                ),
            decreases room(current, dir),
        {
            if let Some(n) = self.config.max_jump {
                if steps >= n as u64 {
                    return Ok(Some(current));
                }
            }
            let next: Tile = match step_from(current, dir.dx, dir.dy) {
                Some(t) => t,
                None => {
                    return Ok(None);
                },
            };
            let around: Vec<Edge> = match self.read_moves(current) {
                Ok(v) => v,
                Err(e) => {
                    return Err(e);
                },
            };
            let moves: Vec<&Edge> = moves_among(&around);
            assert(self.provider.tells() ==> refs_view(moves@) == moves_of(edges(current)));
            if find_to(&moves, next).is_none() {
                return Ok(None);
            }
            if next == self.goal {
                return Ok(Some(next));
            }
            if dir.is_diagonal() {
                if forced_offsets(&moves, next, dir).len() > 0 {
                    return Ok(Some(next));
                }
                match self.run(next, Step { dx: dir.dx, dy: 0 }) {
                    Ok(Some(_)) => {
                        return Ok(Some(next));
                    },
                    Ok(None) => {},
                    Err(e) => {
                        return Err(e);
                    },
                }
                match self.run(next, Step { dx: 0, dy: dir.dy }) {
                    Ok(Some(_)) => {
                        return Ok(Some(next));
                    },
                    Ok(None) => {},
                    Err(e) => {
                        return Err(e);
                    },
                }
            } else {
                let beyond: Vec<Edge> = match self.read_moves(next) {
                    Ok(v) => v,
                    Err(e) => {
                        return Err(e);
                    },
                };
                let ahead: Vec<&Edge> = moves_among(&beyond);
                assert(self.provider.tells() ==> refs_view(ahead@) == moves_of(edges(next)));
                if forced_offsets(&ahead, next, dir).len() > 0 {
                    return Ok(Some(next));
                }
            }
            current = next;
            steps += 1;
        }
    }

    /// Runs straight on from a tile and returns where the run ends, if it ends anywhere.
    pub fn jump(&self, from: Tile, dir: Step) -> (r: Result<Option<Tile>, ReadError>)
        requires
            self.config.enabled && self.provider.tells() ==> comes_to_an_end(self.edges(), self.goal, self.config.max_jump, from, dir),
        ensures
            self.provider.tells() && r is Ok ==> r->Ok_0 == if self.config.enabled {
                run_end(self.edges(), self.goal, self.config.max_jump, from, dir, 0)
            } else {
                None
            },
            !self.config.enabled ==> r == Ok::<Option<Tile>, ReadError>(None),
            !self.provider.may_fail() ==> r is Ok,
    {
        if !self.config.enabled {
            return Ok(None);
        }
        if dir.dx != 0 || dir.dy != 0 {
            return self.run(from, dir);
        }
        if let Some(n) = self.config.max_jump {
            if n == 0 {
                return Ok(Some(from));
            }
        }
        match self.read_moves(from) {
            Ok(around) => {
                let moves: Vec<&Edge> = moves_among(&around);
                if find_to(&moves, from).is_none() {
                    Ok(None)
                } else {
                    Ok(Some(from))
                }
            },
            Err(e) => Err(e),
        }
    }
}

proof fn lemma_parted(s: Seq<EdgeV>)
    ensures
        forall|i: int|
            0 <= i < moves_of(s).len() ==> s.contains(#[trigger] moves_of(s)[i]) && moves_of(s)[i].type_ == "move"@,
        forall|i: int|
            0 <= i < others_of(s).len() ==> s.contains(#[trigger] others_of(s)[i]) && others_of(s)[i].type_ != "move"@,
    decreases s.len(),
{
    if s.len() > 0 {
        let short = s.drop_last();
        lemma_parted(short);
        assert(s[s.len() - 1] == s.last());
        assert forall|e: EdgeV| short.contains(e) implies s.contains(e) by {
            let j = choose|j: int| 0 <= j < short.len() && short[j] == e;
            assert(s[j] == e);
        }
        assert forall|i: int| 0 <= i < moves_of(s).len() implies s.contains(#[trigger] moves_of(s)[i]) && moves_of(s)[i].type_
            == "move"@ by {
            if i < moves_of(short).len() {
                assert(moves_of(s)[i] == moves_of(short)[i]);
            }
        }
        assert forall|i: int| 0 <= i < others_of(s).len() implies s.contains(#[trigger] others_of(s)[i])
            && others_of(s)[i].type_ != "move"@ by {
            if i < others_of(short).len() {
                assert(others_of(s)[i] == others_of(short)[i]);
            }
        }
    }
}

proof fn lemma_kept(moves: Seq<EdgeV>, at: Tile, dir: Step, k: int)
    ensures
        forall|i: int|
            0 <= i < kept_moves(moves, at, dir, k).len() ==> moves.contains(#[trigger] kept_moves(moves, at, dir, k)[i]),
    decreases k,
{
    if k > 0 {
        lemma_kept(moves, at, dir, k - 1);
        let (ox, oy) = steps_in_order()[k - 1].offset();
        if let Some(t) = stepped(at, ox, oy) {
            lemma_first_to(moves, t);
        }
        let (a, b) = (kept_moves(moves, at, dir, k - 1), kept_moves(moves, at, dir, k));
        assert forall|i: int| 0 <= i < b.len() implies moves.contains(#[trigger] b[i]) by {
            if i < a.len() {
                assert(b[i] == a[i]);
            }
        }
    }
}

proof fn lemma_no_others(s: Seq<EdgeV>)
    requires
        forall|i: int| 0 <= i < s.len() ==> (#[trigger] s[i]).type_ == "move"@,
    ensures
        others_of(s) == Seq::<EdgeV>::empty(),
    decreases s.len(),
{
    if s.len() > 0 {
        lemma_no_others(s.drop_last());
    }
}

proof fn lemma_others_joined(a: Seq<EdgeV>, b: Seq<EdgeV>)
    requires
        forall|i: int| 0 <= i < b.len() ==> (#[trigger] b[i]).type_ != "move"@,
    ensures
        others_of(a + b) == others_of(a) + b,
    decreases b.len(),
{
    if b.len() == 0 {
        assert(a + b =~= a);
    } else {
        lemma_others_joined(a, b.drop_last());
        assert((a + b).drop_last() =~= a + b.drop_last());
        assert(others_of(a) + b =~= (others_of(a) + b.drop_last()).push(b.last()));
    }
}

/// Pruning makes no edge up, and it drops none that is no step nor changes their order.
pub proof fn law_pruning_only_drops_steps(enabled: bool, current: Tile, parent: Option<Tile>, raw: Seq<EdgeV>)
    ensures
        forall|i: int|
            0 <= i < pruned(enabled, current, parent, raw).len() ==> raw.contains(
                #[trigger] pruned(enabled, current, parent, raw)[i],
            ),
        others_of(pruned(enabled, current, parent, raw)) == others_of(raw),
{
    let p = pruned(enabled, current, parent, raw);
    if !enabled || parent is None || heading(parent->0, current) is None {
        assert forall|i: int| 0 <= i < p.len() implies raw.contains(#[trigger] p[i]) by {
            assert(raw[i] == p[i]);
        }
    } else {
        let dir = heading(parent->0, current)->0;
        let moves = moves_of(raw);
        let kept = kept_moves(moves, current, dir, 8);
        let rest = others_of(raw);
        lemma_parted(raw);
        lemma_kept(moves, current, dir, 8);
        assert forall|i: int| 0 <= i < kept.len() implies raw.contains(#[trigger] kept[i]) && kept[i].type_ == "move"@ by {
            let j = choose|j: int| 0 <= j < moves.len() && moves[j] == kept[i];
            assert(raw.contains(moves[j]));
        }
        assert forall|i: int| 0 <= i < p.len() implies raw.contains(#[trigger] p[i]) by {
            if i < kept.len() {
                assert(p[i] == kept[i]);
            } else {
                assert(p[i] == rest[i - kept.len()]);
            }
        }
        lemma_no_others(kept);
        lemma_others_joined(kept, rest);
        assert(others_of(p) =~= rest);
    }
}

/// Whether a tile lies `k` steps ahead.
pub open spec fn ahead(from: Tile, dir: Step, k: int, t: Tile) -> bool {
    k >= 0 && t.x == from.x + k * dir.dx && t.y == from.y + k * dir.dy && t.plane == from.plane
}

/// A run goes straight on: it ends some whole number of steps ahead, and after the first step
/// unless no step is allowed at all.
pub proof fn law_runs_go_straight(
    edges: spec_fn(Tile) -> Seq<EdgeV>,
    goal: Tile,
    most: Option<u32>,
    from: Tile,
    dir: Step,
    steps: int,
)
    ensures
        match run_end(edges, goal, most, from, dir, steps) {
            Some(t) => exists|k: int| #[trigger] ahead(from, dir, k, t) && (k > 0 || (most is Some && steps >= most->0)),
            None => true,
        },
    decreases room(from, dir),
{
    if let Some(t) = run_end(edges, goal, most, from, dir, steps) {
        if most is Some && steps >= most->0 {
            assert(ahead(from, dir, 0, t)) by (nonlinear_arith)
                requires
                    t == from,
            ;
        } else if let Some(next) = stepped(from, dir.dx as int, dir.dy as int) {
            assert(ahead(from, dir, 1, next));
            if t != next {
                law_runs_go_straight(edges, goal, most, next, dir, steps + 1);
                let k = choose|k: int| #[trigger] ahead(next, dir, k, t);
                assert(ahead(from, dir, k + 1, t)) by (nonlinear_arith)
                    requires
                        ahead(next, dir, k, t),
                        next.x == from.x + dir.dx,
                        next.y == from.y + dir.dy,
                        next.plane == from.plane,
                ;
            }
        }
    }
}

/// Whether a step leads from one tile to another.
pub open spec fn leads_to(edges: spec_fn(Tile) -> Seq<EdgeV>, a: Tile, b: Tile) -> bool {
    exists|i: int| 0 <= i < edges(a).len() && (#[trigger] edges(a)[i]).type_ == "move"@ && edges(a)[i].to_tile == b
}

/// The tiles at an offset from a tile.
pub open spec fn is_off(at: Tile, ox: int, oy: int, b: Tile) -> bool {
    b.x == at.x + ox && b.y == at.y + oy && b.plane == at.plane
}

/// Whether a step leads from `src` to the tile at an offset from `at`.
pub open spec fn leads_off(edges: spec_fn(Tile) -> Seq<EdgeV>, src: Tile, at: Tile, ox: int, oy: int) -> bool {
    exists|b: Tile| #[trigger] is_off(at, ox, oy, b) && leads_to(edges, src, b)
}

/// Whether the tiles follow one another in the direction, each with a step to the next.
pub open spec fn is_line(edges: spec_fn(Tile) -> Seq<EdgeV>, dir: Step, tiles: Seq<Tile>) -> bool {
    &&& tiles.len() > 0
    &&& forall|i: int|
        0 < i < tiles.len() ==> is_off(tiles[i - 1], dir.dx as int, dir.dy as int, #[trigger] tiles[i]) && leads_to(
            edges,
            tiles[i - 1],
            tiles[i],
        )
}

/// Whether there is a reason for a run that has come from `before` to end at a tile: it is the goal; or
/// beside the way along an axis the one side is shut and the tile ahead of it open; or on a diagonal a
/// side is shut and the way on is open; or on a diagonal a run along one of its axes ends somewhere.
pub open spec fn is_reason(
    edges: spec_fn(Tile) -> Seq<EdgeV>,
    goal: Tile,
    most: Option<u32>,
    before: Tile,
    at: Tile,
    dir: Step,
) -> bool {
    ||| at == goal
    ||| (dir.dx == 1 || dir.dx == -1) && dir.dy == 0 && exists|o: int|
        (o == 1 || o == -1) && !leads_off(edges, at, at, 0, o) && #[trigger] leads_off(edges, at, at, dir.dx as int, o)
    ||| dir.dx == 0 && (dir.dy == 1 || dir.dy == -1) && exists|o: int|
        (o == 1 || o == -1) && !leads_off(edges, at, at, o, 0) && #[trigger] leads_off(edges, at, at, o, dir.dy as int)
    ||| dir.dx != 0 && dir.dy != 0 && leads_off(edges, before, at, dir.dx as int, dir.dy as int) && (!leads_off(
        edges,
        before,
        at,
        dir.dx as int,
        0,
    ) || !leads_off(edges, before, at, 0, dir.dy as int))
    ||| dir.dx != 0 && dir.dy != 0 && run_end(edges, goal, most, at, Step { dx: dir.dx, dy: 0 }, 0) is Some
    ||| dir.dx != 0 && dir.dy != 0 && run_end(edges, goal, most, at, Step { dx: 0, dy: dir.dy }, 0) is Some
}

proof fn lemma_moves_hold(s: Seq<EdgeV>)
    ensures
        forall|i: int| 0 <= i < s.len() && (#[trigger] s[i]).type_ == "move"@ ==> moves_of(s).contains(s[i]),
    decreases s.len(),
{
    if s.len() > 0 {
        let short = s.drop_last();
        lemma_moves_hold(short);
        assert forall|i: int| 0 <= i < s.len() && (#[trigger] s[i]).type_ == "move"@ implies moves_of(s).contains(s[i]) by {
            if i < short.len() {
                assert(short[i] == s[i]);
                let j = choose|j: int| 0 <= j < moves_of(short).len() && moves_of(short)[j] == s[i];
                assert(moves_of(s)[j] == s[i]);
            } else {
                assert(moves_of(s)[moves_of(s).len() - 1] == s[i]);
            }
        }
    }
}

proof fn lemma_leads_to(edges: spec_fn(Tile) -> Seq<EdgeV>, a: Tile, b: Tile)
    ensures
        first_to(moves_of(edges(a)), b) is Some <==> leads_to(edges, a, b),
{
    let s = edges(a);
    let moves = moves_of(s);
    lemma_first_to(moves, b);
    lemma_parted(s);
    lemma_moves_hold(s);
    if let Some(i) = first_to(moves, b) {
        assert(s.contains(moves[i]));
        let j = choose|j: int| 0 <= j < s.len() && s[j] == moves[i];
        assert(s[j].type_ == "move"@ && s[j].to_tile == b);
    } else if leads_to(edges, a, b) {
        let i = choose|i: int| 0 <= i < s.len() && (#[trigger] s[i]).type_ == "move"@ && s[i].to_tile == b;
        let j = choose|j: int| 0 <= j < moves.len() && moves[j] == s[i];
        assert(moves[j].to_tile != b);
    }
}

proof fn lemma_leads_off(edges: spec_fn(Tile) -> Seq<EdgeV>, src: Tile, at: Tile, ox: int, oy: int)
    ensures
        has_offset(moves_of(edges(src)), at, ox, oy) <==> leads_off(edges, src, at, ox, oy),
{
    if let Some(b) = stepped(at, ox, oy) {
        lemma_leads_to(edges, src, b);
        assert(is_off(at, ox, oy, b));
        if leads_off(edges, src, at, ox, oy) {
            let c = choose|c: Tile| #[trigger] is_off(at, ox, oy, c) && leads_to(edges, src, c);
            assert(c == b);
        }
    } else if leads_off(edges, src, at, ox, oy) {
        let c = choose|c: Tile| #[trigger] is_off(at, ox, oy, c) && leads_to(edges, src, c);
        assert(i32::MIN <= c.x <= i32::MAX);
    }
}

/// What makes a run end, in the words of `run_end`.
proof fn lemma_reason(edges: spec_fn(Tile) -> Seq<EdgeV>, goal: Tile, most: Option<u32>, before: Tile, at: Tile, dir: Step)
    ensures
        is_reason(edges, goal, most, before, at, dir) <==> at == goal || some_forced(
            steps_around(edges, before, at, dir),
            at,
            dir,
        ) || (dir.diagonal() && (run_end(edges, goal, most, at, Step { dx: dir.dx, dy: 0 }, 0) is Some || run_end(
            edges,
            goal,
            most,
            at,
            Step { dx: 0, dy: dir.dy },
            0,
        ) is Some)),
{
    let (dx, dy) = (dir.dx as int, dir.dy as int);
    let src = if dir.diagonal() { before } else { at };
    lemma_leads_off(edges, src, at, dx, dy);
    lemma_leads_off(edges, src, at, dx, 0);
    lemma_leads_off(edges, src, at, 0, dy);
    lemma_leads_off(edges, src, at, 0, 1);
    lemma_leads_off(edges, src, at, 0, -1);
    lemma_leads_off(edges, src, at, 1, 0);
    lemma_leads_off(edges, src, at, -1, 0);
    lemma_leads_off(edges, src, at, dx, 1);
    lemma_leads_off(edges, src, at, dx, -1);
    lemma_leads_off(edges, src, at, 1, dy);
    lemma_leads_off(edges, src, at, -1, dy);
    if along_x(dir) {
        assert(leads_off(edges, at, at, dx, 1) || !leads_off(edges, at, at, dx, 1));
        assert(leads_off(edges, at, at, dx, -1) || !leads_off(edges, at, at, dx, -1));
    }
    if along_y(dir) {
        assert(leads_off(edges, at, at, 1, dy) || !leads_off(edges, at, at, 1, dy));
        assert(leads_off(edges, at, at, -1, dy) || !leads_off(edges, at, at, -1, dy));
    }
}

/// A run that has a step ahead and no reason to end after it goes on from there.
proof fn lemma_run_on(
    edges: spec_fn(Tile) -> Seq<EdgeV>,
    goal: Tile,
    most: Option<u32>,
    dir: Step,
    tiles: Seq<Tile>,
    k: int,
)
    requires
        dir.dx != 0 || dir.dy != 0,
        is_line(edges, dir, tiles),
        0 <= k < tiles.len(),
        most is Some ==> k <= most->0,
        forall|i: int| 0 < i <= k ==> !is_reason(edges, goal, most, tiles[i - 1], #[trigger] tiles[i], dir),
    ensures
        run_end(edges, goal, most, tiles[0], dir, 0) == run_end(edges, goal, most, tiles[k], dir, k),
    decreases k,
{
    if k > 0 {
        lemma_run_on(edges, goal, most, dir, tiles, k - 1);
        let (a, b) = (tiles[k - 1], tiles[k]);
        assert(is_off(a, dir.dx as int, dir.dy as int, b) && leads_to(edges, a, b));
        assert(stepped(a, dir.dx as int, dir.dy as int) == Some(b));
        lemma_leads_to(edges, a, b);
        assert(!is_reason(edges, goal, most, tiles[k - 1], tiles[k], dir));
        lemma_reason(edges, goal, most, a, b, dir);
    }
}

/// A run goes straight on along the steps that there are, and ends at the first tile at which there is a
/// reason to; where it may go only so far, it ends after so many steps; where the steps end before that
/// it ends nowhere.
pub proof fn law_runs_end_for_a_reason(
    edges: spec_fn(Tile) -> Seq<EdgeV>,
    goal: Tile,
    most: Option<u32>,
    dir: Step,
    tiles: Seq<Tile>,
)
    requires
        dir.dx != 0 || dir.dy != 0,
        is_line(edges, dir, tiles),
        forall|i: int|
            0 < i < tiles.len() - 1 ==> !is_reason(edges, goal, most, tiles[i - 1], #[trigger] tiles[i], dir),
        most is Some ==> tiles.len() - 1 <= most->0,
    ensures
        tiles.len() > 1 && is_reason(edges, goal, most, tiles[tiles.len() - 2], tiles.last(), dir) ==> run_end(
            edges,
            goal,
            most,
            tiles[0],
            dir,
            0,
        ) == Some(tiles.last()),
        most is Some && tiles.len() - 1 == most->0 ==> run_end(edges, goal, most, tiles[0], dir, 0) == Some(tiles.last()),
        (tiles.len() == 1 || !is_reason(edges, goal, most, tiles[tiles.len() - 2], tiles.last(), dir)) && (most is Some
            ==> tiles.len() - 1 < most->0) && !leads_off(
            edges,
            tiles.last(),
            tiles.last(),
            dir.dx as int,
            dir.dy as int,
        ) ==> run_end(edges, goal, most, tiles[0], dir, 0) is None,
{
    let k = tiles.len() - 1;
    let t = tiles.last();
    if k > 0 && is_reason(edges, goal, most, tiles[k - 1], t, dir) {
        lemma_run_on(edges, goal, most, dir, tiles, k - 1);
        let a = tiles[k - 1];
        assert(is_off(a, dir.dx as int, dir.dy as int, tiles[k]) && leads_to(edges, a, tiles[k]));
        assert(stepped(a, dir.dx as int, dir.dy as int) == Some(t));
        lemma_leads_to(edges, a, t);
        lemma_reason(edges, goal, most, a, t, dir);
    } else {
        lemma_run_on(edges, goal, most, dir, tiles, k);
        lemma_leads_off(edges, t, t, dir.dx as int, dir.dy as int);
    }
}

/// A run that comes to the goal straight on ends, there or before it.
pub proof fn law_runs_do_not_pass_the_goal(
    edges: spec_fn(Tile) -> Seq<EdgeV>,
    goal: Tile,
    most: Option<u32>,
    dir: Step,
    tiles: Seq<Tile>,
    steps: int,
)
    requires
        dir.dx != 0 || dir.dy != 0,
        is_line(edges, dir, tiles),
        tiles.len() > 1,
        tiles.last() == goal,
    ensures
        run_end(edges, goal, most, tiles[0], dir, steps) is Some,
        tiles.contains(run_end(edges, goal, most, tiles[0], dir, steps)->0),
    decreases tiles.len(),
{
    let (a, b) = (tiles[0], tiles[1]);
    assert(is_off(a, dir.dx as int, dir.dy as int, tiles[1]) && leads_to(edges, a, tiles[1]));
    assert(stepped(a, dir.dx as int, dir.dy as int) == Some(b));
    lemma_leads_to(edges, a, b);
    if b != goal {
        let rest = tiles.skip(1);
        assert forall|i: int| 0 < i < rest.len() implies is_off(rest[i - 1], dir.dx as int, dir.dy as int, #[trigger] rest[i])
            && leads_to(edges, rest[i - 1], rest[i]) by {
            assert(is_off(tiles[i], dir.dx as int, dir.dy as int, tiles[i + 1]));
        }
        law_runs_do_not_pass_the_goal(edges, goal, most, dir, rest, steps + 1);
        let t = run_end(edges, goal, most, b, dir, steps + 1)->0;
        let j = choose|j: int| 0 <= j < rest.len() && rest[j] == t;
        assert(tiles[j + 1] == t);
    }
}

/// A run on a diagonal that comes to a tile from which the goal lies straight ahead along one of the two
/// axes, with a step to each tile on the way, ends, and no further than at that tile.
pub proof fn law_diagonals_see_the_goal(
    edges: spec_fn(Tile) -> Seq<EdgeV>,
    goal: Tile,
    most: Option<u32>,
    dir: Step,
    tiles: Seq<Tile>,
    axis: Step,
    sight: Seq<Tile>,
    steps: int,
)
    requires
        dir.dx != 0 && dir.dy != 0,
        axis == (Step { dx: dir.dx, dy: 0 }) || axis == (Step { dx: 0, dy: dir.dy }),
        is_line(edges, dir, tiles),
        tiles.len() > 1,
        is_line(edges, axis, sight),
        sight.len() > 1,
        sight[0] == tiles.last(),
        sight.last() == goal,
    ensures
        run_end(edges, goal, most, tiles[0], dir, steps) is Some,
        tiles.contains(run_end(edges, goal, most, tiles[0], dir, steps)->0),
    decreases tiles.len(),
{
    let (a, b) = (tiles[0], tiles[1]);
    assert(is_off(a, dir.dx as int, dir.dy as int, tiles[1]) && leads_to(edges, a, tiles[1]));
    assert(stepped(a, dir.dx as int, dir.dy as int) == Some(b));
    lemma_leads_to(edges, a, b);
    if tiles.len() == 2 {
        law_runs_do_not_pass_the_goal(edges, goal, most, axis, sight, 0);
        assert(run_end(edges, goal, most, b, axis, 0) is Some);
    } else {
        let rest = tiles.skip(1);
        assert forall|i: int| 0 < i < rest.len() implies is_off(rest[i - 1], dir.dx as int, dir.dy as int, #[trigger] rest[i])
            && leads_to(edges, rest[i - 1], rest[i]) by {
            assert(is_off(tiles[i], dir.dx as int, dir.dy as int, tiles[i + 1]));
        }
        law_diagonals_see_the_goal(edges, goal, most, dir, rest, axis, sight, steps + 1);
        let t = run_end(edges, goal, most, b, dir, steps + 1)->0;
        let j = choose|j: int| 0 <= j < rest.len() && rest[j] == t;
        assert(tiles[j + 1] == t);
    }
}

/// Whether one of the edges is a step to the tile at an offset.
pub open spec fn steps_off(edges: Seq<EdgeV>, at: Tile, ox: int, oy: int) -> bool {
    exists|i: int| 0 <= i < edges.len() && (#[trigger] edges[i]).type_ == "move"@ && is_off(at, ox, oy, edges[i].to_tile)
}

/// Whether the step at an offset matters to one who comes in the direction: it leads straight on, or on
/// a diagonal along one of its axes; or it gets round what is shut beside the way.
pub open spec fn matters(edges: Seq<EdgeV>, at: Tile, dx: int, dy: int, ox: int, oy: int) -> bool {
    ||| ox == dx && oy == dy
    ||| dx != 0 && dy != 0 && ((ox == dx && oy == 0) || (ox == 0 && oy == dy))
    ||| dx != 0 && dy == 0 && ox == dx && oy != 0 && !steps_off(edges, at, 0, oy)
    ||| dx == 0 && dy != 0 && oy == dy && ox != 0 && !steps_off(edges, at, ox, 0)
}

proof fn lemma_steps_off(edges: Seq<EdgeV>, at: Tile, ox: int, oy: int)
    ensures
        has_offset(moves_of(edges), at, ox, oy) <==> steps_off(edges, at, ox, oy),
{
    let f = |t: Tile| edges;
    lemma_leads_off(f, at, at, ox, oy);
    if leads_off(f, at, at, ox, oy) {
        let b = choose|b: Tile| #[trigger] is_off(at, ox, oy, b) && leads_to(f, at, b);
        let i = choose|i: int| 0 <= i < f(at).len() && (#[trigger] f(at)[i]).type_ == "move"@ && f(at)[i].to_tile == b;
        assert(edges[i].type_ == "move"@);
    }
    if steps_off(edges, at, ox, oy) {
        let i = choose|i: int|
            0 <= i < edges.len() && (#[trigger] edges[i]).type_ == "move"@ && is_off(at, ox, oy, edges[i].to_tile);
        assert(f(at)[i].type_ == "move"@);
        assert(leads_to(f, at, edges[i].to_tile));
    }
}

/// Which steps are kept.
spec fn keeps(moves: Seq<EdgeV>, at: Tile, dir: Step, j: int) -> bool {
    let (ox, oy) = steps_in_order()[j].offset();
    (is_natural(dir, ox, oy) || is_forced(moves, at, dir, ox, oy)) && has_offset(moves, at, ox, oy)
}

spec fn kept_at(moves: Seq<EdgeV>, at: Tile, dir: Step, j: int) -> EdgeV {
    let (ox, oy) = steps_in_order()[j].offset();
    moves[first_to(moves, stepped(at, ox, oy)->0)->0]
}

proof fn lemma_kept_are(moves: Seq<EdgeV>, at: Tile, dir: Step, k: int)
    requires
        0 <= k <= 8,
    ensures
        forall|j: int|
            0 <= j < k && #[trigger] keeps(moves, at, dir, j) ==> kept_moves(moves, at, dir, k).contains(
                kept_at(moves, at, dir, j),
            ),
        forall|i: int|
            0 <= i < kept_moves(moves, at, dir, k).len() ==> exists|j: int|
                0 <= j < k && #[trigger] keeps(moves, at, dir, j) && (#[trigger] kept_moves(moves, at, dir, k)[i])
                    == kept_at(moves, at, dir, j),
    decreases k,
{
    if k > 0 {
        lemma_kept_are(moves, at, dir, k - 1);
        let (a, b) = (kept_moves(moves, at, dir, k - 1), kept_moves(moves, at, dir, k));
        assert forall|j: int| 0 <= j < k && #[trigger] keeps(moves, at, dir, j) implies b.contains(
            kept_at(moves, at, dir, j),
        ) by {
            if j < k - 1 {
                let x = choose|x: int| 0 <= x < a.len() && a[x] == kept_at(moves, at, dir, j);
                assert(b[x] == a[x]);
            } else {
                assert(b[a.len() as int] == kept_at(moves, at, dir, j));
            }
        }
        assert forall|i: int| 0 <= i < b.len() implies exists|j: int|
            0 <= j < k && #[trigger] keeps(moves, at, dir, j) && (#[trigger] b[i]) == kept_at(moves, at, dir, j) by {
            if i < a.len() {
                assert(b[i] == a[i]);
                let j = choose|j: int|
                    0 <= j < k - 1 && #[trigger] keeps(moves, at, dir, j) && a[i] == kept_at(moves, at, dir, j);
                assert(keeps(moves, at, dir, j));
            } else {
                assert(keeps(moves, at, dir, k - 1));
            }
        }
    }
}

/// Of the steps to the tiles around, pruning keeps exactly those that matter to one who comes from the
/// parent, and where nothing is known of the way here or the search is switched off it keeps all.
pub proof fn law_pruning_keeps_what_matters(current: Tile, parent: Tile, raw: Seq<EdgeV>, ox: int, oy: int)
    requires
        parent.x != current.x || parent.y != current.y,
        -1 <= ox <= 1 && -1 <= oy <= 1,
        ox != 0 || oy != 0,
    ensures
        pruned(false, current, Some(parent), raw) == raw,
        pruned(true, current, None, raw) == raw,
        ({
            let dx: int = if current.x > parent.x { 1 } else if current.x < parent.x { -1 } else { 0 };
            let dy: int = if current.y > parent.y { 1 } else if current.y < parent.y { -1 } else { 0 };
            steps_off(pruned(true, current, Some(parent), raw), current, ox, oy) <==> steps_off(raw, current, ox, oy)
                && matters(raw, current, dx, dy, ox, oy)
        }),
{
    let p = pruned(true, current, Some(parent), raw);
    let dir = heading(parent, current)->0;
    let moves = moves_of(raw);
    let kept = kept_moves(moves, current, dir, 8);
    let others = others_of(raw);
    lemma_parted(raw);
    lemma_kept(moves, current, dir, 8);
    lemma_kept_are(moves, current, dir, 8);
    lemma_steps_off(raw, current, ox, oy);
    lemma_steps_off(raw, current, 0, oy);
    lemma_steps_off(raw, current, ox, 0);
    lemma_steps_off(raw, current, dir.dx as int, dir.dy as int);
    let o = steps_in_order();
    assert(o[0].offset() == (0int, 1int) && o[1].offset() == (0int, -1int) && o[2].offset() == (1int, 0int) && o[3].offset() == (
        -1int,
        0int,
    ));
    assert(o[4].offset() == (1int, 1int) && o[5].offset() == (-1int, 1int) && o[6].offset() == (1int, -1int) && o[7].offset()
        == (-1int, -1int));
    let j: int = if ox == 0 {
        if oy == 1 { 0 } else { 1 }
    } else if oy == 0 {
        if ox == 1 { 2 } else { 3 }
    } else if oy == 1 {
        if ox == 1 { 4 } else { 5 }
    } else if ox == 1 { 6 } else { 7 };
    assert(o[j].offset() == (ox, oy));
    assert(keeps(moves, current, dir, j) <==> steps_off(raw, current, ox, oy) && matters(
        raw,
        current,
        dir.dx as int,
        dir.dy as int,
        ox,
        oy,
    ));
    if keeps(moves, current, dir, j) {
        let e = kept_at(moves, current, dir, j);
        lemma_first_to(moves, stepped(current, ox, oy)->0);
        assert(is_off(current, ox, oy, e.to_tile));
        let x = choose|x: int| 0 <= x < kept.len() && kept[x] == e;
        assert(p[x] == e);
        assert(moves.contains(kept[x]));
        let y = choose|y: int| 0 <= y < moves.len() && moves[y] == kept[x];
        assert(moves[y].type_ == "move"@);
        assert(steps_off(p, current, ox, oy));
    }
    if steps_off(p, current, ox, oy) {
        let x = choose|x: int|
            0 <= x < p.len() && (#[trigger] p[x]).type_ == "move"@ && is_off(current, ox, oy, p[x].to_tile);
        if x >= kept.len() {
            assert(p[x] == others[x - kept.len()]);
        }
        assert(kept[x] == p[x]);
        let i = choose|i: int|
            0 <= i < 8 && #[trigger] keeps(moves, current, dir, i) && kept[x] == kept_at(moves, current, dir, i);
        let (ax, ay) = o[i].offset();
        lemma_first_to(moves, stepped(current, ax, ay)->0);
        assert(is_off(current, ax, ay, p[x].to_tile));
        assert(ax == ox && ay == oy);
        assert(i == j);
    }
}

}
