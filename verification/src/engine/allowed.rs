//! What holds of the edges that a search takes and of the routes that it finds, in terms of the
//! snapshot and of what the caller has.

use vstd::prelude::*;
#[allow(unused_imports)]
use crate::engine::attempt::{
    cost_up_to, ends_of, has_link, is_attempt, is_listed, is_told, lemma_lists_hold, lemma_usable_join, step_cost,
};
#[allow(unused_imports)]
use crate::engine::edges::{
    all_join, joins, macro_edge, told_cost, usable_edges, usable_lists, walk_edge, walk_edges, with_ends, with_macros,
    with_rings, with_steps, with_usable, Means, UsableEdge,
};
#[allow(unused_imports)]
use crate::engine::eligibility::{all_hold, holds};
#[allow(unused_imports)]
use crate::engine::macros::MacroLookup;
#[allow(unused_imports)]
use crate::engine::outcome::{SearchResult, SearchStatus};
#[allow(unused_imports)]
use crate::engine::weight::{Weight, INFINITE};
#[allow(unused_imports)]
use crate::planner::dijkstra::{is_walk, leads, walk_cost};
#[allow(unused_imports)]
use crate::snapshot::reader::{bit_set, Snapshot};

verus! {

/// Whether the edge is a step of the snapshot: 300 ms straight on, 300 times the root of two on a
/// diagonal.
pub open spec fn is_step(s: Snapshot, e: UsableEdge) -> bool {
    e.from < s.man().counts.nodes && exists|slot: int|
        s.walk_starts()[e.from as int] <= slot < s.walk_starts()[e.from + 1] && (#[trigger] s.walk_ends()[slot]) == e.to
            && e.cost.bits == if bit_set(s.diagonals(), slot) { 0x43d4_21cdu32 } else { 0x4396_0000u32 }
}

/// Whether macro edge `i` is open to the caller: it is no carrier of teleports, and the mask satisfies
/// each of its requirement tags.
pub open spec fn is_open(s: Snapshot, lookup: MacroLookup, m: Means, i: int) -> bool {
    &&& s.macro_words(s.man().off_macro_src)[i] != 0 || s.macro_words(s.man().off_macro_dst)[i] != 0
    &&& forall|k: int|
        0 <= k < lookup.reqs(i).len() ==> (#[trigger] lookup.reqs(i)[k]) < m.mask.satisfied@.len()
            && m.mask.satisfied@[lookup.reqs(i)[k] as int]
}

/// What macro edge `i` costs the caller: a lodestone, which is kind 2, costs 2400 ms with the quick
/// teleport.
pub open spec fn macro_cost(s: Snapshot, m: Means, i: int) -> Weight {
    if m.quick_tele && s.macro_words(s.man().off_macro_kind_first)[i] == 2 {
        Weight { bits: 0x4516_0000 }
    } else {
        Weight { bits: s.macro_words(s.man().off_macro_w)[i] }
    }
}

/// Whether the edge is a macro edge that is open to the caller.
pub open spec fn is_open_macro(s: Snapshot, lookup: MacroLookup, m: Means, e: UsableEdge) -> bool {
    exists|i: int|
        0 <= i < s.man().counts.macro_edges && (#[trigger] s.macro_words(s.man().off_macro_src)[i]) == e.from
            && s.macro_words(s.man().off_macro_dst)[i] == e.to && is_open(s, lookup, m, i) && e.cost == macro_cost(s, m, i)
}

/// Whether the edge is a hop from one of the caller's fairy rings to another.
pub open spec fn is_ring_hop(m: Means, e: UsableEdge) -> bool {
    e.from != e.to && exists|a: int, b: int|
        0 <= a < m.fairy_sources@.len() && 0 <= b < m.fairy_dests@.len() && (#[trigger] m.fairy_sources@[a]) == e.from
            && (#[trigger] m.fairy_dests@[b]).0 == e.to && m.fairy_dests@[b].1 == e.cost
}

/// Whether the edge leads from where the caller is: to the start for nothing, or by a global teleport.
pub open spec fn is_entry(s: Snapshot, m: Means, start: Option<u32>, e: UsableEdge) -> bool {
    e.from == s.man().counts.nodes && ((start is Some && start->0 == e.to && e.cost == Weight { bits: 0 })
        || exists|k: int|
        0 <= k < m.globals@.len() && (#[trigger] m.globals@[k]).0 == e.to && m.globals@[k].1 == e.cost)
}

/// Whether the caller may take the edge: it leads to a node at a finite cost, and is a step, a macro edge
/// that is open, a hop between fairy rings, or leads from where the caller is.
pub open spec fn is_allowed(s: Snapshot, lookup: MacroLookup, m: Means, start: Option<u32>, e: UsableEdge) -> bool {
    &&& e.to < s.man().counts.nodes
    &&& e.cost.is_finite()
    &&& {
        ||| e.from < s.man().counts.nodes && (is_step(s, e) || is_open_macro(s, lookup, m, e) || is_ring_hop(m, e))
        ||| is_entry(s, m, start, e)
    }
}

spec fn all_allowed(s: Snapshot, lookup: MacroLookup, m: Means, start: Option<u32>, edges: Seq<UsableEdge>) -> bool {
    forall|i: int| 0 <= i < edges.len() ==> is_allowed(s, lookup, m, start, #[trigger] edges[i])
}

proof fn lemma_steps_allowed(s: Snapshot, lookup: MacroLookup, m: Means, start: Option<u32>, edges: Seq<UsableEdge>, u: int, end: int)
    requires
        all_allowed(s, lookup, m, start, edges),
        0 <= u < s.man().counts.nodes,
        end <= s.walk_starts()[u + 1],
    ensures
        all_allowed(s, lookup, m, start, with_steps(edges, s, u, end)),
    decreases end - s.walk_starts()[u],
{
    if end > s.walk_starts()[u] {
        lemma_steps_allowed(s, lookup, m, start, edges, u, end - 1);
        let e = walk_edge(s, u, end - 1);
        assert(s.walk_ends()[end - 1] == e.to);
        assert(is_step(s, e));
    }
}

proof fn lemma_walks_allowed(s: Snapshot, lookup: MacroLookup, m: Means, start: Option<u32>, n: int)
    requires
        n <= s.man().counts.nodes,
    ensures
        all_allowed(s, lookup, m, start, walk_edges(s, n)),
    decreases n,
{
    if n > 0 {
        lemma_walks_allowed(s, lookup, m, start, n - 1);
        lemma_steps_allowed(s, lookup, m, start, walk_edges(s, n - 1), n - 1, s.walk_starts()[n] as int);
    }
}

proof fn lemma_macros_allowed(s: Snapshot, lookup: MacroLookup, m: Means, start: Option<u32>, edges: Seq<UsableEdge>, k: int)
    requires
        all_allowed(s, lookup, m, start, edges),
        k <= s.man().counts.macro_edges,
    ensures
        all_allowed(
            s,
            lookup,
            m,
            start,
            with_macros(edges, s, lookup, m.mask.satisfied@, m.quick_tele, k),
        ),
    decreases k,
{
    if k > 0 {
        lemma_macros_allowed(s, lookup, m, start, edges, k - 1);
        let i = k - 1;
        let e = macro_edge(s, m.quick_tele, i);
        let reqs = lookup.reqs(i);
        if !(e.from == 0 && e.to == 0) && all_hold(m.mask.satisfied@, reqs) {
            assert forall|j: int| 0 <= j < reqs.len() implies (#[trigger] reqs[j]) < m.mask.satisfied@.len()
                && m.mask.satisfied@[reqs[j] as int] by {
                assert(holds(m.mask.satisfied@, reqs[j]));
            }
            assert(is_open(s, lookup, m, i));
            assert(s.macro_words(s.man().off_macro_src)[i] == e.from);
            assert(is_open_macro(s, lookup, m, e));
        }
    }
}

proof fn lemma_ends_allowed(
    s: Snapshot,
    lookup: MacroLookup,
    m: Means,
    start: Option<u32>,
    edges: Seq<UsableEdge>,
    a: int,
    k: int,
)
    requires
        all_allowed(s, lookup, m, start, edges),
        0 <= a < m.fairy_sources@.len(),
        k <= m.fairy_dests@.len(),
    ensures
        all_allowed(
            s,
            lookup,
            m,
            start,
            with_ends(
                edges,
                s.man().counts.nodes as int,
                s.man().counts.nodes as int,
                m.fairy_sources@[a] as usize,
                m.fairy_dests@,
                k,
            ),
        ),
    decreases k,
{
    if k > 0 {
        lemma_ends_allowed(s, lookup, m, start, edges, a, k - 1);
        let (v, w) = m.fairy_dests@[k - 1];
        let e = UsableEdge { from: m.fairy_sources@[a] as usize, to: v as usize, cost: w };
        if e.from != v {
            assert(m.fairy_sources@[a] == e.from && m.fairy_dests@[k - 1].0 == e.to);
            assert(is_ring_hop(m, e));
        }
    }
}

proof fn lemma_rings_allowed(s: Snapshot, lookup: MacroLookup, m: Means, start: Option<u32>, edges: Seq<UsableEdge>, k: int)
    requires
        all_allowed(s, lookup, m, start, edges),
        k <= m.fairy_sources@.len(),
    ensures
        all_allowed(
            s,
            lookup,
            m,
            start,
            with_rings(edges, s.man().counts.nodes as int, m.fairy_sources@, m.fairy_dests@, k),
        ),
    decreases k,
{
    if k > 0 {
        lemma_rings_allowed(s, lookup, m, start, edges, k - 1);
        let before = with_rings(edges, s.man().counts.nodes as int, m.fairy_sources@, m.fairy_dests@, k - 1);
        lemma_ends_allowed(s, lookup, m, start, before, k - 1, m.fairy_dests@.len() as int);
    }
}

proof fn lemma_entries_allowed(s: Snapshot, lookup: MacroLookup, m: Means, start: Option<u32>, edges: Seq<UsableEdge>, k: int)
    requires
        s.man().counts.nodes < usize::MAX,
        all_allowed(s, lookup, m, start, edges),
        k <= m.globals@.len(),
    ensures
        all_allowed(
            s,
            lookup,
            m,
            start,
            with_ends(
                edges,
                s.man().counts.nodes + 1,
                s.man().counts.nodes as int,
                s.man().counts.nodes as usize,
                m.globals@,
                k,
            ),
        ),
    decreases k,
{
    if k > 0 {
        lemma_entries_allowed(s, lookup, m, start, edges, k - 1);
        let (v, w) = m.globals@[k - 1];
        let e = UsableEdge { from: s.man().counts.nodes as usize, to: v as usize, cost: w };
        assert(m.globals@[k - 1].0 == e.to && m.globals@[k - 1].1 == e.cost);
        assert(is_entry(s, m, start, e));
    }
}

/// A search takes only edges that the caller may take. In particular it takes no macro edge of which the
/// caller's mask leaves a requirement tag unsatisfied.
pub proof fn law_search_edges_are_allowed(s: Snapshot, lookup: MacroLookup, m: Means, start: Option<u32>)
    requires
        s.man().counts.nodes < usize::MAX,
    ensures
        forall|i: int|
            0 <= i < usable_edges(s, lookup, m, start).len() ==> is_allowed(
                s,
                lookup,
                m,
                start,
                #[trigger] usable_edges(s, lookup, m, start)[i],
            ),
{
    let n = s.man().counts.nodes as int;
    let steps = walk_edges(s, n);
    lemma_walks_allowed(s, lookup, m, start, n);
    let macros = with_macros(steps, s, lookup, m.mask.satisfied@, m.quick_tele, s.man().counts.macro_edges as int);
    lemma_macros_allowed(s, lookup, m, start, steps, s.man().counts.macro_edges as int);
    let rings = with_rings(macros, n, m.fairy_sources@, m.fairy_dests@, m.fairy_sources@.len() as int);
    lemma_rings_allowed(s, lookup, m, start, macros, m.fairy_sources@.len() as int);
    let began = match start {
        Some(v) => with_usable(
            rings,
            n + 1,
            n,
            UsableEdge { from: n as usize, to: v as usize, cost: Weight { bits: 0 } },
        ),
        None => rings,
    };
    assert(all_allowed(s, lookup, m, start, began));
    lemma_entries_allowed(s, lookup, m, start, began, m.globals@.len() as int);
    assert(all_allowed(s, lookup, m, start, usable_edges(s, lookup, m, start)));
}

/// Whether `b` holds all of `a`.
spec fn within(a: Seq<UsableEdge>, b: Seq<UsableEdge>) -> bool {
    forall|e: UsableEdge| #[trigger] a.contains(e) ==> b.contains(e)
}

proof fn lemma_within_usable(edges: Seq<UsableEdge>, from: int, to: int, e: UsableEdge)
    ensures
        within(edges, with_usable(edges, from, to, e)),
        joins(from, to, e) ==> with_usable(edges, from, to, e).contains(e),
{
    let more = with_usable(edges, from, to, e);
    assert forall|x: UsableEdge| #[trigger] edges.contains(x) implies more.contains(x) by {
        let i = choose|i: int| 0 <= i < edges.len() && edges[i] == x;
        assert(more[i] == x);
    }
    if joins(from, to, e) {
        assert(more[edges.len() as int] == e);
    }
}

proof fn lemma_steps_hold(edges: Seq<UsableEdge>, s: Snapshot, u: int, end: int)
    ensures
        within(edges, with_steps(edges, s, u, end)),
        forall|slot: int|
            s.walk_starts()[u] <= slot < end && joins(
                s.man().counts.nodes as int,
                s.man().counts.nodes as int,
                #[trigger] walk_edge(s, u, slot),
            ) ==> with_steps(edges, s, u, end).contains(walk_edge(s, u, slot)),
    decreases end - s.walk_starts()[u],
{
    if end > s.walk_starts()[u] {
        lemma_steps_hold(edges, s, u, end - 1);
        lemma_within_usable(
            with_steps(edges, s, u, end - 1),
            s.man().counts.nodes as int,
            s.man().counts.nodes as int,
            walk_edge(s, u, end - 1),
        );
    }
}

proof fn lemma_walks_hold(s: Snapshot, n: int)
    ensures
        forall|u: int, slot: int|
            0 <= u < n && s.walk_starts()[u] <= slot < s.walk_starts()[u + 1] && joins(
                s.man().counts.nodes as int,
                s.man().counts.nodes as int,
                #[trigger] walk_edge(s, u, slot),
            ) ==> walk_edges(s, n).contains(walk_edge(s, u, slot)),
    decreases n,
{
    if n > 0 {
        lemma_walks_hold(s, n - 1);
        lemma_steps_hold(walk_edges(s, n - 1), s, n - 1, s.walk_starts()[n] as int);
    }
}

proof fn lemma_macros_hold(edges: Seq<UsableEdge>, s: Snapshot, lookup: MacroLookup, m: Means, k: int)
    ensures
        within(edges, with_macros(edges, s, lookup, m.mask.satisfied@, m.quick_tele, k)),
        forall|i: int|
            0 <= i < k && is_open(s, lookup, m, i) && joins(
                s.man().counts.nodes as int,
                s.man().counts.nodes as int,
                #[trigger] macro_edge(s, m.quick_tele, i),
            ) ==> with_macros(edges, s, lookup, m.mask.satisfied@, m.quick_tele, k).contains(
                macro_edge(s, m.quick_tele, i),
            ),
    decreases k,
{
    if k > 0 {
        lemma_macros_hold(edges, s, lookup, m, k - 1);
        let before = with_macros(edges, s, lookup, m.mask.satisfied@, m.quick_tele, k - 1);
        let e = macro_edge(s, m.quick_tele, k - 1);
        lemma_within_usable(before, s.man().counts.nodes as int, s.man().counts.nodes as int, e);
        if is_open(s, lookup, m, k - 1) {
            let reqs = lookup.reqs(k - 1);
            assert forall|j: int| 0 <= j < reqs.len() implies holds(m.mask.satisfied@, #[trigger] reqs[j]) by {}
            assert(all_hold(m.mask.satisfied@, reqs));
        }
    }
}

proof fn lemma_ends_hold(edges: Seq<UsableEdge>, from: int, to: int, u: usize, ends: Seq<(u32, Weight)>, k: int)
    ensures
        within(edges, with_ends(edges, from, to, u, ends, k)),
        forall|i: int|
            0 <= i < k && u != (#[trigger] ends[i]).0 && joins(
                from,
                to,
                UsableEdge { from: u, to: ends[i].0 as usize, cost: ends[i].1 },
            ) ==> with_ends(edges, from, to, u, ends, k).contains(
                UsableEdge { from: u, to: ends[i].0 as usize, cost: ends[i].1 },
            ),
    decreases k,
{
    if k > 0 {
        lemma_ends_hold(edges, from, to, u, ends, k - 1);
        let (v, w) = ends[k - 1];
        lemma_within_usable(
            with_ends(edges, from, to, u, ends, k - 1),
            from,
            to,
            UsableEdge { from: u, to: v as usize, cost: w },
        );
    }
}

proof fn lemma_rings_hold(edges: Seq<UsableEdge>, n: int, sources: Seq<u32>, dests: Seq<(u32, Weight)>, k: int)
    ensures
        within(edges, with_rings(edges, n, sources, dests, k)),
        forall|a: int, b: int|
            #![trigger sources[a], dests[b]]
            0 <= a < k && 0 <= b < dests.len() && sources[a] != dests[b].0 && joins(
                n,
                n,
                UsableEdge { from: sources[a] as usize, to: dests[b].0 as usize, cost: dests[b].1 },
            ) ==> with_rings(edges, n, sources, dests, k).contains(
                UsableEdge { from: sources[a] as usize, to: dests[b].0 as usize, cost: dests[b].1 },
            ),
    decreases k,
{
    if k > 0 {
        lemma_rings_hold(edges, n, sources, dests, k - 1);
        lemma_ends_hold(
            with_rings(edges, n, sources, dests, k - 1),
            n,
            n,
            sources[k - 1] as usize,
            dests,
            dests.len() as int,
        );
    }
}

/// A search takes every edge that the caller may take.
pub proof fn law_allowed_edges_are_searched(s: Snapshot, lookup: MacroLookup, m: Means, start: Option<u32>, e: UsableEdge)
    requires
        s.man().counts.nodes < usize::MAX,
        is_allowed(s, lookup, m, start, e),
    ensures
        usable_edges(s, lookup, m, start).contains(e),
{
    let n = s.man().counts.nodes as int;
    let steps = walk_edges(s, n);
    lemma_walks_hold(s, n);
    let macros = with_macros(steps, s, lookup, m.mask.satisfied@, m.quick_tele, s.man().counts.macro_edges as int);
    lemma_macros_hold(steps, s, lookup, m, s.man().counts.macro_edges as int);
    let rings = with_rings(macros, n, m.fairy_sources@, m.fairy_dests@, m.fairy_sources@.len() as int);
    lemma_rings_hold(macros, n, m.fairy_sources@, m.fairy_dests@, m.fairy_sources@.len() as int);
    let zero = Weight { bits: 0 };
    let began = match start {
        Some(v) => with_usable(rings, n + 1, n, UsableEdge { from: n as usize, to: v as usize, cost: zero }),
        None => rings,
    };
    if let Some(v) = start {
        lemma_within_usable(rings, n + 1, n, UsableEdge { from: n as usize, to: v as usize, cost: zero });
    }
    lemma_ends_hold(began, n + 1, n, n as usize, m.globals@, m.globals@.len() as int);
    if e.from < n {
        assert(rings.contains(e)) by {
            if is_step(s, e) {
                let slot = choose|slot: int|
                    s.walk_starts()[e.from as int] <= slot < s.walk_starts()[e.from + 1] && (#[trigger] s.walk_ends()[slot])
                        == e.to && e.cost.bits == if bit_set(s.diagonals(), slot) {
                        0x43d4_21cdu32
                    } else {
                        0x4396_0000u32
                    };
                assert(walk_edge(s, e.from as int, slot) == e);
                assert(steps.contains(e));
            } else if is_open_macro(s, lookup, m, e) {
                let i = choose|i: int|
                    0 <= i < s.man().counts.macro_edges && (#[trigger] s.macro_words(s.man().off_macro_src)[i]) == e.from
                        && s.macro_words(s.man().off_macro_dst)[i] == e.to && is_open(s, lookup, m, i) && e.cost
                        == macro_cost(s, m, i);
                assert(macro_edge(s, m.quick_tele, i) == e);
                assert(macros.contains(e));
            } else {
                let (a, b) = choose|a: int, b: int|
                    0 <= a < m.fairy_sources@.len() && 0 <= b < m.fairy_dests@.len() && (#[trigger] m.fairy_sources@[a])
                        == e.from && (#[trigger] m.fairy_dests@[b]).0 == e.to && m.fairy_dests@[b].1 == e.cost;
                assert(UsableEdge {
                    from: m.fairy_sources@[a] as usize,
                    to: m.fairy_dests@[b].0 as usize,
                    cost: m.fairy_dests@[b].1,
                } == e);
            }
        }
        assert(began.contains(e));
    } else if start is Some && start->0 == e.to && e.cost == zero {
        assert(began.contains(e));
    } else {
        let k = choose|k: int|
            0 <= k < m.globals@.len() && (#[trigger] m.globals@[k]).0 == e.to && m.globals@[k].1 == e.cost;
        assert(UsableEdge { from: n as usize, to: m.globals@[k].0 as usize, cost: m.globals@[k].1 } == e);
    }
}

/// A macro edge of which the caller's mask leaves a requirement tag unsatisfied is not searched: where
/// no other way leads from its one end to the other, no edge of the search does.
pub proof fn law_closed_macro_edges_are_not_searched(
    s: Snapshot,
    lookup: MacroLookup,
    m: Means,
    start: Option<u32>,
    i: int,
    k: int,
)
    requires
        s.man().counts.nodes < usize::MAX,
        0 <= i < s.man().counts.macro_edges,
        0 <= k < lookup.reqs(i).len(),
        lookup.reqs(i)[k] >= m.mask.satisfied@.len() || !m.mask.satisfied@[lookup.reqs(i)[k] as int],
        forall|j: int|
            0 <= j < s.man().counts.macro_edges && j != i ==> (#[trigger] s.macro_words(s.man().off_macro_src)[j])
                != s.macro_words(s.man().off_macro_src)[i] || s.macro_words(s.man().off_macro_dst)[j] != s.macro_words(
                s.man().off_macro_dst,
            )[i],
    ensures
        forall|x: int|
            0 <= x < usable_edges(s, lookup, m, start).len() && (#[trigger] usable_edges(s, lookup, m, start)[x]).from
                == s.macro_words(s.man().off_macro_src)[i] && usable_edges(s, lookup, m, start)[x].to == s.macro_words(
                s.man().off_macro_dst,
            )[i] ==> is_step(s, usable_edges(s, lookup, m, start)[x]) || is_ring_hop(
                m,
                usable_edges(s, lookup, m, start)[x],
            ) || is_entry(s, m, start, usable_edges(s, lookup, m, start)[x]),
{
    law_search_edges_are_allowed(s, lookup, m, start);
    let edges = usable_edges(s, lookup, m, start);
    assert forall|x: int|
        0 <= x < edges.len() && (#[trigger] edges[x]).from == s.macro_words(s.man().off_macro_src)[i] && edges[x].to
            == s.macro_words(s.man().off_macro_dst)[i] implies is_step(s, edges[x]) || is_ring_hop(m, edges[x])
        || is_entry(s, m, start, edges[x]) by {
        let e = edges[x];
        assert(is_allowed(s, lookup, m, start, e));
        if is_open_macro(s, lookup, m, e) {
            let j = choose|j: int|
                0 <= j < s.man().counts.macro_edges && (#[trigger] s.macro_words(s.man().off_macro_src)[j]) == e.from
                    && s.macro_words(s.man().off_macro_dst)[j] == e.to && is_open(s, lookup, m, j) && e.cost == macro_cost(
                    s,
                    m,
                    j,
                );
            assert(j == i);
            assert(lookup.reqs(i)[k] < m.mask.satisfied@.len());
        }
    }
}

// ---- routes ----

/// Whether the edges lead on from one node to the next, from `a` to `b`.
pub open spec fn is_chain(c: Seq<UsableEdge>, a: usize, b: usize) -> bool {
    &&& c.len() == 0 ==> a == b
    &&& c.len() > 0 ==> c[0].from == a && c.last().to == b
    &&& forall|i: int| 0 < i < c.len() ==> (#[trigger] c[i]).from == c[i - 1].to
}

/// What the edges cost together, in ticks; what costs less than nothing counts as nothing.
pub open spec fn chain_cost(c: Seq<UsableEdge>) -> int
    decreases c.len(),
{
    if c.len() == 0 {
        0
    } else {
        chain_cost(c.drop_last()) + if c.last().cost.ticks() > 0 { c.last().cost.ticks() as int } else { 0 }
    }
}

/// Whether the caller may take each of the edges.
pub open spec fn may_take(s: Snapshot, lookup: MacroLookup, m: Means, start: Option<u32>, c: Seq<UsableEdge>) -> bool {
    forall|i: int| 0 <= i < c.len() ==> is_allowed(s, lookup, m, start, #[trigger] c[i])
}

/// The edges that a walk goes by.
proof fn lemma_chain_of(edges: Seq<UsableEdge>, n: nat, p: Seq<usize>, w: Seq<int>) -> (c: Seq<UsableEdge>)
    requires
        n < usize::MAX,
        all_join(edges, n as int),
        is_walk(usable_lists(edges, n + 1, false, edges.len() as int), p, w),
    ensures
        c.len() == w.len(),
        is_chain(c, p[0], p.last()),
        forall|i: int| 0 <= i < c.len() ==> edges.contains(#[trigger] c[i]) && c[i].from == p[i] && c[i].to == p[i + 1],
        chain_cost(c) == walk_cost(usable_lists(edges, n + 1, false, edges.len() as int), p, w),
    decreases w.len(),
{
    let k = edges.len() as int;
    let g = usable_lists(edges, n + 1, false, k);
    if w.len() == 0 {
        Seq::empty()
    } else {
        let (p1, w1) = (p.drop_last(), w.drop_last());
        assert(is_walk(g, p1, w1)) by {
            assert forall|i: int| 0 <= i < w1.len() implies 0 <= #[trigger] w1[i] < g[p1[i] as int].len()
                && g[p1[i] as int][w1[i]].0 == p1[i + 1] by {
                assert(w[i] == w1[i]);
            }
            assert forall|i: int| 0 <= i < p1.len() implies #[trigger] p1[i] < g.len() by {
                assert(p[i] == p1[i]);
            }
        }
        let c1 = lemma_chain_of(edges, n, p1, w1);
        lemma_lists_hold(edges, n + 1, false, k);
        let (u, x) = (p[w.len() - 1], w.last());
        assert(0 <= w[w.len() - 1] < g[u as int].len());
        let to = g[u as int][x];
        assert(is_listed(edges, false, k, u as int, to.0, to.1));
        let i = choose|i: int|
            0 <= i < k && ends_of(#[trigger] edges[i], false) == (u as int as usize, to.0) && told_cost(edges[i].cost)
                == to.1;
        let c = c1.push(edges[i]);
        assert(edges.contains(edges[i]));
        assert(c.drop_last() =~= c1);
        assert forall|j: int| 0 <= j < c.len() implies edges.contains(#[trigger] c[j]) && c[j].from == p[j] && c[j].to == p[j
            + 1] by {
            if j < c1.len() {
                assert(c[j] == c1[j]);
            }
        }
        c
    }
}

/// A walk that goes by the edges.
proof fn lemma_walk_of(edges: Seq<UsableEdge>, n: nat, c: Seq<UsableEdge>, a: usize) -> (r: (Seq<usize>, Seq<int>))
    requires
        n < usize::MAX,
        all_join(edges, n as int),
        a <= n,
        forall|i: int| 0 <= i < c.len() ==> edges.contains(#[trigger] c[i]),
        is_chain(c, a, if c.len() > 0 { c.last().to } else { a }),
    ensures
        leads(
            usable_lists(edges, n + 1, false, edges.len() as int),
            a,
            if c.len() > 0 { c.last().to } else { a },
            r.0,
            r.1,
        ),
        walk_cost(usable_lists(edges, n + 1, false, edges.len() as int), r.0, r.1) == chain_cost(c),
    decreases c.len(),
{
    let k = edges.len() as int;
    let g = usable_lists(edges, n + 1, false, k);
    lemma_lists_hold(edges, n + 1, false, k);
    if c.len() == 0 {
        (seq![a], Seq::empty())
    } else {
        let c1 = c.drop_last();
        assert forall|i: int| 0 <= i < c1.len() implies edges.contains(#[trigger] c1[i]) by {
            assert(c[i] == c1[i]);
        }
        assert forall|i: int| 0 < i < c1.len() implies (#[trigger] c1[i]).from == c1[i - 1].to by {
            assert(c[i] == c1[i]);
        }
        let (p1, w1) = lemma_walk_of(edges, n, c1, a);
        let e = c.last();
        assert(edges.contains(c[c.len() - 1]));
        let i = choose|i: int| 0 <= i < edges.len() && edges[i] == e;
        assert(joins((n + 1) as int, n as int, edges[i]));
        assert(has_link(g, ends_of(edges[i], false).0 as int, ends_of(edges[i], false).1, told_cost(edges[i].cost)));
        let x = choose|x: int| 0 <= x < g[e.from as int].len() && #[trigger] g[e.from as int][x] == (e.to, told_cost(e.cost));
        let (p, w) = (p1.push(e.to), w1.push(x));
        assert(p1.last() == e.from) by {
            if c.len() > 1 {
                assert(c[c.len() - 1].from == c[c.len() - 2].to);
            }
        }
        assert(p.drop_last() =~= p1);
        assert(w.drop_last() =~= w1);
        assert forall|j: int| 0 <= j < w.len() implies 0 <= #[trigger] w[j] < g[p[j] as int].len() && g[p[j] as int][w[j]].0
            == p[j + 1] by {
            if j < w1.len() {
                assert(w[j] == w1[j]);
            }
        }
        assert forall|j: int| 0 <= j < p.len() implies #[trigger] p[j] < g.len() by {
            if j < p1.len() {
                assert(p[j] == p1[j]);
            }
        }
        (p, w)
    }
}

/// A route that is found goes by edges that the caller may take, from where the caller is to the goal,
/// and no other such way costs less.
pub proof fn law_found_routes_are_cheapest(
    s: Snapshot,
    lookup: MacroLookup,
    m: Means,
    start: Option<u32>,
    goal: u32,
    most: Option<u32>,
    back: bool,
    p: Seq<usize>,
    pops: u32,
) -> (c: Seq<UsableEdge>)
    requires
        s.man().counts.nodes < usize::MAX,
        is_attempt(s, lookup, m, start, goal, most, back, Some(Some(p)), pops),
    ensures
        p.len() == c.len() + 1,
        p[0] == s.man().counts.nodes,
        p.last() == goal,
        is_chain(c, p[0], p.last()),
        may_take(s, lookup, m, start, c),
        forall|i: int| 0 <= i < c.len() ==> (#[trigger] c[i]).from == p[i] && c[i].to == p[i + 1],
        forall|d: Seq<UsableEdge>|
            may_take(s, lookup, m, start, d) && #[trigger] is_chain(d, s.man().counts.nodes as usize, goal as usize)
                ==> chain_cost(c) <= chain_cost(d),
{
    let n = s.man().counts.nodes as usize;
    let edges = usable_edges(s, lookup, m, start);
    let g = usable_lists(edges, (n + 1) as nat, false, edges.len() as int);
    lemma_usable_join(s, lookup, m, start);
    law_search_edges_are_allowed(s, lookup, m, start);
    let w = choose|w: Seq<int>| #[trigger]
        leads(g, n, goal as usize, p, w) && forall|q: Seq<usize>, t: Seq<int>| #[trigger]
            leads(g, n, goal as usize, q, t) ==> walk_cost(g, p, w) <= walk_cost(g, q, t);
    let c = lemma_chain_of(edges, n as nat, p, w);
    assert forall|i: int| 0 <= i < c.len() implies is_allowed(s, lookup, m, start, #[trigger] c[i]) by {
        assert(edges.contains(c[i]));
        let k = choose|k: int| 0 <= k < edges.len() && edges[k] == c[i];
        assert(is_allowed(s, lookup, m, start, edges[k]));
    }
    assert forall|d: Seq<UsableEdge>|
        may_take(s, lookup, m, start, d) && #[trigger] is_chain(d, n, goal as usize) implies chain_cost(c)
        <= chain_cost(d) by {
        assert forall|i: int| 0 <= i < d.len() implies edges.contains(#[trigger] d[i]) by {
            law_allowed_edges_are_searched(s, lookup, m, start, d[i]);
        }
        let (q, t) = lemma_walk_of(edges, n as nat, d, n);
        assert(leads(g, n, goal as usize, q, t));
    }
    c
}

/// Where an attempt finds that there is no route, no edges that the caller may take lead from where the
/// caller is to the goal.
pub proof fn law_no_route_means_no_way(
    s: Snapshot,
    lookup: MacroLookup,
    m: Means,
    start: Option<u32>,
    goal: u32,
    most: Option<u32>,
    back: bool,
    pops: u32,
    d: Seq<UsableEdge>,
)
    requires
        s.man().counts.nodes < usize::MAX,
        is_attempt(s, lookup, m, start, goal, most, back, Some(None), pops),
        may_take(s, lookup, m, start, d),
    ensures
        !is_chain(d, s.man().counts.nodes as usize, goal as usize),
{
    let n = s.man().counts.nodes as usize;
    let edges = usable_edges(s, lookup, m, start);
    lemma_usable_join(s, lookup, m, start);
    if is_chain(d, n, goal as usize) {
        assert forall|i: int| 0 <= i < d.len() implies edges.contains(#[trigger] d[i]) by {
            law_allowed_edges_are_searched(s, lookup, m, start, d[i]);
        }
        let (q, t) = lemma_walk_of(edges, n as nat, d, n);
        assert(leads(usable_lists(edges, (n + 1) as nat, false, edges.len() as int), n, goal as usize, q, t));
    }
}

proof fn lemma_step_cost(edges: Seq<UsableEdge>, a: usize, b: usize)
    ensures
        forall|i: int|
            0 <= i < edges.len() && (#[trigger] edges[i]).from == a && edges[i].to == b ==> !edges[i].cost.lt(
                step_cost(edges, a, b),
            ),
        step_cost(edges, a, b) == (Weight { bits: INFINITE }) || exists|i: int|
            0 <= i < edges.len() && (#[trigger] edges[i]).from == a && edges[i].to == b && edges[i].cost == step_cost(
                edges,
                a,
                b,
            ),
        !step_cost(edges, a, b).is_nan(),
    decreases edges.len(),
{
    if edges.len() > 0 {
        let short = edges.drop_last();
        lemma_step_cost(short, a, b);
        let c = step_cost(edges, a, b);
        assert forall|i: int| 0 <= i < edges.len() && (#[trigger] edges[i]).from == a && edges[i].to == b implies !edges[i].cost.lt(
            c,
        ) by {
            if i < short.len() {
                assert(!short[i].cost.lt(step_cost(short, a, b)));
            }
        }
        if c != (Weight { bits: INFINITE }) {
            if c == step_cost(short, a, b) {
                let i = choose|i: int|
                    0 <= i < short.len() && (#[trigger] short[i]).from == a && short[i].to == b && short[i].cost
                        == step_cost(short, a, b);
                assert(edges[i].cost == c);
            } else {
                assert(edges[edges.len() - 1].cost == c);
            }
        }
    }
}

/// Whether the caller may take the edge, and no edge between the same nodes that it may take is cheaper.
pub open spec fn is_cheapest_step(s: Snapshot, lookup: MacroLookup, m: Means, start: Option<u32>, e: UsableEdge) -> bool {
    is_allowed(s, lookup, m, start, e) && forall|f: UsableEdge| #[trigger]
        is_allowed(s, lookup, m, start, f) && f.from == e.from && f.to == e.to ==> !f.cost.lt(e.cost)
}

proof fn lemma_cheapest_step(s: Snapshot, lookup: MacroLookup, m: Means, start: Option<u32>, d: UsableEdge) -> (e: UsableEdge)
    requires
        s.man().counts.nodes < usize::MAX,
        is_allowed(s, lookup, m, start, d),
    ensures
        is_cheapest_step(s, lookup, m, start, e),
        e.from == d.from,
        e.to == d.to,
        e.cost == step_cost(usable_edges(s, lookup, m, start), d.from, d.to),
{
    let edges = usable_edges(s, lookup, m, start);
    let (a, b) = (d.from, d.to);
    lemma_step_cost(edges, a, b);
    law_search_edges_are_allowed(s, lookup, m, start);
    law_allowed_edges_are_searched(s, lookup, m, start, d);
    let x = choose|x: int| 0 <= x < edges.len() && edges[x] == d;
    assert(!edges[x].cost.lt(step_cost(edges, a, b)));
    assert(step_cost(edges, a, b) != (Weight { bits: INFINITE }));
    let y = choose|y: int|
        0 <= y < edges.len() && (#[trigger] edges[y]).from == a && edges[y].to == b && edges[y].cost == step_cost(
            edges,
            a,
            b,
        );
    let e = edges[y];
    assert forall|f: UsableEdge| #[trigger] is_allowed(s, lookup, m, start, f) && f.from == e.from && f.to == e.to implies
        !f.cost.lt(e.cost) by {
        law_allowed_edges_are_searched(s, lookup, m, start, f);
        let z = choose|z: int| 0 <= z < edges.len() && edges[z] == f;
        assert(!edges[z].cost.lt(step_cost(edges, a, b)));
    }
    e
}

/// What holds of the costs along the path of a search.
proof fn lemma_costs_along(
    s: Snapshot,
    lookup: MacroLookup,
    m: Means,
    start: Option<u32>,
    p: Seq<usize>,
    c: Seq<UsableEdge>,
    k: int,
) -> (e: UsableEdge)
    requires
        s.man().counts.nodes < usize::MAX,
        p.len() == c.len() + 1,
        may_take(s, lookup, m, start, c),
        forall|i: int| 0 <= i < c.len() ==> (#[trigger] c[i]).from == p[i] && c[i].to == p[i + 1],
        0 < k < p.len(),
    ensures
        is_cheapest_step(s, lookup, m, start, e),
        e.from == p[k - 1],
        e.to == p[k],
        p[k] < s.man().counts.nodes,
        cost_up_to(usable_edges(s, lookup, m, start), p, k) == cost_up_to(
            usable_edges(s, lookup, m, start),
            p,
            k - 1,
        ).plus(e.cost),
{
    let d = c[k - 1];
    assert(is_allowed(s, lookup, m, start, d));
    lemma_cheapest_step(s, lookup, m, start, d)
}

/// Whether the cost up to the `i`-th node of a route is the one before it with that of a cheapest edge
/// that leads there: from the node before it, or, to the second node of a route with a start, from where
/// the caller is.
pub open spec fn is_added_up(s: Snapshot, lookup: MacroLookup, m: Means, start: Option<u32>, r: SearchResult, i: int) -> bool {
    exists|e: UsableEdge| #[trigger]
        is_cheapest_step(s, lookup, m, start, e) && e.to == r.path@[i] && (e.from == r.path@[i - 1] || (i == 1 && start
            is Some && e.from == s.man().counts.nodes)) && r.path_g@[i] == r.path_g@[i - 1].plus(e.cost)
}

/// The costs that are told along a route: each is the one before it with the cost of an edge that the
/// caller may take to the next node, of which there is none that is cheaper. The route ends at the goal,
/// and costs what it costs up to there. With a start it begins there.
pub proof fn law_costs_along_a_route(
    s: Snapshot,
    lookup: MacroLookup,
    m: Means,
    start: Option<u32>,
    goal: u32,
    most: Option<u32>,
    back: bool,
    p: Seq<usize>,
    r: SearchResult,
)
    requires
        s.man().counts.nodes < usize::MAX,
        goal < s.man().counts.nodes,
        is_attempt(s, lookup, m, start, goal, most, back, Some(Some(p)), r.pops),
        is_told(usable_edges(s, lookup, m, start), start, back, Some(Some(p)), r),
    ensures
        r.found && r.status == SearchStatus::Found,
        r.path@.len() > 0,
        r.path_g@.len() == r.path@.len(),
        r.path@.last() == goal,
        start is Some ==> r.path@[0] == start->0,
        r.cost == r.path_g@.last(),
        forall|i: int| 0 < i < r.path@.len() ==> #[trigger] is_added_up(s, lookup, m, start, r, i),
{
    let n = s.man().counts.nodes as usize;
    let edges = usable_edges(s, lookup, m, start);
    let c = law_found_routes_are_cheapest(s, lookup, m, start, goal, most, back, p, r.pops);
    let costs = Seq::new(p.len(), |i: int| cost_up_to(edges, p, i));
    assert(p.len() >= 2);
    assert forall|k: int| 0 < k < p.len() implies #[trigger] p[k] < n by {
        let e = lemma_costs_along(s, lookup, m, start, p, c, k);
    }
    let nodes = Seq::new((p.len() - 1) as nat, |i: int| p[i + 1] as u32);
    assert(nodes.last() == goal);
    assert(r.path@ == nodes || r.path@ == seq![start->0] + nodes);
    let put: int = if r.path@.len() == p.len() { 0 } else { 1 };
    assert forall|i: int| 0 < i < r.path@.len() implies #[trigger] is_added_up(s, lookup, m, start, r, i) by {
        let k = i + put;
        let e = lemma_costs_along(s, lookup, m, start, p, c, k);
        assert(costs[k] == costs[k - 1].plus(e.cost));
        assert(r.path_g@[i] == costs[k] && r.path_g@[i - 1] == costs[k - 1]);
        assert(is_cheapest_step(s, lookup, m, start, e));
        assert(p[k] < n);
        assert(e.to == r.path@[i]);
        if k > 1 {
            assert(p[k - 1] < n);
        }
    }
}

}
