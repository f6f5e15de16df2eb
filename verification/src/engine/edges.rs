//! The edges that one search may take.

use crate::engine::eligibility::EligibilityMask;
use crate::engine::macros::MacroLookup;
use crate::engine::profile::{LODESTONE, QUICK_TELE_COST};
use crate::engine::weight::Weight;
use crate::planner::high_level::push_link;
use crate::snapshot::reader::{Snapshot, WalkStep};
use vstd::prelude::*;
#[allow(unused_imports)]
use crate::engine::eligibility::all_hold;
#[allow(unused_imports)]
use crate::planner::dijkstra::{edges_valid, lists};
#[allow(unused_imports)]
use crate::planner::high_level::with_link;
#[allow(unused_imports)]
use crate::snapshot::reader::{bit_set, lemma_monotone};

verus! {

/// An edge between two nodes. The node behind the last one of the snapshot stands for where the
/// caller is.
#[derive(Debug, Clone, Copy, PartialEq, Eq, Structural)]
pub struct UsableEdge {
    pub from: usize,
    pub to: usize,
    pub cost: Weight,
}

/// Whether an edge leads from a node below `from` to one below `to` at a cost that can be told.
pub open spec fn joins(from: int, to: int, e: UsableEdge) -> bool {
    e.from < from && e.to < to && e.cost.is_finite()
}

/// The edges with one more, if it joins nodes.
pub open spec fn with_usable(edges: Seq<UsableEdge>, from: int, to: int, e: UsableEdge) -> Seq<UsableEdge> {
    if joins(from, to, e) { edges.push(e) } else { edges }
}

/// The walk edge in a slot of node `u`.
pub open spec fn walk_edge(s: Snapshot, u: int, slot: int) -> UsableEdge {
    UsableEdge {
        from: u as usize,
        to: s.walk_ends()[slot] as usize,
        cost: Weight { bits: if bit_set(s.diagonals(), slot) { 0x43d4_21cdu32 } else { 0x4396_0000u32 } },
    }
}

/// The edges with the walk edges of node `u` in the slots from its first up to `end`.
pub open spec fn with_steps(edges: Seq<UsableEdge>, s: Snapshot, u: int, end: int) -> Seq<UsableEdge>
    decreases end - s.walk_starts()[u],
{
    if end <= s.walk_starts()[u] {
        edges
    } else {
        with_usable(
            with_steps(edges, s, u, end - 1),
            s.man().counts.nodes as int,
            s.man().counts.nodes as int,
            walk_edge(s, u, end - 1),
        )
    }
}

/// The walk edges of the first `n` nodes.
pub open spec fn walk_edges(s: Snapshot, n: int) -> Seq<UsableEdge>
    decreases n,
{
    if n <= 0 {
        Seq::empty()
    } else {
        with_steps(walk_edges(s, n - 1), s, n - 1, s.walk_starts()[n] as int)
    }
}

/// A macro edge as one caller may take it: a lodestone costs a caller with the quick teleport what
/// that costs.
pub open spec fn macro_edge(s: Snapshot, quick_tele: bool, i: int) -> UsableEdge {
    let quick = quick_tele && s.macro_words(s.man().off_macro_kind_first)[i] == LODESTONE;
    UsableEdge {
        from: s.macro_words(s.man().off_macro_src)[i] as usize,
        to: s.macro_words(s.man().off_macro_dst)[i] as usize,
        cost: Weight { bits: if quick { QUICK_TELE_COST } else { s.macro_words(s.man().off_macro_w)[i] } },
    }
}

/// The edges with those of the first `k` macro edges that the caller may take, without what carries
/// the global teleports.
pub open spec fn with_macros(
    edges: Seq<UsableEdge>,
    s: Snapshot,
    lookup: MacroLookup,
    mask: Seq<bool>,
    quick_tele: bool,
    k: int,
) -> Seq<UsableEdge>
    decreases k,
{
    if k <= 0 {
        edges
    } else {
        let before = with_macros(edges, s, lookup, mask, quick_tele, k - 1);
        let e = macro_edge(s, quick_tele, k - 1);
        if (e.from == 0 && e.to == 0) || !all_hold(mask, lookup.reqs(k - 1)) {
            before
        } else {
            with_usable(before, s.man().counts.nodes as int, s.man().counts.nodes as int, e)
        }
    }
}

/// The edges with those from node `u`, where it is below `from`, to the first `k` of the given ends,
/// but not to itself.
pub open spec fn with_ends(
    edges: Seq<UsableEdge>,
    from: int,
    to: int,
    u: usize,
    ends: Seq<(u32, Weight)>,
    k: int,
) -> Seq<UsableEdge>
    decreases k,
{
    if k <= 0 {
        edges
    } else {
        let before = with_ends(edges, from, to, u, ends, k - 1);
        let (v, w) = ends[k - 1];
        if u == v {
            before
        } else {
            with_usable(before, from, to, UsableEdge { from: u, to: v as usize, cost: w })
        }
    }
}

/// The edges with those from each of the first `k` fairy rings to every other one.
pub open spec fn with_rings(
    edges: Seq<UsableEdge>,
    nodes: int,
    sources: Seq<u32>,
    dests: Seq<(u32, Weight)>,
    k: int,
) -> Seq<UsableEdge>
    decreases k,
{
    if k <= 0 {
        edges
    } else {
        with_ends(
            with_rings(edges, nodes, sources, dests, k - 1),
            nodes,
            nodes,
            sources[k - 1] as usize,
            dests,
            dests.len() as int,
        )
    }
}

/// What a caller may use besides walking.
pub struct Means<'a> {
    pub mask: &'a EligibilityMask,
    pub quick_tele: bool,
    pub globals: &'a Vec<(u32, Weight)>,
    pub fairy_sources: &'a Vec<u32>,
    pub fairy_dests: &'a Vec<(u32, Weight)>,
}

/// All edges of a search: the steps, the macro edges that the caller may take, those between the
/// fairy rings, and those from where the caller is: to the start at no cost, where there is one, and
/// to the end of every global teleport.
pub open spec fn usable_edges(s: Snapshot, lookup: MacroLookup, m: Means, start: Option<u32>) -> Seq<UsableEdge> {
    let n = s.man().counts.nodes;
    let steps = walk_edges(s, n as int);
    let macros = with_macros(steps, s, lookup, m.mask.satisfied@, m.quick_tele, s.man().counts.macro_edges as int);
    let rings = with_rings(macros, n as int, m.fairy_sources@, m.fairy_dests@, m.fairy_sources@.len() as int);
    let began = match start {
        Some(v) => with_usable(
            rings,
            n + 1,
            n as int,
            UsableEdge { from: n as usize, to: v as usize, cost: Weight { bits: 0 } },
        ),
        None => rings,
    };
    with_ends(began, n + 1, n as int, n as usize, m.globals@, m.globals@.len() as int)
}

/// Whether every edge leads from a node, or from where the caller is, to a node.
pub open spec fn all_join(edges: Seq<UsableEdge>, nodes: int) -> bool {
    forall|i: int| 0 <= i < edges.len() ==> joins(nodes + 1, nodes, #[trigger] edges[i])
}

fn take_up(edges: &mut Vec<UsableEdge>, from: usize, nodes: usize, e: UsableEdge)
    requires
        all_join(old(edges)@, nodes as int),
        from <= nodes + 1,
    ensures
        final(edges)@ == with_usable(old(edges)@, from as int, nodes as int, e),
        all_join(final(edges)@, nodes as int),
{
    if e.from < from && e.to < nodes && e.cost.finite() {
        edges.push(e);
    }
}

fn add_steps(edges: &mut Vec<UsableEdge>, s: &Snapshot, n: usize)
    requires
        s.wf(),
        n == s.man().counts.nodes,
        old(edges)@.len() == 0,
    ensures
        final(edges)@ == walk_edges(*s, s.man().counts.nodes as int),
        all_join(final(edges)@, n as int),
{
    let starts: &[u32] = s.walk_offsets();
    let ends: &[u32] = s.walk_dst();
    let diag: &[u8] = s.walk_diag();
    proof {
        s.lemma_wf();
    }
    let mut u: usize = 0;
    assert(edges@ =~= walk_edges(*s, 0));
    while u < n
        invariant
            u <= n,
            n == s.man().counts.nodes,
            s.wf(),
            starts@ == s.walk_starts(),
            ends@ == s.walk_ends(),
            diag@ == s.diagonals(),
            edges@ == walk_edges(*s, u as int),
            all_join(edges@, n as int),
        decreases n - u,
    {
        proof {
            s.lemma_wf();
            lemma_monotone(starts@, u as int, u + 1);
            lemma_monotone(starts@, u + 1, n as int);
        }
        let ghost before = edges@;
        let last: usize = starts[u + 1] as usize;
        let mut slot: usize = starts[u] as usize;
        while slot < last
            invariant
                s.walk_starts()[u as int] <= slot <= last,
                last <= s.man().counts.walk_edges,
                u < n,
                    n == s.man().counts.nodes,
                s.wf(),
                ends@ == s.walk_ends(),
                diag@ == s.diagonals(),
                edges@ == with_steps(before, *s, u as int, slot as int),
                all_join(edges@, n as int),
            decreases last - slot,
        {
            proof {
                s.lemma_wf();
            }
            let bit: u8 = (slot % 8) as u8;
            let step: WalkStep = if diag[slot / 8] & (1u8 << bit) != 0 {
                WalkStep::Diagonal
            } else {
                WalkStep::Cardinal
            };
            let e: UsableEdge = UsableEdge { from: u, to: ends[slot] as usize, cost: Weight { bits: step.cost_bits() } };
            assert(e == walk_edge(*s, u as int, slot as int));
            take_up(edges, n, n, e);
            slot += 1;
        }
        u += 1;
    }
}

fn add_macros(edges: &mut Vec<UsableEdge>, s: &Snapshot, lookup: &MacroLookup, m: &Means, n: usize)
    requires
        s.wf(),
        n == s.man().counts.nodes,
        all_join(old(edges)@, n as int),
    ensures
        final(edges)@ == with_macros(
            old(edges)@,
            *s,
            *lookup,
            m.mask.satisfied@,
            m.quick_tele,
            s.man().counts.macro_edges as int,
        ),
        all_join(final(edges)@, n as int),
{
    let ghost first = edges@;
    let src: &[u32] = s.macro_src();
    let dst: &[u32] = s.macro_dst();
    let cost: &[u32] = s.macro_w();
    let kind: &[u32] = s.macro_kind_first();
    let mut i: usize = 0;
    while i < src.len()
        invariant
            i <= src@.len(),
            src@.len() == s.man().counts.macro_edges,
            src@ == s.macro_words(s.man().off_macro_src),
            dst@ == s.macro_words(s.man().off_macro_dst),
            cost@ == s.macro_words(s.man().off_macro_w),
            kind@ == s.macro_words(s.man().off_macro_kind_first),
            n == s.man().counts.nodes,
            edges@ == with_macros(first, *s, *lookup, m.mask.satisfied@, m.quick_tele, i as int),
            all_join(edges@, n as int),
        decreases src@.len() - i,
    {
        let quick: bool = m.quick_tele && kind[i] == LODESTONE;
        let e: UsableEdge = UsableEdge {
            from: src[i] as usize,
            to: dst[i] as usize,
            cost: Weight { bits: if quick { QUICK_TELE_COST } else { cost[i] } },
        };
        assert(e == macro_edge(*s, m.quick_tele, i as int));
        if !(src[i] == 0 && dst[i] == 0) && lookup.allowed(i, m.mask) {
            take_up(edges, n, n, e);
        }
        i += 1;
    }
}

fn add_ends(edges: &mut Vec<UsableEdge>, from: usize, n: usize, u: usize, ends: &Vec<(u32, Weight)>)
    requires
        all_join(old(edges)@, n as int),
        from <= n + 1,
    ensures
        final(edges)@ == with_ends(old(edges)@, from as int, n as int, u, ends@, ends@.len() as int),
        all_join(final(edges)@, n as int),
{
    let ghost first = edges@;
    let mut k: usize = 0;
    while k < ends.len()
        invariant
            k <= ends@.len(),
            from <= n + 1,
            edges@ == with_ends(first, from as int, n as int, u, ends@, k as int),
            all_join(edges@, n as int),
        decreases ends@.len() - k,
    {
        let (v, w): (u32, Weight) = ends[k];
        if u != v as usize {
            take_up(edges, from, n, UsableEdge { from: u, to: v as usize, cost: w });
        }
        k += 1;
    }
}

/// Lists the edges that a search may take, in place of what the list held. The node behind the last one of the snapshot stands for
/// where the caller is.
pub fn list_usable_edges(s: &Snapshot, lookup: &MacroLookup, m: &Means, start: Option<u32>, edges: &mut Vec<UsableEdge>)
    requires
        s.wf(),
        s.man().counts.nodes < usize::MAX,
    ensures
        final(edges)@ == usable_edges(*s, *lookup, *m, start),
        all_join(final(edges)@, s.man().counts.nodes as int),
{
    let n: usize = s.counts().nodes as usize;
    edges.clear();
    add_steps(edges, s, n);
    add_macros(edges, s, lookup, m, n);
    let ghost first = edges@;
    let mut k: usize = 0;
    while k < m.fairy_sources.len()
        invariant
            k <= m.fairy_sources@.len(),
            n == s.man().counts.nodes,
            edges@ == with_rings(first, n as int, m.fairy_sources@, m.fairy_dests@, k as int),
            all_join(edges@, n as int),
        decreases m.fairy_sources@.len() - k,
    {
        add_ends(edges, n, n, m.fairy_sources[k] as usize, m.fairy_dests);
        k += 1;
    }
    if let Some(v) = start {
        take_up(edges, n + 1, n, UsableEdge { from: n, to: v as usize, cost: Weight { bits: 0 } });
    }
    add_ends(edges, n + 1, n, n, m.globals);
}

/// What an edge costs in ticks, and nothing where that is negative.
pub open spec fn told_cost(w: Weight) -> i64 {
    if w.ticks() < 0 { 0 } else { w.ticks() }
}

/// The first `k` edges as adjacency lists of `size` nodes, each turned round where `back` says so.
pub open spec fn usable_lists(edges: Seq<UsableEdge>, size: nat, back: bool, k: int) -> Seq<Seq<(usize, i64)>>
    decreases k,
{
    if k <= 0 {
        Seq::new(size, |i: int| Seq::empty())
    } else {
        let e = edges[k - 1];
        let (a, b) = if back { (e.to, e.from) } else { (e.from, e.to) };
        with_link(usable_lists(edges, size, back, k - 1), a as int, b, told_cost(e.cost))
    }
}

/// The edges as adjacency lists of `size` nodes, each turned round where `back` says so.
pub fn adjacency(edges: &Vec<UsableEdge>, size: usize, back: bool) -> (r: Vec<Vec<(usize, i64)>>)
    requires
        size > 0,
        all_join(edges@, size - 1),
    ensures
        lists(r@) == usable_lists(edges@, size as nat, back, edges@.len() as int),
        r@.len() == size,
        edges_valid(lists(r@)),
{
    let mut adj: Vec<Vec<(usize, i64)>> = Vec::new();
    let mut i: usize = 0;
    while i < size
        invariant
            i <= size,
            adj@.len() == i,
            forall|k: int| 0 <= k < i ==> (#[trigger] adj@[k])@.len() == 0,
        decreases size - i,
    {
        adj.push(Vec::new());
        i += 1;
    }
    assert(lists(adj@) =~= usable_lists(edges@, size as nat, back, 0)) by {
        assert forall|k: int| 0 <= k < size implies lists(adj@)[k] =~= usable_lists(edges@, size as nat, back, 0)[k] by {}
    }
    let mut j: usize = 0;
    while j < edges.len()
        invariant
            j <= edges@.len(),
            adj@.len() == size,
            size > 0,
            all_join(edges@, size - 1),
            edges_valid(lists(adj@)),
            lists(adj@) == usable_lists(edges@, size as nat, back, j as int),
        decreases edges@.len() - j,
    {
        let e: UsableEdge = edges[j];
        assert(joins(size as int, size - 1, e));
        let w: i64 = e.cost.to_ticks();
        let cost: i64 = if w < 0 { 0 } else { w };
        if back {
            push_link(&mut adj, e.to, e.from, cost);
        } else {
            push_link(&mut adj, e.from, e.to, cost);
        }
        j += 1;
    }
    adj
}

/// The nodes of a route whose search has gone by `path`: without the one that stands for where the
/// caller is, and with the start in front where the caller has left it at once by a teleport.
pub open spec fn nodes_of_route(path: Seq<usize>, start: Option<u32>) -> Seq<u32> {
    let nodes = Seq::new((path.len() - 1) as nat, |i: int| path[i + 1] as u32);
    match start {
        Some(v) => if nodes.len() > 0 && nodes[0] == v { nodes } else { seq![v] + nodes },
        None => nodes,
    }
}

/// The nodes of a route, and whether the start was put in front.
pub fn route_nodes(path: &Vec<usize>, start: Option<u32>) -> (r: (Vec<u32>, bool))
    requires
        path@.len() > 0,
        forall|i: int| 0 < i < path@.len() ==> #[trigger] path@[i] <= u32::MAX,
    ensures
        r.0@ == nodes_of_route(path@, start),
        r.1 == (r.0@.len() == path@.len()),
{
    let mut nodes: Vec<u32> = Vec::new();
    let mut put: bool = false;
    if let Some(v) = start {
        if path.len() < 2 || path[1] != v as usize {
            nodes.push(v);
            put = true;
        }
    }
    let ghost head = nodes@;
    let mut i: usize = 1;
    while i < path.len()
        invariant
            1 <= i <= path@.len(),
            forall|i: int| 0 < i < path@.len() ==> #[trigger] path@[i] <= u32::MAX,
            nodes@ == head + Seq::new((i - 1) as nat, |k: int| path@[k + 1] as u32),
        decreases path@.len() - i,
    {
        let ghost before = nodes@;
        nodes.push(path[i] as u32);
        assert(nodes@ =~= head + Seq::new(i as nat, |k: int| path@[k + 1] as u32));
        i += 1;
    }
    assert(nodes@ =~= nodes_of_route(path@, start));
    (nodes, put)
}

}
