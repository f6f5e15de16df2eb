//! Whether a goal can be reached at all. Walking is free inside a component of the walk graph,
//! and no requirement gates it, so the question is decided on the graph of components, whose
//! edges are the macro edges, the fairy rings and the global teleports a caller may use.

use crate::engine::eligibility::EligibilityMask;
use vstd::prelude::*;
#[allow(unused_imports)]
use crate::engine::eligibility::{all_hold, holds};

verus! {

/// The special edges between the components of the walk graph, each with the requirement tags
/// that gate it.
#[derive(Debug)]
pub struct ComponentGraph {
    pub components: usize,
    /// Directed edges between components.
    pub macro_edges: Vec<(u16, u16, Vec<usize>)>,
    /// The component of each fairy ring. From any usable ring every usable ring can be reached.
    pub fairy: Vec<(u16, Vec<usize>)>,
    /// The component in which each global teleport ends. The origin may use every one of them.
    pub globals: Vec<(u16, Vec<usize>)>,
}

/// Whether a usable macro edge leads from `a` to `b`.
pub open spec fn macro_edge(cg: ComponentGraph, mask: Seq<bool>, a: u16, b: u16) -> bool {
    exists|i: int|
        0 <= i < cg.macro_edges@.len() && (#[trigger] cg.macro_edges@[i]).0 == a && cg.macro_edges@[i].1 == b && all_hold(
            mask,
            cg.macro_edges@[i].2@,
        )
}

/// Whether the list names the component with requirements that hold.
pub open spec fn listed(list: Seq<(u16, Vec<usize>)>, mask: Seq<bool>, c: u16) -> bool {
    exists|i: int| 0 <= i < list.len() && (#[trigger] list[i]).0 == c && all_hold(mask, list[i].1@)
}

/// Whether one hop leads from component `a` to component `b`.
pub open spec fn hop(cg: ComponentGraph, mask: Seq<bool>) -> spec_fn(u16, u16) -> bool {
    |a: u16, b: u16|
        macro_edge(cg, mask, a, b) || (listed(cg.fairy@, mask, a) && listed(cg.fairy@, mask, b))
}

/// Whether a route may begin in the component: the start is in it, or a usable global teleport
/// ends there.
pub open spec fn origin(cg: ComponentGraph, mask: Seq<bool>, start: Option<u16>) -> spec_fn(u16) -> bool {
    |c: u16| start == Some(c) || listed(cg.globals@, mask, c)
}

/// Whether step `i` of `p` is a hop.
pub open spec fn linked(hops: spec_fn(u16, u16) -> bool, p: Seq<u16>, i: int) -> bool {
    hops(p[i], p[i + 1])
}

/// Whether `p` is a sequence of hops from an origin to the goal.
pub open spec fn is_route(
    hops: spec_fn(u16, u16) -> bool,
    origins: spec_fn(u16) -> bool,
    p: Seq<u16>,
    goal: u16,
) -> bool {
    &&& p.len() > 0
    &&& origins(p[0])
    &&& p.last() == goal
    &&& forall|i: int| 0 <= i < p.len() - 1 ==> #[trigger] linked(hops, p, i)
}

/// Whether some sequence of hops leads from an origin to the goal.
pub open spec fn can_reach(hops: spec_fn(u16, u16) -> bool, origins: spec_fn(u16) -> bool, goal: u16) -> bool {
    exists|p: Seq<u16>| #[trigger] is_route(hops, origins, p, goal)
}

/// A set of components that holds the origins and is closed under hops holds all that can be
/// reached.
proof fn lemma_closed(
    hops: spec_fn(u16, u16) -> bool,
    origins: spec_fn(u16) -> bool,
    seen: spec_fn(u16) -> bool,
    p: Seq<u16>,
    goal: u16,
)
    requires
        is_route(hops, origins, p, goal),
        forall|c: u16| #[trigger] origins(c) ==> seen(c),
        forall|a: u16, b: u16| seen(a) && #[trigger] hops(a, b) ==> seen(b),
    ensures
        seen(goal),
    decreases p.len(),
{
    if p.len() > 1 {
        let q = p.drop_last();
        assert forall|i: int| 0 <= i < q.len() - 1 implies #[trigger] linked(hops, q, i) by {
            assert(linked(hops, p, i));
        }
        lemma_closed(hops, origins, seen, q, q.last());
        assert(linked(hops, p, p.len() - 2));
    }
}

proof fn lemma_extend(hops: spec_fn(u16, u16) -> bool, origins: spec_fn(u16) -> bool, a: u16, b: u16)
    requires
        can_reach(hops, origins, a),
        hops(a, b),
    ensures
        can_reach(hops, origins, b),
{
    let p = choose|p: Seq<u16>| #[trigger] is_route(hops, origins, p, a);
    let q = p.push(b);
    assert forall|i: int| 0 <= i < q.len() - 1 implies #[trigger] linked(hops, q, i) by {
        if i < p.len() - 1 {
            assert(linked(hops, p, i));
        }
    }
    assert(is_route(hops, origins, q, b));
}

proof fn lemma_origin(hops: spec_fn(u16, u16) -> bool, origins: spec_fn(u16) -> bool, a: u16)
    requires
        origins(a),
    ensures
        can_reach(hops, origins, a),
{
    assert(is_route(hops, origins, seq![a], a));
}

/// What one caller may use of a [`ComponentGraph`].
#[derive(Debug)]
pub struct ProfileReach {
    succ: Vec<Vec<u16>>,
    rings: Vec<u16>,
    is_ring: Vec<bool>,
    globals: Vec<u16>,
}

impl ProfileReach {
    /// Whether an edge leads from `a` to `b`.
    pub closed spec fn edge(self, a: u16, b: u16) -> bool {
        a < self.succ@.len() && self.succ@[a as int]@.contains(b)
    }

    /// Whether the component has a ring.
    pub closed spec fn ring(self, c: u16) -> bool {
        self.rings@.contains(c)
    }

    /// Whether a teleport ends in the component.
    pub closed spec fn global(self, c: u16) -> bool {
        self.globals@.contains(c)
    }

    pub closed spec fn wf(self) -> bool {
        &&& self.is_ring@.len() == self.succ@.len()
        &&& forall|a: int, k: int|
            0 <= a < self.succ@.len() && 0 <= k < self.succ@[a]@.len() ==> #[trigger] self.succ@[a]@[k] < self.succ@.len()
        &&& forall|k: int| 0 <= k < self.rings@.len() ==> #[trigger] self.rings@[k] < self.succ@.len()
        &&& forall|k: int| 0 <= k < self.globals@.len() ==> #[trigger] self.globals@[k] < self.succ@.len()
        &&& forall|c: u16| c < self.succ@.len() ==> self.is_ring@[c as int] == #[trigger] self.rings@.contains(c)
    }

    /// One hop.
    pub open spec fn hops(self) -> spec_fn(u16, u16) -> bool {
        |a: u16, b: u16| self.edge(a, b) || (self.ring(a) && self.ring(b))
    }

    /// The components in which a route may begin.
    pub open spec fn origins(self, start: Option<u16>) -> spec_fn(u16) -> bool {
        |c: u16| start == Some(c) || self.global(c)
    }

    /// Whether this is what a caller with the mask may use of the graph.
    pub open spec fn describes(self, cg: ComponentGraph, mask: Seq<bool>) -> bool {
        &&& forall|a: u16, b: u16| #[trigger] self.edge(a, b) <==> macro_edge(cg, mask, a, b)
        &&& forall|c: u16| #[trigger] self.ring(c) <==> listed(cg.fairy@, mask, c)
        &&& forall|c: u16| #[trigger] self.global(c) <==> listed(cg.globals@, mask, c)
    }
}

/// The components that the list names with requirements that hold.
fn usable(list: &Vec<(u16, Vec<usize>)>, mask: &EligibilityMask) -> (r: Vec<u16>)
    ensures
        forall|c: u16| #[trigger] r@.contains(c) <==> listed(list@, mask.satisfied@, c),
{
    let mut r: Vec<u16> = Vec::new();
    let mut i: usize = 0;
    while i < list.len()
        invariant
            i <= list@.len(),
            forall|c: u16| #[trigger] r@.contains(c) <==> listed(list@.take(i as int), mask.satisfied@, c),
        decreases list@.len() - i,
    {
        let ghost before = r@;
        let ok: bool = mask.satisfies_all(&list[i].1);
        if ok {
            r.push(list[i].0);
        }
        assert forall|c: u16| #[trigger] r@.contains(c) <==> listed(list@.take(i + 1), mask.satisfied@, c) by {
            let (l0, l1) = (list@.take(i as int), list@.take(i + 1));
            assert(before.contains(c) <==> listed(l0, mask.satisfied@, c));
            if before.contains(c) {
                let k = choose|k: int| 0 <= k < l0.len() && (#[trigger] l0[k]).0 == c && all_hold(mask.satisfied@, l0[k].1@);
                assert(l1[k] == l0[k]);
                if ok {
                    let j = choose|j: int| 0 <= j < before.len() && before[j] == c;
                    assert(r@[j] == c);
                }
            }
            if ok && c == list@[i as int].0 {
                assert(r@[before.len() as int] == c);
                assert(l1[i as int] == list@[i as int]);
            }
            if listed(l1, mask.satisfied@, c) {
                let k = choose|k: int| 0 <= k < l1.len() && (#[trigger] l1[k]).0 == c && all_hold(mask.satisfied@, l1[k].1@);
                if k < i {
                    assert(l0[k] == l1[k]);
                }
            }
            if r@.contains(c) && !before.contains(c) {
                let j = choose|j: int| 0 <= j < r@.len() && r@[j] == c;
                assert(j == before.len() || before[j] == c);
            }
        }
        i += 1;
    }
    assert(list@.take(i as int) =~= list@);
    r
}

/// One more than the largest component, at least `n`.
fn room_for(n: usize, list: &Vec<u16>) -> (r: usize)
    ensures
        r >= n,
        forall|k: int| 0 <= k < list@.len() ==> #[trigger] list@[k] < r,
        r == n || r <= 0x1_0000,
{
    let mut r: usize = n;
    let mut i: usize = 0;
    while i < list.len()
        invariant
            i <= list@.len(),
            r >= n,
            forall|k: int| 0 <= k < i ==> #[trigger] list@[k] < r,
            r == n || r <= 0x1_0000,
        decreases list@.len() - i,
    {
        let c: usize = list[i] as usize;
        if c >= r {
            r = c + 1;
        }
        i += 1;
    }
    r
}

/// The number of places not yet seen.
pub open spec fn unseen(s: Seq<bool>) -> nat
    decreases s.len(),
{
    if s.len() == 0 {
        0
    } else {
        unseen(s.drop_last()) + if s.last() { 0nat } else { 1nat }
    }
}

pub proof fn lemma_unseen(s: Seq<bool>, i: int)
    requires
        0 <= i < s.len(),
        !s[i],
    ensures
        unseen(s.update(i, true)) + 1 == unseen(s),
    decreases s.len(),
{
    let t = s.update(i, true);
    if i == s.len() - 1 {
        assert(t.drop_last() =~= s.drop_last());
    } else {
        lemma_unseen(s.drop_last(), i);
        assert(t.drop_last() =~= s.drop_last().update(i, true));
    }
}

/// Whether the component is marked.
spec fn marked(seen: Seq<bool>, c: u16) -> bool {
    c < seen.len() && seen[c as int]
}

/// Marks every component of the list and stacks the new ones.
fn visit_all(list: &Vec<u16>, seen: &mut Vec<bool>, stack: &mut Vec<u16>)
    requires
        forall|k: int| 0 <= k < list@.len() ==> #[trigger] list@[k] < old(seen)@.len(),
        forall|c: u16| #[trigger] old(stack)@.contains(c) ==> marked(old(seen)@, c),
    ensures
        final(seen)@.len() == old(seen)@.len(),
        forall|c: u16| #[trigger] marked(final(seen)@, c) <==> marked(old(seen)@, c) || list@.contains(c),
        forall|c: u16| old(stack)@.contains(c) ==> #[trigger] final(stack)@.contains(c),
        forall|c: u16| #[trigger] final(stack)@.contains(c) ==> marked(final(seen)@, c),
        forall|c: u16| #[trigger] marked(final(seen)@, c) ==> marked(old(seen)@, c) || final(stack)@.contains(c),
        2 * unseen(final(seen)@) + final(stack)@.len() <= 2 * unseen(old(seen)@) + old(stack)@.len(),
{
    let ghost seen0 = seen@;
    let ghost stack0 = stack@;
    let mut i: usize = 0;
    while i < list.len()
        invariant
            i <= list@.len(),
            seen@.len() == seen0.len(),
            forall|k: int| 0 <= k < list@.len() ==> #[trigger] list@[k] < seen0.len(),
            forall|c: u16| #[trigger] marked(seen@, c) <==> marked(seen0, c) || list@.take(i as int).contains(c),
            forall|c: u16| stack0.contains(c) ==> #[trigger] stack@.contains(c),
            forall|c: u16| #[trigger] stack@.contains(c) ==> marked(seen@, c),
            forall|c: u16| #[trigger] marked(seen@, c) ==> marked(seen0, c) || stack@.contains(c),
            2 * unseen(seen@) + stack@.len() <= 2 * unseen(seen0) + stack0.len(),
        decreases list@.len() - i,
    {
        let ghost seen1 = seen@;
        let ghost stack1 = stack@;
        let c: u16 = list[i];
        if !seen[c as usize] {
            proof {
                lemma_unseen(seen1, c as int);
            }
            seen.set(c as usize, true);
            stack.push(c);
            assert(stack@[stack1.len() as int] == c);
        }
        assert forall|d: u16| stack1.contains(d) implies #[trigger] stack@.contains(d) by {
            let k = choose|k: int| 0 <= k < stack1.len() && stack1[k] == d;
            assert(stack@[k] == d);
        }
        assert forall|d: u16| #[trigger] stack@.contains(d) implies stack1.contains(d) || d == c by {
            let k = choose|k: int| 0 <= k < stack@.len() && stack@[k] == d;
            if k < stack1.len() {
                assert(stack1[k] == d);
            }
        }
        let ghost (t0, t1) = (list@.take(i as int), list@.take(i + 1));
        assert(t1 =~= t0.push(c));
        assert forall|d: u16| #[trigger] t1.contains(d) <==> t0.contains(d) || d == c by {
            if t0.contains(d) {
                let k = choose|k: int| 0 <= k < t0.len() && t0[k] == d;
                assert(t1[k] == d);
            }
            assert(t1[i as int] == c);
            if t1.contains(d) {
                let k = choose|k: int| 0 <= k < t1.len() && t1[k] == d;
                if k < i {
                    assert(t0[k] == d);
                }
            }
        }
        assert forall|d: u16| #[trigger] marked(seen@, d) <==> marked(seen1, d) || d == c by {}
        assert forall|d: u16| #[trigger] marked(seen@, d) implies marked(seen0, d) || stack@.contains(d) by {
            assert(marked(seen1, d) || d == c);
            assert(stack1.contains(d) ==> stack@.contains(d));
            if d == c && marked(seen1, c) {
                assert(marked(seen0, c) || stack1.contains(c));
            }
        }
        i += 1;
    }
    assert(list@.take(i as int) =~= list@);
}

impl ProfileReach {
    /// What a caller with the mask may use of the graph.
    pub fn build(cg: &ComponentGraph, mask: &EligibilityMask) -> (r: ProfileReach)
        ensures
            r.wf(),
            r.describes(*cg, mask.satisfied@),
    {
        let rings: Vec<u16> = usable(&cg.fairy, mask);
        let globals: Vec<u16> = usable(&cg.globals, mask);
        let mut n: usize = cg.components;
        n = room_for(n, &rings);
        n = room_for(n, &globals);
        let mut k: usize = 0;
        while k < cg.macro_edges.len()
            invariant
                k <= cg.macro_edges@.len(),
                forall|j: int| 0 <= j < rings@.len() ==> #[trigger] rings@[j] < n,
                forall|j: int| 0 <= j < globals@.len() ==> #[trigger] globals@[j] < n,
                forall|j: int|
                    0 <= j < k ==> (#[trigger] cg.macro_edges@[j]).0 < n && cg.macro_edges@[j].1 < n,
            decreases cg.macro_edges@.len() - k,
        {
            let a: usize = cg.macro_edges[k].0 as usize;
            let b: usize = cg.macro_edges[k].1 as usize;
            if a >= n {
                n = a + 1;
            }
            if b >= n {
                n = b + 1;
            }
            k += 1;
        }
        let mut succ: Vec<Vec<u16>> = Vec::new();
        let mut is_ring: Vec<bool> = Vec::new();
        let mut c: usize = 0;
        while c < n
            invariant
                c <= n,
                succ@.len() == c,
                is_ring@.len() == c,
                forall|j: int| 0 <= j < c ==> (#[trigger] succ@[j])@.len() == 0,
                forall|j: int| 0 <= j < c ==> !#[trigger] is_ring@[j],
            decreases n - c,
        {
            succ.push(Vec::new());
            is_ring.push(false);
            c += 1;
        }
        let mut j: usize = 0;
        while j < rings.len()
            invariant
                j <= rings@.len(),
                is_ring@.len() == n,
                forall|i: int| 0 <= i < rings@.len() ==> #[trigger] rings@[i] < n,
                forall|x: int| 0 <= x < n ==> #[trigger] is_ring@[x] == exists|i: int| 0 <= i < j && #[trigger] rings@[i] == x,
            decreases rings@.len() - j,
        {
            let ghost before = is_ring@;
            is_ring.set(rings[j] as usize, true);
            assert forall|x: int| 0 <= x < n implies #[trigger] is_ring@[x] == exists|i: int|
                0 <= i < j + 1 && #[trigger] rings@[i] == x by {
                assert(before[x] == exists|i: int| 0 <= i < j && #[trigger] rings@[i] == x);
                if x == rings@[j as int] {
                    assert(rings@[j as int] == x);
                }
            }
            j += 1;
        }
        assert forall|x: u16| x < n implies is_ring@[x as int] == #[trigger] rings@.contains(x) by {
            if rings@.contains(x) {
                let i = choose|i: int| 0 <= i < rings@.len() && rings@[i] == x;
                assert(rings@[i] == x as int);
            }
        }
        let ghost m = mask.satisfied@;
        let mut e: usize = 0;
        while e < cg.macro_edges.len()
            invariant
                e <= cg.macro_edges@.len(),
                succ@.len() == n,
                m == mask.satisfied@,
                forall|j: int|
                    0 <= j < cg.macro_edges@.len() ==> (#[trigger] cg.macro_edges@[j]).0 < n && cg.macro_edges@[j].1 < n,
                forall|a: u16, b: u16|
                    a < n ==> (#[trigger] succ@[a as int]@.contains(b) <==> exists|i: int|
                        0 <= i < e && (#[trigger] cg.macro_edges@[i]).0 == a && cg.macro_edges@[i].1 == b && all_hold(
                            m,
                            cg.macro_edges@[i].2@,
                        )),
                forall|a: int, k: int|
                    0 <= a < succ@.len() && 0 <= k < succ@[a]@.len() ==> #[trigger] succ@[a]@[k] < succ@.len(),
            decreases cg.macro_edges@.len() - e,
        {
            let ghost before = succ@;
            let a: u16 = cg.macro_edges[e].0;
            let b: u16 = cg.macro_edges[e].1;
            let ok: bool = mask.satisfies_all(&cg.macro_edges[e].2);
            if ok {
                let mut row: Vec<u16> = Vec::new();
                std::mem::swap(&mut row, &mut succ[a as usize]);
                row.push(b);
                succ.set(a as usize, row);
                assert(succ@ =~= before.update(a as int, succ@[a as int]));
                assert(succ@[a as int]@ == before[a as int]@.push(b));
            }
            assert forall|x: u16, y: u16| x < n implies (#[trigger] succ@[x as int]@.contains(y) <==> exists|i: int|
                0 <= i < e + 1 && (#[trigger] cg.macro_edges@[i]).0 == x && cg.macro_edges@[i].1 == y && all_hold(
                    m,
                    cg.macro_edges@[i].2@,
                )) by {
                assert(before[x as int]@.contains(y) <==> exists|i: int|
                    0 <= i < e && (#[trigger] cg.macro_edges@[i]).0 == x && cg.macro_edges@[i].1 == y && all_hold(
                        m,
                        cg.macro_edges@[i].2@,
                    ));
                let (s0, s1) = (before[x as int]@, succ@[x as int]@);
                if ok && x == a {
                    assert(s1[s0.len() as int] == b);
                    if s0.contains(y) {
                        let k = choose|k: int| 0 <= k < s0.len() && s0[k] == y;
                        assert(s1[k] == y);
                    }
                    if s1.contains(y) {
                        let k = choose|k: int| 0 <= k < s1.len() && s1[k] == y;
                        if k < s0.len() {
                            assert(s0[k] == y);
                        }
                    }
                }
                assert(cg.macro_edges@[e as int].0 == a);
            }
            e += 1;
        }
        let r: ProfileReach = ProfileReach { succ, rings, is_ring, globals };
        assert forall|x: u16, y: u16| #[trigger] r.edge(x, y) <==> macro_edge(*cg, m, x, y) by {
            if x < n {
                assert(r.succ@[x as int]@.contains(y) <==> exists|i: int|
                    0 <= i < e && (#[trigger] cg.macro_edges@[i]).0 == x && cg.macro_edges@[i].1 == y && all_hold(
                        m,
                        cg.macro_edges@[i].2@,
                    ));
            }
        }
        r
    }

    /// Whether a search has only marked what can be reached, and has followed every edge of what
    /// is marked and no longer on the stack.
    spec fn sound(self, start: Option<u16>, seen: Seq<bool>, stack: Seq<u16>, joined: bool) -> bool {
        &&& seen.len() == self.succ@.len()
        &&& forall|c: u16| #[trigger] marked(seen, c) ==> can_reach(self.hops(), self.origins(start), c)
        &&& forall|c: u16| #[trigger] stack.contains(c) ==> marked(seen, c)
        &&& forall|c: u16| #[trigger] marked(seen, c) ==> stack.contains(c) || self.followed(seen, c, joined)
        &&& joined ==> forall|c: u16| #[trigger] self.ring(c) ==> marked(seen, c)
    }

    spec fn followed(self, seen: Seq<bool>, c: u16, joined: bool) -> bool {
        &&& forall|b: u16| #[trigger] self.edge(c, b) ==> marked(seen, b)
        &&& self.ring(c) ==> joined
    }

    /// Marking the list keeps a search sound, where all of it can be reached.
    proof fn lemma_visited(
        self,
        start: Option<u16>,
        seen0: Seq<bool>,
        stack0: Seq<u16>,
        joined: bool,
        list: Seq<u16>,
        seen: Seq<bool>,
        stack: Seq<u16>,
        open: Option<u16>,
    )
        requires
            seen0.len() == self.succ@.len(),
            seen.len() == seen0.len(),
            forall|c: u16| #[trigger] marked(seen0, c) ==> can_reach(self.hops(), self.origins(start), c),
            forall|c: u16| #[trigger] marked(seen0, c) ==> stack0.contains(c) || open == Some(c) || self.followed(seen0, c, joined),
            forall|c: u16| #[trigger] list.contains(c) ==> can_reach(self.hops(), self.origins(start), c),
            forall|c: u16| #[trigger] marked(seen, c) <==> marked(seen0, c) || list.contains(c),
            forall|c: u16| stack0.contains(c) ==> #[trigger] stack.contains(c),
            forall|c: u16| #[trigger] marked(seen, c) ==> marked(seen0, c) || stack.contains(c),
        ensures
            forall|c: u16| #[trigger] marked(seen, c) ==> can_reach(self.hops(), self.origins(start), c),
            forall|c: u16| #[trigger] marked(seen, c) ==> stack.contains(c) || open == Some(c) || self.followed(seen, c, joined),
    {
        assert forall|c: u16| #[trigger] marked(seen, c) implies stack.contains(c) || open == Some(c) || self.followed(
            seen,
            c,
            joined,
        ) by {
            if marked(seen0, c) && !stack0.contains(c) && open != Some(c) {
                assert(self.followed(seen0, c, joined));
                assert forall|b: u16| #[trigger] self.edge(c, b) implies marked(seen, b) by {
                    assert(marked(seen0, b));
                }
            }
        }
    }

    /// Whether a route leads from the start, or from where a global teleport ends, to the goal.
    /// With no start a route can only begin with a global teleport.
    pub fn reachable(&self, start_comp: Option<u16>, goal_comp: u16) -> (r: bool)
        requires
            self.wf(),
        ensures
            r == can_reach(self.hops(), self.origins(start_comp), goal_comp),
    {
        let n: usize = self.succ.len();
        let ghost hops = self.hops();
        let ghost origins = self.origins(start_comp);
        proof {
            self.lemma_edges_inside();
        }
        if goal_comp as usize >= n {
            proof {
                if start_comp == Some(goal_comp) {
                    lemma_origin(hops, origins, goal_comp);
                } else {
                    self.lemma_outside(start_comp, goal_comp);
                }
            }
            return match start_comp {
                Some(s) => s == goal_comp,
                None => false,
            };
        }
        let mut seen: Vec<bool> = Vec::new();
        while seen.len() < n
            invariant
                seen@.len() <= n,
                forall|i: int| 0 <= i < seen@.len() ==> !#[trigger] seen@[i],
            decreases n - seen@.len(),
        {
            seen.push(false);
        }
        let mut stack: Vec<u16> = Vec::new();
        let mut first: Vec<u16> = Vec::new();
        if let Some(s) = start_comp {
            if (s as usize) < n {
                first.push(s);
                assert(first@[0] == s);
            }
        }
        assert forall|c: u16| #[trigger] first@.contains(c) implies can_reach(hops, origins, c) by {
            lemma_origin(hops, origins, c);
        }
        let ghost seen0 = seen@;
        visit_all(&first, &mut seen, &mut stack);
        proof {
            self.lemma_visited(start_comp, seen0, Seq::empty(), false, first@, seen@, stack@, None);
        }
        let ghost (seen1, stack1) = (seen@, stack@);
        assert forall|c: u16| #[trigger] self.globals@.contains(c) implies can_reach(hops, origins, c) by {
            assert(self.global(c));
            lemma_origin(hops, origins, c);
        }
        visit_all(&self.globals, &mut seen, &mut stack);
        proof {
            self.lemma_visited(start_comp, seen1, stack1, false, self.globals@, seen@, stack@, None);
        }
        let mut joined: bool = false;
        assert forall|c: u16| #[trigger] origins(c) && c < n implies marked(seen@, c) by {
            if start_comp == Some(c) {
                assert(first@.contains(c));
                assert(marked(seen1, c));
            } else {
                assert(self.global(c));
                assert(self.globals@.contains(c));
            }
        }
        while stack.len() > 0
            invariant
                self.wf(),
                n == self.succ@.len(),
                goal_comp < n,
                hops == self.hops(),
                origins == self.origins(start_comp),
                self.sound(start_comp, seen@, stack@, joined),
                forall|c: u16| #[trigger] origins(c) && c < n ==> marked(seen@, c),
            decreases 2 * unseen(seen@) + stack@.len(),
        {
            let ghost stack0 = stack@;
            let c: u16 = stack.pop().unwrap();
            assert(stack0[stack0.len() - 1] == c);
            assert(stack0.contains(c));
            assert(marked(seen@, c));
            if c == goal_comp {
                return true;
            }
            assert forall|d: u16| stack0.contains(d) && d != c implies #[trigger] stack@.contains(d) by {
                let k = choose|k: int| 0 <= k < stack0.len() && stack0[k] == d;
                assert(stack@[k] == d);
            }
            assert forall|d: u16| #[trigger] stack@.contains(d) implies stack0.contains(d) by {
                let k = choose|k: int| 0 <= k < stack@.len() && stack@[k] == d;
                assert(stack0[k] == d);
            }
            if !joined && self.is_ring[c as usize] {
                joined = true;
                assert(self.ring(c)) by {
                    assert(self.rings@.contains(c));
                }
                assert forall|d: u16| #[trigger] self.rings@.contains(d) implies can_reach(hops, origins, d) by {
                    assert(self.ring(d));
                    assert(hops(c, d));
                    lemma_extend(hops, origins, c, d);
                }
                let ghost (seen2, stack2) = (seen@, stack@);
                visit_all(&self.rings, &mut seen, &mut stack);
                proof {
                    assert forall|d: u16| #[trigger] marked(seen2, d) implies stack2.contains(d) || Some(c) == Some(d)
                        || self.followed(seen2, d, true) by {
                        if !stack2.contains(d) && d != c {
                            assert(self.followed(seen2, d, false));
                        }
                    }
                    self.lemma_visited(start_comp, seen2, stack2, true, self.rings@, seen@, stack@, Some(c));
                }
                assert forall|d: u16| #[trigger] self.ring(d) implies marked(seen@, d) by {
                    assert(self.rings@.contains(d));
                }
            }
            assert(self.ring(c) ==> joined) by {
                assert(self.ring(c) == self.rings@.contains(c));
            }
            let ghost (seen3, stack3) = (seen@, stack@);
            let ghost succ = self.succ@[c as int]@;
            assert forall|d: u16| #[trigger] succ.contains(d) implies can_reach(hops, origins, d) by {
                assert(self.edge(c, d));
                assert(hops(c, d));
                lemma_extend(hops, origins, c, d);
            }
            visit_all(&self.succ[c as usize], &mut seen, &mut stack);
            proof {
                self.lemma_visited(start_comp, seen3, stack3, joined, succ, seen@, stack@, Some(c));
            }
            assert(self.followed(seen@, c, joined)) by {
                assert forall|b: u16| #[trigger] self.edge(c, b) implies marked(seen@, b) by {
                    assert(succ.contains(b));
                }
            }
            assert(self.sound(start_comp, seen@, stack@, joined)) by {
                if joined {
                    assert forall|d: u16| #[trigger] self.ring(d) implies marked(seen@, d) by {
                        assert(marked(seen3, d));
                    }
                }
            }
        }
        assert(marked(seen@, goal_comp) == seen@[goal_comp as int]);
        proof {
            let closed = |c: u16| marked(seen@, c) || c >= n;
            assert forall|a: u16, b: u16| closed(a) && #[trigger] hops(a, b) implies closed(b) by {
                assert(self.edge(a, b) || (self.ring(a) && self.ring(b)));
                assert(a < n);
                assert(marked(seen@, a));
                assert(self.followed(seen@, a, joined));
            }
            assert forall|c: u16| #[trigger] origins(c) implies closed(c) by {}
            if can_reach(hops, origins, goal_comp) {
                let p = choose|p: Seq<u16>| #[trigger] is_route(hops, origins, p, goal_comp);
                lemma_closed(hops, origins, closed, p, goal_comp);
            }
        }
        seen[goal_comp as usize]
    }

    proof fn lemma_edges_inside(self)
        requires
            self.wf(),
        ensures
            forall|a: u16, b: u16| #[trigger] self.edge(a, b) ==> a < self.succ@.len() && b < self.succ@.len(),
            forall|c: u16| #[trigger] self.ring(c) ==> c < self.succ@.len(),
            forall|c: u16| #[trigger] self.global(c) ==> c < self.succ@.len(),
    {
        assert forall|a: u16, b: u16| #[trigger] self.edge(a, b) implies b < self.succ@.len() by {
            let s = self.succ@[a as int]@;
            let k = choose|k: int| 0 <= k < s.len() && s[k] == b;
            assert(self.succ@[a as int]@[k] < self.succ@.len());
        }
    }

    /// Beyond the components that anything names, only the start itself can be reached.
    proof fn lemma_outside(self, start: Option<u16>, goal: u16)
        requires
            self.wf(),
            goal >= self.succ@.len(),
            start != Some(goal),
        ensures
            !can_reach(self.hops(), self.origins(start), goal),
    {
        self.lemma_edges_inside();
        let (hops, origins) = (self.hops(), self.origins(start));
        if can_reach(hops, origins, goal) {
            let p = choose|p: Seq<u16>| #[trigger] is_route(hops, origins, p, goal);
            if p.len() > 1 {
                assert(linked(hops, p, p.len() - 2));
                assert(hops(p[p.len() - 2], goal));
            } else {
                assert(origins(goal));
            }
        }
    }
}

/// Whether a caller with the mask can reach the goal at all: whether a sequence of hops that it
/// may use leads to the goal's component from the start's, or from one in which a global
/// teleport ends.
pub fn goal_reachable(cg: &ComponentGraph, mask: &EligibilityMask, start_comp: Option<u16>, goal_comp: u16) -> (r: bool)
    ensures
        r == can_reach(hop(*cg, mask.satisfied@), origin(*cg, mask.satisfied@, start_comp), goal_comp),
{
    let reach: ProfileReach = ProfileReach::build(cg, mask);
    proof {
        law_profile_decides(reach, *cg, mask.satisfied@, start_comp, goal_comp);
    }
    reach.reachable(start_comp, goal_comp)
}

/// A profile built from a graph and a mask answers every question as the graph itself does.
pub proof fn law_profile_decides(reach: ProfileReach, cg: ComponentGraph, mask: Seq<bool>, start: Option<u16>, goal: u16)
    requires
        reach.describes(cg, mask),
    ensures
        can_reach(reach.hops(), reach.origins(start), goal) == can_reach(hop(cg, mask), origin(cg, mask, start), goal),
{
    assert(reach.hops() =~= hop(cg, mask));
    assert(reach.origins(start) =~= origin(cg, mask, start));
}

/// A component can always be reached from itself, whatever the caller may use.
pub proof fn law_start_is_reachable(cg: ComponentGraph, mask: Seq<bool>, c: u16)
    ensures
        can_reach(hop(cg, mask), origin(cg, mask, Some(c)), c),
{
    lemma_origin(hop(cg, mask), origin(cg, mask, Some(c)), c);
}

/// Reachability composes: what can be reached from what can be reached can be reached.
pub proof fn law_reach_composes(cg: ComponentGraph, mask: Seq<bool>, start: Option<u16>, mid: u16, goal: u16)
    requires
        can_reach(hop(cg, mask), origin(cg, mask, start), mid),
        can_reach(hop(cg, mask), origin(cg, mask, Some(mid)), goal),
    ensures
        can_reach(hop(cg, mask), origin(cg, mask, start), goal),
{
    let (hops, from_mid, from_start) = (hop(cg, mask), origin(cg, mask, Some(mid)), origin(cg, mask, start));
    let seen = |c: u16| can_reach(hops, from_start, c);
    assert forall|c: u16| #[trigger] from_mid(c) implies seen(c) by {
        if c != mid {
            assert(from_start(c));
            lemma_origin(hops, from_start, c);
        }
    }
    assert forall|a: u16, b: u16| seen(a) && #[trigger] hops(a, b) implies seen(b) by {
        lemma_extend(hops, from_start, a, b);
    }
    let p = choose|p: Seq<u16>| #[trigger] is_route(hops, from_mid, p, goal);
    lemma_closed(hops, from_mid, seen, p, goal);
}

/// A caller who satisfies more can reach more.
pub proof fn law_reach_is_monotone(cg: ComponentGraph, less: Seq<bool>, more: Seq<bool>, start: Option<u16>, goal: u16)
    requires
        less.len() <= more.len(),
        forall|i: int| 0 <= i < less.len() && #[trigger] less[i] ==> more[i],
        can_reach(hop(cg, less), origin(cg, less, start), goal),
    ensures
        can_reach(hop(cg, more), origin(cg, more, start), goal),
{
    let (h0, o0, h1, o1) = (hop(cg, less), origin(cg, less, start), hop(cg, more), origin(cg, more, start));
    let seen = |c: u16| can_reach(h1, o1, c);
    assert forall|r: Seq<usize>| #[trigger] all_hold(less, r) implies all_hold(more, r) by {
        assert forall|k: int| 0 <= k < r.len() implies holds(more, #[trigger] r[k]) by {
            assert(holds(less, r[k]));
        }
    }
    assert forall|l: Seq<(u16, Vec<usize>)>, c: u16| #[trigger] listed(l, less, c) implies listed(l, more, c) by {
        let i = choose|i: int| 0 <= i < l.len() && (#[trigger] l[i]).0 == c && all_hold(less, l[i].1@);
        assert(l[i].0 == c && all_hold(more, l[i].1@));
    }
    assert forall|c: u16| #[trigger] o0(c) implies seen(c) by {
        assert(o1(c));
        lemma_origin(h1, o1, c);
    }
    assert forall|a: u16, b: u16| seen(a) && #[trigger] h0(a, b) implies seen(b) by {
        if macro_edge(cg, less, a, b) {
            let i = choose|i: int|
                0 <= i < cg.macro_edges@.len() && (#[trigger] cg.macro_edges@[i]).0 == a && cg.macro_edges@[i].1 == b && all_hold(
                    less,
                    cg.macro_edges@[i].2@,
                );
            assert(cg.macro_edges@[i].0 == a && all_hold(more, cg.macro_edges@[i].2@));
            assert(macro_edge(cg, more, a, b));
        }
        assert(h1(a, b));
        lemma_extend(h1, o1, a, b);
    }
    let p = choose|p: Seq<u16>| #[trigger] is_route(h0, o0, p, goal);
    lemma_closed(h0, o0, seen, p, goal);
}

/// Whether every one of the tags is satisfied.
pub open spec fn has_all(mask: Seq<bool>, tags: Seq<usize>) -> bool {
    forall|k: int| 0 <= k < tags.len() ==> #[trigger] tags[k] < mask.len() && mask[tags[k] as int]
}

/// Whether entry `i` of the list is for the component, and its tags are satisfied.
pub open spec fn is_usable_at(list: Seq<(u16, Vec<usize>)>, mask: Seq<bool>, c: u16, i: int) -> bool {
    0 <= i < list.len() && list[i].0 == c && has_all(mask, list[i].1@)
}

/// Whether one can go from component `a` to component `b`: by a macro edge whose tags are satisfied, or
/// from one fairy ring to another, where those of both are.
pub open spec fn may_cross(cg: ComponentGraph, mask: Seq<bool>, a: u16, b: u16) -> bool {
    ||| exists|i: int|
        0 <= i < cg.macro_edges@.len() && (#[trigger] cg.macro_edges@[i]).0 == a && cg.macro_edges@[i].1 == b && has_all(
            mask,
            cg.macro_edges@[i].2@,
        )
    ||| exists|i: int, j: int| #[trigger]
        is_usable_at(cg.fairy@, mask, a, i) && #[trigger] is_usable_at(cg.fairy@, mask, b, j)
}

/// Whether the components lead from where one starts, or from where a usable global teleport ends, to the
/// goal.
pub open spec fn is_journey(cg: ComponentGraph, mask: Seq<bool>, start: Option<u16>, p: Seq<u16>, goal: u16) -> bool {
    &&& p.len() > 0
    &&& start == Some(p[0]) || exists|i: int| #[trigger] is_usable_at(cg.globals@, mask, p[0], i)
    &&& p.last() == goal
    &&& forall|i: int| 0 < i < p.len() ==> may_cross(cg, mask, p[i - 1], #[trigger] p[i])
}

proof fn lemma_has_all(mask: Seq<bool>, tags: Seq<usize>)
    ensures
        has_all(mask, tags) == all_hold(mask, tags),
{
    if all_hold(mask, tags) {
        assert forall|k: int| 0 <= k < tags.len() implies #[trigger] tags[k] < mask.len() && mask[tags[k] as int] by {
            assert(holds(mask, tags[k]));
        }
    }
}

proof fn lemma_listed_at(list: Seq<(u16, Vec<usize>)>, mask: Seq<bool>, c: u16)
    ensures
        listed(list, mask, c) <==> exists|i: int| #[trigger] is_usable_at(list, mask, c, i),
{
    assert forall|i: int| 0 <= i < list.len() implies has_all(mask, (#[trigger] list[i]).1@) == all_hold(mask, list[i].1@) by {
        lemma_has_all(mask, list[i].1@);
    }
    if listed(list, mask, c) {
        let i = choose|i: int| 0 <= i < list.len() && (#[trigger] list[i]).0 == c && all_hold(mask, list[i].1@);
        assert(is_usable_at(list, mask, c, i));
    }
}

proof fn lemma_may_cross(cg: ComponentGraph, mask: Seq<bool>, a: u16, b: u16)
    ensures
        may_cross(cg, mask, a, b) == hop(cg, mask)(a, b),
{
    lemma_listed_at(cg.fairy@, mask, a);
    lemma_listed_at(cg.fairy@, mask, b);
    assert forall|i: int| 0 <= i < cg.macro_edges@.len() implies has_all(mask, (#[trigger] cg.macro_edges@[i]).2@) == all_hold(
        mask,
        cg.macro_edges@[i].2@,
    ) by {
        lemma_has_all(mask, cg.macro_edges@[i].2@);
    }
    if macro_edge(cg, mask, a, b) {
        let i = choose|i: int|
            0 <= i < cg.macro_edges@.len() && (#[trigger] cg.macro_edges@[i]).0 == a && cg.macro_edges@[i].1 == b && all_hold(
                mask,
                cg.macro_edges@[i].2@,
            );
        assert(cg.macro_edges@[i].0 == a && has_all(mask, cg.macro_edges@[i].2@));
    }
    if listed(cg.fairy@, mask, a) && listed(cg.fairy@, mask, b) {
        let i = choose|i: int| #[trigger] is_usable_at(cg.fairy@, mask, a, i);
        let j = choose|j: int| #[trigger] is_usable_at(cg.fairy@, mask, b, j);
        assert(is_usable_at(cg.fairy@, mask, a, i) && is_usable_at(cg.fairy@, mask, b, j));
    }
}

/// A goal is in reach exactly where a journey leads to it.
pub proof fn law_reach_is_by_journeys(cg: ComponentGraph, mask: Seq<bool>, start: Option<u16>, goal: u16)
    ensures
        can_reach(hop(cg, mask), origin(cg, mask, start), goal) <==> exists|p: Seq<u16>| #[trigger]
            is_journey(cg, mask, start, p, goal),
{
    let (hops, origins) = (hop(cg, mask), origin(cg, mask, start));
    assert forall|c: u16| #[trigger] origins(c) <==> start == Some(c) || exists|i: int| #[trigger]
        is_usable_at(cg.globals@, mask, c, i) by {
        lemma_listed_at(cg.globals@, mask, c);
    }
    if can_reach(hops, origins, goal) {
        let p = choose|p: Seq<u16>| #[trigger] is_route(hops, origins, p, goal);
        assert forall|i: int| 0 < i < p.len() implies may_cross(cg, mask, p[i - 1], #[trigger] p[i]) by {
            assert(linked(hops, p, i - 1));
            lemma_may_cross(cg, mask, p[i - 1], p[i]);
        }
        assert(origins(p[0]));
        assert(is_journey(cg, mask, start, p, goal));
    }
    if exists|p: Seq<u16>| #[trigger] is_journey(cg, mask, start, p, goal) {
        let p = choose|p: Seq<u16>| #[trigger] is_journey(cg, mask, start, p, goal);
        assert forall|i: int| 0 <= i < p.len() - 1 implies #[trigger] linked(hops, p, i) by {
            assert(may_cross(cg, mask, p[i + 1 - 1], p[i + 1]));
            lemma_may_cross(cg, mask, p[i], p[i + 1]);
        }
        assert(origins(p[0]));
        assert(is_route(hops, origins, p, goal));
    }
}

}
