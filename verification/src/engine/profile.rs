//! What one caller may use: its part of the special edges, sorted for the search.

use crate::engine::eligibility::EligibilityMask;
use crate::engine::macros::{copy_tags, FairyRing, GlobalTeleport, MacroLookup};
use crate::engine::reach::{ComponentGraph, ProfileReach};
use crate::engine::weight::Weight;
use crate::snapshot::reader::Snapshot;
use crate::sort::{stable_order, SortKey};
use vstd::prelude::*;
#[allow(unused_imports)]
use crate::engine::eligibility::all_hold;
#[allow(unused_imports)]
use crate::sort::{is_stable_order, lemma_sorted_positions, sorted_positions};

verus! {

/// What a lodestone costs a caller with the quick teleport, 2400 milliseconds.
pub const QUICK_TELE_COST: u32 = 0x4516_0000;

/// The kind number of a lodestone.
pub const LODESTONE: u32 = 2;

/// What an edge between components holds.
pub open spec fn edge_view(e: (u16, u16, Vec<usize>)) -> (u16, u16, Seq<usize>) {
    (e.0, e.1, e.2@)
}

/// What a place in a component holds.
pub open spec fn place_view(e: (u16, Vec<usize>)) -> (u16, Seq<usize>) {
    (e.0, e.1@)
}

/// The edges between components among the first `k` macro edges: not what carries the global
/// teleports, not what names an unknown node, and not what stays in its component.
pub open spec fn component_edges(
    comp: Seq<u16>,
    src: Seq<u32>,
    dst: Seq<u32>,
    lookup: MacroLookup,
    k: int,
) -> Seq<(u16, u16, Seq<usize>)>
    decreases k,
{
    if k <= 0 {
        Seq::empty()
    } else {
        let rest = component_edges(comp, src, dst, lookup, k - 1);
        let (s, d) = (src[k - 1], dst[k - 1]);
        if (s == 0 && d == 0) || s >= comp.len() || d >= comp.len() || comp[s as int] == comp[d as int] {
            rest
        } else {
            rest.push((comp[s as int], comp[d as int], lookup.reqs(k - 1)))
        }
    }
}

/// The components of the first `k` places, each a node with its tags, without unknown nodes.
pub open spec fn component_places(comp: Seq<u16>, places: Seq<(u32, Seq<usize>)>, k: int) -> Seq<(u16, Seq<usize>)>
    decreases k,
{
    if k <= 0 {
        Seq::empty()
    } else {
        let rest = component_places(comp, places, k - 1);
        let (node, tags) = places[k - 1];
        if node < comp.len() { rest.push((comp[node as int], tags)) } else { rest }
    }
}

/// Where the global teleports end, and their tags.
pub open spec fn global_places(g: Seq<GlobalTeleport>) -> Seq<(u32, Seq<usize>)> {
    Seq::new(g.len(), |i: int| (g[i].dst, g[i].reqs@))
}

/// Where the fairy rings stand, and their tags.
pub open spec fn ring_places(g: Seq<FairyRing>) -> Seq<(u32, Seq<usize>)> {
    Seq::new(g.len(), |i: int| (g[i].node, g[i].req_tag_idxs@))
}

/// The special edges of a snapshot, between the components of its walk graph.
pub fn build_component_graph(
    snapshot: &Snapshot,
    globals: &Vec<GlobalTeleport>,
    fairy_rings: &Vec<FairyRing>,
    lookup: &MacroLookup,
) -> (r: ComponentGraph)
    requires
        snapshot.wf(),
    ensures
        r.components == snapshot.man().counts.walk_components,
        r.macro_edges@.map_values(|e: (u16, u16, Vec<usize>)| edge_view(e)) == component_edges(
            snapshot.components(),
            snapshot.macro_words(snapshot.man().off_macro_src),
            snapshot.macro_words(snapshot.man().off_macro_dst),
            *lookup,
            snapshot.man().counts.macro_edges as int,
        ),
        r.fairy@.map_values(|e: (u16, Vec<usize>)| place_view(e)) == component_places(
            snapshot.components(),
            ring_places(fairy_rings@),
            fairy_rings@.len() as int,
        ),
        r.globals@.map_values(|e: (u16, Vec<usize>)| place_view(e)) == component_places(
            snapshot.components(),
            global_places(globals@),
            globals@.len() as int,
        ),
{
    let comp: &[u16] = snapshot.comp_ids();
    let src: &[u32] = snapshot.macro_src();
    let dst: &[u32] = snapshot.macro_dst();
    let len: usize = src.len();
    let nodes: usize = comp.len();
    let mut macro_edges: Vec<(u16, u16, Vec<usize>)> = Vec::new();
    let ghost ev = |e: (u16, u16, Vec<usize>)| edge_view(e);
    let ghost pv = |e: (u16, Vec<usize>)| place_view(e);
    let mut i: usize = 0;
    assert(macro_edges@.map_values(ev) =~= component_edges(comp@, src@, dst@, *lookup, 0));
    while i < len
        invariant
            i <= len,
            len == src@.len(),
            len == dst@.len(),
            nodes == comp@.len(),
            ev == (|e: (u16, u16, Vec<usize>)| edge_view(e)),
            macro_edges@.map_values(ev) == component_edges(comp@, src@, dst@, *lookup, i as int),
        decreases len - i,
    {
        let s: u32 = src[i];
        let d: u32 = dst[i];
        if !(s == 0 && d == 0) && (s as usize) < nodes && (d as usize) < nodes {
            let cs: u16 = comp[s as usize];
            let cd: u16 = comp[d as usize];
            if cs != cd {
                let ghost before = macro_edges@;
                let e: (u16, u16, Vec<usize>) = (cs, cd, lookup.edge_reqs(i));
                macro_edges.push(e);
                assert(macro_edges@.map_values(ev) =~= before.map_values(ev).push(edge_view(e)));
            }
        }
        i += 1;
    }
    let mut fairy: Vec<(u16, Vec<usize>)> = Vec::new();
    let mut j: usize = 0;
    assert(fairy@.map_values(pv) =~= component_places(comp@, ring_places(fairy_rings@), 0));
    while j < fairy_rings.len()
        invariant
            j <= fairy_rings@.len(),
            nodes == comp@.len(),
            pv == (|e: (u16, Vec<usize>)| place_view(e)),
            fairy@.map_values(pv) == component_places(comp@, ring_places(fairy_rings@), j as int),
        decreases fairy_rings@.len() - j,
    {
        let ring: &FairyRing = &fairy_rings[j];
        if (ring.node as usize) < nodes {
            let ghost before = fairy@;
            let e: (u16, Vec<usize>) = (comp[ring.node as usize], copy_tags(&ring.req_tag_idxs));
            fairy.push(e);
            assert(fairy@.map_values(pv) =~= before.map_values(pv).push(place_view(e)));
        }
        j += 1;
    }
    let mut gl: Vec<(u16, Vec<usize>)> = Vec::new();
    let mut k: usize = 0;
    assert(gl@.map_values(pv) =~= component_places(comp@, global_places(globals@), 0));
    while k < globals.len()
        invariant
            k <= globals@.len(),
            nodes == comp@.len(),
            pv == (|e: (u16, Vec<usize>)| place_view(e)),
            gl@.map_values(pv) == component_places(comp@, global_places(globals@), k as int),
        decreases globals@.len() - k,
    {
        let g: &GlobalTeleport = &globals[k];
        if (g.dst as usize) < nodes {
            let ghost before = gl@;
            let e: (u16, Vec<usize>) = (comp[g.dst as usize], copy_tags(&g.reqs));
            gl.push(e);
            assert(gl@.map_values(pv) =~= before.map_values(pv).push(place_view(e)));
        }
        k += 1;
    }
    ComponentGraph { components: snapshot.counts().walk_components as usize, macro_edges, fairy, globals: gl }
}

/// The order of an edge among others: by its end, then by its cost.
pub open spec fn edge_key(e: (u32, Weight)) -> SortKey {
    SortKey { a: e.0 as i64, b: e.1.rank() as i64, c: 0, d: 0 }
}

/// The edges by their ends, then by their costs.
pub open spec fn sorted_edges(s: Seq<(u32, Weight)>) -> Seq<(u32, Weight)> {
    let keys = s.map_values(|e: (u32, Weight)| edge_key(e));
    let order = sorted_positions(keys);
    Seq::new(s.len(), |i: int| s[order[i] as int])
}

pub fn sort_extra_edges(edges: &Vec<(u32, Weight)>) -> (r: Vec<(u32, Weight)>)
    ensures
        r@ == sorted_edges(edges@),
{
    let ghost want = edges@.map_values(|e: (u32, Weight)| edge_key(e));
    let mut keys: Vec<SortKey> = Vec::new();
    let mut i: usize = 0;
    while i < edges.len()
        invariant
            i <= edges@.len(),
            want == edges@.map_values(|e: (u32, Weight)| edge_key(e)),
            keys@ == want.take(i as int),
        decreases edges@.len() - i,
    {
        let e: (u32, Weight) = edges[i];
        keys.push(SortKey { a: e.0 as i64, b: e.1.rank_of(), c: 0, d: 0 });
        assert(keys@ =~= want.take(i + 1));
        i += 1;
    }
    assert(keys@ =~= want);
    let order: Vec<usize> = stable_order(&keys);
    let mut r: Vec<(u32, Weight)> = Vec::new();
    let mut k: usize = 0;
    proof {
        lemma_sorted_positions(keys@);
    }
    while k < order.len()
        invariant
            k <= order@.len(),
            order@ == sorted_positions(want),
            is_stable_order(want, order@),
            want == edges@.map_values(|e: (u32, Weight)| edge_key(e)),
            r@.len() == k,
            forall|j: int| 0 <= j < k ==> #[trigger] r@[j] == edges@[order@[j] as int],
        decreases order@.len() - k,
    {
        r.push(edges[order[k]]);
        k += 1;
    }
    assert(r@ =~= sorted_edges(edges@));
    r
}

/// What a global teleport costs a caller.
pub open spec fn global_cost(g: GlobalTeleport, quick_tele: bool) -> Weight {
    if quick_tele && g.kind_first == LODESTONE { Weight { bits: QUICK_TELE_COST } } else { g.cost }
}

/// What a global teleport costs a caller: a lodestone less with the quick teleport.
pub fn cost_of_global(g: &GlobalTeleport, quick_tele: bool) -> (r: Weight)
    ensures
        r == global_cost(*g, quick_tele),
{
    if quick_tele && g.kind_first == LODESTONE {
        Weight { bits: QUICK_TELE_COST }
    } else {
        g.cost
    }
}

/// The ends and costs of the first `k` teleports that a caller may use.
pub open spec fn usable_globals(g: Seq<GlobalTeleport>, mask: Seq<bool>, quick_tele: bool, k: int) -> Seq<(u32, Weight)>
    decreases k,
{
    if k <= 0 {
        Seq::empty()
    } else if all_hold(mask, g[k - 1].reqs@) {
        usable_globals(g, mask, quick_tele, k - 1).push((g[k - 1].dst, global_cost(g[k - 1], quick_tele)))
    } else {
        usable_globals(g, mask, quick_tele, k - 1)
    }
}

/// The nodes and costs of the first `k` rings that a caller may use.
pub open spec fn usable_rings(g: Seq<FairyRing>, mask: Seq<bool>, k: int) -> Seq<(u32, Weight)>
    decreases k,
{
    if k <= 0 {
        Seq::empty()
    } else if all_hold(mask, g[k - 1].req_tag_idxs@) {
        usable_rings(g, mask, k - 1).push((g[k - 1].node, g[k - 1].cost_ms))
    } else {
        usable_rings(g, mask, k - 1)
    }
}

/// Whether the nodes ascend.
pub open spec fn ascends(s: Seq<u32>) -> bool {
    forall|i: int, j: int| #![trigger s[i], s[j]] 0 <= i < j < s.len() ==> s[i] < s[j]
}

/// Whether `s` names the ends of the edges.
pub open spec fn names_ends(s: Seq<u32>, edges: Seq<(u32, Weight)>) -> bool {
    forall|n: u32| #[trigger] s.contains(n) <==> exists|i: int| 0 <= i < edges.len() && (#[trigger] edges[i]).0 == n
}

/// What one caller may use of a snapshot's special edges.
#[derive(Debug)]
pub struct ProfileArtifacts {
    /// The global teleports: ends and costs, sorted.
    pub eligible_globals: Vec<(u32, Weight)>,
    /// The nodes with a fairy ring, ascending.
    pub fairy_sources: Vec<u32>,
    /// The fairy rings as ends, with costs, sorted.
    pub fairy_dests: Vec<(u32, Weight)>,
    pub reach: ProfileReach,
}

/// The ends of sorted edges, each once.
fn distinct_ends(edges: &Vec<(u32, Weight)>) -> (r: Vec<u32>)
    requires
        forall|i: int, j: int| #![trigger edges@[i], edges@[j]] 0 <= i < j < edges@.len() ==> edges@[i].0 <= edges@[j].0,
    ensures
        ascends(r@),
        names_ends(r@, edges@),
{
    let mut r: Vec<u32> = Vec::new();
    let mut i: usize = 0;
    while i < edges.len()
        invariant
            i <= edges@.len(),
            forall|i: int, j: int| #![trigger edges@[i], edges@[j]] 0 <= i < j < edges@.len() ==> edges@[i].0 <= edges@[j].0,
            ascends(r@),
            r@.len() > 0 ==> i > 0 && r@.last() == edges@[i - 1].0,
            i > 0 ==> r@.len() > 0,
            forall|n: u32| #[trigger] r@.contains(n) <==> exists|k: int| 0 <= k < i && (#[trigger] edges@[k]).0 == n,
        decreases edges@.len() - i,
    {
        let n: u32 = edges[i].0;
        let ghost before = r@;
        if r.len() == 0 || r[r.len() - 1] != n {
            assert(before.len() > 0 ==> edges@[i - 1].0 <= edges@[i as int].0);
            assert forall|a: int| 0 <= a < before.len() implies #[trigger] before[a] < n by {
                if a < before.len() - 1 {
                    assert(before[a] < before[before.len() - 1]);
                }
            }
            r.push(n);
            assert forall|a: int, b: int| #![trigger r@[a], r@[b]] 0 <= a < b < r@.len() implies r@[a] < r@[b] by {
                if b == before.len() {
                    assert(before[a] < n);
                } else {
                    assert(before[a] < before[b]);
                }
            }
            assert(r@[before.len() as int] == n);
        } else {
            assert(r@[r@.len() - 1] == n);
        }
        assert forall|m: u32| #[trigger] r@.contains(m) <==> exists|k: int| 0 <= k < i + 1 && (#[trigger] edges@[k]).0 == m by {
            assert(before.contains(m) <==> exists|k: int| 0 <= k < i && (#[trigger] edges@[k]).0 == m);
            if before.contains(m) {
                let k = choose|k: int| 0 <= k < before.len() && before[k] == m;
                assert(r@[k] == m);
            }
            if r@.contains(m) && m != n {
                let k = choose|k: int| 0 <= k < r@.len() && r@[k] == m;
                assert(before[k] == m);
            }
            if m == n {
                assert(edges@[i as int].0 == m);
            }
        }
        i += 1;
    }
    r
}

/// What a caller with the mask may use.
pub fn build_profile_artifacts(
    cg: &ComponentGraph,
    globals: &Vec<GlobalTeleport>,
    fairy_rings: &Vec<FairyRing>,
    mask: &EligibilityMask,
    quick_tele: bool,
) -> (r: ProfileArtifacts)
    ensures
        r.eligible_globals@ == sorted_edges(usable_globals(globals@, mask.satisfied@, quick_tele, globals@.len() as int)),
        r.fairy_dests@ == sorted_edges(usable_rings(fairy_rings@, mask.satisfied@, fairy_rings@.len() as int)),
        ascends(r.fairy_sources@),
        names_ends(r.fairy_sources@, r.fairy_dests@),
        r.reach.wf(),
        r.reach.describes(*cg, mask.satisfied@),
{
    let ghost m = mask.satisfied@;
    let mut eligible: Vec<(u32, Weight)> = Vec::new();
    let mut i: usize = 0;
    while i < globals.len()
        invariant
            i <= globals@.len(),
            m == mask.satisfied@,
            eligible@ == usable_globals(globals@, m, quick_tele, i as int),
        decreases globals@.len() - i,
    {
        let g: &GlobalTeleport = &globals[i];
        if mask.satisfies_all(&g.reqs) {
            eligible.push((g.dst, cost_of_global(g, quick_tele)));
        }
        i += 1;
    }
    let mut rings: Vec<(u32, Weight)> = Vec::new();
    let mut j: usize = 0;
    while j < fairy_rings.len()
        invariant
            j <= fairy_rings@.len(),
            m == mask.satisfied@,
            rings@ == usable_rings(fairy_rings@, m, j as int),
        decreases fairy_rings@.len() - j,
    {
        let ring: &FairyRing = &fairy_rings[j];
        if mask.satisfies_all(&ring.req_tag_idxs) {
            rings.push((ring.node, ring.cost_ms));
        }
        j += 1;
    }
    let fairy_dests: Vec<(u32, Weight)> = sort_extra_edges(&rings);
    assert(rings.len() <= usize::MAX);
    proof {
        law_sorted_edges(rings@);
    }
    let fairy_sources: Vec<u32> = distinct_ends(&fairy_dests);
    ProfileArtifacts {
        eligible_globals: sort_extra_edges(&eligible),
        fairy_sources,
        fairy_dests,
        reach: ProfileReach::build(cg, mask),
    }
}

/// Sorted edges ascend by their ends, and at one end by their costs; they are the edges that
/// were given.
pub proof fn law_sorted_edges(s: Seq<(u32, Weight)>)
    requires
        s.len() <= usize::MAX,
    ensures
        sorted_edges(s).len() == s.len(),
        forall|i: int, j: int|
            #![trigger sorted_edges(s)[i], sorted_edges(s)[j]]
            0 <= i < j < s.len() ==> sorted_edges(s)[i].0 <= sorted_edges(s)[j].0 && (sorted_edges(s)[i].0
                == sorted_edges(s)[j].0 ==> sorted_edges(s)[i].1.rank() <= sorted_edges(s)[j].1.rank()),
        forall|e: (u32, Weight)| #[trigger] sorted_edges(s).contains(e) <==> s.contains(e),
{
    let keys = s.map_values(|e: (u32, Weight)| edge_key(e));
    lemma_sorted_positions(keys);
    let order = sorted_positions(keys);
    let t = sorted_edges(s);
    assert forall|i: int, j: int| #![trigger t[i], t[j]] 0 <= i < j < s.len() implies t[i].0 <= t[j].0 && (t[i].0
        == t[j].0 ==> t[i].1.rank() <= t[j].1.rank()) by {
        assert(order[i] < keys.len() && order[j] < keys.len());
        assert(keys[order[i] as int] == edge_key(t[i]));
        assert(keys[order[j] as int] == edge_key(t[j]));
    }
    assert forall|e: (u32, Weight)| #[trigger] t.contains(e) <==> s.contains(e) by {
        if t.contains(e) {
            let i = choose|i: int| 0 <= i < t.len() && t[i] == e;
            assert(order[i] < keys.len());
            assert(s[order[i] as int] == e);
        }
        if s.contains(e) {
            let k = choose|k: int| 0 <= k < s.len() && s[k] == e;
            assert(order.contains(k as usize));
            let i = choose|i: int| 0 <= i < order.len() && order[i] == k as usize;
            assert(t[i] == e);
        }
    }
}

proof fn lemma_usable_globals(g: Seq<GlobalTeleport>, mask: Seq<bool>, quick_tele: bool, k: int)
    requires
        0 <= k <= g.len(),
    ensures
        usable_globals(g, mask, quick_tele, k).len() <= k,
        forall|i: int|
            0 <= i < k && all_hold(mask, (#[trigger] g[i]).reqs@) ==> usable_globals(g, mask, quick_tele, k).contains(
                (g[i].dst, global_cost(g[i], quick_tele)),
            ),
        forall|j: int|
            0 <= j < usable_globals(g, mask, quick_tele, k).len() ==> exists|i: int|
                0 <= i < k && all_hold(mask, (#[trigger] g[i]).reqs@) && (#[trigger] usable_globals(g, mask, quick_tele, k)[j])
                    == (g[i].dst, global_cost(g[i], quick_tele)),
    decreases k,
{
    if k > 0 {
        lemma_usable_globals(g, mask, quick_tele, k - 1);
        let (s, all) = (usable_globals(g, mask, quick_tele, k - 1), usable_globals(g, mask, quick_tele, k));
        assert forall|i: int| 0 <= i < k && all_hold(mask, (#[trigger] g[i]).reqs@) implies all.contains(
            (g[i].dst, global_cost(g[i], quick_tele)),
        ) by {
            let e = (g[i].dst, global_cost(g[i], quick_tele));
            if i < k - 1 {
                let j = choose|j: int| 0 <= j < s.len() && s[j] == e;
                assert(all[j] == e);
            } else {
                assert(all[all.len() - 1] == e);
            }
        }
        assert forall|j: int| 0 <= j < all.len() implies exists|i: int|
            0 <= i < k && all_hold(mask, (#[trigger] g[i]).reqs@) && (#[trigger] all[j]) == (
                g[i].dst,
                global_cost(g[i], quick_tele),
            ) by {
            if j < s.len() {
                assert(all[j] == s[j]);
                let i = choose|i: int|
                    0 <= i < k - 1 && all_hold(mask, (#[trigger] g[i]).reqs@) && s[j] == (
                        g[i].dst,
                        global_cost(g[i], quick_tele),
                    );
                assert(all_hold(mask, g[i].reqs@));
            } else {
                assert(all_hold(mask, g[k - 1].reqs@));
            }
        }
    }
}

/// A caller has a global teleport exactly where the mask satisfies all of its tags. It costs what it
/// costs, but a lodestone, which is kind 2, costs 2400 ms with the quick teleport.
pub proof fn law_callers_have_what_they_may_use(
    g: Seq<GlobalTeleport>,
    mask: Seq<bool>,
    quick_tele: bool,
    e: (u32, Weight),
)
    requires
        g.len() <= usize::MAX,
    ensures
        sorted_edges(usable_globals(g, mask, quick_tele, g.len() as int)).contains(e) <==> exists|i: int|
            0 <= i < g.len() && (#[trigger] g[i]).dst == e.0 && (forall|k: int|
                0 <= k < g[i].reqs@.len() ==> (#[trigger] g[i].reqs@[k]) < mask.len() && mask[g[i].reqs@[k] as int])
                && e.1.bits == if quick_tele && g[i].kind_first == 2 { 0x4516_0000 } else { g[i].cost.bits },
{
    let n = g.len() as int;
    let all = usable_globals(g, mask, quick_tele, n);
    lemma_usable_globals(g, mask, quick_tele, n);
    law_sorted_edges(all);
    assert forall|i: int| 0 <= i < n implies (all_hold(mask, (#[trigger] g[i]).reqs@) <==> forall|k: int|
        0 <= k < g[i].reqs@.len() ==> (#[trigger] g[i].reqs@[k]) < mask.len() && mask[g[i].reqs@[k] as int]) by {
        crate::engine::eligibility::law_masks_satisfy_all(mask, g[i].reqs@);
    }
    if all.contains(e) {
        let j = choose|j: int| 0 <= j < all.len() && all[j] == e;
        let i = choose|i: int|
            0 <= i < n && all_hold(mask, (#[trigger] g[i]).reqs@) && all[j] == (g[i].dst, global_cost(g[i], quick_tele));
        assert(g[i].dst == e.0);
    }
    if exists|i: int|
        0 <= i < g.len() && (#[trigger] g[i]).dst == e.0 && (forall|k: int|
            0 <= k < g[i].reqs@.len() ==> (#[trigger] g[i].reqs@[k]) < mask.len() && mask[g[i].reqs@[k] as int]) && e.1.bits
            == if quick_tele && g[i].kind_first == 2 { 0x4516_0000 } else { g[i].cost.bits } {
        let i = choose|i: int|
            0 <= i < g.len() && (#[trigger] g[i]).dst == e.0 && (forall|k: int|
                0 <= k < g[i].reqs@.len() ==> (#[trigger] g[i].reqs@[k]) < mask.len() && mask[g[i].reqs@[k] as int])
                && e.1.bits == if quick_tele && g[i].kind_first == 2 { 0x4516_0000 } else { g[i].cost.bits };
        assert(all_hold(mask, g[i].reqs@));
        assert(e == (g[i].dst, global_cost(g[i], quick_tele)));
    }
}

/// Whether one of the first `k` rings that the caller may use is this one.
spec fn is_usable_ring(g: Seq<FairyRing>, mask: Seq<bool>, k: int, e: (u32, Weight)) -> bool {
    exists|i: int|
        0 <= i < k && all_hold(mask, (#[trigger] g[i]).req_tag_idxs@) && g[i].node == e.0 && g[i].cost_ms == e.1
}

proof fn lemma_usable_rings(g: Seq<FairyRing>, mask: Seq<bool>, k: int, e: (u32, Weight))
    requires
        0 <= k <= g.len(),
    ensures
        usable_rings(g, mask, k).len() <= k,
        usable_rings(g, mask, k).contains(e) <==> is_usable_ring(g, mask, k, e),
    decreases k,
{
    if k > 0 {
        lemma_usable_rings(g, mask, k - 1, e);
        let (s, all) = (usable_rings(g, mask, k - 1), usable_rings(g, mask, k));
        if all.contains(e) {
            let j = choose|j: int| 0 <= j < all.len() && all[j] == e;
            if j < s.len() {
                assert(s[j] == e);
                assert(is_usable_ring(g, mask, k - 1, e));
                let i = choose|i: int|
                    0 <= i < k - 1 && all_hold(mask, (#[trigger] g[i]).req_tag_idxs@) && g[i].node == e.0 && g[i].cost_ms == e.1;
                assert(all_hold(mask, g[i].req_tag_idxs@));
            } else {
                assert(all_hold(mask, g[k - 1].req_tag_idxs@));
            }
        }
        if is_usable_ring(g, mask, k, e) {
            let i = choose|i: int|
                0 <= i < k && all_hold(mask, (#[trigger] g[i]).req_tag_idxs@) && g[i].node == e.0 && g[i].cost_ms == e.1;
            if i < k - 1 {
                assert(is_usable_ring(g, mask, k - 1, e));
                let j = choose|j: int| 0 <= j < s.len() && s[j] == e;
                assert(all[j] == e);
            } else {
                assert(all[all.len() - 1] == e);
            }
        }
    }
}

/// A caller has a fairy ring, at its cost, exactly where the mask satisfies all of its tags.
pub proof fn law_callers_have_the_rings_they_may_use(g: Seq<FairyRing>, mask: Seq<bool>, e: (u32, Weight))
    requires
        g.len() <= usize::MAX,
    ensures
        sorted_edges(usable_rings(g, mask, g.len() as int)).contains(e) <==> exists|i: int|
            0 <= i < g.len() && (#[trigger] g[i]).node == e.0 && g[i].cost_ms == e.1 && forall|k: int|
                0 <= k < g[i].req_tag_idxs@.len() ==> (#[trigger] g[i].req_tag_idxs@[k]) < mask.len()
                    && mask[g[i].req_tag_idxs@[k] as int],
{
    let n = g.len() as int;
    let all = usable_rings(g, mask, n);
    lemma_usable_rings(g, mask, n, e);
    law_sorted_edges(all);
    assert forall|i: int| 0 <= i < n implies (all_hold(mask, (#[trigger] g[i]).req_tag_idxs@) <==> forall|k: int|
        0 <= k < g[i].req_tag_idxs@.len() ==> (#[trigger] g[i].req_tag_idxs@[k]) < mask.len()
            && mask[g[i].req_tag_idxs@[k] as int]) by {
        crate::engine::eligibility::law_masks_satisfy_all(mask, g[i].req_tag_idxs@);
    }
    if is_usable_ring(g, mask, n, e) {
        let i = choose|i: int|
            0 <= i < n && all_hold(mask, (#[trigger] g[i]).req_tag_idxs@) && g[i].node == e.0 && g[i].cost_ms == e.1;
        assert(g[i].node == e.0);
    }
}

/// The edges between components are those of the macro edges that are no carriers, lead from one known
/// node to another, and leave their component, each with the tags of its edge.
pub proof fn law_component_edges(comp: Seq<u16>, src: Seq<u32>, dst: Seq<u32>, lookup: MacroLookup, k: int, e: (u16, u16, Seq<usize>))
    requires
        0 <= k <= src.len(),
        src.len() == dst.len(),
    ensures
        component_edges(comp, src, dst, lookup, k).contains(e) <==> exists|i: int|
            0 <= i < k && ((#[trigger] src[i]) != 0 || dst[i] != 0) && src[i] < comp.len() && dst[i] < comp.len() && comp[src[i] as int]
                != comp[dst[i] as int] && e == (comp[src[i] as int], comp[dst[i] as int], lookup.reqs(i)),
    decreases k,
{
    if k > 0 {
        law_component_edges(comp, src, dst, lookup, k - 1, e);
        let (s, all) = (component_edges(comp, src, dst, lookup, k - 1), component_edges(comp, src, dst, lookup, k));
        if all.contains(e) {
            let j = choose|j: int| 0 <= j < all.len() && all[j] == e;
            if j < s.len() {
                assert(s[j] == e);
                assert(s.contains(e));
            } else {
                assert(src[k - 1] != 0 || dst[k - 1] != 0);
            }
        }
        if s.contains(e) {
            let j = choose|j: int| 0 <= j < s.len() && s[j] == e;
            assert(all[j] == e);
        }
        if all.len() > s.len() {
            assert(all[all.len() - 1] == (comp[src[k - 1] as int], comp[dst[k - 1] as int], lookup.reqs(k - 1)));
        }
    }
}

/// The places in components are those of the known nodes, each with its tags.
pub proof fn law_component_places(comp: Seq<u16>, places: Seq<(u32, Seq<usize>)>, k: int, e: (u16, Seq<usize>))
    requires
        0 <= k <= places.len(),
    ensures
        component_places(comp, places, k).contains(e) <==> exists|i: int|
            0 <= i < k && (#[trigger] places[i]).0 < comp.len() && e == (comp[places[i].0 as int], places[i].1),
    decreases k,
{
    if k > 0 {
        law_component_places(comp, places, k - 1, e);
        let (s, all) = (component_places(comp, places, k - 1), component_places(comp, places, k));
        if all.contains(e) {
            let j = choose|j: int| 0 <= j < all.len() && all[j] == e;
            if j < s.len() {
                assert(s[j] == e);
                assert(s.contains(e));
            } else {
                assert(places[k - 1].0 < comp.len());
            }
        }
        if s.contains(e) {
            let j = choose|j: int| 0 <= j < s.len() && s[j] == e;
            assert(all[j] == e);
        }
        if all.len() > s.len() {
            assert(all[all.len() - 1] == (comp[places[k - 1].0 as int], places[k - 1].1));
        }
    }
}

}
