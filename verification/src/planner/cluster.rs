//! Planning inside one cluster, and across clusters.

use crate::db::ClusterTile;
use crate::json::Json;
use crate::models::Tile;
use crate::planner::graph::{no_negative_costs, Graph, GraphInputs, NegativeCost};
use crate::planner::high_level::{path_within_cluster, plan_hl_indices};
use crate::planner::hpa::{reconstruct_tiles_and_actions, HpaOptions};
use crate::planner::tiles::ClusterTiles;
use crate::requirements::RequirementEvaluator;
use vstd::prelude::*;
#[allow(unused_imports)]
use crate::planner::graph::{edge_views, rows_cost_nothing_negative};
#[allow(unused_imports)]
use crate::planner::high_level::{answers_tiles, can_cross, hop_result, micro_path, must_cross};
#[allow(unused_imports)]
use crate::planner::micro_astar::{is_path, seq_of};
#[allow(unused_imports)]
use crate::requirements::RequirementKV;
#[allow(unused_imports)]
use crate::planner::hpa::{action_views, reconstructed};

verus! {

#[derive(Debug)]
pub struct ClusterPlanResult {
    pub path: Vec<Tile>,
    pub actions: Vec<Json>,
}

/// The tile of a row, each coordinate cut to 32 bits.
pub open spec fn row_tile(r: ClusterTile) -> Tile {
    Tile { x: r.x as i32, y: r.y as i32, plane: r.plane as i32 }
}

/// Whether one of the first `k` rows puts the tile into the cluster.
pub open spec fn row_says(rows: Seq<ClusterTile>, k: int, c: i64, t: Tile) -> bool {
    exists|i: int| 0 <= i < k && (#[trigger] rows[i]).cluster_id == c && row_tile(rows[i]) == t
}

/// Whether `tiles` knows the clusters `ids` and those of the rows, with the tiles of the rows.
pub open spec fn tiles_match(tiles: ClusterTiles, ids: Seq<i64>, rows: Seq<ClusterTile>) -> bool {
    &&& tiles.wf()
    &&& forall|c: i64| #[trigger] tiles.knows(c) <==> ids.contains(c) || exists|i: int|
        0 <= i < rows.len() && (#[trigger] rows[i]).cluster_id == c
    &&& forall|c: i64, t: Tile| #[trigger] tiles.has(c, t) <==> row_says(rows, rows.len() as int, c, t)
}

/// The tiles of the clusters `ids`, as the rows say.
pub fn collect_cluster_tiles(ids: &[i64], rows: &[ClusterTile]) -> (r: ClusterTiles)
    ensures
        tiles_match(r, ids@, rows@),
{
    let mut r: ClusterTiles = ClusterTiles::new();
    let mut i: usize = 0;
    while i < ids.len()
        invariant
            i <= ids@.len(),
            r.wf(),
            forall|c: i64| #[trigger] r.knows(c) <==> ids@.take(i as int).contains(c),
            forall|c: i64, t: Tile| !#[trigger] r.has(c, t),
        decreases ids@.len() - i,
    {
        let ghost before = r;
        r.add_cluster(ids[i]);
        assert forall|c: i64| #[trigger] r.knows(c) <==> ids@.take(i + 1).contains(c) by {
            assert(before.knows(c) <==> ids@.take(i as int).contains(c));
            if ids@.take(i as int).contains(c) {
                let k = choose|k: int| 0 <= k < i && #[trigger] ids@.take(i as int)[k] == c;
                assert(ids@.take(i + 1)[k] == c);
            }
            if c == ids@[i as int] {
                assert(ids@.take(i + 1)[i as int] == c);
            }
            if ids@.take(i + 1).contains(c) && c != ids@[i as int] {
                let k = choose|k: int| 0 <= k < i + 1 && #[trigger] ids@.take(i + 1)[k] == c;
                assert(ids@.take(i as int)[k] == c);
            }
        }
        i += 1;
    }
    assert(ids@.take(i as int) =~= ids@);
    let mut j: usize = 0;
    while j < rows.len()
        invariant
            j <= rows@.len(),
            r.wf(),
            forall|c: i64| #[trigger] r.knows(c) <==> ids@.contains(c) || exists|i: int|
                0 <= i < j && (#[trigger] rows@[i]).cluster_id == c,
            forall|c: i64, t: Tile| #[trigger] r.has(c, t) <==> row_says(rows@, j as int, c, t),
        decreases rows@.len() - j,
    {
        let row: &ClusterTile = &rows[j];
        let ghost before = r;
        r.add(row.cluster_id, Tile { x: row.x as i32, y: row.y as i32, plane: row.plane as i32 });
        assert forall|c: i64, t: Tile| #[trigger] r.has(c, t) <==> row_says(rows@, j + 1, c, t) by {
            assert(before.has(c, t) <==> row_says(rows@, j as int, c, t));
            if row_says(rows@, j as int, c, t) {
                let i = choose|i: int| 0 <= i < j && (#[trigger] rows@[i]).cluster_id == c && row_tile(rows@[i]) == t;
                assert(rows@[i].cluster_id == c);
            }
            if c == row.cluster_id && t == row_tile(*row) {
                assert(rows@[j as int].cluster_id == c);
            }
        }
        assert forall|c: i64| #[trigger] r.knows(c) <==> ids@.contains(c) || exists|i: int|
            0 <= i < j + 1 && (#[trigger] rows@[i]).cluster_id == c by {
            assert(before.knows(c) <==> ids@.contains(c) || exists|i: int| 0 <= i < j && (#[trigger] rows@[i]).cluster_id == c);
            if c == row.cluster_id {
                assert(rows@[j as int].cluster_id == c);
            }
        }
        j += 1;
    }
    r
}

/// The clusters that the two ends of a route lie in, and the tiles of the first.
#[derive(Debug, Clone, Copy)]
pub struct CommonCluster<'a> {
    pub start: Option<i64>,
    pub end: Option<i64>,
    pub tiles: &'a [ClusterTile],
}

/// Whether `r` is a shortest way from `start` to `end` inside the cluster that both lie in. Where
/// the clusters differ or are unknown, or the cluster has no tiles, there is none.
pub open spec fn walk_inside<F: Fn(i32, i32, i32) -> bool>(
    start_cluster: Option<i64>,
    end_cluster: Option<i64>,
    tiles: Seq<ClusterTile>,
    start: Tile,
    end: Tile,
    walk: F,
    r: Option<Seq<Tile>>,
) -> bool {
    if start.plane != end.plane || start_cluster is None || start_cluster != end_cluster || tiles.len() == 0 {
        r is None
    } else {
        exists|known: ClusterTiles| #[trigger]
            tiles_match(known, Seq::empty(), tiles) && micro_path(known, start_cluster->0, walk, start, end, r)
    }
}

/// A shortest way from `start` to `end` inside one cluster, given the cluster of each and the
/// tiles of the first.
pub fn plan_same_cluster<F: Fn(i32, i32, i32) -> bool>(
    start_cluster: Option<i64>,
    end_cluster: Option<i64>,
    tiles: &[ClusterTile],
    start: Tile,
    end: Tile,
    is_walkable: &F,
) -> (r: Option<Vec<Tile>>)
    requires
        answers_tiles(*is_walkable),
    ensures
        walk_inside(start_cluster, end_cluster, tiles@, start, end, *is_walkable, seq_of(r)),
{
    if start.plane != end.plane || tiles.len() == 0 {
        return None;
    }
    match (start_cluster, end_cluster) {
        (Some(a), Some(b)) => {
            if a != b {
                return None;
            }
            let none: Vec<i64> = Vec::new();
            let known: ClusterTiles = collect_cluster_tiles(none.as_slice(), tiles);
            assert(none@ =~= Seq::empty());
            path_within_cluster(start, end, a, &known, is_walkable)
        },
        _ => None,
    }
}

/// Whether `r` is a plan by the entrances of clusters: the hops that cost least, walked.
pub open spec fn plan_across<F: Fn(i32, i32, i32) -> bool>(
    inputs: GraphInputs,
    caller: Seq<RequirementKV>,
    start: Tile,
    end: Tile,
    tiles: ClusterTiles,
    walk: F,
    r: Option<ClusterPlanResult>,
) -> bool {
    if inputs.entrances@.len() == 0 {
        r is None
    } else {
        exists|found: Option<(Graph, Vec<usize>)>| #[trigger]
            hop_result(inputs, caller, start, end, false, tiles, walk, found) && match found {
                Some((g, hl)) => r is Some && reconstructed(
                    g.nodes@,
                    edge_views(g.edges@),
                    tiles,
                    walk,
                    hl@,
                    start,
                    end,
                    r->0.path@,
                    action_views(r->0.actions@),
                ),
                None => r is None,
            }
    }
}

/// Whether `r` is the plan of a route, given what way there is inside the cluster that both its
/// ends lie in: that way, without actions, where there is one; else a plan by the entrances.
pub open spec fn planned<F: Fn(i32, i32, i32) -> bool>(
    inside: Option<Seq<Tile>>,
    inputs: GraphInputs,
    caller: Seq<RequirementKV>,
    start: Tile,
    end: Tile,
    tiles: ClusterTiles,
    walk: F,
    r: Option<ClusterPlanResult>,
) -> bool {
    match inside {
        Some(p) => r is Some && r->0.path@ == p && r->0.actions@.len() == 0,
        None => plan_across(inputs, caller, start, end, tiles, walk, r),
    }
}

/// Whether `r` is a plan of a route: inside the cluster that both its ends lie in, where there is a
/// way, else across clusters.
pub open spec fn is_cluster_plan<F: Fn(i32, i32, i32) -> bool>(
    common: CommonCluster,
    inputs: GraphInputs,
    caller: Seq<RequirementKV>,
    start: Tile,
    end: Tile,
    tiles: ClusterTiles,
    walk: F,
    r: Option<ClusterPlanResult>,
) -> bool {
    exists|inside: Option<Seq<Tile>>| #[trigger]
        walk_inside(common.start, common.end, common.tiles@, start, end, walk, inside) && planned(
            inside,
            inputs,
            caller,
            start,
            end,
            tiles,
            walk,
            r,
        )
}

/// Plans a route: inside the cluster that both its ends lie in, where there is a way, else across
/// clusters from the rows of the abstract graph.
pub fn plan_cluster_aware<F: Fn(i32, i32, i32) -> bool>(
    common: &CommonCluster,
    inputs: &GraphInputs,
    evaluator: &RequirementEvaluator,
    start: Tile,
    end: Tile,
    cluster_tiles: &ClusterTiles,
    is_walkable: &F,
) -> (r: Option<ClusterPlanResult>)
    requires
        cluster_tiles.wf(),
        answers_tiles(*is_walkable),
        inputs.entrances@.len() < usize::MAX - 1,
        inputs.teleports@.len() < 0x2000_0000_0000_0000,
        rows_cost_nothing_negative(*inputs),
    ensures
        is_cluster_plan(*common, *inputs, evaluator@, start, end, *cluster_tiles, *is_walkable, r),
{
    let inside: Option<Vec<Tile>> = plan_same_cluster(common.start, common.end, common.tiles, start, end, is_walkable);
    let ghost way = seq_of(inside);
    assert(walk_inside(common.start, common.end, common.tiles@, start, end, *is_walkable, way));
    if let Some(path) = inside {
        return Some(ClusterPlanResult { path, actions: Vec::new() });
    }
    if inputs.entrances.len() == 0 {
        return None;
    }
    let found: Option<(Graph, Vec<usize>)> = plan_hl_indices(inputs, evaluator, start, end, cluster_tiles, is_walkable);
    let ghost whole = found;
    assert(hop_result(*inputs, evaluator@, start, end, false, *cluster_tiles, *is_walkable, whole));
    match found {
        None => None,
        Some((graph, hl)) => {
            let (path, actions): (Vec<Tile>, Vec<Json>) = reconstruct_tiles_and_actions(
                &graph,
                &hl,
                &HpaOptions { start, end },
                cluster_tiles,
                is_walkable,
            );
            Some(ClusterPlanResult { path, actions })
        },
    }
}

/// Plans a route as `plan_cluster_aware` does, where no row has a negative cost.
pub fn checked_plan_cluster_aware<F: Fn(i32, i32, i32) -> bool>(
    common: &CommonCluster,
    inputs: &GraphInputs,
    evaluator: &RequirementEvaluator,
    start: Tile,
    end: Tile,
    cluster_tiles: &ClusterTiles,
    is_walkable: &F,
) -> (r: Result<Option<ClusterPlanResult>, NegativeCost>)
    requires
        cluster_tiles.wf(),
        answers_tiles(*is_walkable),
        inputs.entrances@.len() < usize::MAX - 1,
        inputs.teleports@.len() < 0x2000_0000_0000_0000,
    ensures
        r is Err <==> !rows_cost_nothing_negative(*inputs),
        r is Ok ==> is_cluster_plan(
            *common,
            *inputs,
            evaluator@,
            start,
            end,
            *cluster_tiles,
            *is_walkable,
            r->Ok_0,
        ),
{
    if no_negative_costs(inputs) {
        Ok(plan_cluster_aware(common, inputs, evaluator, start, end, cluster_tiles, is_walkable))
    } else {
        Err(NegativeCost)
    }
}

/// Where both ends lie in one cluster and a way leads from one to the other inside it, the plan is
/// such a way, no longer than any other, and has no actions.
pub proof fn law_common_cluster_is_walked<F: Fn(i32, i32, i32) -> bool>(
    cluster: i64,
    tiles: Seq<ClusterTile>,
    inputs: GraphInputs,
    caller: Seq<RequirementKV>,
    start: Tile,
    end: Tile,
    known: ClusterTiles,
    cluster_tiles: ClusterTiles,
    walk: F,
    way: Seq<Tile>,
    inside: Option<Seq<Tile>>,
    r: Option<ClusterPlanResult>,
)
    requires
        start != end,
        start.plane == end.plane,
        tiles_match(known, Seq::empty(), tiles),
        known.knows(cluster),
        is_path(must_cross(known, cluster, walk, start.plane), start, end, way),
        walk_inside(Some(cluster), Some(cluster), tiles, start, end, walk, inside),
        planned(inside, inputs, caller, start, end, cluster_tiles, walk, r),
    ensures
        r is Some,
        r->0.actions@.len() == 0,
        is_path(can_cross(known, cluster, walk, start.plane), start, end, r->0.path@),
        r->0.path@.len() <= way.len(),
{
    assert(tiles.len() > 0);
    let other = choose|other: ClusterTiles| #[trigger]
        tiles_match(other, Seq::empty(), tiles) && micro_path(other, cluster, walk, start, end, inside);
    assert(other.knows(cluster) == known.knows(cluster));
    assert forall|c: i64, t: Tile| other.has(c, t) == known.has(c, t) by {}
    assert(must_cross(other, cluster, walk, start.plane) =~= must_cross(known, cluster, walk, start.plane));
    assert(can_cross(other, cluster, walk, start.plane) =~= can_cross(known, cluster, walk, start.plane));
}

/// Where the ends do not lie in one cluster, or on one plane, or the cluster has no tiles, the plan goes by
/// the entrances of clusters; and where there are none, there is no plan.
pub proof fn law_other_plans_need_entrances<F: Fn(i32, i32, i32) -> bool>(
    common: CommonCluster,
    inputs: GraphInputs,
    caller: Seq<RequirementKV>,
    start: Tile,
    end: Tile,
    tiles: ClusterTiles,
    walk: F,
    r: Option<ClusterPlanResult>,
)
    requires
        is_cluster_plan(common, inputs, caller, start, end, tiles, walk, r),
        start.plane != end.plane || common.start is None || common.end is None || common.start->0 != common.end->0
            || common.tiles@.len() == 0,
    ensures
        inputs.entrances@.len() == 0 ==> r is None,
        r is Some ==> exists|g: Graph, hl: Vec<usize>| #[trigger]
            hop_result(inputs, caller, start, end, false, tiles, walk, Some((g, hl))) && reconstructed(
                g.nodes@,
                edge_views(g.edges@),
                tiles,
                walk,
                hl@,
                start,
                end,
                r->0.path@,
                action_views(r->0.actions@),
            ),
        r is None && inputs.entrances@.len() > 0 ==> hop_result(inputs, caller, start, end, false, tiles, walk, None),
{
    let inside = choose|inside: Option<Seq<Tile>>| #[trigger]
        walk_inside(common.start, common.end, common.tiles@, start, end, walk, inside) && planned(
            inside,
            inputs,
            caller,
            start,
            end,
            tiles,
            walk,
            r,
        );
    assert(inside is None);
    if inputs.entrances@.len() > 0 {
        let found = choose|found: Option<(Graph, Vec<usize>)>| #[trigger]
            hop_result(inputs, caller, start, end, false, tiles, walk, found) && match found {
                Some((g, hl)) => r is Some && reconstructed(
                    g.nodes@,
                    edge_views(g.edges@),
                    tiles,
                    walk,
                    hl@,
                    start,
                    end,
                    r->0.path@,
                    action_views(r->0.actions@),
                ),
                None => r is None,
            };
        if found is Some {
            let (g, hl) = found->0;
            assert(hop_result(inputs, caller, start, end, false, tiles, walk, Some((g, hl))));
        }
    }
}

}
