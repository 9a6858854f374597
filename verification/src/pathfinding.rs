//! Finding and following paths in two tiers.
//!
//! A request names voxels to reach and the capabilities of the walker. It
//! is answered by a route over the partitions. The route is followed leg by
//! leg: for each leg a segment of voxels is searched, and the segment is
//! walked voxel by voxel. A voxel that has stopped supporting the walker
//! since the segment was planned ends the walk, and the request is made anew.
use crate::error::NavError;
use crate::extents::Extents;
use crate::flags::PartitionFlags;
use crate::graph::GraphView;
use crate::graph::PartitionGraph;
use crate::search::astar;
use crate::search::distinct;
use crate::search::SearchFailure;
use crate::spaces::clear;
use crate::spaces::goals_centred;
use crate::spaces::holds_id;
use crate::spaces::lemma_region_reachable;
use crate::spaces::lemma_region_walk;
use crate::spaces::lemma_route_consistent;
use crate::spaces::lemma_route_cost;
use crate::spaces::leg_boxed;
use crate::spaces::lemma_leg_consistent;
use crate::spaces::lemma_travel_cost;
use crate::spaces::lemma_voxel_reachable;
use crate::spaces::lemma_voxel_walk;
use crate::spaces::region_reachable;
use crate::spaces::region_walk;
use crate::spaces::route_cost;
use crate::spaces::travel_cost;
use crate::spaces::voxel_reachable;
use crate::spaces::voxel_walk;
use crate::spaces::RegionSpace;
use crate::spaces::VoxelSpace;
use crate::terrain::Terrain;
use vstd::prelude::*;

verus! {

broadcast use vstd::array::group_array_axioms;

/// How many partitions a search for a route may expand.
pub const REGION_BUDGET: usize = 2000;

/// How many voxels a search for a segment may expand.
pub const VOXEL_BUDGET: usize = 3000;

/// The speed of every move, in voxels per second.
pub const MOVE_SPEED: u32 = 8;

/// A wish to reach one of `goals` with the capabilities `flags`.
#[derive(Debug)]
pub struct PathfindRequest {
    pub goals: Vec<[u32; 3]>,
    pub flags: PartitionFlags,
}

/// A route over the partitions, from the partition of the walker to the
/// partition of a goal, and how much of it is still to be followed.
#[derive(Debug)]
pub struct PartitionPath {
    /// The partitions of the route, the walker's own first.
    pub path: Vec<u32>,
    pub goals: Vec<[u32; 3]>,
    /// The number of legs still to be planned, counted from the end of the
    /// route: one for each step to the next partition, the last of which
    /// ends on a goal. A route of one partition has one leg.
    pub current: usize,
    pub flags: PartitionFlags,
}

/// The voxels of one leg of a route, and how many are still to be walked.
#[derive(Debug)]
pub struct PathSegment {
    /// The voxels of the leg, the walker's own first.
    pub blocks: Vec<[i32; 3]>,
    /// The number of voxels still to be walked, counted from the end.
    pub current: usize,
    pub flags: PartitionFlags,
    pub goals: Vec<[u32; 3]>,
}

/// An order to move to a voxel next to the walker.
#[derive(Clone, Copy, Debug)]
pub struct BlockMove {
    pub speed: u32,
    pub target: [i32; 3],
}

impl PartitionPath {
    /// The route has a first partition, and no more legs are left than it
    /// has steps.
    pub open spec fn wf(&self) -> bool {
        &&& self.path@.len() >= 1
        &&& self.current <= 1 || self.current <= self.path@.len() - 1
    }
}

impl PathSegment {
    /// No more voxels are left than the segment has.
    pub open spec fn wf(&self) -> bool {
        self.current <= self.blocks@.len()
    }
}

/// Partition `p` owns one of the voxels `goals`.
pub open spec fn goal_partition(terrain: &Terrain, goals: Seq<[u32; 3]>, p: u32) -> bool {
    exists|i: int|
        0 <= i < goals.len() && terrain.voxel(
            (#[trigger] goals[i])[0] as int,
            goals[i][1] as int,
            goals[i][2] as int,
        ).partition_id == Some(p)
}

/// The voxel `v` is one of `goals`.
pub open spec fn at_goal(goals: Seq<[u32; 3]>, v: [i32; 3]) -> bool {
    exists|i: int|
        0 <= i < goals.len() && (#[trigger] goals[i])[0] == v[0] && goals[i][1] == v[1] && goals[i][2]
            == v[2]
}

/// A coordinate as a signed number; the largest one if it does not fit.
pub open spec fn spec_signed(v: u32) -> i32 {
    if v > i32::MAX {
        i32::MAX
    } else {
        v as i32
    }
}

/// `signed` holds the voxels of `goals` with signed coordinates.
pub open spec fn signed_of(goals: Seq<[u32; 3]>, signed: Seq<[i32; 3]>) -> bool {
    &&& signed.len() == goals.len()
    &&& forall|i: int|
        0 <= i < goals.len() ==> (#[trigger] signed[i])[0] == spec_signed(goals[i][0]) && signed[i][1]
            == spec_signed(goals[i][1]) && signed[i][2] == spec_signed(goals[i][2])
}

fn signed(v: u32) -> (r: i32)
    ensures
        r == spec_signed(v),
{
    if v > i32::MAX as u32 {
        i32::MAX
    } else {
        v as i32
    }
}

/// The voxels of `goals` with signed coordinates.
fn signed_goals(goals: &Vec<[u32; 3]>) -> (r: Vec<[i32; 3]>)
    ensures
        signed_of(goals@, r@),
{
    let mut r: Vec<[i32; 3]> = Vec::new();
    let mut i: usize = 0;
    while i < goals.len()
        invariant
            i <= goals.len(),
            r@.len() == i,
            forall|k: int|
                0 <= k < i ==> (#[trigger] r@[k])[0] == spec_signed(goals@[k][0]) && r@[k][1]
                    == spec_signed(goals@[k][1]) && r@[k][2] == spec_signed(goals@[k][2]),
        decreases goals.len() - i,
    {
        let g = goals[i];
        r.push([signed(g[0]), signed(g[1]), signed(g[2])]);
        i += 1;
    }
    r
}

/// A copy of a list of voxels.
fn copy_goals(goals: &Vec<[u32; 3]>) -> (r: Vec<[u32; 3]>)
    ensures
        r@ == goals@,
{
    let mut r: Vec<[u32; 3]> = Vec::new();
    let mut i: usize = 0;
    while i < goals.len()
        invariant
            i <= goals.len(),
            r@ == goals@.subrange(0, i as int),
        decreases goals.len() - i,
    {
        r.push(goals[i]);
        i += 1;
        assert(r@ =~= goals@.subrange(0, i as int));
    }
    assert(r@ =~= goals@);
    r
}

/// A voxel of the world that is one of the signed goals is one of the
/// goals.
proof fn lemma_at_goal(terrain: &Terrain, goals: Seq<[u32; 3]>, signed: Seq<[i32; 3]>, v: [i32; 3])
    requires
        terrain.wf(),
        signed_of(goals, signed),
        terrain.in_bounds(v[0] as int, v[1] as int, v[2] as int),
    ensures
        signed.contains(v) <==> at_goal(goals, v),
{
    if signed.contains(v) {
        let i = choose|i: int| 0 <= i < signed.len() && signed[i] == v;
        assert(signed[i] == v);
        assert(goals[i][0] == v[0] && goals[i][1] == v[1] && goals[i][2] == v[2]);
    }
    if at_goal(goals, v) {
        let i = choose|i: int|
            0 <= i < goals.len() && (#[trigger] goals[i])[0] == v[0] && goals[i][1] == v[1]
                && goals[i][2] == v[2];
        assert(signed[i] =~= v);
    }
}

/// The partitions that own one of the voxels `goals`, each once.
fn goal_partitions(terrain: &Terrain, goals: &Vec<[u32; 3]>) -> (ids: Vec<u32>)
    requires
        terrain.wf(),
    ensures
        forall|p: u32| ids@.contains(p) <==> goal_partition(terrain, goals@, p),
        ids@.no_duplicates(),
{
    let mut ids: Vec<u32> = Vec::new();
    let mut i: usize = 0;
    while i < goals.len()
        invariant
            terrain.wf(),
            i <= goals.len(),
            ids@.no_duplicates(),
            forall|p: u32|
                ids@.contains(p) <==> goal_partition(terrain, goals@.subrange(0, i as int), p),
        decreases goals.len() - i,
    {
        let g = goals[i];
        let ghost had = ids@;
        let ghost before = goals@.subrange(0, i as int);
        let ghost after = goals@.subrange(0, i as int + 1);
        let owner = terrain.get_partition_id_u32(g[0], g[1], g[2]);
        match owner {
            Some(p) => {
                if !holds_id(&ids, p) {
                    ids.push(p);
                }
            },
            None => {},
        }
        proof {
            assert forall|p: u32| ids@.contains(p) <==> goal_partition(terrain, after, p) by {
                if ids@.contains(p) {
                    let at = choose|at: int| 0 <= at < ids@.len() && ids@[at] == p;
                    if at < had.len() {
                        assert(had[at] == p);
                        assert(had.contains(p));
                        let k = choose|k: int|
                            0 <= k < before.len() && terrain.voxel(
                                (#[trigger] before[k])[0] as int,
                                before[k][1] as int,
                                before[k][2] as int,
                            ).partition_id == Some(p);
                        assert(after[k] == before[k]);
                    } else {
                        assert(after[i as int] == g);
                    }
                }
                if goal_partition(terrain, after, p) {
                    let k = choose|k: int|
                        0 <= k < after.len() && terrain.voxel(
                            (#[trigger] after[k])[0] as int,
                            after[k][1] as int,
                            after[k][2] as int,
                        ).partition_id == Some(p);
                    if k < i {
                        assert(before[k] == after[k]);
                        assert(goal_partition(terrain, before, p));
                        assert(had.contains(p));
                        let at = choose|at: int| 0 <= at < had.len() && had[at] == p;
                        assert(ids@[at] == p);
                    } else {
                        assert(after[k] == g);
                        assert(owner == Some(p));
                        if had.contains(p) {
                            let at = choose|at: int| 0 <= at < had.len() && had[at] == p;
                            assert(ids@[at] == p);
                        } else {
                            assert(ids@[ids@.len() - 1] == p);
                        }
                    }
                }
            }
        }
        i += 1;
    }
    proof {
        assert(goals@.subrange(0, goals@.len() as int) =~= goals@);
    }
    ids
}

/// More than `budget` different partitions that own no goal can be reached
/// from partition `from`.
pub open spec fn region_budget_short(
    terrain: &Terrain,
    graph: &PartitionGraph,
    flags: PartitionFlags,
    goals: Seq<[u32; 3]>,
    from: u32,
    budget: int,
) -> bool {
    exists|s: Seq<u32>|
        {
            &&& #[trigger] s.no_duplicates()
            &&& s.len() > budget
            &&& forall|i: int|
                0 <= i < s.len() ==> region_reachable(graph@, flags, from, #[trigger] s[i])
                    && !goal_partition(terrain, goals, s[i])
        }
}

/// A search over the partitions runs out of budget only where the graph has
/// given more numbers than the budget: in a smaller graph a route is found
/// wherever a goal can be reached.
pub proof fn lemma_region_budget(
    terrain: &Terrain,
    graph: &PartitionGraph,
    flags: PartitionFlags,
    goals: Seq<[u32; 3]>,
    from: u32,
    budget: int,
)
    requires
        graph.wf(),
        graph@.partitions.contains_key(from),
        budget >= 0,
        region_budget_short(terrain, graph, flags, goals, from, budget),
    ensures
        graph.next_partition_id() > budget,
{
    let s = choose|s: Seq<u32>|
        {
            &&& #[trigger] s.no_duplicates()
            &&& s.len() > budget
            &&& forall|i: int|
                0 <= i < s.len() ==> region_reachable(graph@, flags, from, #[trigger] s[i])
                    && !goal_partition(terrain, goals, s[i])
        };
    graph.lemma_next_ids();
    assert forall|i: int| 0 <= i < s.len() implies (#[trigger] s[i]) < graph.next_partition_id() by {
        let p = choose|p: Seq<u32>|
            #[trigger] region_walk(graph@, flags, p) && p[0] == from && p.last() == s[i];
        if p.len() > 1 {
            assert(crate::spaces::region_edge(graph@, flags, p[p.len() - 2], p[p.len() - 2 + 1]));
            assert(graph@.adjacent(p[p.len() - 2], s[i]));
            assert(graph@.adjacent(s[i], p[p.len() - 2]));
        }
    }
    crate::search::lemma_few_ids(s, graph.next_partition_id());
}

/// `path` is a route for a walker in partition `from`: it leads from there,
/// by steps to neighbours that support one of the capabilities `flags`, to a
/// partition that owns one of `goals`, holds no partition twice, and no such
/// walk is shorter by the distances between the centres of its partitions.
pub open spec fn is_route(
    terrain: &Terrain,
    graph: GraphView,
    goals: Seq<[u32; 3]>,
    flags: PartitionFlags,
    from: u32,
    path: Seq<u32>,
) -> bool {
    &&& path.len() >= 1
    &&& path[0] == from
    &&& goal_partition(terrain, goals, path.last())
    &&& region_walk(graph, flags, path)
    &&& path.no_duplicates()
    &&& forall|w: Seq<u32>|
        #[trigger] region_walk(graph, flags, w) && w[0] == from && goal_partition(
            terrain,
            goals,
            w.last(),
        ) ==> route_cost(graph, path) <= route_cost(graph, w)
}

/// Goals whose voxels have no partition change nothing: with or without
/// them the same partitions own a goal, so the same walks are routes.
pub proof fn lemma_ownerless_goals(
    terrain: &Terrain,
    graph: GraphView,
    goals: Seq<[u32; 3]>,
    more: Seq<[u32; 3]>,
    flags: PartitionFlags,
    from: u32,
    path: Seq<u32>,
)
    requires
        forall|i: int|
            0 <= i < more.len() ==> terrain.voxel(
                (#[trigger] more[i])[0] as int,
                more[i][1] as int,
                more[i][2] as int,
            ).partition_id is None,
    ensures
        forall|p: u32| goal_partition(terrain, goals + more, p) <==> goal_partition(terrain, goals, p),
        is_route(terrain, graph, goals + more, flags, from, path) <==> is_route(
            terrain,
            graph,
            goals,
            flags,
            from,
            path,
        ),
{
    let all = goals + more;
    assert forall|p: u32| goal_partition(terrain, all, p) <==> goal_partition(terrain, goals, p) by {
        if goal_partition(terrain, all, p) {
            let i = choose|i: int|
                0 <= i < all.len() && terrain.voxel(
                    (#[trigger] all[i])[0] as int,
                    all[i][1] as int,
                    all[i][2] as int,
                ).partition_id == Some(p);
            if i >= goals.len() {
                assert(all[i] == more[i - goals.len()]);
            } else {
                assert(all[i] == goals[i]);
            }
        }
        if goal_partition(terrain, goals, p) {
            let i = choose|i: int|
                0 <= i < goals.len() && terrain.voxel(
                    (#[trigger] goals[i])[0] as int,
                    goals[i][1] as int,
                    goals[i][2] as int,
                ).partition_id == Some(p);
            assert(all[i] == goals[i]);
        }
    }
}

/// Plans a route over the partitions for a walker that stands on the voxel
/// `start`.
///
/// The route leads from the partition of `start`, by steps to neighbours
/// that support one of the walker's capabilities, to a partition that owns
/// one of the goals. It holds no partition twice, and no such route is
/// shorter by the distances between the centres of its partitions. It is the
/// partition of `start` alone where that owns a goal. There is no route
/// where `start` has no partition, where no goal has a partition or can be
/// reached, or where the search runs out of budget; in a graph that has
/// given no more numbers than the budget, a route is found wherever a goal
/// can be reached.
pub fn pathfinding(
    terrain: &Terrain,
    graph: &PartitionGraph,
    start: [u32; 3],
    request: &PathfindRequest,
) -> (r: Result<PartitionPath, NavError>)
    requires
        terrain.wf(),
        graph.wf(),
    ensures
        r == Err::<PartitionPath, NavError>(NavError::NoStartingPartition) <==> terrain.voxel(
            start[0] as int,
            start[1] as int,
            start[2] as int,
        ).partition_id is None,
        r == Err::<PartitionPath, NavError>(NavError::MissingGraphReference) <==> (terrain.voxel(
            start[0] as int,
            start[1] as int,
            start[2] as int,
        ).partition_id matches Some(p) && !graph@.partitions.contains_key(p)),
        r != Err::<PartitionPath, NavError>(NavError::StaleSegment),
        terrain.voxel(start[0] as int, start[1] as int, start[2] as int).partition_id matches Some(
            from,
        ) ==> (graph@.partitions.contains_key(from) && goal_partition(terrain, request.goals@, from) ==> (
        r matches Ok(route) && route.path@ == seq![from])),
        terrain.voxel(start[0] as int, start[1] as int, start[2] as int).partition_id matches Some(
            from,
        ) ==> (graph@.partitions.contains_key(from) && (forall|p: u32|
            !goal_partition(terrain, request.goals@, p)) ==> r == Err::<PartitionPath, NavError>(
            NavError::NoReachableDestination,
        )),
        terrain.voxel(start[0] as int, start[1] as int, start[2] as int).partition_id matches Some(
            from,
        ) ==> (graph@.partitions.contains_key(from) && graph.next_partition_id() <= REGION_BUDGET && (
        exists|p: u32|
            goal_partition(terrain, request.goals@, p) && #[trigger] region_reachable(
                graph@,
                request.flags,
                from,
                p,
            )) ==> r is Ok),
        terrain.voxel(start[0] as int, start[1] as int, start[2] as int).partition_id matches Some(
            from,
        ) ==> match r {
            Ok(route) => {
                &&& route.wf()
                &&& is_route(terrain, graph@, request.goals@, request.flags, from, route.path@)
                &&& route.goals@ == request.goals@
                &&& route.flags == request.flags
                &&& route.current == if route.path@.len() == 1 {
                    1
                } else {
                    route.path@.len() - 1
                }
            },
            Err(NavError::NoReachableDestination) => forall|p: u32| #[trigger]
                goal_partition(terrain, request.goals@, p) ==> !region_reachable(
                    graph@,
                    request.flags,
                    from,
                    p,
                ),
            Err(NavError::SearchBudgetExceeded) => region_budget_short(
                terrain,
                graph,
                request.flags,
                request.goals@,
                from,
                REGION_BUDGET as int,
            ),
            Err(_) => true,
        },
{
    let from = match terrain.get_partition_id_u32(start[0], start[1], start[2]) {
        Some(p) => p,
        None => {
            return Err(NavError::NoStartingPartition);
        },
    };
    if !graph.contains_partition(from) {
        return Err(NavError::MissingGraphReference);
    }
    let ids = goal_partitions(terrain, &request.goals);
    if ids.len() == 0 {
        proof {
            assert forall|p: u32| !goal_partition(terrain, request.goals@, p) by {
                assert(!ids@.contains(p));
            }
        }
        return Err(NavError::NoReachableDestination);
    }
    proof {
        assert(ids@.contains(ids@[0]));
    }
    let targets = centers(graph, &ids);
    let space = RegionSpace { graph, goals: &ids, targets: &targets, flags: request.flags };
    if holds_id(&ids, from) {
        let mut path: Vec<u32> = Vec::new();
        path.push(from);
        proof {
            assert(path@[0] == from);
            assert(path@ =~= seq![from]);
            assert forall|w: Seq<u32>| route_cost(graph@, path@) <= #[trigger] route_cost(graph@, w) by {
                lemma_route_cost_sign(graph@, w);
            }
        }
        return Ok(
            PartitionPath {
                path,
                goals: copy_goals(&request.goals),
                current: 1,
                flags: request.flags,
            },
        );
    }
    match astar(&space, from, REGION_BUDGET) {
        Ok(path) => {
            proof {
                assert(path@.no_duplicates()) by {
                    reveal(crate::search::distinct);
                }
                lemma_region_walk(&space, path@);
                if path@.len() == 1 {
                    assert(path@[0] == path@.last());
                }
                assert(goals_centred(graph@, ids@, targets@)) by {
                    assert forall|g: u32|
                        #[trigger] ids@.contains(g) && graph@.partitions.contains_key(g) implies exists|
                        i: int,
                    |
                        0 <= i < targets@.len() && (#[trigger] targets@[i])@ == crate::spaces::center_of(
                            graph@,
                            g,
                        ) by {
                        let i = lemma_centers_hold(graph@, ids@, g);
                        assert(voxel_views(targets@)[i] == targets@[i]@);
                    }
                }
                lemma_route_consistent(&space);
                lemma_route_cost(&space, path@);
                assert forall|w: Seq<u32>|
                    #[trigger] region_walk(graph@, request.flags, w) && w[0] == from && goal_partition(
                        terrain,
                        request.goals@,
                        w.last(),
                    ) implies route_cost(graph@, path@) <= route_cost(graph@, w) by {
                    lemma_region_walk(&space, w);
                    lemma_route_cost(&space, w);
                    assert(ids@.contains(w.last()));
                }
            }
            let legs = path.len() - 1;
            Ok(PartitionPath { path, goals: copy_goals(&request.goals), current: legs, flags: request.flags })
        },
        Err(SearchFailure::Exhausted) => {
            proof {
                assert forall|p: u32| #[trigger]
                    goal_partition(terrain, request.goals@, p) implies !region_reachable(
                    graph@,
                    request.flags,
                    from,
                    p,
                ) by {
                    lemma_region_reachable(&space, from, p);
                }
            }
            Err(NavError::NoReachableDestination)
        },
        Err(SearchFailure::BudgetExceeded) => {
            proof {
                let s = choose|s: Seq<u32>|
                    {
                        &&& #[trigger] s.no_duplicates()
                        &&& s.len() > REGION_BUDGET
                        &&& forall|i: int|
                            0 <= i < s.len() ==> crate::search::reachable(&space, from, #[trigger] s[i])
                                && !crate::search::SearchSpace::goal(&space, s[i])
                    };
                assert forall|i: int| 0 <= i < s.len() implies region_reachable(
                    graph@,
                    request.flags,
                    from,
                    #[trigger] s[i],
                ) && !goal_partition(terrain, request.goals@, s[i]) by {
                    lemma_region_reachable(&space, from, s[i]);
                }
                lemma_region_budget(terrain, graph, request.flags, request.goals@, from, REGION_BUDGET as int);
            }
            Err(NavError::SearchBudgetExceeded)
        },
    }
}

/// The bounding-box centres of the given partitions, as voxels with signed
/// coordinates; partitions that do not exist are left out.
fn centers(graph: &PartitionGraph, ids: &Vec<u32>) -> (r: Vec<[i32; 3]>)
    requires
        graph.wf(),
    ensures
        voxel_views(r@) == centers_of(graph@, ids@),
{
    let mut r: Vec<[i32; 3]> = Vec::new();
    let mut i: usize = 0;
    assert(voxel_views(r@) =~= centers_of(graph@, ids@.take(0)));
    while i < ids.len()
        invariant
            graph.wf(),
            i <= ids.len(),
            voxel_views(r@) == centers_of(graph@, ids@.take(i as int)),
        decreases ids.len() - i,
    {
        let ghost had = r@;
        proof {
            assert(ids@.take(i as int + 1).drop_last() =~= ids@.take(i as int));
            assert(ids@.take(i as int + 1).last() == ids@[i as int]);
        }
        match graph.get_center(ids[i]) {
            Some(c) => {
                let at = [signed(c[0]), signed(c[1]), signed(c[2])];
                r.push(at);
                proof {
                    assert(at@ =~= crate::spaces::center_of(graph@, ids@[i as int]));
                    assert(voxel_views(r@) =~= voxel_views(had).push(at@));
                }
            },
            None => {},
        }
        i += 1;
    }
    assert(ids@.take(ids@.len() as int) =~= ids@);
    r
}

/// The centre of every partition of `ids` that exists is among the centres.
proof fn lemma_centers_hold(graph: GraphView, ids: Seq<u32>, g: u32) -> (i: int)
    requires
        ids.contains(g),
        graph.partitions.contains_key(g),
    ensures
        0 <= i < centers_of(graph, ids).len(),
        centers_of(graph, ids)[i] == crate::spaces::center_of(graph, g),
    decreases ids.len(),
{
    if ids.last() == g {
        centers_of(graph, ids).len() - 1
    } else {
        let k = choose|k: int| 0 <= k < ids.len() && ids[k] == g;
        assert(ids.drop_last()[k] == g);
        lemma_centers_hold(graph, ids.drop_last(), g)
    }
}

/// No route has a length below zero.
proof fn lemma_route_cost_sign(graph: GraphView, p: Seq<u32>)
    ensures
        route_cost(graph, p) >= 0,
    decreases p.len(),
{
    if p.len() > 1 {
        lemma_route_cost_sign(graph, p.drop_last());
        crate::distance::lemma_diagonal_cost(
            crate::spaces::center_of(graph, p[p.len() - 2]),
            crate::spaces::center_of(graph, p[p.len() - 1]),
        );
    }
}

/// The voxels as sequences of their coordinates.
pub open spec fn voxel_views(voxels: Seq<[i32; 3]>) -> Seq<Seq<i32>> {
    Seq::new(voxels.len(), |i: int| voxels[i]@)
}

/// The bounding-box centres of those of the partitions `ids` that exist, in
/// the order of `ids`.
pub open spec fn centers_of(graph: GraphView, ids: Seq<u32>) -> Seq<Seq<i32>>
    decreases ids.len(),
{
    if ids.len() == 0 {
        Seq::empty()
    } else {
        let rest = centers_of(graph, ids.drop_last());
        if graph.partitions.contains_key(ids.last()) {
            rest.push(crate::spaces::center_of(graph, ids.last()))
        } else {
            rest
        }
    }
}

/// Whether a walker with the capabilities `flags` can get from partition
/// `start_id` to one of `goal_ids`, as far as a search within the budget
/// can tell.
///
/// The answer is yes only if the start is a goal or a goal can be reached.
/// It is no only if the start is no goal and either no goal can be reached
/// or more than the budget of partitions that are no goals can be.
pub fn is_reachable(start_id: u32, goal_ids: &Vec<u32>, graph: &PartitionGraph, flags: PartitionFlags) -> (r:
    bool)
    requires
        graph.wf(),
    ensures
        r ==> goal_ids@.contains(start_id) || exists|g: u32|
            #[trigger] goal_ids@.contains(g) && region_reachable(graph@, flags, start_id, g),
        !r ==> !goal_ids@.contains(start_id) && (!graph@.partitions.contains_key(start_id) || (
        forall|g: u32| #[trigger] goal_ids@.contains(g) ==> !region_reachable(graph@, flags, start_id, g))
            || exists|s: Seq<u32>|
            {
                &&& #[trigger] s.no_duplicates()
                &&& s.len() > REGION_BUDGET
                &&& forall|i: int|
                    0 <= i < s.len() ==> region_reachable(graph@, flags, start_id, #[trigger] s[i])
                        && !goal_ids@.contains(s[i])
            }),
{
    if holds_id(goal_ids, start_id) {
        return true;
    }
    if !graph.contains_partition(start_id) {
        return false;
    }
    let targets = centers(graph, goal_ids);
    let space = RegionSpace { graph, goals: goal_ids, targets: &targets, flags };
    match astar(&space, start_id, REGION_BUDGET) {
        Ok(path) => {
            proof {
                let g = path@.last();
                lemma_region_walk(&space, path@);
                assert(region_walk(graph@, flags, path@) && path@[0] == start_id && path@.last() == g);
                assert(goal_ids@.contains(g) && region_reachable(graph@, flags, start_id, g));
            }
            true
        },
        Err(SearchFailure::Exhausted) => {
            proof {
                assert forall|g: u32| #[trigger] goal_ids@.contains(g) implies !region_reachable(
                    graph@,
                    flags,
                    start_id,
                    g,
                ) by {
                    lemma_region_reachable(&space, start_id, g);
                }
            }
            false
        },
        Err(SearchFailure::BudgetExceeded) => {
            proof {
                let s = choose|s: Seq<u32>|
                    {
                        &&& #[trigger] s.no_duplicates()
                        &&& s.len() > REGION_BUDGET
                        &&& forall|i: int|
                            0 <= i < s.len() ==> crate::search::reachable(
                                &space,
                                start_id,
                                #[trigger] s[i],
                            ) && !crate::search::SearchSpace::goal(&space, s[i])
                    };
                assert forall|i: int| 0 <= i < s.len() implies region_reachable(
                    graph@,
                    flags,
                    start_id,
                    #[trigger] s[i],
                ) && !goal_ids@.contains(s[i]) by {
                    lemma_region_reachable(&space, start_id, s[i]);
                }
            }
            false
        },
    }
}

/// What following a route one leg further gives.
#[derive(Debug)]
pub enum RouteStep {
    /// No leg was left: the walker has arrived.
    Arrived,
    /// The voxels of the next leg.
    Segment(PathSegment),
    /// No segment was found for the next leg: the request has failed.
    Failed(NavError),
}

/// The partition that the next leg is to reach when `current` legs are
/// left: the next partition of the route, and none on the last leg, which is
/// to reach a goal.
pub open spec fn leg_target(path: Seq<u32>, current: int) -> Option<u32> {
    if current <= 1 {
        None
    } else {
        Some(path[path.len() - current])
    }
}

/// More than `budget` different voxels that are no goal of the leg can be
/// reached from voxel `from`.
pub open spec fn voxel_budget_short(
    terrain: &Terrain,
    graph: &PartitionGraph,
    flags: PartitionFlags,
    next: Option<u32>,
    goals: Seq<[u32; 3]>,
    from: [i32; 3],
    budget: int,
) -> bool {
    exists|s: Seq<[i32; 3]>|
        {
            &&& #[trigger] s.no_duplicates()
            &&& s.len() > budget
            &&& forall|i: int|
                0 <= i < s.len() ==> voxel_reachable(terrain, graph@, flags, from, #[trigger] s[i])
                    && !at_leg_goal(terrain, next, goals, s[i])
        }
}

/// The voxel `v` ends a leg that is to reach partition `next`, if there is
/// one, and else one of `goals`.
pub open spec fn at_leg_goal(
    terrain: &Terrain,
    next: Option<u32>,
    goals: Seq<[u32; 3]>,
    v: [i32; 3],
) -> bool {
    match next {
        Some(id) => terrain.voxel(v[0] as int, v[1] as int, v[2] as int).partition_id == Some(id),
        None => at_goal(goals, v),
    }
}

/// The bounding box of the partition in which a leg ends holds every voxel
/// of that partition. The last leg of a route ends in no partition.
pub open spec fn leg_in_box(terrain: &Terrain, graph: GraphView, next: Option<u32>) -> bool {
    match next {
        Some(id) => graph.partitions.contains_key(id) ==> leg_boxed(
            terrain,
            next,
            graph.partitions[id].extents,
        ),
        None => true,
    }
}

/// Where every voxel of the chunk of the partition in which a leg ends lies
/// in the bounding box of its owner, the box of the leg holds that
/// partition: the segment that is found is a shortest one. That is so for
/// every leg where every voxel of the world lies in the box of its owner.
pub proof fn lemma_boxed_leg(terrain: &Terrain, graph: GraphView, next: Option<u32>)
    requires
        terrain.wf(),
        graph.wf(),
        crate::graph::linked(terrain, graph),
        crate::partitioner::boxed(terrain, graph, None) || (next matches Some(id)
            && graph.partitions.contains_key(id) && crate::partitioner::boxed(
            terrain,
            graph,
            Some(graph.partitions[id].chunk_idx),
        )),
    ensures
        leg_in_box(terrain, graph, next),
{
    reveal(crate::partitioner::boxed);
    match next {
        Some(id) => {
            if graph.partitions.contains_key(id) {
                assert forall|x: int, y: int, z: int|
                    terrain.in_bounds(x, y, z) && (#[trigger] terrain.voxel(x, y, z)).partition_id == Some(
                        id,
                    ) implies graph.partitions[id].extents.holds(x, y, z) by {
                    terrain.lemma_in_bounds(x, y, z);
                    assert(terrain.voxel(x, y, z).partition_id is Some);
                    assert(graph.partitions[id].chunk_idx == terrain.chunk_of(x, y, z));
                }
            }
        },
        None => {},
    }
}

/// Plans the next leg of a route for a walker that stands on the voxel
/// `pos`.
///
/// A route with no leg left is complete. Else one leg less is left. The
/// segment for the leg
/// starts at `pos`, moves by single steps over voxels that support one of
/// the walker's capabilities, holds no voxel twice, and ends in the next
/// partition of the route, or in a goal on the last leg. It is a shortest
/// such segment, as long as the bounding box of the next partition holds
/// that partition. Where `pos` itself does not support the walker, or no
/// segment is found, the request has failed, and the reason is given. It is
/// not made anew.
pub fn path_follow_partition(
    terrain: &Terrain,
    graph: &PartitionGraph,
    path: &mut PartitionPath,
    pos: [i32; 3],
) -> (r: RouteStep)
    requires
        terrain.wf(),
        graph.wf(),
        old(path).wf(),
    ensures
        final(path).wf(),
        final(path).path@ == old(path).path@,
        final(path).goals@ == old(path).goals@,
        final(path).flags == old(path).flags,
        old(path).current == 0 ==> r is Arrived && final(path).current == 0,
        old(path).current > 0 ==> {
            let next = leg_target(old(path).path@, old(path).current as int);
            &&& final(path).current == old(path).current - 1
            &&& segment_owed(terrain, graph@, old(path).flags, next, old(path).goals@, pos) ==> r is Segment
            &&& match r {
                RouteStep::Arrived => false,
                RouteStep::Segment(segment) => {
                    &&& segment.wf()
                    &&& segment.current == segment.blocks@.len()
                    &&& segment.flags == old(path).flags
                    &&& segment.goals@ == old(path).goals@
                    &&& is_segment(
                        terrain,
                        graph@,
                        old(path).flags,
                        next,
                        old(path).goals@,
                        pos,
                        segment.blocks@,
                    )
                },
                RouteStep::Failed(why) => {
                    &&& why == NavError::NoStartingPartition <==> !(terrain.in_bounds(
                        pos[0] as int,
                        pos[1] as int,
                        pos[2] as int,
                    ) && clear(terrain, old(path).flags, pos[0] as int, pos[1] as int, pos[2] as int))
                    &&& why == NavError::MissingGraphReference <==> terrain.in_bounds(
                        pos[0] as int,
                        pos[1] as int,
                        pos[2] as int,
                    ) && clear(terrain, old(path).flags, pos[0] as int, pos[1] as int, pos[2] as int) && (
                    next matches Some(id) && !graph@.partitions.contains_key(id))
                    &&& why == NavError::NoReachableDestination ==> leg_cut_off(
                        terrain,
                        graph@,
                        old(path).flags,
                        next,
                        old(path).goals@,
                        pos,
                    )
                    &&& why == NavError::SearchBudgetExceeded ==> voxel_budget_short(
                        terrain,
                        graph,
                        old(path).flags,
                        next,
                        old(path).goals@,
                        pos,
                        VOXEL_BUDGET as int,
                    )
                    &&& why != NavError::StaleSegment
                },
            }
        },
{
    if path.current == 0 {
        return RouteStep::Arrived;
    }
    let ghost next_spec = leg_target(path.path@, path.current as int);
    let legs = path.current;
    path.current = legs - 1;
    let mut next: Option<u32> = None;
    if legs > 1 {
        next = Some(path.path[path.path.len() - legs]);
    }
    assert(next == next_spec);
    if terrain.is_oob(pos[0], pos[1], pos[2]) || !terrain.get_flags(pos[0], pos[1], pos[2]).intersects(
        path.flags,
    ) {
        return RouteStep::Failed(NavError::NoStartingPartition);
    }
    match next {
        Some(id) => {
            if !graph.contains_partition(id) {
                return RouteStep::Failed(NavError::MissingGraphReference);
            }
        },
        None => {},
    }
    match find_segment(terrain, graph, path.flags, next, &path.goals, pos) {
        Ok(blocks) => {
            let steps = blocks.len();
            RouteStep::Segment(
                PathSegment {
                    blocks,
                    current: steps,
                    flags: path.flags,
                    goals: copy_goals(&path.goals),
                },
            )
        },
        Err(SearchFailure::Exhausted) => RouteStep::Failed(NavError::NoReachableDestination),
        Err(SearchFailure::BudgetExceeded) => {
            proof {
                lemma_voxel_budget(terrain, graph, path.flags, next, path.goals@, pos, VOXEL_BUDGET as int);
            }
            RouteStep::Failed(NavError::SearchBudgetExceeded)
        },
    }
}

/// `blocks` is a segment for a leg from the voxel `pos`: it starts there,
/// moves by single steps over voxels of the world that support one of the
/// capabilities `flags`, holds no voxel twice, and ends in partition `next`,
/// or in a goal where there is none. It is a shortest such walk, as long as
/// the bounding box of `next` holds that partition.
pub open spec fn is_segment(
    terrain: &Terrain,
    graph: GraphView,
    flags: PartitionFlags,
    next: Option<u32>,
    goals: Seq<[u32; 3]>,
    pos: [i32; 3],
    blocks: Seq<[i32; 3]>,
) -> bool {
    &&& blocks.len() >= 1
    &&& blocks[0] == pos
    &&& voxel_walk(terrain, graph, flags, blocks)
    &&& distinct(blocks)
    &&& at_leg_goal(terrain, next, goals, blocks.last())
    &&& forall|i: int|
        0 <= i < blocks.len() ==> {
            let v = #[trigger] blocks[i];
            &&& terrain.in_bounds(v[0] as int, v[1] as int, v[2] as int)
            &&& clear(terrain, flags, v[0] as int, v[1] as int, v[2] as int)
        }
    &&& leg_in_box(terrain, graph, next) ==> forall|w: Seq<[i32; 3]>|
        #[trigger] voxel_walk(terrain, graph, flags, w) && w[0] == pos && at_leg_goal(
            terrain,
            next,
            goals,
            w.last(),
        ) ==> travel_cost(blocks) <= travel_cost(w)
}

/// A segment is owed for the leg: the walker stands on a voxel of the world
/// that supports it, the partition in which the leg ends exists, a voxel
/// that ends the leg can be reached, and the world has no more voxels than a
/// search may expand.
pub open spec fn segment_owed(
    terrain: &Terrain,
    graph: GraphView,
    flags: PartitionFlags,
    next: Option<u32>,
    goals: Seq<[u32; 3]>,
    pos: [i32; 3],
) -> bool {
    &&& terrain.in_bounds(pos[0] as int, pos[1] as int, pos[2] as int)
    &&& clear(terrain, flags, pos[0] as int, pos[1] as int, pos[2] as int)
    &&& next matches Some(id) ==> graph.partitions.contains_key(id)
    &&& !leg_cut_off(terrain, graph, flags, next, goals, pos)
    &&& terrain.size_x() * terrain.size_y() * terrain.size_z() <= VOXEL_BUDGET
}

/// No voxel that can be reached from the voxel `pos` ends the leg.
pub open spec fn leg_cut_off(
    terrain: &Terrain,
    graph: GraphView,
    flags: PartitionFlags,
    next: Option<u32>,
    goals: Seq<[u32; 3]>,
    pos: [i32; 3],
) -> bool {
    forall|v: [i32; 3]| #[trigger]
        voxel_reachable(terrain, graph, flags, pos, v) ==> !at_leg_goal(terrain, next, goals, v)
}

/// The goals of the space of a leg are the goals of the leg.
pub open spec fn leg_space(space: &VoxelSpace, goals: Seq<[u32; 3]>) -> bool {
    &&& space.terrain.wf()
    &&& signed_of(goals, space.goals@)
    &&& space.next matches Some(id) ==> space.graph@.partitions.contains_key(id) && space.extents
        == space.graph@.partitions[id].extents
}

/// In the space of a leg, a voxel of the world is a goal exactly if it ends
/// the leg.
proof fn lemma_leg_goals(space: &VoxelSpace, goals: Seq<[u32; 3]>, v: [i32; 3])
    requires
        leg_space(space, goals),
        space.terrain.in_bounds(v[0] as int, v[1] as int, v[2] as int),
    ensures
        crate::search::SearchSpace::goal(space, v) <==> at_leg_goal(space.terrain, space.next, goals, v),
{
    lemma_at_goal(space.terrain, goals, space.goals@, v);
}

/// What a search of the space of a leg finds is a segment of the leg.
proof fn lemma_segment_found(space: &VoxelSpace, goals: Seq<[u32; 3]>, pos: [i32; 3], blocks: Seq<[i32; 3]>)
    requires
        leg_space(space, goals),
        space.terrain.in_bounds(pos[0] as int, pos[1] as int, pos[2] as int),
        clear(space.terrain, space.flags, pos[0] as int, pos[1] as int, pos[2] as int),
        crate::search::is_walk(space, blocks),
        blocks[0] == pos,
        crate::search::SearchSpace::goal(space, blocks.last()),
        distinct(blocks),
        forall|i: int| 0 <= i < blocks.len() ==> crate::search::SearchSpace::node_ok(space, #[trigger] blocks[i]),
        crate::search::consistent(space) ==> forall|w: Seq<[i32; 3]>|
            #[trigger] crate::search::is_walk(space, w) && w[0] == pos && crate::search::SearchSpace::goal(
                space,
                w.last(),
            ) ==> crate::search::walk_cost(space, blocks) <= crate::search::walk_cost(space, w),
    ensures
        is_segment(space.terrain, space.graph@, space.flags, space.next, goals, pos, blocks),
{
    let terrain = space.terrain;
    let flags = space.flags;
    lemma_voxel_walk(space, blocks);
    assert forall|i: int| 0 <= i < blocks.len() implies {
        let v = #[trigger] blocks[i];
        &&& terrain.in_bounds(v[0] as int, v[1] as int, v[2] as int)
        &&& clear(terrain, flags, v[0] as int, v[1] as int, v[2] as int)
    } by {
        if i > 0 {
            assert(crate::spaces::voxel_edge(terrain, space.graph@, flags, blocks[i - 1], blocks[i - 1 + 1]));
        }
    }
    assert(crate::search::SearchSpace::node_ok(space, blocks[blocks.len() - 1]));
    lemma_leg_goals(space, goals, blocks.last());
    if leg_in_box(terrain, space.graph@, space.next) {
        lemma_leg_consistent(space);
        lemma_travel_cost(space, blocks);
        assert forall|w: Seq<[i32; 3]>|
            #[trigger] voxel_walk(terrain, space.graph@, flags, w) && w[0] == pos && at_leg_goal(
                terrain,
                space.next,
                goals,
                w.last(),
            ) implies travel_cost(blocks) <= travel_cost(w) by {
            lemma_voxel_walk(space, w);
            lemma_travel_cost(space, w);
            let end = w.last();
            if w.len() > 1 {
                assert(crate::spaces::voxel_edge(
                    terrain,
                    space.graph@,
                    flags,
                    w[w.len() - 2],
                    w[w.len() - 2 + 1],
                ));
            }
            assert(terrain.in_bounds(end[0] as int, end[1] as int, end[2] as int));
            lemma_leg_goals(space, goals, end);
        }
    }
}

/// Where a search of the space of a leg finds that no goal can be reached,
/// no voxel in reach ends the leg.
proof fn lemma_segment_cut_off(space: &VoxelSpace, goals: Seq<[u32; 3]>, pos: [i32; 3])
    requires
        leg_space(space, goals),
        space.terrain.in_bounds(pos[0] as int, pos[1] as int, pos[2] as int),
        forall|n: [i32; 3]| #[trigger]
            crate::search::reachable(space, pos, n) ==> !crate::search::SearchSpace::goal(space, n),
    ensures
        leg_cut_off(space.terrain, space.graph@, space.flags, space.next, goals, pos),
{
    assert forall|v: [i32; 3]| #[trigger]
        voxel_reachable(space.terrain, space.graph@, space.flags, pos, v) implies !at_leg_goal(
        space.terrain,
        space.next,
        goals,
        v,
    ) by {
        lemma_voxel_reachable(space, pos, v);
        lemma_reached_in_bounds(space.terrain, space.graph, space.flags, pos, v);
        lemma_leg_goals(space, goals, v);
    }
}

/// Where a search of the space of a leg runs out of budget, more voxels
/// than the budget that do not end the leg are in reach.
proof fn lemma_segment_budget(space: &VoxelSpace, goals: Seq<[u32; 3]>, pos: [i32; 3])
    requires
        leg_space(space, goals),
        space.terrain.in_bounds(pos[0] as int, pos[1] as int, pos[2] as int),
        exists|s: Seq<[i32; 3]>|
            {
                &&& #[trigger] s.no_duplicates()
                &&& s.len() > VOXEL_BUDGET
                &&& forall|i: int|
                    0 <= i < s.len() ==> crate::search::reachable(space, pos, #[trigger] s[i])
                        && !crate::search::SearchSpace::goal(space, s[i])
            },
    ensures
        voxel_budget_short(
            space.terrain,
            space.graph,
            space.flags,
            space.next,
            goals,
            pos,
            VOXEL_BUDGET as int,
        ),
{
    let s = choose|s: Seq<[i32; 3]>|
        {
            &&& #[trigger] s.no_duplicates()
            &&& s.len() > VOXEL_BUDGET
            &&& forall|i: int|
                0 <= i < s.len() ==> crate::search::reachable(space, pos, #[trigger] s[i])
                    && !crate::search::SearchSpace::goal(space, s[i])
        };
    assert forall|i: int| 0 <= i < s.len() implies voxel_reachable(
        space.terrain,
        space.graph@,
        space.flags,
        pos,
        #[trigger] s[i],
    ) && !at_leg_goal(space.terrain, space.next, goals, s[i]) by {
        lemma_voxel_reachable(space, pos, s[i]);
        lemma_reached_in_bounds(space.terrain, space.graph, space.flags, pos, s[i]);
        lemma_leg_goals(space, goals, s[i]);
    }
}

/// Searches the voxels for a segment of the leg that starts at `pos`.
fn find_segment(
    terrain: &Terrain,
    graph: &PartitionGraph,
    flags: PartitionFlags,
    next: Option<u32>,
    goals: &Vec<[u32; 3]>,
    pos: [i32; 3],
) -> (r: Result<Vec<[i32; 3]>, SearchFailure>)
    requires
        terrain.wf(),
        graph.wf(),
        terrain.in_bounds(pos[0] as int, pos[1] as int, pos[2] as int),
        clear(terrain, flags, pos[0] as int, pos[1] as int, pos[2] as int),
        next matches Some(id) ==> graph@.partitions.contains_key(id),
    ensures
        match r {
            Ok(blocks) => is_segment(terrain, graph@, flags, next, goals@, pos, blocks@),
            Err(SearchFailure::Exhausted) => leg_cut_off(terrain, graph@, flags, next, goals@, pos),
            Err(SearchFailure::BudgetExceeded) => voxel_budget_short(
                terrain,
                graph,
                flags,
                next,
                goals@,
                pos,
                VOXEL_BUDGET as int,
            ),
        },
{
    let mut extents = Extents::new();
    match next {
        Some(id) => {
            match graph.get_partition(id) {
                Some(p) => {
                    extents = p.extents;
                },
                None => {},
            }
        },
        None => {},
    }
    let targets = signed_goals(goals);
    let space = VoxelSpace { terrain, graph, flags, next, extents, goals: &targets };
    match astar(&space, pos, VOXEL_BUDGET) {
        Ok(blocks) => {
            proof {
                lemma_segment_found(&space, goals@, pos, blocks@);
            }
            Ok(blocks)
        },
        Err(SearchFailure::Exhausted) => {
            proof {
                lemma_segment_cut_off(&space, goals@, pos);
            }
            Err(SearchFailure::Exhausted)
        },
        Err(SearchFailure::BudgetExceeded) => {
            proof {
                lemma_segment_budget(&space, goals@, pos);
            }
            Err(SearchFailure::BudgetExceeded)
        },
    }
}

/// What can be reached from a voxel of the world lies in the world.
proof fn lemma_reached_in_bounds(
    terrain: &Terrain,
    graph: &PartitionGraph,
    flags: PartitionFlags,
    from: [i32; 3],
    to: [i32; 3],
)
    requires
        terrain.in_bounds(from[0] as int, from[1] as int, from[2] as int),
        voxel_reachable(terrain, graph@, flags, from, to),
    ensures
        terrain.in_bounds(to[0] as int, to[1] as int, to[2] as int),
{
    let p = choose|p: Seq<[i32; 3]>|
        #[trigger] voxel_walk(terrain, graph@, flags, p) && p[0] == from && p.last() == to;
    if p.len() > 1 {
        assert(crate::spaces::voxel_edge(
            terrain,
            graph@,
            flags,
            p[p.len() - 2],
            p[p.len() - 2 + 1],
        ));
    }
}

/// A search over the voxels runs out of budget only where the world has
/// more voxels than the budget: in a smaller world a segment is found
/// wherever the leg can be ended.
pub proof fn lemma_voxel_budget(
    terrain: &Terrain,
    graph: &PartitionGraph,
    flags: PartitionFlags,
    next: Option<u32>,
    goals: Seq<[u32; 3]>,
    from: [i32; 3],
    budget: int,
)
    requires
        terrain.wf(),
        terrain.in_bounds(from[0] as int, from[1] as int, from[2] as int),
        budget >= 0,
        voxel_budget_short(terrain, graph, flags, next, goals, from, budget),
    ensures
        terrain.size_x() * terrain.size_y() * terrain.size_z() > budget,
{
    let s = choose|s: Seq<[i32; 3]>|
        {
            &&& #[trigger] s.no_duplicates()
            &&& s.len() > budget
            &&& forall|i: int|
                0 <= i < s.len() ==> voxel_reachable(terrain, graph@, flags, from, #[trigger] s[i])
                    && !at_leg_goal(terrain, next, goals, s[i])
        };
    let all = terrain.size_x() * terrain.size_y() * terrain.size_z();
    let keys = Seq::new(s.len(), |i: int| terrain.key_of(s[i][0] as int, s[i][1] as int, s[i][2] as int));
    assert forall|i: int| 0 <= i < keys.len() implies 0 <= #[trigger] keys[i] < all by {
        lemma_reached_in_bounds(terrain, graph, flags, from, s[i]);
        crate::shape::lemma_index_in_range(
            terrain.size_x(),
            terrain.size_y(),
            terrain.size_z(),
            s[i][0] as int,
            s[i][1] as int,
            s[i][2] as int,
        );
    }
    assert forall|i: int, j: int| 0 <= i < keys.len() && 0 <= j < keys.len() && i != j implies keys[i]
        != keys[j] by {
        lemma_reached_in_bounds(terrain, graph, flags, from, s[i]);
        lemma_reached_in_bounds(terrain, graph, flags, from, s[j]);
        if keys[i] == keys[j] {
            crate::shape::lemma_index_injective(
                terrain.size_x(),
                terrain.size_y(),
                s[i][0] as int,
                s[i][1] as int,
                s[i][2] as int,
                s[j][0] as int,
                s[j][1] as int,
                s[j][2] as int,
            );
            assert(s[i] =~= s[j]);
        }
    }
    if all >= 0 {
        crate::search::lemma_few_numbers(keys, all);
    } else {
        if keys.len() > 0 {
            let first = keys[0];
            assert(0 <= first && first < all);
        }
    }
}

/// What walking a segment one voxel further gives.
#[derive(Debug)]
pub enum SegmentStep {
    /// No voxel was left: the segment is walked.
    Finished,
    /// The order to move to the next voxel.
    Move(BlockMove),
    /// The next voxel no longer supports the walker: the request is to be
    /// made anew.
    Stale(PathfindRequest),
}

/// Walks a segment one voxel further.
///
/// A segment with no voxel left is finished. Else one voxel less is left,
/// and the next voxel is looked at as it is now: if it still supports one
/// of the walker's capabilities, the walker is ordered to move there; if
/// not, the segment has gone stale, and the request is given back to be
/// made anew.
pub fn path_follow_segment(terrain: &Terrain, segment: &mut PathSegment) -> (r: SegmentStep)
    requires
        terrain.wf(),
        old(segment).wf(),
    ensures
        final(segment).wf(),
        final(segment).blocks@ == old(segment).blocks@,
        final(segment).goals@ == old(segment).goals@,
        final(segment).flags == old(segment).flags,
        old(segment).current == 0 ==> r is Finished && final(segment).current == 0,
        old(segment).current > 0 ==> {
            let next = old(segment).blocks@[old(segment).blocks@.len() - old(segment).current];
            &&& final(segment).current == old(segment).current - 1
            &&& if clear(terrain, old(segment).flags, next[0] as int, next[1] as int, next[2] as int) {
                (r matches SegmentStep::Move(order) && order.target == next && order.speed
                    == MOVE_SPEED)
            } else {
                (r matches SegmentStep::Stale(request) && request.goals@ == old(segment).goals@
                    && request.flags == old(segment).flags)
            }
        },
{
    if segment.current == 0 {
        return SegmentStep::Finished;
    }
    let next = segment.blocks[segment.blocks.len() - segment.current];
    segment.current = segment.current - 1;
    if !terrain.get_flags(next[0], next[1], next[2]).intersects(segment.flags) {
        return SegmentStep::Stale(
            PathfindRequest { goals: copy_goals(&segment.goals), flags: segment.flags },
        );
    }
    SegmentStep::Move(BlockMove { target: next, speed: MOVE_SPEED })
}

} // verus!
