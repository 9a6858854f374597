//! The state of one walker on its way, and the step from one state to the
//! next.
//!
//! A walker is idle, has a request, has a route, or walks a segment of its
//! route. Each call of `advance` takes it one step further and says what
//! the walker is to do. Whoever moves the walker calls it when the last
//! move is done.
use crate::error::NavError;
use crate::graph::PartitionGraph;
use crate::pathfinding::goal_partition;
use crate::pathfinding::is_route;
use crate::pathfinding::is_segment;
use crate::pathfinding::leg_cut_off;
use crate::pathfinding::leg_target;
use crate::pathfinding::path_follow_partition;
use crate::pathfinding::path_follow_segment;
use crate::pathfinding::pathfinding;
use crate::pathfinding::region_budget_short;
use crate::pathfinding::segment_owed;
use crate::pathfinding::voxel_budget_short;
use crate::pathfinding::BlockMove;
use crate::pathfinding::PartitionPath;
use crate::pathfinding::PathSegment;
use crate::pathfinding::PathfindRequest;
use crate::pathfinding::RouteStep;
use crate::pathfinding::SegmentStep;
use crate::pathfinding::MOVE_SPEED;
use crate::pathfinding::REGION_BUDGET;
use crate::pathfinding::VOXEL_BUDGET;
use crate::spaces::clear;
use crate::spaces::region_reachable;
use crate::terrain::Terrain;
use vstd::prelude::*;

verus! {

/// Where a walker is on its way.
#[derive(Debug)]
pub enum PathState {
    /// Nothing is asked for.
    Idle,
    /// A request waits for a route.
    Requested(PathfindRequest),
    /// A route waits for the segment of its next leg.
    Routed(PartitionPath),
    /// A segment is being walked.
    Walking(PartitionPath, PathSegment),
}

/// What a step told the walker.
#[derive(Debug)]
pub enum PathEvent {
    /// Nothing to do yet.
    Nothing,
    /// Move to the voxel next to you.
    Move(BlockMove),
    /// You have arrived.
    Arrived,
    /// The way was lost. After a stale segment the request is made anew and
    /// the next steps plan again; after any other failure nothing is asked
    /// for any more.
    Failed(NavError),
}

impl PathState {
    /// The route and the segment that the state holds are well formed.
    pub open spec fn wf(&self) -> bool {
        match self {
            PathState::Idle => true,
            PathState::Requested(_) => true,
            PathState::Routed(route) => route.wf(),
            PathState::Walking(route, segment) => route.wf() && segment.wf(),
        }
    }
}

/// Takes a walker that stands on the voxel `pos` one step further.
///
/// A request becomes a route, or fails and is dropped, each for the reason
/// that planning a route gives. A route becomes the segment of its next
/// leg; with no leg left the walker has arrived; where no segment is found
/// the request has failed and is dropped with the reason. The segment is a
/// shortest one, as long as the bounding box of the partition in which the
/// leg ends holds that partition. A segment gives the order for the next
/// move; when it is walked, the route is up again. Only where the next voxel
/// of a segment has stopped supporting the walker is the request made anew:
/// the segment is stale.
pub fn advance(state: PathState, terrain: &Terrain, graph: &PartitionGraph, pos: [i32; 3]) -> (r: (
    PathState,
    PathEvent,
))
    requires
        terrain.wf(),
        graph.wf(),
        state.wf(),
    ensures
        r.0.wf(),
        match state {
            PathState::Idle => r.0 is Idle && r.1 is Nothing,
            PathState::Requested(request) => {
                let owner = terrain.voxel(pos[0] as int, pos[1] as int, pos[2] as int).partition_id;
                &&& match r.0 {
                    PathState::Routed(route) => {
                        &&& r.1 is Nothing
                        &&& owner matches Some(from)
                        &&& is_route(terrain, graph@, request.goals@, request.flags, from, route.path@)
                        &&& route.goals@ == request.goals@
                        &&& route.flags == request.flags
                        &&& route.current == if route.path@.len() == 1 {
                            1
                        } else {
                            route.path@.len() - 1
                        }
                    },
                    PathState::Idle => {
                        &&& r.1 matches PathEvent::Failed(why)
                        &&& why != NavError::StaleSegment
                        &&& why == NavError::NoStartingPartition <==> owner is None
                        &&& why == NavError::MissingGraphReference <==> (owner matches Some(from)
                            && !graph@.partitions.contains_key(from))
                        &&& why == NavError::NoReachableDestination ==> (owner matches Some(from)
                            && forall|p: u32| #[trigger]
                            goal_partition(terrain, request.goals@, p) ==> !region_reachable(
                                graph@,
                                request.flags,
                                from,
                                p,
                            ))
                        &&& why == NavError::SearchBudgetExceeded ==> (owner matches Some(from)
                            && region_budget_short(
                            terrain,
                            graph,
                            request.flags,
                            request.goals@,
                            from,
                            REGION_BUDGET as int,
                        ))
                    },
                    _ => false,
                }
                &&& owner matches Some(from) ==> (graph@.partitions.contains_key(from) && goal_partition(
                    terrain,
                    request.goals@,
                    from,
                ) ==> (r.0 matches PathState::Routed(route) && route.path@ == seq![from]))
                &&& owner matches Some(from) ==> (graph@.partitions.contains_key(from) && (forall|
                    p: u32,
                | !goal_partition(terrain, request.goals@, p)) ==> (r.0 is Idle && r.1
                    == PathEvent::Failed(NavError::NoReachableDestination)))
                &&& owner matches Some(from) ==> (graph@.partitions.contains_key(from)
                    && graph.next_partition_id() <= REGION_BUDGET && (exists|p: u32|
                    goal_partition(terrain, request.goals@, p) && #[trigger] region_reachable(
                        graph@,
                        request.flags,
                        from,
                        p,
                    )) ==> r.0 is Routed)
            },
            PathState::Routed(route) => if route.current == 0 {
                r.0 is Idle && r.1 is Arrived
            } else {
                let next = leg_target(route.path@, route.current as int);
                &&& segment_owed(terrain, graph@, route.flags, next, route.goals@, pos) ==> r.0 is Walking
                &&& match r.0 {
                    PathState::Walking(left, segment) => {
                        &&& r.1 is Nothing
                        &&& left.path@ == route.path@
                        &&& left.goals@ == route.goals@
                        &&& left.flags == route.flags
                        &&& left.current == route.current - 1
                        &&& segment.current == segment.blocks@.len()
                        &&& segment.flags == route.flags
                        &&& segment.goals@ == route.goals@
                        &&& is_segment(terrain, graph@, route.flags, next, route.goals@, pos, segment.blocks@)
                    },
                    PathState::Idle => {
                        &&& r.1 matches PathEvent::Failed(why)
                        &&& why != NavError::StaleSegment
                        &&& why == NavError::NoStartingPartition <==> !(terrain.in_bounds(
                            pos[0] as int,
                            pos[1] as int,
                            pos[2] as int,
                        ) && clear(terrain, route.flags, pos[0] as int, pos[1] as int, pos[2] as int))
                        &&& why == NavError::MissingGraphReference <==> terrain.in_bounds(
                            pos[0] as int,
                            pos[1] as int,
                            pos[2] as int,
                        ) && clear(terrain, route.flags, pos[0] as int, pos[1] as int, pos[2] as int) && (
                        next matches Some(id) && !graph@.partitions.contains_key(id))
                        &&& why == NavError::NoReachableDestination ==> leg_cut_off(
                            terrain,
                            graph@,
                            route.flags,
                            next,
                            route.goals@,
                            pos,
                        )
                        &&& why == NavError::SearchBudgetExceeded ==> voxel_budget_short(
                            terrain,
                            graph,
                            route.flags,
                            next,
                            route.goals@,
                            pos,
                            VOXEL_BUDGET as int,
                        )
                    },
                    _ => false,
                }
            },
            PathState::Walking(route, segment) => if segment.current == 0 {
                &&& r.0 matches PathState::Routed(left)
                &&& left.path@ == route.path@
                &&& left.goals@ == route.goals@
                &&& left.flags == route.flags
                &&& left.current == route.current
                &&& r.1 is Nothing
            } else {
                let next = segment.blocks@[segment.blocks@.len() - segment.current];
                if clear(terrain, segment.flags, next[0] as int, next[1] as int, next[2] as int) {
                    &&& r.0 matches PathState::Walking(left, rest)
                    &&& left.path@ == route.path@
                    &&& left.current == route.current
                    &&& rest.blocks@ == segment.blocks@
                    &&& rest.current == segment.current - 1
                    &&& r.1 matches PathEvent::Move(order)
                    &&& order.target == next
                    &&& order.speed == MOVE_SPEED
                } else {
                    &&& r.0 matches PathState::Requested(request)
                    &&& request.goals@ == segment.goals@
                    &&& request.flags == segment.flags
                    &&& r.1 == PathEvent::Failed(NavError::StaleSegment)
                }
            },
        },
{
    match state {
        PathState::Idle => (PathState::Idle, PathEvent::Nothing),
        PathState::Requested(request) => {
            if pos[0] < 0 || pos[1] < 0 || pos[2] < 0 {
                return (PathState::Idle, PathEvent::Failed(NavError::NoStartingPartition));
            }
            match pathfinding(terrain, graph, [pos[0] as u32, pos[1] as u32, pos[2] as u32], &request) {
                Ok(route) => (PathState::Routed(route), PathEvent::Nothing),
                Err(why) => (PathState::Idle, PathEvent::Failed(why)),
            }
        },
        PathState::Routed(route) => {
            let mut route = route;
            match path_follow_partition(terrain, graph, &mut route, pos) {
                RouteStep::Arrived => (PathState::Idle, PathEvent::Arrived),
                RouteStep::Segment(segment) => (PathState::Walking(route, segment), PathEvent::Nothing),
                RouteStep::Failed(why) => (PathState::Idle, PathEvent::Failed(why)),
            }
        },
        PathState::Walking(route, segment) => {
            let mut segment = segment;
            match path_follow_segment(terrain, &mut segment) {
                SegmentStep::Finished => (PathState::Routed(route), PathEvent::Nothing),
                SegmentStep::Move(order) => (PathState::Walking(route, segment), PathEvent::Move(order)),
                SegmentStep::Stale(request) => (
                    PathState::Requested(request),
                    PathEvent::Failed(NavError::StaleSegment),
                ),
            }
        },
    }
}

} // verus!
