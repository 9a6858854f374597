use voxel_nav::error::NavError;
use voxel_nav::flags::PartitionFlags;
use voxel_nav::graph::PartitionGraph;
use voxel_nav::partitioner::partition;
use voxel_nav::pathfinding::PathfindRequest;
use voxel_nav::terrain::Terrain;
use voxel_nav::walker::advance;
use voxel_nav::walker::PathEvent;
use voxel_nav::walker::PathState;

fn walk() -> PartitionFlags {
    PartitionFlags::from_bits(1)
}

fn world(chunks: [u32; 3], size: u32, mask: &dyn Fn(u32, u32, u32) -> bool) -> (Terrain, PartitionGraph) {
    let mut t = Terrain::new(chunks, size).unwrap();
    for x in 0..t.world_size_x() {
        for y in 0..t.world_size_y() {
            for z in 0..t.world_size_z() {
                if mask(x, y, z) {
                    t.set_flags(x, y, z, walk());
                }
            }
        }
    }
    let mut g = PartitionGraph::new();
    for c in 0..t.chunk_count {
        assert!(partition(&mut g, &mut t, c).complete);
    }
    (t, g)
}

/// Steps until the walker has arrived or lost its way; gives back where it
/// stands, the number of moves and what ended the walk.
fn run(t: &Terrain, g: &PartitionGraph, from: [i32; 3], goals: Vec<[u32; 3]>) -> ([i32; 3], usize, PathEvent) {
    let mut state = PathState::Requested(PathfindRequest { goals, flags: walk() });
    let mut pos = from;
    let mut moves = 0;
    for _ in 0..1000 {
        let (next, event) = advance(state, t, g, pos);
        state = next;
        match event {
            PathEvent::Nothing => {},
            PathEvent::Move(order) => {
                assert!((order.target[0] - pos[0]).abs() <= 1);
                assert!((order.target[1] - pos[1]).abs() <= 1);
                assert!((order.target[2] - pos[2]).abs() <= 1);
                if order.target != pos {
                    moves += 1;
                }
                pos = order.target;
            },
            other => {
                return (pos, moves, other);
            },
        }
    }
    panic!("the walk does not end");
}

#[test]
fn idle_walker_stays_idle() {
    let (t, g) = world([1, 1, 1], 4, &|_, y, _| y == 0);
    let (state, event) = advance(PathState::Idle, &t, &g, [0, 0, 0]);
    assert!(matches!(state, PathState::Idle));
    assert!(matches!(event, PathEvent::Nothing));
}

#[test]
fn walker_crosses_the_platform() {
    let (t, g) = world([1, 1, 1], 16, &|x, y, z| y == 0 && x < 10 && z < 10);
    let (pos, moves, event) = run(&t, &g, [0, 0, 0], vec![[9, 0, 9]]);
    assert_eq!(pos, [9, 0, 9]);
    assert_eq!(moves, 9);
    assert!(matches!(event, PathEvent::Arrived));
}

#[test]
fn walker_passes_the_doorway() {
    let (t, g) = world([2, 1, 1], 4, &|x, y, z| y == 0 && (x != 3 || z == 1));
    let (pos, moves, event) = run(&t, &g, [0, 0, 3], vec![[7, 0, 3]]);
    assert_eq!(pos, [7, 0, 3]);
    assert_eq!(moves, 7);
    assert!(matches!(event, PathEvent::Arrived));
}

#[test]
fn walker_crosses_many_chunks() {
    let (t, g) = world([3, 1, 3], 4, &|_, y, _| y == 0);
    let (pos, moves, event) = run(&t, &g, [0, 0, 0], vec![[11, 0, 11]]);
    assert_eq!(pos, [11, 0, 11]);
    assert!(moves >= 11);
    assert!(matches!(event, PathEvent::Arrived));
}

#[test]
fn walker_that_stands_on_its_goal_arrives_without_a_move() {
    let (t, g) = world([1, 1, 1], 4, &|_, y, _| y == 0);
    let (pos, moves, event) = run(&t, &g, [2, 0, 2], vec![[2, 0, 2]]);
    assert_eq!(pos, [2, 0, 2]);
    assert_eq!(moves, 0);
    assert!(matches!(event, PathEvent::Arrived));
}

#[test]
fn request_that_fails_is_dropped() {
    let (t, g) = world([1, 1, 1], 8, &|x, y, z| y == 0 && ((x < 3 && z < 3) || (x == 6 && z == 6)));
    let request = PathfindRequest { goals: vec![[6, 0, 6]], flags: walk() };
    let (state, event) = advance(PathState::Requested(request), &t, &g, [0, 0, 0]);
    assert!(matches!(state, PathState::Idle));
    assert!(matches!(event, PathEvent::Failed(NavError::NoReachableDestination)));
    let request = PathfindRequest { goals: vec![[1, 0, 1]], flags: walk() };
    let (state, event) = advance(PathState::Requested(request), &t, &g, [5, 5, 5]);
    assert!(matches!(state, PathState::Idle));
    assert!(matches!(event, PathEvent::Failed(NavError::NoStartingPartition)));
    let request = PathfindRequest { goals: vec![[1, 0, 1]], flags: walk() };
    let (state, event) = advance(PathState::Requested(request), &t, &g, [0, -1, 0]);
    assert!(matches!(state, PathState::Idle));
    assert!(matches!(event, PathEvent::Failed(NavError::NoStartingPartition)));
}

#[test]
fn stale_segment_is_planned_anew() {
    // two rows of floor, so that there is a way round
    let (mut t, mut g) = world([1, 1, 1], 8, &|x, y, z| y == 0 && x < 6 && z < 2);
    let request = PathfindRequest { goals: vec![[5, 0, 0]], flags: walk() };
    let mut pos = [0, 0, 0];
    let (state, event) = advance(PathState::Requested(request), &t, &g, pos);
    assert!(matches!(event, PathEvent::Nothing));
    assert!(matches!(state, PathState::Routed(_)));
    let (state, event) = advance(state, &t, &g, pos);
    assert!(matches!(event, PathEvent::Nothing));
    let planned = match &state {
        PathState::Walking(_, segment) => segment.blocks.clone(),
        other => panic!("not walking: {:?}", other),
    };
    assert_eq!(planned, vec![[0, 0, 0], [1, 0, 0], [2, 0, 0], [3, 0, 0], [4, 0, 0], [5, 0, 0]]);
    let mut state = state;
    for i in 0..3 {
        let (next, event) = advance(state, &t, &g, pos);
        state = next;
        match event {
            PathEvent::Move(order) => {
                assert_eq!(order.target, [i, 0, 0]);
                pos = order.target;
            },
            other => panic!("no move: {:?}", other),
        }
    }
    // the next voxel of the segment stops supporting the walker
    t.set_flags(3, 0, 0, PartitionFlags::none());
    let (state, event) = advance(state, &t, &g, pos);
    assert!(matches!(event, PathEvent::Failed(NavError::StaleSegment)));
    match &state {
        PathState::Requested(again) => {
            assert_eq!(again.goals, vec![[5, 0, 0]]);
            assert_eq!(again.flags, walk());
        },
        other => panic!("no new request: {:?}", other),
    }
    // the chunk is partitioned anew, and the next steps plan a fresh route
    assert!(partition(&mut g, &mut t, 0).complete);
    let (state, event) = advance(state, &t, &g, pos);
    assert!(matches!(event, PathEvent::Nothing));
    match &state {
        PathState::Routed(route) => {
            assert_eq!(route.path, vec![t.get_partition_id_u32(2, 0, 0).unwrap()]);
        },
        other => panic!("no route: {:?}", other),
    }
    let (state, _) = advance(state, &t, &g, pos);
    match &state {
        PathState::Walking(_, segment) => {
            assert_eq!(segment.blocks[0], pos);
            assert_eq!(*segment.blocks.last().unwrap(), [5, 0, 0]);
            assert!(!segment.blocks.contains(&[3, 0, 0]));
            // round the gap without cutting its corners
            assert_eq!(
                segment.blocks,
                vec![[2, 0, 0], [2, 0, 1], [3, 0, 1], [4, 0, 1], [5, 0, 0]]
            );
        },
        other => panic!("not walking: {:?}", other),
    }
}

#[test]
fn route_that_loses_its_way_fails_and_is_dropped() {
    let (mut t, g) = world([1, 1, 1], 8, &|x, y, z| y == 0 && x < 6 && z < 1);
    let request = PathfindRequest { goals: vec![[5, 0, 0]], flags: walk() };
    let (state, _) = advance(PathState::Requested(request), &t, &g, [0, 0, 0]);
    t.set_flags(3, 0, 0, PartitionFlags::none());
    let (state, event) = advance(state, &t, &g, [0, 0, 0]);
    assert!(matches!(event, PathEvent::Failed(NavError::NoReachableDestination)));
    // only a stale segment makes the request anew
    assert!(matches!(state, PathState::Idle));
}

#[test]
fn a_walker_is_told_why_no_way_was_found() {
    let (t, g) = world([1, 1, 1], 8, &|x, y, z| y == 0 && ((x < 3 && z < 3) || (x == 6 && z == 6)));
    // no goal has a partition
    let request = PathfindRequest { goals: vec![[5, 5, 5]], flags: walk() };
    let (state, event) = advance(PathState::Requested(request), &t, &g, [0, 0, 0]);
    assert!(matches!(state, PathState::Idle));
    assert!(matches!(event, PathEvent::Failed(NavError::NoReachableDestination)));
    // the walker stands on its goal
    let request = PathfindRequest { goals: vec![[0, 0, 0]], flags: walk() };
    let home = t.get_partition_id_u32(0, 0, 0).unwrap();
    match advance(PathState::Requested(request), &t, &g, [0, 0, 0]) {
        (PathState::Routed(route), PathEvent::Nothing) => {
            assert_eq!(route.path, vec![home]);
            assert_eq!(route.current, 1);
        },
        other => panic!("no route: {:?}", other),
    }
    // the graph does not know the partition of the walker's voxel
    let empty = PartitionGraph::new();
    let request = PathfindRequest { goals: vec![[1, 0, 1]], flags: walk() };
    let (state, event) = advance(PathState::Requested(request), &t, &empty, [0, 0, 0]);
    assert!(matches!(state, PathState::Idle));
    assert!(matches!(event, PathEvent::Failed(NavError::MissingGraphReference)));
}
