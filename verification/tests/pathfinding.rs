use voxel_nav::error::NavError;
use voxel_nav::flags::PartitionFlags;
use voxel_nav::graph::PartitionGraph;
use voxel_nav::partitioner::partition;
use voxel_nav::pathfinding::is_reachable;
use voxel_nav::pathfinding::path_follow_partition;
use voxel_nav::pathfinding::path_follow_segment;
use voxel_nav::pathfinding::pathfinding;
use voxel_nav::pathfinding::PartitionPath;
use voxel_nav::pathfinding::PathSegment;
use voxel_nav::pathfinding::PathfindRequest;
use voxel_nav::pathfinding::RouteStep;
use voxel_nav::pathfinding::SegmentStep;
use voxel_nav::pathfinding::MOVE_SPEED;
use voxel_nav::pathfinding::REGION_BUDGET;
use voxel_nav::pathfinding::VOXEL_BUDGET;
use voxel_nav::search::astar;
use voxel_nav::search::SearchFailure;
use voxel_nav::spaces::RegionSpace;
use voxel_nav::spaces::VoxelSpace;
use voxel_nav::tasks::find_nearest;
use voxel_nav::terrain::Terrain;

fn walk() -> PartitionFlags {
    PartitionFlags::from_bits(1)
}

fn fly() -> PartitionFlags {
    PartitionFlags::from_bits(2)
}

fn world(chunks: [u32; 3], size: u32, mask: &dyn Fn(u32, u32, u32) -> PartitionFlags) -> (Terrain, PartitionGraph) {
    let mut t = Terrain::new(chunks, size).unwrap();
    for x in 0..t.world_size_x() {
        for y in 0..t.world_size_y() {
            for z in 0..t.world_size_z() {
                let m = mask(x, y, z);
                if !m.is_empty() {
                    t.set_flags(x, y, z, m);
                }
            }
        }
    }
    let mut g = PartitionGraph::new();
    for c in 0..t.chunk_count {
        assert!(partition(&mut g, &mut t, c).complete);
    }
    (t, g)
}

fn floor(x_max: u32, z_max: u32) -> impl Fn(u32, u32, u32) -> PartitionFlags {
    move |x, y, z| {
        if y == 0 && x < x_max && z < z_max {
            PartitionFlags::from_bits(1)
        } else {
            PartitionFlags::none()
        }
    }
}

fn request(goals: Vec<[u32; 3]>, flags: PartitionFlags) -> PathfindRequest {
    PathfindRequest { goals, flags }
}

/// Each voxel is one move from the one before.
fn check_steps(t: &Terrain, flags: PartitionFlags, blocks: &[[i32; 3]]) {
    for v in blocks {
        assert!(!t.is_oob(v[0], v[1], v[2]));
        assert!(t.get_flags(v[0], v[1], v[2]).intersects(flags));
    }
    for w in blocks.windows(2) {
        let d = [w[1][0] - w[0][0], w[1][1] - w[0][1], w[1][2] - w[0][2]];
        let straight = d.iter().map(|x| x.abs()).sum::<i32>() == 1;
        let level = d[1] == 0 && d[0].abs() == 1 && d[2].abs() == 1;
        assert!(straight || level);
        if level {
            assert!(t.get_flags(w[0][0] + d[0], w[0][1], w[0][2]).intersects(flags));
            assert!(t.get_flags(w[0][0], w[0][1], w[0][2] + d[2]).intersects(flags));
        }
    }
}

#[test]
fn flat_platform_is_crossed_on_the_diagonal() {
    let (t, g) = world([1, 1, 1], 16, &floor(10, 10));
    let req = request(vec![[9, 0, 9]], walk());
    let mut route = pathfinding(&t, &g, [0, 0, 0], &req).unwrap();
    let home = t.get_partition_id_u32(0, 0, 0).unwrap();
    assert_eq!(route.path, vec![home]);
    assert_eq!(route.current, 1);
    assert_eq!(route.goals, vec![[9, 0, 9]]);
    assert_eq!(route.flags, walk());
    let step = path_follow_partition(&t, &g, &mut route, [0, 0, 0]);
    assert_eq!(route.current, 0);
    let mut segment = match step {
        RouteStep::Segment(s) => s,
        other => panic!("no segment: {:?}", other),
    };
    let expect: Vec<[i32; 3]> = (0..10).map(|i| [i, 0, i]).collect();
    assert_eq!(segment.blocks, expect);
    assert_eq!(segment.current, 10);
    assert_eq!(segment.blocks.len() - 1, 9);
    check_steps(&t, walk(), &segment.blocks);
    for i in 0..10 {
        match path_follow_segment(&t, &mut segment) {
            SegmentStep::Move(order) => {
                assert_eq!(order.target, [i, 0, i]);
                assert_eq!(order.speed, MOVE_SPEED);
                assert_eq!(order.speed, 8);
            },
            other => panic!("no move: {:?}", other),
        }
        assert_eq!(segment.current, (9 - i) as usize);
    }
    assert!(matches!(path_follow_segment(&t, &mut segment), SegmentStep::Finished));
    assert_eq!(segment.current, 0);
    assert!(matches!(path_follow_partition(&t, &g, &mut route, [9, 0, 9]), RouteStep::Arrived));
    assert_eq!(route.current, 0);
}

#[test]
fn route_starts_at_home_and_ends_at_a_goal() {
    // three chunks in a row, one floor
    let (t, g) = world([3, 1, 1], 4, &floor(12, 4));
    let a = t.get_partition_id_u32(0, 0, 0).unwrap();
    let b = t.get_partition_id_u32(5, 0, 0).unwrap();
    let c = t.get_partition_id_u32(11, 0, 3).unwrap();
    let route = pathfinding(&t, &g, [1, 0, 1], &request(vec![[11, 0, 3]], walk())).unwrap();
    assert_eq!(route.path, vec![a, b, c]);
    assert_eq!(route.current, 2);
    for w in route.path.windows(2) {
        assert!(g.get_partition(w[0]).unwrap().has_neighbor(w[1]));
    }
    // with several goals the route ends where one of them lies
    let route = pathfinding(&t, &g, [1, 0, 1], &request(vec![[11, 0, 3], [5, 0, 2]], walk())).unwrap();
    assert_eq!(route.path, vec![a, b]);
    assert_eq!(route.current, 1);
    // goals without partition are passed over
    let route = pathfinding(&t, &g, [1, 0, 1], &request(vec![[5, 3, 2], [99, 0, 0], [9, 0, 0]], walk()))
        .unwrap();
    assert_eq!(route.path, vec![a, b, c]);
}

#[test]
fn doorway_joins_two_chunks() {
    // chunk 0 ends in a wall with a door at z == 1
    let (t, g) = world([2, 1, 1], 4, &|x, y, z| {
        if y == 0 && (x != 3 || z == 1) {
            PartitionFlags::from_bits(1)
        } else {
            PartitionFlags::none()
        }
    });
    let a = t.get_partition_id_u32(0, 0, 3).unwrap();
    let b = t.get_partition_id_u32(7, 0, 3).unwrap();
    assert_eq!(t.get_partition_id_u32(3, 0, 1), Some(a));
    let mut route = pathfinding(&t, &g, [0, 0, 3], &request(vec![[7, 0, 3]], walk())).unwrap();
    assert_eq!(route.path, vec![a, b]);
    assert_eq!(route.current, 1);
    let segment = match path_follow_partition(&t, &g, &mut route, [0, 0, 3]) {
        RouteStep::Segment(s) => s,
        other => panic!("no segment: {:?}", other),
    };
    assert_eq!(segment.blocks[0], [0, 0, 3]);
    assert_eq!(*segment.blocks.last().unwrap(), [7, 0, 3]);
    assert!(segment.blocks.contains(&[3, 0, 1]));
    check_steps(&t, walk(), &segment.blocks);
    // two diagonal steps down to the door, through it, and two up again
    assert_eq!(segment.blocks.len(), 8);
    assert_eq!(route.current, 0);
}

#[test]
fn long_route_is_followed_leg_by_leg() {
    let (t, g) = world([4, 1, 1], 4, &floor(16, 4));
    let ids: Vec<u32> = (0..4).map(|c| t.get_partition_id_u32(4 * c, 0, 0).unwrap()).collect();
    let mut route = pathfinding(&t, &g, [0, 0, 0], &request(vec![[15, 0, 0]], walk())).unwrap();
    assert_eq!(route.path, ids);
    assert_eq!(route.current, 3);
    // first leg: into the second partition of the route
    let segment = match path_follow_partition(&t, &g, &mut route, [0, 0, 0]) {
        RouteStep::Segment(s) => s,
        other => panic!("no segment: {:?}", other),
    };
    assert_eq!(route.current, 2);
    let end = *segment.blocks.last().unwrap();
    assert_eq!(t.get_partition_id_u32(end[0] as u32, end[1] as u32, end[2] as u32), Some(ids[1]));
    assert_eq!(segment.blocks, vec![[0, 0, 0], [1, 0, 0], [2, 0, 0], [3, 0, 0], [4, 0, 0]]);
    // second leg: into the third partition, not yet to the goal
    let segment = match path_follow_partition(&t, &g, &mut route, end) {
        RouteStep::Segment(s) => s,
        other => panic!("no segment: {:?}", other),
    };
    assert_eq!(route.current, 1);
    let end = *segment.blocks.last().unwrap();
    assert_eq!(t.get_partition_id_u32(end[0] as u32, end[1] as u32, end[2] as u32), Some(ids[2]));
    assert_eq!(segment.blocks, vec![[4, 0, 0], [5, 0, 0], [6, 0, 0], [7, 0, 0], [8, 0, 0]]);
    // last leg: into the last partition and on to the goal
    let segment = match path_follow_partition(&t, &g, &mut route, end) {
        RouteStep::Segment(s) => s,
        other => panic!("no segment: {:?}", other),
    };
    assert_eq!(route.current, 0);
    assert_eq!(segment.blocks[0], end);
    assert_eq!(*segment.blocks.last().unwrap(), [15, 0, 0]);
    assert_eq!(segment.blocks.len(), 8);
    check_steps(&t, walk(), &segment.blocks);
    assert!(matches!(path_follow_partition(&t, &g, &mut route, [15, 0, 0]), RouteStep::Arrived));
}

#[test]
fn enclosed_destination_cannot_be_reached() {
    // an island at (6, 0, 6), cut off from the floor
    let (t, g) = world([1, 1, 1], 8, &|x, y, z| {
        if y == 0 && ((x < 3 && z < 3) || (x == 6 && z == 6)) {
            PartitionFlags::from_bits(1)
        } else {
            PartitionFlags::none()
        }
    });
    assert!(t.get_partition_id_u32(6, 0, 6).is_some());
    let r = pathfinding(&t, &g, [0, 0, 0], &request(vec![[6, 0, 6]], walk()));
    assert!(matches!(r, Err(NavError::NoReachableDestination)));
    // a destination that supports no movement has no partition at all
    let r = pathfinding(&t, &g, [0, 0, 0], &request(vec![[5, 0, 5]], walk()));
    assert!(matches!(r, Err(NavError::NoReachableDestination)));
    let r = pathfinding(&t, &g, [0, 0, 0], &request(vec![], walk()));
    assert!(matches!(r, Err(NavError::NoReachableDestination)));
}

#[test]
fn start_without_partition_is_refused() {
    let (t, g) = world([1, 1, 1], 8, &floor(3, 3));
    let r = pathfinding(&t, &g, [5, 0, 5], &request(vec![[1, 0, 1]], walk()));
    assert!(matches!(r, Err(NavError::NoStartingPartition)));
    let r = pathfinding(&t, &g, [50, 0, 5], &request(vec![[1, 0, 1]], walk()));
    assert!(matches!(r, Err(NavError::NoStartingPartition)));
}

#[test]
fn start_with_a_lost_partition_is_reported() {
    let (mut t, g) = world([1, 1, 1], 8, &floor(3, 3));
    t.set_partition_id(0, 0, 4000);
    let r = pathfinding(&t, &g, [0, 0, 0], &request(vec![[1, 0, 1]], walk()));
    assert!(matches!(r, Err(NavError::MissingGraphReference)));
}

#[test]
fn capabilities_decide_what_can_be_entered() {
    let (t, g) = world([1, 1, 1], 4, &|x, y, _| {
        if y != 0 {
            PartitionFlags::none()
        } else if x < 2 {
            PartitionFlags::from_bits(1)
        } else {
            PartitionFlags::from_bits(2)
        }
    });
    let a = t.get_partition_id_u32(0, 0, 0).unwrap();
    let b = t.get_partition_id_u32(3, 0, 0).unwrap();
    let r = pathfinding(&t, &g, [0, 0, 0], &request(vec![[3, 0, 0]], walk()));
    assert!(matches!(r, Err(NavError::NoReachableDestination)));
    let both = walk().union(fly());
    let mut route = pathfinding(&t, &g, [0, 0, 0], &request(vec![[3, 0, 0]], both)).unwrap();
    assert_eq!(route.path, vec![a, b]);
    let segment = match path_follow_partition(&t, &g, &mut route, [0, 0, 0]) {
        RouteStep::Segment(s) => s,
        other => panic!("no segment: {:?}", other),
    };
    assert_eq!(segment.blocks, vec![[0, 0, 0], [1, 0, 0], [2, 0, 0], [3, 0, 0]]);
    assert!(is_reachable(a, &vec![b], &g, both));
    assert!(!is_reachable(a, &vec![b], &g, walk()));
    assert!(!is_reachable(a, &vec![b], &g, fly()) || g.get_flags(b).intersects(fly()));
}

#[test]
fn corners_are_not_cut() {
    // an L of floor around a block at (1, 0, 1)
    let (t, g) = world([1, 1, 1], 4, &|x, y, z| {
        if y == 0 && x < 2 && z < 2 && !(x == 1 && z == 0) {
            PartitionFlags::from_bits(1)
        } else {
            PartitionFlags::none()
        }
    });
    let mut route = pathfinding(&t, &g, [0, 0, 0], &request(vec![[1, 0, 1]], walk())).unwrap();
    let segment = match path_follow_partition(&t, &g, &mut route, [0, 0, 0]) {
        RouteStep::Segment(s) => s,
        other => panic!("no segment: {:?}", other),
    };
    // the diagonal would cut the corner at (1, 0, 0)
    assert_eq!(segment.blocks, vec![[0, 0, 0], [0, 0, 1], [1, 0, 1]]);
    check_steps(&t, walk(), &segment.blocks);
}

#[test]
fn segment_goes_stale_when_the_world_changes() {
    let (mut t, g) = world([1, 1, 1], 8, &floor(6, 1));
    let mut route = pathfinding(&t, &g, [0, 0, 0], &request(vec![[5, 0, 0]], walk())).unwrap();
    let mut segment = match path_follow_partition(&t, &g, &mut route, [0, 0, 0]) {
        RouteStep::Segment(s) => s,
        other => panic!("no segment: {:?}", other),
    };
    assert_eq!(segment.blocks.len(), 6);
    assert!(matches!(path_follow_segment(&t, &mut segment), SegmentStep::Move(m) if m.target == [0, 0, 0]));
    assert!(matches!(path_follow_segment(&t, &mut segment), SegmentStep::Move(m) if m.target == [1, 0, 0]));
    t.set_flags(2, 0, 0, PartitionFlags::none());
    match path_follow_segment(&t, &mut segment) {
        SegmentStep::Stale(again) => {
            assert_eq!(again.goals, vec![[5, 0, 0]]);
            assert_eq!(again.flags, walk());
        },
        other => panic!("not stale: {:?}", other),
    }
    assert_eq!(segment.current, 3);
}

#[test]
fn segment_search_that_fails_is_not_tried_again() {
    let (mut t, g) = world([1, 1, 1], 8, &floor(6, 1));
    let mut route = pathfinding(&t, &g, [0, 0, 0], &request(vec![[5, 0, 0]], walk())).unwrap();
    // the way is cut after the route was planned
    t.set_flags(3, 0, 0, PartitionFlags::none());
    match path_follow_partition(&t, &g, &mut route, [0, 0, 0]) {
        RouteStep::Failed(why) => {
            assert_eq!(why, NavError::NoReachableDestination);
        },
        other => panic!("no failure: {:?}", other),
    }
    assert_eq!(route.current, 0);
}

#[test]
fn segment_search_needs_ground_under_the_walker() {
    let (t, g) = world([1, 1, 1], 8, &floor(6, 1));
    let mut route = pathfinding(&t, &g, [0, 0, 0], &request(vec![[5, 0, 0]], walk())).unwrap();
    assert!(matches!(
        path_follow_partition(&t, &g, &mut route, [0, 3, 0]),
        RouteStep::Failed(NavError::NoStartingPartition)
    ));
    let mut route = pathfinding(&t, &g, [0, 0, 0], &request(vec![[5, 0, 0]], walk())).unwrap();
    assert!(matches!(
        path_follow_partition(&t, &g, &mut route, [-1, 0, 0]),
        RouteStep::Failed(NavError::NoStartingPartition)
    ));
}

#[test]
fn segment_search_reports_a_lost_partition() {
    let (t, g) = world([1, 1, 1], 8, &floor(6, 1));
    let home = t.get_partition_id_u32(0, 0, 0).unwrap();
    let mut route = PartitionPath {
        path: vec![home, 500, 501, 502],
        goals: vec![[5, 0, 0]],
        current: 3,
        flags: walk(),
    };
    assert!(matches!(
        path_follow_partition(&t, &g, &mut route, [0, 0, 0]),
        RouteStep::Failed(NavError::MissingGraphReference)
    ));
    assert_eq!(route.current, 2);
}

#[test]
fn voxel_search_runs_out_of_budget() {
    // sixteen by sixteen by sixteen voxels, all of them free to fly through
    let (t, g) = world([1, 1, 1], 16, &|_, _, _| PartitionFlags::from_bits(2));
    let home = t.get_partition_id_u32(0, 0, 0).unwrap();
    assert_eq!(g.get_partition(home).unwrap().blocks.len(), 4096);
    let mut route = PartitionPath { path: vec![home], goals: vec![[40, 40, 40]], current: 1, flags: fly() };
    assert!(matches!(
        path_follow_partition(&t, &g, &mut route, [0, 0, 0]),
        RouteStep::Failed(NavError::SearchBudgetExceeded)
    ));
    assert_eq!(VOXEL_BUDGET, 3000);
    // a goal within reach is still found
    let mut route = PartitionPath { path: vec![home], goals: vec![[15, 15, 15]], current: 1, flags: fly() };
    let segment = match path_follow_partition(&t, &g, &mut route, [0, 0, 0]) {
        RouteStep::Segment(s) => s,
        other => panic!("no segment: {:?}", other),
    };
    assert_eq!(*segment.blocks.last().unwrap(), [15, 15, 15]);
    check_steps(&t, fly(), &segment.blocks);
}

/// A chain of `n` partitions, each a neighbour of the next.
fn chain(n: u32) -> PartitionGraph {
    let mut g = PartitionGraph::new();
    let r = g.create_region(walk());
    for i in 0..n {
        let p = g.create_partition(r, i, walk());
        if i > 0 {
            g.set_neighbors(p - 1, p);
        }
    }
    g
}

#[test]
fn region_search_runs_out_of_budget() {
    let g = chain(2100);
    let mut t = Terrain::new([1, 1, 1], 4).unwrap();
    t.set_partition_id(0, 0, 0);
    t.set_partition_id(0, 1, 2099);
    t.set_partition_id(0, 2, 1999);
    let r = pathfinding(&t, &g, [0, 0, 0], &request(vec![[1, 0, 0]], walk()));
    assert!(matches!(r, Err(NavError::SearchBudgetExceeded)));
    assert!(!is_reachable(0, &vec![2099], &g, walk()));
    assert_eq!(REGION_BUDGET, 2000);
    // two thousand partitions may be expanded: the last of them leads here
    let route = pathfinding(&t, &g, [0, 0, 0], &request(vec![[2, 0, 0]], walk())).unwrap();
    assert_eq!(route.path.len(), 2000);
    assert_eq!(route.current, 1999);
    assert!(is_reachable(0, &vec![1999], &g, walk()));
    assert!(is_reachable(0, &vec![2099, 7], &g, walk()));
}

#[test]
fn reachability_of_partitions() {
    let mut g = chain(5);
    let r = g.create_region(fly());
    let lone = g.create_partition(r, 9, fly());
    assert!(is_reachable(0, &vec![4], &g, walk()));
    assert!(is_reachable(4, &vec![0], &g, walk()));
    assert!(is_reachable(2, &vec![2], &g, fly()));
    assert!(!is_reachable(0, &vec![lone], &g, walk().union(fly())));
    assert!(!is_reachable(0, &vec![4], &g, fly()));
    assert!(!is_reachable(0, &vec![], &g, walk()));
    assert!(!is_reachable(77, &vec![4], &g, walk()));
    assert!(is_reachable(77, &vec![77], &g, walk()));
    g.unset_neighbors(2, 3);
    assert!(!is_reachable(0, &vec![4], &g, walk()));
    assert!(is_reachable(0, &vec![4, 1], &g, walk()));
}

#[test]
fn search_over_partitions() {
    let g = chain(6);
    let goals = vec![4];
    let targets = Vec::new();
    let space = RegionSpace { graph: &g, goals: &goals, targets: &targets, flags: walk() };
    assert_eq!(astar(&space, 1, 100), Ok(vec![1, 2, 3, 4]));
    assert_eq!(astar(&space, 4, 0), Ok(vec![4]));
    assert_eq!(astar(&space, 5, 100), Ok(vec![5, 4]));
    // the three nodes on the way have to be expanded before the goal is
    // met, and no more than the five that are no goal can be
    assert_eq!(astar(&space, 1, 5), Ok(vec![1, 2, 3, 4]));
    assert_eq!(astar(&space, 1, 2), Err(SearchFailure::BudgetExceeded));
    assert_eq!(astar(&space, 1, 0), Err(SearchFailure::BudgetExceeded));
    let nowhere = vec![99];
    let space = RegionSpace { graph: &g, goals: &nowhere, targets: &targets, flags: walk() };
    assert_eq!(astar(&space, 1, 100), Err(SearchFailure::Exhausted));
    assert_eq!(astar(&space, 1, 6), Err(SearchFailure::Exhausted));
    assert_eq!(astar(&space, 1, 5), Err(SearchFailure::BudgetExceeded));
}

#[test]
fn search_prefers_the_cheaper_way() {
    // a ring of four partitions; one side of it is longer on the ground
    let mut t = Terrain::new([8, 1, 1], 2).unwrap();
    let mut g = PartitionGraph::new();
    let r = g.create_region(walk());
    let ids: Vec<u32> = (0..4).map(|c| g.create_partition(r, c, walk())).collect();
    g.assign_block(ids[0], 0, [0, 0, 0], &mut t);
    g.assign_block(ids[1], 0, [2, 0, 0], &mut t);
    g.assign_block(ids[2], 0, [4, 0, 0], &mut t);
    g.assign_block(ids[3], 1, [7, 0, 0], &mut t);
    g.set_neighbors(ids[0], ids[3]);
    g.set_neighbors(ids[0], ids[1]);
    g.set_neighbors(ids[3], ids[2]);
    g.set_neighbors(ids[1], ids[2]);
    let goals = vec![ids[2]];
    let targets = vec![[4, 0, 0]];
    let space = RegionSpace { graph: &g, goals: &goals, targets: &targets, flags: walk() };
    assert_eq!(astar(&space, ids[0], 100), Ok(vec![ids[0], ids[1], ids[2]]));
}

#[test]
fn search_over_voxels() {
    let (t, g) = world([1, 1, 1], 4, &floor(4, 4));
    let goals = vec![[3, 0, 0]];
    let space = VoxelSpace {
        terrain: &t,
        graph: &g,
        flags: walk(),
        next: None,
        extents: voxel_nav::extents::Extents::new(),
        goals: &goals,
    };
    assert!(space.is_passable([2, 0, 2]));
    assert!(!space.is_passable([2, 1, 2]));
    assert!(!space.is_passable([4, 0, 0]));
    assert_eq!(astar(&space, [0, 0, 0], 100), Ok(vec![[0, 0, 0], [1, 0, 0], [2, 0, 0], [3, 0, 0]]));
    assert_eq!(astar(&space, [3, 0, 0], 100), Ok(vec![[3, 0, 0]]));
    let none: Vec<[i32; 3]> = vec![[3, 3, 3]];
    let space = VoxelSpace {
        terrain: &t,
        graph: &g,
        flags: walk(),
        next: None,
        extents: voxel_nav::extents::Extents::new(),
        goals: &none,
    };
    assert_eq!(astar(&space, [0, 0, 0], 100), Err(SearchFailure::Exhausted));
    assert_eq!(astar(&space, [0, 0, 0], 15), Err(SearchFailure::BudgetExceeded));
}

#[test]
fn nearest_holder_is_found_over_neighbours() {
    let mut g = chain(5);
    g.add_occupant(3, 30).unwrap();
    g.add_occupant(3, 31).unwrap();
    g.add_occupant(3, 32).unwrap();
    g.add_occupant(4, 40).unwrap();
    g.add_occupant(1, 10).unwrap();
    let mut found = find_nearest(0, &g, &vec![31, 40, 30]).unwrap();
    found.sort();
    assert_eq!(found, vec![30, 31]);
    assert_eq!(find_nearest(4, &g, &vec![31, 40, 30]), Some(vec![40]));
    assert_eq!(find_nearest(2, &g, &vec![10, 40]), Some(vec![10]));
    assert_eq!(find_nearest(0, &g, &vec![99]), None);
    assert_eq!(find_nearest(0, &g, &vec![]), None);
    assert_eq!(find_nearest(50, &g, &vec![10]), None);
    g.unset_neighbors(0, 1);
    assert_eq!(find_nearest(0, &g, &vec![10]), None);
}

#[test]
fn a_segment_with_nothing_left_is_finished() {
    let t = Terrain::new([1, 1, 1], 4).unwrap();
    let mut segment = PathSegment { blocks: vec![[0, 0, 0]], current: 0, flags: walk(), goals: vec![] };
    assert!(matches!(path_follow_segment(&t, &mut segment), SegmentStep::Finished));
    assert_eq!(segment.current, 0);
    assert_eq!(segment.blocks, vec![[0, 0, 0]]);
}

/// The length of a walk, in thousandths of a voxel edge.
fn length(blocks: &[[i32; 3]]) -> u64 {
    blocks.windows(2).map(|w| voxel_nav::distance::Distance::diagonal(w[0], w[1])).sum()
}

#[test]
fn voxel_search_finds_a_shortest_walk() {
    let (t, g) = world([1, 1, 1], 4, &floor(4, 4));
    for (goal, cost) in [([3, 0, 3], 4242u64), ([3, 0, 1], 3414), ([0, 0, 2], 2000), ([0, 0, 0], 0)] {
        let goals = vec![goal];
        let space = VoxelSpace {
            terrain: &t,
            graph: &g,
            flags: walk(),
            next: None,
            extents: voxel_nav::extents::Extents::new(),
            goals: &goals,
        };
        let found = astar(&space, [0, 0, 0], 100).unwrap();
        check_steps(&t, walk(), &found);
        assert_eq!(found[found.len() - 1], goal);
        assert_eq!(length(&found), cost);
    }
}

#[test]
fn voxel_search_goes_round_a_wall_the_short_way() {
    // a wall across the floor at x = 2, open only at z = 0
    let (t, g) = world([1, 1, 1], 5, &|x, y, z| {
        if y == 0 && (x != 2 || z == 0) {
            PartitionFlags::from_bits(1)
        } else {
            PartitionFlags::none()
        }
    });
    let goals = vec![[4, 0, 2]];
    let space = VoxelSpace {
        terrain: &t,
        graph: &g,
        flags: walk(),
        next: None,
        extents: voxel_nav::extents::Extents::new(),
        goals: &goals,
    };
    let found = astar(&space, [0, 0, 2], 100).unwrap();
    check_steps(&t, walk(), &found);
    // one diagonal and one straight step to the gap, no corner cut at the
    // wall, and the same on the far side
    assert_eq!(length(&found), 2 * 1414 + 4 * 1000);
}

#[test]
fn nearest_holder_is_the_one_fewest_steps_away() {
    // 0 - 1 - 2 - 3 - 4, and a short cut from 0 to 3
    let mut g = chain(5);
    g.add_occupant(2, 20).unwrap();
    g.add_occupant(3, 30).unwrap();
    g.add_occupant(4, 40).unwrap();
    assert_eq!(find_nearest(0, &g, &vec![20, 40]), Some(vec![20]));
    g.set_neighbors(0, 4);
    assert_eq!(find_nearest(0, &g, &vec![20, 40]), Some(vec![40]));
    assert_eq!(find_nearest(0, &g, &vec![30]), Some(vec![30]));
}

#[test]
fn request_without_a_goal_partition_fails_at_once() {
    // more partitions can be reached than the search may expand
    let (t, g) = world([1, 1, 1], 4, &floor(4, 4));
    // no goal at all
    assert_eq!(
        pathfinding(&t, &g, [0, 0, 0], &request(vec![], walk())).unwrap_err(),
        NavError::NoReachableDestination
    );
    // a goal in the air, which has no partition
    assert_eq!(
        pathfinding(&t, &g, [0, 0, 0], &request(vec![[1, 2, 1]], walk())).unwrap_err(),
        NavError::NoReachableDestination
    );
    // goals without partition beside one with a partition change nothing
    let plain = pathfinding(&t, &g, [0, 0, 0], &request(vec![[3, 0, 3]], walk())).unwrap();
    let mixed = pathfinding(&t, &g, [0, 0, 0], &request(vec![[1, 2, 1], [3, 0, 3], [9, 9, 9]], walk()))
        .unwrap();
    assert_eq!(plain.path, mixed.path);
    assert_eq!(plain.current, mixed.current);
}

#[test]
fn route_holds_no_partition_twice_and_is_a_shortest_one() {
    let (t, g) = world([4, 1, 1], 4, &floor(16, 4));
    let ids: Vec<u32> = (0..4).map(|c| t.get_partition_id_u32(4 * c, 0, 0).unwrap()).collect();
    let route = pathfinding(&t, &g, [5, 0, 1], &request(vec![[15, 0, 3], [0, 0, 0]], walk())).unwrap();
    // one step back to the first partition, not two on to the last
    assert_eq!(route.path, vec![ids[1], ids[0]]);
    let mut seen = route.path.clone();
    seen.sort();
    seen.dedup();
    assert_eq!(seen.len(), route.path.len());
}

#[test]
fn the_same_request_gives_the_same_route_and_segment() {
    // a board of many partitions with many ways of the same length
    let (t, g) = world([3, 1, 3], 4, &|x, y, z| {
        if y == 0 {
            if (x / 2 + z / 2) % 2 == 0 { walk() } else { PartitionFlags::from_bits(3) }
        } else {
            PartitionFlags::none()
        }
    });
    let ask = || request(vec![[11, 0, 11], [0, 0, 11]], walk());
    let first = pathfinding(&t, &g, [0, 0, 0], &ask()).unwrap();
    assert!(first.path.len() >= 2);
    for _ in 0..5 {
        let again = pathfinding(&t, &g, [0, 0, 0], &ask()).unwrap();
        assert_eq!(again.path, first.path);
        assert_eq!(again.current, first.current);
    }
    let mut route = pathfinding(&t, &g, [0, 0, 0], &ask()).unwrap();
    let one = match path_follow_partition(&t, &g, &mut route, [0, 0, 0]) {
        RouteStep::Segment(s) => s.blocks,
        other => panic!("no segment: {:?}", other),
    };
    let mut route = pathfinding(&t, &g, [0, 0, 0], &ask()).unwrap();
    let two = match path_follow_partition(&t, &g, &mut route, [0, 0, 0]) {
        RouteStep::Segment(s) => s.blocks,
        other => panic!("no segment: {:?}", other),
    };
    assert_eq!(one, two);
    // a graph built in the same way a second time gives the same route
    let (t2, g2) = world([3, 1, 3], 4, &|x, y, z| {
        if y == 0 {
            if (x / 2 + z / 2) % 2 == 0 { walk() } else { PartitionFlags::from_bits(3) }
        } else {
            PartitionFlags::none()
        }
    });
    assert_eq!(pathfinding(&t2, &g2, [0, 0, 0], &ask()).unwrap().path, first.path);
}
