use voxel_nav::debug::partition_debug;
use voxel_nav::debug::PartitionDebug;
use voxel_nav::error::NavError;
use voxel_nav::flags::PartitionFlags;
use voxel_nav::graph::PartitionGraph;
use voxel_nav::partitioner::partition;
use voxel_nav::partitioner::rehome;
use voxel_nav::partitioner::InPartition;
use voxel_nav::terrain::Terrain;

fn walk() -> PartitionFlags {
    PartitionFlags::from_bits(1)
}

fn fly() -> PartitionFlags {
    PartitionFlags::from_bits(2)
}

/// A world whose voxels get the mask that `mask` gives them.
fn world(chunks: [u32; 3], size: u32, mask: &dyn Fn(u32, u32, u32) -> PartitionFlags) -> Terrain {
    let mut t = Terrain::new(chunks, size).unwrap();
    for x in 0..t.world_size_x() {
        for y in 0..t.world_size_y() {
            for z in 0..t.world_size_z() {
                let m = mask(x, y, z);
                if !m.is_empty() {
                    t.set_flags(x, y, z, m);
                }
            }
        }
    }
    t
}

fn partition_all(g: &mut PartitionGraph, t: &mut Terrain) {
    for c in 0..t.chunk_count {
        let rebuilt = partition(g, t, c);
        assert!(rebuilt.complete);
    }
}

/// Every voxel with a mask has one owner of that mask and of its chunk, that
/// lists it once; every voxel without has none.
fn check_chunk(g: &PartitionGraph, t: &Terrain, c: u32) {
    for b in 0..t.chunk_shape.size() {
        let voxel = t.get_block_by_idx(c, b);
        if voxel.flags.is_empty() {
            assert_eq!(voxel.partition_id, None);
            continue;
        }
        let p = voxel.partition_id.expect("a voxel with a mask has an owner");
        let part = g.get_partition(p).expect("the owner exists");
        assert_eq!(part.flags, voxel.flags);
        assert_eq!(part.chunk_idx, c);
        assert_eq!(part.blocks.iter().filter(|x| **x == b).count(), 1);
        // and lies in the bounding box of its owner
        let at = t.get_block_world_pos(c, b);
        let e = part.extents;
        assert!(e.is_init);
        assert!(e.min_x <= at[0] && at[0] <= e.max_x);
        assert!(e.min_y <= at[1] && at[1] <= e.max_y);
        assert!(e.min_z <= at[2] && at[2] <= e.max_z);
        assert_eq!(e.distance_to_edge(at[0] as i32, at[1] as i32, at[2] as i32), 0);
    }
}

/// Every listed voxel is owned by the partition that lists it, and
/// neighbours are mutual.
fn check_graph(g: &PartitionGraph, t: &Terrain, ids: u32) {
    let mut listed = 0;
    for p in 0..ids {
        if let Some(part) = g.get_partition(p) {
            for b in part.blocks.iter() {
                assert_eq!(t.get_partition_id(part.chunk_idx, *b), Some(p));
                listed += 1;
            }
            for n in part.neighbor_list() {
                assert!(g.get_partition(n).expect("a neighbour exists").has_neighbor(p));
            }
            let region = g.get_region(part.region_id).expect("the region exists");
            assert_eq!(region.flags, part.flags);
            assert!(region.partition_list().contains(&p));
        }
    }
    let mut owned = 0;
    for c in 0..t.chunk_count {
        for b in 0..t.chunk_shape.size() {
            if t.get_partition_id(c, b).is_some() {
                owned += 1;
            }
        }
    }
    assert_eq!(listed, owned);
}

#[test]
fn flat_floor_is_one_partition() {
    let mut t = world([1, 1, 1], 4, &|_, y, _| if y == 0 { walk() } else { PartitionFlags::none() });
    let mut g = PartitionGraph::new();
    let rebuilt = partition(&mut g, &mut t, 0);
    assert!(rebuilt.complete);
    assert!(rebuilt.occupants.is_empty());
    check_chunk(&g, &t, 0);
    check_graph(&g, &t, 10);
    let p = t.get_partition_id_u32(0, 0, 0).unwrap();
    assert_eq!(p, 0);
    let part = g.get_partition(p).unwrap();
    assert_eq!(part.blocks.len(), 16);
    assert!(part.is_computed);
    assert!(part.neighbor_list().is_empty());
    assert!(g.get_partition(1).is_none());
    let e = part.extents;
    assert_eq!((e.min_x, e.min_y, e.min_z), (0, 0, 0));
    assert_eq!((e.max_x, e.max_y, e.max_z), (3, 0, 3));
    assert!(!e.is_stale);
    assert_eq!(e.traversal_distance, 3 * 1414);
}

#[test]
fn empty_chunk_has_no_partition() {
    let mut t = Terrain::new([1, 1, 1], 4).unwrap();
    let mut g = PartitionGraph::new();
    assert!(partition(&mut g, &mut t, 0).complete);
    check_chunk(&g, &t, 0);
    assert!(g.get_partition(0).is_none());
    assert!(g.get_region(0).is_none());
}

#[test]
fn a_wall_splits_the_floor() {
    // the floor at y == 0, cut in two by a wall at x == 2
    let mut t = world([1, 1, 1], 5, &|x, y, _| {
        if y == 0 && x != 2 {
            walk()
        } else {
            PartitionFlags::none()
        }
    });
    let mut g = PartitionGraph::new();
    assert!(partition(&mut g, &mut t, 0).complete);
    check_chunk(&g, &t, 0);
    check_graph(&g, &t, 10);
    let left = t.get_partition_id_u32(0, 0, 0).unwrap();
    let right = t.get_partition_id_u32(4, 0, 4).unwrap();
    assert_ne!(left, right);
    assert_eq!(t.get_partition_id_u32(1, 0, 3), Some(left));
    assert_eq!(t.get_partition_id_u32(3, 0, 1), Some(right));
    assert_eq!(g.get_partition(left).unwrap().blocks.len(), 10);
    assert_eq!(g.get_partition(right).unwrap().blocks.len(), 10);
    // nothing joins them: what lies between supports no movement
    assert!(g.get_partition(left).unwrap().neighbor_list().is_empty());
    assert!(g.get_partition(right).unwrap().neighbor_list().is_empty());
    assert_ne!(g.get_partition(left).unwrap().region_id, g.get_partition(right).unwrap().region_id);
}

#[test]
fn masks_are_never_mixed() {
    // the floor walks for x < 2 and flies from there on
    let mut t = world([1, 1, 1], 4, &|x, y, _| {
        if y != 0 {
            PartitionFlags::none()
        } else if x < 2 {
            walk()
        } else {
            fly()
        }
    });
    let mut g = PartitionGraph::new();
    assert!(partition(&mut g, &mut t, 0).complete);
    check_chunk(&g, &t, 0);
    check_graph(&g, &t, 40);
    let a = t.get_partition_id_u32(0, 0, 0).unwrap();
    let b = t.get_partition_id_u32(3, 0, 3).unwrap();
    assert_ne!(a, b);
    let pa = g.get_partition(a).unwrap();
    let pb = g.get_partition(b).unwrap();
    assert_eq!(pa.flags, walk());
    assert_eq!(pb.flags, fly());
    assert_eq!(pa.blocks.len(), 8);
    assert_eq!(pb.blocks.len(), 8);
    for blk in pa.blocks.iter() {
        assert_eq!(t.get_block_by_idx(0, *blk).flags, walk());
    }
    for blk in pb.blocks.iter() {
        assert_eq!(t.get_block_by_idx(0, *blk).flags, fly());
    }
    assert_eq!(pa.neighbor_list(), vec![b]);
    assert_eq!(pb.neighbor_list(), vec![a]);
    assert!(pa.is_computed && pb.is_computed);
    // two masks, two regions, next to each other
    assert_ne!(pa.region_id, pb.region_id);
    assert_eq!(g.get_region(pa.region_id).unwrap().neighbor_list(), vec![pb.region_id]);
    assert_eq!(g.get_region(pb.region_id).unwrap().neighbor_list(), vec![pa.region_id]);
    // exactly two partitions are left
    let mut alive = 0;
    for p in 0..40 {
        if g.get_partition(p).is_some() {
            alive += 1;
        }
    }
    assert_eq!(alive, 2);
}

#[test]
fn three_masks_at_one_corner() {
    let mask = |x: u32, y: u32, z: u32| {
        if y != 0 {
            PartitionFlags::none()
        } else if x < 2 && z < 2 {
            PartitionFlags::from_bits(1)
        } else if x >= 2 && z < 2 {
            PartitionFlags::from_bits(2)
        } else {
            PartitionFlags::from_bits(4)
        }
    };
    let mut t = world([1, 1, 1], 4, &mask);
    let mut g = PartitionGraph::new();
    assert!(partition(&mut g, &mut t, 0).complete);
    check_chunk(&g, &t, 0);
    check_graph(&g, &t, 60);
    let a = t.get_partition_id_u32(0, 0, 0).unwrap();
    let b = t.get_partition_id_u32(3, 0, 0).unwrap();
    let c = t.get_partition_id_u32(0, 0, 3).unwrap();
    assert_eq!(t.get_partition_id_u32(3, 0, 3), Some(c));
    let mut na = g.get_partition(a).unwrap().neighbor_list();
    na.sort();
    let mut expect = vec![b, c];
    expect.sort();
    assert_eq!(na, expect);
    assert_eq!(g.get_partition(a).unwrap().blocks.len(), 4);
    assert_eq!(g.get_partition(b).unwrap().blocks.len(), 4);
    assert_eq!(g.get_partition(c).unwrap().blocks.len(), 8);
}

#[test]
fn chunks_are_joined_across_their_border() {
    let mut t = world([2, 1, 1], 4, &|_, y, _| if y == 0 { walk() } else { PartitionFlags::none() });
    let mut g = PartitionGraph::new();
    let first = partition(&mut g, &mut t, 0);
    assert!(first.complete);
    check_chunk(&g, &t, 0);
    check_graph(&g, &t, 40);
    // the flood of chunk 0 has met chunk 1 and left single voxels there
    let a = t.get_partition_id_u32(0, 0, 0).unwrap();
    assert_eq!(g.get_partition(a).unwrap().blocks.len(), 16);
    let beyond = t.get_partition_id_u32(4, 0, 0).unwrap();
    assert_eq!(g.get_partition(beyond).unwrap().chunk_idx, 1);
    assert!(!g.get_partition(beyond).unwrap().is_computed);
    assert!(g.get_partition(a).unwrap().has_neighbor(beyond));
    assert_eq!(g.get_partition(beyond).unwrap().region_id, g.get_partition(a).unwrap().region_id);
    assert_eq!(t.get_partition_id_u32(5, 0, 0), None);

    assert!(partition(&mut g, &mut t, 1).complete);
    check_chunk(&g, &t, 0);
    check_chunk(&g, &t, 1);
    check_graph(&g, &t, 40);
    let b = t.get_partition_id_u32(7, 0, 3).unwrap();
    assert_eq!(t.get_partition_id_u32(4, 0, 0), Some(b));
    assert_eq!(g.get_partition(b).unwrap().blocks.len(), 16);
    assert_eq!(g.get_partition(a).unwrap().neighbor_list(), vec![b]);
    assert_eq!(g.get_partition(b).unwrap().neighbor_list(), vec![a]);
    assert_eq!(g.get_partition(a).unwrap().region_id, g.get_partition(b).unwrap().region_id);
    assert!(g.get_partition(beyond).is_none());
}

#[test]
fn rebuilding_gives_the_same_grouping() {
    let mask = |x: u32, y: u32, z: u32| {
        if y > 1 || (x + z) % 5 == 0 {
            PartitionFlags::none()
        } else if (x * 7 + z * 3 + y) % 4 == 0 {
            fly()
        } else {
            walk()
        }
    };
    let mut t = world([2, 1, 2], 4, &mask);
    let mut g = PartitionGraph::new();
    partition_all(&mut g, &mut t);
    let owners = |t: &Terrain| -> Vec<Option<u32>> {
        let mut v = Vec::new();
        for c in 0..t.chunk_count {
            for b in 0..t.chunk_shape.size() {
                v.push(t.get_partition_id(c, b));
            }
        }
        v
    };
    let first = owners(&t);
    assert!(partition(&mut g, &mut t, 2).complete);
    assert!(partition(&mut g, &mut t, 0).complete);
    let second = owners(&t);
    for c in 0..t.chunk_count {
        check_chunk(&g, &t, c);
    }
    check_graph(&g, &t, 400);
    assert_eq!(first.len(), second.len());
    for i in 0..first.len() {
        assert_eq!(first[i].is_some(), second[i].is_some());
        for j in 0..first.len() {
            if first[i].is_some() && first[j].is_some() {
                assert_eq!(first[i] == first[j], second[i] == second[j]);
            }
        }
    }
    // the rebuilt chunks have new numbers
    assert_ne!(first[0..64], second[0..64]);
}

#[test]
fn rebuilding_follows_a_change_of_the_world() {
    let mut t = world([1, 1, 1], 4, &|_, y, _| if y == 0 { walk() } else { PartitionFlags::none() });
    let mut g = PartitionGraph::new();
    assert!(partition(&mut g, &mut t, 0).complete);
    let before = t.get_partition_id_u32(0, 0, 0).unwrap();
    for z in 0..4 {
        t.set_flags(1, 0, z, PartitionFlags::none());
    }
    assert!(partition(&mut g, &mut t, 0).complete);
    check_chunk(&g, &t, 0);
    check_graph(&g, &t, 40);
    assert!(g.get_partition(before).is_none());
    let left = t.get_partition_id_u32(0, 0, 0).unwrap();
    let right = t.get_partition_id_u32(3, 0, 0).unwrap();
    assert_ne!(left, right);
    assert_eq!(t.get_partition_id_u32(1, 0, 2), None);
    assert_eq!(g.get_partition(left).unwrap().blocks.len(), 4);
    assert_eq!(g.get_partition(right).unwrap().blocks.len(), 8);
}

#[test]
fn occupants_come_back_from_a_rebuild() {
    let mut t = world([2, 1, 1], 4, &|_, y, _| if y == 0 { walk() } else { PartitionFlags::none() });
    let mut g = PartitionGraph::new();
    partition_all(&mut g, &mut t);
    let a = t.get_partition_id_u32(1, 0, 1).unwrap();
    let b = t.get_partition_id_u32(6, 0, 1).unwrap();
    assert_eq!(rehome(&mut g, &t, 100, [1, 0, 1]), Ok(Some(InPartition { partition_id: a })));
    assert_eq!(rehome(&mut g, &t, 200, [2, 0, 2]), Ok(Some(InPartition { partition_id: a })));
    assert_eq!(rehome(&mut g, &t, 300, [6, 0, 1]), Ok(Some(InPartition { partition_id: b })));
    let mut rebuilt = partition(&mut g, &mut t, 0);
    assert!(rebuilt.complete);
    rebuilt.occupants.sort();
    assert_eq!(rebuilt.occupants, vec![100, 200]);
    let a2 = t.get_partition_id_u32(1, 0, 1).unwrap();
    assert_ne!(a2, a);
    assert!(g.get_partition(a2).unwrap().occupant_list().is_empty());
    assert_eq!(g.get_partition(b).unwrap().occupant_list(), vec![300]);
    assert_eq!(rehome(&mut g, &t, 100, [1, 0, 1]), Ok(Some(InPartition { partition_id: a2 })));
    assert_eq!(g.get_partition(a2).unwrap().occupant_list(), vec![100]);
}

#[test]
fn an_occupant_on_a_voxel_without_owner_is_stranded() {
    let mut t = world([1, 1, 1], 4, &|_, y, _| if y == 0 { walk() } else { PartitionFlags::none() });
    let mut g = PartitionGraph::new();
    partition_all(&mut g, &mut t);
    assert_eq!(rehome(&mut g, &t, 5, [1, 2, 1]), Ok(None));
    assert_eq!(rehome(&mut g, &t, 5, [100, 0, 0]), Ok(None));
    let p = t.get_partition_id_u32(0, 0, 0).unwrap();
    assert!(g.get_partition(p).unwrap().occupant_list().is_empty());
}

#[test]
fn an_owner_that_does_not_exist_is_reported() {
    let mut t = Terrain::new([1, 1, 1], 4).unwrap();
    let mut g = PartitionGraph::new();
    t.set_partition_id(0, 0, 9);
    assert_eq!(rehome(&mut g, &t, 5, [0, 0, 0]), Err(NavError::MissingGraphReference));
}

#[test]
fn partitions_are_the_whole_pieces() {
    // a comb: a spine along x at z == 0 with teeth every other column
    let mask = |x: u32, y: u32, z: u32| {
        if y == 0 && (z == 0 || x % 2 == 0) {
            PartitionFlags::from_bits(1)
        } else if y == 0 {
            PartitionFlags::from_bits(2)
        } else {
            PartitionFlags::none()
        }
    };
    let mut t = world([1, 1, 1], 6, &mask);
    let mut g = PartitionGraph::new();
    assert!(partition(&mut g, &mut t, 0).complete);
    check_chunk(&g, &t, 0);
    // the comb is one piece
    let comb = t.get_partition_id_u32(0, 0, 0).unwrap();
    for x in 0..6 {
        for z in 0..6 {
            if z == 0 || x % 2 == 0 {
                assert_eq!(t.get_partition_id_u32(x, 0, z), Some(comb));
            }
        }
    }
    // each gap between two teeth is a piece of its own
    let gaps: Vec<u32> = [1, 3, 5].iter().map(|x| t.get_partition_id_u32(*x, 0, 1).unwrap()).collect();
    assert_ne!(gaps[0], gaps[1]);
    assert_ne!(gaps[1], gaps[2]);
    assert_ne!(gaps[0], gaps[2]);
    for (i, x) in [1, 3, 5].iter().enumerate() {
        for z in 1..6 {
            assert_eq!(t.get_partition_id_u32(*x, 0, z), Some(gaps[i]));
        }
        assert_eq!(g.get_partition(gaps[i]).unwrap().blocks.len(), 5);
        assert_eq!(g.get_partition(gaps[i]).unwrap().neighbor_list(), vec![comb]);
    }
    assert_eq!(g.get_partition(comb).unwrap().blocks.len(), 6 + 3 * 5);
}

#[test]
fn a_partition_shows_its_voxels() {
    let mut t = world([2, 1, 1], 4, &|x, y, z| {
        if y == 1 && z == 2 && x >= 5 {
            fly()
        } else {
            PartitionFlags::none()
        }
    });
    let mut g = PartitionGraph::new();
    partition_all(&mut g, &mut t);
    let p = t.get_partition_id_u32(5, 1, 2).unwrap();
    let shown = partition_debug(&t, &g, &PartitionDebug { id: p, show: true });
    assert_eq!(shown, vec![[5, 1, 2], [6, 1, 2], [7, 1, 2]]);
    assert!(partition_debug(&t, &g, &PartitionDebug { id: p, show: false }).is_empty());
    assert!(partition_debug(&t, &g, &PartitionDebug { id: p + 50, show: true }).is_empty());
    let d = PartitionDebug::default();
    assert_eq!(d.id, 0);
    assert!(!d.show);
}

#[test]
fn a_rebuild_gives_new_numbers_and_measures_its_partitions() {
    let mut t = world([2, 1, 1], 4, &|_, y, _| if y == 0 { walk() } else { PartitionFlags::none() });
    let mut g = PartitionGraph::new();
    partition_all(&mut g, &mut t);
    let first = t.get_partition_id_u32(0, 0, 0).unwrap();
    let other = t.get_partition_id_u32(4, 0, 0).unwrap();
    g.add_occupant(other, 7).unwrap();
    let rebuilt = partition(&mut g, &mut t, 0);
    assert!(rebuilt.complete);
    // the partition of before is gone, and its number is not given again
    assert!(g.get_partition(first).is_none());
    let again = t.get_partition_id_u32(0, 0, 0).unwrap();
    assert!(again > first && again > other);
    // the new partition is measured over its box, and holds nobody
    let p = g.get_partition(again).unwrap();
    assert!(p.is_computed);
    assert!(!p.extents.is_stale);
    assert_eq!(p.extents.traversal_distance, 3 * 1414);
    assert!(p.occupant_list().is_empty());
    // the partition of the other chunk is the one it was, with its occupant
    assert_eq!(t.get_partition_id_u32(4, 0, 0), Some(other));
    assert_eq!(g.get_partition(other).unwrap().occupant_list(), vec![7]);
}

#[test]
fn only_voxels_next_to_the_chunk_get_an_owner_elsewhere() {
    let mut t = world([3, 1, 1], 4, &|_, y, _| if y == 0 { walk() } else { PartitionFlags::none() });
    let mut g = PartitionGraph::new();
    assert!(partition(&mut g, &mut t, 1).complete);
    for x in 0..12 {
        for z in 0..4 {
            let owner = t.get_partition_id_u32(x, 0, z);
            let beside = x == 3 || x == 8;
            let inside = (4..8).contains(&x);
            assert_eq!(owner.is_some(), inside || beside, "at {x}, {z}");
        }
        assert_eq!(t.get_partition_id_u32(x, 1, 0), None);
    }
}

/// The owners of the voxels next to the voxels of partition `p`, but `p`.
fn touched(t: &Terrain, p: u32) -> Vec<u32> {
    let mut found = Vec::new();
    for x in 0..t.world_size_x() as i32 {
        for y in 0..t.world_size_y() as i32 {
            for z in 0..t.world_size_z() as i32 {
                if t.get_partition_id_u32(x as u32, y as u32, z as u32) != Some(p) {
                    continue;
                }
                for d in [[1, 0, 0], [-1, 0, 0], [0, 1, 0], [0, -1, 0], [0, 0, 1], [0, 0, -1]] {
                    let at = [x + d[0], y + d[1], z + d[2]];
                    if t.is_oob(at[0], at[1], at[2]) {
                        continue;
                    }
                    if let Some(q) = t.get_partition_id_u32(at[0] as u32, at[1] as u32, at[2] as u32) {
                        if q != p && !found.contains(&q) {
                            found.push(q);
                        }
                    }
                }
            }
        }
    }
    found.sort();
    found
}

#[test]
fn neighbours_are_the_partitions_that_touch() {
    // stripes of two masks across two chunks, and a layer to fly in above
    let mut t = world([2, 1, 1], 4, &|x, y, _| {
        if y == 0 {
            if x % 3 == 0 { fly() } else { walk() }
        } else if y == 1 {
            fly()
        } else {
            PartitionFlags::none()
        }
    });
    let mut g = PartitionGraph::new();
    partition_all(&mut g, &mut t);
    // and once more, after a change
    t.set_flags(5, 0, 2, PartitionFlags::none());
    assert!(partition(&mut g, &mut t, 1).complete);
    let mut seen = 0;
    for id in 0..200 {
        if let Some(p) = g.get_partition(id) {
            let mut listed = p.neighbor_list();
            listed.sort();
            assert_eq!(listed, touched(&t, id), "partition {id}");
            seen += 1;
        }
    }
    assert!(seen >= 4);
}

#[test]
fn every_partition_of_a_rebuilt_chunk_is_settled() {
    let mut t = world([2, 1, 1], 4, &|x, y, z| {
        if y == 0 {
            if (x + z) % 3 == 0 { fly() } else { walk() }
        } else {
            PartitionFlags::none()
        }
    });
    let mut g = PartitionGraph::new();
    let rebuilt = partition(&mut g, &mut t, 0);
    assert!(rebuilt.complete);
    let mut seen = 0;
    for id in 0..100 {
        let Some(p) = g.get_partition(id) else { continue };
        // a partition lists a voxel and holds it in its box
        assert!(!p.blocks.is_empty());
        for b in &p.blocks {
            let at = t.get_block_world_pos(p.chunk_idx, *b);
            assert_eq!(p.extents.distance_to_edge(at[0] as i32, at[1] as i32, at[2] as i32), 0);
        }
        if p.chunk_idx == 0 {
            assert!(p.is_computed);
            assert!(!p.extents.is_stale);
            seen += 1;
        } else {
            // beyond the border only the voxels next to the chunk have an
            // owner, each a partition of its own that is not yet computed
            assert!(!p.is_computed);
            assert_eq!(p.blocks.len(), 1);
        }
    }
    assert!(seen >= 2);
    // the second chunk is rebuilt: what the first chunk holds stays
    let lists: Vec<(u32, Vec<u32>)> =
        (0..100).filter_map(|id| g.get_partition(id).filter(|p| p.chunk_idx == 0).map(|p| (id, p.blocks.clone()))).collect();
    assert!(partition(&mut g, &mut t, 1).complete);
    for (id, blocks) in lists {
        assert_eq!(g.get_partition(id).unwrap().blocks, blocks);
    }
}

/// Neighbours of one mask share a region; the regions of neighbours of
/// differing masks are neighbours.
fn check_regions(g: &PartitionGraph, ids: u32) {
    for id in 0..ids {
        let Some(p) = g.get_partition(id) else { continue };
        let home = g.get_region(p.region_id).expect("the region of a partition exists");
        assert_eq!(home.flags, p.flags);
        assert!(home.partition_list().contains(&id));
        for n in p.neighbor_list() {
            let q = g.get_partition(n).expect("a neighbour exists");
            if q.flags == p.flags {
                assert_eq!(q.region_id, p.region_id, "partitions {id} and {n}");
            } else {
                assert!(home.neighbor_list().contains(&q.region_id), "partitions {id} and {n}");
            }
        }
    }
}

#[test]
fn regions_are_true_to_the_neighbours() {
    // a board of two masks over four chunks, with a layer to fly in above
    let mut t = world([2, 1, 2], 4, &|x, y, z| {
        if y == 0 {
            if (x / 2 + z / 3) % 2 == 0 { walk() } else { fly() }
        } else if y == 1 && x > 2 {
            fly()
        } else {
            PartitionFlags::none()
        }
    });
    let mut g = PartitionGraph::new();
    partition_all(&mut g, &mut t);
    check_regions(&g, 400);
    for c in 0..4 {
        check_chunk(&g, &t, c);
    }
    // a wall goes up, and two chunks are built anew
    for z in 0..8 {
        t.set_flags(3, 0, z, PartitionFlags::none());
    }
    assert!(partition(&mut g, &mut t, 0).complete);
    check_regions(&g, 400);
    assert!(partition(&mut g, &mut t, 2).complete);
    check_regions(&g, 400);
    // one partition of each mask that touches another of its mask shares
    // its region with it, across the chunks
    let a = t.get_partition_id_u32(0, 0, 0).unwrap();
    let b = t.get_partition_id_u32(0, 0, 4).unwrap();
    if g.get_partition(a).unwrap().flags == g.get_partition(b).unwrap().flags {
        assert_eq!(g.get_partition(a).unwrap().region_id, g.get_partition(b).unwrap().region_id);
    }
}
