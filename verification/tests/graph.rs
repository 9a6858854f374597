use voxel_nav::error::NavError;
use voxel_nav::flags::PartitionFlags;
use voxel_nav::graph::PartitionGraph;
use voxel_nav::terrain::Terrain;

fn walk() -> PartitionFlags {
    PartitionFlags::from_bits(1)
}

fn fly() -> PartitionFlags {
    PartitionFlags::from_bits(2)
}

fn sorted(mut v: Vec<u32>) -> Vec<u32> {
    v.sort();
    v
}

fn sorted_occupants(mut v: Vec<u64>) -> Vec<u64> {
    v.sort();
    v
}

#[test]
fn new_graph_is_empty() {
    let g = PartitionGraph::new();
    assert!(g.get_partition(0).is_none());
    assert!(g.get_region(0).is_none());
    assert!(!g.contains_partition(0));
    assert!(g.has_room());
    assert!(g.get_flags(3).is_empty());
    assert_eq!(g.get_center(0), None);
    assert!(!g.is_partition_computed(0));
    assert_eq!(g.block_count(0), 0);
    assert!(g.partition_blocks(0).is_empty());
}

#[test]
fn numbers_are_given_out_in_order_and_once() {
    let mut g = PartitionGraph::new();
    let r0 = g.create_region(walk());
    let r1 = g.create_region(fly());
    assert_eq!((r0, r1), (0, 1));
    let a = g.create_partition(r0, 7, walk());
    let b = g.create_partition(r0, 8, walk());
    let c = g.create_partition(r1, 7, fly());
    assert_eq!((a, b, c), (0, 1, 2));
    let mut t = Terrain::new([9, 1, 1], 2).unwrap();
    g.remove_partition(b, &mut t);
    let d = g.create_partition(r0, 8, walk());
    assert_eq!(d, 3);
    assert!(g.get_partition(b).is_none());
}

#[test]
fn new_partition_is_empty_and_listed_by_its_region() {
    let mut g = PartitionGraph::new();
    let r = g.create_region(fly());
    let p = g.create_partition(r, 5, fly());
    let part = g.get_partition(p).unwrap();
    assert_eq!(part.id, p);
    assert_eq!(part.chunk_idx, 5);
    assert_eq!(part.region_id, r);
    assert_eq!(part.flags, fly());
    assert!(!part.is_computed);
    assert!(part.blocks.is_empty());
    assert!(part.neighbor_list().is_empty());
    assert!(part.occupant_list().is_empty());
    assert!(!part.extents.is_init);
    let region = g.get_region(r).unwrap();
    assert_eq!(region.id, r);
    assert_eq!(region.flags, fly());
    assert_eq!(region.partition_list(), vec![p]);
    assert!(region.neighbor_list().is_empty());
    assert_eq!(g.get_flags(p), fly());
}

#[test]
fn neighbors_are_mutual() {
    let mut g = PartitionGraph::new();
    let r0 = g.create_region(walk());
    let a = g.create_partition(r0, 0, walk());
    let b = g.create_partition(r0, 1, walk());
    let c = g.create_partition(r0, 2, walk());
    g.set_neighbors(a, b);
    g.set_neighbors(c, a);
    assert_eq!(sorted(g.get_partition(a).unwrap().neighbor_list()), vec![b, c]);
    assert_eq!(g.get_partition(b).unwrap().neighbor_list(), vec![a]);
    assert_eq!(g.get_partition(c).unwrap().neighbor_list(), vec![a]);
    assert!(g.get_partition(a).unwrap().has_neighbor(b));
    assert!(g.get_partition(b).unwrap().has_neighbor(a));
    assert!(!g.get_partition(b).unwrap().has_neighbor(c));
    for x in [a, b, c] {
        for y in g.get_partition(x).unwrap().neighbor_list() {
            assert!(g.get_partition(y).unwrap().has_neighbor(x));
        }
    }
}

#[test]
fn neighbors_are_a_set() {
    let mut g = PartitionGraph::new();
    let r0 = g.create_region(walk());
    let a = g.create_partition(r0, 0, walk());
    let b = g.create_partition(r0, 1, walk());
    g.set_neighbors(a, b);
    g.set_neighbors(a, b);
    g.set_neighbors(b, a);
    assert_eq!(g.get_partition(a).unwrap().neighbor_list(), vec![b]);
    assert_eq!(g.get_partition(b).unwrap().neighbor_list(), vec![a]);
    g.unset_neighbors(b, a);
    assert!(g.get_partition(a).unwrap().neighbor_list().is_empty());
    assert!(g.get_partition(b).unwrap().neighbor_list().is_empty());
    g.unset_neighbors(b, a);
    assert!(g.get_partition(a).unwrap().neighbor_list().is_empty());
}

#[test]
fn region_neighbors_are_mutual() {
    let mut g = PartitionGraph::new();
    let r0 = g.create_region(walk());
    let r1 = g.create_region(fly());
    let r2 = g.create_region(fly());
    g.set_region_neighbors(r0, r1);
    g.set_region_neighbors(r2, r0);
    assert_eq!(sorted(g.get_region(r0).unwrap().neighbor_list()), vec![r1, r2]);
    assert_eq!(g.get_region(r1).unwrap().neighbor_list(), vec![r0]);
    g.unset_region_neighbors(r0, r1);
    assert_eq!(g.get_region(r0).unwrap().neighbor_list(), vec![r2]);
    assert!(g.get_region(r1).unwrap().neighbor_list().is_empty());
}

#[test]
fn computed_mark_is_set_and_read() {
    let mut g = PartitionGraph::new();
    let r = g.create_region(walk());
    let p = g.create_partition(r, 0, walk());
    assert!(!g.is_partition_computed(p));
    assert_eq!(g.set_partition_computed(p, true), Ok(()));
    assert!(g.is_partition_computed(p));
    assert_eq!(g.set_partition_computed(p, false), Ok(()));
    assert!(!g.is_partition_computed(p));
    assert_eq!(g.set_partition_computed(99, true), Err(NavError::MissingGraphReference));
    assert!(!g.is_partition_computed(99));
}

#[test]
fn set_block_appends_to_the_list() {
    let mut g = PartitionGraph::new();
    let r = g.create_region(walk());
    let p = g.create_partition(r, 0, walk());
    assert_eq!(g.set_block(p, 4), Ok(()));
    assert_eq!(g.set_block(p, 9), Ok(()));
    assert_eq!(g.set_block(77, 1), Err(NavError::MissingGraphReference));
    assert!(g.get_partition(77).is_none());
    assert_eq!(g.partition_blocks(p), vec![4, 9]);
    assert_eq!(g.block_count(p), 2);
}

#[test]
fn occupants_are_a_set() {
    let mut g = PartitionGraph::new();
    let r = g.create_region(walk());
    let p = g.create_partition(r, 0, walk());
    assert_eq!(g.add_occupant(p, 1 << 40), Ok(true));
    assert_eq!(g.add_occupant(p, 1 << 40), Ok(false));
    assert_eq!(g.add_occupant(p, 3), Ok(true));
    assert_eq!(g.add_occupant(99, 3), Err(NavError::MissingGraphReference));
    assert_eq!(sorted_occupants(g.get_partition(p).unwrap().occupant_list()), vec![3, 1 << 40]);
    assert_eq!(g.remove_occupant(p, 3), Ok(true));
    assert_eq!(g.remove_occupant(p, 3), Ok(false));
    assert_eq!(g.remove_occupant(99, 1 << 40), Err(NavError::MissingGraphReference));
    assert_eq!(g.get_partition(p).unwrap().occupant_list(), vec![1 << 40]);
}

#[test]
fn assign_block_owns_the_voxel_and_grows_the_box() {
    let mut t = Terrain::new([2, 1, 1], 4).unwrap();
    let mut g = PartitionGraph::new();
    let r = g.create_region(walk());
    let p = g.create_partition(r, 1, walk());
    let at = t.get_block_indexes(5, 0, 2);
    assert_eq!(at[0], 1);
    g.assign_block(p, at[1], [5, 0, 2], &mut t);
    let at2 = t.get_block_indexes(7, 1, 0);
    g.assign_block(p, at2[1], [7, 1, 0], &mut t);
    assert_eq!(t.get_partition_id_u32(5, 0, 2), Some(p));
    assert_eq!(t.get_partition_id_u32(7, 1, 0), Some(p));
    assert_eq!(t.get_partition_id_u32(6, 0, 0), None);
    assert_eq!(g.partition_blocks(p), vec![at[1], at2[1]]);
    let e = g.get_partition(p).unwrap().extents;
    assert_eq!((e.min_x, e.min_y, e.min_z), (5, 0, 0));
    assert_eq!((e.max_x, e.max_y, e.max_z), (7, 1, 2));
    assert_eq!(g.get_center(p), Some([6, 0, 1]));
    assert!(e.is_stale);
    assert_eq!(g.update_traversal_distance(p), Ok(()));
    assert_eq!(g.update_traversal_distance(p + 50), Err(NavError::MissingGraphReference));
    let e = g.get_partition(p).unwrap().extents;
    assert!(!e.is_stale);
    assert_eq!(e.traversal_distance, 1732 + 1414);
}

#[test]
fn merge_moves_everything_to_the_survivor() {
    let mut t = Terrain::new([1, 1, 1], 4).unwrap();
    let mut g = PartitionGraph::new();
    let r0 = g.create_region(walk());
    let r1 = g.create_region(walk());
    let r2 = g.create_region(fly());
    let a = g.create_partition(r0, 0, walk());
    let b = g.create_partition(r1, 0, walk());
    let c = g.create_partition(r2, 0, fly());
    let d = g.create_partition(r2, 0, fly());
    g.assign_block(a, 0, [0, 0, 0], &mut t);
    g.assign_block(b, 1, [1, 0, 0], &mut t);
    g.assign_block(b, 2, [2, 0, 0], &mut t);
    g.assign_block(c, 3, [3, 0, 0], &mut t);
    g.set_neighbors(a, b);
    g.set_neighbors(b, c);
    g.set_neighbors(a, d);
    g.add_occupant(a, 10).unwrap();
    g.add_occupant(b, 20).unwrap();
    g.set_region_neighbors(r1, r2);
    let (survivor, region) = g.merge_partitions(a, b, &mut t);
    assert_eq!(survivor, a);
    assert_eq!(region, r0);
    assert!(g.get_partition(b).is_none());
    assert_eq!(g.partition_blocks(a), vec![0, 2, 1]);
    assert_eq!(t.get_partition_id(0, 0), Some(a));
    assert_eq!(t.get_partition_id(0, 1), Some(a));
    assert_eq!(t.get_partition_id(0, 2), Some(a));
    assert_eq!(t.get_partition_id(0, 3), Some(c));
    assert_eq!(sorted(g.get_partition(a).unwrap().neighbor_list()), vec![c, d]);
    assert_eq!(g.get_partition(c).unwrap().neighbor_list(), vec![a]);
    assert_eq!(g.get_partition(d).unwrap().neighbor_list(), vec![a]);
    assert_eq!(sorted_occupants(g.get_partition(a).unwrap().occupant_list()), vec![10, 20]);
    let e = g.get_partition(a).unwrap().extents;
    assert_eq!((e.min_x, e.max_x), (0, 2));
    // the region of the partition that went was left empty, and went too
    assert!(g.get_region(r1).is_none());
    assert!(g.get_region(r2).unwrap().neighbor_list().is_empty());
    assert_eq!(g.get_region(r0).unwrap().partition_list(), vec![a]);
}

#[test]
fn merge_keeps_a_region_that_lists_others() {
    let mut t = Terrain::new([2, 1, 1], 4).unwrap();
    let mut g = PartitionGraph::new();
    let r0 = g.create_region(walk());
    let r1 = g.create_region(walk());
    let a = g.create_partition(r0, 0, walk());
    let b = g.create_partition(r1, 0, walk());
    let c = g.create_partition(r1, 1, walk());
    g.merge_partitions(a, b, &mut t);
    assert_eq!(g.get_region(r1).unwrap().partition_list(), vec![c]);
    assert_eq!(g.get_partition(a).unwrap().region_id, r0);
    assert_eq!(g.get_partition(c).unwrap().region_id, r1);
}

#[test]
fn partition_neighbors_of_one_mask_share_a_region() {
    let mut g = PartitionGraph::new();
    let r0 = g.create_region(walk());
    let r1 = g.create_region(walk());
    let r2 = g.create_region(fly());
    let a = g.create_partition(r0, 0, walk());
    let b = g.create_partition(r1, 1, walk());
    let b2 = g.create_partition(r1, 2, walk());
    let _c = g.create_partition(r2, 1, fly());
    g.set_region_neighbors(r1, r2);
    let merged = g.set_partition_neighbors(a, b);
    assert_eq!(merged, Some(r0));
    assert!(g.get_region(r1).is_none());
    assert_eq!(g.get_partition(a).unwrap().region_id, r0);
    assert_eq!(g.get_partition(b).unwrap().region_id, r0);
    assert_eq!(g.get_partition(b2).unwrap().region_id, r0);
    assert_eq!(sorted(g.get_region(r0).unwrap().partition_list()), vec![a, b, b2]);
    assert_eq!(g.get_region(r0).unwrap().neighbor_list(), vec![r2]);
    assert_eq!(g.get_region(r2).unwrap().neighbor_list(), vec![r0]);
    assert_eq!(g.get_partition(a).unwrap().neighbor_list(), vec![b]);
    assert_eq!(g.get_partition(b).unwrap().neighbor_list(), vec![a]);
    // once they share a region, nothing more is merged
    assert_eq!(g.set_partition_neighbors(b, a), None);
}

#[test]
fn partition_neighbors_of_two_masks_have_neighbor_regions() {
    let mut g = PartitionGraph::new();
    let r0 = g.create_region(walk());
    let r1 = g.create_region(fly());
    let a = g.create_partition(r0, 0, walk());
    let b = g.create_partition(r1, 0, fly());
    assert_eq!(g.set_partition_neighbors(a, b), None);
    assert!(g.get_partition(a).unwrap().has_neighbor(b));
    assert!(g.get_partition(b).unwrap().has_neighbor(a));
    assert_eq!(g.get_region(r0).unwrap().neighbor_list(), vec![r1]);
    assert_eq!(g.get_region(r1).unwrap().neighbor_list(), vec![r0]);
    assert_eq!(g.get_partition(a).unwrap().region_id, r0);
    assert_eq!(g.get_partition(b).unwrap().region_id, r1);
}

#[test]
fn remove_partition_leaves_no_trace_but_the_number() {
    let mut t = Terrain::new([1, 1, 1], 4).unwrap();
    let mut g = PartitionGraph::new();
    let r0 = g.create_region(walk());
    let r1 = g.create_region(fly());
    let a = g.create_partition(r0, 0, walk());
    let b = g.create_partition(r1, 0, fly());
    g.assign_block(a, 5, [1, 1, 0], &mut t);
    g.assign_block(a, 6, [2, 1, 0], &mut t);
    g.assign_block(b, 7, [3, 1, 0], &mut t);
    g.set_partition_neighbors(a, b);
    g.add_occupant(a, 77).unwrap();
    let gone = g.remove_partition(a, &mut t).unwrap();
    assert_eq!(gone.id, a);
    assert_eq!(gone.blocks, vec![5, 6]);
    assert_eq!(gone.occupant_list(), vec![77]);
    assert!(gone.neighbor_list().is_empty());
    assert_eq!(gone.chunk_idx, 0);
    assert!(g.get_partition(a).is_none());
    assert!(g.get_region(r0).is_none());
    assert_eq!(t.get_partition_id(0, 5), None);
    assert_eq!(t.get_partition_id(0, 6), None);
    assert_eq!(t.get_partition_id(0, 7), Some(b));
    assert!(g.get_partition(b).unwrap().neighbor_list().is_empty());
    assert!(g.get_region(r1).unwrap().neighbor_list().is_empty());
}

#[test]
fn delete_for_chunk_takes_exactly_that_chunk() {
    let mut t = Terrain::new([2, 1, 1], 4).unwrap();
    let mut g = PartitionGraph::new();
    let r0 = g.create_region(walk());
    let a = g.create_partition(r0, 0, walk());
    let b = g.create_partition(r0, 1, walk());
    let c = g.create_partition(r0, 0, walk());
    g.assign_block(a, 0, [0, 0, 0], &mut t);
    g.assign_block(b, 0, [4, 0, 0], &mut t);
    g.assign_block(c, 9, [1, 2, 0], &mut t);
    g.set_neighbors(a, b);
    g.set_neighbors(b, c);
    g.set_neighbors(a, c);
    g.add_occupant(a, 1).unwrap();
    g.add_occupant(c, 2).unwrap();
    g.add_occupant(b, 3).unwrap();
    let removed = g.delete_partitions_for_chunk(0, &mut t);
    assert_eq!(removed.len(), 2);
    assert_eq!(removed[0].id, a);
    assert_eq!(removed[1].id, c);
    assert_eq!(removed[0].occupant_list(), vec![1]);
    assert_eq!(removed[1].occupant_list(), vec![2]);
    assert_eq!(removed[0].blocks, vec![0]);
    assert_eq!(removed[1].blocks, vec![9]);
    assert!(g.get_partition(a).is_none());
    assert!(g.get_partition(c).is_none());
    let left = g.get_partition(b).unwrap();
    assert!(left.neighbor_list().is_empty());
    assert_eq!(left.occupant_list(), vec![3]);
    assert_eq!(left.blocks, vec![0]);
    assert_eq!(t.get_partition_id(0, 0), None);
    assert_eq!(t.get_partition_id(0, 9), None);
    assert_eq!(t.get_partition_id(1, 0), Some(b));
    assert_eq!(g.get_region(r0).unwrap().partition_list(), vec![b]);
    // a chunk without partitions gives nothing back
    assert!(g.delete_partitions_for_chunk(0, &mut t).is_empty());
}

/// Three partitions of one chunk with the voxels 0 and 1, 2, and 3 and 4.
fn three_pieces() -> (Terrain, PartitionGraph, [u32; 3]) {
    let mut t = Terrain::new([1, 1, 1], 4).unwrap();
    let mut g = PartitionGraph::new();
    let r = g.create_region(walk());
    let a = g.create_partition(r, 0, walk());
    let b = g.create_partition(r, 0, walk());
    let c = g.create_partition(r, 0, walk());
    g.assign_block(a, 0, [0, 0, 0], &mut t);
    g.assign_block(a, 1, [1, 0, 0], &mut t);
    g.assign_block(b, 2, [2, 0, 0], &mut t);
    g.assign_block(c, 3, [3, 0, 0], &mut t);
    g.assign_block(c, 4, [0, 1, 0], &mut t);
    (t, g, [a, b, c])
}

#[test]
fn merging_in_any_order_gives_the_same_voxels() {
    let (mut t, mut g, [a, b, c]) = three_pieces();
    g.merge_partitions(b, a, &mut t);
    g.merge_partitions(c, b, &mut t);
    let one = sorted(g.partition_blocks(c));
    assert_eq!(one, vec![0, 1, 2, 3, 4]);
    assert!(g.get_partition(a).is_none() && g.get_partition(b).is_none());

    let (mut t, mut g, [a, b, c]) = three_pieces();
    g.merge_partitions(c, b, &mut t);
    g.merge_partitions(c, a, &mut t);
    assert_eq!(sorted(g.partition_blocks(c)), one);
    assert!(g.get_partition(a).is_none() && g.get_partition(b).is_none());

    let (mut t, mut g, [a, b, c]) = three_pieces();
    g.merge_partitions(c, a, &mut t);
    g.merge_partitions(c, b, &mut t);
    assert_eq!(sorted(g.partition_blocks(c)), one);
    for block in 0..5 {
        assert_eq!(t.get_partition_id(0, block), Some(c));
    }
    let e = g.get_partition(c).unwrap().extents;
    assert_eq!([e.min_x, e.min_y, e.min_z, e.max_x, e.max_y, e.max_z], [0, 0, 0, 3, 1, 0]);
}

#[test]
fn lists_come_in_ascending_order() {
    let mut g = PartitionGraph::new();
    let r = g.create_region(walk());
    let ids: Vec<u32> = (0..40).map(|c| g.create_partition(r, c, walk())).collect();
    for k in [31, 2, 17, 39, 5, 23, 11] {
        g.set_neighbors(ids[0], ids[k]);
    }
    assert_eq!(
        g.get_partition(ids[0]).unwrap().neighbor_list(),
        vec![ids[2], ids[5], ids[11], ids[17], ids[23], ids[31], ids[39]]
    );
    assert_eq!(g.get_region(r).unwrap().partition_list(), ids);
    assert_eq!(voxel_nav::graph::ascending(&vec![7, 3, 7, 0, u32::MAX, 3]), vec![0, 3, 7, u32::MAX]);
    assert_eq!(voxel_nav::graph::ascending(&vec![]), Vec::<u32>::new());
}
