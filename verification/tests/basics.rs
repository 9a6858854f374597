use voxel_nav::block::Block;
use voxel_nav::block::BlockType;
use voxel_nav::chunk::BlockBuffer;
use voxel_nav::chunk::Neighbor;
use voxel_nav::distance::offset_distance;
use voxel_nav::distance::Distance;
use voxel_nav::distance::CORNER_COST;
use voxel_nav::distance::FACE_COST;
use voxel_nav::distance::STRAIGHT_COST;
use voxel_nav::error::NavError;
use voxel_nav::extents::Extents;
use voxel_nav::flags::PartitionFlags;
use voxel_nav::inventory::test_item_tags;
use voxel_nav::inventory::ItemTag;
use voxel_nav::shape::GridShape;
use voxel_nav::spaces::holds_id;
use voxel_nav::spaces::holds_voxel;
use voxel_nav::spaces::nearest_distance;

#[test]
fn shape_counts_its_cells() {
    let shape = GridShape::new([5, 6, 7]).unwrap();
    assert_eq!(shape.size(), 210);
    assert_eq!(shape.dims(), [5, 6, 7]);
}

#[test]
fn shape_numbers_cells_row_major() {
    let shape = GridShape::new([5, 6, 7]).unwrap();
    assert_eq!(shape.linearize([0, 0, 0]), 0);
    assert_eq!(shape.linearize([1, 0, 0]), 1);
    assert_eq!(shape.linearize([0, 1, 0]), 5);
    assert_eq!(shape.linearize([0, 0, 1]), 30);
    assert_eq!(shape.linearize([1, 2, 3]), 101);
    assert_eq!(shape.linearize([4, 5, 6]), 209);
}

#[test]
fn shape_finds_the_cell_of_a_number() {
    let shape = GridShape::new([5, 6, 7]).unwrap();
    assert_eq!(shape.delinearize(0), [0, 0, 0]);
    assert_eq!(shape.delinearize(101), [1, 2, 3]);
    assert_eq!(shape.delinearize(209), [4, 5, 6]);
}

#[test]
fn shape_numbering_round_trips() {
    let shape = GridShape::new([3, 4, 5]).unwrap();
    for i in 0..shape.size() {
        let p = shape.delinearize(i);
        assert!(shape.holds(p));
        assert_eq!(shape.linearize(p), i);
    }
}

#[test]
fn shape_refuses_empty_and_oversized_boxes() {
    assert!(GridShape::new([0, 4, 4]).is_none());
    assert!(GridShape::new([4, 0, 4]).is_none());
    assert!(GridShape::new([4, 4, 0]).is_none());
    assert!(GridShape::new([65536, 65536, 1]).is_none());
    assert!(GridShape::new([2048, 2048, 1024]).is_none());
    assert!(GridShape::new([65535, 65537, 1]).is_some());
    assert!(GridShape::new([1, 1, 1]).is_some());
}

#[test]
fn shape_holds_only_cells_inside() {
    let shape = GridShape::new([2, 3, 4]).unwrap();
    assert!(shape.holds([1, 2, 3]));
    assert!(!shape.holds([2, 0, 0]));
    assert!(!shape.holds([0, 3, 0]));
    assert!(!shape.holds([0, 0, 4]));
}

#[test]
fn distance_of_a_straight_step() {
    assert_eq!(Distance::diagonal([0, 0, 0], [1, 0, 0]), 1000);
    assert_eq!(Distance::diagonal([0, 0, 0], [0, -1, 0]), 1000);
    assert_eq!(Distance::diagonal([5, 5, 5], [5, 5, 2]), 3000);
    assert_eq!(STRAIGHT_COST, 1000);
}

#[test]
fn distance_of_diagonal_steps() {
    assert_eq!(Distance::diagonal([0, 0, 0], [1, 0, 1]), 1414);
    assert_eq!(Distance::diagonal([0, 0, 0], [1, 1, 1]), 1732);
    assert_eq!(Distance::diagonal([0, 0, 0], [9, 0, 9]), 12726);
    assert_eq!(FACE_COST, 1414);
    assert_eq!(CORNER_COST, 1732);
}

#[test]
fn distance_mixes_the_three_kinds_of_step() {
    // offsets 3, 4, 5: three corner steps, one face step, one straight step
    assert_eq!(Distance::diagonal([0, 0, 0], [3, 4, 5]), 3 * 1732 + 1414 + 1000);
    assert_eq!(Distance::diagonal([3, 4, 5], [0, 0, 0]), 7610);
    assert_eq!(offset_distance(5, 3, 4), 7610);
    assert_eq!(offset_distance(0, 0, 0), 0);
}

#[test]
fn distance_is_symmetric_and_zero_on_itself() {
    let a = [-7, 12, 3];
    let b = [4, -2, 9];
    assert_eq!(Distance::diagonal(a, b), Distance::diagonal(b, a));
    assert_eq!(Distance::diagonal(a, a), 0);
}

#[test]
fn distance_spans_the_whole_range() {
    let far = Distance::diagonal([i32::MIN, 0, 0], [i32::MAX, 0, 0]);
    assert_eq!(far, 4_294_967_295u64 * 1000);
}

#[test]
fn nearest_distance_takes_the_least() {
    let targets = vec![[10, 0, 0], [0, 0, 3], [5, 5, 5]];
    assert_eq!(nearest_distance([0, 0, 0], &targets), 3000);
    assert_eq!(nearest_distance([5, 5, 4], &targets), 1000);
    assert_eq!(nearest_distance([0, 0, 0], &Vec::new()), 0);
}

#[test]
fn lists_are_searched_for_numbers_and_voxels() {
    assert!(holds_id(&vec![4, 8, 15], 8));
    assert!(!holds_id(&vec![4, 8, 15], 16));
    assert!(!holds_id(&Vec::new(), 0));
    assert!(holds_voxel(&vec![[1, 2, 3], [4, 5, 6]], [4, 5, 6]));
    assert!(!holds_voxel(&vec![[1, 2, 3], [4, 5, 6]], [4, 5, 7]));
}

#[test]
fn flags_none_is_empty() {
    let none = PartitionFlags::none();
    assert!(none.is_empty());
    assert_eq!(none.bits(), 0);
    assert!(!none.intersects(PartitionFlags::from_bits(0xffff_ffff)));
    assert!(!none.intersects(none));
}

#[test]
fn flags_intersect_where_they_share_a_bit() {
    let walk = PartitionFlags::from_bits(1);
    let fly = PartitionFlags::from_bits(2);
    let both = walk.union(fly);
    assert_eq!(both.bits(), 3);
    assert!(!walk.intersects(fly));
    assert!(walk.intersects(both));
    assert!(both.intersects(fly));
    assert!(walk.intersects(walk));
    assert_eq!(both.intersection(fly), fly);
    assert!(walk.intersection(fly).is_empty());
    assert!(!walk.is_empty());
}

#[test]
fn flags_compare_by_their_bits() {
    assert_eq!(PartitionFlags::from_bits(5), PartitionFlags::from_bits(5));
    assert_ne!(PartitionFlags::from_bits(5), PartitionFlags::from_bits(4));
}

#[test]
fn block_kinds() {
    let mut b = Block::default();
    assert!(b.is_empty());
    assert!(!b.is_filled());
    assert!(!b.is_oob());
    assert!(b.flags.is_empty());
    assert_eq!(b.partition_id, None);
    b.block = BlockType::Stone;
    assert!(b.is_filled());
    assert!(!b.is_empty());
    b.block = BlockType::Magma;
    assert!(b.is_filled());
    let oob = Block::oob();
    assert!(oob.is_oob());
    assert!(!oob.is_empty());
    assert!(!oob.is_filled());
    assert_eq!(oob.block, BlockType::Oob);
}

#[test]
fn buffer_starts_empty_and_dirty() {
    let buffer = BlockBuffer::new(GridShape::new([2, 2, 2]).unwrap());
    assert_eq!(buffer.block_count, 8);
    assert_eq!(buffer.blocks.len(), 8);
    assert!(buffer.is_dirty);
    assert_eq!(buffer.chunk_idx, 0);
    for i in 0..8 {
        assert!(buffer.get_block(i).is_empty());
        assert_eq!(buffer.get_partition_id(i), None);
    }
}

#[test]
fn buffer_answers_outside_with_the_oob_block() {
    let buffer = BlockBuffer::new(GridShape::new([2, 2, 2]).unwrap());
    assert!(buffer.get_block(8).is_oob());
    assert_eq!(buffer.get_partition_id(8), None);
    assert_eq!(buffer.get_sunlight(8), 0);
    assert_eq!(buffer.get_torchlight(100), 0);
    assert!(buffer.get_flags(8).is_empty());
}

#[test]
fn buffer_sets_one_block_at_a_time() {
    let mut buffer = BlockBuffer::new(GridShape::new([2, 2, 2]).unwrap());
    buffer.is_dirty = false;
    buffer.set_partition_id(3, 17);
    assert_eq!(buffer.get_partition_id(3), Some(17));
    assert_eq!(buffer.get_partition_id(2), None);
    assert!(!buffer.is_dirty);
    buffer.unset_partition_id(3);
    assert_eq!(buffer.get_partition_id(3), None);
    buffer.set_flags(1, PartitionFlags::from_bits(6));
    assert_eq!(buffer.get_flags(1).bits(), 6);
    assert!(!buffer.is_dirty);
    buffer.set_block_type(5, BlockType::Dirt);
    assert!(buffer.is_dirty);
    assert!(buffer.get_block(5).is_filled());
    assert!(buffer.get_block(4).is_empty());
    assert_eq!(buffer.get_flags(1).bits(), 6);
}

#[test]
fn buffer_light_marks_it_dirty() {
    let mut buffer = BlockBuffer::new(GridShape::new([2, 2, 2]).unwrap());
    buffer.is_dirty = false;
    buffer.set_sunlight(0, 15);
    assert!(buffer.is_dirty);
    assert_eq!(buffer.get_sunlight(0), 15);
    buffer.is_dirty = false;
    buffer.set_torchlight(7, 9);
    assert!(buffer.is_dirty);
    assert_eq!(buffer.get_torchlight(7), 9);
    assert_eq!(buffer.get_torchlight(0), 0);
}

#[test]
fn buffer_marks_say_whether_they_changed() {
    let mut buffer = BlockBuffer::new(GridShape::new([2, 2, 2]).unwrap());
    buffer.is_dirty = false;
    assert!(!buffer.set_flag_mine(2, false));
    assert!(!buffer.is_dirty);
    assert!(buffer.set_flag_mine(2, true));
    assert!(buffer.is_dirty);
    assert!(buffer.get_block(2).flag_mine);
    buffer.is_dirty = false;
    assert!(!buffer.set_flag_mine(2, true));
    assert!(!buffer.is_dirty);
    assert!(buffer.set_flag_blueprint(2, true));
    assert!(buffer.is_dirty);
    assert!(buffer.get_block(2).flag_blueprint);
    assert!(buffer.set_flag_blueprint(2, false));
    assert!(!buffer.get_block(2).flag_blueprint);
}

#[test]
fn neighbor_names_its_place() {
    assert_eq!(Neighbor(Neighbor::ABOVE_FORWARD_LEFT).idx(), 0);
    assert_eq!(Neighbor(Neighbor::ABOVE).idx(), 4);
    assert_eq!(Neighbor(Neighbor::LEFT).idx(), 12);
    assert_eq!(Neighbor(Neighbor::RIGHT).idx(), 13);
    assert_eq!(Neighbor(Neighbor::BELOW).idx(), 21);
    assert_eq!(Neighbor(Neighbor::BELOW_BEHIND_RIGHT).idx(), 25);
    assert_eq!(Neighbor(200).idx(), 200);
}

#[test]
fn extents_grow_around_their_voxels() {
    let mut e = Extents::new();
    assert!(!e.is_init);
    e.extend([4, 5, 6]);
    assert!(e.is_init);
    assert!(e.is_stale);
    assert_eq!((e.min_x, e.min_y, e.min_z), (4, 5, 6));
    assert_eq!((e.max_x, e.max_y, e.max_z), (4, 5, 6));
    e.extend([2, 9, 6]);
    assert_eq!((e.min_x, e.min_y, e.min_z), (2, 5, 6));
    assert_eq!((e.max_x, e.max_y, e.max_z), (4, 9, 6));
    assert_eq!(e.center(), [3, 7, 6]);
}

#[test]
fn extents_measure_the_way_to_their_edge() {
    let mut e = Extents::new();
    e.extend([2, 0, 2]);
    e.extend([5, 0, 5]);
    assert_eq!(e.distance_to_edge(3, 0, 4), 0);
    assert_eq!(e.distance_to_edge(0, 0, 3), 2000);
    assert_eq!(e.distance_to_edge(8, 0, 8), 3 * 1414);
    assert_eq!(e.distance_to_edge(6, 1, 6), 1732);
    assert_eq!(e.distance_to_edge(-1, 0, 2), 3000);
}

#[test]
fn extents_keep_their_span_until_updated() {
    let mut e = Extents::new();
    e.extend([0, 0, 0]);
    e.extend([9, 0, 9]);
    assert_eq!(e.traversal_distance, 0);
    assert!(e.is_stale);
    e.update_traversal_distance();
    assert_eq!(e.traversal_distance, 12726);
    assert!(!e.is_stale);
    e.extend([9, 3, 9]);
    assert!(e.is_stale);
    assert_eq!(e.traversal_distance, 12726);
}

#[test]
fn extents_unite() {
    let mut a = Extents::new();
    a.extend([5, 5, 5]);
    let mut b = Extents::new();
    b.extend([1, 7, 5]);
    b.extend([3, 9, 2]);
    a.union(&b);
    assert_eq!((a.min_x, a.min_y, a.min_z), (1, 5, 2));
    assert_eq!((a.max_x, a.max_y, a.max_z), (5, 9, 5));
    let before = a;
    a.union(&Extents::new());
    assert_eq!(a, before);
}

#[test]
fn item_tags_are_tested_as_a_set() {
    let all = [ItemTag::Pickaxe, ItemTag::Stone];
    assert!(test_item_tags(&all, &[ItemTag::Stone]));
    assert!(test_item_tags(&all, &[ItemTag::Stone, ItemTag::Pickaxe, ItemTag::Stone]));
    assert!(test_item_tags(&all, &[]));
    assert!(!test_item_tags(&[ItemTag::Stone], &[ItemTag::Pickaxe]));
    assert!(!test_item_tags(&[ItemTag::Stone], &[ItemTag::Stone, ItemTag::Pickaxe]));
    assert!(!test_item_tags(&[], &[ItemTag::Stone]));
    assert!(test_item_tags(&[], &[]));
}

#[test]
fn item_tags_have_names() {
    assert_eq!(ItemTag::Pickaxe.name(), "Pickaxe");
    assert_eq!(ItemTag::Stone.name(), "Stone");
    assert_eq!(format!("{:?}", ItemTag::Stone), ItemTag::Stone.name());
}

#[test]
fn errors_describe_themselves() {
    let all = [
        NavError::NoStartingPartition,
        NavError::NoReachableDestination,
        NavError::SearchBudgetExceeded,
        NavError::StaleSegment,
        NavError::MissingGraphReference,
    ];
    for (i, a) in all.iter().enumerate() {
        assert!(!a.describe().is_empty());
        for b in all.iter().skip(i + 1) {
            assert_ne!(a.describe(), b.describe());
        }
    }
}
