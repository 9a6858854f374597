use voxel_nav::block::BlockType;
use voxel_nav::flags::PartitionFlags;
use voxel_nav::terrain::get_block_flags;
use voxel_nav::terrain::Terrain;

#[test]
fn terrain_has_the_asked_size() {
    let t = Terrain::new([2, 3, 4], 8).unwrap();
    assert_eq!(t.chunk_count, 24);
    assert_eq!(t.chunk_size, 8);
    assert_eq!(t.world_size_x(), 16);
    assert_eq!(t.world_size_y(), 24);
    assert_eq!(t.world_size_z(), 32);
    assert_eq!(t.chunks.len(), 24);
    assert_eq!(t.chunk_shape.size(), 512);
    for c in 0..24u32 {
        let chunk = t.get_chunk(c).unwrap();
        assert_eq!(chunk.chunk_idx, c);
        assert_eq!(chunk.blocks.len(), 512);
    }
    assert!(t.get_chunk(24).is_none());
}

#[test]
fn terrain_refuses_what_it_cannot_number() {
    assert!(Terrain::new([0, 1, 1], 8).is_none());
    assert!(Terrain::new([1, 1, 1], 0).is_none());
    assert!(Terrain::new([1, 1, 1], 2048).is_none());
    assert!(Terrain::new([1 << 30, 1, 1], 2).is_none());
    assert!(Terrain::new([1 << 31, 1, 1], 1).is_none());
    assert!(Terrain::new([1, 1, 1], 1).is_some());
}

#[test]
fn terrain_knows_its_bounds() {
    let t = Terrain::new([2, 1, 1], 4).unwrap();
    assert!(!t.is_oob(0, 0, 0));
    assert!(!t.is_oob(7, 3, 3));
    assert!(t.is_oob(8, 0, 0));
    assert!(t.is_oob(0, 4, 0));
    assert!(t.is_oob(0, 0, 4));
    assert!(t.is_oob(-1, 0, 0));
    assert!(t.is_oob(0, -1, 0));
    assert!(t.is_oob(0, 0, i32::MIN));
    assert!(t.is_oob(i32::MAX, 0, 0));
}

#[test]
fn terrain_splits_coordinates_into_chunk_and_block() {
    let t = Terrain::new([2, 2, 2], 4).unwrap();
    assert_eq!(t.get_block_indexes(0, 0, 0), [0, 0]);
    assert_eq!(t.get_block_indexes(3, 0, 0), [0, 3]);
    assert_eq!(t.get_block_indexes(4, 0, 0), [1, 0]);
    assert_eq!(t.get_block_indexes(0, 4, 0), [2, 0]);
    assert_eq!(t.get_block_indexes(0, 0, 4), [4, 0]);
    assert_eq!(t.get_block_indexes(5, 6, 7), [7, 1 + 4 * 2 + 16 * 3]);
    assert_eq!(t.get_block_world_pos(7, 57), [5, 6, 7]);
    assert_eq!(t.get_block_world_pos(1, 0), [4, 0, 0]);
}

#[test]
fn terrain_indexes_round_trip() {
    let t = Terrain::new([2, 1, 3], 2).unwrap();
    for c in 0..t.chunk_count {
        for b in 0..t.chunk_shape.size() {
            let p = t.get_block_world_pos(c, b);
            assert!(!t.is_oob(p[0] as i32, p[1] as i32, p[2] as i32));
            assert_eq!(t.get_block_indexes(p[0], p[1], p[2]), [c, b]);
        }
    }
}

#[test]
fn terrain_keys_tell_voxels_apart() {
    let t = Terrain::new([2, 1, 3], 2).unwrap();
    let mut seen = Vec::new();
    for x in 0..t.world_size_x() {
        for y in 0..t.world_size_y() {
            for z in 0..t.world_size_z() {
                let k = t.voxel_key(x, y, z);
                assert_eq!(k, (x + 4 * y + 8 * z) as u64);
                assert!(!seen.contains(&k));
                seen.push(k);
            }
        }
    }
    assert_eq!(seen.len(), 48);
}

#[test]
fn terrain_reads_outside_as_oob() {
    let t = Terrain::new([1, 1, 1], 4).unwrap();
    assert!(t.get_block(4, 0, 0).is_oob());
    assert!(t.get_block_i32(-1, 0, 0).is_oob());
    assert!(t.get_block_by_idx(1, 0).is_oob());
    assert!(t.get_block_by_idx(0, 64).is_oob());
    assert_eq!(t.get_partition_id(0, 64), None);
    assert_eq!(t.get_partition_id_u32(9, 9, 9), None);
    assert!(t.get_flags(-3, 0, 0).is_empty());
    assert!(get_block_flags(&t, 0, 99, 0).is_empty());
    assert!(t.get_block(3, 3, 3).is_empty());
}

#[test]
fn terrain_sets_flags_of_one_voxel() {
    let mut t = Terrain::new([2, 1, 1], 4).unwrap();
    t.set_flags(5, 1, 2, PartitionFlags::from_bits(3));
    assert_eq!(t.get_flags(5, 1, 2).bits(), 3);
    assert_eq!(get_block_flags(&t, 5, 1, 2).bits(), 3);
    assert_eq!(t.get_block(5, 1, 2).flags.bits(), 3);
    assert_eq!(t.get_block_by_idx(1, 1 + 4 + 32).flags.bits(), 3);
    let mut others = 0;
    for x in 0..8 {
        for y in 0..4 {
            for z in 0..4 {
                if !t.get_flags(x, y, z).is_empty() {
                    others += 1;
                }
            }
        }
    }
    assert_eq!(others, 1);
}

#[test]
fn terrain_sets_owner_of_one_voxel() {
    let mut t = Terrain::new([2, 1, 1], 4).unwrap();
    t.set_partition_id(1, 5, 42);
    assert_eq!(t.get_partition_id(1, 5), Some(42));
    assert_eq!(t.get_partition_id(0, 5), None);
    assert_eq!(t.get_partition_id_u32(5, 1, 0), Some(42));
    t.unset_partition_id(1, 5);
    assert_eq!(t.get_partition_id(1, 5), None);
}

#[test]
fn terrain_sets_material_and_dirties_the_chunk() {
    let mut t = Terrain::new([2, 1, 1], 4).unwrap();
    t.chunks[0].is_dirty = false;
    t.chunks[1].is_dirty = false;
    t.set_block_type(6, 0, 0, BlockType::Grass);
    assert!(t.get_block(6, 0, 0).is_filled());
    assert_eq!(t.get_block(6, 0, 0).block, BlockType::Grass);
    assert!(t.chunks[1].is_dirty);
    assert!(!t.chunks[0].is_dirty);
}

#[test]
fn a_walker_stands_on_solid_ground_with_room_above() {
    let mut t = Terrain::new([1, 1, 1], 4).unwrap();
    // a floor of stone at the bottom, and a lid of stone two voxels above
    // one place
    for x in 0..4 {
        for z in 0..4 {
            t.set_block_type(x, 0, z, BlockType::Stone);
        }
    }
    t.set_block_type(1, 2, 1, BlockType::Stone);
    assert!(t.walkable(0, 1, 0));
    assert!(t.walkable(3, 1, 3));
    // no room above
    assert!(!t.walkable(1, 1, 1));
    // nothing to stand on
    assert!(!t.walkable(0, 2, 0));
    // on top of the lid
    assert!(t.walkable(1, 3, 1) == false);
    // in the stone, at the bottom of the world, and outside it
    assert!(!t.walkable(0, 0, 0));
    t.set_block_type(2, 0, 2, BlockType::Empty);
    assert!(!t.walkable(2, 0, 2));
    assert!(!t.walkable(0, 4, 0));
    assert!(!t.walkable(9, 1, 0));
    assert!(!t.walkable(0, u32::MAX, 0));
}
