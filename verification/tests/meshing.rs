use voxel_nav::block::Block;
use voxel_nav::block::BlockType;
use voxel_nav::chunk::BlockBuffer;
use voxel_nav::meshing::pack_block;
use voxel_nav::meshing::quad_indices;
use voxel_nav::meshing::texture_idx;
use voxel_nav::meshing::visible_faces;
use voxel_nav::meshing::BlockFace;
use voxel_nav::shape::GridShape;

fn buffer(dims: [u32; 3], solid: &[[u32; 3]], kind: BlockType) -> BlockBuffer {
    let shape = GridShape::new(dims).unwrap();
    let mut b = BlockBuffer::new(shape);
    for cell in solid {
        let idx = b.shape.linearize(*cell);
        b.set_block_type(idx, kind);
    }
    b
}

#[test]
fn a_face_is_packed_with_its_picture() {
    let stone = Block { block: BlockType::Stone, ..Block::default() };
    let grass = Block { block: BlockType::Grass, ..Block::default() };
    assert_eq!(texture_idx(&stone), 2);
    assert_eq!(pack_block(stone, BlockFace::PosZ), 2 + 16 * 4);
    assert_eq!(pack_block(grass, BlockFace::NegX), 1 + 16);
    assert_eq!(pack_block(Block { block: BlockType::Magma, ..Block::default() }, BlockFace::NegZ), 3 + 16 * 5);
    assert_eq!(pack_block(Block { block: BlockType::Dirt, ..Block::default() }, BlockFace::PosX), 0);
    assert_eq!(BlockFace::PosY.bit(), 2);
    assert_eq!(BlockFace::NegY.bit(), 3);
}

#[test]
fn an_empty_chunk_shows_no_face() {
    assert!(visible_faces(&buffer([2, 2, 2], &[], BlockType::Stone)).is_empty());
}

#[test]
fn a_lone_voxel_shows_six_faces() {
    let b = buffer([3, 3, 3], &[[1, 1, 1]], BlockType::Stone);
    let faces = visible_faces(&b);
    let order: Vec<BlockFace> = faces.iter().map(|f| f.face).collect();
    assert_eq!(
        order,
        vec![BlockFace::PosY, BlockFace::NegZ, BlockFace::PosX, BlockFace::PosZ, BlockFace::NegX, BlockFace::NegY]
    );
    for f in &faces {
        assert_eq!(f.pos, [1, 1, 1]);
        assert_eq!(f.block_idx, 1 + 3 + 9);
        assert_eq!(f.packed, 2 + 16 * f.face.bit());
    }
}

#[test]
fn a_face_between_two_solid_voxels_is_hidden() {
    let b = buffer([2, 1, 1], &[[0, 0, 0], [1, 0, 0]], BlockType::Dirt);
    let faces = visible_faces(&b);
    // the chunk's own border shows; the wall between the two does not
    assert_eq!(faces.len(), 10);
    assert!(!faces.iter().any(|f| f.pos == [0, 0, 0] && f.face == BlockFace::PosX));
    assert!(!faces.iter().any(|f| f.pos == [1, 0, 0] && f.face == BlockFace::NegX));
    assert!(faces.iter().any(|f| f.pos == [0, 0, 0] && f.face == BlockFace::NegX));
    assert!(faces.iter().any(|f| f.pos == [1, 0, 0] && f.face == BlockFace::PosX));
    let numbers: Vec<u32> = faces.iter().map(|f| f.block_idx).collect();
    let mut sorted = numbers.clone();
    sorted.sort();
    assert_eq!(numbers, sorted);
}

#[test]
fn a_full_chunk_shows_its_hull() {
    let mut cells = Vec::new();
    for x in 0..2 {
        for y in 0..2 {
            for z in 0..2 {
                cells.push([x, y, z]);
            }
        }
    }
    let b = buffer([2, 2, 2], &cells, BlockType::Grass);
    assert_eq!(visible_faces(&b).len(), 24);
}

#[test]
fn a_quad_is_two_triangles() {
    assert_eq!(quad_indices(0, false), [0, 1, 2, 2, 3, 0]);
    assert_eq!(quad_indices(0, true), [2, 1, 0, 0, 3, 2]);
    assert_eq!(quad_indices(8, false), [8, 9, 10, 10, 11, 8]);
    assert_eq!(quad_indices(u32::MAX - 3, true), [u32::MAX - 1, u32::MAX - 2, u32::MAX - 3, u32::MAX - 3, u32::MAX, u32::MAX - 1]);
}

#[test]
fn no_face_is_listed_twice() {
    let b = buffer([2, 2, 1], &[[0, 0, 0], [1, 1, 0], [1, 0, 0]], BlockType::Stone);
    let faces = visible_faces(&b);
    for (k, f) in faces.iter().enumerate() {
        for g in &faces[k + 1..] {
            assert!(f.block_idx < g.block_idx || (f.block_idx == g.block_idx && f.face != g.face));
            assert!(!(f.pos == g.pos && f.face == g.face));
        }
    }
    // 18 faces in all, less the four between the voxels
    assert_eq!(faces.len(), 14);
}
