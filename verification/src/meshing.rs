//! Which faces of the voxels of a chunk can be seen, and how a face is
//! packed for drawing.
//!
//! A face of a solid voxel can be seen if the voxel across it is not solid.
//! The voxels beyond the chunk count as not solid.
use crate::block::Block;
use crate::block::BlockType;
use crate::chunk::BlockBuffer;
use crate::shape::lemma_index_in_range;
use crate::shape::lemma_index_injective;
use vstd::prelude::*;

verus! {

/// A face of a voxel, by the direction in which it looks.
#[derive(Clone, Copy, Debug, PartialEq, Eq, Structural)]
pub enum BlockFace {
    PosX,
    NegX,
    PosY,
    NegY,
    PosZ,
    NegZ,
}

impl BlockFace {
    /// The number of the face.
    pub open spec fn spec_bit(self) -> u32 {
        match self {
            BlockFace::PosX => 0,
            BlockFace::NegX => 1,
            BlockFace::PosY => 2,
            BlockFace::NegY => 3,
            BlockFace::PosZ => 4,
            BlockFace::NegZ => 5,
        }
    }

    /// The place of the face among the faces of one voxel, in the order in
    /// which they are listed.
    pub open spec fn rank(self) -> int {
        match self {
            BlockFace::PosY => 0,
            BlockFace::NegZ => 1,
            BlockFace::PosX => 2,
            BlockFace::PosZ => 3,
            BlockFace::NegX => 4,
            BlockFace::NegY => 5,
        }
    }

    /// The step from a voxel to the voxel across the face.
    pub open spec fn step(self) -> (int, int, int) {
        match self {
            BlockFace::PosX => (1, 0, 0),
            BlockFace::NegX => (-1, 0, 0),
            BlockFace::PosY => (0, 1, 0),
            BlockFace::NegY => (0, -1, 0),
            BlockFace::PosZ => (0, 0, 1),
            BlockFace::NegZ => (0, 0, -1),
        }
    }

    pub fn bit(&self) -> (b: u32)
        ensures
            b == self.spec_bit(),
    {
        match self {
            BlockFace::PosX => 0,
            BlockFace::NegX => 1,
            BlockFace::PosY => 2,
            BlockFace::NegY => 3,
            BlockFace::PosZ => 4,
            BlockFace::NegZ => 5,
        }
    }
}

/// The number of the picture that a voxel is drawn with.
pub open spec fn spec_texture(block: Block) -> u32 {
    match block.block {
        BlockType::Dirt => 0,
        BlockType::Grass => 1,
        BlockType::Stone => 2,
        BlockType::Magma => 3,
        BlockType::Empty => 0,
        BlockType::Oob => 0,
    }
}

/// A face as one number: the picture in the lowest four bits, the number of
/// the face in the three bits above.
pub open spec fn spec_pack(block: Block, dir: BlockFace) -> u32 {
    (spec_texture(block) + 16 * dir.spec_bit()) as u32
}

pub fn texture_idx(block: &Block) -> (t: u32)
    ensures
        t == spec_texture(*block),
{
    match block.block {
        BlockType::Dirt => 0,
        BlockType::Grass => 1,
        BlockType::Stone => 2,
        BlockType::Magma => 3,
        BlockType::Empty | BlockType::Oob => 0,
    }
}

/// Packs the picture of a voxel and the number of a face into one number.
pub fn pack_block(block: Block, dir: BlockFace) -> (r: u32)
    ensures
        r == spec_pack(block, dir),
{
    let t_id = texture_idx(&block);
    let f_id = dir.bit();
    assert((t_id & 15) | ((f_id & 7) << 4) == t_id + 16 * f_id) by (bit_vector)
        requires
            t_id <= 3,
            f_id <= 5,
    ;
    (t_id & 15) | ((f_id & 7) << 4)
}

/// The corners of the two triangles of a four-cornered face whose first
/// corner has the number `first`, against the clock where the face is
/// `turned`.
pub fn quad_indices(first: u32, turned: bool) -> (r: [u32; 6])
    requires
        first <= u32::MAX - 3,
    ensures
        turned ==> r[0] == first + 2 && r[1] == first + 1 && r[2] == first && r[3] == first && r[4] == first
            + 3 && r[5] == first + 2,
        !turned ==> r[0] == first && r[1] == first + 1 && r[2] == first + 2 && r[3] == first + 2 && r[4]
            == first + 3 && r[5] == first,
{
    if turned {
        [first + 2, first + 1, first, first, first + 3, first + 2]
    } else {
        [first, first + 1, first + 2, first + 2, first + 3, first]
    }
}

/// A face that can be seen.
#[derive(Clone, Copy, Debug)]
pub struct Face {
    /// The cell of the voxel in its chunk.
    pub pos: [u32; 3],
    /// The number of the voxel in its chunk.
    pub block_idx: u32,
    pub face: BlockFace,
    /// The voxel's picture and the face, packed.
    pub packed: u32,
}

/// The voxel across `face` from the cell `(x, y, z)`; the out-of-bounds
/// voxel beyond the chunk.
pub open spec fn beside(buffer: &BlockBuffer, x: int, y: int, z: int, face: BlockFace) -> Block {
    let (dx, dy, dz) = face.step();
    if buffer.shape.contains(x + dx, y + dy, z + dz) {
        buffer.blocks@[buffer.shape.index_of(x + dx, y + dy, z + dz)]
    } else {
        Block::spec_oob()
    }
}

/// The face `face` of the voxel in cell `(x, y, z)` can be seen: the voxel
/// is solid and the voxel across the face is not.
pub open spec fn shows(buffer: &BlockBuffer, x: int, y: int, z: int, face: BlockFace) -> bool {
    &&& buffer.shape.contains(x, y, z)
    &&& buffer.blocks@[buffer.shape.index_of(x, y, z)].spec_is_filled()
    &&& !beside(buffer, x, y, z, face).spec_is_filled()
}

/// `f` is a face of the chunk that can be seen, with the number of its voxel
/// and its packed form.
pub open spec fn is_face(buffer: &BlockBuffer, f: Face) -> bool {
    &&& shows(buffer, f.pos[0] as int, f.pos[1] as int, f.pos[2] as int, f.face)
    &&& f.block_idx == buffer.shape.index_of(f.pos[0] as int, f.pos[1] as int, f.pos[2] as int)
    &&& f.packed == spec_pack(buffer.blocks@[f.block_idx as int], f.face)
}

/// The place of a face in a list of faces: voxel by voxel in the order of
/// the voxels' numbers, and for each voxel in the order of the faces'
/// ranks.
pub open spec fn order_key(f: Face) -> int {
    f.block_idx * 6 + f.face.rank()
}

/// Every face of the list comes before every later one: the list is in
/// order and holds no face twice.
pub open spec fn in_order(list: Seq<Face>) -> bool {
    forall|k: int, l: int| 0 <= k < l < list.len() ==> order_key(list[k]) < order_key(list[l])
}

/// The list holds the face `face` of the voxel in cell `(x, y, z)`.
pub open spec fn listed(list: Seq<Face>, x: int, y: int, z: int, face: BlockFace) -> bool {
    exists|k: int|
        0 <= k < list.len() && (#[trigger] list[k]).pos[0] == x && list[k].pos[1] == y && list[k].pos[2]
            == z && list[k].face == face
}

/// What a list holds, a longer list with the same beginning holds too.
proof fn lemma_listed_kept(short: Seq<Face>, long: Seq<Face>, x: int, y: int, z: int, face: BlockFace)
    requires
        short.len() <= long.len(),
        forall|k: int| 0 <= k < short.len() ==> long[k] == short[k],
        listed(short, x, y, z, face),
    ensures
        listed(long, x, y, z, face),
{
    let k = choose|k: int|
        0 <= k < short.len() && (#[trigger] short[k]).pos[0] == x && short[k].pos[1] == y
            && short[k].pos[2] == z && short[k].face == face;
    assert(long[k] == short[k]);
}

/// The voxel across `face` from the cell `pos`.
fn block_beside(buffer: &BlockBuffer, pos: [u32; 3], face: BlockFace) -> (b: Block)
    requires
        buffer.wf(),
        buffer.shape.contains(pos[0] as int, pos[1] as int, pos[2] as int),
    ensures
        b == beside(buffer, pos[0] as int, pos[1] as int, pos[2] as int, face),
{
    let dims = buffer.shape.dims();
    let at: Option<[u32; 3]> = match face {
        BlockFace::PosX => if pos[0] + 1 < dims[0] {
            Some([pos[0] + 1, pos[1], pos[2]])
        } else {
            None
        },
        BlockFace::NegX => if pos[0] > 0 {
            Some([pos[0] - 1, pos[1], pos[2]])
        } else {
            None
        },
        BlockFace::PosY => if pos[1] + 1 < dims[1] {
            Some([pos[0], pos[1] + 1, pos[2]])
        } else {
            None
        },
        BlockFace::NegY => if pos[1] > 0 {
            Some([pos[0], pos[1] - 1, pos[2]])
        } else {
            None
        },
        BlockFace::PosZ => if pos[2] + 1 < dims[2] {
            Some([pos[0], pos[1], pos[2] + 1])
        } else {
            None
        },
        BlockFace::NegZ => if pos[2] > 0 {
            Some([pos[0], pos[1], pos[2] - 1])
        } else {
            None
        },
    };
    match at {
        Some(cell) => buffer.get_block(buffer.shape.linearize(cell)),
        None => Block::oob(),
    }
}

/// Adds the face `face` of the solid voxel in cell `pos` to the list if it
/// can be seen.
fn add_face(buffer: &BlockBuffer, list: &mut Vec<Face>, pos: [u32; 3], block_idx: u32, face: BlockFace)
    requires
        buffer.wf(),
        buffer.shape.contains(pos[0] as int, pos[1] as int, pos[2] as int),
        block_idx == buffer.shape.index_of(pos[0] as int, pos[1] as int, pos[2] as int),
        buffer.blocks@[block_idx as int].spec_is_filled(),
        in_order(old(list)@),
        forall|k: int| 0 <= k < old(list)@.len() ==> order_key(old(list)@[k]) < block_idx * 6 + face.rank(),
    ensures
        in_order(final(list)@),
        forall|k: int|
            0 <= k < final(list)@.len() ==> order_key(final(list)@[k]) <= block_idx * 6 + face.rank(),
        final(list)@.len() >= old(list)@.len(),
        forall|k: int| 0 <= k < old(list)@.len() ==> final(list)@[k] == old(list)@[k],
        forall|k: int|
            old(list)@.len() <= k < final(list)@.len() ==> is_face(buffer, #[trigger] final(list)@[k])
                && final(list)@[k].block_idx == block_idx,
        shows(buffer, pos[0] as int, pos[1] as int, pos[2] as int, face) ==> listed(
            final(list)@,
            pos[0] as int,
            pos[1] as int,
            pos[2] as int,
            face,
        ),
{
    proof {
        lemma_index_in_range(
            buffer.shape.dx(),
            buffer.shape.dy(),
            buffer.shape.dz(),
            pos[0] as int,
            pos[1] as int,
            pos[2] as int,
        );
    }
    if !block_beside(buffer, pos, face).is_filled() {
        let block = buffer.get_block(block_idx);
        let made = Face { pos, block_idx, face, packed: pack_block(block, face) };
        list.push(made);
        assert(list@[list@.len() - 1] == made);
    }
}

/// The faces of the chunk that can be seen, each once, voxel by voxel in
/// the order of the voxels' numbers, and for each voxel in the order of the
/// faces' ranks.
pub fn visible_faces(buffer: &BlockBuffer) -> (r: Vec<Face>)
    requires
        buffer.wf(),
    ensures
        forall|k: int| 0 <= k < r@.len() ==> is_face(buffer, #[trigger] r@[k]),
        forall|x: int, y: int, z: int, face: BlockFace|
            #[trigger] shows(buffer, x, y, z, face) ==> listed(r@, x, y, z, face),
        in_order(r@),
{
    let mut r: Vec<Face> = Vec::new();
    let count = buffer.shape.size();
    let mut i: u32 = 0;
    while i < count
        invariant
            buffer.wf(),
            count == buffer.shape.volume(),
            i <= count,
            forall|k: int| 0 <= k < r@.len() ==> is_face(buffer, #[trigger] r@[k]) && r@[k].block_idx < i,
            forall|x: int, y: int, z: int, face: BlockFace|
                #[trigger] shows(buffer, x, y, z, face) && buffer.shape.index_of(x, y, z) < i ==> listed(
                    r@,
                    x,
                    y,
                    z,
                    face,
                ),
            in_order(r@),
            forall|k: int| 0 <= k < r@.len() ==> order_key(r@[k]) < i * 6,
        decreases count - i,
    {
        let ghost had = r@;
        let pos = buffer.shape.delinearize(i);
        if buffer.get_block(i).is_filled() {
            add_face(buffer, &mut r, pos, i, BlockFace::PosY);
            let ghost one = r@;
            add_face(buffer, &mut r, pos, i, BlockFace::NegZ);
            let ghost two = r@;
            add_face(buffer, &mut r, pos, i, BlockFace::PosX);
            let ghost three = r@;
            add_face(buffer, &mut r, pos, i, BlockFace::PosZ);
            let ghost four = r@;
            add_face(buffer, &mut r, pos, i, BlockFace::NegX);
            let ghost five = r@;
            add_face(buffer, &mut r, pos, i, BlockFace::NegY);
            proof {
                let x = pos[0] as int;
                let y = pos[1] as int;
                let z = pos[2] as int;
                if shows(buffer, x, y, z, BlockFace::PosY) {
                    lemma_listed_kept(one, r@, x, y, z, BlockFace::PosY);
                }
                if shows(buffer, x, y, z, BlockFace::NegZ) {
                    lemma_listed_kept(two, r@, x, y, z, BlockFace::NegZ);
                }
                if shows(buffer, x, y, z, BlockFace::PosX) {
                    lemma_listed_kept(three, r@, x, y, z, BlockFace::PosX);
                }
                if shows(buffer, x, y, z, BlockFace::PosZ) {
                    lemma_listed_kept(four, r@, x, y, z, BlockFace::PosZ);
                }
                if shows(buffer, x, y, z, BlockFace::NegX) {
                    lemma_listed_kept(five, r@, x, y, z, BlockFace::NegX);
                }
            }
        }
        proof {
            assert forall|x: int, y: int, z: int, face: BlockFace|
                #[trigger] shows(buffer, x, y, z, face) && buffer.shape.index_of(x, y, z) < i
                    + 1 implies listed(r@, x, y, z, face) by {
                if buffer.shape.index_of(x, y, z) < i {
                    lemma_listed_kept(had, r@, x, y, z, face);
                } else {
                    lemma_index_injective(
                        buffer.shape.dx(),
                        buffer.shape.dy(),
                        x,
                        y,
                        z,
                        pos[0] as int,
                        pos[1] as int,
                        pos[2] as int,
                    );
                }
            }
        }
        i += 1;
    }
    proof {
        assert forall|x: int, y: int, z: int, face: BlockFace| #[trigger]
            shows(buffer, x, y, z, face) implies listed(r@, x, y, z, face) by {
            lemma_index_in_range(buffer.shape.dx(), buffer.shape.dy(), buffer.shape.dz(), x, y, z);
        }
    }
    r
}

} // verus!
