//! The voxel world: a box of cubic chunks.
use crate::block::Block;
use crate::block::BlockType;
use crate::chunk::BlockBuffer;
use crate::flags::PartitionFlags;
use crate::shape::box_fits;
use crate::shape::box_index;
use crate::shape::lemma_index_in_range;
use crate::shape::GridShape;
use vstd::prelude::*;

verus! {

/// The world. `shape` counts the chunks along each axis, `chunk_shape` the
/// voxels of one chunk. A voxel is named either by its world coordinates or
/// by the number of its chunk and its number within the chunk.
#[derive(Clone, Debug)]
pub struct Terrain {
    pub shape: GridShape,
    pub chunk_shape: GridShape,
    pub chunk_size: u32,
    pub chunk_count: u32,
    pub chunks: Vec<BlockBuffer>,
}

/// Quotient and remainder of a coordinate by the chunk size.
proof fn lemma_split(x: int, size: int, count: int)
    requires
        0 <= x < count * size,
        size > 0,
    ensures
        0 <= x / size < count,
        0 <= x % size < size,
        x == size * (x / size) + x % size,
{
    vstd::arithmetic::div_mod::lemma_fundamental_div_mod(x, size);
    vstd::arithmetic::div_mod::lemma_mod_bound(x, size);
    let q = x / size;
    let r = x % size;
    assert(0 <= q) by (nonlinear_arith)
        requires
            x == size * q + r,
            0 <= r < size,
            0 <= x,
            size > 0,
    ;
    assert(q < count) by (nonlinear_arith)
        requires
            x == size * q + r,
            0 <= r,
            x < count * size,
            size > 0,
    ;
}

/// A chunk coordinate and an offset within the chunk give back both when
/// the world coordinate made of them is split.
proof fn lemma_join(q: int, r: int, size: int, count: int)
    requires
        0 <= q < count,
        0 <= r < size,
    ensures
        0 <= q * size + r < count * size,
        (q * size + r) / size == q,
        (q * size + r) % size == r,
{
    let x = q * size + r;
    assert(0 <= q * size) by (nonlinear_arith)
        requires
            0 <= q,
            0 < size,
    ;
    assert(q * size + size <= count * size) by (nonlinear_arith)
        requires
            q + 1 <= count,
            0 < size,
    ;
    assert(x == size * q + r) by (nonlinear_arith)
        requires
            x == q * size + r,
    ;
    vstd::arithmetic::div_mod::lemma_fundamental_div_mod_converse(x, size, q, r);
}

impl Terrain {
    pub open spec fn size_x(&self) -> int {
        self.shape.dx() * self.chunk_size
    }

    pub open spec fn size_y(&self) -> int {
        self.shape.dy() * self.chunk_size
    }

    pub open spec fn size_z(&self) -> int {
        self.shape.dz() * self.chunk_size
    }

    /// Number of voxels of one chunk.
    pub open spec fn chunk_volume(&self) -> int {
        self.chunk_shape.volume()
    }

    /// The chunks are cubes of `chunk_size`, there is one buffer for each
    /// cell of `shape`, and world coordinates fit in 31 bits.
    pub open spec fn wf(&self) -> bool {
        &&& self.shape.wf()
        &&& self.chunk_shape.wf()
        &&& self.chunk_shape.dx() == self.chunk_size
        &&& self.chunk_shape.dy() == self.chunk_size
        &&& self.chunk_shape.dz() == self.chunk_size
        &&& self.chunk_count == self.shape.volume()
        &&& self.chunks@.len() == self.chunk_count
        &&& forall|c: int|
            0 <= c < self.chunks@.len() ==> (#[trigger] self.chunks@[c]).blocks@.len()
                == self.chunk_shape.volume()
        &&& self.size_x() <= i32::MAX
        &&& self.size_y() <= i32::MAX
        &&& self.size_z() <= i32::MAX
    }

    /// The world has a chunk `c` with a voxel `b`.
    pub open spec fn has_block(&self, c: int, b: int) -> bool {
        0 <= c < self.chunk_count && 0 <= b < self.chunk_volume()
    }

    pub open spec fn in_bounds(&self, x: int, y: int, z: int) -> bool {
        0 <= x < self.size_x() && 0 <= y < self.size_y() && 0 <= z < self.size_z()
    }

    /// Number of the chunk that holds the voxel at world coordinates.
    pub open spec fn chunk_of(&self, x: int, y: int, z: int) -> int {
        self.shape.index_of(
            x / (self.chunk_size as int),
            y / (self.chunk_size as int),
            z / (self.chunk_size as int),
        )
    }

    /// Number within its chunk of the voxel at world coordinates.
    pub open spec fn block_of(&self, x: int, y: int, z: int) -> int {
        self.chunk_shape.index_of(
            x % (self.chunk_size as int),
            y % (self.chunk_size as int),
            z % (self.chunk_size as int),
        )
    }

    /// Voxel `b` of chunk `c`.
    pub open spec fn block_at(&self, c: int, b: int) -> Block {
        self.chunks@[c].blocks@[b]
    }

    /// The voxel at world coordinates; the out-of-bounds voxel outside.
    pub open spec fn voxel(&self, x: int, y: int, z: int) -> Block {
        if self.in_bounds(x, y, z) {
            self.block_at(self.chunk_of(x, y, z), self.block_of(x, y, z))
        } else {
            Block::spec_oob()
        }
    }

    /// Row-major number of a voxel among all voxels of the world.
    pub open spec fn key_of(&self, x: int, y: int, z: int) -> int {
        box_index(self.size_x(), self.size_y(), x, y, z)
    }

    /// The same world with other voxels.
    pub open spec fn same_layout(&self, other: &Terrain) -> bool {
        &&& self.shape == other.shape
        &&& self.chunk_shape == other.chunk_shape
        &&& self.chunk_size == other.chunk_size
        &&& self.chunk_count == other.chunk_count
        &&& self.chunks@.len() == other.chunks@.len()
    }

    /// The same world, but voxels may have other owners.
    pub open spec fn same_but_owners(&self, other: &Terrain) -> bool {
        &&& self.same_layout(other)
        &&& forall|c: int, b: int|
            other.has_block(c, b) ==> #[trigger] self.block_at(c, b) == (Block {
                partition_id: self.block_at(c, b).partition_id,
                ..other.block_at(c, b)
            })
    }

    /// A voxel inside the world has a chunk and a number in it, and its key
    /// fits in 64 bits.
    pub proof fn lemma_in_bounds(&self, x: int, y: int, z: int)
        requires
            self.wf(),
            self.in_bounds(x, y, z),
        ensures
            self.has_block(self.chunk_of(x, y, z), self.block_of(x, y, z)),
            0 <= self.key_of(x, y, z) <= u64::MAX,
    {
        let size = self.chunk_size as int;
        lemma_split(x, size, self.shape.dx());
        lemma_split(y, size, self.shape.dy());
        lemma_split(z, size, self.shape.dz());
        lemma_index_in_range(
            self.shape.dx(),
            self.shape.dy(),
            self.shape.dz(),
            x / size,
            y / size,
            z / size,
        );
        lemma_index_in_range(size, size, size, x % size, y % size, z % size);
        lemma_index_in_range(self.size_x(), self.size_y(), self.size_z(), x, y, z);
        let sx = self.size_x();
        let sy = self.size_y();
        let sz = self.size_z();
        assert(sx * sy * sz <= 0x7fff_ffff * 0x7fff_ffff * 0x7fff_ffff) by (nonlinear_arith)
            requires
                0 < sx <= 0x7fff_ffff,
                0 < sy <= 0x7fff_ffff,
                0 < sz <= 0x7fff_ffff,
        ;
        assert(sx * sy * sz == (self.shape.dx() * self.shape.dy() * self.shape.dz()) * (size * size
            * size)) by (nonlinear_arith)
            requires
                sx == self.shape.dx() * size,
                sy == self.shape.dy() * size,
                sz == self.shape.dz() * size,
        ;
        assert((self.shape.dx() * self.shape.dy() * self.shape.dz()) * (size * size * size)
            <= 0xffff_ffff * 0xffff_ffff) by (nonlinear_arith)
            requires
                0 <= self.shape.dx() * self.shape.dy() * self.shape.dz() <= 0xffff_ffff,
                0 <= size * size * size <= 0xffff_ffff,
        ;
    }

    /// A world of `chunks[0]` by `chunks[1]` by `chunks[2]` chunks, each a cube
    /// of `chunk_size` untouched empty voxels, if such a world can be
    /// numbered: no extent is zero, the chunks and the voxels of a chunk can
    /// each be counted in 32 bits, and world coordinates fit in 31 bits.
    pub fn new(chunks: [u32; 3], chunk_size: u32) -> (r: Option<Terrain>)
        ensures
            r matches Some(t) ==> {
                &&& t.wf()
                &&& t.shape.dx() == chunks[0]
                &&& t.shape.dy() == chunks[1]
                &&& t.shape.dz() == chunks[2]
                &&& t.chunk_size == chunk_size
                &&& forall|c: int, b: int|
                    t.has_block(c, b) ==> #[trigger] t.block_at(c, b) == Block::spec_default()
            },
            r is Some <==> {
                &&& box_fits(chunks[0] as int, chunks[1] as int, chunks[2] as int)
                &&& box_fits(chunk_size as int, chunk_size as int, chunk_size as int)
                &&& chunks[0] * chunk_size <= i32::MAX
                &&& chunks[1] * chunk_size <= i32::MAX
                &&& chunks[2] * chunk_size <= i32::MAX
            },
    {
        let shape = match GridShape::new(chunks) {
            Some(s) => s,
            None => {
                return None;
            },
        };
        let chunk_shape = match GridShape::new([chunk_size, chunk_size, chunk_size]) {
            Some(s) => s,
            None => {
                return None;
            },
        };
        let limit: u64 = 0x7fff_ffff;
        assert(chunks[0] * chunk_size <= 0xffff_ffff * 0xffff_ffff && chunks[1] * chunk_size
            <= 0xffff_ffff * 0xffff_ffff && chunks[2] * chunk_size <= 0xffff_ffff * 0xffff_ffff)
            by (nonlinear_arith)
            requires
                chunks[0] <= 0xffff_ffff,
                chunks[1] <= 0xffff_ffff,
                chunks[2] <= 0xffff_ffff,
                chunk_size <= 0xffff_ffff,
        ;
        if (chunks[0] as u64) * (chunk_size as u64) > limit || (chunks[1] as u64) * (
        chunk_size as u64) > limit || (chunks[2] as u64) * (chunk_size as u64) > limit {
            return None;
        }
        let chunk_count = shape.size();
        let mut buffers: Vec<BlockBuffer> = Vec::new();
        let mut c: u32 = 0;
        while c < chunk_count
            invariant
                c <= chunk_count,
                chunk_shape.wf(),
                buffers@.len() == c,
                forall|i: int|
                    0 <= i < buffers@.len() ==> (#[trigger] buffers@[i]).blocks@.len()
                        == chunk_shape.volume(),
                forall|i: int, b: int|
                    0 <= i < buffers@.len() && 0 <= b < chunk_shape.volume() ==> #[trigger] buffers@[i].blocks@[b]
                        == Block::spec_default(),
            decreases chunk_count - c,
        {
            let mut buffer = BlockBuffer::new(chunk_shape);
            buffer.chunk_idx = c;
            buffer.chunk_size = chunk_size;
            buffers.push(buffer);
            c += 1;
        }
        Some(Terrain { shape, chunk_shape, chunk_size, chunk_count, chunks: buffers })
    }

    pub fn world_size_x(&self) -> (n: u32)
        requires
            self.wf(),
        ensures
            n == self.size_x(),
    {
        self.shape.dims()[0] * self.chunk_size
    }

    pub fn world_size_y(&self) -> (n: u32)
        requires
            self.wf(),
        ensures
            n == self.size_y(),
    {
        self.shape.dims()[1] * self.chunk_size
    }

    pub fn world_size_z(&self) -> (n: u32)
        requires
            self.wf(),
        ensures
            n == self.size_z(),
    {
        self.shape.dims()[2] * self.chunk_size
    }

    /// Whether the coordinates lie outside the world.
    pub fn is_oob(&self, x: i32, y: i32, z: i32) -> (b: bool)
        requires
            self.wf(),
        ensures
            b == !self.in_bounds(x as int, y as int, z as int),
    {
        x < 0 || y < 0 || z < 0 || (x as u32) >= self.world_size_x() || (y as u32)
            >= self.world_size_y() || (z as u32) >= self.world_size_z()
    }

    /// The chunk of a voxel of the world and the voxel's number in it.
    pub fn get_block_indexes(&self, x: u32, y: u32, z: u32) -> (r: [u32; 2])
        requires
            self.wf(),
            self.in_bounds(x as int, y as int, z as int),
        ensures
            r[0] == self.chunk_of(x as int, y as int, z as int),
            r[1] == self.block_of(x as int, y as int, z as int),
            self.has_block(r[0] as int, r[1] as int),
    {
        let size = self.chunk_size;
        proof {
            self.lemma_in_bounds(x as int, y as int, z as int);
            lemma_split(x as int, size as int, self.shape.dx());
            lemma_split(y as int, size as int, self.shape.dy());
            lemma_split(z as int, size as int, self.shape.dz());
        }
        let chunk_idx = self.shape.linearize([x / size, y / size, z / size]);
        let block_idx = self.chunk_shape.linearize([x % size, y % size, z % size]);
        [chunk_idx, block_idx]
    }

    /// World coordinates of voxel `block_idx` of chunk `chunk_idx`.
    pub fn get_block_world_pos(&self, chunk_idx: u32, block_idx: u32) -> (p: [u32; 3])
        requires
            self.wf(),
            self.has_block(chunk_idx as int, block_idx as int),
        ensures
            self.in_bounds(p[0] as int, p[1] as int, p[2] as int),
            self.chunk_of(p[0] as int, p[1] as int, p[2] as int) == chunk_idx,
            self.block_of(p[0] as int, p[1] as int, p[2] as int) == block_idx,
    {
        let size = self.chunk_size;
        let chunk_pos = self.shape.delinearize(chunk_idx);
        let local = self.chunk_shape.delinearize(block_idx);
        proof {
            lemma_join(chunk_pos[0] as int, local[0] as int, size as int, self.shape.dx());
            lemma_join(chunk_pos[1] as int, local[1] as int, size as int, self.shape.dy());
            lemma_join(chunk_pos[2] as int, local[2] as int, size as int, self.shape.dz());
        }
        [
            chunk_pos[0] * size + local[0],
            chunk_pos[1] * size + local[1],
            chunk_pos[2] * size + local[2],
        ]
    }

    /// Row-major number of a voxel among all voxels of the world.
    pub fn voxel_key(&self, x: u32, y: u32, z: u32) -> (k: u64)
        requires
            self.wf(),
            self.in_bounds(x as int, y as int, z as int),
        ensures
            k == self.key_of(x as int, y as int, z as int),
    {
        let sx = self.world_size_x() as u64;
        let sy = self.world_size_y() as u64;
        proof {
            self.lemma_in_bounds(x as int, y as int, z as int);
            let a = self.size_x();
            let b = self.size_y();
            assert(0 <= a * y <= a * b) by (nonlinear_arith)
                requires
                    0 <= y < b,
                    0 < a,
            ;
            assert(a * b <= 0x7fff_ffff * 0x7fff_ffff) by (nonlinear_arith)
                requires
                    0 < a <= 0x7fff_ffff,
                    0 < b <= 0x7fff_ffff,
            ;
            assert(0 <= (a * b) * z) by (nonlinear_arith)
                requires
                    0 <= z,
                    0 <= a * b,
            ;
        }
        (x as u64) + sx * (y as u64) + (sx * sy) * (z as u64)
    }

    pub fn get_chunk(&self, chunk_idx: u32) -> (r: Option<&BlockBuffer>)
        ensures
            r matches Some(buffer) ==> chunk_idx < self.chunks@.len() && *buffer
                == self.chunks@[chunk_idx as int],
            r is Some <==> chunk_idx < self.chunks@.len(),
    {
        if (chunk_idx as usize) < self.chunks.len() {
            Some(&self.chunks[chunk_idx as usize])
        } else {
            None
        }
    }

    /// Voxel `block_idx` of chunk `chunk_idx`, or the out-of-bounds voxel.
    pub fn get_block_by_idx(&self, chunk_idx: u32, block_idx: u32) -> (b: Block)
        requires
            self.wf(),
        ensures
            b == if self.has_block(chunk_idx as int, block_idx as int) {
                self.block_at(chunk_idx as int, block_idx as int)
            } else {
                Block::spec_oob()
            },
    {
        if (chunk_idx as usize) < self.chunks.len() {
            self.chunks[chunk_idx as usize].get_block(block_idx)
        } else {
            Block::oob()
        }
    }

    /// The voxel at world coordinates, or the out-of-bounds voxel.
    pub fn get_block_i32(&self, x: i32, y: i32, z: i32) -> (b: Block)
        requires
            self.wf(),
        ensures
            b == self.voxel(x as int, y as int, z as int),
    {
        if self.is_oob(x, y, z) {
            return Block::oob();
        }
        let at = self.get_block_indexes(x as u32, y as u32, z as u32);
        self.get_block_by_idx(at[0], at[1])
    }

    /// A walker can stand in the voxel: it is empty, the voxel above it is
    /// empty, and the voxel below it is solid.
    pub open spec fn spec_walkable(&self, x: int, y: int, z: int) -> bool {
        &&& self.voxel(x, y, z).spec_is_empty()
        &&& self.voxel(x, y + 1, z).spec_is_empty()
        &&& self.voxel(x, y - 1, z).spec_is_filled()
    }

    /// Whether a walker can stand in the voxel at world coordinates.
    pub fn walkable(&self, x: u32, y: u32, z: u32) -> (b: bool)
        requires
            self.wf(),
        ensures
            b == self.spec_walkable(x as int, y as int, z as int),
    {
        if !self.get_block(x, y, z).is_empty() {
            return false;
        }
        if y == 0 {
            return false;
        }
        if !self.get_block(x, y + 1, z).is_empty() {
            return false;
        }
        self.get_block(x, y - 1, z).is_filled()
    }

    /// The voxel at world coordinates, or the out-of-bounds voxel.
    pub fn get_block(&self, x: u32, y: u32, z: u32) -> (b: Block)
        requires
            self.wf(),
        ensures
            b == self.voxel(x as int, y as int, z as int),
    {
        if x >= self.world_size_x() || y >= self.world_size_y() || z >= self.world_size_z() {
            return Block::oob();
        }
        let at = self.get_block_indexes(x, y, z);
        self.get_block_by_idx(at[0], at[1])
    }

    /// The partition that owns voxel `block_idx` of chunk `chunk_idx`.
    pub fn get_partition_id(&self, chunk_idx: u32, block_idx: u32) -> (id: Option<u32>)
        requires
            self.wf(),
        ensures
            id == if self.has_block(chunk_idx as int, block_idx as int) {
                self.block_at(chunk_idx as int, block_idx as int).partition_id
            } else {
                None
            },
    {
        self.get_block_by_idx(chunk_idx, block_idx).partition_id
    }

    /// The partition that owns the voxel at world coordinates.
    pub fn get_partition_id_u32(&self, x: u32, y: u32, z: u32) -> (id: Option<u32>)
        requires
            self.wf(),
        ensures
            id == self.voxel(x as int, y as int, z as int).partition_id,
    {
        self.get_block(x, y, z).partition_id
    }

    /// Makes partition `value` the owner of voxel `block_idx` of chunk
    /// `chunk_idx`.
    pub fn set_partition_id(&mut self, chunk_idx: u32, block_idx: u32, value: u32)
        requires
            old(self).wf(),
            old(self).has_block(chunk_idx as int, block_idx as int),
        ensures
            final(self).wf(),
            final(self).same_but_owners(old(self)),
            forall|c: int, b: int|
                old(self).has_block(c, b) ==> #[trigger] final(self).block_at(c, b).partition_id
                    == if c == chunk_idx && b == block_idx {
                    Some(value)
                } else {
                    old(self).block_at(c, b).partition_id
                },
    {
        self.chunks[chunk_idx as usize].set_partition_id(block_idx, value);
    }

    /// Leaves voxel `block_idx` of chunk `chunk_idx` without an owner.
    pub fn unset_partition_id(&mut self, chunk_idx: u32, block_idx: u32)
        requires
            old(self).wf(),
            old(self).has_block(chunk_idx as int, block_idx as int),
        ensures
            final(self).wf(),
            final(self).same_but_owners(old(self)),
            forall|c: int, b: int|
                old(self).has_block(c, b) ==> #[trigger] final(self).block_at(c, b).partition_id
                    == if c == chunk_idx && b == block_idx {
                    None
                } else {
                    old(self).block_at(c, b).partition_id
                },
    {
        self.chunks[chunk_idx as usize].unset_partition_id(block_idx);
    }

    /// The mask of movement that the voxel at world coordinates supports;
    /// empty outside the world.
    pub fn get_flags(&self, x: i32, y: i32, z: i32) -> (f: PartitionFlags)
        requires
            self.wf(),
        ensures
            f == self.voxel(x as int, y as int, z as int).flags,
    {
        self.get_block_i32(x, y, z).flags
    }

    /// Sets the mask of movement that a voxel of the world supports. The
    /// voxel keeps its owner until its chunk is partitioned again.
    pub fn set_flags(&mut self, x: u32, y: u32, z: u32, value: PartitionFlags)
        requires
            old(self).wf(),
            old(self).in_bounds(x as int, y as int, z as int),
        ensures
            final(self).wf(),
            final(self).same_layout(old(self)),
            forall|c: int, b: int|
                old(self).has_block(c, b) ==> #[trigger] final(self).block_at(c, b) == if c
                    == old(self).chunk_of(x as int, y as int, z as int) && b == old(self).block_of(
                    x as int,
                    y as int,
                    z as int,
                ) {
                    Block { flags: value, ..old(self).block_at(c, b) }
                } else {
                    old(self).block_at(c, b)
                },
    {
        let at = self.get_block_indexes(x, y, z);
        self.chunks[at[0] as usize].set_flags(at[1], value);
    }

    /// Sets the material of a voxel of the world and marks its chunk dirty.
    pub fn set_block_type(&mut self, x: u32, y: u32, z: u32, value: BlockType)
        requires
            old(self).wf(),
            old(self).in_bounds(x as int, y as int, z as int),
        ensures
            final(self).wf(),
            final(self).same_layout(old(self)),
            forall|c: int, b: int|
                old(self).has_block(c, b) ==> #[trigger] final(self).block_at(c, b) == if c
                    == old(self).chunk_of(x as int, y as int, z as int) && b == old(self).block_of(
                    x as int,
                    y as int,
                    z as int,
                ) {
                    Block { block: value, ..old(self).block_at(c, b) }
                } else {
                    old(self).block_at(c, b)
                },
    {
        let at = self.get_block_indexes(x, y, z);
        self.chunks[at[0] as usize].set_block_type(at[1], value);
    }
}

/// The mask of movement that the voxel at world coordinates supports; empty
/// outside the world.
pub fn get_block_flags(terrain: &Terrain, x: i32, y: i32, z: i32) -> (f: PartitionFlags)
    requires
        terrain.wf(),
    ensures
        f == terrain.voxel(x as int, y as int, z as int).flags,
{
    terrain.get_flags(x, y, z)
}

} // verus!
