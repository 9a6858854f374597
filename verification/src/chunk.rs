//! The voxels of one chunk, and the names of a voxel's 26 neighbours.
use crate::block::Block;
use crate::block::BlockType;
use crate::flags::PartitionFlags;
use crate::shape::GridShape;
use vstd::prelude::*;

verus! {

/// The voxels of one chunk, numbered row-major by `shape`.
#[derive(Clone, Debug)]
pub struct BlockBuffer {
    pub shape: GridShape,
    pub blocks: Vec<Block>,
    pub block_count: u32,
    pub chunk_idx: u32,
    pub chunk_size: u32,
    pub world_x: u32,
    pub world_y: u32,
    pub world_z: u32,
    /// Something drawn has changed since the chunk was last meshed.
    pub is_dirty: bool,
}

impl BlockBuffer {
    /// There is one voxel for each cell of the shape.
    pub open spec fn wf(&self) -> bool {
        &&& self.shape.wf()
        &&& self.blocks@.len() == self.shape.volume()
        &&& self.block_count == self.shape.volume()
    }

    /// The buffer as it was but for the voxels.
    pub open spec fn same_frame(&self, other: &BlockBuffer) -> bool {
        &&& self.shape == other.shape
        &&& self.block_count == other.block_count
        &&& self.chunk_idx == other.chunk_idx
        &&& self.chunk_size == other.chunk_size
        &&& self.world_x == other.world_x
        &&& self.world_y == other.world_y
        &&& self.world_z == other.world_z
        &&& self.blocks@.len() == other.blocks@.len()
    }

    /// A buffer of untouched empty voxels, one for each cell of the shape.
    pub fn new(shape: GridShape) -> (buffer: BlockBuffer)
        requires
            shape.wf(),
        ensures
            buffer.wf(),
            buffer.shape == shape,
            buffer.chunk_idx == 0,
            buffer.chunk_size == 0,
            buffer.world_x == 0,
            buffer.world_y == 0,
            buffer.world_z == 0,
            buffer.is_dirty,
            forall|i: int| 0 <= i < buffer.blocks@.len() ==> buffer.blocks@[i] == Block::spec_default(),
    {
        let count = shape.size();
        let mut blocks: Vec<Block> = Vec::new();
        let mut i: u32 = 0;
        while i < count
            invariant
                i <= count,
                blocks@.len() == i,
                forall|j: int| 0 <= j < blocks@.len() ==> blocks@[j] == Block::spec_default(),
            decreases count - i,
        {
            blocks.push(Block::default());
            i += 1;
        }
        BlockBuffer {
            blocks,
            block_count: count,
            shape,
            chunk_idx: 0,
            chunk_size: 0,
            world_x: 0,
            world_y: 0,
            world_z: 0,
            is_dirty: true,
        }
    }

    pub fn set_block_type(&mut self, block_idx: u32, value: BlockType)
        requires
            block_idx < old(self).blocks@.len(),
        ensures
            final(self).same_frame(old(self)),
            final(self).is_dirty,
            final(self).blocks@ == old(self).blocks@.update(
                block_idx as int,
                Block { block: value, ..old(self).blocks@[block_idx as int] },
            ),
    {
        let held = self.blocks[block_idx as usize];
        self.blocks.set(block_idx as usize, Block { block: value, ..held });
        self.is_dirty = true;
    }

    /// The voxel with the given number, or the out-of-bounds voxel.
    pub fn get_block(&self, block_idx: u32) -> (b: Block)
        ensures
            b == if block_idx < self.blocks@.len() {
                self.blocks@[block_idx as int]
            } else {
                Block::spec_oob()
            },
    {
        if (block_idx as usize) < self.blocks.len() {
            return self.blocks[block_idx as usize];
        }
        Block::oob()
    }

    /// Sets the mask of movement that the voxel supports.
    pub fn set_flags(&mut self, block_idx: u32, value: PartitionFlags)
        requires
            block_idx < old(self).blocks@.len(),
        ensures
            final(self).same_frame(old(self)),
            final(self).is_dirty == old(self).is_dirty,
            final(self).blocks@ == old(self).blocks@.update(
                block_idx as int,
                Block { flags: value, ..old(self).blocks@[block_idx as int] },
            ),
    {
        let held = self.blocks[block_idx as usize];
        self.blocks.set(block_idx as usize, Block { flags: value, ..held });
    }

    /// The mask of movement that the voxel supports; empty outside the buffer.
    pub fn get_flags(&self, block_idx: u32) -> (f: PartitionFlags)
        ensures
            f == if block_idx < self.blocks@.len() {
                self.blocks@[block_idx as int].flags
            } else {
                PartitionFlags { bits: 0 }
            },
    {
        self.get_block(block_idx).flags
    }

    pub fn set_partition_id(&mut self, block_idx: u32, value: u32)
        requires
            block_idx < old(self).blocks@.len(),
        ensures
            final(self).same_frame(old(self)),
            final(self).is_dirty == old(self).is_dirty,
            final(self).blocks@ == old(self).blocks@.update(
                block_idx as int,
                Block { partition_id: Some(value), ..old(self).blocks@[block_idx as int] },
            ),
    {
        let held = self.blocks[block_idx as usize];
        self.blocks.set(block_idx as usize, Block { partition_id: Some(value), ..held });
    }

    pub fn unset_partition_id(&mut self, block_idx: u32)
        requires
            block_idx < old(self).blocks@.len(),
        ensures
            final(self).same_frame(old(self)),
            final(self).is_dirty == old(self).is_dirty,
            final(self).blocks@ == old(self).blocks@.update(
                block_idx as int,
                Block { partition_id: None, ..old(self).blocks@[block_idx as int] },
            ),
    {
        let held = self.blocks[block_idx as usize];
        self.blocks.set(block_idx as usize, Block { partition_id: None, ..held });
    }

    /// The partition that owns the voxel; none outside the buffer.
    pub fn get_partition_id(&self, block_idx: u32) -> (id: Option<u32>)
        ensures
            id == if block_idx < self.blocks@.len() {
                self.blocks@[block_idx as int].partition_id
            } else {
                None
            },
    {
        if (block_idx as usize) < self.blocks.len() {
            return self.blocks[block_idx as usize].partition_id;
        }
        None
    }

    pub fn get_sunlight(&self, block_idx: u32) -> (v: u8)
        ensures
            v == if block_idx < self.blocks@.len() {
                self.blocks@[block_idx as int].sunlight
            } else {
                0
            },
    {
        self.get_block(block_idx).sunlight
    }

    pub fn get_torchlight(&self, block_idx: u32) -> (v: u8)
        ensures
            v == if block_idx < self.blocks@.len() {
                self.blocks@[block_idx as int].light
            } else {
                0
            },
    {
        self.get_block(block_idx).light
    }

    /// Marks or unmarks the voxel as part of a blueprint. Says whether the
    /// mark changed; a change makes the buffer dirty.
    pub fn set_flag_blueprint(&mut self, block_idx: u32, value: bool) -> (is_changed: bool)
        requires
            block_idx < old(self).blocks@.len(),
        ensures
            is_changed == (old(self).blocks@[block_idx as int].flag_blueprint != value),
            final(self).same_frame(old(self)),
            final(self).is_dirty == (old(self).is_dirty || is_changed),
            final(self).blocks@ == old(self).blocks@.update(
                block_idx as int,
                Block { flag_blueprint: value, ..old(self).blocks@[block_idx as int] },
            ),
    {
        let held = self.blocks[block_idx as usize];
        let is_changed = held.flag_blueprint != value;
        self.blocks.set(block_idx as usize, Block { flag_blueprint: value, ..held });
        if is_changed {
            self.is_dirty = true;
        }
        is_changed
    }

    /// Marks or unmarks the voxel as one to be mined. Says whether the mark
    /// changed; a change makes the buffer dirty.
    pub fn set_flag_mine(&mut self, block_idx: u32, value: bool) -> (is_changed: bool)
        requires
            block_idx < old(self).blocks@.len(),
        ensures
            is_changed == (old(self).blocks@[block_idx as int].flag_mine != value),
            final(self).same_frame(old(self)),
            final(self).is_dirty == (old(self).is_dirty || is_changed),
            final(self).blocks@ == old(self).blocks@.update(
                block_idx as int,
                Block { flag_mine: value, ..old(self).blocks@[block_idx as int] },
            ),
    {
        let held = self.blocks[block_idx as usize];
        let is_changed = held.flag_mine != value;
        self.blocks.set(block_idx as usize, Block { flag_mine: value, ..held });
        if is_changed {
            self.is_dirty = true;
        }
        is_changed
    }

    pub fn set_sunlight(&mut self, block_idx: u32, value: u8)
        requires
            block_idx < old(self).blocks@.len(),
        ensures
            final(self).same_frame(old(self)),
            final(self).is_dirty,
            final(self).blocks@ == old(self).blocks@.update(
                block_idx as int,
                Block { sunlight: value, ..old(self).blocks@[block_idx as int] },
            ),
    {
        let held = self.blocks[block_idx as usize];
        self.blocks.set(block_idx as usize, Block { sunlight: value, ..held });
        self.is_dirty = true;
    }

    pub fn set_torchlight(&mut self, block_idx: u32, value: u8)
        requires
            block_idx < old(self).blocks@.len(),
        ensures
            final(self).same_frame(old(self)),
            final(self).is_dirty,
            final(self).blocks@ == old(self).blocks@.update(
                block_idx as int,
                Block { light: value, ..old(self).blocks@[block_idx as int] },
            ),
    {
        let held = self.blocks[block_idx as usize];
        self.blocks.set(block_idx as usize, Block { light: value, ..held });
        self.is_dirty = true;
    }
}

/// One of the 26 voxels around a voxel, by its place in a list of them. The
/// places have names: `Neighbor(Neighbor::ABOVE)` is the voxel above.
#[derive(Clone, Copy, Debug, PartialEq, Eq)]
pub struct Neighbor(pub u8);

impl Neighbor {
    pub const ABOVE_FORWARD_LEFT: u8 = 0;

    pub const ABOVE_FORWARD: u8 = 1;

    pub const ABOVE_FORWARD_RIGHT: u8 = 2;

    pub const ABOVE_LEFT: u8 = 3;

    pub const ABOVE: u8 = 4;

    pub const ABOVE_RIGHT: u8 = 5;

    pub const ABOVE_BEHIND_LEFT: u8 = 6;

    pub const ABOVE_BEHIND: u8 = 7;

    pub const ABOVE_BEHIND_RIGHT: u8 = 8;

    pub const FORWARD_LEFT: u8 = 9;

    pub const FORWARD: u8 = 10;

    pub const FORWARD_RIGHT: u8 = 11;

    pub const LEFT: u8 = 12;

    pub const RIGHT: u8 = 13;

    pub const BEHIND_LEFT: u8 = 14;

    pub const BEHIND: u8 = 15;

    pub const BEHIND_RIGHT: u8 = 16;

    pub const BELOW_FORWARD_LEFT: u8 = 17;

    pub const BELOW_FORWARD: u8 = 18;

    pub const BELOW_FORWARD_RIGHT: u8 = 19;

    pub const BELOW_LEFT: u8 = 20;

    pub const BELOW: u8 = 21;

    pub const BELOW_RIGHT: u8 = 22;

    pub const BELOW_BEHIND_LEFT: u8 = 23;

    pub const BELOW_BEHIND: u8 = 24;

    pub const BELOW_BEHIND_RIGHT: u8 = 25;

    /// The neighbour's place in a list of neighbours.
    pub fn idx(&self) -> (i: usize)
        ensures
            i == self.0,
    {
        self.0 as usize
    }
}

} // verus!
