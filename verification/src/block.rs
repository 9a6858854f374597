//! One voxel of the world.
use crate::flags::PartitionFlags;
use vstd::prelude::*;

verus! {

/// What a voxel is made of.
#[derive(Clone, Copy, Debug, PartialEq, Eq, Structural)]
pub enum BlockType {
    /// Stands for every voxel outside the world.
    Oob,
    Empty,
    Dirt,
    Grass,
    Stone,
    Magma,
}

/// A voxel: its material, the movement it supports, the partition that owns
/// it, and what is drawn and planned on it.
#[derive(Clone, Copy, Debug)]
pub struct Block {
    pub block: BlockType,
    /// The kinds of movement the voxel supports; empty where nothing can stand.
    pub flags: PartitionFlags,
    /// The partition that owns the voxel, once one does.
    pub partition_id: Option<u32>,
    pub flag_blueprint: bool,
    pub flag_mine: bool,
    pub sunlight: u8,
    pub light: u8,
}

impl Block {
    /// An empty voxel that nothing has touched yet.
    pub open spec fn spec_default() -> Block {
        Block {
            block: BlockType::Empty,
            flags: PartitionFlags { bits: 0 },
            partition_id: None,
            flag_blueprint: false,
            flag_mine: false,
            sunlight: 0,
            light: 0,
        }
    }

    /// The voxel that stands for everything outside the world.
    pub open spec fn spec_oob() -> Block {
        Block {
            block: BlockType::Oob,
            flags: PartitionFlags { bits: 0 },
            partition_id: None,
            flag_blueprint: false,
            flag_mine: false,
            sunlight: 0,
            light: 0,
        }
    }

    pub fn oob() -> (b: Block)
        ensures
            b == Block::spec_oob(),
    {
        Block {
            block: BlockType::Oob,
            flags: PartitionFlags::none(),
            partition_id: None,
            flag_blueprint: false,
            flag_mine: false,
            sunlight: 0,
            light: 0,
        }
    }

    pub open spec fn spec_is_filled(&self) -> bool {
        self.block == BlockType::Dirt || self.block == BlockType::Grass || self.block
            == BlockType::Stone || self.block == BlockType::Magma
    }

    pub open spec fn spec_is_empty(&self) -> bool {
        self.block == BlockType::Empty
    }

    /// The voxel is solid matter.
    #[verifier::when_used_as_spec(spec_is_filled)]
    pub fn is_filled(&self) -> (b: bool)
        ensures
            b == self.spec_is_filled(),
    {
        match self.block {
            BlockType::Dirt | BlockType::Grass | BlockType::Stone | BlockType::Magma => true,
            _ => false,
        }
    }

    /// The voxel is inside the world and holds no matter.
    #[verifier::when_used_as_spec(spec_is_empty)]
    pub fn is_empty(&self) -> (b: bool)
        ensures
            b == self.spec_is_empty(),
    {
        match self.block {
            BlockType::Empty => true,
            _ => false,
        }
    }

    pub fn is_oob(&self) -> (b: bool)
        ensures
            b == (self.block == BlockType::Oob),
    {
        match self.block {
            BlockType::Oob => true,
            _ => false,
        }
    }
}

impl Default for Block {
    fn default() -> (b: Block)
        ensures
            b == Block::spec_default(),
    {
        Block {
            block: BlockType::Empty,
            flags: PartitionFlags::none(),
            partition_id: None,
            flag_blueprint: false,
            flag_mine: false,
            sunlight: 0,
            light: 0,
        }
    }
}

} // verus!
