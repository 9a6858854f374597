//! Hierarchical navigation over a voxel world.
//!
//! The world is cut into cubic chunks of voxels. Each voxel carries a mask of
//! the kinds of movement it supports. The voxels of a chunk are grouped into
//! partitions of equal mask, partitions into regions, and adjacency between
//! partitions forms a small graph. A path is planned first over that graph and
//! then, leg by leg, over the voxels themselves.
pub mod block;
pub mod borders;
pub mod chunk;
pub mod components;
pub mod debug;
pub mod distance;
pub mod error;
pub mod extents;
pub mod flags;
pub mod graph;
pub mod idset;
pub mod inventory;
pub mod meshing;
pub mod partitioner;
pub mod pathfinding;
pub mod pieces;
pub mod search;
pub mod shape;
pub mod spaces;
pub mod tasks;
pub mod terrain;
pub mod walker;

