//! A look into the graph for whoever wants to draw it.
use crate::graph::linked;
use crate::graph::PartitionGraph;
use crate::terrain::Terrain;
use vstd::prelude::*;

verus! {

/// Which partition is to be shown, and whether any is.
#[derive(Clone, Copy, Debug)]
pub struct PartitionDebug {
    pub id: u32,
    pub show: bool,
}

impl Default for PartitionDebug {
    fn default() -> (d: PartitionDebug)
        ensures
            d.id == 0,
            !d.show,
    {
        PartitionDebug { id: 0, show: false }
    }
}

/// The world coordinates of the voxels of the partition that is to be
/// shown, in the order of the partition's list; nothing where nothing is to
/// be shown or the partition does not exist.
pub fn partition_debug(terrain: &Terrain, graph: &PartitionGraph, debug: &PartitionDebug) -> (r: Vec<
    [u32; 3],
>)
    requires
        terrain.wf(),
        graph.wf(),
        linked(terrain, graph@),
    ensures
        !debug.show || !graph@.partitions.contains_key(debug.id) ==> r@.len() == 0,
        debug.show && graph@.partitions.contains_key(debug.id) ==> {
            let p = graph@.partitions[debug.id];
            &&& r@.len() == p.blocks.len()
            &&& forall|i: int|
                0 <= i < r@.len() ==> {
                    let v = #[trigger] r@[i];
                    &&& terrain.in_bounds(v[0] as int, v[1] as int, v[2] as int)
                    &&& terrain.chunk_of(v[0] as int, v[1] as int, v[2] as int) == p.chunk_idx
                    &&& terrain.block_of(v[0] as int, v[1] as int, v[2] as int) == p.blocks[i]
                }
        },
{
    let mut r: Vec<[u32; 3]> = Vec::new();
    if !debug.show {
        return r;
    }
    match graph.get_partition(debug.id) {
        Some(p) => {
            let mut i: usize = 0;
            while i < p.blocks.len()
                invariant
                    terrain.wf(),
                    linked(terrain, graph@),
                    graph@.partitions.contains_key(debug.id),
                    p@ == graph@.partitions[debug.id],
                    i <= p.blocks.len(),
                    r@.len() == i,
                    forall|k: int|
                        0 <= k < i ==> {
                            let v = #[trigger] r@[k];
                            &&& terrain.in_bounds(v[0] as int, v[1] as int, v[2] as int)
                            &&& terrain.chunk_of(v[0] as int, v[1] as int, v[2] as int) == p.chunk_idx
                            &&& terrain.block_of(v[0] as int, v[1] as int, v[2] as int) == p.blocks@[k]
                        },
                decreases p.blocks.len() - i,
            {
                proof {
                    assert(terrain.has_block(
                        graph@.partitions[debug.id].chunk_idx as int,
                        graph@.partitions[debug.id].blocks[i as int] as int,
                    ));
                }
                let pos = terrain.get_block_world_pos(p.chunk_idx, p.blocks[i]);
                r.push(pos);
                i += 1;
            }
        },
        None => {},
    }
    r
}

} // verus!
