//! Building the partitions of a chunk by flood fill.
//!
//! A chunk that has changed is partitioned anew: its partitions are removed,
//! and every voxel that supports some movement becomes the seed of a flood
//! over the voxels of its chunk and mask, unless an earlier flood has taken
//! it. Where a flood meets a voxel of another mask or another chunk it stops,
//! sees to it that the voxel has a partition, and records the two partitions
//! as neighbours. The six neighbours of a voxel are tried in a fixed order:
//! x up, x down, y up, y down, z up, z down.
use crate::borders::bordered;
use crate::borders::chunk_bordered;
use crate::borders::computed_bordered;
use crate::borders::flood_bordered;
use crate::borders::lemma_borders_aside;
use crate::borders::lemma_borders_cleared;
use crate::borders::lemma_borders_marked;
use crate::borders::lemma_chunk_bordered;
use crate::borders::lemma_flood_borders_aside;
use crate::borders::lemma_flood_borders_first;
use crate::borders::lemma_flood_borders_in;
use crate::borders::lemma_flood_borders_last;
use crate::components::alike;
use crate::components::in_chunk;
use crate::components::unmixed;
use crate::components::unsplit;
use crate::components::mask_at;
use crate::components::owner_at;
use crate::components::spot_of;
use crate::components::Spot;
use crate::error::NavError;
use crate::flags::PartitionFlags;
use crate::graph::linked;
use crate::graph::owners_replaced;
use crate::graph::regions_true;
use crate::graph::GraphView;
use crate::graph::Partition;
use crate::graph::PartitionGraph;
use crate::graph::PartitionView;
use crate::pieces::flooding;
use crate::pieces::lemma_flood_aside;
use crate::pieces::lemma_flood_first;
use crate::pieces::lemma_flood_in;
use crate::pieces::lemma_flood_last;
use crate::pieces::lemma_flood_marked;
use crate::pieces::lemma_scanning_aside;
use crate::pieces::lemma_scanning_cleared;
use crate::pieces::lemma_stable_trans;
use crate::pieces::lemma_unsplit;
use crate::pieces::scanning;
use crate::pieces::settled;
use crate::pieces::stable;
use crate::terrain::Terrain;
use vstd::prelude::*;

verus! {

/// Where an occupant of the world stands, by the partition that owns its
/// voxel.
#[derive(Clone, Copy, Debug, PartialEq, Eq)]
pub struct InPartition {
    pub partition_id: u32,
}

/// The graph has no number left for a new partition or region.
#[derive(Clone, Copy, Debug, PartialEq, Eq, Structural)]
pub struct GraphFull;

/// Every owned voxel of chunk `c` supports some movement, and its owner has
/// the voxel's mask.
pub open spec fn chunk_sound(terrain: &Terrain, graph: GraphView, c: int) -> bool {
    forall|b: int|
        #![trigger terrain.block_at(c, b)]
        terrain.has_block(c, b) && terrain.block_at(c, b).partition_id is Some ==> {
            let p = terrain.block_at(c, b).partition_id->0;
            &&& graph.partitions.contains_key(p)
            &&& graph.partitions[p].flags == terrain.block_at(c, b).flags
            &&& !terrain.block_at(c, b).flags.spec_is_empty()
        }
}

/// Every voxel of chunk `c` that supports some movement has an owner.
pub open spec fn chunk_covered(terrain: &Terrain, c: int) -> bool {
    forall|b: int|
        #![trigger terrain.block_at(c, b)]
        terrain.has_block(c, b) && !terrain.block_at(c, b).flags.spec_is_empty() ==> terrain.block_at(
            c,
            b,
        ).partition_id is Some
}

/// Every voxel of chunk `c` that supports some movement has an owner that
/// is marked as computed and whose traversal distance is up to date.
pub open spec fn chunk_computed(terrain: &Terrain, graph: GraphView, c: int) -> bool {
    forall|j: int|
        #![trigger terrain.block_at(c, j)]
        terrain.has_block(c, j) && !terrain.block_at(c, j).flags.spec_is_empty() ==> {
            &&& terrain.block_at(c, j).partition_id is Some
            &&& graph.partitions.contains_key(terrain.block_at(c, j).partition_id->0)
            &&& graph.partitions[terrain.block_at(c, j).partition_id->0].is_computed
            &&& measured(graph.partitions[terrain.block_at(c, j).partition_id->0].extents)
        }
}

/// Every voxel that has an owner lies in the bounding box of its owner.
/// This is said of the voxels of chunk `c` where `scope` is `Some(c)`, and
/// of all voxels where it is `None`.
#[verifier::opaque]
pub open spec fn boxed(terrain: &Terrain, graph: GraphView, scope: Option<u32>) -> bool {
    forall|x: int, y: int, z: int|
        terrain.in_bounds(x, y, z) && (#[trigger] terrain.voxel(x, y, z)).partition_id is Some && (
        scope matches Some(c) ==> terrain.chunk_of(x, y, z) == c) ==> {
            let p = terrain.voxel(x, y, z).partition_id->0;
            graph.partitions.contains_key(p) && graph.partitions[p].extents.holds(x, y, z)
        }
}

/// Every partition that was there is still there, and its bounding box holds
/// what it held.
pub open spec fn boxes_kept(was: GraphView, now: GraphView, except: Option<u32>) -> bool {
    forall|q: u32| #[trigger]
        was.partitions.contains_key(q) && Some(q) != except ==> now.partitions.contains_key(q)
            && now.partitions[q].extents.covers(was.partitions[q].extents)
}

/// From `before` to `after`, no chunk has become unsound, no voxel has lost
/// its owner or left the bounding box of its owner, and no number was given
/// back.
pub open spec fn kept(
    before: &Terrain,
    was: &PartitionGraph,
    after: &Terrain,
    is: &PartitionGraph,
) -> bool {
    &&& after.same_but_owners(before)
    &&& forall|c: int| #[trigger] chunk_sound(before, was@, c) ==> chunk_sound(after, is@, c)
    &&& forall|c: int, b: int|
        before.has_block(c, b) && before.block_at(c, b).partition_id is Some ==> (
        #[trigger] after.block_at(c, b)).partition_id is Some
    &&& was.next_partition_id() <= is.next_partition_id()
    &&& was.next_region_id() <= is.next_region_id()
    &&& forall|scope: Option<u32>| #[trigger] boxed(before, was@, scope) ==> boxed(after, is@, scope)
    &&& numbered_on(was, is)
    &&& chunks_same(was@, is@)
    &&& regions_true(was@) ==> regions_true(is@)
}

/// Every partition that was there and still is belongs to the chunk it
/// belonged to.
pub open spec fn chunks_same(was: GraphView, now: GraphView) -> bool {
    forall|q: u32|
        #[trigger] now.partitions.contains_key(q) && was.partitions.contains_key(q)
            ==> now.partitions[q].chunk_idx == was.partitions[q].chunk_idx
}

/// The partitions of chunks other than `c` that have come since hold
/// nobody.
pub open spec fn newcomers_vacant(was: GraphView, now: GraphView, c: u32) -> bool {
    forall|q: u32|
        #[trigger] now.partitions.contains_key(q) && !was.partitions.contains_key(q)
            && now.partitions[q].chunk_idx != c ==> now.partitions[q].occupants == Set::<u64>::empty()
}

/// Every partition that is there now was there or has a number that was not
/// yet given.
pub open spec fn numbered_on(was: &PartitionGraph, is: &PartitionGraph) -> bool {
    forall|q: u32| #[trigger]
        is@.partitions.contains_key(q) ==> was@.partitions.contains_key(q) || q
            >= was.next_partition_id()
}

/// The traversal distance of the box is up to date.
pub open spec fn measured(e: crate::extents::Extents) -> bool {
    !e.is_stale && e.traversal_distance == e.spec_span()
}

/// Every computed partition of chunk `c` has an up-to-date traversal
/// distance.
pub open spec fn computed_measured(graph: GraphView, c: u32) -> bool {
    forall|q: u32| #[trigger]
        graph.partitions.contains_key(q) && graph.partitions[q].chunk_idx == c
            && graph.partitions[q].is_computed ==> measured(graph.partitions[q].extents)
}

/// One partition of every voxel: for a voxel of chunk `c` that supports
/// some movement, exactly one partition lists it, and that partition has
/// the voxel's mask.
pub proof fn lemma_one_owner(terrain: &Terrain, graph: GraphView, c: int, b: int)
    requires
        linked(terrain, graph),
        chunk_sound(terrain, graph, c),
        chunk_covered(terrain, c),
        terrain.has_block(c, b),
        !terrain.block_at(c, b).flags.spec_is_empty(),
    ensures
        terrain.block_at(c, b).partition_id is Some,
        ({
            let p = terrain.block_at(c, b).partition_id->0;
            &&& graph.partitions.contains_key(p)
            &&& graph.partitions[p].chunk_idx == c
            &&& graph.partitions[p].holds_block(b)
            &&& graph.partitions[p].flags == terrain.block_at(c, b).flags
            &&& forall|q: u32|
                graph.partitions.contains_key(q) && graph.partitions[q].chunk_idx == c
                    && #[trigger] graph.partitions[q].holds_block(b) ==> q == p
        }),
{
    let p = terrain.block_at(c, b).partition_id->0;
    assert forall|q: u32|
        graph.partitions.contains_key(q) && graph.partitions[q].chunk_idx == c
            && #[trigger] graph.partitions[q].holds_block(b) implies q == p by {
        let k = choose|k: int| 0 <= k < graph.partitions[q].blocks.len() && #[trigger] graph.partitions[q].blocks[k] == b;
        assert(terrain.block_at(
            graph.partitions[q].chunk_idx as int,
            graph.partitions[q].blocks[k] as int,
        ).partition_id == Some(q));
    }
}

/// One mask in every partition: the voxels that a partition of a sound
/// chunk lists all have the partition's mask.
pub proof fn lemma_uniform_mask(terrain: &Terrain, graph: GraphView, p: u32, i: int, j: int)
    requires
        linked(terrain, graph),
        graph.partitions.contains_key(p),
        chunk_sound(terrain, graph, graph.partitions[p].chunk_idx as int),
        0 <= i < graph.partitions[p].blocks.len(),
        0 <= j < graph.partitions[p].blocks.len(),
    ensures
        terrain.block_at(graph.partitions[p].chunk_idx as int, graph.partitions[p].blocks[i] as int).flags
            == graph.partitions[p].flags,
        terrain.block_at(graph.partitions[p].chunk_idx as int, graph.partitions[p].blocks[i] as int).flags
            == terrain.block_at(
            graph.partitions[p].chunk_idx as int,
            graph.partitions[p].blocks[j] as int,
        ).flags,
{
    let c = graph.partitions[p].chunk_idx as int;
    assert(terrain.block_at(c, graph.partitions[p].blocks[i] as int).partition_id == Some(p));
    assert(terrain.block_at(c, graph.partitions[p].blocks[j] as int).partition_id == Some(p));
}

/// A change of the graph alone that keeps every partition and its mask
/// keeps what `kept` asks for.
proof fn lemma_kept_graph(terrain: &Terrain, was: &PartitionGraph, is: &PartitionGraph)
    requires
        forall|p: u32| #[trigger]
            was@.partitions.contains_key(p) ==> is@.partitions.contains_key(p) && is@.partitions[p].flags
                == was@.partitions[p].flags,
        was.next_partition_id() <= is.next_partition_id(),
        was.next_region_id() <= is.next_region_id(),
        boxes_kept(was@, is@, None),
        numbered_on(was, is),
        chunks_same(was@, is@),
        regions_true(was@) ==> regions_true(is@),
    ensures
        kept(terrain, was, terrain, is),
{
    assert forall|scope: Option<u32>| #[trigger] boxed(terrain, was@, scope) implies boxed(
        terrain,
        is@,
        scope,
    ) by {
        reveal(boxed);
        assert forall|x: int, y: int, z: int|
            terrain.in_bounds(x, y, z) && (#[trigger] terrain.voxel(x, y, z)).partition_id is Some && (
            scope matches Some(sc) ==> terrain.chunk_of(x, y, z) == sc) implies {
            let p = terrain.voxel(x, y, z).partition_id->0;
            is@.partitions.contains_key(p) && is@.partitions[p].extents.holds(x, y, z)
        } by {
            let p = terrain.voxel(x, y, z).partition_id->0;
            assert(was@.partitions.contains_key(p));
        }
    }
    assert forall|c: int| #[trigger] chunk_sound(terrain, was@, c) implies chunk_sound(
        terrain,
        is@,
        c,
    ) by {
        assert forall|b: int|
            #![trigger terrain.block_at(c, b)]
            terrain.has_block(c, b) && terrain.block_at(c, b).partition_id is Some implies {
            let p = terrain.block_at(c, b).partition_id->0;
            &&& is@.partitions.contains_key(p)
            &&& is@.partitions[p].flags == terrain.block_at(c, b).flags
            &&& !terrain.block_at(c, b).flags.spec_is_empty()
        } by {
            let p = terrain.block_at(c, b).partition_id->0;
            assert(was@.partitions.contains_key(p));
        }
    }
}

/// Giving a voxel without owner to a partition of its mask keeps what
/// `kept` asks for.
proof fn lemma_kept_assign(
    before: &Terrain,
    was: &PartitionGraph,
    after: &Terrain,
    is: &PartitionGraph,
    c: int,
    b: int,
    p: u32,
    pos: [u32; 3],
)
    requires
        before.wf(),
        before.in_bounds(pos[0] as int, pos[1] as int, pos[2] as int),
        before.chunk_of(pos[0] as int, pos[1] as int, pos[2] as int) == c,
        before.block_of(pos[0] as int, pos[1] as int, pos[2] as int) == b,
        boxes_kept(was@, is@, None),
        is@.partitions[p].extents.holds(pos[0] as int, pos[1] as int, pos[2] as int),
        after.same_but_owners(before),
        crate::graph::owner_changed(before, after, c, b, Some(p)),
        forall|q: u32| #[trigger]
            was@.partitions.contains_key(q) ==> is@.partitions.contains_key(q) && is@.partitions[q].flags
                == was@.partitions[q].flags,
        is@.partitions.contains_key(p),
        is@.partitions[p].flags == before.block_at(c, b).flags,
        !before.block_at(c, b).flags.spec_is_empty(),
        was.next_partition_id() <= is.next_partition_id(),
        was.next_region_id() <= is.next_region_id(),
        numbered_on(was, is),
        chunks_same(was@, is@),
        regions_true(was@) ==> regions_true(is@),
    ensures
        kept(before, was, after, is),
{
    assert forall|scope: Option<u32>| #[trigger] boxed(before, was@, scope) implies boxed(
        after,
        is@,
        scope,
    ) by {
        reveal(boxed);
        assert forall|x: int, y: int, z: int|
            after.in_bounds(x, y, z) && (#[trigger] after.voxel(x, y, z)).partition_id is Some && (
            scope matches Some(sc) ==> after.chunk_of(x, y, z) == sc) implies {
            let q = after.voxel(x, y, z).partition_id->0;
            is@.partitions.contains_key(q) && is@.partitions[q].extents.holds(x, y, z)
        } by {
            before.lemma_in_bounds(x, y, z);
            let old_voxel = before.voxel(x, y, z);
            if before.chunk_of(x, y, z) == c && before.block_of(x, y, z) == b {
                crate::components::lemma_cell_injective(
                    before,
                    Spot { x, y, z },
                    Spot { x: pos[0] as int, y: pos[1] as int, z: pos[2] as int },
                );
            } else {
                let q = old_voxel.partition_id->0;
                assert(was@.partitions.contains_key(q));
            }
        }
    }
    assert forall|cc: int| #[trigger] chunk_sound(before, was@, cc) implies chunk_sound(
        after,
        is@,
        cc,
    ) by {
        assert forall|j: int|
            #![trigger after.block_at(cc, j)]
            after.has_block(cc, j) && after.block_at(cc, j).partition_id is Some implies {
            let q = after.block_at(cc, j).partition_id->0;
            &&& is@.partitions.contains_key(q)
            &&& is@.partitions[q].flags == after.block_at(cc, j).flags
            &&& !after.block_at(cc, j).flags.spec_is_empty()
        } by {
            assert(before.has_block(cc, j));
            let was_block = before.block_at(cc, j);
            if cc == c && j == b {
            } else {
                let q = before.block_at(cc, j).partition_id->0;
                assert(was@.partitions.contains_key(q));
            }
        }
    }
    assert forall|cc: int, j: int|
        before.has_block(cc, j) && before.block_at(cc, j).partition_id is Some implies (
    #[trigger] after.block_at(cc, j)).partition_id is Some by {}
}

/// Merging a partition into another of its mask keeps what `kept` asks
/// for.
proof fn lemma_kept_merge(
    before: &Terrain,
    was: &PartitionGraph,
    after: &Terrain,
    is: &PartitionGraph,
    a: u32,
    b: u32,
)
    requires
        before.wf(),
        after.same_but_owners(before),
        boxes_kept(was@, is@, Some(b)),
        is@.partitions[a].extents.covers(was@.partitions[b].extents),
        owners_replaced(before, after, b, Some(a)),
        a != b,
        was@.partitions.contains_key(a),
        was@.partitions.contains_key(b),
        was@.partitions[a].flags == was@.partitions[b].flags,
        forall|q: u32| #[trigger]
            was@.partitions.contains_key(q) && q != b ==> is@.partitions.contains_key(q)
                && is@.partitions[q].flags == was@.partitions[q].flags,
        was.next_partition_id() <= is.next_partition_id(),
        was.next_region_id() <= is.next_region_id(),
        numbered_on(was, is),
        chunks_same(was@, is@),
        regions_true(was@) ==> regions_true(is@),
    ensures
        kept(before, was, after, is),
{
    assert forall|scope: Option<u32>| #[trigger] boxed(before, was@, scope) implies boxed(
        after,
        is@,
        scope,
    ) by {
        reveal(boxed);
        assert forall|x: int, y: int, z: int|
            after.in_bounds(x, y, z) && (#[trigger] after.voxel(x, y, z)).partition_id is Some && (
            scope matches Some(sc) ==> after.chunk_of(x, y, z) == sc) implies {
            let q = after.voxel(x, y, z).partition_id->0;
            is@.partitions.contains_key(q) && is@.partitions[q].extents.holds(x, y, z)
        } by {
            before.lemma_in_bounds(x, y, z);
            let old_voxel = before.voxel(x, y, z);
            let q = old_voxel.partition_id->0;
            assert(old_voxel.partition_id is Some);
            assert(was@.partitions.contains_key(q));
        }
    }
    assert forall|cc: int| #[trigger] chunk_sound(before, was@, cc) implies chunk_sound(
        after,
        is@,
        cc,
    ) by {
        assert forall|j: int|
            #![trigger after.block_at(cc, j)]
            after.has_block(cc, j) && after.block_at(cc, j).partition_id is Some implies {
            let q = after.block_at(cc, j).partition_id->0;
            &&& is@.partitions.contains_key(q)
            &&& is@.partitions[q].flags == after.block_at(cc, j).flags
            &&& !after.block_at(cc, j).flags.spec_is_empty()
        } by {
            assert(before.has_block(cc, j));
            let was_block = before.block_at(cc, j);
            let q = before.block_at(cc, j).partition_id->0;
            assert(was@.partitions.contains_key(q));
        }
    }
    assert forall|cc: int, j: int|
        before.has_block(cc, j) && before.block_at(cc, j).partition_id is Some implies (
    #[trigger] after.block_at(cc, j)).partition_id is Some by {}
}

/// What is kept over two steps is kept over both.
proof fn lemma_kept_trans(
    first: &Terrain,
    a: &PartitionGraph,
    second: &Terrain,
    b: &PartitionGraph,
    third: &Terrain,
    c: &PartitionGraph,
)
    requires
        kept(first, a, second, b),
        kept(second, b, third, c),
    ensures
        kept(first, a, third, c),
{
    assert forall|cc: int| #[trigger] chunk_sound(first, a@, cc) implies chunk_sound(third, c@, cc) by {
        assert(chunk_sound(second, b@, cc));
    }
    assert forall|scope: Option<u32>| #[trigger] boxed(first, a@, scope) implies boxed(
        third,
        c@,
        scope,
    ) by {
        assert(boxed(second, b@, scope));
    }
    a.lemma_next_ids();
    assert forall|q: u32|
        #[trigger] c@.partitions.contains_key(q) && a@.partitions.contains_key(q) implies c@.partitions[q].chunk_idx
        == a@.partitions[q].chunk_idx by {
        assert(b@.partitions.contains_key(q));
    }
    assert forall|cc: int, j: int|
        first.has_block(cc, j) && first.block_at(cc, j).partition_id is Some implies (
    #[trigger] third.block_at(cc, j)).partition_id is Some by {
        assert(second.has_block(cc, j));
        assert(second.block_at(cc, j).partition_id is Some);
    }
    assert forall|cc: int, j: int| first.has_block(cc, j) implies #[trigger] third.block_at(cc, j)
        == (crate::block::Block {
        partition_id: third.block_at(cc, j).partition_id,
        ..first.block_at(cc, j)
    }) by {
        assert(second.has_block(cc, j));
        let m = second.block_at(cc, j);
    }
}

/// Nothing that is kept is lost by standing still.
proof fn lemma_kept_refl(terrain: &Terrain, graph: &PartitionGraph)
    ensures
        kept(terrain, graph, terrain, graph),
{
}

/// A flood of partition `p`, of chunk `c` and mask `flags`, is under way.
pub open spec fn filling(
    terrain: &Terrain,
    graph: &PartitionGraph,
    c: u32,
    flags: PartitionFlags,
    p: u32,
) -> bool {
    &&& graph.wf()
    &&& terrain.wf()
    &&& linked(terrain, graph@)
    &&& c < terrain.chunk_count
    &&& chunk_sound(terrain, graph@, c as int)
    &&& graph@.partitions.contains_key(p)
    &&& graph@.partitions[p].chunk_idx == c
    &&& graph@.partitions[p].flags == flags
    &&& !flags.spec_is_empty()
    &&& vacant(graph@, c)
    &&& stocked(graph@, c)
}

/// Every partition of chunk `c` lists a voxel.
pub open spec fn stocked(graph: GraphView, c: u32) -> bool {
    forall|q: u32| #[trigger]
        graph.partitions.contains_key(q) && graph.partitions[q].chunk_idx == c
            ==> graph.partitions[q].blocks.len() > 0
}

/// Every partition of chunk `c` is marked as computed and measured over its
/// bounding box.
pub open spec fn chunk_settled(graph: GraphView, c: u32) -> bool {
    forall|q: u32| #[trigger]
        graph.partitions.contains_key(q) && graph.partitions[q].chunk_idx == c
            ==> graph.partitions[q].is_computed && measured(graph.partitions[q].extents)
}

/// Nobody stands in a partition of chunk `c`.
pub open spec fn vacant(graph: GraphView, c: u32) -> bool {
    forall|q: u32| #[trigger]
        graph.partitions.contains_key(q) && graph.partitions[q].chunk_idx == c
            ==> graph.partitions[q].occupants == Set::<u64>::empty()
}

/// Every voxel of chunk `c` that partition `p` owned in `before` it owns in
/// `after`.
pub open spec fn grown(before: &Terrain, after: &Terrain, c: int, p: u32) -> bool {
    forall|b: int|
        before.has_block(c, b) && before.block_at(c, b).partition_id == Some(p) ==> (
        #[trigger] after.block_at(c, b)).partition_id == Some(p)
}

/// Number of voxels of chunk `c`, among the first `n`, that partition `p`
/// does not own.
pub open spec fn foreign(terrain: &Terrain, c: int, p: u32, n: int) -> nat
    decreases n,
{
    if n <= 0 {
        0
    } else {
        foreign(terrain, c, p, n - 1) + if terrain.block_at(c, n - 1).partition_id == Some(p) {
            0nat
        } else {
            1nat
        }
    }
}

/// A partition that has grown leaves no more voxels foreign than before,
/// and fewer if it has taken voxel `taken`.
proof fn lemma_foreign(before: &Terrain, after: &Terrain, c: int, p: u32, n: int, taken: int)
    requires
        0 <= n <= before.chunk_volume(),
        0 <= c < before.chunk_count,
        after.same_layout(before),
        grown(before, after, c, p),
    ensures
        foreign(after, c, p, n) <= foreign(before, c, p, n),
        0 <= taken < n && before.block_at(c, taken).partition_id != Some(p) && after.block_at(
            c,
            taken,
        ).partition_id == Some(p) ==> foreign(after, c, p, n) < foreign(before, c, p, n),
    decreases n,
{
    if n > 0 {
        lemma_foreign(before, after, c, p, n - 1, taken);
        assert(before.has_block(c, n - 1));
        let now = after.block_at(c, n - 1);
    }
}

/// The voxel at `pos` is one that a flood of partition `p`, of chunk `c`
/// and mask `flags`, takes in: a voxel of the chunk, of that mask, and not
/// yet of the partition.
pub open spec fn joinable(
    terrain: &Terrain,
    c: u32,
    flags: PartitionFlags,
    p: u32,
    pos: [i32; 3],
) -> bool {
    &&& in_chunk(terrain, c as int, spot_of(pos))
    &&& mask_at(terrain, spot_of(pos)) == flags
    &&& owner_at(terrain, spot_of(pos)) != Some(p)
}

/// From `was` to `now`, the partition `except`, if there is one, has stayed
/// as computed as it was, and every other partition either was there before,
/// of the same chunk, as computed, and with the same voxels, bounding box
/// and occupants, or is new, not computed, and has one voxel and no
/// occupant.
pub open spec fn partitions_kept(was: GraphView, now: GraphView, except: Option<u32>) -> bool {
    &&& except matches Some(p) ==> {
        &&& was.partitions.contains_key(p)
        &&& now.partitions.contains_key(p)
        &&& now.partitions[p].is_computed == was.partitions[p].is_computed
        &&& now.partitions[p].chunk_idx == was.partitions[p].chunk_idx
    }
    &&& forall|q: u32| #[trigger]
        now.partitions.contains_key(q) && Some(q) != except ==> if was.partitions.contains_key(q) {
            &&& now.partitions[q].chunk_idx == was.partitions[q].chunk_idx
            &&& now.partitions[q].is_computed == was.partitions[q].is_computed
            &&& now.partitions[q].blocks == was.partitions[q].blocks
            &&& now.partitions[q].extents == was.partitions[q].extents
            &&& now.partitions[q].occupants == was.partitions[q].occupants
            &&& now.partitions[q].flags == was.partitions[q].flags
        } else {
            &&& !now.partitions[q].is_computed
            &&& now.partitions[q].blocks.len() == 1
            &&& now.partitions[q].occupants == Set::<u64>::empty()
        }
}

/// Outside chunk `c`, every voxel that had an owner has kept it.
pub open spec fn elsewhere_same(before: &Terrain, after: &Terrain, c: int) -> bool {
    forall|i: int, j: int|
        i != c && before.has_block(i, j) && before.block_at(i, j).partition_id is Some ==> (
        #[trigger] after.block_at(i, j)).partition_id == before.block_at(i, j).partition_id
}

/// No voxel has changed its owner, but that the voxel at `pos`, which
/// supports some movement and had no owner, may have got a new partition.
pub open spec fn stepped_aside(
    before: &Terrain,
    was: GraphView,
    after: &Terrain,
    now: GraphView,
    pos: [i32; 3],
) -> bool {
    &&& forall|q: u32| #[trigger] was.partitions.contains_key(q) ==> now.partitions.contains_key(q)
    &&& forall|i: int, j: int|
        before.has_block(i, j) ==> {
            let now = (#[trigger] after.block_at(i, j)).partition_id;
            let then = before.block_at(i, j).partition_id;
            ||| now == then
            ||| {
                &&& then is None
                &&& now is Some
                &&& !was.partitions.contains_key(now->0)
                &&& before.in_bounds(pos[0] as int, pos[1] as int, pos[2] as int)
                &&& i == before.chunk_of(pos[0] as int, pos[1] as int, pos[2] as int)
                &&& j == before.block_of(pos[0] as int, pos[1] as int, pos[2] as int)
                &&& !before.block_at(i, j).flags.spec_is_empty()
            }
        }
}

/// The voxel at `pos` has joined partition `p`, together with every voxel
/// of the partition that owned it, if any, and no other voxel has changed
/// its owner.
pub open spec fn stepped_in(
    before: &Terrain,
    was: GraphView,
    after: &Terrain,
    now: GraphView,
    p: u32,
    pos: [i32; 3],
) -> bool {
    let at_c = before.chunk_of(pos[0] as int, pos[1] as int, pos[2] as int);
    let at_b = before.block_of(pos[0] as int, pos[1] as int, pos[2] as int);
    let owner = before.block_at(at_c, at_b).partition_id;
    &&& forall|q: u32| #[trigger]
        was.partitions.contains_key(q) ==> now.partitions.contains_key(q) || owner == Some(q)
    &&& forall|i: int, j: int|
        before.has_block(i, j) ==> (#[trigger] after.block_at(i, j)).partition_id == if (i == at_c && j
            == at_b) || (owner is Some && before.block_at(i, j).partition_id == owner) {
            Some(p)
        } else {
            before.block_at(i, j).partition_id
        }
}

/// Partitions that were neighbours and are both still there are still
/// neighbours.
pub open spec fn adjacency_kept(was: GraphView, now: GraphView) -> bool {
    forall|x: u32, y: u32|
        #[trigger] was.adjacent(x, y) && now.partitions.contains_key(x) && now.partitions.contains_key(y)
            ==> now.adjacent(x, y)
}

/// The place `b` has an owner, and that is partition `p` or a neighbour of
/// it.
pub open spec fn tied(terrain: &Terrain, graph: GraphView, p: u32, b: Spot) -> bool {
    owner_at(terrain, b) matches Some(q) && (q == p || graph.adjacent(p, q))
}

/// The partition is of the same chunk and mask as before, lists the same
/// voxels, has the same bounding box and occupants, and is computed as
/// before.
pub open spec fn same_holdings(was: PartitionView, now: PartitionView) -> bool {
    &&& now.chunk_idx == was.chunk_idx
    &&& now.flags == was.flags
    &&& now.blocks == was.blocks
    &&& now.extents == was.extents
    &&& now.occupants == was.occupants
    &&& now.is_computed == was.is_computed
}

/// The partitions of chunks other than `c` are still there with what they
/// held, and those of them that were neighbours still are.
pub open spec fn others_kept(was: GraphView, now: GraphView, c: u32) -> bool {
    &&& forall|x: u32|
        #[trigger] was.partitions.contains_key(x) && was.partitions[x].chunk_idx != c
            ==> now.partitions.contains_key(x) && same_holdings(was.partitions[x], now.partitions[x])
    &&& forall|x: u32, y: u32|
        #[trigger] was.adjacent(x, y) && was.partitions[x].chunk_idx != c && was.partitions.contains_key(y)
            && was.partitions[y].chunk_idx != c ==> now.adjacent(x, y)
}

/// What is kept over two steps is kept over both.
proof fn lemma_others_trans(a: GraphView, b: GraphView, d: GraphView, c: u32)
    requires
        others_kept(a, b, c),
        others_kept(b, d, c),
    ensures
        others_kept(a, d, c),
{
    assert forall|x: u32, y: u32|
        #[trigger] a.adjacent(x, y) && a.partitions[x].chunk_idx != c && a.partitions.contains_key(y)
            && a.partitions[y].chunk_idx != c implies d.adjacent(x, y) by {
        assert(b.adjacent(x, y));
        assert(b.partitions.contains_key(x) && b.partitions.contains_key(y));
    }
    assert forall|x: u32|
        #[trigger] a.partitions.contains_key(x) && a.partitions[x].chunk_idx != c implies d.partitions.contains_key(
        x,
    ) && same_holdings(a.partitions[x], d.partitions[x]) by {
        assert(b.partitions.contains_key(x));
    }
}

/// Number of voxels without owner among the first `n` of chunk `c`.
pub open spec fn unowned_in(terrain: &Terrain, c: int, n: int) -> nat
    decreases n,
{
    if n <= 0 {
        0
    } else {
        unowned_in(terrain, c, n - 1) + if terrain.block_at(c, n - 1).partition_id is None {
            1nat
        } else {
            0nat
        }
    }
}

/// Number of voxels without owner in the first `m` chunks.
pub open spec fn unowned(terrain: &Terrain, m: int) -> nat
    decreases m,
{
    if m <= 0 {
        0
    } else {
        unowned(terrain, m - 1) + unowned_in(terrain, m - 1, terrain.chunk_volume())
    }
}

/// Number of voxels of the world.
pub open spec fn world_cells(terrain: &Terrain) -> int {
    terrain.chunk_count * terrain.chunk_volume()
}

/// No voxel has lost its owner.
pub open spec fn owners_stay(before: &Terrain, after: &Terrain) -> bool {
    &&& after.same_layout(before)
    &&& forall|c: int, b: int|
        before.has_block(c, b) && before.block_at(c, b).partition_id is Some ==> (
        #[trigger] after.block_at(c, b)).partition_id is Some
}

/// For every number that was given to a partition or a region, a voxel
/// without owner has got one.
pub open spec fn counted(
    before: &Terrain,
    was: &PartitionGraph,
    after: &Terrain,
    is: &PartitionGraph,
) -> bool {
    let m = before.chunk_count as int;
    &&& is.next_partition_id() + unowned(after, m) <= was.next_partition_id() + unowned(before, m)
    &&& is.next_region_id() + unowned(after, m) <= was.next_region_id() + unowned(before, m)
}

/// Where no voxel loses its owner, no more voxels of a chunk are without
/// owner than before, and fewer if voxel `taken` has got one.
proof fn lemma_unowned_in(before: &Terrain, after: &Terrain, c: int, n: int, taken: int)
    requires
        0 <= n <= before.chunk_volume(),
        0 <= c < before.chunk_count,
        owners_stay(before, after),
    ensures
        unowned_in(after, c, n) <= unowned_in(before, c, n) <= n,
        0 <= taken < n && before.block_at(c, taken).partition_id is None && after.block_at(
            c,
            taken,
        ).partition_id is Some ==> unowned_in(after, c, n) < unowned_in(before, c, n),
    decreases n,
{
    if n > 0 {
        lemma_unowned_in(before, after, c, n - 1, taken);
        assert(before.has_block(c, n - 1));
        let now = after.block_at(c, n - 1);
    }
}

/// Where no voxel loses its owner, no more voxels of the world are without
/// owner than before, and fewer if voxel `taken` of chunk `c` has got one.
proof fn lemma_unowned(before: &Terrain, after: &Terrain, m: int, c: int, taken: int)
    requires
        0 <= m <= before.chunk_count,
        before.chunk_volume() >= 0,
        owners_stay(before, after),
    ensures
        unowned(after, m) <= unowned(before, m) <= m * before.chunk_volume(),
        0 <= c < m && 0 <= taken < before.chunk_volume() && before.block_at(c, taken).partition_id is None
            && after.block_at(c, taken).partition_id is Some ==> unowned(after, m) < unowned(before, m),
    decreases m,
{
    if m > 0 {
        let v = before.chunk_volume();
        lemma_unowned(before, after, m - 1, c, taken);
        lemma_unowned_in(before, after, m - 1, v, taken);
        assert((m - 1) * v + v == m * v) by (nonlinear_arith);
    } else {
        assert(m * before.chunk_volume() == 0) by (nonlinear_arith)
            requires
                m == 0,
        ;
    }
}

/// A step that gives no new number and takes no owner away is counted.
proof fn lemma_counted_same(before: &Terrain, was: &PartitionGraph, after: &Terrain, is: &PartitionGraph)
    requires
        before.wf(),
        owners_stay(before, after),
        is.same_ids(was),
    ensures
        counted(before, was, after, is),
{
    crate::shape::lemma_index_in_range(
        before.chunk_shape.dx(),
        before.chunk_shape.dy(),
        before.chunk_shape.dz(),
        0,
        0,
        0,
    );
    lemma_unowned(before, after, before.chunk_count as int, 0, 0);
}

/// A step that gives at most one new number of each kind, and an owner to
/// voxel `b` of chunk `c`, which had none, is counted.
proof fn lemma_counted_one(
    before: &Terrain,
    was: &PartitionGraph,
    after: &Terrain,
    is: &PartitionGraph,
    c: int,
    b: int,
)
    requires
        before.wf(),
        owners_stay(before, after),
        before.has_block(c, b),
        before.block_at(c, b).partition_id is None,
        after.block_at(c, b).partition_id is Some,
        is.next_partition_id() <= was.next_partition_id() + 1,
        is.next_region_id() <= was.next_region_id() + 1,
    ensures
        counted(before, was, after, is),
{
    crate::shape::lemma_index_in_range(
        before.chunk_shape.dx(),
        before.chunk_shape.dy(),
        before.chunk_shape.dz(),
        0,
        0,
        0,
    );
    lemma_unowned(before, after, before.chunk_count as int, c, b);
}

/// The place supports some movement and is next to a voxel of chunk `c`.
pub open spec fn near_chunk(terrain: &Terrain, c: int, s: Spot) -> bool {
    !mask_at(terrain, s).spec_is_empty() && exists|a: Spot|
        in_chunk(terrain, c, a) && #[trigger] crate::components::next_to(a, s)
}

/// Outside chunk `c`, only voxels that support some movement and are next
/// to a voxel of the chunk have got an owner.
pub open spec fn gained_near(before: &Terrain, after: &Terrain, c: int) -> bool {
    forall|s: Spot|
        before.in_bounds(s.x, s.y, s.z) && before.chunk_of(s.x, s.y, s.z) != c && owner_at(before, s) is None
            && (#[trigger] owner_at(after, s)) is Some ==> near_chunk(before, c, s)
}

/// What holds of the new owners over two steps holds over both.
proof fn lemma_gained_trans(first: &Terrain, second: &Terrain, third: &Terrain, c: int)
    requires
        first.wf(),
        second.same_but_owners(first),
        gained_near(first, second, c),
        gained_near(second, third, c),
    ensures
        gained_near(first, third, c),
{
    crate::pieces::lemma_same_masks(first, second);
    assert forall|s: Spot|
        first.in_bounds(s.x, s.y, s.z) && first.chunk_of(s.x, s.y, s.z) != c && owner_at(first, s) is None
            && (#[trigger] owner_at(third, s)) is Some implies near_chunk(first, c, s) by {
        if owner_at(second, s) is Some {
        } else {
            assert(near_chunk(second, c, s));
            let a = choose|a: Spot| in_chunk(second, c, a) && #[trigger] crate::components::next_to(a, s);
            assert(in_chunk(first, c, a));
            assert(mask_at(second, s) == mask_at(first, s));
        }
    }
}

/// A step of a flood that does not take the voxel gives an owner to no
/// voxel but the one it came to, which is next to the flooded partition.
proof fn lemma_gained_aside(
    before: &Terrain,
    was: GraphView,
    after: &Terrain,
    now: GraphView,
    c: int,
    p: u32,
    pos: [i32; 3],
)
    requires
        before.wf(),
        after.same_but_owners(before),
        stepped_aside(before, was, after, now, pos),
        crate::pieces::has_back(before, c, p, spot_of(pos)),
    ensures
        gained_near(before, after, c),
{
    assert forall|s: Spot|
        before.in_bounds(s.x, s.y, s.z) && before.chunk_of(s.x, s.y, s.z) != c && owner_at(before, s) is None
            && (#[trigger] owner_at(after, s)) is Some implies near_chunk(before, c, s) by {
        before.lemma_in_bounds(s.x, s.y, s.z);
        let i = before.chunk_of(s.x, s.y, s.z);
        let j = before.block_of(s.x, s.y, s.z);
        let here = after.block_at(i, j);
        crate::components::lemma_cell_injective(before, s, spot_of(pos));
        let a = choose|a: Spot|
            in_chunk(before, c, a) && owner_at(before, a) == Some(p) && #[trigger] crate::components::next_to(
                a,
                spot_of(pos),
            );
        assert(crate::components::next_to(a, s));
    }
}

/// A step of a flood that takes the voxel gives an owner to no voxel
/// outside the chunk.
proof fn lemma_gained_in(
    before: &Terrain,
    was: GraphView,
    after: &Terrain,
    now: GraphView,
    c: int,
    p: u32,
    pos: [i32; 3],
)
    requires
        before.wf(),
        after.same_but_owners(before),
        before.in_bounds(pos[0] as int, pos[1] as int, pos[2] as int),
        before.chunk_of(pos[0] as int, pos[1] as int, pos[2] as int) == c,
        stepped_in(before, was, after, now, p, pos),
    ensures
        gained_near(before, after, c),
{
    assert forall|s: Spot|
        before.in_bounds(s.x, s.y, s.z) && before.chunk_of(s.x, s.y, s.z) != c && owner_at(before, s) is None
            && (#[trigger] owner_at(after, s)) is Some implies near_chunk(before, c, s) by {
        before.lemma_in_bounds(s.x, s.y, s.z);
        let i = before.chunk_of(s.x, s.y, s.z);
        let j = before.block_of(s.x, s.y, s.z);
        let here = after.block_at(i, j);
    }
}

/// A voxel of partition `p` is next to a voxel of partition `q`.
pub open spec fn touching(terrain: &Terrain, p: u32, q: u32) -> bool {
    exists|a: Spot, b: Spot|
        #[trigger] crate::components::next_to(a, b) && owner_at(terrain, a) == Some(p) && owner_at(
            terrain,
            b,
        ) == Some(q)
}

/// Every neighbour of a partition touches it: no partition has a neighbour
/// that it does not meet in the world. This is said of the partitions of
/// chunk `c` where `scope` is `Some(c)`, and of all partitions where it is
/// `None`.
pub open spec fn links_real(terrain: &Terrain, graph: GraphView, scope: Option<u32>) -> bool {
    forall|p: u32, q: u32|
        #[trigger] graph.adjacent(p, q) && (scope matches Some(c) ==> graph.partitions[p].chunk_idx == c)
            ==> touching(terrain, p, q)
}

/// Voxels that had an owner have kept it.
pub open spec fn owners_fixed(before: &Terrain, after: &Terrain) -> bool {
    &&& after.same_layout(before)
    &&& forall|i: int, j: int|
        before.has_block(i, j) && before.block_at(i, j).partition_id is Some ==> (
        #[trigger] after.block_at(i, j)).partition_id == before.block_at(i, j).partition_id
}

/// Partitions that touched still touch where no voxel has changed its
/// owner.
proof fn lemma_touching_kept(before: &Terrain, after: &Terrain, p: u32, q: u32)
    requires
        before.wf(),
        owners_fixed(before, after),
        touching(before, p, q),
    ensures
        touching(after, p, q),
{
    let (a, b) = choose|a: Spot, b: Spot|
        #[trigger] crate::components::next_to(a, b) && owner_at(before, a) == Some(p) && owner_at(
            before,
            b,
        ) == Some(q);
    before.lemma_in_bounds(a.x, a.y, a.z);
    before.lemma_in_bounds(b.x, b.y, b.z);
    let one = after.block_at(before.chunk_of(a.x, a.y, a.z), before.block_of(a.x, a.y, a.z));
    let two = after.block_at(before.chunk_of(b.x, b.y, b.z), before.block_of(b.x, b.y, b.z));
    assert(crate::components::next_to(a, b) && owner_at(after, a) == Some(p) && owner_at(after, b) == Some(
        q,
    ));
}

/// A step that changes no owner and adds no neighbour but, if `fresh`,
/// makes two partitions that touch neighbours of each other keeps every
/// neighbour in touch.
proof fn lemma_links_step(
    before: &Terrain,
    was: GraphView,
    after: &Terrain,
    now: GraphView,
    scope: Option<u32>,
    fresh: bool,
    p: u32,
    q: u32,
)
    requires
        before.wf(),
        owners_fixed(before, after),
        links_real(before, was, scope),
        forall|x: u32, y: u32| #[trigger]
            now.adjacent(x, y) ==> was.adjacent(x, y) || (fresh && ((x == p && y == q) || (x == q && y
                == p))),
        forall|x: u32|
            #[trigger] now.partitions.contains_key(x) && was.partitions.contains_key(x)
                ==> now.partitions[x].chunk_idx == was.partitions[x].chunk_idx,
        fresh ==> touching(after, p, q) && touching(after, q, p),
    ensures
        links_real(after, now, scope),
{
    assert forall|x: u32, y: u32|
        #[trigger] now.adjacent(x, y) && (scope matches Some(c) ==> now.partitions[x].chunk_idx
            == c) implies touching(after, x, y) by {
        if was.adjacent(x, y) {
            assert(was.partitions.contains_key(x));
            lemma_touching_kept(before, after, x, y);
        }
    }
}

/// Merging partition `b` into partition `a` of the same chunk keeps every
/// neighbour in touch.
proof fn lemma_links_merge(
    before: &Terrain,
    was: GraphView,
    after: &Terrain,
    now: GraphView,
    scope: Option<u32>,
    a: u32,
    b: u32,
)
    requires
        before.wf(),
        owners_replaced(before, after, b, Some(a)),
        links_real(before, was, scope),
        a != b,
        was.partitions.contains_key(a),
        was.partitions.contains_key(b),
        was.partitions[b].chunk_idx == was.partitions[a].chunk_idx,
        forall|x: u32| #[trigger]
            now.partitions.contains_key(x) ==> was.partitions.contains_key(x) && now.partitions[x].chunk_idx
                == was.partitions[x].chunk_idx,
        forall|x: u32, y: u32| #[trigger]
            now.adjacent(x, y) ==> x != b && y != b && (was.adjacent(x, y) || (x == a && was.adjacent(b, y))
                || (y == a && was.adjacent(x, b))),
    ensures
        links_real(after, now, scope),
{
    assert forall|x: u32, y: u32|
        #[trigger] now.adjacent(x, y) && (scope matches Some(c) ==> now.partitions[x].chunk_idx
            == c) implies touching(after, x, y) by {
        let from = if was.adjacent(x, y) {
            x
        } else if x == a && was.adjacent(b, y) {
            b
        } else {
            x
        };
        let to = if was.adjacent(x, y) {
            y
        } else if x == a && was.adjacent(b, y) {
            y
        } else {
            b
        };
        assert(was.adjacent(from, to));
        assert(scope matches Some(c) ==> was.partitions[from].chunk_idx == c);
        assert(touching(before, from, to));
        let (s, t) = choose|s: Spot, t: Spot|
            #[trigger] crate::components::next_to(s, t) && owner_at(before, s) == Some(from) && owner_at(
                before,
                t,
            ) == Some(to);
        before.lemma_in_bounds(s.x, s.y, s.z);
        before.lemma_in_bounds(t.x, t.y, t.z);
        let one = after.block_at(before.chunk_of(s.x, s.y, s.z), before.block_of(s.x, s.y, s.z));
        let two = after.block_at(before.chunk_of(t.x, t.y, t.z), before.block_of(t.x, t.y, t.z));
        assert(crate::components::next_to(s, t) && owner_at(after, s) == Some(x) && owner_at(after, t)
            == Some(y));
    }
}

/// Taking the partitions of chunk `c` away, and the owners of its voxels,
/// keeps every neighbour that is left in touch.
proof fn lemma_links_cleared(before: &Terrain, was: GraphView, after: &Terrain, now: GraphView, c: u32)
    requires
        before.wf(),
        was.wf(),
        linked(before, was),
        after.same_but_owners(before),
        links_real(before, was, None),
        forall|i: int, j: int|
            before.has_block(i, j) ==> (#[trigger] after.block_at(i, j)).partition_id == if i == c {
                None
            } else {
                before.block_at(i, j).partition_id
            },
        forall|x: u32|
            now.partitions.contains_key(x) <==> #[trigger] was.partitions.contains_key(x)
                && was.partitions[x].chunk_idx != c,
        forall|x: u32, y: u32| #[trigger]
            now.adjacent(x, y) ==> was.adjacent(x, y) && !(was.partitions.contains_key(y)
                && was.partitions[y].chunk_idx == c),
    ensures
        links_real(after, now, None),
{
    assert forall|x: u32, y: u32| #[trigger] now.adjacent(x, y) implies touching(after, x, y) by {
        assert(was.adjacent(x, y));
        assert(was.adjacent(y, x));
        assert(touching(before, x, y));
        let (s, t) = choose|s: Spot, t: Spot|
            #[trigger] crate::components::next_to(s, t) && owner_at(before, s) == Some(x) && owner_at(
                before,
                t,
            ) == Some(y);
        before.lemma_in_bounds(s.x, s.y, s.z);
        before.lemma_in_bounds(t.x, t.y, t.z);
        let one = after.block_at(before.chunk_of(s.x, s.y, s.z), before.block_of(s.x, s.y, s.z));
        let two = after.block_at(before.chunk_of(t.x, t.y, t.z), before.block_of(t.x, t.y, t.z));
        assert(crate::components::next_to(s, t) && owner_at(after, s) == Some(x) && owner_at(after, t)
            == Some(y));
    }
}

/// What became of a voxel that a flood came to.
#[derive(Clone, Copy, Debug, PartialEq, Eq, Structural)]
pub enum Step {
    /// The voxel is no part of the partition.
    Skip,
    /// The voxel has joined the partition: its neighbours are next.
    Expand,
    /// The graph has no number left for what the voxel needs.
    Full,
}

/// Sees to it that the voxel `block_idx` of chunk `chunk_idx`, at `pos`,
/// which has no owner and differs from partition `p` in mask or in chunk,
/// has a partition, and records that partition as a neighbour of `p`. A
/// voxel of another mask gets a region of its own, next to the region of
/// `p`; a voxel of the same mask joins the region of `p`. Says whether the
/// graph had room for that.
fn stub_voxel(
    graph: &mut PartitionGraph,
    terrain: &mut Terrain,
    c: u32,
    flags: PartitionFlags,
    p: u32,
    chunk_idx: u32,
    block_idx: u32,
    pos: [u32; 3],
) -> (done: bool)
    requires
        filling(old(terrain), old(graph), c, flags, p),
        old(terrain).has_block(chunk_idx as int, block_idx as int),
        old(terrain).block_at(chunk_idx as int, block_idx as int).partition_id is None,
        !old(terrain).block_at(chunk_idx as int, block_idx as int).flags.spec_is_empty(),
        old(terrain).block_at(chunk_idx as int, block_idx as int).flags != flags || chunk_idx != c,
        old(terrain).in_bounds(pos[0] as int, pos[1] as int, pos[2] as int),
        old(terrain).chunk_of(pos[0] as int, pos[1] as int, pos[2] as int) == chunk_idx,
        old(terrain).block_of(pos[0] as int, pos[1] as int, pos[2] as int) == block_idx,
        links_real(old(terrain), old(graph)@, Some(c)),
        crate::pieces::has_back(
            old(terrain),
            c as int,
            p,
            Spot { x: pos[0] as int, y: pos[1] as int, z: pos[2] as int },
        ),
    ensures
        links_real(final(terrain), final(graph)@, Some(c)),
        links_real(old(terrain), old(graph)@, None) ==> links_real(final(terrain), final(graph)@, None),
        filling(final(terrain), final(graph), c, flags, p),
        kept(old(terrain), old(graph), final(terrain), final(graph)),
        grown(old(terrain), final(terrain), c as int, p),
        !done ==> !(old(graph).next_partition_id() < u32::MAX && old(graph).next_region_id() < u32::MAX)
            && *final(terrain) == *old(terrain) && final(graph)@ == old(graph)@,
        done ==> final(terrain).block_at(chunk_idx as int, block_idx as int).partition_id is Some,
        partitions_kept(old(graph)@, final(graph)@, Some(p)),
        adjacency_kept(old(graph)@, final(graph)@),
        counted(old(terrain), old(graph), final(terrain), final(graph)),
        done ==> final(graph)@.adjacent(
            p,
            final(terrain).block_at(chunk_idx as int, block_idx as int).partition_id->0,
        ),
        forall|q: u32| #[trigger]
            old(graph)@.partitions.contains_key(q) ==> final(graph)@.partitions.contains_key(q),
        forall|i: int, j: int|
            old(terrain).has_block(i, j) ==> {
                let now = (#[trigger] final(terrain).block_at(i, j)).partition_id;
                let then = old(terrain).block_at(i, j).partition_id;
                ||| now == then
                ||| (then is None && now is Some && !old(graph)@.partitions.contains_key(now->0) && i
                    == chunk_idx && j == block_idx)
            },
{
    if !graph.has_room() {
        proof {
            lemma_kept_refl(terrain, graph);
            lemma_counted_same(terrain, graph, terrain, graph);
        }
        return false;
    }
    let voxel_flags = terrain.get_block_by_idx(chunk_idx, block_idx).flags;
    let home = match graph.get_partition(p) {
        Some(partition) => partition.region_id,
        None => 0,
    };
    proof {
        assert(graph@.lists(home, p));
    }
    let ghost g0 = *graph;
    let region = if voxel_flags != flags {
        let fresh = graph.create_region(voxel_flags);
        graph.set_region_neighbors(home, fresh);
        fresh
    } else {
        home
    };
    let ghost g1 = *graph;
    let stub = graph.create_partition(region, chunk_idx, voxel_flags);
    let ghost g2 = *graph;
    proof {
        if regions_true(g0@) {
            crate::graph::lemma_regions_kept(g0@, g1@);
            crate::graph::lemma_regions_kept(g1@, g2@);
        }
        lemma_kept_graph(terrain, &g0, &g2);
    }
    let ghost t2 = *terrain;
    graph.assign_block(stub, block_idx, pos, terrain);
    let ghost g3 = *graph;
    let ghost t3 = *terrain;
    proof {
        if regions_true(g2@) {
            crate::graph::lemma_regions_kept(g2@, g3@);
        }
        lemma_kept_assign(&t2, &g2, &t3, &g3, chunk_idx as int, block_idx as int, stub, pos);
        lemma_kept_trans(&t2, &g0, &t2, &g2, &t3, &g3);
    }
    graph.set_partition_neighbors(p, stub);
    proof {
        crate::graph::lemma_neighbored_facts(g3@, p, stub);
        if regions_true(g3@) {
            crate::graph::lemma_neighbored_regions(g3@, p, stub);
        }
        assert forall|x: u32, y: u32|
            #[trigger] g0@.adjacent(x, y) && graph@.partitions.contains_key(x)
                && graph@.partitions.contains_key(y) implies graph@.adjacent(x, y) by {
            assert(g2@.adjacent(x, y));
            assert(g3@.adjacent(x, y));
        }
        lemma_kept_graph(&t3, &g3, graph);
        lemma_kept_trans(&t2, &g0, &t3, &g3, &t3, graph);
        assert(chunk_sound(&t2, g0@, c as int));
        lemma_counted_one(&t2, &g0, terrain, graph, chunk_idx as int, block_idx as int);
        let here = Spot { x: pos[0] as int, y: pos[1] as int, z: pos[2] as int };
        let back = choose|a: Spot|
            in_chunk(&t2, c as int, a) && owner_at(&t2, a) == Some(p) && #[trigger] crate::components::next_to(
                a,
                here,
            );
        t2.lemma_in_bounds(back.x, back.y, back.z);
        let behind = t3.block_at(t2.chunk_of(back.x, back.y, back.z), t2.block_of(back.x, back.y, back.z));
        let front = t3.block_at(chunk_idx as int, block_idx as int);
        assert(crate::components::next_to(back, here) && owner_at(&t3, back) == Some(p) && owner_at(
            &t3,
            here,
        ) == Some(stub));
        assert(crate::components::next_to(here, back) && owner_at(&t3, here) == Some(stub) && owner_at(
            &t3,
            back,
        ) == Some(p));
        assert forall|x: u32, y: u32| #[trigger] graph@.adjacent(x, y) implies g0@.adjacent(x, y) || (x
            == p && y == stub) || (x == stub && y == p) by {
            if g3@.adjacent(x, y) {
                assert(g2@.adjacent(x, y));
                assert(g1@.adjacent(x, y));
            }
        }
        lemma_links_step(&t2, g0@, &t3, graph@, Some(c), true, p, stub);
        if links_real(&t2, g0@, None) {
            lemma_links_step(&t2, g0@, &t3, graph@, None, true, p, stub);
        }
    }
    true
}

/// Handles the voxel at `pos`, which a flood of partition `p` has come to.
/// Outside the world, in the partition already, or without any movement:
/// nothing happens. Of the partition's chunk and mask: the voxel joins the
/// partition, together with the partition that owned it, if any, whose
/// region is merged into that of the partition first. Of
/// another chunk or mask: the voxel's partition, made now if need be,
/// becomes a neighbour.

fn visit(
    graph: &mut PartitionGraph,
    terrain: &mut Terrain,
    c: u32,
    flags: PartitionFlags,
    p: u32,
    pos: [i32; 3],
) -> (step: Step)
    requires
        filling(old(terrain), old(graph), c, flags, p),
        links_real(old(terrain), old(graph)@, Some(c)),
        crate::pieces::has_back(old(terrain), c as int, p, spot_of(pos)),
    ensures
        links_real(final(terrain), final(graph)@, Some(c)),
        links_real(old(terrain), old(graph)@, None) ==> links_real(final(terrain), final(graph)@, None),
        filling(final(terrain), final(graph), c, flags, p),
        kept(old(terrain), old(graph), final(terrain), final(graph)),
        grown(old(terrain), final(terrain), c as int, p),
        step == Step::Expand ==> {
            &&& old(terrain).in_bounds(pos[0] as int, pos[1] as int, pos[2] as int)
            &&& old(terrain).chunk_of(pos[0] as int, pos[1] as int, pos[2] as int) == c
            &&& old(terrain).voxel(pos[0] as int, pos[1] as int, pos[2] as int).partition_id != Some(p)
            &&& final(terrain).voxel(pos[0] as int, pos[1] as int, pos[2] as int).partition_id
                == Some(p)
        },
        step == Step::Full ==> !(final(graph).next_partition_id() < u32::MAX
            && final(graph).next_region_id() < u32::MAX),
        partitions_kept(old(graph)@, final(graph)@, Some(p)),
        elsewhere_same(old(terrain), final(terrain), c as int),
        step != Step::Expand ==> stepped_aside(
            old(terrain),
            old(graph)@,
            final(terrain),
            final(graph)@,
            pos,
        ),
        step != Step::Expand ==> !joinable(old(terrain), c, flags, p, pos),
        adjacency_kept(old(graph)@, final(graph)@),
        others_kept(old(graph)@, final(graph)@, c),
        counted(old(terrain), old(graph), final(terrain), final(graph)),
        step == Step::Full ==> *final(terrain) == *old(terrain) && final(graph)@ == old(graph)@,
        step == Step::Skip && old(terrain).in_bounds(pos[0] as int, pos[1] as int, pos[2] as int)
            && !mask_at(old(terrain), spot_of(pos)).spec_is_empty() ==> tied(
            final(terrain),
            final(graph)@,
            p,
            spot_of(pos),
        ),
        step == Step::Expand ==> (owner_at(old(terrain), spot_of(pos)) matches Some(b) ==> forall|
            x: u32,
        | #[trigger] old(graph)@.adjacent(x, b) && x != p && x != b ==> final(graph)@.adjacent(x, p)),
        step == Step::Expand ==> joinable(old(terrain), c, flags, p, pos) && stepped_in(
            old(terrain),
            old(graph)@,
            final(terrain),
            final(graph)@,
            p,
            pos,
        ),
{
    if terrain.is_oob(pos[0], pos[1], pos[2]) {
        proof {
            lemma_kept_refl(terrain, graph);
            lemma_counted_same(terrain, graph, terrain, graph);
        }
        return Step::Skip;
    }
    let at = terrain.get_block_indexes(pos[0] as u32, pos[1] as u32, pos[2] as u32);
    let chunk_idx = at[0];
    let block_idx = at[1];
    let voxel = terrain.get_block_by_idx(chunk_idx, block_idx);
    let differs = voxel.flags != flags || chunk_idx != c;
    let ghost t0 = *terrain;
    let ghost g0 = *graph;
    match voxel.partition_id {
        Some(owner) => {
            if owner == p || voxel.flags.is_empty() {
                proof {
                    lemma_kept_refl(terrain, graph);
                    lemma_counted_same(terrain, graph, terrain, graph);
                }
                return Step::Skip;
            }
            if differs {
                graph.set_partition_neighbors(p, owner);
                proof {
                    crate::graph::lemma_neighbored_facts(g0@, p, owner);
                    if regions_true(g0@) {
                        crate::graph::lemma_neighbored_regions(g0@, p, owner);
                    }
                    lemma_kept_graph(terrain, &g0, graph);
                    lemma_counted_same(terrain, &g0, terrain, graph);
                    let back = choose|a: Spot|
                        in_chunk(&t0, c as int, a) && owner_at(&t0, a) == Some(p)
                            && #[trigger] crate::components::next_to(a, spot_of(pos));
                    assert(crate::components::next_to(back, spot_of(pos)) && owner_at(&t0, back) == Some(p)
                        && owner_at(&t0, spot_of(pos)) == Some(owner));
                    assert(crate::components::next_to(spot_of(pos), back) && owner_at(&t0, spot_of(pos))
                        == Some(owner) && owner_at(&t0, back) == Some(p));
                    lemma_links_step(&t0, g0@, terrain, graph@, Some(c), true, p, owner);
                    if links_real(&t0, g0@, None) {
                        lemma_links_step(&t0, g0@, terrain, graph@, None, true, p, owner);
                    }
                    lemma_membership_linked_here(terrain, &g0, graph);
                }
                return Step::Skip;
            }
            // the two become one: first their regions, then the partitions
            let shared = graph.set_partition_neighbors(p, owner);
            let ghost gm = *graph;
            proof {
                crate::graph::lemma_neighbored_facts(g0@, p, owner);
                lemma_membership_linked_here(terrain, &g0, graph);
                crate::graph::lemma_merged_facts(gm@, p, owner);
                assert(gm@.partitions[p].region_id == gm@.partitions[owner].region_id);
                if regions_true(g0@) {
                    crate::graph::lemma_neighbored_regions(g0@, p, owner);
                    crate::graph::lemma_merged_regions(gm@, p, owner);
                }
            }
            graph.merge_partitions(p, owner, terrain);
            proof {
                assert forall|x: u32, y: u32| #[trigger] graph@.adjacent(x, y) implies x != owner && y
                    != owner && (g0@.adjacent(x, y) || (x == p && g0@.adjacent(owner, y)) || (y == p
                    && g0@.adjacent(x, owner))) by {
                    assert(x != owner && y != owner);
                    if gm@.adjacent(x, y) {
                        assert(g0@.adjacent(x, y));
                    } else if x == p && gm@.adjacent(owner, y) {
                        assert(g0@.adjacent(owner, y) || y == p);
                        if y == p {
                            assert(gm@.adjacent(p, p) ==> g0@.adjacent(p, p));
                        }
                    } else {
                        assert(y == p && gm@.adjacent(x, owner));
                        assert(g0@.adjacent(x, owner) || x == p);
                    }
                }
                lemma_kept_merge(&t0, &g0, terrain, graph, p, owner);
                lemma_counted_same(&t0, &g0, terrain, graph);
                lemma_links_merge(&t0, g0@, terrain, graph@, Some(c), p, owner);
                if links_real(&t0, g0@, None) {
                    lemma_links_merge(&t0, g0@, terrain, graph@, None, p, owner);
                }
                assert(graph@.partitions[p].occupants =~= Set::<u64>::empty());
            }
            Step::Expand
        },
        None => {
            if voxel.flags.is_empty() {
                proof {
                    lemma_kept_refl(terrain, graph);
                    lemma_counted_same(terrain, graph, terrain, graph);
                }
                return Step::Skip;
            }
            if differs {
                let done = stub_voxel(
                    graph,
                    terrain,
                    c,
                    flags,
                    p,
                    chunk_idx,
                    block_idx,
                    [pos[0] as u32, pos[1] as u32, pos[2] as u32],
                );
                if done {
                    return Step::Skip;
                }
                return Step::Full;
            }
            graph.assign_block(p, block_idx, [pos[0] as u32, pos[1] as u32, pos[2] as u32], terrain);
            proof {
                if regions_true(g0@) {
                    crate::graph::lemma_regions_kept(g0@, graph@);
                }
                lemma_kept_assign(
                    &t0,
                    &g0,
                    terrain,
                    graph,
                    c as int,
                    block_idx as int,
                    p,
                    [pos[0] as u32, pos[1] as u32, pos[2] as u32],
                );
                lemma_counted_same(&t0, &g0, terrain, graph);
                lemma_links_step(&t0, g0@, terrain, graph@, Some(c), false, 0, 0);
                if links_real(&t0, g0@, None) {
                    lemma_links_step(&t0, g0@, terrain, graph@, None, false, 0, 0);
                }
            }
            Step::Expand
        },
    }
}

/// Graphs with the same partitions and voxels are linked to a world alike.
proof fn lemma_membership_linked_here(terrain: &Terrain, was: &PartitionGraph, is: &PartitionGraph)
    requires
        linked(terrain, was@),
        is@.same_membership(was@),
    ensures
        linked(terrain, is@),
{
    crate::graph::lemma_membership_linked(terrain, was@, is@);
}

/// Puts the six voxels next to `pos` on the stack, so that they come off it
/// x up first, then x down, y up, y down, z up, z down.
fn push_neighbors(work: &mut Vec<[i32; 3]>, pos: [i32; 3])
    requires
        i32::MIN < pos[0] < i32::MAX,
        i32::MIN < pos[1] < i32::MAX,
        i32::MIN < pos[2] < i32::MAX,
    ensures
        final(work)@.len() == old(work)@.len() + 6,
        forall|k: int| 0 <= k < old(work)@.len() ==> final(work)@[k] == old(work)@[k],
        forall|k: int|
            old(work)@.len() <= k < final(work)@.len() ==> crate::components::next_to(
                spot_of(pos),
                spot_of(#[trigger] final(work)@[k]),
            ),
        forall|s: Spot|
            #[trigger] crate::components::next_to(spot_of(pos), s) ==> exists|k: int|
                old(work)@.len() <= k < final(work)@.len() && spot_of(#[trigger] final(work)@[k]) == s,
{
    let ghost start = work@;
    work.push([pos[0], pos[1], pos[2] - 1]);
    work.push([pos[0], pos[1], pos[2] + 1]);
    work.push([pos[0], pos[1] - 1, pos[2]]);
    work.push([pos[0], pos[1] + 1, pos[2]]);
    work.push([pos[0] - 1, pos[1], pos[2]]);
    work.push([pos[0] + 1, pos[1], pos[2]]);
    proof {
        let n = start.len() as int;
        assert forall|s: Spot|
            #[trigger] crate::components::next_to(spot_of(pos), s) implies exists|k: int|
            n <= k < work@.len() && spot_of(#[trigger] work@[k]) == s by {
            if s.z == pos[2] - 1 {
                assert(spot_of(work@[n]) == s);
            } else if s.z == pos[2] + 1 {
                assert(spot_of(work@[n + 1]) == s);
            } else if s.y == pos[1] - 1 {
                assert(spot_of(work@[n + 2]) == s);
            } else if s.y == pos[1] + 1 {
                assert(spot_of(work@[n + 3]) == s);
            } else if s.x == pos[0] - 1 {
                assert(spot_of(work@[n + 4]) == s);
            } else {
                assert(spot_of(work@[n + 5]) == s);
            }
        }
    }
}

/// Floods partition `p` from the voxel at `seed`: every voxel that the flood
/// comes to is handled as `visit` says, and the neighbours of those that
/// joined are next. Says whether the flood came to its end; it stops early
/// only where the graph has no number left. A flood that came to its end
/// has made the partition a whole piece of the chunk.
fn flood(
    graph: &mut PartitionGraph,
    terrain: &mut Terrain,
    c: u32,
    flags: PartitionFlags,
    p: u32,
    seed: [u32; 3],
) -> (done: bool)
    requires
        filling(old(terrain), old(graph), c, flags, p),
        old(terrain).in_bounds(seed[0] as int, seed[1] as int, seed[2] as int),
        old(terrain).chunk_of(seed[0] as int, seed[1] as int, seed[2] as int) == c,
        old(terrain).voxel(seed[0] as int, seed[1] as int, seed[2] as int).partition_id == Some(p),
        !old(graph)@.partitions[p].is_computed,
        scanning(old(terrain), old(graph)@, c as int, None),
        computed_bordered(old(terrain), old(graph)@, c as int),
        links_real(old(terrain), old(graph)@, Some(c)),
    ensures
        links_real(final(terrain), final(graph)@, Some(c)),
        links_real(old(terrain), old(graph)@, None) ==> links_real(final(terrain), final(graph)@, None),
        others_kept(old(graph)@, final(graph)@, c),
        computed_bordered(final(terrain), final(graph)@, c as int),
        done ==> bordered(final(terrain), final(graph)@, c as int, p),
        filling(final(terrain), final(graph), c, flags, p),
        kept(old(terrain), old(graph), final(terrain), final(graph)),
        grown(old(terrain), final(terrain), c as int, p),
        !done ==> !(final(graph).next_partition_id() < u32::MAX
            && final(graph).next_region_id() < u32::MAX),
        !final(graph)@.partitions[p].is_computed,
        scanning(final(terrain), final(graph)@, c as int, Some(p)),
        done ==> settled(final(terrain), c as int, p),
        stable(old(terrain), old(graph)@, final(terrain), final(graph)@, c as int),
        elsewhere_same(old(terrain), final(terrain), c as int),
        computed_measured(old(graph)@, c) ==> computed_measured(final(graph)@, c),
        newcomers_vacant(old(graph)@, final(graph)@, c),
        gained_near(old(terrain), final(terrain), c as int),
        counted(old(terrain), old(graph), final(terrain), final(graph)),
{
    let ghost t0 = *terrain;
    let ghost g0 = *graph;
    let mut work: Vec<[i32; 3]> = Vec::new();
    let first = [seed[0] as i32, seed[1] as i32, seed[2] as i32];
    push_neighbors(&mut work, first);
    proof {
        lemma_kept_refl(terrain, graph);
        lemma_counted_same(terrain, graph, terrain, graph);
        lemma_flood_first(terrain, graph@, c, p, first, work@);
        assert(graph@.partitions[p].blocks.len() <= 1);
        lemma_flood_borders_first(terrain, graph@, c, p, first, work@);
    }
    while work.len() > 0
        invariant
            filling(terrain, graph, c, flags, p),
            kept(&t0, &g0, terrain, graph),
            grown(&t0, terrain, c as int, p),
            t0 == *old(terrain),
            g0 == *old(graph),
            t0.wf(),
            flooding(terrain, graph@, c as int, p, work@),
            stable(&t0, g0@, terrain, graph@, c as int),
            elsewhere_same(&t0, terrain, c as int),
            computed_bordered(terrain, graph@, c as int),
            flood_bordered(terrain, graph@, c as int, p, work@),
            others_kept(g0@, graph@, c),
            !graph@.partitions[p].is_computed,
            computed_measured(g0@, c) ==> computed_measured(graph@, c),
            newcomers_vacant(g0@, graph@, c),
            gained_near(&t0, terrain, c as int),
            counted(&t0, &g0, terrain, graph),
            links_real(terrain, graph@, Some(c)),
            links_real(&t0, g0@, None) ==> links_real(terrain, graph@, None),
        decreases foreign(terrain, c as int, p, terrain.chunk_volume()), work.len(),
    {
        let ghost t1 = *terrain;
        let ghost g1 = *graph;
        let ghost full = work@;
        let pos = match work.pop() {
            Some(pos) => pos,
            None => [0, 0, 0],
        };
        let ghost rest = work@;
        assert(full =~= rest.push(pos));
        assert(crate::pieces::has_back(&t1, c as int, p, spot_of(pos))) by {
            assert(full[full.len() - 1] == pos);
        }
        let step = visit(graph, terrain, c, flags, p, pos);
        proof {
            if step == Step::Expand {
                lemma_gained_in(&t1, g1@, terrain, graph@, c as int, p, pos);
            } else {
                lemma_gained_aside(&t1, g1@, terrain, graph@, c as int, p, pos);
            }
            lemma_gained_trans(&t0, &t1, terrain, c as int);
            if computed_measured(g1@, c) {
                assert forall|q: u32| #[trigger]
                    graph@.partitions.contains_key(q) && graph@.partitions[q].chunk_idx == c
                        && graph@.partitions[q].is_computed implies measured(graph@.partitions[q].extents) by {
                    assert(q != p);
                    assert(g1@.partitions.contains_key(q));
                }
            }
            lemma_others_trans(g0@, g1@, graph@, c);
            lemma_kept_trans(&t0, &g0, &t1, &g1, terrain, graph);
            assert forall|q: u32|
                #[trigger] graph@.partitions.contains_key(q) && !g0@.partitions.contains_key(q)
                    && graph@.partitions[q].chunk_idx != c implies graph@.partitions[q].occupants
                == Set::<u64>::empty() by {
                assert(q != p);
                if g1@.partitions.contains_key(q) {
                    assert(g1@.partitions[q].chunk_idx != c);
                }
            }
            assert forall|b: int|
                t0.has_block(c as int, b) && t0.block_at(c as int, b).partition_id == Some(p) implies (
            #[trigger] terrain.block_at(c as int, b)).partition_id == Some(p) by {
                assert(t1.has_block(c as int, b));
                assert(t1.block_at(c as int, b).partition_id == Some(p));
            }
            let taken = t1.block_of(pos[0] as int, pos[1] as int, pos[2] as int);
            if step == Step::Expand {
                t1.lemma_in_bounds(pos[0] as int, pos[1] as int, pos[2] as int);
            }
            lemma_foreign(&t1, terrain, c as int, p, t1.chunk_volume(), taken);
            assert forall|i: int, j: int|
                i != c as int && t0.has_block(i, j) && t0.block_at(i, j).partition_id is Some implies (
            #[trigger] terrain.block_at(i, j)).partition_id == t0.block_at(i, j).partition_id by {
                assert(t1.has_block(i, j));
                let mid = t1.block_at(i, j);
            }
        }
        match step {
            Step::Skip => {
                proof {
                    lemma_flood_aside(&t1, g1@, terrain, graph@, flags, c, p, rest, pos);
                    lemma_stable_trans(&t0, g0@, &t1, g1@, terrain, graph@, c as int);
                    lemma_flood_borders_aside(&t1, g1@, terrain, graph@, c, p, rest, pos);
                }
            },
            Step::Full => {
                proof {
                    lemma_flood_aside(&t1, g1@, terrain, graph@, flags, c, p, rest, pos);
                    lemma_stable_trans(&t0, g0@, &t1, g1@, terrain, graph@, c as int);
                }
                return false;
            },
            Step::Expand => {
                push_neighbors(&mut work, pos);
                proof {
                    lemma_flood_in(&t1, g1@, terrain, graph@, flags, c, p, rest, pos, work@);
                    lemma_stable_trans(&t0, g0@, &t1, g1@, terrain, graph@, c as int);
                    lemma_flood_borders_in(&t1, g1@, terrain, graph@, flags, c, p, rest, pos, work@);
                }
            },
        }
    }
    proof {
        lemma_flood_last(terrain, graph@, c, p, work@);
        lemma_flood_borders_last(terrain, graph@, c, p, work@);
    }
    true
}

/// Gives every voxel of chunk `c` that supports some movement and has no
/// owner yet a partition, and floods every partition of the chunk that is
/// not marked as computed, in the order of the voxels' numbers. Stops early
/// only where the graph has no number left.
#[verifier::rlimit(100)]
fn fill_chunk(graph: &mut PartitionGraph, terrain: &mut Terrain, c: u32) -> (r: Result<
    (),
    GraphFull,
>)
    requires
        old(graph).wf(),
        old(terrain).wf(),
        linked(old(terrain), old(graph)@),
        c < old(terrain).chunk_count,
        chunk_sound(old(terrain), old(graph)@, c as int),
        scanning(old(terrain), old(graph)@, c as int, None),
        computed_bordered(old(terrain), old(graph)@, c as int),
        computed_measured(old(graph)@, c),
        vacant(old(graph)@, c),
        stocked(old(graph)@, c),
        links_real(old(terrain), old(graph)@, Some(c)),
    ensures
        stocked(final(graph)@, c),
        r is Ok ==> chunk_settled(final(graph)@, c),
        links_real(final(terrain), final(graph)@, Some(c)),
        links_real(old(terrain), old(graph)@, None) ==> links_real(final(terrain), final(graph)@, None),
        vacant(final(graph)@, c),
        counted(old(terrain), old(graph), final(terrain), final(graph)),
        gained_near(old(terrain), final(terrain), c as int),
        newcomers_vacant(old(graph)@, final(graph)@, c),
        others_kept(old(graph)@, final(graph)@, c),
        computed_bordered(final(terrain), final(graph)@, c as int),
        r is Ok ==> chunk_bordered(final(terrain), final(graph)@, c as int),
        final(graph).wf(),
        final(terrain).wf(),
        linked(final(terrain), final(graph)@),
        kept(old(terrain), old(graph), final(terrain), final(graph)),
        chunk_sound(final(terrain), final(graph)@, c as int),
        r is Ok ==> chunk_covered(final(terrain), c as int),
        r is Err ==> !(final(graph).next_partition_id() < u32::MAX
            && final(graph).next_region_id() < u32::MAX),
        unmixed(final(terrain), c as int),
        r is Ok ==> unsplit(final(terrain), c as int),
        r is Ok ==> chunk_computed(final(terrain), final(graph)@, c as int),
        elsewhere_same(old(terrain), final(terrain), c as int),
{
    let ghost t0 = *terrain;
    let ghost g0 = *graph;
    let count = terrain.chunk_shape.size();
    let mut b: u32 = 0;
    proof {
        lemma_kept_refl(terrain, graph);
        lemma_counted_same(terrain, graph, terrain, graph);
    }
    while b < count
        invariant
            graph.wf(),
            terrain.wf(),
            linked(terrain, graph@),
            c < terrain.chunk_count,
            count == terrain.chunk_volume(),
            b <= count,
            chunk_sound(terrain, graph@, c as int),
            kept(&t0, &g0, terrain, graph),
            t0 == *old(terrain),
            g0 == *old(graph),
            t0.wf(),
            scanning(terrain, graph@, c as int, None),
            computed_bordered(terrain, graph@, c as int),
            others_kept(g0@, graph@, c),
            elsewhere_same(&t0, terrain, c as int),
            computed_measured(graph@, c),
            vacant(graph@, c),
            stocked(graph@, c),
            newcomers_vacant(g0@, graph@, c),
            gained_near(&t0, terrain, c as int),
            counted(&t0, &g0, terrain, graph),
            links_real(terrain, graph@, Some(c)),
            links_real(&t0, g0@, None) ==> links_real(terrain, graph@, None),
            forall|j: int|
                #![trigger terrain.block_at(c as int, j)]
                0 <= j < b && !terrain.block_at(c as int, j).flags.spec_is_empty() ==> {
                    &&& terrain.block_at(c as int, j).partition_id is Some
                    &&& graph@.partitions.contains_key(terrain.block_at(c as int, j).partition_id->0)
                    &&& graph@.partitions[terrain.block_at(c as int, j).partition_id->0].is_computed
                    &&& graph@.partitions[terrain.block_at(c as int, j).partition_id->0].chunk_idx == c
                },
        decreases count - b,
    {
        let voxel = terrain.get_block_by_idx(c, b);
        if !voxel.flags.is_empty() {
            let ghost t1 = *terrain;
            let ghost g1 = *graph;
            let pos = terrain.get_block_world_pos(c, b);
            let ghost at = [pos[0] as i32, pos[1] as i32, pos[2] as i32];
            let p = match voxel.partition_id {
                Some(p) => {
                    proof {
                        lemma_scanning_same(&t1, g1@, c as int);
                    }
                    p
                },
                None => {
                    if !graph.has_room() {
                        return Err(GraphFull);
                    }
                    let region = graph.create_region(voxel.flags);
                    let p = graph.create_partition(region, c, voxel.flags);
                    let ghost g2 = *graph;
                    graph.assign_block(p, b, pos, terrain);
                    proof {
                        assert(boxes_kept(g1@, g2@, None));
                        assert(boxes_kept(g2@, graph@, None));
                        if regions_true(g1@) {
                            crate::graph::lemma_regions_kept(g1@, g2@);
                        }
                        if regions_true(g2@) {
                            crate::graph::lemma_regions_kept(g2@, graph@);
                        }
                        lemma_kept_graph(&t1, &g1, &g2);
                        lemma_kept_assign(&t1, &g2, terrain, graph, c as int, b as int, p, pos);
                        lemma_kept_trans(&t1, &g1, &t1, &g2, terrain, graph);
                        assert(crate::graph::owner_changed(&t1, terrain, c as int, b as int, Some(p)));
                        assert(partitions_kept(g1@, graph@, None));
                        assert(stepped_aside(&t1, g1@, terrain, graph@, at));
                        lemma_scanning_aside(&t1, g1@, terrain, graph@, c, at);
                        crate::pieces::lemma_world_aside(&t1, g1@, terrain, graph@, at);
                        assert(adjacency_kept(g1@, graph@)) by {
                            assert forall|x: u32, y: u32|
                                #[trigger] g1@.adjacent(x, y) && graph@.partitions.contains_key(x)
                                    && graph@.partitions.contains_key(y) implies graph@.adjacent(x, y) by {
                                assert(g2@.adjacent(x, y));
                            }
                        }
                        lemma_borders_aside(&t1, g1@, terrain, graph@, c as int, None, spot_of(at));
                    }
                    p
                },
            };
            let ghost t3 = *terrain;
            let ghost g3 = *graph;
            proof {
                lemma_kept_refl(&t1, &g1);
                assert(kept(&t1, &g1, &t3, &g3));
                if voxel.partition_id is None {
                    lemma_counted_one(&t1, &g1, &t3, &g3, c as int, b as int);
                } else {
                    lemma_counted_same(&t1, &g1, &t3, &g3);
                }
                lemma_links_step(&t1, g1@, &t3, g3@, Some(c), false, 0, 0);
                if links_real(&t1, g1@, None) {
                    lemma_links_step(&t1, g1@, &t3, g3@, None, false, 0, 0);
                }
                assert(t3.block_at(c as int, b as int).partition_id == Some(p));
                assert(stable(&t1, g1@, &t3, g3@, c as int));
                assert(elsewhere_same(&t1, &t3, c as int));
            }
            let mut done = true;
            if !graph.is_partition_computed(p) {
                done = flood(graph, terrain, c, voxel.flags, p, pos);
                let ghost t4 = *terrain;
                let ghost g4 = *graph;
                if done {
                    let marked = graph.set_partition_computed(p, true);
                    let ghost g5 = *graph;
                    let measured_now = graph.update_traversal_distance(p);
                    proof {
                        assert(boxes_kept(g4@, g5@, None));
                        assert(boxes_kept(g5@, graph@, None));
                        if regions_true(g4@) {
                            crate::graph::lemma_regions_kept(g4@, g5@);
                        }
                        if regions_true(g5@) {
                            crate::graph::lemma_regions_kept(g5@, graph@);
                        }
                        lemma_kept_graph(&t4, &g4, &g5);
                        lemma_kept_graph(&t4, &g5, graph);
                        lemma_links_step(&t4, g4@, &t4, graph@, Some(c), false, 0, 0);
                        if links_real(&t4, g4@, None) {
                            lemma_links_step(&t4, g4@, &t4, graph@, None, false, 0, 0);
                        }
                        lemma_kept_trans(&t4, &g4, &t4, &g5, &t4, graph);
                        crate::graph::lemma_membership_linked(&t4, g4@, g5@);
                        crate::graph::lemma_membership_linked(&t4, g5@, graph@);
                        lemma_flood_marked(&t4, g4@, graph@, c, p);
                        lemma_borders_marked(&t4, g4@, graph@, c, Some(p));
                        lemma_kept_trans(&t3, &g3, &t4, &g4, &t4, graph);
                        lemma_stable_marked(&t3, g3@, &t4, g4@, graph@, c as int, p);
                    }
                }
            } else {
                proof {
                    lemma_stable_same(&t3, g3@, c as int);
                }
            }
            proof {
                assert(others_kept(g1@, g3@, c)) by {
                    assert forall|x: u32, y: u32|
                        #[trigger] g1@.adjacent(x, y) && g1@.partitions[x].chunk_idx != c
                            && g1@.partitions.contains_key(y) && g1@.partitions[y].chunk_idx
                            != c implies g3@.adjacent(x, y) by {
                        assert(g3@.partitions.contains_key(x) && g3@.partitions.contains_key(y));
                    }
                }
                assert(others_kept(g3@, graph@, c)) by {
                    assert forall|x: u32, y: u32|
                        #[trigger] g3@.adjacent(x, y) && g3@.partitions[x].chunk_idx != c
                            && g3@.partitions.contains_key(y) && g3@.partitions[y].chunk_idx
                            != c implies graph@.adjacent(x, y) by {
                        assert(graph@.partitions.contains_key(x) && graph@.partitions.contains_key(y));
                    }
                }
                lemma_others_trans(g1@, g3@, graph@, c);
                lemma_others_trans(g0@, g1@, graph@, c);
                lemma_kept_trans(&t1, &g1, &t3, &g3, terrain, graph);
                lemma_kept_trans(&t0, &g0, &t1, &g1, terrain, graph);
                assert(gained_near(&t1, &t3, c as int)) by {
                    assert forall|s: Spot|
                        t1.in_bounds(s.x, s.y, s.z) && t1.chunk_of(s.x, s.y, s.z) != c as int && owner_at(
                            &t1,
                            s,
                        ) is None && (#[trigger] owner_at(&t3, s)) is Some implies near_chunk(
                        &t1,
                        c as int,
                        s,
                    ) by {
                        t1.lemma_in_bounds(s.x, s.y, s.z);
                        let here = t3.block_at(t1.chunk_of(s.x, s.y, s.z), t1.block_of(s.x, s.y, s.z));
                    }
                }
                lemma_gained_trans(&t1, &t3, terrain, c as int);
                lemma_gained_trans(&t0, &t1, terrain, c as int);
                assert forall|q: u32|
                    #[trigger] graph@.partitions.contains_key(q) && !g0@.partitions.contains_key(q)
                        && graph@.partitions[q].chunk_idx != c implies graph@.partitions[q].occupants
                    == Set::<u64>::empty() by {
                    if g1@.partitions.contains_key(q) {
                        assert(g1@.partitions[q].chunk_idx != c);
                    } else if g3@.partitions.contains_key(q) {
                        assert(g3@.partitions[q].chunk_idx == c);
                    }
                }
                assert(chunk_sound(&t1, g1@, c as int));
                lemma_stable_trans(&t1, g1@, &t3, g3@, terrain, graph@, c as int);
                assert forall|i: int, j: int|
                    i != c as int && t0.has_block(i, j) && t0.block_at(i, j).partition_id is Some implies (
                #[trigger] terrain.block_at(i, j)).partition_id == t0.block_at(i, j).partition_id by {
                    assert(t1.has_block(i, j));
                    let one = t1.block_at(i, j);
                    assert(t3.has_block(i, j));
                    let three = t3.block_at(i, j);
                }
            }
            if !done {
                return Err(GraphFull);
            }
            proof {
                assert forall|j: int|
                    #![trigger terrain.block_at(c as int, j)]
                    0 <= j < b + 1 && !terrain.block_at(c as int, j).flags.spec_is_empty() implies {
                    &&& terrain.block_at(c as int, j).partition_id is Some
                    &&& graph@.partitions.contains_key(terrain.block_at(c as int, j).partition_id->0)
                    &&& graph@.partitions[terrain.block_at(c as int, j).partition_id->0].is_computed
                    &&& graph@.partitions[terrain.block_at(c as int, j).partition_id->0].chunk_idx == c
                } by {
                    assert(t1.has_block(c as int, j));
                    let was = t1.block_at(c as int, j);
                    let mid = t3.block_at(c as int, j);
                }
            }
        }
        b += 1;
    }
    proof {
        lemma_unsplit(terrain, graph@, c);
        lemma_chunk_bordered(terrain, graph@, c);
        assert forall|q: u32| #[trigger]
            graph@.partitions.contains_key(q) && graph@.partitions[q].chunk_idx == c implies graph@.partitions[q].is_computed
            && measured(graph@.partitions[q].extents) by {
            let j = graph@.partitions[q].blocks[0] as int;
            assert(terrain.has_block(c as int, j));
            let owned = terrain.block_at(c as int, j);
            assert(owned.partition_id == Some(q));
        }
    }
    Ok(())
}

/// Nothing changes where nothing is done.
proof fn lemma_scanning_same(terrain: &Terrain, graph: GraphView, c: int)
    ensures
        stable(terrain, graph, terrain, graph, c),
        elsewhere_same(terrain, terrain, c),
{
}

/// Nothing changes where nothing is done.
proof fn lemma_stable_same(terrain: &Terrain, graph: GraphView, c: int)
    ensures
        stable(terrain, graph, terrain, graph, c),
{
}

/// What was stable up to the end of a flood is stable when the flooded
/// partition is marked as computed.
proof fn lemma_stable_marked(
    before: &Terrain,
    was: GraphView,
    after: &Terrain,
    mid: GraphView,
    now: GraphView,
    c: int,
    p: u32,
)
    requires
        stable(before, was, after, mid, c),
        now.partitions.dom() == mid.partitions.dom(),
        forall|q: u32| #[trigger]
            mid.partitions.contains_key(q) && q != p ==> now.partitions[q].is_computed
                == mid.partitions[q].is_computed,
        now.partitions.contains_key(p) ==> now.partitions[p].is_computed,
    ensures
        stable(before, was, after, now, c),
{
    assert forall|j: int|
        #![trigger after.block_at(c, j)]
        before.has_block(c, j) && before.block_at(c, j).partition_id is Some && was.partitions.contains_key(
            before.block_at(c, j).partition_id->0,
        ) && was.partitions[before.block_at(c, j).partition_id->0].is_computed implies {
        let q = before.block_at(c, j).partition_id->0;
        &&& after.block_at(c, j).partition_id == Some(q)
        &&& now.partitions.contains_key(q)
        &&& now.partitions[q].is_computed
    } by {
        let q = before.block_at(c, j).partition_id->0;
        assert(mid.partitions.contains_key(q));
        assert(now.partitions.dom().contains(q));
    }
}

/// What partitioning a chunk anew gives back.
pub struct Rebuild {
    /// Who stood in the partitions that were removed, and now has to be
    /// placed again.
    pub occupants: Vec<u64>,
    /// Every voxel of the chunk that supports some movement has a
    /// partition. Not so only where the graph had no number left.
    pub complete: bool,
}

/// `o` stood in a partition of chunk `c`.
pub open spec fn stood_in(graph: GraphView, c: u32, o: u64) -> bool {
    exists|p: u32|
        #![trigger graph.partitions[p]]
        graph.partitions.contains_key(p) && graph.partitions[p].chunk_idx == c
            && graph.partitions[p].occupants.contains(o)
}

/// The occupants of the given partitions, one list after the other.
fn gather_occupants(removed: &Vec<Partition>) -> (occupants: Vec<u64>)
    ensures
        forall|o: u64|
            occupants@.contains(o) <==> exists|k: int|
                0 <= k < removed@.len() && (#[trigger] removed@[k])@.occupants.contains(o),
{
    let mut occupants: Vec<u64> = Vec::new();
    let mut i: usize = 0;
    while i < removed.len()
        invariant
            i <= removed.len(),
            forall|o: u64|
                occupants@.contains(o) <==> exists|k: int|
                    0 <= k < i && (#[trigger] removed@[k])@.occupants.contains(o),
        decreases removed.len() - i,
    {
        let list = removed[i].occupant_list();
        let ghost had = occupants@;
        let mut j: usize = 0;
        while j < list.len()
            invariant
                j <= list.len(),
                i < removed.len(),
                occupants@ == had + list@.subrange(0, j as int),
            decreases list.len() - j,
        {
            occupants.push(list[j]);
            j += 1;
            assert(occupants@ =~= had + list@.subrange(0, j as int));
        }
        proof {
            assert(list@.subrange(0, list@.len() as int) =~= list@);
            assert forall|o: u64|
                occupants@.contains(o) <==> exists|k: int|
                    0 <= k < i + 1 && (#[trigger] removed@[k])@.occupants.contains(o) by {
                if occupants@.contains(o) {
                    let at = choose|at: int| 0 <= at < occupants@.len() && occupants@[at] == o;
                    if at < had.len() {
                        assert(had[at] == o);
                        assert(had.contains(o));
                    } else {
                        assert(list@[at - had.len()] == o);
                        assert(list@.contains(o));
                        assert(removed@[i as int]@.occupants.contains(o));
                    }
                }
                if exists|k: int| 0 <= k < i + 1 && (#[trigger] removed@[k])@.occupants.contains(o) {
                    let k = choose|k: int|
                        0 <= k < i + 1 && (#[trigger] removed@[k])@.occupants.contains(o);
                    if k < i {
                        assert(had.contains(o));
                        let at = choose|at: int| 0 <= at < had.len() && had[at] == o;
                        assert(occupants@[at] == o);
                    } else {
                        assert(list@.contains(o));
                        let at = choose|at: int| 0 <= at < list@.len() && list@[at] == o;
                        assert(occupants@[had.len() + at] == o);
                    }
                }
            }
        }
        i += 1;
    }
    occupants
}

/// Partitions chunk `chunk_idx` anew. The partitions of the chunk are
/// removed and its voxels left without owner; then the voxels are scanned
/// in the order of their numbers, and every voxel that supports some
/// movement gets a partition of its own mask, by a flood from the first
/// voxel of each. Partitions of other chunks are kept; a flood that comes to
/// the border of the chunk records what lies beyond as a neighbour. The
/// occupants of the removed partitions are given back to be placed again.
///
/// Afterwards the voxels of every partition of the chunk are joined by
/// trails of voxels of their mask, and, unless the graph ran out of
/// numbers, no such trail leads from one partition to another: the
/// partitions are the whole pieces of the chunk. Every voxel next to a
/// partition of the chunk that supports some movement then has an owner,
/// which is the partition itself or a neighbour of it, and every partition
/// of the chunk is marked as computed and measured over its bounding box.
///
/// The partitions of before are gone from the chunk and their numbers are
/// not given again. The new partitions hold nobody, and the partitions of
/// other chunks keep their occupants. A partition of the chunk has no
/// neighbour that it does not touch, and where that held of every partition
/// before, it holds of every partition after. Every partition of the chunk
/// lists a voxel, lies in its bounding box and, after a complete rebuild, is
/// marked as computed and measured. Where neighbours of one mask shared a
/// region and the regions of neighbours of differing masks were neighbours,
/// that is so afterwards too: partitions that become one bring their regions
/// together first. Outside the chunk only voxels next to it that support
/// some movement get an owner, which is a new partition, and no voxel loses
/// one; the partitions of other chunks keep what they held. The rebuild is
/// complete wherever the graph has a number left for every voxel of the
/// world.
pub fn partition(graph: &mut PartitionGraph, terrain: &mut Terrain, chunk_idx: u32) -> (r: Rebuild)
    requires
        old(graph).wf(),
        old(terrain).wf(),
        linked(old(terrain), old(graph)@),
        chunk_idx < old(terrain).chunk_count,
    ensures
        final(graph).wf(),
        final(terrain).wf(),
        linked(final(terrain), final(graph)@),
        final(terrain).same_but_owners(old(terrain)),
        chunk_sound(final(terrain), final(graph)@, chunk_idx as int),
        r.complete ==> chunk_covered(final(terrain), chunk_idx as int),
        !r.complete ==> !(final(graph).next_partition_id() < u32::MAX
            && final(graph).next_region_id() < u32::MAX),
        forall|c: int|
            c != chunk_idx && #[trigger] chunk_sound(old(terrain), old(graph)@, c) ==> chunk_sound(
                final(terrain),
                final(graph)@,
                c,
            ),
        forall|c: int, b: int|
            c != chunk_idx && old(terrain).has_block(c, b) && old(terrain).block_at(
                c,
                b,
            ).partition_id is Some ==> (#[trigger] final(terrain).block_at(c, b)).partition_id is Some,
        forall|o: u64| r.occupants@.contains(o) <==> stood_in(old(graph)@, chunk_idx, o),
        unmixed(final(terrain), chunk_idx as int),
        r.complete ==> unsplit(final(terrain), chunk_idx as int),
        r.complete ==> chunk_bordered(final(terrain), final(graph)@, chunk_idx as int),
        r.complete ==> chunk_computed(final(terrain), final(graph)@, chunk_idx as int),
        others_kept(old(graph)@, final(graph)@, chunk_idx),
        elsewhere_same(old(terrain), final(terrain), chunk_idx as int),
        boxed(final(terrain), final(graph)@, Some(chunk_idx)),
        boxed(old(terrain), old(graph)@, None) ==> boxed(final(terrain), final(graph)@, None),
        forall|q: u32| #[trigger]
            final(graph)@.partitions.contains_key(q) ==> (old(graph)@.partitions.contains_key(q) && old(
                graph,
            )@.partitions[q].chunk_idx != chunk_idx) || q >= old(graph).next_partition_id(),
        forall|q: u32| #[trigger]
            final(graph)@.partitions.contains_key(q) ==> final(graph)@.partitions[q].occupants == if old(
                graph,
            )@.partitions.contains_key(q) {
                old(graph)@.partitions[q].occupants
            } else {
                Set::<u64>::empty()
            },
        forall|q: u32|
            #[trigger] old(graph)@.partitions.contains_key(q) && old(graph)@.partitions[q].chunk_idx
                == chunk_idx ==> !final(graph)@.partitions.contains_key(q),
        gained_near(old(terrain), final(terrain), chunk_idx as int),
        stocked(final(graph)@, chunk_idx),
        r.complete ==> chunk_settled(final(graph)@, chunk_idx),
        regions_true(old(graph)@) ==> regions_true(final(graph)@),
        forall|i: int, j: int|
            old(terrain).has_block(i, j) ==> ((#[trigger] final(terrain).block_at(i, j)).partition_id matches Some(
                q,
            ) ==> old(terrain).block_at(i, j).partition_id == Some(q) || q >= old(
                graph,
            ).next_partition_id()),
        links_real(final(terrain), final(graph)@, Some(chunk_idx)),
        links_real(old(terrain), old(graph)@, None) ==> links_real(final(terrain), final(graph)@, None),
        final(graph).next_partition_id() <= old(graph).next_partition_id() + world_cells(old(terrain)),
        final(graph).next_region_id() <= old(graph).next_region_id() + world_cells(old(terrain)),
        old(graph).next_partition_id() + world_cells(old(terrain)) < u32::MAX && old(
            graph,
        ).next_region_id() + world_cells(old(terrain)) < u32::MAX ==> r.complete,
{
    let ghost t0 = *terrain;
    let ghost g0 = *graph;
    let removed = graph.delete_partitions_for_chunk(chunk_idx, terrain);
    let occupants = gather_occupants(&removed);
    let ghost t1 = *terrain;
    let ghost g1 = *graph;
    proof {
        assert forall|o: u64| occupants@.contains(o) <==> stood_in(g0@, chunk_idx, o) by {
            if occupants@.contains(o) {
                let k = choose|k: int|
                    0 <= k < removed@.len() && (#[trigger] removed@[k])@.occupants.contains(o);
                let p = removed@[k].id;
                assert(g0@.partitions[p].occupants.contains(o));
            }
            if stood_in(g0@, chunk_idx, o) {
                let p = choose|p: u32|
                    #![trigger g0@.partitions[p]]
                    g0@.partitions.contains_key(p) && g0@.partitions[p].chunk_idx == chunk_idx
                        && g0@.partitions[p].occupants.contains(o);
                let k = choose|k: int| 0 <= k < removed@.len() && (#[trigger] removed@[k]).id == p;
                assert(removed@[k]@.occupants.contains(o));
            }
        }
        assert forall|c: int|
            c != chunk_idx && #[trigger] chunk_sound(&t0, g0@, c) implies chunk_sound(&t1, g1@, c) by {
            assert forall|b: int|
                #![trigger t1.block_at(c, b)]
                t1.has_block(c, b) && t1.block_at(c, b).partition_id is Some implies {
                let p = t1.block_at(c, b).partition_id->0;
                &&& g1@.partitions.contains_key(p)
                &&& g1@.partitions[p].flags == t1.block_at(c, b).flags
                &&& !t1.block_at(c, b).flags.spec_is_empty()
            } by {
                assert(t0.has_block(c, b));
                let was = t0.block_at(c, b);
                let p = t0.block_at(c, b).partition_id->0;
                assert(g0@.partitions.contains_key(p));
                assert(g0@.partitions[p].chunk_idx == c);
            }
        }
        assert(chunk_sound(&t1, g1@, chunk_idx as int));
        assert forall|q: u32| #[trigger] g1@.partitions.contains_key(q) implies g1@.partitions[q].chunk_idx
            != chunk_idx by {
            assert(g0@.partitions.contains_key(q) && g0@.partitions[q].chunk_idx != chunk_idx);
        }
        lemma_scanning_cleared(&t1, g1@, chunk_idx);
        lemma_borders_cleared(&t1, g1@, chunk_idx);
        lemma_boxed_cleared(&t0, g0@, &t1, g1@, chunk_idx);
        if links_real(&t0, g0@, None) {
            lemma_links_cleared(&t0, g0@, &t1, g1@, chunk_idx);
        }
    }
    let filled = fill_chunk(graph, terrain, chunk_idx);
    proof {
        assert(others_kept(g0@, g1@, chunk_idx)) by {
            assert forall|x: u32, y: u32|
                #[trigger] g0@.adjacent(x, y) && g0@.partitions[x].chunk_idx != chunk_idx
                    && g0@.partitions.contains_key(y) && g0@.partitions[y].chunk_idx
                    != chunk_idx implies g1@.adjacent(x, y) by {
                assert(g1@.partitions.contains_key(x));
            }
        }
        lemma_others_trans(g0@, g1@, graph@, chunk_idx);
        g0.lemma_next_ids();
        assert forall|q: u32| #[trigger] graph@.partitions.contains_key(q) implies (g0@.partitions.contains_key(
            q,
        ) && g0@.partitions[q].chunk_idx != chunk_idx) || q >= g0.next_partition_id() by {
            assert(g1@.partitions.contains_key(q) || q >= g1.next_partition_id());
        }
        lemma_new_owner_is_new(&t0, &g0, terrain, graph, chunk_idx);
        crate::shape::lemma_index_in_range(
            t1.chunk_shape.dx(),
            t1.chunk_shape.dy(),
            t1.chunk_shape.dz(),
            0,
            0,
            0,
        );
        lemma_unowned(&t1, &t1, t1.chunk_count as int, 0, 0);
        assert(gained_near(&t0, &t1, chunk_idx as int)) by {
            assert forall|s: Spot|
                t0.in_bounds(s.x, s.y, s.z) && t0.chunk_of(s.x, s.y, s.z) != chunk_idx as int && owner_at(
                    &t0,
                    s,
                ) is None && (#[trigger] owner_at(&t1, s)) is Some implies near_chunk(
                &t0,
                chunk_idx as int,
                s,
            ) by {
                t0.lemma_in_bounds(s.x, s.y, s.z);
                let here = t1.block_at(t0.chunk_of(s.x, s.y, s.z), t0.block_of(s.x, s.y, s.z));
            }
        }
        lemma_gained_trans(&t0, &t1, terrain, chunk_idx as int);
        assert forall|i: int, j: int|
            i != chunk_idx as int && t0.has_block(i, j) && t0.block_at(i, j).partition_id is Some implies (
        #[trigger] terrain.block_at(i, j)).partition_id == t0.block_at(i, j).partition_id by {
            assert(t1.has_block(i, j));
            let m = t1.block_at(i, j);
        }
        assert forall|c: int, b: int| t0.has_block(c, b) implies #[trigger] terrain.block_at(c, b) == (
        crate::block::Block {
            partition_id: terrain.block_at(c, b).partition_id,
            ..t0.block_at(c, b)
        }) by {
            assert(t1.has_block(c, b));
            let m = t1.block_at(c, b);
        }
        assert forall|c: int, b: int|
            c != chunk_idx && t0.has_block(c, b) && t0.block_at(c, b).partition_id is Some implies (
        #[trigger] terrain.block_at(c, b)).partition_id is Some by {
            assert(t1.has_block(c, b));
            let m = t1.block_at(c, b);
        }
    }
    Rebuild { occupants, complete: filled.is_ok() }
}

/// Taking the partitions of a chunk away, and the owners of its voxels,
/// leaves every other voxel in the bounding box of its owner.
proof fn lemma_boxed_cleared(before: &Terrain, was: GraphView, after: &Terrain, now: GraphView, c: u32)
    requires
        before.wf(),
        linked(before, was),
        after.same_but_owners(before),
        forall|i: int, j: int|
            before.has_block(i, j) ==> (#[trigger] after.block_at(i, j)).partition_id == if i == c {
                None
            } else {
                before.block_at(i, j).partition_id
            },
        forall|x: u32|
            now.partitions.contains_key(x) <==> #[trigger] was.partitions.contains_key(x)
                && was.partitions[x].chunk_idx != c,
        forall|x: u32| #[trigger]
            now.partitions.contains_key(x) ==> now.partitions[x].extents == was.partitions[x].extents,
    ensures
        boxed(before, was, None) ==> boxed(after, now, None),
        boxed(after, now, Some(c)),
{
    assert(boxed(after, now, Some(c))) by {
        reveal(boxed);
        assert forall|x: int, y: int, z: int|
            after.in_bounds(x, y, z) && after.chunk_of(x, y, z) == c implies (#[trigger] after.voxel(
            x,
            y,
            z,
        )).partition_id is None by {
            before.lemma_in_bounds(x, y, z);
        }
    }
    if boxed(before, was, None) {
        reveal(boxed);
        assert forall|x: int, y: int, z: int|
            after.in_bounds(x, y, z) && (#[trigger] after.voxel(x, y, z)).partition_id is Some implies {
            let q = after.voxel(x, y, z).partition_id->0;
            now.partitions.contains_key(q) && now.partitions[q].extents.holds(x, y, z)
        } by {
            before.lemma_in_bounds(x, y, z);
            let old_voxel = before.voxel(x, y, z);
            let q = old_voxel.partition_id->0;
            assert(old_voxel.partition_id is Some);
            assert(was.partitions.contains_key(q));
            assert(was.partitions[q].chunk_idx == before.chunk_of(x, y, z));
        }
    }
}

/// Where no voxel has an owner, every voxel that has one lies in the
/// bounding box of its owner.
pub proof fn lemma_boxed_start(terrain: &Terrain, graph: GraphView)
    requires
        terrain.wf(),
        forall|c: int, b: int| terrain.has_block(c, b) ==> (#[trigger] terrain.block_at(c, b)).partition_id is None,
    ensures
        boxed(terrain, graph, None),
{
    reveal(boxed);
    assert forall|x: int, y: int, z: int|
        terrain.in_bounds(x, y, z) implies (#[trigger] terrain.voxel(x, y, z)).partition_id is None by {
        terrain.lemma_in_bounds(x, y, z);
    }
}

/// A voxel that has another owner than before has a partition that was not
/// there before.
proof fn lemma_new_owner_is_new(
    before: &Terrain,
    was: &PartitionGraph,
    after: &Terrain,
    is: &PartitionGraph,
    c: u32,
)
    requires
        linked(before, was@),
        linked(after, is@),
        after.same_but_owners(before),
        others_kept(was@, is@, c),
        forall|q: u32| #[trigger]
            is@.partitions.contains_key(q) ==> (was@.partitions.contains_key(q) && was@.partitions[q].chunk_idx
                != c) || q >= was.next_partition_id(),
    ensures
        forall|i: int, j: int|
            before.has_block(i, j) ==> ((#[trigger] after.block_at(i, j)).partition_id matches Some(q)
                ==> before.block_at(i, j).partition_id == Some(q) || q >= was.next_partition_id()),
{
    assert forall|i: int, j: int| before.has_block(i, j) implies ((#[trigger] after.block_at(
        i,
        j,
    )).partition_id matches Some(q) ==> before.block_at(i, j).partition_id == Some(q) || q
        >= was.next_partition_id()) by {
        if after.block_at(i, j).partition_id is Some {
            let q = after.block_at(i, j).partition_id->0;
            assert(is@.partitions.contains_key(q));
            if was@.partitions.contains_key(q) && was@.partitions[q].chunk_idx != c {
                assert(same_holdings(was@.partitions[q], is@.partitions[q]));
                assert(is@.partitions[q].holds_block(j));
                let k = choose|k: int|
                    0 <= k < is@.partitions[q].blocks.len() && #[trigger] is@.partitions[q].blocks[k] == j;
                let listed = was@.partitions[q].blocks[k];
                assert(before.block_at(was@.partitions[q].chunk_idx as int, listed as int).partition_id
                    == Some(q));
            }
        }
    }
}

/// Places an occupant that stands on the voxel at `pos`: the partition that
/// owns the voxel records the occupant and is given back. An occupant on a
/// voxel without owner is stranded: nothing is recorded and nothing given
/// back.
pub fn rehome(graph: &mut PartitionGraph, terrain: &Terrain, occupant: u64, pos: [u32; 3]) -> (r:
    Result<Option<InPartition>, NavError>)
    requires
        old(graph).wf(),
        terrain.wf(),
    ensures
        final(graph).wf(),
        final(graph).same_ids(old(graph)),
        final(graph)@.same_membership(old(graph)@),
        match terrain.voxel(pos[0] as int, pos[1] as int, pos[2] as int).partition_id {
            Some(p) => if old(graph)@.partitions.contains_key(p) {
                &&& r == Ok::<Option<InPartition>, NavError>(Some(InPartition { partition_id: p }))
                &&& final(graph)@ == old(graph)@.with_content(
                    p,
                    PartitionView {
                        occupants: old(graph)@.partitions[p].occupants.insert(occupant),
                        ..old(graph)@.partitions[p]
                    },
                )
            } else {
                &&& r == Err::<Option<InPartition>, NavError>(NavError::MissingGraphReference)
                &&& final(graph)@ == old(graph)@
            },
            None => {
                &&& r == Ok::<Option<InPartition>, NavError>(None)
                &&& final(graph)@ == old(graph)@
            },
        },
{
    match terrain.get_partition_id_u32(pos[0], pos[1], pos[2]) {
        Some(p) => {
            if graph.contains_partition(p) {
                let fresh = graph.add_occupant(p, occupant);
                Ok(Some(InPartition { partition_id: p }))
            } else {
                Err(NavError::MissingGraphReference)
            }
        },
        None => Ok(None),
    }
}

/// A partition is a whole piece and nothing more: in a chunk that is not
/// split and whose owners are not mixed, two voxels that support some
/// movement and have an owner have the same owner exactly if a trail of
/// voxels of their mask joins them.
pub proof fn lemma_whole_pieces(terrain: &Terrain, c: int, a: Spot, b: Spot)
    requires
        unsplit(terrain, c),
        unmixed(terrain, c),
        in_chunk(terrain, c, a),
        in_chunk(terrain, c, b),
        owner_at(terrain, a) is Some,
    ensures
        owner_at(terrain, a) == owner_at(terrain, b) <==> crate::components::joined(terrain, c, a, b),
{
    if crate::components::joined(terrain, c, a, b) {
        crate::components::lemma_joined_owner(terrain, c, a, b);
    }
}

/// Partitioning is repeatable: two worlds of one layout whose voxels of
/// chunk `c` have the same masks, each partitioned to the end, group the
/// voxels of the chunk alike, whatever numbers the partitions have.
pub proof fn lemma_same_grouping(first: &Terrain, second: &Terrain, c: int, a: Spot, b: Spot)
    requires
        first.wf(),
        second.wf(),
        second.same_layout(first),
        forall|s: Spot| in_chunk(first, c, s) ==> #[trigger] mask_at(second, s) == mask_at(first, s),
        chunk_covered(first, c),
        unsplit(first, c),
        unmixed(first, c),
        chunk_covered(second, c),
        unsplit(second, c),
        unmixed(second, c),
        in_chunk(first, c, a),
        in_chunk(first, c, b),
        !mask_at(first, a).spec_is_empty(),
        !mask_at(first, b).spec_is_empty(),
    ensures
        owner_at(first, a) == owner_at(first, b) <==> owner_at(second, a) == owner_at(second, b),
{
    first.lemma_in_bounds(a.x, a.y, a.z);
    second.lemma_in_bounds(a.x, a.y, a.z);
    let cell_one = first.block_at(c, first.block_of(a.x, a.y, a.z));
    let cell_two = second.block_at(c, second.block_of(a.x, a.y, a.z));
    assert(mask_at(second, a) == mask_at(first, a));
    assert(owner_at(first, a) is Some);
    assert(owner_at(second, a) is Some);
    lemma_whole_pieces(first, c, a, b);
    lemma_whole_pieces(second, c, a, b);
    if crate::components::joined(first, c, a, b) {
        crate::components::lemma_joined_same_masks(first, second, c, a, b);
    }
    if crate::components::joined(second, c, a, b) {
        assert forall|s: Spot| in_chunk(second, c, s) implies #[trigger] mask_at(first, s) == mask_at(
            second,
            s,
        ) by {
            assert(mask_at(second, s) == mask_at(first, s));
        }
        crate::components::lemma_joined_same_masks(second, first, c, a, b);
    }
}

/// The neighbours of a partition are the partitions that it touches: where
/// chunk `c` is partitioned to the end, a partition of the chunk has another
/// partition for a neighbour exactly if a voxel of the one is next to a
/// voxel of the other. So partitioning the same world again gives the same
/// neighbours, whatever numbers the partitions get.
pub proof fn lemma_neighbours_touch(terrain: &Terrain, graph: GraphView, c: u32, p: u32, q: u32)
    requires
        terrain.wf(),
        linked(terrain, graph),
        forall|cc: int| chunk_sound(terrain, graph, cc),
        chunk_bordered(terrain, graph, c as int),
        links_real(terrain, graph, Some(c)),
        graph.partitions.contains_key(p),
        graph.partitions[p].chunk_idx == c,
        p != q,
    ensures
        graph.adjacent(p, q) <==> touching(terrain, p, q),
{
    if touching(terrain, p, q) {
        let (a, b) = choose|a: Spot, b: Spot|
            #[trigger] crate::components::next_to(a, b) && owner_at(terrain, a) == Some(p) && owner_at(
                terrain,
                b,
            ) == Some(q);
        terrain.lemma_in_bounds(a.x, a.y, a.z);
        terrain.lemma_in_bounds(b.x, b.y, b.z);
        let one = terrain.block_at(terrain.chunk_of(a.x, a.y, a.z), terrain.block_of(a.x, a.y, a.z));
        let two = terrain.block_at(terrain.chunk_of(b.x, b.y, b.z), terrain.block_of(b.x, b.y, b.z));
        assert(chunk_sound(terrain, graph, terrain.chunk_of(b.x, b.y, b.z)));
        assert(crate::borders::border(terrain, c as int, p, a, b));
        assert(tied(terrain, graph, p, b));
    }
}

/// Chunk `c` is partitioned to the end: every voxel that supports some
/// movement has an owner of its mask, the partitions are the whole pieces
/// of the chunk, and every partition knows its neighbours.
pub open spec fn finished(terrain: &Terrain, graph: GraphView, c: int) -> bool {
    &&& chunk_sound(terrain, graph, c)
    &&& chunk_covered(terrain, c)
    &&& unsplit(terrain, c)
    &&& unmixed(terrain, c)
    &&& chunk_bordered(terrain, graph, c)
}

/// A chunk that is partitioned to the end stays so when another chunk is
/// partitioned to the end: what `partition` gives for chunk `c` keeps
/// every other finished chunk finished.
pub proof fn lemma_finished_elsewhere(
    before: &Terrain,
    was: GraphView,
    after: &Terrain,
    now: GraphView,
    c: u32,
    other: int,
)
    requires
        before.wf(),
        now.wf(),
        linked(before, was),
        linked(after, now),
        after.same_but_owners(before),
        elsewhere_same(before, after, c as int),
        others_kept(was, now, c),
        other != c,
        finished(before, was, other),
        chunk_sound(after, now, other),
        chunk_covered(after, c as int),
        chunk_bordered(after, now, c as int),
    ensures
        finished(after, now, other),
{
    crate::pieces::lemma_same_masks(before, after);
    // every voxel of the other chunk has the owner it had
    assert forall|s: Spot| in_chunk(before, other, s) implies #[trigger] owner_at(after, s) == owner_at(
        before,
        s,
    ) by {
        before.lemma_in_bounds(s.x, s.y, s.z);
        let j = before.block_of(s.x, s.y, s.z);
        let then = before.block_at(other, j);
        let here = after.block_at(other, j);
    }
    assert forall|j: int|
        #![trigger after.block_at(other, j)]
        after.has_block(other, j) && !after.block_at(other, j).flags.spec_is_empty() implies after.block_at(
        other,
        j,
    ).partition_id is Some by {
        let then = before.block_at(other, j);
    }
    assert forall|a: Spot, b: Spot| #[trigger] alike(after, other, a, b) implies owner_at(after, a)
        == owner_at(after, b) by {
        assert(alike(before, other, a, b));
        assert(owner_at(after, a) == owner_at(before, a));
        assert(owner_at(after, b) == owner_at(before, b));
    }
    assert forall|a: Spot, b: Spot|
        in_chunk(after, other, a) && in_chunk(after, other, b) && owner_at(after, a) is Some
            && #[trigger] owner_at(after, a) == #[trigger] owner_at(after, b) implies crate::components::joined(
        after,
        other,
        a,
        b,
    ) by {
        assert(owner_at(after, a) == owner_at(before, a));
        assert(owner_at(after, b) == owner_at(before, b));
        assert(crate::components::joined(before, other, a, b));
        crate::components::lemma_joined_same_masks(before, after, other, a, b);
    }
    assert forall|p: u32, a: Spot, b: Spot|
        #[trigger] crate::borders::border(after, other, p, a, b) implies tied(after, now, p, b) by {
        assert(owner_at(after, a) == owner_at(before, a));
        assert(mask_at(after, b) == mask_at(before, b));
        before.lemma_in_bounds(a.x, a.y, a.z);
        let a_cell = before.block_at(other, before.block_of(a.x, a.y, a.z));
        assert(was.partitions.contains_key(p) && was.partitions[p].chunk_idx == other);
        before.lemma_in_bounds(b.x, b.y, b.z);
        let b_chunk = before.chunk_of(b.x, b.y, b.z);
        let b_then = before.block_at(b_chunk, before.block_of(b.x, b.y, b.z));
        let b_here = after.block_at(b_chunk, before.block_of(b.x, b.y, b.z));
        if b_chunk == c {
            // the voxel beyond lies in the chunk that was partitioned: its
            // new owner has met this voxel and its partition
            assert(owner_at(after, b) is Some);
            let q = owner_at(after, b)->0;
            assert(now.partitions.contains_key(q) && now.partitions[q].chunk_idx == c);
            let a_here = after.block_at(other, before.block_of(a.x, a.y, a.z));
            assert(!mask_at(after, a).spec_is_empty());
            assert(crate::borders::border(after, c as int, q, b, a));
            assert(tied(after, now, q, a));
            assert(now.adjacent(q, p));
            assert(now.adjacent(p, q));
        } else {
            assert(crate::borders::border(before, other, p, a, b));
            assert(tied(before, was, p, b));
            let q = owner_at(before, b)->0;
            assert(was.partitions.contains_key(q) && was.partitions[q].chunk_idx == b_chunk);
            assert(owner_at(after, b) == Some(q));
            if q != p {
                assert(was.adjacent(p, q));
            }
        }
    }
}

} // verus!
