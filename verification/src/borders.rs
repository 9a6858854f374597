//! Why every partition of a chunk knows its neighbours.
//!
//! While a partition is flooded, every voxel next to one of its voxels that
//! supports some movement either waits on the stack or has an owner that is
//! the partition or a neighbour of it. Once the stack is empty the partition
//! knows all its neighbours, and it keeps knowing them while other
//! partitions are flooded.
use crate::components::in_chunk;
use crate::components::mask_at;
use crate::components::next_to;
use crate::components::owner_at;
use crate::components::spot_of;
use crate::components::Spot;
use crate::graph::linked;
use crate::graph::GraphView;
use crate::partitioner::adjacency_kept;
use crate::partitioner::tied;
use crate::pieces::flooding;
use crate::pieces::lemma_same_masks;
use crate::pieces::lemma_taken_alone;
use crate::pieces::lemma_world_aside;
use crate::pieces::lemma_world_in;
use crate::pieces::waits;
use crate::pieces::world_aside;
use crate::pieces::world_in;
use crate::terrain::Terrain;
use vstd::prelude::*;

verus! {

/// `a` is a voxel of partition `p` of chunk `c`, and `b` is a voxel next to
/// it that supports some movement.
pub open spec fn border(terrain: &Terrain, c: int, p: u32, a: Spot, b: Spot) -> bool {
    &&& in_chunk(terrain, c, a)
    &&& owner_at(terrain, a) == Some(p)
    &&& next_to(a, b)
    &&& terrain.in_bounds(b.x, b.y, b.z)
    &&& !mask_at(terrain, b).spec_is_empty()
}

/// Every voxel next to partition `p` that supports some movement belongs
/// to `p` or to a neighbour of `p`.
pub open spec fn bordered(terrain: &Terrain, graph: GraphView, c: int, p: u32) -> bool {
    forall|a: Spot, b: Spot| #[trigger] border(terrain, c, p, a, b) ==> tied(terrain, graph, p, b)
}

/// Every computed partition of chunk `c` knows its neighbours.
pub open spec fn computed_bordered(terrain: &Terrain, graph: GraphView, c: int) -> bool {
    forall|q: u32|
        #[trigger] graph.partitions.contains_key(q) && graph.partitions[q].chunk_idx == c
            && graph.partitions[q].is_computed ==> bordered(terrain, graph, c, q)
}

/// Every voxel next to partition `p` that supports some movement waits on
/// the stack, or belongs to `p` or to a neighbour of `p`.
pub open spec fn flood_bordered(
    terrain: &Terrain,
    graph: GraphView,
    c: int,
    p: u32,
    work: Seq<[i32; 3]>,
) -> bool {
    forall|a: Spot, b: Spot|
        #[trigger] border(terrain, c, p, a, b) ==> waits(work, b) || tied(terrain, graph, p, b)
}

/// Every voxel of chunk `c` that has an owner knows the owners of the
/// voxels around it: each voxel next to it that supports some movement has
/// an owner, and that is the same partition or a neighbour of it.
pub open spec fn chunk_bordered(terrain: &Terrain, graph: GraphView, c: int) -> bool {
    forall|p: u32, a: Spot, b: Spot|
        #[trigger] border(terrain, c, p, a, b) ==> tied(terrain, graph, p, b)
}

/// Computed partitions keep knowing their neighbours where a voxel without
/// owner gets a new one.
pub proof fn lemma_borders_aside(
    before: &Terrain,
    was: GraphView,
    after: &Terrain,
    now: GraphView,
    c: int,
    except: Option<u32>,
    at: Spot,
)
    requires
        before.wf(),
        linked(before, was),
        after.same_but_owners(before),
        world_aside(before, was, after, at),
        crate::partitioner::partitions_kept(was, now, except),
        forall|q: u32| #[trigger] was.partitions.contains_key(q) ==> now.partitions.contains_key(q),
        adjacency_kept(was, now),
        computed_bordered(before, was, c),
        except matches Some(p) ==> !was.partitions[p].is_computed,
    ensures
        computed_bordered(after, now, c),
{
    lemma_same_masks(before, after);
    assert forall|q: u32|
        #[trigger] now.partitions.contains_key(q) && now.partitions[q].chunk_idx == c
            && now.partitions[q].is_computed implies bordered(after, now, c, q) by {
        assert(was.partitions.contains_key(q));
        assert(bordered(before, was, c, q));
        assert forall|a: Spot, b: Spot| #[trigger] border(after, c, q, a, b) implies tied(
            after,
            now,
            q,
            b,
        ) by {
            assert(owner_at(after, a) == owner_at(before, a));
            assert(mask_at(after, b) == mask_at(before, b));
            assert(border(before, c, q, a, b));
            assert(tied(before, was, q, b));
            let x = owner_at(before, b)->0;
            assert(owner_at(after, b) == owner_at(before, b));
            lemma_owner_known(before, was, b);
            if x != q {
                assert(was.adjacent(q, x));
            }
        }
    }
}

/// The owner of a voxel is a partition of the graph.
proof fn lemma_owner_known(terrain: &Terrain, graph: GraphView, b: Spot)
    requires
        terrain.wf(),
        linked(terrain, graph),
        owner_at(terrain, b) is Some,
    ensures
        graph.partitions.contains_key(owner_at(terrain, b)->0),
{
    terrain.lemma_in_bounds(b.x, b.y, b.z);
    let cell = terrain.block_at(terrain.chunk_of(b.x, b.y, b.z), terrain.block_of(b.x, b.y, b.z));
}

/// Taking a place that is no voxel for the flood off the stack leaves the
/// borders in order.
pub proof fn lemma_flood_borders_aside(
    before: &Terrain,
    was: GraphView,
    after: &Terrain,
    now: GraphView,
    c: u32,
    p: u32,
    rest: Seq<[i32; 3]>,
    pos: [i32; 3],
)
    requires
        before.wf(),
        linked(before, was),
        after.same_but_owners(before),
        was.partitions.contains_key(p),
        !was.partitions[p].is_computed,
        crate::partitioner::partitions_kept(was, now, Some(p)),
        crate::partitioner::stepped_aside(before, was, after, now, pos),
        adjacency_kept(was, now),
        computed_bordered(before, was, c as int),
        flood_bordered(before, was, c as int, p, rest.push(pos)),
        before.in_bounds(pos[0] as int, pos[1] as int, pos[2] as int) && !mask_at(
            before,
            spot_of(pos),
        ).spec_is_empty() ==> tied(after, now, p, spot_of(pos)),
    ensures
        computed_bordered(after, now, c as int),
        flood_bordered(after, now, c as int, p, rest),
{
    let at = spot_of(pos);
    let work = rest.push(pos);
    lemma_same_masks(before, after);
    lemma_world_aside(before, was, after, now, pos);
    lemma_borders_aside(before, was, after, now, c as int, Some(p), at);
    assert forall|a: Spot, b: Spot| #[trigger] border(after, c as int, p, a, b) implies waits(rest, b)
        || tied(after, now, p, b) by {
        assert(owner_at(after, a) == owner_at(before, a));
        assert(mask_at(after, b) == mask_at(before, b));
        assert(border(before, c as int, p, a, b));
        if tied(before, was, p, b) {
            let x = owner_at(before, b)->0;
            assert(owner_at(after, b) == owner_at(before, b));
            lemma_owner_known(before, was, b);
            if x != p {
                assert(was.adjacent(p, x));
            }
        } else {
            assert(waits(work, b));
            let k = choose|k: int| 0 <= k < work.len() && spot_of(#[trigger] work[k]) == b;
            if k == rest.len() {
                assert(b == at);
            } else {
                assert(rest[k] == work[k]);
            }
        }
    }
}

/// Taking a voxel into the flood and putting its neighbours on the stack
/// leaves the borders in order.
pub proof fn lemma_flood_borders_in(
    before: &Terrain,
    was: GraphView,
    after: &Terrain,
    now: GraphView,
    sound_flags: crate::flags::PartitionFlags,
    c: u32,
    p: u32,
    rest: Seq<[i32; 3]>,
    pos: [i32; 3],
    work: Seq<[i32; 3]>,
)
    requires
        before.wf(),
        linked(before, was),
        crate::partitioner::chunk_sound(before, was, c as int),
        was.partitions.contains_key(p),
        was.partitions[p].flags == sound_flags,
        !sound_flags.spec_is_empty(),
        flooding(before, was, c as int, p, rest.push(pos)),
        was.wf(),
        after.same_but_owners(before),
        crate::partitioner::partitions_kept(was, now, Some(p)),
        crate::partitioner::stepped_in(before, was, after, now, p, pos),
        crate::partitioner::joinable(before, c, sound_flags, p, pos),
        adjacency_kept(was, now),
        owner_at(before, spot_of(pos)) matches Some(b) ==> forall|x: u32|
            #[trigger] was.adjacent(x, b) && x != p && x != b ==> now.adjacent(x, p),
        computed_bordered(before, was, c as int),
        flood_bordered(before, was, c as int, p, rest.push(pos)),
        work.len() == rest.len() + 6,
        forall|k: int| 0 <= k < rest.len() ==> work[k] == rest[k],
        forall|s: Spot|
            #[trigger] next_to(spot_of(pos), s) ==> exists|k: int|
                rest.len() <= k < work.len() && spot_of(#[trigger] work[k]) == s,
    ensures
        computed_bordered(after, now, c as int),
        flood_bordered(after, now, c as int, p, work),
{
    let at = spot_of(pos);
    let old_work = rest.push(pos);
    lemma_same_masks(before, after);
    lemma_taken_alone(before, was, sound_flags, c, p, rest, pos);
    lemma_world_in(before, was, after, now, sound_flags, c, p, rest, pos);
    before.lemma_in_bounds(at.x, at.y, at.z);
    let at_cell = before.block_at(before.chunk_of(at.x, at.y, at.z), before.block_of(at.x, at.y, at.z));
    assert(owner_at(after, at) == Some(p));
    // a voxel other than the one taken in that has an owner keeps it, and
    // the owner stays in the graph
    assert forall|b: Spot| b != at && owner_at(before, b) is Some implies owner_at(after, b) == owner_at(
        before,
        b,
    ) && now.partitions.contains_key(#[trigger] owner_at(before, b)->0) by {
        lemma_owner_known(before, was, b);
        let x = owner_at(before, b)->0;
        if owner_at(before, at) == Some(x) {
            before.lemma_in_bounds(b.x, b.y, b.z);
            let b_cell = before.block_at(
                before.chunk_of(b.x, b.y, b.z),
                before.block_of(b.x, b.y, b.z),
            );
            crate::components::lemma_cell_injective(before, b, at);
        }
    }
    assert forall|q: u32|
        #[trigger] now.partitions.contains_key(q) && now.partitions[q].chunk_idx == c as int
            && now.partitions[q].is_computed implies bordered(after, now, c as int, q) by {
        assert(q != p);
        assert(was.partitions.contains_key(q));
        assert(bordered(before, was, c as int, q));
        assert forall|a: Spot, b: Spot| #[trigger] border(after, c as int, q, a, b) implies tied(
            after,
            now,
            q,
            b,
        ) by {
            assert(a != at);
            assert(owner_at(after, a) == owner_at(before, a));
            assert(mask_at(after, b) == mask_at(before, b));
            assert(border(before, c as int, q, a, b));
            assert(tied(before, was, q, b));
            let x = owner_at(before, b)->0;
            if b == at {
                assert(x != q);
                assert(was.adjacent(q, x));
                assert(was.adjacent(x, q));
                assert(now.adjacent(q, p));
            } else {
                assert(owner_at(after, b) == Some(x));
                assert(now.partitions.contains_key(owner_at(before, b)->0));
                if x != q {
                    assert(was.adjacent(q, x));
                }
            }
        }
    }
    assert forall|a: Spot, b: Spot| #[trigger] border(after, c as int, p, a, b) implies waits(work, b)
        || tied(after, now, p, b) by {
        assert(mask_at(after, b) == mask_at(before, b));
        if a == at {
            let k = choose|k: int| rest.len() <= k < work.len() && spot_of(#[trigger] work[k]) == b;
            assert(spot_of(work[k]) == b);
        } else if b == at {
        } else {
            assert(owner_at(after, a) == owner_at(before, a));
            assert(border(before, c as int, p, a, b));
            if tied(before, was, p, b) {
                let x = owner_at(before, b)->0;
                assert(owner_at(after, b) == Some(x));
                assert(now.partitions.contains_key(owner_at(before, b)->0));
                if x != p {
                    assert(was.adjacent(p, x));
                }
            } else {
                assert(waits(old_work, b));
                let k = choose|k: int| 0 <= k < old_work.len() && spot_of(#[trigger] old_work[k]) == b;
                assert(k != rest.len());
                assert(old_work[k] == rest[k]);
                assert(spot_of(work[k]) == b);
            }
        }
    }
}

/// A partition of one voxel at most whose neighbours are on the stack has
/// its borders in order.
pub proof fn lemma_flood_borders_first(
    terrain: &Terrain,
    graph: GraphView,
    c: u32,
    p: u32,
    seed: [i32; 3],
    work: Seq<[i32; 3]>,
)
    requires
        terrain.wf(),
        linked(terrain, graph),
        graph.partitions.contains_key(p),
        graph.partitions[p].chunk_idx == c,
        graph.partitions[p].blocks.len() <= 1,
        in_chunk(terrain, c as int, spot_of(seed)),
        owner_at(terrain, spot_of(seed)) == Some(p),
        forall|s: Spot|
            #[trigger] next_to(spot_of(seed), s) ==> exists|k: int|
                0 <= k < work.len() && spot_of(#[trigger] work[k]) == s,
    ensures
        flood_bordered(terrain, graph, c as int, p, work),
{
    let at = spot_of(seed);
    terrain.lemma_in_bounds(at.x, at.y, at.z);
    let at_cell = terrain.block_at(terrain.chunk_of(at.x, at.y, at.z), terrain.block_of(at.x, at.y, at.z));
    assert(graph.partitions[p].holds_block(terrain.block_of(at.x, at.y, at.z)));
    assert forall|a: Spot, b: Spot| #[trigger] border(terrain, c as int, p, a, b) implies waits(work, b)
        || tied(terrain, graph, p, b) by {
        terrain.lemma_in_bounds(a.x, a.y, a.z);
        let a_cell = terrain.block_at(terrain.chunk_of(a.x, a.y, a.z), terrain.block_of(a.x, a.y, a.z));
        assert(graph.partitions[p].holds_block(terrain.block_of(a.x, a.y, a.z)));
        let k1 = choose|k: int|
            0 <= k < graph.partitions[p].blocks.len() && #[trigger] graph.partitions[p].blocks[k]
                == terrain.block_of(a.x, a.y, a.z);
        let k2 = choose|k: int|
            0 <= k < graph.partitions[p].blocks.len() && #[trigger] graph.partitions[p].blocks[k]
                == terrain.block_of(at.x, at.y, at.z);
        crate::components::lemma_cell_injective(terrain, a, at);
        let k = choose|k: int| 0 <= k < work.len() && spot_of(#[trigger] work[k]) == b;
        assert(spot_of(work[k]) == b);
    }
}

/// A flood with an empty stack has made its partition know its
/// neighbours.
pub proof fn lemma_flood_borders_last(
    terrain: &Terrain,
    graph: GraphView,
    c: u32,
    p: u32,
    work: Seq<[i32; 3]>,
)
    requires
        flood_bordered(terrain, graph, c as int, p, work),
        work.len() == 0,
    ensures
        bordered(terrain, graph, c as int, p),
{
    assert forall|a: Spot, b: Spot| #[trigger] border(terrain, c as int, p, a, b) implies tied(
        terrain,
        graph,
        p,
        b,
    ) by {
        if !tied(terrain, graph, p, b) {
            assert(waits(work, b));
        }
    }
}

/// A change of the graph that keeps every partition, its chunk, whether it
/// is computed and its neighbours, but may mark partition `p`, which knows
/// its neighbours, as computed, leaves the borders in order.
pub proof fn lemma_borders_marked(
    terrain: &Terrain,
    was: GraphView,
    now: GraphView,
    c: u32,
    p: Option<u32>,
)
    requires
        computed_bordered(terrain, was, c as int),
        p matches Some(q) ==> bordered(terrain, was, c as int, q),
        now.partitions.dom() == was.partitions.dom(),
        forall|q: u32| #[trigger]
            now.partitions.contains_key(q) ==> now.partitions[q].chunk_idx == was.partitions[q].chunk_idx
                && now.partitions[q].neighbors == was.partitions[q].neighbors && (Some(q) != p
                ==> now.partitions[q].is_computed == was.partitions[q].is_computed),
    ensures
        computed_bordered(terrain, now, c as int),
{
    assert forall|q: u32|
        #[trigger] now.partitions.contains_key(q) && now.partitions[q].chunk_idx == c as int
            && now.partitions[q].is_computed implies bordered(terrain, now, c as int, q) by {
        assert(was.partitions.dom().contains(q));
        assert(was.partitions.contains_key(q));
        assert(bordered(terrain, was, c as int, q));
        assert forall|a: Spot, b: Spot| #[trigger] border(terrain, c as int, q, a, b) implies tied(
            terrain,
            now,
            q,
            b,
        ) by {
            assert(tied(terrain, was, q, b));
            let x = owner_at(terrain, b)->0;
            if x != q {
                assert(was.adjacent(q, x));
            }
        }
    }
}

/// A chunk without partitions has its borders in order.
pub proof fn lemma_borders_cleared(terrain: &Terrain, graph: GraphView, c: u32)
    requires
        forall|q: u32| #[trigger] graph.partitions.contains_key(q) ==> graph.partitions[q].chunk_idx != c,
    ensures
        computed_bordered(terrain, graph, c as int),
{
}

/// In a chunk whose computed partitions know their neighbours and every
/// owner of which is computed, every voxel knows the owners around it.
pub proof fn lemma_chunk_bordered(terrain: &Terrain, graph: GraphView, c: u32)
    requires
        terrain.wf(),
        linked(terrain, graph),
        computed_bordered(terrain, graph, c as int),
        forall|j: int|
            #![trigger terrain.block_at(c as int, j)]
            terrain.has_block(c as int, j) && terrain.block_at(c as int, j).partition_id is Some
                ==> graph.partitions[terrain.block_at(c as int, j).partition_id->0].is_computed,
    ensures
        chunk_bordered(terrain, graph, c as int),
{
    assert forall|p: u32, a: Spot, b: Spot| #[trigger] border(terrain, c as int, p, a, b) implies tied(
        terrain,
        graph,
        p,
        b,
    ) by {
        terrain.lemma_in_bounds(a.x, a.y, a.z);
        let cell = terrain.block_at(c as int, terrain.block_of(a.x, a.y, a.z));
        assert(graph.partitions.contains_key(p));
        assert(graph.partitions[p].chunk_idx == c);
        assert(bordered(terrain, graph, c as int, p));
    }
}

} // verus!
