//! Why a flood takes in exactly one piece of a chunk.
//!
//! While a partition is flooded, every voxel like one of its voxels either
//! belongs to it or waits on the stack; once the stack is empty the
//! partition is a whole piece. Partitions that were flooded before stay
//! whole, partitions that wait for their flood have one voxel, and the voxels
//! of every partition are joined.
use crate::components::alike;
use crate::components::in_chunk;
use crate::components::joined;
use crate::components::lemma_cell_injective;
use crate::components::lemma_joined_chain;
use crate::components::lemma_joined_same_masks;
use crate::components::lemma_joined_self;
use crate::components::lemma_joined_step;
use crate::components::mask_at;
use crate::components::next_to;
use crate::components::owner_at;
use crate::components::spot_of;
use crate::components::unmixed;
use crate::components::Spot;
use crate::graph::linked;
use crate::graph::GraphView;
use crate::terrain::Terrain;
use vstd::prelude::*;

verus! {

/// Every voxel like a voxel of partition `q` belongs to `q`: the partition
/// is a whole piece.
pub open spec fn settled(terrain: &Terrain, c: int, q: u32) -> bool {
    forall|a: Spot, b: Spot|
        #[trigger] alike(terrain, c, a, b) && owner_at(terrain, a) == Some(q) ==> owner_at(terrain, b)
            == Some(q)
}

/// Every computed partition of chunk `c` is a whole piece.
pub open spec fn computed_settled(terrain: &Terrain, graph: GraphView, c: int) -> bool {
    forall|q: u32|
        #[trigger] graph.partitions.contains_key(q) && graph.partitions[q].chunk_idx == c
            && graph.partitions[q].is_computed ==> settled(terrain, c, q)
}

/// Every partition of chunk `c` that is not computed, but for `except`, has
/// one voxel at most.
pub open spec fn stubs_small(graph: GraphView, c: int, except: Option<u32>) -> bool {
    forall|q: u32|
        #[trigger] graph.partitions.contains_key(q) && graph.partitions[q].chunk_idx == c
            && !graph.partitions[q].is_computed && Some(q) != except ==> graph.partitions[q].blocks.len()
            <= 1
}

/// What holds of chunk `c` between two floods.
pub open spec fn scanning(terrain: &Terrain, graph: GraphView, c: int, except: Option<u32>) -> bool {
    &&& computed_settled(terrain, graph, c)
    &&& stubs_small(graph, c, except)
    &&& unmixed(terrain, c)
}

/// The place `s` is on the stack.
pub open spec fn waits(work: Seq<[i32; 3]>, s: Spot) -> bool {
    exists|k: int| 0 <= k < work.len() && spot_of(#[trigger] work[k]) == s
}

/// Every voxel like a voxel of partition `p` belongs to `p` or waits.
pub open spec fn front(terrain: &Terrain, c: int, p: u32, work: Seq<[i32; 3]>) -> bool {
    forall|a: Spot, b: Spot|
        #[trigger] alike(terrain, c, a, b) && owner_at(terrain, a) == Some(p) && owner_at(terrain, b)
            != Some(p) ==> waits(work, b)
}

/// The place `s` is next to a voxel of partition `p`.
pub open spec fn has_back(terrain: &Terrain, c: int, p: u32, s: Spot) -> bool {
    exists|a: Spot|
        in_chunk(terrain, c, a) && owner_at(terrain, a) == Some(p) && #[trigger] next_to(a, s)
}

/// Every place on the stack is next to a voxel of partition `p`.
pub open spec fn backed(terrain: &Terrain, c: int, p: u32, work: Seq<[i32; 3]>) -> bool {
    forall|k: int| 0 <= k < work.len() ==> has_back(terrain, c, p, spot_of(#[trigger] work[k]))
}

/// What holds of chunk `c` while partition `p` is flooded.
pub open spec fn flooding(
    terrain: &Terrain,
    graph: GraphView,
    c: int,
    p: u32,
    work: Seq<[i32; 3]>,
) -> bool {
    &&& graph.partitions.contains_key(p)
    &&& !graph.partitions[p].is_computed
    &&& scanning(terrain, graph, c, Some(p))
    &&& front(terrain, c, p, work)
    &&& backed(terrain, c, p, work)
}

/// Every voxel of chunk `c` that a computed partition owned still has that
/// owner, and the owner is still computed.
pub open spec fn stable(before: &Terrain, was: GraphView, after: &Terrain, now: GraphView, c: int) -> bool {
    forall|j: int|
        #![trigger after.block_at(c, j)]
        before.has_block(c, j) && before.block_at(c, j).partition_id is Some && was.partitions.contains_key(
            before.block_at(c, j).partition_id->0,
        ) && was.partitions[before.block_at(c, j).partition_id->0].is_computed ==> {
            let q = before.block_at(c, j).partition_id->0;
            &&& after.block_at(c, j).partition_id == Some(q)
            &&& now.partitions.contains_key(q)
            &&& now.partitions[q].is_computed
        }
}

/// The owners of the voxels in `after` are those in `before`, but that the
/// voxel at `at`, which supports some movement and had no owner, may have
/// an owner that `was` does not know.
pub open spec fn world_aside(before: &Terrain, was: GraphView, after: &Terrain, at: Spot) -> bool {
    &&& after.same_layout(before)
    &&& forall|s: Spot| #[trigger] mask_at(after, s) == mask_at(before, s)
    &&& forall|s: Spot|
        {
            let now = #[trigger] owner_at(after, s);
            let then = owner_at(before, s);
            ||| now == then
            ||| {
                &&& s == at
                &&& then is None
                &&& now is Some
                &&& !was.partitions.contains_key(now->0)
                &&& !mask_at(before, s).spec_is_empty()
            }
        }
}

/// The owners of the voxels in `after` are those in `before`, but that the
/// voxel at `at` belongs to partition `p`.
pub open spec fn world_in(before: &Terrain, after: &Terrain, p: u32, at: Spot) -> bool {
    &&& after.same_layout(before)
    &&& before.in_bounds(at.x, at.y, at.z)
    &&& forall|s: Spot| #[trigger] mask_at(after, s) == mask_at(before, s)
    &&& forall|s: Spot| #[trigger]
        owner_at(after, s) == if s == at {
            Some(p)
        } else {
            owner_at(before, s)
        }
}

/// Worlds of one layout have the same chunks, and the same masks if they
/// differ in owners alone.
pub proof fn lemma_same_masks(before: &Terrain, after: &Terrain)
    requires
        before.wf(),
        after.same_but_owners(before),
    ensures
        forall|s: Spot| #[trigger] mask_at(after, s) == mask_at(before, s),
        forall|c: int, s: Spot| #[trigger] in_chunk(after, c, s) == in_chunk(before, c, s),
        forall|c: int, a: Spot, b: Spot| #[trigger] alike(after, c, a, b) == alike(before, c, a, b),
{
    assert forall|s: Spot| #[trigger] mask_at(after, s) == mask_at(before, s) by {
        if before.in_bounds(s.x, s.y, s.z) {
            before.lemma_in_bounds(s.x, s.y, s.z);
            let i = before.chunk_of(s.x, s.y, s.z);
            let j = before.block_of(s.x, s.y, s.z);
            assert(after.block_at(i, j).flags == before.block_at(i, j).flags);
        }
    }
    assert forall|c: int, a: Spot, b: Spot| #[trigger]
        alike(after, c, a, b) == alike(before, c, a, b) by {
        assert(mask_at(after, a) == mask_at(before, a));
        assert(mask_at(after, b) == mask_at(before, b));
    }
}

/// The owners of the places of the world as they follow from the owners of
/// the voxels by chunk and number, where the voxel at `pos` alone may have
/// got an owner.
pub proof fn lemma_world_aside(
    before: &Terrain,
    was: GraphView,
    after: &Terrain,
    now: GraphView,
    pos: [i32; 3],
)
    requires
        before.wf(),
        after.same_but_owners(before),
        crate::partitioner::stepped_aside(before, was, after, now, pos),
    ensures
        world_aside(before, was, after, spot_of(pos)),
{
    lemma_same_masks(before, after);
    assert forall|s: Spot|
        {
            let now = #[trigger] owner_at(after, s);
            let then = owner_at(before, s);
            ||| now == then
            ||| {
                &&& s == spot_of(pos)
                &&& then is None
                &&& now is Some
                &&& !was.partitions.contains_key(now->0)
                &&& !mask_at(before, s).spec_is_empty()
            }
        } by {
        if before.in_bounds(s.x, s.y, s.z) {
            before.lemma_in_bounds(s.x, s.y, s.z);
            let i = before.chunk_of(s.x, s.y, s.z);
            let j = before.block_of(s.x, s.y, s.z);
            let now = after.block_at(i, j);
            if owner_at(after, s) != owner_at(before, s) {
                lemma_cell_injective(before, s, spot_of(pos));
            }
        }
    }
}

/// A voxel that a flood takes in belongs to no computed partition, and if
/// it had an owner, it was that owner's only voxel.
pub proof fn lemma_taken_alone(
    before: &Terrain,
    was: GraphView,
    sound_flags: crate::flags::PartitionFlags,
    c: u32,
    p: u32,
    rest: Seq<[i32; 3]>,
    pos: [i32; 3],
)
    requires
        before.wf(),
        linked(before, was),
        crate::partitioner::chunk_sound(before, was, c as int),
        was.partitions.contains_key(p),
        was.partitions[p].flags == sound_flags,
        !sound_flags.spec_is_empty(),
        flooding(before, was, c as int, p, rest.push(pos)),
        crate::partitioner::joinable(before, c, sound_flags, p, pos),
    ensures
        exists|a: Spot|
            #![trigger owner_at(before, a)]
            in_chunk(before, c as int, a) && owner_at(before, a) == Some(p) && alike(
                before,
                c as int,
                a,
                spot_of(pos),
            ) && alike(before, c as int, spot_of(pos), a),
        owner_at(before, spot_of(pos)) matches Some(b) ==> {
            &&& was.partitions.contains_key(b)
            &&& !was.partitions[b].is_computed
            &&& b != p
            &&& forall|i: int, j: int|
                before.has_block(i, j) && #[trigger] before.block_at(i, j).partition_id == Some(b) ==> i
                    == before.chunk_of(pos[0] as int, pos[1] as int, pos[2] as int) && j
                    == before.block_of(pos[0] as int, pos[1] as int, pos[2] as int)
        },
{
    let at = spot_of(pos);
    let work = rest.push(pos);
    before.lemma_in_bounds(at.x, at.y, at.z);
    let at_c = before.chunk_of(at.x, at.y, at.z);
    let at_b = before.block_of(at.x, at.y, at.z);
    assert(work[rest.len() as int] == pos);
    assert(has_back(before, c as int, p, spot_of(work[rest.len() as int])));
    let a = choose|a: Spot|
        in_chunk(before, c as int, a) && owner_at(before, a) == Some(p) && #[trigger] next_to(a, at);
    assert(next_to(a, at));
    assert(next_to(at, a));
    before.lemma_in_bounds(a.x, a.y, a.z);
    let a_cell = before.block_at(before.chunk_of(a.x, a.y, a.z), before.block_of(a.x, a.y, a.z));
    assert(mask_at(before, a) == sound_flags);
    assert(alike(before, c as int, a, at));
    assert(alike(before, c as int, at, a));
    assert(in_chunk(before, c as int, a) && owner_at(before, a) == Some(p) && alike(
        before,
        c as int,
        a,
        at,
    ) && alike(before, c as int, at, a));
    if owner_at(before, at) is Some {
        let b = owner_at(before, at)->0;
        let at_cell = before.block_at(at_c, at_b);
        assert(was.partitions.contains_key(b));
        assert(was.partitions[b].chunk_idx == c);
        if was.partitions[b].is_computed {
            assert(settled(before, c as int, b));
            assert(owner_at(before, a) == Some(b));
        }
        assert(was.partitions[b].blocks.len() <= 1);
        assert forall|i: int, j: int|
            before.has_block(i, j) && #[trigger] before.block_at(i, j).partition_id == Some(b) implies i
            == at_c && j == at_b by {
            assert(was.partitions[b].holds_block(j));
            assert(was.partitions[b].holds_block(at_b));
            let k1 = choose|k: int|
                0 <= k < was.partitions[b].blocks.len() && #[trigger] was.partitions[b].blocks[k] == j;
            let k2 = choose|k: int|
                0 <= k < was.partitions[b].blocks.len() && #[trigger] was.partitions[b].blocks[k]
                    == at_b;
        }
    }
}

/// The owners of the places of the world as they follow from the owners of
/// the voxels by chunk and number, where the voxel at `pos` has joined the
/// partition that is flooded.
pub proof fn lemma_world_in(
    before: &Terrain,
    was: GraphView,
    after: &Terrain,
    now: GraphView,
    sound_flags: crate::flags::PartitionFlags,
    c: u32,
    p: u32,
    rest: Seq<[i32; 3]>,
    pos: [i32; 3],
)
    requires
        before.wf(),
        linked(before, was),
        crate::partitioner::chunk_sound(before, was, c as int),
        was.partitions.contains_key(p),
        was.partitions[p].flags == sound_flags,
        !sound_flags.spec_is_empty(),
        flooding(before, was, c as int, p, rest.push(pos)),
        crate::partitioner::joinable(before, c, sound_flags, p, pos),
        after.same_but_owners(before),
        crate::partitioner::stepped_in(before, was, after, now, p, pos),
    ensures
        world_in(before, after, p, spot_of(pos)),
{
    lemma_same_masks(before, after);
    lemma_taken_alone(before, was, sound_flags, c, p, rest, pos);
    let at = spot_of(pos);
    before.lemma_in_bounds(at.x, at.y, at.z);
    let at_c = before.chunk_of(at.x, at.y, at.z);
    let at_b = before.block_of(at.x, at.y, at.z);
    assert forall|s: Spot| #[trigger]
        owner_at(after, s) == if s == at {
            Some(p)
        } else {
            owner_at(before, s)
        } by {
        if before.in_bounds(s.x, s.y, s.z) {
            before.lemma_in_bounds(s.x, s.y, s.z);
            let i = before.chunk_of(s.x, s.y, s.z);
            let j = before.block_of(s.x, s.y, s.z);
            let now = after.block_at(i, j);
            let then = before.block_at(i, j);
            if s != at {
                if i == at_c && j == at_b {
                    lemma_cell_injective(before, s, at);
                }
            }
        }
    }
}

/// Whole pieces stay whole where a voxel without owner gets a new one.
proof fn lemma_settled_aside(
    before: &Terrain,
    was: GraphView,
    after: &Terrain,
    now: GraphView,
    c: int,
    except: Option<u32>,
    at: Spot,
)
    requires
        world_aside(before, was, after, at),
        linked(before, was),
        before.wf(),
        after.same_but_owners(before),
        computed_settled(before, was, c),
        crate::partitioner::partitions_kept(was, now, except),
    ensures
        computed_settled(after, now, c),
{
    lemma_same_masks(before, after);
    assert forall|q: u32|
        #[trigger] now.partitions.contains_key(q) && now.partitions[q].chunk_idx == c
            && now.partitions[q].is_computed implies settled(after, c, q) by {
        assert(was.partitions.contains_key(q));
        assert(settled(before, c, q));
        assert forall|a: Spot, b: Spot|
            #[trigger] alike(after, c, a, b) && owner_at(after, a) == Some(q) implies owner_at(after, b)
            == Some(q) by {
            assert(alike(before, c, a, b));
            assert(owner_at(after, a) == owner_at(before, a));
            assert(owner_at(before, b) == Some(q));
            assert(owner_at(after, b) == owner_at(before, b));
        }
    }
}

/// Small partitions stay small.
proof fn lemma_stubs_kept(was: GraphView, now: GraphView, c: int, except: Option<u32>)
    requires
        stubs_small(was, c, except),
        crate::partitioner::partitions_kept(was, now, except),
    ensures
        stubs_small(now, c, except),
{
    assert forall|q: u32|
        #[trigger] now.partitions.contains_key(q) && now.partitions[q].chunk_idx == c
            && !now.partitions[q].is_computed && Some(q) != except implies now.partitions[q].blocks.len()
        <= 1 by {
        if was.partitions.contains_key(q) {
            assert(was.partitions[q].blocks.len() <= 1);
        }
    }
}

/// The voxels of every owner stay joined where a voxel without owner gets
/// a new one.
proof fn lemma_unmixed_aside(before: &Terrain, was: GraphView, after: &Terrain, c: int, at: Spot)
    requires
        world_aside(before, was, after, at),
        linked(before, was),
        before.wf(),
        after.same_but_owners(before),
        unmixed(before, c),
    ensures
        unmixed(after, c),
{
    lemma_same_masks(before, after);
    assert forall|a: Spot, b: Spot|
        in_chunk(after, c, a) && in_chunk(after, c, b) && owner_at(after, a) is Some
            && #[trigger] owner_at(after, a) == #[trigger] owner_at(after, b) implies joined(
        after,
        c,
        a,
        b,
    ) by {
        let x = owner_at(after, a)->0;
        if owner_at(after, a) != owner_at(before, a) || owner_at(after, b) != owner_at(before, b) {
            // one of the two is the voxel with the new owner, which no other voxel has
            if owner_at(after, a) == owner_at(before, a) {
                before.lemma_in_bounds(a.x, a.y, a.z);
                let cell = before.block_at(
                    before.chunk_of(a.x, a.y, a.z),
                    before.block_of(a.x, a.y, a.z),
                );
                assert(was.partitions.contains_key(x));
            }
            if owner_at(after, b) == owner_at(before, b) {
                before.lemma_in_bounds(b.x, b.y, b.z);
                let cell = before.block_at(
                    before.chunk_of(b.x, b.y, b.z),
                    before.block_of(b.x, b.y, b.z),
                );
                assert(was.partitions.contains_key(x));
            }
            assert(a == at && b == at);
            lemma_joined_self(after, c, a);
        } else {
            assert(joined(before, c, a, b));
            lemma_joined_same_masks(before, after, c, a, b);
        }
    }
}

/// Taking a place that is no voxel for the flood off the stack leaves the
/// flood in order.
pub proof fn lemma_flood_aside(
    before: &Terrain,
    was: GraphView,
    after: &Terrain,
    now: GraphView,
    sound_flags: crate::flags::PartitionFlags,
    c: u32,
    p: u32,
    rest: Seq<[i32; 3]>,
    pos: [i32; 3],
)
    requires
        before.wf(),
        linked(before, was),
        crate::partitioner::chunk_sound(before, was, c as int),
        was.partitions[p].flags == sound_flags,
        was.partitions[p].chunk_idx == c,
        now.partitions[p].chunk_idx == c,
        flooding(before, was, c as int, p, rest.push(pos)),
        after.same_but_owners(before),
        crate::partitioner::partitions_kept(was, now, Some(p)),
        crate::partitioner::stepped_aside(before, was, after, now, pos),
        !crate::partitioner::joinable(before, c, sound_flags, p, pos),
    ensures
        flooding(after, now, c as int, p, rest),
        stable(before, was, after, now, c as int),
{
    let at = spot_of(pos);
    let work = rest.push(pos);
    lemma_same_masks(before, after);
    lemma_world_aside(before, was, after, now, pos);
    lemma_settled_aside(before, was, after, now, c as int, Some(p), at);
    lemma_stubs_kept(was, now, c as int, Some(p));
    lemma_unmixed_aside(before, was, after, c as int, at);
    assert forall|a: Spot, b: Spot|
        #[trigger] alike(after, c as int, a, b) && owner_at(after, a) == Some(p) && owner_at(after, b)
            != Some(p) implies waits(rest, b) by {
        assert(alike(before, c as int, a, b));
        assert(owner_at(after, a) == owner_at(before, a));
        assert(owner_at(before, b) != Some(p)) by {
            let now_b = owner_at(after, b);
        }
        assert(waits(work, b));
        let k = choose|k: int| 0 <= k < work.len() && spot_of(#[trigger] work[k]) == b;
        if k == rest.len() {
            // the place that was taken off would have been a voxel for the flood
            before.lemma_in_bounds(a.x, a.y, a.z);
            let a_cell = before.block_at(before.chunk_of(a.x, a.y, a.z), before.block_of(a.x, a.y, a.z));
            assert(mask_at(before, a) == sound_flags);
            assert(crate::partitioner::joinable(before, c, sound_flags, p, pos));
        } else {
            assert(rest[k] == work[k]);
        }
    }
    assert forall|k: int| 0 <= k < rest.len() implies has_back(
        after,
        c as int,
        p,
        spot_of(#[trigger] rest[k]),
    ) by {
        assert(work[k] == rest[k]);
        assert(has_back(before, c as int, p, spot_of(work[k])));
        let a = choose|a: Spot|
            in_chunk(before, c as int, a) && owner_at(before, a) == Some(p) && #[trigger] next_to(
                a,
                spot_of(rest[k]),
            );
        assert(owner_at(after, a) == Some(p)) by {
            let now_a = owner_at(after, a);
        }
        assert(in_chunk(after, c as int, a) && owner_at(after, a) == Some(p) && next_to(
            a,
            spot_of(rest[k]),
        ));
    }
    assert forall|j: int|
        #![trigger after.block_at(c as int, j)]
        before.has_block(c as int, j) && before.block_at(c as int, j).partition_id is Some
            && was.partitions.contains_key(before.block_at(c as int, j).partition_id->0)
            && was.partitions[before.block_at(c as int, j).partition_id->0].is_computed implies {
        let q = before.block_at(c as int, j).partition_id->0;
        &&& after.block_at(c as int, j).partition_id == Some(q)
        &&& now.partitions.contains_key(q)
        &&& now.partitions[q].is_computed
    } by {
        let q = before.block_at(c as int, j).partition_id->0;
        assert(q != p);
        lemma_kept_alive(was, now, p, q);
    }
}

/// A computed partition other than the one that is flooded is still there
/// and computed, as long as it owns a voxel.
proof fn lemma_kept_alive(was: GraphView, now: GraphView, p: u32, q: u32)
    requires
        crate::partitioner::partitions_kept(was, now, Some(p)),
        was.partitions.contains_key(q),
        now.partitions.contains_key(q),
        q != p,
    ensures
        now.partitions[q].is_computed == was.partitions[q].is_computed,
{
}

/// Whole pieces stay whole where the flood takes a voxel in.
proof fn lemma_settled_in(
    before: &Terrain,
    was: GraphView,
    after: &Terrain,
    now: GraphView,
    c: int,
    p: u32,
    at: Spot,
)
    requires
        world_in(before, after, p, at),
        before.wf(),
        after.same_but_owners(before),
        computed_settled(before, was, c),
        crate::partitioner::partitions_kept(was, now, Some(p)),
        !was.partitions[p].is_computed,
        owner_at(before, at) matches Some(b) ==> was.partitions.contains_key(b)
            && !was.partitions[b].is_computed,
    ensures
        computed_settled(after, now, c),
{
    lemma_same_masks(before, after);
    assert forall|q: u32|
        #[trigger] now.partitions.contains_key(q) && now.partitions[q].chunk_idx == c
            && now.partitions[q].is_computed implies settled(after, c, q) by {
        assert(q != p);
        assert(was.partitions.contains_key(q));
        assert(settled(before, c, q));
        assert forall|a: Spot, b: Spot|
            #[trigger] alike(after, c, a, b) && owner_at(after, a) == Some(q) implies owner_at(after, b)
            == Some(q) by {
            assert(alike(before, c, a, b));
            assert(a != at);
            assert(owner_at(after, a) == owner_at(before, a));
            assert(owner_at(before, b) == Some(q));
            assert(b != at);
            assert(owner_at(after, b) == owner_at(before, b));
        }
    }
}

/// The voxels of every owner stay joined where the flood takes in a voxel
/// that is like one of its own.
proof fn lemma_unmixed_in(before: &Terrain, after: &Terrain, c: int, p: u32, at: Spot, back: Spot)
    requires
        world_in(before, after, p, at),
        before.wf(),
        after.same_but_owners(before),
        unmixed(before, c),
        in_chunk(before, c, back),
        owner_at(before, back) == Some(p),
        alike(before, c, back, at),
        alike(before, c, at, back),
        owner_at(before, at) != Some(p),
    ensures
        unmixed(after, c),
{
    lemma_same_masks(before, after);
    assert forall|a: Spot, b: Spot|
        in_chunk(after, c, a) && in_chunk(after, c, b) && owner_at(after, a) is Some
            && #[trigger] owner_at(after, a) == #[trigger] owner_at(after, b) implies joined(
        after,
        c,
        a,
        b,
    ) by {
        assert(owner_at(after, at) == Some(p));
        if a == at && b == at {
            lemma_joined_self(before, c, at);
        } else if a == at {
            assert(owner_at(after, b) == owner_at(before, b));
            assert(joined(before, c, back, b));
            lemma_joined_self(before, c, at);
            lemma_joined_step(before, c, at, at, back);
            lemma_joined_chain(before, c, at, back, b);
        } else if b == at {
            assert(owner_at(after, a) == owner_at(before, a));
            assert(joined(before, c, a, back));
            lemma_joined_step(before, c, a, back, at);
        } else {
            assert(owner_at(after, a) == owner_at(before, a));
            assert(owner_at(after, b) == owner_at(before, b));
            assert(joined(before, c, a, b));
        }
        lemma_joined_same_masks(before, after, c, a, b);
    }
}

/// Taking a voxel into the flood and putting its neighbours on the stack
/// leaves the flood in order.
pub proof fn lemma_flood_in(
    before: &Terrain,
    was: GraphView,
    after: &Terrain,
    now: GraphView,
    sound_flags: crate::flags::PartitionFlags,
    c: u32,
    p: u32,
    rest: Seq<[i32; 3]>,
    pos: [i32; 3],
    work: Seq<[i32; 3]>,
)
    requires
        before.wf(),
        linked(before, was),
        crate::partitioner::chunk_sound(before, was, c as int),
        was.partitions[p].flags == sound_flags,
        !sound_flags.spec_is_empty(),
        flooding(before, was, c as int, p, rest.push(pos)),
        after.same_but_owners(before),
        crate::partitioner::partitions_kept(was, now, Some(p)),
        crate::partitioner::stepped_in(before, was, after, now, p, pos),
        crate::partitioner::joinable(before, c, sound_flags, p, pos),
        work.len() == rest.len() + 6,
        forall|k: int| 0 <= k < rest.len() ==> work[k] == rest[k],
        forall|k: int|
            rest.len() <= k < work.len() ==> next_to(spot_of(pos), spot_of(#[trigger] work[k])),
        forall|s: Spot|
            #[trigger] next_to(spot_of(pos), s) ==> exists|k: int|
                rest.len() <= k < work.len() && spot_of(#[trigger] work[k]) == s,
    ensures
        flooding(after, now, c as int, p, work),
        stable(before, was, after, now, c as int),
{
    let at = spot_of(pos);
    let old_work = rest.push(pos);
    lemma_same_masks(before, after);
    lemma_taken_alone(before, was, sound_flags, c, p, rest, pos);
    lemma_world_in(before, was, after, now, sound_flags, c, p, rest, pos);
    let back = choose|a: Spot|
        #![trigger owner_at(before, a)]
        in_chunk(before, c as int, a) && owner_at(before, a) == Some(p) && alike(
            before,
            c as int,
            a,
            at,
        ) && alike(before, c as int, at, a);
    lemma_settled_in(before, was, after, now, c as int, p, at);
    lemma_stubs_kept(was, now, c as int, Some(p));
    lemma_unmixed_in(before, after, c as int, p, at, back);
    assert(owner_at(after, at) == Some(p));
    assert forall|a: Spot, b: Spot|
        #[trigger] alike(after, c as int, a, b) && owner_at(after, a) == Some(p) && owner_at(after, b)
            != Some(p) implies waits(work, b) by {
        assert(alike(before, c as int, a, b));
        assert(b != at);
        assert(owner_at(after, b) == owner_at(before, b));
        if a == at {
            assert(next_to(at, b));
            let k = choose|k: int| rest.len() <= k < work.len() && spot_of(#[trigger] work[k]) == b;
            assert(spot_of(work[k]) == b);
        } else {
            assert(owner_at(after, a) == owner_at(before, a));
            assert(waits(old_work, b));
            let k = choose|k: int| 0 <= k < old_work.len() && spot_of(#[trigger] old_work[k]) == b;
            assert(k != rest.len());
            assert(old_work[k] == rest[k]);
            assert(spot_of(work[k]) == b);
        }
    }
    assert forall|k: int| 0 <= k < work.len() implies has_back(
        after,
        c as int,
        p,
        spot_of(#[trigger] work[k]),
    ) by {
        if k < rest.len() {
            assert(old_work[k] == rest[k]);
            assert(has_back(before, c as int, p, spot_of(old_work[k])));
            let a = choose|a: Spot|
                in_chunk(before, c as int, a) && owner_at(before, a) == Some(p) && #[trigger] next_to(
                    a,
                    spot_of(work[k]),
                );
            assert(a != at);
            assert(owner_at(after, a) == owner_at(before, a));
            assert(in_chunk(after, c as int, a) && owner_at(after, a) == Some(p) && next_to(
                a,
                spot_of(work[k]),
            ));
        } else {
            assert(next_to(at, spot_of(work[k])));
            assert(in_chunk(after, c as int, at) && owner_at(after, at) == Some(p) && next_to(
                at,
                spot_of(work[k]),
            ));
        }
    }
    before.lemma_in_bounds(at.x, at.y, at.z);
    assert forall|j: int|
        #![trigger after.block_at(c as int, j)]
        before.has_block(c as int, j) && before.block_at(c as int, j).partition_id is Some
            && was.partitions.contains_key(before.block_at(c as int, j).partition_id->0)
            && was.partitions[before.block_at(c as int, j).partition_id->0].is_computed implies {
        let q = before.block_at(c as int, j).partition_id->0;
        &&& after.block_at(c as int, j).partition_id == Some(q)
        &&& now.partitions.contains_key(q)
        &&& now.partitions[q].is_computed
    } by {
        let q = before.block_at(c as int, j).partition_id->0;
        assert(q != p);
        let cell = before.block_at(c as int, j);
        assert(owner_at(before, at) != Some(q));
        assert(now.partitions.contains_key(q));
        lemma_kept_alive(was, now, p, q);
    }
}

/// A partition of one voxel at most whose neighbours are on the stack is
/// ready to be flooded.
pub proof fn lemma_flood_first(
    terrain: &Terrain,
    graph: GraphView,
    c: u32,
    p: u32,
    seed: [i32; 3],
    work: Seq<[i32; 3]>,
)
    requires
        terrain.wf(),
        linked(terrain, graph),
        graph.partitions.contains_key(p),
        graph.partitions[p].chunk_idx == c,
        !graph.partitions[p].is_computed,
        scanning(terrain, graph, c as int, None),
        in_chunk(terrain, c as int, spot_of(seed)),
        owner_at(terrain, spot_of(seed)) == Some(p),
        forall|k: int| 0 <= k < work.len() ==> next_to(spot_of(seed), spot_of(#[trigger] work[k])),
        forall|s: Spot|
            #[trigger] next_to(spot_of(seed), s) ==> exists|k: int|
                0 <= k < work.len() && spot_of(#[trigger] work[k]) == s,
    ensures
        flooding(terrain, graph, c as int, p, work),
{
    let at = spot_of(seed);
    terrain.lemma_in_bounds(at.x, at.y, at.z);
    let at_cell = terrain.block_at(terrain.chunk_of(at.x, at.y, at.z), terrain.block_of(at.x, at.y, at.z));
    assert(graph.partitions[p].holds_block(terrain.block_of(at.x, at.y, at.z)));
    assert(graph.partitions[p].blocks.len() <= 1);
    assert forall|a: Spot, b: Spot|
        #[trigger] alike(terrain, c as int, a, b) && owner_at(terrain, a) == Some(p) && owner_at(
            terrain,
            b,
        ) != Some(p) implies waits(work, b) by {
        terrain.lemma_in_bounds(a.x, a.y, a.z);
        let a_cell = terrain.block_at(terrain.chunk_of(a.x, a.y, a.z), terrain.block_of(a.x, a.y, a.z));
        assert(graph.partitions[p].holds_block(terrain.block_of(a.x, a.y, a.z)));
        let k1 = choose|k: int|
            0 <= k < graph.partitions[p].blocks.len() && #[trigger] graph.partitions[p].blocks[k]
                == terrain.block_of(a.x, a.y, a.z);
        let k2 = choose|k: int|
            0 <= k < graph.partitions[p].blocks.len() && #[trigger] graph.partitions[p].blocks[k]
                == terrain.block_of(at.x, at.y, at.z);
        lemma_cell_injective(terrain, a, at);
        assert(next_to(at, b));
        let k = choose|k: int| 0 <= k < work.len() && spot_of(#[trigger] work[k]) == b;
        assert(spot_of(work[k]) == b);
    }
    assert forall|k: int| 0 <= k < work.len() implies has_back(
        terrain,
        c as int,
        p,
        spot_of(#[trigger] work[k]),
    ) by {
        assert(next_to(at, spot_of(work[k])));
        assert(in_chunk(terrain, c as int, at) && owner_at(terrain, at) == Some(p) && next_to(
            at,
            spot_of(work[k]),
        ));
    }
    assert(stubs_small(graph, c as int, Some(p)));
}

/// A flood with an empty stack has made its partition a whole piece.
pub proof fn lemma_flood_last(terrain: &Terrain, graph: GraphView, c: u32, p: u32, work: Seq<[i32; 3]>)
    requires
        flooding(terrain, graph, c as int, p, work),
        work.len() == 0,
    ensures
        settled(terrain, c as int, p),
{
    assert forall|a: Spot, b: Spot|
        #[trigger] alike(terrain, c as int, a, b) && owner_at(terrain, a) == Some(p) implies owner_at(
        terrain,
        b,
    ) == Some(p) by {
        if owner_at(terrain, b) != Some(p) {
            assert(waits(work, b));
        }
    }
}

/// Marking a partition that is a whole piece as computed leaves the chunk
/// in order.
pub proof fn lemma_flood_marked(terrain: &Terrain, was: GraphView, now: GraphView, c: u32, p: u32)
    requires
        scanning(terrain, was, c as int, Some(p)),
        settled(terrain, c as int, p),
        was.partitions.contains_key(p),
        now.partitions.dom() == was.partitions.dom(),
        now.partitions[p].is_computed,
        forall|q: u32| #[trigger]
            now.partitions.contains_key(q) ==> now.partitions[q].chunk_idx == was.partitions[q].chunk_idx
                && now.partitions[q].blocks == was.partitions[q].blocks && (q != p
                ==> now.partitions[q].is_computed == was.partitions[q].is_computed),
    ensures
        scanning(terrain, now, c as int, None),
{
    assert forall|q: u32|
        #[trigger] now.partitions.contains_key(q) && now.partitions[q].chunk_idx == c as int
            && now.partitions[q].is_computed implies settled(terrain, c as int, q) by {
        assert(was.partitions.dom().contains(q));
        if q != p {
            assert(was.partitions.contains_key(q));
        }
    }
    assert forall|q: u32|
        #[trigger] now.partitions.contains_key(q) && now.partitions[q].chunk_idx == c as int
            && !now.partitions[q].is_computed && Some(q) != None::<u32> implies now.partitions[q].blocks.len()
        <= 1 by {
        assert(was.partitions.dom().contains(q));
        assert(was.partitions.contains_key(q));
    }
}

/// A voxel without owner that gets a new partition of its own leaves the
/// chunk in order.
pub proof fn lemma_scanning_aside(
    before: &Terrain,
    was: GraphView,
    after: &Terrain,
    now: GraphView,
    c: u32,
    pos: [i32; 3],
)
    requires
        before.wf(),
        linked(before, was),
        scanning(before, was, c as int, None),
        after.same_but_owners(before),
        crate::partitioner::partitions_kept(was, now, None),
        crate::partitioner::stepped_aside(before, was, after, now, pos),
    ensures
        scanning(after, now, c as int, None),
        stable(before, was, after, now, c as int),
{
    let at = spot_of(pos);
    lemma_same_masks(before, after);
    lemma_world_aside(before, was, after, now, pos);
    lemma_settled_aside(before, was, after, now, c as int, None, at);
    lemma_stubs_kept(was, now, c as int, None);
    lemma_unmixed_aside(before, was, after, c as int, at);
    assert forall|j: int|
        #![trigger after.block_at(c as int, j)]
        before.has_block(c as int, j) && before.block_at(c as int, j).partition_id is Some
            && was.partitions.contains_key(before.block_at(c as int, j).partition_id->0)
            && was.partitions[before.block_at(c as int, j).partition_id->0].is_computed implies {
        let q = before.block_at(c as int, j).partition_id->0;
        &&& after.block_at(c as int, j).partition_id == Some(q)
        &&& now.partitions.contains_key(q)
        &&& now.partitions[q].is_computed
    } by {
        let q = before.block_at(c as int, j).partition_id->0;
        assert(now.partitions.contains_key(q));
    }
}

/// A chunk in order, every voxel of which that supports some movement has
/// a computed owner, is not split.
pub proof fn lemma_unsplit(terrain: &Terrain, graph: GraphView, c: u32)
    requires
        terrain.wf(),
        linked(terrain, graph),
        scanning(terrain, graph, c as int, None),
        forall|j: int|
            #![trigger terrain.block_at(c as int, j)]
            terrain.has_block(c as int, j) && !terrain.block_at(c as int, j).flags.spec_is_empty() ==> {
                &&& terrain.block_at(c as int, j).partition_id is Some
                &&& graph.partitions[terrain.block_at(c as int, j).partition_id->0].is_computed
            },
    ensures
        crate::components::unsplit(terrain, c as int),
{
    assert forall|a: Spot, b: Spot| #[trigger] alike(terrain, c as int, a, b) implies owner_at(
        terrain,
        a,
    ) == owner_at(terrain, b) by {
        terrain.lemma_in_bounds(a.x, a.y, a.z);
        let j = terrain.block_of(a.x, a.y, a.z);
        let cell = terrain.block_at(c as int, j);
        let q = cell.partition_id->0;
        assert(graph.partitions.contains_key(q));
        assert(graph.partitions[q].chunk_idx == c);
        assert(settled(terrain, c as int, q));
    }
}

/// What was stable over two steps is stable over both.
pub proof fn lemma_stable_trans(
    first: &Terrain,
    a: GraphView,
    second: &Terrain,
    b: GraphView,
    third: &Terrain,
    d: GraphView,
    c: int,
)
    requires
        second.same_layout(first),
        stable(first, a, second, b, c),
        stable(second, b, third, d, c),
    ensures
        stable(first, a, third, d, c),
{
    assert forall|j: int|
        #![trigger third.block_at(c, j)]
        first.has_block(c, j) && first.block_at(c, j).partition_id is Some && a.partitions.contains_key(
            first.block_at(c, j).partition_id->0,
        ) && a.partitions[first.block_at(c, j).partition_id->0].is_computed implies {
        let q = first.block_at(c, j).partition_id->0;
        &&& third.block_at(c, j).partition_id == Some(q)
        &&& d.partitions.contains_key(q)
        &&& d.partitions[q].is_computed
    } by {
        let mid = second.block_at(c, j);
        assert(second.has_block(c, j));
    }
}

/// A chunk without partitions is in order.
pub proof fn lemma_scanning_cleared(terrain: &Terrain, graph: GraphView, c: u32)
    requires
        terrain.wf(),
        linked(terrain, graph),
        forall|q: u32| #[trigger] graph.partitions.contains_key(q) ==> graph.partitions[q].chunk_idx != c,
    ensures
        scanning(terrain, graph, c as int, None),
{
    assert forall|a: Spot, b: Spot|
        in_chunk(terrain, c as int, a) && in_chunk(terrain, c as int, b) && owner_at(terrain, a) is Some
            && #[trigger] owner_at(terrain, a) == #[trigger] owner_at(terrain, b) implies joined(
        terrain,
        c as int,
        a,
        b,
    ) by {
        terrain.lemma_in_bounds(a.x, a.y, a.z);
        let cell = terrain.block_at(c as int, terrain.block_of(a.x, a.y, a.z));
        assert(graph.partitions.contains_key(cell.partition_id->0));
    }
}

} // verus!
