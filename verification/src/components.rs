//! Which voxels belong together: the voxels of a chunk that share a mask and
//! are joined by steps along the axes.
use crate::flags::PartitionFlags;
use crate::shape::lemma_index_injective;
use crate::terrain::Terrain;
use vstd::prelude::*;

verus! {

/// A place in the world, by its coordinates.
pub struct Spot {
    pub x: int,
    pub y: int,
    pub z: int,
}

/// The place of the voxel `v`.
pub open spec fn spot_of(v: [i32; 3]) -> Spot {
    Spot { x: v[0] as int, y: v[1] as int, z: v[2] as int }
}

/// The two places are one step along an axis apart.
pub open spec fn next_to(a: Spot, b: Spot) -> bool {
    ||| (a.y == b.y && a.z == b.z && (a.x == b.x + 1 || a.x == b.x - 1))
    ||| (a.x == b.x && a.z == b.z && (a.y == b.y + 1 || a.y == b.y - 1))
    ||| (a.x == b.x && a.y == b.y && (a.z == b.z + 1 || a.z == b.z - 1))
}

/// The place is a voxel of chunk `c`.
pub open spec fn in_chunk(terrain: &Terrain, c: int, a: Spot) -> bool {
    terrain.in_bounds(a.x, a.y, a.z) && terrain.chunk_of(a.x, a.y, a.z) == c
}

pub open spec fn mask_at(terrain: &Terrain, a: Spot) -> PartitionFlags {
    terrain.voxel(a.x, a.y, a.z).flags
}

pub open spec fn owner_at(terrain: &Terrain, a: Spot) -> Option<u32> {
    terrain.voxel(a.x, a.y, a.z).partition_id
}

/// Two voxels of chunk `c`, one step apart, that share a mask which is not
/// empty.
pub open spec fn alike(terrain: &Terrain, c: int, a: Spot, b: Spot) -> bool {
    &&& in_chunk(terrain, c, a)
    &&& in_chunk(terrain, c, b)
    &&& next_to(a, b)
    &&& !mask_at(terrain, a).spec_is_empty()
    &&& mask_at(terrain, a) == mask_at(terrain, b)
}

/// A non-empty sequence of voxels of chunk `c`, each like the one before.
pub open spec fn is_trail(terrain: &Terrain, c: int, p: Seq<Spot>) -> bool {
    &&& p.len() > 0
    &&& in_chunk(terrain, c, p[0])
    &&& !mask_at(terrain, p[0]).spec_is_empty()
    &&& forall|i: int| 0 <= i < p.len() - 1 ==> alike(terrain, c, #[trigger] p[i], p[i + 1])
}

/// A trail leads from `a` to `b`: the two belong to one piece of the chunk.
pub open spec fn joined(terrain: &Terrain, c: int, a: Spot, b: Spot) -> bool {
    exists|p: Seq<Spot>| #[trigger] is_trail(terrain, c, p) && p[0] == a && p.last() == b
}

/// A voxel of the chunk that supports some movement is joined to itself.
pub proof fn lemma_joined_self(terrain: &Terrain, c: int, a: Spot)
    requires
        in_chunk(terrain, c, a),
        !mask_at(terrain, a).spec_is_empty(),
    ensures
        joined(terrain, c, a, a),
{
    let p = seq![a];
    assert(is_trail(terrain, c, p));
    assert(p[0] == a && p.last() == a);
}

/// What is like a joined voxel is joined.
pub proof fn lemma_joined_step(terrain: &Terrain, c: int, a: Spot, b: Spot, d: Spot)
    requires
        joined(terrain, c, a, b),
        alike(terrain, c, b, d),
    ensures
        joined(terrain, c, a, d),
{
    let p = choose|p: Seq<Spot>| #[trigger] is_trail(terrain, c, p) && p[0] == a && p.last() == b;
    let q = p.push(d);
    assert forall|i: int| 0 <= i < q.len() - 1 implies alike(terrain, c, #[trigger] q[i], q[i + 1]) by {
        if i < p.len() - 1 {
            assert(q[i] == p[i]);
            assert(q[i + 1] == p[i + 1]);
        } else {
            assert(q[i] == p.last());
        }
    }
    assert(q[0] == p[0]);
    assert(is_trail(terrain, c, q));
    assert(q[0] == a && q.last() == d);
}

/// Every voxel of a trail has the mask of the first.
proof fn lemma_trail_mask(terrain: &Terrain, c: int, p: Seq<Spot>, i: int)
    requires
        is_trail(terrain, c, p),
        0 <= i < p.len(),
    ensures
        mask_at(terrain, p[i]) == mask_at(terrain, p[0]),
        in_chunk(terrain, c, p[i]),
    decreases i,
{
    if i > 0 {
        lemma_trail_mask(terrain, c, p, i - 1);
        assert(alike(terrain, c, p[i - 1], p[i - 1 + 1]));
    }
}

/// Joined voxels share their mask and their chunk.
pub proof fn lemma_joined_mask(terrain: &Terrain, c: int, a: Spot, b: Spot)
    requires
        joined(terrain, c, a, b),
    ensures
        mask_at(terrain, a) == mask_at(terrain, b),
        !mask_at(terrain, a).spec_is_empty(),
        in_chunk(terrain, c, a),
        in_chunk(terrain, c, b),
{
    let p = choose|p: Seq<Spot>| #[trigger] is_trail(terrain, c, p) && p[0] == a && p.last() == b;
    lemma_trail_mask(terrain, c, p, p.len() - 1);
}

/// Being joined is mutual.
pub proof fn lemma_joined_mutual(terrain: &Terrain, c: int, a: Spot, b: Spot)
    requires
        joined(terrain, c, a, b),
    ensures
        joined(terrain, c, b, a),
{
    let p = choose|p: Seq<Spot>| #[trigger] is_trail(terrain, c, p) && p[0] == a && p.last() == b;
    let q = p.reverse();
    lemma_trail_mask(terrain, c, p, p.len() - 1);
    assert forall|i: int| 0 <= i < q.len() - 1 implies alike(terrain, c, #[trigger] q[i], q[i + 1]) by {
        let k = p.len() - 2 - i;
        assert(alike(terrain, c, p[k], p[k + 1]));
        assert(q[i] == p[k + 1]);
        assert(q[i + 1] == p[k]);
    }
    assert(q[0] == p.last());
    assert(is_trail(terrain, c, q));
    assert(q[0] == b && q.last() == a);
}

/// What is joined to a joined voxel is joined.
pub proof fn lemma_joined_chain(terrain: &Terrain, c: int, a: Spot, b: Spot, d: Spot)
    requires
        joined(terrain, c, a, b),
        joined(terrain, c, b, d),
    ensures
        joined(terrain, c, a, d),
{
    let p = choose|p: Seq<Spot>| #[trigger] is_trail(terrain, c, p) && p[0] == a && p.last() == b;
    let q = choose|q: Seq<Spot>| #[trigger] is_trail(terrain, c, q) && q[0] == b && q.last() == d;
    lemma_chain(terrain, c, a, p, q, q.len() - 1);
}

proof fn lemma_chain(terrain: &Terrain, c: int, a: Spot, p: Seq<Spot>, q: Seq<Spot>, i: int)
    requires
        is_trail(terrain, c, p),
        is_trail(terrain, c, q),
        p[0] == a,
        p.last() == q[0],
        0 <= i < q.len(),
    ensures
        joined(terrain, c, a, q[i]),
    decreases i,
{
    if i == 0 {
        assert(is_trail(terrain, c, p) && p[0] == a && p.last() == q[0]);
    } else {
        lemma_chain(terrain, c, a, p, q, i - 1);
        assert(alike(terrain, c, q[i - 1], q[i - 1 + 1]));
        lemma_joined_step(terrain, c, a, q[i - 1], q[i]);
    }
}

/// Trails depend on the masks of the world alone.
pub proof fn lemma_joined_same_masks(before: &Terrain, after: &Terrain, c: int, a: Spot, b: Spot)
    requires
        before.same_layout(after),
        forall|s: Spot| in_chunk(before, c, s) ==> #[trigger] mask_at(after, s) == mask_at(before, s),
        joined(before, c, a, b),
    ensures
        joined(after, c, a, b),
{
    let p = choose|p: Seq<Spot>| #[trigger] is_trail(before, c, p) && p[0] == a && p.last() == b;
    assert forall|i: int| 0 <= i < p.len() - 1 implies alike(after, c, #[trigger] p[i], p[i + 1]) by {
        assert(alike(before, c, p[i], p[i + 1]));
        assert(mask_at(after, p[i]) == mask_at(before, p[i]));
        assert(mask_at(after, p[i + 1]) == mask_at(before, p[i + 1]));
    }
    assert(mask_at(after, p[0]) == mask_at(before, p[0]));
    assert(is_trail(after, c, p));
}

/// Two voxels of the world in the same chunk with the same number are the
/// same voxel.
pub proof fn lemma_cell_injective(terrain: &Terrain, a: Spot, b: Spot)
    requires
        terrain.wf(),
        terrain.in_bounds(a.x, a.y, a.z),
        terrain.in_bounds(b.x, b.y, b.z),
        terrain.chunk_of(a.x, a.y, a.z) == terrain.chunk_of(b.x, b.y, b.z),
        terrain.block_of(a.x, a.y, a.z) == terrain.block_of(b.x, b.y, b.z),
    ensures
        a == b,
{
    let size = terrain.chunk_size as int;
    lemma_parts(a.x, size, terrain.shape.dx());
    lemma_parts(a.y, size, terrain.shape.dy());
    lemma_parts(a.z, size, terrain.shape.dz());
    lemma_parts(b.x, size, terrain.shape.dx());
    lemma_parts(b.y, size, terrain.shape.dy());
    lemma_parts(b.z, size, terrain.shape.dz());
    lemma_index_injective(
        terrain.shape.dx(),
        terrain.shape.dy(),
        a.x / size,
        a.y / size,
        a.z / size,
        b.x / size,
        b.y / size,
        b.z / size,
    );
    lemma_index_injective(
        size,
        size,
        a.x % size,
        a.y % size,
        a.z % size,
        b.x % size,
        b.y % size,
        b.z % size,
    );
}

/// Quotient and remainder of a coordinate by the chunk size.
proof fn lemma_parts(x: int, size: int, count: int)
    requires
        0 <= x < count * size,
        size > 0,
    ensures
        0 <= x / size < count,
        0 <= x % size < size,
        x == size * (x / size) + x % size,
{
    vstd::arithmetic::div_mod::lemma_fundamental_div_mod(x, size);
    vstd::arithmetic::div_mod::lemma_mod_bound(x, size);
    let q = x / size;
    let r = x % size;
    assert(0 <= q) by (nonlinear_arith)
        requires
            x == size * q + r,
            0 <= r < size,
            0 <= x,
            size > 0,
    ;
    assert(q < count) by (nonlinear_arith)
        requires
            x == size * q + r,
            0 <= r,
            x < count * size,
            size > 0,
    ;
}

/// Every voxel like a voxel of the same owner has that owner: no piece is
/// split between owners.
pub open spec fn unsplit(terrain: &Terrain, c: int) -> bool {
    forall|a: Spot, b: Spot| #[trigger] alike(terrain, c, a, b) ==> owner_at(terrain, a) == owner_at(
        terrain,
        b,
    )
}

/// Voxels of one owner are joined: no owner has two pieces.
pub open spec fn unmixed(terrain: &Terrain, c: int) -> bool {
    forall|a: Spot, b: Spot|
        in_chunk(terrain, c, a) && in_chunk(terrain, c, b) && owner_at(terrain, a) is Some
            && #[trigger] owner_at(terrain, a) == #[trigger] owner_at(terrain, b) ==> joined(
            terrain,
            c,
            a,
            b,
        )
}

/// Joined voxels of a chunk that is not split have one owner.
pub proof fn lemma_joined_owner(terrain: &Terrain, c: int, a: Spot, b: Spot)
    requires
        unsplit(terrain, c),
        joined(terrain, c, a, b),
    ensures
        owner_at(terrain, a) == owner_at(terrain, b),
{
    let p = choose|p: Seq<Spot>| #[trigger] is_trail(terrain, c, p) && p[0] == a && p.last() == b;
    lemma_trail_owner(terrain, c, p, p.len() - 1);
}

proof fn lemma_trail_owner(terrain: &Terrain, c: int, p: Seq<Spot>, i: int)
    requires
        unsplit(terrain, c),
        is_trail(terrain, c, p),
        0 <= i < p.len(),
    ensures
        owner_at(terrain, p[i]) == owner_at(terrain, p[0]),
    decreases i,
{
    if i > 0 {
        lemma_trail_owner(terrain, c, p, i - 1);
        assert(alike(terrain, c, p[i - 1], p[i - 1 + 1]));
    }
}

} // verus!
