//! Grid distances, in thousandths of a voxel edge.
use vstd::prelude::*;

verus! {

/// Cost of one step along an axis.
pub const STRAIGHT_COST: u64 = 1000;

/// Cost of one step along the diagonal of a face.
pub const FACE_COST: u64 = 1414;

/// Cost of one step along the diagonal of a cube.
pub const CORNER_COST: u64 = 1732;

pub open spec fn abs_diff(a: int, b: int) -> int {
    if a >= b {
        a - b
    } else {
        b - a
    }
}

pub open spec fn min3(a: int, b: int, c: int) -> int {
    if a <= b && a <= c {
        a
    } else if b <= c {
        b
    } else {
        c
    }
}

pub open spec fn max3(a: int, b: int, c: int) -> int {
    if a >= b && a >= c {
        a
    } else if b >= c {
        b
    } else {
        c
    }
}

/// Cost of the cheapest walk that covers the offsets `dx`, `dy`, `dz` when a
/// step may change one, two or three coordinates by one: as many cube
/// diagonals as the smallest offset allows, then face diagonals, then
/// straight steps.
pub open spec fn offset_cost(dx: int, dy: int, dz: int) -> int {
    let lo = min3(dx, dy, dz);
    let hi = max3(dx, dy, dz);
    let mid = dx + dy + dz - lo - hi;
    CORNER_COST * lo + FACE_COST * (mid - lo) + STRAIGHT_COST * (hi - mid)
}

/// Diagonal distance between two voxels.
pub open spec fn diagonal_cost(a: Seq<i32>, b: Seq<i32>) -> int {
    offset_cost(abs_diff(a[0] as int, b[0] as int), abs_diff(a[1] as int, b[1] as int), abs_diff(a[2] as int, b[2] as int))
}

pub struct Distance;

fn axis_offset(a: i32, b: i32) -> (d: u64)
    ensures
        d == abs_diff(a as int, b as int),
        d <= 0xffff_ffff,
{
    let wide_a: i64 = a as i64;
    let wide_b: i64 = b as i64;
    if wide_a >= wide_b {
        (wide_a - wide_b) as u64
    } else {
        (wide_b - wide_a) as u64
    }
}

/// Diagonal cost of three offsets that each fit in 33 bits.
pub fn offset_distance(dx: u64, dy: u64, dz: u64) -> (d: u64)
    requires
        dx <= 0x1_ffff_ffff,
        dy <= 0x1_ffff_ffff,
        dz <= 0x1_ffff_ffff,
    ensures
        d == offset_cost(dx as int, dy as int, dz as int),
{
    let lo: u64 = if dx <= dy && dx <= dz {
        dx
    } else if dy <= dz {
        dy
    } else {
        dz
    };
    let hi: u64 = if dx >= dy && dx >= dz {
        dx
    } else if dy >= dz {
        dy
    } else {
        dz
    };
    let mid: u64 = dx + dy + dz - lo - hi;
    CORNER_COST * lo + FACE_COST * (mid - lo) + STRAIGHT_COST * (hi - mid)
}

impl Distance {
    /// Diagonal distance between two voxels, in thousandths of a voxel edge.
    pub fn diagonal(a: [i32; 3], b: [i32; 3]) -> (d: u64)
        ensures
            d == diagonal_cost(a@, b@),
    {
        offset_distance(axis_offset(a[0], b[0]), axis_offset(a[1], b[1]), axis_offset(a[2], b[2]))
    }
}

/// The diagonal distance is symmetric, zero exactly between a voxel and
/// itself, and one straight step costs `STRAIGHT_COST`.
pub proof fn lemma_diagonal_cost(a: Seq<i32>, b: Seq<i32>)
    requires
        a.len() == 3,
        b.len() == 3,
    ensures
        diagonal_cost(a, b) == diagonal_cost(b, a),
        diagonal_cost(a, b) >= 0,
        diagonal_cost(a, b) == 0 <==> a =~= b,
{
}

/// The diagonal cost weighs the largest offset with a straight step, and
/// is the largest of the sums that weigh the three offsets in any order.
pub proof fn lemma_offset_weighed(x: int, y: int, z: int)
    requires
        x >= 0,
        y >= 0,
        z >= 0,
    ensures
        offset_cost(x, y, z) == 1000 * max3(x, y, z) + 414 * (x + y + z - min3(x, y, z) - max3(x, y, z)) + 318
            * min3(x, y, z),
        offset_cost(x, y, z) >= 1000 * x + 414 * y + 318 * z,
        offset_cost(x, y, z) >= 1000 * x + 414 * z + 318 * y,
        offset_cost(x, y, z) >= 1000 * y + 414 * x + 318 * z,
        offset_cost(x, y, z) >= 1000 * y + 414 * z + 318 * x,
        offset_cost(x, y, z) >= 1000 * z + 414 * x + 318 * y,
        offset_cost(x, y, z) >= 1000 * z + 414 * y + 318 * x,
{
}

/// Larger offsets cost no less.
pub proof fn lemma_offset_monotone(x: int, y: int, z: int, u: int, v: int, w: int)
    requires
        0 <= x <= u,
        0 <= y <= v,
        0 <= z <= w,
    ensures
        offset_cost(x, y, z) <= offset_cost(u, v, w),
{
    lemma_offset_weighed(x, y, z);
    lemma_offset_weighed(u, v, w);
}

/// Two offsets in a row cost no less than their sum at once.
pub proof fn lemma_offset_sum(x: int, y: int, z: int, u: int, v: int, w: int)
    requires
        x >= 0,
        y >= 0,
        z >= 0,
        u >= 0,
        v >= 0,
        w >= 0,
    ensures
        offset_cost(x + u, y + v, z + w) <= offset_cost(x, y, z) + offset_cost(u, v, w),
{
    lemma_offset_weighed(x, y, z);
    lemma_offset_weighed(u, v, w);
    lemma_offset_weighed(x + u, y + v, z + w);
}

/// The way over a third voxel is no shorter than the straight way.
pub proof fn lemma_diagonal_triangle(a: Seq<i32>, b: Seq<i32>, c: Seq<i32>)
    requires
        a.len() == 3,
        b.len() == 3,
        c.len() == 3,
    ensures
        diagonal_cost(a, c) <= diagonal_cost(a, b) + diagonal_cost(b, c),
{
    let x = abs_diff(a[0] as int, b[0] as int);
    let y = abs_diff(a[1] as int, b[1] as int);
    let z = abs_diff(a[2] as int, b[2] as int);
    let u = abs_diff(b[0] as int, c[0] as int);
    let v = abs_diff(b[1] as int, c[1] as int);
    let w = abs_diff(b[2] as int, c[2] as int);
    lemma_offset_sum(x, y, z, u, v, w);
    lemma_offset_monotone(
        abs_diff(a[0] as int, c[0] as int),
        abs_diff(a[1] as int, c[1] as int),
        abs_diff(a[2] as int, c[2] as int),
        x + u,
        y + v,
        z + w,
    );
}

} // verus!
