//! Row-major indexing of a three-dimensional box of cells.
use ndshape::RuntimeShape;
use ndshape::Shape;
use vstd::prelude::*;

verus! {

/// Extent of a box of cells along x, y and z. Cells are numbered x first,
/// then y, then z.
#[derive(Clone, Copy, Debug)]
pub struct GridShape {
    dims: [u32; 3],
}

/// Number of cells of a box with the given extents.
pub open spec fn box_volume(dx: int, dy: int, dz: int) -> int {
    dx * dy * dz
}

/// A box with these extents has cells, and few enough to number in 32 bits.
pub open spec fn box_fits(dx: int, dy: int, dz: int) -> bool {
    dx > 0 && dy > 0 && dz > 0 && box_volume(dx, dy, dz) <= u32::MAX
}

/// Row-major number of the cell `(x, y, z)` in a box `dx` wide and `dy` deep.
pub open spec fn box_index(dx: int, dy: int, x: int, y: int, z: int) -> int {
    x + dx * y + (dx * dy) * z
}

/// Calls `RuntimeShape::<u32, 3>::new(dims).size()` of ndshape, which
/// multiplies the x and y extents, and that product with the z extent. Both
/// products have to fit, else `new` overflows.
#[verifier::external_body]
fn runtime_shape_size(dims: [u32; 3]) -> (n: u32)
    requires
        dims[0] as int * dims[1] as int <= u32::MAX,
        box_volume(dims[0] as int, dims[1] as int, dims[2] as int) <= u32::MAX,
    ensures
        n == box_volume(dims[0] as int, dims[1] as int, dims[2] as int),
{
    RuntimeShape::<u32, 3>::new(dims).size()
}

/// Calls `RuntimeShape::<u32, 3>::new(dims).linearize(p)` of ndshape, which
/// adds `p[0]`, `p[1]` times the x extent and `p[2]` times the product of the
/// x and y extents. Both products of extents have to fit and the cell has to
/// lie in the box, so that nothing overflows.
#[verifier::external_body]
fn runtime_shape_linearize(dims: [u32; 3], p: [u32; 3]) -> (i: u32)
    requires
        dims[0] as int * dims[1] as int <= u32::MAX,
        box_volume(dims[0] as int, dims[1] as int, dims[2] as int) <= u32::MAX,
        p[0] < dims[0],
        p[1] < dims[1],
        p[2] < dims[2],
    ensures
        i == box_index(dims[0] as int, dims[1] as int, p[0] as int, p[1] as int, p[2] as int),
{
    RuntimeShape::<u32, 3>::new(dims).linearize(p)
}

/// Calls `RuntimeShape::<u32, 3>::new(dims).delinearize(i)` of ndshape, which
/// divides `i` by the product of the x and y extents for z, and the rest by
/// the x extent for y and x. Both products of extents have to fit, else `new`
/// overflows, and both divisors have to be positive.
#[verifier::external_body]
fn runtime_shape_delinearize(dims: [u32; 3], i: u32) -> (p: [u32; 3])
    requires
        dims[0] as int * dims[1] as int <= u32::MAX,
        box_volume(dims[0] as int, dims[1] as int, dims[2] as int) <= u32::MAX,
        dims[0] > 0,
        dims[1] > 0,
    ensures
        p[2] == i as int / (dims[0] as int * dims[1] as int),
        p[1] == (i as int - p[2] as int * (dims[0] as int * dims[1] as int)) / (dims[0] as int),
        p[0] == (i as int - p[2] as int * (dims[0] as int * dims[1] as int)) % (dims[0] as int),
{
    RuntimeShape::<u32, 3>::new(dims).delinearize(i)
}

/// A cell inside the box has a number below the volume.
pub proof fn lemma_index_in_range(dx: int, dy: int, dz: int, x: int, y: int, z: int)
    requires
        0 <= x < dx,
        0 <= y < dy,
        0 <= z < dz,
    ensures
        0 <= box_index(dx, dy, x, y, z) < box_volume(dx, dy, dz),
        dx * dy > 0,
        dx * dy <= box_volume(dx, dy, dz),
{
    assert(dx * dy > 0) by (nonlinear_arith)
        requires
            dx > 0,
            dy > 0,
    ;
    assert(0 <= dx * y <= dx * (dy - 1)) by (nonlinear_arith)
        requires
            0 <= y <= dy - 1,
            dx > 0,
    ;
    assert(dx * (dy - 1) == dx * dy - dx) by (nonlinear_arith);
    assert(0 <= (dx * dy) * z <= (dx * dy) * (dz - 1)) by (nonlinear_arith)
        requires
            0 <= z <= dz - 1,
            dx * dy > 0,
    ;
    assert((dx * dy) * (dz - 1) == dx * dy * dz - dx * dy) by (nonlinear_arith);
    assert(0 <= (dx * dy) * (dz - 1)) by (nonlinear_arith)
        requires
            dx * dy > 0,
            dz >= 1,
    ;
}

/// Two cells inside the box with the same number are the same cell.
pub proof fn lemma_index_injective(
    dx: int,
    dy: int,
    x1: int,
    y1: int,
    z1: int,
    x2: int,
    y2: int,
    z2: int,
)
    requires
        0 <= x1 < dx,
        0 <= y1 < dy,
        0 <= x2 < dx,
        0 <= y2 < dy,
        0 <= z1,
        0 <= z2,
        box_index(dx, dy, x1, y1, z1) == box_index(dx, dy, x2, y2, z2),
    ensures
        x1 == x2,
        y1 == y2,
        z1 == z2,
{
    let a1 = y1 + dy * z1;
    let a2 = y2 + dy * z2;
    assert(box_index(dx, dy, x1, y1, z1) == x1 + dx * a1) by (nonlinear_arith)
        requires
            a1 == y1 + dy * z1,
    ;
    assert(box_index(dx, dy, x2, y2, z2) == x2 + dx * a2) by (nonlinear_arith)
        requires
            a2 == y2 + dy * z2,
    ;
    lemma_mixed_radix(dx, x1, a1, x2, a2);
    lemma_mixed_radix(dy, y1, z1, y2, z2);
}

/// A number written as a digit below `base` plus `base` times a rest has
/// only one such writing.
proof fn lemma_mixed_radix(base: int, d1: int, r1: int, d2: int, r2: int)
    requires
        0 <= d1 < base,
        0 <= d2 < base,
        d1 + base * r1 == d2 + base * r2,
    ensures
        d1 == d2,
        r1 == r2,
{
    assert(r1 == r2) by (nonlinear_arith)
        requires
            0 <= d1 < base,
            0 <= d2 < base,
            d1 + base * r1 == d2 + base * r2,
    ;
}

impl GridShape {
    pub closed spec fn dx(self) -> int {
        self.dims[0] as int
    }

    pub closed spec fn dy(self) -> int {
        self.dims[1] as int
    }

    pub closed spec fn dz(self) -> int {
        self.dims[2] as int
    }

    /// Every extent is positive and the number of cells fits in 32 bits.
    pub open spec fn wf(self) -> bool {
        &&& self.dx() > 0
        &&& self.dy() > 0
        &&& self.dz() > 0
        &&& box_volume(self.dx(), self.dy(), self.dz()) <= u32::MAX
    }

    pub open spec fn volume(self) -> int {
        box_volume(self.dx(), self.dy(), self.dz())
    }

    pub open spec fn contains(self, x: int, y: int, z: int) -> bool {
        0 <= x < self.dx() && 0 <= y < self.dy() && 0 <= z < self.dz()
    }

    pub open spec fn index_of(self, x: int, y: int, z: int) -> int {
        box_index(self.dx(), self.dy(), x, y, z)
    }

    /// The box with the given extents, if each is positive and the number of
    /// cells fits in 32 bits.
    pub fn new(dims: [u32; 3]) -> (r: Option<GridShape>)
        ensures
            r is Some <==> box_fits(dims[0] as int, dims[1] as int, dims[2] as int),
            r matches Some(s) ==> s.wf() && s.dx() == dims[0] && s.dy() == dims[1] && s.dz()
                == dims[2],
    {
        if dims[0] == 0 || dims[1] == 0 || dims[2] == 0 {
            return None;
        }
        assert(dims[0] as int * dims[1] as int <= 0xffff_ffff * 0xffff_ffff) by (nonlinear_arith)
            requires
                0 <= dims[0] <= 0xffff_ffff,
                0 <= dims[1] <= 0xffff_ffff,
        ;
        let wide: u128 = (dims[0] as u128) * (dims[1] as u128);
        assert(wide * dims[2] as int <= 0xffff_ffff * 0xffff_ffff * 0xffff_ffff) by (nonlinear_arith)
            requires
                0 <= wide <= 0xffff_ffff * 0xffff_ffff,
                0 <= dims[2] <= 0xffff_ffff,
        ;
        let total: u128 = wide * (dims[2] as u128);
        if total > 0xffff_ffff {
            return None;
        }
        Some(GridShape { dims })
    }

    pub fn dims(&self) -> (d: [u32; 3])
        ensures
            d[0] == self.dx(),
            d[1] == self.dy(),
            d[2] == self.dz(),
    {
        self.dims
    }

    /// Number of cells.
    pub fn size(&self) -> (n: u32)
        requires
            self.wf(),
        ensures
            n == self.volume(),
            n > 0,
    {
        proof {
            lemma_index_in_range(self.dx(), self.dy(), self.dz(), 0, 0, 0);
        }
        runtime_shape_size(self.dims)
    }

    /// Whether the cell lies in the box.
    pub fn holds(&self, p: [u32; 3]) -> (b: bool)
        ensures
            b == self.contains(p[0] as int, p[1] as int, p[2] as int),
    {
        p[0] < self.dims[0] && p[1] < self.dims[1] && p[2] < self.dims[2]
    }

    /// Number of a cell of the box.
    pub fn linearize(&self, p: [u32; 3]) -> (i: u32)
        requires
            self.wf(),
            self.contains(p[0] as int, p[1] as int, p[2] as int),
        ensures
            i == self.index_of(p[0] as int, p[1] as int, p[2] as int),
            i < self.volume(),
    {
        proof {
            lemma_index_in_range(
                self.dx(),
                self.dy(),
                self.dz(),
                p[0] as int,
                p[1] as int,
                p[2] as int,
            );
        }
        runtime_shape_linearize(self.dims, p)
    }

    /// The cell with the given number: the inverse of `linearize`.
    pub fn delinearize(&self, i: u32) -> (p: [u32; 3])
        requires
            self.wf(),
            i < self.volume(),
        ensures
            self.contains(p[0] as int, p[1] as int, p[2] as int),
            self.index_of(p[0] as int, p[1] as int, p[2] as int) == i,
    {
        proof {
            lemma_index_in_range(self.dx(), self.dy(), self.dz(), 0, 0, 0);
        }
        let p = runtime_shape_delinearize(self.dims, i);
        proof {
            let dx = self.dx();
            let dy = self.dy();
            let dz = self.dz();
            let plane = dx * dy;
            lemma_index_in_range(dx, dy, dz, 0, 0, 0);
            let z = i as int / plane;
            let rest = i as int - z * plane;
            vstd::arithmetic::div_mod::lemma_fundamental_div_mod(i as int, plane);
            vstd::arithmetic::div_mod::lemma_mod_bound(i as int, plane);
            assert(plane * z == z * plane) by (nonlinear_arith);
            assert(rest == i as int % plane);
            assert(0 <= rest < plane);
            vstd::arithmetic::div_mod::lemma_fundamental_div_mod(rest, dx);
            vstd::arithmetic::div_mod::lemma_mod_bound(rest, dx);
            let y = rest / dx;
            let x = rest % dx;
            assert(0 <= z) by (nonlinear_arith)
                requires
                    z == i as int / plane,
                    i >= 0,
                    plane > 0,
            ;
            assert(z < dz) by (nonlinear_arith)
                requires
                    plane * z + rest == i,
                    0 <= rest,
                    i < plane * dz,
                    plane > 0,
            ;
            assert(0 <= y) by (nonlinear_arith)
                requires
                    y == rest / dx,
                    rest >= 0,
                    dx > 0,
            ;
            assert(y < dy) by (nonlinear_arith)
                requires
                    dx * y + x == rest,
                    0 <= x,
                    rest < dx * dy,
                    dx > 0,
            ;
            assert(plane * dz == dx * dy * dz) by (nonlinear_arith)
                requires
                    plane == dx * dy,
            ;
            assert(x + dx * y + plane * z == i);
        }
        p
    }
}

} // verus!
