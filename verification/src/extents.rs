//! The bounding box of a partition.
use crate::distance::offset_cost;
use crate::distance::offset_distance;
use vstd::prelude::*;

verus! {

/// The smallest box, in world coordinates, around the voxels given to it so
/// far, with the diagonal distance across it.
#[derive(Clone, Copy, Debug, PartialEq, Eq, Structural)]
pub struct Extents {
    /// At least one voxel was given.
    pub is_init: bool,
    pub min_x: u32,
    pub min_y: u32,
    pub min_z: u32,
    pub max_x: u32,
    pub max_y: u32,
    pub max_z: u32,
    /// Diagonal distance between the two corners, as of the last update.
    pub traversal_distance: u64,
    /// The box has grown since `traversal_distance` was last updated.
    pub is_stale: bool,
}

pub open spec fn spec_min(a: u32, b: u32) -> u32 {
    if a <= b {
        a
    } else {
        b
    }
}

pub open spec fn spec_max(a: u32, b: u32) -> u32 {
    if a >= b {
        a
    } else {
        b
    }
}

/// How far `p` lies outside the interval from `lo` to `hi`.
pub open spec fn spec_outside(p: int, lo: int, hi: int) -> int {
    if p < lo {
        lo - p
    } else if p > hi {
        p - hi
    } else {
        0
    }
}

fn lower(a: u32, b: u32) -> (m: u32)
    ensures
        m == spec_min(a, b),
{
    if a <= b {
        a
    } else {
        b
    }
}

fn upper(a: u32, b: u32) -> (m: u32)
    ensures
        m == spec_max(a, b),
{
    if a >= b {
        a
    } else {
        b
    }
}

fn outside(p: i32, lo: u32, hi: u32) -> (d: u64)
    ensures
        d == spec_outside(p as int, lo as int, hi as int),
        d <= 0x1_ffff_ffff,
{
    let wide: i64 = p as i64;
    if wide < lo as i64 {
        (lo as i64 - wide) as u64
    } else if wide > hi as i64 {
        (wide - hi as i64) as u64
    } else {
        0
    }
}

impl Extents {
    /// The box around no voxel at all.
    pub open spec fn spec_new() -> Extents {
        Extents {
            is_init: false,
            min_x: 0,
            min_y: 0,
            min_z: 0,
            max_x: 0,
            max_y: 0,
            max_z: 0,
            traversal_distance: 0,
            is_stale: false,
        }
    }

    /// The box grown to hold the voxel `(x, y, z)`.
    pub open spec fn extended(self, x: u32, y: u32, z: u32) -> Extents {
        if self.is_init {
            Extents {
                is_init: true,
                min_x: spec_min(self.min_x, x),
                min_y: spec_min(self.min_y, y),
                min_z: spec_min(self.min_z, z),
                max_x: spec_max(self.max_x, x),
                max_y: spec_max(self.max_y, y),
                max_z: spec_max(self.max_z, z),
                traversal_distance: self.traversal_distance,
                is_stale: true,
            }
        } else {
            Extents {
                is_init: true,
                min_x: x,
                min_y: y,
                min_z: z,
                max_x: x,
                max_y: y,
                max_z: z,
                traversal_distance: self.traversal_distance,
                is_stale: true,
            }
        }
    }

    /// The smallest box around this box and `other`.
    pub open spec fn merged(self, other: Extents) -> Extents {
        if !other.is_init {
            self
        } else {
            self.extended(other.min_x, other.min_y, other.min_z).extended(
                other.max_x,
                other.max_y,
                other.max_z,
            )
        }
    }

    /// The box holds the voxel `(x, y, z)`.
    pub open spec fn holds(self, x: int, y: int, z: int) -> bool {
        &&& self.is_init
        &&& self.min_x <= x <= self.max_x
        &&& self.min_y <= y <= self.max_y
        &&& self.min_z <= z <= self.max_z
    }

    /// The box holds every voxel that `other` holds.
    pub open spec fn covers(self, other: Extents) -> bool {
        other.is_init ==> {
            &&& self.is_init
            &&& self.min_x <= other.min_x
            &&& self.min_y <= other.min_y
            &&& self.min_z <= other.min_z
            &&& other.max_x <= self.max_x
            &&& other.max_y <= self.max_y
            &&& other.max_z <= self.max_z
        }
    }

    /// Diagonal distance from `(x, y, z)` to the nearest voxel of the box.
    pub open spec fn spec_distance_to_edge(self, x: int, y: int, z: int) -> int {
        offset_cost(
            spec_outside(x, self.min_x as int, self.max_x as int),
            spec_outside(y, self.min_y as int, self.max_y as int),
            spec_outside(z, self.min_z as int, self.max_z as int),
        )
    }

    /// Diagonal distance between the two corners of the box.
    pub open spec fn spec_span(self) -> int {
        offset_cost(
            self.max_x - self.min_x,
            self.max_y - self.min_y,
            self.max_z - self.min_z,
        )
    }

    /// The lower corner is no higher than the upper one.
    pub open spec fn ordered(self) -> bool {
        self.min_x <= self.max_x && self.min_y <= self.max_y && self.min_z <= self.max_z
    }

    pub fn new() -> (e: Extents)
        ensures
            e == Extents::spec_new(),
    {
        Extents {
            is_init: false,
            min_x: 0,
            min_y: 0,
            min_z: 0,
            max_x: 0,
            max_y: 0,
            max_z: 0,
            traversal_distance: 0,
            is_stale: false,
        }
    }

    /// Grows the box to hold the voxel at `pos`.
    pub fn extend(&mut self, pos: [u32; 3])
        ensures
            *final(self) == old(self).extended(pos[0], pos[1], pos[2]),
            final(self).holds(pos[0] as int, pos[1] as int, pos[2] as int),
            old(self).ordered() ==> final(self).ordered(),
            forall|x: int, y: int, z: int| old(self).holds(x, y, z) ==> final(self).holds(x, y, z),
    {
        if self.is_init {
            self.min_x = lower(self.min_x, pos[0]);
            self.min_y = lower(self.min_y, pos[1]);
            self.min_z = lower(self.min_z, pos[2]);
            self.max_x = upper(self.max_x, pos[0]);
            self.max_y = upper(self.max_y, pos[1]);
            self.max_z = upper(self.max_z, pos[2]);
        } else {
            self.is_init = true;
            self.min_x = pos[0];
            self.min_y = pos[1];
            self.min_z = pos[2];
            self.max_x = pos[0];
            self.max_y = pos[1];
            self.max_z = pos[2];
        }
        self.is_stale = true;
    }

    /// Grows the box to hold `other` as well.
    pub fn union(&mut self, other: &Extents)
        ensures
            *final(self) == old(self).merged(*other),
    {
        if other.is_init {
            self.extend([other.min_x, other.min_y, other.min_z]);
            self.extend([other.max_x, other.max_y, other.max_z]);
        }
    }

    /// The voxel in the middle of the box.
    pub fn center(&self) -> (c: [u32; 3])
        requires
            self.ordered(),
        ensures
            c[0] == self.min_x + (self.max_x - self.min_x) / 2,
            c[1] == self.min_y + (self.max_y - self.min_y) / 2,
            c[2] == self.min_z + (self.max_z - self.min_z) / 2,
            self.is_init ==> self.holds(c[0] as int, c[1] as int, c[2] as int),
    {
        [
            self.min_x + (self.max_x - self.min_x) / 2,
            self.min_y + (self.max_y - self.min_y) / 2,
            self.min_z + (self.max_z - self.min_z) / 2,
        ]
    }

    /// Diagonal distance from a voxel to the nearest voxel of the box: zero
    /// inside it.
    pub fn distance_to_edge(&self, x: i32, y: i32, z: i32) -> (d: u64)
        ensures
            d == self.spec_distance_to_edge(x as int, y as int, z as int),
    {
        offset_distance(
            outside(x, self.min_x, self.max_x),
            outside(y, self.min_y, self.max_y),
            outside(z, self.min_z, self.max_z),
        )
    }

    /// Brings `traversal_distance` up to date with the box.
    pub fn update_traversal_distance(&mut self)
        requires
            old(self).ordered(),
        ensures
            *final(self) == (Extents {
                traversal_distance: old(self).spec_span() as u64,
                is_stale: false,
                ..*old(self)
            }),
            final(self).traversal_distance == old(self).spec_span(),
    {
        self.traversal_distance = offset_distance(
            (self.max_x - self.min_x) as u64,
            (self.max_y - self.min_y) as u64,
            (self.max_z - self.min_z) as u64,
        );
        self.is_stale = false;
    }
}

} // verus!
