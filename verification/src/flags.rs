//! Capability masks: which kinds of movement a voxel or a partition supports.
use vstd::prelude::*;

verus! {

/// A set of movement capabilities, one bit each. The meaning of each bit is
/// the caller's; masks are only compared and intersected here.
#[derive(Clone, Copy, Debug, PartialEq, Eq, Structural)]
pub struct PartitionFlags {
    pub bits: u32,
}

impl PartitionFlags {
    /// No capability at all: the voxel cannot be entered.
    pub open spec fn spec_is_empty(&self) -> bool {
        self.bits == 0
    }

    /// The two masks share at least one capability.
    pub open spec fn spec_intersects(&self, other: PartitionFlags) -> bool {
        self.bits & other.bits != 0
    }

    pub fn none() -> (f: PartitionFlags)
        ensures
            f.bits == 0,
            f.spec_is_empty(),
    {
        PartitionFlags { bits: 0 }
    }

    pub fn from_bits(bits: u32) -> (f: PartitionFlags)
        ensures
            f.bits == bits,
    {
        PartitionFlags { bits }
    }

    pub fn bits(&self) -> (b: u32)
        ensures
            b == self.bits,
    {
        self.bits
    }

    #[verifier::when_used_as_spec(spec_is_empty)]
    pub fn is_empty(&self) -> (b: bool)
        ensures
            b == self.spec_is_empty(),
    {
        self.bits == 0
    }

    #[verifier::when_used_as_spec(spec_intersects)]
    pub fn intersects(&self, other: PartitionFlags) -> (b: bool)
        ensures
            b == self.spec_intersects(other),
    {
        (self.bits & other.bits) != 0
    }

    /// The capabilities present in either mask.
    pub fn union(&self, other: PartitionFlags) -> (f: PartitionFlags)
        ensures
            f.bits == self.bits | other.bits,
    {
        PartitionFlags { bits: self.bits | other.bits }
    }

    /// The capabilities present in both masks.
    pub fn intersection(&self, other: PartitionFlags) -> (f: PartitionFlags)
        ensures
            f.bits == self.bits & other.bits,
            f.spec_is_empty() == !self.spec_intersects(other),
    {
        PartitionFlags { bits: self.bits & other.bits }
    }
}

/// Masks that share a capability are both non-empty, and sharing is mutual.
pub proof fn lemma_intersects(a: PartitionFlags, b: PartitionFlags)
    ensures
        a.spec_intersects(b) == b.spec_intersects(a),
        a.spec_intersects(b) ==> !a.spec_is_empty() && !b.spec_is_empty(),
        a.spec_intersects(a) == !a.spec_is_empty(),
{
    let x = a.bits;
    let y = b.bits;
    assert(x & y == y & x) by (bit_vector);
    assert(x & y != 0 ==> x != 0 && y != 0) by (bit_vector);
    assert(x & x == x) by (bit_vector);
}

} // verus!
