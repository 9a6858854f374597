//! Hashed sets of partition or region numbers and of occupants.
//!
//! The sets are the hash sets of bevy's utilities. Nothing is proved of them
//! here: each function below says what the hash set's own function does.
use bevy::utils::HashSet;
use vstd::prelude::*;

verus! {

/// A set of partition or region numbers, held in a `bevy::utils::HashSet`.
#[verifier::external_body]
pub struct IdSet {
    inner: HashSet<u32>,
}

/// The numbers that an `IdSet` holds.
pub uninterp spec fn id_set_contents(s: IdSet) -> Set<u32>;

impl View for IdSet {
    type V = Set<u32>;

    open spec fn view(&self) -> Set<u32> {
        id_set_contents(*self)
    }
}

impl IdSet {
    /// `HashSet::default`: a set that holds nothing.
    #[verifier::external_body]
    pub(crate) fn new() -> (s: IdSet)
        ensures
            id_set_contents(s) == Set::<u32>::empty(),
    {
        IdSet { inner: HashSet::default() }
    }

    /// `HashSet::insert`: puts the number in the set and says whether it was
    /// new.
    #[verifier::external_body]
    pub(crate) fn insert(&mut self, id: u32) -> (fresh: bool)
        ensures
            id_set_contents(*final(self)) == id_set_contents(*old(self)).insert(id),
            fresh == !id_set_contents(*old(self)).contains(id),
    {
        self.inner.insert(id)
    }

    /// `HashSet::remove`: takes the number out of the set and says whether
    /// it was there.
    #[verifier::external_body]
    pub(crate) fn remove(&mut self, id: u32) -> (found: bool)
        ensures
            id_set_contents(*final(self)) == id_set_contents(*old(self)).remove(id),
            found == id_set_contents(*old(self)).contains(id),
    {
        self.inner.remove(&id)
    }

    /// `HashSet::contains`: whether the set holds the number.
    #[verifier::external_body]
    pub(crate) fn contains(&self, id: u32) -> (found: bool)
        ensures
            found == id_set_contents(*self).contains(id),
    {
        self.inner.contains(&id)
    }

    /// `HashSet::iter`: every number of the set once, in the order in which
    /// the hash set hands them out.
    #[verifier::external_body]
    pub(crate) fn to_vec(&self) -> (ids: Vec<u32>)
        ensures
            ids@.no_duplicates(),
            forall|id: u32| ids@.contains(id) <==> id_set_contents(*self).contains(id),
    {
        self.inner.iter().copied().collect()
    }
}

/// A set of occupants, each known by a 64-bit number, held in a
/// `bevy::utils::HashSet`.
#[verifier::external_body]
pub struct OccupantSet {
    inner: HashSet<u64>,
}

/// The occupants that an `OccupantSet` holds.
pub uninterp spec fn occupant_set_contents(s: OccupantSet) -> Set<u64>;

impl View for OccupantSet {
    type V = Set<u64>;

    open spec fn view(&self) -> Set<u64> {
        occupant_set_contents(*self)
    }
}

impl OccupantSet {
    /// `HashSet::default`: a set that holds nothing.
    #[verifier::external_body]
    pub(crate) fn new() -> (s: OccupantSet)
        ensures
            occupant_set_contents(s) == Set::<u64>::empty(),
    {
        OccupantSet { inner: HashSet::default() }
    }

    /// `HashSet::insert`: puts the occupant in the set and says whether it
    /// was new.
    #[verifier::external_body]
    pub(crate) fn insert(&mut self, occupant: u64) -> (fresh: bool)
        ensures
            occupant_set_contents(*final(self)) == occupant_set_contents(*old(self)).insert(occupant),
            fresh == !occupant_set_contents(*old(self)).contains(occupant),
    {
        self.inner.insert(occupant)
    }

    /// `HashSet::remove`: takes the occupant out of the set and says whether
    /// it was there.
    #[verifier::external_body]
    pub(crate) fn remove(&mut self, occupant: u64) -> (found: bool)
        ensures
            occupant_set_contents(*final(self)) == occupant_set_contents(*old(self)).remove(occupant),
            found == occupant_set_contents(*old(self)).contains(occupant),
    {
        self.inner.remove(&occupant)
    }

    /// `HashSet::iter`: every occupant of the set once, in the order in
    /// which the hash set hands them out.
    #[verifier::external_body]
    pub(crate) fn to_vec(&self) -> (occupants: Vec<u64>)
        ensures
            occupants@.no_duplicates(),
            forall|o: u64| occupants@.contains(o) <==> occupant_set_contents(*self).contains(o),
    {
        self.inner.iter().copied().collect()
    }
}

} // verus!
