//! The graph of partitions and regions.
//!
//! A partition is a set of voxels of one chunk that share a mask; a region
//! groups partitions of one mask. Both are kept in tables and known by their
//! place in the table, which is never given out twice. Every change goes
//! through the graph, which keeps adjacency mutual and every reference alive.
use crate::error::NavError;
use crate::extents::Extents;
use crate::flags::PartitionFlags;
use crate::idset::IdSet;
use crate::idset::OccupantSet;
use crate::terrain::Terrain;
use vstd::prelude::*;

verus! {

/// A set of voxels of one chunk that share one mask.
pub struct Partition {
    pub id: u32,
    pub chunk_idx: u32,
    pub region_id: u32,
    pub flags: PartitionFlags,
    /// The partition was filled to its borders since its chunk last changed.
    pub is_computed: bool,
    /// The voxels of the partition, by their number in the chunk.
    pub blocks: Vec<u32>,
    pub neighbor_ids: IdSet,
    /// Who stands in the partition. The partition refers to them; it does
    /// not own them.
    pub items: OccupantSet,
    pub extents: Extents,
}

/// Every number of the sequence is below every later one.
pub open spec fn increasing(s: Seq<u32>) -> bool {
    forall|i: int, j: int| 0 <= i < j < s.len() ==> s[i] < s[j]
}

/// The numbers of `list`, each once, from the lowest to the highest.
pub fn ascending(list: &Vec<u32>) -> (r: Vec<u32>)
    ensures
        increasing(r@),
        r@.no_duplicates(),
        forall|x: u32| r@.contains(x) <==> list@.contains(x),
{
    let mut r: Vec<u32> = Vec::new();
    // every number below `floor` is in place
    let mut floor: u64 = 0;
    loop
        invariant
            floor <= 0x1_0000_0000,
            increasing(r@),
            forall|k: int| 0 <= k < r@.len() ==> (#[trigger] r@[k]) < floor,
            forall|x: u32| r@.contains(x) <==> list@.contains(x) && x < floor,
        ensures
            increasing(r@),
            forall|x: u32| r@.contains(x) <==> list@.contains(x),
        decreases 0x1_0000_0000 - floor,
    {
        let mut best: Option<u32> = None;
        let mut i: usize = 0;
        while i < list.len()
            invariant
                i <= list.len(),
                best matches Some(m) ==> list@.contains(m) && m >= floor,
                forall|k: int|
                    0 <= k < i && (#[trigger] list@[k]) >= floor ==> best is Some && best->0 <= list@[k],
            decreases list.len() - i,
        {
            let x = list[i];
            if x as u64 >= floor {
                let lower = match best {
                    Some(m) => x < m,
                    None => true,
                };
                if lower {
                    best = Some(x);
                    assert(list@[i as int] == x);
                }
            }
            i += 1;
        }
        match best {
            Some(m) => {
                let ghost had = r@;
                r.push(m);
                proof {
                    assert forall|x: u32| r@.contains(x) <==> list@.contains(x) && x < m + 1 by {
                        if r@.contains(x) {
                            let at = choose|at: int| 0 <= at < r@.len() && r@[at] == x;
                            if at < had.len() {
                                assert(had[at] == x);
                                assert(had.contains(x));
                            }
                        }
                        if list@.contains(x) && x < m + 1 {
                            if x < floor {
                                assert(had.contains(x));
                                let at = choose|at: int| 0 <= at < had.len() && had[at] == x;
                                assert(r@[at] == x);
                            } else {
                                let k = choose|k: int| 0 <= k < list@.len() && list@[k] == x;
                                assert(list@[k] >= floor);
                                assert(r@[r@.len() - 1] == x);
                            }
                        }
                    }
                    assert forall|a: int, b: int| 0 <= a < b < r@.len() implies r@[a] < r@[b] by {
                        if b < had.len() {
                            assert(had[a] < had[b]);
                        } else {
                            assert(had[a] < floor);
                        }
                    }
                }
                floor = m as u64 + 1;
            },
            None => {
                proof {
                    assert forall|x: u32| r@.contains(x) <==> list@.contains(x) by {
                        if list@.contains(x) {
                            let k = choose|k: int| 0 <= k < list@.len() && list@[k] == x;
                            assert(!(list@[k] >= floor));
                        }
                    }
                }
                break ;
            },
        }
    }
    r
}

/// What a partition holds.
pub struct PartitionView {
    pub chunk_idx: u32,
    pub region_id: u32,
    pub flags: PartitionFlags,
    pub is_computed: bool,
    pub blocks: Seq<u32>,
    pub neighbors: Set<u32>,
    pub occupants: Set<u64>,
    pub extents: Extents,
}

impl View for Partition {
    type V = PartitionView;

    open spec fn view(&self) -> PartitionView {
        PartitionView {
            chunk_idx: self.chunk_idx,
            region_id: self.region_id,
            flags: self.flags,
            is_computed: self.is_computed,
            blocks: self.blocks@,
            neighbors: self.neighbor_ids@,
            occupants: self.items@,
            extents: self.extents,
        }
    }
}

impl Partition {
    /// Appends a voxel to the partition's list.
    pub fn add_block(&mut self, block_idx: u32)
        ensures
            final(self)@ == (PartitionView { blocks: old(self)@.blocks.push(block_idx), ..old(self)@ }),
            final(self).id == old(self).id,
    {
        self.blocks.push(block_idx);
    }

    /// The partitions next to this one, each once, from the lowest number
    /// to the highest.
    pub fn neighbor_list(&self) -> (ids: Vec<u32>)
        ensures
            increasing(ids@),
            ids@.no_duplicates(),
            forall|id: u32| ids@.contains(id) <==> self@.neighbors.contains(id),
    {
        let held = self.neighbor_ids.to_vec();
        ascending(&held)
    }

    /// Whether `id` is next to this partition.
    pub fn has_neighbor(&self, id: u32) -> (b: bool)
        ensures
            b == self@.neighbors.contains(id),
    {
        self.neighbor_ids.contains(id)
    }

    /// Who stands in the partition, each once, in no particular order.
    pub fn occupant_list(&self) -> (occupants: Vec<u64>)
        ensures
            occupants@.no_duplicates(),
            forall|o: u64| occupants@.contains(o) <==> self@.occupants.contains(o),
    {
        self.items.to_vec()
    }
}

/// A group of partitions of one mask.
pub struct Region {
    pub id: u32,
    pub flags: PartitionFlags,
    pub partition_ids: IdSet,
    /// Regions of another mask that touch this one.
    pub neighbor_ids: IdSet,
}

impl PartitionView {
    /// The partition lists voxel `b` of its chunk.
    pub open spec fn holds_block(self, b: int) -> bool {
        exists|k: int| 0 <= k < self.blocks.len() && #[trigger] self.blocks[k] == b
    }
}

/// What a region holds.
pub struct RegionView {
    pub flags: PartitionFlags,
    pub partitions: Set<u32>,
    pub neighbors: Set<u32>,
}

impl View for Region {
    type V = RegionView;

    open spec fn view(&self) -> RegionView {
        RegionView {
            flags: self.flags,
            partitions: self.partition_ids@,
            neighbors: self.neighbor_ids@,
        }
    }
}

impl Region {
    /// The partitions of the region, each once, from the lowest number to
    /// the highest.
    pub fn partition_list(&self) -> (ids: Vec<u32>)
        ensures
            increasing(ids@),
            ids@.no_duplicates(),
            forall|id: u32| ids@.contains(id) <==> self@.partitions.contains(id),
    {
        let held = self.partition_ids.to_vec();
        ascending(&held)
    }

    /// The regions next to this one, each once, from the lowest number to
    /// the highest.
    pub fn neighbor_list(&self) -> (ids: Vec<u32>)
        ensures
            increasing(ids@),
            ids@.no_duplicates(),
            forall|id: u32| ids@.contains(id) <==> self@.neighbors.contains(id),
    {
        let held = self.neighbor_ids.to_vec();
        ascending(&held)
    }
}

/// The partitions and regions of a graph, each under its number.
pub struct GraphView {
    pub partitions: Map<u32, PartitionView>,
    pub regions: Map<u32, RegionView>,
}

impl GraphView {
    /// Partition `a` exists and counts `b` among its neighbours.
    pub open spec fn adjacent(self, a: u32, b: u32) -> bool {
        self.partitions.contains_key(a) && self.partitions[a].neighbors.contains(b)
    }

    /// Region `r` exists and counts `s` among its neighbours.
    pub open spec fn region_adjacent(self, r: u32, s: u32) -> bool {
        self.regions.contains_key(r) && self.regions[r].neighbors.contains(s)
    }

    /// Region `r` exists and lists partition `a`.
    pub open spec fn lists(self, r: u32, a: u32) -> bool {
        self.regions.contains_key(r) && self.regions[r].partitions.contains(a)
    }

    /// Partition `a` exists and names `r` as its region.
    pub open spec fn member(self, a: u32, r: u32) -> bool {
        self.partitions.contains_key(a) && self.partitions[a].region_id == r
    }

    /// The graph with `b` added to the neighbours of partition `a`.
    pub open spec fn with_neighbor(self, a: u32, b: u32) -> GraphView {
        GraphView {
            partitions: self.partitions.insert(
                a,
                PartitionView { neighbors: self.partitions[a].neighbors.insert(b), ..self.partitions[a] },
            ),
            ..self
        }
    }

    /// The graph with `b` taken from the neighbours of partition `a`.
    pub open spec fn without_neighbor(self, a: u32, b: u32) -> GraphView {
        GraphView {
            partitions: self.partitions.insert(
                a,
                PartitionView { neighbors: self.partitions[a].neighbors.remove(b), ..self.partitions[a] },
            ),
            ..self
        }
    }

    /// The graph with partitions `a` and `b` made neighbours of each other.
    pub open spec fn link(self, a: u32, b: u32) -> GraphView {
        self.with_neighbor(a, b).with_neighbor(b, a)
    }

    /// The graph with partitions `a` and `b` no longer neighbours.
    pub open spec fn unlink(self, a: u32, b: u32) -> GraphView {
        self.without_neighbor(a, b).without_neighbor(b, a)
    }

    /// The graph with `s` added to the neighbours of region `r`.
    pub open spec fn with_region_neighbor(self, r: u32, s: u32) -> GraphView {
        GraphView {
            regions: self.regions.insert(
                r,
                RegionView { neighbors: self.regions[r].neighbors.insert(s), ..self.regions[r] },
            ),
            ..self
        }
    }

    /// The graph with `s` taken from the neighbours of region `r`.
    pub open spec fn without_region_neighbor(self, r: u32, s: u32) -> GraphView {
        GraphView {
            regions: self.regions.insert(
                r,
                RegionView { neighbors: self.regions[r].neighbors.remove(s), ..self.regions[r] },
            ),
            ..self
        }
    }

    /// The graph with regions `r` and `s` made neighbours of each other.
    pub open spec fn link_regions(self, r: u32, s: u32) -> GraphView {
        self.with_region_neighbor(r, s).with_region_neighbor(s, r)
    }

    /// The graph with regions `r` and `s` no longer neighbours.
    pub open spec fn unlink_regions(self, r: u32, s: u32) -> GraphView {
        self.without_region_neighbor(r, s).without_region_neighbor(s, r)
    }

    /// The graph with a new region `id` of mask `flags` that lists nothing.
    pub open spec fn with_region(self, id: u32, flags: PartitionFlags) -> GraphView {
        GraphView {
            regions: self.regions.insert(
                id,
                RegionView { flags, partitions: Set::empty(), neighbors: Set::empty() },
            ),
            ..self
        }
    }

    /// The graph with a new, empty partition `id` in region `region_id`.
    pub open spec fn with_partition(
        self,
        id: u32,
        region_id: u32,
        chunk_idx: u32,
        flags: PartitionFlags,
    ) -> GraphView {
        GraphView {
            partitions: self.partitions.insert(
                id,
                PartitionView {
                    chunk_idx,
                    region_id,
                    flags,
                    is_computed: false,
                    blocks: Seq::empty(),
                    neighbors: Set::empty(),
                    occupants: Set::empty(),
                    extents: Extents::spec_new(),
                },
            ),
            regions: self.regions.insert(
                region_id,
                RegionView {
                    partitions: self.regions[region_id].partitions.insert(id),
                    ..self.regions[region_id]
                },
            ),
        }
    }

    /// The graph with partition `a` moved to region `r`.
    pub open spec fn with_member(self, a: u32, r: u32) -> GraphView {
        let from = self.partitions[a].region_id;
        let left = self.regions.insert(
            from,
            RegionView { partitions: self.regions[from].partitions.remove(a), ..self.regions[from] },
        );
        GraphView {
            partitions: self.partitions.insert(
                a,
                PartitionView { region_id: r, ..self.partitions[a] },
            ),
            regions: left.insert(
                r,
                RegionView { partitions: left[r].partitions.insert(a), ..left[r] },
            ),
        }
    }

    /// The graph without partition `a`.
    pub open spec fn without_partition(self, a: u32) -> GraphView {
        let from = self.partitions[a].region_id;
        GraphView {
            partitions: self.partitions.remove(a),
            regions: self.regions.insert(
                from,
                RegionView { partitions: self.regions[from].partitions.remove(a), ..self.regions[from] },
            ),
        }
    }

    /// The graph without region `r`.
    pub open spec fn without_region(self, r: u32) -> GraphView {
        GraphView { regions: self.regions.remove(r), ..self }
    }

    /// The graph with partition `a` changed to `p`.
    pub open spec fn with_content(self, a: u32, p: PartitionView) -> GraphView {
        GraphView { partitions: self.partitions.insert(a, p), ..self }
    }

    /// The graph with partition `b` parted from all its neighbours.
    pub open spec fn isolated(self, b: u32) -> GraphView {
        GraphView {
            partitions: Map::new(
                |x: u32| self.partitions.contains_key(x),
                |x: u32|
                    PartitionView {
                        neighbors: if x == b {
                            Set::empty()
                        } else {
                            self.partitions[x].neighbors.remove(b)
                        },
                        ..self.partitions[x]
                    },
            ),
            ..self
        }
    }

    /// The graph with region `r` parted from all its neighbours.
    pub open spec fn region_isolated(self, r: u32) -> GraphView {
        GraphView {
            regions: Map::new(
                |x: u32| self.regions.contains_key(x),
                |x: u32|
                    RegionView {
                        neighbors: if x == r {
                            Set::empty()
                        } else {
                            self.regions[x].neighbors.remove(r)
                        },
                        ..self.regions[x]
                    },
            ),
            ..self
        }
    }

    /// The graph with partition `a` made a neighbour of every neighbour of
    /// partition `b` but `a` and `b` themselves.
    pub open spec fn adopted(self, a: u32, b: u32) -> GraphView {
        GraphView {
            partitions: Map::new(
                |x: u32| self.partitions.contains_key(x),
                |x: u32|
                    PartitionView {
                        neighbors: if x == a {
                            self.partitions[a].neighbors.union(
                                self.partitions[b].neighbors.remove(a).remove(b),
                            )
                        } else if x != b && self.partitions[b].neighbors.contains(x) {
                            self.partitions[x].neighbors.insert(a)
                        } else {
                            self.partitions[x].neighbors
                        },
                        ..self.partitions[x]
                    },
            ),
            ..self
        }
    }

    /// The graph with region `r` made a neighbour of every neighbour of
    /// region `s` but `r` and `s` themselves.
    pub open spec fn region_adopted(self, r: u32, s: u32) -> GraphView {
        GraphView {
            regions: Map::new(
                |x: u32| self.regions.contains_key(x),
                |x: u32|
                    RegionView {
                        neighbors: if x == r {
                            self.regions[r].neighbors.union(
                                self.regions[s].neighbors.remove(r).remove(s),
                            )
                        } else if x != s && self.regions[s].neighbors.contains(x) {
                            self.regions[x].neighbors.insert(r)
                        } else {
                            self.regions[x].neighbors
                        },
                        ..self.regions[x]
                    },
            ),
            ..self
        }
    }

    /// The graph with the voxels and occupants of partition `b` given to
    /// partition `a`, whose bounding box grows to hold that of `b`.
    pub open spec fn absorbed(self, a: u32, b: u32) -> GraphView {
        self.with_content(
            b,
            PartitionView {
                blocks: Seq::empty(),
                ..self.partitions[b]
            },
        ).with_content(
            a,
            PartitionView {
                blocks: self.partitions[a].blocks + self.partitions[b].blocks.reverse(),
                occupants: self.partitions[a].occupants.union(self.partitions[b].occupants),
                extents: self.partitions[a].extents.merged(self.partitions[b].extents),
                ..self.partitions[a]
            },
        )
    }

    /// The graph with every partition of region `s` moved to region `r`.
    pub open spec fn members_moved(self, r: u32, s: u32) -> GraphView {
        GraphView {
            partitions: Map::new(
                |x: u32| self.partitions.contains_key(x),
                |x: u32|
                    PartitionView {
                        region_id: if self.partitions[x].region_id == s {
                            r
                        } else {
                            self.partitions[x].region_id
                        },
                        ..self.partitions[x]
                    },
            ),
            regions: Map::new(
                |x: u32| self.regions.contains_key(x),
                |x: u32|
                    RegionView {
                        partitions: if x == r {
                            self.regions[r].partitions.union(self.regions[s].partitions)
                        } else if x == s {
                            Set::empty()
                        } else {
                            self.regions[x].partitions
                        },
                        ..self.regions[x]
                    },
            ),
        }
    }

    /// The graph without region `r`, if `r` exists and lists no partition:
    /// it is parted from its neighbours and removed. Else the graph itself.
    pub open spec fn retired(self, r: u32) -> GraphView {
        if self.regions.contains_key(r) && self.regions[r].partitions =~= Set::<u32>::empty() {
            self.region_isolated(r).without_region(r)
        } else {
            self
        }
    }

    /// The graph with partition `b` merged into partition `a`: `a` takes
    /// over the neighbours, voxels and occupants of `b`, `b` is removed, and
    /// so is its region if it lists no other partition.
    pub open spec fn merged(self, a: u32, b: u32) -> GraphView {
        self.adopted(a, b).isolated(b).absorbed(a, b).without_partition(b).retired(
            self.partitions[b].region_id,
        )
    }

    /// The graph with region `s` merged into region `r`: `r` takes over the
    /// partitions and neighbours of `s`, and `s` is removed.
    pub open spec fn regions_merged(self, r: u32, s: u32) -> GraphView {
        self.members_moved(r, s).region_adopted(r, s).region_isolated(s).without_region(s)
    }

    /// The graph without partition `a`: it is parted from its neighbours,
    /// loses its voxels and is removed, and so is its region if it lists no
    /// other partition.
    pub open spec fn removed(self, a: u32) -> GraphView {
        self.isolated(a).with_content(
            a,
            PartitionView { blocks: Seq::empty(), ..self.isolated(a).partitions[a] },
        ).without_partition(a).retired(self.partitions[a].region_id)
    }

    /// The graph after partitions `a` and `b` were declared neighbours: the
    /// two are linked, and if they belong to different regions, those are
    /// merged where the masks agree and made neighbours where they differ.
    pub open spec fn neighbored(self, a: u32, b: u32) -> GraphView {
        let ra = self.partitions[a].region_id;
        let rb = self.partitions[b].region_id;
        if ra == rb {
            self.link(a, b)
        } else if self.partitions[a].flags == self.partitions[b].flags {
            self.link(a, b).regions_merged(ra, rb)
        } else {
            self.link(a, b).link_regions(ra, rb)
        }
    }

    /// Partition `n` has a number below `i` and belongs to chunk `c`.
    pub open spec fn doomed(self, c: u32, i: int, n: u32) -> bool {
        n < i && self.partitions.contains_key(n) && self.partitions[n].chunk_idx == c
    }

    /// The graph after the partitions of chunk `c` with a number below `n`
    /// were removed, lowest number first.
    pub open spec fn chunk_cleared(self, c: u32, n: nat) -> GraphView
        decreases n,
    {
        if n == 0 {
            self
        } else {
            let before = self.chunk_cleared(c, (n - 1) as nat);
            let id = (n - 1) as u32;
            if before.partitions.contains_key(id) && before.partitions[id].chunk_idx == c {
                before.removed(id)
            } else {
                before
            }
        }
    }

    /// The two graphs have the same partitions with the same voxels.
    pub open spec fn same_membership(self, other: GraphView) -> bool {
        &&& self.partitions.dom() == other.partitions.dom()
        &&& forall|a: u32| #[trigger]
            self.partitions.contains_key(a) ==> self.partitions[a].blocks
                == other.partitions[a].blocks && self.partitions[a].chunk_idx
                == other.partitions[a].chunk_idx
    }

    /// Adjacency is mutual among partitions and among regions, every
    /// partition is listed by a region of its own mask that it names, and
    /// nothing refers to what does not exist.
    pub open spec fn wf(self) -> bool {
        &&& forall|a: u32, b: u32| #[trigger] self.adjacent(a, b) ==> self.adjacent(b, a)
        &&& forall|r: u32, s: u32| #[trigger] self.region_adjacent(r, s) ==> self.region_adjacent(s, r)
        &&& forall|r: u32, a: u32| #[trigger] self.lists(r, a) ==> self.member(a, r)
        &&& forall|a: u32| #[trigger]
            self.partitions.contains_key(a) ==> {
                &&& self.lists(self.partitions[a].region_id, a)
                &&& self.regions[self.partitions[a].region_id].flags == self.partitions[a].flags
                &&& self.partitions[a].extents.ordered()
            }
    }
}

/// Every owned voxel is listed by its owner, a partition of the voxel's
/// chunk; every listed voxel is owned by the partition that lists it; and no
/// partition lists a voxel twice.
pub open spec fn linked(terrain: &Terrain, graph: GraphView) -> bool {
    &&& forall|c: int, b: int|
        #![trigger terrain.block_at(c, b)]
        terrain.has_block(c, b) && terrain.block_at(c, b).partition_id is Some ==> {
            let p = terrain.block_at(c, b).partition_id->0;
            &&& graph.partitions.contains_key(p)
            &&& graph.partitions[p].chunk_idx == c
            &&& graph.partitions[p].holds_block(b)
        }
    &&& forall|p: u32, i: int|
        #![trigger graph.partitions[p].blocks[i]]
        graph.partitions.contains_key(p) && 0 <= i < graph.partitions[p].blocks.len() ==> {
            &&& terrain.has_block(
                graph.partitions[p].chunk_idx as int,
                graph.partitions[p].blocks[i] as int,
            )
            &&& terrain.block_at(
                graph.partitions[p].chunk_idx as int,
                graph.partitions[p].blocks[i] as int,
            ).partition_id == Some(p)
        }
    &&& forall|p: u32| #[trigger]
        graph.partitions.contains_key(p) ==> graph.partitions[p].blocks.no_duplicates()
}

/// Graphs with the same partitions and voxels are linked to a world alike.
pub proof fn lemma_membership_linked(terrain: &Terrain, before: GraphView, after: GraphView)
    requires
        linked(terrain, before),
        after.same_membership(before),
    ensures
        linked(terrain, after),
{
    assert forall|c: int, b: int|
        #![trigger terrain.block_at(c, b)]
        terrain.has_block(c, b) && terrain.block_at(c, b).partition_id is Some implies {
        let p = terrain.block_at(c, b).partition_id->0;
        &&& after.partitions.contains_key(p)
        &&& after.partitions[p].chunk_idx == c
        &&& after.partitions[p].holds_block(b)
    } by {
        let p = terrain.block_at(c, b).partition_id->0;
        assert(before.partitions.contains_key(p));
        assert(after.partitions.dom().contains(p));
    }
    assert forall|p: u32, i: int|
        #![trigger after.partitions[p].blocks[i]]
        after.partitions.contains_key(p) && 0 <= i < after.partitions[p].blocks.len() implies {
        &&& terrain.has_block(
            after.partitions[p].chunk_idx as int,
            after.partitions[p].blocks[i] as int,
        )
        &&& terrain.block_at(
            after.partitions[p].chunk_idx as int,
            after.partitions[p].blocks[i] as int,
        ).partition_id == Some(p)
    } by {
        assert(before.partitions.dom().contains(p));
        assert(before.partitions[p].blocks[i] == after.partitions[p].blocks[i]);
    }
    assert forall|p: u32| #[trigger] after.partitions.contains_key(p) implies after.partitions[p].blocks.no_duplicates() by {
        assert(before.partitions.dom().contains(p));
    }
}

/// Making two partitions neighbours keeps the graph well formed.
pub proof fn lemma_link(g: GraphView, a: u32, b: u32)
    requires
        g.wf(),
        g.partitions.contains_key(a),
        g.partitions.contains_key(b),
    ensures
        g.link(a, b).wf(),
        g.link(a, b).same_membership(g),
        g.link(a, b).regions == g.regions,
{
    let h = g.link(a, b);
    assert(h.partitions.dom() =~= g.partitions.dom());
    assert forall|x: u32, y: u32| #[trigger] h.adjacent(x, y) implies h.adjacent(y, x) by {
        if !g.adjacent(x, y) {
            assert((x == a && y == b) || (x == b && y == a));
        } else {
            assert(g.adjacent(y, x));
        }
    }
    assert forall|r: u32, x: u32| #[trigger] h.lists(r, x) implies h.member(x, r) by {
        assert(g.lists(r, x));
    }
    assert forall|x: u32| #[trigger] h.partitions.contains_key(x) implies {
        &&& h.lists(h.partitions[x].region_id, x)
        &&& h.regions[h.partitions[x].region_id].flags == h.partitions[x].flags
        &&& h.partitions[x].extents.ordered()
    } by {
        assert(g.partitions.contains_key(x));
    }
    assert forall|r: u32, s: u32| #[trigger] h.region_adjacent(r, s) implies h.region_adjacent(s, r) by {
        assert(g.region_adjacent(r, s));
    }
}

/// Parting two partitions keeps the graph well formed.
pub proof fn lemma_unlink(g: GraphView, a: u32, b: u32)
    requires
        g.wf(),
        g.partitions.contains_key(a),
        g.partitions.contains_key(b),
    ensures
        g.unlink(a, b).wf(),
        g.unlink(a, b).same_membership(g),
        g.unlink(a, b).regions == g.regions,
{
    let h = g.unlink(a, b);
    assert(h.partitions.dom() =~= g.partitions.dom());
    assert forall|x: u32, y: u32| #[trigger] h.adjacent(x, y) implies h.adjacent(y, x) by {
        assert(g.adjacent(x, y));
        assert(g.adjacent(y, x));
    }
    assert forall|r: u32, x: u32| #[trigger] h.lists(r, x) implies h.member(x, r) by {
        assert(g.lists(r, x));
    }
    assert forall|x: u32| #[trigger] h.partitions.contains_key(x) implies {
        &&& h.lists(h.partitions[x].region_id, x)
        &&& h.regions[h.partitions[x].region_id].flags == h.partitions[x].flags
        &&& h.partitions[x].extents.ordered()
    } by {
        assert(g.partitions.contains_key(x));
    }
    assert forall|r: u32, s: u32| #[trigger] h.region_adjacent(r, s) implies h.region_adjacent(s, r) by {
        assert(g.region_adjacent(r, s));
    }
}

/// Making two regions neighbours keeps the graph well formed.
pub proof fn lemma_link_regions(g: GraphView, r: u32, s: u32)
    requires
        g.wf(),
        g.regions.contains_key(r),
        g.regions.contains_key(s),
    ensures
        g.link_regions(r, s).wf(),
        g.link_regions(r, s).partitions == g.partitions,
{
    let h = g.link_regions(r, s);
    assert(h.regions.dom() =~= g.regions.dom());
    assert forall|x: u32, y: u32| #[trigger] h.region_adjacent(x, y) implies h.region_adjacent(y, x) by {
        if !g.region_adjacent(x, y) {
            assert((x == r && y == s) || (x == s && y == r));
        } else {
            assert(g.region_adjacent(y, x));
        }
    }
    assert forall|x: u32, y: u32| #[trigger] h.adjacent(x, y) implies h.adjacent(y, x) by {
        assert(g.adjacent(x, y));
    }
    assert forall|x: u32, a: u32| #[trigger] h.lists(x, a) implies h.member(a, x) by {
        assert(g.lists(x, a));
    }
    assert forall|a: u32| #[trigger] h.partitions.contains_key(a) implies {
        &&& h.lists(h.partitions[a].region_id, a)
        &&& h.regions[h.partitions[a].region_id].flags == h.partitions[a].flags
        &&& h.partitions[a].extents.ordered()
    } by {
        assert(g.lists(g.partitions[a].region_id, a));
    }
}

/// Parting two regions keeps the graph well formed.
pub proof fn lemma_unlink_regions(g: GraphView, r: u32, s: u32)
    requires
        g.wf(),
        g.regions.contains_key(r),
        g.regions.contains_key(s),
    ensures
        g.unlink_regions(r, s).wf(),
        g.unlink_regions(r, s).partitions == g.partitions,
{
    let h = g.unlink_regions(r, s);
    assert(h.regions.dom() =~= g.regions.dom());
    assert forall|x: u32, y: u32| #[trigger] h.region_adjacent(x, y) implies h.region_adjacent(y, x) by {
        assert(g.region_adjacent(x, y));
        assert(g.region_adjacent(y, x));
    }
    assert forall|x: u32, y: u32| #[trigger] h.adjacent(x, y) implies h.adjacent(y, x) by {
        assert(g.adjacent(x, y));
    }
    assert forall|x: u32, a: u32| #[trigger] h.lists(x, a) implies h.member(a, x) by {
        assert(g.lists(x, a));
    }
    assert forall|a: u32| #[trigger] h.partitions.contains_key(a) implies {
        &&& h.lists(h.partitions[a].region_id, a)
        &&& h.regions[h.partitions[a].region_id].flags == h.partitions[a].flags
        &&& h.partitions[a].extents.ordered()
    } by {
        assert(g.lists(g.partitions[a].region_id, a));
    }
}

/// A new region keeps the graph well formed.
pub proof fn lemma_with_region(g: GraphView, id: u32, flags: PartitionFlags)
    requires
        g.wf(),
        !g.regions.contains_key(id),
    ensures
        g.with_region(id, flags).wf(),
{
    let h = g.with_region(id, flags);
    assert forall|x: u32, y: u32| #[trigger] h.region_adjacent(x, y) implies h.region_adjacent(y, x) by {
        assert(g.region_adjacent(x, y));
        assert(g.region_adjacent(y, x));
    }
    assert forall|x: u32, y: u32| #[trigger] h.adjacent(x, y) implies h.adjacent(y, x) by {
        assert(g.adjacent(x, y));
    }
    assert forall|x: u32, a: u32| #[trigger] h.lists(x, a) implies h.member(a, x) by {
        assert(g.lists(x, a));
    }
    assert forall|a: u32| #[trigger] h.partitions.contains_key(a) implies {
        &&& h.lists(h.partitions[a].region_id, a)
        &&& h.regions[h.partitions[a].region_id].flags == h.partitions[a].flags
        &&& h.partitions[a].extents.ordered()
    } by {
        assert(g.lists(g.partitions[a].region_id, a));
    }
}

/// A new, empty partition in a region of its mask keeps the graph well
/// formed and linked to the world.
pub proof fn lemma_with_partition(
    g: GraphView,
    id: u32,
    region_id: u32,
    chunk_idx: u32,
    flags: PartitionFlags,
)
    requires
        g.wf(),
        !g.partitions.contains_key(id),
        g.regions.contains_key(region_id),
        g.regions[region_id].flags == flags,
    ensures
        g.with_partition(id, region_id, chunk_idx, flags).wf(),
        forall|terrain: &Terrain| #[trigger]
            linked(terrain, g) ==> linked(
                terrain,
                g.with_partition(id, region_id, chunk_idx, flags),
            ),
{
    let h = g.with_partition(id, region_id, chunk_idx, flags);
    assert(h.regions.dom() =~= g.regions.dom());
    assert forall|x: u32, y: u32| #[trigger] h.region_adjacent(x, y) implies h.region_adjacent(y, x) by {
        assert(g.region_adjacent(x, y));
        assert(g.region_adjacent(y, x));
    }
    assert forall|x: u32, y: u32| #[trigger] h.adjacent(x, y) implies h.adjacent(y, x) by {
        assert(g.adjacent(x, y));
        assert(g.adjacent(y, x));
    }
    assert forall|x: u32, a: u32| #[trigger] h.lists(x, a) implies h.member(a, x) by {
        if a != id {
            assert(g.lists(x, a));
        } else if x != region_id {
            assert(g.lists(x, a));
        }
    }
    assert forall|a: u32| #[trigger] h.partitions.contains_key(a) implies {
        &&& h.lists(h.partitions[a].region_id, a)
        &&& h.regions[h.partitions[a].region_id].flags == h.partitions[a].flags
        &&& h.partitions[a].extents.ordered()
    } by {
        if a != id {
            assert(g.lists(g.partitions[a].region_id, a));
        }
    }
    assert forall|terrain: &Terrain| #[trigger] linked(terrain, g) implies linked(terrain, h) by {
        assert forall|c: int, b: int|
            #![trigger terrain.block_at(c, b)]
            terrain.has_block(c, b) && terrain.block_at(c, b).partition_id is Some implies {
            let p = terrain.block_at(c, b).partition_id->0;
            &&& h.partitions.contains_key(p)
            &&& h.partitions[p].chunk_idx == c
            &&& h.partitions[p].holds_block(b)
        } by {
            let p = terrain.block_at(c, b).partition_id->0;
            assert(g.partitions.contains_key(p));
        }
        assert forall|p: u32, i: int|
            #![trigger h.partitions[p].blocks[i]]
            h.partitions.contains_key(p) && 0 <= i < h.partitions[p].blocks.len() implies {
            &&& terrain.has_block(
                h.partitions[p].chunk_idx as int,
                h.partitions[p].blocks[i] as int,
            )
            &&& terrain.block_at(
                h.partitions[p].chunk_idx as int,
                h.partitions[p].blocks[i] as int,
            ).partition_id == Some(p)
        } by {
            assert(g.partitions.contains_key(p));
            assert(g.partitions[p].blocks[i] == h.partitions[p].blocks[i]);
        }
        assert forall|p: u32| #[trigger] h.partitions.contains_key(p) implies h.partitions[p].blocks.no_duplicates() by {
            if p != id {
                assert(g.partitions.contains_key(p));
            }
        }
    }
}

/// Changing what a partition holds, but not its region, mask or
/// neighbours, keeps the graph well formed.
pub proof fn lemma_with_content(g: GraphView, a: u32, p: PartitionView)
    requires
        g.wf(),
        g.partitions.contains_key(a),
        p.region_id == g.partitions[a].region_id,
        p.flags == g.partitions[a].flags,
        p.neighbors == g.partitions[a].neighbors,
        p.extents.ordered(),
    ensures
        g.with_content(a, p).wf(),
        p.blocks == g.partitions[a].blocks && p.chunk_idx == g.partitions[a].chunk_idx ==> g.with_content(
            a,
            p,
        ).same_membership(g),
{
    let h = g.with_content(a, p);
    assert(h.partitions.dom() =~= g.partitions.dom());
    assert forall|x: u32, y: u32| #[trigger] h.adjacent(x, y) implies h.adjacent(y, x) by {
        assert(g.adjacent(x, y));
        assert(g.adjacent(y, x));
    }
    assert forall|r: u32, x: u32| #[trigger] h.lists(r, x) implies h.member(x, r) by {
        assert(g.lists(r, x));
    }
    assert forall|x: u32| #[trigger] h.partitions.contains_key(x) implies {
        &&& h.lists(h.partitions[x].region_id, x)
        &&& h.regions[h.partitions[x].region_id].flags == h.partitions[x].flags
        &&& h.partitions[x].extents.ordered()
    } by {
        assert(g.partitions.contains_key(x));
    }
    assert forall|r: u32, s: u32| #[trigger] h.region_adjacent(r, s) implies h.region_adjacent(s, r) by {
        assert(g.region_adjacent(r, s));
    }
}

/// The owners in `after` are those in `before`, but for voxel `b` of chunk
/// `c`, which has owner `owner`.
pub open spec fn owner_changed(
    before: &Terrain,
    after: &Terrain,
    c: int,
    b: int,
    owner: Option<u32>,
) -> bool {
    &&& after.same_layout(before)
    &&& before.has_block(c, b)
    &&& forall|i: int, j: int|
        before.has_block(i, j) ==> (#[trigger] after.block_at(i, j)).partition_id == if i == c && j
            == b {
            owner
        } else {
            before.block_at(i, j).partition_id
        }
}

/// A voxel without owner that is given to a partition of its chunk, in the
/// world and in the partition's list, leaves the two linked.
pub proof fn lemma_assign_linked(
    before: &Terrain,
    after: &Terrain,
    g: GraphView,
    id: u32,
    b: u32,
    p: PartitionView,
)
    requires
        linked(before, g),
        g.partitions.contains_key(id),
        before.block_at(g.partitions[id].chunk_idx as int, b as int).partition_id is None,
        owner_changed(before, after, g.partitions[id].chunk_idx as int, b as int, Some(id)),
        p.chunk_idx == g.partitions[id].chunk_idx,
        p.blocks == g.partitions[id].blocks.push(b),
    ensures
        linked(after, g.with_content(id, p)),
{
    let h = g.with_content(id, p);
    let c = g.partitions[id].chunk_idx as int;
    assert forall|i: int, j: int|
        #![trigger after.block_at(i, j)]
        after.has_block(i, j) && after.block_at(i, j).partition_id is Some implies {
        let q = after.block_at(i, j).partition_id->0;
        &&& h.partitions.contains_key(q)
        &&& h.partitions[q].chunk_idx == i
        &&& h.partitions[q].holds_block(j)
    } by {
        let q = after.block_at(i, j).partition_id->0;
        if i == c && j == b {
            assert(p.blocks[p.blocks.len() - 1] == b);
        } else {
            assert(before.block_at(i, j).partition_id == Some(q));
            if q == id {
                let k = choose|k: int| 0 <= k < g.partitions[q].blocks.len() && #[trigger] g.partitions[q].blocks[k] == j;
                assert(p.blocks[k] == j);
            }
        }
    }
    assert forall|q: u32, k: int|
        #![trigger h.partitions[q].blocks[k]]
        h.partitions.contains_key(q) && 0 <= k < h.partitions[q].blocks.len() implies {
        &&& after.has_block(h.partitions[q].chunk_idx as int, h.partitions[q].blocks[k] as int)
        &&& after.block_at(
            h.partitions[q].chunk_idx as int,
            h.partitions[q].blocks[k] as int,
        ).partition_id == Some(q)
    } by {
        if q == id && k == p.blocks.len() - 1 {
        } else {
            assert(g.partitions[q].blocks[k] == h.partitions[q].blocks[k]);
            assert(before.block_at(
                g.partitions[q].chunk_idx as int,
                g.partitions[q].blocks[k] as int,
            ).partition_id == Some(q));
        }
    }
    assert forall|q: u32| #[trigger] h.partitions.contains_key(q) implies h.partitions[q].blocks.no_duplicates() by {
        if q == id {
            let old_blocks = g.partitions[id].blocks;
            assert(old_blocks.no_duplicates());
            assert forall|k: int| 0 <= k < old_blocks.len() implies old_blocks[k] != b by {
                assert(before.block_at(c, old_blocks[k] as int).partition_id == Some(id));
            }
        } else {
            assert(g.partitions.contains_key(q));
        }
    }
}

/// The last voxel of one partition that is given to another partition of
/// the same chunk, in the world and in both lists, leaves the two linked.
pub proof fn lemma_move_linked(
    before: &Terrain,
    after: &Terrain,
    g: GraphView,
    from: u32,
    to: u32,
    pf: PartitionView,
    pt: PartitionView,
)
    requires
        linked(before, g),
        g.partitions.contains_key(from),
        g.partitions.contains_key(to),
        from != to,
        g.partitions[from].chunk_idx == g.partitions[to].chunk_idx,
        g.partitions[from].blocks.len() > 0,
        owner_changed(
            before,
            after,
            g.partitions[from].chunk_idx as int,
            g.partitions[from].blocks.last() as int,
            Some(to),
        ),
        pf.chunk_idx == g.partitions[from].chunk_idx,
        pf.blocks == g.partitions[from].blocks.drop_last(),
        pt.chunk_idx == g.partitions[to].chunk_idx,
        pt.blocks == g.partitions[to].blocks.push(g.partitions[from].blocks.last()),
    ensures
        linked(after, g.with_content(from, pf).with_content(to, pt)),
{
    let h = g.with_content(from, pf).with_content(to, pt);
    let c = g.partitions[from].chunk_idx as int;
    let from_blocks = g.partitions[from].blocks;
    let to_blocks = g.partitions[to].blocks;
    let b = from_blocks.last();
    assert(before.block_at(c, from_blocks[from_blocks.len() - 1] as int).partition_id == Some(from));
    assert forall|i: int, j: int|
        #![trigger after.block_at(i, j)]
        after.has_block(i, j) && after.block_at(i, j).partition_id is Some implies {
        let q = after.block_at(i, j).partition_id->0;
        &&& h.partitions.contains_key(q)
        &&& h.partitions[q].chunk_idx == i
        &&& h.partitions[q].holds_block(j)
    } by {
        let q = after.block_at(i, j).partition_id->0;
        if i == c && j == b {
            assert(pt.blocks[pt.blocks.len() - 1] == b);
        } else {
            assert(before.block_at(i, j).partition_id == Some(q));
            let k = choose|k: int| 0 <= k < g.partitions[q].blocks.len() && #[trigger] g.partitions[q].blocks[k] == j;
            if q == to {
                assert(pt.blocks[k] == j);
            } else if q == from {
                assert(k != from_blocks.len() - 1);
                assert(pf.blocks[k] == j);
            }
        }
    }
    assert forall|q: u32, k: int|
        #![trigger h.partitions[q].blocks[k]]
        h.partitions.contains_key(q) && 0 <= k < h.partitions[q].blocks.len() implies {
        &&& after.has_block(h.partitions[q].chunk_idx as int, h.partitions[q].blocks[k] as int)
        &&& after.block_at(
            h.partitions[q].chunk_idx as int,
            h.partitions[q].blocks[k] as int,
        ).partition_id == Some(q)
    } by {
        if q == to && k == pt.blocks.len() - 1 {
        } else {
            assert(g.partitions[q].blocks[k] == h.partitions[q].blocks[k]);
            assert(before.block_at(
                g.partitions[q].chunk_idx as int,
                g.partitions[q].blocks[k] as int,
            ).partition_id == Some(q));
            if q == from {
                assert(from_blocks.no_duplicates());
            }
        }
    }
    assert forall|q: u32| #[trigger] h.partitions.contains_key(q) implies h.partitions[q].blocks.no_duplicates() by {
        assert(g.partitions.contains_key(q));
        if q == to {
            assert(to_blocks.no_duplicates());
            assert forall|k: int| 0 <= k < to_blocks.len() implies to_blocks[k] != b by {
                assert(before.block_at(c, to_blocks[k] as int).partition_id == Some(to));
            }
        } else if q == from {
            assert(from_blocks.no_duplicates());
        }
    }
}

/// The last voxel of a partition that is left without owner, in the world
/// and in the partition's list, leaves the two linked.
pub proof fn lemma_release_linked(
    before: &Terrain,
    after: &Terrain,
    g: GraphView,
    from: u32,
    pf: PartitionView,
)
    requires
        linked(before, g),
        g.partitions.contains_key(from),
        g.partitions[from].blocks.len() > 0,
        owner_changed(
            before,
            after,
            g.partitions[from].chunk_idx as int,
            g.partitions[from].blocks.last() as int,
            None,
        ),
        pf.chunk_idx == g.partitions[from].chunk_idx,
        pf.blocks == g.partitions[from].blocks.drop_last(),
    ensures
        linked(after, g.with_content(from, pf)),
{
    let h = g.with_content(from, pf);
    let c = g.partitions[from].chunk_idx as int;
    let from_blocks = g.partitions[from].blocks;
    let b = from_blocks.last();
    assert(before.block_at(c, from_blocks[from_blocks.len() - 1] as int).partition_id == Some(from));
    assert forall|i: int, j: int|
        #![trigger after.block_at(i, j)]
        after.has_block(i, j) && after.block_at(i, j).partition_id is Some implies {
        let q = after.block_at(i, j).partition_id->0;
        &&& h.partitions.contains_key(q)
        &&& h.partitions[q].chunk_idx == i
        &&& h.partitions[q].holds_block(j)
    } by {
        let q = after.block_at(i, j).partition_id->0;
        assert(before.block_at(i, j).partition_id == Some(q));
        let k = choose|k: int| 0 <= k < g.partitions[q].blocks.len() && #[trigger] g.partitions[q].blocks[k] == j;
        if q == from {
            assert(k != from_blocks.len() - 1);
            assert(pf.blocks[k] == j);
        }
    }
    assert forall|q: u32, k: int|
        #![trigger h.partitions[q].blocks[k]]
        h.partitions.contains_key(q) && 0 <= k < h.partitions[q].blocks.len() implies {
        &&& after.has_block(h.partitions[q].chunk_idx as int, h.partitions[q].blocks[k] as int)
        &&& after.block_at(
            h.partitions[q].chunk_idx as int,
            h.partitions[q].blocks[k] as int,
        ).partition_id == Some(q)
    } by {
        assert(g.partitions[q].blocks[k] == h.partitions[q].blocks[k]);
        assert(before.block_at(
            g.partitions[q].chunk_idx as int,
            g.partitions[q].blocks[k] as int,
        ).partition_id == Some(q));
        if q == from {
            assert(from_blocks.no_duplicates());
        }
    }
    assert forall|q: u32| #[trigger] h.partitions.contains_key(q) implies h.partitions[q].blocks.no_duplicates() by {
        assert(g.partitions.contains_key(q));
        if q == from {
            assert(from_blocks.no_duplicates());
        }
    }
}

/// Removing a partition without neighbours keeps the graph well formed,
/// and linked to the world if the partition has no voxels.
pub proof fn lemma_without_partition(g: GraphView, a: u32)
    requires
        g.wf(),
        g.partitions.contains_key(a),
        g.partitions[a].neighbors =~= Set::<u32>::empty(),
    ensures
        g.without_partition(a).wf(),
        forall|terrain: &Terrain| #[trigger]
            linked(terrain, g) && g.partitions[a].blocks.len() == 0 ==> linked(
                terrain,
                g.without_partition(a),
            ),
{
    let h = g.without_partition(a);
    assert(h.regions.dom() =~= g.regions.dom()) by {
        assert(g.lists(g.partitions[a].region_id, a));
    }
    assert forall|x: u32, y: u32| #[trigger] h.adjacent(x, y) implies h.adjacent(y, x) by {
        assert(g.adjacent(x, y));
        assert(g.adjacent(y, x));
    }
    assert forall|r: u32, x: u32| #[trigger] h.lists(r, x) implies h.member(x, r) by {
        assert(g.lists(r, x));
    }
    assert forall|x: u32| #[trigger] h.partitions.contains_key(x) implies {
        &&& h.lists(h.partitions[x].region_id, x)
        &&& h.regions[h.partitions[x].region_id].flags == h.partitions[x].flags
        &&& h.partitions[x].extents.ordered()
    } by {
        assert(g.partitions.contains_key(x));
        assert(g.lists(g.partitions[x].region_id, x));
    }
    assert forall|r: u32, s: u32| #[trigger] h.region_adjacent(r, s) implies h.region_adjacent(s, r) by {
        assert(g.region_adjacent(r, s));
        assert(g.region_adjacent(s, r));
    }
    assert forall|terrain: &Terrain| #[trigger]
        linked(terrain, g) && g.partitions[a].blocks.len() == 0 implies linked(terrain, h) by {
        assert forall|c: int, b: int|
            #![trigger terrain.block_at(c, b)]
            terrain.has_block(c, b) && terrain.block_at(c, b).partition_id is Some implies {
            let p = terrain.block_at(c, b).partition_id->0;
            &&& h.partitions.contains_key(p)
            &&& h.partitions[p].chunk_idx == c
            &&& h.partitions[p].holds_block(b)
        } by {
            let p = terrain.block_at(c, b).partition_id->0;
            assert(g.partitions[p].holds_block(b));
        }
        assert forall|p: u32, i: int|
            #![trigger h.partitions[p].blocks[i]]
            h.partitions.contains_key(p) && 0 <= i < h.partitions[p].blocks.len() implies {
            &&& terrain.has_block(
                h.partitions[p].chunk_idx as int,
                h.partitions[p].blocks[i] as int,
            )
            &&& terrain.block_at(
                h.partitions[p].chunk_idx as int,
                h.partitions[p].blocks[i] as int,
            ).partition_id == Some(p)
        } by {
            assert(g.partitions[p].blocks[i] == h.partitions[p].blocks[i]);
        }
        assert forall|p: u32| #[trigger] h.partitions.contains_key(p) implies h.partitions[p].blocks.no_duplicates() by {
            assert(g.partitions.contains_key(p));
        }
    }
}

/// Removing a region that lists no partition and has no neighbours keeps
/// the graph well formed.
pub proof fn lemma_without_region(g: GraphView, r: u32)
    requires
        g.wf(),
        g.regions.contains_key(r),
        g.regions[r].partitions =~= Set::<u32>::empty(),
        g.regions[r].neighbors =~= Set::<u32>::empty(),
    ensures
        g.without_region(r).wf(),
{
    let h = g.without_region(r);
    assert forall|x: u32, y: u32| #[trigger] h.adjacent(x, y) implies h.adjacent(y, x) by {
        assert(g.adjacent(x, y));
    }
    assert forall|x: u32, a: u32| #[trigger] h.lists(x, a) implies h.member(a, x) by {
        assert(g.lists(x, a));
    }
    assert forall|a: u32| #[trigger] h.partitions.contains_key(a) implies {
        &&& h.lists(h.partitions[a].region_id, a)
        &&& h.regions[h.partitions[a].region_id].flags == h.partitions[a].flags
        &&& h.partitions[a].extents.ordered()
    } by {
        assert(g.lists(g.partitions[a].region_id, a));
    }
    assert forall|x: u32, y: u32| #[trigger] h.region_adjacent(x, y) implies h.region_adjacent(y, x) by {
        assert(g.region_adjacent(x, y));
        assert(g.region_adjacent(y, x));
    }
}

/// Moving a partition to another region of its mask keeps the graph well
/// formed.
pub proof fn lemma_with_member(g: GraphView, a: u32, r: u32)
    requires
        g.wf(),
        g.partitions.contains_key(a),
        g.regions.contains_key(r),
        g.regions[r].flags == g.partitions[a].flags,
    ensures
        g.with_member(a, r).wf(),
        g.with_member(a, r).same_membership(g),
{
    let h = g.with_member(a, r);
    let from = g.partitions[a].region_id;
    assert(g.lists(from, a));
    assert(h.partitions.dom() =~= g.partitions.dom());
    assert(h.regions.dom() =~= g.regions.dom());
    assert forall|x: u32, y: u32| #[trigger] h.adjacent(x, y) implies h.adjacent(y, x) by {
        assert(g.adjacent(x, y));
        assert(g.adjacent(y, x));
    }
    assert forall|x: u32, y: u32| #[trigger] h.lists(x, y) implies h.member(y, x) by {
        if y == a {
            if x != r {
                assert(g.lists(x, y));
            }
        } else {
            assert(g.lists(x, y));
        }
    }
    assert forall|x: u32| #[trigger] h.partitions.contains_key(x) implies {
        &&& h.lists(h.partitions[x].region_id, x)
        &&& h.regions[h.partitions[x].region_id].flags == h.partitions[x].flags
        &&& h.partitions[x].extents.ordered()
    } by {
        assert(g.partitions.contains_key(x));
        assert(g.lists(g.partitions[x].region_id, x));
    }
    assert forall|x: u32, y: u32| #[trigger] h.region_adjacent(x, y) implies h.region_adjacent(y, x) by {
        assert(g.region_adjacent(x, y));
        assert(g.region_adjacent(y, x));
    }
}

/// `x` stands in `list` before place `i`.
pub open spec fn listed_before<T>(list: Seq<T>, i: int, x: T) -> bool {
    exists|k: int| 0 <= k < i && k < list.len() && #[trigger] list[k] == x
}

/// `x` stands in `list` at place `i` or after it.
pub open spec fn listed_from<T>(list: Seq<T>, i: int, x: T) -> bool {
    exists|k: int| 0 <= i <= k < list.len() && #[trigger] list[k] == x
}

/// In a list without repetitions, the entry at place `i` stands nowhere
/// else, and every other entry stays on its side of `i`.
pub proof fn lemma_listed<T>(list: Seq<T>, i: int)
    requires
        list.no_duplicates(),
        0 <= i < list.len(),
    ensures
        !listed_before(list, i, list[i]),
        listed_before(list, i + 1, list[i]),
        listed_from(list, i, list[i]),
        !listed_from(list, i + 1, list[i]),
        forall|x: T|
            x != list[i] ==> (#[trigger] listed_before(list, i + 1, x) <==> listed_before(list, i, x)),
        forall|x: T|
            x != list[i] ==> (#[trigger] listed_from(list, i + 1, x) <==> listed_from(list, i, x)),
        forall|x: T| #[trigger] listed_from(list, 0, x) <==> list.contains(x),
        forall|x: T| #[trigger] listed_before(list, list.len() as int, x) <==> list.contains(x),
{
    assert(list[i] == list[i]);
    assert forall|x: T| x != list[i] implies (#[trigger] listed_before(list, i + 1, x)
        <==> listed_before(list, i, x)) by {
        if listed_before(list, i + 1, x) {
            let k = choose|k: int| 0 <= k < i + 1 && k < list.len() && #[trigger] list[k] == x;
            assert(k < i);
        }
        if listed_before(list, i, x) {
            let k = choose|k: int| 0 <= k < i && k < list.len() && #[trigger] list[k] == x;
            assert(k < i + 1);
        }
    }
    assert forall|x: T| x != list[i] implies (#[trigger] listed_from(list, i + 1, x) <==> listed_from(
        list,
        i,
        x,
    )) by {
        if listed_from(list, i + 1, x) {
            let k = choose|k: int| 0 <= i + 1 <= k < list.len() && #[trigger] list[k] == x;
            assert(i <= k);
        }
        if listed_from(list, i, x) {
            let k = choose|k: int| 0 <= i <= k < list.len() && #[trigger] list[k] == x;
            assert(i + 1 <= k);
        }
    }
    assert forall|x: T| #[trigger] listed_from(list, 0, x) <==> list.contains(x) by {
        if listed_from(list, 0, x) {
            let k = choose|k: int| 0 <= 0 <= k < list.len() && #[trigger] list[k] == x;
            assert(list[k] == x);
        }
        if list.contains(x) {
            let k = choose|k: int| 0 <= k < list.len() && list[k] == x;
            assert(list[k] == x);
        }
    }
    assert forall|x: T| #[trigger] listed_before(list, list.len() as int, x) <==> list.contains(x) by {
        if listed_before(list, list.len() as int, x) {
            let k = choose|k: int| 0 <= k < list.len() && k < list.len() && #[trigger] list[k] == x;
            assert(list[k] == x);
        }
        if list.contains(x) {
            let k = choose|k: int| 0 <= k < list.len() && list[k] == x;
            assert(list[k] == x);
        }
    }
}

/// Nothing stands in a list from its end on, or before its beginning.
pub proof fn lemma_listed_ends<T>(list: Seq<T>)
    ensures
        forall|x: T| !#[trigger] listed_from(list, list.len() as int, x),
        forall|x: T| !#[trigger] listed_before(list, 0, x),
        forall|x: T| #[trigger] listed_from(list, 0, x) <==> list.contains(x),
        forall|x: T| #[trigger] listed_before(list, list.len() as int, x) <==> list.contains(x),
{
    assert forall|x: T| #[trigger] listed_from(list, 0, x) <==> list.contains(x) by {
        if listed_from(list, 0, x) {
            let k = choose|k: int| 0 <= 0 <= k < list.len() && #[trigger] list[k] == x;
            assert(list[k] == x);
        }
        if list.contains(x) {
            let k = choose|k: int| 0 <= k < list.len() && list[k] == x;
            assert(list[k] == x);
        }
    }
    assert forall|x: T| #[trigger] listed_before(list, list.len() as int, x) <==> list.contains(x) by {
        if listed_before(list, list.len() as int, x) {
            let k = choose|k: int| 0 <= k < list.len() && k < list.len() && #[trigger] list[k] == x;
            assert(list[k] == x);
        }
        if list.contains(x) {
            let k = choose|k: int| 0 <= k < list.len() && list[k] == x;
            assert(list[k] == x);
        }
    }
}

/// The graph on the way to `isolated`: partition `b` is parted from the
/// neighbours that stand in `list` before place `i`.
pub open spec fn isolating(g: GraphView, b: u32, list: Seq<u32>, i: int) -> GraphView {
    GraphView {
        partitions: Map::new(
            |x: u32| g.partitions.contains_key(x),
            |x: u32|
                PartitionView {
                    neighbors: if x == b {
                        Set::new(|y: u32| listed_from(list, i, y))
                    } else if listed_before(list, i, x) {
                        g.partitions[x].neighbors.remove(b)
                    } else {
                        g.partitions[x].neighbors
                    },
                    ..g.partitions[x]
                },
        ),
        ..g
    }
}

proof fn lemma_isolating_first(g: GraphView, b: u32, list: Seq<u32>)
    requires
        g.partitions.contains_key(b),
        forall|x: u32| list.contains(x) <==> g.partitions[b].neighbors.contains(x),
    ensures
        isolating(g, b, list, 0) == g,
{
    lemma_listed_ends(list);
    let h = isolating(g, b, list, 0);
    assert forall|x: u32| #[trigger] g.partitions.contains_key(x) implies h.partitions[x]
        == g.partitions[x] by {
        assert(h.partitions[x].neighbors =~= g.partitions[x].neighbors);
    }
    assert(h.partitions =~= g.partitions);
}

proof fn lemma_isolating_step(g: GraphView, b: u32, list: Seq<u32>, i: int)
    requires
        g.wf(),
        g.partitions.contains_key(b),
        list.no_duplicates(),
        forall|x: u32| list.contains(x) <==> g.partitions[b].neighbors.contains(x),
        0 <= i < list.len(),
    ensures
        g.partitions.contains_key(list[i]),
        isolating(g, b, list, i).unlink(b, list[i]) == isolating(g, b, list, i + 1),
{
    lemma_listed(list, i);
    let n = list[i];
    assert(list.contains(n));
    assert(g.adjacent(b, n));
    assert(g.adjacent(n, b));
    let h = isolating(g, b, list, i).unlink(b, n);
    let t = isolating(g, b, list, i + 1);
    assert(h.partitions.dom() =~= t.partitions.dom());
    assert forall|x: u32| #[trigger] t.partitions.contains_key(x) implies h.partitions[x]
        == t.partitions[x] by {
        assert(h.partitions[x].neighbors =~= t.partitions[x].neighbors);
    }
    assert(h.partitions =~= t.partitions);
}

proof fn lemma_isolating_last(g: GraphView, b: u32, list: Seq<u32>)
    requires
        g.wf(),
        g.partitions.contains_key(b),
        forall|x: u32| list.contains(x) <==> g.partitions[b].neighbors.contains(x),
    ensures
        isolating(g, b, list, list.len() as int) == g.isolated(b),
{
    lemma_listed_ends(list);
    let h = isolating(g, b, list, list.len() as int);
    let t = g.isolated(b);
    assert forall|x: u32| #[trigger] t.partitions.contains_key(x) implies h.partitions[x]
        == t.partitions[x] by {
        if x != b && !list.contains(x) {
            if g.partitions[x].neighbors.contains(b) {
                assert(g.adjacent(x, b));
                assert(g.adjacent(b, x));
            }
        }
        assert(h.partitions[x].neighbors =~= t.partitions[x].neighbors);
    }
    assert(h.partitions =~= t.partitions);
}

/// The graph on the way to `region_isolated`: region `r` is parted from the
/// neighbours that stand in `list` before place `i`.
pub open spec fn region_isolating(g: GraphView, r: u32, list: Seq<u32>, i: int) -> GraphView {
    GraphView {
        regions: Map::new(
            |x: u32| g.regions.contains_key(x),
            |x: u32|
                RegionView {
                    neighbors: if x == r {
                        Set::new(|y: u32| listed_from(list, i, y))
                    } else if listed_before(list, i, x) {
                        g.regions[x].neighbors.remove(r)
                    } else {
                        g.regions[x].neighbors
                    },
                    ..g.regions[x]
                },
        ),
        ..g
    }
}

proof fn lemma_region_isolating_first(g: GraphView, r: u32, list: Seq<u32>)
    requires
        g.regions.contains_key(r),
        forall|x: u32| list.contains(x) <==> g.regions[r].neighbors.contains(x),
    ensures
        region_isolating(g, r, list, 0) == g,
{
    lemma_listed_ends(list);
    let h = region_isolating(g, r, list, 0);
    assert forall|x: u32| #[trigger] g.regions.contains_key(x) implies h.regions[x] == g.regions[x] by {
        assert(h.regions[x].neighbors =~= g.regions[x].neighbors);
    }
    assert(h.regions =~= g.regions);
}

proof fn lemma_region_isolating_step(g: GraphView, r: u32, list: Seq<u32>, i: int)
    requires
        g.wf(),
        g.regions.contains_key(r),
        list.no_duplicates(),
        forall|x: u32| list.contains(x) <==> g.regions[r].neighbors.contains(x),
        0 <= i < list.len(),
    ensures
        g.regions.contains_key(list[i]),
        region_isolating(g, r, list, i).unlink_regions(r, list[i]) == region_isolating(
            g,
            r,
            list,
            i + 1,
        ),
{
    lemma_listed(list, i);
    let n = list[i];
    assert(list.contains(n));
    assert(g.region_adjacent(r, n));
    assert(g.region_adjacent(n, r));
    let h = region_isolating(g, r, list, i).unlink_regions(r, n);
    let t = region_isolating(g, r, list, i + 1);
    assert(h.regions.dom() =~= t.regions.dom());
    assert forall|x: u32| #[trigger] t.regions.contains_key(x) implies h.regions[x] == t.regions[x] by {
        assert(h.regions[x].neighbors =~= t.regions[x].neighbors);
    }
    assert(h.regions =~= t.regions);
}

proof fn lemma_region_isolating_last(g: GraphView, r: u32, list: Seq<u32>)
    requires
        g.wf(),
        g.regions.contains_key(r),
        forall|x: u32| list.contains(x) <==> g.regions[r].neighbors.contains(x),
    ensures
        region_isolating(g, r, list, list.len() as int) == g.region_isolated(r),
{
    lemma_listed_ends(list);
    let h = region_isolating(g, r, list, list.len() as int);
    let t = g.region_isolated(r);
    assert forall|x: u32| #[trigger] t.regions.contains_key(x) implies h.regions[x] == t.regions[x] by {
        if x != r && !list.contains(x) {
            if g.regions[x].neighbors.contains(r) {
                assert(g.region_adjacent(x, r));
                assert(g.region_adjacent(r, x));
            }
        }
        assert(h.regions[x].neighbors =~= t.regions[x].neighbors);
    }
    assert(h.regions =~= t.regions);
}

/// The graph on the way to `adopted`: partition `a` has adopted the
/// neighbours of `b` that stand in `list` before place `i`.
pub open spec fn adopting(g: GraphView, a: u32, b: u32, list: Seq<u32>, i: int) -> GraphView {
    GraphView {
        partitions: Map::new(
            |x: u32| g.partitions.contains_key(x),
            |x: u32|
                PartitionView {
                    neighbors: if x == a {
                        g.partitions[a].neighbors.union(
                            Set::new(|y: u32| listed_before(list, i, y) && y != a && y != b),
                        )
                    } else if x != b && listed_before(list, i, x) {
                        g.partitions[x].neighbors.insert(a)
                    } else {
                        g.partitions[x].neighbors
                    },
                    ..g.partitions[x]
                },
        ),
        ..g
    }
}

proof fn lemma_adopting_first(g: GraphView, a: u32, b: u32, list: Seq<u32>)
    requires
        g.partitions.contains_key(a),
    ensures
        adopting(g, a, b, list, 0) == g,
{
    lemma_listed_ends(list);
    let h = adopting(g, a, b, list, 0);
    assert forall|x: u32| #[trigger] g.partitions.contains_key(x) implies h.partitions[x]
        == g.partitions[x] by {
        assert(h.partitions[x].neighbors =~= g.partitions[x].neighbors);
    }
    assert(h.partitions =~= g.partitions);
}

proof fn lemma_adopting_step(g: GraphView, a: u32, b: u32, list: Seq<u32>, i: int)
    requires
        g.wf(),
        g.partitions.contains_key(a),
        g.partitions.contains_key(b),
        list.no_duplicates(),
        forall|x: u32| list.contains(x) <==> g.partitions[b].neighbors.contains(x),
        0 <= i < list.len(),
    ensures
        g.partitions.contains_key(list[i]),
        list[i] == a || list[i] == b ==> adopting(g, a, b, list, i) == adopting(g, a, b, list, i + 1),
        list[i] != a && list[i] != b ==> adopting(g, a, b, list, i).link(a, list[i]) == adopting(
            g,
            a,
            b,
            list,
            i + 1,
        ),
{
    lemma_listed(list, i);
    let n = list[i];
    assert(list.contains(n));
    assert(g.adjacent(b, n));
    assert(g.adjacent(n, b));
    let t = adopting(g, a, b, list, i + 1);
    if n == a || n == b {
        let h = adopting(g, a, b, list, i);
        assert(h.partitions.dom() =~= t.partitions.dom());
        assert forall|x: u32| #[trigger] t.partitions.contains_key(x) implies h.partitions[x]
            == t.partitions[x] by {
            assert(h.partitions[x].neighbors =~= t.partitions[x].neighbors);
        }
        assert(h.partitions =~= t.partitions);
    } else {
        let h = adopting(g, a, b, list, i).link(a, n);
        assert(h.partitions.dom() =~= t.partitions.dom());
        assert forall|x: u32| #[trigger] t.partitions.contains_key(x) implies h.partitions[x]
            == t.partitions[x] by {
            assert(h.partitions[x].neighbors =~= t.partitions[x].neighbors);
        }
        assert(h.partitions =~= t.partitions);
    }
}

proof fn lemma_adopting_last(g: GraphView, a: u32, b: u32, list: Seq<u32>)
    requires
        g.partitions.contains_key(a),
        g.partitions.contains_key(b),
        forall|x: u32| list.contains(x) <==> g.partitions[b].neighbors.contains(x),
    ensures
        adopting(g, a, b, list, list.len() as int) == g.adopted(a, b),
{
    lemma_listed_ends(list);
    let h = adopting(g, a, b, list, list.len() as int);
    let t = g.adopted(a, b);
    assert forall|x: u32| #[trigger] t.partitions.contains_key(x) implies h.partitions[x]
        == t.partitions[x] by {
        assert(h.partitions[x].neighbors =~= t.partitions[x].neighbors);
    }
    assert(h.partitions =~= t.partitions);
}

/// The graph on the way to `region_adopted`: region `r` has adopted the
/// neighbours of `s` that stand in `list` before place `i`.
pub open spec fn region_adopting(g: GraphView, r: u32, s: u32, list: Seq<u32>, i: int) -> GraphView {
    GraphView {
        regions: Map::new(
            |x: u32| g.regions.contains_key(x),
            |x: u32|
                RegionView {
                    neighbors: if x == r {
                        g.regions[r].neighbors.union(
                            Set::new(|y: u32| listed_before(list, i, y) && y != r && y != s),
                        )
                    } else if x != s && listed_before(list, i, x) {
                        g.regions[x].neighbors.insert(r)
                    } else {
                        g.regions[x].neighbors
                    },
                    ..g.regions[x]
                },
        ),
        ..g
    }
}

proof fn lemma_region_adopting_first(g: GraphView, r: u32, s: u32, list: Seq<u32>)
    requires
        g.regions.contains_key(r),
    ensures
        region_adopting(g, r, s, list, 0) == g,
{
    lemma_listed_ends(list);
    let h = region_adopting(g, r, s, list, 0);
    assert forall|x: u32| #[trigger] g.regions.contains_key(x) implies h.regions[x] == g.regions[x] by {
        assert(h.regions[x].neighbors =~= g.regions[x].neighbors);
    }
    assert(h.regions =~= g.regions);
}

proof fn lemma_region_adopting_step(g: GraphView, r: u32, s: u32, list: Seq<u32>, i: int)
    requires
        g.wf(),
        g.regions.contains_key(r),
        g.regions.contains_key(s),
        list.no_duplicates(),
        forall|x: u32| list.contains(x) <==> g.regions[s].neighbors.contains(x),
        0 <= i < list.len(),
    ensures
        g.regions.contains_key(list[i]),
        list[i] == r || list[i] == s ==> region_adopting(g, r, s, list, i) == region_adopting(
            g,
            r,
            s,
            list,
            i + 1,
        ),
        list[i] != r && list[i] != s ==> region_adopting(g, r, s, list, i).link_regions(r, list[i])
            == region_adopting(g, r, s, list, i + 1),
{
    lemma_listed(list, i);
    let n = list[i];
    assert(list.contains(n));
    assert(g.region_adjacent(s, n));
    assert(g.region_adjacent(n, s));
    let t = region_adopting(g, r, s, list, i + 1);
    if n == r || n == s {
        let h = region_adopting(g, r, s, list, i);
        assert(h.regions.dom() =~= t.regions.dom());
        assert forall|x: u32| #[trigger] t.regions.contains_key(x) implies h.regions[x]
            == t.regions[x] by {
            assert(h.regions[x].neighbors =~= t.regions[x].neighbors);
        }
        assert(h.regions =~= t.regions);
    } else {
        let h = region_adopting(g, r, s, list, i).link_regions(r, n);
        assert(h.regions.dom() =~= t.regions.dom());
        assert forall|x: u32| #[trigger] t.regions.contains_key(x) implies h.regions[x]
            == t.regions[x] by {
            assert(h.regions[x].neighbors =~= t.regions[x].neighbors);
        }
        assert(h.regions =~= t.regions);
    }
}

proof fn lemma_region_adopting_last(g: GraphView, r: u32, s: u32, list: Seq<u32>)
    requires
        g.regions.contains_key(r),
        g.regions.contains_key(s),
        forall|x: u32| list.contains(x) <==> g.regions[s].neighbors.contains(x),
    ensures
        region_adopting(g, r, s, list, list.len() as int) == g.region_adopted(r, s),
{
    lemma_listed_ends(list);
    let h = region_adopting(g, r, s, list, list.len() as int);
    let t = g.region_adopted(r, s);
    assert forall|x: u32| #[trigger] t.regions.contains_key(x) implies h.regions[x] == t.regions[x] by {
        assert(h.regions[x].neighbors =~= t.regions[x].neighbors);
    }
    assert(h.regions =~= t.regions);
}

/// The graph on the way to `members_moved`: the partitions of region `s`
/// that stand in `list` before place `i` have moved to region `r`.
pub open spec fn members_moving(g: GraphView, r: u32, s: u32, list: Seq<u32>, i: int) -> GraphView {
    GraphView {
        partitions: Map::new(
            |x: u32| g.partitions.contains_key(x),
            |x: u32|
                PartitionView {
                    region_id: if listed_before(list, i, x) {
                        r
                    } else {
                        g.partitions[x].region_id
                    },
                    ..g.partitions[x]
                },
        ),
        regions: Map::new(
            |x: u32| g.regions.contains_key(x),
            |x: u32|
                RegionView {
                    partitions: if x == r {
                        g.regions[r].partitions.union(Set::new(|y: u32| listed_before(list, i, y)))
                    } else if x == s {
                        Set::new(|y: u32| listed_from(list, i, y))
                    } else {
                        g.regions[x].partitions
                    },
                    ..g.regions[x]
                },
        ),
    }
}

proof fn lemma_members_moving_first(g: GraphView, r: u32, s: u32, list: Seq<u32>)
    requires
        g.regions.contains_key(r),
        g.regions.contains_key(s),
        r != s,
        forall|x: u32| list.contains(x) <==> g.regions[s].partitions.contains(x),
    ensures
        members_moving(g, r, s, list, 0) == g,
{
    lemma_listed_ends(list);
    let h = members_moving(g, r, s, list, 0);
    assert(h.partitions =~= g.partitions);
    assert forall|x: u32| #[trigger] g.regions.contains_key(x) implies h.regions[x] == g.regions[x] by {
        assert(h.regions[x].partitions =~= g.regions[x].partitions);
    }
    assert(h.regions =~= g.regions);
}

proof fn lemma_members_moving_step(g: GraphView, r: u32, s: u32, list: Seq<u32>, i: int)
    requires
        g.wf(),
        g.regions.contains_key(r),
        g.regions.contains_key(s),
        r != s,
        list.no_duplicates(),
        forall|x: u32| list.contains(x) <==> g.regions[s].partitions.contains(x),
        0 <= i < list.len(),
    ensures
        g.partitions.contains_key(list[i]),
        g.partitions[list[i]].flags == g.regions[s].flags,
        members_moving(g, r, s, list, i).with_member(list[i], r) == members_moving(g, r, s, list, i + 1),
{
    lemma_listed(list, i);
    let q = list[i];
    assert(list.contains(q));
    assert(g.lists(s, q));
    assert(g.member(q, s));
    let h = members_moving(g, r, s, list, i).with_member(q, r);
    let t = members_moving(g, r, s, list, i + 1);
    assert(h.partitions.dom() =~= t.partitions.dom());
    assert(h.partitions =~= t.partitions);
    assert(h.regions.dom() =~= t.regions.dom());
    assert forall|x: u32| #[trigger] t.regions.contains_key(x) implies h.regions[x] == t.regions[x] by {
        assert(h.regions[x].partitions =~= t.regions[x].partitions);
    }
    assert(h.regions =~= t.regions);
}

proof fn lemma_members_moving_last(g: GraphView, r: u32, s: u32, list: Seq<u32>)
    requires
        g.wf(),
        g.regions.contains_key(r),
        g.regions.contains_key(s),
        r != s,
        forall|x: u32| list.contains(x) <==> g.regions[s].partitions.contains(x),
    ensures
        members_moving(g, r, s, list, list.len() as int) == g.members_moved(r, s),
{
    lemma_listed_ends(list);
    let h = members_moving(g, r, s, list, list.len() as int);
    let t = g.members_moved(r, s);
    assert forall|x: u32| #[trigger] t.partitions.contains_key(x) implies h.partitions[x]
        == t.partitions[x] by {
        if g.partitions[x].region_id == s {
            assert(g.lists(s, x));
        }
        if list.contains(x) {
            assert(g.lists(s, x));
            assert(g.member(x, s));
        }
    }
    assert(h.partitions =~= t.partitions);
    assert forall|x: u32| #[trigger] t.regions.contains_key(x) implies h.regions[x] == t.regions[x] by {
        assert(h.regions[x].partitions =~= t.regions[x].partitions);
    }
    assert(h.regions =~= t.regions);
}

/// Every voxel that partition `from` owned in `before` has owner `to` in
/// `after`, and every other voxel has the owner it had.
pub open spec fn owners_replaced(
    before: &Terrain,
    after: &Terrain,
    from: u32,
    to: Option<u32>,
) -> bool {
    &&& after.same_but_owners(before)
    &&& forall|c: int, b: int|
        before.has_block(c, b) ==> (#[trigger] after.block_at(c, b)).partition_id == if before.block_at(
            c,
            b,
        ).partition_id == Some(from) {
            to
        } else {
            before.block_at(c, b).partition_id
        }
}

/// Some of the voxels that partition `from` owned in `before` have owner
/// `to` in `after`, and every other voxel has the owner it had.
pub open spec fn owners_replacing(
    before: &Terrain,
    after: &Terrain,
    from: u32,
    to: Option<u32>,
) -> bool {
    &&& after.same_but_owners(before)
    &&& forall|c: int, b: int|
        before.has_block(c, b) ==> {
            let was = before.block_at(c, b).partition_id;
            let is = (#[trigger] after.block_at(c, b)).partition_id;
            if was == Some(from) {
                is == Some(from) || is == to
            } else {
                is == was
            }
        }
}

proof fn lemma_owners_replacing_step(
    before: &Terrain,
    mid: &Terrain,
    after: &Terrain,
    from: u32,
    to: Option<u32>,
    c: int,
    b: int,
)
    requires
        owners_replacing(before, mid, from, to),
        after.same_but_owners(mid),
        owner_changed(mid, after, c, b, to),
        mid.block_at(c, b).partition_id == Some(from),
    ensures
        owners_replacing(before, after, from, to),
{
    assert forall|i: int, j: int| before.has_block(i, j) implies {
        let was = before.block_at(i, j).partition_id;
        let is = (#[trigger] after.block_at(i, j)).partition_id;
        if was == Some(from) {
            is == Some(from) || is == to
        } else {
            is == was
        }
    } by {
        assert(mid.has_block(i, j));
        let m = mid.block_at(i, j);
    }
    assert forall|i: int, j: int| before.has_block(i, j) implies #[trigger] after.block_at(i, j) == (
    crate::block::Block {
        partition_id: after.block_at(i, j).partition_id,
        ..before.block_at(i, j)
    }) by {
        assert(mid.has_block(i, j));
        let m = mid.block_at(i, j);
    }
}

proof fn lemma_owners_replacing_last(
    before: &Terrain,
    after: &Terrain,
    g: GraphView,
    from: u32,
    to: Option<u32>,
)
    requires
        owners_replacing(before, after, from, to),
        linked(after, g),
        to != Some(from),
        g.partitions.contains_key(from) ==> g.partitions[from].blocks.len() == 0,
    ensures
        owners_replaced(before, after, from, to),
{
    assert forall|c: int, b: int| before.has_block(c, b) implies (#[trigger] after.block_at(
        c,
        b,
    )).partition_id == if before.block_at(c, b).partition_id == Some(from) {
        to
    } else {
        before.block_at(c, b).partition_id
    } by {
        assert(after.has_block(c, b));
        if after.block_at(c, b).partition_id == Some(from) {
            assert(g.partitions[from].holds_block(b));
        }
    }
}

/// What merging partition `b` into partition `a` does to the partitions.
pub proof fn lemma_merged_facts(g: GraphView, a: u32, b: u32)
    requires
        g.wf(),
        g.partitions.contains_key(a),
        g.partitions.contains_key(b),
        a != b,
    ensures
        g.merged(a, b).partitions.dom() == g.partitions.dom().remove(b),
        g.merged(a, b).partitions[a].blocks == g.partitions[a].blocks + g.partitions[b].blocks.reverse(),
        g.merged(a, b).partitions[a].occupants == g.partitions[a].occupants.union(
            g.partitions[b].occupants,
        ),
        g.merged(a, b).partitions[a].extents == g.partitions[a].extents.merged(g.partitions[b].extents),
        forall|x: u32| #[trigger]
            g.merged(a, b).partitions.contains_key(x) ==> {
                let was = g.partitions[x];
                let is = g.merged(a, b).partitions[x];
                &&& is.chunk_idx == was.chunk_idx
                &&& is.flags == was.flags
                &&& is.region_id == was.region_id
                &&& is.is_computed == was.is_computed
                &&& x != a ==> is.blocks == was.blocks && is.occupants == was.occupants && is.extents
                    == was.extents
            },
        forall|x: u32, y: u32|
            #[trigger] g.adjacent(x, y) && x != b && y != b ==> g.merged(a, b).adjacent(x, y),
        forall|x: u32|
            #[trigger] g.adjacent(x, b) && x != a && x != b ==> g.merged(a, b).adjacent(x, a) && g.merged(
                a,
                b,
            ).adjacent(a, x),
        forall|x: u32, y: u32| #[trigger]
            g.merged(a, b).adjacent(x, y) ==> x != b && y != b && (g.adjacent(x, y) || (x == a && g.adjacent(
                b,
                y,
            )) || (y == a && g.adjacent(x, b))),
{
    let g1 = g.adopted(a, b);
    let g2 = g1.isolated(b);
    let g3 = g2.absorbed(a, b);
    let g4 = g3.without_partition(b);
    let h = g4.retired(g.partitions[b].region_id);
    assert(h.partitions == g4.partitions);
    assert(g4.partitions.dom() =~= g.partitions.dom().remove(b));
    assert forall|x: u32|
        #[trigger] g.adjacent(x, b) && x != a && x != b implies h.adjacent(x, a) && h.adjacent(a, x) by {
        assert(g.adjacent(b, x));
    }
    assert forall|x: u32, y: u32| #[trigger] h.adjacent(x, y) implies x != b && y != b && (g.adjacent(x, y)
        || (x == a && g.adjacent(b, y)) || (y == a && g.adjacent(x, b))) by {
        assert(g4.partitions.contains_key(x));
        assert(g3.partitions[x].neighbors == g2.partitions[x].neighbors);
        assert(g2.partitions[x].neighbors.contains(y));
        assert(g1.partitions[x].neighbors.contains(y));
        if x != a && g.partitions[b].neighbors.contains(x) {
            assert(g.adjacent(b, x));
            assert(g.adjacent(x, b));
        }
    }
}

/// The voxels of the partition that is left by a merge, whatever else
/// holds of the graph: those of the two, and the other partitions keep
/// theirs.
proof fn lemma_merged_blocks(g: GraphView, a: u32, b: u32)
    requires
        g.partitions.contains_key(a),
        g.partitions.contains_key(b),
        a != b,
    ensures
        g.merged(a, b).partitions.dom() == g.partitions.dom().remove(b),
        forall|v: u32|
            g.merged(a, b).partitions[a].blocks.contains(v) <==> g.partitions[a].blocks.contains(v)
                || g.partitions[b].blocks.contains(v),
        forall|x: u32| #[trigger]
            g.merged(a, b).partitions.contains_key(x) && x != a ==> g.merged(a, b).partitions[x].blocks
                == g.partitions[x].blocks,
{
    let g1 = g.adopted(a, b);
    let g2 = g1.isolated(b);
    let g3 = g2.absorbed(a, b);
    let g4 = g3.without_partition(b);
    let h = g4.retired(g.partitions[b].region_id);
    assert(h.partitions == g4.partitions);
    assert(g4.partitions.dom() =~= g.partitions.dom().remove(b));
    let mine = g.partitions[a].blocks;
    let other = g.partitions[b].blocks;
    assert(h.partitions[a].blocks == mine + other.reverse());
    assert forall|v: u32| (mine + other.reverse()).contains(v) <==> mine.contains(v) || other.contains(
        v,
    ) by {
        let all = mine + other.reverse();
        if all.contains(v) {
            let k = choose|k: int| 0 <= k < all.len() && all[k] == v;
            if k < mine.len() {
                assert(mine[k] == v);
            } else {
                assert(other[other.len() - 1 - (k - mine.len())] == v);
            }
        }
        if mine.contains(v) {
            let k = choose|k: int| 0 <= k < mine.len() && mine[k] == v;
            assert(all[k] == v);
        }
        if other.contains(v) {
            let k = choose|k: int| 0 <= k < other.len() && other[k] == v;
            assert(all[mine.len() + (other.len() - 1 - k)] == v);
        }
    }
}

/// Merging in any order gives the same voxels: whether `a` is merged into
/// `b` and that into `c`, or `b` into `c` and then `a` into `c`, or `a` into
/// `c` and then `b` into `c`, the partition that is left holds the voxels of
/// all three, and the two others are gone.
pub proof fn lemma_merge_order(g: GraphView, a: u32, b: u32, c: u32, v: u32)
    requires
        g.partitions.contains_key(a),
        g.partitions.contains_key(b),
        g.partitions.contains_key(c),
        a != b,
        b != c,
        a != c,
    ensures
        ({
            let all = g.partitions[a].blocks.contains(v) || g.partitions[b].blocks.contains(v)
                || g.partitions[c].blocks.contains(v);
            &&& g.merged(b, a).merged(c, b).partitions[c].blocks.contains(v) <==> all
            &&& g.merged(c, b).merged(c, a).partitions[c].blocks.contains(v) <==> all
            &&& g.merged(c, a).merged(c, b).partitions[c].blocks.contains(v) <==> all
        }),
        g.merged(b, a).merged(c, b).partitions.dom() == g.partitions.dom().remove(a).remove(b),
        g.merged(c, b).merged(c, a).partitions.dom() == g.partitions.dom().remove(a).remove(b),
        g.merged(c, a).merged(c, b).partitions.dom() == g.partitions.dom().remove(a).remove(b),
{
    lemma_merged_blocks(g, b, a);
    lemma_merged_blocks(g.merged(b, a), c, b);
    lemma_merged_blocks(g, c, b);
    lemma_merged_blocks(g.merged(c, b), c, a);
    lemma_merged_blocks(g, c, a);
    lemma_merged_blocks(g.merged(c, a), c, b);
    assert(g.partitions.dom().remove(b).remove(a) =~= g.partitions.dom().remove(a).remove(b));
}

/// What declaring two partitions neighbours does to the partitions.
pub proof fn lemma_neighbored_facts(g: GraphView, a: u32, b: u32)
    requires
        g.wf(),
        g.partitions.contains_key(a),
        g.partitions.contains_key(b),
    ensures
        g.neighbored(a, b).partitions.dom() == g.partitions.dom(),
        g.neighbored(a, b).adjacent(a, b),
        g.neighbored(a, b).adjacent(b, a),
        forall|x: u32, y: u32| #[trigger] g.adjacent(x, y) ==> g.neighbored(a, b).adjacent(x, y),
        forall|x: u32| #[trigger]
            g.partitions.contains_key(x) ==> g.neighbored(a, b).partitions[x].extents
                == g.partitions[x].extents,
        forall|x: u32, y: u32| #[trigger]
            g.neighbored(a, b).adjacent(x, y) ==> g.adjacent(x, y) || (x == a && y == b) || (x == b && y
                == a),
{
    let h = g.neighbored(a, b);
    assert(g.link(a, b).partitions.dom() =~= g.partitions.dom());
    assert(h.partitions.dom() =~= g.partitions.dom());
}

/// Neighbours of one mask share a region, and the regions of neighbours
/// of differing masks are neighbours.
pub open spec fn regions_true(g: GraphView) -> bool {
    forall|p: u32, q: u32|
        #[trigger] g.adjacent(p, q) && g.partitions.contains_key(q) ==> if g.partitions[p].flags
            == g.partitions[q].flags {
            g.partitions[p].region_id == g.partitions[q].region_id
        } else {
            g.region_adjacent(g.partitions[p].region_id, g.partitions[q].region_id)
        }
}

/// A change that adds no neighbour, moves no partition to another region
/// and parts no regions keeps the regions true to the neighbours.
pub proof fn lemma_regions_kept(was: GraphView, now: GraphView)
    requires
        regions_true(was),
        forall|p: u32, q: u32|
            #[trigger] now.adjacent(p, q) && now.partitions.contains_key(q) ==> {
                &&& was.adjacent(p, q)
                &&& was.partitions.contains_key(q)
                &&& now.partitions[p].flags == was.partitions[p].flags
                &&& now.partitions[q].flags == was.partitions[q].flags
                &&& now.partitions[p].region_id == was.partitions[p].region_id
                &&& now.partitions[q].region_id == was.partitions[q].region_id
            },
        forall|r: u32, s: u32| #[trigger] was.region_adjacent(r, s) ==> now.region_adjacent(r, s),
    ensures
        regions_true(now),
{
    assert forall|p: u32, q: u32| #[trigger] now.adjacent(p, q) && now.partitions.contains_key(q) implies if now.partitions[p].flags
        == now.partitions[q].flags {
        now.partitions[p].region_id == now.partitions[q].region_id
    } else {
        now.region_adjacent(now.partitions[p].region_id, now.partitions[q].region_id)
    } by {
        assert(was.adjacent(p, q));
        if was.partitions[p].flags != was.partitions[q].flags {
            assert(was.region_adjacent(was.partitions[p].region_id, was.partitions[q].region_id));
        }
    }
}

/// Declaring two partitions neighbours keeps the regions true to the
/// neighbours.
pub proof fn lemma_neighbored_regions(g: GraphView, a: u32, b: u32)
    requires
        g.wf(),
        g.partitions.contains_key(a),
        g.partitions.contains_key(b),
        regions_true(g),
    ensures
        regions_true(g.neighbored(a, b)),
{
    let ra = g.partitions[a].region_id;
    let rb = g.partitions[b].region_id;
    let l = g.link(a, b);
    let h = g.neighbored(a, b);
    assert(g.lists(ra, a) && g.lists(rb, b));
    assert forall|x: u32, y: u32| #[trigger] l.adjacent(x, y) implies g.adjacent(x, y) || (x == a && y == b)
        || (x == b && y == a) by {}
    assert forall|x: u32| l.partitions.contains_key(x) <==> g.partitions.contains_key(x) by {}
    assert forall|x: u32| #[trigger]
        g.partitions.contains_key(x) implies l.partitions[x].flags == g.partitions[x].flags
        && l.partitions[x].region_id == g.partitions[x].region_id by {}
    if ra == rb {
        assert(h == l);
    } else if g.partitions[a].flags == g.partitions[b].flags {
        let m1 = l.members_moved(ra, rb);
        let m2 = m1.region_adopted(ra, rb);
        let m3 = m2.region_isolated(rb);
        assert(h == m3.without_region(rb));
        assert forall|p: u32, q: u32| #[trigger] h.adjacent(p, q) && h.partitions.contains_key(q) implies if h.partitions[p].flags
            == h.partitions[q].flags {
            h.partitions[p].region_id == h.partitions[q].region_id
        } else {
            h.region_adjacent(h.partitions[p].region_id, h.partitions[q].region_id)
        } by {
            assert(l.adjacent(p, q));
            let rp = g.partitions[p].region_id;
            let rq = g.partitions[q].region_id;
            assert(g.lists(rp, p) && g.lists(rq, q));
            if h.partitions[p].flags != h.partitions[q].flags {
                assert(g.adjacent(p, q));
                assert(g.region_adjacent(rp, rq));
                assert(g.region_adjacent(rq, rp));
                assert(g.regions[rp].flags != g.regions[rq].flags);
            }
        }
    } else {
        assert(h == l.link_regions(ra, rb));
        assert forall|p: u32, q: u32| #[trigger] h.adjacent(p, q) && h.partitions.contains_key(q) implies if h.partitions[p].flags
            == h.partitions[q].flags {
            h.partitions[p].region_id == h.partitions[q].region_id
        } else {
            h.region_adjacent(h.partitions[p].region_id, h.partitions[q].region_id)
        } by {
            assert(l.adjacent(p, q));
            let rp = g.partitions[p].region_id;
            let rq = g.partitions[q].region_id;
            assert(g.lists(rp, p) && g.lists(rq, q));
            if g.adjacent(p, q) && g.partitions[p].flags != g.partitions[q].flags {
                assert(g.region_adjacent(rp, rq));
            }
        }
    }
}

/// Merging a partition into another of its region keeps the regions true
/// to the neighbours.
pub proof fn lemma_merged_regions(g: GraphView, a: u32, b: u32)
    requires
        g.wf(),
        g.partitions.contains_key(a),
        g.partitions.contains_key(b),
        a != b,
        g.partitions[a].region_id == g.partitions[b].region_id,
        regions_true(g),
    ensures
        regions_true(g.merged(a, b)),
{
    let r = g.partitions[b].region_id;
    let g1 = g.adopted(a, b);
    let g2 = g1.isolated(b);
    let g3 = g2.absorbed(a, b);
    let g4 = g3.without_partition(b);
    let h = g4.retired(r);
    lemma_merged_facts(g, a, b);
    assert(g.lists(r, a) && g.lists(r, b));
    assert(g4.regions.contains_key(r) && g4.regions[r].partitions.contains(a));
    assert(!(g4.regions[r].partitions =~= Set::<u32>::empty()));
    assert(h == g4);
    assert(g.regions[r].flags == g.partitions[a].flags && g.regions[r].flags == g.partitions[b].flags);
    assert forall|p: u32, q: u32| #[trigger] h.adjacent(p, q) && h.partitions.contains_key(q) implies if h.partitions[p].flags
        == h.partitions[q].flags {
        h.partitions[p].region_id == h.partitions[q].region_id
    } else {
        h.region_adjacent(h.partitions[p].region_id, h.partitions[q].region_id)
    } by {
        assert(h.partitions.contains_key(p));
        assert(p != b && q != b);
        assert(forall|x: u32| #[trigger] g4.regions.contains_key(x) && x != r ==> g4.regions[x] == g.regions[x]);
        assert(g4.regions[r].neighbors == g.regions[r].neighbors);
        if g.adjacent(p, q) {
        } else if p == a && g.adjacent(b, q) {
        } else {
            assert(q == a && g.adjacent(p, b));
        }
    }
}

/// Removing a partition keeps the regions true to the neighbours.
pub proof fn lemma_removed_regions(g: GraphView, a: u32)
    requires
        g.wf(),
        g.partitions.contains_key(a),
        regions_true(g),
    ensures
        regions_true(g.removed(a)),
{
    let r = g.partitions[a].region_id;
    let g1 = g.isolated(a);
    let g2 = g1.with_content(a, PartitionView { blocks: Seq::empty(), ..g1.partitions[a] });
    let g3 = g2.without_partition(a);
    let h = g3.retired(r);
    lemma_removed_facts(g, a);
    assert forall|p: u32, q: u32| #[trigger] h.adjacent(p, q) && h.partitions.contains_key(q) implies if h.partitions[p].flags
        == h.partitions[q].flags {
        h.partitions[p].region_id == h.partitions[q].region_id
    } else {
        h.region_adjacent(h.partitions[p].region_id, h.partitions[q].region_id)
    } by {
        assert(h.partitions.contains_key(p));
        assert(g.adjacent(p, q));
        let rp = g.partitions[p].region_id;
        let rq = g.partitions[q].region_id;
        assert(g.lists(rp, p) && g.lists(rq, q));
        assert(g3.lists(rp, p) && g3.lists(rq, q));
        if h != g3 {
            assert(rp != r && rq != r);
            if g.partitions[p].flags != g.partitions[q].flags {
                assert(g.region_adjacent(rp, rq));
                assert(g3.region_adjacent(rp, rq));
            }
        } else {
            if g.partitions[p].flags != g.partitions[q].flags {
                assert(g.region_adjacent(rp, rq));
            }
        }
    }
}

/// What removing partition `a` does to the partitions.
pub proof fn lemma_removed_facts(g: GraphView, a: u32)
    requires
        g.wf(),
        g.partitions.contains_key(a),
    ensures
        g.removed(a).partitions.dom() == g.partitions.dom().remove(a),
        forall|x: u32| #[trigger]
            g.removed(a).partitions.contains_key(x) ==> g.removed(a).partitions[x] == (PartitionView {
                neighbors: g.partitions[x].neighbors.remove(a),
                ..g.partitions[x]
            }),
{
    let g1 = g.isolated(a);
    let g2 = g1.with_content(a, PartitionView { blocks: Seq::empty(), ..g1.partitions[a] });
    let g3 = g2.without_partition(a);
    let h = g3.retired(g.partitions[a].region_id);
    assert(h.partitions == g3.partitions);
    assert(g3.partitions.dom() =~= g.partitions.dom().remove(a));
}

/// The partitions and regions of the world.
pub struct PartitionGraph {
    partitions: Vec<Option<Partition>>,
    regions: Vec<Option<Region>>,
}

impl View for PartitionGraph {
    type V = GraphView;

    closed spec fn view(&self) -> GraphView {
        GraphView {
            partitions: Map::new(
                |id: u32| id < self.partitions@.len() && self.partitions@[id as int] is Some,
                |id: u32| (self.partitions@[id as int]->0)@,
            ),
            regions: Map::new(
                |id: u32| id < self.regions@.len() && self.regions@[id as int] is Some,
                |id: u32| (self.regions@[id as int]->0)@,
            ),
        }
    }
}

impl PartitionGraph {
    /// Each entry knows its own number, and the numbers fit in 32 bits.
    pub closed spec fn repr_ok(&self) -> bool {
        &&& self.partitions@.len() <= u32::MAX
        &&& self.regions@.len() <= u32::MAX
        &&& forall|i: int|
            0 <= i < self.partitions@.len() && (#[trigger] self.partitions@[i]) is Some
                ==> self.partitions@[i]->0.id == i
        &&& forall|i: int|
            0 <= i < self.regions@.len() && (#[trigger] self.regions@[i]) is Some
                ==> self.regions@[i]->0.id == i
    }

    pub open spec fn wf(&self) -> bool {
        self.repr_ok() && self@.wf()
    }

    /// The number that the next new partition gets.
    pub closed spec fn next_partition_id(&self) -> int {
        self.partitions@.len() as int
    }

    /// The number that the next new region gets.
    pub closed spec fn next_region_id(&self) -> int {
        self.regions@.len() as int
    }

    /// No partition or region has a number from the next one on.
    pub proof fn lemma_next_ids(&self)
        ensures
            forall|a: u32| #[trigger] self@.partitions.contains_key(a) ==> a < self.next_partition_id(),
            forall|r: u32| #[trigger] self@.regions.contains_key(r) ==> r < self.next_region_id(),
            0 <= self.next_partition_id(),
            0 <= self.next_region_id(),
            self.repr_ok() ==> self.next_partition_id() <= u32::MAX && self.next_region_id()
                <= u32::MAX,
    {
    }

    /// A graph without partitions or regions.
    pub fn new() -> (graph: PartitionGraph)
        ensures
            graph.wf(),
            graph@.partitions == Map::<u32, PartitionView>::empty(),
            graph@.regions == Map::<u32, RegionView>::empty(),
            graph.next_partition_id() == 0,
            graph.next_region_id() == 0,
    {
        let graph = PartitionGraph { partitions: Vec::new(), regions: Vec::new() };
        assert(graph@.partitions =~= Map::<u32, PartitionView>::empty());
        assert(graph@.regions =~= Map::<u32, RegionView>::empty());
        graph
    }

    /// Partition `id`, if there is one.
    pub fn get_partition(&self, id: u32) -> (r: Option<&Partition>)
        ensures
            r is Some <==> self@.partitions.contains_key(id),
            r matches Some(p) ==> p@ == self@.partitions[id] && (self.repr_ok() ==> p.id == id),
    {
        if (id as usize) < self.partitions.len() {
            self.partitions[id as usize].as_ref()
        } else {
            None
        }
    }

    /// Region `id`, if there is one.
    pub fn get_region(&self, id: u32) -> (r: Option<&Region>)
        ensures
            r is Some <==> self@.regions.contains_key(id),
            r matches Some(p) ==> p@ == self@.regions[id] && (self.repr_ok() ==> p.id == id),
    {
        if (id as usize) < self.regions.len() {
            self.regions[id as usize].as_ref()
        } else {
            None
        }
    }

    /// Whether there is a partition `id`.
    pub fn contains_partition(&self, id: u32) -> (b: bool)
        ensures
            b == self@.partitions.contains_key(id),
    {
        self.get_partition(id).is_some()
    }

    /// The mask of partition `id`; the empty mask if there is none.
    pub fn get_flags(&self, id: u32) -> (f: PartitionFlags)
        ensures
            f == if self@.partitions.contains_key(id) {
                self@.partitions[id].flags
            } else {
                PartitionFlags { bits: 0 }
            },
    {
        match self.get_partition(id) {
            Some(p) => p.flags,
            None => PartitionFlags::none(),
        }
    }

    /// The voxel in the middle of partition `id`'s bounding box.
    pub fn get_center(&self, id: u32) -> (c: Option<[u32; 3]>)
        requires
            self.wf(),
        ensures
            c is Some <==> self@.partitions.contains_key(id),
            c matches Some(p) ==> {
                let e = self@.partitions[id].extents;
                &&& p[0] == e.min_x + (e.max_x - e.min_x) / 2
                &&& p[1] == e.min_y + (e.max_y - e.min_y) / 2
                &&& p[2] == e.min_z + (e.max_z - e.min_z) / 2
            },
    {
        match self.get_partition(id) {
            Some(p) => Some(p.extents.center()),
            None => None,
        }
    }

    /// Whether partition `id` exists and is marked as computed.
    pub fn is_partition_computed(&self, id: u32) -> (b: bool)
        ensures
            b == (self@.partitions.contains_key(id) && self@.partitions[id].is_computed),
    {
        if let Some(p) = self.get_partition(id) {
            return p.is_computed;
        }
        false
    }

    /// The voxels of partition `id`, by their number in its chunk; none if
    /// there is no such partition.
    pub fn partition_blocks(&self, id: u32) -> (blocks: Vec<u32>)
        ensures
            blocks@ == if self@.partitions.contains_key(id) {
                self@.partitions[id].blocks
            } else {
                Seq::<u32>::empty()
            },
    {
        let mut blocks: Vec<u32> = Vec::new();
        if let Some(p) = self.get_partition(id) {
            let mut i: usize = 0;
            while i < p.blocks.len()
                invariant
                    i <= p.blocks.len(),
                    blocks@ == p.blocks@.subrange(0, i as int),
                decreases p.blocks.len() - i,
            {
                blocks.push(p.blocks[i]);
                i += 1;
                assert(blocks@ =~= p.blocks@.subrange(0, i as int));
            }
            assert(blocks@ =~= p.blocks@);
        }
        blocks
    }

    /// Nothing but the contents of partitions and regions may have changed.
    pub open spec fn same_ids(&self, other: &PartitionGraph) -> bool {
        &&& self.next_partition_id() == other.next_partition_id()
        &&& self.next_region_id() == other.next_region_id()
    }

    fn insert_neighbor(&mut self, a: u32, b: u32)
        requires
            old(self).repr_ok(),
            old(self)@.partitions.contains_key(a),
        ensures
            final(self).repr_ok(),
            final(self).same_ids(old(self)),
            final(self)@ == old(self)@.with_neighbor(a, b),
    {
        match &mut self.partitions[a as usize] {
            Some(p) => {
                p.neighbor_ids.insert(b);
            },
            None => {},
        }
        assert(self@.partitions =~= old(self)@.with_neighbor(a, b).partitions);
        assert(self@.regions =~= old(self)@.regions);
    }

    fn remove_neighbor(&mut self, a: u32, b: u32)
        requires
            old(self).repr_ok(),
            old(self)@.partitions.contains_key(a),
        ensures
            final(self).repr_ok(),
            final(self).same_ids(old(self)),
            final(self)@ == old(self)@.without_neighbor(a, b),
    {
        match &mut self.partitions[a as usize] {
            Some(p) => {
                p.neighbor_ids.remove(b);
            },
            None => {},
        }
        assert(self@.partitions =~= old(self)@.without_neighbor(a, b).partitions);
        assert(self@.regions =~= old(self)@.regions);
    }

    fn insert_region_neighbor(&mut self, r: u32, s: u32)
        requires
            old(self).repr_ok(),
            old(self)@.regions.contains_key(r),
        ensures
            final(self).repr_ok(),
            final(self).same_ids(old(self)),
            final(self)@ == old(self)@.with_region_neighbor(r, s),
    {
        match &mut self.regions[r as usize] {
            Some(region) => {
                region.neighbor_ids.insert(s);
            },
            None => {},
        }
        assert(self@.regions =~= old(self)@.with_region_neighbor(r, s).regions);
        assert(self@.partitions =~= old(self)@.partitions);
    }

    fn remove_region_neighbor(&mut self, r: u32, s: u32)
        requires
            old(self).repr_ok(),
            old(self)@.regions.contains_key(r),
        ensures
            final(self).repr_ok(),
            final(self).same_ids(old(self)),
            final(self)@ == old(self)@.without_region_neighbor(r, s),
    {
        match &mut self.regions[r as usize] {
            Some(region) => {
                region.neighbor_ids.remove(s);
            },
            None => {},
        }
        assert(self@.regions =~= old(self)@.without_region_neighbor(r, s).regions);
        assert(self@.partitions =~= old(self)@.partitions);
    }

    /// Adds a region of mask `flags` that lists no partition yet, under a
    /// number that no region has had before.
    pub fn create_region(&mut self, flags: PartitionFlags) -> (id: u32)
        requires
            old(self).wf(),
            old(self).next_region_id() < u32::MAX,
        ensures
            final(self).wf(),
            id == old(self).next_region_id(),
            !old(self)@.regions.contains_key(id),
            final(self)@ == old(self)@.with_region(id, flags),
            final(self).next_region_id() == old(self).next_region_id() + 1,
            final(self).next_partition_id() == old(self).next_partition_id(),
    {
        let id = self.regions.len() as u32;
        self.regions.push(
            Some(Region { id, flags, partition_ids: IdSet::new(), neighbor_ids: IdSet::new() }),
        );
        proof {
            assert(self@.regions =~= old(self)@.with_region(id, flags).regions);
            assert(self@.partitions =~= old(self)@.partitions);
            lemma_with_region(old(self)@, id, flags);
        }
        id
    }

    /// Adds an empty partition of chunk `chunk_idx` to region `region_id`,
    /// under a number that no partition has had before.
    pub fn create_partition(&mut self, region_id: u32, chunk_idx: u32, flags: PartitionFlags) -> (id:
        u32)
        requires
            old(self).wf(),
            old(self).next_partition_id() < u32::MAX,
            old(self)@.regions.contains_key(region_id),
            old(self)@.regions[region_id].flags == flags,
        ensures
            final(self).wf(),
            id == old(self).next_partition_id(),
            !old(self)@.partitions.contains_key(id),
            final(self)@ == old(self)@.with_partition(id, region_id, chunk_idx, flags),
            final(self).next_partition_id() == old(self).next_partition_id() + 1,
            final(self).next_region_id() == old(self).next_region_id(),
            forall|terrain: &Terrain| #[trigger]
                linked(terrain, old(self)@) ==> linked(terrain, final(self)@),
    {
        let id = self.partitions.len() as u32;
        self.partitions.push(
            Some(
                Partition {
                    id,
                    chunk_idx,
                    region_id,
                    flags,
                    is_computed: false,
                    blocks: Vec::new(),
                    neighbor_ids: IdSet::new(),
                    items: OccupantSet::new(),
                    extents: Extents::new(),
                },
            ),
        );
        match &mut self.regions[region_id as usize] {
            Some(region) => {
                region.partition_ids.insert(id);
            },
            None => {},
        }
        proof {
            let h = old(self)@.with_partition(id, region_id, chunk_idx, flags);
            assert(self@.partitions =~= h.partitions);
            assert(self@.regions =~= h.regions);
            lemma_with_partition(old(self)@, id, region_id, chunk_idx, flags);
        }
        id
    }

    /// Makes partitions `a_id` and `b_id` neighbours of each other.
    pub fn set_neighbors(&mut self, a_id: u32, b_id: u32)
        requires
            old(self).wf(),
            old(self)@.partitions.contains_key(a_id),
            old(self)@.partitions.contains_key(b_id),
        ensures
            final(self).wf(),
            final(self).same_ids(old(self)),
            final(self)@ == old(self)@.link(a_id, b_id),
            final(self)@.same_membership(old(self)@),
    {
        self.insert_neighbor(a_id, b_id);
        self.insert_neighbor(b_id, a_id);
        proof {
            lemma_link(old(self)@, a_id, b_id);
        }
    }

    /// Makes partitions `a_id` and `b_id` no longer neighbours.
    pub fn unset_neighbors(&mut self, a_id: u32, b_id: u32)
        requires
            old(self).wf(),
            old(self)@.partitions.contains_key(a_id),
            old(self)@.partitions.contains_key(b_id),
        ensures
            final(self).wf(),
            final(self).same_ids(old(self)),
            final(self)@ == old(self)@.unlink(a_id, b_id),
            final(self)@.same_membership(old(self)@),
    {
        self.remove_neighbor(a_id, b_id);
        self.remove_neighbor(b_id, a_id);
        proof {
            lemma_unlink(old(self)@, a_id, b_id);
        }
    }

    /// Makes regions `a_id` and `b_id` neighbours of each other.
    pub fn set_region_neighbors(&mut self, a_id: u32, b_id: u32)
        requires
            old(self).wf(),
            old(self)@.regions.contains_key(a_id),
            old(self)@.regions.contains_key(b_id),
        ensures
            final(self).wf(),
            final(self).same_ids(old(self)),
            final(self)@ == old(self)@.link_regions(a_id, b_id),
    {
        self.insert_region_neighbor(a_id, b_id);
        self.insert_region_neighbor(b_id, a_id);
        proof {
            lemma_link_regions(old(self)@, a_id, b_id);
        }
    }

    /// Makes regions `a_id` and `b_id` no longer neighbours.
    pub fn unset_region_neighbors(&mut self, a_id: u32, b_id: u32)
        requires
            old(self).wf(),
            old(self)@.regions.contains_key(a_id),
            old(self)@.regions.contains_key(b_id),
        ensures
            final(self).wf(),
            final(self).same_ids(old(self)),
            final(self)@ == old(self)@.unlink_regions(a_id, b_id),
    {
        self.remove_region_neighbor(a_id, b_id);
        self.remove_region_neighbor(b_id, a_id);
        proof {
            lemma_unlink_regions(old(self)@, a_id, b_id);
        }
    }

    /// Marks partition `id` as computed or not. Where there is no such
    /// partition nothing changes, and that is reported.
    pub fn set_partition_computed(&mut self, id: u32, value: bool) -> (r: Result<(), NavError>)
        requires
            old(self).wf(),
        ensures
            r == if old(self)@.partitions.contains_key(id) {
                Ok::<(), NavError>(())
            } else {
                Err::<(), NavError>(NavError::MissingGraphReference)
            },
            final(self).wf(),
            final(self).same_ids(old(self)),
            final(self)@ == if old(self)@.partitions.contains_key(id) {
                old(self)@.with_content(
                    id,
                    PartitionView { is_computed: value, ..old(self)@.partitions[id] },
                )
            } else {
                old(self)@
            },
            final(self)@.same_membership(old(self)@),
    {
        let known = self.contains_partition(id);
        if (id as usize) < self.partitions.len() {
            match &mut self.partitions[id as usize] {
                Some(p) => {
                    p.is_computed = value;
                },
                None => {},
            }
        }
        proof {
            if old(self)@.partitions.contains_key(id) {
                let p = PartitionView { is_computed: value, ..old(self)@.partitions[id] };
                assert(self@.partitions =~= old(self)@.with_content(id, p).partitions);
                assert(self@.regions =~= old(self)@.regions);
                lemma_with_content(old(self)@, id, p);
            } else {
                assert(self@.partitions =~= old(self)@.partitions);
                assert(self@.regions =~= old(self)@.regions);
            }
        }
        if known {
            Ok(())
        } else {
            Err(NavError::MissingGraphReference)
        }
    }

    /// Appends a voxel to the list of partition `partition_id`, whoever owns
    /// the voxel in the world. Where there is no such partition nothing
    /// changes, and that is reported.
    pub fn set_block(&mut self, partition_id: u32, block_idx: u32) -> (r: Result<(), NavError>)
        requires
            old(self).wf(),
        ensures
            r == if old(self)@.partitions.contains_key(partition_id) {
                Ok::<(), NavError>(())
            } else {
                Err::<(), NavError>(NavError::MissingGraphReference)
            },
            final(self).wf(),
            final(self).same_ids(old(self)),
            final(self)@ == if old(self)@.partitions.contains_key(partition_id) {
                old(self)@.with_content(
                    partition_id,
                    PartitionView {
                        blocks: old(self)@.partitions[partition_id].blocks.push(block_idx),
                        ..old(self)@.partitions[partition_id]
                    },
                )
            } else {
                old(self)@
            },
    {
        let known = self.contains_partition(partition_id);
        if (partition_id as usize) < self.partitions.len() {
            match &mut self.partitions[partition_id as usize] {
                Some(p) => {
                    p.add_block(block_idx);
                },
                None => {},
            }
        }
        proof {
            if old(self)@.partitions.contains_key(partition_id) {
                let p = PartitionView {
                    blocks: old(self)@.partitions[partition_id].blocks.push(block_idx),
                    ..old(self)@.partitions[partition_id]
                };
                assert(self@.partitions =~= old(self)@.with_content(partition_id, p).partitions);
                assert(self@.regions =~= old(self)@.regions);
                lemma_with_content(old(self)@, partition_id, p);
            } else {
                assert(self@.partitions =~= old(self)@.partitions);
                assert(self@.regions =~= old(self)@.regions);
            }
        }
        if known {
            Ok(())
        } else {
            Err(NavError::MissingGraphReference)
        }
    }

    /// Records that `occupant` stands in partition `partition_id`, and says
    /// whether the partition did not hold the occupant before. Where there
    /// is no such partition nothing changes, and that is reported.
    pub fn add_occupant(&mut self, partition_id: u32, occupant: u64) -> (r: Result<bool, NavError>)
        requires
            old(self).wf(),
        ensures
            final(self).wf(),
            final(self).same_ids(old(self)),
            r == if old(self)@.partitions.contains_key(partition_id) {
                Ok::<bool, NavError>(!old(self)@.partitions[partition_id].occupants.contains(occupant))
            } else {
                Err::<bool, NavError>(NavError::MissingGraphReference)
            },
            final(self)@ == if old(self)@.partitions.contains_key(partition_id) {
                old(self)@.with_content(
                    partition_id,
                    PartitionView {
                        occupants: old(self)@.partitions[partition_id].occupants.insert(occupant),
                        ..old(self)@.partitions[partition_id]
                    },
                )
            } else {
                old(self)@
            },
            final(self)@.same_membership(old(self)@),
    {
        let known = self.contains_partition(partition_id);
        let mut fresh = false;
        if (partition_id as usize) < self.partitions.len() {
            match &mut self.partitions[partition_id as usize] {
                Some(p) => {
                    fresh = p.items.insert(occupant);
                },
                None => {},
            }
        }
        proof {
            if old(self)@.partitions.contains_key(partition_id) {
                let p = PartitionView {
                    occupants: old(self)@.partitions[partition_id].occupants.insert(occupant),
                    ..old(self)@.partitions[partition_id]
                };
                assert(self@.partitions =~= old(self)@.with_content(partition_id, p).partitions);
                assert(self@.regions =~= old(self)@.regions);
                lemma_with_content(old(self)@, partition_id, p);
            } else {
                assert(self@.partitions =~= old(self)@.partitions);
                assert(self@.regions =~= old(self)@.regions);
            }
        }
        if known {
            Ok(fresh)
        } else {
            Err(NavError::MissingGraphReference)
        }
    }

    /// Records that `occupant` no longer stands in partition
    /// `partition_id`, and says whether the partition held the occupant.
    /// Where there is no such partition nothing changes, and that is
    /// reported.
    pub fn remove_occupant(&mut self, partition_id: u32, occupant: u64) -> (r: Result<bool, NavError>)
        requires
            old(self).wf(),
        ensures
            final(self).wf(),
            final(self).same_ids(old(self)),
            r == if old(self)@.partitions.contains_key(partition_id) {
                Ok::<bool, NavError>(old(self)@.partitions[partition_id].occupants.contains(occupant))
            } else {
                Err::<bool, NavError>(NavError::MissingGraphReference)
            },
            final(self)@ == if old(self)@.partitions.contains_key(partition_id) {
                old(self)@.with_content(
                    partition_id,
                    PartitionView {
                        occupants: old(self)@.partitions[partition_id].occupants.remove(occupant),
                        ..old(self)@.partitions[partition_id]
                    },
                )
            } else {
                old(self)@
            },
            final(self)@.same_membership(old(self)@),
    {
        let known = self.contains_partition(partition_id);
        let mut found = false;
        if (partition_id as usize) < self.partitions.len() {
            match &mut self.partitions[partition_id as usize] {
                Some(p) => {
                    found = p.items.remove(occupant);
                },
                None => {},
            }
        }
        proof {
            if old(self)@.partitions.contains_key(partition_id) {
                let p = PartitionView {
                    occupants: old(self)@.partitions[partition_id].occupants.remove(occupant),
                    ..old(self)@.partitions[partition_id]
                };
                assert(self@.partitions =~= old(self)@.with_content(partition_id, p).partitions);
                assert(self@.regions =~= old(self)@.regions);
                lemma_with_content(old(self)@, partition_id, p);
            } else {
                assert(self@.partitions =~= old(self)@.partitions);
                assert(self@.regions =~= old(self)@.regions);
            }
        }
        if known {
            Ok(found)
        } else {
            Err(NavError::MissingGraphReference)
        }
    }

    /// Brings the distance across the bounding box of partition `id` up to
    /// date. Where there is no such partition nothing changes, and that is
    /// reported.
    pub fn update_traversal_distance(&mut self, id: u32) -> (r: Result<(), NavError>)
        requires
            old(self).wf(),
        ensures
            r == if old(self)@.partitions.contains_key(id) {
                Ok::<(), NavError>(())
            } else {
                Err::<(), NavError>(NavError::MissingGraphReference)
            },
            final(self).wf(),
            final(self).same_ids(old(self)),
            final(self)@ == if old(self)@.partitions.contains_key(id) {
                old(self)@.with_content(
                    id,
                    PartitionView {
                        extents: Extents {
                            traversal_distance: old(self)@.partitions[id].extents.spec_span() as u64,
                            is_stale: false,
                            ..old(self)@.partitions[id].extents
                        },
                        ..old(self)@.partitions[id]
                    },
                )
            } else {
                old(self)@
            },
            final(self)@.same_membership(old(self)@),
    {
        let known = self.contains_partition(id);
        if (id as usize) < self.partitions.len() {
            proof {
                if self@.partitions.contains_key(id) {
                    assert(self@.partitions[id].extents.ordered());
                }
            }
            match &mut self.partitions[id as usize] {
                Some(p) => {
                    p.extents.update_traversal_distance();
                },
                None => {},
            }
        }
        proof {
            if old(self)@.partitions.contains_key(id) {
                let p = PartitionView {
                    extents: Extents {
                        traversal_distance: old(self)@.partitions[id].extents.spec_span() as u64,
                        is_stale: false,
                        ..old(self)@.partitions[id].extents
                    },
                    ..old(self)@.partitions[id]
                };
                assert(self@.partitions =~= old(self)@.with_content(id, p).partitions);
                assert(self@.regions =~= old(self)@.regions);
                lemma_with_content(old(self)@, id, p);
            } else {
                assert(self@.partitions =~= old(self)@.partitions);
                assert(self@.regions =~= old(self)@.regions);
            }
        }
        if known {
            Ok(())
        } else {
            Err(NavError::MissingGraphReference)
        }
    }

    /// Gives voxel `block_idx` of the partition's chunk, which lies at
    /// `pos` and has no owner, to partition `partition_id`: in the world, in
    /// the partition's list and in its bounding box.
    pub fn assign_block(
        &mut self,
        partition_id: u32,
        block_idx: u32,
        pos: [u32; 3],
        terrain: &mut Terrain,
    )
        requires
            old(self).wf(),
            old(terrain).wf(),
            linked(old(terrain), old(self)@),
            old(self)@.partitions.contains_key(partition_id),
            old(terrain).has_block(
                old(self)@.partitions[partition_id].chunk_idx as int,
                block_idx as int,
            ),
            old(terrain).block_at(
                old(self)@.partitions[partition_id].chunk_idx as int,
                block_idx as int,
            ).partition_id is None,
        ensures
            final(self).wf(),
            final(terrain).wf(),
            linked(final(terrain), final(self)@),
            final(self).same_ids(old(self)),
            final(terrain).same_but_owners(old(terrain)),
            owner_changed(
                old(terrain),
                final(terrain),
                old(self)@.partitions[partition_id].chunk_idx as int,
                block_idx as int,
                Some(partition_id),
            ),
            final(self)@ == old(self)@.with_content(
                partition_id,
                PartitionView {
                    blocks: old(self)@.partitions[partition_id].blocks.push(block_idx),
                    extents: old(self)@.partitions[partition_id].extents.extended(
                        pos[0],
                        pos[1],
                        pos[2],
                    ),
                    ..old(self)@.partitions[partition_id]
                },
            ),
    {
        let mut chunk_idx: u32 = 0;
        match &mut self.partitions[partition_id as usize] {
            Some(p) => {
                chunk_idx = p.chunk_idx;
                p.blocks.push(block_idx);
                p.extents.extend(pos);
            },
            None => {},
        }
        terrain.set_partition_id(chunk_idx, block_idx, partition_id);
        proof {
            let p = PartitionView {
                blocks: old(self)@.partitions[partition_id].blocks.push(block_idx),
                extents: old(self)@.partitions[partition_id].extents.extended(pos[0], pos[1], pos[2]),
                ..old(self)@.partitions[partition_id]
            };
            assert(self@.partitions =~= old(self)@.with_content(partition_id, p).partitions);
            assert(self@.regions =~= old(self)@.regions);
            lemma_with_content(old(self)@, partition_id, p);
            lemma_assign_linked(old(terrain), final(terrain), old(self)@, partition_id, block_idx, p);
        }
    }

    /// Gives the last voxel of partition `from` to partition `to` of the
    /// same chunk: in the world and in both lists.
    fn move_block(&mut self, from: u32, to: u32, terrain: &mut Terrain)
        requires
            old(self).wf(),
            old(terrain).wf(),
            linked(old(terrain), old(self)@),
            old(self)@.partitions.contains_key(from),
            old(self)@.partitions.contains_key(to),
            from != to,
            old(self)@.partitions[from].chunk_idx == old(self)@.partitions[to].chunk_idx,
            old(self)@.partitions[from].blocks.len() > 0,
        ensures
            final(self).wf(),
            final(terrain).wf(),
            linked(final(terrain), final(self)@),
            final(self).same_ids(old(self)),
            final(terrain).same_but_owners(old(terrain)),
            owner_changed(
                old(terrain),
                final(terrain),
                old(self)@.partitions[from].chunk_idx as int,
                old(self)@.partitions[from].blocks.last() as int,
                Some(to),
            ),
            old(terrain).block_at(
                old(self)@.partitions[from].chunk_idx as int,
                old(self)@.partitions[from].blocks.last() as int,
            ).partition_id == Some(from),
            final(self)@ == old(self)@.with_content(
                from,
                PartitionView {
                    blocks: old(self)@.partitions[from].blocks.drop_last(),
                    ..old(self)@.partitions[from]
                },
            ).with_content(
                to,
                PartitionView {
                    blocks: old(self)@.partitions[to].blocks.push(
                        old(self)@.partitions[from].blocks.last(),
                    ),
                    ..old(self)@.partitions[to]
                },
            ),
    {
        let ghost pf = PartitionView {
            blocks: old(self)@.partitions[from].blocks.drop_last(),
            ..old(self)@.partitions[from]
        };
        let ghost pt = PartitionView {
            blocks: old(self)@.partitions[to].blocks.push(old(self)@.partitions[from].blocks.last()),
            ..old(self)@.partitions[to]
        };
        proof {
            let blocks = old(self)@.partitions[from].blocks;
            assert(old(terrain).has_block(
                old(self)@.partitions[from].chunk_idx as int,
                blocks[blocks.len() - 1] as int,
            ));
        }
        let mut chunk_idx: u32 = 0;
        let mut block_idx: u32 = 0;
        match &mut self.partitions[from as usize] {
            Some(p) => {
                chunk_idx = p.chunk_idx;
                match p.blocks.pop() {
                    Some(b) => {
                        block_idx = b;
                    },
                    None => {},
                }
            },
            None => {},
        }
        match &mut self.partitions[to as usize] {
            Some(p) => {
                p.blocks.push(block_idx);
            },
            None => {},
        }
        terrain.set_partition_id(chunk_idx, block_idx, to);
        proof {
            let h = old(self)@.with_content(from, pf).with_content(to, pt);
            assert(self@.partitions =~= h.partitions);
            assert(self@.regions =~= h.regions);
            lemma_with_content(old(self)@, from, pf);
            lemma_with_content(old(self)@.with_content(from, pf), to, pt);
            lemma_move_linked(old(terrain), final(terrain), old(self)@, from, to, pf, pt);
        }
    }

    /// Leaves the last voxel of partition `from` without owner: in the
    /// world and in the partition's list. Returns the voxel.
    fn release_block(&mut self, from: u32, terrain: &mut Terrain) -> (block_idx: u32)
        requires
            old(self).wf(),
            old(terrain).wf(),
            linked(old(terrain), old(self)@),
            old(self)@.partitions.contains_key(from),
            old(self)@.partitions[from].blocks.len() > 0,
        ensures
            final(self).wf(),
            final(terrain).wf(),
            linked(final(terrain), final(self)@),
            final(self).same_ids(old(self)),
            final(terrain).same_but_owners(old(terrain)),
            block_idx == old(self)@.partitions[from].blocks.last(),
            owner_changed(
                old(terrain),
                final(terrain),
                old(self)@.partitions[from].chunk_idx as int,
                block_idx as int,
                None,
            ),
            final(self)@ == old(self)@.with_content(
                from,
                PartitionView {
                    blocks: old(self)@.partitions[from].blocks.drop_last(),
                    ..old(self)@.partitions[from]
                },
            ),
    {
        let ghost pf = PartitionView {
            blocks: old(self)@.partitions[from].blocks.drop_last(),
            ..old(self)@.partitions[from]
        };
        proof {
            let blocks = old(self)@.partitions[from].blocks;
            assert(old(terrain).has_block(
                old(self)@.partitions[from].chunk_idx as int,
                blocks[blocks.len() - 1] as int,
            ));
        }
        let mut chunk_idx: u32 = 0;
        let mut block_idx: u32 = 0;
        match &mut self.partitions[from as usize] {
            Some(p) => {
                chunk_idx = p.chunk_idx;
                match p.blocks.pop() {
                    Some(b) => {
                        block_idx = b;
                    },
                    None => {},
                }
            },
            None => {},
        }
        terrain.unset_partition_id(chunk_idx, block_idx);
        proof {
            let h = old(self)@.with_content(from, pf);
            assert(self@.partitions =~= h.partitions);
            assert(self@.regions =~= h.regions);
            lemma_with_content(old(self)@, from, pf);
            lemma_release_linked(old(terrain), final(terrain), old(self)@, from, pf);
        }
        block_idx
    }

    /// Moves partition `a` to region `r` of the same mask.
    fn move_member(&mut self, a: u32, r: u32)
        requires
            old(self).wf(),
            old(self)@.partitions.contains_key(a),
            old(self)@.regions.contains_key(r),
            old(self)@.regions[r].flags == old(self)@.partitions[a].flags,
        ensures
            final(self).wf(),
            final(self).same_ids(old(self)),
            final(self)@ == old(self)@.with_member(a, r),
            final(self)@.same_membership(old(self)@),
    {
        proof {
            assert(old(self)@.lists(old(self)@.partitions[a].region_id, a));
        }
        let mut from: u32 = 0;
        match &mut self.partitions[a as usize] {
            Some(p) => {
                from = p.region_id;
                p.region_id = r;
            },
            None => {},
        }
        match &mut self.regions[from as usize] {
            Some(region) => {
                region.partition_ids.remove(a);
            },
            None => {},
        }
        match &mut self.regions[r as usize] {
            Some(region) => {
                region.partition_ids.insert(a);
            },
            None => {},
        }
        proof {
            let h = old(self)@.with_member(a, r);
            assert(self@.partitions =~= h.partitions);
            assert(self@.regions =~= h.regions);
            lemma_with_member(old(self)@, a, r);
        }
    }

    /// Grows the bounding box of partition `a` to hold `other` as well.
    fn merge_extents(&mut self, a: u32, other: &Extents)
        requires
            old(self).wf(),
            old(self)@.partitions.contains_key(a),
        ensures
            final(self).wf(),
            final(self).same_ids(old(self)),
            final(self)@ == old(self)@.with_content(
                a,
                PartitionView {
                    extents: old(self)@.partitions[a].extents.merged(*other),
                    ..old(self)@.partitions[a]
                },
            ),
            final(self)@.same_membership(old(self)@),
    {
        match &mut self.partitions[a as usize] {
            Some(p) => {
                p.extents.union(other);
            },
            None => {},
        }
        proof {
            let p = PartitionView {
                extents: old(self)@.partitions[a].extents.merged(*other),
                ..old(self)@.partitions[a]
            };
            assert(old(self)@.partitions[a].extents.ordered());
            assert(self@.partitions =~= old(self)@.with_content(a, p).partitions);
            assert(self@.regions =~= old(self)@.regions);
            lemma_with_content(old(self)@, a, p);
        }
    }

    /// Takes partition `a`, which has no neighbours, out of the graph.
    fn drop_partition(&mut self, a: u32) -> (r: Option<Partition>)
        requires
            old(self).wf(),
            old(self)@.partitions.contains_key(a),
            old(self)@.partitions[a].neighbors =~= Set::<u32>::empty(),
        ensures
            final(self).wf(),
            final(self).same_ids(old(self)),
            final(self)@ == old(self)@.without_partition(a),
            r matches Some(p) && p@ == old(self)@.partitions[a] && p.id == a,
            forall|terrain: &Terrain| #[trigger]
                linked(terrain, old(self)@) && old(self)@.partitions[a].blocks.len() == 0 ==> linked(
                    terrain,
                    final(self)@,
                ),
    {
        proof {
            assert(old(self)@.lists(old(self)@.partitions[a].region_id, a));
        }
        let taken = self.partitions[a as usize].take();
        match &taken {
            Some(p) => {
                match &mut self.regions[p.region_id as usize] {
                    Some(region) => {
                        region.partition_ids.remove(a);
                    },
                    None => {},
                }
            },
            None => {},
        }
        proof {
            let h = old(self)@.without_partition(a);
            assert(self@.partitions =~= h.partitions);
            assert(self@.regions =~= h.regions);
            lemma_without_partition(old(self)@, a);
        }
        taken
    }

    /// Takes region `r`, which lists no partition and has no neighbours, out
    /// of the graph.
    fn drop_region(&mut self, r: u32)
        requires
            old(self).wf(),
            old(self)@.regions.contains_key(r),
            old(self)@.regions[r].partitions =~= Set::<u32>::empty(),
            old(self)@.regions[r].neighbors =~= Set::<u32>::empty(),
        ensures
            final(self).wf(),
            final(self).same_ids(old(self)),
            final(self)@ == old(self)@.without_region(r),
    {
        self.regions.set(r as usize, None);
        proof {
            let h = old(self)@.without_region(r);
            assert(self@.partitions =~= h.partitions);
            assert(self@.regions =~= h.regions);
            lemma_without_region(old(self)@, r);
        }
    }

    /// Parts partition `b` from all its neighbours.
    fn isolate_partition(&mut self, b: u32)
        requires
            old(self).wf(),
            old(self)@.partitions.contains_key(b),
        ensures
            final(self).wf(),
            final(self).same_ids(old(self)),
            final(self)@ == old(self)@.isolated(b),
            final(self)@.same_membership(old(self)@),
    {
        let list = match self.get_partition(b) {
            Some(p) => p.neighbor_list(),
            None => Vec::new(),
        };
        let ghost start = self@;
        proof {
            lemma_isolating_first(start, b, list@);
        }
        let mut i: usize = 0;
        while i < list.len()
            invariant
                self.wf(),
                self.same_ids(old(self)),
                start == old(self)@,
                start.wf(),
                start.partitions.contains_key(b),
                i <= list.len(),
                list@.no_duplicates(),
                forall|x: u32| list@.contains(x) <==> start.partitions[b].neighbors.contains(x),
                self@ == isolating(start, b, list@, i as int),
            decreases list.len() - i,
        {
            let n = list[i];
            proof {
                lemma_isolating_step(start, b, list@, i as int);
            }
            self.unset_neighbors(b, n);
            i += 1;
        }
        proof {
            lemma_isolating_last(start, b, list@);
            assert(self@.partitions.dom() =~= start.partitions.dom());
        }
    }

    /// Parts region `r` from all its neighbours.
    fn isolate_region(&mut self, r: u32)
        requires
            old(self).wf(),
            old(self)@.regions.contains_key(r),
        ensures
            final(self).wf(),
            final(self).same_ids(old(self)),
            final(self)@ == old(self)@.region_isolated(r),
    {
        let list = match self.get_region(r) {
            Some(region) => region.neighbor_list(),
            None => Vec::new(),
        };
        let ghost start = self@;
        proof {
            lemma_region_isolating_first(start, r, list@);
        }
        let mut i: usize = 0;
        while i < list.len()
            invariant
                self.wf(),
                self.same_ids(old(self)),
                start == old(self)@,
                start.wf(),
                start.regions.contains_key(r),
                i <= list.len(),
                list@.no_duplicates(),
                forall|x: u32| list@.contains(x) <==> start.regions[r].neighbors.contains(x),
                self@ == region_isolating(start, r, list@, i as int),
            decreases list.len() - i,
        {
            let n = list[i];
            proof {
                lemma_region_isolating_step(start, r, list@, i as int);
            }
            self.unset_region_neighbors(r, n);
            i += 1;
        }
        proof {
            lemma_region_isolating_last(start, r, list@);
        }
    }

    /// Makes partition `a` a neighbour of every neighbour of partition `b`
    /// but `a` and `b` themselves.
    fn adopt_neighbors(&mut self, a: u32, b: u32)
        requires
            old(self).wf(),
            old(self)@.partitions.contains_key(a),
            old(self)@.partitions.contains_key(b),
        ensures
            final(self).wf(),
            final(self).same_ids(old(self)),
            final(self)@ == old(self)@.adopted(a, b),
            final(self)@.same_membership(old(self)@),
    {
        let list = match self.get_partition(b) {
            Some(p) => p.neighbor_list(),
            None => Vec::new(),
        };
        let ghost start = self@;
        proof {
            lemma_adopting_first(start, a, b, list@);
        }
        let mut i: usize = 0;
        while i < list.len()
            invariant
                self.wf(),
                self.same_ids(old(self)),
                start == old(self)@,
                start.wf(),
                start.partitions.contains_key(a),
                start.partitions.contains_key(b),
                i <= list.len(),
                list@.no_duplicates(),
                forall|x: u32| list@.contains(x) <==> start.partitions[b].neighbors.contains(x),
                self@ == adopting(start, a, b, list@, i as int),
            decreases list.len() - i,
        {
            let n = list[i];
            proof {
                lemma_adopting_step(start, a, b, list@, i as int);
            }
            if n != a && n != b {
                self.set_neighbors(a, n);
            }
            i += 1;
        }
        proof {
            lemma_adopting_last(start, a, b, list@);
            assert(self@.partitions.dom() =~= start.partitions.dom());
        }
    }

    /// Makes region `r` a neighbour of every neighbour of region `s` but
    /// `r` and `s` themselves.
    fn adopt_region_neighbors(&mut self, r: u32, s: u32)
        requires
            old(self).wf(),
            old(self)@.regions.contains_key(r),
            old(self)@.regions.contains_key(s),
        ensures
            final(self).wf(),
            final(self).same_ids(old(self)),
            final(self)@ == old(self)@.region_adopted(r, s),
    {
        let list = match self.get_region(s) {
            Some(region) => region.neighbor_list(),
            None => Vec::new(),
        };
        let ghost start = self@;
        proof {
            lemma_region_adopting_first(start, r, s, list@);
        }
        let mut i: usize = 0;
        while i < list.len()
            invariant
                self.wf(),
                self.same_ids(old(self)),
                start == old(self)@,
                start.wf(),
                start.regions.contains_key(r),
                start.regions.contains_key(s),
                i <= list.len(),
                list@.no_duplicates(),
                forall|x: u32| list@.contains(x) <==> start.regions[s].neighbors.contains(x),
                self@ == region_adopting(start, r, s, list@, i as int),
            decreases list.len() - i,
        {
            let n = list[i];
            proof {
                lemma_region_adopting_step(start, r, s, list@, i as int);
            }
            if n != r && n != s {
                self.set_region_neighbors(r, n);
            }
            i += 1;
        }
        proof {
            lemma_region_adopting_last(start, r, s, list@);
        }
    }

    /// Moves every partition of region `s` to region `r` of the same mask.
    fn move_members(&mut self, r: u32, s: u32)
        requires
            old(self).wf(),
            old(self)@.regions.contains_key(r),
            old(self)@.regions.contains_key(s),
            r != s,
            old(self)@.regions[r].flags == old(self)@.regions[s].flags,
        ensures
            final(self).wf(),
            final(self).same_ids(old(self)),
            final(self)@ == old(self)@.members_moved(r, s),
            final(self)@.same_membership(old(self)@),
    {
        let list = match self.get_region(s) {
            Some(region) => region.partition_list(),
            None => Vec::new(),
        };
        let ghost start = self@;
        proof {
            lemma_members_moving_first(start, r, s, list@);
        }
        let mut i: usize = 0;
        while i < list.len()
            invariant
                self.wf(),
                self.same_ids(old(self)),
                start == old(self)@,
                start.wf(),
                start.regions.contains_key(r),
                start.regions.contains_key(s),
                r != s,
                start.regions[r].flags == start.regions[s].flags,
                i <= list.len(),
                list@.no_duplicates(),
                forall|x: u32| list@.contains(x) <==> start.regions[s].partitions.contains(x),
                self@ == members_moving(start, r, s, list@, i as int),
            decreases list.len() - i,
        {
            let q = list[i];
            proof {
                lemma_members_moving_step(start, r, s, list@, i as int);
            }
            self.move_member(q, r);
            i += 1;
        }
        proof {
            lemma_members_moving_last(start, r, s, list@);
            assert(self@.partitions.dom() =~= start.partitions.dom());
        }
    }

    /// Removes region `r` if it exists and lists no partition.
    fn retire_region(&mut self, r: u32)
        requires
            old(self).wf(),
        ensures
            final(self).wf(),
            final(self).same_ids(old(self)),
            final(self)@ == old(self)@.retired(r),
            final(self)@.partitions == old(self)@.partitions,
    {
        let is_empty = match self.get_region(r) {
            Some(region) => {
                let listed = region.partition_list();
                proof {
                    if listed@.len() > 0 {
                        assert(listed@.contains(listed@[0]));
                    } else {
                        assert forall|id: u32| !region@.partitions.contains(id) by {
                            if region@.partitions.contains(id) {
                                assert(listed@.contains(id));
                                let k = choose|k: int| 0 <= k < listed@.len() && listed@[k] == id;
                            }
                        }
                        assert(region@.partitions =~= Set::<u32>::empty());
                    }
                }
                listed.len() == 0
            },
            None => false,
        };
        assert(is_empty == (self@.regions.contains_key(r) && self@.regions[r].partitions
            == Set::<u32>::empty()));
        if is_empty {
            self.isolate_region(r);
            self.drop_region(r);
        }
    }

    /// Merges region `s` into region `r` of the same mask.
    fn merge_regions(&mut self, r: u32, s: u32)
        requires
            old(self).wf(),
            old(self)@.regions.contains_key(r),
            old(self)@.regions.contains_key(s),
            r != s,
            old(self)@.regions[r].flags == old(self)@.regions[s].flags,
        ensures
            final(self).wf(),
            final(self).same_ids(old(self)),
            final(self)@ == old(self)@.regions_merged(r, s),
            final(self)@.same_membership(old(self)@),
    {
        self.move_members(r, s);
        self.adopt_region_neighbors(r, s);
        self.isolate_region(s);
        self.drop_region(s);
    }

    /// Number of voxels of partition `id`; zero if there is none.
    pub fn block_count(&self, id: u32) -> (n: usize)
        ensures
            n == if self@.partitions.contains_key(id) {
                self@.partitions[id].blocks.len()
            } else {
                0
            },
    {
        match self.get_partition(id) {
            Some(p) => p.blocks.len(),
            None => 0,
        }
    }

    /// Gives every voxel of partition `b` to partition `a` of the same
    /// chunk: in the world and in both lists.
    fn absorb_blocks(&mut self, a: u32, b: u32, terrain: &mut Terrain)
        requires
            old(self).wf(),
            old(terrain).wf(),
            linked(old(terrain), old(self)@),
            old(self)@.partitions.contains_key(a),
            old(self)@.partitions.contains_key(b),
            a != b,
            old(self)@.partitions[a].chunk_idx == old(self)@.partitions[b].chunk_idx,
        ensures
            final(self).wf(),
            final(terrain).wf(),
            linked(final(terrain), final(self)@),
            final(self).same_ids(old(self)),
            owners_replaced(old(terrain), final(terrain), b, Some(a)),
            final(self)@ == old(self)@.with_content(
                b,
                PartitionView { blocks: Seq::empty(), ..old(self)@.partitions[b] },
            ).with_content(
                a,
                PartitionView {
                    blocks: old(self)@.partitions[a].blocks + old(self)@.partitions[b].blocks.reverse(),
                    ..old(self)@.partitions[a]
                },
            ),
    {
        let ghost start = self@;
        let ghost first = *terrain;
        let ghost from_blocks = start.partitions[b].blocks;
        let ghost to_blocks = start.partitions[a].blocks;
        let mut left = self.block_count(b);
        proof {
            assert(from_blocks.subrange(0, left as int) =~= from_blocks);
            assert(to_blocks + from_blocks.subrange(left as int, from_blocks.len() as int).reverse()
                =~= to_blocks);
            assert(self@.partitions =~= start.with_content(
                b,
                PartitionView { blocks: from_blocks.subrange(0, left as int), ..start.partitions[b] },
            ).with_content(
                a,
                PartitionView {
                    blocks: to_blocks + from_blocks.subrange(
                        left as int,
                        from_blocks.len() as int,
                    ).reverse(),
                    ..start.partitions[a]
                },
            ).partitions);
        }
        while left > 0
            invariant
                self.wf(),
                terrain.wf(),
                linked(terrain, self@),
                self.same_ids(old(self)),
                start == old(self)@,
                first == *old(terrain),
                start.partitions.contains_key(a),
                start.partitions.contains_key(b),
                a != b,
                start.partitions[a].chunk_idx == start.partitions[b].chunk_idx,
                from_blocks == start.partitions[b].blocks,
                to_blocks == start.partitions[a].blocks,
                left <= from_blocks.len(),
                owners_replacing(&first, terrain, b, Some(a)),
                self@ == start.with_content(
                    b,
                    PartitionView { blocks: from_blocks.subrange(0, left as int), ..start.partitions[b] },
                ).with_content(
                    a,
                    PartitionView {
                        blocks: to_blocks + from_blocks.subrange(
                            left as int,
                            from_blocks.len() as int,
                        ).reverse(),
                        ..start.partitions[a]
                    },
                ),
            decreases left,
        {
            let ghost mid = *terrain;
            let ghost before = self@;
            self.move_block(b, a, terrain);
            left -= 1;
            proof {
                lemma_owners_replacing_step(
                    &first,
                    &mid,
                    terrain,
                    b,
                    Some(a),
                    start.partitions[b].chunk_idx as int,
                    before.partitions[b].blocks.last() as int,
                );
                assert(from_blocks.subrange(0, left as int + 1).drop_last() =~= from_blocks.subrange(
                    0,
                    left as int,
                ));
                assert((to_blocks + from_blocks.subrange(
                    left as int + 1,
                    from_blocks.len() as int,
                ).reverse()).push(from_blocks[left as int]) =~= to_blocks + from_blocks.subrange(
                    left as int,
                    from_blocks.len() as int,
                ).reverse());
                assert(self@.partitions =~= start.with_content(
                    b,
                    PartitionView {
                        blocks: from_blocks.subrange(0, left as int),
                        ..start.partitions[b]
                    },
                ).with_content(
                    a,
                    PartitionView {
                        blocks: to_blocks + from_blocks.subrange(
                            left as int,
                            from_blocks.len() as int,
                        ).reverse(),
                        ..start.partitions[a]
                    },
                ).partitions);
            }
        }
        proof {
            assert(from_blocks.subrange(0, 0) =~= Seq::<u32>::empty());
            assert(from_blocks.subrange(0, from_blocks.len() as int) =~= from_blocks);
            lemma_owners_replacing_last(&first, terrain, self@, b, Some(a));
        }
    }

    /// Leaves every voxel of partition `b` without owner: in the world and
    /// in the partition's list.
    fn release_blocks(&mut self, b: u32, terrain: &mut Terrain)
        requires
            old(self).wf(),
            old(terrain).wf(),
            linked(old(terrain), old(self)@),
            old(self)@.partitions.contains_key(b),
        ensures
            final(self).wf(),
            final(terrain).wf(),
            linked(final(terrain), final(self)@),
            final(self).same_ids(old(self)),
            owners_replaced(old(terrain), final(terrain), b, None),
            final(self)@ == old(self)@.with_content(
                b,
                PartitionView { blocks: Seq::empty(), ..old(self)@.partitions[b] },
            ),
    {
        let ghost start = self@;
        let ghost first = *terrain;
        let ghost from_blocks = start.partitions[b].blocks;
        let mut left = self.block_count(b);
        proof {
            assert(from_blocks.subrange(0, left as int) =~= from_blocks);
            assert(self@.partitions =~= start.with_content(
                b,
                PartitionView { blocks: from_blocks.subrange(0, left as int), ..start.partitions[b] },
            ).partitions);
        }
        while left > 0
            invariant
                self.wf(),
                terrain.wf(),
                linked(terrain, self@),
                self.same_ids(old(self)),
                start == old(self)@,
                first == *old(terrain),
                start.partitions.contains_key(b),
                from_blocks == start.partitions[b].blocks,
                left <= from_blocks.len(),
                owners_replacing(&first, terrain, b, None),
                self@ == start.with_content(
                    b,
                    PartitionView { blocks: from_blocks.subrange(0, left as int), ..start.partitions[b] },
                ),
            decreases left,
        {
            let ghost mid = *terrain;
            let ghost before = self@;
            proof {
                let blocks = before.partitions[b].blocks;
                assert(mid.block_at(
                    before.partitions[b].chunk_idx as int,
                    blocks[blocks.len() - 1] as int,
                ).partition_id == Some(b));
            }
            self.release_block(b, terrain);
            left -= 1;
            proof {
                lemma_owners_replacing_step(
                    &first,
                    &mid,
                    terrain,
                    b,
                    None,
                    start.partitions[b].chunk_idx as int,
                    before.partitions[b].blocks.last() as int,
                );
                assert(from_blocks.subrange(0, left as int + 1).drop_last() =~= from_blocks.subrange(
                    0,
                    left as int,
                ));
                assert(self@.partitions =~= start.with_content(
                    b,
                    PartitionView {
                        blocks: from_blocks.subrange(0, left as int),
                        ..start.partitions[b]
                    },
                ).partitions);
            }
        }
        proof {
            assert(from_blocks.subrange(0, 0) =~= Seq::<u32>::empty());
            lemma_owners_replacing_last(&first, terrain, self@, b, None);
        }
    }

    /// Records everyone who stands in partition `b` as standing in
    /// partition `a` as well.
    fn absorb_occupants(&mut self, a: u32, b: u32)
        requires
            old(self).wf(),
            old(self)@.partitions.contains_key(a),
            old(self)@.partitions.contains_key(b),
            a != b,
        ensures
            final(self).wf(),
            final(self).same_ids(old(self)),
            final(self)@ == old(self)@.with_content(
                a,
                PartitionView {
                    occupants: old(self)@.partitions[a].occupants.union(
                        old(self)@.partitions[b].occupants,
                    ),
                    ..old(self)@.partitions[a]
                },
            ),
            final(self)@.same_membership(old(self)@),
    {
        let list = match self.get_partition(b) {
            Some(p) => p.occupant_list(),
            None => Vec::new(),
        };
        let ghost start = self@;
        proof {
            lemma_listed_ends(list@);
            assert(start.partitions[a].occupants.union(Set::new(|o: u64| listed_before(list@, 0, o)))
                =~= start.partitions[a].occupants);
            assert(self@.partitions =~= start.with_content(
                a,
                PartitionView {
                    occupants: start.partitions[a].occupants.union(
                        Set::new(|o: u64| listed_before(list@, 0, o)),
                    ),
                    ..start.partitions[a]
                },
            ).partitions);
        }
        let mut i: usize = 0;
        while i < list.len()
            invariant
                self.wf(),
                self.same_ids(old(self)),
                start == old(self)@,
                start.partitions.contains_key(a),
                start.partitions.contains_key(b),
                i <= list.len(),
                list@.no_duplicates(),
                forall|o: u64| list@.contains(o) <==> start.partitions[b].occupants.contains(o),
                self@ == start.with_content(
                    a,
                    PartitionView {
                        occupants: start.partitions[a].occupants.union(
                            Set::new(|o: u64| listed_before(list@, i as int, o)),
                        ),
                        ..start.partitions[a]
                    },
                ),
            decreases list.len() - i,
        {
            let occupant = list[i];
            self.add_occupant(a, occupant);
            proof {
                lemma_listed(list@, i as int);
                assert(start.partitions[a].occupants.union(
                    Set::new(|o: u64| listed_before(list@, i as int, o)),
                ).insert(occupant) =~= start.partitions[a].occupants.union(
                    Set::new(|o: u64| listed_before(list@, i as int + 1, o)),
                ));
                assert(self@.partitions =~= start.with_content(
                    a,
                    PartitionView {
                        occupants: start.partitions[a].occupants.union(
                            Set::new(|o: u64| listed_before(list@, i as int + 1, o)),
                        ),
                        ..start.partitions[a]
                    },
                ).partitions);
            }
            i += 1;
        }
        proof {
            lemma_listed_ends(list@);
            assert(start.partitions[a].occupants.union(
                Set::new(|o: u64| listed_before(list@, list@.len() as int, o)),
            ) =~= start.partitions[a].occupants.union(start.partitions[b].occupants));
            let p = PartitionView {
                occupants: start.partitions[a].occupants.union(start.partitions[b].occupants),
                ..start.partitions[a]
            };
            lemma_with_content(start, a, p);
        }
    }

    /// Merges partition `b` into partition `a` of the same chunk and mask:
    /// `a` takes over the neighbours, voxels and occupants of `b`, every
    /// voxel that `b` owned is owned by `a`, and `b` is removed, with its
    /// region if that lists no other partition. Returns `a` and its region.
    pub fn merge_partitions(&mut self, a: u32, b: u32, terrain: &mut Terrain) -> (r: (u32, u32))
        requires
            old(self).wf(),
            old(terrain).wf(),
            linked(old(terrain), old(self)@),
            old(self)@.partitions.contains_key(a),
            old(self)@.partitions.contains_key(b),
            a != b,
            old(self)@.partitions[a].chunk_idx == old(self)@.partitions[b].chunk_idx,
            old(self)@.partitions[a].flags == old(self)@.partitions[b].flags,
        ensures
            final(self).wf(),
            final(terrain).wf(),
            linked(final(terrain), final(self)@),
            final(self).same_ids(old(self)),
            r.0 == a,
            r.1 == old(self)@.partitions[a].region_id,
            final(self)@ == old(self)@.merged(a, b),
            owners_replaced(old(terrain), final(terrain), b, Some(a)),
    {
        let region_a = match self.get_partition(a) {
            Some(p) => p.region_id,
            None => 0,
        };
        let (region_b, extents_b) = match self.get_partition(b) {
            Some(p) => (p.region_id, p.extents),
            None => (0, Extents::new()),
        };
        self.adopt_neighbors(a, b);
        self.isolate_partition(b);
        let ghost parted = self@;
        proof {
            lemma_membership_linked(terrain, old(self)@, self@);
        }
        self.absorb_blocks(a, b, terrain);
        self.absorb_occupants(a, b);
        self.merge_extents(a, &extents_b);
        proof {
            assert(self@.partitions =~= parted.absorbed(a, b).partitions);
            assert(self@ == parted.absorbed(a, b));
        }
        let gone = self.drop_partition(b);
        self.retire_region(region_b);
        proof {
            assert(linked(terrain, self@)) by {
                let h = parted.absorbed(a, b).without_partition(b);
                assert(self@.same_membership(h)) by {
                    assert(self@.partitions == h.partitions);
                }
                lemma_membership_linked(terrain, h, self@);
            }
        }
        (a, region_a)
    }

    /// Declares partitions `a` and `b` neighbours. If they belong to
    /// different regions, those are merged where the masks agree, and made
    /// neighbours where they differ. Returns the region that `a` and `b`
    /// share after a merge, and nothing otherwise.
    pub fn set_partition_neighbors(&mut self, a: u32, b: u32) -> (r: Option<u32>)
        requires
            old(self).wf(),
            old(self)@.partitions.contains_key(a),
            old(self)@.partitions.contains_key(b),
        ensures
            final(self).wf(),
            final(self).same_ids(old(self)),
            final(self)@ == old(self)@.neighbored(a, b),
            final(self)@.same_membership(old(self)@),
            r == if old(self)@.partitions[a].region_id != old(self)@.partitions[b].region_id && old(
                self,
            )@.partitions[a].flags == old(self)@.partitions[b].flags {
                Some(old(self)@.partitions[a].region_id)
            } else {
                None
            },
            forall|x: u32| #[trigger]
                final(self)@.partitions.contains_key(x) ==> {
                    let was = old(self)@.partitions[x];
                    let is = final(self)@.partitions[x];
                    &&& is.chunk_idx == was.chunk_idx
                    &&& is.flags == was.flags
                    &&& is.is_computed == was.is_computed
                    &&& is.blocks == was.blocks
                    &&& is.occupants == was.occupants
                    &&& is.extents == was.extents
                },
    {
        let (region_a, flags_a) = match self.get_partition(a) {
            Some(p) => (p.region_id, p.flags),
            None => (0, PartitionFlags::none()),
        };
        let (region_b, flags_b) = match self.get_partition(b) {
            Some(p) => (p.region_id, p.flags),
            None => (0, PartitionFlags::none()),
        };
        proof {
            assert(old(self)@.lists(region_a, a));
            assert(old(self)@.lists(region_b, b));
        }
        self.set_neighbors(a, b);
        let ghost joined = self@;
        if region_a == region_b {
            None
        } else if flags_a == flags_b {
            self.merge_regions(region_a, region_b);
            proof {
                assert(self@.partitions.dom() =~= old(self)@.partitions.dom());
            }
            Some(region_a)
        } else {
            self.set_region_neighbors(region_a, region_b);
            None
        }
    }

    /// Removes partition `id`: it is parted from its neighbours, its voxels
    /// are left without owner, and its region is removed if it lists no
    /// other partition. Returns the partition as it was, but without
    /// neighbours.
    pub fn remove_partition(&mut self, id: u32, terrain: &mut Terrain) -> (r: Option<Partition>)
        requires
            old(self).wf(),
            old(terrain).wf(),
            linked(old(terrain), old(self)@),
            old(self)@.partitions.contains_key(id),
        ensures
            final(self).wf(),
            final(terrain).wf(),
            linked(final(terrain), final(self)@),
            final(self).same_ids(old(self)),
            final(self)@ == old(self)@.removed(id),
            owners_replaced(old(terrain), final(terrain), id, None),
            r matches Some(p) && p.id == id && p@ == (PartitionView {
                neighbors: Set::empty(),
                ..old(self)@.partitions[id]
            }),
    {
        let saved = self.partition_blocks(id);
        self.isolate_partition(id);
        proof {
            lemma_membership_linked(terrain, old(self)@, self@);
        }
        self.release_blocks(id, terrain);
        let gone = self.drop_partition(id);
        let ghost dropped = self@;
        match gone {
            Some(mut p) => {
                self.retire_region(p.region_id);
                proof {
                    assert(self@.same_membership(dropped)) by {
                        assert(self@.partitions == dropped.partitions);
                    }
                    lemma_membership_linked(terrain, dropped, self@);
                }
                p.blocks = saved;
                Some(p)
            },
            None => None,
        }
    }

    /// Removes every partition of chunk `chunk_idx`, as `remove_partition`
    /// does, lowest number first, and leaves every voxel of the chunk
    /// without owner. Returns the removed partitions with their occupants.
    pub fn delete_partitions_for_chunk(&mut self, chunk_idx: u32, terrain: &mut Terrain) -> (removed:
        Vec<Partition>)
        requires
            old(self).wf(),
            old(terrain).wf(),
            linked(old(terrain), old(self)@),
        ensures
            final(self).wf(),
            final(terrain).wf(),
            linked(final(terrain), final(self)@),
            final(self).same_ids(old(self)),
            final(self)@ == old(self)@.chunk_cleared(chunk_idx, old(self).next_partition_id() as nat),
            regions_true(old(self)@) ==> regions_true(final(self)@),
            forall|x: u32|
                final(self)@.partitions.contains_key(x) <==> #[trigger] old(self)@.partitions.contains_key(
                    x,
                ) && old(self)@.partitions[x].chunk_idx != chunk_idx,
            forall|x: u32| #[trigger]
                final(self)@.partitions.contains_key(x) ==> final(self)@.partitions[x] == (
                PartitionView {
                    neighbors: old(self)@.partitions[x].neighbors.filter(
                        |n: u32|
                            !(old(self)@.partitions.contains_key(n) && old(self)@.partitions[n].chunk_idx
                                == chunk_idx),
                    ),
                    ..old(self)@.partitions[x]
                }),
            final(terrain).same_but_owners(old(terrain)),
            forall|c: int, b: int|
                old(terrain).has_block(c, b) ==> (#[trigger] final(terrain).block_at(c, b)).partition_id
                    == if c == chunk_idx {
                    None
                } else {
                    old(terrain).block_at(c, b).partition_id
                },
            forall|k: int|
                0 <= k < removed@.len() ==> {
                    let p = #[trigger] removed@[k];
                    &&& old(self)@.partitions.contains_key(p.id)
                    &&& old(self)@.partitions[p.id].chunk_idx == chunk_idx
                    &&& p@ == (PartitionView {
                        neighbors: Set::empty(),
                        ..old(self)@.partitions[p.id]
                    })
                },
            forall|j: int, k: int|
                0 <= j < k < removed@.len() ==> (#[trigger] removed@[j]).id < (#[trigger] removed@[k]).id,
            forall|x: u32|
                #[trigger] old(self)@.partitions.contains_key(x) && old(self)@.partitions[x].chunk_idx
                    == chunk_idx ==> exists|k: int|
                    0 <= k < removed@.len() && (#[trigger] removed@[k]).id == x,
    {
        let ghost start = self@;
        let ghost first = *terrain;
        let mut removed: Vec<Partition> = Vec::new();
        let count = self.partitions.len();
        let mut i: usize = 0;
        proof {
            old(self).lemma_next_ids();
            assert forall|x: u32| #[trigger] self@.partitions.contains_key(x) implies self@.partitions[x]
                == (PartitionView {
                neighbors: start.partitions[x].neighbors.filter(|n: u32| !start.doomed(chunk_idx, 0, n)),
                ..start.partitions[x]
            }) by {
                assert(start.partitions[x].neighbors.filter(|n: u32| !start.doomed(chunk_idx, 0, n))
                    =~= start.partitions[x].neighbors);
            }
        }
        while i < count
            invariant
                self.wf(),
                terrain.wf(),
                linked(terrain, self@),
                self.same_ids(old(self)),
                start == old(self)@,
                first == *old(terrain),
                start.wf(),
                linked(&first, start),
                count == old(self).next_partition_id(),
                count <= u32::MAX,
                i <= count,
                self@ == start.chunk_cleared(chunk_idx, i as nat),
                regions_true(start) ==> regions_true(self@),
                forall|x: u32|
                    self@.partitions.contains_key(x) <==> #[trigger] start.partitions.contains_key(x)
                        && !start.doomed(chunk_idx, i as int, x),
                forall|x: u32| #[trigger]
                    self@.partitions.contains_key(x) ==> self@.partitions[x] == (PartitionView {
                        neighbors: start.partitions[x].neighbors.filter(
                            |n: u32| !start.doomed(chunk_idx, i as int, n),
                        ),
                        ..start.partitions[x]
                    }),
                terrain.same_but_owners(&first),
                forall|c: int, b: int|
                    first.has_block(c, b) ==> (#[trigger] terrain.block_at(c, b)).partition_id == if first.block_at(
                        c,
                        b,
                    ).partition_id is Some && start.doomed(
                        chunk_idx,
                        i as int,
                        first.block_at(c, b).partition_id->0,
                    ) {
                        None
                    } else {
                        first.block_at(c, b).partition_id
                    },
                forall|k: int|
                    0 <= k < removed@.len() ==> {
                        let p = #[trigger] removed@[k];
                        &&& start.doomed(chunk_idx, i as int, p.id)
                        &&& p@ == (PartitionView { neighbors: Set::empty(), ..start.partitions[p.id] })
                    },
                forall|j: int, k: int|
                    0 <= j < k < removed@.len() ==> (#[trigger] removed@[j]).id < (
                    #[trigger] removed@[k]).id,
                forall|x: u32| #[trigger]
                    start.doomed(chunk_idx, i as int, x) ==> exists|k: int|
                        0 <= k < removed@.len() && (#[trigger] removed@[k]).id == x,
            decreases count - i,
        {
            let id = i as u32;
            let ghost before = self@;
            let ghost mid = *terrain;
            let ghost had = removed@;
            let doomed = match self.get_partition(id) {
                Some(p) => p.chunk_idx == chunk_idx,
                None => false,
            };
            if doomed {
                let gone = self.remove_partition(id, terrain);
                proof {
                    lemma_removed_facts(before, id);
                    if regions_true(before) {
                        lemma_removed_regions(before, id);
                    }
                }
                match gone {
                    Some(p) => {
                        removed.push(p);
                    },
                    None => {},
                }
            }
            proof {
                assert(doomed == start.doomed(chunk_idx, i as int + 1, id));
                assert forall|x: u32|
                    self@.partitions.contains_key(x) <==> #[trigger] start.partitions.contains_key(x)
                        && !start.doomed(chunk_idx, i as int + 1, x) by {
                    if x != id {
                        assert(start.doomed(chunk_idx, i as int + 1, x) == start.doomed(
                            chunk_idx,
                            i as int,
                            x,
                        ));
                        assert(before.partitions.contains_key(x) == self@.partitions.contains_key(x));
                    }
                }
                assert forall|x: u32| #[trigger] self@.partitions.contains_key(x) implies self@.partitions[x]
                    == (PartitionView {
                    neighbors: start.partitions[x].neighbors.filter(
                        |n: u32| !start.doomed(chunk_idx, i as int + 1, n),
                    ),
                    ..start.partitions[x]
                }) by {
                    assert(before.partitions.contains_key(x));
                    let was = start.partitions[x].neighbors.filter(
                        |n: u32| !start.doomed(chunk_idx, i as int, n),
                    );
                    let is = start.partitions[x].neighbors.filter(
                        |n: u32| !start.doomed(chunk_idx, i as int + 1, n),
                    );
                    if doomed {
                        assert(was.remove(id) =~= is);
                    } else {
                        assert(was =~= is);
                    }
                }
                assert forall|c: int, b: int| first.has_block(c, b) implies (#[trigger] terrain.block_at(
                    c,
                    b,
                )).partition_id == if first.block_at(c, b).partition_id is Some && start.doomed(
                    chunk_idx,
                    i as int + 1,
                    first.block_at(c, b).partition_id->0,
                ) {
                    None
                } else {
                    first.block_at(c, b).partition_id
                } by {
                    assert(mid.has_block(c, b));
                    let m = mid.block_at(c, b);
                    if first.block_at(c, b).partition_id is Some {
                        let q = first.block_at(c, b).partition_id->0;
                        assert(start.partitions.contains_key(q));
                        if q != id {
                            assert(start.doomed(chunk_idx, i as int + 1, q) == start.doomed(
                                chunk_idx,
                                i as int,
                                q,
                            ));
                        }
                    }
                }
                assert forall|c: int, b: int| first.has_block(c, b) implies #[trigger] terrain.block_at(
                    c,
                    b,
                ) == (crate::block::Block {
                    partition_id: terrain.block_at(c, b).partition_id,
                    ..first.block_at(c, b)
                }) by {
                    assert(mid.has_block(c, b));
                    let m = mid.block_at(c, b);
                }
                assert forall|k: int| 0 <= k < removed@.len() implies {
                    let p = #[trigger] removed@[k];
                    &&& start.doomed(chunk_idx, i as int + 1, p.id)
                    &&& p@ == (PartitionView { neighbors: Set::empty(), ..start.partitions[p.id] })
                } by {
                    if k < had.len() {
                        assert(removed@[k] == had[k]);
                        assert(start.doomed(chunk_idx, i as int, had[k].id));
                    } else {
                        assert(before.partitions.contains_key(id));
                    }
                }
                assert forall|j: int, k: int| 0 <= j < k < removed@.len() implies (
                #[trigger] removed@[j]).id < (#[trigger] removed@[k]).id by {
                    if k < had.len() {
                        assert(removed@[j] == had[j]);
                        assert(removed@[k] == had[k]);
                    } else {
                        assert(removed@[j] == had[j]);
                        assert(start.doomed(chunk_idx, i as int, had[j].id));
                    }
                }
                assert forall|x: u32| #[trigger] start.doomed(chunk_idx, i as int + 1, x) implies exists|
                    k: int,
                | 0 <= k < removed@.len() && (#[trigger] removed@[k]).id == x by {
                    if x == id {
                        assert(before.partitions.contains_key(id));
                        assert(removed@[removed@.len() - 1].id == id);
                    } else {
                        assert(start.doomed(chunk_idx, i as int, x));
                        let k = choose|k: int| 0 <= k < had.len() && (#[trigger] had[k]).id == x;
                        assert(removed@[k] == had[k]);
                    }
                }
                assert(before.partitions.contains_key(id) ==> before.partitions[id].chunk_idx
                    == start.partitions[id].chunk_idx);
            }
            i += 1;
        }
        proof {
            assert forall|x: u32|
                self@.partitions.contains_key(x) <==> #[trigger] start.partitions.contains_key(x)
                    && start.partitions[x].chunk_idx != chunk_idx by {
                if start.partitions.contains_key(x) {
                    assert(x < count);
                }
            }
            assert forall|x: u32| #[trigger] self@.partitions.contains_key(x) implies self@.partitions[x]
                == (PartitionView {
                neighbors: start.partitions[x].neighbors.filter(
                    |n: u32|
                        !(start.partitions.contains_key(n) && start.partitions[n].chunk_idx == chunk_idx),
                ),
                ..start.partitions[x]
            }) by {
                let was = start.partitions[x].neighbors.filter(
                    |n: u32| !start.doomed(chunk_idx, count as int, n),
                );
                let is = start.partitions[x].neighbors.filter(
                    |n: u32|
                        !(start.partitions.contains_key(n) && start.partitions[n].chunk_idx == chunk_idx),
                );
                assert forall|n: u32| was.contains(n) == is.contains(n) by {
                    if start.partitions.contains_key(n) {
                        assert(n < count);
                    }
                }
                assert(was =~= is);
            }
            assert forall|c: int, b: int| first.has_block(c, b) implies (#[trigger] terrain.block_at(
                c,
                b,
            )).partition_id == if c == chunk_idx {
                None
            } else {
                first.block_at(c, b).partition_id
            } by {
                if first.block_at(c, b).partition_id is Some {
                    let q = first.block_at(c, b).partition_id->0;
                    assert(start.partitions.contains_key(q));
                    assert(q < count);
                    assert(start.partitions[q].chunk_idx == c);
                }
            }
            assert forall|x: u32|
                #[trigger] start.partitions.contains_key(x) && start.partitions[x].chunk_idx
                    == chunk_idx implies exists|k: int|
                0 <= k < removed@.len() && (#[trigger] removed@[k]).id == x by {
                assert(x < count);
                assert(start.doomed(chunk_idx, count as int, x));
            }
        }
        removed
    }

    /// Whether there is a number left for one more partition and for one
    /// more region.
    pub fn has_room(&self) -> (b: bool)
        requires
            self.wf(),
        ensures
            b == (self.next_partition_id() < u32::MAX && self.next_region_id() < u32::MAX),
    {
        self.partitions.len() < u32::MAX as usize && self.regions.len() < u32::MAX as usize
    }

    /// Adjacency among partitions is mutual.
    pub proof fn lemma_adjacency_symmetric(&self, a: u32, b: u32)
        requires
            self.wf(),
            self@.partitions.contains_key(a),
            self@.partitions.contains_key(b),
        ensures
            self@.partitions[a].neighbors.contains(b) <==> self@.partitions[b].neighbors.contains(a),
    {
        if self@.partitions[a].neighbors.contains(b) {
            assert(self@.adjacent(a, b));
        }
        if self@.partitions[b].neighbors.contains(a) {
            assert(self@.adjacent(b, a));
        }
    }
}

} // verus!
