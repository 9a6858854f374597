//! The two graphs that paths are searched on: partitions joined by
//! adjacency, and voxels joined by single steps.
use crate::distance::diagonal_cost;
use crate::distance::lemma_diagonal_triangle;
use crate::distance::lemma_offset_monotone;
use crate::distance::lemma_offset_sum;
use crate::distance::lemma_offset_weighed;
use crate::distance::Distance;
use crate::extents::Extents;
use crate::flags::lemma_intersects;
use crate::flags::PartitionFlags;
use crate::graph::GraphView;
use crate::graph::PartitionGraph;
use crate::search::consistent;
use crate::search::is_walk;
use crate::search::reachable;
use crate::search::walk_cost;
use crate::search::SearchSpace;
use crate::shape::lemma_index_injective;
use crate::terrain::Terrain;
use vstd::prelude::*;

verus! {

broadcast use vstd::array::group_array_axioms;

/// There is a step from partition `a` to its neighbour `b`, for a walker
/// with the capabilities `flags`: `b` supports one of them.
pub open spec fn region_edge(graph: GraphView, flags: PartitionFlags, a: u32, b: u32) -> bool {
    graph.adjacent(a, b) && graph.partitions[b].flags.spec_intersects(flags)
}

/// A non-empty sequence of partitions, each a step from the one before.
pub open spec fn region_walk(graph: GraphView, flags: PartitionFlags, p: Seq<u32>) -> bool {
    &&& p.len() > 0
    &&& forall|i: int| 0 <= i < p.len() - 1 ==> region_edge(graph, flags, #[trigger] p[i], p[i + 1])
}

/// Some walk leads from partition `from` to partition `to`.
pub open spec fn region_reachable(graph: GraphView, flags: PartitionFlags, from: u32, to: u32) -> bool {
    exists|p: Seq<u32>| #[trigger] region_walk(graph, flags, p) && p[0] == from && p.last() == to
}

/// The partitions as a graph to search: a step leads to a neighbour that
/// supports one of the walker's capabilities, and the goals are the
/// partitions in `goals`.
pub struct RegionSpace<'a> {
    pub graph: &'a PartitionGraph,
    /// The partitions to reach.
    pub goals: &'a Vec<u32>,
    /// The voxels by which the remaining cost is estimated: the centres of
    /// the bounding boxes of the partitions to reach.
    pub targets: &'a Vec<[i32; 3]>,
    pub flags: PartitionFlags,
}

/// The least diagonal distance from `from` to one of `targets`; zero if
/// there is none.
pub open spec fn nearest_cost(from: Seq<i32>, targets: Seq<[i32; 3]>, n: int) -> int
    decreases n,
{
    if n <= 0 {
        0
    } else if n == 1 {
        crate::distance::diagonal_cost(from, targets[0]@)
    } else {
        let rest = nearest_cost(from, targets, n - 1);
        let this = crate::distance::diagonal_cost(from, targets[n - 1]@);
        if this < rest {
            this
        } else {
            rest
        }
    }
}

/// The least diagonal distance from `from` to one of `targets`; zero if
/// there is none.
pub fn nearest_distance(from: [i32; 3], targets: &Vec<[i32; 3]>) -> (d: u64)
    ensures
        d == nearest_cost(from@, targets@, targets@.len() as int),
{
    let mut best: u64 = 0;
    let mut i: usize = 0;
    while i < targets.len()
        invariant
            i <= targets.len(),
            best == nearest_cost(from@, targets@, i as int),
        decreases targets.len() - i,
    {
        let this = Distance::diagonal(from, targets[i]);
        if i == 0 || this < best {
            best = this;
        }
        i += 1;
    }
    best
}

/// The coordinate as a signed number; the largest one if it does not fit.
pub open spec fn clamped(v: int) -> i32 {
    if v > i32::MAX {
        i32::MAX
    } else {
        v as i32
    }
}

/// The bounding-box centre of a partition, as a voxel with signed
/// coordinates; the origin for a partition that does not exist.
pub open spec fn center_of(graph: GraphView, id: u32) -> Seq<i32> {
    if graph.partitions.contains_key(id) {
        let e = graph.partitions[id].extents;
        seq![
            clamped(e.min_x + (e.max_x - e.min_x) / 2),
            clamped(e.min_y + (e.max_y - e.min_y) / 2),
            clamped(e.min_z + (e.max_z - e.min_z) / 2),
        ]
    } else {
        seq![0i32, 0i32, 0i32]
    }
}

/// The bounding-box centre of a partition, as a voxel with signed
/// coordinates.
fn signed_center(graph: &PartitionGraph, id: u32) -> (c: [i32; 3])
    requires
        graph.wf(),
    ensures
        c@ == center_of(graph@, id),
{
    broadcast use vstd::array::group_array_axioms;

    let c = match graph.get_center(id) {
        Some(c) => [clamp(c[0]), clamp(c[1]), clamp(c[2])],
        None => [0, 0, 0],
    };
    assert(c@ =~= center_of(graph@, id));
    c
}

/// The coordinate as a signed number; the largest one if it does not fit.
fn clamp(v: u32) -> (r: i32)
    ensures
        r == clamped(v as int),
{
    if v > i32::MAX as u32 {
        i32::MAX
    } else {
        v as i32
    }
}

/// Whether `list` holds `id`.
pub fn holds_id(list: &Vec<u32>, id: u32) -> (found: bool)
    ensures
        found == list@.contains(id),
{
    let mut i: usize = 0;
    while i < list.len()
        invariant
            i <= list.len(),
            forall|k: int| 0 <= k < i ==> list@[k] != id,
        decreases list.len() - i,
    {
        if list[i] == id {
            return true;
        }
        i += 1;
    }
    false
}

/// Whether `list` holds the voxel `pos`.
pub fn holds_voxel(list: &Vec<[i32; 3]>, pos: [i32; 3]) -> (found: bool)
    ensures
        found == list@.contains(pos),
{
    let mut i: usize = 0;
    while i < list.len()
        invariant
            i <= list.len(),
            forall|k: int| 0 <= k < i ==> list@[k] != pos,
        decreases list.len() - i,
    {
        let held = list[i];
        if held[0] == pos[0] && held[1] == pos[1] && held[2] == pos[2] {
            assert(held =~= pos);
            return true;
        }
        i += 1;
    }
    false
}

/// The neighbours of partition `n` that support one of the capabilities
/// `flags`, from the lowest number to the highest.
pub fn fitting_neighbors(graph: &PartitionGraph, flags: PartitionFlags, n: u32) -> (near: Vec<u32>)
    requires
        graph.wf(),
        graph@.partitions.contains_key(n),
    ensures
        crate::graph::increasing(near@),
        forall|m: u32| near@.contains(m) <==> region_edge(graph@, flags, n, m),
{
    let mut near: Vec<u32> = Vec::new();
    match graph.get_partition(n) {
        Some(p) => {
            let list = p.neighbor_list();
            let mut i: usize = 0;
            while i < list.len()
                invariant
                    i <= list.len(),
                    crate::graph::increasing(list@),
                    crate::graph::increasing(near@),
                    graph.wf(),
                    graph@.partitions.contains_key(n),
                    forall|id: u32|
                        list@.contains(id) <==> graph@.partitions[n].neighbors.contains(id),
                    forall|m: u32|
                        near@.contains(m) <==> (exists|k: int|
                            0 <= k < i && #[trigger] list@[k] == m) && graph@.partitions[m].flags.spec_intersects(
                            flags,
                        ),
                decreases list.len() - i,
            {
                let m = list[i];
                let ghost had = near@;
                if graph.get_flags(m).intersects(flags) {
                    near.push(m);
                }
                proof {
                    assert forall|u: int, v: int| 0 <= u < v < near@.len() implies near@[u] < near@[v] by {
                        if v < had.len() {
                            assert(had[u] < had[v]);
                        } else {
                            assert(had.contains(had[u]));
                            let k = choose|k: int| 0 <= k < i && #[trigger] list@[k] == had[u];
                            assert(list@[k] < list@[i as int]);
                        }
                    }
                    assert(graph@.adjacent(n, m)) by {
                        assert(list@.contains(list@[i as int]));
                    }
                    assert(graph@.adjacent(m, n));
                    assert forall|x: u32|
                        near@.contains(x) <==> (exists|k: int|
                            0 <= k < i + 1 && #[trigger] list@[k] == x) && graph@.partitions[x].flags.spec_intersects(
                            flags,
                        ) by {
                        if near@.contains(x) {
                            let at = choose|at: int| 0 <= at < near@.len() && near@[at] == x;
                            if at < had.len() {
                                assert(had[at] == x);
                                assert(had.contains(x));
                                let k = choose|k: int| 0 <= k < i && #[trigger] list@[k] == x;
                                assert(list@[k] == x);
                            } else {
                                assert(list@[i as int] == x);
                            }
                        }
                        if (exists|k: int| 0 <= k < i + 1 && #[trigger] list@[k] == x)
                            && graph@.partitions[x].flags.spec_intersects(flags) {
                            let k = choose|k: int| 0 <= k < i + 1 && #[trigger] list@[k] == x;
                            if k < i {
                                assert(had.contains(x));
                                let at = choose|at: int| 0 <= at < had.len() && had[at] == x;
                                assert(near@[at] == x);
                            } else {
                                assert(near@[near@.len() - 1] == x);
                            }
                        }
                    }
                }
                i += 1;
            }
            proof {
                assert forall|m: u32| near@.contains(m) <==> region_edge(graph@, flags, n, m) by {
                    if near@.contains(m) {
                        let k = choose|k: int| 0 <= k < list@.len() && #[trigger] list@[k] == m;
                        assert(list@.contains(m));
                    }
                    if region_edge(graph@, flags, n, m) {
                        assert(list@.contains(m));
                        let k = choose|k: int| 0 <= k < list@.len() && list@[k] == m;
                        assert(list@[k] == m);
                    }
                }
            }
        },
        None => {},
    }
    near
}

impl<'a> SearchSpace for RegionSpace<'a> {
    type Node = u32;

    open spec fn valid(&self) -> bool {
        self.graph.wf()
    }

    open spec fn node_ok(&self, n: u32) -> bool {
        self.graph@.partitions.contains_key(n)
    }

    open spec fn key_of(&self, n: u32) -> u64 {
        n as u64
    }

    open spec fn goal(&self, n: u32) -> bool {
        self.goals@.contains(n)
    }

    open spec fn edge(&self, a: u32, b: u32) -> bool {
        region_edge(self.graph@, self.flags, a, b)
    }

    proof fn lemma_key_injective(&self, a: u32, b: u32) {
    }

    proof fn lemma_edge_ok(&self, a: u32, b: u32) {
        assert(self.graph@.adjacent(a, b));
        assert(self.graph@.adjacent(b, a));
    }

    fn key(&self, n: &u32) -> (k: u64) {
        *n as u64
    }

    fn is_goal(&self, n: &u32) -> (b: bool) {
        holds_id(self.goals, *n)
    }

    fn neighbors(&self, n: &u32) -> (r: Vec<u32>) {
        fitting_neighbors(self.graph, self.flags, *n)
    }

    open spec fn step_cost(&self, a: u32, b: u32) -> u64 {
        crate::distance::diagonal_cost(center_of(self.graph@, a), center_of(self.graph@, b)) as u64
    }

    open spec fn estimate(&self, n: u32) -> u64 {
        nearest_cost(center_of(self.graph@, n), self.targets@, self.targets@.len() as int) as u64
    }

    fn cost(&self, a: &u32, b: &u32) -> (c: u64) {
        Distance::diagonal(signed_center(self.graph, *a), signed_center(self.graph, *b))
    }

    fn heuristic(&self, n: &u32) -> (h: u64) {
        nearest_distance(signed_center(self.graph, *n), self.targets)
    }
}

/// A walk in the space of partitions is a walk of partitions, and the
/// other way round.
pub proof fn lemma_region_walk(space: &RegionSpace, p: Seq<u32>)
    ensures
        is_walk(space, p) <==> region_walk(space.graph@, space.flags, p),
{
    if is_walk(space, p) {
        assert forall|i: int| 0 <= i < p.len() - 1 implies region_edge(
            space.graph@,
            space.flags,
            #[trigger] p[i],
            p[i + 1],
        ) by {
            assert(space.edge(p[i], p[i + 1]));
        }
    }
    if region_walk(space.graph@, space.flags, p) {
        assert forall|i: int| 0 <= i < p.len() - 1 implies space.edge(#[trigger] p[i], p[i + 1]) by {
            assert(region_edge(space.graph@, space.flags, p[i], p[i + 1]));
        }
    }
}

/// What can be reached in the space of partitions is what can be reached
/// among the partitions.
pub proof fn lemma_region_reachable(space: &RegionSpace, a: u32, b: u32)
    ensures
        reachable(space, a, b) <==> region_reachable(space.graph@, space.flags, a, b),
{
    if reachable(space, a, b) {
        let p = choose|p: Seq<u32>| #[trigger] is_walk(space, p) && p[0] == a && p.last() == b;
        lemma_region_walk(space, p);
        assert(region_walk(space.graph@, space.flags, p));
    }
    if region_reachable(space.graph@, space.flags, a, b) {
        let p = choose|p: Seq<u32>|
            #[trigger] region_walk(space.graph@, space.flags, p) && p[0] == a && p.last() == b;
        lemma_region_walk(space, p);
        assert(is_walk(space, p));
    }
}

/// The voxel `(x, y, z)` supports one of the capabilities `flags`.
pub open spec fn clear(terrain: &Terrain, flags: PartitionFlags, x: int, y: int, z: int) -> bool {
    terrain.voxel(x, y, z).flags.spec_intersects(flags)
}

/// A walker with the capabilities `flags` may stand on the voxel: it lies
/// in the world, supports one of the capabilities, and belongs to a
/// partition that does so too.
pub open spec fn passable(
    terrain: &Terrain,
    graph: GraphView,
    flags: PartitionFlags,
    v: [i32; 3],
) -> bool {
    &&& terrain.in_bounds(v[0] as int, v[1] as int, v[2] as int)
    &&& clear(terrain, flags, v[0] as int, v[1] as int, v[2] as int)
    &&& terrain.voxel(v[0] as int, v[1] as int, v[2] as int).partition_id matches Some(p)
    &&& graph.partitions.contains_key(p)
    &&& graph.partitions[p].flags.spec_intersects(flags)
}

/// `b` lies at the offset `(dx, dy, dz)` from `a`.
pub open spec fn offset(a: [i32; 3], dx: int, dy: int, dz: int, b: [i32; 3]) -> bool {
    b[0] == a[0] + dx && b[1] == a[1] + dy && b[2] == a[2] + dz
}

/// One move leads from `a` to `b`: a step along an axis, or a level
/// diagonal step both of whose straight halves lead to voxels that support
/// one of the capabilities, so that no corner is cut.
pub open spec fn moves(terrain: &Terrain, flags: PartitionFlags, a: [i32; 3], b: [i32; 3]) -> bool {
    let x = a[0] as int;
    let y = a[1] as int;
    let z = a[2] as int;
    let forward = clear(terrain, flags, x, y, z - 1);
    let back = clear(terrain, flags, x, y, z + 1);
    let left = clear(terrain, flags, x - 1, y, z);
    let right = clear(terrain, flags, x + 1, y, z);
    ||| offset(a, 0, 1, 0, b)
    ||| offset(a, 0, -1, 0, b)
    ||| offset(a, -1, 0, 0, b)
    ||| offset(a, 1, 0, 0, b)
    ||| offset(a, 0, 0, -1, b)
    ||| offset(a, 0, 0, 1, b)
    ||| (offset(a, -1, 0, -1, b) && forward && left)
    ||| (offset(a, 1, 0, -1, b) && forward && right)
    ||| (offset(a, -1, 0, 1, b) && back && left)
    ||| (offset(a, 1, 0, 1, b) && back && right)
}

/// There is a step from voxel `a` to voxel `b`: one move that ends on a
/// passable voxel.
pub open spec fn voxel_edge(
    terrain: &Terrain,
    graph: GraphView,
    flags: PartitionFlags,
    a: [i32; 3],
    b: [i32; 3],
) -> bool {
    moves(terrain, flags, a, b) && passable(terrain, graph, flags, b)
}

/// A non-empty sequence of voxels, each a step from the one before.
pub open spec fn voxel_walk(
    terrain: &Terrain,
    graph: GraphView,
    flags: PartitionFlags,
    p: Seq<[i32; 3]>,
) -> bool {
    &&& p.len() > 0
    &&& forall|i: int|
        0 <= i < p.len() - 1 ==> voxel_edge(terrain, graph, flags, #[trigger] p[i], p[i + 1])
}

/// Some walk leads from voxel `from` to voxel `to`.
pub open spec fn voxel_reachable(
    terrain: &Terrain,
    graph: GraphView,
    flags: PartitionFlags,
    from: [i32; 3],
    to: [i32; 3],
) -> bool {
    exists|p: Seq<[i32; 3]>|
        #[trigger] voxel_walk(terrain, graph, flags, p) && p[0] == from && p.last() == to
}

/// The voxels as a graph to search. The goal is any voxel of partition
/// `next`, if there is one, and else any of the voxels in `goals`.
pub struct VoxelSpace<'a> {
    pub terrain: &'a Terrain,
    pub graph: &'a PartitionGraph,
    pub flags: PartitionFlags,
    /// The partition to reach, on every leg of a route but the last.
    pub next: Option<u32>,
    /// The bounding box of the partition to reach.
    pub extents: Extents,
    /// The voxels to reach, on the last leg of a route.
    pub goals: &'a Vec<[i32; 3]>,
}

/// The voxel is the goal of a leg that ends in partition `next`, if there
/// is one, and else in one of `goals`.
pub open spec fn leg_goal(
    terrain: &Terrain,
    next: Option<u32>,
    goals: Seq<[i32; 3]>,
    v: [i32; 3],
) -> bool {
    match next {
        Some(id) => terrain.voxel(v[0] as int, v[1] as int, v[2] as int).partition_id == Some(id),
        None => goals.contains(v),
    }
}

impl<'a> VoxelSpace<'a> {
    /// Whether a walker may stand on the voxel.
    pub fn is_passable(&self, v: [i32; 3]) -> (b: bool)
        requires
            self.terrain.wf(),
        ensures
            b == passable(self.terrain, self.graph@, self.flags, v),
    {
        let voxel = self.terrain.get_block_i32(v[0], v[1], v[2]);
        proof {
            lemma_intersects(PartitionFlags { bits: 0 }, self.flags);
        }
        if !voxel.flags.intersects(self.flags) {
            return false;
        }
        match voxel.partition_id {
            Some(p) => {
                proof {
                    lemma_intersects(PartitionFlags { bits: 0 }, self.flags);
                }
                self.graph.get_flags(p).intersects(self.flags)
            },
            None => false,
        }
    }

    /// Whether the voxel supports one of the walker's capabilities.
    fn is_clear(&self, x: i32, y: i32, z: i32) -> (b: bool)
        requires
            self.terrain.wf(),
        ensures
            b == clear(self.terrain, self.flags, x as int, y as int, z as int),
    {
        self.terrain.get_flags(x, y, z).intersects(self.flags)
    }

    /// The voxels one move from `v`, in the order up, down, left, right,
    /// forward, back, forward left, forward right, back left, back right.
    fn moves_from(&self, v: [i32; 3]) -> (r: Vec<[i32; 3]>)
        requires
            self.terrain.wf(),
            self.terrain.in_bounds(v[0] as int, v[1] as int, v[2] as int),
        ensures
            forall|m: [i32; 3]| r@.contains(m) <==> moves(self.terrain, self.flags, v, m),
    {
        let x = v[0];
        let y = v[1];
        let z = v[2];
        let forward = self.is_clear(x, y, z - 1);
        let back = self.is_clear(x, y, z + 1);
        let left = self.is_clear(x - 1, y, z);
        let right = self.is_clear(x + 1, y, z);
        let mut r: Vec<[i32; 3]> = Vec::new();
        r.push([x, y + 1, z]);
        r.push([x, y - 1, z]);
        r.push([x - 1, y, z]);
        r.push([x + 1, y, z]);
        r.push([x, y, z - 1]);
        r.push([x, y, z + 1]);
        let ghost straight = r@;
        if forward && left {
            r.push([x - 1, y, z - 1]);
        }
        let ghost one = r@;
        if forward && right {
            r.push([x + 1, y, z - 1]);
        }
        let ghost two = r@;
        if back && left {
            r.push([x - 1, y, z + 1]);
        }
        let ghost three = r@;
        if back && right {
            r.push([x + 1, y, z + 1]);
        }
        proof {
            assert forall|m: [i32; 3]| r@.contains(m) <==> moves(self.terrain, self.flags, v, m) by {
                if r@.contains(m) {
                    let k = choose|k: int| 0 <= k < r@.len() && r@[k] == m;
                    assert(r@[k] == m);
                    if k < 6 {
                        assert(straight[k] == m);
                    } else if k < one.len() {
                        assert(one[k] == m);
                    } else if k < two.len() {
                        assert(two[k] == m);
                    } else if k < three.len() {
                        assert(three[k] == m);
                    }
                }
                if moves(self.terrain, self.flags, v, m) {
                    if offset(v, 0, 1, 0, m) {
                        assert(m =~= r@[0]);
                    } else if offset(v, 0, -1, 0, m) {
                        assert(m =~= r@[1]);
                    } else if offset(v, -1, 0, 0, m) {
                        assert(m =~= r@[2]);
                    } else if offset(v, 1, 0, 0, m) {
                        assert(m =~= r@[3]);
                    } else if offset(v, 0, 0, -1, m) {
                        assert(m =~= r@[4]);
                    } else if offset(v, 0, 0, 1, m) {
                        assert(m =~= r@[5]);
                    } else if offset(v, -1, 0, -1, m) {
                        assert(m =~= one[one.len() - 1]);
                        assert(r@[one.len() - 1] == one[one.len() - 1]);
                    } else if offset(v, 1, 0, -1, m) {
                        assert(m =~= two[two.len() - 1]);
                        assert(r@[two.len() - 1] == two[two.len() - 1]);
                    } else if offset(v, -1, 0, 1, m) {
                        assert(m =~= three[three.len() - 1]);
                        assert(r@[three.len() - 1] == three[three.len() - 1]);
                    } else {
                        assert(m =~= r@[r@.len() - 1]);
                    }
                }
            }
        }
        r
    }
}

impl<'a> SearchSpace for VoxelSpace<'a> {
    type Node = [i32; 3];

    open spec fn valid(&self) -> bool {
        self.terrain.wf()
    }

    open spec fn node_ok(&self, n: [i32; 3]) -> bool {
        self.terrain.in_bounds(n[0] as int, n[1] as int, n[2] as int)
    }

    open spec fn key_of(&self, n: [i32; 3]) -> u64 {
        self.terrain.key_of(n[0] as int, n[1] as int, n[2] as int) as u64
    }

    open spec fn goal(&self, n: [i32; 3]) -> bool {
        leg_goal(self.terrain, self.next, self.goals@, n)
    }

    open spec fn edge(&self, a: [i32; 3], b: [i32; 3]) -> bool {
        voxel_edge(self.terrain, self.graph@, self.flags, a, b)
    }

    proof fn lemma_key_injective(&self, a: [i32; 3], b: [i32; 3]) {
        self.terrain.lemma_in_bounds(a[0] as int, a[1] as int, a[2] as int);
        self.terrain.lemma_in_bounds(b[0] as int, b[1] as int, b[2] as int);
        lemma_index_injective(
            self.terrain.size_x(),
            self.terrain.size_y(),
            a[0] as int,
            a[1] as int,
            a[2] as int,
            b[0] as int,
            b[1] as int,
            b[2] as int,
        );
        assert(a =~= b);
    }

    proof fn lemma_edge_ok(&self, a: [i32; 3], b: [i32; 3]) {
    }

    fn key(&self, n: &[i32; 3]) -> (k: u64) {
        proof {
            self.terrain.lemma_in_bounds(n[0] as int, n[1] as int, n[2] as int);
        }
        self.terrain.voxel_key(n[0] as u32, n[1] as u32, n[2] as u32)
    }

    fn is_goal(&self, n: &[i32; 3]) -> (b: bool) {
        match self.next {
            Some(id) => {
                match self.terrain.get_block_i32(n[0], n[1], n[2]).partition_id {
                    Some(owner) => owner == id,
                    None => false,
                }
            },
            None => holds_voxel(self.goals, *n),
        }
    }

    fn neighbors(&self, n: &[i32; 3]) -> (r: Vec<[i32; 3]>) {
        let list = self.moves_from(*n);
        let mut near: Vec<[i32; 3]> = Vec::new();
        let mut i: usize = 0;
        while i < list.len()
            invariant
                self.terrain.wf(),
                i <= list.len(),
                forall|m: [i32; 3]|
                    near@.contains(m) <==> (exists|k: int| 0 <= k < i && #[trigger] list@[k] == m)
                        && passable(self.terrain, self.graph@, self.flags, m),
            decreases list.len() - i,
        {
            let m = list[i];
            let ghost had = near@;
            if self.is_passable(m) {
                near.push(m);
            }
            proof {
                assert forall|x: [i32; 3]|
                    near@.contains(x) <==> (exists|k: int| 0 <= k < i + 1 && #[trigger] list@[k] == x)
                        && passable(self.terrain, self.graph@, self.flags, x) by {
                    if near@.contains(x) {
                        let at = choose|at: int| 0 <= at < near@.len() && near@[at] == x;
                        if at < had.len() {
                            assert(had[at] == x);
                            assert(had.contains(x));
                            let k = choose|k: int| 0 <= k < i && #[trigger] list@[k] == x;
                            assert(list@[k] == x);
                        } else {
                            assert(list@[i as int] == x);
                        }
                    }
                    if (exists|k: int| 0 <= k < i + 1 && #[trigger] list@[k] == x) && passable(
                        self.terrain,
                        self.graph@,
                        self.flags,
                        x,
                    ) {
                        let k = choose|k: int| 0 <= k < i + 1 && #[trigger] list@[k] == x;
                        if k < i {
                            assert(had.contains(x));
                            let at = choose|at: int| 0 <= at < had.len() && had[at] == x;
                            assert(near@[at] == x);
                        } else {
                            assert(near@[near@.len() - 1] == x);
                        }
                    }
                }
            }
            i += 1;
        }
        proof {
            assert forall|m: [i32; 3]| near@.contains(m) <==> self.edge(*n, m) by {
                if near@.contains(m) {
                    let k = choose|k: int| 0 <= k < list@.len() && #[trigger] list@[k] == m;
                    assert(list@.contains(m));
                }
                if self.edge(*n, m) {
                    assert(list@.contains(m));
                    let k = choose|k: int| 0 <= k < list@.len() && list@[k] == m;
                    assert(list@[k] == m);
                }
            }
        }
        near
    }

    open spec fn step_cost(&self, a: [i32; 3], b: [i32; 3]) -> u64 {
        crate::distance::diagonal_cost(a@, b@) as u64
    }

    open spec fn estimate(&self, n: [i32; 3]) -> u64 {
        match self.next {
            Some(_) => self.extents.spec_distance_to_edge(n[0] as int, n[1] as int, n[2] as int) as u64,
            None => nearest_cost(n@, self.goals@, self.goals@.len() as int) as u64,
        }
    }

    fn cost(&self, a: &[i32; 3], b: &[i32; 3]) -> (c: u64) {
        Distance::diagonal(*a, *b)
    }

    fn heuristic(&self, n: &[i32; 3]) -> (h: u64) {
        match self.next {
            Some(_) => self.extents.distance_to_edge(n[0], n[1], n[2]),
            None => nearest_distance(*n, self.goals),
        }
    }
}

/// A walk in the space of voxels is a walk of voxels, and the other way
/// round.
pub proof fn lemma_voxel_walk(space: &VoxelSpace, p: Seq<[i32; 3]>)
    ensures
        is_walk(space, p) <==> voxel_walk(space.terrain, space.graph@, space.flags, p),
{
    if is_walk(space, p) {
        assert forall|i: int| 0 <= i < p.len() - 1 implies voxel_edge(
            space.terrain,
            space.graph@,
            space.flags,
            #[trigger] p[i],
            p[i + 1],
        ) by {
            assert(space.edge(p[i], p[i + 1]));
        }
    }
    if voxel_walk(space.terrain, space.graph@, space.flags, p) {
        assert forall|i: int| 0 <= i < p.len() - 1 implies space.edge(#[trigger] p[i], p[i + 1]) by {
            assert(voxel_edge(space.terrain, space.graph@, space.flags, p[i], p[i + 1]));
        }
    }
}

/// What can be reached in the space of voxels is what can be reached among
/// the voxels.
pub proof fn lemma_voxel_reachable(space: &VoxelSpace, a: [i32; 3], b: [i32; 3])
    ensures
        reachable(space, a, b) <==> voxel_reachable(
            space.terrain,
            space.graph@,
            space.flags,
            a,
            b,
        ),
{
    if reachable(space, a, b) {
        let p = choose|p: Seq<[i32; 3]>| #[trigger] is_walk(space, p) && p[0] == a && p.last() == b;
        lemma_voxel_walk(space, p);
        assert(voxel_walk(space.terrain, space.graph@, space.flags, p));
    }
    if voxel_reachable(space.terrain, space.graph@, space.flags, a, b) {
        let p = choose|p: Seq<[i32; 3]>|
            #[trigger] voxel_walk(space.terrain, space.graph@, space.flags, p) && p[0] == a
                && p.last() == b;
        lemma_voxel_walk(space, p);
        assert(is_walk(space, p));
    }
}

/// The length of a walk over voxels: the sum of the diagonal distances of
/// its steps.
pub open spec fn travel_cost(p: Seq<[i32; 3]>) -> int
    decreases p.len(),
{
    if p.len() <= 1 {
        0
    } else {
        travel_cost(p.drop_last()) + diagonal_cost(p[p.len() - 2]@, p[p.len() - 1]@)
    }
}

/// No two voxels are further apart than a number of 64 bits can say.
proof fn lemma_diagonal_bound(a: Seq<i32>, b: Seq<i32>)
    requires
        a.len() == 3,
        b.len() == 3,
    ensures
        0 <= diagonal_cost(a, b) <= 1732 * 0xffff_ffff,
{
    lemma_offset_monotone(
        crate::distance::abs_diff(a[0] as int, b[0] as int),
        crate::distance::abs_diff(a[1] as int, b[1] as int),
        crate::distance::abs_diff(a[2] as int, b[2] as int),
        0xffff_ffff,
        0xffff_ffff,
        0xffff_ffff,
    );
}

/// What a walk costs in the space of voxels is its length.
pub proof fn lemma_travel_cost(space: &VoxelSpace, p: Seq<[i32; 3]>)
    ensures
        walk_cost(space, p) == travel_cost(p),
    decreases p.len(),
{
    if p.len() > 1 {
        lemma_travel_cost(space, p.drop_last());
        lemma_diagonal_bound(p[p.len() - 2]@, p[p.len() - 1]@);
    }
}

proof fn lemma_nearest_bound(from: Seq<i32>, targets: Seq<[i32; 3]>, n: int)
    requires
        from.len() == 3,
        n <= targets.len(),
    ensures
        0 <= nearest_cost(from, targets, n) <= 1732 * 0xffff_ffff,
    decreases n,
{
    if n >= 1 {
        lemma_diagonal_bound(from, targets[n - 1]@);
        lemma_diagonal_bound(from, targets[0]@);
        if n > 1 {
            lemma_nearest_bound(from, targets, n - 1);
        }
    }
}

/// One step away, the nearest target is nearer by no more than the step.
proof fn lemma_nearest_step(a: Seq<i32>, b: Seq<i32>, targets: Seq<[i32; 3]>, n: int)
    requires
        a.len() == 3,
        b.len() == 3,
        n <= targets.len(),
    ensures
        nearest_cost(a, targets, n) <= diagonal_cost(a, b) + nearest_cost(b, targets, n),
    decreases n,
{
    lemma_diagonal_bound(a, b);
    if n >= 1 {
        lemma_diagonal_triangle(a, b, targets[n - 1]@);
        lemma_diagonal_triangle(a, b, targets[0]@);
        if n > 1 {
            lemma_nearest_step(a, b, targets, n - 1);
        }
    }
}

/// A target is at no distance from the nearest target.
proof fn lemma_nearest_zero(from: Seq<i32>, targets: Seq<[i32; 3]>, n: int, i: int)
    requires
        from.len() == 3,
        0 <= i < n <= targets.len(),
        targets[i]@ == from,
    ensures
        nearest_cost(from, targets, n) == 0,
    decreases n,
{
    lemma_nearest_bound(from, targets, n);
    if n > 1 {
        lemma_nearest_bound(from, targets, n - 1);
        if i < n - 1 {
            lemma_nearest_zero(from, targets, n - 1, i);
        }
    }
}

/// The box of a leg holds every voxel of the partition in which the leg
/// ends. The last leg of a route ends in no partition.
pub open spec fn leg_boxed(terrain: &Terrain, next: Option<u32>, extents: Extents) -> bool {
    match next {
        Some(id) => extents.ordered() && forall|x: int, y: int, z: int|
            terrain.in_bounds(x, y, z) && (#[trigger] terrain.voxel(x, y, z)).partition_id == Some(id)
                ==> extents.holds(x, y, z),
        None => true,
    }
}

/// Where the box of a leg holds the partition in which the leg ends, the
/// estimate of the leg is zero at every goal and falls along a step by no
/// more than the step costs: a search for the leg finds a shortest segment.
pub proof fn lemma_leg_consistent(space: &VoxelSpace)
    requires
        space.valid(),
        leg_boxed(space.terrain, space.next, space.extents),
    ensures
        consistent(space),
{
    assert forall|a: [i32; 3], b: [i32; 3]| space.node_ok(a) && #[trigger] space.edge(a, b) implies space.estimate(
        a,
    ) <= space.step_cost(a, b) + space.estimate(b) by {
        lemma_diagonal_bound(a@, b@);
        match space.next {
            Some(_) => {
                lemma_box_step(space.extents, a, b);
            },
            None => {
                let n = space.goals@.len() as int;
                lemma_nearest_bound(a@, space.goals@, n);
                lemma_nearest_bound(b@, space.goals@, n);
                lemma_nearest_step(a@, b@, space.goals@, n);
            },
        }
    }
    assert forall|n: [i32; 3]| space.node_ok(n) && #[trigger] space.goal(n) implies space.estimate(n) == 0 by {
        match space.next {
            Some(id) => {
                assert(space.terrain.voxel(n[0] as int, n[1] as int, n[2] as int).partition_id == Some(id));
                assert(space.extents.holds(n[0] as int, n[1] as int, n[2] as int));
            },
            None => {
                let i = choose|i: int| 0 <= i < space.goals@.len() && space.goals@[i] == n;
                lemma_nearest_zero(n@, space.goals@, space.goals@.len() as int, i);
            },
        }
    }
}

/// One step away, an ordered box is nearer by no more than the step, and
/// never further than a number of 64 bits can say.
proof fn lemma_box_step(e: Extents, a: [i32; 3], b: [i32; 3])
    requires
        e.ordered(),
    ensures
        0 <= e.spec_distance_to_edge(a[0] as int, a[1] as int, a[2] as int) <= 1732 * 0x1_8000_0000,
        0 <= e.spec_distance_to_edge(b[0] as int, b[1] as int, b[2] as int) <= 1732 * 0x1_8000_0000,
        e.spec_distance_to_edge(a[0] as int, a[1] as int, a[2] as int) <= diagonal_cost(a@, b@)
            + e.spec_distance_to_edge(b[0] as int, b[1] as int, b[2] as int),
{
    let ax = crate::extents::spec_outside(a[0] as int, e.min_x as int, e.max_x as int);
    let ay = crate::extents::spec_outside(a[1] as int, e.min_y as int, e.max_y as int);
    let az = crate::extents::spec_outside(a[2] as int, e.min_z as int, e.max_z as int);
    let bx = crate::extents::spec_outside(b[0] as int, e.min_x as int, e.max_x as int);
    let by = crate::extents::spec_outside(b[1] as int, e.min_y as int, e.max_y as int);
    let bz = crate::extents::spec_outside(b[2] as int, e.min_z as int, e.max_z as int);
    let dx = crate::distance::abs_diff(a[0] as int, b[0] as int);
    let dy = crate::distance::abs_diff(a[1] as int, b[1] as int);
    let dz = crate::distance::abs_diff(a[2] as int, b[2] as int);
    lemma_offset_monotone(ax, ay, az, 0x1_8000_0000, 0x1_8000_0000, 0x1_8000_0000);
    lemma_offset_monotone(bx, by, bz, 0x1_8000_0000, 0x1_8000_0000, 0x1_8000_0000);
    lemma_offset_weighed(ax, ay, az);
    lemma_offset_weighed(bx, by, bz);
    lemma_offset_monotone(ax, ay, az, dx + bx, dy + by, dz + bz);
    lemma_offset_sum(dx, dy, dz, bx, by, bz);
}

/// The length of a route over partitions: the sum of the diagonal distances
/// between the bounding-box centres of its steps.
pub open spec fn route_cost(graph: GraphView, p: Seq<u32>) -> int
    decreases p.len(),
{
    if p.len() <= 1 {
        0
    } else {
        route_cost(graph, p.drop_last()) + diagonal_cost(
            center_of(graph, p[p.len() - 2]),
            center_of(graph, p[p.len() - 1]),
        )
    }
}

/// What a walk costs in the space of partitions is its length.
pub proof fn lemma_route_cost(space: &RegionSpace, p: Seq<u32>)
    ensures
        walk_cost(space, p) == route_cost(space.graph@, p),
    decreases p.len(),
{
    if p.len() > 1 {
        lemma_route_cost(space, p.drop_last());
        lemma_diagonal_bound(center_of(space.graph@, p[p.len() - 2]), center_of(space.graph@, p[p.len() - 1]));
    }
}

/// The targets of the estimate hold the bounding-box centre of every goal
/// that exists.
pub open spec fn goals_centred(graph: GraphView, goals: Seq<u32>, targets: Seq<[i32; 3]>) -> bool {
    forall|g: u32|
        #[trigger] goals.contains(g) && graph.partitions.contains_key(g) ==> exists|i: int|
            0 <= i < targets.len() && (#[trigger] targets[i])@ == center_of(graph, g)
}

/// Where the targets hold the centre of every goal, the estimate of a route
/// is zero at every goal and falls along a step by no more than the step
/// costs: a search for a route finds a shortest one.
pub proof fn lemma_route_consistent(space: &RegionSpace)
    requires
        space.valid(),
        goals_centred(space.graph@, space.goals@, space.targets@),
    ensures
        consistent(space),
{
    let n = space.targets@.len() as int;
    assert forall|a: u32, b: u32| space.node_ok(a) && #[trigger] space.edge(a, b) implies space.estimate(a)
        <= space.step_cost(a, b) + space.estimate(b) by {
        let from = center_of(space.graph@, a);
        let to = center_of(space.graph@, b);
        lemma_diagonal_bound(from, to);
        lemma_nearest_bound(from, space.targets@, n);
        lemma_nearest_bound(to, space.targets@, n);
        lemma_nearest_step(from, to, space.targets@, n);
    }
    assert forall|g: u32| space.node_ok(g) && #[trigger] space.goal(g) implies space.estimate(g) == 0 by {
        assert(space.goals@.contains(g));
        let i = choose|i: int|
            0 <= i < space.targets@.len() && (#[trigger] space.targets@[i])@ == center_of(space.graph@, g);
        lemma_nearest_zero(center_of(space.graph@, g), space.targets@, n, i);
    }
}

} // verus!
