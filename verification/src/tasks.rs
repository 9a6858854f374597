//! Tasks of a walker that have to do with items and jobs.
use crate::graph::GraphView;
use crate::graph::PartitionGraph;
use crate::inventory::ItemTag;
use crate::search::astar;
use crate::search::is_walk;
use crate::search::SearchSpace;
use vstd::prelude::*;

verus! {

/// The task of finding the nearest free item that has all the given tags.
#[derive(Clone, Debug)]
pub struct TaskFindNearestItem(pub Vec<ItemTag>);

/// The task of giving a job back to the queue.
#[derive(Clone, Copy, Debug)]
pub struct TaskJobUnassign;

/// Partition `p` holds one of the occupants `wanted`.
pub open spec fn holds_wanted(graph: GraphView, wanted: Seq<u64>, p: u32) -> bool {
    exists|i: int|
        0 <= i < wanted.len() && graph.partitions.contains_key(p) && graph.partitions[p].occupants.contains(
            #[trigger] wanted[i],
        )
}

/// A non-empty sequence of partitions, each a neighbour of the one before.
pub open spec fn neighbor_walk(graph: GraphView, p: Seq<u32>) -> bool {
    &&& p.len() > 0
    &&& forall|i: int| 0 <= i < p.len() - 1 ==> graph.adjacent(#[trigger] p[i], p[i + 1])
}

/// The partitions as a graph in which every neighbour is one step away and
/// the goals are the partitions that hold a wanted occupant.
pub struct HolderSpace<'a> {
    pub graph: &'a PartitionGraph,
    pub wanted: &'a Vec<u64>,
}

/// Whether `list` holds `occupant`.
fn holds_occupant(list: &Vec<u64>, occupant: u64) -> (found: bool)
    ensures
        found == list@.contains(occupant),
{
    let mut i: usize = 0;
    while i < list.len()
        invariant
            i <= list.len(),
            forall|k: int| 0 <= k < i ==> list@[k] != occupant,
        decreases list.len() - i,
    {
        if list[i] == occupant {
            return true;
        }
        i += 1;
    }
    false
}

/// The occupants of partition `id` that are wanted, each once.
fn wanted_in(graph: &PartitionGraph, wanted: &Vec<u64>, id: u32) -> (r: Vec<u64>)
    ensures
        forall|o: u64|
            r@.contains(o) <==> graph@.partitions.contains_key(id) && graph@.partitions[id].occupants.contains(
                o,
            ) && wanted@.contains(o),
        r@.len() > 0 <==> holds_wanted(graph@, wanted@, id),
        r@.no_duplicates(),
{
    let mut r: Vec<u64> = Vec::new();
    match graph.get_partition(id) {
        Some(p) => {
            let list = p.occupant_list();
            let mut i: usize = 0;
            while i < list.len()
                invariant
                    i <= list.len(),
                    list@.no_duplicates(),
                    r@.no_duplicates(),
                    forall|o: u64|
                        r@.contains(o) <==> (exists|k: int| 0 <= k < i && #[trigger] list@[k] == o)
                            && wanted@.contains(o),
                decreases list.len() - i,
            {
                let o = list[i];
                let ghost had = r@;
                if holds_occupant(wanted, o) {
                    r.push(o);
                }
                proof {
                    assert(r@.no_duplicates()) by {
                        if had.contains(o) {
                            let k = choose|k: int| 0 <= k < i && #[trigger] list@[k] == o;
                            assert(list@[k] == list@[i as int]);
                        }
                        assert forall|a: int, b: int| 0 <= a < r@.len() && 0 <= b < r@.len() && a
                            != b implies r@[a] != r@[b] by {
                            if a < had.len() && b < had.len() {
                                assert(had[a] != had[b]);
                            } else if a < had.len() {
                                assert(had.contains(had[a]));
                            } else if b < had.len() {
                                assert(had.contains(had[b]));
                            }
                        }
                    }
                    assert forall|x: u64|
                        r@.contains(x) <==> (exists|k: int| 0 <= k < i + 1 && #[trigger] list@[k] == x)
                            && wanted@.contains(x) by {
                        if r@.contains(x) {
                            let at = choose|at: int| 0 <= at < r@.len() && r@[at] == x;
                            if at < had.len() {
                                assert(had[at] == x);
                                assert(had.contains(x));
                                let k = choose|k: int| 0 <= k < i && #[trigger] list@[k] == x;
                                assert(list@[k] == x);
                            } else {
                                assert(list@[i as int] == x);
                            }
                        }
                        if (exists|k: int| 0 <= k < i + 1 && #[trigger] list@[k] == x)
                            && wanted@.contains(x) {
                            let k = choose|k: int| 0 <= k < i + 1 && #[trigger] list@[k] == x;
                            if k < i {
                                assert(had.contains(x));
                                let at = choose|at: int| 0 <= at < had.len() && had[at] == x;
                                assert(r@[at] == x);
                            } else {
                                assert(r@[r@.len() - 1] == x);
                            }
                        }
                    }
                }
                i += 1;
            }
            proof {
                assert forall|o: u64|
                    r@.contains(o) <==> graph@.partitions[id].occupants.contains(o) && wanted@.contains(
                        o,
                    ) by {
                    if r@.contains(o) {
                        let k = choose|k: int| 0 <= k < list@.len() && #[trigger] list@[k] == o;
                        assert(list@.contains(o));
                    }
                    if graph@.partitions[id].occupants.contains(o) && wanted@.contains(o) {
                        assert(list@.contains(o));
                        let k = choose|k: int| 0 <= k < list@.len() && list@[k] == o;
                        assert(list@[k] == o);
                    }
                }
            }
        },
        None => {},
    }
    proof {
        if r@.len() > 0 {
            let o = r@[0];
            assert(r@.contains(o));
            let i = choose|i: int| 0 <= i < wanted@.len() && wanted@[i] == o;
            assert(graph@.partitions[id].occupants.contains(wanted@[i]));
        }
        if holds_wanted(graph@, wanted@, id) {
            let i = choose|i: int|
                0 <= i < wanted@.len() && graph@.partitions.contains_key(id)
                    && graph@.partitions[id].occupants.contains(#[trigger] wanted@[i]);
            assert(wanted@.contains(wanted@[i]));
            assert(r@.contains(wanted@[i]));
        }
    }
    r
}

impl<'a> SearchSpace for HolderSpace<'a> {
    type Node = u32;

    open spec fn valid(&self) -> bool {
        self.graph.wf()
    }

    open spec fn node_ok(&self, n: u32) -> bool {
        self.graph@.partitions.contains_key(n)
    }

    open spec fn key_of(&self, n: u32) -> u64 {
        n as u64
    }

    open spec fn goal(&self, n: u32) -> bool {
        holds_wanted(self.graph@, self.wanted@, n)
    }

    open spec fn edge(&self, a: u32, b: u32) -> bool {
        self.graph@.adjacent(a, b)
    }

    proof fn lemma_key_injective(&self, a: u32, b: u32) {
    }

    proof fn lemma_edge_ok(&self, a: u32, b: u32) {
        assert(self.graph@.adjacent(b, a));
    }

    fn key(&self, n: &u32) -> (k: u64) {
        *n as u64
    }

    fn is_goal(&self, n: &u32) -> (b: bool) {
        wanted_in(self.graph, self.wanted, *n).len() > 0
    }

    fn neighbors(&self, n: &u32) -> (r: Vec<u32>) {
        match self.graph.get_partition(*n) {
            Some(p) => p.neighbor_list(),
            None => Vec::new(),
        }
    }

    open spec fn step_cost(&self, a: u32, b: u32) -> u64 {
        1
    }

    open spec fn estimate(&self, n: u32) -> u64 {
        0
    }

    fn cost(&self, a: &u32, b: &u32) -> (c: u64) {
        1
    }

    fn heuristic(&self, n: &u32) -> (h: u64) {
        0
    }
}

/// A walk over neighbours costs one for each step.
proof fn lemma_hops(space: &HolderSpace, p: Seq<u32>)
    requires
        p.len() > 0,
    ensures
        crate::search::walk_cost(space, p) == p.len() - 1,
    decreases p.len(),
{
    if p.len() > 1 {
        lemma_hops(space, p.drop_last());
    }
}

/// The wanted occupants of the partition nearest to partition `start_id`
/// that holds any, where every neighbour is one step away and partitions
/// are tried in the order in which they were met.
///
/// What is given back is never empty and holds nothing twice: it is all the
/// wanted occupants of one partition to which a walk over neighbours leads,
/// and no shorter walk leads to a partition that holds a wanted occupant.
/// Nothing is given back exactly if the start does not exist or no such walk
/// leads to a partition that holds a wanted occupant.
pub fn find_nearest(start_id: u32, graph: &PartitionGraph, wanted: &Vec<u64>) -> (r: Option<Vec<u64>>)
    requires
        graph.wf(),
    ensures
        r matches Some(found) ==> found@.len() > 0 && found@.no_duplicates() && exists|p: Seq<u32>|
            {
                &&& #[trigger] neighbor_walk(graph@, p)
                &&& p[0] == start_id
                &&& forall|o: u64|
                    found@.contains(o) <==> graph@.partitions[p.last()].occupants.contains(o)
                        && wanted@.contains(o)
                &&& forall|q: Seq<u32>|
                    #[trigger] neighbor_walk(graph@, q) && q[0] == start_id && holds_wanted(
                        graph@,
                        wanted@,
                        q.last(),
                    ) ==> p.len() <= q.len()
            },
        r is None <==> !graph@.partitions.contains_key(start_id) || (forall|p: Seq<u32>|
            #[trigger] neighbor_walk(graph@, p) && p[0] == start_id ==> !holds_wanted(
                graph@,
                wanted@,
                p.last(),
            )),
{
    if !graph.contains_partition(start_id) {
        return None;
    }
    let space = HolderSpace { graph, wanted };
    match astar(&space, start_id, usize::MAX) {
        Ok(path) => {
            let holder = path[path.len() - 1];
            let found = wanted_in(graph, wanted, holder);
            proof {
                assert(neighbor_walk(graph@, path@)) by {
                    assert forall|i: int| 0 <= i < path@.len() - 1 implies graph@.adjacent(
                        #[trigger] path@[i],
                        path@[i + 1],
                    ) by {
                        assert(space.edge(path@[i], path@[i + 1]));
                    }
                }
                assert(space.node_ok(path@[path@.len() - 1]));
                lemma_hops(&space, path@);
                assert forall|q: Seq<u32>|
                    #[trigger] neighbor_walk(graph@, q) && q[0] == start_id && holds_wanted(
                        graph@,
                        wanted@,
                        q.last(),
                    ) implies path@.len() <= q.len() by {
                    assert(is_walk(&space, q)) by {
                        assert forall|i: int| 0 <= i < q.len() - 1 implies space.edge(
                            #[trigger] q[i],
                            q[i + 1],
                        ) by {
                            assert(graph@.adjacent(q[i], q[i + 1]));
                        }
                    }
                    lemma_hops(&space, q);
                }
            }
            Some(found)
        },
        Err(crate::search::SearchFailure::Exhausted) => {
            proof {
                assert forall|p: Seq<u32>|
                    #[trigger] neighbor_walk(graph@, p) && p[0] == start_id implies !holds_wanted(
                    graph@,
                    wanted@,
                    p.last(),
                ) by {
                    assert(is_walk(&space, p)) by {
                        assert forall|i: int| 0 <= i < p.len() - 1 implies space.edge(
                            #[trigger] p[i],
                            p[i + 1],
                        ) by {
                            assert(graph@.adjacent(p[i], p[i + 1]));
                        }
                    }
                    assert(crate::search::reachable(&space, start_id, p.last()));
                }
            }
            None
        },
        Err(crate::search::SearchFailure::BudgetExceeded) => {
            proof {
                // there are fewer partitions than the search may expand
                let s = choose|s: Seq<u32>|
                    {
                        &&& #[trigger] s.no_duplicates()
                        &&& s.len() > usize::MAX
                        &&& forall|i: int|
                            0 <= i < s.len() ==> crate::search::reachable(&space, start_id, #[trigger] s[i])
                                && !space.goal(s[i])
                    };
                graph.lemma_next_ids();
                assert forall|i: int| 0 <= i < s.len() implies (#[trigger] s[i]) < u32::MAX by {
                    crate::search::lemma_reachable_ok(&space, start_id, s[i]);
                }
                crate::search::lemma_few_ids(s, u32::MAX as int);
                assert(false);
            }
            None
        },
    }
}

} // verus!
