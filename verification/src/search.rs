//! Best-first search over a graph that is given by its neighbour function.
//!
//! The search knows nothing of voxels or partitions: a `SearchSpace` says
//! what the nodes are, which are goals, how they are joined and what a step
//! costs. Nodes wait in a frontier ordered by cost so far plus estimate, and
//! among equals by the order in which they were put there.
use std::collections::HashMap;
use vstd::prelude::*;

verus! {

/// The graph that a search runs on, with its goal test, step cost and
/// estimate of the remaining cost.
pub trait SearchSpace {
    type Node: Copy;

    /// The space itself is well formed.
    spec fn valid(&self) -> bool;

    /// The node belongs to the space.
    spec fn node_ok(&self, n: Self::Node) -> bool;

    /// A number that tells the nodes of the space apart.
    spec fn key_of(&self, n: Self::Node) -> u64;

    spec fn goal(&self, n: Self::Node) -> bool;

    /// There is a step from `a` to `b`.
    spec fn edge(&self, a: Self::Node, b: Self::Node) -> bool;

    proof fn lemma_key_injective(&self, a: Self::Node, b: Self::Node)
        requires
            self.valid(),
            self.node_ok(a),
            self.node_ok(b),
            self.key_of(a) == self.key_of(b),
        ensures
            a == b,
    ;

    proof fn lemma_edge_ok(&self, a: Self::Node, b: Self::Node)
        requires
            self.valid(),
            self.node_ok(a),
            self.edge(a, b),
        ensures
            self.node_ok(b),
    ;

    fn key(&self, n: &Self::Node) -> (k: u64)
        requires
            self.valid(),
            self.node_ok(*n),
        ensures
            k == self.key_of(*n),
    ;

    fn is_goal(&self, n: &Self::Node) -> (b: bool)
        requires
            self.valid(),
            self.node_ok(*n),
        ensures
            b == self.goal(*n),
    ;

    /// The nodes one step away, in the order in which they are to be tried.
    fn neighbors(&self, n: &Self::Node) -> (r: Vec<Self::Node>)
        requires
            self.valid(),
            self.node_ok(*n),
        ensures
            forall|m: Self::Node| r@.contains(m) <==> self.edge(*n, m),
    ;

    /// Cost of the step from `a` to `b`.
    spec fn step_cost(&self, a: Self::Node, b: Self::Node) -> u64;

    /// Estimate of the cost from `n` to the nearest goal.
    spec fn estimate(&self, n: Self::Node) -> u64;

    /// Cost of the step from `a` to `b`.
    fn cost(&self, a: &Self::Node, b: &Self::Node) -> (c: u64)
        requires
            self.valid(),
            self.node_ok(*a),
            self.node_ok(*b),
        ensures
            c == self.step_cost(*a, *b),
    ;

    /// Estimate of the cost from `n` to the nearest goal. The path found is
    /// a cheapest one if the estimate is zero at every goal and never falls
    /// by more than the cost of the step along a step.
    fn heuristic(&self, n: &Self::Node) -> (h: u64)
        requires
            self.valid(),
            self.node_ok(*n),
        ensures
            h == self.estimate(*n),
    ;
}

/// The cost of a walk: the sum of the costs of its steps.
pub open spec fn walk_cost<S: SearchSpace>(space: &S, p: Seq<S::Node>) -> int
    decreases p.len(),
{
    if p.len() <= 1 {
        0
    } else {
        walk_cost(space, p.drop_last()) + space.step_cost(p[p.len() - 2], p[p.len() - 1])
    }
}

/// The estimate is zero at every goal, and along a step it never falls by
/// more than the step costs.
pub open spec fn consistent<S: SearchSpace>(space: &S) -> bool {
    &&& forall|a: S::Node, b: S::Node|
        space.node_ok(a) && #[trigger] space.edge(a, b) ==> space.estimate(a) <= space.step_cost(a, b)
            + space.estimate(b)
    &&& forall|n: S::Node| space.node_ok(n) && #[trigger] space.goal(n) ==> space.estimate(n) == 0
}

/// Different numbers below `n` are no more than `n`.
pub proof fn lemma_few_numbers(s: Seq<int>, n: int)
    requires
        n >= 0,
        s.no_duplicates(),
        forall|i: int| 0 <= i < s.len() ==> 0 <= #[trigger] s[i] < n,
    ensures
        s.len() <= n,
    decreases n,
{
    if n == 0 {
        if s.len() > 0 {
            let first = s[0];
            assert(0 <= first && first < n);
        }
    } else if exists|k: int| 0 <= k < s.len() && s[k] == n - 1 {
        let k = choose|k: int| 0 <= k < s.len() && s[k] == n - 1;
        let rest = Seq::new((s.len() - 1) as nat, |i: int| if i < k { s[i] } else { s[i + 1] });
        assert forall|i: int| 0 <= i < rest.len() implies 0 <= #[trigger] rest[i] < n - 1 by {
            if i < k {
                assert(s[i] != s[k]);
            } else {
                assert(s[i + 1] != s[k]);
            }
        }
        assert forall|i: int, j: int| 0 <= i < rest.len() && 0 <= j < rest.len() && i != j implies rest[i]
            != rest[j] by {
            let a = if i < k { i } else { i + 1 };
            let b = if j < k { j } else { j + 1 };
            assert(s[a] != s[b]);
        }
        lemma_few_numbers(rest, n - 1);
    } else {
        lemma_few_numbers(s, n - 1);
    }
}

/// Different 32-bit numbers below `n` are no more than `n`.
pub proof fn lemma_few_ids(s: Seq<u32>, n: int)
    requires
        n >= 0,
        s.no_duplicates(),
        forall|i: int| 0 <= i < s.len() ==> (#[trigger] s[i]) < n,
    ensures
        s.len() <= n,
{
    let wide = Seq::new(s.len(), |i: int| s[i] as int);
    assert forall|i: int, j: int| 0 <= i < wide.len() && 0 <= j < wide.len() && i != j implies wide[i]
        != wide[j] by {
        assert(s[i] != s[j]);
    }
    assert forall|i: int| 0 <= i < wide.len() implies 0 <= #[trigger] wide[i] < n by {
        assert(s[i] < n);
    }
    lemma_few_numbers(wide, n);
}

/// What can be reached from a node of the space belongs to the space.
pub proof fn lemma_reachable_ok<S: SearchSpace>(space: &S, from: S::Node, to: S::Node)
    requires
        space.valid(),
        space.node_ok(from),
        reachable(space, from, to),
    ensures
        space.node_ok(to),
{
    let p = choose|p: Seq<S::Node>| #[trigger] is_walk(space, p) && p[0] == from && p.last() == to;
    lemma_walk_nodes(space, p, p.len() - 1);
}

/// Why a search found no path.
#[derive(Clone, Copy, Debug, PartialEq, Eq, Structural)]
pub enum SearchFailure {
    /// Every node that can be reached was tried, and none is a goal.
    Exhausted,
    /// The allowed number of nodes was expanded before a goal was met.
    BudgetExceeded,
}

/// No node occurs twice in the sequence.
#[verifier::opaque]
pub open spec fn distinct<N>(p: Seq<N>) -> bool {
    p.no_duplicates()
}

/// A non-empty sequence of nodes, each one step from the one before.
pub open spec fn is_walk<S: SearchSpace>(space: &S, p: Seq<S::Node>) -> bool {
    &&& p.len() > 0
    &&& forall|i: int| 0 <= i < p.len() - 1 ==> space.edge(#[trigger] p[i], p[i + 1])
}

/// Some walk leads from `from` to `to`.
pub open spec fn reachable<S: SearchSpace>(space: &S, from: S::Node, to: S::Node) -> bool {
    exists|p: Seq<S::Node>| #[trigger] is_walk(space, p) && p[0] == from && p.last() == to
}

/// A node is reachable from itself.
pub proof fn lemma_reachable_self<S: SearchSpace>(space: &S, a: S::Node)
    ensures
        reachable(space, a, a),
{
    let p = seq![a];
    assert(is_walk(space, p));
    assert(p[0] == a && p.last() == a);
}

/// What is one step from a reachable node is reachable.
pub proof fn lemma_reachable_step<S: SearchSpace>(space: &S, a: S::Node, b: S::Node, c: S::Node)
    requires
        reachable(space, a, b),
        space.edge(b, c),
    ensures
        reachable(space, a, c),
{
    let p = choose|p: Seq<S::Node>| #[trigger] is_walk(space, p) && p[0] == a && p.last() == b;
    let q = p.push(c);
    assert forall|i: int| 0 <= i < q.len() - 1 implies space.edge(#[trigger] q[i], q[i + 1]) by {
        if i < p.len() - 1 {
            assert(q[i] == p[i]);
            assert(q[i + 1] == p[i + 1]);
        } else {
            assert(q[i] == p.last());
        }
    }
    assert(is_walk(space, q));
    assert(q[0] == a && q.last() == c);
}

/// What the search knows of one node it has met.
struct Visit<N> {
    node: N,
    /// The visit from which this node was reached most cheaply.
    parent: usize,
    /// Number of steps from the start along the parents.
    depth: usize,
    /// Cost from the start along the parents.
    cost: u128,
    /// The node was expanded; nothing of it changes any more.
    closed: bool,
}

/// An entry of the frontier.
struct Pending {
    /// Cost so far plus estimate.
    rank: u128,
    /// Position in the order of insertion.
    order: u64,
    visit: usize,
}

/// `a` leaves the frontier before `b`.
spec fn goes_before(a: Pending, b: Pending) -> bool {
    a.rank < b.rank || (a.rank == b.rank && a.order < b.order)
}

/// Index of the entry that leaves the frontier next: the lowest rank, and
/// among those the earliest insertion.
fn best_index(frontier: &Vec<Pending>) -> (best: usize)
    requires
        frontier.len() > 0,
    ensures
        best < frontier.len(),
        forall|j: int| 0 <= j < frontier.len() ==> !goes_before(#[trigger] frontier[j], frontier[best as int]),
{
    let mut best: usize = 0;
    let mut j: usize = 1;
    while j < frontier.len()
        invariant
            best < frontier.len(),
            1 <= j <= frontier.len(),
            forall|t: int| 0 <= t < j ==> !goes_before(#[trigger] frontier[t], frontier[best as int]),
        decreases frontier.len() - j,
    {
        let candidate = &frontier[j];
        let held = &frontier[best];
        if candidate.rank < held.rank || (candidate.rank == held.rank && candidate.order < held.order) {
            best = j;
        }
        j += 1;
    }
    best
}

/// What a running search holds.
struct Progress<N> {
    visits: Seq<Visit<N>>,
    index: Map<u64, usize>,
    frontier: Seq<Pending>,
    /// The closed nodes, in the order in which they were closed.
    done: Seq<N>,
}

/// The first visit is the start, and every other visit hangs below a closed
/// visit, one step and one level further.
spec fn tree_ok<S: SearchSpace>(space: &S, start: S::Node, visits: Seq<Visit<S::Node>>) -> bool {
    &&& visits.len() > 0
    &&& visits[0].node == start
    &&& visits[0].depth == 0
    &&& forall|v: int| 0 <= v < visits.len() ==> space.node_ok((#[trigger] visits[v]).node)
    &&& forall|v: int|
        #![trigger visits[v]]
        0 < v < visits.len() ==> {
            let p = visits[v].parent as int;
            &&& 0 <= p < visits.len()
            &&& visits[p].closed
            &&& visits[v].depth == visits[p].depth + 1
            &&& space.edge(visits[p].node, visits[v].node)
        }
}

/// The index maps the key of each met node to its visit, and nothing else.
spec fn index_ok<S: SearchSpace>(space: &S, visits: Seq<Visit<S::Node>>, index: Map<u64, usize>) -> bool {
    &&& forall|k: u64| #[trigger]
        index.contains_key(k) ==> (index[k] as int) < visits.len() && space.key_of(
            visits[index[k] as int].node,
        ) == k
    &&& forall|v: int|
        #![trigger visits[v]]
        0 <= v < visits.len() ==> index.contains_key(space.key_of(visits[v].node)) && index[space.key_of(
            visits[v].node,
        )] == v
}

/// Every node one step from `n` has been met.
spec fn all_met<S: SearchSpace>(space: &S, index: Map<u64, usize>, n: S::Node) -> bool {
    forall|m: S::Node| #[trigger] space.edge(n, m) ==> index.contains_key(space.key_of(m))
}

/// No closed node is a goal, and every closed node but the one in focus has
/// all its neighbours met.
spec fn closed_ok<S: SearchSpace>(
    space: &S,
    visits: Seq<Visit<S::Node>>,
    index: Map<u64, usize>,
    focus: int,
) -> bool {
    forall|v: int|
        #![trigger visits[v]]
        0 <= v < visits.len() && visits[v].closed ==> !space.goal(visits[v].node) && (v != focus
            ==> all_met(space, index, visits[v].node))
}

spec fn all_reachable<S: SearchSpace>(space: &S, start: S::Node, visits: Seq<Visit<S::Node>>) -> bool {
    forall|v: int| 0 <= v < visits.len() ==> reachable(space, start, (#[trigger] visits[v]).node)
}

/// Some entry of the frontier stands for visit `v`.
spec fn queued(frontier: Seq<Pending>, v: int) -> bool {
    exists|j: int| 0 <= j < frontier.len() && (#[trigger] frontier[j]).visit == v
}

/// Every entry stands for a visit, and every open visit but the one in focus
/// has an entry.
spec fn frontier_ok<N>(visits: Seq<Visit<N>>, frontier: Seq<Pending>, focus: int) -> bool {
    &&& forall|j: int| 0 <= j < frontier.len() ==> (#[trigger] frontier[j]).visit < visits.len()
    &&& forall|v: int|
        #![trigger visits[v]]
        0 <= v < visits.len() && !visits[v].closed && v != focus ==> queued(frontier, v)
}

/// The closed nodes are all different, all reachable, none a goal, and a
/// visit lies no deeper than the number of nodes closed before it.
spec fn done_ok<S: SearchSpace>(
    space: &S,
    start: S::Node,
    visits: Seq<Visit<S::Node>>,
    index: Map<u64, usize>,
    done: Seq<S::Node>,
) -> bool {
    &&& done.no_duplicates()
    &&& done.len() == 0 ==> visits.len() == 1
    &&& done.len() > 0 ==> visits[0].closed
    &&& forall|i: int|
        #![trigger done[i]]
        0 <= i < done.len() ==> {
            &&& space.node_ok(done[i])
            &&& reachable(space, start, done[i])
            &&& !space.goal(done[i])
            &&& index.contains_key(space.key_of(done[i]))
            &&& visits[index[space.key_of(done[i])] as int].closed
        }
    &&& forall|v: int|
        #![trigger visits[v]]
        0 <= v < visits.len() ==> visits[v].depth <= done.len() && (visits[v].closed ==> visits[v].depth
            < done.len())
}

/// What holds of a running search between two steps. The visit in focus, if
/// any, has left the frontier and is being expanded.
#[verifier::opaque]
spec fn search_ok<S: SearchSpace>(space: &S, start: S::Node, at: Progress<S::Node>, focus: int) -> bool {
    &&& tree_ok(space, start, at.visits)
    &&& index_ok(space, at.visits, at.index)
    &&& closed_ok(space, at.visits, at.index, focus)
    &&& all_reachable(space, start, at.visits)
    &&& frontier_ok(at.visits, at.frontier, focus)
    &&& done_ok(space, start, at.visits, at.index, at.done)
}

proof fn lemma_first<S: SearchSpace>(space: &S, start: S::Node, at: Progress<S::Node>)
    requires
        space.valid(),
        space.node_ok(start),
        at.visits =~= seq![Visit { node: start, parent: 0, depth: 0, cost: 0, closed: false }],
        at.index =~= Map::<u64, usize>::empty().insert(space.key_of(start), 0),
        at.frontier.len() == 1,
        at.frontier[0].visit == 0,
        at.done =~= Seq::<S::Node>::empty(),
    ensures
        search_ok(space, start, at, -1),
{
    reveal(search_ok);
    lemma_reachable_self(space, start);
    assert(queued(at.frontier, 0));
}

/// Taking an entry out of the frontier puts its visit in focus.
proof fn lemma_pop<S: SearchSpace>(
    space: &S,
    start: S::Node,
    at: Progress<S::Node>,
    slot: int,
    after: Progress<S::Node>,
)
    requires
        search_ok(space, start, at, -1),
        0 <= slot < at.frontier.len(),
        after.visits == at.visits,
        after.index == at.index,
        after.done == at.done,
        after.frontier == at.frontier.update(slot, at.frontier.last()).drop_last(),
    ensures
        at.frontier[slot].visit < at.visits.len(),
        search_ok(space, start, after, at.frontier[slot].visit as int),
        at.visits[at.frontier[slot].visit as int].closed ==> search_ok(space, start, after, -1),
        space.node_ok(at.visits[at.frontier[slot].visit as int].node),
        tree_ok(space, start, at.visits),
{
    reveal(search_ok);
    let cur = at.frontier[slot].visit as int;
    assert forall|v: int|
        #![trigger after.visits[v]]
        0 <= v < after.visits.len() && !after.visits[v].closed && v != cur implies queued(
        after.frontier,
        v,
    ) by {
        assert(queued(at.frontier, v));
        let j = choose|j: int| 0 <= j < at.frontier.len() && (#[trigger] at.frontier[j]).visit == v;
        if j == at.frontier.len() - 1 {
            assert(after.frontier[slot].visit == v);
        } else {
            assert(after.frontier[j].visit == v);
        }
    }
    assert forall|j: int| 0 <= j < after.frontier.len() implies (#[trigger] after.frontier[j]).visit
        < after.visits.len() by {
        if j == slot {
            assert(at.frontier[at.frontier.len() - 1].visit < at.visits.len());
        } else {
            assert(at.frontier[j].visit < at.visits.len());
        }
    }
    assert(frontier_ok(after.visits, after.frontier, cur));
    assert(closed_ok(space, after.visits, after.index, cur));
}

/// An open visit in focus that is no goal is one more node beyond those
/// closed so far.
proof fn lemma_over_budget<S: SearchSpace>(space: &S, start: S::Node, at: Progress<S::Node>, cur: int)
    requires
        space.valid(),
        search_ok(space, start, at, cur),
        0 <= cur < at.visits.len(),
        !at.visits[cur].closed,
        !space.goal(at.visits[cur].node),
    ensures
        at.done.push(at.visits[cur].node).no_duplicates(),
        forall|i: int|
            0 <= i <= at.done.len() ==> reachable(
                space,
                start,
                #[trigger] at.done.push(at.visits[cur].node)[i],
            ) && !space.goal(at.done.push(at.visits[cur].node)[i]),
{
    reveal(search_ok);
    let node = at.visits[cur].node;
    let s = at.done.push(node);
    assert(at.index[space.key_of(at.visits[cur].node)] == cur);
    assert forall|i: int| 0 <= i < at.done.len() implies #[trigger] at.done[i] != node by {
        if at.done[i] == node {
            assert(at.visits[at.index[space.key_of(at.done[i])] as int].closed);
        }
    }
    assert(reachable(space, start, at.visits[cur].node));
    assert forall|i: int| 0 <= i <= at.done.len() implies reachable(space, start, #[trigger] s[i])
        && !space.goal(s[i]) by {
        if i < at.done.len() {
            assert(s[i] == at.done[i]);
        }
    }
}

/// Closing the open visit in focus.
proof fn lemma_close<S: SearchSpace>(
    space: &S,
    start: S::Node,
    at: Progress<S::Node>,
    cur: int,
    after: Progress<S::Node>,
)
    requires
        space.valid(),
        search_ok(space, start, at, cur),
        0 <= cur < at.visits.len(),
        !at.visits[cur].closed,
        !space.goal(at.visits[cur].node),
        after.visits == at.visits.update(
            cur,
            Visit {
                node: at.visits[cur].node,
                parent: at.visits[cur].parent,
                depth: at.visits[cur].depth,
                cost: at.visits[cur].cost,
                closed: true,
            },
        ),
        after.index == at.index,
        after.frontier == at.frontier,
        after.done == at.done.push(at.visits[cur].node),
    ensures
        search_ok(space, start, after, cur),
        at.visits[cur].depth < after.done.len(),
{
    reveal(search_ok);
    lemma_over_budget(space, start, at, cur);
    let before = at.visits;
    let visits = after.visits;
    let node = before[cur].node;
    assert forall|v: int| 0 <= v < visits.len() implies (#[trigger] visits[v]).node == before[v].node
        && visits[v].depth == before[v].depth && visits[v].parent == before[v].parent && (
    visits[v].closed == (before[v].closed || v == cur)) by {}
    assert forall|v: int|
        #![trigger visits[v]]
        0 < v < visits.len() implies {
        let p = visits[v].parent as int;
        &&& 0 <= p < visits.len()
        &&& visits[p].closed
        &&& visits[v].depth == visits[p].depth + 1
        &&& space.edge(visits[p].node, visits[v].node)
    } by {
        let p = before[v].parent as int;
        assert(before[p].closed);
        assert(visits[p].node == before[p].node);
    }
    assert(tree_ok(space, start, visits));
    assert forall|k: u64| #[trigger] after.index.contains_key(k) implies (after.index[k] as int)
        < visits.len() && space.key_of(visits[after.index[k] as int].node) == k by {
        assert(before[at.index[k] as int].node == visits[at.index[k] as int].node);
    }
    assert(index_ok(space, visits, after.index));
    assert forall|v: int|
        #![trigger visits[v]]
        0 <= v < visits.len() && visits[v].closed implies !space.goal(visits[v].node) && (v != cur
        ==> all_met(space, after.index, visits[v].node)) by {
        if v != cur {
            assert(before[v].closed);
        }
    }
    assert forall|v: int| 0 <= v < visits.len() implies reachable(
        space,
        start,
        (#[trigger] visits[v]).node,
    ) by {
        assert(before[v].node == visits[v].node);
    }
    assert forall|v: int|
        #![trigger visits[v]]
        0 <= v < visits.len() && !visits[v].closed && v != cur implies queued(after.frontier, v) by {
        assert(!before[v].closed);
    }
    assert(frontier_ok(visits, after.frontier, cur));
    assert forall|i: int|
        #![trigger after.done[i]]
        0 <= i < after.done.len() implies {
        &&& space.node_ok(after.done[i])
        &&& reachable(space, start, after.done[i])
        &&& !space.goal(after.done[i])
        &&& after.index.contains_key(space.key_of(after.done[i]))
        &&& visits[after.index[space.key_of(after.done[i])] as int].closed
    } by {
        if i < at.done.len() {
            assert(after.done[i] == at.done[i]);
            let w = at.index[space.key_of(at.done[i])] as int;
            assert(before[w].closed);
        } else {
            assert(after.done[i] == node);
            assert(space.node_ok(before[cur].node));
            assert(at.index[space.key_of(before[cur].node)] == cur);
        }
    }
    assert forall|v: int|
        #![trigger visits[v]]
        0 <= v < visits.len() implies visits[v].depth <= after.done.len() && (visits[v].closed
        ==> visits[v].depth < after.done.len()) by {
        assert(before[v].depth <= at.done.len());
    }
    if at.done.len() == 0 {
        assert(cur == 0);
    } else {
        assert(before[0].closed);
    }
    assert(done_ok(space, start, visits, after.index, after.done));
}

/// What a look into the index tells.
proof fn lemma_lookup<S: SearchSpace>(
    space: &S,
    start: S::Node,
    at: Progress<S::Node>,
    focus: int,
    next: S::Node,
)
    requires
        space.valid(),
        search_ok(space, start, at, focus),
        space.node_ok(next),
        at.index.contains_key(space.key_of(next)),
    ensures
        at.index[space.key_of(next)] < at.visits.len(),
        at.visits[at.index[space.key_of(next)] as int].node == next,
{
    reveal(search_ok);
    let slot = at.index[space.key_of(next)] as int;
    assert(space.node_ok(at.visits[slot].node));
    space.lemma_key_injective(at.visits[slot].node, next);
}

/// A cheaper way to an open node: it gets a new parent and a new entry.
proof fn lemma_improve<S: SearchSpace>(
    space: &S,
    start: S::Node,
    at: Progress<S::Node>,
    cur: int,
    slot: int,
    cost: u128,
    entry: Pending,
    after: Progress<S::Node>,
)
    requires
        space.valid(),
        search_ok(space, start, at, cur),
        0 <= cur < at.visits.len(),
        at.visits[cur].closed,
        0 <= slot < at.visits.len(),
        !at.visits[slot].closed,
        space.edge(at.visits[cur].node, at.visits[slot].node),
        at.visits[cur].depth + 1 <= usize::MAX,
        entry.visit == slot,
        after.visits == at.visits.update(
            slot,
            Visit {
                node: at.visits[slot].node,
                parent: cur as usize,
                depth: (at.visits[cur].depth + 1) as usize,
                cost,
                closed: false,
            },
        ),
        after.index == at.index,
        after.frontier == at.frontier.push(entry),
        after.done == at.done,
    ensures
        search_ok(space, start, after, cur),
{
    reveal(search_ok);
    let before = at.visits;
    let visits = after.visits;
    assert(at.done.len() > 0) by {
        assert(before[cur].depth < at.done.len());
    }
    assert(slot != 0);
    assert forall|v: int| 0 <= v < visits.len() implies (#[trigger] visits[v]).node == before[v].node
        && visits[v].closed == before[v].closed && (v != slot ==> visits[v] == before[v]) by {}
    assert forall|v: int|
        #![trigger visits[v]]
        0 < v < visits.len() implies {
        let p = visits[v].parent as int;
        &&& 0 <= p < visits.len()
        &&& visits[p].closed
        &&& visits[v].depth == visits[p].depth + 1
        &&& space.edge(visits[p].node, visits[v].node)
    } by {
        if v != slot {
            let p = before[v].parent as int;
            assert(before[p].closed);
            assert(visits[p] == before[p]);
        } else {
            assert(visits[cur] == before[cur]);
        }
    }
    assert(tree_ok(space, start, visits));
    assert forall|k: u64| #[trigger] after.index.contains_key(k) implies (after.index[k] as int)
        < visits.len() && space.key_of(visits[after.index[k] as int].node) == k by {
        assert(before[at.index[k] as int].node == visits[at.index[k] as int].node);
    }
    assert(index_ok(space, visits, after.index));
    assert forall|v: int|
        #![trigger visits[v]]
        0 <= v < visits.len() && visits[v].closed implies !space.goal(visits[v].node) && (v != cur
        ==> all_met(space, after.index, visits[v].node)) by {
        assert(before[v].closed);
    }
    assert forall|v: int| 0 <= v < visits.len() implies reachable(
        space,
        start,
        (#[trigger] visits[v]).node,
    ) by {
        assert(before[v].node == visits[v].node);
    }
    assert forall|j: int| 0 <= j < after.frontier.len() implies (#[trigger] after.frontier[j]).visit
        < visits.len() by {
        if j < at.frontier.len() {
            assert(after.frontier[j] == at.frontier[j]);
        }
    }
    assert forall|v: int|
        #![trigger visits[v]]
        0 <= v < visits.len() && !visits[v].closed && v != cur implies queued(after.frontier, v) by {
        assert(after.frontier[at.frontier.len() as int].visit == slot);
        if v != slot {
            assert(queued(at.frontier, v));
            let j = choose|j: int| 0 <= j < at.frontier.len() && (#[trigger] at.frontier[j]).visit == v;
            assert(after.frontier[j].visit == v);
        }
    }
    assert(frontier_ok(visits, after.frontier, cur));
    assert forall|i: int|
        #![trigger after.done[i]]
        0 <= i < after.done.len() implies {
        &&& space.node_ok(after.done[i])
        &&& reachable(space, start, after.done[i])
        &&& !space.goal(after.done[i])
        &&& after.index.contains_key(space.key_of(after.done[i]))
        &&& visits[after.index[space.key_of(after.done[i])] as int].closed
    } by {
        let w = at.index[space.key_of(at.done[i])] as int;
        assert(before[w].closed);
    }
    assert forall|v: int|
        #![trigger visits[v]]
        0 <= v < visits.len() implies visits[v].depth <= after.done.len() && (visits[v].closed
        ==> visits[v].depth < after.done.len()) by {
        assert(before[v].depth <= at.done.len());
        assert(before[cur].depth < at.done.len());
    }
    assert(visits[0] == before[0]);
    assert(done_ok(space, start, visits, after.index, after.done));
}

/// A node met for the first time: it gets a visit, a key and an entry.
proof fn lemma_meet<S: SearchSpace>(
    space: &S,
    start: S::Node,
    at: Progress<S::Node>,
    cur: int,
    next: S::Node,
    cost: u128,
    entry: Pending,
    after: Progress<S::Node>,
)
    requires
        space.valid(),
        search_ok(space, start, at, cur),
        0 <= cur < at.visits.len(),
        at.visits[cur].closed,
        space.edge(at.visits[cur].node, next),
        !at.index.contains_key(space.key_of(next)),
        at.visits[cur].depth + 1 <= usize::MAX,
        entry.visit == at.visits.len(),
        after.visits == at.visits.push(
            Visit {
                node: next,
                parent: cur as usize,
                depth: (at.visits[cur].depth + 1) as usize,
                cost,
                closed: false,
            },
        ),
        after.index == at.index.insert(space.key_of(next), at.visits.len() as usize),
        after.frontier == at.frontier.push(entry),
        after.done == at.done,
    ensures
        search_ok(space, start, after, cur),
{
    reveal(search_ok);
    let before = at.visits;
    let visits = after.visits;
    let fresh = before.len() as int;
    space.lemma_edge_ok(before[cur].node, next);
    assert(reachable(space, start, before[cur].node));
    lemma_reachable_step(space, start, before[cur].node, next);
    assert forall|v: int| 0 <= v < before.len() implies #[trigger] visits[v] == before[v] by {}
    assert forall|v: int|
        #![trigger visits[v]]
        0 < v < visits.len() implies {
        let p = visits[v].parent as int;
        &&& 0 <= p < visits.len()
        &&& visits[p].closed
        &&& visits[v].depth == visits[p].depth + 1
        &&& space.edge(visits[p].node, visits[v].node)
    } by {
        if v < fresh {
            let p = before[v].parent as int;
            assert(before[p].closed);
            assert(visits[p] == before[p]);
        } else {
            assert(visits[cur] == before[cur]);
        }
    }
    assert forall|v: int| 0 <= v < visits.len() implies space.node_ok((#[trigger] visits[v]).node) by {
        if v < fresh {
            assert(visits[v] == before[v]);
        }
    }
    assert(visits[0] == before[0]);
    assert(tree_ok(space, start, visits));
    assert forall|k: u64| #[trigger] after.index.contains_key(k) implies (after.index[k] as int)
        < visits.len() && space.key_of(visits[after.index[k] as int].node) == k by {
        if k != space.key_of(next) {
            assert(at.index.contains_key(k));
            assert(before[at.index[k] as int] == visits[at.index[k] as int]);
        }
    }
    assert forall|v: int|
        #![trigger visits[v]]
        0 <= v < visits.len() implies after.index.contains_key(space.key_of(visits[v].node))
        && after.index[space.key_of(visits[v].node)] == v by {
        if v < fresh {
            assert(visits[v] == before[v]);
            assert(at.index.contains_key(space.key_of(before[v].node)));
        }
    }
    assert(index_ok(space, visits, after.index));
    assert forall|v: int|
        #![trigger visits[v]]
        0 <= v < visits.len() && visits[v].closed implies !space.goal(visits[v].node) && (v != cur
        ==> all_met(space, after.index, visits[v].node)) by {
        assert(visits[v] == before[v]);
        if v != cur {
            assert(all_met(space, at.index, before[v].node));
        }
    }
    assert forall|v: int| 0 <= v < visits.len() implies reachable(
        space,
        start,
        (#[trigger] visits[v]).node,
    ) by {
        if v < fresh {
            assert(visits[v] == before[v]);
        }
    }
    assert forall|j: int| 0 <= j < after.frontier.len() implies (#[trigger] after.frontier[j]).visit
        < visits.len() by {
        if j < at.frontier.len() {
            assert(after.frontier[j] == at.frontier[j]);
        }
    }
    assert forall|v: int|
        #![trigger visits[v]]
        0 <= v < visits.len() && !visits[v].closed && v != cur implies queued(after.frontier, v) by {
        assert(after.frontier[at.frontier.len() as int].visit == fresh);
        if v < fresh {
            assert(visits[v] == before[v]);
            assert(queued(at.frontier, v));
            let j = choose|j: int| 0 <= j < at.frontier.len() && (#[trigger] at.frontier[j]).visit == v;
            assert(after.frontier[j].visit == v);
        }
    }
    assert(frontier_ok(visits, after.frontier, cur));
    assert(at.done.len() > 0) by {
        assert(before[cur].depth < at.done.len());
    }
    assert forall|i: int|
        #![trigger after.done[i]]
        0 <= i < after.done.len() implies {
        &&& space.node_ok(after.done[i])
        &&& reachable(space, start, after.done[i])
        &&& !space.goal(after.done[i])
        &&& after.index.contains_key(space.key_of(after.done[i]))
        &&& visits[after.index[space.key_of(after.done[i])] as int].closed
    } by {
        let w = at.index[space.key_of(at.done[i])] as int;
        assert(before[w].closed);
        assert(visits[w] == before[w]);
    }
    assert forall|v: int|
        #![trigger visits[v]]
        0 <= v < visits.len() implies visits[v].depth <= after.done.len() && (visits[v].closed
        ==> visits[v].depth < after.done.len()) by {
        assert(before[cur].depth < at.done.len());
        if v < fresh {
            assert(visits[v] == before[v]);
        }
    }
    assert(done_ok(space, start, visits, after.index, after.done));
}

/// Once every neighbour of the visit in focus has been met, nothing is in
/// focus any more.
proof fn lemma_expanded<S: SearchSpace>(space: &S, start: S::Node, at: Progress<S::Node>, cur: int)
    requires
        search_ok(space, start, at, cur),
        0 <= cur < at.visits.len(),
        at.visits[cur].closed,
        all_met(space, at.index, at.visits[cur].node),
    ensures
        search_ok(space, start, at, -1),
{
    reveal(search_ok);
}

/// With the frontier empty, every node on a walk from the start has been
/// met and closed, so none is a goal.
proof fn lemma_walk_is_closed<S: SearchSpace>(
    space: &S,
    start: S::Node,
    at: Progress<S::Node>,
    p: Seq<S::Node>,
    i: int,
)
    requires
        space.valid(),
        search_ok(space, start, at, -1),
        at.frontier.len() == 0,
        is_walk(space, p),
        p[0] == start,
        0 <= i < p.len(),
    ensures
        space.node_ok(p[i]),
        at.index.contains_key(space.key_of(p[i])),
        at.visits[at.index[space.key_of(p[i])] as int].node == p[i],
        at.visits[at.index[space.key_of(p[i])] as int].closed,
        !space.goal(p[i]),
    decreases i,
{
    reveal(search_ok);
    let visits = at.visits;
    let index = at.index;
    assert forall|v: int| 0 <= v < visits.len() implies (#[trigger] visits[v]).closed by {
        if !visits[v].closed {
            assert(queued(at.frontier, v));
        }
    }
    if i == 0 {
        assert(visits[0].node == start);
        assert(index[space.key_of(visits[0].node)] == 0);
        assert(visits[0].closed);
    } else {
        lemma_walk_is_closed(space, start, at, p, i - 1);
        let prev = p[i - 1];
        let v = index[space.key_of(prev)] as int;
        assert(visits[v].closed);
        assert(all_met(space, index, visits[v].node));
        assert(space.edge(p[i - 1], p[i - 1 + 1]));
        assert(space.edge(visits[v].node, p[i]));
        space.lemma_edge_ok(prev, p[i]);
        let w = index[space.key_of(p[i])] as int;
        assert(space.node_ok(visits[w].node));
        space.lemma_key_injective(visits[w].node, p[i]);
        assert(visits[w].closed);
    }
}

/// The nodes along the parents of visit `v`, from the start to `v`.
spec fn trail<N>(visits: Seq<Visit<N>>, v: int) -> Seq<N>
    decreases visits[v].depth,
{
    if v <= 0 || v >= visits.len() || visits[v].depth == 0 || visits[visits[v].parent as int].depth
        >= visits[v].depth {
        seq![visits[v].node]
    } else {
        trail(visits, visits[v].parent as int).push(visits[v].node)
    }
}

proof fn lemma_trail_is_walk<S: SearchSpace>(space: &S, start: S::Node, visits: Seq<Visit<S::Node>>, v: int)
    requires
        tree_ok(space, start, visits),
        0 <= v < visits.len(),
    ensures
        is_walk(space, trail(visits, v)),
        trail(visits, v)[0] == start,
        trail(visits, v).last() == visits[v].node,
        trail(visits, v).len() == visits[v].depth + 1,
        forall|i: int| 0 <= i < trail(visits, v).len() ==> space.node_ok(#[trigger] trail(visits, v)[i]),
    decreases visits[v].depth,
{
    if v == 0 {
        assert(trail(visits, v) =~= seq![visits[0].node]);
    } else {
        let p = visits[v].parent as int;
        assert(visits[p].closed);
        lemma_trail_is_walk(space, start, visits, p);
        let before = trail(visits, p);
        let whole = trail(visits, v);
        assert(whole =~= before.push(visits[v].node));
        assert forall|i: int| 0 <= i < whole.len() - 1 implies space.edge(#[trigger] whole[i], whole[i + 1]) by {
            if i < before.len() - 1 {
                assert(whole[i] == before[i]);
                assert(whole[i + 1] == before[i + 1]);
            } else {
                assert(whole[i] == before.last());
            }
        }
        assert forall|i: int| 0 <= i < whole.len() implies space.node_ok(#[trigger] whole[i]) by {
            if i < before.len() {
                assert(whole[i] == before[i]);
            }
        }
    }
}

/// Each node of a trail belongs to a visit as deep as the node's place in
/// the trail.
proof fn lemma_trail_depths<S: SearchSpace>(
    space: &S,
    start: S::Node,
    visits: Seq<Visit<S::Node>>,
    v: int,
    i: int,
) -> (u: int)
    requires
        tree_ok(space, start, visits),
        0 <= v < visits.len(),
        0 <= i <= visits[v].depth,
    ensures
        0 <= u < visits.len(),
        visits[u].depth == i,
        visits[u].node == trail(visits, v)[i],
    decreases visits[v].depth,
{
    lemma_trail_is_walk(space, start, visits, v);
    if i == visits[v].depth {
        v
    } else {
        let p = visits[v].parent as int;
        assert(visits[p].closed);
        lemma_trail_is_walk(space, start, visits, p);
        assert(trail(visits, v) =~= trail(visits, p).push(visits[v].node));
        lemma_trail_depths(space, start, visits, p, i)
    }
}

/// No node occurs twice in a trail.
proof fn lemma_trail_distinct<S: SearchSpace>(
    space: &S,
    start: S::Node,
    at: Progress<S::Node>,
    focus: int,
    v: int,
)
    requires
        search_ok(space, start, at, focus),
        0 <= v < at.visits.len(),
    ensures
        trail(at.visits, v).no_duplicates(),
{
    reveal(search_ok);
    let way = trail(at.visits, v);
    lemma_trail_is_walk(space, start, at.visits, v);
    assert forall|i: int, j: int| 0 <= i < way.len() && 0 <= j < way.len() && i != j implies way[i]
        != way[j] by {
        let a = lemma_trail_depths(space, start, at.visits, v, i);
        let b = lemma_trail_depths(space, start, at.visits, v, j);
        assert(at.index[space.key_of(at.visits[a].node)] == a);
        assert(at.index[space.key_of(at.visits[b].node)] == b);
    }
}

/// The nodes from the start to visit `v` along the parents.
fn walk_to<S: SearchSpace>(space: &S, visits: &Vec<Visit<S::Node>>, v: usize, Ghost(start): Ghost<S::Node>) -> (path: Vec<S::Node>)
    requires
        tree_ok(space, start, visits@),
        v < visits.len(),
    ensures
        path@ == trail(visits@, v as int),
{
    let mut back: Vec<S::Node> = Vec::new();
    let mut cur: usize = v;
    while cur != 0
        invariant
            tree_ok(space, start, visits@),
            cur < visits.len(),
            trail(visits@, v as int) =~= trail(visits@, cur as int) + back@.reverse(),
        decreases visits[cur as int].depth,
    {
        let ghost before = back@;
        let visit = &visits[cur];
        back.push(visit.node);
        proof {
            let p = visit.parent as int;
            assert(visits@[cur as int].depth == visits@[p].depth + 1);
            assert(trail(visits@, cur as int) =~= trail(visits@, p).push(visit.node));
            assert(back@.reverse() =~= seq![visit.node] + before.reverse());
        }
        cur = visit.parent;
    }
    back.push(visits[0].node);
    proof {
        assert(trail(visits@, 0) =~= seq![visits@[0].node]);
        assert(back@.reverse() =~= trail(visits@, v as int));
    }
    let mut path: Vec<S::Node> = Vec::new();
    let mut left: usize = back.len();
    while left > 0
        invariant
            left <= back.len(),
            path.len() == back.len() - left,
            forall|i: int| 0 <= i < path.len() ==> path@[i] == back@[back.len() - 1 - i],
        decreases left,
    {
        left -= 1;
        path.push(back[left]);
    }
    assert(path@ =~= back@.reverse());
    path
}

/// Cost so far plus estimate of a visit.
spec fn rank_of<S: SearchSpace>(space: &S, visits: Seq<Visit<S::Node>>, v: int) -> int {
    visits[v].cost + space.estimate(visits[v].node)
}

/// Some entry of the frontier stands for visit `v` with rank `r`.
spec fn exact_entry(frontier: Seq<Pending>, v: int, r: int) -> bool {
    exists|j: int| 0 <= j < frontier.len() && (#[trigger] frontier[j]).visit == v && frontier[j].rank == r
}

/// No open visit has a rank below `least`.
spec fn least_ok<S: SearchSpace>(space: &S, visits: Seq<Visit<S::Node>>, least: int) -> bool {
    forall|v: int|
        #![trigger visits[v]]
        0 <= v < visits.len() && !visits[v].closed ==> least <= rank_of(space, visits, v)
}

/// The costs are those of the ways along the parents, no entry of the
/// frontier ranks its visit too low, and every open visit but the one in
/// focus has an entry with its very rank.
#[verifier::opaque]
spec fn ledger_ok<S: SearchSpace>(space: &S, at: Progress<S::Node>, focus: int) -> bool {
    &&& at.visits.len() > 0
    &&& at.visits[0].cost == 0
    &&& forall|v: int|
        #![trigger at.visits[v]]
        0 < v < at.visits.len() ==> {
            let p = at.visits[v].parent as int;
            &&& 0 <= p < at.visits.len()
            &&& at.visits[v].cost == at.visits[p].cost + space.step_cost(
                at.visits[p].node,
                at.visits[v].node,
            )
        }
    &&& forall|v: int|
        #![trigger at.visits[v]]
        0 <= v < at.visits.len() ==> at.visits[v].cost <= at.visits[v].depth * 0xffff_ffff_ffff_ffff
    &&& forall|j: int|
        0 <= j < at.frontier.len() ==> (#[trigger] at.frontier[j]).visit < at.visits.len()
            && at.frontier[j].rank >= rank_of(space, at.visits, at.frontier[j].visit as int)
    &&& forall|v: int|
        #![trigger at.visits[v]]
        0 <= v < at.visits.len() && !at.visits[v].closed && v != focus ==> exact_entry(
            at.frontier,
            v,
            rank_of(space, at.visits, v),
        )
}

/// No walk from the start to the node of visit `v` costs less than the
/// visit says.
spec fn cheaper_than_walks<S: SearchSpace>(
    space: &S,
    start: S::Node,
    visits: Seq<Visit<S::Node>>,
    v: int,
) -> bool {
    forall|w: Seq<S::Node>|
        #[trigger] is_walk(space, w) && w[0] == start && w.last() == visits[v].node ==> visits[v].cost
            <= walk_cost(space, w)
}

/// Every node one step from the node of visit `v` has been met, at no more
/// than the cost of `v` and the step.
spec fn relaxed<S: SearchSpace>(
    space: &S,
    visits: Seq<Visit<S::Node>>,
    index: Map<u64, usize>,
    v: int,
) -> bool {
    forall|m: S::Node|
        #[trigger] space.edge(visits[v].node, m) ==> index.contains_key(space.key_of(m)) && index[space.key_of(
            m,
        )] < visits.len() && visits[index[space.key_of(m)] as int].cost <= visits[v].cost
            + space.step_cost(visits[v].node, m)
}

/// Every closed visit has the least cost of all walks to its node, and
/// every closed visit but the one in focus has relaxed its steps.
#[verifier::opaque]
spec fn cheapest_ok<S: SearchSpace>(space: &S, start: S::Node, at: Progress<S::Node>, focus: int) -> bool {
    forall|v: int|
        #![trigger at.visits[v]]
        0 <= v < at.visits.len() && at.visits[v].closed ==> cheaper_than_walks(space, start, at.visits, v)
            && (v != focus ==> relaxed(space, at.visits, at.index, v))
}

proof fn lemma_ledger_first<S: SearchSpace>(space: &S, start: S::Node, at: Progress<S::Node>)
    requires
        at.visits =~= seq![Visit { node: start, parent: 0, depth: 0, cost: 0, closed: false }],
        at.frontier.len() == 1,
        at.frontier[0].visit == 0,
        at.frontier[0].rank == space.estimate(start),
    ensures
        ledger_ok(space, at, -1),
        cheapest_ok(space, start, at, -1),
{
    reveal(ledger_ok);
    reveal(cheapest_ok);
    assert(exact_entry(at.frontier, 0, rank_of(space, at.visits, 0)));
}

/// The entry that leaves the frontier ranks no higher than any open visit,
/// and has the very rank of its own visit if that is open.
proof fn lemma_ledger_pop<S: SearchSpace>(
    space: &S,
    at: Progress<S::Node>,
    slot: int,
    after: Progress<S::Node>,
)
    requires
        ledger_ok(space, at, -1),
        0 <= slot < at.frontier.len(),
        forall|j: int|
            0 <= j < at.frontier.len() ==> !goes_before(#[trigger] at.frontier[j], at.frontier[slot]),
        after.visits == at.visits,
        after.index == at.index,
        after.done == at.done,
        after.frontier == at.frontier.update(slot, at.frontier.last()).drop_last(),
    ensures
        ledger_ok(space, after, at.frontier[slot].visit as int),
        at.visits[at.frontier[slot].visit as int].closed ==> ledger_ok(space, after, -1),
        least_ok(space, at.visits, at.frontier[slot].rank as int),
        at.frontier[slot].rank >= rank_of(space, at.visits, at.frontier[slot].visit as int),
{
    reveal(ledger_ok);
    let cur = at.frontier[slot].visit as int;
    assert forall|v: int|
        #![trigger after.visits[v]]
        0 <= v < after.visits.len() && !after.visits[v].closed && v != cur implies exact_entry(
        after.frontier,
        v,
        rank_of(space, after.visits, v),
    ) by {
        assert(exact_entry(at.frontier, v, rank_of(space, at.visits, v)));
        let j = choose|j: int|
            0 <= j < at.frontier.len() && (#[trigger] at.frontier[j]).visit == v && at.frontier[j].rank
                == rank_of(space, at.visits, v);
        if j == at.frontier.len() - 1 {
            assert(after.frontier[slot] == at.frontier[j]);
        } else {
            assert(after.frontier[j] == at.frontier[j]);
        }
    }
    assert forall|j: int| 0 <= j < after.frontier.len() implies (#[trigger] after.frontier[j]).visit
        < after.visits.len() && after.frontier[j].rank >= rank_of(
        space,
        after.visits,
        after.frontier[j].visit as int,
    ) by {
        if j == slot {
            assert(after.frontier[j] == at.frontier[at.frontier.len() - 1]);
        } else {
            assert(after.frontier[j] == at.frontier[j]);
        }
    }
    assert forall|v: int|
        #![trigger at.visits[v]]
        0 <= v < at.visits.len() && !at.visits[v].closed implies at.frontier[slot].rank <= rank_of(
        space,
        at.visits,
        v,
    ) by {
        assert(exact_entry(at.frontier, v, rank_of(space, at.visits, v)));
        let j = choose|j: int|
            0 <= j < at.frontier.len() && (#[trigger] at.frontier[j]).visit == v && at.frontier[j].rank
                == rank_of(space, at.visits, v);
        assert(!goes_before(at.frontier[j], at.frontier[slot]));
    }
}

/// Closing the visit in focus leaves the ledger in order.
proof fn lemma_ledger_close<S: SearchSpace>(
    space: &S,
    at: Progress<S::Node>,
    cur: int,
    after: Progress<S::Node>,
)
    requires
        ledger_ok(space, at, cur),
        0 <= cur < at.visits.len(),
        after.visits == at.visits.update(
            cur,
            Visit {
                node: at.visits[cur].node,
                parent: at.visits[cur].parent,
                depth: at.visits[cur].depth,
                cost: at.visits[cur].cost,
                closed: true,
            },
        ),
        after.index == at.index,
        after.frontier == at.frontier,
    ensures
        ledger_ok(space, after, cur),
        ledger_ok(space, after, -1),
{
    reveal(ledger_ok);
    let before = at.visits;
    let visits = after.visits;
    assert forall|v: int| 0 <= v < visits.len() implies (#[trigger] visits[v]).node == before[v].node
        && visits[v].cost == before[v].cost && visits[v].parent == before[v].parent && visits[v].depth
        == before[v].depth && (visits[v].closed == (before[v].closed || v == cur)) by {}
    assert forall|v: int|
        #![trigger visits[v]]
        0 < v < visits.len() implies {
        let p = visits[v].parent as int;
        &&& 0 <= p < visits.len()
        &&& visits[v].cost == visits[p].cost + space.step_cost(visits[p].node, visits[v].node)
    } by {
        let p = before[v].parent as int;
        assert(visits[p].cost == before[p].cost);
    }
    assert forall|j: int| 0 <= j < after.frontier.len() implies (#[trigger] after.frontier[j]).visit
        < visits.len() && after.frontier[j].rank >= rank_of(space, visits, after.frontier[j].visit as int) by {
        let v = at.frontier[j].visit as int;
        assert(visits[v].cost == before[v].cost);
    }
    assert forall|v: int|
        #![trigger visits[v]]
        0 <= v < visits.len() && !visits[v].closed implies exact_entry(
        after.frontier,
        v,
        rank_of(space, visits, v),
    ) by {
        assert(!before[v].closed && v != cur);
        assert(exact_entry(at.frontier, v, rank_of(space, before, v)));
    }
}

/// A cheaper way to an open node leaves the ledger in order.
proof fn lemma_ledger_improve<S: SearchSpace>(
    space: &S,
    start: S::Node,
    at: Progress<S::Node>,
    cur: int,
    slot: int,
    cost: u128,
    entry: Pending,
    after: Progress<S::Node>,
)
    requires
        search_ok(space, start, at, cur),
        ledger_ok(space, at, -1),
        0 <= cur < at.visits.len(),
        at.visits[cur].closed,
        0 <= slot < at.visits.len(),
        !at.visits[slot].closed,
        at.visits[cur].depth + 1 <= usize::MAX,
        cost == at.visits[cur].cost + space.step_cost(at.visits[cur].node, at.visits[slot].node),
        cost < at.visits[slot].cost,
        entry.visit == slot,
        entry.rank == cost + space.estimate(at.visits[slot].node),
        after.visits == at.visits.update(
            slot,
            Visit {
                node: at.visits[slot].node,
                parent: cur as usize,
                depth: (at.visits[cur].depth + 1) as usize,
                cost,
                closed: false,
            },
        ),
        after.index == at.index,
        after.frontier == at.frontier.push(entry),
    ensures
        ledger_ok(space, after, -1),
        forall|v: int| 0 <= v < at.visits.len() ==> (#[trigger] after.visits[v]).cost <= at.visits[v].cost,
{
    reveal(ledger_ok);
    reveal(search_ok);
    let before = at.visits;
    let visits = after.visits;
    assert(slot != 0) by {
        assert(before[0].cost == 0);
    }
    assert forall|v: int| 0 <= v < visits.len() && v != slot implies #[trigger] visits[v] == before[v] by {}
    assert forall|v: int|
        #![trigger visits[v]]
        0 < v < visits.len() implies {
        let p = visits[v].parent as int;
        &&& 0 <= p < visits.len()
        &&& visits[v].cost == visits[p].cost + space.step_cost(visits[p].node, visits[v].node)
    } by {
        if v != slot {
            let p = before[v].parent as int;
            assert(before[p].closed);
            assert(visits[p] == before[p]);
        } else {
            assert(visits[cur] == before[cur]);
        }
    }
    assert forall|v: int|
        #![trigger visits[v]]
        0 <= v < visits.len() implies visits[v].cost <= visits[v].depth * 0xffff_ffff_ffff_ffff by {
        assert(before[cur].cost <= before[cur].depth * 0xffff_ffff_ffff_ffff);
        if v != slot {
            assert(visits[v] == before[v]);
        }
    }
    assert forall|j: int| 0 <= j < after.frontier.len() implies (#[trigger] after.frontier[j]).visit
        < visits.len() && after.frontier[j].rank >= rank_of(space, visits, after.frontier[j].visit as int) by {
        if j < at.frontier.len() {
            assert(after.frontier[j] == at.frontier[j]);
            let v = at.frontier[j].visit as int;
            if v != slot {
                assert(visits[v] == before[v]);
            }
        }
    }
    assert forall|v: int|
        #![trigger visits[v]]
        0 <= v < visits.len() && !visits[v].closed implies exact_entry(
        after.frontier,
        v,
        rank_of(space, visits, v),
    ) by {
        if v == slot {
            assert(after.frontier[at.frontier.len() as int] == entry);
        } else {
            assert(visits[v] == before[v]);
            assert(exact_entry(at.frontier, v, rank_of(space, before, v)));
            let j = choose|j: int|
                0 <= j < at.frontier.len() && (#[trigger] at.frontier[j]).visit == v
                    && at.frontier[j].rank == rank_of(space, before, v);
            assert(after.frontier[j] == at.frontier[j]);
        }
    }
}

/// A node met for the first time leaves the ledger in order.
proof fn lemma_ledger_meet<S: SearchSpace>(
    space: &S,
    at: Progress<S::Node>,
    cur: int,
    next: S::Node,
    cost: u128,
    entry: Pending,
    after: Progress<S::Node>,
)
    requires
        ledger_ok(space, at, -1),
        0 <= cur < at.visits.len(),
        at.visits[cur].depth + 1 <= usize::MAX,
        cost == at.visits[cur].cost + space.step_cost(at.visits[cur].node, next),
        entry.visit == at.visits.len(),
        entry.rank == cost + space.estimate(next),
        after.visits == at.visits.push(
            Visit {
                node: next,
                parent: cur as usize,
                depth: (at.visits[cur].depth + 1) as usize,
                cost,
                closed: false,
            },
        ),
        after.frontier == at.frontier.push(entry),
    ensures
        ledger_ok(space, after, -1),
        forall|v: int| 0 <= v < at.visits.len() ==> (#[trigger] after.visits[v]).cost <= at.visits[v].cost,
{
    reveal(ledger_ok);
    let before = at.visits;
    let visits = after.visits;
    let fresh = before.len() as int;
    assert forall|v: int| 0 <= v < before.len() implies #[trigger] visits[v] == before[v] by {}
    assert forall|v: int|
        #![trigger visits[v]]
        0 < v < visits.len() implies {
        let p = visits[v].parent as int;
        &&& 0 <= p < visits.len()
        &&& visits[v].cost == visits[p].cost + space.step_cost(visits[p].node, visits[v].node)
    } by {
        if v < fresh {
            let p = before[v].parent as int;
            assert(visits[p] == before[p]);
        } else {
            assert(visits[cur] == before[cur]);
        }
    }
    assert forall|v: int|
        #![trigger visits[v]]
        0 <= v < visits.len() implies visits[v].cost <= visits[v].depth * 0xffff_ffff_ffff_ffff by {
        assert(before[cur].cost <= before[cur].depth * 0xffff_ffff_ffff_ffff);
        if v < fresh {
            assert(visits[v] == before[v]);
        }
    }
    assert(visits[0] == before[0]);
    assert forall|j: int| 0 <= j < after.frontier.len() implies (#[trigger] after.frontier[j]).visit
        < visits.len() && after.frontier[j].rank >= rank_of(space, visits, after.frontier[j].visit as int) by {
        if j < at.frontier.len() {
            assert(after.frontier[j] == at.frontier[j]);
            let v = at.frontier[j].visit as int;
            assert(visits[v] == before[v]);
        }
    }
    assert forall|v: int|
        #![trigger visits[v]]
        0 <= v < visits.len() && !visits[v].closed implies exact_entry(
        after.frontier,
        v,
        rank_of(space, visits, v),
    ) by {
        if v == fresh {
            assert(after.frontier[at.frontier.len() as int] == entry);
        } else {
            assert(visits[v] == before[v]);
            assert(exact_entry(at.frontier, v, rank_of(space, before, v)));
            let j = choose|j: int|
                0 <= j < at.frontier.len() && (#[trigger] at.frontier[j]).visit == v
                    && at.frontier[j].rank == rank_of(space, before, v);
            assert(after.frontier[j] == at.frontier[j]);
        }
    }
}

/// The cost of a visit leaves room for one more step and an estimate.
proof fn lemma_ledger_room<S: SearchSpace>(space: &S, at: Progress<S::Node>, focus: int, v: int)
    requires
        ledger_ok(space, at, focus),
        0 <= v < at.visits.len(),
    ensures
        at.visits[v].cost <= at.visits[v].depth * 0xffff_ffff_ffff_ffff,
{
    reveal(ledger_ok);
}

/// The cost of a visit is the cost of the walk along its parents.
proof fn lemma_trail_cost<S: SearchSpace>(
    space: &S,
    start: S::Node,
    at: Progress<S::Node>,
    focus: int,
    other: int,
    v: int,
)
    requires
        search_ok(space, start, at, focus),
        ledger_ok(space, at, other),
        0 <= v < at.visits.len(),
    ensures
        walk_cost(space, trail(at.visits, v)) == at.visits[v].cost,
    decreases at.visits[v].depth,
{
    reveal(search_ok);
    reveal(ledger_ok);
    let visits = at.visits;
    if v == 0 {
        assert(trail(visits, v) =~= seq![visits[0].node]);
    } else {
        let p = visits[v].parent as int;
        assert(visits[p].closed);
        lemma_trail_cost(space, start, at, focus, other, p);
        lemma_trail_is_walk(space, start, visits, p);
        let before = trail(visits, p);
        let whole = trail(visits, v);
        assert(whole =~= before.push(visits[v].node));
        assert(whole.drop_last() =~= before);
        assert(whole[whole.len() - 2] == before.last());
    }
}

/// Along a walk, the cost up to a node plus the estimate there is no more
/// than the cost of the whole walk plus the estimate at its end.
proof fn lemma_telescope<S: SearchSpace>(space: &S, w: Seq<S::Node>, i: int)
    requires
        space.valid(),
        consistent(space),
        is_walk(space, w),
        0 <= i < w.len(),
        space.node_ok(w[i]),
    ensures
        walk_cost(space, w.take(i + 1)) + space.estimate(w[i]) <= walk_cost(space, w) + space.estimate(
            w.last(),
        ),
    decreases w.len() - i,
{
    if i == w.len() - 1 {
        assert(w.take(i + 1) =~= w);
    } else {
        assert(space.edge(w[i], w[i + 1]));
        space.lemma_edge_ok(w[i], w[i + 1]);
        lemma_telescope(space, w, i + 1);
        let longer = w.take(i + 2);
        assert(longer.drop_last() =~= w.take(i + 1));
        assert(longer[longer.len() - 2] == w[i]);
        assert(longer[longer.len() - 1] == w[i + 1]);
    }
}

/// The node has been met and closed.
spec fn closed_node<S: SearchSpace>(space: &S, at: Progress<S::Node>, n: S::Node) -> bool {
    at.index.contains_key(space.key_of(n)) && at.visits[at.index[space.key_of(n)] as int].closed
}

/// On a walk from the start that does not end in a closed node, the first
/// node that is not closed has an open visit that ranks no higher than the
/// walk costs and the estimate at its end says.
proof fn lemma_cut<S: SearchSpace>(
    space: &S,
    start: S::Node,
    at: Progress<S::Node>,
    focus: int,
    least: int,
    w: Seq<S::Node>,
    i: int,
)
    requires
        space.valid(),
        consistent(space),
        search_ok(space, start, at, focus),
        ledger_ok(space, at, focus),
        cheapest_ok(space, start, at, focus),
        0 <= focus < at.visits.len() ==> !at.visits[focus].closed,
        least_ok(space, at.visits, least),
        is_walk(space, w),
        w[0] == start,
        !closed_node(space, at, w.last()),
        0 <= i < w.len(),
        forall|k: int| 0 <= k < i ==> closed_node(space, at, #[trigger] w[k]),
        forall|k: int| 0 <= k <= i ==> space.node_ok(#[trigger] w[k]),
    ensures
        least <= walk_cost(space, w) + space.estimate(w.last()),
    decreases w.len() - i,
{
    let visits = at.visits;
    let index = at.index;
    let n = w[i];
    if closed_node(space, at, n) {
        assert(space.edge(w[i], w[i + 1]));
        space.lemma_edge_ok(w[i], w[i + 1]);
        lemma_cut(space, start, at, focus, least, w, i + 1);
    } else {
        // an open visit of the node, at no more than the walk up to it costs
        if i == 0 {
            reveal(search_ok);
            reveal(ledger_ok);
            assert(visits[0].node == start);
            assert(index[space.key_of(visits[0].node)] == 0);
            assert(!visits[0].closed);
            assert(least <= rank_of(space, visits, 0));
            assert(walk_cost(space, w.take(1)) == 0);
            lemma_telescope(space, w, 0);
        } else {
            let prev = w[i - 1];
            assert(closed_node(space, at, w[i - 1]));
            let c = index[space.key_of(prev)] as int;
            let shorter = w.take(i);
            assert(is_walk(space, shorter)) by {
                assert forall|k: int| 0 <= k < shorter.len() - 1 implies space.edge(
                    #[trigger] shorter[k],
                    shorter[k + 1],
                ) by {
                    assert(space.edge(w[k], w[k + 1]));
                }
            }
            assert(space.edge(w[i - 1], w[i - 1 + 1]));
            assert(0 <= c < visits.len() && visits[c].node == prev) by {
                reveal(search_ok);
                assert(space.node_ok(w[i - 1]));
                assert(space.node_ok(visits[c].node));
                space.lemma_key_injective(visits[c].node, prev);
            }
            assert(c != focus);
            assert(cheaper_than_walks(space, start, visits, c) && relaxed(space, visits, index, c)) by {
                reveal(cheapest_ok);
            }
            assert(visits[c].cost <= walk_cost(space, shorter)) by {
                assert(shorter[0] == start && shorter.last() == visits[c].node);
            }
            assert(space.edge(visits[c].node, n));
            let u = index[space.key_of(n)] as int;
            assert(0 <= u < visits.len() && visits[u].node == n) by {
                reveal(search_ok);
                assert(space.node_ok(w[i]));
                assert(space.node_ok(visits[u].node));
                space.lemma_key_injective(visits[u].node, n);
            }
            assert(!visits[u].closed);
            assert(least <= rank_of(space, visits, u));
            let longer = w.take(i + 1);
            assert(longer.drop_last() =~= shorter);
            assert(longer[longer.len() - 2] == prev);
            assert(longer[longer.len() - 1] == n);
            assert(walk_cost(space, longer) == walk_cost(space, shorter) + space.step_cost(prev, n));
            lemma_telescope(space, w, i);
        }
    }
}

/// No walk from the start that does not end in a closed node costs less,
/// with the estimate at its end, than the least rank of the open visits.
proof fn lemma_least<S: SearchSpace>(
    space: &S,
    start: S::Node,
    at: Progress<S::Node>,
    focus: int,
    least: int,
    w: Seq<S::Node>,
)
    requires
        space.valid(),
        space.node_ok(start),
        consistent(space),
        search_ok(space, start, at, focus),
        ledger_ok(space, at, focus),
        cheapest_ok(space, start, at, focus),
        0 <= focus < at.visits.len() ==> !at.visits[focus].closed,
        least_ok(space, at.visits, least),
        is_walk(space, w),
        w[0] == start,
        !closed_node(space, at, w.last()),
    ensures
        least <= walk_cost(space, w) + space.estimate(w.last()),
{
    lemma_cut(space, start, at, focus, least, w, 0);
}

/// The open visit in focus that has just left the frontier costs no more
/// than any walk from the start to a goal, if its node is a goal.
proof fn lemma_goal_cheapest<S: SearchSpace>(
    space: &S,
    start: S::Node,
    at: Progress<S::Node>,
    cur: int,
    least: int,
)
    requires
        space.valid(),
        space.node_ok(start),
        consistent(space),
        search_ok(space, start, at, cur),
        ledger_ok(space, at, cur),
        cheapest_ok(space, start, at, cur),
        0 <= cur < at.visits.len(),
        !at.visits[cur].closed,
        space.goal(at.visits[cur].node),
        least_ok(space, at.visits, least),
        least >= rank_of(space, at.visits, cur),
    ensures
        forall|w: Seq<S::Node>|
            #[trigger] is_walk(space, w) && w[0] == start && space.goal(w.last()) ==> at.visits[cur].cost
                <= walk_cost(space, w),
{
    assert forall|w: Seq<S::Node>|
        #[trigger] is_walk(space, w) && w[0] == start && space.goal(w.last()) implies at.visits[cur].cost
        <= walk_cost(space, w) by {
        assert(!closed_node(space, at, w.last())) by {
            reveal(search_ok);
            if closed_node(space, at, w.last()) {
                let v = at.index[space.key_of(w.last())] as int;
                lemma_walk_nodes(space, w, w.len() - 1);
                assert(space.node_ok(at.visits[v].node));
                space.lemma_key_injective(at.visits[v].node, w.last());
            }
        }
        lemma_least(space, start, at, cur, least, w);
        lemma_walk_nodes(space, w, w.len() - 1);
        assert(space.estimate(w.last()) == 0);
    }
}

/// Every node of a walk from a node of the space belongs to the space.
proof fn lemma_walk_nodes<S: SearchSpace>(space: &S, w: Seq<S::Node>, i: int)
    requires
        space.valid(),
        is_walk(space, w),
        space.node_ok(w[0]),
        0 <= i < w.len(),
    ensures
        space.node_ok(w[i]),
    decreases i,
{
    if i > 0 {
        lemma_walk_nodes(space, w, i - 1);
        assert(space.edge(w[i - 1], w[i - 1 + 1]));
        space.lemma_edge_ok(w[i - 1], w[i]);
    }
}

/// Closing the open visit in focus that has just left the frontier: it
/// costs no more than any walk to its node.
proof fn lemma_cheapest_close<S: SearchSpace>(
    space: &S,
    start: S::Node,
    at: Progress<S::Node>,
    cur: int,
    least: int,
    after: Progress<S::Node>,
)
    requires
        space.valid(),
        space.node_ok(start),
        consistent(space),
        search_ok(space, start, at, cur),
        ledger_ok(space, at, cur),
        cheapest_ok(space, start, at, cur),
        0 <= cur < at.visits.len(),
        !at.visits[cur].closed,
        least_ok(space, at.visits, least),
        least >= rank_of(space, at.visits, cur),
        after.visits == at.visits.update(
            cur,
            Visit {
                node: at.visits[cur].node,
                parent: at.visits[cur].parent,
                depth: at.visits[cur].depth,
                cost: at.visits[cur].cost,
                closed: true,
            },
        ),
        after.index == at.index,
    ensures
        cheapest_ok(space, start, after, cur),
{
    let before = at.visits;
    let visits = after.visits;
    assert forall|w: Seq<S::Node>|
        #[trigger] is_walk(space, w) && w[0] == start && w.last() == before[cur].node implies before[cur].cost
        <= walk_cost(space, w) by {
        assert(!closed_node(space, at, w.last())) by {
            reveal(search_ok);
            assert(at.index[space.key_of(before[cur].node)] == cur);
        }
        lemma_least(space, start, at, cur, least, w);
    }
    reveal(cheapest_ok);
    assert forall|v: int|
        #![trigger visits[v]]
        0 <= v < visits.len() && visits[v].closed implies cheaper_than_walks(space, start, visits, v) && (
    v != cur ==> relaxed(space, visits, after.index, v)) by {
        if v != cur {
            assert(visits[v] == before[v]);
            assert(cheaper_than_walks(space, start, before, v));
            assert(relaxed(space, before, at.index, v));
            assert forall|m: S::Node| #[trigger] space.edge(visits[v].node, m) implies after.index.contains_key(
                space.key_of(m),
            ) && after.index[space.key_of(m)] < visits.len() && visits[after.index[space.key_of(
                m,
            )] as int].cost <= visits[v].cost + space.step_cost(visits[v].node, m) by {
                let u = at.index[space.key_of(m)] as int;
                assert(visits[u].cost == before[u].cost);
            }
        } else {
            assert(visits[cur].cost == before[cur].cost);
            assert(visits[cur].node == before[cur].node);
        }
    }
}

/// A change that leaves the closed visits as they are, and makes no other
/// visit cost more, keeps what holds of the closed visits.
proof fn lemma_cheapest_kept<S: SearchSpace>(
    space: &S,
    start: S::Node,
    at: Progress<S::Node>,
    after: Progress<S::Node>,
    focus: int,
)
    requires
        cheapest_ok(space, start, at, focus),
        at.visits.len() <= after.visits.len(),
        forall|v: int|
            0 <= v < at.visits.len() ==> (#[trigger] after.visits[v]).node == at.visits[v].node
                && after.visits[v].closed == at.visits[v].closed && after.visits[v].cost
                <= at.visits[v].cost && (at.visits[v].closed ==> after.visits[v].cost
                == at.visits[v].cost),
        forall|v: int|
            at.visits.len() <= v < after.visits.len() ==> !(#[trigger] after.visits[v]).closed,
        forall|k: u64| #[trigger]
            at.index.contains_key(k) ==> after.index.contains_key(k) && after.index[k] == at.index[k],
    ensures
        cheapest_ok(space, start, after, focus),
{
    reveal(cheapest_ok);
    let before = at.visits;
    let visits = after.visits;
    assert forall|v: int|
        #![trigger visits[v]]
        0 <= v < visits.len() && visits[v].closed implies cheaper_than_walks(space, start, visits, v) && (
    v != focus ==> relaxed(space, visits, after.index, v)) by {
        assert(v < before.len());
        assert(before[v].closed);
        assert(cheaper_than_walks(space, start, before, v));
        if v != focus {
            assert(relaxed(space, before, at.index, v));
            assert forall|m: S::Node| #[trigger] space.edge(visits[v].node, m) implies after.index.contains_key(
                space.key_of(m),
            ) && after.index[space.key_of(m)] < visits.len() && visits[after.index[space.key_of(
                m,
            )] as int].cost <= visits[v].cost + space.step_cost(visits[v].node, m) by {
                let u = at.index[space.key_of(m)] as int;
                assert(visits[u].cost <= before[u].cost);
            }
        }
    }
}

/// Once every step from the visit in focus is relaxed, nothing is in focus
/// any more.
proof fn lemma_cheapest_expanded<S: SearchSpace>(
    space: &S,
    start: S::Node,
    at: Progress<S::Node>,
    cur: int,
)
    requires
        cheapest_ok(space, start, at, cur),
        0 <= cur < at.visits.len(),
        relaxed(space, at.visits, at.index, cur),
    ensures
        cheapest_ok(space, start, at, -1),
{
    reveal(cheapest_ok);
}

/// A closed visit costs no more than the way over the visit in focus and
/// one step.
proof fn lemma_known_cost<S: SearchSpace>(
    space: &S,
    start: S::Node,
    at: Progress<S::Node>,
    cur: int,
    slot: int,
)
    requires
        space.valid(),
        search_ok(space, start, at, cur),
        ledger_ok(space, at, -1),
        cheapest_ok(space, start, at, cur),
        0 <= cur < at.visits.len(),
        0 <= slot < at.visits.len(),
        at.visits[slot].closed,
        space.edge(at.visits[cur].node, at.visits[slot].node),
    ensures
        at.visits[slot].cost <= at.visits[cur].cost + space.step_cost(
            at.visits[cur].node,
            at.visits[slot].node,
        ),
{
    let visits = at.visits;
    let way = trail(visits, cur);
    assert(tree_ok(space, start, visits)) by {
        reveal(search_ok);
    }
    lemma_trail_is_walk(space, start, visits, cur);
    lemma_trail_cost(space, start, at, cur, -1, cur);
    let w = way.push(visits[slot].node);
    assert forall|i: int| 0 <= i < w.len() - 1 implies space.edge(#[trigger] w[i], w[i + 1]) by {
        if i < way.len() - 1 {
            assert(w[i] == way[i]);
            assert(w[i + 1] == way[i + 1]);
        } else {
            assert(w[i] == way.last());
        }
    }
    assert(is_walk(space, w));
    assert(w.drop_last() =~= way);
    assert(w[w.len() - 2] == way.last());
    assert(walk_cost(space, w) == walk_cost(space, way) + space.step_cost(
        visits[cur].node,
        visits[slot].node,
    ));
    assert(cheaper_than_walks(space, start, visits, slot)) by {
        reveal(cheapest_ok);
    }
    assert(w[0] == start && w.last() == visits[slot].node);
}

/// Searches best-first from `start` for a goal, expanding at most
/// `max_depth` nodes.
///
/// A path that is found starts at `start`, ends in a goal, moves by single
/// steps and holds no node twice. Where the estimate is zero at every goal
/// and never falls by more than a step costs, no walk from `start` to a goal
/// costs less than the path. The search gives up as `Exhausted` only if no
/// goal can be reached at all, and as `BudgetExceeded` only if more than
/// `max_depth` different nodes that are no goals can be reached.
pub fn astar<S: SearchSpace>(space: &S, start: S::Node, max_depth: usize) -> (r: Result<
    Vec<S::Node>,
    SearchFailure,
>)
    requires
        space.valid(),
        space.node_ok(start),
    ensures
        match r {
            Ok(path) => {
                &&& is_walk(space, path@)
                &&& path@[0] == start
                &&& space.goal(path@.last())
                &&& distinct(path@)
                &&& forall|i: int| 0 <= i < path@.len() ==> space.node_ok(#[trigger] path@[i])
                &&& consistent(space) ==> forall|w: Seq<S::Node>|
                    #[trigger] is_walk(space, w) && w[0] == start && space.goal(w.last()) ==> walk_cost(
                        space,
                        path@,
                    ) <= walk_cost(space, w)
            },
            Err(SearchFailure::Exhausted) => forall|n: S::Node| #[trigger]
                reachable(space, start, n) ==> !space.goal(n),
            Err(SearchFailure::BudgetExceeded) => exists|s: Seq<S::Node>|
                {
                    &&& #[trigger] s.no_duplicates()
                    &&& s.len() > max_depth
                    &&& forall|i: int|
                        0 <= i < s.len() ==> reachable(space, start, #[trigger] s[i]) && !space.goal(
                            s[i],
                        )
                },
        },
{
    broadcast use vstd::std_specs::hash::group_hash_axioms;

    let mut visits: Vec<Visit<S::Node>> = Vec::new();
    let mut index: HashMap<u64, usize> = HashMap::new();
    let mut frontier: Vec<Pending> = Vec::new();
    let mut order: u64 = 0;
    let mut expanded: usize = 0;
    let ghost mut done: Seq<S::Node> = Seq::empty();

    visits.push(Visit { node: start, parent: 0, depth: 0, cost: 0, closed: false });
    index.insert(space.key(&start), 0);
    frontier.push(Pending { rank: space.heuristic(&start) as u128, order: 0, visit: 0 });
    proof {
        lemma_first(
            space,
            start,
            Progress { visits: visits@, index: index@, frontier: frontier@, done },
        );
        lemma_ledger_first(
            space,
            start,
            Progress { visits: visits@, index: index@, frontier: frontier@, done },
        );
    }

    while frontier.len() > 0
        invariant
            space.valid(),
            space.node_ok(start),
            search_ok(space, start, Progress { visits: visits@, index: index@, frontier: frontier@, done }, -1),
            ledger_ok(space, Progress { visits: visits@, index: index@, frontier: frontier@, done }, -1),
            consistent(space) ==> cheapest_ok(
                space,
                start,
                Progress { visits: visits@, index: index@, frontier: frontier@, done },
                -1,
            ),
            done.len() == expanded,
            expanded <= max_depth,
        decreases max_depth - expanded, frontier.len(),
    {
        let ghost at_pop = Progress { visits: visits@, index: index@, frontier: frontier@, done };
        let slot = best_index(&frontier);
        let entry = frontier.swap_remove(slot);
        let cur = entry.visit;
        let ghost least = entry.rank as int;
        proof {
            lemma_pop(
                space,
                start,
                at_pop,
                slot as int,
                Progress { visits: visits@, index: index@, frontier: frontier@, done },
            );
            lemma_ledger_pop(
                space,
                at_pop,
                slot as int,
                Progress { visits: visits@, index: index@, frontier: frontier@, done },
            );
            if consistent(space) {
                lemma_cheapest_kept(
                    space,
                    start,
                    at_pop,
                    Progress { visits: visits@, index: index@, frontier: frontier@, done },
                    -1,
                );
                lemma_cheapest_focus(
                    space,
                    start,
                    Progress { visits: visits@, index: index@, frontier: frontier@, done },
                    cur as int,
                );
            }
        }
        if visits[cur].closed {
            continue;
        }
        let node = visits[cur].node;
        let cost_here = visits[cur].cost;
        let depth_here = visits[cur].depth;
        let parent_here = visits[cur].parent;
        if space.is_goal(&node) {
            let path = walk_to(space, &visits, cur, Ghost(start));
            proof {
                let at_goal = Progress { visits: visits@, index: index@, frontier: frontier@, done };
                lemma_trail_is_walk(space, start, visits@, cur as int);
                lemma_trail_distinct(space, start, at_goal, cur as int, cur as int);
                assert(distinct(path@)) by {
                    reveal(distinct);
                }
                lemma_trail_cost(space, start, at_goal, cur as int, cur as int, cur as int);
                if consistent(space) {
                    lemma_goal_cheapest(space, start, at_goal, cur as int, least);
                }
            }
            return Ok(path);
        }
        if expanded == max_depth {
            proof {
                lemma_over_budget(
                    space,
                    start,
                    Progress { visits: visits@, index: index@, frontier: frontier@, done },
                    cur as int,
                );
                let s = done.push(node);
                assert(s.no_duplicates() && s.len() > max_depth);
            }
            return Err(SearchFailure::BudgetExceeded);
        }
        let ghost at_close = Progress { visits: visits@, index: index@, frontier: frontier@, done };
        visits.set(cur, Visit { node, parent: parent_here, depth: depth_here, cost: cost_here, closed: true });
        expanded += 1;
        proof {
            done = done.push(node);
            lemma_close(
                space,
                start,
                at_close,
                cur as int,
                Progress { visits: visits@, index: index@, frontier: frontier@, done },
            );
            lemma_ledger_close(
                space,
                at_close,
                cur as int,
                Progress { visits: visits@, index: index@, frontier: frontier@, done },
            );
            if consistent(space) {
                lemma_cheapest_close(
                    space,
                    start,
                    at_close,
                    cur as int,
                    least,
                    Progress { visits: visits@, index: index@, frontier: frontier@, done },
                );
            }
            lemma_ledger_room(
                space,
                Progress { visits: visits@, index: index@, frontier: frontier@, done },
                -1,
                cur as int,
            );
            assert(cost_here <= depth_here * 0xffff_ffff_ffff_ffff);
            assert(depth_here * 0xffff_ffff_ffff_ffff <= 0xffff_ffff_ffff_fffe * 0xffff_ffff_ffff_ffff) by (nonlinear_arith)
                requires
                    0 <= depth_here <= 0xffff_ffff_ffff_fffe,
            ;
        }

        let near = space.neighbors(&node);
        let mut t: usize = 0;
        while t < near.len()
            invariant
                space.valid(),
                space.node_ok(start),
                space.node_ok(node),
                cur < visits.len(),
                visits@[cur as int].node == node,
                visits@[cur as int].closed,
                visits@[cur as int].depth == depth_here,
                visits@[cur as int].cost == cost_here,
                cost_here <= 0xffff_ffff_ffff_fffe * 0xffff_ffff_ffff_ffff,
                depth_here < max_depth,
                forall|m: S::Node| near@.contains(m) <==> space.edge(node, m),
                t <= near.len(),
                forall|i: int| 0 <= i < t ==> index@.contains_key(space.key_of(#[trigger] near@[i])),
                consistent(space) ==> forall|i: int|
                    0 <= i < t ==> visits@[index@[space.key_of(#[trigger] near@[i])] as int].cost
                        <= cost_here + space.step_cost(node, near@[i]),
                search_ok(
                    space,
                    start,
                    Progress { visits: visits@, index: index@, frontier: frontier@, done },
                    cur as int,
                ),
                ledger_ok(space, Progress { visits: visits@, index: index@, frontier: frontier@, done }, -1),
                consistent(space) ==> cheapest_ok(
                    space,
                    start,
                    Progress { visits: visits@, index: index@, frontier: frontier@, done },
                    cur as int,
                ),
                done.len() == expanded,
                expanded <= max_depth,
            decreases near.len() - t,
        {
            let next = near[t];
            proof {
                assert(near@.contains(near@[t as int]));
                space.lemma_edge_ok(node, next);
            }
            let key = space.key(&next);
            let step = space.cost(&node, &next);
            let cost_there: u128 = cost_here + step as u128;
            let rank: u128 = cost_there + space.heuristic(&next) as u128;
            let ghost at_step = Progress { visits: visits@, index: index@, frontier: frontier@, done };
            let known = match index.get(&key) {
                Some(slot) => Some(*slot),
                None => None,
            };
            match known {
                Some(slot) => {
                    proof {
                        lemma_lookup(space, start, at_step, cur as int, next);
                    }
                    if !visits[slot].closed && cost_there < visits[slot].cost {
                        visits.set(
                            slot,
                            Visit {
                                node: next,
                                parent: cur,
                                depth: depth_here + 1,
                                cost: cost_there,
                                closed: false,
                            },
                        );
                        frontier.push(Pending { rank, order, visit: slot });
                        proof {
                            let after = Progress { visits: visits@, index: index@, frontier: frontier@, done };
                            lemma_improve(
                                space,
                                start,
                                at_step,
                                cur as int,
                                slot as int,
                                cost_there,
                                Pending { rank, order, visit: slot },
                                after,
                            );
                            lemma_ledger_improve(
                                space,
                                start,
                                at_step,
                                cur as int,
                                slot as int,
                                cost_there,
                                Pending { rank, order, visit: slot },
                                after,
                            );
                            if consistent(space) {
                                lemma_cheapest_kept(space, start, at_step, after, cur as int);
                            }
                        }
                        if order < u64::MAX {
                            order += 1;
                        }
                    } else {
                        proof {
                            if consistent(space) && visits@[slot as int].closed {
                                lemma_known_cost(space, start, at_step, cur as int, slot as int);
                            }
                        }
                    }
                },
                None => {
                    let slot = visits.len();
                    visits.push(
                        Visit {
                            node: next,
                            parent: cur,
                            depth: depth_here + 1,
                            cost: cost_there,
                            closed: false,
                        },
                    );
                    index.insert(key, slot);
                    frontier.push(Pending { rank, order, visit: slot });
                    proof {
                        let after = Progress { visits: visits@, index: index@, frontier: frontier@, done };
                        lemma_meet(
                            space,
                            start,
                            at_step,
                            cur as int,
                            next,
                            cost_there,
                            Pending { rank, order, visit: slot },
                            after,
                        );
                        lemma_ledger_meet(
                            space,
                            at_step,
                            cur as int,
                            next,
                            cost_there,
                            Pending { rank, order, visit: slot },
                            after,
                        );
                        if consistent(space) {
                            lemma_cheapest_kept(space, start, at_step, after, cur as int);
                        }
                    }
                    if order < u64::MAX {
                        order += 1;
                    }
                },
            }
            proof {
                if consistent(space) {
                    assert forall|i: int| 0 <= i < t + 1 implies visits@[index@[space.key_of(
                        #[trigger] near@[i],
                    )] as int].cost <= cost_here + space.step_cost(node, near@[i]) by {
                        if i < t {
                            let u = at_step.index[space.key_of(near@[i])] as int;
                            lemma_index_range(space, start, at_step, cur as int, space.key_of(near@[i]));
                            assert(visits@[u].cost <= at_step.visits[u].cost);
                        }
                    }
                }
            }
            t += 1;
        }
        proof {
            let at_end = Progress { visits: visits@, index: index@, frontier: frontier@, done };
            assert forall|m: S::Node| #[trigger] space.edge(node, m) implies index@.contains_key(
                space.key_of(m),
            ) by {
                assert(near@.contains(m));
                let i = choose|i: int| 0 <= i < near@.len() && near@[i] == m;
                assert(index@.contains_key(space.key_of(near@[i])));
            }
            lemma_expanded(space, start, at_end, cur as int);
            if consistent(space) {
                assert forall|m: S::Node| #[trigger] space.edge(visits@[cur as int].node, m) implies index@.contains_key(
                    space.key_of(m),
                ) && index@[space.key_of(m)] < visits@.len() && visits@[index@[space.key_of(m)] as int].cost
                    <= visits@[cur as int].cost + space.step_cost(visits@[cur as int].node, m) by {
                    assert(near@.contains(m));
                    let i = choose|i: int| 0 <= i < near@.len() && near@[i] == m;
                    assert(index@.contains_key(space.key_of(near@[i])));
                    lemma_index_range(space, start, at_end, cur as int, space.key_of(m));
                }
                lemma_cheapest_expanded(space, start, at_end, cur as int);
            }
        }
    }
    proof {
        let at_end = Progress { visits: visits@, index: index@, frontier: frontier@, done };
        assert forall|n: S::Node| #[trigger] reachable(space, start, n) implies !space.goal(n) by {
            let p = choose|p: Seq<S::Node>| #[trigger] is_walk(space, p) && p[0] == start && p.last() == n;
            lemma_walk_is_closed(space, start, at_end, p, p.len() - 1);
        }
    }
    Err(SearchFailure::Exhausted)
}

/// The index leads to visits only.
proof fn lemma_index_range<S: SearchSpace>(
    space: &S,
    start: S::Node,
    at: Progress<S::Node>,
    focus: int,
    k: u64,
)
    requires
        search_ok(space, start, at, focus),
        at.index.contains_key(k),
    ensures
        at.index[k] < at.visits.len(),
{
    reveal(search_ok);
}

/// What holds of the closed visits with nothing in focus holds with any
/// visit in focus.
proof fn lemma_cheapest_focus<S: SearchSpace>(
    space: &S,
    start: S::Node,
    at: Progress<S::Node>,
    focus: int,
)
    requires
        cheapest_ok(space, start, at, -1),
    ensures
        cheapest_ok(space, start, at, focus),
{
    reveal(cheapest_ok);
}

} // verus!
