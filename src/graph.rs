//! The graph a search runs on, as seen by contracts: the successor,
//! heuristic and goal functions read as mathematical functions, walks and
//! their costs, reachability and admissibility.
use vstd::prelude::*;

verus! {

/// The successor lists that `f` returns, node by node.
pub open spec fn edges_of<N, F: Fn(N) -> Vec<(N, u64)>>(f: F) -> spec_fn(N) -> Seq<(N, u64)> {
    |n: N| (choose|r: Vec<(N, u64)>| call_ensures(f, (n,), r))@
}

/// The estimates that `f` returns, node by node.
pub open spec fn estimates_of<N, F: Fn(N) -> u64>(f: F) -> spec_fn(N) -> u64 {
    |n: N| choose|r: u64| call_ensures(f, (n,), r)
}

/// The answers that `f` gives, node by node.
pub open spec fn goals_of<N, F: Fn(N) -> bool>(f: F) -> spec_fn(N) -> bool {
    |n: N| choose|r: bool| call_ensures(f, (n,), r)
}

/// `f` can be called on every node and returns one list per node.
pub open spec fn pure_successors<N, F: Fn(N) -> Vec<(N, u64)>>(f: F) -> bool {
    &&& forall|n: N| call_requires(f, (n,))
    &&& forall|n: N, r1: Vec<(N, u64)>, r2: Vec<(N, u64)>|
        call_ensures(f, (n,), r1) && call_ensures(f, (n,), r2) ==> r1@ == r2@
}

/// `f` can be called on every node and returns one estimate per node.
pub open spec fn pure_estimate<N, F: Fn(N) -> u64>(f: F) -> bool {
    &&& forall|n: N| call_requires(f, (n,))
    &&& forall|n: N, r1: u64, r2: u64| call_ensures(f, (n,), r1) && call_ensures(f, (n,), r2) ==> r1 == r2
}

/// `f` can be called on every node and gives one answer per node.
pub open spec fn pure_test<N, F: Fn(N) -> bool>(f: F) -> bool {
    &&& forall|n: N| call_requires(f, (n,))
    &&& forall|n: N, r1: bool, r2: bool| call_ensures(f, (n,), r1) && call_ensures(f, (n,), r2) ==> r1 == r2
}

/// The sum of a sequence of edge costs.
pub open spec fn total_cost(ws: Seq<u64>) -> int
    decreases ws.len(),
{
    if ws.len() == 0 {
        0
    } else {
        total_cost(ws.drop_last()) + ws.last()
    }
}

/// `nodes` is a walk along `edges`, the `k`-th step costing `ws[k]`.
pub open spec fn is_walk<N>(edges: spec_fn(N) -> Seq<(N, u64)>, nodes: Seq<N>, ws: Seq<u64>) -> bool {
    &&& nodes.len() >= 1
    &&& ws.len() == nodes.len() - 1
    &&& forall|k: int| 0 <= k < ws.len() ==> #[trigger] edges(nodes[k]).contains((nodes[k + 1], ws[k]))
}

/// A walk from `start` that ends on a goal.
pub open spec fn is_goal_walk<N>(
    edges: spec_fn(N) -> Seq<(N, u64)>,
    goal: spec_fn(N) -> bool,
    start: N,
    nodes: Seq<N>,
    ws: Seq<u64>,
) -> bool {
    &&& is_walk(edges, nodes, ws)
    &&& nodes[0] == start
    &&& goal(nodes.last())
}

/// Some walk leads from `start` to `n`.
pub open spec fn reachable<N>(edges: spec_fn(N) -> Seq<(N, u64)>, start: N, n: N) -> bool {
    exists|nodes: Seq<N>, ws: Seq<u64>|
        #[trigger] is_walk(edges, nodes, ws) && nodes[0] == start && nodes.last() == n
}

/// Every node reachable from `start` lies in `u`.
pub open spec fn covers_reachable<N>(edges: spec_fn(N) -> Seq<(N, u64)>, start: N, u: Seq<N>) -> bool {
    forall|n: N| #[trigger] reachable(edges, start, n) ==> u.contains(n)
}

/// Finitely many nodes can be reached from `start`: all lie in one sequence.
pub open spec fn finitely_reachable<N>(edges: spec_fn(N) -> Seq<(N, u64)>, start: N) -> bool {
    exists|u: Seq<N>| #[trigger] covers_reachable(edges, start, u)
}

/// The estimate never exceeds the cost of a walk from a node to a goal.
pub open spec fn admissible<N>(
    edges: spec_fn(N) -> Seq<(N, u64)>,
    goal: spec_fn(N) -> bool,
    estimate: spec_fn(N) -> u64,
) -> bool {
    forall|nodes: Seq<N>, ws: Seq<u64>|
        #[trigger] is_walk(edges, nodes, ws) && goal(nodes.last()) ==> estimate(nodes[0])
            <= total_cost(ws)
}

/// No walk from `start` to a goal costs at most `u64::MAX`.
pub open spec fn no_goal_within_budget<N>(
    edges: spec_fn(N) -> Seq<(N, u64)>,
    goal: spec_fn(N) -> bool,
    start: N,
) -> bool {
    forall|nodes: Seq<N>, ws: Seq<u64>|
        #[trigger] is_goal_walk(edges, goal, start, nodes, ws) ==> total_cost(ws) > u64::MAX
}

/// No walk from `start` to a goal costs less than `cost`.
pub open spec fn no_cheaper_goal_walk<N>(
    edges: spec_fn(N) -> Seq<(N, u64)>,
    goal: spec_fn(N) -> bool,
    start: N,
    cost: u64,
) -> bool {
    forall|nodes: Seq<N>, ws: Seq<u64>|
        #[trigger] is_goal_walk(edges, goal, start, nodes, ws) ==> cost <= total_cost(ws)
}

/// `path` is a walk whose steps can be costed so that they sum to at most `cost`.
pub open spec fn walk_costs_at_most<N>(edges: spec_fn(N) -> Seq<(N, u64)>, path: Seq<N>, cost: u64) -> bool {
    exists|ws: Seq<u64>| #[trigger] is_walk(edges, path, ws) && total_cost(ws) <= cost
}

/// `path` is a walk whose steps can be costed so that they sum to `cost`.
pub open spec fn walk_costs_exactly<N>(edges: spec_fn(N) -> Seq<(N, u64)>, path: Seq<N>, cost: u64) -> bool {
    exists|ws: Seq<u64>| #[trigger] is_walk(edges, path, ws) && total_cost(ws) == cost
}

/// What a search from `start` may return. `None`: no goal walk within
/// budget exists. `Some((path, cost))`: `path` runs from `start` to a goal
/// and is a walk costing at most `cost`; with an admissible estimate it
/// costs exactly `cost` and no goal walk is cheaper.
pub open spec fn search_outcome<N>(
    edges: spec_fn(N) -> Seq<(N, u64)>,
    goal: spec_fn(N) -> bool,
    estimate: spec_fn(N) -> u64,
    start: N,
    r: Option<(Vec<N>, u64)>,
) -> bool {
    match r {
        None => no_goal_within_budget(edges, goal, start),
        Some((path, cost)) => {
            &&& path@.len() >= 1
            &&& path@[0] == start
            &&& goal(path@.last())
            &&& walk_costs_at_most(edges, path@, cost)
            &&& admissible(edges, goal, estimate) ==> no_cheaper_goal_walk(edges, goal, start, cost)
                && walk_costs_exactly(edges, path@, cost)
        },
    }
}

pub proof fn lemma_total_cost_split(ws: Seq<u64>, m: int)
    requires
        0 <= m <= ws.len(),
    ensures
        total_cost(ws) == total_cost(ws.take(m)) + total_cost(ws.skip(m)),
    decreases ws.len(),
{
    if m == ws.len() {
        assert(ws.take(m) =~= ws);
        assert(ws.skip(m) =~= Seq::<u64>::empty());
    } else {
        let dl = ws.drop_last();
        lemma_total_cost_split(dl, m);
        assert(dl.take(m) =~= ws.take(m));
        assert(ws.skip(m).drop_last() =~= dl.skip(m));
    }
}

pub proof fn lemma_total_cost_nonneg(ws: Seq<u64>)
    ensures
        total_cost(ws) >= 0,
    decreases ws.len(),
{
    if ws.len() > 0 {
        lemma_total_cost_nonneg(ws.drop_last());
    }
}

/// The prefix sums of a sequence of costs grow with the prefix.
pub proof fn lemma_total_cost_take_step(ws: Seq<u64>, k: int)
    requires
        0 <= k < ws.len(),
    ensures
        total_cost(ws.take(k + 1)) == total_cost(ws.take(k)) + ws[k],
{
    assert(ws.take(k + 1).drop_last() =~= ws.take(k));
}

pub proof fn lemma_take_le_total(ws: Seq<u64>, k: int)
    requires
        0 <= k <= ws.len(),
    ensures
        total_cost(ws.take(k)) <= total_cost(ws),
{
    lemma_total_cost_split(ws, k);
    lemma_total_cost_nonneg(ws.skip(k));
}

/// The tail of a walk from its `m`-th node is a walk.
pub proof fn lemma_walk_skip<N>(edges: spec_fn(N) -> Seq<(N, u64)>, nodes: Seq<N>, ws: Seq<u64>, m: int)
    requires
        is_walk(edges, nodes, ws),
        0 <= m < nodes.len(),
    ensures
        is_walk(edges, nodes.skip(m), ws.skip(m)),
        nodes.skip(m)[0] == nodes[m],
        nodes.skip(m).last() == nodes.last(),
{
    let ns = nodes.skip(m);
    let wt = ws.skip(m);
    assert forall|k: int| 0 <= k < wt.len() implies #[trigger] edges(ns[k]).contains(
        (ns[k + 1], wt[k]),
    ) by {
        assert(edges(nodes[k + m]).contains((nodes[k + m + 1], ws[k + m])));
    }
}

/// A walk extended by one more step is a walk.
pub proof fn lemma_walk_push<N>(edges: spec_fn(N) -> Seq<(N, u64)>, nodes: Seq<N>, ws: Seq<u64>, n: N, w: u64)
    requires
        is_walk(edges, nodes, ws),
        edges(nodes.last()).contains((n, w)),
    ensures
        is_walk(edges, nodes.push(n), ws.push(w)),
{
    let ns = nodes.push(n);
    let wt = ws.push(w);
    assert forall|k: int| 0 <= k < wt.len() implies #[trigger] edges(ns[k]).contains(
        (ns[k + 1], wt[k]),
    ) by {
        if k < ws.len() {
            assert(edges(nodes[k]).contains((nodes[k + 1], ws[k])));
        }
    }
}

} // verus!
