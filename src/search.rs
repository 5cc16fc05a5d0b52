//! The search driver: pops the best candidate, drops stale ones, tests the
//! goal, expands successors, and rebuilds the path once a goal is popped.
use std::hash::Hash;
use vstd::multiset::Multiset;
use vstd::prelude::*;
use vstd::std_specs::hash::obeys_key_model;

use crate::frontier::{precedes, FrontierEntry, PriorityFrontier};
use crate::graph::{
    admissible, covers_reachable, edges_of, estimates_of, finitely_reachable, goals_of,
    is_goal_walk, is_walk, lemma_take_le_total, lemma_total_cost_split,
    lemma_total_cost_take_step, lemma_walk_push, lemma_walk_skip, no_cheaper_goal_walk,
    no_goal_within_budget, pure_estimate, pure_successors, pure_test, reachable, search_outcome,
    total_cost, walk_costs_at_most, walk_costs_exactly,
};
use crate::visited::{is_parent_chain, nodes_distinct, nodes_of, record, VisitedIndex, VisitedRecord};

verus! {

/// Some queued entry for record `i` carries its current cost.
spec fn has_live_entry<N>(records: Seq<VisitedRecord<N>>, frontier: Multiset<FrontierEntry>, i: int) -> bool {
    exists|e: FrontierEntry|
        #[trigger] frontier.contains(e) && e.handle == i && e.cost_so_far == records[i].g_cost
}

/// Some record of `n` costs at most `bound`.
spec fn covered<N>(records: Seq<VisitedRecord<N>>, n: N, bound: int) -> bool {
    exists|j: int| 0 <= j < records.len() && #[trigger] records[j].node == n && records[j].g_cost <= bound
}

/// The `k`-th successor step of record `i` is accounted for: it leaves the
/// cost range, or its target is known at a cost no higher than through `i`.
spec fn step_settled<N>(edges: spec_fn(N) -> Seq<(N, u64)>, records: Seq<VisitedRecord<N>>, i: int, k: int) -> bool {
    let (s, w) = edges(records[i].node)[k];
    records[i].g_cost + w > u64::MAX || covered(records, s, records[i].g_cost + w)
}

/// Record `i` is not a goal and all its successor steps are accounted for.
spec fn expanded<N>(
    edges: spec_fn(N) -> Seq<(N, u64)>,
    goal: spec_fn(N) -> bool,
    records: Seq<VisitedRecord<N>>,
    i: int,
) -> bool {
    &&& !goal(records[i].node)
    &&& forall|k: int| 0 <= k < edges(records[i].node).len() ==> #[trigger] step_settled(edges, records, i, k)
}

/// An edge leads from record `i`'s parent to it at no more than the
/// difference of their costs.
spec fn linked<N>(edges: spec_fn(N) -> Seq<(N, u64)>, records: Seq<VisitedRecord<N>>, i: int) -> bool {
    let p = records[i].parent->0 as int;
    exists|w: u64|
        #[trigger] edges(records[p].node).contains((records[i].node, w)) && records[p].g_cost + w
            <= records[i].g_cost
}

spec fn link_cost<N>(edges: spec_fn(N) -> Seq<(N, u64)>, records: Seq<VisitedRecord<N>>, i: int) -> u64 {
    let p = records[i].parent->0 as int;
    choose|w: u64|
        #[trigger] edges(records[p].node).contains((records[i].node, w)) && records[p].g_cost + w
            <= records[i].g_cost
}

/// A queued entry names a record, costs no less than it, and its estimate
/// lies between its cost and its cost plus the node's estimate.
spec fn entry_sound<N>(estimate: spec_fn(N) -> u64, records: Seq<VisitedRecord<N>>, e: FrontierEntry) -> bool {
    &&& e.handle < records.len()
    &&& records[e.handle as int].g_cost <= e.cost_so_far <= e.estimated_total_cost
    &&& e.estimated_total_cost <= e.cost_so_far + estimate(records[e.handle as int].node)
}

/// What holds of the records and the frontier at every step of a search.
spec fn search_state<N>(
    edges: spec_fn(N) -> Seq<(N, u64)>,
    estimate: spec_fn(N) -> u64,
    start: N,
    universe: Seq<N>,
    records: Seq<VisitedRecord<N>>,
    frontier: Multiset<FrontierEntry>,
) -> bool {
    &&& records.len() >= 1
    &&& records[0] == record(start, None, 0)
    &&& nodes_distinct(records)
    &&& forall|i: int|
        0 < i < records.len() ==> (#[trigger] records[i].parent) is Some && records[i].parent->0
            < records.len() && linked(edges, records, i)
    &&& forall|i: int|
        0 <= i < records.len() ==> reachable(edges, start, #[trigger] records[i].node)
            && universe.contains(records[i].node)
    &&& forall|e: FrontierEntry| #[trigger] frontier.contains(e) ==> entry_sound(estimate, records, e)
}

/// Records `r2` are records `r1` with costs lowered and, possibly, more
/// records after them.
spec fn refines<N>(r1: Seq<VisitedRecord<N>>, r2: Seq<VisitedRecord<N>>) -> bool {
    &&& r1.len() <= r2.len()
    &&& forall|i: int|
        0 <= i < r1.len() ==> (#[trigger] r2[i]).node == r1[i].node && r2[i].g_cost <= r1[i].g_cost
}

proof fn lemma_refines_covered<N>(r1: Seq<VisitedRecord<N>>, r2: Seq<VisitedRecord<N>>)
    requires
        refines(r1, r2),
    ensures
        forall|n: N, b: int| #[trigger] covered(r1, n, b) ==> covered(r2, n, b),
{
    assert forall|n: N, b: int| #[trigger] covered(r1, n, b) implies covered(r2, n, b) by {
        let j = choose|j: int| 0 <= j < r1.len() && #[trigger] r1[j].node == n && r1[j].g_cost <= b;
        assert(r2[j].node == n);
    }
}

proof fn lemma_refines_expanded<N>(
    edges: spec_fn(N) -> Seq<(N, u64)>,
    goal: spec_fn(N) -> bool,
    r1: Seq<VisitedRecord<N>>,
    r2: Seq<VisitedRecord<N>>,
    i: int,
)
    requires
        refines(r1, r2),
        0 <= i < r1.len(),
        r2[i] == r1[i],
        expanded(edges, goal, r1, i),
    ensures
        expanded(edges, goal, r2, i),
{
    lemma_refines_covered(r1, r2);
    assert forall|k: int| 0 <= k < edges(r2[i].node).len() implies #[trigger] step_settled(
        edges,
        r2,
        i,
        k,
    ) by {
        assert(step_settled(edges, r1, i, k));
    }
}

/// The cost recorded for `n`, or one more than any cost while `n` has no
/// record. It only falls as a search goes on, which bounds the search.
spec fn potential<N>(records: Seq<VisitedRecord<N>>, n: N) -> int {
    if exists|j: int| 0 <= j < records.len() && records[j].node == n {
        records[choose|j: int| 0 <= j < records.len() && records[j].node == n].g_cost as int
    } else {
        u64::MAX + 1
    }
}

spec fn total_potential<N>(records: Seq<VisitedRecord<N>>, u: Seq<N>) -> int
    decreases u.len(),
{
    if u.len() == 0 {
        0
    } else {
        total_potential(records, u.drop_last()) + potential(records, u.last())
    }
}

proof fn lemma_potential_at<N>(records: Seq<VisitedRecord<N>>, j: int)
    requires
        nodes_distinct(records),
        0 <= j < records.len(),
    ensures
        potential(records, records[j].node) == records[j].g_cost,
{
    let n = records[j].node;
    assert(exists|j2: int| 0 <= j2 < records.len() && records[j2].node == n);
    let j2 = choose|j2: int| 0 <= j2 < records.len() && records[j2].node == n;
    assert(records[j2].node == records[j].node);
}

proof fn lemma_total_potential_nonneg<N>(records: Seq<VisitedRecord<N>>, u: Seq<N>)
    ensures
        total_potential(records, u) >= 0,
    decreases u.len(),
{
    if u.len() > 0 {
        lemma_total_potential_nonneg(records, u.drop_last());
    }
}

/// Lowering the potential of `y`, and of no other node, lowers the total
/// over any sequence holding `y`.
proof fn lemma_total_potential_drops<N>(r1: Seq<VisitedRecord<N>>, r2: Seq<VisitedRecord<N>>, u: Seq<N>, y: N)
    requires
        forall|x: N| x != y ==> potential(r2, x) == potential(r1, x),
        potential(r2, y) < potential(r1, y),
    ensures
        total_potential(r2, u) <= total_potential(r1, u),
        u.contains(y) ==> total_potential(r2, u) < total_potential(r1, u),
    decreases u.len(),
{
    if u.len() > 0 {
        let d = u.drop_last();
        lemma_total_potential_drops(r1, r2, d, y);
        if u.contains(y) && u.last() != y {
            let k = choose|k: int| 0 <= k < u.len() && u[k] == y;
            assert(d[k] == y);
        }
    }
}

/// A change of the records at one node `y` that lowers its cost, keeping
/// all other records, lowers only `y`'s potential.
proof fn lemma_potential_step<N>(r1: Seq<VisitedRecord<N>>, r2: Seq<VisitedRecord<N>>, y: N)
    requires
        nodes_distinct(r1),
        nodes_distinct(r2),
        refines(r1, r2),
        r2.len() <= r1.len() + 1,
        r2.len() == r1.len() + 1 ==> r2.last().node == y && forall|j: int|
            0 <= j < r1.len() ==> #[trigger] r1[j].node != y,
        forall|j: int| 0 <= j < r1.len() && r1[j].node != y ==> #[trigger] r2[j] == r1[j],
        exists|j: int| 0 <= j < r2.len() && #[trigger] r2[j].node == y && (j < r1.len() ==> r2[j].g_cost < r1[j].g_cost),
    ensures
        forall|x: N| x != y ==> potential(r2, x) == potential(r1, x),
        potential(r2, y) < potential(r1, y),
{
    let j = choose|j: int| 0 <= j < r2.len() && #[trigger] r2[j].node == y && (j < r1.len() ==> r2[j].g_cost < r1[j].g_cost);
    lemma_potential_at(r2, j);
    if j < r1.len() {
        lemma_potential_at(r1, j);
    }
    assert forall|x: N| x != y implies potential(r2, x) == potential(r1, x) by {
        if exists|i: int| 0 <= i < r1.len() && r1[i].node == x {
            let i = choose|i: int| 0 <= i < r1.len() && r1[i].node == x;
            lemma_potential_at(r1, i);
            lemma_potential_at(r2, i);
        } else {
            assert forall|i: int| 0 <= i < r2.len() implies r2[i].node != x by {
                if i < r1.len() {
                    assert(r2[i].node == r1[i].node);
                }
            }
        }
    }
}

/// Along a goal walk within budget that starts at a known node no dearer
/// than the walk so far, some later node is queued with a live entry no
/// dearer than the walk up to it.
proof fn lemma_live_on_walk<N>(
    edges: spec_fn(N) -> Seq<(N, u64)>,
    goal: spec_fn(N) -> bool,
    records: Seq<VisitedRecord<N>>,
    frontier: Multiset<FrontierEntry>,
    nodes: Seq<N>,
    ws: Seq<u64>,
    k: int,
    j: int,
) -> (r: (int, FrontierEntry))
    requires
        forall|i: int|
            0 <= i < records.len() ==> has_live_entry(records, frontier, i) || expanded(
                edges,
                goal,
                records,
                i,
            ),
        is_walk(edges, nodes, ws),
        goal(nodes.last()),
        total_cost(ws) <= u64::MAX,
        0 <= k < nodes.len(),
        0 <= j < records.len(),
        records[j].node == nodes[k],
        records[j].g_cost <= total_cost(ws.take(k)),
    ensures
        k <= r.0 < nodes.len(),
        frontier.contains(r.1),
        r.1.handle < records.len(),
        records[r.1.handle as int].node == nodes[r.0],
        r.1.cost_so_far <= total_cost(ws.take(r.0)),
    decreases nodes.len() - k,
{
    if has_live_entry(records, frontier, j) {
        let e = choose|e: FrontierEntry|
            #[trigger] frontier.contains(e) && e.handle == j && e.cost_so_far == records[j].g_cost;
        (k, e)
    } else {
        assert(expanded(edges, goal, records, j));
        assert(k + 1 < nodes.len());
        let en = edges(nodes[k]);
        assert(en.contains((nodes[k + 1], ws[k])));
        let idx = choose|idx: int| 0 <= idx < en.len() && en[idx] == (nodes[k + 1], ws[k]);
        assert(step_settled(edges, records, j, idx));
        lemma_total_cost_take_step(ws, k);
        lemma_take_le_total(ws, k + 1);
        let j2 = choose|j2: int|
            0 <= j2 < records.len() && #[trigger] records[j2].node == nodes[k + 1]
                && records[j2].g_cost <= records[j].g_cost + ws[k];
        lemma_live_on_walk(edges, goal, records, frontier, nodes, ws, k + 1, j2)
    }
}

/// Every record's parent chain, read as nodes, is a walk from the start
/// whose steps cost no more than the record.
proof fn lemma_chain_walk<N>(
    edges: spec_fn(N) -> Seq<(N, u64)>,
    estimate: spec_fn(N) -> u64,
    start: N,
    universe: Seq<N>,
    records: Seq<VisitedRecord<N>>,
    frontier: Multiset<FrontierEntry>,
    hs: Seq<usize>,
    h: usize,
)
    requires
        search_state(edges, estimate, start, universe, records, frontier),
        is_parent_chain(records, hs, h),
    ensures
        nodes_of(records, hs)[0] == start,
        nodes_of(records, hs).last() == records[h as int].node,
        walk_costs_at_most(edges, nodes_of(records, hs), records[h as int].g_cost),
{
    let nodes = nodes_of(records, hs);
    let ws = Seq::new((hs.len() - 1) as nat, |k: int| link_cost(edges, records, hs[k + 1] as int));
    assert(hs[0] == 0) by {
        if hs[0] != 0 {
            assert(records[hs[0] as int].parent is Some);
        }
    }
    assert forall|k: int| 0 <= k < ws.len() implies #[trigger] edges(nodes[k]).contains(
        (nodes[k + 1], ws[k]),
    ) by {
        let i = hs[k + 1] as int;
        assert(records[i].parent == Some(hs[k]));
        assert(linked(edges, records, i));
    }
    assert forall|k: int| 0 <= k < hs.len() implies total_cost(ws.take(k)) <= records[
        #[trigger] hs[k] as int
    ].g_cost by {
        lemma_chain_prefix(edges, records, hs, ws, k);
    }
    assert(ws.take(ws.len() as int) =~= ws);
    assert(is_walk(edges, nodes, ws));
}

proof fn lemma_chain_prefix<N>(
    edges: spec_fn(N) -> Seq<(N, u64)>,
    records: Seq<VisitedRecord<N>>,
    hs: Seq<usize>,
    ws: Seq<u64>,
    k: int,
)
    requires
        hs.len() >= 1,
        records.len() >= 1,
        records[0].parent is None,
        forall|m: int| 0 <= m < hs.len() ==> #[trigger] hs[m] < records.len(),
        forall|m: int| 0 < m < hs.len() ==> records[#[trigger] hs[m] as int].parent == Some(hs[m - 1]),
        forall|i: int|
            0 < i < records.len() ==> (#[trigger] records[i].parent) is Some && records[i].parent->0
                < records.len() && linked(edges, records, i),
        ws == Seq::new((hs.len() - 1) as nat, |m: int| link_cost(edges, records, hs[m + 1] as int)),
        0 <= k < hs.len(),
    ensures
        total_cost(ws.take(k)) <= records[hs[k] as int].g_cost,
    decreases k,
{
    if k == 0 {
        assert(ws.take(0) =~= Seq::<u64>::empty());
    } else {
        lemma_chain_prefix(edges, records, hs, ws, k - 1);
        lemma_total_cost_take_step(ws, k - 1);
        let i = hs[k] as int;
        assert(records[i].parent == Some(hs[k - 1]));
        assert(linked(edges, records, i));
    }
}

/// When a goal entry that precedes every queued entry is popped at its
/// record's cost, and the estimate is admissible, no goal walk within
/// budget is cheaper.
proof fn lemma_popped_goal_cheapest<N>(
    edges: spec_fn(N) -> Seq<(N, u64)>,
    goal: spec_fn(N) -> bool,
    estimate: spec_fn(N) -> u64,
    start: N,
    universe: Seq<N>,
    records: Seq<VisitedRecord<N>>,
    frontier: Multiset<FrontierEntry>,
    e: FrontierEntry,
)
    requires
        search_state(edges, estimate, start, universe, records, frontier),
        forall|i: int|
            0 <= i < records.len() ==> has_live_entry(records, frontier, i) || expanded(
                edges,
                goal,
                records,
                i,
            ),
        frontier.contains(e),
        forall|x: FrontierEntry| frontier.contains(x) ==> precedes(e, x),
        admissible(edges, goal, estimate),
    ensures
        no_cheaper_goal_walk(edges, goal, start, e.cost_so_far),
{
    assert forall|nodes: Seq<N>, ws: Seq<u64>|
        #[trigger] is_goal_walk(edges, goal, start, nodes, ws) implies e.cost_so_far
        <= total_cost(ws) by {
        if total_cost(ws) <= u64::MAX {
            assert(ws.take(0) =~= Seq::<u64>::empty());
            let (m, l) = lemma_live_on_walk(edges, goal, records, frontier, nodes, ws, 0, 0);
            assert(entry_sound(estimate, records, l));
            assert(precedes(e, l));
            assert(entry_sound(estimate, records, e));
            lemma_walk_skip(edges, nodes, ws, m);
            assert(is_walk(edges, nodes.skip(m), ws.skip(m)));
            assert(estimate(nodes[m]) <= total_cost(ws.skip(m)));
            lemma_total_cost_split(ws, m);
        }
    }
}

/// With nothing queued, no goal walk within budget exists.
proof fn lemma_exhausted_no_goal<N>(
    edges: spec_fn(N) -> Seq<(N, u64)>,
    goal: spec_fn(N) -> bool,
    estimate: spec_fn(N) -> u64,
    start: N,
    universe: Seq<N>,
    records: Seq<VisitedRecord<N>>,
    frontier: Multiset<FrontierEntry>,
)
    requires
        search_state(edges, estimate, start, universe, records, frontier),
        forall|i: int|
            0 <= i < records.len() ==> has_live_entry(records, frontier, i) || expanded(
                edges,
                goal,
                records,
                i,
            ),
        frontier.len() == 0,
    ensures
        no_goal_within_budget(edges, goal, start),
{
    broadcast use vstd::multiset::group_multiset_axioms;

    assert forall|nodes: Seq<N>, ws: Seq<u64>|
        #[trigger] is_goal_walk(edges, goal, start, nodes, ws) implies total_cost(ws)
        > u64::MAX by {
        if total_cost(ws) <= u64::MAX {
            assert(ws.take(0) =~= Seq::<u64>::empty());
            let (m, l) = lemma_live_on_walk(edges, goal, records, frontier, nodes, ws, 0, 0);
            assert(frontier =~= Multiset::<FrontierEntry>::empty());
        }
    }
}

proof fn lemma_refines_linked<N>(
    edges: spec_fn(N) -> Seq<(N, u64)>,
    r1: Seq<VisitedRecord<N>>,
    r2: Seq<VisitedRecord<N>>,
    i: int,
)
    requires
        refines(r1, r2),
        0 <= i < r1.len(),
        r2[i] == r1[i],
        r1[i].parent is Some,
        r1[i].parent->0 < r1.len(),
        linked(edges, r1, i),
    ensures
        linked(edges, r2, i),
{
    let p = r1[i].parent->0 as int;
    let w = link_cost(edges, r1, i);
    assert(r2[p].node == r1[p].node);
    assert(edges(r2[p].node).contains((r2[i].node, w)));
}

/// After an improvement at `sh` (a lowered cost, or a new record) and the
/// push of its entry, the search state and every other record's standing
/// carry over, and the potential drops.
proof fn lemma_improvement<N>(
    edges: spec_fn(N) -> Seq<(N, u64)>,
    goal: spec_fn(N) -> bool,
    estimate: spec_fn(N) -> u64,
    start: N,
    universe: Seq<N>,
    r1: Seq<VisitedRecord<N>>,
    f1: Multiset<FrontierEntry>,
    r2: Seq<VisitedRecord<N>>,
    f2: Multiset<FrontierEntry>,
    h: usize,
    sh: int,
    s: N,
    w: u64,
    ne: FrontierEntry,
)
    requires
        search_state(edges, estimate, start, universe, r1, f1),
        covers_reachable(edges, start, universe),
        nodes_distinct(r2),
        h < r1.len(),
        edges(r1[h as int].node).contains((s, w)),
        r1[h as int].g_cost + w <= u64::MAX,
        0 <= sh <= r1.len(),
        sh < r2.len(),
        sh != h,
        r2[sh] == record(s, Some(h), (r1[h as int].g_cost + w) as u64),
        sh < r1.len() ==> r1[sh].node == s && r2[sh].g_cost < r1[sh].g_cost && r2 == r1.update(
            sh,
            r2[sh],
        ),
        sh == r1.len() ==> r2 == r1.push(r2[sh]) && forall|j: int|
            0 <= j < r1.len() ==> #[trigger] r1[j].node != s,
        ne.handle == sh,
        ne.cost_so_far == r2[sh].g_cost,
        ne.cost_so_far <= ne.estimated_total_cost <= ne.cost_so_far + estimate(s),
        f2 == f1.insert(ne),
    ensures
        search_state(edges, estimate, start, universe, r2, f2),
        refines(r1, r2),
        r2[h as int] == r1[h as int],
        forall|i: int| 0 <= i < r1.len() && i != sh ==> #[trigger] r2[i] == r1[i],
        has_live_entry(r2, f2, sh),
        covered(r2, s, r1[h as int].g_cost + w),
        total_potential(r2, universe) < total_potential(r1, universe),
{
    broadcast use vstd::multiset::group_multiset_axioms;

    assert(r2.len() == r1.len() || (r2.len() == r1.len() + 1 && sh == r1.len()));
    assert forall|i: int| 0 <= i < r1.len() implies (#[trigger] r2[i]).node == r1[i].node
        && r2[i].g_cost <= r1[i].g_cost by {
        if i != sh {
            assert(r2[i] == r1[i]);
        }
    }
    assert(refines(r1, r2));
    assert(sh != 0) by {
        if sh == 0 {
            assert(r1[0].g_cost == 0);
        }
    }
    assert forall|i: int|
        0 < i < r2.len() implies (#[trigger] r2[i].parent) is Some && r2[i].parent->0 < r2.len()
        && linked(edges, r2, i) by {
        if i == sh {
            assert(r2[h as int] == r1[h as int]);
            assert(edges(r2[h as int].node).contains((r2[i].node, w)));
            assert(r2[h as int].g_cost + w <= r2[i].g_cost);
            assert(linked(edges, r2, i));
        } else {
            assert(i < r1.len());
            assert(r2[i] == r1[i]);
            lemma_refines_linked(edges, r1, r2, i);
        }
    }
    assert forall|i: int| 0 <= i < r2.len() implies reachable(
        edges,
        start,
        #[trigger] r2[i].node,
    ) && universe.contains(r2[i].node) by {
        if i == sh {
            assert(reachable(edges, start, r1[h as int].node));
            let (nodes, ws) = choose|nodes: Seq<N>, ws: Seq<u64>|
                #[trigger] is_walk(edges, nodes, ws) && nodes[0] == start && nodes.last()
                    == r1[h as int].node;
            lemma_walk_push(edges, nodes, ws, s, w);
            assert(nodes.push(s).last() == s);
            assert(reachable(edges, start, s));
        } else {
            assert(r2[i] == r1[i]);
        }
    }
    assert forall|e: FrontierEntry| #[trigger] f2.contains(e) implies entry_sound(
        estimate,
        r2,
        e,
    ) by {
        if e != ne {
            assert(f1.contains(e));
            assert(entry_sound(estimate, r1, e));
            assert(r2[e.handle as int].node == r1[e.handle as int].node);
        }
    }
    assert(f2.contains(ne));
    lemma_potential_step(r1, r2, s);
    lemma_total_potential_drops(r1, r2, universe, s);
}

/// Best-first search from `start` for a node on which `is_goal` holds.
///
/// Candidates leave the frontier by least estimated total cost (cost so
/// far plus `heuristic`), then by least cost so far. A candidate whose cost
/// is above its node's best known cost is stale and dropped. The first
/// candidate popped on a goal ends the search: the path from `start` to it
/// and its cost are returned. A step whose cost would pass `u64::MAX` is
/// not taken. `None` means the frontier ran out.
///
/// Every returned path is a walk from `start` to a goal costing at most the
/// returned cost; with an admissible heuristic it costs exactly that, and
/// no goal walk is cheaper. `None` comes only when no goal walk costs at
/// most `u64::MAX`.
///
/// The three functions must give one answer per node, and only finitely
/// many nodes may be reachable from `start`: the search ends because each
/// of them can have its cost lowered only finitely often.
pub fn astar<N, FS, FH, FG>(start: N, successors: FS, heuristic: FH, is_goal: FG) -> (r: Option<
    (Vec<N>, u64),
>) where N: Copy + Eq + Hash, FS: Fn(N) -> Vec<(N, u64)>, FH: Fn(N) -> u64, FG: Fn(N) -> bool
    requires
        obeys_key_model::<N>(),
        pure_successors(successors),
        pure_estimate(heuristic),
        pure_test(is_goal),
        finitely_reachable(edges_of(successors), start),
    ensures
        search_outcome(edges_of(successors), goals_of(is_goal), estimates_of(heuristic), start, r),
{
    broadcast use vstd::multiset::group_multiset_axioms;

    let ghost edges = edges_of(successors);
    let ghost goal = goals_of(is_goal);
    let ghost estimate = estimates_of(heuristic);
    let ghost universe = choose|u: Seq<N>| covers_reachable(edges, start, u);
    let mut index: VisitedIndex<N> = VisitedIndex::new();
    let root = index.get_or_register(start, None, 0);
    let mut frontier = PriorityFrontier::new();
    let first = FrontierEntry { estimated_total_cost: 0, cost_so_far: 0, handle: root };
    frontier.push(first);
    proof {
        index.lemma_nodes_distinct();
        let nodes = seq![start];
        let ws = Seq::<u64>::empty();
        assert(is_walk(edges, nodes, ws));
        assert(reachable(edges, start, start));
        assert(index@[0].node == start);
        assert(frontier@.contains(first));
        assert(has_live_entry(index@, frontier@, 0));
    }
    loop
        invariant
            index.wf(),
            frontier.wf(),
            pure_successors(successors),
            pure_estimate(heuristic),
            pure_test(is_goal),
            edges == edges_of(successors),
            goal == goals_of(is_goal),
            estimate == estimates_of(heuristic),
            covers_reachable(edges, start, universe),
            search_state(edges, estimate, start, universe, index@, frontier@),
            forall|i: int|
                0 <= i < index@.len() ==> has_live_entry(index@, frontier@, i) || expanded(
                    edges,
                    goal,
                    index@,
                    i,
                ),
        decreases 2 * total_potential(index@, universe) + frontier@.len(),
    {
        let ghost r0 = index@;
        let ghost f0 = frontier@;
        proof {
            lemma_total_potential_nonneg(r0, universe);
        }
        let e = match frontier.pop_min() {
            None => {
                proof {
                    lemma_exhausted_no_goal(edges, goal, estimate, start, universe, r0, f0);
                }
                return None;
            },
            Some(e) => e,
        };
        assert(entry_sound(estimate, r0, e));
        assert(frontier@.len() + 1 == f0.len());
        let h = e.handle;
        let rec = index.record_at(h);
        if e.cost_so_far > rec.g_cost {
            proof {
                assert forall|x: FrontierEntry| #[trigger] frontier@.contains(x) implies entry_sound(
                    estimate,
                    r0,
                    x,
                ) by {
                    assert(f0.contains(x));
                }
                assert forall|i: int|
                    0 <= i < r0.len() implies has_live_entry(r0, frontier@, i) || expanded(
                        edges,
                        goal,
                        r0,
                        i,
                    ) by {
                    if has_live_entry(r0, f0, i) {
                        let l = choose|l: FrontierEntry|
                            #[trigger] f0.contains(l) && l.handle == i && l.cost_so_far
                                == r0[i].g_cost;
                        assert(l != e);
                        assert(frontier@.contains(l));
                    }
                }
            }
            continue;
        }
        let c = e.cost_so_far;
        let node = rec.node;
        let found = is_goal(node);
        proof {
            assert(goal(node) == found);
        }
        if found {
            let path = index.path_to(h);
            proof {
                let hs = choose|hs: Seq<usize>|
                    is_parent_chain(r0, hs, h) && path@ == nodes_of(r0, hs);
                lemma_chain_walk(edges, estimate, start, universe, r0, f0, hs, h);
                if admissible(edges, goal, estimate) {
                    lemma_popped_goal_cheapest(edges, goal, estimate, start, universe, r0, f0, e);
                    let ws = choose|ws: Seq<u64>| #[trigger] is_walk(edges, path@, ws) && total_cost(ws) <= c;
                    assert(is_goal_walk(edges, goal, start, path@, ws));
                    assert(walk_costs_exactly(edges, path@, c));
                }
            }
            return Some((path, c));
        }
        let succs = successors(node);
        proof {
            assert(succs@ == edges(node));
            assert forall|i: int|
                0 <= i < r0.len() && i != h implies has_live_entry(r0, frontier@, i) || expanded(
                    edges,
                    goal,
                    r0,
                    i,
                ) by {
                if has_live_entry(r0, f0, i) {
                    let l = choose|l: FrontierEntry|
                        #[trigger] f0.contains(l) && l.handle == i && l.cost_so_far == r0[i].g_cost;
                    assert(frontier@.contains(l));
                }
            }
            assert forall|x: FrontierEntry| #[trigger] frontier@.contains(x) implies entry_sound(
                estimate,
                r0,
                x,
            ) by {
                assert(f0.contains(x));
            }
        }
        let ghost m0 = 2 * total_potential(r0, universe) + f0.len();
        let mut k: usize = 0;
        while k < succs.len()
            invariant
                index.wf(),
                frontier.wf(),
                pure_estimate(heuristic),
                estimate == estimates_of(heuristic),
                covers_reachable(edges, start, universe),
                search_state(edges, estimate, start, universe, index@, frontier@),
                succs@ == edges(node),
                k <= succs.len(),
                h < index@.len(),
                index@[h as int].node == node,
                index@[h as int].g_cost == c,
                !goal(node),
                forall|i: int|
                    0 <= i < index@.len() && i != h ==> has_live_entry(index@, frontier@, i)
                        || expanded(edges, goal, index@, i),
                forall|k2: int| 0 <= k2 < k ==> #[trigger] step_settled(edges, index@, h as int, k2),
                2 * total_potential(index@, universe) + frontier@.len() < m0,
            decreases succs.len() - k,
        {
            let (s, w) = succs[k];
            let ghost r1 = index@;
            let ghost f1 = frontier@;
            proof {
                assert(edges(node)[k as int] == (s, w));
            }
            match c.checked_add(w) {
                None => {
                    assert(step_settled(edges, r1, h as int, k as int));
                },
                Some(new_g) => {
                    let (improved, sh) = index.try_improve(s, h, new_g);
                    if improved {
                        let est = heuristic(s);
                        let ne = FrontierEntry {
                            estimated_total_cost: new_g.saturating_add(est),
                            cost_so_far: new_g,
                            handle: sh,
                        };
                        frontier.push(ne);
                        proof {
                            assert(est == estimate(s));
                            assert(edges(node).contains((s, w)));
                            index.lemma_nodes_distinct();
                            assert(sh != h) by {
                                if sh == h {
                                    assert(r1[h as int].node == s);
                                }
                            }
                            lemma_improvement(
                                edges,
                                goal,
                                estimate,
                                start,
                                universe,
                                r1,
                                f1,
                                index@,
                                frontier@,
                                h,
                                sh as int,
                                s,
                                w,
                                ne,
                            );
                            let r2 = index@;
                            lemma_refines_covered(r1, r2);
                            assert forall|i: int|
                                0 <= i < r2.len() && i != h implies has_live_entry(
                                r2,
                                frontier@,
                                i,
                            ) || expanded(edges, goal, r2, i) by {
                                if i != sh {
                                    if has_live_entry(r1, f1, i) {
                                        let l = choose|l: FrontierEntry|
                                            #[trigger] f1.contains(l) && l.handle == i
                                                && l.cost_so_far == r1[i].g_cost;
                                        assert(frontier@.contains(l));
                                    } else {
                                        lemma_refines_expanded(edges, goal, r1, r2, i);
                                    }
                                }
                            }
                            assert forall|k2: int| 0 <= k2 < k + 1 implies #[trigger] step_settled(
                                edges,
                                r2,
                                h as int,
                                k2,
                            ) by {
                                if k2 < k {
                                    assert(step_settled(edges, r1, h as int, k2));
                                }
                            }
                        }
                    } else {
                        proof {
                            assert(r1[sh as int].node == s);
                            assert(covered(r1, s, c + w));
                        }
                    }
                },
            }
            k = k + 1;
        }
        proof {
            lemma_total_potential_nonneg(index@, universe);
        }
    }
}

/// Two outcomes of a search on the same inputs agree on whether a path is
/// found, and, with an admissible estimate, on its cost.
pub proof fn lemma_rerun_agrees<N>(
    edges: spec_fn(N) -> Seq<(N, u64)>,
    goal: spec_fn(N) -> bool,
    estimate: spec_fn(N) -> u64,
    start: N,
    r1: Option<(Vec<N>, u64)>,
    r2: Option<(Vec<N>, u64)>,
)
    requires
        search_outcome(edges, goal, estimate, start, r1),
        search_outcome(edges, goal, estimate, start, r2),
    ensures
        r1 is None <==> r2 is None,
        match (r1, r2) {
            (Some((_, c1)), Some((_, c2))) => admissible(edges, goal, estimate) ==> c1 == c2,
            _ => true,
        },
{
    if r1 is Some {
        lemma_found_excludes_none(edges, goal, estimate, start, r1, r2);
    }
    if r2 is Some {
        lemma_found_excludes_none(edges, goal, estimate, start, r2, r1);
    }
    if admissible(edges, goal, estimate) && r1 is Some && r2 is Some {
        lemma_found_within(edges, goal, estimate, start, r1, r2);
        lemma_found_within(edges, goal, estimate, start, r2, r1);
    }
}

proof fn lemma_found_excludes_none<N>(
    edges: spec_fn(N) -> Seq<(N, u64)>,
    goal: spec_fn(N) -> bool,
    estimate: spec_fn(N) -> u64,
    start: N,
    r1: Option<(Vec<N>, u64)>,
    r2: Option<(Vec<N>, u64)>,
)
    requires
        search_outcome(edges, goal, estimate, start, r1),
        search_outcome(edges, goal, estimate, start, r2),
        r1 is Some,
    ensures
        r2 is Some,
{
    let (path, cost) = r1->0;
    let ws = choose|ws: Seq<u64>| #[trigger] is_walk(edges, path@, ws) && total_cost(ws) <= cost;
    assert(is_goal_walk(edges, goal, start, path@, ws));
}

proof fn lemma_found_within<N>(
    edges: spec_fn(N) -> Seq<(N, u64)>,
    goal: spec_fn(N) -> bool,
    estimate: spec_fn(N) -> u64,
    start: N,
    r1: Option<(Vec<N>, u64)>,
    r2: Option<(Vec<N>, u64)>,
)
    requires
        search_outcome(edges, goal, estimate, start, r1),
        search_outcome(edges, goal, estimate, start, r2),
        admissible(edges, goal, estimate),
        r1 is Some,
        r2 is Some,
    ensures
        match (r1, r2) {
            (Some((_, c1)), Some((_, c2))) => c2 <= c1,
            _ => true,
        },
{
    let (path, cost) = r1->0;
    let ws = choose|ws: Seq<u64>| #[trigger] is_walk(edges, path@, ws) && total_cost(ws) <= cost;
    assert(is_goal_walk(edges, goal, start, path@, ws));
}

/// A search from a start from which no walk reaches a goal finds no path.
pub proof fn lemma_no_goal_walk_no_path<N>(
    edges: spec_fn(N) -> Seq<(N, u64)>,
    goal: spec_fn(N) -> bool,
    estimate: spec_fn(N) -> u64,
    start: N,
    r: Option<(Vec<N>, u64)>,
)
    requires
        search_outcome(edges, goal, estimate, start, r),
        forall|nodes: Seq<N>, ws: Seq<u64>| !#[trigger] is_goal_walk(edges, goal, start, nodes, ws),
    ensures
        r is None,
{
    if let Some((path, cost)) = r {
        let ws = choose|ws: Seq<u64>| #[trigger] is_walk(edges, path@, ws) && total_cost(ws) <= cost;
        assert(is_goal_walk(edges, goal, start, path@, ws));
    }
}

} // verus!
