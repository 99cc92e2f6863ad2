//! What the two weighted searches share: the conditions that every relaxation
//! keeps, and what they imply once a goal leaves the frontier or the frontier
//! runs empty.
//!
//! A search in progress is described by the best known cost of each
//! discovered node (`dist`), the node through which it got that cost (`pred`),
//! the entries in the frontier (`waiting`) and, for the proofs alone, a rank
//! that orders nodes of equal cost along the predecessor chain and, for each
//! discovered node, a walk that costs what `dist` records (`route`).

use super::frontier::FrontierEntry;
use super::Weighted;
use vstd::multiset::Multiset;
use vstd::prelude::*;

verus! {

/// The entry under which `node` waits at its best known cost.
pub open spec fn entry_of(
    estimate: spec_fn(usize) -> usize,
    dist: Map<usize, usize>,
    node: usize,
) -> FrontierEntry {
    FrontierEntry { node, cost: (dist[node] + estimate(node)) as usize }
}

/// `node` has been expanded at its best known cost: it is no goal, and none of
/// its neighbours can be improved through it.
pub open spec fn is_closed<G: Weighted<Node = usize>>(
    graph: &G,
    dist: Map<usize, usize>,
    node: usize,
) -> bool {
    &&& !graph.spec_is_done(node)
    &&& forall|next: usize| #[trigger]
        super::has_edge(graph, node, next) ==> dist.contains_key(next) && dist[next]
            <= dist[node] + graph.spec_weight(node, next)
}

/// `route` is a walk from `start` to `node` that repeats no node, costs what
/// `dist` records for `node`, and reaches none of its nodes cheaper than
/// `dist` records for that node.
pub open spec fn route_ok<G: Weighted<Node = usize>>(
    graph: &G,
    start: usize,
    dist: Map<usize, usize>,
    route: Seq<usize>,
    node: usize,
) -> bool {
    &&& super::walk_between(graph, route, start, node)
    &&& route.no_duplicates()
    &&& super::walk_cost(graph, route) == dist[node]
    &&& forall|i: int|
        0 <= i < route.len() ==> dist.contains_key(#[trigger] route[i]) && dist[route[i]]
            <= super::walk_cost(graph, route.take(i + 1))
}

/// `a` comes before `b` in the order of cost and rank.
pub open spec fn comes_before(
    dist: Map<usize, usize>,
    rank: Map<usize, nat>,
    a: usize,
    b: usize,
) -> bool {
    dist[a] < dist[b] || (dist[a] == dist[b] && rank[a] < rank[b])
}

/// The predecessor of `node` lies one step before it, has been expanded, and
/// comes before `node` in the order of cost and rank.
pub open spec fn pred_ok<G: Weighted<Node = usize>>(
    graph: &G,
    dist: Map<usize, usize>,
    pred: Map<usize, usize>,
    rank: Map<usize, nat>,
    node: usize,
) -> bool {
    let from = pred[node];
    &&& dist.contains_key(from)
    &&& super::has_edge(graph, from, node)
    &&& !graph.spec_is_done(from)
    &&& dist[from] + graph.spec_weight(from, node) <= dist[node]
    &&& comes_before(dist, rank, from, node)
}

/// The recorded predecessors form a tree below `start` over the discovered
/// nodes.
pub open spec fn tree_ok<G: Weighted<Node = usize>>(
    graph: &G,
    start: usize,
    dist: Map<usize, usize>,
    pred: Map<usize, usize>,
    rank: Map<usize, nat>,
) -> bool {
    &&& dist.contains_key(start)
    &&& dist[start] == 0
    &&& !pred.contains_key(start)
    &&& dist.dom() =~= pred.dom().insert(start)
    &&& forall|v: usize| #[trigger] pred.contains_key(v) ==> pred_ok(graph, dist, pred, rank, v)
}

/// Every discovered node has its route.
pub open spec fn routes_ok<G: Weighted<Node = usize>>(
    graph: &G,
    start: usize,
    dist: Map<usize, usize>,
    route: Map<usize, Seq<usize>>,
) -> bool {
    forall|v: usize| #[trigger]
        dist.contains_key(v) ==> route.contains_key(v) && route_ok(graph, start, dist, route[v], v)
}

/// No entry waits under less than its node's best known cost with the
/// estimate, and every discovered node but `hole` is waiting under exactly
/// that, or closed.
pub open spec fn frontier_ok<G: Weighted<Node = usize>>(
    graph: &G,
    estimate: spec_fn(usize) -> usize,
    dist: Map<usize, usize>,
    waiting: Multiset<FrontierEntry>,
    hole: Option<usize>,
) -> bool {
    &&& forall|v: usize| #[trigger] dist.contains_key(v) ==> dist[v] + estimate(v) <= usize::MAX
    &&& forall|e: FrontierEntry| #[trigger]
        waiting.contains(e) ==> dist.contains_key(e.node) && dist[e.node] + estimate(e.node)
            <= e.cost
    &&& forall|v: usize| #[trigger]
        dist.contains_key(v) ==> hole == Some(v) || waiting.contains(entry_of(estimate, dist, v))
            || is_closed(graph, dist, v)
}

/// How far the recorded costs can still fall, summed over the nodes below `n`;
/// an undiscovered node counts as one more than any cost.
pub open spec fn slack_below(dist: Map<usize, usize>, n: nat) -> nat
    decreases n,
{
    if n == 0 {
        0
    } else {
        let node = (n - 1) as usize;
        slack_below(dist, (n - 1) as nat) + if dist.contains_key(node) {
            dist[node] as nat
        } else {
            (usize::MAX + 1) as nat
        }
    }
}

/// How far the recorded costs can still fall, summed over all nodes.
pub open spec fn slack(dist: Map<usize, usize>) -> nat {
    slack_below(dist, (usize::MAX + 1) as nat)
}

proof fn lemma_slack_below_drops(dist: Map<usize, usize>, node: usize, cost: usize, n: nat)
    requires
        n <= usize::MAX + 1,
        dist.contains_key(node) ==> cost < dist[node],
    ensures
        n <= node ==> slack_below(dist.insert(node, cost), n) == slack_below(dist, n),
        n > node ==> slack_below(dist.insert(node, cost), n) < slack_below(dist, n),
    decreases n,
{
    if n > 0 {
        lemma_slack_below_drops(dist, node, cost, (n - 1) as nat);
    }
}

/// Every improvement lowers the slack.
proof fn lemma_slack_drops(dist: Map<usize, usize>, node: usize, cost: usize)
    requires
        dist.contains_key(node) ==> cost < dist[node],
    ensures
        slack(dist.insert(node, cost)) < slack(dist),
{
    lemma_slack_below_drops(dist, node, cost, (usize::MAX + 1) as nat);
}

/// The search starts in good order.
proof fn lemma_first_ok<G: Weighted<Node = usize>>(
    graph: &G,
    start: usize,
    estimate: spec_fn(usize) -> usize,
)
    ensures
        tree_ok(
            graph,
            start,
            Map::empty().insert(start, 0usize),
            Map::empty(),
            Map::empty().insert(start, 0nat),
        ),
        routes_ok(
            graph,
            start,
            Map::empty().insert(start, 0usize),
            Map::empty().insert(start, seq![start]),
        ),
        frontier_ok(
            graph,
            estimate,
            Map::empty().insert(start, 0usize),
            Multiset::empty().insert(FrontierEntry { node: start, cost: estimate(start) }),
            None,
        ),
{
    let dist = Map::<usize, usize>::empty().insert(start, 0usize);
    let pred = Map::<usize, usize>::empty();
    let waiting = Multiset::empty().insert(FrontierEntry { node: start, cost: estimate(start) });
    let route = seq![start];
    assert(super::is_walk(graph, route));
    assert(route.take(1) =~= route);
    assert(waiting.contains(entry_of(estimate, dist, start)));
    assert(dist.dom() =~= pred.dom().insert(start));
}

/// Taking one entry out of the frontier adds none and loses no other.
proof fn lemma_remove_entry(waiting: Multiset<FrontierEntry>, gone: FrontierEntry, e: FrontierEntry)
    ensures
        waiting.remove(gone).contains(e) ==> waiting.contains(e),
        waiting.contains(e) && e != gone ==> waiting.remove(gone).contains(e),
{
    broadcast use vstd::multiset::group_multiset_axioms;

}

/// Taking an entry from the frontier in order to expand its node keeps the
/// frontier in order, with that node as the hole.
proof fn lemma_popped_to_expand<G: Weighted<Node = usize>>(
    graph: &G,
    estimate: spec_fn(usize) -> usize,
    dist: Map<usize, usize>,
    waiting: Multiset<FrontierEntry>,
    entry: FrontierEntry,
)
    requires
        frontier_ok(graph, estimate, dist, waiting, None),
        waiting.contains(entry),
    ensures
        frontier_ok(graph, estimate, dist, waiting.remove(entry), Some(entry.node)),
{
    let rest = waiting.remove(entry);
    assert forall|e: FrontierEntry| #[trigger] rest.contains(e) implies waiting.contains(e) by {
        lemma_remove_entry(waiting, entry, e);
    }
    assert forall|v: usize| #[trigger] dist.contains_key(v) implies Some(entry.node) == Some(v)
        || rest.contains(entry_of(estimate, dist, v)) || is_closed(graph, dist, v) by {
        if v != entry.node && waiting.contains(entry_of(estimate, dist, v)) {
            lemma_remove_entry(waiting, entry, entry_of(estimate, dist, v));
        }
    }
}

/// Dropping an entry that costs more than its node's best known cost with the
/// estimate keeps the frontier in order.
proof fn lemma_popped_stale<G: Weighted<Node = usize>>(
    graph: &G,
    estimate: spec_fn(usize) -> usize,
    dist: Map<usize, usize>,
    waiting: Multiset<FrontierEntry>,
    entry: FrontierEntry,
)
    requires
        frontier_ok(graph, estimate, dist, waiting, None),
        waiting.contains(entry),
        entry.cost > dist[entry.node] + estimate(entry.node),
    ensures
        frontier_ok(graph, estimate, dist, waiting.remove(entry), None),
{
    let rest = waiting.remove(entry);
    assert forall|e: FrontierEntry| #[trigger] rest.contains(e) implies waiting.contains(e) by {
        lemma_remove_entry(waiting, entry, e);
    }
    assert forall|v: usize| #[trigger] dist.contains_key(v) implies rest.contains(
        entry_of(estimate, dist, v),
    ) || is_closed(graph, dist, v) by {
        if waiting.contains(entry_of(estimate, dist, v)) {
            lemma_remove_entry(waiting, entry, entry_of(estimate, dist, v));
        }
    }
}

/// Once every neighbour of the hole has been looked at, the hole is closed.
proof fn lemma_expanded<G: Weighted<Node = usize>>(
    graph: &G,
    estimate: spec_fn(usize) -> usize,
    dist: Map<usize, usize>,
    waiting: Multiset<FrontierEntry>,
    node: usize,
)
    requires
        frontier_ok(graph, estimate, dist, waiting, Some(node)),
        dist.contains_key(node),
        !graph.spec_is_done(node),
        forall|k: int|
            0 <= k < graph.spec_moves(node).len() ==> {
                let near = #[trigger] graph.spec_moves(node)[k];
                dist.contains_key(near) && dist[near] <= dist[node] + graph.spec_weight(node, near)
            },
    ensures
        frontier_ok(graph, estimate, dist, waiting, None),
{
    assert forall|next: usize| #[trigger]
        super::has_edge(graph, node, next) implies dist.contains_key(next) && dist[next]
        <= dist[node] + graph.spec_weight(node, next) by {
        let k = choose|k: int|
            0 <= k < graph.spec_moves(node).len() && graph.spec_moves(node)[k] == next;
        assert(graph.spec_moves(node)[k] == next);
    }
    assert(is_closed(graph, dist, node));
}

/// What is recorded for a discovered node is the cost of a walk from `start`
/// that repeats no node, so that one more step from the node fits.
proof fn lemma_candidate_fits<G: Weighted<Node = usize>>(
    graph: &G,
    start: usize,
    dist: Map<usize, usize>,
    route: Map<usize, Seq<usize>>,
    from: usize,
    near: usize,
) -> (walk: Seq<usize>)
    requires
        routes_ok(graph, start, dist, route),
        dist.contains_key(from),
        super::has_edge(graph, from, near),
    ensures
        super::is_simple_extension(graph, start, walk, near),
        walk.last() == from,
        super::walk_cost(graph, walk) == dist[from],
        super::steps_fit(graph, start) ==> dist[from] + graph.spec_weight(from, near)
            <= usize::MAX,
{
    assert(route_ok(graph, start, dist, route[from], from));
    assert(super::is_simple_extension(graph, start, route[from], near));
    route[from]
}

/// A relaxation that improves on what is recorded keeps the predecessors a
/// tree.
proof fn lemma_relaxed_tree<G: Weighted<Node = usize>>(
    graph: &G,
    start: usize,
    dist: Map<usize, usize>,
    pred: Map<usize, usize>,
    rank: Map<usize, nat>,
    from: usize,
    near: usize,
    cost: usize,
)
    requires
        tree_ok(graph, start, dist, pred, rank),
        dist.contains_key(from),
        !graph.spec_is_done(from),
        super::has_edge(graph, from, near),
        cost == dist[from] + graph.spec_weight(from, near),
        !dist.contains_key(near) || cost < dist[near],
    ensures
        tree_ok(
            graph,
            start,
            dist.insert(near, cost),
            pred.insert(near, from),
            rank.insert(near, rank[from] + 1),
        ),
        near != start,
        near != from,
{
    let dist2 = dist.insert(near, cost);
    let pred2 = pred.insert(near, from);
    let rank2 = rank.insert(near, rank[from] + 1);
    assert(dist2.dom() =~= pred2.dom().insert(start));
    assert forall|v: usize| #[trigger] pred2.contains_key(v) implies pred_ok(
        graph,
        dist2,
        pred2,
        rank2,
        v,
    ) by {
        if v != near {
            assert(pred_ok(graph, dist, pred, rank, v));
        }
    }
}

/// A relaxation that improves on what is recorded keeps the routes in order.
proof fn lemma_relaxed_routes<G: Weighted<Node = usize>>(
    graph: &G,
    start: usize,
    dist: Map<usize, usize>,
    route: Map<usize, Seq<usize>>,
    from: usize,
    near: usize,
    cost: usize,
)
    requires
        routes_ok(graph, start, dist, route),
        dist.contains_key(from),
        super::has_edge(graph, from, near),
        cost == dist[from] + graph.spec_weight(from, near),
        !dist.contains_key(near) || cost < dist[near],
    ensures
        routes_ok(
            graph,
            start,
            dist.insert(near, cost),
            route.insert(near, route[from].push(near)),
        ),
{
    let dist2 = dist.insert(near, cost);
    let way = route[from];
    let longer = way.push(near);
    let route2 = route.insert(near, longer);
    assert(route_ok(graph, start, dist, way, from));
    super::lemma_walk_push(graph, way, near);
    super::lemma_cost_push(graph, way, near);
    assert forall|i: int| 0 <= i < way.len() implies way[i] != near by {
        super::lemma_cost_prefix(graph, way, i + 1);
    }
    assert(longer.no_duplicates());
    assert forall|i: int| 0 <= i < longer.len() implies dist2.contains_key(#[trigger] longer[i])
        && dist2[longer[i]] <= super::walk_cost(graph, longer.take(i + 1)) by {
        if i < way.len() {
            assert(longer.take(i + 1) =~= way.take(i + 1));
            assert(dist.contains_key(way[i]));
        } else {
            assert(longer.take(i + 1) =~= longer);
        }
    }
    assert(route_ok(graph, start, dist2, longer, near));
    assert forall|v: usize| #[trigger] dist2.contains_key(v) implies route2.contains_key(v)
        && route_ok(graph, start, dist2, route2[v], v) by {
        if v != near {
            let r = route[v];
            assert(route_ok(graph, start, dist, r, v));
            assert forall|i: int| 0 <= i < r.len() implies dist2.contains_key(#[trigger] r[i])
                && dist2[r[i]] <= super::walk_cost(graph, r.take(i + 1)) by {
                assert(dist.contains_key(r[i]));
            }
        }
    }
}

/// A relaxation that improves on what is recorded and puts the node on the
/// frontier keeps the frontier in order.
proof fn lemma_relaxed_frontier<G: Weighted<Node = usize>>(
    graph: &G,
    estimate: spec_fn(usize) -> usize,
    dist: Map<usize, usize>,
    waiting: Multiset<FrontierEntry>,
    from: usize,
    near: usize,
    cost: usize,
)
    requires
        frontier_ok(graph, estimate, dist, waiting, Some(from)),
        cost + estimate(near) <= usize::MAX,
        !dist.contains_key(near) || cost < dist[near],
    ensures
        frontier_ok(
            graph,
            estimate,
            dist.insert(near, cost),
            waiting.insert(FrontierEntry { node: near, cost: (cost + estimate(near)) as usize }),
            Some(from),
        ),
{
    let dist2 = dist.insert(near, cost);
    let pushed = FrontierEntry { node: near, cost: (cost + estimate(near)) as usize };
    let waiting2 = waiting.insert(pushed);
    assert forall|e: FrontierEntry| #[trigger] waiting2.contains(e) implies dist2.contains_key(
        e.node,
    ) && dist2[e.node] + estimate(e.node) <= e.cost by {
        if e != pushed {
            assert(waiting.contains(e));
        }
    }
    assert forall|v: usize| #[trigger] dist2.contains_key(v) implies Some(from) == Some(v)
        || waiting2.contains(entry_of(estimate, dist2, v)) || is_closed(graph, dist2, v) by {
        if v == near {
            assert(entry_of(estimate, dist2, v) == pushed);
        } else if v != from {
            if waiting.contains(entry_of(estimate, dist, v)) {
                assert(entry_of(estimate, dist2, v) == entry_of(estimate, dist, v));
            } else {
                assert(is_closed(graph, dist, v));
                assert forall|next: usize| #[trigger]
                    super::has_edge(graph, v, next) implies dist2.contains_key(next)
                    && dist2[next] <= dist2[v] + graph.spec_weight(v, next) by {
                    assert(dist.contains_key(next));
                }
            }
        }
    }
}

/// A walk from `start` either stays within closed nodes, and then costs no
/// less than what is recorded for its end, or passes a discovered node that is
/// not closed, and then costs no less up to there than what is recorded for
/// that node.
proof fn lemma_walk_meets_frontier<G: Weighted<Node = usize>>(
    graph: &G,
    start: usize,
    dist: Map<usize, usize>,
    walk: Seq<usize>,
) -> (at: int)
    requires
        super::is_walk(graph, walk),
        walk[0] == start,
        dist.contains_key(start),
        dist[start] == 0,
    ensures
        0 <= at < walk.len(),
        dist.contains_key(walk[at]),
        dist[walk[at]] <= super::walk_cost(graph, walk.take(at + 1)),
        !is_closed(graph, dist, walk[at]) || at == walk.len() - 1,
    decreases walk.len(),
{
    if walk.len() == 1 {
        assert(walk.take(1) =~= walk);
        0
    } else {
        let shorter = walk.drop_last();
        assert(shorter =~= walk.take(walk.len() - 1));
        super::lemma_walk_prefix(graph, walk, walk.len() - 1);
        let at = lemma_walk_meets_frontier(graph, start, dist, shorter);
        assert(shorter.take(at + 1) =~= walk.take(at + 1));
        if !is_closed(graph, dist, shorter[at]) {
            at
        } else {
            assert(super::is_step(graph, walk, walk.len() - 2));
            assert(shorter.take(at + 1) =~= shorter);
            assert(walk.take(walk.len() as int) =~= walk);
            walk.len() - 1
        }
    }
}

/// For no discovered node does `estimate` exceed what a walk from the node to
/// a goal costs.
pub open spec fn admissible_on<G: Weighted<Node = usize>>(
    graph: &G,
    estimate: spec_fn(usize) -> usize,
    dist: Map<usize, usize>,
) -> bool {
    forall|node: usize, walk: Seq<usize>|
        dist.contains_key(node) && #[trigger] super::reaches_goal(graph, walk, node) ==> estimate(
            node,
        ) <= super::walk_cost(graph, walk)
}

/// When a goal is first to leave the frontier and the estimate is admissible,
/// no walk from `start` to any goal costs less than what is recorded for that
/// goal.
proof fn lemma_goal_leaves_first<G: Weighted<Node = usize>>(
    graph: &G,
    start: usize,
    estimate: spec_fn(usize) -> usize,
    dist: Map<usize, usize>,
    waiting: Multiset<FrontierEntry>,
    entry: FrontierEntry,
    other: Seq<usize>,
)
    requires
        dist.contains_key(start),
        dist[start] == 0,
        frontier_ok(graph, estimate, dist, waiting, None),
        admissible_on(graph, estimate, dist),
        waiting.contains(entry),
        forall|x: FrontierEntry|
            waiting.contains(x) ==> super::frontier::leaves_first(entry, x),
        super::reaches_goal(graph, other, start),
    ensures
        dist[entry.node] <= super::walk_cost(graph, other),
{
    let at = lemma_walk_meets_frontier(graph, start, dist, other);
    let met = other[at];
    assert(!is_closed(graph, dist, met));
    assert(waiting.contains(entry_of(estimate, dist, met)));
    assert(super::frontier::leaves_first(entry, entry_of(estimate, dist, met)));
    super::lemma_walk_suffix(graph, other, at);
    super::lemma_cost_split(graph, other, at);
    assert(super::reaches_goal(graph, other.skip(at), met));
}

/// When a goal is first to leave the frontier of a search without estimate,
/// whatever is recorded at no more than the goal's cost is the least cost of
/// its node.
proof fn lemma_cheaper_are_least<G: Weighted<Node = usize>>(
    graph: &G,
    start: usize,
    dist: Map<usize, usize>,
    waiting: Multiset<FrontierEntry>,
    entry: FrontierEntry,
    node: usize,
    walk: Seq<usize>,
)
    requires
        dist.contains_key(start),
        dist[start] == 0,
        frontier_ok(graph, super::no_estimate(), dist, waiting, None),
        waiting.contains(entry),
        forall|x: FrontierEntry|
            waiting.contains(x) ==> super::frontier::leaves_first(entry, x),
        dist.contains_key(node),
        dist[node] <= dist[entry.node],
        super::walk_between(graph, walk, start, node),
    ensures
        dist[node] <= super::walk_cost(graph, walk),
{
    let estimate = super::no_estimate();
    let at = lemma_walk_meets_frontier(graph, start, dist, walk);
    let met = walk[at];
    super::lemma_cost_prefix(graph, walk, at + 1);
    if is_closed(graph, dist, met) {
        assert(walk.take(at + 1) =~= walk);
    } else {
        assert(waiting.contains(entry_of(estimate, dist, met)));
        assert(super::frontier::leaves_first(entry, entry_of(estimate, dist, met)));
    }
}

/// When the frontier has run empty, no goal can be reached.
proof fn lemma_frontier_empty<G: Weighted<Node = usize>>(
    graph: &G,
    start: usize,
    estimate: spec_fn(usize) -> usize,
    dist: Map<usize, usize>,
    waiting: Multiset<FrontierEntry>,
)
    requires
        dist.contains_key(start),
        dist[start] == 0,
        frontier_ok(graph, estimate, dist, waiting, None),
        waiting.len() == 0,
    ensures
        super::goal_unreachable(graph, start),
{
    assert forall|walk: Seq<usize>| !#[trigger] super::reaches_goal(graph, walk, start) by {
        if super::reaches_goal(graph, walk, start) {
            let at = lemma_walk_meets_frontier(graph, start, dist, walk);
            let met = walk[at];
            vstd::multiset::lemma_multiset_empty_len(waiting);
            assert(!waiting.contains(entry_of(estimate, dist, met)));
        }
    }
}

/// What is recorded for a discovered node is the cost of a walk to it.
proof fn lemma_recorded_is_walked<G: Weighted<Node = usize>>(
    graph: &G,
    start: usize,
    dist: Map<usize, usize>,
    route: Map<usize, Seq<usize>>,
    node: usize,
)
    requires
        routes_ok(graph, start, dist, route),
        dist.contains_key(node),
    ensures
        super::is_cost_of_walk(graph, start, node, dist[node] as nat),
{
    assert(route_ok(graph, start, dist, route[node], node));
    assert(super::walk_between(graph, route[node], start, node));
}

/// The predecessors lead from any discovered node back to `start`, along a
/// walk that repeats no node, passes no goal before its end and costs no more
/// than what is recorded for the node.
proof fn lemma_tree_chain<G: Weighted<Node = usize>>(
    graph: &G,
    start: usize,
    dist: Map<usize, usize>,
    pred: Map<usize, usize>,
    rank: Map<usize, nat>,
    node: usize,
) -> (chain: Seq<usize>)
    requires
        tree_ok(graph, start, dist, pred, rank),
        dist.contains_key(node),
    ensures
        super::is_back_chain(pred, chain, node, start),
        super::walk_between(graph, chain, start, node),
        super::stops_at_first_goal(graph, chain),
        super::walk_cost(graph, chain) <= dist[node],
        chain.no_duplicates(),
        forall|i: int|
            0 <= i < chain.len() - 1 ==> dist.contains_key(#[trigger] chain[i]) && comes_before(
                dist,
                rank,
                chain[i],
                node,
            ),
    decreases dist[node], rank[node],
{
    if node == start {
        let chain = seq![start];
        assert(super::is_walk(graph, chain));
        chain
    } else {
        assert(pred.contains_key(node));
        assert(pred_ok(graph, dist, pred, rank, node));
        let from = pred[node];
        assert(comes_before(dist, rank, from, node));
        let before = lemma_tree_chain(graph, start, dist, pred, rank, from);
        let chain = before.push(node);
        super::lemma_walk_push(graph, before, node);
        super::lemma_cost_push(graph, before, node);
        assert forall|i: int| 0 < i < chain.len() implies #[trigger] super::is_link(
            pred,
            chain,
            i,
        ) by {
            if i < before.len() {
                assert(super::is_link(pred, before, i));
            }
        }
        assert forall|i: int| 0 < i < chain.len() implies #[trigger] chain[i] != start by {
            if i < before.len() {
                assert(super::is_link(pred, before, i));
            }
        }
        assert forall|i: int| 0 <= i < chain.len() - 1 implies
            !graph.spec_is_done(#[trigger] chain[i],
        ) by {
            if i < before.len() - 1 {
                assert(!graph.spec_is_done(before[i]));
            }
        }
        assert forall|i: int| 0 <= i < chain.len() - 1 implies dist.contains_key(
            #[trigger] chain[i],
        ) && comes_before(dist, rank, chain[i], node) by {
            if i < before.len() - 1 {
                assert(comes_before(dist, rank, before[i], from));
            }
        }
        assert forall|i: int, j: int|
            0 <= i < chain.len() && 0 <= j < chain.len() && i != j implies chain[i] != chain[j] by {
            if i < before.len() && j < before.len() {
                assert(before[i] != before[j]);
            } else if i < before.len() {
                assert(comes_before(dist, rank, chain[i], node));
            } else {
                assert(comes_before(dist, rank, chain[j], node));
            }
        }
        chain
    }
}

/// What holds of a weighted search between two relaxations: the predecessors
/// form a tree, every discovered node has its route, and the frontier is in
/// order. `hole` is the node under expansion, if any.
#[verifier::opaque]
pub open spec fn search_ok<G: Weighted<Node = usize>>(
    graph: &G,
    start: usize,
    estimate: spec_fn(usize) -> usize,
    dist: Map<usize, usize>,
    pred: Map<usize, usize>,
    rank: Map<usize, nat>,
    route: Map<usize, Seq<usize>>,
    waiting: Multiset<FrontierEntry>,
    hole: Option<usize>,
) -> bool {
    &&& tree_ok(graph, start, dist, pred, rank)
    &&& routes_ok(graph, start, dist, route)
    &&& frontier_ok(graph, estimate, dist, waiting, hole)
}

/// A search that has discovered `start` and nothing else is in order.
pub proof fn lemma_search_starts<G: Weighted<Node = usize>>(
    graph: &G,
    start: usize,
    estimate: spec_fn(usize) -> usize,
)
    ensures
        search_ok(
            graph,
            start,
            estimate,
            Map::empty().insert(start, 0usize),
            Map::empty(),
            Map::empty().insert(start, 0nat),
            Map::empty().insert(start, seq![start]),
            Multiset::empty().insert(FrontierEntry { node: start, cost: estimate(start) }),
            None,
        ),
{
    reveal(search_ok);
    lemma_first_ok(graph, start, estimate);
}

/// An entry that leaves the frontier belongs to a discovered node and waited
/// under no less than the node's best known cost with the estimate; with its
/// node as the hole, the search stays in order.
pub proof fn lemma_entry_taken<G: Weighted<Node = usize>>(
    graph: &G,
    start: usize,
    estimate: spec_fn(usize) -> usize,
    dist: Map<usize, usize>,
    pred: Map<usize, usize>,
    rank: Map<usize, nat>,
    route: Map<usize, Seq<usize>>,
    waiting: Multiset<FrontierEntry>,
    entry: FrontierEntry,
)
    requires
        search_ok(graph, start, estimate, dist, pred, rank, route, waiting, None),
        waiting.contains(entry),
    ensures
        dist.contains_key(entry.node),
        dist[entry.node] + estimate(entry.node) <= entry.cost,
        search_ok(
            graph,
            start,
            estimate,
            dist,
            pred,
            rank,
            route,
            waiting.remove(entry),
            Some(entry.node),
        ),
{
    reveal(search_ok);
    lemma_popped_to_expand(graph, estimate, dist, waiting, entry);
}

/// Dropping an entry that a later improvement has overtaken keeps the search
/// in order.
pub proof fn lemma_entry_dropped<G: Weighted<Node = usize>>(
    graph: &G,
    start: usize,
    estimate: spec_fn(usize) -> usize,
    dist: Map<usize, usize>,
    pred: Map<usize, usize>,
    rank: Map<usize, nat>,
    route: Map<usize, Seq<usize>>,
    waiting: Multiset<FrontierEntry>,
    entry: FrontierEntry,
)
    requires
        search_ok(graph, start, estimate, dist, pred, rank, route, waiting, None),
        waiting.contains(entry),
        entry.cost > dist[entry.node] + estimate(entry.node),
    ensures
        search_ok(graph, start, estimate, dist, pred, rank, route, waiting.remove(entry), None),
{
    reveal(search_ok);
    lemma_popped_stale(graph, estimate, dist, waiting, entry);
}

/// A walk from `start` leads to every neighbour of a discovered node.
pub proof fn lemma_neighbour_reached<G: Weighted<Node = usize>>(
    graph: &G,
    start: usize,
    estimate: spec_fn(usize) -> usize,
    dist: Map<usize, usize>,
    pred: Map<usize, usize>,
    rank: Map<usize, nat>,
    route: Map<usize, Seq<usize>>,
    waiting: Multiset<FrontierEntry>,
    hole: Option<usize>,
    from: usize,
    near: usize,
)
    requires
        search_ok(graph, start, estimate, dist, pred, rank, route, waiting, hole),
        dist.contains_key(from),
        super::has_edge(graph, from, near),
    ensures
        super::is_reachable(graph, start, near),
{
    reveal(search_ok);
    let walk = lemma_candidate_fits(graph, start, dist, route, from, near);
    super::lemma_walk_push(graph, walk, near);
    assert(super::walk_between(graph, walk.push(near), start, near));
}

/// A relaxation that improves on what is recorded keeps the search in order
/// and lowers the slack.
pub proof fn lemma_relaxed<G: Weighted<Node = usize>>(
    graph: &G,
    start: usize,
    estimate: spec_fn(usize) -> usize,
    dist: Map<usize, usize>,
    pred: Map<usize, usize>,
    rank: Map<usize, nat>,
    route: Map<usize, Seq<usize>>,
    waiting: Multiset<FrontierEntry>,
    from: usize,
    near: usize,
    cost: usize,
)
    requires
        search_ok(graph, start, estimate, dist, pred, rank, route, waiting, Some(from)),
        dist.contains_key(from),
        !graph.spec_is_done(from),
        super::has_edge(graph, from, near),
        cost == dist[from] + graph.spec_weight(from, near),
        cost + estimate(near) <= usize::MAX,
        !dist.contains_key(near) || cost < dist[near],
    ensures
        search_ok(
            graph,
            start,
            estimate,
            dist.insert(near, cost),
            pred.insert(near, from),
            rank.insert(near, rank[from] + 1),
            route.insert(near, route[from].push(near)),
            waiting.insert(FrontierEntry { node: near, cost: (cost + estimate(near)) as usize }),
            Some(from),
        ),
        slack(dist.insert(near, cost)) < slack(dist),
        near != from,
{
    reveal(search_ok);
    lemma_relaxed_tree(graph, start, dist, pred, rank, from, near, cost);
    lemma_relaxed_routes(graph, start, dist, route, from, near, cost);
    lemma_relaxed_frontier(graph, estimate, dist, waiting, from, near, cost);
    lemma_slack_drops(dist, near, cost);
}

/// Once every neighbour of the hole has been looked at, the search is in
/// order without a hole.
pub proof fn lemma_hole_closed<G: Weighted<Node = usize>>(
    graph: &G,
    start: usize,
    estimate: spec_fn(usize) -> usize,
    dist: Map<usize, usize>,
    pred: Map<usize, usize>,
    rank: Map<usize, nat>,
    route: Map<usize, Seq<usize>>,
    waiting: Multiset<FrontierEntry>,
    node: usize,
)
    requires
        search_ok(graph, start, estimate, dist, pred, rank, route, waiting, Some(node)),
        dist.contains_key(node),
        !graph.spec_is_done(node),
        forall|k: int|
            0 <= k < graph.spec_moves(node).len() ==> {
                let near = #[trigger] graph.spec_moves(node)[k];
                dist.contains_key(near) && dist[near] <= dist[node] + graph.spec_weight(node, near)
            },
    ensures
        search_ok(graph, start, estimate, dist, pred, rank, route, waiting, None),
{
    reveal(search_ok);
    lemma_expanded(graph, estimate, dist, waiting, node);
}

/// When the frontier of a search in order has run empty, no goal can be
/// reached.
pub proof fn lemma_none_left<G: Weighted<Node = usize>>(
    graph: &G,
    start: usize,
    estimate: spec_fn(usize) -> usize,
    dist: Map<usize, usize>,
    pred: Map<usize, usize>,
    rank: Map<usize, nat>,
    route: Map<usize, Seq<usize>>,
    waiting: Multiset<FrontierEntry>,
)
    requires
        search_ok(graph, start, estimate, dist, pred, rank, route, waiting, None),
        waiting.len() == 0,
    ensures
        super::goal_unreachable(graph, start),
{
    reveal(search_ok);
    lemma_frontier_empty(graph, start, estimate, dist, waiting);
}

/// What a search in order has found when a goal is first to leave the
/// frontier: the walk that the predecessors trace to the goal, and costs that
/// are costs of walks. With an estimate that is admissible on the discovered
/// nodes the walk is a cheapest one, and without estimate every cost up to the
/// goal's is the least.
pub proof fn lemma_goal_taken<G: Weighted<Node = usize>>(
    graph: &G,
    start: usize,
    estimate: spec_fn(usize) -> usize,
    dist: Map<usize, usize>,
    pred: Map<usize, usize>,
    rank: Map<usize, nat>,
    route: Map<usize, Seq<usize>>,
    waiting: Multiset<FrontierEntry>,
    entry: FrontierEntry,
) -> (chain: Seq<usize>)
    requires
        search_ok(graph, start, estimate, dist, pred, rank, route, waiting, None),
        waiting.contains(entry),
        forall|x: FrontierEntry| waiting.contains(x) ==> super::frontier::leaves_first(entry, x),
        graph.spec_is_done(entry.node),
    ensures
        super::is_back_chain(pred, chain, entry.node, start),
        super::reaches_goal(graph, chain, start),
        super::stops_at_first_goal(graph, chain),
        chain.no_duplicates(),
        dist.contains_key(start) && dist[start] == 0,
        dist.contains_key(entry.node),
        entry.cost == dist[entry.node] + estimate(entry.node),
        super::walk_cost(graph, chain) <= dist[entry.node],
        forall|v: usize| #[trigger]
            dist.contains_key(v) ==> super::is_cost_of_walk(graph, start, v, dist[v] as nat),
        admissible_on(graph, estimate, dist) ==> {
            &&& super::is_cheapest_to_goal(graph, chain, start)
            &&& dist[entry.node] == super::walk_cost(graph, chain)
        },
        estimate == super::no_estimate() ==> forall|v: usize|
            #[trigger] dist.contains_key(v) && dist[v] <= dist[entry.node] ==> super::is_least_cost(
                graph,
                start,
                v,
                dist[v] as nat,
            ),
{
    reveal(search_ok);
    let node = entry.node;
    assert(!is_closed(graph, dist, node));
    assert(super::frontier::leaves_first(entry, entry_of(estimate, dist, node)));
    let chain = lemma_tree_chain(graph, start, dist, pred, rank, node);
    assert(super::reaches_goal(graph, chain, start));
    assert forall|v: usize| #[trigger] dist.contains_key(v) implies super::is_cost_of_walk(
        graph,
        start,
        v,
        dist[v] as nat,
    ) by {
        lemma_recorded_is_walked(graph, start, dist, route, v);
    }
    if admissible_on(graph, estimate, dist) {
        assert forall|other: Seq<usize>| #[trigger]
            super::reaches_goal(graph, other, start) implies dist[node] <= super::walk_cost(
            graph,
            other,
        ) by {
            lemma_goal_leaves_first(graph, start, estimate, dist, waiting, entry, other);
        }
    }
    if estimate == super::no_estimate() {
        assert forall|v: usize| #[trigger]
            dist.contains_key(v) && dist[v] <= dist[node] implies super::is_least_cost(
            graph,
            start,
            v,
            dist[v] as nat,
        ) by {
            lemma_recorded_is_walked(graph, start, dist, route, v);
            assert forall|walk: Seq<usize>| #[trigger]
                super::walk_between(graph, walk, start, v) implies dist[v] <= super::walk_cost(
                graph,
                walk,
            ) by {
                lemma_cheaper_are_least(graph, start, dist, waiting, entry, v, walk);
            }
        }
    }
    chain
}

/// Every entry in the frontier is of a discovered node.
pub open spec fn waits_known(s: super::run::SearchState) -> bool {
    forall|e: FrontierEntry| #[trigger] s.waiting.contains(e) ==> s.dist.contains_key(e.node)
}

/// Of the entries in a frontier that is not empty, one leaves first.
pub proof fn lemma_some_leaves_first(waiting: Multiset<FrontierEntry>) -> (entry: FrontierEntry)
    requires
        waiting.len() > 0,
    ensures
        super::run::is_first_out(waiting, entry),
    decreases waiting.len(),
{
    broadcast use vstd::multiset::group_multiset_axioms;

    vstd::multiset::lemma_multiset_empty_len(waiting);
    let any = choose|e: FrontierEntry| 0 < waiting.count(e);
    let rest = waiting.remove(any);
    if rest.len() == 0 {
        vstd::multiset::lemma_multiset_empty_len(rest);
        assert forall|other: FrontierEntry| waiting.contains(other) implies
            super::frontier::leaves_first(any, other) by {
            if other != any {
                lemma_remove_entry(waiting, any, other);
                assert(rest.contains(other));
            }
        }
        any
    } else {
        let low = lemma_some_leaves_first(rest);
        lemma_remove_entry(waiting, any, low);
        let entry = if super::frontier::leaves_first(any, low) {
            any
        } else {
            low
        };
        assert forall|other: FrontierEntry| waiting.contains(other) implies
            super::frontier::leaves_first(entry, other) by {
            if other != any {
                lemma_remove_entry(waiting, any, other);
                assert(rest.contains(other));
                assert(super::frontier::leaves_first(low, other));
            }
        }
        entry
    }
}

/// Looking at the first `k` nodes of `moves` from `from` keeps every
/// discovered node on a route of its own and every waiting entry known, and
/// the sums that looking at the next node forms fit.
proof fn lemma_relax_all_fits<G: Weighted<Node = usize>>(
    graph: &G,
    start: usize,
    estimate: spec_fn(usize) -> usize,
    answers: spec_fn(usize, usize) -> bool,
    s: super::run::SearchState,
    route: Map<usize, Seq<usize>>,
    from: usize,
    base: usize,
    moves: Seq<usize>,
    k: int,
) -> (after: Map<usize, Seq<usize>>)
    requires
        super::steps_fit(graph, start),
        super::run::answers_fit(graph, start, answers),
        routes_ok(graph, start, s.dist, route),
        waits_known(s),
        s.dist.contains_key(from),
        s.dist[from] == base,
        forall|i: int| 0 <= i < moves.len() ==> super::has_edge(graph, from, #[trigger] moves[i]),
        0 <= k <= moves.len(),
    ensures
        ({
            let t = super::run::relax_all(graph, estimate, s, from, base, moves.take(k));
            &&& routes_ok(graph, start, t.dist, after)
            &&& waits_known(t)
            &&& t.dist.contains_key(from)
            &&& t.dist[from] == base
            &&& k < moves.len() ==> super::run::relax_fits(graph, answers, t, from, base, moves[k])
        }),
    decreases k,
{
    let t = super::run::relax_all(graph, estimate, s, from, base, moves.take(k));
    let after = if k == 0 {
        assert(moves.take(0) =~= Seq::<usize>::empty());
        route
    } else {
        let before = lemma_relax_all_fits(
            graph,
            start,
            estimate,
            answers,
            s,
            route,
            from,
            base,
            moves,
            k - 1,
        );
        let near = moves[k - 1];
        let u = super::run::relax_all(graph, estimate, s, from, base, moves.take(k - 1));
        assert(moves.take(k).drop_last() =~= moves.take(k - 1));
        assert(moves.take(k).last() == near);
        assert(t == super::run::relax_one(graph, estimate, u, from, base, near));
        let cost = (base + graph.spec_weight(from, near)) as usize;
        if !u.dist.contains_key(near) || cost < u.dist[near] {
            lemma_relaxed_routes(graph, start, u.dist, before, from, near, cost);
            let pushed = FrontierEntry { node: near, cost: (cost + estimate(near)) as usize };
            assert forall|e: FrontierEntry| #[trigger] t.waiting.contains(e) implies
                t.dist.contains_key(e.node) by {
                if e != pushed {
                    assert(u.waiting.contains(e));
                }
            }
            before.insert(near, before[from].push(near))
        } else {
            before
        }
    };
    if k < moves.len() {
        let walk = lemma_candidate_fits(graph, start, t.dist, after, from, moves[k]);
        assert(super::is_simple_extension(graph, start, walk, moves[k]));
    }
    after
}

/// In the state in which a search begins, the start has its route and the one
/// waiting entry is of the start.
proof fn lemma_first_known<G: Weighted<Node = usize>>(
    graph: &G,
    start: usize,
    estimate: spec_fn(usize) -> usize,
)
    ensures
        routes_ok(
            graph,
            start,
            super::run::first_state(start, estimate).dist,
            Map::empty().insert(start, seq![start]),
        ),
        waits_known(super::run::first_state(start, estimate)),
{
    broadcast use vstd::multiset::group_multiset_axioms;

    lemma_first_ok(graph, start, estimate);
}

/// After any number of steps every discovered node has its route and every
/// waiting entry is of a discovered node.
proof fn lemma_state_known<G: Weighted<Node = usize>>(
    graph: &G,
    start: usize,
    estimate: spec_fn(usize) -> usize,
    answers: spec_fn(usize, usize) -> bool,
    skip_stale: bool,
    m: nat,
) -> (route: Map<usize, Seq<usize>>)
    requires
        super::steps_fit(graph, start),
        super::run::answers_fit(graph, start, answers),
    ensures
        routes_ok(
            graph,
            start,
            super::run::state_after(graph, start, estimate, skip_stale, m).dist,
            route,
        ),
        waits_known(super::run::state_after(graph, start, estimate, skip_stale, m)),
    decreases m,
{
    if m == 0 {
        lemma_first_known(graph, start, estimate);
        Map::empty().insert(start, seq![start])
    } else {
        let route = lemma_state_known(
            graph,
            start,
            estimate,
            answers,
            skip_stale,
            (m - 1) as nat,
        );
        let s = super::run::state_after(graph, start, estimate, skip_stale, (m - 1) as nat);
        if super::run::is_over(graph, s) {
            route
        } else {
            lemma_step_known(graph, start, estimate, answers, skip_stale, s, route)
        }
    }
}

/// One step keeps every discovered node on a route of its own and every
/// waiting entry known.
proof fn lemma_step_known<G: Weighted<Node = usize>>(
    graph: &G,
    start: usize,
    estimate: spec_fn(usize) -> usize,
    answers: spec_fn(usize, usize) -> bool,
    skip_stale: bool,
    s: super::run::SearchState,
    route: Map<usize, Seq<usize>>,
) -> (after: Map<usize, Seq<usize>>)
    requires
        super::steps_fit(graph, start),
        super::run::answers_fit(graph, start, answers),
        routes_ok(graph, start, s.dist, route),
        waits_known(s),
        s.waiting.len() > 0,
    ensures
        routes_ok(graph, start, super::run::step(graph, estimate, skip_stale, s).dist, after),
        waits_known(super::run::step(graph, estimate, skip_stale, s)),
{
    let entry = lemma_leaving_known(s);
    let taken = super::run::state_of(s.dist, s.pred, s.waiting.remove(entry));
    if skip_stale && entry.cost > s.dist[entry.node] {
        route
    } else {
        let moves = graph.spec_moves(entry.node);
        let after = lemma_relax_all_fits(
            graph,
            start,
            estimate,
            answers,
            taken,
            route,
            entry.node,
            s.dist[entry.node],
            moves,
            moves.len() as int,
        );
        assert(moves.take(moves.len() as int) =~= moves);
        after
    }
}

/// In a state with a frontier that is not empty, the entry that leaves first
/// is of a discovered node, and without it every waiting entry is still known.
proof fn lemma_leaving_known(s: super::run::SearchState) -> (entry: FrontierEntry)
    requires
        waits_known(s),
        s.waiting.len() > 0,
    ensures
        entry == super::run::first_out(s.waiting),
        s.waiting.contains(entry),
        s.dist.contains_key(entry.node),
        waits_known(super::run::state_of(s.dist, s.pred, s.waiting.remove(entry))),
{
    let entry = lemma_some_leaves_first(s.waiting);
    super::run::lemma_first_out_unique(s.waiting, entry);
    let taken = super::run::state_of(s.dist, s.pred, s.waiting.remove(entry));
    assert forall|e: FrontierEntry| #[trigger] taken.waiting.contains(e) implies
        taken.dist.contains_key(e.node) by {
        lemma_remove_entry(s.waiting, entry, e);
    }
    entry
}

/// The sums of a search fit where the steps of every walk from `start` that
/// repeats no node do: a search forms no sum but these.
pub proof fn lemma_run_fits<G: Weighted<Node = usize>>(
    graph: &G,
    start: usize,
    estimate: spec_fn(usize) -> usize,
    answers: spec_fn(usize, usize) -> bool,
    skip_stale: bool,
)
    requires
        super::steps_fit(graph, start),
        super::run::answers_fit(graph, start, answers),
    ensures
        super::run::run_fits(graph, start, estimate, answers, skip_stale),
{
    assert forall|m: nat| #[trigger]
        super::run::fits_at(graph, start, estimate, answers, skip_stale, m) by {
        let route = lemma_state_known(graph, start, estimate, answers, skip_stale, m);
        let s = super::run::state_after(graph, start, estimate, skip_stale, m);
        if !super::run::is_over(graph, s) {
            let entry = lemma_leaving_known(s);
            let base = s.dist[entry.node];
            if !(skip_stale && entry.cost > base) {
                let taken = super::run::state_of(s.dist, s.pred, s.waiting.remove(entry));
                let moves = graph.spec_moves(entry.node);
                assert forall|k: int| 0 <= k < moves.len() implies super::run::relax_fits(
                    graph,
                    answers,
                    #[trigger] super::run::relax_all(
                        graph,
                        estimate,
                        taken,
                        entry.node,
                        base,
                        moves.take(k),
                    ),
                    entry.node,
                    base,
                    moves[k],
                ) by {
                    lemma_relax_all_fits(
                        graph,
                        start,
                        estimate,
                        answers,
                        taken,
                        route,
                        entry.node,
                        base,
                        moves,
                        k,
                    );
                }
            }
        }
    }
}

} // verus!
