//! Heuristic-guided search: the frontier is ordered by the cost so far plus
//! an estimate of what remains, while the recorded costs stay the true costs
//! so far.

use super::frontier::Frontier;
use super::{get_path, Weighted};
use std::collections::HashMap;
use vstd::prelude::*;

verus! {

/// The estimate that `heuristic` gives for each node.
pub open spec fn estimate_of<F: Fn(&usize) -> usize>(heuristic: F) -> spec_fn(usize) -> usize {
    |node: usize| choose|r: usize| call_ensures(heuristic, (&node,), r)
}

/// What `heuristic` may answer: `answers_of(heuristic)(node, r)` tells that
/// `r` is a possible answer for `node`.
pub open spec fn answers_of<F: Fn(&usize) -> usize>(heuristic: F) -> spec_fn(usize, usize) -> bool {
    |node: usize, r: usize| call_ensures(heuristic, (&node,), r)
}

/// `heuristic` can be asked about every node that a walk from `start` reaches,
/// and answers there as a function of the node alone. Of other nodes nothing
/// is asked.
pub open spec fn is_estimator<G: Weighted<Node = usize>, F: Fn(&usize) -> usize>(
    graph: &G,
    start: usize,
    heuristic: F,
) -> bool {
    &&& forall|node: usize| #[trigger]
        super::is_reachable(graph, start, node) ==> call_requires(heuristic, (&node,))
    &&& forall|node: usize, r: usize|
        super::is_reachable(graph, start, node) && #[trigger] call_ensures(
            heuristic,
            (&node,),
            r,
        ) ==> r == estimate_of(heuristic)(node)
}

/// `heuristic` is admissible for a search from `start`: for no node that a
/// walk from `start` reaches does it answer more than a walk from that node
/// to a goal costs. What it answers elsewhere does not matter.
pub open spec fn is_admissible<G: Weighted<Node = usize>, F: Fn(&usize) -> usize>(
    graph: &G,
    start: usize,
    heuristic: F,
) -> bool {
    forall|node: usize, walk: Seq<usize>, r: usize|
        #![trigger super::reaches_goal(graph, walk, node), call_ensures(heuristic, (&node,), r)]
        super::is_reachable(graph, start, node) && super::reaches_goal(graph, walk, node)
            && call_ensures(heuristic, (&node,), r) ==> r <= super::walk_cost(graph, walk)
}

/// Searches from `start` for a goal, exploring first where the cost so far
/// plus `heuristic`'s estimate of the rest is least.
///
/// Every entry that leaves the frontier is expanded at the cost recorded for
/// its node at that moment; the estimate only orders the frontier. The search
/// ends when a goal leaves the frontier, and then returns the costs recorded so
/// far together with the walk that the predecessors trace to that goal, or when
/// the frontier runs empty, which happens exactly if no walk from `start` ends
/// in a goal. If the estimate is admissible on the nodes that a walk from
/// `start` reaches, the walk returned is a cheapest one to any goal, and the
/// cost recorded for its end is its cost.
///
/// `heuristic` is asked only about `start` and about nodes that a walk from
/// `start` reaches. The sums that the search forms on its way, each cost with
/// the estimate added, must fit into `usize`.
pub fn a_star<G: Weighted<Node = usize>, F: Fn(&usize) -> usize>(
    start: &usize,
    graph: &G,
    heuristic: F,
) -> (found: Option<(HashMap<usize, usize>, Vec<usize>)>)
    requires
        is_estimator(graph, *start, heuristic),
        super::run::run_fits(
            graph,
            *start,
            estimate_of(heuristic),
            answers_of(heuristic),
            false,
        ),
    ensures
        super::run::is_found(
            graph,
            *start,
            estimate_of(heuristic),
            false,
            super::run::seen_as(found),
        ),
        found is None <==> super::goal_unreachable(graph, *start),
        found matches Some((dist, path)) ==> {
            &&& super::reaches_goal(graph, path@, *start)
            &&& super::stops_at_first_goal(graph, path@)
            &&& path@.no_duplicates()
            &&& dist@.contains_key(*start) && dist@[*start] == 0
            &&& dist@.contains_key(path@.last())
            &&& super::walk_cost(graph, path@) <= dist@[path@.last()]
            &&& forall|node: usize| #[trigger]
                dist@.contains_key(node) ==> super::is_cost_of_walk(
                    graph,
                    *start,
                    node,
                    dist@[node] as nat,
                )
            &&& is_admissible(graph, *start, heuristic) ==> {
                &&& super::is_cheapest_to_goal(graph, path@, *start)
                &&& dist@[path@.last()] == super::walk_cost(graph, path@)
            }
        },
{
    let mut heap = Frontier::new();
    let mut dist: HashMap<usize, usize> = HashMap::new();
    let mut path: HashMap<usize, usize> = HashMap::new();
    let ghost estimate = estimate_of(heuristic);
    let ghost answers = answers_of(heuristic);
    proof {
        assert(super::walk_between(graph, seq![*start], *start, *start));
        assert(super::is_reachable(graph, *start, *start));
    }
    let first: usize = heuristic(start);
    heap.push(*start, first);
    dist.insert(*start, 0);
    let ghost mut rank: Map<usize, nat> = Map::empty().insert(*start, 0nat);
    let ghost mut route: Map<usize, Seq<usize>> = Map::empty().insert(*start, seq![*start]);
    let ghost mut steps: nat = 0;
    proof {
        assert(call_ensures(heuristic, (start,), first));
        super::relax::lemma_search_starts(graph, *start, estimate);
        assert(path@ =~= Map::<usize, usize>::empty());
        assert(dist@ =~= Map::<usize, usize>::empty().insert(*start, 0usize));
    }
    loop
        invariant
            heap.wf(),
            estimate == estimate_of(heuristic),
            answers == answers_of(heuristic),
            is_estimator(graph, *start, heuristic),
            super::run::run_fits(graph, *start, estimate, answers, false),
            forall|v: usize| #[trigger]
                dist@.contains_key(v) ==> call_ensures(heuristic, (&v,), estimate(v)),
            super::run::state_of(dist@, path@, heap@) == super::run::state_after(
                graph,
                *start,
                estimate,
                false,
                steps,
            ),
            super::relax::search_ok(
                graph,
                *start,
                estimate,
                dist@,
                path@,
                rank,
                route,
                heap@,
                None,
            ),
        decreases super::relax::slack(dist@), heap@.len(),
    {
        let ghost waiting = heap@;
        let ghost recorded = dist@;
        let entry = match heap.pop() {
            Some(entry) => entry,
            None => {
                proof {
                    super::relax::lemma_none_left(
                        graph,
                        *start,
                        estimate,
                        dist@,
                        path@,
                        rank,
                        route,
                        waiting,
                    );
                    assert(super::run::is_outcome(graph, *start, estimate, false, steps, None));
                }
                return None;
            },
        };
        let ghost taken = super::run::state_of(dist@, path@, heap@);
        proof {
            super::run::lemma_first_out_unique(waiting, entry);
        }
        let node: usize = entry.node;
        if graph.is_done(&node) {
            let ghost pred = path@;
            let ghost chain = super::relax::lemma_goal_taken(
                graph,
                *start,
                estimate,
                dist@,
                pred,
                rank,
                route,
                waiting,
                entry,
            );
            proof {
                if is_admissible(graph, *start, heuristic) {
                    assert forall|v: usize, walk: Seq<usize>|
                        dist@.contains_key(v) && #[trigger] super::reaches_goal(
                            graph,
                            walk,
                            v,
                        ) implies estimate(v) <= super::walk_cost(graph, walk) by {
                        assert(super::is_cost_of_walk(graph, *start, v, dist@[v] as nat));
                        let to = choose|to: Seq<usize>| #[trigger]
                            super::walk_between(graph, to, *start, v) && super::walk_cost(
                                graph,
                                to,
                            ) == dist@[v] as nat;
                        assert(super::walk_between(graph, to, *start, v));
                        assert(super::is_reachable(graph, *start, v));
                        assert(call_ensures(heuristic, (&v,), estimate(v)));
                    }
                    assert(super::relax::admissible_on(graph, estimate, dist@));
                }
            }
            let way = get_path(path, node, start);
            proof {
                super::lemma_back_chain_unique(pred, way@, chain, node, *start);
                assert(super::run::is_outcome(
                    graph,
                    *start,
                    estimate,
                    false,
                    steps,
                    Some((dist@, way@)),
                ));
            }
            return Some((dist, way));
        }
        proof {
            super::relax::lemma_entry_taken(
                graph,
                *start,
                estimate,
                dist@,
                path@,
                rank,
                route,
                waiting,
                entry,
            );
        }
        let cost: usize = *dist.get(&node).unwrap();
        let next = graph.moves(&node);
        let mut i: usize = 0;
        proof {
            assert(next@.take(0) =~= Seq::<usize>::empty());
            assert(super::run::fits_at(graph, *start, estimate, answers, false, steps));
        }
        while i < next.len()
            invariant
                0 <= i <= next@.len(),
                next@ == graph.spec_moves(node),
                heap.wf(),
                estimate == estimate_of(heuristic),
                answers == answers_of(heuristic),
                is_estimator(graph, *start, heuristic),
                forall|k: int|
                    0 <= k < next@.len() ==> super::run::relax_fits(
                        graph,
                        answers,
                        #[trigger] super::run::relax_all(
                            graph,
                            estimate,
                            taken,
                            node,
                            cost,
                            next@.take(k),
                        ),
                        node,
                        cost,
                        next@[k],
                    ),
                forall|v: usize| #[trigger]
                    dist@.contains_key(v) ==> call_ensures(heuristic, (&v,), estimate(v)),
                super::run::state_of(dist@, path@, heap@) == super::run::relax_all(
                    graph,
                    estimate,
                    taken,
                    node,
                    cost,
                    next@.take(i as int),
                ),
                super::relax::search_ok(
                    graph,
                    *start,
                    estimate,
                    dist@,
                    path@,
                    rank,
                    route,
                    heap@,
                    Some(node),
                ),
                dist@.contains_key(node),
                dist@[node] == cost,
                !graph.spec_is_done(node),
                forall|k: int|
                    0 <= k < i ==> {
                        let near = #[trigger] next@[k];
                        dist@.contains_key(near) && dist@[near] <= cost + graph.spec_weight(
                            node,
                            near,
                        )
                    },
                super::relax::slack(dist@) < super::relax::slack(recorded) || (dist@ == recorded
                    && heap@.len() == waiting.len() - 1),
            decreases next@.len() - i,
        {
            let near: usize = next[i];
            proof {
                super::run::lemma_relax_next(graph, estimate, taken, node, cost, next@, i as int);
                assert(next@.contains(near));
                assert(super::has_edge(graph, node, near));
                super::relax::lemma_neighbour_reached(
                    graph,
                    *start,
                    estimate,
                    dist@,
                    path@,
                    rank,
                    route,
                    heap@,
                    Some(node),
                    node,
                    near,
                );
                assert(super::run::relax_fits(
                    graph,
                    answers,
                    super::run::relax_all(graph, estimate, taken, node, cost, next@.take(i as int)),
                    node,
                    cost,
                    near,
                ));
            }
            let tentative_cost: usize = cost + graph.weight(&node, &near);
            let better: bool = match dist.get(&near) {
                Some(known) => tentative_cost < *known,
                None => true,
            };
            if better {
                let rest: usize = heuristic(&near);
                proof {
                    assert(call_ensures(heuristic, (&near,), rest));
                    assert(answers(near, rest));
                    assert(rest == estimate(near));
                    super::relax::lemma_relaxed(
                        graph,
                        *start,
                        estimate,
                        dist@,
                        path@,
                        rank,
                        route,
                        heap@,
                        node,
                        near,
                        tentative_cost,
                    );
                }
                let next_cost: usize = tentative_cost + rest;
                heap.push(near, next_cost);
                dist.insert(near, tentative_cost);
                path.insert(near, node);
                proof {
                    rank = rank.insert(near, rank[node] + 1);
                    route = route.insert(near, route[node].push(near));
                }
            }
            i = i + 1;
        }
        proof {
            super::relax::lemma_hole_closed(
                graph,
                *start,
                estimate,
                dist@,
                path@,
                rank,
                route,
                heap@,
                node,
            );
            assert(next@.take(next@.len() as int) =~= next@);
            steps = steps + 1;
        }
    }
}

/// A way to see that the sums of a guided search fit: every walk from `start`
/// stays within finitely many nodes, no step among them costs more than
/// `most`, `heuristic` never answers more than `highest`, and as many steps as
/// there are nodes, each at that cost, do not exceed `usize::MAX` with
/// `highest`.
pub proof fn lemma_bounded_run_fits<G: Weighted<Node = usize>, F: Fn(&usize) -> usize>(
    graph: &G,
    start: usize,
    heuristic: F,
    nodes: Set<usize>,
    most: nat,
    highest: nat,
)
    requires
        super::is_bounded_by(graph, start, nodes, most),
        forall|node: usize, r: usize| #[trigger]
            call_ensures(heuristic, (&node,), r) ==> r <= highest,
        nodes.len() * most + highest <= usize::MAX,
    ensures
        super::run::run_fits(
            graph,
            start,
            estimate_of(heuristic),
            answers_of(heuristic),
            false,
        ),
{
    assert(nodes.len() * most >= 0) by (nonlinear_arith);
    super::lemma_bounded_steps_fit(graph, start, nodes, most);
    let answers = answers_of(heuristic);
    assert forall|walk: Seq<usize>, next: usize, r: usize|
        #![trigger super::is_simple_extension(graph, start, walk, next), answers(next, r)]
        super::is_simple_extension(graph, start, walk, next) && answers(next, r) implies
        super::walk_cost(graph, walk) + graph.spec_weight(walk.last(), next) + r
        <= usize::MAX by {
        super::lemma_bounded_extension(graph, start, nodes, most, walk, next);
        assert(call_ensures(heuristic, (&next,), r));
    }
    super::run::lemma_walks_fit(graph, start, estimate_of(heuristic), answers, false);
}

/// An estimate that is zero everywhere is admissible.
pub proof fn lemma_zero_is_admissible<G: Weighted<Node = usize>, F: Fn(&usize) -> usize>(
    graph: &G,
    start: usize,
    heuristic: F,
)
    requires
        forall|node: usize, r: usize| #[trigger] call_ensures(heuristic, (&node,), r) ==> r == 0,
    ensures
        is_admissible(graph, start, heuristic),
{
}

/// With an estimate that is zero everywhere, the heuristic-guided search and
/// the uniform-cost search find walks of the same cost: each finds a cheapest
/// walk to a goal, and all of those cost the same.
pub proof fn lemma_zero_estimate_same_cost<G: Weighted<Node = usize>, F: Fn(&usize) -> usize>(
    graph: &G,
    start: usize,
    heuristic: F,
    guided: Seq<usize>,
    uniform: Seq<usize>,
)
    requires
        forall|node: usize, r: usize| #[trigger] call_ensures(heuristic, (&node,), r) ==> r == 0,
        is_admissible(graph, start, heuristic) ==> super::is_cheapest_to_goal(
            graph,
            guided,
            start,
        ),
        super::is_cheapest_to_goal(graph, uniform, start),
    ensures
        super::walk_cost(graph, guided) == super::walk_cost(graph, uniform),
{
    lemma_zero_is_admissible(graph, start, heuristic);
}

} // verus!
