//! Uniform-cost search: the frontier hands out the cheapest entry, entries
//! that a later improvement has overtaken are dropped when they come up, and
//! every neighbour of an expanded node is relaxed.

use super::frontier::Frontier;
use super::{get_path, Weighted};
use std::collections::HashMap;
use vstd::prelude::*;

verus! {

/// Searches from `start` for the goal that is cheapest to reach.
///
/// The search ends when a goal leaves the frontier, and then returns the costs
/// recorded so far together with the cheapest walk to that goal, or when the
/// frontier runs empty, which happens exactly if no walk from `start` ends in
/// a goal. Every recorded cost is the cost of some walk from `start`; those
/// that do not exceed the goal's are the least that any walk can have.
///
/// Among entries of equal cost the frontier hands out the smaller node first,
/// and a cost that only equals the recorded one replaces nothing.
///
/// The sums that the search forms on its way must fit into `usize`; what an
/// edge costs that the search never looks at does not matter.
pub fn dijkstra<G: Weighted<Node = usize>>(start: &usize, graph: &G) -> (found: Option<
    (HashMap<usize, usize>, Vec<usize>),
>)
    requires
        super::run::run_fits(graph, *start, super::no_estimate(), super::run::no_answers(), true),
    ensures
        super::run::is_found(
            graph,
            *start,
            super::no_estimate(),
            true,
            super::run::seen_as(found),
        ),
        exists|steps: nat|
            {
                &&& #[trigger] super::run::is_outcome(
                    graph,
                    *start,
                    super::no_estimate(),
                    true,
                    steps,
                    super::run::seen_as(found),
                )
                &&& found matches Some((dist, _)) ==> forall|node: usize| #[trigger]
                    super::run::was_expanded(
                        graph,
                        *start,
                        super::no_estimate(),
                        true,
                        steps,
                        node,
                    ) ==> dist@.contains_key(node) && super::is_least_cost(
                        graph,
                        *start,
                        node,
                        dist@[node] as nat,
                    )
            },
        found is None <==> super::goal_unreachable(graph, *start),
        found matches Some((dist, path)) ==> {
            &&& super::is_cheapest_to_goal(graph, path@, *start)
            &&& super::stops_at_first_goal(graph, path@)
            &&& path@.no_duplicates()
            &&& dist@.contains_key(*start) && dist@[*start] == 0
            &&& dist@.contains_key(path@.last())
            &&& dist@[path@.last()] == super::walk_cost(graph, path@)
            &&& forall|node: usize| #[trigger]
                dist@.contains_key(node) ==> super::is_cost_of_walk(
                    graph,
                    *start,
                    node,
                    dist@[node] as nat,
                )
            &&& forall|node: usize|
                #[trigger] dist@.contains_key(node) && dist@[node] <= dist@[path@.last()]
                    ==> super::is_least_cost(graph, *start, node, dist@[node] as nat)
        },
{
    let mut heap = Frontier::new();
    let mut dist: HashMap<usize, usize> = HashMap::new();
    let mut path: HashMap<usize, usize> = HashMap::new();
    heap.push(*start, 0);
    dist.insert(*start, 0);
    let ghost zero = super::no_estimate();
    let ghost mut rank: Map<usize, nat> = Map::empty().insert(*start, 0nat);
    let ghost mut route: Map<usize, Seq<usize>> = Map::empty().insert(*start, seq![*start]);
    let ghost mut steps: nat = 0;
    let ghost mut floor: usize = 0;
    let ghost mut expanded: Set<usize> = Set::empty();
    proof {
        assert(zero(*start) == 0);
        super::relax::lemma_search_starts(graph, *start, zero);
        assert(path@ =~= Map::<usize, usize>::empty());
        assert(dist@ =~= Map::<usize, usize>::empty().insert(*start, 0usize));
    }
    loop
        invariant
            heap.wf(),
            zero == super::no_estimate(),
            super::run::run_fits(graph, *start, zero, super::run::no_answers(), true),
            super::run::state_of(dist@, path@, heap@) == super::run::state_after(
                graph,
                *start,
                zero,
                true,
                steps,
            ),
            super::relax::search_ok(
                graph,
                *start,
                zero,
                dist@,
                path@,
                rank,
                route,
                heap@,
                None,
            ),
            forall|e: super::frontier::FrontierEntry| #[trigger]
                heap@.contains(e) ==> floor <= e.cost,
            forall|v: usize| #[trigger]
                expanded.contains(v) ==> dist@.contains_key(v) && dist@[v] <= floor,
            forall|v: usize| #[trigger]
                super::run::was_expanded(graph, *start, zero, true, steps, v)
                    ==> expanded.contains(v),
        decreases super::relax::slack(dist@), heap@.len(),
    {
        let ghost waiting = heap@;
        let ghost recorded = dist@;
        let entry = match heap.pop() {
            Some(entry) => entry,
            None => {
                proof {
                    super::relax::lemma_none_left(
                        graph,
                        *start,
                        zero,
                        dist@,
                        path@,
                        rank,
                        route,
                        waiting,
                    );
                    assert(super::run::is_outcome(graph, *start, zero, true, steps, None));
                }
                return None;
            },
        };
        let ghost taken = super::run::state_of(dist@, path@, heap@);
        proof {
            super::run::lemma_first_out_unique(waiting, entry);
            floor = entry.cost;
            assert forall|e: super::frontier::FrontierEntry| #[trigger]
                heap@.contains(e) implies floor <= e.cost by {
                assert(waiting.contains(e)) by {
                    broadcast use vstd::multiset::group_multiset_axioms;

                }
                assert(super::frontier::leaves_first(entry, e));
            }
        }
        let node: usize = entry.node;
        let cost: usize = entry.cost;
        if graph.is_done(&node) {
            let ghost pred = path@;
            let ghost chain = super::relax::lemma_goal_taken(
                graph,
                *start,
                zero,
                dist@,
                pred,
                rank,
                route,
                waiting,
                entry,
            );
            proof {
                assert(super::relax::admissible_on(graph, zero, dist@));
                assert forall|v: usize| #[trigger]
                    super::run::was_expanded(
                        graph,
                        *start,
                        zero,
                        true,
                        steps,
                        v,
                    ) implies dist@.contains_key(v) && super::is_least_cost(
                    graph,
                    *start,
                    v,
                    dist@[v] as nat,
                ) by {
                    assert(expanded.contains(v));
                }
            }
            let way = get_path(path, node, start);
            proof {
                super::lemma_back_chain_unique(pred, way@, chain, node, *start);
                assert(super::run::is_outcome(
                    graph,
                    *start,
                    zero,
                    true,
                    steps,
                    Some((dist@, way@)),
                ));
            }
            return Some((dist, way));
        }
        proof {
            super::relax::lemma_entry_taken(
                graph,
                *start,
                zero,
                dist@,
                path@,
                rank,
                route,
                waiting,
                entry,
            );
        }
        let best: usize = *dist.get(&node).unwrap();
        if cost > best {
            proof {
                super::relax::lemma_entry_dropped(
                    graph,
                    *start,
                    zero,
                    dist@,
                    path@,
                    rank,
                    route,
                    waiting,
                    entry,
                );
                assert forall|v: usize| #[trigger]
                    super::run::was_expanded(
                        graph,
                        *start,
                        zero,
                        true,
                        steps + 1,
                        v,
                    ) implies expanded.contains(v) by {
                    let m = choose|m: nat|
                        m < steps + 1 && #[trigger] super::run::expands_at(
                            graph,
                            *start,
                            zero,
                            true,
                            m,
                            v,
                        );
                    if m < steps {
                        assert(super::run::was_expanded(graph, *start, zero, true, steps, v));
                    }
                }
                steps = steps + 1;
            }
            continue ;
        }
        let next = graph.moves(&node);
        let mut i: usize = 0;
        proof {
            assert(next@.take(0) =~= Seq::<usize>::empty());
            assert(super::run::fits_at(graph, *start, zero, super::run::no_answers(), true, steps));
        }
        while i < next.len()
            invariant
                0 <= i <= next@.len(),
                next@ == graph.spec_moves(node),
                heap.wf(),
                zero == super::no_estimate(),
                forall|k: int|
                    0 <= k < next@.len() ==> super::run::relax_fits(
                        graph,
                        super::run::no_answers(),
                        #[trigger] super::run::relax_all(
                            graph,
                            zero,
                            taken,
                            node,
                            cost,
                            next@.take(k),
                        ),
                        node,
                        cost,
                        next@[k],
                    ),
                super::run::state_of(dist@, path@, heap@) == super::run::relax_all(
                    graph,
                    zero,
                    taken,
                    node,
                    cost,
                    next@.take(i as int),
                ),
                super::relax::search_ok(
                    graph,
                    *start,
                    zero,
                    dist@,
                    path@,
                    rank,
                    route,
                    heap@,
                    Some(node),
                ),
                dist@.contains_key(node),
                dist@[node] == cost,
                floor == cost,
                !graph.spec_is_done(node),
                forall|e: super::frontier::FrontierEntry| #[trigger]
                    heap@.contains(e) ==> floor <= e.cost,
                forall|v: usize| #[trigger]
                    expanded.contains(v) ==> dist@.contains_key(v) && dist@[v] <= floor,
                forall|k: int|
                    0 <= k < i ==> {
                        let near = #[trigger] next@[k];
                        dist@.contains_key(near) && dist@[near] <= cost + graph.spec_weight(
                            node,
                            near,
                        )
                    },
                super::relax::slack(dist@) < super::relax::slack(recorded) || (dist@ == recorded
                    && heap@.len() == waiting.len() - 1),
            decreases next@.len() - i,
        {
            let near: usize = next[i];
            proof {
                super::run::lemma_relax_next(graph, zero, taken, node, cost, next@, i as int);
                assert(next@.contains(near));
                assert(super::has_edge(graph, node, near));
                assert(super::run::relax_fits(
                    graph,
                    super::run::no_answers(),
                    super::run::relax_all(graph, zero, taken, node, cost, next@.take(i as int)),
                    node,
                    cost,
                    near,
                ));
            }
            let next_cost: usize = cost + graph.weight(&node, &near);
            let better: bool = match dist.get(&near) {
                Some(known) => next_cost < *known,
                None => true,
            };
            if better {
                proof {
                    assert(zero(near) == 0);
                    super::relax::lemma_relaxed(
                        graph,
                        *start,
                        zero,
                        dist@,
                        path@,
                        rank,
                        route,
                        heap@,
                        node,
                        near,
                        next_cost,
                    );
                }
                let ghost entries = heap@;
                heap.push(near, next_cost);
                dist.insert(near, next_cost);
                path.insert(near, node);
                proof {
                    assert forall|e: super::frontier::FrontierEntry| #[trigger]
                        heap@.contains(e) implies floor <= e.cost by {
                        broadcast use vstd::multiset::group_multiset_axioms;

                        if e.node != near || e.cost != next_cost {
                            assert(entries.contains(e));
                        }
                    }
                }
                proof {
                    rank = rank.insert(near, rank[node] + 1);
                    route = route.insert(near, route[node].push(near));
                }
            }
            i = i + 1;
        }
        proof {
            super::relax::lemma_hole_closed(
                graph,
                *start,
                zero,
                dist@,
                path@,
                rank,
                route,
                heap@,
                node,
            );
            assert(next@.take(next@.len() as int) =~= next@);
            let before = expanded;
            expanded = expanded.insert(node);
            assert forall|v: usize| #[trigger]
                super::run::was_expanded(
                    graph,
                    *start,
                    zero,
                    true,
                    steps + 1,
                    v,
                ) implies expanded.contains(v) by {
                let m = choose|m: nat|
                    m < steps + 1 && #[trigger] super::run::expands_at(
                        graph,
                        *start,
                        zero,
                        true,
                        m,
                        v,
                    );
                if m < steps {
                    assert(super::run::was_expanded(graph, *start, zero, true, steps, v));
                    assert(before.contains(v));
                }
            }
            steps = steps + 1;
        }
    }
}

/// A way to see that the sums of a search fit: every walk from `start` stays
/// within finitely many nodes, no step among them costs more than `most`, and
/// as many steps as there are nodes, each at that cost, do not exceed
/// `usize::MAX`.
pub proof fn lemma_bounded_search_fits<G: Weighted<Node = usize>>(
    graph: &G,
    start: usize,
    nodes: Set<usize>,
    most: nat,
)
    requires
        super::is_bounded_by(graph, start, nodes, most),
        nodes.len() * most <= usize::MAX,
    ensures
        super::run::run_fits(
            graph,
            start,
            super::no_estimate(),
            super::run::no_answers(),
            true,
        ),
{
    super::lemma_bounded_steps_fit(graph, start, nodes, most);
    super::run::lemma_walks_fit(
        graph,
        start,
        super::no_estimate(),
        super::run::no_answers(),
        true,
    );
}

} // verus!
