//! The two unweighted traversals. Both keep a predecessor map and an explicit
//! frontier; they differ in the order in which the frontier is emptied and in
//! the moment at which a node counts as seen.

use super::{get_path, Graph};
use std::collections::{HashMap, HashSet, VecDeque};
use vstd::prelude::*;

verus! {

/// The predecessor map records, for every discovered node but `start`, a node
/// one step before it and one level nearer to `start`.
spec fn levels_ok<G: Graph<Node = usize>>(
    graph: &G,
    start: usize,
    pred: Map<usize, usize>,
    depth: Map<usize, nat>,
) -> bool {
    &&& depth.dom() =~= pred.dom().insert(start)
    &&& !pred.contains_key(start)
    &&& depth[start] == 0
    &&& forall|v: usize| #[trigger]
        pred.contains_key(v) ==> {
            &&& depth.contains_key(pred[v])
            &&& super::has_edge(graph, pred[v], v)
            &&& !graph.spec_is_done(pred[v])
            &&& depth[v] == depth[pred[v]] + 1
        }
}

/// No walk from `start` reaches a discovered node in fewer steps than its
/// level.
spec fn levels_least<G: Graph<Node = usize>>(
    graph: &G,
    start: usize,
    depth: Map<usize, nat>,
) -> bool {
    forall|v: usize, walk: Seq<usize>|
        depth.contains_key(v) && #[trigger] super::walk_between(graph, walk, start, v)
            ==> depth[v] < walk.len()
}

/// The expanded nodes are known, are no goals, and have all their neighbours
/// known.
spec fn expanded_ok<G: Graph<Node = usize>>(
    graph: &G,
    known: Set<usize>,
    expanded: Set<usize>,
) -> bool {
    &&& forall|u: usize| #[trigger] expanded.contains(u) ==>
        known.contains(u) && !graph.spec_is_done(u)
    &&& forall|u: usize, v: usize|
        expanded.contains(u) && #[trigger] super::has_edge(graph, u, v) ==> known.contains(
            v,
        )
}

/// The levels of the waiting nodes never fall along the queue and span at most
/// two neighbouring levels, the lower of which is `floor`.
spec fn queue_ok(queue: Seq<usize>, depth: Map<usize, nat>, floor: nat) -> bool {
    &&& forall|k: int|
        0 <= k < queue.len() ==> depth.contains_key(#[trigger] queue[k]) && floor <= depth[queue[k]]
            <= floor + 1
    &&& forall|a: int, b: int|
        0 <= a <= b < queue.len() ==> depth[#[trigger] queue[a]] <= depth[#[trigger] queue[b]]
}

/// A walk from `start` either ends in an expanded node or passes a node that
/// is known and not yet expanded.
proof fn lemma_walk_meets_open<G: Graph<Node = usize>>(
    graph: &G,
    start: usize,
    known: Set<usize>,
    expanded: Set<usize>,
    walk: Seq<usize>,
)
    requires
        super::is_walk(graph, walk),
        walk[0] == start,
        known.contains(start),
        expanded_ok(graph, known, expanded),
    ensures
        expanded.contains(walk.last()) || exists|j: int|
            0 <= j < walk.len() && known.contains(#[trigger] walk[j])
                && !expanded.contains(walk[j]),
    decreases walk.len(),
{
    if walk.len() == 1 {
        assert(known.contains(walk[0]));
    } else {
        let shorter = walk.drop_last();
        assert(shorter =~= walk.take(walk.len() - 1));
        super::lemma_walk_prefix(graph, walk, walk.len() - 1);
        lemma_walk_meets_open(graph, start, known, expanded, shorter);
        if expanded.contains(shorter.last()) {
            assert(super::is_step(graph, walk, walk.len() - 2));
            assert(known.contains(walk[walk.len() - 1]));
        } else {
            let j = choose|j: int|
                0 <= j < shorter.len() && known.contains(#[trigger] shorter[j])
                    && !expanded.contains(
                    shorter[j],
                );
            assert(walk[j] == shorter[j]);
        }
    }
}

/// The predecessors lead from any discovered node back to `start`, along a
/// walk with as many steps as the node's level.
proof fn lemma_levels_chain<G: Graph<Node = usize>>(
    graph: &G,
    start: usize,
    pred: Map<usize, usize>,
    depth: Map<usize, nat>,
    node: usize,
) -> (chain: Seq<usize>)
    requires
        levels_ok(graph, start, pred, depth),
        depth.contains_key(node),
    ensures
        super::is_back_chain(pred, chain, node, start),
        super::walk_between(graph, chain, start, node),
        super::stops_at_first_goal(graph, chain),
        chain.len() == depth[node] + 1,
        forall|i: int| 0 <= i < chain.len() ==> depth[#[trigger] chain[i]] == i,
        chain.no_duplicates(),
    decreases depth[node],
{
    if node == start {
        let chain = seq![start];
        assert(super::is_walk(graph, chain));
        chain
    } else {
        assert(pred.contains_key(node));
        let before = lemma_levels_chain(graph, start, pred, depth, pred[node]);
        let chain = before.push(node);
        super::lemma_walk_push(graph, before, node);
        assert forall|i: int| 0 <= i < chain.len() - 1 implies
            !graph.spec_is_done(#[trigger] chain[i],
        ) by {
            if i < before.len() - 1 {
                assert(!graph.spec_is_done(before[i]));
            }
        }
        assert forall|i: int, j: int|
            0 <= i < chain.len() && 0 <= j < chain.len() && i != j implies chain[i] != chain[j] by {
            assert(depth[chain[i]] == i);
            assert(depth[chain[j]] == j);
        }
        assert forall|i: int| 0 < i < chain.len() implies #[trigger] super::is_link(
            pred,
            chain,
            i,
        ) by {
            if i < before.len() {
                assert(super::is_link(pred, before, i));
            }
        }
        assert forall|i: int| 0 < i < chain.len() implies #[trigger] chain[i] != start by {
            if i < before.len() {
                assert(super::is_link(pred, before, i));
            }
        }
        chain
    }
}

/// Breadth-first search from `start` for the nearest goal.
///
/// A node counts as discovered as soon as it is put on the queue, `start`
/// from the outset, and is never queued twice. The result is a walk from
/// `start` to a goal with the fewest steps that any such walk has, which
/// repeats no node and passes no goal on its way, or `None` exactly if no walk
/// from `start` ends in a goal.
pub fn bfs<G: Graph<Node = usize>>(start: &usize, graph: &G) -> (found: Option<Vec<usize>>)
    ensures
        super::trace::is_bfs_found(
            graph,
            *start,
            super::trace::seen_as(found),
        ),
        found is None <==> super::goal_unreachable(graph, *start),
        found matches Some(path) ==> {
            &&& super::is_fewest_steps(graph, path@, *start)
            &&& super::stops_at_first_goal(graph, path@)
            &&& path@.no_duplicates()
        },
{
    let mut path: HashMap<usize, usize> = HashMap::new();
    let mut to_visit: VecDeque<usize> = VecDeque::new();
    to_visit.push_back(*start);
    let ghost mut depth: Map<usize, nat> = Map::empty().insert(*start, 0nat);
    let ghost mut expanded: Set<usize> = Set::empty();
    let ghost mut floor: nat = 0;
    let ghost mut steps: nat = 0;
    proof {
        assert(to_visit@ =~= seq![*start]);
        assert(path@ =~= Map::<usize, usize>::empty());
        assert(to_visit@[0] == *start);
        assert forall|v: usize, walk: Seq<usize>|
            depth.contains_key(v) && #[trigger] super::walk_between(
                graph,
                walk,
                *start,
                v,
            ) implies depth[v] < walk.len() by {}
    }
    loop
        invariant
            super::trace::bfs_state(to_visit@, path@) == super::trace::bfs_after(
                graph,
                *start,
                steps,
            ),
            levels_ok(graph, *start, path@, depth),
            levels_least(graph, *start, depth),
            expanded_ok(graph, depth.dom(), expanded),
            queue_ok(to_visit@, depth, floor),
            forall|v: usize| #[trigger]
                depth.contains_key(v) ==> expanded.contains(v) || to_visit@.contains(v),
        decreases Set::<usize>::full().difference(depth.dom()).len(), to_visit@.len(),
    {
        let ghost queue = to_visit@;
        let ghost unknown = Set::<usize>::full().difference(depth.dom()).len();
        let node: usize = match to_visit.pop_front() {
            Some(node) => node,
            None => {
                proof {
                    assert forall|walk: Seq<usize>| !#[trigger] super::reaches_goal(
                        graph,
                        walk,
                        *start,
                    ) by {
                        if super::reaches_goal(graph, walk, *start) {
                            lemma_walk_meets_open(graph, *start, depth.dom(), expanded, walk);
                            if !expanded.contains(walk.last()) {
                                let j = choose|j: int|
                                    0 <= j < walk.len() && depth.dom().contains(#[trigger] walk[j])
                                        && !expanded.contains(walk[j]);
                                assert(to_visit@.contains(walk[j]));
                            }
                        }
                    }
                    assert(super::trace::is_bfs_outcome(graph, *start, steps, None));
                }
                return None;
            },
        };
        let ghost taken = super::trace::bfs_state(to_visit@, path@);
        proof {
            assert(to_visit@ =~= queue.drop_first());
            assert(queue[0] == node);
            floor = depth[node];
            assert forall|v: usize| #[trigger] depth.contains_key(v) implies expanded.contains(v)
                || to_visit@.contains(v) || v == node by {
                if queue.contains(v) {
                    let k = choose|k: int| 0 <= k < queue.len() && queue[k] == v;
                    if k > 0 {
                        assert(to_visit@[k - 1] == v);
                    }
                }
            }
            assert forall|k: int| 0 <= k < to_visit@.len() implies depth.contains_key(
                #[trigger] to_visit@[k],
            ) && floor <= depth[to_visit@[k]] <= floor + 1 by {
                assert(to_visit@[k] == queue[k + 1]);
                assert(depth[queue[0]] <= depth[queue[k + 1]]);
            }
            assert forall|a: int, b: int| 0 <= a <= b < to_visit@.len() implies
                depth[#[trigger] to_visit@[a]]
                <= depth[#[trigger] to_visit@[b]] by {
                assert(to_visit@[a] == queue[a + 1]);
                assert(to_visit@[b] == queue[b + 1]);
            }
        }
        if graph.is_done(&node) {
            proof {
                let chain = lemma_levels_chain(graph, *start, path@, depth, node);
                assert forall|other: Seq<usize>| #[trigger]
                    super::reaches_goal(graph, other, *start) implies chain.len()
                    <= other.len() by {
                    lemma_walk_meets_open(graph, *start, depth.dom(), expanded, other);
                    let j = choose|j: int|
                        0 <= j < other.len() && depth.dom().contains(#[trigger] other[j])
                            && !expanded.contains(other[j]);
                    super::lemma_walk_prefix(graph, other, j + 1);
                    assert(super::walk_between(graph, other.take(j + 1), *start, other[j]));
                    if other[j] != node {
                        let k = choose|k: int| 0 <= k < to_visit@.len() && to_visit@[k] == other[j];
                        assert(floor <= depth[to_visit@[k]]);
                    }
                }
            }
            let ghost pred = path@;
            let way = get_path(path, node, start);
            proof {
                let chain = lemma_levels_chain(graph, *start, pred, depth, node);
                super::lemma_back_chain_unique(pred, way@, chain, node, *start);
                assert(super::reaches_goal(graph, way@, *start));
                assert(super::trace::is_bfs_outcome(graph, *start, steps, Some(way@)));
            }
            return Some(way);
        }
        let next = graph.moves(&node);
        let mut i: usize = 0;
        proof {
            assert(next@.take(0) =~= Seq::<usize>::empty());
        }
        while i < next.len()
            invariant
                0 <= i <= next@.len(),
                next@ == graph.spec_moves(node),
                super::trace::bfs_state(to_visit@, path@) == super::trace::bfs_visit_all(
                    taken,
                    *start,
                    node,
                    next@.take(i as int),
                ),
                levels_ok(graph, *start, path@, depth),
                levels_least(graph, *start, depth),
                expanded_ok(graph, depth.dom(), expanded),
                queue_ok(to_visit@, depth, floor),
                depth.contains_key(node),
                floor == depth[node],
                !graph.spec_is_done(node),
                forall|v: usize| #[trigger]
                    depth.contains_key(v) ==> expanded.contains(v) || to_visit@.contains(v) || v
                        == node,
                forall|k: int| 0 <= k < i ==> depth.contains_key(#[trigger] next@[k]),
                Set::<usize>::full().difference(depth.dom()).len() <= unknown,
                to_visit@.len() == queue.len() - 1 || Set::<usize>::full().difference(
                    depth.dom(),
                ).len() < unknown,
            decreases next@.len() - i,
        {
            let near: usize = next[i];
            proof {
                super::trace::lemma_bfs_visit_next(taken, *start, node, next@, i as int);
            }
            if near != *start && !path.contains_key(&near) {
                proof {
                    assert(!depth.contains_key(near));
                    assert(super::has_edge(graph, node, near));
                    assert forall|walk: Seq<usize>| #[trigger]
                        super::walk_between(graph, walk, *start, near) implies floor + 1
                        < walk.len() by {
                        lemma_walk_meets_open(graph, *start, depth.dom(), expanded, walk);
                        let j = choose|j: int|
                            0 <= j < walk.len() && depth.dom().contains(#[trigger] walk[j])
                                && !expanded.contains(walk[j]);
                        super::lemma_walk_prefix(graph, walk, j + 1);
                        assert(super::walk_between(graph, walk.take(j + 1), *start, walk[j]));
                        if walk[j] != node {
                            let k = choose|k: int| 0 <= k < to_visit@.len()
                                && to_visit@[k] == walk[j];
                            assert(floor <= depth[to_visit@[k]]);
                        }
                    }
                    <usize as vstd::set_lib::FiniteFull>::full_properties();
                    Set::<usize>::full().lemma_set_insert_diff_decreases(depth.dom(), near);
                }
                let ghost waiting = to_visit@;
                let ghost levels = depth;
                to_visit.push_back(near);
                path.insert(near, node);
                proof {
                    depth = depth.insert(near, floor + 1);
                    assert(depth.dom() =~= levels.dom().insert(near));
                    assert forall|v: usize| #[trigger] depth.contains_key(v) implies
                        expanded.contains(v)
                        || to_visit@.contains(v) || v == node by {
                        if v == near {
                            assert(to_visit@[waiting.len() as int] == near);
                        } else if waiting.contains(v) {
                            let k = choose|k: int| 0 <= k < waiting.len() && waiting[k] == v;
                            assert(to_visit@[k] == v);
                        }
                    }
                    assert forall|v: usize, walk: Seq<usize>|
                        depth.contains_key(v) && #[trigger] super::walk_between(
                            graph,
                            walk,
                            *start,
                            v,
                        ) implies depth[v] < walk.len() by {
                        if v != near {
                            assert(levels.contains_key(v));
                        }
                    }
                    assert forall|k: int| 0 <= k < to_visit@.len() implies depth.contains_key(
                        #[trigger] to_visit@[k],
                    ) && floor <= depth[to_visit@[k]] <= floor + 1 by {
                        if k < waiting.len() {
                            assert(to_visit@[k] == waiting[k]);
                            assert(levels.contains_key(waiting[k]));
                        }
                    }
                    assert forall|a: int, b: int| 0 <= a <= b < to_visit@.len() implies
                        depth[#[trigger] to_visit@[a]]
                        <= depth[#[trigger] to_visit@[b]] by {
                        if b < waiting.len() {
                            assert(to_visit@[a] == waiting[a]);
                            assert(to_visit@[b] == waiting[b]);
                            assert(levels.contains_key(waiting[a]));
                            assert(levels.contains_key(waiting[b]));
                        } else if a < waiting.len() {
                            assert(to_visit@[a] == waiting[a]);
                            assert(levels.contains_key(waiting[a]));
                        }
                    }
                    assert forall|k: int| 0 <= k < i + 1 implies depth.contains_key(
                        #[trigger] next@[k],
                    ) by {
                        if k < i {
                            assert(levels.contains_key(next@[k]));
                        }
                    }
                    assert forall|v: usize| #[trigger] path@.contains_key(v) implies {
                        &&& depth.contains_key(path@[v])
                        &&& super::has_edge(graph, path@[v], v)
                        &&& !graph.spec_is_done(path@[v])
                        &&& depth[v] == depth[path@[v]] + 1
                    } by {
                        if v != near {
                            assert(levels.contains_key(path@[v]));
                        }
                    }
                }
            }
            i = i + 1;
        }
        proof {
            assert(next@.take(next@.len() as int) =~= next@);
            steps = steps + 1;
            expanded = expanded.insert(node);
            assert forall|u: usize, v: usize|
                expanded.contains(u) && #[trigger] super::has_edge(
                    graph,
                    u,
                    v,
                ) implies depth.dom().contains(v) by {
                if u == node {
                    let k = choose|k: int| 0 <= k < next@.len() && next@[k] == v;
                    assert(depth.contains_key(next@[k]));
                }
            }
        }
    }
}

/// What the depth-first search has recorded: every predecessor was expanded,
/// is no goal, lies one step before its node, and was expanded earlier than
/// its node if that one has been expanded too.
spec fn trail_ok<G: Graph<Node = usize>>(
    graph: &G,
    start: usize,
    pred: Map<usize, usize>,
    stamp: Map<usize, nat>,
) -> bool {
    &&& !pred.contains_key(start)
    &&& forall|v: usize| #[trigger]
        pred.contains_key(v) ==> {
            &&& stamp.contains_key(pred[v])
            &&& super::has_edge(graph, pred[v], v)
            &&& !graph.spec_is_done(pred[v])
            &&& stamp.contains_key(v) ==> stamp[pred[v]] < stamp[v]
        }
    &&& forall|v: usize| #[trigger] stamp.contains_key(v) ==> v == start || pred.contains_key(v)
}

/// The predecessors lead from any expanded node back to `start`, along a walk
/// that repeats no node and passes no goal before its end.
proof fn lemma_trail_chain<G: Graph<Node = usize>>(
    graph: &G,
    start: usize,
    pred: Map<usize, usize>,
    stamp: Map<usize, nat>,
    node: usize,
) -> (chain: Seq<usize>)
    requires
        trail_ok(graph, start, pred, stamp),
        stamp.contains_key(node),
    ensures
        super::is_back_chain(pred, chain, node, start),
        super::walk_between(graph, chain, start, node),
        super::stops_at_first_goal(graph, chain),
        chain.no_duplicates(),
        forall|i: int| 0 <= i < chain.len() ==>
            stamp.contains_key(#[trigger] chain[i]) && stamp[chain[i]] <= stamp[node],
    decreases stamp[node],
{
    if node == start {
        let chain = seq![start];
        assert(super::is_walk(graph, chain));
        chain
    } else {
        assert(pred.contains_key(node));
        let before = lemma_trail_chain(graph, start, pred, stamp, pred[node]);
        let chain = before.push(node);
        super::lemma_walk_push(graph, before, node);
        assert forall|i: int| 0 < i < chain.len() implies #[trigger] super::is_link(
            pred,
            chain,
            i,
        ) by {
            if i < before.len() {
                assert(super::is_link(pred, before, i));
            }
        }
        assert forall|i: int| 0 < i < chain.len() implies #[trigger] chain[i] != start by {
            if i < before.len() {
                assert(super::is_link(pred, before, i));
            }
        }
        assert forall|i: int| 0 <= i < chain.len() - 1 implies
            !graph.spec_is_done(#[trigger] chain[i],
        ) by {
            if i < before.len() - 1 {
                assert(!graph.spec_is_done(before[i]));
            }
        }
        assert forall|i: int, j: int| 0 <= i < chain.len() && 0 <= j < chain.len() && i != j implies
            chain[i] != chain[j] by {
            if i < before.len() {
                assert(stamp[before[i]] <= stamp[pred[node]]);
            }
            if j < before.len() {
                assert(stamp[before[j]] <= stamp[pred[node]]);
            }
        }
        chain
    }
}

/// Depth-first search from `start` for some goal.
///
/// The frontier is a stack. A node counts as seen when it is taken from the
/// stack for the first time; until then it may lie on the stack several times,
/// and the predecessor recorded for it is the node that pushed it last. The
/// result is a walk from `start` to a goal that repeats no node and passes no
/// goal on its way, with no promise about its length, or `None` exactly if no
/// walk from `start` ends in a goal.
pub fn dfs<G: Graph<Node = usize>>(start: &usize, graph: &G) -> (found: Option<Vec<usize>>)
    ensures
        super::trace::is_dfs_found(
            graph,
            *start,
            super::trace::seen_as(found),
        ),
        found is None <==> super::goal_unreachable(graph, *start),
        found matches Some(path) ==> {
            &&& super::reaches_goal(graph, path@, *start)
            &&& super::stops_at_first_goal(graph, path@)
            &&& path@.no_duplicates()
        },
{
    let mut path: HashMap<usize, usize> = HashMap::new();
    let mut seen: HashSet<usize> = HashSet::new();
    let mut to_visit: Vec<usize> = Vec::new();
    to_visit.push(*start);
    let ghost mut stamp: Map<usize, nat> = Map::empty();
    let ghost mut clock: nat = 0;
    let ghost mut steps: nat = 0;
    proof {
        assert(to_visit@[0] == *start);
        assert(to_visit@ =~= seq![*start]);
        assert(path@ =~= Map::<usize, usize>::empty());
        assert(seen@ =~= Set::<usize>::empty());
    }
    loop
        invariant
            super::trace::dfs_state(to_visit@, seen@, path@) == super::trace::dfs_after(
                graph,
                *start,
                steps,
            ),
            trail_ok(graph, *start, path@, stamp),
            stamp.dom() =~= seen@,
            forall|v: usize| #[trigger] stamp.contains_key(v) ==> stamp[v] < clock,
            forall|k: int|
                0 <= k < to_visit@.len() ==>
                    #[trigger] to_visit@[k] == *start || path@.contains_key(
                    to_visit@[k],
                ),
            seen@.contains(*start) || (to_visit@ =~= seq![*start]
                && seen@ =~= Set::<usize>::empty()),
            expanded_ok(
                graph,
                Set::new(|v: usize| seen@.contains(v) || to_visit@.contains(v)),
                seen@,
            ),
        decreases Set::<usize>::full().difference(seen@).len(), to_visit@.len(),
    {
        let ghost stack = to_visit@;
        let ghost known = Set::new(|v: usize| seen@.contains(v) || stack.contains(v));
        let node: usize = match to_visit.pop() {
            Some(node) => node,
            None => {
                proof {
                    assert forall|walk: Seq<usize>| !#[trigger] super::reaches_goal(
                        graph,
                        walk,
                        *start,
                    ) by {
                        if super::reaches_goal(graph, walk, *start) {
                            lemma_walk_meets_open(graph, *start, known, seen@, walk);
                        }
                    }
                    assert(super::trace::is_dfs_outcome(graph, *start, steps, None));
                }
                return None;
            },
        };
        proof {
            assert(to_visit@ =~= stack.drop_last());
            assert(stack[stack.len() - 1] == node);
            assert forall|v: usize| known.contains(v) implies
                seen@.contains(v) || to_visit@.contains(v) || v == node by {
                if stack.contains(v) {
                    let k = choose|k: int| 0 <= k < stack.len() && stack[k] == v;
                    if k < stack.len() - 1 {
                        assert(to_visit@[k] == v);
                    }
                }
            }
        }
        if seen.contains(&node) {
            proof {
                let again = Set::new(|v: usize| seen@.contains(v) || to_visit@.contains(v));
                assert forall|u: usize, v: usize|
                    seen@.contains(u) && #[trigger] super::has_edge(
                        graph,
                        u,
                        v,
                    ) implies again.contains(v) by {
                    assert(known.contains(v));
                }
                steps = steps + 1;
            }
            continue ;
        }
        let ghost expanded = seen@;
        seen.insert(node);
        let ghost taken = super::trace::dfs_state(to_visit@, seen@, path@);
        proof {
            stamp = stamp.insert(node, clock);
            clock = clock + 1;
            assert(to_visit@ =~= stack.drop_last());
            <usize as vstd::set_lib::FiniteFull>::full_properties();
            Set::<usize>::full().lemma_set_insert_diff_decreases(expanded, node);
        }
        if graph.is_done(&node) {
            let ghost pred = path@;
            proof {
                let chain = lemma_trail_chain(graph, *start, pred, stamp, node);
            }
            let way = get_path(path, node, start);
            proof {
                let chain = lemma_trail_chain(graph, *start, pred, stamp, node);
                super::lemma_back_chain_unique(pred, way@, chain, node, *start);
                assert(super::reaches_goal(graph, way@, *start));
                assert(super::trace::is_dfs_outcome(graph, *start, steps, Some(way@)));
            }
            return Some(way);
        }
        let next = graph.moves(&node);
        let mut i: usize = 0;
        proof {
            assert(next@.take(0) =~= Seq::<usize>::empty());
        }
        while i < next.len()
            invariant
                0 <= i <= next@.len(),
                next@ == graph.spec_moves(node),
                super::trace::dfs_state(to_visit@, seen@, path@) == super::trace::dfs_visit_all(
                    taken,
                    node,
                    next@.take(i as int),
                ),
                trail_ok(graph, *start, path@, stamp),
                stamp.dom() =~= seen@,
                seen@ =~= expanded.insert(node),
                !expanded.contains(node),
                !graph.spec_is_done(node),
                seen@.contains(*start),
                forall|v: usize| #[trigger] stamp.contains_key(v) ==> stamp[v] < clock,
                forall|k: int|
                    0 <= k < to_visit@.len() ==> #[trigger] to_visit@[k] == *start
                        || path@.contains_key(to_visit@[k]),
                expanded_ok(
                    graph,
                    Set::new(|v: usize| seen@.contains(v) || to_visit@.contains(v)),
                    expanded,
                ),
                forall|k: int|
                    0 <= k < i ==>
                        seen@.contains(#[trigger] next@[k]) || to_visit@.contains(next@[k]),
            decreases next@.len() - i,
        {
            let near: usize = next[i];
            proof {
                super::trace::lemma_dfs_visit_next(taken, node, next@, i as int);
            }
            if !seen.contains(&near) {
                let ghost waiting = to_visit@;
                let ghost recorded = path@;
                to_visit.push(near);
                path.insert(near, node);
                proof {
                    assert(super::has_edge(graph, node, near));
                    assert(to_visit@[waiting.len() as int] == near);
                    assert forall|v: usize| waiting.contains(v) implies to_visit@.contains(v) by {
                        let k = choose|k: int| 0 <= k < waiting.len() && waiting[k] == v;
                        assert(to_visit@[k] == v);
                    }
                    assert forall|k: int| 0 <= k < to_visit@.len() implies #[trigger] to_visit@[k]
                        == *start || path@.contains_key(to_visit@[k]) by {
                        if k < waiting.len() {
                            assert(to_visit@[k] == waiting[k]);
                        }
                    }
                    let before = Set::new(|v: usize| seen@.contains(v) || waiting.contains(v));
                    let after = Set::new(|v: usize| seen@.contains(v) || to_visit@.contains(v));
                    assert forall|u: usize, v: usize|
                        expanded.contains(u) && #[trigger] super::has_edge(
                            graph,
                            u,
                            v,
                        ) implies after.contains(v) by {
                        assert(before.contains(v));
                    }
                    assert forall|u: usize| #[trigger] expanded.contains(u) implies
                        after.contains(u) by {
                        assert(before.contains(u));
                    }
                    assert forall|k: int| 0 <= k < i + 1 implies seen@.contains(#[trigger] next@[k])
                        || to_visit@.contains(next@[k]) by {
                        if k < i && waiting.contains(next@[k]) {
                        }
                    }
                    assert forall|v: usize| #[trigger] path@.contains_key(v) implies {
                        &&& stamp.contains_key(path@[v])
                        &&& super::has_edge(graph, path@[v], v)
                        &&& !graph.spec_is_done(path@[v])
                        &&& stamp.contains_key(v) ==> stamp[path@[v]] < stamp[v]
                    } by {
                        if v != near {
                            assert(recorded.contains_key(v));
                        }
                    }
                }
            }
            i = i + 1;
        }
        proof {
            assert(next@.take(next@.len() as int) =~= next@);
            steps = steps + 1;
            let after = Set::new(|v: usize| seen@.contains(v) || to_visit@.contains(v));
            assert forall|u: usize, v: usize|
                seen@.contains(u) && #[trigger] super::has_edge(
                    graph,
                    u,
                    v,
                ) implies after.contains(v) by {
                if u == node {
                    let k = choose|k: int| 0 <= k < next@.len() && next@[k] == v;
                    assert(seen@.contains(next@[k]) || to_visit@.contains(next@[k]));
                }
            }
        }
    }
}

/// A walk with the fewest steps to a goal, such as breadth-first search
/// returns, has no more steps than any walk to a goal from the same start,
/// such as depth-first search returns.
pub proof fn lemma_fewest_steps_bound<G: Graph<Node = usize>>(
    graph: &G,
    start: usize,
    fewest: Seq<usize>,
    other: Seq<usize>,
)
    requires
        super::is_fewest_steps(graph, fewest, start),
        super::reaches_goal(graph, other, start),
    ensures
        fewest.len() - 1 <= other.len() - 1,
{
}

} // verus!
