//! The unweighted traversals as sequences of states. Each step takes one node
//! from the frontier and looks at its neighbours in the order in which the
//! graph lists them, so that a traversal is determined by the graph and the
//! start alone.

use super::Graph;
use vstd::prelude::*;

verus! {

/// What a breadth-first search holds between two steps.
pub struct BfsState {
    /// The discovered nodes that wait to be expanded, oldest first.
    pub queue: Seq<usize>,
    /// The node from which each discovered node but the start was discovered.
    pub pred: Map<usize, usize>,
}

/// The state made of what a breadth-first search holds.
pub open spec fn bfs_state(queue: Seq<usize>, pred: Map<usize, usize>) -> BfsState {
    BfsState { queue, pred }
}

/// The state after `near` has been looked at from `from`: a node that is
/// neither the start nor discovered is put at the end of the queue, with
/// `from` as its predecessor.
pub open spec fn bfs_visit(s: BfsState, start: usize, from: usize, near: usize) -> BfsState {
    if near != start && !s.pred.contains_key(near) {
        BfsState { queue: s.queue.push(near), pred: s.pred.insert(near, from) }
    } else {
        s
    }
}

/// The state after the nodes of `moves` have been looked at from `from`, one
/// after the other.
pub open spec fn bfs_visit_all(
    s: BfsState,
    start: usize,
    from: usize,
    moves: Seq<usize>,
) -> BfsState
    decreases moves.len(),
{
    if moves.len() == 0 {
        s
    } else {
        bfs_visit(bfs_visit_all(s, start, from, moves.drop_last()), start, from, moves.last())
    }
}

/// The search is over: nothing waits, or the oldest waiting node is a goal.
pub open spec fn bfs_over<G: Graph<Node = usize>>(graph: &G, s: BfsState) -> bool {
    s.queue.len() == 0 || graph.spec_is_done(s.queue[0])
}

/// One step: the oldest waiting node leaves the queue and its neighbours are
/// looked at.
pub open spec fn bfs_step<G: Graph<Node = usize>>(
    graph: &G,
    start: usize,
    s: BfsState,
) -> BfsState {
    bfs_visit_all(
        BfsState { queue: s.queue.drop_first(), pred: s.pred },
        start,
        s.queue[0],
        graph.spec_moves(s.queue[0]),
    )
}

/// The state of a breadth-first search from `start` after `steps` steps; once
/// the search is over, the state stays as it is.
pub open spec fn bfs_after<G: Graph<Node = usize>>(graph: &G, start: usize, steps: nat) -> BfsState
    decreases steps,
{
    if steps == 0 {
        BfsState { queue: seq![start], pred: Map::empty() }
    } else {
        let before = bfs_after(graph, start, (steps - 1) as nat);
        if bfs_over(graph, before) {
            before
        } else {
            bfs_step(graph, start, before)
        }
    }
}

/// `found` is what a breadth-first search returns that is over after `steps`
/// steps: nothing if the queue is empty, else the walk that the predecessors
/// trace back from the goal at the head of the queue.
pub open spec fn is_bfs_outcome<G: Graph<Node = usize>>(
    graph: &G,
    start: usize,
    steps: nat,
    found: Option<Seq<usize>>,
) -> bool {
    let s = bfs_after(graph, start, steps);
    &&& bfs_over(graph, s)
    &&& match found {
        None => s.queue.len() == 0,
        Some(path) => s.queue.len() > 0 && super::is_back_chain(s.pred, path, s.queue[0], start),
    }
}

/// What a traversal has returned, as the proofs see it: the walk as a
/// sequence.
pub open spec fn seen_as(found: Option<Vec<usize>>) -> Option<Seq<usize>> {
    match found {
        Some(path) => Some(path@),
        None => None,
    }
}

/// `found` is what a breadth-first search from `start` returns.
pub open spec fn is_bfs_found<G: Graph<Node = usize>>(
    graph: &G,
    start: usize,
    found: Option<Seq<usize>>,
) -> bool {
    exists|steps: nat| is_bfs_outcome(graph, start, steps, found)
}

proof fn lemma_bfs_over_stays<G: Graph<Node = usize>>(
    graph: &G,
    start: usize,
    steps: nat,
    later: nat,
)
    requires
        bfs_over(graph, bfs_after(graph, start, steps)),
        steps <= later,
    ensures
        bfs_after(graph, start, later) == bfs_after(graph, start, steps),
    decreases later,
{
    if steps < later {
        lemma_bfs_over_stays(graph, start, steps, (later - 1) as nat);
    }
}

/// Determinism: on the same graph and start, a breadth-first search has one
/// outcome, however often it is run.
pub proof fn lemma_bfs_found_is_unique<G: Graph<Node = usize>>(
    graph: &G,
    start: usize,
    one: Option<Seq<usize>>,
    other: Option<Seq<usize>>,
)
    requires
        is_bfs_found(graph, start, one),
        is_bfs_found(graph, start, other),
    ensures
        one == other,
{
    let a = choose|steps: nat| is_bfs_outcome(graph, start, steps, one);
    let b = choose|steps: nat| is_bfs_outcome(graph, start, steps, other);
    if a <= b {
        lemma_bfs_over_stays(graph, start, a, b);
    } else {
        lemma_bfs_over_stays(graph, start, b, a);
    }
    let s = bfs_after(graph, start, a);
    match (one, other) {
        (Some(path), Some(again)) => {
            super::lemma_back_chain_unique(s.pred, path, again, s.queue[0], start);
        },
        _ => {},
    }
}

/// Looking at one more node extends the visit of a list of moves.
pub proof fn lemma_bfs_visit_next(s: BfsState, start: usize, from: usize, moves: Seq<usize>, i: int)
    requires
        0 <= i < moves.len(),
    ensures
        bfs_visit_all(s, start, from, moves.take(i + 1)) == bfs_visit(
            bfs_visit_all(s, start, from, moves.take(i)),
            start,
            from,
            moves[i],
        ),
{
    assert(moves.take(i + 1).drop_last() =~= moves.take(i));
}

/// What a depth-first search holds between two steps.
pub struct DfsState {
    /// The nodes that wait to be expanded, the one to be taken next last.
    pub stack: Seq<usize>,
    /// The nodes that have been taken from the stack and counted as seen.
    pub seen: Set<usize>,
    /// The node that pushed each pushed node last.
    pub pred: Map<usize, usize>,
}

/// The state made of what a depth-first search holds.
pub open spec fn dfs_state(
    stack: Seq<usize>,
    seen: Set<usize>,
    pred: Map<usize, usize>,
) -> DfsState {
    DfsState { stack, seen, pred }
}

/// The state after `near` has been looked at from `from`: a node that has not
/// been seen is pushed, with `from` as its predecessor.
pub open spec fn dfs_visit(s: DfsState, from: usize, near: usize) -> DfsState {
    if !s.seen.contains(near) {
        DfsState { stack: s.stack.push(near), seen: s.seen, pred: s.pred.insert(near, from) }
    } else {
        s
    }
}

/// The state after the nodes of `moves` have been looked at from `from`, one
/// after the other.
pub open spec fn dfs_visit_all(s: DfsState, from: usize, moves: Seq<usize>) -> DfsState
    decreases moves.len(),
{
    if moves.len() == 0 {
        s
    } else {
        dfs_visit(dfs_visit_all(s, from, moves.drop_last()), from, moves.last())
    }
}

/// The search is over: nothing waits, or the node on top of the stack is a
/// goal that has not been seen.
pub open spec fn dfs_over<G: Graph<Node = usize>>(graph: &G, s: DfsState) -> bool {
    s.stack.len() == 0 || (!s.seen.contains(s.stack.last()) && graph.spec_is_done(s.stack.last(),
    ))
}

/// One step: the node on top leaves the stack; unless it has been seen, it
/// counts as seen from now on and its neighbours are looked at.
pub open spec fn dfs_step<G: Graph<Node = usize>>(graph: &G, s: DfsState) -> DfsState {
    let node = s.stack.last();
    if s.seen.contains(node) {
        DfsState { stack: s.stack.drop_last(), seen: s.seen, pred: s.pred }
    } else {
        dfs_visit_all(
            DfsState { stack: s.stack.drop_last(), seen: s.seen.insert(node), pred: s.pred },
            node,
            graph.spec_moves(node),
        )
    }
}

/// The state of a depth-first search from `start` after `steps` steps; once
/// the search is over, the state stays as it is.
pub open spec fn dfs_after<G: Graph<Node = usize>>(graph: &G, start: usize, steps: nat) -> DfsState
    decreases steps,
{
    if steps == 0 {
        DfsState { stack: seq![start], seen: Set::empty(), pred: Map::empty() }
    } else {
        let before = dfs_after(graph, start, (steps - 1) as nat);
        if dfs_over(graph, before) {
            before
        } else {
            dfs_step(graph, before)
        }
    }
}

/// `found` is what a depth-first search returns that is over after `steps`
/// steps: nothing if the stack is empty, else the walk that the predecessors
/// trace back from the goal on top of the stack.
pub open spec fn is_dfs_outcome<G: Graph<Node = usize>>(
    graph: &G,
    start: usize,
    steps: nat,
    found: Option<Seq<usize>>,
) -> bool {
    let s = dfs_after(graph, start, steps);
    &&& dfs_over(graph, s)
    &&& match found {
        None => s.stack.len() == 0,
        Some(path) => s.stack.len() > 0 && super::is_back_chain(
            s.pred,
            path,
            s.stack.last(),
            start,
        ),
    }
}

/// `found` is what a depth-first search from `start` returns.
pub open spec fn is_dfs_found<G: Graph<Node = usize>>(
    graph: &G,
    start: usize,
    found: Option<Seq<usize>>,
) -> bool {
    exists|steps: nat| is_dfs_outcome(graph, start, steps, found)
}

proof fn lemma_dfs_over_stays<G: Graph<Node = usize>>(
    graph: &G,
    start: usize,
    steps: nat,
    later: nat,
)
    requires
        dfs_over(graph, dfs_after(graph, start, steps)),
        steps <= later,
    ensures
        dfs_after(graph, start, later) == dfs_after(graph, start, steps),
    decreases later,
{
    if steps < later {
        lemma_dfs_over_stays(graph, start, steps, (later - 1) as nat);
    }
}

/// Determinism: on the same graph and start, a depth-first search has one
/// outcome, however often it is run.
pub proof fn lemma_dfs_found_is_unique<G: Graph<Node = usize>>(
    graph: &G,
    start: usize,
    one: Option<Seq<usize>>,
    other: Option<Seq<usize>>,
)
    requires
        is_dfs_found(graph, start, one),
        is_dfs_found(graph, start, other),
    ensures
        one == other,
{
    let a = choose|steps: nat| is_dfs_outcome(graph, start, steps, one);
    let b = choose|steps: nat| is_dfs_outcome(graph, start, steps, other);
    if a <= b {
        lemma_dfs_over_stays(graph, start, a, b);
    } else {
        lemma_dfs_over_stays(graph, start, b, a);
    }
    let s = dfs_after(graph, start, a);
    match (one, other) {
        (Some(path), Some(again)) => {
            super::lemma_back_chain_unique(s.pred, path, again, s.stack.last(), start);
        },
        _ => {},
    }
}

/// Looking at one more node extends the visit of a list of moves.
pub proof fn lemma_dfs_visit_next(s: DfsState, from: usize, moves: Seq<usize>, i: int)
    requires
        0 <= i < moves.len(),
    ensures
        dfs_visit_all(s, from, moves.take(i + 1)) == dfs_visit(
            dfs_visit_all(s, from, moves.take(i)),
            from,
            moves[i],
        ),
{
    assert(moves.take(i + 1).drop_last() =~= moves.take(i));
}

} // verus!
