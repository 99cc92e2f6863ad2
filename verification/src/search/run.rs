//! The weighted searches as a sequence of states. Each step takes the entry
//! that leaves the frontier first and relaxes the neighbours of its node in
//! the order in which the graph lists them, so that a search is determined by
//! the graph, the start and the estimate alone.

use super::frontier::FrontierEntry;
use super::Weighted;
use std::collections::HashMap;
use vstd::multiset::Multiset;
use vstd::prelude::*;

verus! {

/// What a weighted search holds between two steps.
pub struct SearchState {
    /// Best known cost of each discovered node.
    pub dist: Map<usize, usize>,
    /// The node through which each discovered node got its best known cost.
    pub pred: Map<usize, usize>,
    /// The entries in the frontier.
    pub waiting: Multiset<FrontierEntry>,
}

/// The state made of what a search holds.
pub open spec fn state_of(
    dist: Map<usize, usize>,
    pred: Map<usize, usize>,
    waiting: Multiset<FrontierEntry>,
) -> SearchState {
    SearchState { dist, pred, waiting }
}

/// `entry` waits in the frontier and leaves it before every other entry.
pub open spec fn is_first_out(waiting: Multiset<FrontierEntry>, entry: FrontierEntry) -> bool {
    &&& waiting.contains(entry)
    &&& forall|other: FrontierEntry|
        waiting.contains(other) ==> super::frontier::leaves_first(entry, other)
}

/// The entry that leaves the frontier first.
pub open spec fn first_out(waiting: Multiset<FrontierEntry>) -> FrontierEntry {
    choose|entry: FrontierEntry| is_first_out(waiting, entry)
}

/// At most one entry leaves the frontier first.
pub proof fn lemma_first_out_unique(waiting: Multiset<FrontierEntry>, entry: FrontierEntry)
    requires
        is_first_out(waiting, entry),
    ensures
        first_out(waiting) == entry,
{
    let chosen = first_out(waiting);
    assert(super::frontier::leaves_first(entry, chosen));
    assert(super::frontier::leaves_first(chosen, entry));
}

/// The state after `near` has been looked at from `from`, whose cost is
/// `base`: a cost that improves on the recorded one replaces it, makes `from`
/// the predecessor and puts `near` on the frontier; any other changes nothing.
pub open spec fn relax_one<G: Weighted<Node = usize>>(
    graph: &G,
    estimate: spec_fn(usize) -> usize,
    s: SearchState,
    from: usize,
    base: usize,
    near: usize,
) -> SearchState {
    let cost = (base + graph.spec_weight(from, near)) as usize;
    if !s.dist.contains_key(near) || cost < s.dist[near] {
        SearchState {
            dist: s.dist.insert(near, cost),
            pred: s.pred.insert(near, from),
            waiting: s.waiting.insert(
                FrontierEntry { node: near, cost: (cost + estimate(near)) as usize },
            ),
        }
    } else {
        s
    }
}

/// The state after the nodes of `moves` have been looked at from `from`, one
/// after the other.
pub open spec fn relax_all<G: Weighted<Node = usize>>(
    graph: &G,
    estimate: spec_fn(usize) -> usize,
    s: SearchState,
    from: usize,
    base: usize,
    moves: Seq<usize>,
) -> SearchState
    decreases moves.len(),
{
    if moves.len() == 0 {
        s
    } else {
        relax_one(
            graph,
            estimate,
            relax_all(graph, estimate, s, from, base, moves.drop_last()),
            from,
            base,
            moves.last(),
        )
    }
}

/// The search is over: nothing waits, or a goal leaves the frontier first.
pub open spec fn is_over<G: Weighted<Node = usize>>(graph: &G, s: SearchState) -> bool {
    s.waiting.len() == 0 || graph.spec_is_done(first_out(s.waiting).node)
}

/// One step: the entry that leaves first is taken from the frontier and its
/// node expanded at the cost recorded for it. With `skip_stale`, an entry
/// that waits under more than that cost is only taken.
pub open spec fn step<G: Weighted<Node = usize>>(
    graph: &G,
    estimate: spec_fn(usize) -> usize,
    skip_stale: bool,
    s: SearchState,
) -> SearchState {
    let entry = first_out(s.waiting);
    let taken = SearchState { dist: s.dist, pred: s.pred, waiting: s.waiting.remove(entry) };
    if skip_stale && entry.cost > s.dist[entry.node] {
        taken
    } else {
        relax_all(
            graph,
            estimate,
            taken,
            entry.node,
            s.dist[entry.node],
            graph.spec_moves(entry.node),
        )
    }
}

/// The state in which a search from `start` begins.
pub open spec fn first_state(start: usize, estimate: spec_fn(usize) -> usize) -> SearchState {
    SearchState {
        dist: Map::empty().insert(start, 0usize),
        pred: Map::empty(),
        waiting: Multiset::empty().insert(FrontierEntry { node: start, cost: estimate(start) }),
    }
}

/// The state of a search from `start` after `steps` steps; once the search is
/// over, the state stays as it is.
pub open spec fn state_after<G: Weighted<Node = usize>>(
    graph: &G,
    start: usize,
    estimate: spec_fn(usize) -> usize,
    skip_stale: bool,
    steps: nat,
) -> SearchState
    decreases steps,
{
    if steps == 0 {
        first_state(start, estimate)
    } else {
        let before = state_after(graph, start, estimate, skip_stale, (steps - 1) as nat);
        if is_over(graph, before) {
            before
        } else {
            step(graph, estimate, skip_stale, before)
        }
    }
}

/// The answers of the estimate that is zero everywhere: `answers(node, r)`
/// tells that `r` is a possible answer for `node`, and here only zero is.
pub open spec fn no_answers() -> spec_fn(usize, usize) -> bool {
    |node: usize, r: usize| r == 0
}

/// The sums that looking at `near` from `from` forms fit: the cost through
/// `from` always, and that cost with whatever the estimate answers for `near`
/// where it improves on the recorded one.
pub open spec fn relax_fits<G: Weighted<Node = usize>>(
    graph: &G,
    answers: spec_fn(usize, usize) -> bool,
    s: SearchState,
    from: usize,
    base: usize,
    near: usize,
) -> bool {
    let cost = base + graph.spec_weight(from, near);
    &&& cost <= usize::MAX
    &&& !s.dist.contains_key(near) || cost < s.dist[near] ==> forall|r: usize| #[trigger]
        answers(near, r) ==> cost + r <= usize::MAX
}

/// The sums that the step from `s` forms fit, one neighbour after the other.
pub open spec fn step_fits<G: Weighted<Node = usize>>(
    graph: &G,
    estimate: spec_fn(usize) -> usize,
    answers: spec_fn(usize, usize) -> bool,
    skip_stale: bool,
    s: SearchState,
) -> bool {
    let entry = first_out(s.waiting);
    let taken = SearchState { dist: s.dist, pred: s.pred, waiting: s.waiting.remove(entry) };
    let base = s.dist[entry.node];
    let moves = graph.spec_moves(entry.node);
    is_over(graph, s) || (skip_stale && entry.cost > base) || forall|k: int|
        0 <= k < moves.len() ==> relax_fits(
            graph,
            answers,
            #[trigger] relax_all(graph, estimate, taken, entry.node, base, moves.take(k)),
            entry.node,
            base,
            moves[k],
        )
}

/// The sums that the step after the first `m` steps forms fit.
pub open spec fn fits_at<G: Weighted<Node = usize>>(
    graph: &G,
    start: usize,
    estimate: spec_fn(usize) -> usize,
    answers: spec_fn(usize, usize) -> bool,
    skip_stale: bool,
    m: nat,
) -> bool {
    step_fits(
        graph,
        estimate,
        answers,
        skip_stale,
        state_after(graph, start, estimate, skip_stale, m),
    )
}

/// Every sum that a search from `start` forms on its way fits into `usize`.
/// Sums that no step of the search forms do not matter.
pub open spec fn run_fits<G: Weighted<Node = usize>>(
    graph: &G,
    start: usize,
    estimate: spec_fn(usize) -> usize,
    answers: spec_fn(usize, usize) -> bool,
    skip_stale: bool,
) -> bool {
    forall|m: nat| #[trigger] fits_at(graph, start, estimate, answers, skip_stale, m)
}

/// The cost of a walk from `start` that repeats no node, one more step, and
/// whatever `answers` allows for the node where that step ends fit together.
pub open spec fn answers_fit<G: Weighted<Node = usize>>(
    graph: &G,
    start: usize,
    answers: spec_fn(usize, usize) -> bool,
) -> bool {
    forall|walk: Seq<usize>, next: usize, r: usize|
        #![trigger super::is_simple_extension(graph, start, walk, next), answers(next, r)]
        super::is_simple_extension(graph, start, walk, next) && answers(next, r)
            ==> super::walk_cost(graph, walk) + graph.spec_weight(walk.last(), next) + r
            <= usize::MAX
}

/// A way to see that the sums of a search fit: no walk from `start` that
/// repeats no node costs, with one more step, more than `usize::MAX`, nor
/// does it with whatever the estimate may answer where that step ends. A
/// search forms no sum but these.
pub proof fn lemma_walks_fit<G: Weighted<Node = usize>>(
    graph: &G,
    start: usize,
    estimate: spec_fn(usize) -> usize,
    answers: spec_fn(usize, usize) -> bool,
    skip_stale: bool,
)
    requires
        super::steps_fit(graph, start),
        answers_fit(graph, start, answers),
    ensures
        run_fits(graph, start, estimate, answers, skip_stale),
{
    super::relax::lemma_run_fits(graph, start, estimate, answers, skip_stale);
}

/// The step that follows the first `m` steps expands `node`: the search is not
/// over, the entry that leaves the frontier first is one of `node`, and it is
/// not only taken.
pub open spec fn expands_at<G: Weighted<Node = usize>>(
    graph: &G,
    start: usize,
    estimate: spec_fn(usize) -> usize,
    skip_stale: bool,
    m: nat,
    node: usize,
) -> bool {
    let s = state_after(graph, start, estimate, skip_stale, m);
    let entry = first_out(s.waiting);
    &&& !is_over(graph, s)
    &&& entry.node == node
    &&& !(skip_stale && entry.cost > s.dist[node])
}

/// `node` has been expanded by one of the first `steps` steps.
pub open spec fn was_expanded<G: Weighted<Node = usize>>(
    graph: &G,
    start: usize,
    estimate: spec_fn(usize) -> usize,
    skip_stale: bool,
    steps: nat,
    node: usize,
) -> bool {
    exists|m: nat|
        m < steps && #[trigger] expands_at(graph, start, estimate, skip_stale, m, node)
}

/// `found` is what a search returns that is over after `steps` steps: nothing
/// if the frontier is empty, else the recorded costs and the walk that the
/// predecessors trace back from the goal that leaves the frontier.
pub open spec fn is_outcome<G: Weighted<Node = usize>>(
    graph: &G,
    start: usize,
    estimate: spec_fn(usize) -> usize,
    skip_stale: bool,
    steps: nat,
    found: Option<(Map<usize, usize>, Seq<usize>)>,
) -> bool {
    let s = state_after(graph, start, estimate, skip_stale, steps);
    &&& is_over(graph, s)
    &&& match found {
        None => s.waiting.len() == 0,
        Some((dist, path)) => {
            &&& s.waiting.len() > 0
            &&& dist == s.dist
            &&& super::is_back_chain(s.pred, path, first_out(s.waiting).node, start)
        },
    }
}

/// What a search has returned, as the proofs see it: the costs as a map and
/// the walk as a sequence.
pub open spec fn seen_as(found: Option<(HashMap<usize, usize>, Vec<usize>)>) -> Option<
    (Map<usize, usize>, Seq<usize>),
> {
    match found {
        Some((dist, path)) => Some((dist@, path@)),
        None => None,
    }
}

/// `found` is what a search from `start` returns.
pub open spec fn is_found<G: Weighted<Node = usize>>(
    graph: &G,
    start: usize,
    estimate: spec_fn(usize) -> usize,
    skip_stale: bool,
    found: Option<(Map<usize, usize>, Seq<usize>)>,
) -> bool {
    exists|steps: nat| is_outcome(graph, start, estimate, skip_stale, steps, found)
}

/// Once a search is over, further steps change nothing.
pub proof fn lemma_over_stays<G: Weighted<Node = usize>>(
    graph: &G,
    start: usize,
    estimate: spec_fn(usize) -> usize,
    skip_stale: bool,
    steps: nat,
    later: nat,
)
    requires
        is_over(graph, state_after(graph, start, estimate, skip_stale, steps)),
        steps <= later,
    ensures
        state_after(graph, start, estimate, skip_stale, later) == state_after(
            graph,
            start,
            estimate,
            skip_stale,
            steps,
        ),
    decreases later,
{
    if steps < later {
        lemma_over_stays(graph, start, estimate, skip_stale, steps, (later - 1) as nat);
    }
}

/// Determinism: on the same graph, start and estimate, a search has one
/// outcome, the recorded costs and the walk included, however often it is
/// run.
pub proof fn lemma_found_is_unique<G: Weighted<Node = usize>>(
    graph: &G,
    start: usize,
    estimate: spec_fn(usize) -> usize,
    skip_stale: bool,
    one: Option<(Map<usize, usize>, Seq<usize>)>,
    other: Option<(Map<usize, usize>, Seq<usize>)>,
)
    requires
        is_found(graph, start, estimate, skip_stale, one),
        is_found(graph, start, estimate, skip_stale, other),
    ensures
        one == other,
{
    let a = choose|steps: nat| is_outcome(graph, start, estimate, skip_stale, steps, one);
    let b = choose|steps: nat| is_outcome(graph, start, estimate, skip_stale, steps, other);
    if a <= b {
        lemma_over_stays(graph, start, estimate, skip_stale, a, b);
    } else {
        lemma_over_stays(graph, start, estimate, skip_stale, b, a);
    }
    let s = state_after(graph, start, estimate, skip_stale, a);
    match (one, other) {
        (Some((_, path)), Some((_, again))) => {
            let goal = first_out(s.waiting).node;
            super::lemma_back_chain_unique(s.pred, path, again, goal, start);
        },
        _ => {},
    }
}

/// Looking at one more node extends the relaxation of a list of moves.
pub proof fn lemma_relax_next<G: Weighted<Node = usize>>(
    graph: &G,
    estimate: spec_fn(usize) -> usize,
    s: SearchState,
    from: usize,
    base: usize,
    moves: Seq<usize>,
    i: int,
)
    requires
        0 <= i < moves.len(),
    ensures
        relax_all(graph, estimate, s, from, base, moves.take(i + 1)) == relax_one(
            graph,
            estimate,
            relax_all(graph, estimate, s, from, base, moves.take(i)),
            from,
            base,
            moves[i],
        ),
{
    assert(moves.take(i + 1).drop_last() =~= moves.take(i));
}

} // verus!
