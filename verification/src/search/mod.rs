//! A generic graph-search engine: what a search space must offer, the four
//! ways of exploring it, and the reconstruction of a path from a predecessor
//! map.

use std::collections::HashMap;
use std::hash::Hash;
use vstd::prelude::*;

pub mod a_star;
pub mod basic;
pub mod dijkstra;
pub mod frontier;
pub mod median;
mod relax;
pub mod run;
pub mod trace;

verus! {

/// What a search space offers to the engine.
///
/// `moves` and `is_done` are pure: what they return is a function of the
/// graph and the node alone, named by `spec_moves` and `spec_is_done`. The
/// searches rely on that, and on nothing else, about an implementation. They
/// ask for the neighbours of `start` and of nodes that `moves` has returned,
/// and never change the graph.
pub trait Graph {
    type Node: Eq + Hash + Clone;

    /// The neighbours of `node`, in the order in which `moves` lists them.
    /// Where an implementation does not define it, it is some function of the
    /// graph and the node of which nothing else is known.
    open spec fn spec_moves(&self, node: Self::Node) -> Seq<Self::Node> {
        arbitrary::<spec_fn(&Self, Self::Node) -> Seq<Self::Node>>()(self, node)
    }

    /// Whether `node` is a goal. Where an implementation does not define it,
    /// it is some function of the graph and the node of which nothing else is
    /// known.
    open spec fn spec_is_done(&self, node: Self::Node) -> bool {
        arbitrary::<spec_fn(&Self, Self::Node) -> bool>()(self, node)
    }

    /// Number of rows of the search space; descriptive only.
    fn height(&self) -> usize;

    /// Number of columns of the search space; descriptive only.
    fn width(&self) -> usize;

    /// The nodes that can be reached from `node` in one step.
    fn moves(&self, node: &Self::Node) -> (next: Vec<Self::Node>)
        ensures
            next@ == self.spec_moves(*node),
    ;

    /// The goal test.
    fn is_done(&self, node: &Self::Node) -> (done: bool)
        ensures
            done == self.spec_is_done(*node),
    ;
}

/// A search space whose steps have a cost. Costs are unsigned, so no step is
/// cheaper than staying.
pub trait Weighted: Graph {
    /// The cost of the step from `cur` to `next`. Where an implementation does
    /// not define it, it is some function of the graph and the two nodes of
    /// which nothing else is known.
    open spec fn spec_weight(&self, cur: Self::Node, next: Self::Node) -> usize {
        arbitrary::<spec_fn(&Self, Self::Node, Self::Node) -> usize>()(self, cur, next)
    }

    /// The cost of one step; only asked for steps that `moves` offers.
    fn weight(&self, cur: &Self::Node, next: &Self::Node) -> (cost: usize)
        requires
            self.spec_moves(*cur).contains(*next),
        ensures
            cost == self.spec_weight(*cur, *next),
    ;
}

/// `to` is one step away from `from`.
pub open spec fn has_edge<G: Graph<Node = usize>>(graph: &G, from: usize, to: usize) -> bool {
    graph.spec_moves(from).contains(to)
}

/// The step of `walk` that leaves its `i`-th node follows an edge.
pub open spec fn is_step<G: Graph<Node = usize>>(graph: &G, walk: Seq<usize>, i: int) -> bool {
    has_edge(graph, walk[i], walk[i + 1])
}

/// `walk` is a nonempty sequence of nodes, each one step away from the one
/// before it.
pub open spec fn is_walk<G: Graph<Node = usize>>(graph: &G, walk: Seq<usize>) -> bool {
    &&& walk.len() > 0
    &&& forall|i: int| 0 <= i < walk.len() - 1 ==> #[trigger] is_step(graph, walk, i)
}

/// `walk` leads from `from` to `to`.
pub open spec fn walk_between<G: Graph<Node = usize>>(
    graph: &G,
    walk: Seq<usize>,
    from: usize,
    to: usize,
) -> bool {
    is_walk(graph, walk) && walk[0] == from && walk.last() == to
}

/// Some walk leads from `from` to `to`.
pub open spec fn is_reachable<G: Graph<Node = usize>>(graph: &G, from: usize, to: usize) -> bool {
    exists|walk: Seq<usize>| walk_between(graph, walk, from, to)
}

/// `walk` leads from `from` to some goal.
pub open spec fn reaches_goal<G: Graph<Node = usize>>(
    graph: &G,
    walk: Seq<usize>,
    from: usize,
) -> bool {
    is_walk(graph, walk) && walk[0] == from && graph.spec_is_done(walk.last())
}

/// No walk from `from` ends in a goal.
pub open spec fn goal_unreachable<G: Graph<Node = usize>>(graph: &G, from: usize) -> bool {
    forall|walk: Seq<usize>| !#[trigger] reaches_goal(graph, walk, from)
}

/// `walk` leads from `from` to a goal in as few steps as any walk does.
pub open spec fn is_fewest_steps<G: Graph<Node = usize>>(
    graph: &G,
    walk: Seq<usize>,
    from: usize,
) -> bool {
    &&& reaches_goal(graph, walk, from)
    &&& forall|other: Seq<usize>| #[trigger]
        reaches_goal(graph, other, from) ==> walk.len() <= other.len()
}

/// `walk` meets a goal at its end and nowhere before.
pub open spec fn stops_at_first_goal<G: Graph<Node = usize>>(graph: &G, walk: Seq<usize>) -> bool {
    forall|i: int| 0 <= i < walk.len() - 1 ==> !graph.spec_is_done(#[trigger] walk[i])
}

/// `walk` leads from `from` to a goal at no more cost than any walk from
/// `from` to any goal.
pub open spec fn is_cheapest_to_goal<G: Weighted<Node = usize>>(
    graph: &G,
    walk: Seq<usize>,
    from: usize,
) -> bool {
    &&& reaches_goal(graph, walk, from)
    &&& forall|other: Seq<usize>| #[trigger]
        reaches_goal(graph, other, from) ==> walk_cost(graph, walk) <= walk_cost(graph, other)
}

/// Some walk from `from` to `to` costs `cost`.
pub open spec fn is_cost_of_walk<G: Weighted<Node = usize>>(
    graph: &G,
    from: usize,
    to: usize,
    cost: nat,
) -> bool {
    exists|walk: Seq<usize>| #[trigger]
        walk_between(graph, walk, from, to) && walk_cost(graph, walk) == cost
}

/// `cost` is the least that a walk from `from` to `to` can cost.
pub open spec fn is_least_cost<G: Weighted<Node = usize>>(
    graph: &G,
    from: usize,
    to: usize,
    cost: nat,
) -> bool {
    &&& is_cost_of_walk(graph, from, to, cost)
    &&& forall|walk: Seq<usize>| #[trigger]
        walk_between(graph, walk, from, to) ==> cost <= walk_cost(graph, walk)
}

/// `walk` starts at `start`, repeats no node, and `next` is one step away from
/// its end.
pub open spec fn is_simple_extension<G: Graph<Node = usize>>(
    graph: &G,
    start: usize,
    walk: Seq<usize>,
    next: usize,
) -> bool {
    &&& is_walk(graph, walk)
    &&& walk[0] == start
    &&& walk.no_duplicates()
    &&& has_edge(graph, walk.last(), next)
}

/// No walk from `start` that repeats no node costs, with one more step, more
/// than `usize::MAX`. A search forms only sums of this kind, so that this is
/// enough for its sums to fit; it asks more than the search needs.
pub open spec fn steps_fit<G: Weighted<Node = usize>>(graph: &G, start: usize) -> bool {
    forall|walk: Seq<usize>, next: usize| #[trigger]
        is_simple_extension(graph, start, walk, next) ==> walk_cost(graph, walk)
            + graph.spec_weight(walk.last(), next) <= usize::MAX
}

/// The estimate that a search without a heuristic works with.
pub open spec fn no_estimate() -> spec_fn(usize) -> usize {
    |node: usize| 0usize
}

/// The sum of the step costs along `walk`.
pub open spec fn walk_cost<G: Weighted<Node = usize>>(graph: &G, walk: Seq<usize>) -> nat
    decreases walk.len(),
{
    if walk.len() <= 1 {
        0
    } else {
        walk_cost(graph, walk.drop_last()) + graph.spec_weight(walk[walk.len() - 2],
            walk.last(),
        ) as nat
    }
}

/// The first `n` nodes of a walk are a walk.
pub proof fn lemma_walk_prefix<G: Graph<Node = usize>>(graph: &G, walk: Seq<usize>, n: int)
    requires
        is_walk(graph, walk),
        0 < n <= walk.len(),
    ensures
        is_walk(graph, walk.take(n)),
{
    assert forall|i: int| 0 <= i < walk.take(n).len() - 1 implies #[trigger] is_step(
        graph,
        walk.take(n),
        i,
    ) by {
        assert(is_step(graph, walk, i));
    }
}

/// A walk stays a walk when a neighbour of its last node is appended.
pub proof fn lemma_walk_push<G: Graph<Node = usize>>(graph: &G, walk: Seq<usize>, next: usize)
    requires
        is_walk(graph, walk),
        has_edge(graph, walk.last(), next),
    ensures
        is_walk(graph, walk.push(next)),
{
    let longer = walk.push(next);
    assert forall|i: int| 0 <= i < longer.len() - 1 implies
        #[trigger] is_step(graph, longer, i) by {
        if i < walk.len() - 1 {
            assert(is_step(graph, walk, i));
        }
    }
}

/// What is left of a walk after its first `n` nodes is a walk.
pub proof fn lemma_walk_suffix<G: Graph<Node = usize>>(graph: &G, walk: Seq<usize>, n: int)
    requires
        is_walk(graph, walk),
        0 <= n < walk.len(),
    ensures
        is_walk(graph, walk.skip(n)),
{
    assert forall|i: int| 0 <= i < walk.skip(n).len() - 1 implies #[trigger] is_step(
        graph,
        walk.skip(n),
        i,
    ) by {
        assert(is_step(graph, walk, i + n));
    }
}

/// Appending a node to a walk adds the cost of the step to it.
pub proof fn lemma_cost_push<G: Weighted<Node = usize>>(graph: &G, walk: Seq<usize>, next: usize)
    requires
        walk.len() > 0,
    ensures
        walk_cost(graph, walk.push(next)) == walk_cost(graph, walk) + graph.spec_weight(walk.last(),
            next,
        ),
{
    assert(walk.push(next).drop_last() =~= walk);
}

/// A walk costs at least as much as any of its beginnings.
pub proof fn lemma_cost_prefix<G: Weighted<Node = usize>>(graph: &G, walk: Seq<usize>, n: int)
    requires
        0 < n <= walk.len(),
    ensures
        walk_cost(graph, walk.take(n)) <= walk_cost(graph, walk),
    decreases walk.len(),
{
    if n == walk.len() {
        assert(walk.take(n) =~= walk);
    } else {
        lemma_cost_prefix(graph, walk.drop_last(), n);
        assert(walk.drop_last().take(n) =~= walk.take(n));
    }
}

/// The cost of a walk is the cost up to any of its nodes plus the cost from
/// that node on.
pub proof fn lemma_cost_split<G: Weighted<Node = usize>>(graph: &G, walk: Seq<usize>, at: int)
    requires
        0 <= at < walk.len(),
    ensures
        walk_cost(graph, walk) == walk_cost(graph, walk.take(at + 1)) + walk_cost(
            graph,
            walk.skip(at),
        ),
    decreases walk.len(),
{
    if at == walk.len() - 1 {
        assert(walk.take(at + 1) =~= walk);
        assert(walk.skip(at).len() == 1);
    } else {
        let shorter = walk.drop_last();
        lemma_cost_split(graph, shorter, at);
        assert(shorter.take(at + 1) =~= walk.take(at + 1));
        assert(walk.skip(at).drop_last() =~= shorter.skip(at));
        assert(walk.skip(at).last() == walk.last());
        assert(walk.skip(at)[walk.skip(at).len() - 2] == walk[walk.len() - 2]);
    }
}

/// Every walk from `start` stays within `nodes`, and no step from a node of
/// `nodes` costs more than `most`.
pub open spec fn is_bounded_by<G: Weighted<Node = usize>>(
    graph: &G,
    start: usize,
    nodes: Set<usize>,
    most: nat,
) -> bool {
    &&& nodes.finite()
    &&& nodes.contains(start)
    &&& forall|a: usize, b: usize|
        nodes.contains(a) && #[trigger] has_edge(graph, a, b) ==> nodes.contains(b)
            && graph.spec_weight(a, b) <= most
}

/// A walk from `start` in a bounded graph stays within the nodes, and each of
/// its steps costs no more than the bound.
proof fn lemma_bounded_walk<G: Weighted<Node = usize>>(
    graph: &G,
    start: usize,
    nodes: Set<usize>,
    most: nat,
    walk: Seq<usize>,
)
    requires
        is_bounded_by(graph, start, nodes, most),
        is_walk(graph, walk),
        walk[0] == start,
    ensures
        forall|i: int| 0 <= i < walk.len() ==> nodes.contains(#[trigger] walk[i]),
        walk_cost(graph, walk) <= (walk.len() - 1) * most,
    decreases walk.len(),
{
    if walk.len() > 1 {
        let shorter = walk.drop_last();
        assert(shorter =~= walk.take(walk.len() - 1));
        lemma_walk_prefix(graph, walk, walk.len() - 1);
        lemma_bounded_walk(graph, start, nodes, most, shorter);
        assert(is_step(graph, walk, walk.len() - 2));
        assert(nodes.contains(shorter[shorter.len() - 1]));
        assert forall|i: int| 0 <= i < walk.len() implies nodes.contains(#[trigger] walk[i]) by {
            if i < shorter.len() {
                assert(shorter[i] == walk[i]);
            }
        }
        assert((walk.len() - 2) * most + most == (walk.len() - 1) * most) by (nonlinear_arith);
    } else {
        assert((walk.len() - 1) * most == 0) by (nonlinear_arith)
            requires
                walk.len() == 1,
        ;
    }
}

/// In a bounded graph, a walk from `start` that repeats no node costs, with
/// one more step, no more than as many steps as there are nodes.
pub proof fn lemma_bounded_extension<G: Weighted<Node = usize>>(
    graph: &G,
    start: usize,
    nodes: Set<usize>,
    most: nat,
    walk: Seq<usize>,
    next: usize,
)
    requires
        is_bounded_by(graph, start, nodes, most),
        is_simple_extension(graph, start, walk, next),
    ensures
        walk_cost(graph, walk) + graph.spec_weight(walk.last(), next) <= nodes.len() * most,
{
    lemma_bounded_walk(graph, start, nodes, most, walk);
    walk.unique_seq_to_set();
    assert(walk.to_set().subset_of(nodes)) by {
        assert forall|v: usize| walk.to_set().contains(v) implies nodes.contains(v) by {
            let i = choose|i: int| 0 <= i < walk.len() && walk[i] == v;
            assert(nodes.contains(walk[i]));
        }
    }
    vstd::set_lib::lemma_len_subset(walk.to_set(), nodes);
    assert(nodes.contains(walk[walk.len() - 1]));
    assert((walk.len() - 1) * most + most <= nodes.len() * most) by (nonlinear_arith)
        requires
            0 < walk.len() <= nodes.len(),
    ;
}

/// A way to see that the steps of a search fit: every walk from `start` stays
/// within finitely many nodes, no step among them costs more than `most`, and
/// as many steps as there are nodes, each at that cost, do not exceed
/// `usize::MAX`.
pub proof fn lemma_bounded_steps_fit<G: Weighted<Node = usize>>(
    graph: &G,
    start: usize,
    nodes: Set<usize>,
    most: nat,
)
    requires
        is_bounded_by(graph, start, nodes, most),
        nodes.len() * most <= usize::MAX,
    ensures
        steps_fit(graph, start),
{
    assert forall|walk: Seq<usize>, next: usize| #[trigger]
        is_simple_extension(graph, start, walk, next) implies walk_cost(graph, walk)
        + graph.spec_weight(walk.last(), next) <= usize::MAX by {
        lemma_bounded_extension(graph, start, nodes, most, walk, next);
    }
}

/// `path` is what walking `moves` backward from `end` yields, read from its
/// far end: every node but the first is mapped to the one before it, `start`
/// occurs nowhere but possibly as the first node, and the first node is
/// `start` or, failing that, a node that `moves` does not map.
pub open spec fn is_back_chain(
    moves: Map<usize, usize>,
    path: Seq<usize>,
    end: usize,
    start: usize,
) -> bool {
    &&& path.len() > 0
    &&& path.last() == end
    &&& forall|i: int| 0 < i < path.len() ==> #[trigger] is_link(moves, path, i)
    &&& forall|i: int| 0 < i < path.len() ==> #[trigger] path[i] != start
    &&& path[0] == start || !moves.contains_key(path[0])
}

/// `moves` maps the `i`-th node of `path` to the node before it.
pub open spec fn is_link(moves: Map<usize, usize>, path: Seq<usize>, i: int) -> bool {
    moves.contains_key(path[i]) && moves[path[i]] == path[i - 1]
}

/// From `start` itself the backward walk is `start` alone, whatever the map
/// holds.
pub proof fn lemma_back_chain_at_start(moves: Map<usize, usize>, start: usize)
    ensures
        is_back_chain(moves, seq![start], start, start),
{
}

/// A predecessor map admits at most one backward walk from `end`.
pub proof fn lemma_back_chain_unique(
    moves: Map<usize, usize>,
    a: Seq<usize>,
    b: Seq<usize>,
    end: usize,
    start: usize,
)
    requires
        is_back_chain(moves, a, end, start),
        is_back_chain(moves, b, end, start),
    ensures
        a == b,
{
    lemma_back_chain_suffix(moves, a, b, end, start, a.len() as int);
    lemma_back_chain_suffix(moves, b, a, end, start, b.len() as int);
    assert forall|i: int| 0 <= i < a.len() implies a[i] == b[i] by {
        lemma_back_chain_suffix(moves, a, b, end, start, a.len() - i);
    }
    assert(a =~= b);
}

/// Two backward walks from `end` agree on their last `k` nodes, and neither
/// is shorter than the other allows.
proof fn lemma_back_chain_suffix(
    moves: Map<usize, usize>,
    a: Seq<usize>,
    b: Seq<usize>,
    end: usize,
    start: usize,
    k: int,
)
    requires
        is_back_chain(moves, a, end, start),
        is_back_chain(moves, b, end, start),
        1 <= k <= a.len(),
    ensures
        k <= b.len(),
        a[a.len() - k] == b[b.len() - k],
    decreases k,
{
    if k > 1 {
        lemma_back_chain_suffix(moves, a, b, end, start, k - 1);
        let ia = a.len() - k;
        let ib = b.len() - (k - 1);
        assert(is_link(moves, a, ia + 1));
        if ib == 0 {
            // `b` begins at a mapped node, which is then `start`; `a` holds the same
            // node after its first
            assert(b[0] == start);
            assert(a[ia + 1] != start);
            assert(false);
        }
        assert(is_link(moves, b, ib));
    }
}

/// Rebuilds the path that a search has recorded.
///
/// `moves` maps a node to the node it was reached from. The walk goes backward
/// from `end` until it is at `start` or at a node that `moves` does not map,
/// and the result lists the nodes met in the opposite order, so that `end`
/// comes last. From `start` itself the result is `start` alone. A map whose
/// chain from `end` neither meets `start` nor runs out has no such path and is
/// not accepted.
pub fn get_path(moves: HashMap<usize, usize>, end: usize, start: &usize) -> (path: Vec<usize>)
    requires
        exists|chain: Seq<usize>| is_back_chain(moves@, chain, end, *start),
    ensures
        is_back_chain(moves@, path@, end, *start),
{
    let ghost chain = choose|chain: Seq<usize>| is_back_chain(moves@, chain, end, *start);
    let mut found: Vec<usize> = Vec::new();
    found.push(end);
    if end != *start {
        loop
            invariant_except_break
                forall|j: int| 0 <= j < found@.len() ==> found@[j] != *start,
            invariant
                is_back_chain(moves@, chain, end, *start),
                0 < found@.len() <= chain.len(),
                forall|j: int| 0 <= j < found@.len() ==> found@[j] == chain[chain.len() - 1 - j],
            ensures
                found@.len() == chain.len(),
            decreases chain.len() - found@.len(),
        {
            let last: usize = found[found.len() - 1];
            let ghost at = chain.len() - found@.len();
            match moves.get(&last) {
                None => {
                    proof {
                        if at > 0 {
                            assert(is_link(moves@, chain, at));
                        }
                    }
                    break ;
                },
                Some(node) => {
                    proof {
                        if at == 0 {
                            assert(found@[found@.len() - 1] != *start);
                        }
                        assert(is_link(moves@, chain, at));
                    }
                    let node: usize = *node;
                    found.push(node);
                    if node == *start {
                        proof {
                            if at - 1 > 0 {
                                assert(chain[at - 1] != *start);
                            }
                        }
                        break ;
                    }
                },
            }
        }
    } else {
        proof {
            if chain.len() > 1 {
                assert(chain[chain.len() - 1] != *start);
            }
        }
    }
    let mut path: Vec<usize> = Vec::new();
    let ghost listed = found@;
    while found.len() > 0
        invariant
            found@.len() + path@.len() == listed.len(),
            forall|j: int| 0 <= j < found@.len() ==> found@[j] == listed[j],
            forall|j: int| 0 <= j < path@.len() ==> path@[j] == listed[listed.len() - 1 - j],
        decreases found@.len(),
    {
        let node: usize = found.pop().unwrap();
        path.push(node);
    }
    proof {
        assert(path@ =~= chain);
    }
    path
}

} // verus!
