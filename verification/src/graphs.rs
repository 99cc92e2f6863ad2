//! Disjoint sets over the indices `0..n`, kept as a forest of parent links
//! with path compression.

use vstd::prelude::*;

verus! {

#[derive(Debug)]
enum DisjointType {
    Size,
    Rank,
}

#[derive(Debug)]
pub struct Node {
    parent: usize,
    size: usize,
    rank: usize,
}

#[derive(Debug)]
pub struct DisjointSet {
    nodes: Vec<Node>,
    version: DisjointType,
}

/// `level` numbers the nodes so that every parent link leads upward, and no
/// number exceeds `top`.
spec fn ranked(nodes: Seq<Node>, level: Seq<nat>, top: nat) -> bool {
    &&& level.len() == nodes.len()
    &&& forall|i: int| 0 <= i < level.len() ==> #[trigger] level[i] <= top
    &&& forall|i: int|
        0 <= i < nodes.len() ==> {
            &&& (#[trigger] nodes[i]).parent < nodes.len()
            &&& nodes[i].parent != i ==> level[nodes[i].parent as int] > level[i]
        }
}

/// The node at which the parent links from `i` end.
spec fn climb(nodes: Seq<Node>, level: Seq<nat>, top: nat, i: int) -> int
    decreases top - level[i],
{
    if ranked(nodes, level, top) && 0 <= i < nodes.len() && nodes[i].parent != i {
        climb(nodes, level, top, nodes[i].parent as int)
    } else {
        i
    }
}

/// What a node adds to the mass of the forest: a root its recorded size and
/// one, any other node nothing.
spec fn load(node: Node, i: int) -> nat {
    if node.parent == i {
        (node.size + 1) as nat
    } else {
        0
    }
}

/// The loads of the first `n` nodes, summed.
spec fn mass(nodes: Seq<Node>, n: int) -> nat
    decreases n,
{
    if n <= 0 {
        0
    } else {
        mass(nodes, n - 1) + load(nodes[n - 1], n - 1)
    }
}

proof fn lemma_climb_ends_at_root(nodes: Seq<Node>, level: Seq<nat>, top: nat, i: int)
    requires
        ranked(nodes, level, top),
        0 <= i < nodes.len(),
    ensures
        0 <= climb(nodes, level, top, i) < nodes.len(),
        nodes[climb(nodes, level, top, i)].parent == climb(nodes, level, top, i),
        level[climb(nodes, level, top, i)] >= level[i],
        nodes[i].parent != i ==> level[climb(nodes, level, top, i)] > level[i],
    decreases top - level[i],
{
    if nodes[i].parent != i {
        lemma_climb_ends_at_root(nodes, level, top, nodes[i].parent as int);
    }
}

/// Links that are redirected to the end of their own chain leave every chain's
/// end where it was.
proof fn lemma_climb_same(
    nodes: Seq<Node>,
    level: Seq<nat>,
    top: nat,
    nodes2: Seq<Node>,
    level2: Seq<nat>,
    top2: nat,
    i: int,
)
    requires
        ranked(nodes, level, top),
        ranked(nodes2, level2, top2),
        nodes2.len() == nodes.len(),
        forall|j: int|
            0 <= j < nodes.len() ==> (#[trigger] nodes2[j]).parent == nodes[j].parent
                || nodes2[j].parent == climb(nodes, level, top, j),
        0 <= i < nodes.len(),
    ensures
        climb(nodes2, level2, top2, i) == climb(nodes, level, top, i),
    decreases top2 - level2[i],
{
    lemma_climb_ends_at_root(nodes, level, top, i);
    if nodes2[i].parent != i {
        let up = nodes2[i].parent as int;
        lemma_climb_same(nodes, level, top, nodes2, level2, top2, up);
        lemma_climb_ends_at_root(nodes, level, top, up);
    }
}

/// Hanging one root below another moves the chains that ended at the first to
/// the second and leaves the others where they ended.
proof fn lemma_climb_linked(
    nodes: Seq<Node>,
    level: Seq<nat>,
    top: nat,
    nodes2: Seq<Node>,
    winner: int,
    loser: int,
    i: int,
)
    requires
        ranked(nodes, level, top),
        nodes2.len() == nodes.len(),
        0 <= winner < nodes.len(),
        0 <= loser < nodes.len(),
        winner != loser,
        nodes[winner].parent == winner,
        nodes[loser].parent == loser,
        nodes2[loser].parent == winner,
        forall|j: int|
            0 <= j < nodes.len() && j != loser ==> (#[trigger] nodes2[j]).parent == nodes[j].parent,
        0 <= i < nodes.len(),
    ensures
        ranked(nodes2, level.update(winner, top + 1), top + 1),
        climb(nodes2, level.update(winner, top + 1), top + 1, i) == if climb(nodes, level, top, i)
            == loser {
            winner
        } else {
            climb(nodes, level, top, i)
        },
    decreases top - level[i],
{
    let level2 = level.update(winner, top + 1);
    assert(ranked(nodes2, level2, top + 1)) by {
        assert forall|j: int| 0 <= j < level2.len() implies #[trigger] level2[j] <= top + 1 by {
            assert(level[j] <= top);
        }
        assert forall|j: int| 0 <= j < nodes2.len() implies {
            &&& (#[trigger] nodes2[j]).parent < nodes2.len()
            &&& nodes2[j].parent != j ==> level2[nodes2[j].parent as int] > level2[j]
        } by {
            assert(nodes[j].parent < nodes.len());
            assert(level[j] <= top);
            if j != loser && nodes[j].parent != j {
                assert(level[nodes[j].parent as int] > level[j]);
            }
        }
    }
    if nodes[i].parent != i {
        lemma_climb_linked(nodes, level, top, nodes2, winner, loser, nodes[i].parent as int);
    } else if i == loser {
        assert(climb(nodes2, level2, top + 1, winner) == winner);
    }
}

proof fn lemma_mass_prefix(a: Seq<Node>, b: Seq<Node>, n: int)
    requires
        0 <= n <= a.len(),
        n <= b.len(),
        forall|i: int| 0 <= i < n ==> a[i] == b[i],
    ensures
        mass(a, n) == mass(b, n),
    decreases n,
{
    if n > 0 {
        lemma_mass_prefix(a, b, n - 1);
    }
}

/// Replacing one node changes the mass by the difference of the loads.
proof fn lemma_mass_update(nodes: Seq<Node>, k: int, node: Node, n: int)
    requires
        0 <= k < nodes.len(),
        0 <= n <= nodes.len(),
    ensures
        mass(nodes.update(k, node), n) + (if k < n {
            load(nodes[k], k)
        } else {
            0
        }) == mass(nodes, n) + (if k < n {
            load(node, k)
        } else {
            0
        }),
    decreases n,
{
    if n > 0 {
        lemma_mass_update(nodes, k, node, n - 1);
    }
}

impl DisjointSet {
    /// Number of elements.
    pub closed spec fn len(&self) -> nat {
        self.nodes@.len()
    }

    /// Whether the smaller set is hung below the larger when two are joined;
    /// otherwise the ranks decide.
    pub closed spec fn by_size(&self) -> bool {
        self.version is Size
    }

    /// The size recorded at element `i`; it matters where `i` stands for its
    /// set.
    pub closed spec fn size_of(&self, i: int) -> usize {
        self.nodes@[i].size
    }

    /// The rank recorded at element `i`.
    pub closed spec fn rank_of(&self, i: int) -> usize {
        self.nodes@[i].rank
    }

    /// The parent links form a forest, and the recorded sizes are small
    /// enough to be added.
    pub closed spec fn wf(&self) -> bool {
        &&& exists|level: Seq<nat>, top: nat| ranked(self.nodes@, level, top)
        &&& mass(self.nodes@, self.nodes@.len() as int) <= 2 * self.nodes@.len()
        &&& 2 * self.nodes@.len() <= usize::MAX
    }

    /// The element that stands for the set of `i`.
    pub closed spec fn root_of(&self, i: int) -> int {
        let (level, top) = choose|level: Seq<nat>, top: nat| ranked(self.nodes@, level, top);
        climb(self.nodes@, level, top, i)
    }

    /// How many links lie at most between `i` and the element that stands for
    /// its set.
    closed spec fn height(&self, i: int) -> nat {
        let (level, top) = choose|level: Seq<nat>, top: nat| ranked(self.nodes@, level, top);
        (top - level[i]) as nat
    }

    /// `i` and `j` are in the same set.
    pub open spec fn same_set(&self, i: int, j: int) -> bool {
        self.root_of(i) == self.root_of(j)
    }

    /// The element that stands for a set is an element, and stands for itself.
    pub proof fn lemma_root_is_root(&self, i: int)
        requires
            self.wf(),
            0 <= i < self.len(),
        ensures
            0 <= self.root_of(i) < self.len(),
            self.root_of(self.root_of(i)) == self.root_of(i),
    {
        let (level, top) = choose|level: Seq<nat>, top: nat| ranked(self.nodes@, level, top);
        lemma_climb_ends_at_root(self.nodes@, level, top, i);
        lemma_climb_ends_at_root(self.nodes@, level, top, self.root_of(i));
    }

    fn init(node_count: usize, version: DisjointType) -> (set: Self)
        requires
            2 * node_count <= usize::MAX,
        ensures
            set.wf(),
            set.len() == node_count,
            set.version == version,
            forall|i: int|
                0 <= i < node_count ==> #[trigger] set.root_of(i) == i && set.size_of(i) == 1
                    && set.rank_of(i) == 0,
    {
        let mut nodes: Vec<Node> = Vec::new();
        let mut idx: usize = 0;
        while idx < node_count
            invariant
                idx <= node_count,
                nodes@.len() == idx,
                forall|i: int|
                    0 <= i < idx ==> (#[trigger] nodes@[i]).parent == i && nodes@[i].size == 1
                        && nodes@[i].rank == 0,
                mass(nodes@, idx as int) == 2 * idx,
            decreases node_count - idx,
        {
            let ghost before = nodes@;
            nodes.push(Node { parent: idx, size: 1, rank: 0 });
            proof {
                lemma_mass_prefix(before, nodes@, idx as int);
            }
            idx = idx + 1;
        }
        let set = DisjointSet { nodes, version };
        proof {
            let level = Seq::new(set.nodes@.len(), |i: int| 0nat);
            assert(ranked(set.nodes@, level, 0));
            let (chosen, top) = choose|level: Seq<nat>, top: nat| ranked(set.nodes@, level, top);
            assert forall|i: int| 0 <= i < node_count implies #[trigger] set.root_of(i) == i by {
                assert(set.nodes@[i].parent == i);
            }
        }
        set
    }

    /// Initialize the disjoint set based on checking tree size.
    pub fn init_size(node_count: usize) -> (set: Self)
        requires
            2 * node_count <= usize::MAX,
        ensures
            set.wf(),
            set.len() == node_count,
            set.by_size(),
            forall|i: int|
                0 <= i < node_count ==> #[trigger] set.root_of(i) == i && set.size_of(i) == 1
                    && set.rank_of(i) == 0,
    {
        Self::init(node_count, DisjointType::Size)
    }

    /// Initialize the disjoint set based on checking the rank of the tree root.
    pub fn init_rank(node_count: usize) -> (set: Self)
        requires
            2 * node_count <= usize::MAX,
        ensures
            set.wf(),
            set.len() == node_count,
            !set.by_size(),
            forall|i: int|
                0 <= i < node_count ==> #[trigger] set.root_of(i) == i && set.size_of(i) == 1
                    && set.rank_of(i) == 0,
    {
        Self::init(node_count, DisjointType::Rank)
    }

    /// Get the root index
    ///
    /// The links passed on the way are redirected to the root; no set
    /// changes.
    pub fn find_root(&mut self, idx: usize) -> (root: usize)
        requires
            old(self).wf(),
            idx < old(self).len(),
        ensures
            final(self).wf(),
            final(self).len() == old(self).len(),
            final(self).by_size() == old(self).by_size(),
            root == old(self).root_of(idx as int),
            forall|i: int|
                0 <= i < old(self).len() ==> #[trigger] final(self).root_of(i) == old(self).root_of(
                    i,
                ),
            forall|i: int|
                0 <= i < old(self).len() ==> #[trigger] final(self).size_of(i) == old(self).size_of(
                    i,
                ),
            forall|i: int|
                0 <= i < old(self).len() ==> #[trigger] final(self).rank_of(i) == old(self).rank_of(
                    i,
                ),
    {
        self.compress(idx)
    }

    /// Follows the links from `idx` to the root and redirects them to it.
    fn compress(&mut self, idx: usize) -> (root: usize)
        requires
            old(self).wf(),
            idx < old(self).len(),
        ensures
            final(self).wf(),
            final(self).len() == old(self).len(),
            final(self).by_size() == old(self).by_size(),
            root == old(self).root_of(idx as int),
            forall|i: int|
                0 <= i < old(self).len() ==> #[trigger] final(self).root_of(i) == old(self).root_of(
                    i,
                ),
            forall|i: int|
                0 <= i < old(self).len() ==> #[trigger] final(self).size_of(i) == old(self).size_of(
                    i,
                ),
            forall|i: int|
                0 <= i < old(self).len() ==> #[trigger] final(self).rank_of(i) == old(self).rank_of(
                    i,
                ),
            final(self).links_kept(*old(self)),
        decreases old(self).height(idx as int),
    {
        let ghost (level, top) = choose|level: Seq<nat>, top: nat|
            ranked(old(self).nodes@, level, top);
        let ghost start = self.nodes@;
        let parent: usize = self.nodes[idx].parent;
        proof {
            assert(start[idx as int].parent < start.len());
            lemma_climb_ends_at_root(start, level, top, idx as int);
        }
        if parent != idx {
            let root = self.compress(parent);
            let ghost mid = *self;
            let ghost middle = self.nodes@;
            let size: usize = self.nodes[idx].size;
            let rank: usize = self.nodes[idx].rank;
            self.nodes[idx] = Node { parent: root, size, rank };
            proof {
                let after = self.nodes@;
                let (level1, top1) = choose|level: Seq<nat>, top: nat| ranked(middle, level, top);
                assert forall|j: int| 0 <= j < start.len() implies climb(middle, level1, top1, j)
                    == climb(start, level, top, j) by {
                    assert(mid.root_of(j) == old(self).root_of(j));
                }
                lemma_climb_ends_at_root(middle, level1, top1, idx as int);
                assert(middle[idx as int].parent != idx);
                assert(ranked(after, level1, top1)) by {
                    assert forall|j: int| 0 <= j < after.len() implies {
                        &&& (#[trigger] after[j]).parent < after.len()
                        &&& after[j].parent != j ==> level1[after[j].parent as int] > level1[j]
                    } by {
                        assert(middle[j].parent < middle.len());
                    }
                }
                lemma_mass_update(middle, idx as int, after[idx as int], middle.len() as int);
                let (level2, top2) = choose|level: Seq<nat>, top: nat| ranked(after, level, top);
                assert forall|j: int| 0 <= j < start.len() implies self.size_of(j) == old(
                    self,
                ).size_of(j) && self.rank_of(j) == old(self).rank_of(j) by {
                    assert(mid.size_of(j) == old(self).size_of(j));
                    assert(mid.rank_of(j) == old(self).rank_of(j));
                }
                assert forall|j: int| 0 <= j < start.len() implies #[trigger] self.root_of(j)
                    == old(self).root_of(j) by {
                    assert forall|k: int| 0 <= k < start.len() implies (#[trigger] after[k]).parent
                        == start[k].parent || after[k].parent == climb(start, level, top, k) by {
                        assert(middle[k].parent == start[k].parent || middle[k].parent
                            == climb(start, level, top, k));
                    }
                    lemma_climb_same(start, level, top, after, level2, top2, j);
                }
                assert forall|k: int| 0 <= k < start.len() implies (#[trigger] after[k]).parent
                    == start[k].parent || after[k].parent == old(self).root_of(k) by {
                    assert(middle[k].parent == start[k].parent || middle[k].parent
                        == climb(start, level, top, k));
                }
            }
            root
        } else {
            idx
        }
    }

    /// Every link is where it was in `before`, or leads to the element that
    /// stood for its set there; sizes and ranks are as in `before`.
    closed spec fn links_kept(&self, before: Self) -> bool {
        &&& self.nodes@.len() == before.nodes@.len()
        &&& forall|k: int|
            0 <= k < before.nodes@.len() ==> {
                &&& (#[trigger] self.nodes@[k]).parent == before.nodes@[k].parent
                    || self.nodes@[k].parent == before.root_of(k)
                &&& self.nodes@[k].size == before.nodes@[k].size
                &&& self.nodes@[k].rank == before.nodes@[k].rank
            }
    }

    /// The two elements in the order in which `union` joins the sets they
    /// stand for: the first stays, the second is hung below it. They change
    /// places if sizes decide and the first is smaller, or if ranks decide and
    /// the first has the lower rank.
    pub open spec fn ordered(&self, left: int, right: int) -> (int, int) {
        if self.by_size() && self.size_of(left) < self.size_of(right) {
            (right, left)
        } else if !self.by_size() && self.rank_of(left) < self.rank_of(right) {
            (right, left)
        } else {
            (left, right)
        }
    }

    /// Combine trees together. Returns true if the trees were previously disconnected.
    ///
    /// The set that is hung below the other is found by `ordered`; the size
    /// recorded for the joined set is the sum of the two, and one more if the
    /// ranks of the two were equal.
    pub fn union(&mut self, left: usize, right: usize) -> (joined: bool)
        requires
            old(self).wf(),
            left < old(self).len(),
            right < old(self).len(),
        ensures
            final(self).wf(),
            final(self).len() == old(self).len(),
            final(self).by_size() == old(self).by_size(),
            joined == !old(self).same_set(left as int, right as int),
            forall|i: int| 0 <= i < old(self).len() ==>
                #[trigger] final(self).rank_of(i) == old(self).rank_of(i),
            !joined ==> forall|i: int|
                0 <= i < old(self).len() ==>
                    #[trigger] final(self).root_of(i) == old(self).root_of(i)
                    && final(self).size_of(i) == old(self).size_of(i),
            joined ==> {
                let (winner, loser) = old(self).ordered(
                    old(self).root_of(left as int),
                    old(self).root_of(right as int),
                );
                &&& forall|i: int|
                    0 <= i < old(self).len() ==> #[trigger] final(self).root_of(i) == if old(
                        self,
                    ).root_of(i) == loser {
                        winner
                    } else {
                        old(self).root_of(i)
                    }
                &&& final(self).size_of(winner)
                    == old(self).size_of(winner) + old(self).size_of(loser)
                    + if old(self).rank_of(winner) == old(self).rank_of(loser) {
                    1int
                } else {
                    0int
                }
                &&& forall|i: int|
                    0 <= i < old(self).len() && i != winner ==> #[trigger] final(self).size_of(i)
                        == old(self).size_of(i)
            },
    {
        let mut left_root = self.find_root(left);
        let ghost between = *self;
        let mut right_root = self.find_root(right);
        proof {
            old(self).lemma_root_is_root(left as int);
            old(self).lemma_root_is_root(right as int);
            assert(self.root_of(left_root as int) == old(self).root_of(left_root as int));
            assert(self.root_of(right_root as int) == old(self).root_of(right_root as int));
            assert(between.root_of(right as int) == old(self).root_of(right as int));
            assert(between.size_of(left_root as int) == old(self).size_of(left_root as int));
        }
        if left_root == right_root {
            return false;
        }
        let ghost found = *self;
        let (winner, loser) = self.order(left_root, right_root);
        left_root = winner;
        right_root = loser;
        let ghost nodes = self.nodes@;
        let ghost (level, top) = choose|level: Seq<nat>, top: nat| ranked(nodes, level, top);
        proof {
            lemma_climb_ends_at_root(nodes, level, top, left_root as int);
            lemma_climb_ends_at_root(nodes, level, top, right_root as int);
            assert(nodes[left_root as int].parent == left_root);
            assert(nodes[right_root as int].parent == right_root);
            // the two roots weigh no more than the whole forest
            let bare = Node { parent: left_root, size: 0, rank: 0 };
            lemma_mass_update(nodes, right_root as int, bare, nodes.len() as int);
            let without = nodes.update(right_root as int, bare);
            let other = Node { parent: right_root, size: 0, rank: 0 };
            lemma_mass_update(without, left_root as int, other, nodes.len() as int);
        }
        let lost_size: usize = self.nodes[right_root].size;
        let lost_rank: usize = self.nodes[right_root].rank;
        self.nodes[right_root] = Node { parent: left_root, size: lost_size, rank: lost_rank };
        let ghost hung = self.nodes@;
        let kept_rank: usize = self.nodes[left_root].rank;
        let mut size: usize = self.nodes[left_root].size;
        size = size + lost_size;
        if kept_rank == lost_rank {
            size = size + 1;
        }
        self.nodes[left_root] = Node { parent: left_root, size, rank: kept_rank };
        proof {
            let after = self.nodes@;
            lemma_mass_update(
                nodes,
                right_root as int,
                hung[right_root as int],
                nodes.len() as int,
            );
            lemma_mass_update(hung, left_root as int, after[left_root as int], nodes.len() as int);
            assert forall|i: int| 0 <= i < nodes.len() implies
                #[trigger] self.root_of(i) == if found.root_of(
                i,
            ) == right_root {
                left_root as int
            } else {
                found.root_of(i)
            } by {
                lemma_climb_linked(
                    nodes,
                    level,
                    top,
                    after,
                    left_root as int,
                    right_root as int,
                    i,
                );
                let level2 = level.update(left_root as int, top + 1);
                let (level3, top3) = choose|level: Seq<nat>, top: nat| ranked(after, level, top);
                assert forall|j: int| 0 <= j < after.len() implies (#[trigger] after[j]).parent
                    == after[j].parent by {}
                lemma_climb_same(after, level2, top + 1, after, level3, top3, i);
            }
            lemma_climb_linked(
                nodes,
                level,
                top,
                after,
                left_root as int,
                right_root as int,
                left_root as int,
            );
            assert forall|i: int| 0 <= i < nodes.len() implies
                found.rank_of(i) == old(self).rank_of(
                i,
            ) && found.size_of(i) == old(self).size_of(i) && found.root_of(i) == old(self).root_of(
                i,
            ) by {
                assert(between.rank_of(i) == old(self).rank_of(i));
                assert(between.size_of(i) == old(self).size_of(i));
                assert(between.root_of(i) == old(self).root_of(i));
            }
            assert forall|i: int| 0 <= i < nodes.len() implies #[trigger] self.rank_of(i) == old(
                self,
            ).rank_of(i) by {
                assert(found.rank_of(i) == old(self).rank_of(i));
            }
            let before_left = old(self).root_of(left as int);
            let before_right = old(self).root_of(right as int);
            assert(found.ordered(before_left, before_right) == old(self).ordered(
                before_left,
                before_right,
            )) by {
                assert(found.size_of(before_left) == old(self).size_of(before_left));
                assert(found.size_of(before_right) == old(self).size_of(before_right));
                assert(found.rank_of(before_left) == old(self).rank_of(before_left));
                assert(found.rank_of(before_right) == old(self).rank_of(before_right));
            }
            assert forall|i: int| 0 <= i < nodes.len() implies #[trigger] self.root_of(i) == if old(
                self,
            ).root_of(i) == right_root {
                left_root as int
            } else {
                old(self).root_of(i)
            } by {
                assert(found.root_of(i) == old(self).root_of(i));
            }
            assert forall|i: int| 0 <= i < nodes.len() && i != left_root implies
                #[trigger] self.size_of(
                i,
            ) == old(self).size_of(i) by {
                assert(found.size_of(i) == old(self).size_of(i));
            }
            assert(found.size_of(left_root as int) == old(self).size_of(left_root as int));
            assert(found.size_of(right_root as int) == old(self).size_of(right_root as int));
            assert(found.rank_of(left_root as int) == old(self).rank_of(left_root as int));
            assert(found.rank_of(right_root as int) == old(self).rank_of(right_root as int));
        }
        true
    }

    fn order(&self, left: usize, right: usize) -> (pair: (usize, usize))
        requires
            left < self.len(),
            right < self.len(),
        ensures
            (pair.0 as int, pair.1 as int) == self.ordered(left as int, right as int),
    {
        match self.version {
            DisjointType::Size => {
                if self.nodes[left].size < self.nodes[right].size {
                    (right, left)
                } else {
                    (left, right)
                }
            },
            DisjointType::Rank => {
                if self.nodes[left].rank < self.nodes[right].rank {
                    (right, left)
                } else {
                    (left, right)
                }
            },
        }
    }
}

} // verus!
