//! The priority frontier shared by the weighted searches: a binary heap of
//! `(node, cost)` entries that hands out the cheapest entry first and, among
//! entries of equal cost, the one with the smallest node.

use vstd::multiset::Multiset;
use vstd::prelude::*;

verus! {

/// A discovered node together with the priority under which it waits.
#[derive(Clone, Copy, Debug, PartialEq, Eq)]
pub struct FrontierEntry {
    pub node: usize,
    pub cost: usize,
}

/// The order in which entries leave the frontier, ascending by cost and then
/// by node: `a` is handed out no later than `b` when it is cheaper, or equally
/// cheap with a node that is not greater. The relation is a total order on
/// entries.
pub open spec fn leaves_first(a: FrontierEntry, b: FrontierEntry) -> bool {
    a.cost < b.cost || (a.cost == b.cost && a.node <= b.node)
}

/// Index of the parent of slot `i` in the implicit binary tree.
pub open spec fn parent(i: int) -> int {
    (i - 1) / 2
}

/// Every slot but the root waits behind its parent.
pub open spec fn heap_ordered(s: Seq<FrontierEntry>) -> bool {
    forall|i: int| 0 < i < s.len() ==> leaves_first(s[parent(i)], #[trigger] s[i])
}

/// Heap order with one slot `hole` whose entry may still leave before its
/// parent; the children of `hole` already wait behind its parent.
spec fn ordered_above(s: Seq<FrontierEntry>, hole: int) -> bool {
    &&& forall|i: int| 0 < i < s.len() && i != hole ==> leaves_first(s[parent(i)], #[trigger] s[i])
    &&& forall|i: int|
        0 < i < s.len() && parent(i) == hole && hole > 0 ==> leaves_first(
            s[parent(hole)],
            #[trigger] s[i],
        )
}

/// Heap order with one slot `hole` whose entry may still wait behind its
/// children; the children of `hole` already wait behind its parent.
spec fn ordered_below(s: Seq<FrontierEntry>, hole: int) -> bool {
    &&& forall|i: int|
        0 < i < s.len() && parent(i) != hole ==> leaves_first(s[parent(i)], #[trigger] s[i])
    &&& forall|i: int|
        0 < i < s.len() && parent(i) == hole && hole > 0 ==> leaves_first(
            s[parent(hole)],
            #[trigger] s[i],
        )
}

/// In a heap-ordered sequence the root leaves before every other slot.
proof fn lemma_root_leaves_first(s: Seq<FrontierEntry>, i: int)
    requires
        heap_ordered(s),
        0 <= i < s.len(),
    ensures
        leaves_first(s[0], s[i]),
    decreases i,
{
    if i > 0 {
        lemma_root_leaves_first(s, parent(i));
        assert(leaves_first(s[parent(i)], s[i]));
    }
}

/// Exchanging two slots keeps the multiset of entries.
proof fn lemma_swap_keeps_entries(s: Seq<FrontierEntry>, i: int, j: int)
    requires
        0 <= i < s.len(),
        0 <= j < s.len(),
    ensures
        s.update(i, s[j]).update(j, s[i]).to_multiset() == s.to_multiset(),
{
    broadcast use vstd::multiset::group_multiset_axioms;

    let mid = s.update(i, s[j]);
    vstd::seq_lib::to_multiset_update(s, i, s[j]);
    vstd::seq_lib::to_multiset_update(mid, j, s[i]);
    vstd::seq_lib::to_multiset_contains(s, s[i]);
    vstd::seq_lib::to_multiset_contains(s, s[j]);
    assert(s.contains(s[i]));
    assert(s.contains(s[j]));
    assert(mid.update(j, s[i]).to_multiset() =~= s.to_multiset());
}

/// Decides the frontier order between two entries.
fn goes_first(a: &FrontierEntry, b: &FrontierEntry) -> (r: bool)
    ensures
        r == leaves_first(*a, *b),
{
    a.cost < b.cost || (a.cost == b.cost && a.node <= b.node)
}

/// Moves the entry in slot `start` towards the root until its parent leaves
/// before it.
fn sift_up(heap: &mut Vec<FrontierEntry>, start: usize)
    requires
        start < old(heap)@.len(),
        ordered_above(old(heap)@, start as int),
    ensures
        heap_ordered(final(heap)@),
        final(heap)@.to_multiset() == old(heap)@.to_multiset(),
        final(heap)@.len() == old(heap)@.len(),
{
    let mut i: usize = start;
    while i > 0
        invariant
            i < heap@.len(),
            heap@.len() == old(heap)@.len(),
            ordered_above(heap@, i as int),
            heap@.to_multiset() == old(heap)@.to_multiset(),
        ensures
            i < heap@.len(),
            heap@.len() == old(heap)@.len(),
            heap_ordered(heap@),
            heap@.to_multiset() == old(heap)@.to_multiset(),
        decreases i,
    {
        let up: usize = (i - 1) / 2;
        let child = heap[i];
        let above = heap[up];
        if goes_first(&above, &child) {
            break;
        }
        proof {
            lemma_swap_keeps_entries(heap@, i as int, up as int);
        }
        let ghost before = heap@;
        heap[i] = above;
        heap[up] = child;
        proof {
            let after = heap@;
            assert forall|k: int| 0 < k < after.len() && k != up implies leaves_first(
                after[parent(k)],
                #[trigger] after[k],
            ) by {
                if k == i {
                } else if parent(k) == i {
                    assert(leaves_first(before[parent(i as int)], before[k]));
                } else if parent(k) == up {
                    assert(leaves_first(before[parent(k)], before[k]));
                } else {
                    assert(leaves_first(before[parent(k)], before[k]));
                }
            }
            assert forall|k: int|
                0 < k < after.len() && parent(k) == up && up > 0 implies leaves_first(
                after[parent(up as int)],
                #[trigger] after[k],
            ) by {
                assert(leaves_first(before[parent(up as int)], before[up as int]));
                if k == i {
                } else {
                    assert(leaves_first(before[parent(k)], before[k]));
                }
            }
        }
        i = up;
    }
}

/// Moves the entry in the root towards the leaves until it leaves before both
/// of its children.
fn sift_down(heap: &mut Vec<FrontierEntry>)
    requires
        old(heap)@.len() > 0,
        ordered_below(old(heap)@, 0),
    ensures
        heap_ordered(final(heap)@),
        final(heap)@.to_multiset() == old(heap)@.to_multiset(),
        final(heap)@.len() == old(heap)@.len(),
{
    let len: usize = heap.len();
    let mut i: usize = 0;
    while i < len / 2
        invariant
            len == heap@.len(),
            heap@.len() == old(heap)@.len(),
            i < len,
            ordered_below(heap@, i as int),
            heap@.to_multiset() == old(heap)@.to_multiset(),
        ensures
            heap@.len() == old(heap)@.len(),
            heap_ordered(heap@),
            heap@.to_multiset() == old(heap)@.to_multiset(),
        decreases len - i,
    {
        let left: usize = 2 * i + 1;
        let right: usize = left + 1;
        let mut best: usize = left;
        if right < len {
            let l = heap[left];
            let r = heap[right];
            if !goes_first(&l, &r) {
                best = right;
            }
        }
        let here = heap[i];
        let below = heap[best];
        if goes_first(&here, &below) {
            proof {
                let s = heap@;
                assert forall|k: int| 0 < k < s.len() implies leaves_first(
                    s[parent(k)],
                    #[trigger] s[k],
                ) by {
                    if parent(k) == i {
                        assert(k == left || k == right);
                    }
                }
            }
            break;
        }
        proof {
            lemma_swap_keeps_entries(heap@, i as int, best as int);
        }
        let ghost before = heap@;
        heap[i] = below;
        heap[best] = here;
        proof {
            let after = heap@;
            assert forall|k: int| 0 < k < after.len() && parent(k) != best implies leaves_first(
                after[parent(k)],
                #[trigger] after[k],
            ) by {
                if k == i {
                    assert(leaves_first(before[parent(i as int)], before[best as int]));
                } else if parent(k) == i {
                    assert(k == left || k == right);
                } else {
                    assert(leaves_first(before[parent(k)], before[k]));
                }
            }
            assert forall|k: int|
                0 < k < after.len() && parent(k) == best && best > 0 implies leaves_first(
                after[parent(best as int)],
                #[trigger] after[k],
            ) by {
                assert(leaves_first(before[parent(k)], before[k]));
            }
        }
        i = best;
    }
}

/// The entries awaiting exploration, kept as a binary heap.
///
/// The same node may wait under several costs at once; the frontier never
/// merges or drops entries on its own.
pub struct Frontier {
    heap: Vec<FrontierEntry>,
}

impl View for Frontier {
    type V = Multiset<FrontierEntry>;

    closed spec fn view(&self) -> Multiset<FrontierEntry> {
        self.heap@.to_multiset()
    }
}

impl Frontier {
    /// The heap order that every operation expects and restores.
    pub closed spec fn wf(&self) -> bool {
        heap_ordered(self.heap@)
    }

    /// An empty frontier.
    pub fn new() -> (f: Frontier)
        ensures
            f.wf(),
            f@ == Multiset::<FrontierEntry>::empty(),
    {
        let f = Frontier { heap: Vec::new() };
        proof {
            vstd::seq_lib::to_multiset_len(f.heap@);
            vstd::multiset::lemma_multiset_empty_len(f.heap@.to_multiset());
        }
        f
    }

    /// Number of waiting entries, duplicates counted.
    pub fn len(&self) -> (n: usize)
        ensures
            n == self@.len(),
    {
        proof {
            vstd::seq_lib::to_multiset_len(self.heap@);
        }
        self.heap.len()
    }

    /// Whether nothing is waiting.
    pub fn is_empty(&self) -> (b: bool)
        ensures
            b == (self@.len() == 0),
    {
        proof {
            vstd::seq_lib::to_multiset_len(self.heap@);
        }
        self.heap.len() == 0
    }

    /// Adds one entry for `node` under `cost`.
    pub fn push(&mut self, node: usize, cost: usize)
        requires
            old(self).wf(),
        ensures
            final(self).wf(),
            final(self)@ == old(self)@.insert(FrontierEntry { node, cost }),
            final(self)@.len() == old(self)@.len() + 1,
    {
        let entry = FrontierEntry { node, cost };
        proof {
            vstd::seq_lib::to_multiset_build(self.heap@, entry);
            vstd::seq_lib::to_multiset_len(self.heap@);
            vstd::seq_lib::to_multiset_len(self.heap@.push(entry));
        }
        self.heap.push(entry);
        let last: usize = self.heap.len() - 1;
        sift_up(&mut self.heap, last);
    }

    /// Removes and returns the entry that leaves first, if any is waiting.
    pub fn pop(&mut self) -> (r: Option<FrontierEntry>)
        requires
            old(self).wf(),
        ensures
            final(self).wf(),
            match r {
                None => old(self)@.len() == 0 && final(self)@ == old(self)@,
                Some(e) => {
                    &&& old(self)@.contains(e)
                    &&& final(self)@ == old(self)@.remove(e)
                    &&& final(self)@.len() == old(self)@.len() - 1
                    &&& forall|x: FrontierEntry| old(self)@.contains(x) ==> leaves_first(e, x)
                },
            },
    {
        proof {
            vstd::seq_lib::to_multiset_len(self.heap@);
        }
        if self.heap.len() == 0 {
            return None;
        }
        let ghost before = self.heap@;
        let top = self.heap[0];
        let last = self.heap.pop().unwrap();
        proof {
            let rest = self.heap@;
            vstd::seq_lib::to_multiset_len(rest);
            vstd::seq_lib::to_multiset_len(rest.update(0, last));
            assert(before =~= rest.push(last));
            vstd::seq_lib::to_multiset_build(rest, last);
            assert forall|x: FrontierEntry| before.to_multiset().contains(x) implies leaves_first(
                top,
                x,
            ) by {
                vstd::seq_lib::to_multiset_contains(before, x);
                let k = choose|k: int| 0 <= k < before.len() && before[k] == x;
                lemma_root_leaves_first(before, k);
            }
            vstd::seq_lib::to_multiset_contains(before, top);
            assert(before.contains(top)) by {
                assert(before[0] == top);
            }
        }
        if self.heap.len() > 0 {
            proof {
                vstd::seq_lib::to_multiset_update(self.heap@, 0, last);
            }
            let ghost rest = self.heap@;
            self.heap[0] = last;
            proof {
                broadcast use vstd::multiset::group_multiset_axioms;

                let s = self.heap@;
                assert forall|k: int| 0 < k < s.len() && parent(k) != 0 implies leaves_first(
                    s[parent(k)],
                    #[trigger] s[k],
                ) by {
                    assert(leaves_first(before[parent(k)], before[k]));
                }
                assert(s.to_multiset() =~= before.to_multiset().remove(top));
            }
            sift_down(&mut self.heap);
        } else {
            proof {
                broadcast use vstd::multiset::group_multiset_axioms;

                assert(self.heap@.to_multiset() =~= before.to_multiset().remove(top));
            }
        }
        Some(top)
    }
}

} // verus!
