//! Enumerators of the arrangements and selections of a list.

use vstd::prelude::*;
use vstd::std_specs::cmp::PartialEqSpec;

verus! {

/// A clone of a `T` is the value it was made of.
pub open spec fn clone_is_same<T: Clone>() -> bool {
    forall|a: T, b: T| #[trigger] cloned(a, b) ==> a == b
}

/// A clone of `item`.
fn copy_of<T: Clone>(item: &T) -> (copy: T)
    requires
        clone_is_same::<T>(),
    ensures
        copy == *item,
{
    let copy = item.clone();
    proof {
        assert(cloned(*item, copy));
    }
    copy
}

/// A list of clones of `items`, in their order.
fn copy_list<T: Clone>(items: &[T]) -> (list: Vec<T>)
    requires
        clone_is_same::<T>(),
    ensures
        list@ == items@,
{
    let mut list: Vec<T> = Vec::new();
    let mut i: usize = 0;
    while i < items.len()
        invariant
            clone_is_same::<T>(),
            i <= items@.len(),
            list@ == items@.take(i as int),
        decreases items@.len() - i,
    {
        list.push(copy_of(&items[i]));
        proof {
            assert(list@ =~= items@.take(i + 1));
        }
        i = i + 1;
    }
    proof {
        assert(items@.take(items@.len() as int) =~= items@);
    }
    list
}

/// The items whose position has its bit set in `mask`, in the order of the
/// list: the lowest bit stands for the first item.
pub open spec fn picked<T>(items: Seq<T>, mask: nat) -> Seq<T>
    decreases items.len(),
{
    if items.len() == 0 || mask == 0 {
        Seq::empty()
    } else if mask % 2 == 1 {
        seq![items[0]] + picked(items.drop_first(), mask / 2)
    } else {
        picked(items.drop_first(), mask / 2)
    }
}

/// The items at the given positions, in the order of the positions.
pub open spec fn selected<T>(items: Seq<T>, positions: Seq<usize>) -> Seq<T> {
    Seq::new(positions.len(), |j: int| items[positions[j] as int])
}

/// `positions` rise strictly and stay below `n`.
pub open spec fn is_selection(positions: Seq<usize>, n: nat) -> bool {
    &&& forall|i: int| 0 <= i < positions.len() ==> #[trigger] positions[i] < n
    &&& forall|i: int, j: int|
        0 <= i < j < positions.len() ==> #[trigger] positions[i] < #[trigger] positions[j]
}

/// Position `i` can move on by one and still leave room below `n` for the
/// positions after it.
pub open spec fn can_advance(positions: Seq<usize>, n: nat, i: int) -> bool {
    positions[i] + (positions.len() - i) < n
}

/// No position can move on: the selection is the last one.
pub open spec fn is_last_selection(positions: Seq<usize>, n: nat) -> bool {
    forall|i: int| 0 <= i < positions.len() ==> !#[trigger] can_advance(positions, n, i)
}

/// The selection in which position `i` has moved on by one and the positions
/// after it follow it directly.
pub open spec fn advanced_at(positions: Seq<usize>, i: int) -> Seq<usize> {
    Seq::new(
        positions.len(),
        |j: int|
            if j < i {
                positions[j]
            } else {
                (positions[i] + 1 + (j - i)) as usize
            },
    )
}

/// `next` follows `positions` in the order of selections: the last position
/// that can move on has moved on.
pub open spec fn is_next_selection(positions: Seq<usize>, n: nat, next: Seq<usize>) -> bool {
    exists|i: int|
        {
            &&& 0 <= i < positions.len()
            &&& #[trigger] can_advance(positions, n, i)
            &&& forall|j: int| i < j < positions.len() ==> !#[trigger] can_advance(positions, n, j)
            &&& next == advanced_at(positions, i)
        }
}

/// Enumerates the non-empty sub-lists of a list, each once, from the whole
/// list down to the first item alone.
pub struct CombinationsIterator<T> {
    items: Vec<T>,
    count: usize,
}

impl<T: Clone> CombinationsIterator<T> {
    /// The list whose sub-lists are enumerated.
    pub closed spec fn items(&self) -> Seq<T> {
        self.items@
    }

    /// The mask of the sub-list that comes next; zero when none is left.
    pub closed spec fn count(&self) -> nat {
        self.count as nat
    }

    /// Every set bit of the mask stands for an item, and a clone of an item is
    /// that item.
    pub closed spec fn wf(&self) -> bool {
        &&& self.count < vstd::arithmetic::power2::pow2(self.items@.len())
        &&& clone_is_same::<T>()
    }

    fn new(items: &[T]) -> (it: Self)
        requires
            clone_is_same::<T>(),
            vstd::arithmetic::power2::pow2(items@.len()) - 1 <= usize::MAX,
        ensures
            it.wf(),
            it.items() == items@,
            it.count() == vstd::arithmetic::power2::pow2(items@.len()) - 1,
    {
        let mut count: usize = 0;
        let mut i: usize = 0;
        proof {
            vstd::arithmetic::power2::lemma2_to64();
        }
        while i < items.len()
            invariant
                i <= items@.len(),
                count == vstd::arithmetic::power2::pow2(i as nat) - 1,
                vstd::arithmetic::power2::pow2(items@.len()) - 1 <= usize::MAX,
            decreases items@.len() - i,
        {
            proof {
                vstd::arithmetic::power2::lemma_pow2_unfold((i + 1) as nat);
                if i + 1 < items@.len() {
                    vstd::arithmetic::power2::lemma_pow2_strictly_increases(
                        (i + 1) as nat,
                        items@.len(),
                    );
                }
            }
            count = 2 * count + 1;
            i = i + 1;
        }
        proof {
            vstd::arithmetic::power2::lemma_pow2_pos(items@.len());
        }
        CombinationsIterator { items: copy_list(items), count }
    }

    /// The next sub-list, or `None` when every one has been handed out.
    pub fn next(&mut self) -> (r: Option<Vec<T>>)
        requires
            old(self).wf(),
        ensures
            final(self).wf(),
            final(self).items() == old(self).items(),
            old(self).count() == 0 ==> r is None && final(self).count() == 0,
            old(self).count() > 0 ==> final(self).count() == old(self).count() - 1 && r is Some
                && r->0@ == picked(old(self).items(), old(self).count()),
    {
        if self.count == 0 {
            return None;
        }
        let mut res: Vec<T> = Vec::new();
        let mut idx: usize = 0;
        let mut mask: usize = self.count;
        self.count = self.count - 1;
        let ghost whole = self.items@;
        let ghost first = mask as nat;
        let len: usize = self.items.len();
        proof {
            assert(whole.skip(0) =~= whole);
        }
        while mask != 0
            invariant
                clone_is_same::<T>(),
                self.items@ == whole,
                len == whole.len(),
                idx <= whole.len(),
                mask < vstd::arithmetic::power2::pow2((whole.len() - idx) as nat),
                res@ + picked(whole.skip(idx as int), mask as nat) == picked(whole, first),
            decreases mask,
        {
            proof {
                if idx == whole.len() {
                    vstd::arithmetic::power2::lemma2_to64();
                }
                assert(idx < whole.len());
                vstd::arithmetic::power2::lemma_pow2_unfold((whole.len() - idx) as nat);
                assert(whole.skip(idx as int).drop_first() =~= whole.skip(idx + 1));
                assert(whole.skip(idx as int)[0] == whole[idx as int]);
            }
            let ghost before = res@;
            if mask % 2 == 1 {
                res.push(copy_of(&self.items[idx]));
                proof {
                    assert(res@ + picked(whole.skip(idx + 1), (mask / 2) as nat) =~= before + (
                    seq![whole[idx as int]] + picked(whole.skip(idx + 1), (mask / 2) as nat)));
                }
            }
            idx = idx + 1;
            mask = mask / 2;
        }
        proof {
            assert(res@ + Seq::<T>::empty() =~= res@);
        }
        Some(res)
    }
}

/// Enumerates the selections of a fixed number of items of a list, in the
/// order of their positions.
pub struct ChooseIterator<T> {
    items: Vec<T>,
    idx: Vec<usize>,
    picks: usize,
    len: usize,
    first: bool,
}

impl<T: Clone> ChooseIterator<T> {
    /// The list from which items are selected.
    pub closed spec fn items(&self) -> Seq<T> {
        self.items@
    }

    /// The number of items in each selection.
    pub closed spec fn picks(&self) -> nat {
        self.picks as nat
    }

    /// The positions of the selection handed out last, or of the first one
    /// while none has been handed out.
    pub closed spec fn positions(&self) -> Seq<usize> {
        self.idx@
    }

    /// No selection has been handed out yet.
    pub closed spec fn is_first(&self) -> bool {
        self.first
    }

    /// There is no selection at all: the list is empty or shorter than a
    /// selection.
    pub open spec fn is_void(&self) -> bool {
        self.items().len() == 0 || self.items().len() < self.picks()
    }

    /// The positions are a selection, unless there is none at all, and a
    /// clone of an item is that item.
    pub closed spec fn wf(&self) -> bool {
        &&& clone_is_same::<T>()
        &&& self.idx@.len() == self.picks
        &&& self.len == self.items@.len()
        &&& !self.is_void() ==> is_selection(self.idx@, self.items@.len())
    }

    fn new(items: &[T], picks: usize) -> (it: Self)
        requires
            clone_is_same::<T>(),
        ensures
            it.wf(),
            it.is_first(),
            it.items() == items@,
            it.picks() == picks,
            it.positions() == Seq::new(picks as nat, |i: int| i as usize),
    {
        let mut idx: Vec<usize> = Vec::new();
        let mut i: usize = 0;
        while i < picks
            invariant
                i <= picks,
                idx@.len() == i,
                forall|j: int| 0 <= j < i ==> idx@[j] == j,
            decreases picks - i,
        {
            idx.push(i);
            i = i + 1;
        }
        proof {
            assert(idx@ =~= Seq::new(picks as nat, |i: int| i as usize));
        }
        ChooseIterator { items: copy_list(items), idx, picks, len: items.len(), first: true }
    }

    fn combo(&self) -> (c: Vec<T>)
        requires
            self.wf(),
            !self.is_void(),
        ensures
            c@ == selected(self.items(), self.positions()),
    {
        let mut c: Vec<T> = Vec::new();
        let mut j: usize = 0;
        while j < self.idx.len()
            invariant
                clone_is_same::<T>(),
                j <= self.idx@.len(),
                is_selection(self.idx@, self.items@.len()),
                c@.len() == j,
                forall|k: int| 0 <= k < j ==> c@[k] == self.items@[self.idx@[k] as int],
            decreases self.idx@.len() - j,
        {
            let at: usize = self.idx[j];
            c.push(copy_of(&self.items[at]));
            j = j + 1;
        }
        proof {
            assert(c@ =~= selected(self.items(), self.positions()));
        }
        c
    }

    /// The next selection, or `None` when the last one has been handed out.
    ///
    /// After `None` has been returned for a list that has selections, the
    /// enumerator is spent and must not be asked again.
    pub fn next(&mut self) -> (r: Option<Vec<T>>)
        requires
            old(self).wf(),
        ensures
            final(self).items() == old(self).items(),
            final(self).picks() == old(self).picks(),
            r is None <==> old(self).is_void() || (!old(self).is_first() && is_last_selection(
                old(self).positions(),
                old(self).items().len(),
            )),
            old(self).is_void() ==> final(self).wf() && final(self).positions() == old(
                self,
            ).positions() && final(self).is_first() == old(self).is_first(),
            r is Some ==> {
                &&& final(self).wf()
                &&& !final(self).is_first()
                &&& r->0@ == selected(final(self).items(), final(self).positions())
                &&& old(self).is_first() ==> final(self).positions() == old(self).positions()
                &&& !old(self).is_first() ==> is_next_selection(
                    old(self).positions(),
                    old(self).items().len(),
                    final(self).positions(),
                )
            },
    {
        if self.items.len() == 0 || self.items.len() < self.picks {
            return None;
        }
        if self.first {
            self.first = false;
            return Some(self.combo());
        }
        let ghost before = self.idx@;
        let ghost n = self.items@.len();
        let mut i: usize = self.picks;
        let mut found: bool = false;
        while i > 0 && !found
            invariant
                self.items@ == old(self).items@,
                self.picks == old(self).picks,
                self.len == n,
                self.first == false,
                n == self.items@.len(),
                before.len() == self.picks,
                self.idx@.len() == before.len(),
                is_selection(before, n),
                i <= self.picks,
                !found ==> forall|j: int| 0 <= j < i ==> self.idx@[j] == before[j],
                !found ==> forall|j: int|
                    i <= j < before.len() ==> !#[trigger] can_advance(before, n, j),
                found ==> i < before.len() && can_advance(before, n, i as int) && self.idx@
                    == advanced_at(before, i as int) && forall|j: int|
                    i < j < before.len() ==> !#[trigger] can_advance(before, n, j),
            decreases i,
        {
            i = i - 1;
            proof {
                assert(self.idx@[i as int] == before[i as int]);
                assert(before[i as int] < n);
            }
            let moved: usize = self.idx[i] + 1;
            self.idx[i] = moved;
            if moved != self.len {
                let mut fits: bool = true;
                let mut next: usize = i + 1;
                while next < self.picks && fits
                    invariant
                        self.items@ == old(self).items@,
                        self.picks == old(self).picks,
                        self.len == n,
                        self.first == false,
                        self.idx@.len() == before.len(),
                        before.len() == self.picks,
                        is_selection(before, n),
                        i < next <= self.picks,
                        forall|j: int| 0 <= j < i ==> self.idx@[j] == before[j],
                        fits ==> forall|j: int|
                            i <= j < next ==> #[trigger] self.idx@[j] == before[i as int] + 1 + (j
                                - i) && self.idx@[j] < n,
                        !fits ==> !can_advance(before, n, i as int),
                    decreases self.picks - next,
                {
                    let follows: usize = self.idx[next - 1] + 1;
                    self.idx[next] = follows;
                    if follows == self.len {
                        fits = false;
                    }
                    next = next + 1;
                }
                if fits {
                    found = true;
                    proof {
                        assert(self.idx@[before.len() - 1] < n);
                        assert(self.idx@ =~= advanced_at(before, i as int));
                    }
                }
            }
        }
        if found {
            proof {
                let now = self.idx@;
                assert(is_selection(now, n)) by {
                    assert forall|a: int| 0 <= a < now.len() implies #[trigger] now[a] < n by {
                        if a < i {
                            assert(before[a] < n);
                        }
                    }
                    assert forall|a: int, b: int| 0 <= a < b < now.len() implies #[trigger] now[a]
                        < #[trigger] now[b] by {
                        if b < i {
                            assert(before[a] < before[b]);
                        } else if a < i {
                            assert(before[a] < before[i as int]);
                        }
                    }
                }
            }
            return Some(self.combo());
        }
        None
    }
}

/// `items` with the items at positions `i` and `j` exchanged.
pub open spec fn exchanged<T>(items: Seq<T>, i: int, j: int) -> Seq<T> {
    items.update(i, items[j]).update(j, items[i])
}

/// The lowest digit from `from` on that is below its greatest value, or the
/// number of digits if there is none. Digit `i` counts from zero to `i`.
pub open spec fn free_digit(counter: Seq<usize>, from: int) -> int
    decreases counter.len() - from,
{
    if from >= counter.len() {
        counter.len() as int
    } else if counter[from] < from {
        from
    } else {
        free_digit(counter, from + 1)
    }
}

/// Every digit from one on is at its greatest value: the counter has run
/// through.
pub open spec fn is_spent(counter: Seq<usize>) -> bool {
    free_digit(counter, 1) >= counter.len()
}

/// The counter after digit `i` has counted up: the digits from one to below
/// `i` start again at zero.
pub open spec fn counted(counter: Seq<usize>, i: int) -> Seq<usize> {
    Seq::new(
        counter.len(),
        |j: int|
            if 1 <= j < i {
                0usize
            } else if j == i {
                (counter[i] + 1) as usize
            } else {
                counter[j]
            },
    )
}

/// The arrangement and the counter after `n` exchanges. Each exchange is
/// decided by the lowest digit `i` that can count up: the item at `i` changes
/// places with the first item if `i` is even, and with the item at the
/// position that the digit holds if `i` is odd. A counter that has run through
/// stays as it is.
pub open spec fn arranged_after<T>(items: Seq<T>, counter: Seq<usize>, n: nat) -> (
    Seq<T>,
    Seq<usize>,
)
    decreases n,
{
    if n == 0 {
        (items, counter)
    } else {
        let (before, digits) = arranged_after(items, counter, (n - 1) as nat);
        let i = free_digit(digits, 1);
        if i >= digits.len() {
            (before, digits)
        } else if i % 2 == 0 {
            (exchanged(before, 0, i), counted(digits, i))
        } else {
            (exchanged(before, digits[i] as int, i), counted(digits, i))
        }
    }
}

/// Each of the first `n` exchanges was possible and led to an arrangement
/// that had been seen.
pub open spec fn all_seen_until<T>(
    items: Seq<T>,
    counter: Seq<usize>,
    seen: Seq<Seq<T>>,
    n: nat,
) -> bool {
    forall|m: nat|
        m < n ==> !is_spent((#[trigger] arranged_after(items, counter, m)).1) && seen.contains(
            arranged_after(items, counter, m + 1).0,
        )
}

/// An enumerator that started from `items` and `counter` hands out `reached`
/// after `n` exchanges: it is the arrangement after the `n`-th exchange, and
/// the first one that had not been seen.
pub open spec fn is_handed_out_after<T>(
    items: Seq<T>,
    counter: Seq<usize>,
    seen: Seq<Seq<T>>,
    n: nat,
    reached: Seq<T>,
    digits: Seq<usize>,
) -> bool {
    &&& n > 0
    &&& reached == arranged_after(items, counter, n).0
    &&& digits == arranged_after(items, counter, n).1
    &&& !seen.contains(reached)
    &&& all_seen_until(items, counter, seen, (n - 1) as nat)
    &&& !is_spent(arranged_after(items, counter, (n - 1) as nat).1)
}

/// An enumerator that started from `items` and `counter` gives up after `n`
/// exchanges: the counter has run through, every exchange has led to an
/// arrangement that had been seen, and the digits from one on start again at
/// zero.
pub open spec fn is_given_up_after<T>(
    items: Seq<T>,
    counter: Seq<usize>,
    seen: Seq<Seq<T>>,
    n: nat,
    reached: Seq<T>,
    digits: Seq<usize>,
) -> bool {
    let model = arranged_after(items, counter, n);
    &&& reached == model.0
    &&& is_spent(model.1)
    &&& all_seen_until(items, counter, seen, n)
    &&& digits == Seq::new(
        model.1.len(),
        |j: int|
            if j == 0 {
                model.1[0]
            } else {
                0usize
            },
    )
}

/// The exchanges that begin at `items` and `counter` come to `sought` at some
/// point; before the first exchange they are at `items` itself.
pub open spec fn is_reached<T>(items: Seq<T>, counter: Seq<usize>, sought: Seq<T>) -> bool {
    exists|n: nat| (#[trigger] arranged_after(items, counter, n)).0 == sought
}

/// `m` exchanges after `n` exchanges are `n + m` exchanges.
pub proof fn lemma_arranged_on<T>(items: Seq<T>, counter: Seq<usize>, n: nat, m: nat)
    ensures
        arranged_after(items, counter, n + m) == arranged_after(
            arranged_after(items, counter, n).0,
            arranged_after(items, counter, n).1,
            m,
        ),
    decreases m,
{
    if m > 0 {
        lemma_arranged_on(items, counter, n, (m - 1) as nat);
        assert((n + m - 1) as nat == n + (m - 1) as nat);
    }
}

/// Once the counter has run through, nothing changes any more.
pub proof fn lemma_spent_stays<T>(items: Seq<T>, counter: Seq<usize>, n: nat, m: nat)
    requires
        is_spent(arranged_after(items, counter, n).1),
    ensures
        arranged_after(items, counter, n + m) == arranged_after(items, counter, n),
    decreases m,
{
    if m > 0 {
        lemma_spent_stays(items, counter, n, (m - 1) as nat);
        assert((n + m - 1) as nat == n + (m - 1) as nat);
    }
}

/// An enumerator that hands out an arrangement passes over nothing: whatever
/// the exchanges would have come to from where it stood has been seen, or the
/// exchanges come to it from where it stands now.
pub proof fn lemma_nothing_passed_over<T>(
    items: Seq<T>,
    counter: Seq<usize>,
    seen: Seq<Seq<T>>,
    n: nat,
    reached: Seq<T>,
    digits: Seq<usize>,
    sought: Seq<T>,
)
    requires
        is_handed_out_after(items, counter, seen, n, reached, digits),
        seen.contains(items),
        is_reached(items, counter, sought),
    ensures
        seen.contains(sought) || is_reached(reached, digits, sought),
{
    let m = choose|m: nat| (#[trigger] arranged_after(items, counter, m)).0 == sought;
    if m >= n {
        lemma_arranged_on(items, counter, n, (m - n) as nat);
        assert(n + (m - n) as nat == m);
        assert(arranged_after(reached, digits, (m - n) as nat).0 == sought);
    } else if m > 0 {
        let before = (m - 1) as nat;
        assert(!is_spent(arranged_after(items, counter, before).1));
        assert(before + 1 == m);
    }
}

/// When an enumerator gives up, whatever the exchanges would have come to
/// from where it stood has been seen.
pub proof fn lemma_given_up_all_seen<T>(
    items: Seq<T>,
    counter: Seq<usize>,
    seen: Seq<Seq<T>>,
    n: nat,
    reached: Seq<T>,
    digits: Seq<usize>,
    sought: Seq<T>,
)
    requires
        is_given_up_after(items, counter, seen, n, reached, digits),
        seen.contains(items),
        is_reached(items, counter, sought),
    ensures
        seen.contains(sought),
        seen.contains(reached),
{
    let m = choose|m: nat| (#[trigger] arranged_after(items, counter, m)).0 == sought;
    if n > 0 {
        let before = (n - 1) as nat;
        assert(!is_spent(arranged_after(items, counter, before).1));
        assert(before + 1 == n);
    }
    assert(seen.contains(reached));
    if m >= n {
        lemma_spent_stays(items, counter, n, (m - n) as nat);
        assert(n + (m - n) as nat == m);
    } else if m > 0 {
        let before = (m - 1) as nat;
        assert(!is_spent(arranged_after(items, counter, before).1));
        assert(before + 1 == m);
    }
}

/// `sought` cannot be missed: it has been seen, or the exchanges that begin at
/// `items` and `counter` come to it.
pub open spec fn is_covered<T>(
    seen: Seq<Seq<T>>,
    items: Seq<T>,
    counter: Seq<usize>,
    sought: Seq<T>,
) -> bool {
    seen.contains(sought) || is_reached(items, counter, sought)
}

/// What a list holds it still holds after one more item has been added.
proof fn lemma_pushed_contains<A>(list: Seq<A>, added: A, held: A)
    requires
        list.contains(held),
    ensures
        list.push(added).contains(held),
{
    let i = choose|i: int| 0 <= i < list.len() && list[i] == held;
    assert(list.push(added)[i] == held);
}

/// When every digit from `from` to below `at` is at its greatest and digit
/// `at` is not, `at` is the lowest digit that can count up.
pub proof fn lemma_free_digit(counter: Seq<usize>, from: int, at: int)
    requires
        1 <= from <= at <= counter.len(),
        forall|j: int| from <= j < at ==> #[trigger] counter[j] >= j,
        at < counter.len() ==> counter[at] < at,
    ensures
        free_digit(counter, from) == at,
    decreases at - from,
{
    if from < at {
        lemma_free_digit(counter, from + 1, at);
    }
}

/// On `T`, `==` tells whether two values are the same.
pub open spec fn eq_is_equality<T: PartialEq>() -> bool {
    &&& T::obeys_eq_spec()
    &&& forall|a: T, b: T| #[trigger] a.eq_spec(&b) <==> a == b
}

/// The product of the numbers from one to `n`.
pub open spec fn factorial(n: nat) -> nat
    decreases n,
{
    if n == 0 {
        1
    } else {
        n * factorial((n - 1) as nat)
    }
}

/// The value of the counter digits from `from` on, digit `i` weighing
/// `factorial(i)`.
spec fn digits_value(state: Seq<usize>, from: int) -> nat
    decreases state.len() - from,
{
    if from >= state.len() || from < 0 {
        0
    } else {
        (state[from] * factorial(from as nat)) as nat + digits_value(state, from + 1)
    }
}

/// The value of the digits from one to below `k` when each is at its
/// greatest.
spec fn full_below(k: int) -> nat
    decreases k,
{
    if k <= 1 {
        0
    } else {
        full_below(k - 1) + ((k - 1) * factorial((k - 1) as nat)) as nat
    }
}

proof fn lemma_full_below(k: int)
    requires
        k >= 1,
    ensures
        full_below(k) + 1 == factorial(k as nat),
    decreases k,
{
    if k > 1 {
        lemma_full_below(k - 1);
        let f = factorial((k - 1) as nat);
        assert(full_below(k - 1) + (k - 1) * f + 1 == k * f) by (nonlinear_arith)
            requires
                full_below(k - 1) + 1 == f,
        ;
    } else {
        assert(factorial(1) == 1 * factorial(0));
    }
}

/// No counter whose digits stay within their range is worth more than the
/// counter whose digits are all at their greatest.
proof fn lemma_digits_bound(state: Seq<usize>, from: int)
    requires
        1 <= from <= state.len(),
        forall|i: int| 0 <= i < state.len() ==> #[trigger] state[i] <= i,
    ensures
        digits_value(state, from) + full_below(from) <= full_below(state.len() as int),
    decreases state.len() - from,
{
    if from < state.len() {
        lemma_digits_bound(state, from + 1);
        assert(state[from] <= from);
        assert(state[from] * factorial(from as nat) <= from * factorial(from as nat))
            by (nonlinear_arith)
            requires
                state[from] <= from,
        ;
    }
}

/// Digits that are zero add nothing.
proof fn lemma_digits_zero(state: Seq<usize>, from: int, to: int)
    requires
        0 <= from <= to <= state.len(),
        forall|i: int| from <= i < to ==> #[trigger] state[i] == 0,
    ensures
        digits_value(state, from) == digits_value(state, to),
    decreases to - from,
{
    if from < to {
        lemma_digits_zero(state, from + 1, to);
        assert(state[from] == 0);
        assert(state[from] * factorial(from as nat) == 0) by (nonlinear_arith)
            requires
                state[from] == 0,
        ;
    }
}

/// A digit below `from` does not count from `from` on.
proof fn lemma_digits_above(state: Seq<usize>, at: int, digit: usize, from: int)
    requires
        0 <= at < from <= state.len(),
    ensures
        digits_value(state.update(at, digit), from) == digits_value(state, from),
    decreases state.len() - from,
{
    if from < state.len() {
        lemma_digits_above(state, at, digit, from + 1);
    }
}

/// Exchanging two items keeps the items.
pub proof fn lemma_swap_keeps_items<T>(s: Seq<T>, i: int, j: int)
    requires
        0 <= i < s.len(),
        0 <= j < s.len(),
    ensures
        s.update(i, s[j]).update(j, s[i]).to_multiset() == s.to_multiset(),
{
    broadcast use vstd::multiset::group_multiset_axioms;

    let mid = s.update(i, s[j]);
    vstd::seq_lib::to_multiset_update(s, i, s[j]);
    vstd::seq_lib::to_multiset_update(mid, j, s[i]);
    vstd::seq_lib::to_multiset_contains(s, s[i]);
    vstd::seq_lib::to_multiset_contains(s, s[j]);
    assert(s.contains(s[i]));
    assert(s.contains(s[j]));
    assert(mid.update(j, s[i]).to_multiset() =~= s.to_multiset());
}

/// Whether two values are the same.
fn is_same<T: PartialEq>(x: &T, y: &T) -> (same: bool)
    requires
        eq_is_equality::<T>(),
    ensures
        same == (*x == *y),
{
    let same = *x == *y;
    proof {
        assert(same == x.eq_spec(y));
    }
    same
}

/// Whether two lists hold the same items in the same order.
fn same_items<T: PartialEq>(a: &Vec<T>, b: &Vec<T>) -> (same: bool)
    requires
        eq_is_equality::<T>(),
    ensures
        same == (a@ == b@),
{
    if a.len() != b.len() {
        return false;
    }
    let mut i: usize = 0;
    while i < a.len()
        invariant
            eq_is_equality::<T>(),
            a@.len() == b@.len(),
            i <= a@.len(),
            forall|k: int| 0 <= k < i ==> a@[k] == b@[k],
        decreases a@.len() - i,
    {
        if !is_same(&a[i], &b[i]) {
            return false;
        }
        i = i + 1;
    }
    proof {
        assert(a@ =~= b@);
    }
    true
}

/// Enumerates the distinct arrangements of a list, each once, starting with
/// the list as it is. The arrangements are produced by exchanging two items at
/// a time; one that has come up before is passed over.
pub struct PermutationsIterator<T> {
    items: Vec<T>,
    perms: Vec<Vec<T>>,
    state: Vec<usize>,
    first: bool,
}

impl<T: Clone + PartialEq> PermutationsIterator<T> {
    /// The arrangement reached last.
    pub closed spec fn items(&self) -> Seq<T> {
        self.items@
    }

    /// The arrangements that count as handed out, in the order in which they
    /// came up; the list as it was given is the first of them.
    pub closed spec fn seen(&self) -> Seq<Seq<T>> {
        Seq::new(self.perms@.len(), |k: int| self.perms@[k]@)
    }

    /// No arrangement has been handed out yet.
    pub closed spec fn is_first(&self) -> bool {
        self.first
    }

    /// The counter that decides the next exchange.
    pub closed spec fn counter(&self) -> Seq<usize> {
        self.state@
    }

    /// The enumerator is in order, and no arrangement of the items can be
    /// missed: each has been seen, or the exchanges still come to it.
    pub closed spec fn wf(&self) -> bool {
        &&& self.in_order()
        &&& self.seen().contains(self.items())
        &&& forall|p: Seq<T>|
            p.to_multiset() == self.items@.to_multiset() ==> #[trigger] is_covered(
                self.seen(),
                self.items(),
                self.counter(),
                p,
            )
    }

    /// The counter has a digit for every item, each within its range; what has
    /// been seen are arrangements of the items, each seen once; and a clone of
    /// an item is that item.
    pub closed spec fn in_order(&self) -> bool {
        &&& clone_is_same::<T>()
        &&& self.state@.len() == self.items@.len()
        &&& forall|i: int| 0 <= i < self.state@.len() ==> #[trigger] self.state@[i] <= i
        &&& forall|k: int|
            0 <= k < self.perms@.len() ==> (#[trigger] self.perms@[k])@.to_multiset()
                == self.items@.to_multiset()
        &&& forall|k: int, l: int|
            0 <= k < l < self.perms@.len() ==> (#[trigger] self.perms@[k])@
                != (#[trigger] self.perms@[l])@
    }

    fn new(items: &[T]) -> (it: Self)
        requires
            clone_is_same::<T>(),
        ensures
            it.wf(),
            it.is_first(),
            it.items() == items@,
            it.seen() == seq![items@],
            it.counter() == Seq::new(items@.len(), |j: int| 0usize),
    {
        let mut perms: Vec<Vec<T>> = Vec::new();
        perms.push(copy_list(items));
        let mut state: Vec<usize> = Vec::new();
        let mut i: usize = 0;
        while i < items.len()
            invariant
                i <= items@.len(),
                state@.len() == i,
                forall|k: int| 0 <= k < i ==> state@[k] == 0,
            decreases items@.len() - i,
        {
            state.push(0);
            i = i + 1;
        }
        let it = PermutationsIterator { items: copy_list(items), first: true, perms, state };
        proof {
            assert(it.seen() =~= seq![items@]);
            assert(it.counter() =~= Seq::new(items@.len(), |j: int| 0usize));
            assert(it.in_order());
            assert(it.seen()[0] == it.items());
            assert forall|p: Seq<T>| p.to_multiset() == it.items@.to_multiset() implies #[trigger]
                is_covered(it.seen(), it.items(), it.counter(), p) by {
                crate::exchanges::lemma_every_arrangement_is_reached(it.items(), it.counter(), p);
            }
        }
        it
    }

    /// Whether the arrangement reached has not come up before.
    fn is_new(&self) -> (fresh: bool)
        requires
            eq_is_equality::<T>(),
        ensures
            fresh == !self.seen().contains(self.items()),
    {
        let mut k: usize = 0;
        while k < self.perms.len()
            invariant
                eq_is_equality::<T>(),
                k <= self.perms@.len(),
                forall|l: int| 0 <= l < k ==> self.perms@[l]@ != self.items@,
            decreases self.perms@.len() - k,
        {
            if same_items(&self.perms[k], &self.items) {
                proof {
                    assert(self.seen()[k as int] == self.items@);
                }
                return false;
            }
            k = k + 1;
        }
        proof {
            assert forall|l: int| 0 <= l < self.seen().len() implies self.seen()[l]
                != self.items() by {
                assert(self.perms@[l]@ != self.items@);
            }
        }
        true
    }

    /// Whether the items at two positions differ.
    fn differ(&self, i: usize, j: usize) -> (unlike: bool)
        requires
            eq_is_equality::<T>(),
            i < self.items@.len(),
            j < self.items@.len(),
        ensures
            unlike == (self.items@[i as int] != self.items@[j as int]),
    {
        !is_same(&self.items[i], &self.items[j])
    }

    /// Exchanges the items at two positions.
    fn swap(&mut self, i: usize, j: usize)
        requires
            clone_is_same::<T>(),
            i < old(self).items@.len(),
            j < old(self).items@.len(),
        ensures
            final(self).items@
                == old(self).items@.update(i as int, old(self).items@[j as int]).update(
                j as int,
                old(self).items@[i as int],
            ),
            final(self).items@.to_multiset() == old(self).items@.to_multiset(),
            final(self).perms == old(self).perms,
            final(self).state == old(self).state,
            final(self).first == old(self).first,
    {
        proof {
            lemma_swap_keeps_items(self.items@, i as int, j as int);
        }
        let a: T = copy_of(&self.items[i]);
        let b: T = copy_of(&self.items[j]);
        self.items[i] = b;
        self.items[j] = a;
    }

    /// The next arrangement that has not come up before, or `None` when the
    /// counter has run through without reaching one.
    fn advance(&mut self) -> (r: Option<Vec<T>>)
        requires
            old(self).in_order(),
            eq_is_equality::<T>(),
        ensures
            final(self).in_order(),
            !final(self).is_first(),
            final(self).items().to_multiset() == old(self).items().to_multiset(),
            old(self).is_first() ==> {
                &&& final(self).items() == old(self).items()
                &&& final(self).counter() == old(self).counter()
                &&& final(self).seen() == old(self).seen()
                &&& r is Some <==> old(self).items().len() > 0
                &&& r is Some ==> r->0@ == old(self).items()
            },
            !old(self).is_first() ==> match r {
                Some(p) => {
                    &&& p@ == final(self).items()
                    &&& !old(self).seen().contains(p@)
                    &&& final(self).seen() == old(self).seen().push(p@)
                },
                None => final(self).seen() == old(self).seen(),
            },
            !old(self).is_first() && r is Some ==> exists|n: nat| #[trigger]
                is_handed_out_after(
                    old(self).items(),
                    old(self).counter(),
                    old(self).seen(),
                    n,
                    final(self).items(),
                    final(self).counter(),
                ),
            !old(self).is_first() && r is None ==> exists|n: nat| #[trigger]
                is_given_up_after(
                    old(self).items(),
                    old(self).counter(),
                    old(self).seen(),
                    n,
                    final(self).items(),
                    final(self).counter(),
                ),
    {
        if self.first {
            self.first = false;
            proof {
                assert(self.seen() =~= old(self).seen());
            }
            return if self.items.len() == 0 {
                None
            } else {
                Some(copy_list(self.items.as_slice()))
            };
        }
        let len: usize = self.items.len();
        let ghost total = factorial(len as nat);
        let ghost from = old(self).items@;
        let ghost digits0 = old(self).state@;
        let ghost mut n: nat = 0;
        let mut idx: usize = 1;
        proof {
            assert(self.seen() =~= old(self).seen());
            if len >= 1 {
                lemma_digits_bound(self.state@, 1);
                lemma_full_below(len as int);
            }
        }
        while idx < len
            invariant
                eq_is_equality::<T>(),
                self.in_order(),
                !self.first,
                !old(self).is_first(),
                len == self.items@.len(),
                total == factorial(len as nat),
                1 <= idx,
                self.items@.to_multiset() == old(self).items@.to_multiset(),
                self.seen() == old(self).seen(),
                from == old(self).items@,
                digits0 == old(self).state@,
                all_seen_until(from, digits0, old(self).seen(), n),
                self.items@ == arranged_after(from, digits0, n).0,
                arranged_after(from, digits0, n).1.len() == len,
                self.state@[0] == arranged_after(from, digits0, n).1[0],
                forall|j: int|
                    idx <= j < len ==> #[trigger] self.state@[j] == arranged_after(
                        from,
                        digits0,
                        n,
                    ).1[j],
                forall|j: int|
                    1 <= j < idx && j < len ==> #[trigger] arranged_after(from, digits0, n).1[j]
                        == j,
                forall|j: int| 1 <= j < idx && j < len ==> #[trigger] self.state@[j] == 0,
                idx <= len ==> digits_value(self.state@, idx as int) + full_below(idx as int)
                    < total,
            decreases
                    total - (digits_value(self.state@, idx as int) + full_below(idx as int)),
                    len - idx,
        {
            let ghost digits = self.state@;
            let ghost prior = *self;
            let digit: usize = self.state[idx];
            proof {
                assert(digit <= idx);
            }
            let ghost model = arranged_after(from, digits0, n);
            if digit < idx {
                proof {
                    assert forall|j: int| 1 <= j < idx implies #[trigger] model.1[j] >= j by {}
                    lemma_free_digit(model.1, 1, idx as int);
                }
                if idx % 2 == 0 {
                    if self.differ(0, idx) {
                        self.swap(0, idx);
                    } else {
                        proof {
                            assert(exchanged(model.0, 0, idx as int) =~= model.0);
                        }
                    }
                } else {
                    if self.differ(digit, idx) {
                        self.swap(digit, idx);
                    } else {
                        proof {
                            assert(exchanged(model.0, digit as int, idx as int) =~= model.0);
                        }
                    }
                }
                self.state[idx] = digit + 1;
                let ghost exchanges: nat = n + 1;
                proof {
                    let next_model = arranged_after(from, digits0, exchanges);
                    assert(!is_spent(model.1));
                    assert(self.items@ == next_model.0);
                    assert(self.state@ =~= counted(model.1, idx as int));
                    assert(self.state@ == next_model.1);
                    let after = self.state@;
                    lemma_digits_above(digits, idx as int, (digit + 1) as usize, idx + 1);
                    assert(digits_value(after, idx as int) == digits_value(digits, idx as int)
                        + factorial(idx as nat)) by {
                        assert((digit + 1) * factorial(idx as nat) == digit * factorial(idx as nat)
                            + factorial(idx as nat)) by (nonlinear_arith);
                    }
                    lemma_digits_zero(after, 1, idx as int);
                    lemma_full_below(idx as int);
                    lemma_digits_bound(after, 1);
                    lemma_full_below(len as int);
                    assert(self.seen() =~= old(self).seen());
                    assert(self.perms@ == prior.perms@);
                    assert forall|k: int| 0 <= k < self.perms@.len() implies (
                    #[trigger] self.perms@[k])@.to_multiset() == self.items@.to_multiset() by {
                        assert(prior.perms@[k]@.to_multiset() == prior.items@.to_multiset());
                    }
                    assert forall|k: int, l: int|
                        0 <= k < l < self.perms@.len() implies (#[trigger] self.perms@[k])@ != (
                    #[trigger] self.perms@[l])@ by {
                        assert(prior.perms@[k]@ != prior.perms@[l]@);
                    }
                }
                if self.is_new() {
                    let found = copy_list(self.items.as_slice());
                    let ghost known = self.perms@;
                    self.perms.push(copy_list(self.items.as_slice()));
                    proof {
                        assert(self.seen() =~= old(self).seen().push(found@));
                        assert forall|k: int, l: int|
                            0 <= k < l < self.perms@.len() implies (#[trigger] self.perms@[k])@ != (
                        #[trigger] self.perms@[l])@ by {
                            if l < known.len() {
                                assert(known[k]@ != known[l]@);
                            } else {
                                assert(old(self).seen()[k] == known[k]@);
                            }
                        }
                        assert forall|k: int| 0 <= k < self.perms@.len() implies (
                        #[trigger] self.perms@[k])@.to_multiset() == self.items@.to_multiset() by {
                            if k < known.len() {
                                assert(known[k]@.to_multiset() == self.items@.to_multiset());
                            }
                        }
                        assert(is_handed_out_after(
                            old(self).items(),
                            old(self).counter(),
                            old(self).seen(),
                            exchanges,
                            self.items(),
                            self.counter(),
                        ));
                    }
                    return Some(found);
                }
                proof {
                    assert(old(self).seen().contains(self.items@));
                    assert(arranged_after(from, digits0, exchanges).0 == self.items@);
                    assert forall|m: nat| m < exchanges implies !is_spent(
                        (#[trigger] arranged_after(from, digits0, m)).1,
                    ) && old(self).seen().contains(arranged_after(from, digits0, m + 1).0) by {
                        if m == n {
                            assert(arranged_after(from, digits0, m) == model);
                            assert(!is_spent(arranged_after(from, digits0, m).1));
                            assert(arranged_after(from, digits0, m + 1) == arranged_after(
                                from,
                                digits0,
                                exchanges,
                            ));
                            assert(old(self).seen().contains(
                                arranged_after(from, digits0, m + 1).0,
                            ));
                        } else {
                            assert(m < n);
                            assert(!is_spent(arranged_after(from, digits0, m).1));
                            assert(old(self).seen().contains(
                                arranged_after(from, digits0, m + 1).0,
                            ));
                        }
                    }
                    n = exchanges;
                }
                idx = 1;
            } else {
                self.state[idx] = 0;
                proof {
                    lemma_digits_above(digits, idx as int, 0, idx + 1);
                    assert(self.seen() =~= old(self).seen());
                    assert(digit * factorial(idx as nat) == idx * factorial(idx as nat));
                }
                idx = idx + 1;
            }
        }
        proof {
            let reached = arranged_after(from, digits0, n);
            if len >= 1 {
                assert forall|j: int| 1 <= j < len implies #[trigger] reached.1[j] >= j by {}
                lemma_free_digit(reached.1, 1, len as int);
            }
            assert(self.counter() =~= Seq::new(
                reached.1.len(),
                |j: int|
                    if j == 0 {
                        reached.1[0]
                    } else {
                        0usize
                    },
            ));
            assert(is_given_up_after(
                old(self).items(),
                old(self).counter(),
                old(self).seen(),
                n,
                self.items(),
                self.counter(),
            ));
        }
        None
    }

    /// The next arrangement that has not come up before, or `None` when the
    /// counter has run through without reaching one. By then every
    /// arrangement of the items has been seen: it is the list as it was given,
    /// or it has been handed out.
    pub fn next(&mut self) -> (r: Option<Vec<T>>)
        requires
            old(self).wf(),
            eq_is_equality::<T>(),
        ensures
            final(self).wf(),
            !final(self).is_first(),
            final(self).items().to_multiset() == old(self).items().to_multiset(),
            old(self).is_first() ==> {
                &&& final(self).items() == old(self).items()
                &&& final(self).counter() == old(self).counter()
                &&& final(self).seen() == old(self).seen()
                &&& r is Some <==> old(self).items().len() > 0
                &&& r is Some ==> r->0@ == old(self).items()
            },
            !old(self).is_first() ==> match r {
                Some(p) => {
                    &&& p@ == final(self).items()
                    &&& !old(self).seen().contains(p@)
                    &&& final(self).seen() == old(self).seen().push(p@)
                },
                None => final(self).seen() == old(self).seen(),
            },
            !old(self).is_first() && r is Some ==> exists|n: nat| #[trigger]
                is_handed_out_after(
                    old(self).items(),
                    old(self).counter(),
                    old(self).seen(),
                    n,
                    final(self).items(),
                    final(self).counter(),
                ),
            !old(self).is_first() && r is None ==> exists|n: nat| #[trigger]
                is_given_up_after(
                    old(self).items(),
                    old(self).counter(),
                    old(self).seen(),
                    n,
                    final(self).items(),
                    final(self).counter(),
                ),
            r is None ==> forall|p: Seq<T>|
                p.to_multiset() == final(self).items().to_multiset() ==> #[trigger] final(self)
                    .seen().contains(p),
    {
        let r = self.advance();
        proof {
            let items = old(self).items();
            let counter = old(self).counter();
            let seen = old(self).seen();
            assert(arranged_after(items, counter, 0).0 == items);
            assert forall|p: Seq<T>|
                r is None && p.to_multiset() == self.items@.to_multiset() implies #[trigger]
                self.seen().contains(p) by {
                assert(is_covered(seen, items, counter, p));
                if old(self).is_first() {
                    vstd::seq_lib::to_multiset_len(p);
                    vstd::seq_lib::to_multiset_len(items);
                    assert(p =~= items);
                } else {
                    let n = choose|n: nat| #[trigger]
                        is_given_up_after(items, counter, seen, n, self.items(), self.counter());
                    if !seen.contains(p) {
                        lemma_given_up_all_seen(
                            items,
                            counter,
                            seen,
                            n,
                            self.items(),
                            self.counter(),
                            p,
                        );
                    }
                }
            }
            assert forall|p: Seq<T>| p.to_multiset() == self.items@.to_multiset() implies #[trigger]
                is_covered(self.seen(), self.items(), self.counter(), p) by {
                assert(is_covered(seen, items, counter, p));
                if old(self).is_first() {
                } else if r is Some {
                    let n = choose|n: nat| #[trigger]
                        is_handed_out_after(items, counter, seen, n, self.items(), self.counter());
                    if !seen.contains(p) {
                        lemma_nothing_passed_over(
                            items,
                            counter,
                            seen,
                            n,
                            self.items(),
                            self.counter(),
                            p,
                        );
                    } else {
                        lemma_pushed_contains(seen, self.items(), p);
                    }
                } else {
                    let n = choose|n: nat| #[trigger]
                        is_given_up_after(items, counter, seen, n, self.items(), self.counter());
                    if !seen.contains(p) {
                        lemma_given_up_all_seen(
                            items,
                            counter,
                            seen,
                            n,
                            self.items(),
                            self.counter(),
                            p,
                        );
                    }
                }
            }
            assert(self.seen().contains(self.items())) by {
                if old(self).is_first() {
                } else if r is Some {
                    assert(self.seen()[seen.len() as int] == self.items());
                } else {
                    let n = choose|n: nat| #[trigger]
                        is_given_up_after(items, counter, seen, n, self.items(), self.counter());
                    lemma_given_up_all_seen(
                        items,
                        counter,
                        seen,
                        n,
                        self.items(),
                        self.counter(),
                        items,
                    );
                }
            }
        }
        r
    }
}

/// Lists whose arrangements can be enumerated.
pub trait Permutations<T: Clone + PartialEq> {
    /// The items of the list, in their order. Where an implementation does
    /// not define it, it is some function of the list of which nothing else is
    /// known.
    open spec fn arranged(&self) -> Seq<T> {
        arbitrary::<spec_fn(&Self) -> Seq<T>>()(self)
    }

    /// An enumerator of the distinct arrangements of the list.
    fn permutations(&self) -> (it: PermutationsIterator<T>)
        requires
            clone_is_same::<T>(),
        ensures
            it.wf(),
            it.is_first(),
            it.items() == self.arranged(),
            it.seen() == seq![self.arranged()],
    ;
}

impl<T: Clone + PartialEq> Permutations<T> for Vec<T> {
    open spec fn arranged(&self) -> Seq<T> {
        self@
    }

    fn permutations(&self) -> (it: PermutationsIterator<T>) {
        PermutationsIterator::new(self.as_slice())
    }
}

impl<T: Clone + PartialEq> Permutations<T> for &[T] {
    open spec fn arranged(&self) -> Seq<T> {
        self@
    }

    fn permutations(&self) -> (it: PermutationsIterator<T>) {
        PermutationsIterator::new(*self)
    }
}

/// Lists whose sub-lists and selections can be enumerated.
pub trait Combinations<T: Clone> {
    /// The items of the list, in their order. Where an implementation does
    /// not define it, it is some function of the list of which nothing else is
    /// known.
    open spec fn elements(&self) -> Seq<T> {
        arbitrary::<spec_fn(&Self) -> Seq<T>>()(self)
    }

    /// An enumerator of the non-empty sub-lists; the list must be short
    /// enough for a mask with one bit for each item.
    fn combinations(&self) -> (it: CombinationsIterator<T>)
        requires
            clone_is_same::<T>(),
            vstd::arithmetic::power2::pow2(self.elements().len()) - 1 <= usize::MAX,
        ensures
            it.wf(),
            it.items() == self.elements(),
            it.count() == vstd::arithmetic::power2::pow2(self.elements().len()) - 1,
    ;

    /// An enumerator of the selections of `picks` items, starting with the
    /// first `picks` items.
    fn choose_k(&self, picks: usize) -> (it: ChooseIterator<T>)
        requires
            clone_is_same::<T>(),
        ensures
            it.wf(),
            it.is_first(),
            it.items() == self.elements(),
            it.picks() == picks,
            it.positions() == Seq::new(picks as nat, |i: int| i as usize),
    ;
}

impl<T: Clone> Combinations<T> for Vec<T> {
    open spec fn elements(&self) -> Seq<T> {
        self@
    }

    fn combinations(&self) -> (it: CombinationsIterator<T>) {
        CombinationsIterator::new(self.as_slice())
    }

    fn choose_k(&self, picks: usize) -> (it: ChooseIterator<T>) {
        ChooseIterator::new(self.as_slice(), picks)
    }
}

impl<T: Clone> Combinations<T> for &[T] {
    open spec fn elements(&self) -> Seq<T> {
        self@
    }

    fn combinations(&self) -> (it: CombinationsIterator<T>) {
        CombinationsIterator::new(*self)
    }

    fn choose_k(&self, picks: usize) -> (it: ChooseIterator<T>) {
        ChooseIterator::new(*self, picks)
    }
}

} // verus!
