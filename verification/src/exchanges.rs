//! Why the exchanges of the arrangement enumerator come to every arrangement
//! of a list.
//!
//! The counter of the enumerator has one digit for each position; digit `i`
//! counts from zero to `i`. While the digits below `k` run from all zero to
//! all full, only the first `k` items move. That run is a block: it consists
//! of `k` rounds, each a block of the digits below `k - 1`, with one exchange
//! at digit `k - 1` between two rounds. The item that a round holds at
//! position `k - 1` is another one in each round, which is what brings every
//! arrangement up.

use vstd::prelude::*;

verus! {

/// The position from which a block of the digits below `k` takes the item
/// that it leaves at position `i`.
pub open spec fn block_source(k: int, i: int) -> int {
    if i >= k || i < 0 {
        i
    } else if k % 2 == 1 {
        if i == 0 {
            k - 1
        } else if i == k - 1 {
            0
        } else {
            i
        }
    } else if i == k - 1 {
        0
    } else if i == k - 2 {
        k - 1
    } else if i == 0 {
        k - 3
    } else if i == 1 {
        k - 2
    } else {
        i - 1
    }
}

/// For an even `k`, the positions up to `k` in the order in which one round
/// hands an item on: the item at `turn(k, t + 1)` goes to `turn(k, t)`.
pub open spec fn turn(k: int, t: int) -> int {
    if t == 0 {
        k
    } else if t == k {
        0
    } else if t == k - 1 {
        k - 1
    } else if t == k - 2 {
        k - 2
    } else {
        k - 2 - t
    }
}

/// `s` counted round the `k + 1` positions up to `k`.
pub open spec fn wrapped(k: int, s: int) -> int {
    if s > k {
        s - (k + 1)
    } else {
        s
    }
}

/// The position from which round `j` of a block of the digits up to `k` takes
/// the item with which it begins at position `i`.
pub open spec fn round_source(k: int, j: int, i: int) -> int {
    if i > k || i < 0 {
        i
    } else if k % 2 == 0 {
        turn(k, wrapped(k, turn(k, i) + j))
    } else if j == 0 {
        i
    } else if j == 1 {
        if i == 0 {
            k
        } else if i == k - 1 {
            0
        } else if i == k {
            k - 1
        } else {
            i
        }
    } else if j == k {
        if i == 0 {
            k
        } else if i == 1 {
            k - 1
        } else if i == k {
            0
        } else {
            i - 1
        }
    } else if i == 0 {
        if j % 2 == 0 {
            0
        } else {
            k
        }
    } else if i == 1 {
        k - 1
    } else if i == k - 1 {
        if j % 2 == 0 {
            k
        } else {
            0
        }
    } else if i == k {
        j - 1
    } else if i <= j - 1 {
        i - 1
    } else {
        i
    }
}

/// The round of a block of the digits up to `k` that begins with the item
/// from position `i` at position `k`.
pub open spec fn round_with(k: int, i: int) -> int {
    if k % 2 == 0 {
        turn(k, i)
    } else if i == k {
        0
    } else if i == k - 1 {
        1
    } else if i == 0 {
        k
    } else {
        i + 1
    }
}

/// The position that changes places with position `k` after round `j`.
pub open spec fn partner(k: int, j: int) -> int {
    if k % 2 == 0 {
        0
    } else {
        j
    }
}

/// Position `i` after the positions `e` and `k` have changed places.
pub open spec fn changed(e: int, k: int, i: int) -> int {
    if i == e {
        k
    } else if i == k {
        e
    } else {
        i
    }
}

/// A round begins with what the round before it, run through and followed
/// by its exchange, has left.
pub proof fn lemma_next_round(k: int, j: int, i: int)
    requires
        k >= 1,
        0 <= j < k,
    ensures
        round_source(k, j + 1, i) == round_source(
            k,
            j,
            block_source(k, changed(partner(k, j), k, i)),
        ),
{
}

/// The last round, run through, leaves what the whole block leaves.
pub proof fn lemma_last_round(k: int, i: int)
    requires
        k >= 1,
    ensures
        block_source(k + 1, i) == round_source(k, k, block_source(k, i)),
{
}

/// Every position up to `k` gives its item to position `k` in some round.
pub proof fn lemma_round_with(k: int, i: int)
    requires
        k >= 1,
        0 <= i <= k,
    ensures
        0 <= round_with(k, i) <= k,
        round_source(k, round_with(k, i), k) == i,
{
}

/// `a` as a block of the digits below `k` leaves it.
pub open spec fn after_block<T>(a: Seq<T>, k: int) -> Seq<T> {
    Seq::new(a.len(), |i: int| a[block_source(k, i)])
}

/// `a` as round `j` of a block of the digits up to `k` finds it.
pub open spec fn at_round<T>(a: Seq<T>, k: int, j: int) -> Seq<T> {
    Seq::new(a.len(), |i: int| a[round_source(k, j, i)])
}

/// The counter `c` with the digits from one to below `k` at their greatest.
pub open spec fn run_through(c: Seq<usize>, k: int) -> Seq<usize> {
    Seq::new(
        c.len(),
        |j: int|
            if 1 <= j < k {
                j as usize
            } else {
                c[j]
            },
    )
}

/// The digits of `c` from one to below `k` are zero.
pub open spec fn is_fresh_below(c: Seq<usize>, k: int) -> bool {
    forall|j: int| 1 <= j < k ==> #[trigger] c[j] == 0
}

/// With the digits below `k` at their greatest and digit `k` not yet, the
/// next exchange is the one at digit `k`.
pub proof fn lemma_one_exchange<T>(a: Seq<T>, c: Seq<usize>, k: int)
    requires
        a.len() == c.len(),
        1 <= k < c.len(),
        forall|j: int| 1 <= j < k ==> #[trigger] c[j] >= j,
        c[k] < k,
    ensures
        crate::combinatorics::arranged_after(a, c, 1) == (
            crate::combinatorics::exchanged(a, partner(k, c[k] as int), k),
            crate::combinatorics::counted(c, k),
        ),
{
    crate::combinatorics::lemma_free_digit(c, 1, k);
    assert(crate::combinatorics::arranged_after(a, c, 0) == (a, c));
}

/// Where a block of the digits below `k` ends: after one exchange less than
/// there are arrangements of `k` items, with the digits at their greatest.
pub proof fn lemma_block_end<T>(a: Seq<T>, c: Seq<usize>, k: int)
    requires
        a.len() == c.len(),
        c.len() <= usize::MAX,
        1 <= k <= a.len(),
        is_fresh_below(c, k),
    ensures
        crate::combinatorics::arranged_after(
            a,
            c,
            (crate::combinatorics::factorial(k as nat) - 1) as nat,
        ) == (after_block(a, k), run_through(c, k)),
    decreases 2 * k, 0int,
{
    lemma_factorial_positive(k as nat);
    if k == 1 {
        assert(crate::combinatorics::factorial(1) == 1 * crate::combinatorics::factorial(0));
        assert(after_block(a, 1) =~= a);
        assert(run_through(c, 1) =~= c);
    } else {
        let big = k - 1;
        let f = crate::combinatorics::factorial(big as nat);
        lemma_factorial_positive(big as nat);
        lemma_round_start(a, c, big, big);
        let r = at_round(a, big, big);
        let d = c.update(big, big as usize);
        lemma_block_end(r, d, big);
        assert(big * f >= 0) by (nonlinear_arith)
            requires
                big >= 0,
                f >= 0,
        ;
        crate::combinatorics::lemma_arranged_on(a, c, (big * f) as nat, (f - 1) as nat);
        assert(crate::combinatorics::factorial(k as nat) == k * f);
        assert(big * f + (f - 1) == k * f - 1) by (nonlinear_arith)
            requires
                big == k - 1,
        ;
        assert forall|i: int| 0 <= i < a.len() implies after_block(r, big)[i] == after_block(
            a,
            k,
        )[i] by {
            lemma_last_round(big, i);
        }
        assert(after_block(r, big) =~= after_block(a, k));
        assert(run_through(d, big) =~= run_through(c, k));
    }
}

/// Where round `j` of a block of the digits up to `big` begins: after `j`
/// times as many exchanges as there are arrangements of `big` items, with
/// digit `big` at `j` and the digits below it at zero.
pub proof fn lemma_round_start<T>(a: Seq<T>, c: Seq<usize>, big: int, j: int)
    requires
        a.len() == c.len(),
        c.len() <= usize::MAX,
        1 <= big < a.len(),
        0 <= j <= big,
        is_fresh_below(c, big + 1),
    ensures
        j * crate::combinatorics::factorial(big as nat) >= 0,
        crate::combinatorics::arranged_after(
            a,
            c,
            (j * crate::combinatorics::factorial(big as nat)) as nat,
        ) == (at_round(a, big, j), c.update(big, j as usize)),
    decreases 2 * big + 1, j,
{
    let f = crate::combinatorics::factorial(big as nat);
    lemma_factorial_positive(big as nat);
    assert(j * f >= 0) by (nonlinear_arith)
        requires
            j >= 0,
            f >= 0,
    ;
    if j == 0 {
        assert(0 * f == 0);
        assert(at_round(a, big, 0) =~= a);
        assert(c.update(big, 0usize) =~= c);
    } else {
        lemma_round_start(a, c, big, j - 1);
        let r = at_round(a, big, j - 1);
        let d = c.update(big, (j - 1) as usize);
        lemma_block_end(r, d, big);
        let x = after_block(r, big);
        let e = run_through(d, big);
        lemma_one_exchange(x, e, big);
        let before = ((j - 1) * f) as nat;
        let within = (f - 1) as nat;
        crate::combinatorics::lemma_arranged_on(a, c, before, within);
        crate::combinatorics::lemma_arranged_on(a, c, before + within, 1);
        assert((j - 1) * f + (f - 1) + 1 == j * f) by (nonlinear_arith);
        let turned = crate::combinatorics::exchanged(x, partner(big, j - 1), big);
        assert forall|i: int| 0 <= i < a.len() implies turned[i] == at_round(a, big, j)[i] by {
            lemma_next_round(big, j - 1, i);
        }
        assert(turned =~= at_round(a, big, j));
        assert(crate::combinatorics::counted(e, big) =~= c.update(big, j as usize));
    }
}

/// There is at least one arrangement of any number of items.
pub proof fn lemma_factorial_positive(n: nat)
    ensures
        crate::combinatorics::factorial(n) >= 1,
    decreases n,
{
    if n > 0 {
        lemma_factorial_positive((n - 1) as nat);
        assert(n * crate::combinatorics::factorial((n - 1) as nat) >= 1) by (nonlinear_arith)
            requires
                n >= 1,
                crate::combinatorics::factorial((n - 1) as nat) >= 1,
        ;
    }
}

/// The lowest digit that can count up is below its greatest value.
pub proof fn lemma_free_digit_counts(c: Seq<usize>, from: int)
    requires
        1 <= from,
    ensures
        crate::combinatorics::free_digit(c, from) < c.len() ==> from
            <= crate::combinatorics::free_digit(c, from) && c[crate::combinatorics::free_digit(
            c,
            from,
        )] < crate::combinatorics::free_digit(c, from),
    decreases c.len() - from,
{
    if from < c.len() && c[from] >= from {
        lemma_free_digit_counts(c, from + 1);
    }
}

/// Exchanges move items and take none away: after any number of them the
/// items are those of before.
pub proof fn lemma_run_keeps_items<T>(a: Seq<T>, c: Seq<usize>, n: nat)
    requires
        a.len() == c.len(),
    ensures
        crate::combinatorics::arranged_after(a, c, n).0.len() == a.len(),
        crate::combinatorics::arranged_after(a, c, n).1.len() == c.len(),
        crate::combinatorics::arranged_after(a, c, n).0.to_multiset() == a.to_multiset(),
    decreases n,
{
    if n > 0 {
        lemma_run_keeps_items(a, c, (n - 1) as nat);
        let (before, digits) = crate::combinatorics::arranged_after(a, c, (n - 1) as nat);
        let i = crate::combinatorics::free_digit(digits, 1);
        lemma_free_digit_counts(digits, 1);
        if i < digits.len() {
            if i % 2 == 0 {
                crate::combinatorics::lemma_swap_keeps_items(before, 0, i);
            } else {
                crate::combinatorics::lemma_swap_keeps_items(before, digits[i] as int, i);
            }
        }
    }
}

/// `p` is as long as `a` and holds from position `k` on what `a` holds there.
pub open spec fn agree_from<T>(a: Seq<T>, p: Seq<T>, k: int) -> bool {
    &&& p.len() == a.len()
    &&& forall|m: int| k <= m < a.len() ==> #[trigger] p[m] == a[m]
}

/// Of two lists of the same items that agree from position `k` on, each holds
/// below `k` what the other holds at position `k - 1`.
pub proof fn lemma_item_below<T>(a: Seq<T>, p: Seq<T>, k: int) -> (i: int)
    requires
        p.to_multiset() == a.to_multiset(),
        1 <= k <= a.len(),
        agree_from(a, p, k),
    ensures
        0 <= i < k,
        a[i] == p[k - 1],
{
    broadcast use vstd::multiset::group_multiset_axioms;

    let v = p[k - 1];
    assert(a =~= a.take(k) + a.skip(k));
    assert(p =~= p.take(k) + p.skip(k));
    assert(a.skip(k) =~= p.skip(k)) by {
        assert forall|m: int| 0 <= m < a.skip(k).len() implies a.skip(k)[m] == p.skip(k)[m] by {
            assert(p[k + m] == a[k + m]);
        }
    }
    vstd::seq_lib::lemma_multiset_commutative(a.take(k), a.skip(k));
    vstd::seq_lib::lemma_multiset_commutative(p.take(k), p.skip(k));
    assert(a.take(k).to_multiset().count(v) == p.take(k).to_multiset().count(v)) by {
        assert(a.to_multiset().count(v) == a.take(k).to_multiset().count(v) + a.skip(
            k,
        ).to_multiset().count(v));
        assert(p.to_multiset().count(v) == p.take(k).to_multiset().count(v) + p.skip(
            k,
        ).to_multiset().count(v));
    }
    vstd::seq_lib::to_multiset_contains(p.take(k), v);
    vstd::seq_lib::to_multiset_contains(a.take(k), v);
    assert(p.take(k)[k - 1] == v);
    assert(p.take(k).contains(v));
    assert(a.take(k).contains(v));
    let i = choose|i: int| 0 <= i < a.take(k).len() && a.take(k)[i] == v;
    i
}

/// The round that begins with the item of `p` at position `big` agrees with
/// `p` from there on.
proof fn lemma_round_agrees<T>(a: Seq<T>, p: Seq<T>, big: int, j: int, i: int)
    requires
        1 <= big < a.len(),
        0 <= i <= big,
        round_source(big, j, big) == i,
        a[i] == p[big],
        agree_from(a, p, big + 1),
    ensures
        agree_from(at_round(a, big, j), p, big),
{
    let r = at_round(a, big, j);
    assert forall|m: int| big <= m < r.len() implies #[trigger] p[m] == r[m] by {
        if m > big {
            assert(round_source(big, j, m) == m);
        }
    }
}

/// The exchanges of the rounds before round `j` and `within` more are fewer
/// than there are arrangements of `big + 1` items.
proof fn lemma_within_block(big: int, j: int, within: nat)
    requires
        1 <= big,
        0 <= j <= big,
        within < crate::combinatorics::factorial(big as nat),
    ensures
        0 <= j * crate::combinatorics::factorial(big as nat),
        j * crate::combinatorics::factorial(big as nat) + within < crate::combinatorics::factorial(
            (big + 1) as nat,
        ),
{
    let f = crate::combinatorics::factorial(big as nat);
    assert(crate::combinatorics::factorial((big + 1) as nat) == (big + 1) * f);
    assert(0 <= j * f && j * f + within < (big + 1) * f) by (nonlinear_arith)
        requires
            0 <= j <= big,
            0 <= within < f,
    ;
}

/// A block of the digits below `k` comes to every arrangement of the first
/// `k` items: to every list of the same items that agrees with `a` from
/// position `k` on.
pub proof fn lemma_block_covers<T>(a: Seq<T>, c: Seq<usize>, k: int, p: Seq<T>) -> (n: nat)
    requires
        a.len() == c.len(),
        c.len() <= usize::MAX,
        1 <= k <= a.len(),
        is_fresh_below(c, k),
        p.to_multiset() == a.to_multiset(),
        agree_from(a, p, k),
    ensures
        n < crate::combinatorics::factorial(k as nat),
        crate::combinatorics::arranged_after(a, c, n).0 == p,
    decreases k,
{
    let i = lemma_item_below(a, p, k);
    if k == 1 {
        lemma_factorial_positive(1);
        assert(p =~= a) by {
            assert forall|m: int| 0 <= m < a.len() implies p[m] == a[m] by {
                if m >= 1 {
                    assert(p[m] == a[m]);
                }
            }
        }
        assert(crate::combinatorics::arranged_after(a, c, 0) == (a, c));
        0
    } else {
        let big = k - 1;
        let f = crate::combinatorics::factorial(big as nat);
        let j = round_with(big, i);
        lemma_round_with(big, i);
        lemma_round_start(a, c, big, j);
        let r = at_round(a, big, j);
        let d = c.update(big, j as usize);
        lemma_run_keeps_items(a, c, (j * f) as nat);
        lemma_round_agrees(a, p, big, j, i);
        let within = lemma_block_covers(r, d, big, p);
        lemma_within_block(big, j, within);
        crate::combinatorics::lemma_arranged_on(a, c, (j * f) as nat, within);
        ((j * f) as nat + within) as nat
    }
}

/// The exchanges that begin with the digits from one on at zero come to every
/// arrangement of the items.
pub proof fn lemma_every_arrangement_is_reached<T>(
    items: Seq<T>,
    counter: Seq<usize>,
    sought: Seq<T>,
)
    requires
        items.len() == counter.len(),
        counter.len() <= usize::MAX,
        is_fresh_below(counter, counter.len() as int),
        sought.to_multiset() == items.to_multiset(),
    ensures
        crate::combinatorics::is_reached(items, counter, sought),
{
    vstd::seq_lib::to_multiset_len(items);
    vstd::seq_lib::to_multiset_len(sought);
    if items.len() == 0 {
        assert(sought =~= items);
        assert(crate::combinatorics::arranged_after(items, counter, 0).0 == sought);
    } else {
        assert(agree_from(items, sought, items.len() as int));
        let n = lemma_block_covers(items, counter, items.len() as int, sought);
        assert(crate::combinatorics::arranged_after(items, counter, n).0 == sought);
    }
}

} // verus!
