//! The middle of a list.

use vstd::prelude::*;
use vstd::slice::slice_subrange;

verus! {

/// The middle of `items`: all of them if there are at most two, the one in the
/// middle of an odd number of them, the two in the middle of an even number.
pub open spec fn middle_of<T>(items: Seq<T>) -> Seq<T> {
    let midpoint = (items.len() / 2) as int;
    if items.len() <= 2 {
        items
    } else if items.len() % 2 == 1 {
        items.subrange(midpoint, midpoint + 1)
    } else {
        items.subrange(midpoint - 1, midpoint + 1)
    }
}

fn mid_of_slice<T>(items: &[T]) -> (middle: &[T])
    ensures
        middle@ == middle_of(items@),
{
    let len: usize = items.len();
    let midpoint: usize = len / 2;
    if len <= 2 {
        items
    } else if len % 2 == 1 {
        slice_subrange(items, midpoint, midpoint + 1)
    } else {
        slice_subrange(items, midpoint - 1, midpoint + 1)
    }
}

/// Get the midpoint(s) of an array. If the array is sorted this will get the median value(s);
/// For odd length arrays the slice will contain 1 element, for even length 2.
pub trait Median<T: Ord> {
    /// The elements, in their order. Where an implementation does not define
    /// it, it is some function of the list of which nothing else is known.
    open spec fn items(&self) -> Seq<T> {
        arbitrary::<spec_fn(&Self) -> Seq<T>>()(self)
    }

    fn mid(&self) -> (middle: &[T])
        ensures
            middle@ == middle_of(self.items()),
    ;
}

impl<T: Ord> Median<T> for Vec<T> {
    open spec fn items(&self) -> Seq<T> {
        self@
    }

    fn mid(&self) -> (middle: &[T]) {
        mid_of_slice(self.as_slice())
    }
}

impl<T: Ord> Median<T> for &[T] {
    open spec fn items(&self) -> Seq<T> {
        self@
    }

    fn mid(&self) -> (middle: &[T]) {
        mid_of_slice(*self)
    }
}

} // verus!
