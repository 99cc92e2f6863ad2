//! The neighbours of a position on a grid.

use super::vec2d::Vec2D;
use crate::number_traits::{CheckedAdd, CheckedSub};
use std::fmt::Debug;
use std::marker::PhantomData;
use vstd::prelude::*;

verus! {

/// Directions for stepping
#[derive(Debug)]
pub struct Dir<T> {
    _phantom: PhantomData<T>,
}

/// The two components, if both are there.
pub open spec fn both<T>(row: Option<T>, col: Option<T>) -> Option<Vec2D<T>> {
    match (row, col) {
        (Some(row), Some(col)) => Some(Vec2D(row, col)),
        _ => None,
    }
}

/// The four orthogonal neighbours of `from` at distance `one`: north, east,
/// south, west. A neighbour whose coordinate would leave the range of `T` is
/// `None`.
pub open spec fn cardinals_of<T: CheckedAdd + CheckedSub>(from: Vec2D<T>, one: T) -> Seq<
    Option<Vec2D<T>>,
> {
    seq![
        both(from.0.checked_difference(&one), Some(from.1)),
        both(Some(from.0), from.1.checked_sum(&one)),
        both(from.0.checked_sum(&one), Some(from.1)),
        both(Some(from.0), from.1.checked_difference(&one)),
    ]
}

/// The four diagonal neighbours of `from` at distance `one`: north-east,
/// south-east, south-west, north-west. A neighbour with a coordinate that
/// would leave the range of `T` is `None`.
pub open spec fn ordinals_of<T: CheckedAdd + CheckedSub>(from: Vec2D<T>, one: T) -> Seq<
    Option<Vec2D<T>>,
> {
    seq![
        both(from.0.checked_difference(&one), from.1.checked_sum(&one)),
        both(from.0.checked_sum(&one), from.1.checked_sum(&one)),
        both(from.0.checked_sum(&one), from.1.checked_difference(&one)),
        both(from.0.checked_difference(&one), from.1.checked_difference(&one)),
    ]
}

/// The eight neighbours, clockwise from north: the orthogonal and the
/// diagonal ones in turn.
pub open spec fn woven<T>(straight: Seq<Option<Vec2D<T>>>, slanted: Seq<Option<Vec2D<T>>>) -> Seq<
    Option<Vec2D<T>>,
> {
    seq![
        straight[0],
        slanted[0],
        straight[1],
        slanted[1],
        straight[2],
        slanted[2],
        straight[3],
        slanted[3],
    ]
}

/// `From<u8>` for `i16` converts without loss: the result is the number given.
pub assume_specification[ <i16 as From<u8>>::from ](small: u8) -> (wide: i16)
    ensures
        wide == small,
;

/// `From<u8>` for `i32` converts without loss: the result is the number given.
pub assume_specification[ <i32 as From<u8>>::from ](small: u8) -> (wide: i32)
    ensures
        wide == small,
;

/// `From<u8>` for `i64` converts without loss: the result is the number given.
pub assume_specification[ <i64 as From<u8>>::from ](small: u8) -> (wide: i64)
    ensures
        wide == small,
;

/// `From<u8>` for `i128` converts without loss: the result is the number given.
pub assume_specification[ <i128 as From<u8>>::from ](small: u8) -> (wide: i128)
    ensures
        wide == small,
;

/// `From<u8>` for `isize` converts without loss: the result is the number given.
pub assume_specification[ <isize as From<u8>>::from ](small: u8) -> (wide: isize)
    ensures
        wide == small,
;

/// `From` from a type to itself returns its argument unchanged.
pub assume_specification<Kept>[ <Kept as From<Kept>>::from ](given: Kept) -> (same: Kept)
    ensures
        same == given,
;

/// `one` is what the conversion of the number one into `T` gives. For every
/// integer type that can take the place of `T` this is the number one.
pub open spec fn is_one<T: From<u8>>(one: T) -> bool {
    call_ensures(T::from, (1u8,), one)
}

impl<T> Dir<T> where T: Debug + Copy + From<u8> + Sized + CheckedAdd + CheckedSub {
    /// Cardinal directions (N, E, S, W)
    ///
    /// Get orthogonal neighbors to the current node. Neighbor is
    /// `None` if overflow or underflow would occur.
    pub fn cardinals(from: &Vec2D<T>) -> (around: [Option<Vec2D<T>>; 4])
        ensures
            exists|one: T| #[trigger] is_one(one) && around@ == cardinals_of(*from, one),
    {
        let one: T = T::from(1u8);
        let up = match from.0.checked_sub(&one) {
            Some(n) => Some(Vec2D(n, from.1)),
            None => None,
        };
        let right = match from.1.checked_add(&one) {
            Some(n) => Some(Vec2D(from.0, n)),
            None => None,
        };
        let down = match from.0.checked_add(&one) {
            Some(n) => Some(Vec2D(n, from.1)),
            None => None,
        };
        let left = match from.1.checked_sub(&one) {
            Some(n) => Some(Vec2D(from.0, n)),
            None => None,
        };
        let around = [up, right, down, left];
        proof {
            assert(is_one(one));
            assert(around@ =~= cardinals_of(*from, one));
        }
        around
    }

    /// Ordinal directions (NE, SE, SW, NW)
    ///
    /// Get diagonal neighbors to the current node. Neighbor is
    /// `None` if overflow or underflow would occur.
    pub fn ordinals(from: &Vec2D<T>) -> (around: [Option<Vec2D<T>>; 4])
        ensures
            exists|one: T| #[trigger] is_one(one) && around@ == ordinals_of(*from, one),
    {
        let one: T = T::from(1u8);
        let up = from.0.checked_sub(&one);
        let down = from.0.checked_add(&one);
        let right = from.1.checked_add(&one);
        let left = from.1.checked_sub(&one);
        let up_right = match (up, right) {
            (Some(n1), Some(n2)) => Some(Vec2D(n1, n2)),
            _ => None,
        };
        let down_right = match (down, right) {
            (Some(n1), Some(n2)) => Some(Vec2D(n1, n2)),
            _ => None,
        };
        let down_left = match (down, left) {
            (Some(n1), Some(n2)) => Some(Vec2D(n1, n2)),
            _ => None,
        };
        let up_left = match (up, left) {
            (Some(n1), Some(n2)) => Some(Vec2D(n1, n2)),
            _ => None,
        };
        let around = [up_right, down_right, down_left, up_left];
        proof {
            assert(is_one(one));
            assert(around@ =~= ordinals_of(*from, one));
        }
        around
    }

    /// Compass directions (N, NE, E, SE, S, SW, W, NW)
    ///
    /// Get all 8 neighbors to the current node. Neighbor is
    /// `None` if overflow or underflow would occur.
    pub fn compass(from: &Vec2D<T>) -> (around: [Option<Vec2D<T>>; 8])
        ensures
            exists|straight: T, slanted: T|
                #![trigger is_one(straight), is_one(slanted)]
                is_one(straight) && is_one(slanted) && around@ == woven(
                    cardinals_of(*from, straight),
                    ordinals_of(*from, slanted),
                ),
    {
        let c = Self::cardinals(from);
        let o = Self::ordinals(from);
        let around = [c[0], o[0], c[1], o[1], c[2], o[2], c[3], o[3]];
        proof {
            let straight = choose|one: T| #[trigger] is_one(one) && c@ == cardinals_of(*from, one);
            let slanted = choose|one: T| #[trigger] is_one(one) && o@ == ordinals_of(*from, one);
            assert(is_one(straight) && is_one(slanted));
            assert(around@ =~= woven(cardinals_of(*from, straight), ordinals_of(*from, slanted)));
        }
        around
    }

    /// Cardinal directions (N, E, S, W)
    ///
    /// Get the nodes in orthogonal directions without
    /// checking that the coordinates are valid.
    pub fn cardinals_unchecked(from: &Vec2D<T>) -> (around: [Vec2D<T>; 4])
        requires
            forall|one: T, i: int|
                #[trigger] is_one(one) && 0 <= i < 4 ==> #[trigger] cardinals_of(
                    *from,
                    one,
                )[i] is Some,
        ensures
            exists|one: T|
                #[trigger] is_one(one) && forall|i: int|
                    0 <= i < 4 ==> Some(#[trigger] around@[i]) == cardinals_of(*from, one)[i],
    {
        let c = Self::cardinals(from);
        proof {
            let one = choose|one: T| #[trigger] is_one(one) && c@ == cardinals_of(*from, one);
            let expected = cardinals_of(*from, one);
            assert(expected[0] is Some && expected[1] is Some && expected[2] is Some
                && expected[3] is Some);
        }
        [c[0].unwrap(), c[1].unwrap(), c[2].unwrap(), c[3].unwrap()]
    }

    /// Compass directions (NE, SE, SW,NW)
    ///
    /// Get the nodes in diagonal directions without
    /// checking that the coordinates are valid.
    pub fn ordinals_unchecked(from: &Vec2D<T>) -> (around: [Vec2D<T>; 4])
        requires
            forall|one: T, i: int|
                #[trigger] is_one(one) && 0 <= i < 4 ==> #[trigger] ordinals_of(
                    *from,
                    one,
                )[i] is Some,
        ensures
            exists|one: T|
                #[trigger] is_one(one) && forall|i: int|
                    0 <= i < 4 ==> Some(#[trigger] around@[i]) == ordinals_of(*from, one)[i],
    {
        let o = Self::ordinals(from);
        proof {
            let one = choose|one: T| #[trigger] is_one(one) && o@ == ordinals_of(*from, one);
            let expected = ordinals_of(*from, one);
            assert(expected[0] is Some && expected[1] is Some && expected[2] is Some
                && expected[3] is Some);
        }
        [o[0].unwrap(), o[1].unwrap(), o[2].unwrap(), o[3].unwrap()]
    }

    /// Compass directions (N, NE, E, SE, S, SW, W, NW)
    ///
    /// Get the nodes in all 8 surrounding directions without
    /// checking that the coordinates are valid.
    pub fn compass_unchecked(from: &Vec2D<T>) -> (around: [Vec2D<T>; 8])
        requires
            forall|straight: T, slanted: T, i: int|
                #![trigger
                    is_one(straight),
                    is_one(slanted),
                    woven(cardinals_of(*from, straight), ordinals_of(*from, slanted))[i]]
                is_one(straight) && is_one(slanted) && 0 <= i < 8 ==> woven(
                    cardinals_of(*from, straight),
                    ordinals_of(*from, slanted),
                )[i] is Some,
        ensures
            exists|straight: T, slanted: T|
                #![trigger is_one(straight), is_one(slanted)]
                is_one(straight) && is_one(slanted) && forall|i: int|
                    0 <= i < 8 ==> Some(#[trigger] around@[i]) == woven(
                        cardinals_of(*from, straight),
                        ordinals_of(*from, slanted),
                    )[i],
    {
        let c = Self::compass(from);
        proof {
            let (straight, slanted) = choose|straight: T, slanted: T|
                #![trigger is_one(straight), is_one(slanted)]
                is_one(straight) && is_one(slanted) && c@ == woven(
                    cardinals_of(*from, straight),
                    ordinals_of(*from, slanted),
                );
            let expected = woven(cardinals_of(*from, straight), ordinals_of(*from, slanted));
            assert(expected[0] is Some && expected[1] is Some && expected[2] is Some
                && expected[3] is Some && expected[4] is Some && expected[5] is Some
                && expected[6] is Some && expected[7] is Some);
        }
        [
            c[0].unwrap(),
            c[1].unwrap(),
            c[2].unwrap(),
            c[3].unwrap(),
            c[4].unwrap(),
            c[5].unwrap(),
            c[6].unwrap(),
            c[7].unwrap(),
        ]
    }
}

} // verus!
