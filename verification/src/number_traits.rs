//! Arithmetic that reports leaving the range of a type instead of wrapping.

use std::ops::{Add, Sub};
use vstd::prelude::*;

verus! {

/// Addition that returns `None` instead of leaving the range of the type.
pub trait CheckedAdd: Sized + Add<Self, Output = Self> {
    /// The sum of two numbers, if the type can hold it. Where an
    /// implementation does not define it, it is some function of the two
    /// numbers of which nothing else is known.
    open spec fn checked_sum(&self, v: &Self) -> Option<Self> {
        arbitrary::<spec_fn(&Self, &Self) -> Option<Self>>()(self, v)
    }

    /// Adds two numbers, checking for overflow. If overflow happens, `None` is
    /// returned.
    fn checked_add(&self, v: &Self) -> (sum: Option<Self>)
        ensures
            sum == self.checked_sum(v),
    ;
}

/// Subtraction that returns `None` instead of leaving the range of the type.
pub trait CheckedSub: Sized + Sub<Self, Output = Self> {
    /// The difference of two numbers, if the type can hold it. Where an
    /// implementation does not define it, it is some function of the two
    /// numbers of which nothing else is known.
    open spec fn checked_difference(&self, v: &Self) -> Option<Self> {
        arbitrary::<spec_fn(&Self, &Self) -> Option<Self>>()(self, v)
    }

    /// Subtracts two numbers, checking for underflow. If underflow happens,
    /// `None` is returned.
    fn checked_sub(&self, v: &Self) -> (difference: Option<Self>)
        ensures
            difference == self.checked_difference(v),
    ;
}

impl CheckedAdd for u8 {
    open spec fn checked_sum(&self, v: &u8) -> Option<u8> {
        if u8::MIN <= *self + *v <= u8::MAX {
            Some((*self + *v) as u8)
        } else {
            None
        }
    }

    #[inline]
    fn checked_add(&self, v: &u8) -> Option<u8> {
        u8::checked_add(*self, *v)
    }
}

impl CheckedAdd for u16 {
    open spec fn checked_sum(&self, v: &u16) -> Option<u16> {
        if u16::MIN <= *self + *v <= u16::MAX {
            Some((*self + *v) as u16)
        } else {
            None
        }
    }

    #[inline]
    fn checked_add(&self, v: &u16) -> Option<u16> {
        u16::checked_add(*self, *v)
    }
}

impl CheckedAdd for u32 {
    open spec fn checked_sum(&self, v: &u32) -> Option<u32> {
        if u32::MIN <= *self + *v <= u32::MAX {
            Some((*self + *v) as u32)
        } else {
            None
        }
    }

    #[inline]
    fn checked_add(&self, v: &u32) -> Option<u32> {
        u32::checked_add(*self, *v)
    }
}

impl CheckedAdd for u64 {
    open spec fn checked_sum(&self, v: &u64) -> Option<u64> {
        if u64::MIN <= *self + *v <= u64::MAX {
            Some((*self + *v) as u64)
        } else {
            None
        }
    }

    #[inline]
    fn checked_add(&self, v: &u64) -> Option<u64> {
        u64::checked_add(*self, *v)
    }
}

impl CheckedAdd for usize {
    open spec fn checked_sum(&self, v: &usize) -> Option<usize> {
        if usize::MIN <= *self + *v <= usize::MAX {
            Some((*self + *v) as usize)
        } else {
            None
        }
    }

    #[inline]
    fn checked_add(&self, v: &usize) -> Option<usize> {
        usize::checked_add(*self, *v)
    }
}

impl CheckedAdd for u128 {
    open spec fn checked_sum(&self, v: &u128) -> Option<u128> {
        if u128::MIN <= *self + *v <= u128::MAX {
            Some((*self + *v) as u128)
        } else {
            None
        }
    }

    #[inline]
    fn checked_add(&self, v: &u128) -> Option<u128> {
        u128::checked_add(*self, *v)
    }
}

impl CheckedAdd for i8 {
    open spec fn checked_sum(&self, v: &i8) -> Option<i8> {
        if i8::MIN <= *self + *v <= i8::MAX {
            Some((*self + *v) as i8)
        } else {
            None
        }
    }

    #[inline]
    fn checked_add(&self, v: &i8) -> Option<i8> {
        i8::checked_add(*self, *v)
    }
}

impl CheckedAdd for i16 {
    open spec fn checked_sum(&self, v: &i16) -> Option<i16> {
        if i16::MIN <= *self + *v <= i16::MAX {
            Some((*self + *v) as i16)
        } else {
            None
        }
    }

    #[inline]
    fn checked_add(&self, v: &i16) -> Option<i16> {
        i16::checked_add(*self, *v)
    }
}

impl CheckedAdd for i32 {
    open spec fn checked_sum(&self, v: &i32) -> Option<i32> {
        if i32::MIN <= *self + *v <= i32::MAX {
            Some((*self + *v) as i32)
        } else {
            None
        }
    }

    #[inline]
    fn checked_add(&self, v: &i32) -> Option<i32> {
        i32::checked_add(*self, *v)
    }
}

impl CheckedAdd for i64 {
    open spec fn checked_sum(&self, v: &i64) -> Option<i64> {
        if i64::MIN <= *self + *v <= i64::MAX {
            Some((*self + *v) as i64)
        } else {
            None
        }
    }

    #[inline]
    fn checked_add(&self, v: &i64) -> Option<i64> {
        i64::checked_add(*self, *v)
    }
}

impl CheckedAdd for isize {
    open spec fn checked_sum(&self, v: &isize) -> Option<isize> {
        if isize::MIN <= *self + *v <= isize::MAX {
            Some((*self + *v) as isize)
        } else {
            None
        }
    }

    #[inline]
    fn checked_add(&self, v: &isize) -> Option<isize> {
        isize::checked_add(*self, *v)
    }
}

impl CheckedAdd for i128 {
    open spec fn checked_sum(&self, v: &i128) -> Option<i128> {
        if i128::MIN <= *self + *v <= i128::MAX {
            Some((*self + *v) as i128)
        } else {
            None
        }
    }

    #[inline]
    fn checked_add(&self, v: &i128) -> Option<i128> {
        i128::checked_add(*self, *v)
    }
}

impl CheckedSub for u8 {
    open spec fn checked_difference(&self, v: &u8) -> Option<u8> {
        if u8::MIN <= *self - *v <= u8::MAX {
            Some((*self - *v) as u8)
        } else {
            None
        }
    }

    #[inline]
    fn checked_sub(&self, v: &u8) -> Option<u8> {
        u8::checked_sub(*self, *v)
    }
}

impl CheckedSub for u16 {
    open spec fn checked_difference(&self, v: &u16) -> Option<u16> {
        if u16::MIN <= *self - *v <= u16::MAX {
            Some((*self - *v) as u16)
        } else {
            None
        }
    }

    #[inline]
    fn checked_sub(&self, v: &u16) -> Option<u16> {
        u16::checked_sub(*self, *v)
    }
}

impl CheckedSub for u32 {
    open spec fn checked_difference(&self, v: &u32) -> Option<u32> {
        if u32::MIN <= *self - *v <= u32::MAX {
            Some((*self - *v) as u32)
        } else {
            None
        }
    }

    #[inline]
    fn checked_sub(&self, v: &u32) -> Option<u32> {
        u32::checked_sub(*self, *v)
    }
}

impl CheckedSub for u64 {
    open spec fn checked_difference(&self, v: &u64) -> Option<u64> {
        if u64::MIN <= *self - *v <= u64::MAX {
            Some((*self - *v) as u64)
        } else {
            None
        }
    }

    #[inline]
    fn checked_sub(&self, v: &u64) -> Option<u64> {
        u64::checked_sub(*self, *v)
    }
}

impl CheckedSub for usize {
    open spec fn checked_difference(&self, v: &usize) -> Option<usize> {
        if usize::MIN <= *self - *v <= usize::MAX {
            Some((*self - *v) as usize)
        } else {
            None
        }
    }

    #[inline]
    fn checked_sub(&self, v: &usize) -> Option<usize> {
        usize::checked_sub(*self, *v)
    }
}

impl CheckedSub for u128 {
    open spec fn checked_difference(&self, v: &u128) -> Option<u128> {
        if u128::MIN <= *self - *v <= u128::MAX {
            Some((*self - *v) as u128)
        } else {
            None
        }
    }

    #[inline]
    fn checked_sub(&self, v: &u128) -> Option<u128> {
        u128::checked_sub(*self, *v)
    }
}

impl CheckedSub for i8 {
    open spec fn checked_difference(&self, v: &i8) -> Option<i8> {
        if i8::MIN <= *self - *v <= i8::MAX {
            Some((*self - *v) as i8)
        } else {
            None
        }
    }

    #[inline]
    fn checked_sub(&self, v: &i8) -> Option<i8> {
        i8::checked_sub(*self, *v)
    }
}

impl CheckedSub for i16 {
    open spec fn checked_difference(&self, v: &i16) -> Option<i16> {
        if i16::MIN <= *self - *v <= i16::MAX {
            Some((*self - *v) as i16)
        } else {
            None
        }
    }

    #[inline]
    fn checked_sub(&self, v: &i16) -> Option<i16> {
        i16::checked_sub(*self, *v)
    }
}

impl CheckedSub for i32 {
    open spec fn checked_difference(&self, v: &i32) -> Option<i32> {
        if i32::MIN <= *self - *v <= i32::MAX {
            Some((*self - *v) as i32)
        } else {
            None
        }
    }

    #[inline]
    fn checked_sub(&self, v: &i32) -> Option<i32> {
        i32::checked_sub(*self, *v)
    }
}

impl CheckedSub for i64 {
    open spec fn checked_difference(&self, v: &i64) -> Option<i64> {
        if i64::MIN <= *self - *v <= i64::MAX {
            Some((*self - *v) as i64)
        } else {
            None
        }
    }

    #[inline]
    fn checked_sub(&self, v: &i64) -> Option<i64> {
        i64::checked_sub(*self, *v)
    }
}

impl CheckedSub for isize {
    open spec fn checked_difference(&self, v: &isize) -> Option<isize> {
        if isize::MIN <= *self - *v <= isize::MAX {
            Some((*self - *v) as isize)
        } else {
            None
        }
    }

    #[inline]
    fn checked_sub(&self, v: &isize) -> Option<isize> {
        isize::checked_sub(*self, *v)
    }
}

impl CheckedSub for i128 {
    open spec fn checked_difference(&self, v: &i128) -> Option<i128> {
        if i128::MIN <= *self - *v <= i128::MAX {
            Some((*self - *v) as i128)
        } else {
            None
        }
    }

    #[inline]
    fn checked_sub(&self, v: &i128) -> Option<i128> {
        i128::checked_sub(*self, *v)
    }
}

} // verus!
