//! The cross product, and the axes that name a plane's normal.

use super::vec2d::Vec2D;
use super::vec3d::Vec3D;
use vstd::prelude::*;

verus! {

/// Normal axes for Vec3D
#[derive(Debug, Default)]
pub enum Axis {
    X,
    Y,
    #[default]
    Z,
}

/// Vectors that have a cross product.
pub trait Cross: Sized {
    type Output;

    /// Whether every product and difference that the cross product forms
    /// stays within the range of the component type. Where an implementation
    /// does not define it, it is some function of the two vectors of which
    /// nothing else is known.
    open spec fn cross_fits(&self, other: Self) -> bool {
        arbitrary::<spec_fn(&Self, Self) -> bool>()(self, other)
    }

    /// The cross product of two vectors. Where an implementation does not
    /// define it, it is some function of the two vectors of which nothing else
    /// is known.
    open spec fn cross_of(&self, other: Self) -> Self::Output {
        arbitrary::<spec_fn(&Self, Self) -> Self::Output>()(self, other)
    }

    /// Cross product of two vectors
    fn cross(&self, other: Self) -> (product: Self::Output)
        requires
            self.cross_fits(other),
        ensures
            product == self.cross_of(other),
    ;
}

/// `a * b - c * d` can be formed in `i8` without leaving its range.
pub open spec fn minor_fits_i8(a: i8, b: i8, c: i8, d: i8) -> bool {
    &&& i8::MIN <= a * b <= i8::MAX
    &&& i8::MIN <= c * d <= i8::MAX
    &&& i8::MIN <= a * b - c * d <= i8::MAX
}

impl Cross for Vec3D<i8> {
    type Output = Vec3D<i8>;

    open spec fn cross_fits(&self, other: Self) -> bool {
        &&& minor_fits_i8(self.1, other.2, self.2, other.1)
        &&& minor_fits_i8(self.2, other.0, self.0, other.2)
        &&& minor_fits_i8(self.0, other.1, self.1, other.0)
    }

    open spec fn cross_of(&self, other: Self) -> Vec3D<i8> {
        Vec3D(
            (self.1 * other.2 - self.2 * other.1) as i8,
            (self.2 * other.0 - self.0 * other.2) as i8,
            (self.0 * other.1 - self.1 * other.0) as i8,
        )
    }

    fn cross(&self, other: Self) -> Self::Output {
        Vec3D(
            self.1 * other.2 - self.2 * other.1,
            self.2 * other.0 - self.0 * other.2,
            self.0 * other.1 - self.1 * other.0,
        )
    }
}

impl Cross for Vec2D<i8> {
    type Output = Vec3D<i8>;

    open spec fn cross_fits(&self, other: Self) -> bool {
        minor_fits_i8(self.0, other.1, self.1, other.0)
    }

    open spec fn cross_of(&self, other: Self) -> Vec3D<i8> {
        Vec3D(0, 0, (self.0 * other.1 - self.1 * other.0) as i8)
    }

    fn cross(&self, other: Self) -> Self::Output {
        let v1: Vec3D<i8> = Vec3D::from(*self);
        let v2: Vec3D<i8> = Vec3D::from(other);
        v1.cross(v2)
    }
}

/// `a * b - c * d` can be formed in `i16` without leaving its range.
pub open spec fn minor_fits_i16(a: i16, b: i16, c: i16, d: i16) -> bool {
    &&& i16::MIN <= a * b <= i16::MAX
    &&& i16::MIN <= c * d <= i16::MAX
    &&& i16::MIN <= a * b - c * d <= i16::MAX
}

impl Cross for Vec3D<i16> {
    type Output = Vec3D<i16>;

    open spec fn cross_fits(&self, other: Self) -> bool {
        &&& minor_fits_i16(self.1, other.2, self.2, other.1)
        &&& minor_fits_i16(self.2, other.0, self.0, other.2)
        &&& minor_fits_i16(self.0, other.1, self.1, other.0)
    }

    open spec fn cross_of(&self, other: Self) -> Vec3D<i16> {
        Vec3D(
            (self.1 * other.2 - self.2 * other.1) as i16,
            (self.2 * other.0 - self.0 * other.2) as i16,
            (self.0 * other.1 - self.1 * other.0) as i16,
        )
    }

    fn cross(&self, other: Self) -> Self::Output {
        Vec3D(
            self.1 * other.2 - self.2 * other.1,
            self.2 * other.0 - self.0 * other.2,
            self.0 * other.1 - self.1 * other.0,
        )
    }
}

impl Cross for Vec2D<i16> {
    type Output = Vec3D<i16>;

    open spec fn cross_fits(&self, other: Self) -> bool {
        minor_fits_i16(self.0, other.1, self.1, other.0)
    }

    open spec fn cross_of(&self, other: Self) -> Vec3D<i16> {
        Vec3D(0, 0, (self.0 * other.1 - self.1 * other.0) as i16)
    }

    fn cross(&self, other: Self) -> Self::Output {
        let v1: Vec3D<i16> = Vec3D::from(*self);
        let v2: Vec3D<i16> = Vec3D::from(other);
        v1.cross(v2)
    }
}

/// `a * b - c * d` can be formed in `i32` without leaving its range.
pub open spec fn minor_fits_i32(a: i32, b: i32, c: i32, d: i32) -> bool {
    &&& i32::MIN <= a * b <= i32::MAX
    &&& i32::MIN <= c * d <= i32::MAX
    &&& i32::MIN <= a * b - c * d <= i32::MAX
}

impl Cross for Vec3D<i32> {
    type Output = Vec3D<i32>;

    open spec fn cross_fits(&self, other: Self) -> bool {
        &&& minor_fits_i32(self.1, other.2, self.2, other.1)
        &&& minor_fits_i32(self.2, other.0, self.0, other.2)
        &&& minor_fits_i32(self.0, other.1, self.1, other.0)
    }

    open spec fn cross_of(&self, other: Self) -> Vec3D<i32> {
        Vec3D(
            (self.1 * other.2 - self.2 * other.1) as i32,
            (self.2 * other.0 - self.0 * other.2) as i32,
            (self.0 * other.1 - self.1 * other.0) as i32,
        )
    }

    fn cross(&self, other: Self) -> Self::Output {
        Vec3D(
            self.1 * other.2 - self.2 * other.1,
            self.2 * other.0 - self.0 * other.2,
            self.0 * other.1 - self.1 * other.0,
        )
    }
}

impl Cross for Vec2D<i32> {
    type Output = Vec3D<i32>;

    open spec fn cross_fits(&self, other: Self) -> bool {
        minor_fits_i32(self.0, other.1, self.1, other.0)
    }

    open spec fn cross_of(&self, other: Self) -> Vec3D<i32> {
        Vec3D(0, 0, (self.0 * other.1 - self.1 * other.0) as i32)
    }

    fn cross(&self, other: Self) -> Self::Output {
        let v1: Vec3D<i32> = Vec3D::from(*self);
        let v2: Vec3D<i32> = Vec3D::from(other);
        v1.cross(v2)
    }
}

/// `a * b - c * d` can be formed in `i64` without leaving its range.
pub open spec fn minor_fits_i64(a: i64, b: i64, c: i64, d: i64) -> bool {
    &&& i64::MIN <= a * b <= i64::MAX
    &&& i64::MIN <= c * d <= i64::MAX
    &&& i64::MIN <= a * b - c * d <= i64::MAX
}

impl Cross for Vec3D<i64> {
    type Output = Vec3D<i64>;

    open spec fn cross_fits(&self, other: Self) -> bool {
        &&& minor_fits_i64(self.1, other.2, self.2, other.1)
        &&& minor_fits_i64(self.2, other.0, self.0, other.2)
        &&& minor_fits_i64(self.0, other.1, self.1, other.0)
    }

    open spec fn cross_of(&self, other: Self) -> Vec3D<i64> {
        Vec3D(
            (self.1 * other.2 - self.2 * other.1) as i64,
            (self.2 * other.0 - self.0 * other.2) as i64,
            (self.0 * other.1 - self.1 * other.0) as i64,
        )
    }

    fn cross(&self, other: Self) -> Self::Output {
        Vec3D(
            self.1 * other.2 - self.2 * other.1,
            self.2 * other.0 - self.0 * other.2,
            self.0 * other.1 - self.1 * other.0,
        )
    }
}

impl Cross for Vec2D<i64> {
    type Output = Vec3D<i64>;

    open spec fn cross_fits(&self, other: Self) -> bool {
        minor_fits_i64(self.0, other.1, self.1, other.0)
    }

    open spec fn cross_of(&self, other: Self) -> Vec3D<i64> {
        Vec3D(0, 0, (self.0 * other.1 - self.1 * other.0) as i64)
    }

    fn cross(&self, other: Self) -> Self::Output {
        let v1: Vec3D<i64> = Vec3D::from(*self);
        let v2: Vec3D<i64> = Vec3D::from(other);
        v1.cross(v2)
    }
}

/// `a * b - c * d` can be formed in `isize` without leaving its range.
pub open spec fn minor_fits_isize(a: isize, b: isize, c: isize, d: isize) -> bool {
    &&& isize::MIN <= a * b <= isize::MAX
    &&& isize::MIN <= c * d <= isize::MAX
    &&& isize::MIN <= a * b - c * d <= isize::MAX
}

impl Cross for Vec3D<isize> {
    type Output = Vec3D<isize>;

    open spec fn cross_fits(&self, other: Self) -> bool {
        &&& minor_fits_isize(self.1, other.2, self.2, other.1)
        &&& minor_fits_isize(self.2, other.0, self.0, other.2)
        &&& minor_fits_isize(self.0, other.1, self.1, other.0)
    }

    open spec fn cross_of(&self, other: Self) -> Vec3D<isize> {
        Vec3D(
            (self.1 * other.2 - self.2 * other.1) as isize,
            (self.2 * other.0 - self.0 * other.2) as isize,
            (self.0 * other.1 - self.1 * other.0) as isize,
        )
    }

    fn cross(&self, other: Self) -> Self::Output {
        Vec3D(
            self.1 * other.2 - self.2 * other.1,
            self.2 * other.0 - self.0 * other.2,
            self.0 * other.1 - self.1 * other.0,
        )
    }
}

impl Cross for Vec2D<isize> {
    type Output = Vec3D<isize>;

    open spec fn cross_fits(&self, other: Self) -> bool {
        minor_fits_isize(self.0, other.1, self.1, other.0)
    }

    open spec fn cross_of(&self, other: Self) -> Vec3D<isize> {
        Vec3D(0, 0, (self.0 * other.1 - self.1 * other.0) as isize)
    }

    fn cross(&self, other: Self) -> Self::Output {
        let v1: Vec3D<isize> = Vec3D::from(*self);
        let v2: Vec3D<isize> = Vec3D::from(other);
        v1.cross(v2)
    }
}

/// `a * b - c * d` can be formed in `i128` without leaving its range.
pub open spec fn minor_fits_i128(a: i128, b: i128, c: i128, d: i128) -> bool {
    &&& i128::MIN <= a * b <= i128::MAX
    &&& i128::MIN <= c * d <= i128::MAX
    &&& i128::MIN <= a * b - c * d <= i128::MAX
}

impl Cross for Vec3D<i128> {
    type Output = Vec3D<i128>;

    open spec fn cross_fits(&self, other: Self) -> bool {
        &&& minor_fits_i128(self.1, other.2, self.2, other.1)
        &&& minor_fits_i128(self.2, other.0, self.0, other.2)
        &&& minor_fits_i128(self.0, other.1, self.1, other.0)
    }

    open spec fn cross_of(&self, other: Self) -> Vec3D<i128> {
        Vec3D(
            (self.1 * other.2 - self.2 * other.1) as i128,
            (self.2 * other.0 - self.0 * other.2) as i128,
            (self.0 * other.1 - self.1 * other.0) as i128,
        )
    }

    fn cross(&self, other: Self) -> Self::Output {
        Vec3D(
            self.1 * other.2 - self.2 * other.1,
            self.2 * other.0 - self.0 * other.2,
            self.0 * other.1 - self.1 * other.0,
        )
    }
}

impl Cross for Vec2D<i128> {
    type Output = Vec3D<i128>;

    open spec fn cross_fits(&self, other: Self) -> bool {
        minor_fits_i128(self.0, other.1, self.1, other.0)
    }

    open spec fn cross_of(&self, other: Self) -> Vec3D<i128> {
        Vec3D(0, 0, (self.0 * other.1 - self.1 * other.0) as i128)
    }

    fn cross(&self, other: Self) -> Self::Output {
        let v1: Vec3D<i128> = Vec3D::from(*self);
        let v2: Vec3D<i128> = Vec3D::from(other);
        v1.cross(v2)
    }
}

} // verus!
