//! Vectors with three components.

use super::cross_product::Axis;
use super::vec2d::Vec2D;
use std::ops::{Add, Mul, Sub};
use vstd::prelude::*;
use vstd::std_specs::convert::{FromSpec, FromSpecImpl};
use vstd::std_specs::ops::{AddSpec, AddSpecImpl, MulSpec, SubSpec, SubSpecImpl};

verus! {

/// 3D Vector
#[derive(Debug, Default, Copy, Clone, PartialEq, Eq, Hash, Ord, PartialOrd)]
pub struct Vec3D<T>(pub T, pub T, pub T);

impl<T> Vec3D<T> where
    T: Copy + Clone + Mul<Output = T> + Sub<Output = T> + Add<Output = T> + Ord,
 {
    /// Return the vector projected into the plane normal to the provided axis.
    /// Normal X => (Y, Z),
    /// Normal Y => (X, Z),
    /// Normal Z => (X, Y)
    pub fn planer(&self, normal: Axis) -> (flat: Vec2D<T>)
        ensures
            flat == match normal {
                Axis::X => Vec2D(self.1, self.2),
                Axis::Y => Vec2D(self.0, self.2),
                Axis::Z => Vec2D(self.0, self.1),
            },
    {
        match normal {
            Axis::X => Vec2D::<T>(self.1, self.2),
            Axis::Y => Vec2D::<T>(self.0, self.2),
            Axis::Z => Vec2D::<T>(self.0, self.1),
        }
    }

    /// Scale a point by some value
    pub fn scale(&self, scale: T) -> (scaled: Self)
        requires
            self.0.mul_req(scale),
            self.1.mul_req(scale),
            self.2.mul_req(scale),
        ensures
            T::obeys_mul_spec() ==> scaled == Vec3D(
                self.0.mul_spec(scale),
                self.1.mul_spec(scale),
                self.2.mul_spec(scale),
            ),
    {
        Vec3D(self.0 * scale, self.1 * scale, self.2 * scale)
    }

    /// Get the Manhattan / taxi cab distance
    pub fn manhattan(&self, other: Self) -> (distance: T)
        requires
            super::vec2d::obeys_arithmetic::<T>(),
            super::vec2d::gap_fits(self.0, other.0),
            super::vec2d::gap_fits(self.1, other.1),
            super::vec2d::gap_fits(self.2, other.2),
            super::vec2d::gap(self.0, other.0).add_req(super::vec2d::gap(self.1, other.1)),
            super::vec2d::gap(self.0, other.0).add_spec(super::vec2d::gap(self.1, other.1)).add_req(
                super::vec2d::gap(self.2, other.2),
            ),
        ensures
            distance == super::vec2d::gap(self.0, other.0).add_spec(
                super::vec2d::gap(self.1, other.1),
            ).add_spec(super::vec2d::gap(self.2, other.2)),
    {
        let x = self.0.max(other.0) - self.0.min(other.0);
        let y = self.1.max(other.1) - self.1.min(other.1);
        let z = self.2.max(other.2) - self.2.min(other.2);
        x + y + z
    }

    /// Dot product (magnitude) of two vectors
    pub fn dot(&self, other: Self) -> (product: T)
        requires
            super::vec2d::obeys_arithmetic::<T>(),
            self.0.mul_req(other.0),
            self.1.mul_req(other.1),
            self.2.mul_req(other.2),
            self.0.mul_spec(other.0).add_req(self.1.mul_spec(other.1)),
            self.0.mul_spec(other.0).add_spec(self.1.mul_spec(other.1)).add_req(
                self.2.mul_spec(other.2),
            ),
        ensures
            product == self.0.mul_spec(other.0).add_spec(self.1.mul_spec(other.1)).add_spec(
                self.2.mul_spec(other.2),
            ),
    {
        self.0 * other.0 + self.1 * other.1 + self.2 * other.2
    }
}

impl<T: Default> From<Vec2D<T>> for Vec3D<T> {
    /// Lifts a vector of the plane into space, with the default value as its
    /// third component.
    fn from(value: Vec2D<T>) -> (lifted: Self)
        ensures
            lifted.0 == value.0,
            lifted.1 == value.1,
            call_ensures(T::default, (), lifted.2),
    {
        Vec3D(value.0, value.1, T::default())
    }
}

impl<T: Default> FromSpecImpl<Vec2D<T>> for Vec3D<T> {
    open spec fn obeys_from_spec() -> bool {
        false
    }

    open spec fn from_spec(v: Vec2D<T>) -> Self {
        Vec3D(v.0, v.1, arbitrary())
    }
}

impl<T: From<U>, U> From<(U, U, U)> for Vec3D<T> {
    /// Convert from a tuple to Vec3D while changing numeric types
    fn from(value: (U, U, U)) -> (converted: Self)
        ensures
            call_ensures(T::from, (value.0,), converted.0),
            call_ensures(T::from, (value.1,), converted.1),
            call_ensures(T::from, (value.2,), converted.2),
    {
        Vec3D(T::from(value.0), T::from(value.1), T::from(value.2))
    }
}

impl<T: From<U>, U> FromSpecImpl<(U, U, U)> for Vec3D<T> {
    open spec fn obeys_from_spec() -> bool {
        T::obeys_from_spec()
    }

    open spec fn from_spec(v: (U, U, U)) -> Self {
        Vec3D(T::from_spec(v.0), T::from_spec(v.1), T::from_spec(v.2))
    }
}

impl<T: Copy + Add<Output = T>> Add for Vec3D<T> {
    type Output = Vec3D<T>;

    fn add(self, rhs: Self) -> Self::Output {
        Vec3D(self.0 + rhs.0, self.1 + rhs.1, self.2 + rhs.2)
    }
}

impl<T: Copy + Add<Output = T>> AddSpecImpl for Vec3D<T> {
    open spec fn obeys_add_spec() -> bool {
        T::obeys_add_spec()
    }

    open spec fn add_req(self, rhs: Self) -> bool {
        self.0.add_req(rhs.0) && self.1.add_req(rhs.1) && self.2.add_req(rhs.2)
    }

    open spec fn add_spec(self, rhs: Self) -> Self::Output {
        Vec3D(self.0.add_spec(rhs.0), self.1.add_spec(rhs.1), self.2.add_spec(rhs.2))
    }
}

impl<T: Copy + Add<Output = T>> Add for &Vec3D<T> {
    type Output = Vec3D<T>;

    fn add(self, rhs: Self) -> Self::Output {
        Vec3D(self.0 + rhs.0, self.1 + rhs.1, self.2 + rhs.2)
    }
}

impl<T: Copy + Add<Output = T>> AddSpecImpl for &Vec3D<T> {
    open spec fn obeys_add_spec() -> bool {
        T::obeys_add_spec()
    }

    open spec fn add_req(self, rhs: Self) -> bool {
        self.0.add_req(rhs.0) && self.1.add_req(rhs.1) && self.2.add_req(rhs.2)
    }

    open spec fn add_spec(self, rhs: Self) -> Self::Output {
        Vec3D(self.0.add_spec(rhs.0), self.1.add_spec(rhs.1), self.2.add_spec(rhs.2))
    }
}

impl<T: Copy + Sub<Output = T>> Sub for Vec3D<T> {
    type Output = Vec3D<T>;

    fn sub(self, rhs: Self) -> Self::Output {
        Vec3D(self.0 - rhs.0, self.1 - rhs.1, self.2 - rhs.2)
    }
}

impl<T: Copy + Sub<Output = T>> SubSpecImpl for Vec3D<T> {
    open spec fn obeys_sub_spec() -> bool {
        T::obeys_sub_spec()
    }

    open spec fn sub_req(self, rhs: Self) -> bool {
        self.0.sub_req(rhs.0) && self.1.sub_req(rhs.1) && self.2.sub_req(rhs.2)
    }

    open spec fn sub_spec(self, rhs: Self) -> Self::Output {
        Vec3D(self.0.sub_spec(rhs.0), self.1.sub_spec(rhs.1), self.2.sub_spec(rhs.2))
    }
}

impl<T: Copy + Sub<Output = T>> Sub for &Vec3D<T> {
    type Output = Vec3D<T>;

    fn sub(self, rhs: Self) -> Self::Output {
        Vec3D(self.0 - rhs.0, self.1 - rhs.1, self.2 - rhs.2)
    }
}

impl<T: Copy + Sub<Output = T>> SubSpecImpl for &Vec3D<T> {
    open spec fn obeys_sub_spec() -> bool {
        T::obeys_sub_spec()
    }

    open spec fn sub_req(self, rhs: Self) -> bool {
        self.0.sub_req(rhs.0) && self.1.sub_req(rhs.1) && self.2.sub_req(rhs.2)
    }

    open spec fn sub_spec(self, rhs: Self) -> Self::Output {
        Vec3D(self.0.sub_spec(rhs.0), self.1.sub_spec(rhs.1), self.2.sub_spec(rhs.2))
    }
}

} // verus!
