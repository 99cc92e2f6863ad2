//! Vectors with two components.

use super::cross_product::Axis;
use super::vec3d::Vec3D;
use std::ops::{Add, Mul, Sub};
use vstd::prelude::*;
use vstd::std_specs::cmp::OrdSpec;
use vstd::std_specs::convert::{FromSpec, FromSpecImpl, TryFromSpecImpl};
use vstd::std_specs::ops::{AddSpec, AddSpecImpl, MulSpec, SubSpec, SubSpecImpl};

verus! {

/// 2D Vector
#[derive(Debug, Default, Copy, Clone, PartialEq, Eq, Hash, Ord, PartialOrd)]
pub struct Vec2D<T>(pub T, pub T);

/// The greater of two values, as `Ord::max` picks it.
pub open spec fn greater_of<T: Ord>(a: T, b: T) -> T {
    if b.cmp_spec(&a) is Less {
        a
    } else {
        b
    }
}

/// The smaller of two values, as `Ord::min` picks it.
pub open spec fn smaller_of<T: Ord>(a: T, b: T) -> T {
    if b.cmp_spec(&a) is Less {
        b
    } else {
        a
    }
}

/// The components of `T` obey the specifications of the operators that the
/// vector methods use.
pub open spec fn obeys_arithmetic<
    T: Mul<Output = T> + Sub<Output = T> + Add<Output = T> + Ord,
>() -> bool {
    &&& T::obeys_cmp_spec()
    &&& T::obeys_mul_spec()
    &&& T::obeys_sub_spec()
    &&& T::obeys_add_spec()
}

/// The distance between two values: the greater minus the smaller.
pub open spec fn gap<T: Sub<Output = T> + Ord>(a: T, b: T) -> T {
    greater_of(a, b).sub_spec(smaller_of(a, b))
}

/// The distance between two values can be formed.
pub open spec fn gap_fits<T: Sub<Output = T> + Ord>(a: T, b: T) -> bool {
    greater_of(a, b).sub_req(smaller_of(a, b))
}

impl<T> Vec2D<T> where
    T: Copy + Clone + Mul<Output = T> + Sub<Output = T> + Add<Output = T> + Ord + Default,
 {
    /// Scale by a factor
    pub fn scale(&mut self, factor: T) -> (scaled: Self)
        requires
            old(self).0.mul_req(factor),
            old(self).1.mul_req(factor),
        ensures
            *final(self) == *old(self),
            T::obeys_mul_spec() ==> scaled == Vec2D(
                old(self).0.mul_spec(factor),
                old(self).1.mul_spec(factor),
            ),
    {
        Vec2D(self.0 * factor, self.1 * factor)
    }

    /// Get the Manhattan / taxi cab distance
    pub fn manhattan(&self, other: Self) -> (distance: T)
        requires
            obeys_arithmetic::<T>(),
            gap_fits(self.0, other.0),
            gap_fits(self.1, other.1),
            gap(self.0, other.0).add_req(gap(self.1, other.1)),
        ensures
            distance == gap(self.0, other.0).add_spec(gap(self.1, other.1)),
    {
        let x = self.0.max(other.0) - self.0.min(other.0);
        let y = self.1.max(other.1) - self.1.min(other.1);
        x + y
    }

    /// Dot product (magnitude) of two vectors
    pub fn dot(&self, other: Self) -> (product: T)
        requires
            obeys_arithmetic::<T>(),
            self.0.mul_req(other.0),
            self.1.mul_req(other.1),
            self.0.mul_spec(other.0).add_req(self.1.mul_spec(other.1)),
        ensures
            product == self.0.mul_spec(other.0).add_spec(self.1.mul_spec(other.1)),
    {
        self.0 * other.0 + self.1 * other.1
    }

    /// Convert to a 3D vector with normal axis set to 0.
    /// 2D points will retain relative position to each other.
    pub fn as_vec3d(&self, normal: Axis) -> (lifted: Vec3D<T>)
        ensures
            match normal {
                Axis::X => call_ensures(T::default, (), lifted.0) && lifted.1 == self.0 && lifted.2
                    == self.1,
                Axis::Y => lifted.0 == self.0 && call_ensures(T::default, (), lifted.1) && lifted.2
                    == self.1,
                Axis::Z => lifted.0 == self.0 && lifted.1 == self.1 && call_ensures(
                    T::default,
                    (),
                    lifted.2,
                ),
            },
    {
        match normal {
            Axis::X => Vec3D(T::default(), self.0, self.1),
            Axis::Y => Vec3D(self.0, T::default(), self.1),
            Axis::Z => Vec3D(self.0, self.1, T::default()),
        }
    }

    /// Map the vector to another vector with a different interior type based on a closure
    pub fn map<U, F: Fn(T) -> U>(&self, f: F) -> (mapped: Vec2D<U>)
        requires
            call_requires(f, (self.0,)),
            call_requires(f, (self.1,)),
        ensures
            call_ensures(f, (self.0,), mapped.0),
            call_ensures(f, (self.1,), mapped.1),
    {
        let x = self.0;
        let y = self.1;
        Vec2D(f(x), f(y))
    }

    /// Map the vector to another vector with a different interior type based on a closure
    pub fn map_into<U: From<T>>(&self) -> (mapped: Vec2D<U>)
        ensures
            call_ensures(U::from, (self.0,), mapped.0),
            call_ensures(U::from, (self.1,), mapped.1),
    {
        let x = self.0;
        let y = self.1;
        Vec2D(U::from(x), U::from(y))
    }
}

impl<T: From<U>, U> From<(U, U)> for Vec2D<T> {
    /// Convert from a tuple to Vec2D while changing numeric types
    fn from(value: (U, U)) -> (converted: Self)
        ensures
            call_ensures(T::from, (value.0,), converted.0),
            call_ensures(T::from, (value.1,), converted.1),
    {
        Vec2D(T::from(value.0), T::from(value.1))
    }
}

impl<T: From<U>, U> FromSpecImpl<(U, U)> for Vec2D<T> {
    open spec fn obeys_from_spec() -> bool {
        T::obeys_from_spec()
    }

    open spec fn from_spec(v: (U, U)) -> Self {
        Vec2D(T::from_spec(v.0), T::from_spec(v.1))
    }
}

impl<T: Copy + Clone> From<&(T, T)> for Vec2D<T> {
    /// Convert from reference tuple to Vec2D.
    fn from(value: &(T, T)) -> Self {
        Vec2D(value.0, value.1)
    }
}

impl<T: Copy + Clone> FromSpecImpl<&(T, T)> for Vec2D<T> {
    open spec fn obeys_from_spec() -> bool {
        true
    }

    open spec fn from_spec(v: &(T, T)) -> Self {
        Vec2D(v.0, v.1)
    }
}

/// The step that a direction character stands for, as rows and columns, if it
/// stands for one: `N`, `U`, `^` go one row back, `S`, `D`, `v` one row on,
/// `E`, `R`, `<` one column back, `W`, `L`, `>` one column on.
pub open spec fn step_of(direction: char) -> Option<(i8, i8)> {
    if direction == 'N' || direction == 'U' || direction == '^' {
        Some((-1i8, 0i8))
    } else if direction == 'S' || direction == 'D' || direction == 'v' {
        Some((1i8, 0i8))
    } else if direction == 'E' || direction == 'R' || direction == '<' {
        Some((0i8, -1i8))
    } else if direction == 'W' || direction == 'L' || direction == '>' {
        Some((0i8, 1i8))
    } else {
        None
    }
}

/// The message for a character that stands for no direction.
pub open spec fn unknown_direction(direction: char) -> Seq<char> {
    "Unknown direction "@.push(direction)
}

/// Builds the message for a character that stands for no direction.
fn unknown_direction_message(direction: char) -> (message: String)
    ensures
        message@ == unknown_direction(direction),
{
    let mut chars = crate::reader::chars_of("Unknown direction ");
    chars.push(direction);
    crate::reader::string_of(&chars)
}

impl<T: From<i8>> TryFrom<char> for Vec2D<T> {
    type Error = String;

    /// Convert common character to Vec2D.
    fn try_from(value: char) -> (step: Result<Self, String>)
        ensures
            step is Ok <==> step_of(value) is Some,
            step matches Ok(v) ==> {
                &&& call_ensures(T::from, (step_of(value).unwrap().0,), v.0)
                &&& call_ensures(T::from, (step_of(value).unwrap().1,), v.1)
            },
            step matches Err(message) ==> message@ == unknown_direction(value),
    {
        let one: T = T::from(1i8);
        let minus_one: T = T::from(-1i8);
        let zero: T = T::from(0i8);
        match value {
            'N' | 'U' | '^' => Ok(Vec2D(minus_one, zero)),
            'S' | 'D' | 'v' => Ok(Vec2D(one, zero)),
            'E' | 'R' | '<' => Ok(Vec2D(zero, minus_one)),
            'W' | 'L' | '>' => Ok(Vec2D(zero, one)),
            d => Err(unknown_direction_message(d)),
        }
    }
}

impl<T: From<i8>> TryFromSpecImpl<char> for Vec2D<T> {
    open spec fn obeys_try_from_spec() -> bool {
        false
    }

    open spec fn try_from_spec(v: char) -> Result<Self, String> {
        arbitrary()
    }
}

impl<T: Copy + Add<Output = T>> Add for Vec2D<T> {
    type Output = Vec2D<T>;

    fn add(self, rhs: Self) -> Self::Output {
        Vec2D(self.0 + rhs.0, self.1 + rhs.1)
    }
}

impl<T: Copy + Add<Output = T>> AddSpecImpl for Vec2D<T> {
    open spec fn obeys_add_spec() -> bool {
        T::obeys_add_spec()
    }

    open spec fn add_req(self, rhs: Self) -> bool {
        self.0.add_req(rhs.0) && self.1.add_req(rhs.1)
    }

    open spec fn add_spec(self, rhs: Self) -> Self::Output {
        Vec2D(self.0.add_spec(rhs.0), self.1.add_spec(rhs.1))
    }
}

impl<T: Copy + Add<Output = T>> Add for &Vec2D<T> {
    type Output = Vec2D<T>;

    fn add(self, rhs: Self) -> Self::Output {
        Vec2D(self.0 + rhs.0, self.1 + rhs.1)
    }
}

impl<T: Copy + Add<Output = T>> AddSpecImpl for &Vec2D<T> {
    open spec fn obeys_add_spec() -> bool {
        T::obeys_add_spec()
    }

    open spec fn add_req(self, rhs: Self) -> bool {
        self.0.add_req(rhs.0) && self.1.add_req(rhs.1)
    }

    open spec fn add_spec(self, rhs: Self) -> Self::Output {
        Vec2D(self.0.add_spec(rhs.0), self.1.add_spec(rhs.1))
    }
}

impl<T: Copy + Sub<Output = T>> Sub for Vec2D<T> {
    type Output = Vec2D<T>;

    fn sub(self, rhs: Self) -> Self::Output {
        Vec2D(self.0 - rhs.0, self.1 - rhs.1)
    }
}

impl<T: Copy + Sub<Output = T>> SubSpecImpl for Vec2D<T> {
    open spec fn obeys_sub_spec() -> bool {
        T::obeys_sub_spec()
    }

    open spec fn sub_req(self, rhs: Self) -> bool {
        self.0.sub_req(rhs.0) && self.1.sub_req(rhs.1)
    }

    open spec fn sub_spec(self, rhs: Self) -> Self::Output {
        Vec2D(self.0.sub_spec(rhs.0), self.1.sub_spec(rhs.1))
    }
}

impl<T: Copy + Sub<Output = T>> Sub for &Vec2D<T> {
    type Output = Vec2D<T>;

    fn sub(self, rhs: Self) -> Self::Output {
        Vec2D(self.0 - rhs.0, self.1 - rhs.1)
    }
}

impl<T: Copy + Sub<Output = T>> SubSpecImpl for &Vec2D<T> {
    open spec fn obeys_sub_spec() -> bool {
        T::obeys_sub_spec()
    }

    open spec fn sub_req(self, rhs: Self) -> bool {
        self.0.sub_req(rhs.0) && self.1.sub_req(rhs.1)
    }

    open spec fn sub_spec(self, rhs: Self) -> Self::Output {
        Vec2D(self.0.sub_spec(rhs.0), self.1.sub_spec(rhs.1))
    }
}

} // verus!
