//! Three-component vectors over a numeric type.

use std::ops::{Add, BitXor, Index, IndexMut, Mul, Sub};
use vstd::prelude::*;
use vstd::std_specs::ops::{
    AddSpec, AddSpecImpl, BitXorSpecImpl, MulSpec, MulSpecImpl, SubSpec, SubSpecImpl,
};

verus! {

/// A value with three components `x`, `y` and `z`.
#[derive(Copy, Clone, Debug, PartialEq, Eq, Default)]
pub struct Vector3D<T> {
    pub x: T,
    pub y: T,
    pub z: T,
}

/// A point of the integer lattice.
pub type Vec3i = Vector3D<i32>;

impl<T> Vector3D<T> where T: Copy + Clone {
    /// The vector with the given components.
    pub fn new(x: T, y: T, z: T) -> (v: Vector3D<T>)
        ensures
            v == (Vector3D { x, y, z }),
    {
        Vector3D { x: x, y: y, z: z }
    }

    /// The first component.
    #[inline]
    pub fn x(&self) -> (r: T)
        ensures
            r == self.x,
    {
        self.x
    }

    /// The second component.
    #[inline]
    pub fn y(&self) -> (r: T)
        ensures
            r == self.y,
    {
        self.y
    }

    /// The third component.
    #[inline]
    pub fn z(&self) -> (r: T)
        ensures
            r == self.z,
    {
        self.z
    }
}

impl<T> Vector3D<T> {
    /// The component on axis `i`: 0 is `x`, 1 is `y`, anything else is `z`.
    pub open spec fn axis(self, i: int) -> T {
        if i == 0 {
            self.x
        } else if i == 1 {
            self.y
        } else {
            self.z
        }
    }

    /// This vector with the component on axis `i` replaced by `v`.
    pub open spec fn with_axis(self, i: int, v: T) -> Vector3D<T> {
        if i == 0 {
            Vector3D { x: v, y: self.y, z: self.z }
        } else if i == 1 {
            Vector3D { x: self.x, y: v, z: self.z }
        } else {
            Vector3D { x: self.x, y: self.y, z: v }
        }
    }
}

impl Vector3D<i32> {
    /// The origin of the lattice.
    pub fn zero() -> (v: Vector3D<i32>)
        ensures
            v == (Vector3D { x: 0i32, y: 0i32, z: 0i32 }),
    {
        Vector3D::new(0, 0, 0)
    }
}

impl<T: Add<Output = T>> Add for Vector3D<T> {
    type Output = Vector3D<T>;

    /// The componentwise sum.
    fn add(self, other: Vector3D<T>) -> (r: Vector3D<T>) {
        Vector3D { x: self.x + other.x, y: self.y + other.y, z: self.z + other.z }
    }
}

impl<T: Add<Output = T>> AddSpecImpl for Vector3D<T> {
    open spec fn obeys_add_spec() -> bool {
        T::obeys_add_spec()
    }

    open spec fn add_req(self, rhs: Vector3D<T>) -> bool {
        &&& self.x.add_req(rhs.x)
        &&& self.y.add_req(rhs.y)
        &&& self.z.add_req(rhs.z)
    }

    open spec fn add_spec(self, rhs: Vector3D<T>) -> Vector3D<T> {
        Vector3D {
            x: self.x.add_spec(rhs.x),
            y: self.y.add_spec(rhs.y),
            z: self.z.add_spec(rhs.z),
        }
    }
}

impl<T: Sub<Output = T>> Sub for Vector3D<T> {
    type Output = Vector3D<T>;

    /// The componentwise difference.
    fn sub(self, other: Vector3D<T>) -> (r: Vector3D<T>) {
        Vector3D { x: self.x - other.x, y: self.y - other.y, z: self.z - other.z }
    }
}

impl<T: Sub<Output = T>> SubSpecImpl for Vector3D<T> {
    open spec fn obeys_sub_spec() -> bool {
        T::obeys_sub_spec()
    }

    open spec fn sub_req(self, rhs: Vector3D<T>) -> bool {
        &&& self.x.sub_req(rhs.x)
        &&& self.y.sub_req(rhs.y)
        &&& self.z.sub_req(rhs.z)
    }

    open spec fn sub_spec(self, rhs: Vector3D<T>) -> Vector3D<T> {
        Vector3D {
            x: self.x.sub_spec(rhs.x),
            y: self.y.sub_spec(rhs.y),
            z: self.z.sub_spec(rhs.z),
        }
    }
}

impl<T: Mul<Output = T> + Sub<Output = T> + Copy> BitXor for Vector3D<T> {
    type Output = Vector3D<T>;

    /// The cross product.
    fn bitxor(self, other: Vector3D<T>) -> (r: Vector3D<T>) {
        Vector3D::new(
            self.y * other.z - self.z * other.y,
            self.z * other.x - self.x * other.z,
            self.x * other.y - self.y * other.x,
        )
    }
}

impl<T: Mul<Output = T> + Sub<Output = T> + Copy> BitXorSpecImpl for Vector3D<T> {
    open spec fn obeys_bitxor_spec() -> bool {
        T::obeys_mul_spec() && T::obeys_sub_spec()
    }

    open spec fn bitxor_req(self, rhs: Vector3D<T>) -> bool {
        &&& T::obeys_mul_spec()
        &&& self.y.mul_req(rhs.z) && self.z.mul_req(rhs.y)
        &&& self.z.mul_req(rhs.x) && self.x.mul_req(rhs.z)
        &&& self.x.mul_req(rhs.y) && self.y.mul_req(rhs.x)
        &&& self.y.mul_spec(rhs.z).sub_req(self.z.mul_spec(rhs.y))
        &&& self.z.mul_spec(rhs.x).sub_req(self.x.mul_spec(rhs.z))
        &&& self.x.mul_spec(rhs.y).sub_req(self.y.mul_spec(rhs.x))
    }

    open spec fn bitxor_spec(self, rhs: Vector3D<T>) -> Vector3D<T> {
        Vector3D {
            x: self.y.mul_spec(rhs.z).sub_spec(self.z.mul_spec(rhs.y)),
            y: self.z.mul_spec(rhs.x).sub_spec(self.x.mul_spec(rhs.z)),
            z: self.x.mul_spec(rhs.y).sub_spec(self.y.mul_spec(rhs.x)),
        }
    }
}

impl<T: Mul<Output = T> + Add<Output = T>> Mul for Vector3D<T> {
    type Output = T;

    /// The dot product.
    fn mul(self, other: Vector3D<T>) -> (r: T) {
        return self.x * other.x + self.y * other.y + self.z * other.z;
    }
}

impl<T: Mul<Output = T> + Add<Output = T>> MulSpecImpl for Vector3D<T> {
    open spec fn obeys_mul_spec() -> bool {
        T::obeys_mul_spec() && T::obeys_add_spec()
    }

    open spec fn mul_req(self, rhs: Vector3D<T>) -> bool {
        &&& T::obeys_mul_spec() && T::obeys_add_spec()
        &&& self.x.mul_req(rhs.x) && self.y.mul_req(rhs.y) && self.z.mul_req(rhs.z)
        &&& self.x.mul_spec(rhs.x).add_req(self.y.mul_spec(rhs.y))
        &&& self.x.mul_spec(rhs.x).add_spec(self.y.mul_spec(rhs.y)).add_req(
            self.z.mul_spec(rhs.z),
        )
    }

    open spec fn mul_spec(self, rhs: Vector3D<T>) -> T {
        self.x.mul_spec(rhs.x).add_spec(self.y.mul_spec(rhs.y)).add_spec(self.z.mul_spec(rhs.z))
    }
}

impl<T: Mul<Output = T> + Copy> Mul<T> for Vector3D<T> {
    type Output = Vector3D<T>;

    /// Every component multiplied by `other`.
    fn mul(self, other: T) -> (r: Vector3D<T>) {
        Vector3D { x: self.x * other, y: self.y * other, z: self.z * other }
    }
}

impl<T: Mul<Output = T> + Copy> MulSpecImpl<T> for Vector3D<T> {
    open spec fn obeys_mul_spec() -> bool {
        T::obeys_mul_spec()
    }

    open spec fn mul_req(self, rhs: T) -> bool {
        &&& self.x.mul_req(rhs)
        &&& self.y.mul_req(rhs)
        &&& self.z.mul_req(rhs)
    }

    open spec fn mul_spec(self, rhs: T) -> Vector3D<T> {
        Vector3D { x: self.x.mul_spec(rhs), y: self.y.mul_spec(rhs), z: self.z.mul_spec(rhs) }
    }
}

impl<T> Index<usize> for Vector3D<T> {
    type Output = T;

    /// The component on axis `index`, which is 0, 1 or 2.
    fn index(&self, index: usize) -> (r: &T)
        ensures
            *r == self.axis(index as int),
    {
        if index == 0 {
            &self.x
        } else if index == 1 {
            &self.y
        } else {
            &self.z
        }
    }
}

impl<T> vstd::std_specs::core::IndexSpecImpl<usize> for Vector3D<T> {
    open spec fn index_req(&self, index: &usize) -> bool {
        *index < 3
    }
}

impl<T> IndexMut<usize> for Vector3D<T> {
    /// The place of the component on axis `index`, which is 0, 1 or 2.
    fn index_mut(&mut self, index: usize) -> (r: &mut T)
        ensures
            *r == old(self).axis(index as int),
            *final(self) == old(self).with_axis(index as int, *final(r)),
    {
        if index == 0 {
            &mut self.x
        } else if index == 1 {
            &mut self.y
        } else {
            &mut self.z
        }
    }
}

} // verus!
