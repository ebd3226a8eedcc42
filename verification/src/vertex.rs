//! Corners of a triangle with what is carried across it: a position on the
//! screen, a place in the texture and a normal, each a lattice point, and the
//! blending of two corners in exact arithmetic.

use crate::vector3d::{Vec3i, Vector3D};
use std::ops::{Add, Mul, Sub};
use vstd::prelude::*;
use vstd::std_specs::ops::{AddSpec, MulSpec, SubSpec};

verus! {

/// One corner of a triangle.
#[derive(Copy, Clone, Debug, PartialEq, Eq, Default)]
pub struct Vertex {
    /// Where the corner lies on the screen: column, row and depth.
    pub pos: Vec3i,
    /// Where the corner lies in the texture: column and row.
    pub uv: Vec3i,
    /// The direction in which the surface faces at the corner.
    pub norm: Vec3i,
}

impl Sub for Vertex {
    type Output = Vertex;

    /// The difference, field by field.
    fn sub(self, other: Vertex) -> (r: Vertex) {
        Vertex { pos: self.pos - other.pos, uv: self.uv - other.uv, norm: self.norm - other.norm }
    }
}

impl vstd::std_specs::ops::SubSpecImpl for Vertex {
    open spec fn obeys_sub_spec() -> bool {
        true
    }

    open spec fn sub_req(self, rhs: Vertex) -> bool {
        &&& SubSpec::sub_req(self.pos, rhs.pos)
        &&& SubSpec::sub_req(self.uv, rhs.uv)
        &&& SubSpec::sub_req(self.norm, rhs.norm)
    }

    open spec fn sub_spec(self, rhs: Vertex) -> Vertex {
        Vertex {
            pos: SubSpec::sub_spec(self.pos, rhs.pos),
            uv: SubSpec::sub_spec(self.uv, rhs.uv),
            norm: SubSpec::sub_spec(self.norm, rhs.norm),
        }
    }
}

impl Add for Vertex {
    type Output = Vertex;

    /// The sum, field by field.
    fn add(self, other: Vertex) -> (r: Vertex) {
        Vertex { pos: self.pos + other.pos, uv: self.uv + other.uv, norm: self.norm + other.norm }
    }
}

impl vstd::std_specs::ops::AddSpecImpl for Vertex {
    open spec fn obeys_add_spec() -> bool {
        true
    }

    open spec fn add_req(self, rhs: Vertex) -> bool {
        &&& AddSpec::add_req(self.pos, rhs.pos)
        &&& AddSpec::add_req(self.uv, rhs.uv)
        &&& AddSpec::add_req(self.norm, rhs.norm)
    }

    open spec fn add_spec(self, rhs: Vertex) -> Vertex {
        Vertex {
            pos: AddSpec::add_spec(self.pos, rhs.pos),
            uv: AddSpec::add_spec(self.uv, rhs.uv),
            norm: AddSpec::add_spec(self.norm, rhs.norm),
        }
    }
}

impl Mul<i32> for Vertex {
    type Output = Vertex;

    /// Every field multiplied by `other`.
    fn mul(self, other: i32) -> (r: Vertex) {
        Vertex { pos: self.pos * other, uv: self.uv * other, norm: self.norm * other }
    }
}

impl vstd::std_specs::ops::MulSpecImpl<i32> for Vertex {
    open spec fn obeys_mul_spec() -> bool {
        true
    }

    open spec fn mul_req(self, rhs: i32) -> bool {
        &&& MulSpec::mul_req(self.pos, rhs)
        &&& MulSpec::mul_req(self.uv, rhs)
        &&& MulSpec::mul_req(self.norm, rhs)
    }

    open spec fn mul_spec(self, rhs: i32) -> Vertex {
        Vertex {
            pos: MulSpec::mul_spec(self.pos, rhs),
            uv: MulSpec::mul_spec(self.uv, rhs),
            norm: MulSpec::mul_spec(self.norm, rhs),
        }
    }
}

/// The number that lies `num` parts of `den` of the way from `a` to `b`,
/// rounded towards `a`; `a` itself where `den` is 0.
pub open spec fn lerp(a: int, b: int, num: int, den: int) -> int {
    if den == 0 {
        a
    } else if b >= a {
        a + ((b - a) * num) / den
    } else {
        a - ((a - b) * num) / den
    }
}

/// The point that lies `num` parts of `den` of the way from `a` to `b`, each
/// coordinate taken by itself.
pub open spec fn lerp_point(a: Vec3i, b: Vec3i, num: int, den: int) -> Vec3i {
    Vector3D {
        x: lerp(a.x as int, b.x as int, num, den) as i32,
        y: lerp(a.y as int, b.y as int, num, den) as i32,
        z: lerp(a.z as int, b.z as int, num, den) as i32,
    }
}

/// The corner that lies `num` parts of `den` of the way from `a` to `b`:
/// position, place in the texture and normal blended alike.
pub open spec fn lerp_vertex(a: Vertex, b: Vertex, num: int, den: int) -> Vertex {
    Vertex {
        pos: lerp_point(a.pos, b.pos, num, den),
        uv: lerp_point(a.uv, b.uv, num, den),
        norm: lerp_point(a.norm, b.norm, num, den),
    }
}

/// A blend of two numbers lies between them: at the first where no part of
/// the way is gone, at the second where all of it is.
pub proof fn lemma_lerp_between(a: int, b: int, num: int, den: int)
    requires
        0 <= num <= den,
    ensures
        a <= b ==> a <= lerp(a, b, num, den) <= b,
        b <= a ==> b <= lerp(a, b, num, den) <= a,
        num == 0 ==> lerp(a, b, num, den) == a,
        num == den && den > 0 ==> lerp(a, b, num, den) == b,
{
    if den > 0 {
        let d = if b >= a {
            b - a
        } else {
            a - b
        };
        assert(0 <= d * num <= d * den) by (nonlinear_arith)
            requires
                0 <= num <= den,
                0 <= d,
        ;
        vstd::arithmetic::div_mod::lemma_div_is_ordered(0, d * num, den);
        vstd::arithmetic::div_mod::lemma_div_is_ordered(d * num, d * den, den);
        vstd::arithmetic::div_mod::lemma_div_multiples_vanish(d, den);
        assert(d * den == den * d) by (nonlinear_arith);
        assert(0int / den == 0);
        if num == 0 {
            assert(d * num == 0) by (nonlinear_arith)
                requires
                    num == 0,
            ;
        }
    }
}

/// Along an axis on which two numbers lie as far apart as the way is long,
/// each part of the way is one unit.
pub proof fn lemma_lerp_unit(a: int, b: int, num: int)
    requires
        a <= b,
        0 <= num <= b - a,
    ensures
        lerp(a, b, num, b - a) == a + num,
{
    if b > a {
        vstd::arithmetic::div_mod::lemma_div_multiples_vanish(num, b - a);
    }
}

/// A number between two numbers of 32 bits.
fn mix(a: i32, b: i32, num: u32, den: u32) -> (r: i32)
    requires
        num <= den,
    ensures
        r == lerp(a as int, b as int, num as int, den as int),
{
    proof {
        lemma_lerp_between(a as int, b as int, num as int, den as int);
    }
    if den == 0 {
        a
    } else if b >= a {
        let d = (b as i64 - a as i64) as u64;
        assert(d * num <= 0xffff_ffff * 0xffff_ffff) by (nonlinear_arith)
            requires
                d <= 0xffff_ffff,
                num <= 0xffff_ffff,
        ;
        (a as i64 + ((d * (num as u64)) / (den as u64)) as i64) as i32
    } else {
        let d = (a as i64 - b as i64) as u64;
        assert(d * num <= 0xffff_ffff * 0xffff_ffff) by (nonlinear_arith)
            requires
                d <= 0xffff_ffff,
                num <= 0xffff_ffff,
        ;
        (a as i64 - ((d * (num as u64)) / (den as u64)) as i64) as i32
    }
}

/// A point between two points.
fn mix_point(a: Vec3i, b: Vec3i, num: u32, den: u32) -> (r: Vec3i)
    requires
        num <= den,
    ensures
        r == lerp_point(a, b, num as int, den as int),
{
    Vector3D { x: mix(a.x, b.x, num, den), y: mix(a.y, b.y, num, den), z: mix(a.z, b.z, num, den) }
}

impl Vertex {
    /// The corner that lies `num` parts of `den` of the way from `self` to `other`.
    pub fn blend(self, other: Vertex, num: u32, den: u32) -> (r: Vertex)
        requires
            num <= den,
        ensures
            r == lerp_vertex(self, other, num as int, den as int),
    {
        Vertex {
            pos: mix_point(self.pos, other.pos, num, den),
            uv: mix_point(self.uv, other.uv, num, den),
            norm: mix_point(self.norm, other.norm, num, den),
        }
    }
}

/// Three corners from the lowest row number up. Corners on one row keep the
/// order in which they are given.
pub open spec fn by_height(a: Vertex, b: Vertex, c: Vertex) -> (Vertex, Vertex, Vertex) {
    let (a1, b1) = if a.pos.y > b.pos.y {
        (b, a)
    } else {
        (a, b)
    };
    let (b2, c2) = if b1.pos.y > c.pos.y {
        (c, b1)
    } else {
        (b1, c)
    };
    let (a3, b3) = if a1.pos.y > b2.pos.y {
        (b2, a1)
    } else {
        (a1, b2)
    };
    (a3, b3, c2)
}

/// Where the corner given at place `i` of three stands once the three are
/// ordered by row: behind every corner on a lower row and behind every corner
/// given before it on its own row.
pub open spec fn rank(rows: (int, int, int), i: int) -> int {
    let row = |k: int|
        if k == 0 {
            rows.0
        } else if k == 1 {
            rows.1
        } else {
            rows.2
        };
    let ahead = |k: int|
        if k != i && (row(k) < row(i) || (row(k) == row(i) && k < i)) {
            1int
        } else {
            0int
        };
    ahead(0) + ahead(1) + ahead(2)
}

/// Ordering by row loses no corner, leaves the rows rising, and keeps corners
/// on one row in the order in which they were given.
pub proof fn lemma_by_height(a: Vertex, b: Vertex, c: Vertex)
    ensures
        ({
            let sorted = by_height(a, b, c);
            let rows = (a.pos.y as int, b.pos.y as int, c.pos.y as int);
            let at = |k: int|
                if k == 0 {
                    sorted.0
                } else if k == 1 {
                    sorted.1
                } else {
                    sorted.2
                };
            &&& sorted.0.pos.y <= sorted.1.pos.y <= sorted.2.pos.y
            &&& at(rank(rows, 0)) == a
            &&& at(rank(rows, 1)) == b
            &&& at(rank(rows, 2)) == c
        }),
{
}

/// The corners `v` from the lowest row number up.
pub fn sort_by_height(v: [Vertex; 3]) -> (r: [Vertex; 3])
    ensures
        (r@[0], r@[1], r@[2]) == by_height(v@[0], v@[1], v@[2]),
{
    let mut a = v[0];
    let mut b = v[1];
    let mut c = v[2];
    if a.pos.y > b.pos.y {
        std::mem::swap(&mut a, &mut b);
    }
    if b.pos.y > c.pos.y {
        std::mem::swap(&mut b, &mut c);
    }
    if a.pos.y > b.pos.y {
        std::mem::swap(&mut a, &mut b);
    }
    [a, b, c]
}

} // verus!
