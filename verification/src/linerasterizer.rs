//! Lines between points of the integer lattice.
//!
//! A line from `from` to `to` advances one unit per step along its major axis,
//! the axis on which the two points lie farthest apart. Every other axis gathers
//! its own distance into an error term at each step, and advances one unit
//! whenever that term reaches the distance on the major axis. After `k` steps an
//! axis has therefore moved `k * span / steps` units, rounded down.

use crate::vector3d::{Vec3i, Vector3D};
use std::ops::IndexMut;
use vstd::arithmetic::div_mod::{
    lemma_div_is_ordered, lemma_div_multiples_vanish, lemma_fundamental_div_mod,
    lemma_fundamental_div_mod_converse, lemma_mod_bound,
};
use vstd::prelude::*;

verus! {

/// The number of axes.
pub const SIZE: usize = 3;

/// The distance between `from` and `to` along `axis`.
pub open spec fn span(from: Vec3i, to: Vec3i, axis: int) -> int {
    let d = to.axis(axis) - from.axis(axis);
    if d < 0 {
        -d
    } else {
        d
    }
}

/// The unit step from `from` towards `to` along `axis`: -1 where `to` lies below
/// `from`, else 1.
pub open spec fn direction(from: Vec3i, to: Vec3i, axis: int) -> int {
    if to.axis(axis) - from.axis(axis) < 0 {
        -1
    } else {
        1
    }
}

/// The first axis, in the order 0, 1, 2, on which `from` and `to` lie farthest apart.
pub open spec fn major_axis(from: Vec3i, to: Vec3i) -> int {
    if span(from, to, 0) >= span(from, to, 1) && span(from, to, 0) >= span(from, to, 2) {
        0
    } else if span(from, to, 1) >= span(from, to, 2) {
        1
    } else {
        2
    }
}

/// The number of steps from `from` to `to`: their distance along the major axis.
pub open spec fn steps(from: Vec3i, to: Vec3i) -> int {
    span(from, to, major_axis(from, to))
}

/// How many units the line from `from` to `to` has moved along `axis` after `k` steps.
pub open spec fn advance(from: Vec3i, to: Vec3i, axis: int, k: int) -> int {
    if steps(from, to) == 0 {
        0
    } else {
        (k * span(from, to, axis)) / steps(from, to)
    }
}

/// Where the line from `from` to `to` stands on `axis` after `k` steps.
pub open spec fn coordinate(from: Vec3i, to: Vec3i, axis: int, k: int) -> int {
    if to.axis(axis) - from.axis(axis) < 0 {
        from.axis(axis) - advance(from, to, axis, k)
    } else {
        from.axis(axis) + advance(from, to, axis, k)
    }
}

/// The point that the line from `from` to `to` reaches after `k` steps.
pub open spec fn line_point(from: Vec3i, to: Vec3i, k: int) -> Vec3i {
    Vector3D {
        x: coordinate(from, to, 0, k) as i32,
        y: coordinate(from, to, 1, k) as i32,
        z: coordinate(from, to, 2, k) as i32,
    }
}

/// Every point of the line from `from` to `to`, both ends included.
pub open spec fn path(from: Vec3i, to: Vec3i) -> Seq<Vec3i> {
    Seq::new((steps(from, to) + 1) as nat, |k: int| line_point(from, to, k))
}

/// The major axis is one of the three axes, no axis spans more than it, and no
/// axis before it spans as much.
pub proof fn lemma_major_axis(from: Vec3i, to: Vec3i)
    ensures
        0 <= major_axis(from, to) < 3,
        forall|axis: int| 0 <= axis < 3 ==> 0 <= #[trigger] span(from, to, axis) <= steps(from, to),
        forall|axis: int|
            0 <= axis < major_axis(from, to) ==> #[trigger] span(from, to, axis) < steps(from, to),
{
}

/// One more step adds the axis's distance `s` to `k * s`: the quotient by `m`
/// grows by one exactly when the remainder would reach `m`.
proof fn lemma_next_quotient(k: int, s: int, m: int)
    requires
        0 <= k,
        0 <= s <= m,
        0 < m,
    ensures
        0 <= (k * s) % m < m,
        (k * s) % m + s >= m ==> ((k + 1) * s) / m == (k * s) / m + 1 && ((k + 1) * s) % m == (k
            * s) % m + s - m,
        (k * s) % m + s < m ==> ((k + 1) * s) / m == (k * s) / m && ((k + 1) * s) % m == (k * s)
            % m + s,
{
    let x = k * s;
    let q = x / m;
    let r = x % m;
    lemma_fundamental_div_mod(x, m);
    lemma_mod_bound(x, m);
    assert((k + 1) * s == x + s) by (nonlinear_arith)
        requires
            x == k * s,
    ;
    if r + s >= m {
        assert(x + s == (q + 1) * m + (r + s - m)) by (nonlinear_arith)
            requires
                x == m * q + r,
        ;
        lemma_fundamental_div_mod_converse(x + s, m, q + 1, r + s - m);
    } else {
        assert(x + s == q * m + (r + s)) by (nonlinear_arith)
            requires
                x == m * q + r,
        ;
        lemma_fundamental_div_mod_converse(x + s, m, q, r + s);
    }
}

/// Within the `m` steps of a line an axis of distance `s` moves between 0 and
/// `s` units: none at the start, all `s` at the end.
proof fn lemma_quotient_bounds(k: int, s: int, m: int)
    requires
        0 <= k <= m,
        0 <= s <= m,
        0 < m,
    ensures
        0 <= (k * s) / m <= s,
        k == 0 ==> (k * s) / m == 0,
        k == m ==> (k * s) / m == s,
        s == m ==> (k * s) / m == k,
        s == 0 ==> (k * s) / m == 0,
{
    assert(0 <= k * s <= m * s) by (nonlinear_arith)
        requires
            0 <= k <= m,
            0 <= s,
    ;
    lemma_div_is_ordered(0, k * s, m);
    lemma_div_is_ordered(k * s, m * s, m);
    lemma_div_multiples_vanish(s, m);
    lemma_div_multiples_vanish(k, m);
    assert(k * m == m * k) by (nonlinear_arith);
    assert(0int / m == 0);
    if k == 0 {
        assert(k * s == 0) by (nonlinear_arith)
            requires
                k == 0,
        ;
    }
    if s == 0 {
        assert(k * s == 0) by (nonlinear_arith)
            requires
                s == 0,
        ;
    }
}

/// The quotient `k * s / m` never falls as `k` grows.
proof fn lemma_quotient_grows(j: int, k: int, s: int, m: int)
    requires
        0 <= j <= k,
        0 <= s,
        0 < m,
    ensures
        (j * s) / m <= (k * s) / m,
{
    assert(j * s <= k * s) by (nonlinear_arith)
        requires
            j <= k,
            0 <= s,
    ;
    lemma_div_is_ordered(j * s, k * s, m);
}

/// Along every axis a line stays between its two ends.
pub proof fn lemma_coordinate_between(from: Vec3i, to: Vec3i, axis: int, k: int)
    requires
        0 <= axis < 3,
        0 <= k <= steps(from, to),
    ensures
        0 <= advance(from, to, axis, k) <= span(from, to, axis),
        from.axis(axis) <= to.axis(axis) ==> from.axis(axis) <= coordinate(from, to, axis, k)
            <= to.axis(axis),
        from.axis(axis) >= to.axis(axis) ==> from.axis(axis) >= coordinate(from, to, axis, k)
            >= to.axis(axis),
        i32::MIN <= coordinate(from, to, axis, k) <= i32::MAX,
        line_point(from, to, k).axis(axis) == coordinate(from, to, axis, k),
{
    lemma_major_axis(from, to);
    if steps(from, to) > 0 {
        lemma_quotient_bounds(k, span(from, to, axis), steps(from, to));
        lemma_quotient_bounds(k, span(from, to, 0), steps(from, to));
        lemma_quotient_bounds(k, span(from, to, 1), steps(from, to));
        lemma_quotient_bounds(k, span(from, to, 2), steps(from, to));
    }
}

/// Along every axis a line only ever moves towards `to`.
pub proof fn lemma_coordinate_monotonic(from: Vec3i, to: Vec3i, axis: int, j: int, k: int)
    requires
        0 <= axis < 3,
        0 <= j <= k <= steps(from, to),
    ensures
        from.axis(axis) <= to.axis(axis) ==> line_point(from, to, j).axis(axis) <= line_point(
            from,
            to,
            k,
        ).axis(axis),
        from.axis(axis) >= to.axis(axis) ==> line_point(from, to, j).axis(axis) >= line_point(
            from,
            to,
            k,
        ).axis(axis),
{
    lemma_major_axis(from, to);
    lemma_coordinate_between(from, to, axis, j);
    lemma_coordinate_between(from, to, axis, k);
    if steps(from, to) > 0 {
        lemma_quotient_grows(j, k, span(from, to, axis), steps(from, to));
    }
}

/// A line between two points that agree on an axis never leaves that
/// coordinate, at whatever step.
pub proof fn lemma_level_line(from: Vec3i, to: Vec3i, axis: int, k: int)
    requires
        0 <= axis < 3,
        from.axis(axis) == to.axis(axis),
    ensures
        line_point(from, to, k).axis(axis) == from.axis(axis),
{
    assert(k * 0 == 0) by (nonlinear_arith);
    if steps(from, to) != 0 {
        assert(0int / steps(from, to) == 0) by (nonlinear_arith)
            requires
                steps(from, to) != 0,
        ;
    }
}

/// A line starts at `from` and, after its last step, stands at `to`.
pub proof fn lemma_line_ends(from: Vec3i, to: Vec3i)
    ensures
        0 <= steps(from, to),
        line_point(from, to, 0) == from,
        line_point(from, to, steps(from, to)) == to,
        path(from, to).first() == from,
        path(from, to).last() == to,
{
    lemma_major_axis(from, to);
    let m = steps(from, to);
    if m > 0 {
        lemma_quotient_bounds(0, span(from, to, 0), m);
        lemma_quotient_bounds(0, span(from, to, 1), m);
        lemma_quotient_bounds(0, span(from, to, 2), m);
        lemma_quotient_bounds(m, span(from, to, 0), m);
        lemma_quotient_bounds(m, span(from, to, 1), m);
        lemma_quotient_bounds(m, span(from, to, 2), m);
    }
}

/// How far step `k + 1` of the line from `from` to `to` moves along `axis`.
pub open spec fn stride(from: Vec3i, to: Vec3i, axis: int, k: int) -> int {
    line_point(from, to, k + 1).axis(axis) - line_point(from, to, k).axis(axis)
}

/// Each step of a line moves exactly one unit along the major axis, towards
/// `to`, and along every other axis either not at all or one unit towards `to`.
pub proof fn lemma_line_steps(from: Vec3i, to: Vec3i, k: int)
    requires
        0 <= k < steps(from, to),
    ensures
        stride(from, to, major_axis(from, to), k) == direction(from, to, major_axis(from, to)),
        forall|axis: int|
            0 <= axis < 3 ==> #[trigger] stride(from, to, axis, k) == 0 || stride(from, to, axis, k)
                == direction(from, to, axis),
{
    lemma_major_axis(from, to);
    let m = steps(from, to);
    lemma_quotient_bounds(k, m, m);
    lemma_quotient_bounds(k + 1, m, m);
    assert forall|axis: int| 0 <= axis < 3 implies #[trigger] stride(from, to, axis, k) == 0
        || stride(from, to, axis, k) == direction(from, to, axis) by {
        lemma_next_quotient(k, span(from, to, axis), m);
        lemma_coordinate_between(from, to, axis, k);
        lemma_coordinate_between(from, to, axis, k + 1);
    }
    lemma_coordinate_between(from, to, major_axis(from, to), k);
    lemma_coordinate_between(from, to, major_axis(from, to), k + 1);
}

/// A line takes no step exactly when its two ends are the same point: its path
/// is then that point alone.
pub proof fn lemma_no_steps(from: Vec3i, to: Vec3i)
    ensures
        steps(from, to) == 0 <==> from == to,
        from == to ==> path(from, to) =~= seq![from],
{
    lemma_major_axis(from, to);
    lemma_line_ends(from, to);
    if steps(from, to) == 0 {
        assert(span(from, to, 0) == 0);
        assert(span(from, to, 1) == 0);
        assert(span(from, to, 2) == 0);
    }
}

/// Whether every axis either stays where it is or moves with the major axis at
/// every step: the lines along an axis and the diagonals.
pub open spec fn is_straight(from: Vec3i, to: Vec3i) -> bool {
    forall|axis: int|
        0 <= axis < 3 ==> #[trigger] span(from, to, axis) == 0 || span(from, to, axis) == steps(
            from,
            to,
        )
}

/// The line back from `to` to `from` visits the points of the line from `from`
/// to `to` in reverse order exactly when the line is straight. On any other
/// line the two differ: an axis that moves less than the major axis takes its
/// first unit late on the way out and late again on the way back.
#[verifier::rlimit(40)]
pub proof fn lemma_reverse_line(from: Vec3i, to: Vec3i)
    ensures
        steps(to, from) == steps(from, to),
        is_straight(from, to) <==> path(to, from) == path(from, to).reverse(),
{
    lemma_major_axis(from, to);
    lemma_major_axis(to, from);
    let m = steps(from, to);
    assert(span(to, from, 0) == span(from, to, 0));
    assert(span(to, from, 1) == span(from, to, 1));
    assert(span(to, from, 2) == span(from, to, 2));
    assert(major_axis(to, from) == major_axis(from, to));
    let there = path(from, to);
    let back = path(to, from);
    if is_straight(from, to) {
        assert(span(from, to, 0) == 0 || span(from, to, 0) == m);
        assert(span(from, to, 1) == 0 || span(from, to, 1) == m);
        assert(span(from, to, 2) == 0 || span(from, to, 2) == m);
        assert forall|k: int| 0 <= k <= m implies #[trigger] back[k] == there.reverse()[k] by {
            if m > 0 {
                lemma_quotient_bounds(k, span(from, to, 0), m);
                lemma_quotient_bounds(k, span(from, to, 1), m);
                lemma_quotient_bounds(k, span(from, to, 2), m);
                lemma_quotient_bounds(m - k, span(from, to, 0), m);
                lemma_quotient_bounds(m - k, span(from, to, 1), m);
                lemma_quotient_bounds(m - k, span(from, to, 2), m);
            }
            assert(there.reverse()[k] == there[m - k]);
            assert(back[k] == line_point(to, from, k));
            assert(there[m - k] == line_point(from, to, m - k));
        }
        assert(back =~= there.reverse());
    } else {
        let axis = choose|axis: int|
            0 <= axis < 3 && !(#[trigger] span(from, to, axis) == 0 || span(from, to, axis) == m);
        let s = span(from, to, axis);
        assert(0 < s < m);
        // One step out, the axis has not moved yet.
        assert(s / m == 0) by {
            lemma_fundamental_div_mod_converse(s, m, 0, s);
        }
        assert(1 * s == s) by (nonlinear_arith);
        assert(advance(from, to, axis, 1) == 0);
        // One step short of the way back, it has moved all but one unit.
        assert(((m - 1) * s) / m == s - 1) by {
            assert((m - 1) * s == (s - 1) * m + (m - s)) by (nonlinear_arith);
            lemma_fundamental_div_mod_converse((m - 1) * s, m, s - 1, m - s);
        }
        assert(advance(to, from, axis, m - 1) == s - 1);
        lemma_coordinate_between(from, to, axis, 1);
        lemma_coordinate_between(to, from, axis, m - 1);
        assert(there[1] == line_point(from, to, 1));
        assert(back[m - 1] == line_point(to, from, m - 1));
        assert(there.reverse()[m - 1] == there[1]);
        assert(there[1].axis(axis) == from.axis(axis));
        assert(back[m - 1].axis(axis) != from.axis(axis));
        assert(back[m - 1] != there.reverse()[m - 1]);
    }
}

/// `num::abs` at 64 bits. The contract claims that it returns the magnitude of
/// `value`, for every `value` but the least one, whose negation does not fit.
#[verifier::external_body]
fn magnitude(value: i64) -> (r: i64)
    requires
        value > i64::MIN,
    ensures
        r == if value < 0 {
            -value
        } else {
            value as int
        },
{
    num::abs(value)
}

/// A walk along the line between two lattice points, one step at a time.
pub struct LineRasterizer {
    from: Vec3i,
    to: Vec3i,
    step: Vec3i,
    d: Vector3D<i64>,
    delta: Vector3D<i64>,
    major_axis: usize,
    start: Ghost<Vec3i>,
    taken: Ghost<int>,
}

impl LineRasterizer {
    spec fn axis_inv(self, axis: int) -> bool {
        let a = self.start@;
        let b = self.to;
        let k = self.taken@;
        &&& self.delta.axis(axis) == span(a, b, axis)
        &&& self.step.axis(axis) == direction(a, b, axis)
        &&& self.from.axis(axis) == coordinate(a, b, axis, k)
        &&& steps(a, b) > 0 ==> self.d.axis(axis) == (k * span(a, b, axis)) % steps(a, b)
        &&& steps(a, b) == 0 ==> self.d.axis(axis) == 0
    }

    /// Whether `at` and the error term `d` are, on `axis`, those of the line from
    /// `a` to `b` after `k` steps.
    spec fn stands(at: Vec3i, d: Vector3D<i64>, a: Vec3i, b: Vec3i, axis: int, k: int) -> bool {
        &&& at.axis(axis) == coordinate(a, b, axis, k)
        &&& d.axis(axis) == (k * span(a, b, axis)) % steps(a, b)
    }

    #[verifier::type_invariant]
    spec fn inv(self) -> bool {
        &&& 0 <= self.taken@ <= steps(self.start@, self.to)
        &&& self.major_axis as int == major_axis(self.start@, self.to)
        &&& self.axis_inv(0)
        &&& self.axis_inv(1)
        &&& self.axis_inv(2)
    }

    /// The point at which the walk began.
    pub closed spec fn start(&self) -> Vec3i {
        self.start@
    }

    /// The point at which the walk ends.
    pub closed spec fn end(&self) -> Vec3i {
        self.to
    }

    /// The number of steps taken so far.
    pub closed spec fn taken(&self) -> int {
        self.taken@
    }

    /// The number of steps still to take.
    pub open spec fn remaining(&self) -> int {
        steps(self.start(), self.end()) - self.taken()
    }

    /// The point at which the walk stands.
    pub open spec fn position(&self) -> Vec3i {
        line_point(self.start(), self.end(), self.taken())
    }

    /// A walk from `from` to `to` that stands at `from`.
    pub fn new(from: Vec3i, to: Vec3i) -> (r: LineRasterizer)
        ensures
            r.start() == from,
            r.end() == to,
            r.taken() == 0,
            r.position() == from,
    {
        let n: Vector3D<i64> = Vector3D::new(0, 0, 0);
        let mut delta: Vector3D<i64> = Vector3D::new(0, 0, 0);
        let mut s = from;

        let mut axis: usize = 0;
        let mut max: i64 = 0;
        for i in 0..SIZE
            invariant
                axis < 3,
                i == 0 ==> axis == 0 && max == 0,
                i > 0 ==> axis < i && max == span(from, to, axis as int),
                forall|j: int| 0 <= j < i ==> #[trigger] span(from, to, j) <= max,
                forall|j: int| 0 <= j < axis ==> #[trigger] span(from, to, j) < max,
                0 < i ==> delta.x == span(from, to, 0) && s.x == direction(from, to, 0),
                1 < i ==> delta.y == span(from, to, 1) && s.y == direction(from, to, 1),
                2 < i ==> delta.z == span(from, to, 2) && s.z == direction(from, to, 2),
        {
            let d: i64 = to[i] as i64 - from[i] as i64;
            *s.index_mut(i) = if d < 0 {
                -1
            } else {
                1
            };

            let d = magnitude(d);
            *delta.index_mut(i) = d;
            if d > max {
                max = d;
                axis = i;
            }
        }

        proof {
            assert(span(from, to, 0) <= max && span(from, to, 1) <= max && span(from, to, 2)
                <= max);
            assert(axis as int == major_axis(from, to));
            lemma_line_ends(from, to);
            let m = steps(from, to);
            if m > 0 {
                lemma_quotient_bounds(0, span(from, to, 0), m);
                lemma_quotient_bounds(0, span(from, to, 1), m);
                lemma_quotient_bounds(0, span(from, to, 2), m);
                assert(0int % m == 0);
                assert(0 * span(from, to, 0) == 0 && 0 * span(from, to, 1) == 0 && 0 * span(
                    from,
                    to,
                    2,
                ) == 0);
            }
        }

        LineRasterizer {
            from: from,
            to: to,
            step: s,
            d: n,
            delta: delta,
            major_axis: axis,
            start: Ghost(from),
            taken: Ghost(0),
        }
    }

    /// Whether a step is still to take: whether the walk has not reached its end.
    #[inline]
    pub fn has_next(&mut self) -> (b: bool)
        ensures
            *final(self) == *old(self),
            b == (old(self).remaining() > 0),
            b == (old(self).position() != old(self).end()),
            0 <= old(self).taken() <= steps(old(self).start(), old(self).end()),
    {
        proof {
            use_type_invariant(&*self);
            let a = self.start@;
            let b = self.to;
            lemma_major_axis(a, b);
            lemma_line_ends(a, b);
            lemma_coordinate_between(a, b, 0, self.taken@);
            lemma_coordinate_between(a, b, 1, self.taken@);
            lemma_coordinate_between(a, b, 2, self.taken@);
            if steps(a, b) > 0 {
                lemma_quotient_bounds(self.taken@, steps(a, b), steps(a, b));
            }
        }
        if self.from.x == self.to.x && self.from.y == self.to.y && self.from.z == self.to.z {
            return false;
        }
        return true;
    }

    /// Takes one step, if one is left, and says whether it did.
    #[inline]
    #[verifier::rlimit(40)]
    pub fn next_point(&mut self) -> (b: bool)
        ensures
            b == (old(self).remaining() > 0),
            final(self).start() == old(self).start(),
            final(self).end() == old(self).end(),
            final(self).taken() == old(self).taken() + if b {
                1int
            } else {
                0int
            },
            0 <= final(self).taken() <= steps(final(self).start(), final(self).end()),
    {
        if !self.has_next() {
            return false;
        }
        proof {
            use_type_invariant(&*self);
        }
        let ghost a = self.start@;
        let ghost b = self.to;
        let ghost k = self.taken@;
        let ghost m = steps(a, b);
        let major = self.major_axis;
        let rs_base = self.delta[major];
        let mut at = self.from;
        let mut d = self.d;

        proof {
            lemma_major_axis(a, b);
            lemma_quotient_bounds(k, m, m);
            lemma_quotient_bounds(k + 1, m, m);
            lemma_next_quotient(k, m, m);
            lemma_coordinate_between(a, b, major as int, k + 1);
        }
        *at.index_mut(major) = at[major] + self.step[major];

        for i in 0..SIZE
            invariant
                0 <= k < m,
                m == steps(a, b),
                a == self.start@,
                b == self.to,
                k == self.taken@,
                major < 3,
                major as int == major_axis(a, b),
                rs_base == m,
                self.inv(),
                Self::stands(at, d, a, b, 0, if 0 < i || major == 0 { k + 1 } else { k }),
                Self::stands(at, d, a, b, 1, if 1 < i || major == 1 { k + 1 } else { k }),
                Self::stands(at, d, a, b, 2, if 2 < i || major == 2 { k + 1 } else { k }),
        {
            let rs = self.delta[i];
            proof {
                lemma_major_axis(a, b);
                assert(self.axis_inv(i as int));
                lemma_next_quotient(k, span(a, b, i as int), m);
                lemma_coordinate_between(a, b, i as int, k + 1);
            }
            if rs > 0 && i != major {
                let e = d[i] + rs;
                if e >= rs_base {
                    *d.index_mut(i) = e - rs_base;
                    *at.index_mut(i) = at[i] + self.step[i];
                } else {
                    *d.index_mut(i) = e;
                }
            }
        }

        *self = LineRasterizer {
            from: at,
            to: self.to,
            step: self.step,
            d: d,
            delta: self.delta,
            major_axis: major,
            start: self.start,
            taken: Ghost(k + 1),
        };
        return true;
    }

    /// The point at which the walk stands.
    #[inline]
    pub fn point(&self) -> (p: Vec3i)
        ensures
            p == self.position(),
    {
        proof {
            use_type_invariant(self);
            lemma_coordinate_between(self.start@, self.to, 0, self.taken@);
            lemma_coordinate_between(self.start@, self.to, 1, self.taken@);
            lemma_coordinate_between(self.start@, self.to, 2, self.taken@);
        }
        return self.from;
    }

    /// Takes one step and gives the point reached, or gives nothing at the end
    /// of the walk.
    #[inline]
    pub fn next(&mut self) -> (p: Option<Vec3i>)
        ensures
            final(self).start() == old(self).start(),
            final(self).end() == old(self).end(),
            old(self).remaining() > 0 ==> final(self).taken() == old(self).taken() + 1 && p
                == Some(final(self).position()),
            old(self).remaining() <= 0 ==> final(self).taken() == old(self).taken() && p.is_none(),
    {
        if !self.has_next() {
            None
        } else {
            self.next_point();
            Some(self.point())
        }
    }

    /// Walks to the end and gives the last point reached: the end of the line,
    /// or nothing where no step was left.
    pub fn last(self) -> (p: Option<Vec3i>)
        ensures
            self.remaining() > 0 ==> p == Some(self.end()),
            self.remaining() <= 0 ==> p.is_none(),
    {
        proof {
            use_type_invariant(&self);
        }
        let mut walk = self;
        let mut reached: Option<Vec3i> = None;
        loop
            invariant
                walk.start() == self.start(),
                walk.end() == self.end(),
                self.taken() <= walk.taken() <= steps(self.start(), self.end()),
                walk.taken() == self.taken() ==> reached.is_none(),
                walk.taken() > self.taken() ==> reached == Some(walk.position()),
            ensures
                walk.remaining() <= 0,
            decreases walk.remaining(),
        {
            match walk.next() {
                Some(p) => {
                    reached = Some(p);
                },
                None => {
                    break ;
                },
            }
        }
        proof {
            lemma_line_ends(self.start(), self.end());
        }
        reached
    }
}

} // verus!
