//! Lighting: how brightly a surface shows under a light from one direction.
//!
//! The brightness of a surface is the cosine of the angle between the light
//! and the normal of the surface, taken as the fraction of two whole numbers,
//! and no less than nothing and no more than all. A colour under a brightness
//! has each of its channels scaled by that fraction and rounded down.

use crate::color::{blue, channels, green, red};
use crate::vector3d::Vec3i;
use vstd::prelude::*;

verus! {

/// The dot product of `a` and `b`.
pub open spec fn dot(a: Vec3i, b: Vec3i) -> int {
    a.x * b.x + a.y * b.y + a.z * b.z
}

/// Whether `r` is the square root of `n`, rounded down.
pub open spec fn is_root(n: int, r: int) -> bool {
    0 <= r && r * r <= n < (r + 1) * (r + 1)
}

/// The square root of `n`, rounded down.
pub open spec fn root(n: int) -> int {
    choose|r: int| is_root(n, r)
}

/// A number has only one square root rounded down.
pub proof fn lemma_root(n: int, r: int)
    requires
        is_root(n, r),
    ensures
        root(n) == r,
{
    let c = root(n);
    if c < r {
        assert((c + 1) * (c + 1) <= r * r) by (nonlinear_arith)
            requires
                0 <= c + 1 <= r,
        ;
    } else if r < c {
        assert((r + 1) * (r + 1) <= c * c) by (nonlinear_arith)
            requires
                0 <= r + 1 <= c,
        ;
    }
}

/// A brightness: `lit` parts of `full`.
#[derive(Copy, Clone, Debug, PartialEq, Eq)]
pub struct Level {
    pub lit: u64,
    pub full: u64,
}

/// The length of `light` times the length of `normal`, rounded down.
pub open spec fn reach(light: Vec3i, normal: Vec3i) -> int {
    root(dot(light, light) * dot(normal, normal))
}

/// The brightness of a surface that faces along `normal` under a light along
/// `light`: their dot product over the product of their lengths, nothing
/// where they point apart or one of them has no length, and all where the
/// rounding would give more.
pub open spec fn level(light: Vec3i, normal: Vec3i) -> Level {
    let full = reach(light, normal);
    let lit = dot(light, normal);
    if full <= 0 || lit <= 0 {
        Level { lit: 0, full: 1 }
    } else if lit >= full {
        Level { lit: 1, full: 1 }
    } else {
        Level { lit: lit as u64, full: full as u64 }
    }
}

/// The channel `c` under the brightness `level`.
pub open spec fn dimmed(c: u8, level: Level) -> int {
    (c * level.lit) / (level.full as int)
}

/// The colour `color` under the brightness `level`.
pub open spec fn shaded(color: i32, level: Level) -> i32 {
    (dimmed(blue(color), level) + 256 * dimmed(green(color), level) + 65536 * dimmed(
        red(color),
        level,
    )) as i32
}

/// A channel under a brightness is no brighter than the channel.
pub proof fn lemma_dimmed(c: u8, level: Level)
    requires
        level.lit <= level.full,
        0 < level.full,
    ensures
        0 <= dimmed(c, level) <= c,
        level.lit == level.full ==> dimmed(c, level) == c,
        level.lit == 0 ==> dimmed(c, level) == 0,
{
    let full = level.full as int;
    let lit = level.lit as int;
    assert(0 <= c * lit <= c * full) by (nonlinear_arith)
        requires
            0 <= lit <= full,
            0 <= c,
    ;
    vstd::arithmetic::div_mod::lemma_div_is_ordered(0, c * lit, full);
    vstd::arithmetic::div_mod::lemma_div_is_ordered(c * lit, c * full, full);
    vstd::arithmetic::div_mod::lemma_div_multiples_vanish(c as int, full);
    assert(c * full == full * c) by (nonlinear_arith);
    assert(0int / full == 0);
    if lit == 0 {
        assert(c * lit == 0) by (nonlinear_arith)
            requires
                lit == 0,
        ;
    }
}

/// The square root of `n`, rounded down.
pub fn isqrt(n: u128) -> (r: u128)
    ensures
        r == root(n as int),
        is_root(n as int, r as int),
{
    let mut lo: u128 = 0;
    let mut hi: u128 = 0x1_0000_0000_0000_0000;
    assert(n < hi * hi) by (nonlinear_arith)
        requires
            hi == 0x1_0000_0000_0000_0000,
            n <= u128::MAX,
    ;
    while hi - lo > 1
        invariant
            lo < hi <= 0x1_0000_0000_0000_0000,
            lo * lo <= n < hi * hi,
        decreases hi - lo,
    {
        let mid = lo + (hi - lo) / 2;
        assert(mid * mid <= 0xffff_ffff_ffff_ffff * 0xffff_ffff_ffff_ffff) by (nonlinear_arith)
            requires
                mid <= 0xffff_ffff_ffff_ffff,
        ;
        if mid * mid <= n {
            lo = mid;
        } else {
            hi = mid;
        }
    }
    proof {
        lemma_root(n as int, lo as int);
    }
    lo
}

/// The dot product of `a` and `b`.
fn dot_product(a: Vec3i, b: Vec3i) -> (r: i128)
    ensures
        r == dot(a, b),
        -0xc000_0000_0000_0000 <= r <= 0xc000_0000_0000_0000,
{
    assert(forall|p: int, q: int|
        -0x8000_0000 <= p <= 0x8000_0000 && -0x8000_0000 <= q <= 0x8000_0000 ==> -0x4000_0000_0000_0000
            <= #[trigger] (p * q) <= 0x4000_0000_0000_0000) by (nonlinear_arith);
    let x = (a.x as i128) * (b.x as i128);
    let y = (a.y as i128) * (b.y as i128);
    let z = (a.z as i128) * (b.z as i128);
    x + y + z
}

/// The brightness of a surface that faces along `normal` under a light along `light`.
pub fn light_level(light: Vec3i, normal: Vec3i) -> (r: Level)
    ensures
        r == level(light, normal),
        r.lit <= r.full,
        0 < r.full,
{
    let lit = dot_product(light, normal);
    let l2 = dot_product(light, light);
    let n2 = dot_product(normal, normal);
    assert(0 <= l2 && 0 <= n2) by (nonlinear_arith)
        requires
            l2 == light.x * light.x + light.y * light.y + light.z * light.z,
            n2 == normal.x * normal.x + normal.y * normal.y + normal.z * normal.z,
    ;
    assert(l2 * n2 <= 0xc000_0000_0000_0000 * 0xc000_0000_0000_0000 && 0 <= l2 * n2)
        by (nonlinear_arith)
        requires
            0 <= l2 <= 0xc000_0000_0000_0000,
            0 <= n2 <= 0xc000_0000_0000_0000,
    ;
    let full = isqrt((l2 as u128) * (n2 as u128));
    proof {
        if full > 0xc000_0000_0000_0000 {
            assert(full * full > 0xc000_0000_0000_0000 * 0xc000_0000_0000_0000)
                by (nonlinear_arith)
                requires
                    full > 0xc000_0000_0000_0000,
            ;
        }
    }
    if full == 0 || lit <= 0 {
        Level { lit: 0, full: 1 }
    } else if lit as u128 >= full {
        Level { lit: 1, full: 1 }
    } else {
        Level { lit: lit as u64, full: full as u64 }
    }
}

/// One channel under the brightness `level`.
fn dim(c: u8, level: Level) -> (r: i32)
    requires
        level.lit <= level.full,
        0 < level.full,
    ensures
        r == dimmed(c, level),
        0 <= r <= 255,
{
    proof {
        lemma_dimmed(c, level);
    }
    assert(c * level.lit <= 255 * 0xffff_ffff_ffff_ffff) by (nonlinear_arith)
        requires
            c <= 255,
            level.lit <= 0xffff_ffff_ffff_ffff,
    ;
    (((c as u128) * (level.lit as u128)) / (level.full as u128)) as i32
}

/// The colour `color` under the brightness `level`: each channel scaled by it.
pub fn get_gray(color: i32, level: Level) -> (r: i32)
    requires
        level.lit <= level.full,
        0 < level.full,
    ensures
        r == shaded(color, level),
        0 <= r <= 0xff_ffff,
{
    let (red, green, blue) = channels(color);
    let mut result = dim(blue, level);
    result += dim(green, level) * 256;
    result += dim(red, level) * 256 * 256;
    return result;
}

} // verus!
