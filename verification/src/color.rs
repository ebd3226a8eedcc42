//! Colours: red, green and blue channels of eight bits each, packed into one
//! number with red in bits 16 to 23, green in bits 8 to 15 and blue in bits 0
//! to 7.

use vstd::prelude::*;

verus! {

/// The red channel of `color`: its bits 16 to 23.
pub open spec fn red(color: i32) -> u8 {
    ((color >> 16) & 0xff) as u8
}

/// The green channel of `color`: its bits 8 to 15.
pub open spec fn green(color: i32) -> u8 {
    ((color >> 8) & 0xff) as u8
}

/// The blue channel of `color`: its bits 0 to 7.
pub open spec fn blue(color: i32) -> u8 {
    (color & 0xff) as u8
}

/// Channel `c` of `color`, in the order red, green, blue.
pub open spec fn channel(color: i32, c: int) -> u8 {
    if c == 0 {
        red(color)
    } else if c == 1 {
        green(color)
    } else {
        blue(color)
    }
}

/// A grey level as a colour: the level in each of the three channels.
pub open spec fn grey(level: u8) -> i32 {
    (level + 256 * level + 65536 * level) as i32
}

/// A colour from its blue, green and red channels: red in bits 16 to 23,
/// green in bits 8 to 15, blue in bits 0 to 7.
pub open spec fn bgr(blue: u8, green: u8, red: u8) -> i32 {
    (blue + 256 * green + 65536 * red) as i32
}

/// The three channels of `color`: red, green, blue.
pub fn channels(color: i32) -> (rgb: (u8, u8, u8))
    ensures
        rgb.0 == red(color),
        rgb.1 == green(color),
        rgb.2 == blue(color),
{
    assert((color >> 16) & 0xff <= 0xff) by (bit_vector);
    assert((color >> 8) & 0xff <= 0xff) by (bit_vector);
    assert(color & 0xff <= 0xff) by (bit_vector);
    assert(0 <= (color >> 16) & 0xff) by (bit_vector);
    assert(0 <= (color >> 8) & 0xff) by (bit_vector);
    assert(0 <= color & 0xff) by (bit_vector);
    (((color >> 16) & 0xff) as u8, ((color >> 8) & 0xff) as u8, (color & 0xff) as u8)
}

/// A colour made of three channels holds those three channels.
pub proof fn lemma_channels_of_bgr(b: u8, g: u8, r: u8)
    ensures
        red(bgr(b, g, r)) == r,
        green(bgr(b, g, r)) == g,
        blue(bgr(b, g, r)) == b,
{
    let color = bgr(b, g, r);
    assert(color == b + 256 * g + 65536 * r);
    let wide = color as u32;
    let (b32, g32, r32) = (b as u32, g as u32, r as u32);
    assert(wide == b32 + 256 * g32 + 65536 * r32);
    assert(b32 + 256 * g32 + 65536 * r32 == b32 | (g32 << 8) | (r32 << 16)) by (bit_vector)
        requires
            b32 < 256,
            g32 < 256,
            r32 < 256,
    ;
    assert(((color >> 16) & 0xff) == r as i32 && ((color >> 8) & 0xff) == g as i32 && (color
        & 0xff) == b as i32) by (bit_vector)
        requires
            color as u32 == b32 | (g32 << 8) | (r32 << 16),
            b32 == b as u32,
            g32 == g as u32,
            r32 == r as u32,
    ;
}

} // verus!
