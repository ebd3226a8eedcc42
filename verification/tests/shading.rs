use toyrender::color::channels;
use toyrender::shading::{get_gray, isqrt, light_level, Level};
use toyrender::vector3d::Vec3i;

#[test]
fn square_roots_are_rounded_down() {
    assert_eq!(isqrt(0), 0);
    assert_eq!(isqrt(1), 1);
    assert_eq!(isqrt(2), 1);
    assert_eq!(isqrt(3), 1);
    assert_eq!(isqrt(4), 2);
    assert_eq!(isqrt(15), 3);
    assert_eq!(isqrt(16), 4);
    assert_eq!(isqrt(17), 4);
    assert_eq!(isqrt(1 << 127), 13043817825332782212);
    assert_eq!(isqrt(u128::MAX), 18446744073709551615);
    for n in 0..2000u128 {
        let r = isqrt(n);
        assert!(r * r <= n && n < (r + 1) * (r + 1));
    }
}

#[test]
fn brightness_is_the_cosine() {
    // Light and normal along one line: all the light.
    assert_eq!(light_level(Vec3i::new(0, 0, 1), Vec3i::new(0, 0, 10)), Level { lit: 1, full: 1 });
    // At 45 degrees: 10 over the rounded-down length 14.
    assert_eq!(
        light_level(Vec3i::new(0, 0, 1), Vec3i::new(0, 10, 10)),
        Level { lit: 10, full: 14 }
    );
    assert_eq!(light_level(Vec3i::new(1, 2, 2), Vec3i::new(3, 0, 4)), Level { lit: 11, full: 15 });
    // Turned away, or at a right angle: none.
    assert_eq!(light_level(Vec3i::new(0, 0, -1), Vec3i::new(0, 0, 5)), Level { lit: 0, full: 1 });
    assert_eq!(light_level(Vec3i::new(1, 0, 0), Vec3i::new(0, 1, 0)), Level { lit: 0, full: 1 });
    // No light or no normal: none, and nothing is divided by zero.
    assert_eq!(light_level(Vec3i::new(0, 0, 0), Vec3i::new(1, 1, 1)), Level { lit: 0, full: 1 });
    assert_eq!(light_level(Vec3i::new(1, 1, 1), Vec3i::new(0, 0, 0)), Level { lit: 0, full: 1 });
}

#[test]
fn brightness_of_the_longest_vectors() {
    let longest = Vec3i::new(i32::MIN, i32::MIN, i32::MIN);
    assert_eq!(light_level(longest, longest), Level { lit: 1, full: 1 });
    let other = Vec3i::new(i32::MAX, i32::MAX, i32::MAX);
    assert_eq!(light_level(longest, other), Level { lit: 0, full: 1 });
    let level = light_level(Vec3i::new(i32::MAX, 0, 0), Vec3i::new(i32::MAX, i32::MAX, 0));
    // The cosine of 45 degrees, to nine places.
    assert!(level.lit < level.full);
    assert_eq!((level.lit as u128 * 1_000_000_000) / level.full as u128, 707_106_781);
}

#[test]
fn channels_are_scaled_and_rounded_down() {
    assert_eq!(get_gray(0x00c86432, Level { lit: 1, full: 2 }), 0x643219);
    assert_eq!(get_gray(0x00ffffff, Level { lit: 11, full: 15 }), 0xbbbbbb);
    assert_eq!(get_gray(0x00ffffff, Level { lit: 1, full: 1 }), 0xffffff);
    assert_eq!(get_gray(0x00123456, Level { lit: 0, full: 1 }), 0);
    assert_eq!(get_gray(0x00010203, Level { lit: 1, full: 3 }), 0x000001);
    // Bits above the three channels are dropped.
    assert_eq!(get_gray(-1, Level { lit: 1, full: 1 }), 0xffffff);
    assert_eq!(
        get_gray(0x00806040, Level { lit: u64::MAX - 1, full: u64::MAX }),
        0x7f5f3f
    );
}

#[test]
fn channels_of_a_colour() {
    assert_eq!(channels(0x112233), (0x11, 0x22, 0x33));
    assert_eq!(channels(0), (0, 0, 0));
    assert_eq!(channels(-1), (0xff, 0xff, 0xff));
    assert_eq!(channels(0x7f0000ffu32 as i32), (0x00, 0x00, 0xff));
    assert_eq!(channels(i32::MIN), (0, 0, 0));
}
