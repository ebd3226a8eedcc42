use toyrender::linerasterizer::LineRasterizer;
use toyrender::vector3d::Vec3i;

#[test]
fn test_rasterizer_simple() {
    let v1 = Vec3i::new(0, 5, 10);
    let v2 = Vec3i::new(15, 0, 15);

    let raster = LineRasterizer::new(v1, v2);

    let p = raster.last().unwrap();
    assert_eq!(p, v2);
}

#[test]
fn test_rasterizer_circle() {
    let center = Vec3i::new(450, 450, 30);

    let r = 300.0;
    let step = 0.01;

    for a in 1..((360.0 / step) as i32) {
        let d = a as f32 * step / (2.0 * std::f32::consts::PI);
        let x = center.x() as f32 + r * d.cos();
        let y = center.y() as f32 + r * d.sin();

        let v = Vec3i::new(x as i32, y as i32, center.z());

        let raster = LineRasterizer::new(center, v);
        let p = raster.last().unwrap();
        assert_eq!(p, v);
    }
}

#[test]
fn test_rasterizer_same() {
    let v1 = Vec3i::new(10, 15, 10);
    let v2 = Vec3i::new(10, 15, 10);

    let raster = LineRasterizer::new(v1, v2);

    let p = raster.last();
    assert!(p.is_none());
}

fn walk(from: Vec3i, to: Vec3i) -> Vec<Vec3i> {
    let mut raster = LineRasterizer::new(from, to);
    let mut points = Vec::new();
    while let Some(p) = raster.next() {
        points.push(p);
    }
    points
}

#[test]
fn line_points_follow_the_rounded_down_quotient() {
    let points = walk(Vec3i::new(0, 0, 0), Vec3i::new(5, 2, 0));
    assert_eq!(
        points,
        vec![
            Vec3i::new(1, 0, 0),
            Vec3i::new(2, 0, 0),
            Vec3i::new(3, 1, 0),
            Vec3i::new(4, 1, 0),
            Vec3i::new(5, 2, 0),
        ]
    );
}

#[test]
fn line_in_three_dimensions_with_falling_coordinates() {
    let points = walk(Vec3i::new(3, 3, 3), Vec3i::new(0, 1, -4));
    assert_eq!(
        points,
        vec![
            Vec3i::new(3, 3, 2),
            Vec3i::new(3, 3, 1),
            Vec3i::new(2, 3, 0),
            Vec3i::new(2, 2, -1),
            Vec3i::new(1, 2, -2),
            Vec3i::new(1, 2, -3),
            Vec3i::new(0, 1, -4),
        ]
    );
}

#[test]
fn rasterizer_starts_at_from_and_reports_progress() {
    let from = Vec3i::new(4, 4, 4);
    let to = Vec3i::new(4, 6, 4);
    let mut raster = LineRasterizer::new(from, to);
    assert_eq!(raster.point(), from);
    assert!(raster.has_next());
    assert!(raster.next_point());
    assert_eq!(raster.point(), Vec3i::new(4, 5, 4));
    assert!(raster.next_point());
    assert_eq!(raster.point(), to);
    assert!(!raster.has_next());
    assert!(!raster.next_point());
    assert_eq!(raster.point(), to);
    assert_eq!(raster.next(), None);
}

#[test]
fn same_point_yields_nothing() {
    let p = Vec3i::new(-7, 0, 9);
    let mut raster = LineRasterizer::new(p, p);
    assert!(!raster.has_next());
    assert!(!raster.next_point());
    assert_eq!(raster.next(), None);
    assert_eq!(raster.point(), p);
    assert!(walk(p, p).is_empty());
}

#[test]
fn every_step_moves_one_unit_along_the_major_axis() {
    let ends = [
        (Vec3i::new(0, 0, 0), Vec3i::new(17, 5, -3)),
        (Vec3i::new(10, -4, 2), Vec3i::new(-3, 20, 9)),
        (Vec3i::new(1, 1, 1), Vec3i::new(2, 3, 40)),
        (Vec3i::new(5, 5, 5), Vec3i::new(-5, -5, -5)),
    ];
    for (from, to) in ends {
        let deltas = [
            (to.x - from.x).abs(),
            (to.y - from.y).abs(),
            (to.z - from.z).abs(),
        ];
        let mut major = 0;
        for axis in 1..3 {
            if deltas[axis] > deltas[major] {
                major = axis;
            }
        }
        let points = walk(from, to);
        assert_eq!(points.len() as i32, deltas[major]);
        assert_eq!(*points.last().unwrap(), to);
        let mut previous = from;
        for p in points {
            let moved = [
                (p.x - previous.x).abs(),
                (p.y - previous.y).abs(),
                (p.z - previous.z).abs(),
            ];
            assert_eq!(moved[major], 1);
            for axis in 0..3 {
                assert!(moved[axis] <= 1);
            }
            previous = p;
        }
    }
}

#[test]
fn major_axis_tie_goes_to_the_first_axis() {
    // Both x and y span 2; z spans 1. Whichever of x and y leads, both move at
    // every step, and z moves on the second step only.
    let points = walk(Vec3i::new(0, 0, 0), Vec3i::new(2, -2, 1));
    assert_eq!(points, vec![Vec3i::new(1, -1, 0), Vec3i::new(2, -2, 1)]);
}

#[test]
fn straight_lines_reverse_exactly() {
    let ends = [
        (Vec3i::new(0, 0, 0), Vec3i::new(6, 0, 0)),
        (Vec3i::new(2, 9, 1), Vec3i::new(2, 3, 1)),
        (Vec3i::new(1, 1, 1), Vec3i::new(5, 5, 1)),
        (Vec3i::new(0, 4, 0), Vec3i::new(4, 0, -4)),
    ];
    for (a, b) in ends {
        let mut there = vec![a];
        there.extend(walk(a, b));
        let mut back = vec![b];
        back.extend(walk(b, a));
        back.reverse();
        assert_eq!(there, back);
    }
}

#[test]
fn a_slanted_line_does_not_reverse() {
    let a = Vec3i::new(0, 0, 0);
    let b = Vec3i::new(2, 1, 0);
    let mut there = vec![a];
    there.extend(walk(a, b));
    let mut back = vec![b];
    back.extend(walk(b, a));
    back.reverse();
    assert_eq!(there, vec![a, Vec3i::new(1, 0, 0), b]);
    assert_eq!(back, vec![a, Vec3i::new(1, 1, 0), b]);
}

#[test]
fn the_widest_line_starts_without_overflow() {
    let from = Vec3i::new(i32::MAX, i32::MIN, 0);
    let to = Vec3i::new(i32::MIN, i32::MAX, 0);
    let mut raster = LineRasterizer::new(from, to);
    assert_eq!(raster.next(), Some(Vec3i::new(i32::MAX - 1, i32::MIN + 1, 0)));
    assert_eq!(raster.next(), Some(Vec3i::new(i32::MAX - 2, i32::MIN + 2, 0)));
}

#[test]
fn exactly_the_straight_lines_reverse() {
    let a = Vec3i::new(0, 0, 0);
    for x in -3..=3 {
        for y in -3..=3 {
            for z in -3..=3 {
                let b = Vec3i::new(x, y, z);
                let spans = [x.abs(), y.abs(), z.abs()];
                let longest = *spans.iter().max().unwrap();
                let straight = spans.iter().all(|&s| s == 0 || s == longest);

                let mut there = vec![a];
                there.extend(walk(a, b));
                let mut back = vec![b];
                back.extend(walk(b, a));
                back.reverse();
                assert_eq!(there == back, straight, "{:?}", b);
            }
        }
    }
}
