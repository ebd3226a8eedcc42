use toyrender::vector3d::Vec3i;
use toyrender::vertex::{sort_by_height, Vertex};

fn at(x: i32, y: i32, tag: i32) -> Vertex {
    Vertex { pos: Vec3i::new(x, y, 0), uv: Vec3i::new(tag, 0, 0), norm: Vec3i::zero() }
}

#[test]
fn blending_rounds_towards_the_first_corner() {
    let a = Vertex {
        pos: Vec3i::new(10, 20, -10),
        uv: Vec3i::new(5, 0, -5),
        norm: Vec3i::new(0, 0, 0),
    };
    let b = Vertex {
        pos: Vec3i::new(20, 10, -20),
        uv: Vec3i::new(5, 7, 5),
        norm: Vec3i::new(3, -3, 1),
    };
    assert_eq!(
        a.blend(b, 1, 3),
        Vertex { pos: Vec3i::new(13, 17, -13), uv: Vec3i::new(5, 2, -2), norm: Vec3i::new(1, -1, 0) }
    );
    assert_eq!(
        a.blend(b, 2, 3),
        Vertex { pos: Vec3i::new(16, 14, -16), uv: Vec3i::new(5, 4, 1), norm: Vec3i::new(2, -2, 0) }
    );
    assert_eq!(a.blend(b, 0, 3), a);
    assert_eq!(a.blend(b, 3, 3), b);
    assert_eq!(a.blend(b, 0, 0), a);
    assert_eq!(b.blend(a, 1, 3).pos, Vec3i::new(17, 13, -17));
}

#[test]
fn blending_the_widest_numbers() {
    let low = Vertex { pos: Vec3i::new(i32::MIN, i32::MAX, 0), ..Vertex::default() };
    let high = Vertex { pos: Vec3i::new(i32::MAX, i32::MIN, 0), ..Vertex::default() };
    assert_eq!(low.blend(high, u32::MAX, u32::MAX), high);
    assert_eq!(low.blend(high, 0, u32::MAX), low);
    assert_eq!(low.blend(high, 1, 2).pos, Vec3i::new(-1, 0, 0));
    assert_eq!(low.blend(high, u32::MAX - 1, u32::MAX).pos, Vec3i::new(i32::MAX - 1, i32::MIN + 1, 0));
}

#[test]
fn corners_are_ordered_by_row() {
    let rows = [
        [3, 2, 1],
        [1, 2, 3],
        [2, 3, 1],
        [2, 1, 3],
        [1, 3, 2],
        [3, 1, 2],
        [-5, i32::MIN, i32::MAX],
    ];
    for r in rows {
        let sorted = sort_by_height([at(0, r[0], 0), at(1, r[1], 1), at(2, r[2], 2)]);
        assert!(sorted[0].pos.y <= sorted[1].pos.y && sorted[1].pos.y <= sorted[2].pos.y);
        let mut tags = [sorted[0].uv.x, sorted[1].uv.x, sorted[2].uv.x];
        tags.sort();
        assert_eq!(tags, [0, 1, 2]);
        for s in sorted {
            assert_eq!(s.pos.y, r[s.uv.x as usize]);
        }
    }
}

#[test]
fn corners_on_one_row_keep_their_order() {
    let tags = |v: [Vertex; 3]| [v[0].uv.x, v[1].uv.x, v[2].uv.x];
    assert_eq!(tags(sort_by_height([at(0, 1, 0), at(0, 1, 1), at(0, 0, 2)])), [2, 0, 1]);
    assert_eq!(tags(sort_by_height([at(0, 1, 0), at(0, 0, 1), at(0, 1, 2)])), [1, 0, 2]);
    assert_eq!(tags(sort_by_height([at(0, 0, 0), at(0, 1, 1), at(0, 0, 2)])), [0, 2, 1]);
    assert_eq!(tags(sort_by_height([at(0, 2, 0), at(0, 1, 1), at(0, 1, 2)])), [1, 2, 0]);
    assert_eq!(tags(sort_by_height([at(0, 4, 0), at(0, 4, 1), at(0, 4, 2)])), [0, 1, 2]);
}

#[test]
fn corners_add_subtract_and_scale_field_by_field() {
    let a = Vertex {
        pos: Vec3i::new(1, 2, 3),
        uv: Vec3i::new(4, 5, 6),
        norm: Vec3i::new(7, 8, 9),
    };
    let b = Vertex {
        pos: Vec3i::new(10, 20, 30),
        uv: Vec3i::new(40, 50, 60),
        norm: Vec3i::new(70, 80, 90),
    };
    assert_eq!(
        a + b,
        Vertex {
            pos: Vec3i::new(11, 22, 33),
            uv: Vec3i::new(44, 55, 66),
            norm: Vec3i::new(77, 88, 99),
        }
    );
    assert_eq!((b - a).uv, Vec3i::new(36, 45, 54));
    assert_eq!((a * -2).norm, Vec3i::new(-14, -16, -18));
    assert_eq!(Vertex::default().pos, Vec3i::zero());
}
