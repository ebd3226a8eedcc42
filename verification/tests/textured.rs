use toyrender::canvas::Canvas;
use toyrender::pixmap::Pixmap;
use toyrender::vector3d::Vec3i;
use toyrender::vertex::Vertex;

const M: i32 = i32::MIN;

fn texture() -> Pixmap {
    let mut t = Pixmap::new(4, 4, 0);
    for y in 0..4 {
        for x in 0..4 {
            t.set(x, y, ((0x10 * (y * 4 + x + 1) as i32) * 0x010101) & 0xffffff);
        }
    }
    t
}

fn corners() -> [Vertex; 3] {
    [
        Vertex { pos: Vec3i::new(1, 1, 10), uv: Vec3i::new(0, 0, 0), norm: Vec3i::new(0, 0, 10) },
        Vertex { pos: Vec3i::new(6, 2, 20), uv: Vec3i::new(3, 0, 0), norm: Vec3i::new(0, 0, 10) },
        Vertex { pos: Vec3i::new(2, 5, 30), uv: Vec3i::new(0, 3, 0), norm: Vec3i::new(0, 10, 10) },
    ]
}

fn grid(p: &Pixmap) -> Vec<Vec<i32>> {
    (0..p.height())
        .map(|y| (0..p.width()).map(|x| p.get(x as i32, y as i32)).collect())
        .collect()
}

#[test]
fn a_textured_triangle_pixel_by_pixel() {
    let mut c = Canvas::new(7, 6);
    c.textured_triangle(corners(), &texture(), Vec3i::new(0, 0, 1));
    assert_eq!(
        grid(c.buffer()),
        vec![
            vec![0x0, 0x0, 0x0, 0x0, 0x0, 0x0, 0x0, 0x0],
            vec![0x0, 0x101010, 0x0, 0x0, 0x0, 0x0, 0x0, 0x0],
            vec![0x0, 0x101010, 0x101010, 0x202020, 0x202020, 0x303030, 0x404040, 0x0],
            vec![0x0, 0x484848, 0x484848, 0x606060, 0x606060, 0x707070, 0x0, 0x0],
            vec![0x0, 0x787878, 0x787878, 0x787878, 0x919191, 0x0, 0x0, 0x0],
            vec![0x0, 0x0, 0x0, 0x0, 0x0, 0x0, 0x0, 0x0],
            vec![0x0, 0x0, 0x0, 0x0, 0x0, 0x0, 0x0, 0x0],
        ]
    );
    assert_eq!(
        grid(c.z_buffer()),
        vec![
            vec![M, M, M, M, M, M, M, M],
            vec![M, 10, M, M, M, M, M, M],
            vec![M, 15, 16, 17, 18, 19, 20, M],
            vec![M, 20, 20, 21, 22, 23, M, M],
            vec![M, 25, 25, 25, 26, M, M, M],
            vec![M, M, M, M, M, M, M, M],
            vec![M, M, M, M, M, M, M, M],
        ]
    );
}

#[test]
fn the_order_of_the_corners_does_not_matter() {
    let v = corners();
    let mut first = Canvas::new(7, 6);
    first.textured_triangle(v, &texture(), Vec3i::new(0, 0, 1));
    for order in [[0, 2, 1], [1, 0, 2], [1, 2, 0], [2, 0, 1], [2, 1, 0]] {
        let mut other = Canvas::new(7, 6);
        other.textured_triangle(
            [v[order[0]], v[order[1]], v[order[2]]],
            &texture(),
            Vec3i::new(0, 0, 1),
        );
        assert_eq!(grid(other.buffer()), grid(first.buffer()));
        assert_eq!(grid(other.z_buffer()), grid(first.z_buffer()));
    }
}

#[test]
fn a_triangle_without_height_draws_nothing() {
    let mut v = corners();
    v[0].pos = Vec3i::new(0, 3, 5);
    v[1].pos = Vec3i::new(4, 3, 5);
    v[2].pos = Vec3i::new(7, 3, 5);
    let mut c = Canvas::new(7, 6);
    c.textured_triangle(v, &texture(), Vec3i::new(0, 0, 1));
    assert!(c.buffer().data().iter().all(|&color| color == 0));
    assert!(c.z_buffer().data().iter().all(|&depth| depth == M));
}

#[test]
fn a_triangle_with_a_flat_top_or_bottom() {
    let white = Pixmap::new(1, 1, 0xffffff);
    let corner = |x, y| Vertex {
        pos: Vec3i::new(x, y, 1),
        uv: Vec3i::zero(),
        norm: Vec3i::new(0, 0, 1),
    };
    let mut c = Canvas::new(4, 4);
    c.textured_triangle([corner(0, 0), corner(4, 0), corner(0, 4)], &white, Vec3i::new(0, 0, 1));
    let w = 0xffffff;
    assert_eq!(
        grid(c.buffer()),
        vec![
            vec![w, w, w, w, w],
            vec![w, w, w, w, 0],
            vec![w, w, w, 0, 0],
            vec![w, w, 0, 0, 0],
            vec![0, 0, 0, 0, 0],
        ]
    );
    let mut c = Canvas::new(4, 4);
    c.textured_triangle([corner(0, 4), corner(4, 4), corner(2, 0)], &white, Vec3i::new(0, 0, 1));
    assert_eq!(
        grid(c.buffer()),
        // Both boundaries round towards the corner they start from, and the
        // row of the last corners is not filled.
        vec![
            vec![0, 0, w, 0, 0],
            vec![0, 0, w, 0, 0],
            vec![0, w, w, w, 0],
            vec![0, w, w, w, 0],
            vec![0, 0, 0, 0, 0],
        ]
    );
}

#[test]
fn a_surface_turned_from_the_light_is_not_drawn() {
    let white = Pixmap::new(1, 1, 0xffffff);
    let corner = |x, y, n| Vertex {
        pos: Vec3i::new(x, y, 1),
        uv: Vec3i::zero(),
        norm: Vec3i::new(0, 0, n),
    };
    let light = Vec3i::new(0, 0, 1);
    let mut c = Canvas::new(2, 2);
    c.textured_triangle([corner(0, 0, -1), corner(2, 0, -1), corner(0, 2, -1)], &white, light);
    assert!(c.buffer().data().iter().all(|&color| color == 0));
    assert!(c.z_buffer().data().iter().all(|&depth| depth == M));

    // Where the normal turns across the triangle, the lit part alone is drawn.
    let mut c = Canvas::new(4, 1);
    c.textured_triangle([corner(0, 0, -2), corner(4, 0, 2), corner(0, 1, -2)], &white, light);
    assert_eq!(grid(c.buffer())[0], vec![0, 0, 0, 0xffffff, 0xffffff]);
    assert_eq!(grid(c.z_buffer())[0], vec![M, M, M, 1, 1]);
}

#[test]
fn the_texture_is_black_outside_itself() {
    let white = Pixmap::new(2, 2, 0xffffff);
    let corner = |x, y, u, v| Vertex {
        pos: Vec3i::new(x, y, 1),
        uv: Vec3i::new(u, v, 0),
        norm: Vec3i::new(0, 0, 1),
    };
    let mut c = Canvas::new(3, 1);
    c.textured_triangle(
        [corner(0, 0, -1, 0), corner(3, 0, 2, 0), corner(0, 1, -1, 0)],
        &white,
        Vec3i::new(0, 0, 1),
    );
    assert_eq!(grid(c.buffer())[0], vec![0, 0xffffff, 0xffffff, 0]);
}

#[test]
fn the_nearer_textured_triangle_shows_whatever_the_order() {
    let red = Pixmap::new(1, 1, 0xff0000);
    let blue = Pixmap::new(1, 1, 0x0000ff);
    let corner = |x, y, z| Vertex {
        pos: Vec3i::new(x, y, z),
        uv: Vec3i::zero(),
        norm: Vec3i::new(0, 0, 1),
    };
    let far = [corner(0, 0, 2), corner(8, 0, 2), corner(4, 8, 2)];
    let near = [corner(1, 7, 9), corner(8, 3, 9), corner(2, 1, 9)];
    let light = Vec3i::new(0, 0, 1);

    let mut only_near = Canvas::new(8, 8);
    only_near.textured_triangle(near, &blue, light);
    let mut far_first = Canvas::new(8, 8);
    far_first.textured_triangle(far, &red, light);
    far_first.textured_triangle(near, &blue, light);
    let mut near_first = Canvas::new(8, 8);
    near_first.textured_triangle(near, &blue, light);
    near_first.textured_triangle(far, &red, light);

    assert_eq!(grid(far_first.buffer()), grid(near_first.buffer()));
    assert_eq!(grid(far_first.z_buffer()), grid(near_first.z_buffer()));
    let mut covered = 0;
    for y in 0..9 {
        for x in 0..9 {
            if only_near.z_buffer().get(x, y) == 9 {
                assert_eq!(far_first.buffer().get(x, y), 0x0000ff);
                covered += 1;
            }
        }
    }
    assert!(covered > 0);
}
