//! Filling of textured, lit triangles.
//!
//! The corners of a triangle are taken from the lowest row number up. Every
//! row from the first corner's row up to, but not including, the last
//! corner's row is filled between two boundaries: one on the edge from the
//! first corner to the last, and one on the edge from the first corner to the
//! second above the second corner's row, on the edge from the second corner
//! to the last from that row on. Each boundary is the blend of the two ends of
//! its edge by the part of the edge's rows that the row has covered. Every
//! pixel of the row from the left boundary to the right one is the blend of
//! the two boundaries by the part of the columns that it has covered. Its
//! colour is the texture at its place in the texture, under the brightness
//! that its normal has in the light. A pixel that the light does not reach is
//! left out: a surface that faces away from the light is not drawn at all.

use crate::canvas::{Canvas, Fragment};
use crate::pixmap::Pixmap;
use crate::shading::{get_gray, level, light_level, shaded};
use crate::vector3d::Vec3i;
use crate::vertex::{
    by_height, lemma_lerp_between, lemma_lerp_unit, lerp_vertex, sort_by_height, Vertex,
};
use vstd::prelude::*;

verus! {

/// The fragment in column `x` of the row between the boundaries `a` and `b`.
pub open spec fn span_fragment(a: Vertex, b: Vertex, x: int, diffuse: Pixmap, light: Vec3i) -> Fragment {
    let p = lerp_vertex(a, b, x - a.pos.x, b.pos.x - a.pos.x);
    Fragment {
        x: p.pos.x,
        y: p.pos.y,
        z: p.pos.z,
        color: shaded(diffuse.sample(p.uv.x as int, p.uv.y as int), level(light, p.norm)),
    }
}

/// Whether the light reaches the surface in column `x` of the row between the
/// boundaries `a` and `b`. Where it does not, nothing is drawn.
pub open spec fn is_lit(a: Vertex, b: Vertex, x: int, light: Vec3i) -> bool {
    level(light, lerp_vertex(a, b, x - a.pos.x, b.pos.x - a.pos.x).norm).lit > 0
}

/// The fragments of the first `n` columns of the row between the left
/// boundary `a` and the right boundary `b`, from left to right: one for each
/// column that the light reaches.
pub open spec fn span_start(a: Vertex, b: Vertex, n: int, diffuse: Pixmap, light: Vec3i) -> Seq<
    Fragment,
>
    decreases n,
{
    if n <= 0 {
        Seq::empty()
    } else {
        let x = a.pos.x + n - 1;
        let before = span_start(a, b, n - 1, diffuse, light);
        if is_lit(a, b, x, light) {
            before.push(span_fragment(a, b, x, diffuse, light))
        } else {
            before
        }
    }
}

/// The fragments of the row between the left boundary `a` and the right
/// boundary `b`, both ends included.
pub open spec fn span(a: Vertex, b: Vertex, diffuse: Pixmap, light: Vec3i) -> Seq<Fragment> {
    span_start(a, b, b.pos.x - a.pos.x + 1, diffuse, light)
}

/// The left and the right boundary of row `y` of the triangle whose corners,
/// from the lowest row number up, are `s`.
pub open spec fn boundaries(s: (Vertex, Vertex, Vertex), y: int) -> (Vertex, Vertex) {
    let a = lerp_vertex(s.0, s.2, y - s.0.pos.y, s.2.pos.y - s.0.pos.y);
    let b = if y < s.1.pos.y {
        lerp_vertex(s.0, s.1, y - s.0.pos.y, s.1.pos.y - s.0.pos.y)
    } else {
        lerp_vertex(s.1, s.2, y - s.1.pos.y, s.2.pos.y - s.1.pos.y)
    };
    if a.pos.x > b.pos.x {
        (b, a)
    } else {
        (a, b)
    }
}

/// The fragments of the rows `from_row` to `to_row - 1` of the triangle whose
/// corners, from the lowest row number up, are `s`.
pub open spec fn rows(
    s: (Vertex, Vertex, Vertex),
    from_row: int,
    to_row: int,
    diffuse: Pixmap,
    light: Vec3i,
) -> Seq<Fragment>
    decreases to_row - from_row,
{
    if to_row <= from_row {
        Seq::empty()
    } else {
        rows(s, from_row, to_row - 1, diffuse, light) + span(
            boundaries(s, to_row - 1).0,
            boundaries(s, to_row - 1).1,
            diffuse,
            light,
        )
    }
}

/// The fragments of the triangle with corners `a`, `b` and `c`, textured with
/// `diffuse` and lit along `light`, in the order in which they are drawn. A
/// triangle whose corners lie on one row has none.
pub open spec fn textured_fragments(a: Vertex, b: Vertex, c: Vertex, diffuse: Pixmap, light: Vec3i) -> Seq<
    Fragment,
> {
    let s = by_height(a, b, c);
    rows(s, s.0.pos.y as int, s.2.pos.y as int, diffuse, light)
}

/// The rows of a triangle up to one row, followed by its rows from that row
/// on, are its rows.
pub proof fn lemma_rows_split(
    s: (Vertex, Vertex, Vertex),
    from_row: int,
    mid_row: int,
    to_row: int,
    diffuse: Pixmap,
    light: Vec3i,
)
    requires
        from_row <= mid_row <= to_row,
    ensures
        rows(s, from_row, to_row, diffuse, light) == rows(s, from_row, mid_row, diffuse, light)
            + rows(s, mid_row, to_row, diffuse, light),
    decreases to_row - mid_row,
{
    if to_row == mid_row {
        assert(rows(s, from_row, mid_row, diffuse, light) + rows(s, mid_row, to_row, diffuse, light)
            =~= rows(s, from_row, to_row, diffuse, light));
    } else {
        lemma_rows_split(s, from_row, mid_row, to_row - 1, diffuse, light);
        let last = span(boundaries(s, to_row - 1).0, boundaries(s, to_row - 1).1, diffuse, light);
        assert((rows(s, from_row, mid_row, diffuse, light) + rows(
            s,
            mid_row,
            to_row - 1,
            diffuse,
            light,
        )) + last =~= rows(s, from_row, mid_row, diffuse, light) + (rows(
            s,
            mid_row,
            to_row - 1,
            diffuse,
            light,
        ) + last));
    }
}

impl Canvas {
    /// Fills one row between the left boundary `a` and the right boundary `b`.
    fn fill_span(&mut self, a: Vertex, b: Vertex, diffuse: &Pixmap, light_dir: Vec3i)
        requires
            a.pos.x <= b.pos.x,
            a.pos.y == b.pos.y,
            old(self).contains(a.pos.x as int, a.pos.y as int),
            old(self).contains(b.pos.x as int, b.pos.y as int),
        ensures
            old(self).drawn(final(self), span(a, b, *diffuse, light_dir)),
    {
        let width: u32 = (b.pos.x as i64 - a.pos.x as i64) as u32;
        let mut i: u32 = 0;
        proof {
            old(self).lemma_drawn_nothing();
        }
        while i <= width
            invariant
                i <= width + 1,
                width == b.pos.x - a.pos.x,
                a.pos.x <= b.pos.x,
                a.pos.y == b.pos.y,
                self.width() == old(self).width(),
                self.height() == old(self).height(),
                old(self).contains(a.pos.x as int, a.pos.y as int),
                old(self).contains(b.pos.x as int, b.pos.y as int),
                old(self).drawn(&*self, span_start(a, b, i as int, *diffuse, light_dir)),
            decreases width + 1 - i,
        {
            let p = a.blend(b, i, width);
            proof {
                lemma_lerp_unit(a.pos.x as int, b.pos.x as int, i as int);
                lemma_lerp_between(a.pos.y as int, b.pos.y as int, i as int, width as int);
            }
            let level = light_level(light_dir, p.norm);
            if level.lit > 0 {
                let color = get_gray(diffuse.get(p.uv.x, p.uv.y), level);
                let ghost before = *self;
                self.set_pixel(p.pos, color as u32);
                proof {
                    let f = span_fragment(a, b, a.pos.x + i, *diffuse, light_dir);
                    let done = span_start(a, b, i as int, *diffuse, light_dir);
                    assert(crate::canvas::fragment_at(p.pos, (color as u32) as i32) == f);
                    assert(done.push(f) =~= done + seq![f]);
                    old(self).lemma_drawn_then(&before, &*self, done, seq![f]);
                }
            }
            i += 1;
        }
    }

    /// Fills the rows from corner `k`'s row up to, but not including, corner
    /// `l`'s row, of the triangle whose corners, from the lowest row number
    /// up, are `v`: `k` and `l` are 0 and 1 or 1 and 2.
    #[verifier::rlimit(40)]
    fn fill_segment(&mut self, v: &[Vertex; 3], k: usize, l: usize, diffuse: &Pixmap, light_dir: Vec3i)
        requires
            (k == 0 && l == 1) || (k == 1 && l == 2),
            v@[0].pos.y <= v@[1].pos.y <= v@[2].pos.y,
            forall|i: int|
                0 <= i < 3 ==> old(self).contains(
                    (#[trigger] v@[i]).pos.x as int,
                    v@[i].pos.y as int,
                ),
        ensures
            old(self).drawn(
                final(self),
                rows(
                    (v@[0], v@[1], v@[2]),
                    v@[k as int].pos.y as int,
                    v@[l as int].pos.y as int,
                    *diffuse,
                    light_dir,
                ),
            ),
    {
        let ghost s = (v@[0], v@[1], v@[2]);
        let first = v[0];
        let last = v[2];
        let from = v[k];
        let to = v[l];
        let total_height: u32 = (last.pos.y as i64 - first.pos.y as i64) as u32;
        let segment_height: u32 = (to.pos.y as i64 - from.pos.y as i64) as u32;
        let done_before: u32 = (from.pos.y as i64 - first.pos.y as i64) as u32;
        proof {
            old(self).lemma_drawn_nothing();
            assert(v@[0].pos.x >= 0 && v@[1].pos.x >= 0 && v@[2].pos.x >= 0);
        }
        for i in 0..segment_height
            invariant
                (k == 0 && l == 1) || (k == 1 && l == 2),
                s == (v@[0], v@[1], v@[2]),
                first == v@[0],
                last == v@[2],
                from == v@[k as int],
                to == v@[l as int],
                first.pos.y <= from.pos.y <= to.pos.y <= last.pos.y,
                v@[0].pos.y <= v@[1].pos.y <= v@[2].pos.y,
                total_height == last.pos.y - first.pos.y,
                segment_height == to.pos.y - from.pos.y,
                done_before == from.pos.y - first.pos.y,
                self.width() == old(self).width(),
                self.height() == old(self).height(),
                forall|j: int|
                    0 <= j < 3 ==> old(self).contains(
                        (#[trigger] v@[j]).pos.x as int,
                        v@[j].pos.y as int,
                    ),
                old(self).drawn(
                    &*self,
                    rows(s, from.pos.y as int, from.pos.y + i, *diffuse, light_dir),
                ),
        {
            let ghost y = from.pos.y + i;
            let mut a = first.blend(last, done_before + i, total_height);
            let mut b = from.blend(to, i, segment_height);
            proof {
                assert(old(self).contains(v@[0].pos.x as int, v@[0].pos.y as int));
                assert(old(self).contains(v@[1].pos.x as int, v@[1].pos.y as int));
                assert(old(self).contains(v@[2].pos.x as int, v@[2].pos.y as int));
                lemma_lerp_unit(first.pos.y as int, last.pos.y as int, done_before + i);
                lemma_lerp_unit(from.pos.y as int, to.pos.y as int, i as int);
                lemma_lerp_between(
                    first.pos.x as int,
                    last.pos.x as int,
                    done_before + i,
                    total_height as int,
                );
                lemma_lerp_between(
                    from.pos.x as int,
                    to.pos.x as int,
                    i as int,
                    segment_height as int,
                );
                assert(a == lerp_vertex(s.0, s.2, y - s.0.pos.y, s.2.pos.y - s.0.pos.y));
                assert(b == if y < s.1.pos.y {
                    lerp_vertex(s.0, s.1, y - s.0.pos.y, s.1.pos.y - s.0.pos.y)
                } else {
                    lerp_vertex(s.1, s.2, y - s.1.pos.y, s.2.pos.y - s.1.pos.y)
                });
            }

            if a.pos.x > b.pos.x {
                std::mem::swap(&mut a, &mut b);
            }
            assert((a, b) == boundaries(s, y));

            let ghost before = *self;
            self.fill_span(a, b, diffuse, light_dir);
            proof {
                old(self).lemma_drawn_then(
                    &before,
                    &*self,
                    rows(s, from.pos.y as int, y, *diffuse, light_dir),
                    span(a, b, *diffuse, light_dir),
                );
            }
        }
    }

    /// Fills the triangle with corners `v`, textured with `diffuse` and lit
    /// along `light_dir`.
    pub fn textured_triangle(&mut self, v: [Vertex; 3], diffuse: &Pixmap, light_dir: Vec3i)
        requires
            forall|i: int|
                0 <= i < 3 ==> old(self).contains(
                    (#[trigger] v@[i]).pos.x as int,
                    v@[i].pos.y as int,
                ),
        ensures
            old(self).drawn(
                final(self),
                textured_fragments(v@[0], v@[1], v@[2], *diffuse, light_dir),
            ),
    {
        proof {
            assert(old(self).contains(v@[0].pos.x as int, v@[0].pos.y as int));
            assert(old(self).contains(v@[1].pos.x as int, v@[1].pos.y as int));
            assert(old(self).contains(v@[2].pos.x as int, v@[2].pos.y as int));
        }
        let v = sort_by_height(v);
        let ghost s = (v@[0], v@[1], v@[2]);

        self.fill_segment(&v, 0, 1, diffuse, light_dir);
        let ghost upper = *self;
        self.fill_segment(&v, 1, 2, diffuse, light_dir);
        proof {
            lemma_rows_split(
                s,
                s.0.pos.y as int,
                s.1.pos.y as int,
                s.2.pos.y as int,
                *diffuse,
                light_dir,
            );
            old(self).lemma_drawn_then(
                &upper,
                &*self,
                rows(s, s.0.pos.y as int, s.1.pos.y as int, *diffuse, light_dir),
                rows(s, s.1.pos.y as int, s.2.pos.y as int, *diffuse, light_dir),
            );
        }
    }
}

} // verus!
