//! The drawing surface: a colour buffer and a depth buffer of the same size,
//! written together under a depth test.
//!
//! Whatever is drawn is a sequence of fragments, each a pixel position with a
//! depth and a colour. A fragment is accepted where its depth is strictly
//! greater than the depth stored at its pixel, and then replaces both the
//! stored depth and the stored colour.

use crate::linerasterizer::{
    lemma_coordinate_between, lemma_coordinate_monotonic, lemma_level_line, lemma_line_ends,
    lemma_line_steps, line_point, path, steps, stride, LineRasterizer,
};
use crate::color::{channel, channels};
use crate::pixmap::Pixmap;
use crate::vector3d::Vec3i;
use vstd::prelude::*;

verus! {

/// What the surface holds at one pixel.
pub struct Pixel {
    pub depth: i32,
    pub color: i32,
}

/// One candidate write: the pixel in column `x` of row `y`, at depth `z`.
pub struct Fragment {
    pub x: i32,
    pub y: i32,
    pub z: i32,
    pub color: i32,
}

/// The fragment at lattice point `p` in colour `color`.
pub open spec fn fragment_at(p: Vec3i, color: i32) -> Fragment {
    Fragment { x: p.x, y: p.y, z: p.z, color }
}

/// The fragments at the lattice points `points`, in their order, all in colour `color`.
pub open spec fn fragments_at(points: Seq<Vec3i>, color: i32) -> Seq<Fragment> {
    Seq::new(points.len(), |i: int| fragment_at(points[i], color))
}

/// The depth test: the pixel after a write at depth `z` in colour `color` was tried.
pub open spec fn plot(p: Pixel, z: i32, color: i32) -> Pixel {
    if p.depth < z {
        Pixel { depth: z, color }
    } else {
        p
    }
}

/// The pixel in column `x` of row `y` after the fragments `frags` were drawn, in
/// their order, over a pixel that held `p`.
pub open spec fn draw(p: Pixel, frags: Seq<Fragment>, x: int, y: int) -> Pixel
    decreases frags.len(),
{
    if frags.len() == 0 {
        p
    } else {
        let before = draw(p, frags.drop_last(), x, y);
        let f = frags.last();
        if f.x == x && f.y == y {
            plot(before, f.z, f.color)
        } else {
            before
        }
    }
}

/// Whether some fragment of `frags` lies on the pixel in column `x` of row `y`.
pub open spec fn covers(frags: Seq<Fragment>, x: int, y: int) -> bool {
    exists|i: int| 0 <= i < frags.len() && (#[trigger] frags[i]).x == x && frags[i].y == y
}

/// The greatest depth among the fragments of `frags` on the pixel in column `x`
/// of row `y`; below every depth where there is none.
pub open spec fn top(frags: Seq<Fragment>, x: int, y: int) -> int
    decreases frags.len(),
{
    if frags.len() == 0 {
        i32::MIN - 1
    } else {
        let rest = top(frags.drop_last(), x, y);
        let f = frags.last();
        if f.x == x && f.y == y && f.z > rest {
            f.z as int
        } else {
            rest
        }
    }
}

/// Drawing one sequence of fragments and then another is drawing the two in a row.
pub proof fn lemma_draw_concat(p: Pixel, first: Seq<Fragment>, second: Seq<Fragment>, x: int, y: int)
    ensures
        draw(p, first + second, x, y) == draw(draw(p, first, x, y), second, x, y),
    decreases second.len(),
{
    if second.len() == 0 {
        assert(first + second =~= first);
    } else {
        assert((first + second).drop_last() =~= first + second.drop_last());
        assert((first + second).last() == second.last());
        lemma_draw_concat(p, first, second.drop_last(), x, y);
    }
}

/// After drawing, a pixel holds the greatest depth it was offered, or the depth
/// it held before where that was at least as great; in that case it is unchanged.
pub proof fn lemma_draw_depth(p: Pixel, frags: Seq<Fragment>, x: int, y: int)
    ensures
        top(frags, x, y) <= p.depth ==> draw(p, frags, x, y) == p,
        top(frags, x, y) > p.depth ==> draw(p, frags, x, y).depth == top(frags, x, y),
        covers(frags, x, y) <==> top(frags, x, y) >= i32::MIN,
    decreases frags.len(),
{
    if frags.len() > 0 {
        let rest = frags.drop_last();
        lemma_draw_depth(p, rest, x, y);
        let f = frags.last();
        if covers(rest, x, y) {
            let i = choose|i: int| 0 <= i < rest.len() && (#[trigger] rest[i]).x == x && rest[i].y == y;
            assert(frags[i] == rest[i]);
        }
        if f.x == x && f.y == y {
            assert(frags[frags.len() - 1] == f);
        }
        if covers(frags, x, y) {
            let i = choose|i: int|
                0 <= i < frags.len() && (#[trigger] frags[i]).x == x && frags[i].y == y;
            if i < rest.len() {
                assert(rest[i] == frags[i]);
            }
        }
    }
}

/// Once a pixel lies below the greatest depth it is offered, what it held no
/// longer matters: the outcome is that of drawing over any other such pixel.
pub proof fn lemma_draw_over(p: Pixel, q: Pixel, frags: Seq<Fragment>, x: int, y: int)
    requires
        p.depth < top(frags, x, y),
        q.depth < top(frags, x, y),
    ensures
        draw(p, frags, x, y) == draw(q, frags, x, y),
    decreases frags.len(),
{
    if frags.len() > 0 {
        let rest = frags.drop_last();
        let f = frags.last();
        lemma_draw_depth(p, rest, x, y);
        lemma_draw_depth(q, rest, x, y);
        if p.depth < top(rest, x, y) && q.depth < top(rest, x, y) {
            lemma_draw_over(p, q, rest, x, y);
        }
    }
}

/// Of two sequences of fragments, the one that reaches the greater depth at a
/// pixel decides that pixel, whichever of the two is drawn first: the pixel ends
/// as if `near` alone had been drawn.
pub proof fn lemma_nearer_wins(p: Pixel, far: Seq<Fragment>, near: Seq<Fragment>, x: int, y: int)
    requires
        top(far, x, y) < top(near, x, y),
        p.depth < top(near, x, y),
    ensures
        draw(draw(p, far, x, y), near, x, y) == draw(p, near, x, y),
        draw(draw(p, near, x, y), far, x, y) == draw(p, near, x, y),
        draw(p, near, x, y).depth == top(near, x, y),
{
    lemma_draw_depth(p, far, x, y);
    lemma_draw_depth(p, near, x, y);
    lemma_draw_over(draw(p, far, x, y), p, near, x, y);
    lemma_draw_depth(draw(p, near, x, y), far, x, y);
}

/// Where every fragment is of one colour, a pixel that accepts any of them ends
/// in that colour.
pub proof fn lemma_draw_color(p: Pixel, frags: Seq<Fragment>, color: i32, x: int, y: int)
    requires
        forall|i: int| 0 <= i < frags.len() ==> (#[trigger] frags[i]).color == color,
        p.depth < top(frags, x, y),
    ensures
        draw(p, frags, x, y).color == color,
    decreases frags.len(),
{
    if frags.len() > 0 {
        let rest = frags.drop_last();
        let f = frags.last();
        assert(frags[frags.len() - 1] == f);
        assert forall|i: int| 0 <= i < rest.len() implies (#[trigger] rest[i]).color == color by {
            assert(rest[i] == frags[i]);
        }
        lemma_draw_depth(p, rest, x, y);
        if p.depth < top(rest, x, y) {
            lemma_draw_color(p, rest, color, x, y);
        }
    }
}

/// Fragments of two runs of points, one after the other, are the fragments of
/// the two runs joined.
pub proof fn lemma_fragments_concat(first: Seq<Vec3i>, second: Seq<Vec3i>, color: i32)
    ensures
        fragments_at(first + second, color) == fragments_at(first, color) + fragments_at(
            second,
            color,
        ),
{
    assert(fragments_at(first + second, color) =~= fragments_at(first, color) + fragments_at(
        second,
        color,
    ));
}

/// Whether step `k` of the line from `from` to `to` is its first on row `y`.
pub open spec fn enters_row(from: Vec3i, to: Vec3i, y: int, k: int) -> bool {
    &&& 0 <= k <= steps(from, to)
    &&& line_point(from, to, k).y == y
    &&& forall|j: int| 0 <= j < k ==> (#[trigger] line_point(from, to, j)).y != y
}

/// The first point of the line from `from` to `to` that lies on row `y`.
pub open spec fn row_entry(from: Vec3i, to: Vec3i, y: int) -> Vec3i {
    line_point(from, to, choose|k: int| enters_row(from, to, y, k))
}

/// A line enters a row only once.
pub proof fn lemma_row_entry(from: Vec3i, to: Vec3i, y: int, k: int)
    requires
        enters_row(from, to, y, k),
    ensures
        row_entry(from, to, y) == line_point(from, to, k),
{
    let c = choose|c: int| enters_row(from, to, y, c);
    if c < k {
        assert(line_point(from, to, c).y != y);
    } else if k < c {
        assert(line_point(from, to, k).y != y);
    }
}

/// A line enters every row between the rows of its two ends: from step `k`
/// on, where no earlier step stands on row `y` and `y` lies between the row of
/// step `k` and the row of `to`, some step is the first on row `y`.
pub proof fn lemma_enters_row(from: Vec3i, to: Vec3i, y: int, k: int) -> (first: int)
    requires
        0 <= k <= steps(from, to),
        forall|j: int| 0 <= j < k ==> (#[trigger] line_point(from, to, j)).y != y,
        line_point(from, to, k).y <= y <= to.y || to.y <= y <= line_point(from, to, k).y,
    ensures
        k <= first,
        enters_row(from, to, y, first),
        row_entry(from, to, y) == line_point(from, to, first),
    decreases steps(from, to) - k,
{
    lemma_line_ends(from, to);
    if line_point(from, to, k).y == y {
        lemma_row_entry(from, to, y, k);
        k
    } else {
        lemma_line_steps(from, to, k);
        lemma_coordinate_between(from, to, 1, k);
        lemma_coordinate_between(from, to, 1, k + 1);
        lemma_coordinate_monotonic(from, to, 1, 0, k);
        assert(stride(from, to, 1, k) == 0 || stride(from, to, 1, k) == crate::linerasterizer::direction(
            from,
            to,
            1,
        ));
        lemma_enters_row(from, to, y, k + 1)
    }
}

/// The three corners from the highest row down. Corners on one row keep the
/// order that three exchanges leave them in: the second with the first, the
/// third with the first, the third with the second, each made only where the
/// later corner lies on a strictly higher row.
pub open spec fn by_row(a: Vec3i, b: Vec3i, c: Vec3i) -> (Vec3i, Vec3i, Vec3i) {
    let (a1, b1) = if b.y > a.y {
        (b, a)
    } else {
        (a, b)
    };
    let (a2, c1) = if c.y > a1.y {
        (c, a1)
    } else {
        (a1, c)
    };
    let (b2, c2) = if c1.y > b1.y {
        (c1, b1)
    } else {
        (b1, c1)
    };
    (a2, b2, c2)
}

/// The scanlines between two edges, from row `from_row - 1` down to row
/// `to_row`: on each row the line from the point where the edge from `p` to `q`
/// enters the row to the point where the edge from `r` to `s` enters it.
pub open spec fn band(p: Vec3i, q: Vec3i, r: Vec3i, s: Vec3i, from_row: int, to_row: int) -> Seq<
    Vec3i,
>
    decreases from_row - to_row,
{
    if from_row <= to_row {
        Seq::empty()
    } else {
        band(p, q, r, s, from_row, to_row + 1) + path(row_entry(p, q, to_row), row_entry(r, s, to_row))
    }
}

/// The points of a filled triangle, in the order in which they are drawn. The
/// corners are taken from the highest row down. The rows strictly below the
/// first corner are filled from the top: down to the second corner's row
/// between the two edges that leave the first corner, and below that row
/// between the edge that leaves the second corner and the long edge.
pub open spec fn triangle_points(a: Vec3i, b: Vec3i, c: Vec3i) -> Seq<Vec3i> {
    let (top, mid, low) = by_row(a, b, c);
    band(top, mid, top, low, top.y as int, mid.y as int) + band(
        mid,
        low,
        top,
        low,
        mid.y as int,
        low.y as int,
    )
}

/// Whether `(p, q, r)` holds `a`, `b` and `c`, each once, in some order.
pub open spec fn is_arrangement(a: Vec3i, b: Vec3i, c: Vec3i, p: Vec3i, q: Vec3i, r: Vec3i) -> bool {
    ||| (p, q, r) == (a, b, c)
    ||| (p, q, r) == (a, c, b)
    ||| (p, q, r) == (b, a, c)
    ||| (p, q, r) == (b, c, a)
    ||| (p, q, r) == (c, a, b)
    ||| (p, q, r) == (c, b, a)
}

/// The corners ordered by row are the three corners, none lost, on rows that
/// do not rise.
pub proof fn lemma_by_row(a: Vec3i, b: Vec3i, c: Vec3i)
    ensures
        by_row(a, b, c).0.y >= by_row(a, b, c).1.y >= by_row(a, b, c).2.y,
        is_arrangement(a, b, c, by_row(a, b, c).0, by_row(a, b, c).1, by_row(a, b, c).2),
{
}

/// Where every fragment lies at depth `depth`, that is the greatest depth
/// offered to each pixel that any of them covers.
pub proof fn lemma_top_level(frags: Seq<Fragment>, depth: i32, x: int, y: int)
    requires
        forall|i: int| 0 <= i < frags.len() ==> (#[trigger] frags[i]).z == depth,
    ensures
        covers(frags, x, y) ==> top(frags, x, y) == depth,
        !covers(frags, x, y) ==> top(frags, x, y) == i32::MIN - 1,
    decreases frags.len(),
{
    lemma_draw_depth(Pixel { depth: 0, color: 0 }, frags, x, y);
    if frags.len() > 0 {
        let rest = frags.drop_last();
        assert(frags[frags.len() - 1] == frags.last());
        assert forall|i: int| 0 <= i < rest.len() implies (#[trigger] rest[i]).z == depth by {
            assert(rest[i] == frags[i]);
        }
        lemma_top_level(rest, depth, x, y);
        lemma_draw_depth(Pixel { depth: 0, color: 0 }, rest, x, y);
    }
}

/// Every point of the scanlines between two edges at one depth lies at that depth.
pub proof fn lemma_level_band(
    p: Vec3i,
    q: Vec3i,
    r: Vec3i,
    s: Vec3i,
    from_row: int,
    to_row: int,
    i: int,
)
    requires
        p.z == q.z,
        r.z == s.z,
        p.z == r.z,
        0 <= i < band(p, q, r, s, from_row, to_row).len(),
    ensures
        band(p, q, r, s, from_row, to_row)[i].z == p.z,
    decreases from_row - to_row,
{
    if from_row > to_row {
        let done = band(p, q, r, s, from_row, to_row + 1);
        let left = row_entry(p, q, to_row);
        let right = row_entry(r, s, to_row);
        lemma_level_line(p, q, 2, choose|k: int| enters_row(p, q, to_row, k));
        lemma_level_line(r, s, 2, choose|k: int| enters_row(r, s, to_row, k));
        if i < done.len() {
            lemma_level_band(p, q, r, s, from_row, to_row + 1, i);
        } else {
            lemma_level_line(left, right, 2, i - done.len());
        }
    }
}

/// Every point of a filled triangle whose corners lie at one depth lies at
/// that depth.
pub proof fn lemma_level_triangle(a: Vec3i, b: Vec3i, c: Vec3i, i: int)
    requires
        a.z == b.z == c.z,
        0 <= i < triangle_points(a, b, c).len(),
    ensures
        triangle_points(a, b, c)[i].z == a.z,
{
    let (top, mid, low) = by_row(a, b, c);
    let upper = band(top, mid, top, low, top.y as int, mid.y as int);
    if i < upper.len() {
        lemma_level_band(top, mid, top, low, top.y as int, mid.y as int, i);
    } else {
        lemma_level_band(mid, low, top, low, mid.y as int, low.y as int, i - upper.len());
    }
}

/// Of two filled triangles, each at one depth, the one at the greater depth
/// shows at every pixel that it covers, whichever of the two is drawn first,
/// provided the pixel held a lesser depth before.
pub proof fn lemma_nearer_triangle_shows(
    p: Pixel,
    far: (Vec3i, Vec3i, Vec3i),
    far_color: i32,
    near: (Vec3i, Vec3i, Vec3i),
    near_color: i32,
    x: int,
    y: int,
)
    requires
        far.0.z == far.1.z == far.2.z,
        near.0.z == near.1.z == near.2.z,
        far.0.z < near.0.z,
        p.depth < near.0.z,
        covers(fragments_at(triangle_points(near.0, near.1, near.2), near_color), x, y),
    ensures
        ({
            let behind = fragments_at(triangle_points(far.0, far.1, far.2), far_color);
            let front = fragments_at(triangle_points(near.0, near.1, near.2), near_color);
            let shown = Pixel { depth: near.0.z, color: near_color };
            &&& draw(draw(p, behind, x, y), front, x, y) == shown
            &&& draw(draw(p, front, x, y), behind, x, y) == shown
        }),
{
    let behind = fragments_at(triangle_points(far.0, far.1, far.2), far_color);
    let front = fragments_at(triangle_points(near.0, near.1, near.2), near_color);
    assert forall|i: int| 0 <= i < behind.len() implies (#[trigger] behind[i]).z == far.0.z by {
        lemma_level_triangle(far.0, far.1, far.2, i);
    }
    assert forall|i: int| 0 <= i < front.len() implies (#[trigger] front[i]).z == near.0.z by {
        lemma_level_triangle(near.0, near.1, near.2, i);
    }
    lemma_top_level(behind, far.0.z, x, y);
    lemma_top_level(front, near.0.z, x, y);
    lemma_nearer_wins(p, behind, front, x, y);
    lemma_draw_color(p, front, near_color, x, y);
}

/// The place of byte `j` of row `y` among rows that lie `pitch` bytes apart.
pub open spec fn place(pitch: int, y: int, j: int) -> int {
    y * pitch + j
}

/// A byte of an earlier row lies before every byte of a later row.
proof fn lemma_place_order(pitch: int, y1: int, j1: int, y2: int, j2: int)
    requires
        0 <= j1 < pitch,
        0 <= j2,
        0 <= y1 < y2,
    ensures
        place(pitch, y1, j1) < place(pitch, y2, j2),
        0 <= place(pitch, y1, j1),
{
    assert(y1 * pitch + pitch <= y2 * pitch) by (nonlinear_arith)
        requires
            y1 + 1 <= y2,
            0 <= pitch,
    ;
    assert(0 <= y1 * pitch) by (nonlinear_arith)
        requires
            0 <= y1,
            0 <= pitch,
    ;
}

/// A colour buffer with its depth buffer.
pub struct Canvas {
    buffer: Pixmap,
    z_buffer: Pixmap,
    width: usize,
    height: usize,
}

impl Canvas {
    #[verifier::type_invariant]
    spec fn inv(self) -> bool {
        &&& self.buffer.width() == self.width + 1
        &&& self.buffer.height() == self.height + 1
        &&& self.z_buffer.width() == self.width + 1
        &&& self.z_buffer.height() == self.height + 1
    }

    /// The width of the picture. Columns 0 to `width`, this one included, can be drawn to.
    pub closed spec fn spec_width(&self) -> usize {
        self.width
    }

    /// The height of the picture. Rows 0 to `height`, this one included, can be drawn to.
    pub closed spec fn spec_height(&self) -> usize {
        self.height
    }

    /// Whether the pixel in column `x` of row `y` can be drawn to.
    pub open spec fn contains(&self, x: int, y: int) -> bool {
        0 <= x <= self.width() && 0 <= y <= self.height()
    }

    /// What the surface holds in column `x` of row `y`.
    pub closed spec fn pixel(&self, x: int, y: int) -> Pixel {
        Pixel { depth: self.z_buffer.cell(x, y), color: self.buffer.cell(x, y) }
    }

    /// Whether `after` is `self` with the fragments `frags` drawn over it.
    pub open spec fn drawn(&self, after: &Canvas, frags: Seq<Fragment>) -> bool {
        &&& after.width() == self.width()
        &&& after.height() == self.height()
        &&& forall|x: int, y: int|
            self.contains(x, y) ==> #[trigger] after.pixel(x, y) == draw(
                self.pixel(x, y),
                frags,
                x,
                y,
            )
    }

    /// Drawing nothing leaves the surface as it is.
    pub proof fn lemma_drawn_nothing(&self)
        ensures
            self.drawn(self, Seq::empty()),
    {
    }

    /// Drawing `first` and then `second` is drawing the two in a row.
    pub proof fn lemma_drawn_then(
        &self,
        between: &Canvas,
        after: &Canvas,
        first: Seq<Fragment>,
        second: Seq<Fragment>,
    )
        requires
            self.drawn(between, first),
            between.drawn(after, second),
        ensures
            self.drawn(after, first + second),
    {
        assert forall|x: int, y: int| self.contains(x, y) implies #[trigger] after.pixel(x, y)
            == draw(self.pixel(x, y), first + second, x, y) by {
            lemma_draw_concat(self.pixel(x, y), first, second, x, y);
            assert(between.pixel(x, y) == draw(self.pixel(x, y), first, x, y));
        }
    }

    /// A cleared surface for a picture of `w` by `h` pixels: every pixel at the
    /// least depth, in colour 0.
    pub fn new(w: usize, h: usize) -> (c: Canvas)
        requires
            (w + 1) * (h + 1) <= usize::MAX,
        ensures
            c.width() == w,
            c.height() == h,
            forall|x: int, y: int|
                c.contains(x, y) ==> #[trigger] c.pixel(x, y) == (Pixel { depth: i32::MIN, color: 0 }),
    {
        assert(w + 1 <= (w + 1) * (h + 1) && h + 1 <= (w + 1) * (h + 1)) by (nonlinear_arith);
        Canvas {
            z_buffer: Pixmap::new(w + 1, h + 1, i32::MIN),
            buffer: Pixmap::new(w + 1, h + 1, 0),
            width: w,
            height: h,
        }
    }

    /// The width of the picture.
    #[verifier::when_used_as_spec(spec_width)]
    pub fn width(&self) -> (w: usize)
        ensures
            w == self.spec_width(),
    {
        self.width
    }

    /// The height of the picture.
    #[verifier::when_used_as_spec(spec_height)]
    pub fn height(&self) -> (h: usize)
        ensures
            h == self.spec_height(),
    {
        self.height
    }

    /// The colour buffer: one cell more to a row, and one row more, than the
    /// picture is wide and high.
    pub fn buffer(&self) -> (b: &Pixmap)
        ensures
            b.width() == self.width() + 1,
            b.height() == self.height() + 1,
            forall|x: int, y: int|
                self.contains(x, y) ==> #[trigger] b.cell(x, y) == self.pixel(x, y).color,
    {
        proof {
            use_type_invariant(self);
        }
        &self.buffer
    }

    /// The depth buffer, of the size of the colour buffer.
    pub fn z_buffer(&self) -> (b: &Pixmap)
        ensures
            b.width() == self.width() + 1,
            b.height() == self.height() + 1,
            forall|x: int, y: int|
                self.contains(x, y) ==> #[trigger] b.cell(x, y) == self.pixel(x, y).depth,
    {
        proof {
            use_type_invariant(self);
        }
        &self.z_buffer
    }

    /// Tries one write at lattice point `v`, whose `z` is its depth: the pixel
    /// takes the depth and the colour where the depth is strictly greater than
    /// the one it holds, and stays as it is otherwise. No other pixel changes.
    pub fn set_pixel(&mut self, v: Vec3i, color: u32)
        requires
            old(self).contains(v.x as int, v.y as int),
        ensures
            old(self).drawn(final(self), seq![fragment_at(v, color as i32)]),
            forall|x: int, y: int|
                old(self).contains(x, y) ==> #[trigger] final(self).pixel(x, y) == if x == v.x && y
                    == v.y {
                    plot(old(self).pixel(x, y), v.z, color as i32)
                } else {
                    old(self).pixel(x, y)
                },
    {
        proof {
            use_type_invariant(&*self);
        }
        let x = v.x() as usize;
        let y = v.y() as usize;

        if self.z_buffer[y][x] < v.z() {
            self.z_buffer.set(x, y, v.z());
            self.buffer.set(x, y, #[verifier::truncate] (color as i32));
        }
        proof {
            let frags = seq![fragment_at(v, color as i32)];
            assert(frags.drop_last() =~= Seq::<Fragment>::empty());
            assert(frags.last() == fragment_at(v, color as i32));
            assert forall|px: int, py: int| old(self).contains(px, py) implies #[trigger] self.pixel(
                px,
                py,
            ) == draw(old(self).pixel(px, py), frags, px, py) by {
                assert(draw(old(self).pixel(px, py), frags.drop_last(), px, py) == old(self).pixel(
                    px,
                    py,
                ));
            }
        }
    }

    /// Draws the line from `a` to `b`, both ends included, in colour `color`.
    pub fn line(&mut self, a: Vec3i, b: Vec3i, color: u32)
        requires
            old(self).contains(a.x as int, a.y as int),
            old(self).contains(b.x as int, b.y as int),
        ensures
            old(self).drawn(final(self), fragments_at(path(a, b), color as i32)),
    {
        self.set_pixel(a, color);
        let mut raster = LineRasterizer::new(a, b);
        let ghost points = path(a, b);
        proof {
            crate::linerasterizer::lemma_line_ends(a, b);
            assert(fragments_at(points.take(1), color as i32) =~= seq![
                fragment_at(a, color as i32),
            ]);
        }
        loop
            invariant
                raster.start() == a,
                raster.end() == b,
                0 <= raster.taken() <= steps(a, b),
                points == path(a, b),
                self.width() == old(self).width(),
                self.height() == old(self).height(),
                old(self).contains(a.x as int, a.y as int),
                old(self).contains(b.x as int, b.y as int),
                old(self).drawn(&*self, fragments_at(points.take(raster.taken() + 1), color as i32)),
            ensures
                raster.taken() == steps(a, b),
                old(self).drawn(&*self, fragments_at(points.take(raster.taken() + 1), color as i32)),
            decreases raster.remaining(),
        {
            let ghost before = *self;
            let ghost k = raster.taken();
            match raster.next() {
                Some(p) => {
                    proof {
                        lemma_coordinate_between(a, b, 0, k + 1);
                        lemma_coordinate_between(a, b, 1, k + 1);
                    }
                    self.set_pixel(p, color);
                    proof {
                        assert(fragments_at(points.take(k + 2), color as i32) =~= fragments_at(
                            points.take(k + 1),
                            color as i32,
                        ) + seq![fragment_at(p, color as i32)]);
                        old(self).lemma_drawn_then(
                            &before,
                            &*self,
                            fragments_at(points.take(k + 1), color as i32),
                            seq![fragment_at(p, color as i32)],
                        );
                    }
                },
                None => {
                    break ;
                },
            }
        }
        proof {
            assert(points.take(steps(a, b) + 1) =~= points);
        }
    }

    /// Fills the rows that the edge walked by `raster1` crosses below the row
    /// it stands on, each from the point where that edge enters the row to the
    /// point where the edge walked by `raster2` enters it.
    #[verifier::rlimit(40)]
    fn fill_between(&mut self, raster1: &mut LineRasterizer, raster2: &mut LineRasterizer, color: u32)
        requires
            old(raster1).taken() == 0,
            old(raster1).start().y >= old(raster1).end().y >= old(raster2).end().y,
            old(raster2).start().y >= old(raster2).end().y,
            enters_row(
                old(raster2).start(),
                old(raster2).end(),
                old(raster1).start().y as int,
                old(raster2).taken(),
            ),
            old(self).contains(old(raster1).start().x as int, old(raster1).start().y as int),
            old(self).contains(old(raster1).end().x as int, old(raster1).end().y as int),
            old(self).contains(old(raster2).start().x as int, old(raster2).start().y as int),
            old(self).contains(old(raster2).end().x as int, old(raster2).end().y as int),
        ensures
            final(raster2).start() == old(raster2).start(),
            final(raster2).end() == old(raster2).end(),
            enters_row(
                old(raster2).start(),
                old(raster2).end(),
                old(raster1).end().y as int,
                final(raster2).taken(),
            ),
            old(self).drawn(
                final(self),
                fragments_at(
                    band(
                        old(raster1).start(),
                        old(raster1).end(),
                        old(raster2).start(),
                        old(raster2).end(),
                        old(raster1).start().y as int,
                        old(raster1).end().y as int,
                    ),
                    color as i32,
                ),
            ),
    {
        let ghost p = raster1.start();
        let ghost q = raster1.end();
        let ghost r = raster2.start();
        let ghost s = raster2.end();
        let mut y = raster1.point().y();
        proof {
            lemma_line_ends(p, q);
            old(self).lemma_drawn_nothing();
            assert(fragments_at(band(p, q, r, s, p.y as int, p.y as int), color as i32)
                =~= Seq::<Fragment>::empty());
        }
        loop
            invariant
                raster1.start() == p,
                raster1.end() == q,
                raster2.start() == r,
                raster2.end() == s,
                0 <= raster1.taken() <= steps(p, q),
                p.y >= q.y >= s.y,
                r.y >= s.y,
                y == raster1.position().y,
                q.y <= y <= p.y,
                enters_row(r, s, y as int, raster2.taken()),
                self.width() == old(self).width(),
                self.height() == old(self).height(),
                old(self).contains(p.x as int, p.y as int),
                old(self).contains(q.x as int, q.y as int),
                old(self).contains(r.x as int, r.y as int),
                old(self).contains(s.x as int, s.y as int),
                old(self).drawn(
                    &*self,
                    fragments_at(band(p, q, r, s, p.y as int, y as int), color as i32),
                ),
            ensures
                raster1.remaining() <= 0,
                y == raster1.position().y,
                raster2.start() == r,
                raster2.end() == s,
                enters_row(r, s, y as int, raster2.taken()),
                old(self).drawn(
                    &*self,
                    fragments_at(band(p, q, r, s, p.y as int, y as int), color as i32),
                ),
            decreases raster1.remaining(),
        {
            let ghost k = raster1.taken();
            if !raster1.next_point() {
                break ;
            }
            proof {
                lemma_line_steps(p, q, k);
                lemma_coordinate_between(p, q, 0, k + 1);
                lemma_coordinate_between(p, q, 1, k + 1);
                assert(stride(p, q, 1, k) == 0 || stride(p, q, 1, k) == -1);
            }
            if y != raster1.point().y() {
                y = raster1.point().y();
                proof {
                    // The edge has just entered row `y`: every earlier point lies above it.
                    assert forall|j: int| 0 <= j < k + 1 implies (#[trigger] line_point(
                        p,
                        q,
                        j,
                    )).y != y by {
                        lemma_coordinate_monotonic(p, q, 1, j, k);
                    }
                    assert(enters_row(p, q, y as int, k + 1));
                    lemma_row_entry(p, q, y as int, k + 1);
                    // So does every point of the other edge up to where its walk stands.
                    assert forall|j: int| 0 <= j <= raster2.taken() implies (#[trigger] line_point(
                        r,
                        s,
                        j,
                    )).y > y by {
                        lemma_coordinate_monotonic(r, s, 1, j, raster2.taken());
                    }
                }

                loop
                    invariant
                        raster2.start() == r,
                        raster2.end() == s,
                        0 <= raster2.taken() <= steps(r, s),
                        r.y >= s.y,
                        s.y <= y,
                        raster2.position().y >= y,
                        forall|j: int|
                            0 <= j < raster2.taken() ==> (#[trigger] line_point(r, s, j)).y > y,
                    ensures
                        raster2.start() == r,
                        raster2.end() == s,
                        enters_row(r, s, y as int, raster2.taken()),
                    decreases raster2.remaining(),
                {
                    if raster2.point().y() == y {
                        break ;
                    }
                    let ghost k2 = raster2.taken();
                    proof {
                        lemma_line_ends(r, s);
                        if k2 == steps(r, s) {
                            assert(raster2.position() == s);
                        }
                        lemma_line_steps(r, s, k2);
                        lemma_coordinate_between(r, s, 1, k2);
                        lemma_coordinate_between(r, s, 1, k2 + 1);
                        assert(stride(r, s, 1, k2) == 0 || stride(r, s, 1, k2) == -1);
                    }
                    raster2.next_point();
                }

                proof {
                    lemma_row_entry(r, s, y as int, raster2.taken());
                    lemma_coordinate_between(r, s, 0, raster2.taken());
                    lemma_coordinate_between(r, s, 1, raster2.taken());
                }
                let ghost before = *self;
                self.line(raster1.point(), raster2.point(), color);
                proof {
                    let done = band(p, q, r, s, p.y as int, y + 1);
                    let row = path(row_entry(p, q, y as int), row_entry(r, s, y as int));
                    assert(band(p, q, r, s, p.y as int, y as int) == done + row);
                    lemma_fragments_concat(done, row, color as i32);
                    old(self).lemma_drawn_then(
                        &before,
                        &*self,
                        fragments_at(done, color as i32),
                        fragments_at(row, color as i32),
                    );
                }
            }
        }
        proof {
            lemma_line_ends(p, q);
        }
    }

    /// The corners `a`, `b` and `c` from the highest row down.
    fn sort_by_row(a: Vec3i, b: Vec3i, c: Vec3i) -> (r: (Vec3i, Vec3i, Vec3i))
        ensures
            r == by_row(a, b, c),
    {
        let mut a = a;
        let mut b = b;
        let mut c = c;
        if b.y() > a.y() {
            std::mem::swap(&mut a, &mut b);
        }
        if c.y() > a.y() {
            std::mem::swap(&mut a, &mut c);
        }
        if c.y() > b.y() {
            std::mem::swap(&mut c, &mut b);
        }
        (a, b, c)
    }

    /// Fills the triangle whose corners, from the highest row down, are `a`,
    /// `b` and `c`.
    #[verifier::rlimit(40)]
    fn fill_sorted(&mut self, a: Vec3i, b: Vec3i, c: Vec3i, color: u32)
        requires
            a.y >= b.y >= c.y,
            old(self).contains(a.x as int, a.y as int),
            old(self).contains(b.x as int, b.y as int),
            old(self).contains(c.x as int, c.y as int),
        ensures
            old(self).drawn(
                final(self),
                fragments_at(
                    band(a, b, a, c, a.y as int, b.y as int) + band(
                        b,
                        c,
                        a,
                        c,
                        b.y as int,
                        c.y as int,
                    ),
                    color as i32,
                ),
            ),
    {
        proof {
            lemma_line_ends(a, c);
        }

        // Fill top triangle part
        let mut raster1 = LineRasterizer::new(a, b);
        let mut raster2 = LineRasterizer::new(a, c);
        self.fill_between(&mut raster1, &mut raster2, color);
        let ghost upper = *self;

        // Fill bottom triangle part
        raster1 = LineRasterizer::new(b, c);
        self.fill_between(&mut raster1, &mut raster2, color);
        proof {
            let first = band(a, b, a, c, a.y as int, b.y as int);
            let second = band(b, c, a, c, b.y as int, c.y as int);
            lemma_fragments_concat(first, second, color as i32);
            old(self).lemma_drawn_then(
                &upper,
                &*self,
                fragments_at(first, color as i32),
                fragments_at(second, color as i32),
            );
        }
    }

    /// Fills the triangle with corners `a`, `b` and `c` in colour `color`.
    pub fn triangle(&mut self, a: Vec3i, b: Vec3i, c: Vec3i, color: u32)
        requires
            old(self).contains(a.x as int, a.y as int),
            old(self).contains(b.x as int, b.y as int),
            old(self).contains(c.x as int, c.y as int),
        ensures
            old(self).drawn(final(self), fragments_at(triangle_points(a, b, c), color as i32)),
    {
        let (top, mid, low) = Self::sort_by_row(a, b, c);
        proof {
            lemma_by_row(a, b, c);
        }
        self.fill_sorted(top, mid, low, color);
    }

    /// Writes the picture into `buffer`, three bytes to a pixel in the order
    /// red, green, blue, the rows `pitch` bytes apart, and then clears the
    /// surface for the next picture: every pixel at the least depth, in
    /// colour 0. The bytes of `buffer` that belong to no pixel stay as they are.
    #[verifier::rlimit(40)]
    pub fn present(&mut self, buffer: &mut [u8], pitch: usize)
        requires
            3 * old(self).width() <= pitch,
            old(self).height() * pitch <= old(buffer)@.len(),
        ensures
            final(self).width() == old(self).width(),
            final(self).height() == old(self).height(),
            forall|x: int, y: int|
                final(self).contains(x, y) ==> #[trigger] final(self).pixel(x, y) == (Pixel {
                    depth: i32::MIN,
                    color: 0,
                }),
            final(buffer)@.len() == old(buffer)@.len(),
            forall|y: int, j: int|
                0 <= y < old(self).height() && 0 <= j < pitch ==> final(buffer)@[#[trigger] place(
                    pitch as int,
                    y,
                    j,
                )] == if j < 3 * old(self).width() {
                    channel(old(self).pixel(j / 3, y).color, j % 3)
                } else {
                    old(buffer)@[place(pitch as int, y, j)]
                },
            forall|i: int|
                old(self).height() * pitch <= i < old(buffer)@.len() ==> final(buffer)@[i] == old(
                    buffer,
                )@[i],
    {
        proof {
            use_type_invariant(&*self);
        }
        let width = self.width;
        let height = self.height;
        let total = buffer.len();
        for y in 0..height
            invariant
                width == self.width,
                height == self.height,
                *self == *old(self),
                self.inv(),
                3 * width <= pitch,
                height * pitch <= buffer@.len(),
                buffer@.len() == old(buffer)@.len(),
                buffer@.len() == total,
                forall|yy: int, j: int|
                    0 <= yy < y && 0 <= j < pitch ==> buffer@[#[trigger] place(pitch as int, yy, j)]
                        == if j < 3 * width {
                        channel(self.pixel(j / 3, yy).color, j % 3)
                    } else {
                        old(buffer)@[place(pitch as int, yy, j)]
                    },
                forall|i: int| y * pitch <= i < buffer@.len() ==> buffer@[i] == old(buffer)@[i],
        {
            proof {
                assert(y * pitch + pitch <= height * pitch) by (nonlinear_arith)
                    requires
                        y + 1 <= height,
                        0 <= pitch,
                ;
                assert(0 <= y * pitch) by (nonlinear_arith);
            }
            let row = y * pitch;
            for x in 0..width
                invariant
                    width == self.width,
                    height == self.height,
                    *self == *old(self),
                    self.inv(),
                    y < height,
                    row == y * pitch,
                    3 * width <= pitch,
                    row + pitch <= buffer@.len(),
                    buffer@.len() == old(buffer)@.len(),
                    buffer@.len() == total,
                    forall|yy: int, j: int|
                        0 <= yy < y && 0 <= j < pitch ==> buffer@[#[trigger] place(
                            pitch as int,
                            yy,
                            j,
                        )] == if j < 3 * width {
                            channel(self.pixel(j / 3, yy).color, j % 3)
                        } else {
                            old(buffer)@[place(pitch as int, yy, j)]
                        },
                    forall|j: int|
                        0 <= j < 3 * x ==> #[trigger] buffer@[row + j] == channel(
                            self.pixel(j / 3, y as int).color,
                            j % 3,
                        ),
                    forall|i: int|
                        row + 3 * x <= i < buffer@.len() ==> buffer@[i] == old(buffer)@[i],
            {
                let color = self.buffer[y][x];
                let offset = row + x * 3;
                let (r, g, b) = channels(color);
                let ghost earlier = buffer@;
                buffer[offset] = r;
                buffer[offset + 1] = g;
                buffer[offset + 2] = b;
                proof {
                    assert forall|yy: int, j: int| 0 <= yy < y && 0 <= j < pitch implies buffer@[#[trigger] place(
                        pitch as int,
                        yy,
                        j,
                    )] == earlier[place(pitch as int, yy, j)] by {
                        lemma_place_order(pitch as int, yy, j, y as int, 0);
                    }
                    assert forall|j: int| 0 <= j < 3 * (x + 1) implies #[trigger] buffer@[row + j]
                        == channel(self.pixel(j / 3, y as int).color, j % 3) by {
                        if j < 3 * x {
                            assert(buffer@[row + j] == earlier[row + j]);
                        }
                    }
                }
            }
            proof {
                assert forall|yy: int, j: int| 0 <= yy < y + 1 && 0 <= j < pitch implies buffer@[#[trigger] place(
                    pitch as int,
                    yy,
                    j,
                )] == if j < 3 * width {
                    channel(self.pixel(j / 3, yy).color, j % 3)
                } else {
                    old(buffer)@[place(pitch as int, yy, j)]
                } by {
                    if yy == y {
                        assert(place(pitch as int, yy, j) == row + j);
                    }
                }
                assert((y + 1) * pitch == row + pitch) by (nonlinear_arith)
                    requires
                        row == y * pitch,
                ;
            }
        }

        self.z_buffer.fill(i32::MIN);
        self.buffer.fill(0);
    }
}

} // verus!
