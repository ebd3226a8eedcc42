//! A dense two-dimensional buffer of 32-bit cells.

use std::ops::Index;
use vstd::prelude::*;

verus! {

/// Row `y` of a grid of `w` by `h` cells lies inside its `w * h` cells.
pub proof fn lemma_row_in_grid(w: int, h: int, y: int)
    requires
        0 <= w,
        0 <= y < h,
    ensures
        0 <= y * w,
        y * w + w <= w * h,
{
    assert(0 <= y * w) by (nonlinear_arith)
        requires
            0 <= w,
            0 <= y,
    ;
    assert(y * w + w <= w * h) by (nonlinear_arith)
        requires
            0 <= w,
            y + 1 <= h,
    ;
}

/// Two cells of a grid of `w` columns stand at one offset only if they are one cell.
pub proof fn lemma_cells_apart(w: int, x1: int, y1: int, x2: int, y2: int)
    requires
        0 <= x1 < w,
        0 <= x2 < w,
        0 <= y1,
        0 <= y2,
    ensures
        y1 * w + x1 == y2 * w + x2 <==> x1 == x2 && y1 == y2,
{
    if y1 < y2 {
        assert(y1 * w + w <= y2 * w) by (nonlinear_arith)
            requires
                y1 + 1 <= y2,
                0 <= w,
        ;
    } else if y2 < y1 {
        assert(y2 * w + w <= y1 * w) by (nonlinear_arith)
            requires
                y2 + 1 <= y1,
                0 <= w,
        ;
    }
}

/// A grid of `width` by `height` cells, stored row by row: the cell in column `x`
/// of row `y` stands at offset `y * width + x`.
#[derive(Debug)]
pub struct Pixmap {
    w: usize,
    h: usize,
    data: Vec<i32>,
}

impl Pixmap {
    #[verifier::type_invariant]
    spec fn well_formed(self) -> bool {
        &&& self.w * self.h <= usize::MAX
        &&& self.data@.len() == self.w * self.h
    }

    /// The cells, row by row.
    pub closed spec fn cells(&self) -> Seq<i32> {
        self.data@
    }

    /// The number of columns.
    pub closed spec fn spec_width(&self) -> usize {
        self.w
    }

    /// The number of rows.
    pub closed spec fn spec_height(&self) -> usize {
        self.h
    }

    /// Whether column `x` of row `y` lies inside the grid.
    pub open spec fn contains(&self, x: int, y: int) -> bool {
        0 <= x < self.width() && 0 <= y < self.height()
    }

    /// The cell in column `x` of row `y`.
    pub open spec fn cell(&self, x: int, y: int) -> i32 {
        self.cells()[y * self.width() + x]
    }

    /// What a sampled read of column `x`, row `y` gives: the cell, or 0 outside the grid.
    pub open spec fn sample(&self, x: int, y: int) -> i32 {
        if self.contains(x, y) {
            self.cell(x, y)
        } else {
            0
        }
    }

    /// A grid of `w` by `h` cells that all hold `fill_value`.
    pub fn new(w: usize, h: usize, fill_value: i32) -> (p: Pixmap)
        requires
            w * h <= usize::MAX,
        ensures
            p.width() == w,
            p.height() == h,
            p.cells() == Seq::new((w * h) as nat, |i: int| fill_value),
            forall|x: int, y: int| p.contains(x, y) ==> #[trigger] p.cell(x, y) == fill_value,
    {
        let p = Pixmap { w: w, h: h, data: vec![fill_value; w * h] };
        assert(p.data@ =~= Seq::new((w * h) as nat, |i: int| fill_value));
        assert forall|x: int, y: int| p.contains(x, y) implies #[trigger] p.cell(x, y)
            == fill_value by {
            lemma_row_in_grid(w as int, h as int, y);
        }
        p
    }

    /// Sets every cell to `fill_value`: whatever is read inside the grid
    /// afterwards is `fill_value`.
    pub fn fill(&mut self, fill_value: i32)
        ensures
            final(self).width() == old(self).width(),
            final(self).height() == old(self).height(),
            final(self).cells() == Seq::new(old(self).cells().len(), |i: int| fill_value),
            forall|x: int, y: int|
                final(self).contains(x, y) ==> #[trigger] final(self).cell(x, y) == fill_value
                    && final(self).sample(x, y) == fill_value,
        no_unwind
    {
        proof {
            use_type_invariant(&*self);
        }
        let n = self.data.len();
        let mut i: usize = 0;
        while i < n
            invariant
                i <= n,
                n == self.data@.len(),
                self.w == old(self).w,
                self.h == old(self).h,
                self.data@.len() == old(self).data@.len(),
                self.well_formed(),
                forall|j: int| 0 <= j < i ==> self.data@[j] == fill_value,
            decreases n - i,
        {
            self.data[i] = fill_value;
            i += 1;
        }
        assert(self.data@ =~= Seq::new(old(self).cells().len(), |i: int| fill_value));
        assert forall|x: int, y: int| self.contains(x, y) implies #[trigger] self.cell(x, y)
            == fill_value && self.sample(x, y) == fill_value by {
            lemma_row_in_grid(self.w as int, self.h as int, y);
        }
    }

    /// The number of columns.
    #[verifier::when_used_as_spec(spec_width)]
    pub fn width(&self) -> (w: usize)
        ensures
            w == self.spec_width(),
    {
        self.w
    }

    /// The number of rows.
    #[verifier::when_used_as_spec(spec_height)]
    pub fn height(&self) -> (h: usize)
        ensures
            h == self.spec_height(),
    {
        self.h
    }

    /// Stores `value` in column `x` of row `y` and leaves every other cell as it is.
    pub fn set(&mut self, x: usize, y: usize, value: i32)
        requires
            old(self).contains(x as int, y as int),
        ensures
            final(self).width() == old(self).width(),
            final(self).height() == old(self).height(),
            final(self).cells() == old(self).cells().update(y * old(self).width() + x, value),
            forall|cx: int, cy: int|
                old(self).contains(cx, cy) ==> #[trigger] final(self).cell(cx, cy) == if cx == x
                    && cy == y {
                    value
                } else {
                    old(self).cell(cx, cy)
                },
        no_unwind
    {
        proof {
            use_type_invariant(&*self);
            lemma_row_in_grid(self.w as int, self.h as int, y as int);
        }
        self.data[y * self.w + x] = value;
        proof {
            assert forall|cx: int, cy: int| old(self).contains(cx, cy) implies #[trigger] self.cell(
                cx,
                cy,
            ) == if cx == x && cy == y {
                value
            } else {
                old(self).cell(cx, cy)
            } by {
                lemma_row_in_grid(self.w as int, self.h as int, cy);
                lemma_cells_apart(self.w as int, cx, cy, x as int, y as int);
            }
        }
    }

    /// The cells, row by row.
    pub fn data(&self) -> (d: &[i32])
        ensures
            d@ == self.cells(),
            d@.len() == self.width() * self.height(),
    {
        proof {
            use_type_invariant(self);
        }
        self.data.as_slice()
    }

    /// A sampled read: the cell in column `x` of row `y`, or 0 where that lies
    /// outside the grid, whatever the grid holds.
    pub fn get(&self, x: i32, y: i32) -> (v: i32)
        ensures
            v == self.sample(x as int, y as int),
            !self.contains(x as int, y as int) ==> v == 0,
    {
        proof {
            use_type_invariant(self);
        }
        if x < 0 || y < 0 {
            return 0;
        }
        let col = x as usize;
        let row = y as usize;
        if col >= self.w || row >= self.h {
            return 0;
        }
        proof {
            lemma_row_in_grid(self.w as int, self.h as int, row as int);
        }
        self.data[row * self.w + col]
    }
}

impl Default for Pixmap {
    /// The grid without cells.
    fn default() -> (p: Pixmap)
        ensures
            p.width() == 0,
            p.height() == 0,
            p.cells() == Seq::<i32>::empty(),
    {
        Pixmap { w: 0, h: 0, data: Vec::new() }
    }
}

impl Index<usize> for Pixmap {
    type Output = [i32];

    /// Row `index` of the grid.
    #[inline]
    fn index(&self, index: usize) -> (r: &[i32])
        ensures
            r@ == self.cells().subrange(index * self.width(), index * self.width() + self.width()),
            r@.len() == self.width(),
            forall|x: int| 0 <= x < self.width() ==> #[trigger] r@[x] == self.cell(x, index as int),
    {
        proof {
            use_type_invariant(self);
            lemma_row_in_grid(self.w as int, self.h as int, index as int);
        }
        let i = index * self.w;
        vstd::slice::slice_subrange(self.data.as_slice(), i, i + self.w)
    }
}

impl vstd::std_specs::core::IndexSpecImpl<usize> for Pixmap {
    open spec fn index_req(&self, index: &usize) -> bool {
        *index < self.height()
    }
}

} // verus!
