//! The occupancy model of a layout run: a grid of free (0) and occupied (1)
//! cells with its summed-area table, kept in step as words are committed.

use crate::sat::{
    cell, in_rect, is_table_of, lemma_index_in_bounds, lemma_index_unique, lemma_prefix_bound, lemma_prefix_same,
    lemma_query_matches_scan, lemma_rebuild_from_row, prefix_sum, rebuilt, region_free, region_is_empty,
    to_summed_area_table, Point, Rect,
};
use vstd::prelude::*;

verus! {

/// The grid `new` is `old` with every cell of the rectangle of size
/// `rw x rh` at `(x, y)` set to 1.
pub open spec fn is_painted(new: Seq<u32>, old: Seq<u32>, w: int, x: int, y: int, rw: int, rh: int) -> bool {
    &&& new.len() == old.len()
    &&& forall|cx: int, cy: int|
        0 <= cx < w && 0 <= cy && cy * w + cx < old.len() ==> #[trigger] cell(new, w, cx, cy) == if in_rect(
            x,
            y,
            rw,
            rh,
            cx,
            cy,
        ) {
            1
        } else {
            cell(old, w, cx, cy)
        }
}

/// Two rectangles share no cell.
pub open spec fn rects_disjoint(x1: int, y1: int, w1: int, h1: int, x2: int, y2: int, w2: int, h2: int) -> bool {
    x1 + w1 <= x2 || x2 + w2 <= x1 || y1 + h1 <= y2 || y2 + h2 <= y1
}

/// Every cell of the grid is 0 or 1.
pub open spec fn binary(g: Seq<u32>) -> bool {
    forall|i: int| 0 <= i < g.len() ==> #[trigger] g[i] <= 1
}

/// Canvas occupancy: `grid` holds 1 for an occupied cell and 0 for a free
/// one, row by row; `table` is its summed-area table.
pub struct Occupancy {
    pub width: u32,
    pub height: u32,
    pub grid: Vec<u32>,
    pub table: Vec<u32>,
}

proof fn lemma_binary_cells(g: Seq<u32>, w: int)
    requires
        binary(g),
    ensures
        forall|i: int, j: int| #[trigger] cell(g, w, i, j) <= 1,
{
    assert forall|i: int, j: int| #[trigger] cell(g, w, i, j) <= 1 by {
        if 0 <= i < w && 0 <= j && j * w + i < g.len() {
            assert(g[j * w + i] <= 1);
        }
    }
}

/// Every prefix sum of a binary grid fits the table's cells.
proof fn lemma_prefix_fits(g: Seq<u32>, w: int, h: int, x: int, y: int)
    requires
        binary(g),
        w * h <= u32::MAX,
        0 <= x < w,
        0 <= y < h,
    ensures
        prefix_sum(g, w, x, y) <= u32::MAX,
{
    lemma_binary_cells(g, w);
    lemma_prefix_bound(g, w, x, y);
    assert((x + 1) * (y + 1) <= w * h) by (nonlinear_arith)
        requires
            0 <= x < w,
            0 <= y < h,
    ;
}

/// A rectangle that was just committed is no longer free, and a query on a
/// rectangle that shares no cell with it answers as before.
pub proof fn lemma_commit_then_query(
    old_cells: Seq<u32>,
    new_cells: Seq<u32>,
    w: int,
    h: int,
    x: int,
    y: int,
    rw: int,
    rh: int,
    x2: int,
    y2: int,
    rw2: int,
    rh2: int,
)
    requires
        w > 0,
        h > 0,
        old_cells.len() == w * h,
        is_painted(new_cells, old_cells, w, x, y, rw, rh),
        0 <= x,
        0 <= y,
        x + rw <= w,
        y + rh <= h,
    ensures
        rw > 0 && rh > 0 ==> !region_free(new_cells, w, x, y, rw, rh),
        rects_disjoint(x, y, rw, rh, x2, y2, rw2, rh2) ==> (region_free(new_cells, w, x2, y2, rw2, rh2)
            == region_free(old_cells, w, x2, y2, rw2, rh2)),
{
    if rw > 0 && rh > 0 {
        lemma_index_in_bounds(x, y, w, h);
        assert(h * w == w * h) by (nonlinear_arith);
        assert(cell(new_cells, w, x, y) == 1);
        assert(in_rect(x, y, rw, rh, x, y));
    }
    if rects_disjoint(x, y, rw, rh, x2, y2, rw2, rh2) {
        assert forall|cx: int, cy: int| in_rect(x2, y2, rw2, rh2, cx, cy) implies #[trigger] cell(new_cells, w, cx, cy)
            == cell(old_cells, w, cx, cy) by {
            if 0 <= cx < w && 0 <= cy && cy * w + cx < old_cells.len() {
                assert(!in_rect(x, y, rw, rh, cx, cy));
            }
        }
        if region_free(new_cells, w, x2, y2, rw2, rh2) {
            assert forall|cx: int, cy: int| in_rect(x2, y2, rw2, rh2, cx, cy) implies #[trigger] cell(old_cells, w, cx, cy)
                == 0 by {
                assert(cell(new_cells, w, cx, cy) == 0);
            }
        }
        if region_free(old_cells, w, x2, y2, rw2, rh2) {
            assert forall|cx: int, cy: int| in_rect(x2, y2, rw2, rh2, cx, cy) implies #[trigger] cell(new_cells, w, cx, cy)
                == 0 by {
                assert(cell(old_cells, w, cx, cy) == 0);
            }
        }
    }
}

/// Pixel `(x, y)` of the row-major mask `p` of width `w` is foreground
/// (value 0, a placeable cell).
pub open spec fn is_foreground(p: Seq<u8>, w: int, x: int, y: int) -> bool {
    0 <= x < w && 0 <= y && y * w + x < p.len() && p[y * w + x] == 0
}

/// `b` holds the leftmost and rightmost foreground columns of row `y`, or
/// `(0, w)` for a row without foreground.
pub open spec fn skip_row_bounds(p: Seq<u8>, w: int, y: int, b: (usize, usize)) -> bool {
    if exists|x: int| #[trigger] is_foreground(p, w, x, y) {
        &&& is_foreground(p, w, b.0 as int, y)
        &&& is_foreground(p, w, b.1 as int, y)
        &&& forall|x: int| 0 <= x < b.0 ==> !#[trigger] is_foreground(p, w, x, y)
        &&& forall|x: int| b.1 < x < w ==> !#[trigger] is_foreground(p, w, x, y)
    } else {
        b.0 == 0 && b.1 == w
    }
}

/// For each row of the mask `pixels` of width `width`, the leftmost and
/// rightmost foreground columns, found by a scan of the row.
pub fn create_mask_skip_list(pixels: &[u8], width: usize) -> (r: Vec<(usize, usize)>)
    requires
        width > 0,
        pixels@.len() % (width as nat) == 0,
    ensures
        r@.len() * width == pixels@.len(),
        forall|y: int| 0 <= y < r@.len() ==> skip_row_bounds(pixels@, width as int, y, #[trigger] r@[y]),
{
    let n = pixels.len();
    let rows = n / width;
    proof {
        crate::sat::lemma_rows(n as int, width as int);
    }
    let mut r: Vec<(usize, usize)> = Vec::new();
    let mut y: usize = 0;
    while y < rows
        invariant
            r@.len() == y,
            y <= rows,
            rows * width == n,
            n == pixels@.len(),
            width > 0,
            forall|yy: int| 0 <= yy < y ==> skip_row_bounds(pixels@, width as int, yy, #[trigger] r@[yy]),
        decreases rows - y,
    {
        let mut left: Option<usize> = None;
        let mut right: Option<usize> = None;
        let mut x: usize = 0;
        while x < width
            invariant
                y < rows,
                rows * width == n,
                n == pixels@.len(),
                x <= width,
                left is None ==> right is None,
                left is None ==> forall|xx: int| 0 <= xx < x ==> !#[trigger] is_foreground(pixels@, width as int, xx, y as int),
                left matches Some(l) ==> l < x && is_foreground(pixels@, width as int, l as int, y as int) && forall|xx: int|
                    0 <= xx < l ==> !#[trigger] is_foreground(pixels@, width as int, xx, y as int),
                left is Some ==> right is Some,
                right matches Some(rr) ==> rr < x && is_foreground(pixels@, width as int, rr as int, y as int) && forall|xx: int|
                    rr < xx < x ==> !#[trigger] is_foreground(pixels@, width as int, xx, y as int),
            decreases width - x,
        {
            proof {
                crate::sat::lemma_index_in_bounds(x as int, y as int, width as int, rows as int);
            }
            if pixels[y * width + x] == 0 {
                if left.is_none() {
                    left = Some(x);
                }
                right = Some(x);
            }
            x = x + 1;
        }
        let b = match (left, right) {
            (Some(l), Some(rr)) => (l, rr),
            _ => (0, width),
        };
        proof {
            if left is None {
                assert forall|xx: int| !#[trigger] is_foreground(pixels@, width as int, xx, y as int) by {
                    if 0 <= xx < width {
                    }
                }
            }
        }
        r.push(b);
        y = y + 1;
    }
    r
}

impl Occupancy {
    pub open spec fn wf(&self) -> bool {
        &&& self.width > 0
        &&& self.height > 0
        &&& self.width * self.height <= u32::MAX
        &&& self.grid@.len() == self.width * self.height
        &&& binary(self.grid@)
        &&& is_table_of(self.table@, self.grid@, self.width as int)
    }

    /// Builds the occupancy of `grid`, a binary grid of `width x height` cells.
    fn with_grid(width: u32, height: u32, grid: Vec<u32>) -> (r: Occupancy)
        requires
            width > 0,
            height > 0,
            width * height <= u32::MAX,
            grid@.len() == width * height,
            binary(grid@),
        ensures
            r.wf(),
            r.width == width,
            r.height == height,
            r.grid@ == grid@,
    {
        let mut table: Vec<u32> = Vec::new();
        let mut i: usize = 0;
        while i < grid.len()
            invariant
                table@ == grid@.subrange(0, i as int),
                i <= grid@.len(),
            decreases grid@.len() - i,
        {
            table.push(grid[i]);
            i = i + 1;
        }
        assert(table@ == grid@);
        proof {
            assert forall|x: int, y: int|
                0 <= x < width && 0 <= y && y * width + x < table@.len() implies #[trigger] rebuilt(
                    table@,
                    width as int,
                    0,
                    x,
                    y,
                ) <= u32::MAX by {
                assert(y < height) by (nonlinear_arith)
                    requires
                        y * width + x < width * height,
                        0 <= x,
                        width > 0,
                ;
                lemma_prefix_fits(grid@, width as int, height as int, x, y);
            }
            assert(table@.len() % (width as nat) == 0) by (nonlinear_arith)
                requires
                    table@.len() == width * height,
                    width > 0,
            {
                vstd::arithmetic::div_mod::lemma_mod_multiples_basic(height as int, width as int);
                assert(width * height == height * width);
            }
        }
        to_summed_area_table(table.as_mut_slice(), width as usize, 0);
        Occupancy { width, height, grid, table }
    }

    /// An empty canvas of `width x height` cells. `None` when a side is
    /// zero, or when the canvas has more cells than a table cell can count.
    pub fn new(width: u32, height: u32) -> (r: Option<Occupancy>)
        ensures
            r is None == (width == 0 || height == 0 || width * height > u32::MAX),
            r matches Some(o) ==> o.wf() && o.width == width && o.height == height && forall|i: int|
                0 <= i < o.grid@.len() ==> #[trigger] o.grid@[i] == 0,
    {
        proof {
            assert((width as u64) * (height as u64) <= u64::MAX) by (nonlinear_arith);
        }
        if width == 0 || height == 0 || (width as u64) * (height as u64) > u32::MAX as u64 {
            return None;
        }
        let n = width * height;
        let mut grid: Vec<u32> = Vec::new();
        let mut i: u32 = 0;
        while i < n
            invariant
                grid@.len() == i,
                i <= n,
                forall|k: int| 0 <= k < i ==> #[trigger] grid@[k] == 0,
            decreases n - i,
        {
            grid.push(0);
            i = i + 1;
        }
        Some(Occupancy::with_grid(width, height, grid))
    }

    /// The canvas of a mask of `width x height` pixels, row by row: a pixel
    /// of value 0 is a free cell, any other value an occupied one. `None`
    /// when a side is zero, when the canvas has more cells than a table cell
    /// can count, or when `pixels` does not hold `width * height` values.
    pub fn from_mask(width: u32, height: u32, pixels: &[u8]) -> (r: Option<Occupancy>)
        ensures
            r is None == (width == 0 || height == 0 || width * height > u32::MAX || pixels@.len() != width
                * height),
            r matches Some(o) ==> o.wf() && o.width == width && o.height == height && forall|i: int|
                0 <= i < o.grid@.len() ==> #[trigger] o.grid@[i] == if pixels@[i] == 0 {
                    0u32
                } else {
                    1u32
                },
    {
        proof {
            assert((width as u64) * (height as u64) <= u64::MAX) by (nonlinear_arith);
        }
        if width == 0 || height == 0 || (width as u64) * (height as u64) > u32::MAX as u64 {
            return None;
        }
        let n = width * height;
        if pixels.len() != n as usize {
            return None;
        }
        let mut grid: Vec<u32> = Vec::new();
        let mut i: usize = 0;
        while i < n as usize
            invariant
                grid@.len() == i,
                i <= n,
                pixels@.len() == n,
                forall|k: int| 0 <= k < i ==> #[trigger] grid@[k] == if pixels@[k] == 0 {
                    0u32
                } else {
                    1u32
                },
            decreases n - i,
        {
            if pixels[i] == 0 {
                grid.push(0);
            } else {
                grid.push(1);
            }
            i = i + 1;
        }
        Some(Occupancy::with_grid(width, height, grid))
    }

    /// Whether every cell of the `w x h` block right of and below the
    /// corner `(x, y)` (cells `x + 1 ..= x + w`, rows `y + 1 ..= y + h`) is
    /// free.
    pub fn query(&self, x: u32, y: u32, w: u32, h: u32) -> (r: bool)
        requires
            self.wf(),
            x + w < self.width,
            y + h < self.height,
        ensures
            r == region_free(self.grid@, self.width as int, x + 1, y + 1, w as int, h as int),
    {
        proof {
            lemma_query_matches_scan(
                self.table@,
                self.grid@,
                self.width as int,
                self.height as int,
                x + 1,
                y + 1,
                w as int,
                h as int,
            );
            assert((y + h) * self.width + self.width <= self.height * self.width) by (nonlinear_arith)
                requires
                    y + h < self.height,
            ;
            assert(self.height * self.width == self.width * self.height) by (nonlinear_arith);
        }
        region_is_empty(self.table.as_slice(), self.width as usize, x as usize, y as usize, w as usize, h as usize)
    }

    /// Marks occupied the cells of `rect` placed at the corner `point`
    /// (cells `point.x + 1 ..= point.x + rect.width`, rows likewise), and
    /// rebuilds the table from the first row that changed.
    pub fn commit(&mut self, rect: Rect, point: Point)
        requires
            old(self).wf(),
            point.x + rect.width < old(self).width,
            point.y + rect.height < old(self).height,
        ensures
            final(self).wf(),
            final(self).width == old(self).width,
            final(self).height == old(self).height,
            is_painted(
                final(self).grid@,
                old(self).grid@,
                old(self).width as int,
                point.x + 1,
                point.y + 1,
                rect.width as int,
                rect.height as int,
            ),
    {
        let ghost g0 = self.grid@;
        let ghost t0 = self.table@;
        let w = self.width as usize;
        let ghost wi = w as int;
        let ghost h = self.height as int;
        let x0 = point.x as usize + 1;
        let y0 = point.y as usize + 1;
        let x1 = x0 + rect.width as usize;
        let y1 = y0 + rect.height as usize;
        let mut cy = y0;
        while cy < y1
            invariant
                self.width == old(self).width,
                self.height == old(self).height,
                self.table@ == t0,
                w == self.width,
                wi == w,
                h == self.height,
                w > 0,
                w * h <= u32::MAX,
                y0 <= cy <= y1,
                y1 <= h,
                x1 <= w,
                x0 == point.x + 1,
                y0 == point.y + 1,
                x1 == x0 + rect.width,
                y1 == y0 + rect.height,
                g0.len() == w * h,
                self.grid@.len() == g0.len(),
                binary(self.grid@),
                forall|cx: int, cyy: int|
                    0 <= cx < wi && 0 <= cyy && cyy * wi + cx < g0.len() ==> #[trigger] cell(self.grid@, wi, cx, cyy)
                        == if in_rect(x0 as int, y0 as int, rect.width as int, cy - y0, cx, cyy) {
                        1
                    } else {
                        cell(g0, wi, cx, cyy)
                    },
            decreases y1 - cy,
        {
            let mut cx = x0;
            while cx < x1
                invariant
                    self.width == old(self).width,
                    self.height == old(self).height,
                    self.table@ == t0,
                    w == self.width,
                    wi == w,
                    h == self.height,
                    w > 0,
                    w * h <= u32::MAX,
                    y0 <= cy < y1,
                    y1 <= h,
                    x0 <= cx <= x1,
                    x1 <= w,
                    x0 == point.x + 1,
                    y0 == point.y + 1,
                    x1 == x0 + rect.width,
                    y1 == y0 + rect.height,
                    g0.len() == w * h,
                    self.grid@.len() == g0.len(),
                    binary(self.grid@),
                    forall|cxx: int, cyy: int|
                        0 <= cxx < wi && 0 <= cyy && cyy * wi + cxx < g0.len() ==> #[trigger] cell(self.grid@, wi, cxx, cyy)
                            == if in_rect(x0 as int, y0 as int, rect.width as int, cy - y0, cxx, cyy) || (cyy == cy
                            && x0 <= cxx < cx) {
                            1
                        } else {
                            cell(g0, wi, cxx, cyy)
                        },
                decreases x1 - cx,
            {
                proof {
                    lemma_index_in_bounds(cx as int, cy as int, wi, h);
                    assert(h * wi == wi * h) by (nonlinear_arith);
                }
                let idx = cy * w + cx;
                let ghost before = self.grid@;
                self.grid.set(idx, 1);
                proof {
                    assert forall|cxx: int, cyy: int|
                        0 <= cxx < wi && 0 <= cyy && cyy * wi + cxx < g0.len() implies #[trigger] cell(
                            self.grid@,
                            wi,
                            cxx,
                            cyy,
                        ) == if in_rect(x0 as int, y0 as int, rect.width as int, cy - y0, cxx, cyy) || (cyy == cy
                            && x0 <= cxx < cx + 1) {
                            1
                        } else {
                            cell(g0, wi, cxx, cyy)
                        } by {
                        if cyy * wi + cxx == idx {
                            lemma_index_unique(wi, cxx, cyy, cx as int, cy as int);
                        } else {
                            assert(cell(self.grid@, wi, cxx, cyy) == cell(before, wi, cxx, cyy));
                        }
                    }
                    assert forall|i: int| 0 <= i < self.grid@.len() implies #[trigger] self.grid@[i] <= 1 by {
                        if i != idx {
                            assert(self.grid@[i] == before[i]);
                        }
                    }
                }
                cx = cx + 1;
            }
            cy = cy + 1;
        }
        let ghost g1 = self.grid@;
        proof {
            lemma_index_in_bounds(0, y0 as int, wi, h + 1);
            assert(y0 * wi <= h * wi) by (nonlinear_arith)
                requires
                    y0 <= h,
                    wi > 0,
            ;
            assert(h * wi == wi * h) by (nonlinear_arith);
        }
        let n = self.grid.len();
        let start = y0 * w;
        let mut i = start;
        while i < n
            invariant
                self.grid@ == g1,
                self.width == old(self).width,
                self.height == old(self).height,
                n == g1.len(),
                t0.len() == n,
                start <= i <= n,
                self.table@.len() == n,
                forall|k: int| 0 <= k < n ==> #[trigger] self.table@[k] == if start <= k < i {
                    g1[k]
                } else {
                    t0[k]
                },
            decreases n - i,
        {
            let v = self.grid[i];
            self.table.set(i, v);
            i = i + 1;
        }
        let ghost t1 = self.table@;
        proof {
            // Rows above the rectangle kept their cells, so the table there
            // still holds the prefix sums of the new grid.
            assert forall|i: int, j: int| 0 <= i < wi && 0 <= j < y0 implies #[trigger] cell(t1, wi, i, j) == rebuilt(
                g1,
                wi,
                0,
                i,
                j,
            ) by {
                assert forall|a: int, b: int| 0 <= a <= i && 0 <= b <= j implies #[trigger] cell(g0, wi, a, b) == cell(
                    g1,
                    wi,
                    a,
                    b,
                ) by {
                    if 0 <= a < wi && 0 <= b && b * wi + a < g0.len() {
                        assert(cell(g1, wi, a, b) == cell(g0, wi, a, b));
                    }
                }
                lemma_prefix_same(g0, g1, wi, i, j);
                if j * wi + i < n {
                    assert(j * wi + i < start) by (nonlinear_arith)
                        requires
                            0 <= i < wi,
                            0 <= j < y0,
                            start == y0 * wi,
                    ;
                    assert(cell(t1, wi, i, j) == cell(t0, wi, i, j));
                } else {
                    assert(j * wi + i < start) by (nonlinear_arith)
                        requires
                            0 <= i < wi,
                            0 <= j < y0,
                            start == y0 * wi,
                    ;
                }
            }
            assert forall|i: int, j: int| 0 <= i < wi && y0 <= j implies #[trigger] cell(t1, wi, i, j) == cell(
                g1,
                wi,
                i,
                j,
            ) by {
                if 0 <= j && j * wi + i < n {
                    assert(start <= j * wi + i) by (nonlinear_arith)
                        requires
                            wi > 0,
                            0 <= i,
                            y0 <= j,
                            start == y0 * wi,
                    ;
                }
            }
            assert forall|x: int, y: int|
                0 <= x < wi && 0 <= y && y * wi + x < t1.len() implies #[trigger] rebuilt(t1, wi, y0 as int, x, y)
                <= u32::MAX by {
                lemma_rebuild_from_row(t1, g1, wi, y0 as int, x, y);
                assert(y < h) by (nonlinear_arith)
                    requires
                        y * wi + x < wi * h,
                        0 <= x,
                        wi > 0,
                ;
                lemma_prefix_fits(g1, wi, h, x, y);
            }
            assert(t1.len() % (wi as nat) == 0) by (nonlinear_arith)
                requires
                    t1.len() == wi * h,
                    wi > 0,
            {
                vstd::arithmetic::div_mod::lemma_mod_multiples_basic(h, wi);
                assert(wi * h == h * wi);
            }
        }
        to_summed_area_table(self.table.as_mut_slice(), w, y0);
        proof {
            assert forall|x: int, y: int|
                0 <= x < wi && 0 <= y && y * wi + x < self.table@.len() implies #[trigger] cell(self.table@, wi, x, y)
                == prefix_sum(self.grid@, wi, x, y) by {
                lemma_rebuild_from_row(t1, g1, wi, y0 as int, x, y);
            }
        }
    }
}

} // verus!
