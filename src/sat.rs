//! Summed-area tables over row-major grids and rectangle queries on them.

use crate::rng::draw_at_most;
use nanorand::WyRand;
use vstd::prelude::*;

verus! {

/// Size of a candidate bounding box.
#[derive(Debug, Clone, Copy, PartialEq, Eq, Structural)]
pub struct Rect {
    pub width: u32,
    pub height: u32,
}

/// Top-left anchor of a placement.
#[derive(Debug, Clone, Copy, PartialEq, Eq, Structural)]
pub struct Point {
    pub x: u32,
    pub y: u32,
}

/// Value of cell `(x, y)` of the row-major grid `t` of width `w`; zero outside it.
pub open spec fn cell(t: Seq<u32>, w: int, x: int, y: int) -> int {
    if 0 <= x < w && 0 <= y && y * w + x < t.len() {
        t[y * w + x] as int
    } else {
        0
    }
}

/// Sum of the cells `0..=x` of row `y`.
pub open spec fn row_prefix(t: Seq<u32>, w: int, x: int, y: int) -> int
    decreases x + 1,
{
    if x < 0 {
        0
    } else {
        row_prefix(t, w, x - 1, y) + cell(t, w, x, y)
    }
}

/// What an in-place rebuild from row `s` leaves in cell `(x, y)`: rows above
/// `s` are kept, and each later row adds its own prefix to the row above.
pub open spec fn rebuilt(t: Seq<u32>, w: int, s: int, x: int, y: int) -> int
    decreases y + 1,
{
    if y < 0 {
        0
    } else if y < s {
        cell(t, w, x, y)
    } else {
        rebuilt(t, w, s, x, y - 1) + row_prefix(t, w, x, y)
    }
}

/// Sum of the grid `g` over the cells `[0, x] x [0, y]`.
pub open spec fn prefix_sum(g: Seq<u32>, w: int, x: int, y: int) -> int {
    rebuilt(g, w, 0, x, y)
}

/// `t` is the summed-area table of the grid `g` of width `w`.
pub open spec fn is_table_of(t: Seq<u32>, g: Seq<u32>, w: int) -> bool {
    &&& t.len() == g.len()
    &&& forall|x: int, y: int|
        0 <= x < w && 0 <= y && y * w + x < t.len() ==> #[trigger] cell(t, w, x, y)
            == prefix_sum(g, w, x, y)
}

/// The four-lookup sum that a table gives for the rectangle of size
/// `rw x rh` whose top-left cell is `(x, y)`.
pub open spec fn table_region_sum(t: Seq<u32>, w: int, x: int, y: int, rw: int, rh: int) -> int {
    cell(t, w, x + rw - 1, y + rh - 1) - cell(t, w, x - 1, y + rh - 1) - cell(t, w, x + rw - 1, y - 1)
        + cell(t, w, x - 1, y - 1)
}

/// Cell `(cx, cy)` lies in the rectangle of size `rw x rh` at `(x, y)`.
pub open spec fn in_rect(x: int, y: int, rw: int, rh: int, cx: int, cy: int) -> bool {
    x <= cx < x + rw && y <= cy < y + rh
}

/// Every cell of the rectangle of size `rw x rh` at `(x, y)` is zero in `g`.
pub open spec fn region_free(g: Seq<u32>, w: int, x: int, y: int, rw: int, rh: int) -> bool {
    forall|cx: int, cy: int| in_rect(x, y, rw, rh, cx, cy) ==> #[trigger] cell(g, w, cx, cy) == 0
}

pub proof fn lemma_index_in_bounds(x: int, y: int, w: int, rows: int)
    requires
        0 <= x < w,
        0 <= y < rows,
    ensures
        0 <= y * w,
        0 <= y * w + x < rows * w,
        y * w + x + 1 <= rows * w,
{
    assert(y * w + x < rows * w) by (nonlinear_arith)
        requires
            0 <= x < w,
            0 <= y < rows,
    ;
    assert(0 <= y * w) by (nonlinear_arith)
        requires
            0 <= x < w,
            0 <= y < rows,
    ;
}

pub proof fn lemma_index_unique(w: int, x1: int, y1: int, x2: int, y2: int)
    requires
        0 <= x1 < w,
        0 <= x2 < w,
        0 <= y1,
        0 <= y2,
        y1 * w + x1 == y2 * w + x2,
    ensures
        x1 == x2,
        y1 == y2,
{
    if y1 < y2 {
        assert(y1 * w + w <= y2 * w) by (nonlinear_arith)
            requires
                y1 < y2,
                0 <= x1 < w,
        ;
    } else if y2 < y1 {
        assert(y2 * w + w <= y1 * w) by (nonlinear_arith)
            requires
                y2 < y1,
                0 <= x1 < w,
        ;
    }
}

/// The number of whole rows of width `w` in a table of length `len`.
pub proof fn lemma_rows(len: int, w: int)
    requires
        w > 0,
        len >= 0,
        len % w == 0,
    ensures
        (len / w) * w == len,
        len / w >= 0,
{
    vstd::arithmetic::div_mod::lemma_fundamental_div_mod(len, w);
    assert((len / w) * w == len) by (nonlinear_arith)
        requires
            w > 0,
            len % w == 0,
            len == w * (len / w) + len % w,
    ;
    assert(len / w >= 0) by (nonlinear_arith)
        requires
            w > 0,
            len >= 0,
            len == w * (len / w) + len % w,
            0 <= len % w < w,
    ;
}

pub proof fn lemma_row_prefix_nonneg(t: Seq<u32>, w: int, x: int, y: int)
    ensures
        row_prefix(t, w, x, y) >= 0,
    decreases x + 1,
{
    if x >= 0 {
        lemma_row_prefix_nonneg(t, w, x - 1, y);
    }
}

pub proof fn lemma_rebuilt_nonneg(t: Seq<u32>, w: int, s: int, x: int, y: int)
    ensures
        rebuilt(t, w, s, x, y) >= 0,
    decreases y + 1,
{
    if y >= s && y >= 0 {
        lemma_rebuilt_nonneg(t, w, s, x, y - 1);
        lemma_row_prefix_nonneg(t, w, x, y);
    }
}

/// Sum of row `j` over the columns `[x0, x1)`.
pub open spec fn row_segment(g: Seq<u32>, w: int, x0: int, x1: int, j: int) -> int {
    row_prefix(g, w, x1 - 1, j) - row_prefix(g, w, x0 - 1, j)
}

/// Sum of the rows `[y0, y1)` over the columns `[x0, x1)`.
pub open spec fn band(g: Seq<u32>, w: int, x0: int, x1: int, y0: int, y1: int) -> int
    decreases y1 - y0,
{
    if y1 <= y0 {
        0
    } else {
        band(g, w, x0, x1, y0, y1 - 1) + row_segment(g, w, x0, x1, y1 - 1)
    }
}

proof fn lemma_prefix_left_edge(g: Seq<u32>, w: int, y: int)
    ensures
        rebuilt(g, w, 0, -1, y) == 0,
    decreases y + 1,
{
    if y >= 0 {
        lemma_prefix_left_edge(g, w, y - 1);
    }
}

proof fn lemma_prefix_difference(g: Seq<u32>, w: int, x0: int, x1: int, y: int)
    ensures
        rebuilt(g, w, 0, x1 - 1, y) - rebuilt(g, w, 0, x0 - 1, y) == band(g, w, x0, x1, 0, y + 1),
    decreases y + 1,
{
    if y >= 0 {
        lemma_prefix_difference(g, w, x0, x1, y - 1);
    }
}

proof fn lemma_band_split(g: Seq<u32>, w: int, x0: int, x1: int, y0: int, y1: int)
    requires
        0 <= y0 <= y1,
    ensures
        band(g, w, x0, x1, 0, y1) - band(g, w, x0, x1, 0, y0) == band(g, w, x0, x1, y0, y1),
    decreases y1 - y0,
{
    if y1 > y0 {
        lemma_band_split(g, w, x0, x1, y0, y1 - 1);
    }
}

proof fn lemma_row_segment_zero(g: Seq<u32>, w: int, x0: int, x1: int, j: int)
    requires
        0 <= x0 <= x1,
    ensures
        row_segment(g, w, x0, x1, j) >= 0,
        (row_segment(g, w, x0, x1, j) == 0) == (forall|i: int| x0 <= i < x1 ==> #[trigger] cell(g, w, i, j) == 0),
    decreases x1 - x0,
{
    if x1 > x0 {
        lemma_row_segment_zero(g, w, x0, x1 - 1, j);
        assert(row_segment(g, w, x0, x1, j) == row_segment(g, w, x0, x1 - 1, j) + cell(g, w, x1 - 1, j));
        if row_segment(g, w, x0, x1, j) == 0 {
            assert forall|i: int| x0 <= i < x1 implies #[trigger] cell(g, w, i, j) == 0 by {
                if i < x1 - 1 {
                    assert(cell(g, w, i, j) == 0);
                }
            }
        }
    }
}

proof fn lemma_band_zero(g: Seq<u32>, w: int, x0: int, x1: int, y0: int, y1: int)
    requires
        0 <= x0 <= x1,
        y0 <= y1,
    ensures
        band(g, w, x0, x1, y0, y1) >= 0,
        (band(g, w, x0, x1, y0, y1) == 0) == (forall|cx: int, cy: int|
            in_rect(x0, y0, x1 - x0, y1 - y0, cx, cy) ==> #[trigger] cell(g, w, cx, cy) == 0),
    decreases y1 - y0,
{
    if y1 > y0 {
        lemma_band_zero(g, w, x0, x1, y0, y1 - 1);
        lemma_row_segment_zero(g, w, x0, x1, y1 - 1);
        if band(g, w, x0, x1, y0, y1) == 0 {
            assert forall|cx: int, cy: int| in_rect(x0, y0, x1 - x0, y1 - y0, cx, cy) implies #[trigger] cell(g, w, cx, cy) == 0 by {
                if cy < y1 - 1 {
                    assert(in_rect(x0, y0, x1 - x0, y1 - 1 - y0, cx, cy));
                }
            }
        } else {
            if band(g, w, x0, x1, y0, y1 - 1) != 0 {
                let (cx, cy) = choose|cx: int, cy: int|
                    in_rect(x0, y0, x1 - x0, y1 - 1 - y0, cx, cy) && #[trigger] cell(g, w, cx, cy) != 0;
                assert(in_rect(x0, y0, x1 - x0, y1 - y0, cx, cy));
            } else {
                let i = choose|i: int| x0 <= i < x1 && #[trigger] cell(g, w, i, y1 - 1) != 0;
                assert(in_rect(x0, y0, x1 - x0, y1 - y0, i, y1 - 1));
            }
        }
    }
}

/// Reads a table cell one step outside the top or left edge, or inside.
proof fn lemma_table_cell(t: Seq<u32>, g: Seq<u32>, w: int, h: int, cx: int, cy: int)
    requires
        is_table_of(t, g, w),
        g.len() == w * h,
        w > 0,
        -1 <= cx < w,
        -1 <= cy < h,
    ensures
        cell(t, w, cx, cy) == rebuilt(g, w, 0, cx, cy),
{
    if cx == -1 {
        lemma_prefix_left_edge(g, w, cy);
    } else if cy >= 0 {
        lemma_index_in_bounds(cx, cy, w, h);
        assert(h * w == w * h) by (nonlinear_arith);
        assert(cy * w + cx < t.len());
        assert(cell(t, w, cx, cy) == prefix_sum(g, w, cx, cy));
    }
}

/// The four-lookup query on a summed-area table answers exactly whether
/// every cell of the rectangle is zero, as a scan of the grid would.
pub proof fn lemma_query_matches_scan(t: Seq<u32>, g: Seq<u32>, w: int, h: int, x: int, y: int, rw: int, rh: int)
    requires
        is_table_of(t, g, w),
        g.len() == w * h,
        w > 0,
        0 <= x,
        0 <= y,
        0 <= rw,
        0 <= rh,
        x + rw <= w,
        y + rh <= h,
    ensures
        (table_region_sum(t, w, x, y, rw, rh) == 0) == region_free(g, w, x, y, rw, rh),
{
    lemma_table_cell(t, g, w, h, x + rw - 1, y + rh - 1);
    lemma_table_cell(t, g, w, h, x - 1, y + rh - 1);
    lemma_table_cell(t, g, w, h, x + rw - 1, y - 1);
    lemma_table_cell(t, g, w, h, x - 1, y - 1);
    lemma_prefix_difference(g, w, x, x + rw, y + rh - 1);
    lemma_prefix_difference(g, w, x, x + rw, y - 1);
    lemma_band_split(g, w, x, x + rw, y, y + rh);
    lemma_band_zero(g, w, x, x + rw, y, y + rh);
    assert(table_region_sum(t, w, x, y, rw, rh) == band(g, w, x, x + rw, y, y + rh));
}

proof fn lemma_row_prefix_same(g1: Seq<u32>, g2: Seq<u32>, w: int, x: int, j: int)
    requires
        forall|i: int| 0 <= i <= x ==> #[trigger] cell(g1, w, i, j) == cell(g2, w, i, j),
    ensures
        row_prefix(g1, w, x, j) == row_prefix(g2, w, x, j),
    decreases x + 1,
{
    if x >= 0 {
        lemma_row_prefix_same(g1, g2, w, x - 1, j);
    }
}

/// Grids that agree on rows `0..=y` have the same prefix sums there.
pub proof fn lemma_prefix_same(g1: Seq<u32>, g2: Seq<u32>, w: int, x: int, y: int)
    requires
        forall|i: int, j: int| 0 <= i <= x && 0 <= j <= y ==> #[trigger] cell(g1, w, i, j) == cell(g2, w, i, j),
    ensures
        rebuilt(g1, w, 0, x, y) == rebuilt(g2, w, 0, x, y),
    decreases y + 1,
{
    if y >= 0 {
        lemma_prefix_same(g1, g2, w, x, y - 1);
        assert forall|i: int| 0 <= i <= x implies #[trigger] cell(g1, w, i, y) == cell(g2, w, i, y) by {
            assert(cell(g1, w, i, y) == cell(g2, w, i, y));
        }
        lemma_row_prefix_same(g1, g2, w, x, y);
    }
}

/// Rebuilding from row `s` a table whose rows above `s` already hold the
/// prefix sums of `g`, and whose other rows hold `g` itself, gives the
/// summed-area table of `g`.
pub proof fn lemma_rebuild_from_row(t: Seq<u32>, g: Seq<u32>, w: int, s: int, x: int, y: int)
    requires
        0 <= x < w,
        forall|i: int, j: int| 0 <= i < w && 0 <= j < s ==> #[trigger] cell(t, w, i, j) == rebuilt(g, w, 0, i, j),
        forall|i: int, j: int| 0 <= i < w && s <= j ==> #[trigger] cell(t, w, i, j) == cell(g, w, i, j),
    ensures
        rebuilt(t, w, s, x, y) == rebuilt(g, w, 0, x, y),
    decreases y + 1,
{
    if y >= 0 {
        if y < s {
            assert(cell(t, w, x, y) == rebuilt(g, w, 0, x, y));
        } else {
            lemma_rebuild_from_row(t, g, w, s, x, y - 1);
            assert forall|i: int| 0 <= i <= x implies #[trigger] cell(t, w, i, y) == cell(g, w, i, y) by {
                assert(cell(t, w, i, y) == cell(g, w, i, y));
            }
            lemma_row_prefix_same(t, g, w, x, y);
        }
    }
}

proof fn lemma_row_prefix_bound(g: Seq<u32>, w: int, x: int, j: int)
    requires
        forall|i: int, jj: int| #[trigger] cell(g, w, i, jj) <= 1,
    ensures
        row_prefix(g, w, x, j) <= if x < 0 { 0 } else { x + 1 },
    decreases x + 1,
{
    if x >= 0 {
        lemma_row_prefix_bound(g, w, x - 1, j);
        assert(cell(g, w, x, j) <= 1);
    }
}

/// On a grid of zeros and ones the prefix sum is at most the area it covers.
pub proof fn lemma_prefix_bound(g: Seq<u32>, w: int, x: int, y: int)
    requires
        forall|i: int, j: int| #[trigger] cell(g, w, i, j) <= 1,
        x >= 0,
    ensures
        rebuilt(g, w, 0, x, y) <= if y < 0 { 0 } else { (x + 1) * (y + 1) },
    decreases y + 1,
{
    if y >= 0 {
        lemma_prefix_bound(g, w, x, y - 1);
        lemma_row_prefix_bound(g, w, x, y);
        assert((x + 1) * y + (x + 1) == (x + 1) * (y + 1)) by (nonlinear_arith);
        if y == 0 {
            assert(rebuilt(g, w, 0, x, y - 1) == 0);
        }
    }
}

/// Reads cell `(x - 1, y - 1)` of the table, or zero on the first row or column.
fn corner(table: &[u32], width: usize, x: usize, y: usize) -> (r: u32)
    requires
        x <= width,
        x > 0 && y > 0 ==> (y - 1) * width + (x - 1) < table@.len(),
    ensures
        r as int == cell(table@, width as int, x - 1, y - 1),
{
    if x == 0 || y == 0 {
        0
    } else {
        let n = table.len();
        proof {
            assert(0 <= (y - 1) * width) by (nonlinear_arith)
                requires
                    y > 0,
            ;
        }
        table[(y - 1) * width + (x - 1)]
    }
}

/// Tells whether the block of `width x height` cells lying right of and
/// below the table corner `(x, y)` (cells `x + 1 ..= x + width`, rows
/// `y + 1 ..= y + height`) holds nothing but zeros, from the four table
/// cells `(x, y)`, `(x + width, y)`, `(x, y + height)` and
/// `(x + width, y + height)` of the summed-area table `table` of width
/// `table_width`.
pub fn region_is_empty(
    table: &[u32],
    table_width: usize,
    x: usize,
    y: usize,
    width: usize,
    height: usize,
) -> (r: bool)
    requires
        x + width < table_width,
        (y + height) * table_width + x + width < table@.len(),
    ensures
        r == (table_region_sum(table@, table_width as int, x + 1, y + 1, width as int, height as int) == 0),
{
    let n = table.len();
    proof {
        assert(y * table_width <= (y + height) * table_width) by (nonlinear_arith);
        assert(y + height <= (y + height) * table_width) by (nonlinear_arith)
            requires
                table_width > 0,
        ;
    }
    let tl = corner(table, table_width, x + 1, y + 1);
    let tr = corner(table, table_width, x + width + 1, y + 1);
    let bl = corner(table, table_width, x + 1, y + height + 1);
    let br = corner(table, table_width, x + width + 1, y + height + 1);
    tl as u64 + br as u64 == tr as u64 + bl as u64
}

/// Turns the rows of `table` from `start_row` on into summed-area rows, in
/// place: each such cell becomes its raw value plus the raw values to its
/// left in its row plus the (already summed) cell above it. Rows above
/// `start_row` are read as an already summed prefix and left as they are.
pub fn to_summed_area_table(table: &mut [u32], width: usize, start_row: usize)
    requires
        width > 0,
        old(table)@.len() % (width as nat) == 0,
        forall|x: int, y: int|
            0 <= x < width && 0 <= y && y * width + x < old(table)@.len() ==> #[trigger] rebuilt(
                old(table)@,
                width as int,
                start_row as int,
                x,
                y,
            ) <= u32::MAX,
    ensures
        final(table)@.len() == old(table)@.len(),
        forall|x: int, y: int|
            0 <= x < width && 0 <= y && y * width + x < old(table)@.len() ==> #[trigger] cell(
                final(table)@,
                width as int,
                x,
                y,
            ) == rebuilt(old(table)@, width as int, start_row as int, x, y),
{
    let ghost t0 = table@;
    let ghost w = width as int;
    let ghost s = start_row as int;
    let n = table.len();
    let rows = n / width;
    proof {
        lemma_rows(t0.len() as int, w);
    }
    let mut y = start_row;
    while y < rows
        invariant
            table@.len() == t0.len(),
            w == width as int,
            s == start_row as int,
            width > 0,
            rows * width == t0.len(),
            n == t0.len(),
            start_row <= y || rows <= y,
            forall|x: int, yy: int|
                0 <= x < w && 0 <= yy && yy * w + x < t0.len() ==> #[trigger] rebuilt(t0, w, s, x, yy) <= u32::MAX,
            forall|x: int, yy: int|
                0 <= x < w && 0 <= yy && yy * w + x < t0.len() ==> #[trigger] cell(table@, w, x, yy)
                    == if yy < y { rebuilt(t0, w, s, x, yy) } else { cell(t0, w, x, yy) },
        decreases rows - y,
    {
        let mut sum: u32 = 0;
        let mut x: usize = 0;
        while x < width
            invariant
                table@.len() == t0.len(),
                w == width as int,
                s == start_row as int,
                width > 0,
                rows * width == t0.len(),
                n == t0.len(),
                start_row <= y < rows,
                x <= width,
                sum == row_prefix(t0, w, x - 1, y as int),
                forall|xx: int, yy: int|
                    0 <= xx < w && 0 <= yy && yy * w + xx < t0.len() ==> #[trigger] rebuilt(t0, w, s, xx, yy) <= u32::MAX,
                forall|xx: int, yy: int|
                    0 <= xx < w && 0 <= yy && yy * w + xx < t0.len() ==> #[trigger] cell(table@, w, xx, yy)
                        == if yy < y || (yy == y && xx < x) {
                        rebuilt(t0, w, s, xx, yy)
                    } else {
                        cell(t0, w, xx, yy)
                    },
            decreases width - x,
        {
            proof {
                lemma_index_in_bounds(x as int, y as int, w, rows as int);
            }
            let idx = y * width + x;
            let raw = table[idx];
            assert(cell(table@, w, x as int, y as int) == table@[idx as int]);
            assert(raw == cell(t0, w, x as int, y as int));
            let above: u32 = if y == 0 {
                0
            } else {
                proof {
                    lemma_index_in_bounds(x as int, y - 1, w, rows as int);
                    assert(width <= idx) by (nonlinear_arith)
                        requires
                            idx == y * width + x,
                            y >= 1,
                    ;
                }
                table[idx - width]
            };
            proof {
                assert((y - 1) * w + x == idx - width) by (nonlinear_arith)
                    requires
                        idx == y * w + x,
                        w == width,
                ;
                assert(above == rebuilt(t0, w, s, x as int, y - 1)) by {
                    if y > 0 {
                        assert(cell(table@, w, x as int, y - 1) == table@[idx - width]);
                        if y - 1 < s {
                            assert(rebuilt(t0, w, s, x as int, y - 1) == cell(t0, w, x as int, y - 1));
                        }
                    }
                }
                lemma_rebuilt_nonneg(t0, w, s, x as int, y - 1);
                assert(rebuilt(t0, w, s, x as int, y as int) == above + row_prefix(t0, w, x as int, y as int));
                assert(rebuilt(t0, w, s, x as int, y as int) <= u32::MAX);
            }
            let v = raw + sum + above;
            let ghost before = table@;
            table[idx] = v;
            proof {
                assert forall|xx: int, yy: int|
                    0 <= xx < w && 0 <= yy && yy * w + xx < t0.len() implies #[trigger] cell(table@, w, xx, yy)
                        == if yy < y || (yy == y && xx < x + 1) {
                        rebuilt(t0, w, s, xx, yy)
                    } else {
                        cell(t0, w, xx, yy)
                    } by {
                    if yy * w + xx == idx {
                        lemma_index_unique(w, xx, yy, x as int, y as int);
                    } else {
                        assert(cell(table@, w, xx, yy) == cell(before, w, xx, yy));
                    }
                }
            }
            sum = sum + raw;
            x = x + 1;
        }
        y = y + 1;
    }
    proof {
        assert forall|x: int, yy: int|
            0 <= x < w && 0 <= yy && yy * w + x < t0.len() implies #[trigger] cell(table@, w, x, yy)
                == rebuilt(t0, w, s, x, yy) by {
            if yy >= y {
                assert(yy < rows) by (nonlinear_arith)
                    requires
                        yy * w + x < rows * w,
                        0 <= x,
                        w > 0,
                ;
            }
        }
    }
}

/// The rectangle `rect` anchored at the table corner `(x, y)`, that is the
/// cells right of and below it, is free according to the table `t`.
pub open spec fn anchor_free(t: Seq<u32>, tw: int, rect: Rect, x: int, y: int) -> bool {
    table_region_sum(t, tw, x + 1, y + 1, rect.width as int, rect.height as int) == 0
}

/// First column scanned on row `y`: the row's leftmost bound when a skip
/// list is given.
pub open spec fn scan_start(skip: Option<Seq<(usize, usize)>>, y: int) -> int {
    match skip {
        Some(s) => s[y].0 as int,
        None => 0,
    }
}

/// One past the last column scanned on row `y`.
pub open spec fn scan_end(skip: Option<Seq<(usize, usize)>>, max_x: int, y: int) -> int {
    match skip {
        Some(s) => if s[y].1 + 1 < max_x {
            s[y].1 + 1
        } else {
            max_x
        },
        None => max_x,
    }
}

/// `(x, y)` is one of the anchors that a search visits.
pub open spec fn in_scan(skip: Option<Seq<(usize, usize)>>, max_x: int, max_y: int, x: int, y: int) -> bool {
    0 <= y < max_y && scan_start(skip, y) <= x < scan_end(skip, max_x, y)
}

/// The anchors that the unrestricted search visits for `rect`.
pub open spec fn in_canvas_scan(tw: int, th: int, rect: Rect, x: int, y: int) -> bool {
    in_scan(None, tw - rect.width, th - rect.height, x, y)
}

/// The anchors that the search restricted by a skip list visits for `rect`.
pub open spec fn in_masked_scan(skip: Seq<(usize, usize)>, tw: int, th: int, rect: Rect, x: int, y: int) -> bool {
    in_scan(Some(skip), tw - rect.width, th - rect.height, x, y)
}

/// One step of size-one reservoir sampling: the candidate met after `seen`
/// earlier ones replaces the pick when the number drawn from `0..=seen`
/// equals `seen`.
pub fn reservoir_pick(pick: Option<Point>, seen: u64, draw: u64, candidate: Point) -> (r: Option<Point>)
    ensures
        r == if draw == seen {
            Some(candidate)
        } else {
            pick
        },
{
    if draw == seen {
        Some(candidate)
    } else {
        pick
    }
}

spec fn skip_view(skip: Option<&[(usize, usize)]>) -> Option<Seq<(usize, usize)>> {
    match skip {
        Some(s) => Some(s@),
        None => None,
    }
}

fn search(
    table: &[u32],
    table_width: u32,
    table_height: u32,
    skip: Option<&[(usize, usize)]>,
    rect: &Rect,
    rng: &mut WyRand,
) -> (r: Option<Point>)
    requires
        table_width > 0,
        rect.width <= table_width,
        rect.height <= table_height,
        table@.len() == table_width * table_height,
        skip matches Some(s) ==> s@.len() >= table_height - rect.height,
    ensures
        r is None == !(exists|x: int, y: int|
            in_scan(skip_view(skip), table_width - rect.width, table_height - rect.height, x, y)
                && #[trigger] anchor_free(table@, table_width as int, *rect, x, y)),
        r matches Some(p) ==> in_scan(
            skip_view(skip),
            table_width - rect.width,
            table_height - rect.height,
            p.x as int,
            p.y as int,
        ) && anchor_free(table@, table_width as int, *rect, p.x as int, p.y as int),
{
    let ghost sk = skip_view(skip);
    let max_x = table_width - rect.width;
    let max_y = table_height - rect.height;
    let mut available: u64 = 0;
    let mut pick: Option<Point> = None;
    let mut y: u32 = 0;
    while y < max_y
        invariant
            sk == skip_view(skip),
            table_width > 0,
            rect.width <= table_width,
            rect.height <= table_height,
            table@.len() == table_width * table_height,
            skip matches Some(s) ==> s@.len() >= table_height - rect.height,
            max_x == table_width - rect.width,
            max_y == table_height - rect.height,
            y <= max_y,
            available <= y * (table_width as int),
            available == 0 ==> forall|xx: int, yy: int|
                yy < y && in_scan(sk, max_x as int, max_y as int, xx, yy) ==> !#[trigger] anchor_free(
                    table@,
                    table_width as int,
                    *rect,
                    xx,
                    yy,
                ),
            available > 0 ==> pick is Some,
            pick matches Some(p) ==> in_scan(sk, max_x as int, max_y as int, p.x as int, p.y as int)
                && anchor_free(table@, table_width as int, *rect, p.x as int, p.y as int),
        decreases max_y - y,
    {
        let lo: usize = match skip {
            Some(s) => s[y as usize].0,
            None => 0,
        };
        let hi: usize = match skip {
            Some(s) => if max_x > 0 && s[y as usize].1 < max_x as usize - 1 {
                s[y as usize].1 + 1
            } else {
                max_x as usize
            },
            None => max_x as usize,
        };
        assert(lo == scan_start(sk, y as int));
        assert(hi == scan_end(sk, max_x as int, y as int));
        let mut x: usize = lo;
        let ghost available0 = available;
        while x < hi
            invariant
                sk == skip_view(skip),
                table_width > 0,
                rect.width <= table_width,
                rect.height <= table_height,
                table@.len() == table_width * table_height,
                max_x == table_width - rect.width,
                max_y == table_height - rect.height,
                y < max_y,
                lo == scan_start(sk, y as int),
                hi == scan_end(sk, max_x as int, y as int),
                hi <= max_x,
                lo <= x,
                x == lo || x <= hi,
                available <= available0 + (if x > lo { x - lo } else { 0 }),
                available0 <= y * (table_width as int),
                available == 0 ==> forall|xx: int, yy: int|
                    (yy < y || (yy == y && xx < x)) && in_scan(sk, max_x as int, max_y as int, xx, yy)
                        ==> !#[trigger] anchor_free(table@, table_width as int, *rect, xx, yy),
                available > 0 ==> pick is Some,
                pick matches Some(p) ==> in_scan(sk, max_x as int, max_y as int, p.x as int, p.y as int)
                    && anchor_free(table@, table_width as int, *rect, p.x as int, p.y as int),
            decreases hi - x,
        {
            proof {
                assert((y + rect.height) * table_width + table_width <= table_height * table_width) by (nonlinear_arith)
                    requires
                        y + rect.height < table_height,
                ;
                assert(table_height * table_width == table_width * table_height) by (nonlinear_arith);
                assert((y + 1) * (table_width as int) <= 0xFFFF_FFFFint * 0xFFFF_FFFFint) by (nonlinear_arith)
                    requires
                        y < 0xFFFF_FFFFint,
                        table_width <= 0xFFFF_FFFFint,
                ;
                assert(y * (table_width as int) + table_width == (y + 1) * (table_width as int)) by (nonlinear_arith);
            }
            let empty = region_is_empty(
                table,
                table_width as usize,
                x,
                y as usize,
                rect.width as usize,
                rect.height as usize,
            );
            if empty {
                let n = draw_at_most(rng, available);
                pick = reservoir_pick(pick, available, n, Point { x: x as u32, y });
                available = available + 1;
            }
            x = x + 1;
        }
        proof {
            assert(hi - lo <= table_width);
            assert(available <= (y + 1) * (table_width as int)) by (nonlinear_arith)
                requires
                    available <= available0 + (if x > lo { x - lo } else { 0 }),
                    available0 <= y * (table_width as int),
                    x <= hi || x == lo,
                    hi - lo <= table_width,
            ;
        }
        y = y + 1;
    }
    pick
}

/// Picks, uniformly at random through reservoir sampling, one anchor at
/// which `rect` lies on free cells, scanning rows `0..table_height -
/// rect.height` and columns `0..table_width - rect.width` of the
/// summed-area table `table`. `None` when no such anchor exists.
pub fn find_space_for_rect(table: &[u32], table_width: u32, table_height: u32, rect: &Rect, rng: &mut WyRand) -> (r:
    Option<Point>)
    requires
        table_width > 0,
        rect.width <= table_width,
        rect.height <= table_height,
        table@.len() == table_width * table_height,
    ensures
        r is None == !(exists|x: int, y: int|
            in_canvas_scan(table_width as int, table_height as int, *rect, x, y) && #[trigger] anchor_free(
                table@,
                table_width as int,
                *rect,
                x,
                y,
            )),
        r matches Some(p) ==> in_canvas_scan(table_width as int, table_height as int, *rect, p.x as int, p.y as int)
            && anchor_free(table@, table_width as int, *rect, p.x as int, p.y as int),
{
    search(table, table_width, table_height, None, rect, rng)
}

/// As `find_space_for_rect`, but on each row `y` only the columns from
/// `skip_list[y].0` through `skip_list[y].1` are scanned.
pub fn find_space_for_rect_masked(
    table: &[u32],
    table_width: u32,
    table_height: u32,
    skip_list: &[(usize, usize)],
    rect: &Rect,
    rng: &mut WyRand,
) -> (r: Option<Point>)
    requires
        table_width > 0,
        rect.width <= table_width,
        rect.height <= table_height,
        table@.len() == table_width * table_height,
        skip_list@.len() >= table_height - rect.height,
    ensures
        r is None == !(exists|x: int, y: int|
            in_masked_scan(skip_list@, table_width as int, table_height as int, *rect, x, y)
                && #[trigger] anchor_free(table@, table_width as int, *rect, x, y)),
        r matches Some(p) ==> in_masked_scan(
            skip_list@,
            table_width as int,
            table_height as int,
            *rect,
            p.x as int,
            p.y as int,
        ) && anchor_free(table@, table_width as int, *rect, p.x as int, p.y as int),
{
    search(table, table_width, table_height, Some(skip_list), rect, rng)
}

} // verus!
