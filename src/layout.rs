//! The placement planner: for each ranked word in turn, a font size, an
//! orientation and a free position on the canvas.

use crate::occupancy::{is_painted, Occupancy};
use crate::rng::draw_byte;
use crate::sat::{
    anchor_free, cell, find_space_for_rect, find_space_for_rect_masked, in_canvas_scan, in_masked_scan, in_rect,
    lemma_index_in_bounds, lemma_query_matches_scan, region_free, Point, Rect,
};
use nanorand::WyRand;
use vstd::prelude::*;

verus! {

/// Options of the planner. Font sizes are in pixels, the two chances in
/// percent.
#[derive(Debug, Clone, Copy, PartialEq, Eq)]
pub struct LayoutConfig {
    pub min_font_size: u32,
    pub max_font_size: Option<u32>,
    pub font_step: u32,
    pub word_margin: u32,
    pub word_rotate_percent: u32,
    pub relative_font_scaling_percent: u32,
    pub repeat: bool,
}

impl LayoutConfig {
    pub open spec fn wf(&self) -> bool {
        self.font_step > 0 && self.relative_font_scaling_percent <= 100
    }
}

/// A word that found its place on the canvas.
#[derive(Debug, Clone, PartialEq, Eq)]
pub struct PlacedWord {
    pub text: String,
    pub font_size: u32,
    /// The bounding box, margin included, rotation applied.
    pub rect: Rect,
    /// Top-left cell of `rect`.
    pub position: Point,
    pub rotated: bool,
    /// Occurrences of the word in the analysed text.
    pub count: u64,
    /// Place of the word in the ranked list.
    pub rank: usize,
    /// Place of the word in drawing order.
    pub index: usize,
}

/// Why no layout could be made.
#[derive(Debug, Clone, Copy, PartialEq, Eq, Structural)]
pub enum LayoutError {
    NoWords,
}

/// The next smaller font size to try, one `font_step` down, or `None`
/// once that would fall under `min_font_size` or reach zero.
pub open spec fn next_font_size(font_size: int, font_step: int, min_font_size: int) -> Option<int> {
    if font_size - font_step >= min_font_size && font_size - font_step > 0 {
        Some(font_size - font_step)
    } else {
        None
    }
}

/// The size a word inherits from the previous one, for a blend of
/// `percent` out of 100 between the ratio `count / last_count` and 1.
pub open spec fn scaled_font_size(font_size: int, percent: int, count: int, last_count: int) -> int {
    let v = font_size * (percent * count + (100 - percent) * last_count) / (100 * last_count);
    if v > u32::MAX {
        u32::MAX as int
    } else {
        v
    }
}

/// The size to start from: the canvas width times the height-to-width
/// ratio of the first word's box, times the free fraction of the canvas,
/// capped by `max_font_size`.
pub open spec fn start_font_size(
    canvas_width: int,
    canvas_height: int,
    box_width: int,
    box_height: int,
    free: int,
    max_font_size: Option<u32>,
) -> int {
    let base = if box_width == 0 {
        canvas_height
    } else {
        canvas_width * box_height / box_width * free / (canvas_width * canvas_height)
    };
    let capped = if base > u32::MAX {
        u32::MAX as int
    } else {
        base
    };
    match max_font_size {
        Some(m) => if capped > m {
            m as int
        } else {
            capped
        },
        None => capped,
    }
}

/// One `font_step` down from `font_size`, if that stays at or above
/// `min_font_size` and above zero.
pub fn check_font_size(font_size: u32, font_step: u32, min_font_size: u32) -> (r: Option<u32>)
    ensures
        r matches Some(n) ==> next_font_size(font_size as int, font_step as int, min_font_size as int) == Some(n as int),
        r is None ==> next_font_size(font_size as int, font_step as int, min_font_size as int) is None,
{
    if font_size >= font_step && font_size - font_step >= min_font_size && font_size - font_step > 0 {
        Some(font_size - font_step)
    } else {
        None
    }
}

/// Each size the decay tries is exactly one step below the one before,
/// and strictly smaller whenever the step is positive.
pub proof fn lemma_decay_steps_down(font_size: int, font_step: int, min_font_size: int)
    requires
        font_step > 0,
    ensures
        next_font_size(font_size, font_step, min_font_size) matches Some(n) ==> n == font_size - font_step && n
            < font_size && n >= min_font_size && n > 0,
{
}

/// The inherited size of a word given its count and the last placed word's.
pub fn scale_font_size(font_size: u32, percent: u32, count: u64, last_count: u64) -> (r: u32)
    requires
        percent <= 100,
        last_count > 0,
    ensures
        r == scaled_font_size(font_size as int, percent as int, count as int, last_count as int),
        count <= last_count ==> r <= font_size,
{
    proof {
        assert((percent as u128) * (count as u128) <= 100 * 0xFFFF_FFFF_FFFF_FFFFu128) by (nonlinear_arith)
            requires
                percent <= 100,
                count <= 0xFFFF_FFFF_FFFF_FFFFu64,
        ;
        assert(((100 - percent) as u128) * (last_count as u128) <= 100 * 0xFFFF_FFFF_FFFF_FFFFu128) by (nonlinear_arith)
            requires
                percent <= 100,
                last_count <= 0xFFFF_FFFF_FFFF_FFFFu64,
        ;
    }
    let num: u128 = (percent as u128) * (count as u128) + ((100 - percent) as u128) * (last_count as u128);
    proof {
        assert((font_size as u128) * num <= 0xFFFF_FFFFu128 * (200 * 0xFFFF_FFFF_FFFF_FFFFu128)) by (nonlinear_arith)
            requires
                num <= 200 * 0xFFFF_FFFF_FFFF_FFFFu128,
                font_size <= 0xFFFF_FFFFu32,
        ;
    }
    let v = (font_size as u128) * num / (100 * (last_count as u128));
    proof {
        if count <= last_count {
            assert(num <= 100 * last_count) by (nonlinear_arith)
                requires
                    num == percent * count + (100 - percent) * last_count,
                    count <= last_count,
                    percent <= 100,
            ;
            assert(font_size * num <= font_size * (100 * last_count)) by (nonlinear_arith)
                requires
                    num <= 100 * last_count,
            ;
            assert((font_size * num) / (100 * last_count) <= (font_size * (100 * last_count)) / (100 * last_count)) by {
                vstd::arithmetic::div_mod::lemma_div_is_ordered(
                    font_size * num,
                    font_size * (100 * last_count),
                    100 * last_count,
                );
            }
            vstd::arithmetic::div_mod::lemma_div_by_multiple(font_size as int, 100 * last_count);
        }
    }
    if v > u32::MAX as u128 {
        u32::MAX
    } else {
        v as u32
    }
}

/// Number of zero cells among the first `n` of `g`.
pub open spec fn zeros(g: Seq<u32>, n: int) -> int
    decreases n,
{
    if n <= 0 {
        0
    } else {
        zeros(g, n - 1) + if g[n - 1] == 0 {
            1int
        } else {
            0
        }
    }
}

/// Number of free cells of a grid.
fn free_cells(grid: &Vec<u32>) -> (r: u64)
    ensures
        r == zeros(grid@, grid@.len() as int),
        r <= grid@.len(),
{
    let mut n: u64 = 0;
    let mut i: usize = 0;
    while i < grid.len()
        invariant
            n <= i,
            n == zeros(grid@, i as int),
            i <= grid@.len(),
        decreases grid@.len() - i,
    {
        if grid[i] == 0 {
            n = n + 1;
        }
        i = i + 1;
    }
    n
}

/// Whether a word starts rotated, given the random byte drawn for it:
/// with probability `percent` out of 100 over a uniform byte.
pub fn initial_rotated(byte: u8, percent: u32) -> (r: bool)
    ensures
        r == ((byte as int) < 256 * (if percent > 100 {
            100
        } else {
            percent as int
        }) / 100),
{
    let p: u32 = if percent > 100 {
        100
    } else {
        percent
    };
    (byte as u32) < 256 * p / 100
}

/// `rect` at the corner `p` (its cells right of and below `p`) lies inside the canvas of `occ` and covers only free cells.
pub open spec fn fits_free(occ: &Occupancy, p: Point, rect: Rect) -> bool {
    &&& p.x + rect.width < occ.width
    &&& p.y + rect.height < occ.height
    &&& region_free(occ.grid@, occ.width as int, p.x + 1, p.y + 1, rect.width as int, rect.height as int)
}

/// `size` is reached from `start` by whole steps of `step` downwards.
pub open spec fn decayed_from(start: int, size: int, step: int) -> bool {
    size <= start && exists|k: nat| size == #[trigger] step_down(start, k as int, step)
}

/// `start` lowered by `k` steps of `step`.
pub open spec fn step_down(start: int, k: int, step: int) -> int {
    start - k * step
}

/// The box of a `width x height` glyph run with the margin added, turned
/// by a quarter when `rotated`.
pub open spec fn word_box(width: int, height: int, margin: int, rotated: bool) -> (int, int) {
    if rotated {
        (height + margin, width + margin)
    } else {
        (width + margin, height + margin)
    }
}

/// What the search for one word does next.
#[derive(Debug, Clone, Copy, PartialEq, Eq, Structural)]
pub enum Attempt {
    /// Place the word at the anchor found.
    Place,
    /// Measure and search again at `size`, in orientation `rotated`;
    /// `tried_other` tells whether the other orientation is in use.
    Retry { size: u32, rotated: bool, tried_other: bool },
    /// Skip the word.
    GiveUp,
}

/// The next step after an attempt at `size`: place when the box fits the
/// canvas and an anchor was found; else one `font_step` down while that
/// stays at or above `min_font_size`; else, for a box that did fit, the
/// other orientation from `initial`, once; else give up.
pub open spec fn attempt_after(
    size: u32,
    initial: u32,
    font_step: u32,
    min_font_size: u32,
    rotated: bool,
    tried_other: bool,
    fits: bool,
    found: bool,
) -> Attempt {
    let next = next_font_size(size as int, font_step as int, min_font_size as int);
    if fits && found {
        Attempt::Place
    } else if next is Some {
        Attempt::Retry { size: (size - font_step) as u32, rotated, tried_other }
    } else if fits && !tried_other {
        Attempt::Retry { size: initial, rotated: !rotated, tried_other: true }
    } else {
        Attempt::GiveUp
    }
}

/// Decides the next step of one word's search from what the last attempt
/// met: whether the box fitted the canvas and whether an anchor was found.
pub fn next_attempt(
    size: u32,
    initial: u32,
    font_step: u32,
    min_font_size: u32,
    rotated: bool,
    tried_other: bool,
    fits: bool,
    found: bool,
) -> (r: Attempt)
    ensures
        r == attempt_after(size, initial, font_step, min_font_size, rotated, tried_other, fits, found),
{
    if fits && found {
        return Attempt::Place;
    }
    match check_font_size(size, font_step, min_font_size) {
        Some(n) => Attempt::Retry { size: n, rotated, tried_other },
        None => {
            if fits && !tried_other {
                Attempt::Retry { size: initial, rotated: !rotated, tried_other: true }
            } else {
                Attempt::GiveUp
            }
        },
    }
}

/// Searches a place for word `word`, starting at `font_size`: the size
/// decays by `font_step` while the box does not fit the canvas or finds no
/// free anchor; once sizes are exhausted the other orientation is tried
/// once from `font_size`. `Ok` gives the anchor, the box, the orientation
/// and the size used; `Err` the last size tried.
fn place_word<F: Fn(usize, u32) -> (u32, u32)>(
    word: usize,
    font_size: u32,
    occ: &Occupancy,
    skip_list: Option<&[(usize, usize)]>,
    config: &LayoutConfig,
    rng: &mut WyRand,
    measure: &F,
) -> (r: Result<(Point, Rect, bool, u32), u32>)
    requires
        occ.wf(),
        config.wf(),
        font_size >= config.min_font_size,
        forall|i: usize, s: u32| call_requires(*measure, (i, s)),
        skip_list matches Some(s) ==> s@.len() >= occ.height,
    ensures
        match r {
            Ok((p, rect, rotated, fs)) => fits_free(occ, p, rect) && decayed_from(
                font_size as int,
                fs as int,
                config.font_step as int,
            ) && fs >= config.min_font_size && measured(*measure, word, fs, config.word_margin, rotated, rect),
            Err(fs) => decayed_from(font_size as int, fs as int, config.font_step as int) && fs >= config.min_font_size
                && next_font_size(fs as int, config.font_step as int, config.min_font_size as int) is None,
        },
{
    let byte = draw_byte(rng);
    let mut rotated = initial_rotated(byte, config.word_rotate_percent);
    let mut tried_other = false;
    let mut size = font_size;
    let width = occ.width;
    let height = occ.height;
    proof {
        assert(font_size == step_down(font_size as int, 0nat as int, config.font_step as int));
    }
    loop
        invariant
            occ.wf(),
            config.wf(),
            width == occ.width,
            height == occ.height,
            font_size >= config.min_font_size,
            size >= config.min_font_size,
            decayed_from(font_size as int, size as int, config.font_step as int),
            forall|i: usize, s: u32| call_requires(*measure, (i, s)),
            skip_list matches Some(s) ==> s@.len() >= occ.height,
        decreases (if tried_other { 0int } else { font_size as int + 1 }) + size,
    {
        let (gw, gh) = measure(word, size);
        let margin = config.word_margin as u64;
        let (bw, bh): (u64, u64) = if rotated {
            (gh as u64 + margin, gw as u64 + margin)
        } else {
            (gw as u64 + margin, gh as u64 + margin)
        };
        let fits = bw <= width as u64 && bh <= height as u64;
        let rect = Rect { width: bw as u32, height: bh as u32 };
        proof {
            assert(occ.table@.len() == occ.width * occ.height) by {
                assert(occ.table@.len() == occ.grid@.len());
            }
        }
        let found: Option<Point> = if fits {
            match skip_list {
                Some(s) => find_space_for_rect_masked(occ.table.as_slice(), width, height, s, &rect, rng),
                None => find_space_for_rect(occ.table.as_slice(), width, height, &rect, rng),
            }
        } else {
            None
        };
        let step = next_attempt(
            size,
            font_size,
            config.font_step,
            config.min_font_size,
            rotated,
            tried_other,
            fits,
            found.is_some(),
        );
        match step {
            Attempt::Place => {
                if let Some(p) = found {
                    proof {
                        lemma_query_matches_scan(
                            occ.table@,
                            occ.grid@,
                            width as int,
                            height as int,
                            p.x + 1,
                            p.y + 1,
                            rect.width as int,
                            rect.height as int,
                        );
                        assert(call_ensures(*measure, (word, size), (gw, gh)));
                        assert(word_box(gw as int, gh as int, config.word_margin as int, rotated) == (
                        rect.width as int, rect.height as int));
                        assert(fits_free(occ, p, rect));
                        assert(measured(*measure, word, size, config.word_margin, rotated, rect));
                    }
                    return Ok((p, rect, rotated, size));
                }
                return Err(size);
            },
            Attempt::Retry { size: n, rotated: ro, tried_other: t } => {
                proof {
                    if t == tried_other {
                        assert(n == size - config.font_step && n >= config.min_font_size && n > 0);
                        let k = choose|k: nat| size == #[trigger] step_down(font_size as int, k as int, config.font_step as int);
                        assert(n == font_size - (k + 1) * config.font_step) by (nonlinear_arith)
                            requires
                                size == font_size - k * config.font_step,
                                n == size - config.font_step,
                        ;
                        assert(n == step_down(font_size as int, (k + 1) as nat as int, config.font_step as int));
                    } else {
                        assert(n == font_size && !tried_other);
                        assert(font_size == step_down(font_size as int, 0nat as int, config.font_step as int));
                    }
                }
                size = n;
                rotated = ro;
                tried_other = t;
            },
            Attempt::GiveUp => {
                return Err(size);
            },
        }
    }
}

/// The box of `w` is what `measure` gave for its word at its size, with
/// the margin added and the rotation applied.
pub open spec fn measured_box<F: Fn(usize, u32) -> (u32, u32)>(measure: F, w: PlacedWord, margin: u32) -> bool {
    measured(measure, w.rank, w.font_size, margin, w.rotated, w.rect)
}

/// `rect` is the box that `measure` gave for word `word` at `size`, with
/// the margin added and turned when `rotated`.
pub open spec fn measured<F: Fn(usize, u32) -> (u32, u32)>(
    measure: F,
    word: usize,
    size: u32,
    margin: u32,
    rotated: bool,
    rect: Rect,
) -> bool {
    exists|gw: u32, gh: u32|
        call_ensures(measure, (word, size), (gw, gh)) && #[trigger] word_box(gw as int, gh as int, margin as int, rotated)
            == (rect.width as int, rect.height as int)
}

/// Cell `(cx, cy)` lies under the box of `w`.
pub open spec fn covers(w: PlacedWord, cx: int, cy: int) -> bool {
    in_rect(w.position.x + 1, w.position.y + 1, w.rect.width as int, w.rect.height as int, cx, cy)
}

/// The boxes of `a` and `b` share no cell.
pub open spec fn share_no_cell(a: PlacedWord, b: PlacedWord) -> bool {
    forall|cx: int, cy: int| #[trigger] covers(a, cx, cy) ==> !covers(b, cx, cy)
}

/// Every cell under the box of `w` is occupied in `g`.
pub open spec fn covered(g: Seq<u32>, width: int, w: PlacedWord) -> bool {
    forall|cx: int, cy: int| #[trigger] covers(w, cx, cy) ==> cell(g, width, cx, cy) == 1
}

/// The counts of the ranked list never increase.
pub open spec fn counts_descending(words: Seq<(String, u64)>) -> bool {
    forall|a: int, b: int| 0 <= a < b < words.len() ==> words[a].1 >= words[b].1
}

/// What holds of each word of a layout of `words` on the canvas `canvas`.
pub open spec fn placed_word_ok(
    w: PlacedWord,
    k: int,
    words: Seq<(String, u64)>,
    canvas: Occupancy,
    config: LayoutConfig,
) -> bool {
    &&& w.index == k
    &&& w.rank < words.len()
    &&& w.text@ == words[w.rank as int].0@
    &&& w.count == words[w.rank as int].1
    &&& w.font_size >= config.min_font_size
    &&& w.position.x + w.rect.width < canvas.width
    &&& w.position.y + w.rect.height < canvas.height
    &&& region_free(
        canvas.grid@,
        canvas.width as int,
        w.position.x + 1,
        w.position.y + 1,
        w.rect.width as int,
        w.rect.height as int,
    )
}

/// What holds of a whole layout: words keep their rank order, lie inside
/// the canvas on cells that were free before the run, never overlap, and,
/// for a list ranked by count, never grow in size.
pub open spec fn layout_ok(
    placed: Seq<PlacedWord>,
    words: Seq<(String, u64)>,
    canvas: Occupancy,
    config: LayoutConfig,
) -> bool {
    &&& placed.len() <= words.len()
    &&& forall|k: int| 0 <= k < placed.len() ==> placed_word_ok(#[trigger] placed[k], k, words, canvas, config)
    &&& forall|a: int, b: int| 0 <= a < b < placed.len() ==> #[trigger] placed[a].rank < #[trigger] placed[b].rank
    &&& forall|a: int, b: int| 0 <= a < b < placed.len() ==> share_no_cell(#[trigger] placed[a], #[trigger] placed[b])
    &&& counts_descending(words) ==> forall|a: int, b: int|
        0 <= a < b < placed.len() ==> #[trigger] placed[a].font_size >= #[trigger] placed[b].font_size
}

/// Largest count of the list.
fn max_count(words: &Vec<(String, u64)>) -> (r: u64)
    requires
        words@.len() > 0,
        forall|i: int| 0 <= i < words@.len() ==> #[trigger] words@[i].1 > 0,
    ensures
        r > 0,
        forall|i: int| 0 <= i < words@.len() ==> #[trigger] words@[i].1 <= r,
{
    let mut m: u64 = words[0].1;
    let mut i: usize = 1;
    while i < words.len()
        invariant
            1 <= i <= words@.len(),
            m > 0,
            forall|j: int| 0 <= j < i ==> #[trigger] words@[j].1 <= m,
        decreases words@.len() - i,
    {
        if words[i].1 > m {
            m = words[i].1;
        }
        i = i + 1;
    }
    m
}

/// The size the first word starts from, for a canvas of `canvas_width x
/// canvas_height` cells of which `free` are free, and a first word whose
/// box measures `box_width x box_height` at a probe size.
pub fn initial_font_size(
    canvas_width: u32,
    canvas_height: u32,
    box_width: u64,
    box_height: u64,
    free: u64,
    max_font_size: Option<u32>,
) -> (r: u32)
    requires
        canvas_width > 0,
        canvas_height > 0,
        box_height <= 0x2_0000_0000u64,
        free <= u32::MAX,
    ensures
        r == start_font_size(
            canvas_width as int,
            canvas_height as int,
            box_width as int,
            box_height as int,
            free as int,
            max_font_size,
        ),
{
    let base: u128 = if box_width == 0 {
        canvas_height as u128
    } else {
        proof {
            assert((canvas_width as u128) * (box_height as u128) <= 0xFFFF_FFFFu128 * 0x2_0000_0000u128) by (nonlinear_arith)
                requires
                    box_height <= 0x2_0000_0000u64,
                    canvas_width <= 0xFFFF_FFFFu32,
            ;
        }
        let a = (canvas_width as u128) * (box_height as u128) / (box_width as u128);
        proof {
            assert(a <= (canvas_width as u128) * (box_height as u128)) by {
                vstd::arithmetic::div_mod::lemma_div_is_ordered_by_denominator(
                    (canvas_width as u128) * (box_height as u128),
                    1,
                    box_width as int,
                );
            }
            assert(a * (free as u128) <= 0xFFFF_FFFFu128 * 0x2_0000_0000u128 * 0xFFFF_FFFFu128) by (nonlinear_arith)
                requires
                    a <= 0xFFFF_FFFFu128 * 0x2_0000_0000u128,
                    free <= 0xFFFF_FFFFu128,
            ;
            assert((canvas_width as u128) * (canvas_height as u128) > 0) by (nonlinear_arith)
                requires
                    canvas_width > 0,
                    canvas_height > 0,
            ;
            assert((canvas_width as u128) * (canvas_height as u128) <= 0xFFFF_FFFFu128 * 0xFFFF_FFFFu128) by (nonlinear_arith)
                requires
                    canvas_width <= 0xFFFF_FFFFu32,
                    canvas_height <= 0xFFFF_FFFFu32,
            ;
        }
        a * (free as u128) / ((canvas_width as u128) * (canvas_height as u128))
    };
    let capped: u32 = if base > u32::MAX as u128 {
        u32::MAX
    } else {
        base as u32
    };
    match max_font_size {
        Some(m) => if capped > m {
            m
        } else {
            capped
        },
        None => capped,
    }
}

/// `r` is the starting size for the first word's box as `measure` gives
/// it at 55% of the canvas height.
pub open spec fn started_from<F: Fn(usize, u32) -> (u32, u32)>(
    measure: F,
    occ: Occupancy,
    config: LayoutConfig,
    r: u32,
) -> bool {
    exists|gw: u32, gh: u32|
        call_ensures(measure, (0usize, (occ.height * 55 / 100) as u32), (gw, gh)) && r == #[trigger] start_font_size(
            occ.width as int,
            occ.height as int,
            gw + config.word_margin,
            gh + config.word_margin,
            zeros(occ.grid@, occ.grid@.len() as int),
            config.max_font_size,
        )
}

/// Measures the first word at a probe size of 55% of the canvas height
/// and derives the size to start from.
fn starting_font_size<F: Fn(usize, u32) -> (u32, u32)>(occ: &Occupancy, config: &LayoutConfig, measure: &F) -> (r: u32)
    requires
        occ.wf(),
        forall|i: usize, s: u32| call_requires(*measure, (i, s)),
    ensures
        started_from(*measure, *occ, *config, r),
{
    let probe = ((occ.height as u64) * 55 / 100) as u32;
    let (gw, gh) = measure(0, probe);
    let free = free_cells(&occ.grid);
    let r = initial_font_size(
        occ.width,
        occ.height,
        gw as u64 + config.word_margin as u64,
        gh as u64 + config.word_margin as u64,
        free,
        config.max_font_size,
    );
    proof {
        assert(probe == (occ.height * 55 / 100) as u32);
        assert(call_ensures(*measure, (0usize, probe), (gw, gh)));
        assert(r == start_font_size(
            occ.width as int,
            occ.height as int,
            gw + config.word_margin,
            gh + config.word_margin,
            zeros(occ.grid@, occ.grid@.len() as int),
            config.max_font_size,
        ));
    }
    r
}

/// Lays out the ranked `words` (text and occurrence count) on `canvas`,
/// greedily in rank order. The size carried from word to word is scaled by
/// the ratio of counts unless `config.repeat` is set or the scaling is
/// zero; once it falls under `min_font_size` no later word is tried. A word
/// that finds no place is skipped. `measure(i, size)` gives the width and
/// height in pixels of word `i` drawn at `size`. With a skip list only its
/// columns are searched on each row.
pub fn plan_layout<F: Fn(usize, u32) -> (u32, u32)>(
    words: &Vec<(String, u64)>,
    canvas: Occupancy,
    skip_list: Option<&[(usize, usize)]>,
    config: &LayoutConfig,
    rng: &mut WyRand,
    measure: F,
) -> (r: Result<Vec<PlacedWord>, LayoutError>)
    requires
        canvas.wf(),
        config.wf(),
        forall|i: int| 0 <= i < words@.len() ==> #[trigger] words@[i].1 > 0,
        forall|i: usize, s: u32| call_requires(measure, (i, s)),
        skip_list matches Some(s) ==> s@.len() >= canvas.height,
    ensures
        r is Err == (words@.len() == 0),
        r matches Ok(placed) ==> layout_ok(placed@, words@, canvas, *config),
        r matches Ok(placed) ==> forall|k: int|
            0 <= k < placed@.len() ==> measured_box(measure, #[trigger] placed@[k], config.word_margin),
{
    if words.len() == 0 {
        return Err(LayoutError::NoWords);
    }
    let ghost g0 = canvas.grid@;
    let ghost cw = canvas.width as int;
    let mut occ = canvas;
    let mut font_size = starting_font_size(&occ, config, &measure);
    let mut last_count = max_count(words);
    let mut placed: Vec<PlacedWord> = Vec::new();
    let mut i: usize = 0;
    while i < words.len()
        invariant
            occ.wf(),
            config.wf(),
            occ.width == canvas.width,
            occ.height == canvas.height,
            cw == canvas.width,
            g0 == canvas.grid@,
            occ.grid@.len() == g0.len(),
            i <= words@.len(),
            last_count > 0,
            placed@.len() <= i,
            forall|ii: int| 0 <= ii < words@.len() ==> #[trigger] words@[ii].1 > 0,
            forall|ii: usize, s: u32| call_requires(measure, (ii, s)),
            skip_list matches Some(s) ==> s@.len() >= canvas.height,
            forall|cx: int, cy: int| #[trigger] cell(g0, cw, cx, cy) != 0 ==> cell(occ.grid@, cw, cx, cy) != 0,
            forall|k: int|
                0 <= k < placed@.len() ==> placed_word_ok(#[trigger] placed@[k], k, words@, canvas, *config)
                    && placed@[k].rank < i && covered(occ.grid@, cw, placed@[k]),
            forall|a: int, b: int| 0 <= a < b < placed@.len() ==> #[trigger] placed@[a].rank < #[trigger] placed@[b].rank,
            forall|k: int| 0 <= k < placed@.len() ==> measured_box(measure, #[trigger] placed@[k], config.word_margin),
            forall|a: int, b: int|
                0 <= a < b < placed@.len() ==> share_no_cell(#[trigger] placed@[a], #[trigger] placed@[b]),
            counts_descending(words@) ==> (forall|j: int| i <= j < words@.len() ==> #[trigger] words@[j].1 <= last_count),
            counts_descending(words@) ==> (placed@.len() > 0 ==> font_size <= placed@[placed@.len() - 1].font_size),
            counts_descending(words@) ==> forall|a: int, b: int|
                0 <= a < b < placed@.len() ==> #[trigger] placed@[a].font_size >= #[trigger] placed@[b].font_size,
        decreases words@.len() - i,
    {
        let count = words[i].1;
        if !config.repeat && config.relative_font_scaling_percent != 0 {
            font_size = scale_font_size(font_size, config.relative_font_scaling_percent, count, last_count);
        }
        if font_size < config.min_font_size {
            break ;
        }
        match place_word(i, font_size, &occ, skip_list, config, rng, &measure) {
            Ok((p, rect, rotated, fs)) => {
                let ghost before = occ.grid@;
                let word = PlacedWord {
                    text: words[i].0.clone(),
                    font_size: fs,
                    rect,
                    position: p,
                    rotated,
                    count,
                    rank: i,
                    index: placed.len(),
                };
                proof {
                    assert forall|cx: int, cy: int|
                        in_rect(p.x + 1, p.y + 1, rect.width as int, rect.height as int, cx, cy) implies #[trigger] cell(
                            g0,
                            cw,
                            cx,
                            cy,
                        ) == 0 by {
                        assert(cell(before, cw, cx, cy) == 0);
                    }
                    assert forall|k: int| 0 <= k < placed@.len() implies share_no_cell(#[trigger] placed@[k], word) by {
                        assert(covered(before, cw, placed@[k]));
                        assert forall|cx: int, cy: int| #[trigger] covers(placed@[k], cx, cy) implies !covers(word, cx, cy) by {
                            if covers(word, cx, cy) {
                                assert(cell(before, cw, cx, cy) == 0);
                            }
                        }
                    }
                }
                occ.commit(rect, p);
                proof {
                    let h = canvas.height as int;
                    assert(h * cw == cw * h) by (nonlinear_arith);
                    assert forall|cx: int, cy: int| #[trigger] covers(word, cx, cy) implies cell(occ.grid@, cw, cx, cy) == 1 by {
                        lemma_index_in_bounds(cx, cy, cw, h);
                    }
                    assert forall|k: int| 0 <= k < placed@.len() implies covered(occ.grid@, cw, #[trigger] placed@[k]) by {
                        assert(covered(before, cw, placed@[k]));
                        assert forall|cx: int, cy: int| #[trigger] covers(placed@[k], cx, cy) implies cell(occ.grid@, cw, cx, cy)
                            == 1 by {
                            assert(cell(before, cw, cx, cy) == 1);
                        }
                    }
                    assert forall|cx: int, cy: int| #[trigger] cell(g0, cw, cx, cy) != 0 implies cell(occ.grid@, cw, cx, cy)
                        != 0 by {
                        assert(cell(before, cw, cx, cy) != 0);
                    }
                }
                let ghost old_placed = placed@;
                placed.push(word);
                proof {
                    assert forall|k: int| 0 <= k < placed@.len() implies measured_box(
                        measure,
                        #[trigger] placed@[k],
                        config.word_margin,
                    ) by {
                        if k < old_placed.len() {
                            assert(placed@[k] == old_placed[k]);
                        } else {
                            assert(placed@[k] == word);
                            assert(measured(measure, i, fs, config.word_margin, rotated, rect));
                        }
                    }
                }
                font_size = fs;
                last_count = count;
            },
            Err(fs) => {
                font_size = fs;
            },
        }
        i = i + 1;
    }
    Ok(placed)
}

/// On a canvas seeded from a mask, no placed word covers a background
/// pixel (a pixel of nonzero value).
pub proof fn lemma_mask_respected(
    placed: Seq<PlacedWord>,
    words: Seq<(String, u64)>,
    canvas: Occupancy,
    config: LayoutConfig,
    pixels: Seq<u8>,
    k: int,
    cx: int,
    cy: int,
)
    requires
        canvas.wf(),
        pixels.len() == canvas.grid@.len(),
        forall|i: int| 0 <= i < canvas.grid@.len() ==> #[trigger] canvas.grid@[i] == if pixels[i] == 0 {
            0u32
        } else {
            1u32
        },
        layout_ok(placed, words, canvas, config),
        0 <= k < placed.len(),
        covers(placed[k], cx, cy),
    ensures
        pixels[cy * canvas.width + cx] == 0,
{
    let w = placed[k];
    assert(placed_word_ok(w, k, words, canvas, config));
    assert(cell(canvas.grid@, canvas.width as int, cx, cy) == 0);
    lemma_index_in_bounds(cx, cy, canvas.width as int, canvas.height as int);
    assert(canvas.height * canvas.width == canvas.width * canvas.height) by (nonlinear_arith);
    assert(canvas.grid@[cy * canvas.width + cx] == 0);
}

} // verus!
