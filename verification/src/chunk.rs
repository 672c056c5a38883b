//! Chunked partitioning of a `width x height` buffer into disjoint rectangles.
//!
//! Given a chunk edge `s`, the buffer is partitioned row-major into
//! `ceil(h/s) * ceil(w/s)` rectangles; chunk `k` covers
//! `[col*s, min(w, (col+1)*s)) x [row*s, min(h, (row+1)*s))` where
//! `col = k % ceil(w/s)` and `row = k / ceil(w/s)`.  Trailing chunks may be
//! shorter than `s`.  The lemmas here show that the rectangles lie within the
//! buffer, are pairwise disjoint, and together cover every cell exactly once.
//!
//! [`Chunk`] is the executable guard over one such rectangle: it carries its
//! global bounds and an owned row-major copy of the covered cells, so it can
//! be handed to an independent worker and written back afterwards.

use vstd::arithmetic::div_mod::{
    lemma_div_is_ordered, lemma_div_pos_is_pos, lemma_fundamental_div_mod,
    lemma_fundamental_div_mod_converse, lemma_mod_division_less_than_divisor,
    lemma_mod_multiples_basic,
};
use vstd::arithmetic::mul::{
    lemma_mul_inequality, lemma_mul_is_distributive_add_other_way, lemma_mul_nonnegative,
};
use vstd::prelude::*;

verus! {

/// Default edge, in cells, of a square chunk.
pub const CHUNK_SIZE: usize = 64;

/// `ceil(a / b)` for `a >= 0`, `b >= 1`.
pub open spec fn div_up(a: int, b: int) -> int {
    (a + b - 1) / b
}

/// Number of chunk columns of a `w`-wide buffer at edge `s`.
pub open spec fn chunk_cols(w: int, s: int) -> int {
    div_up(w, s)
}

/// Number of chunk rows of an `h`-high buffer at edge `s`.
pub open spec fn chunk_rows(h: int, s: int) -> int {
    div_up(h, s)
}

/// Total number of chunks of a `w x h` buffer at edge `s`.
pub open spec fn chunk_count(w: int, h: int, s: int) -> int {
    chunk_rows(h, s) * chunk_cols(w, s)
}

/// Dimensions on which a partition is defined.
pub open spec fn valid_dims(w: int, h: int, s: int) -> bool {
    w >= 1 && h >= 1 && s >= 1
}

/// A half-open rectangle `[x0, x1) x [y0, y1)` of cell coordinates.
pub ghost struct Rect {
    pub x0: int,
    pub y0: int,
    pub x1: int,
    pub y1: int,
}

/// The rectangle is non-empty.
pub open spec fn rect_wf(r: Rect) -> bool {
    r.x0 < r.x1 && r.y0 < r.y1
}

/// The rectangle lies within a `w x h` buffer.
pub open spec fn rect_in_bounds(r: Rect, w: int, h: int) -> bool {
    0 <= r.x0 && r.x1 <= w && 0 <= r.y0 && r.y1 <= h
}

/// Cell `(x, y)` lies in the rectangle.
pub open spec fn rect_contains(r: Rect, x: int, y: int) -> bool {
    r.x0 <= x < r.x1 && r.y0 <= y < r.y1
}

/// The two rectangles share no cell.
pub open spec fn rects_disjoint(a: Rect, b: Rect) -> bool {
    a.x1 <= b.x0 || b.x1 <= a.x0 || a.y1 <= b.y0 || b.y1 <= a.y0
}

/// Bounds of chunk `k` of the row-major partition of a `w x h` buffer at
/// edge `s`.
pub open spec fn chunk_rect(w: int, h: int, s: int, k: int) -> Rect {
    let cols = chunk_cols(w, s);
    let row = k / cols;
    let col = k % cols;
    Rect {
        x0: col * s,
        y0: row * s,
        x1: vstd::math::min(w, (col + 1) * s),
        y1: vstd::math::min(h, (row + 1) * s),
    }
}

/// Index of the chunk whose rectangle contains cell `(x, y)`.
pub open spec fn chunk_index_at(w: int, h: int, s: int, x: int, y: int) -> int {
    (y / s) * chunk_cols(w, s) + x / s
}

/// `ceil(a/b)` rounds up: `c = div_up(a, b)` is the least integer with
/// `c * b >= a`.
proof fn lemma_div_up_bounds(a: int, b: int)
    requires
        a >= 1,
        b >= 1,
    ensures
        div_up(a, b) >= 1,
        div_up(a, b) * b >= a,
        (div_up(a, b) - 1) * b < a,
        (div_up(a, b) - 1) * b == div_up(a, b) * b - b,
{
    let c = div_up(a, b);
    let r = (a + b - 1) % b;
    lemma_fundamental_div_mod(a + b - 1, b);
    lemma_mod_division_less_than_divisor(a + b - 1, b);
    assert(a + b - 1 == b * c + r);
    assert(c * b == a + b - 1 - r) by (nonlinear_arith)
        requires
            a + b - 1 == b * c + r,
    ;
    assert((c - 1) * b == c * b - b) by (nonlinear_arith);
    assert(c >= 1) by (nonlinear_arith)
        requires
            c * b >= a,
            a >= 1,
            b >= 1,
    ;
}

/// The executable chunk count: exact, and at least one for valid dimensions.
pub fn chunk_count_exec(w: usize, h: usize, s: usize) -> (n: usize)
    requires
        valid_dims(w as int, h as int, s as int),
        w * h <= usize::MAX,
    ensures
        n == chunk_count(w as int, h as int, s as int),
        1 <= n <= w * h,
{
    proof {
        lemma_chunk_count_bounds(w as int, h as int, s as int);
    }
    let cols: usize = (w - 1) / s + 1;
    let rows: usize = (h - 1) / s + 1;
    proof {
        lemma_div_up_quotient(w as int, s as int);
        lemma_div_up_quotient(h as int, s as int);
    }
    rows * cols
}

/// `div_up(a, b)` equals `(a - 1) / b + 1` for `a >= 1`: the form the
/// executable code computes without risking overflow in `a + b - 1`.
pub proof fn lemma_div_up_quotient(a: int, b: int)
    requires
        a >= 1,
        b >= 1,
    ensures
        div_up(a, b) == (a - 1) / b + 1,
{
    let q = (a - 1) / b;
    let r = (a - 1) % b;
    lemma_fundamental_div_mod(a - 1, b);
    lemma_mod_division_less_than_divisor(a - 1, b);
    assert(a - 1 == b * q + r);
    assert(a + b - 1 == (q + 1) * b + r) by (nonlinear_arith)
        requires
            a - 1 == b * q + r,
    ;
    lemma_fundamental_div_mod_converse(a + b - 1, b, q + 1, r);
}

/// The chunk count is at least one and at most one chunk per cell.
pub proof fn lemma_chunk_count_bounds(w: int, h: int, s: int)
    requires
        valid_dims(w, h, s),
    ensures
        1 <= chunk_count(w, h, s) <= w * h,
        1 <= chunk_cols(w, s) <= w,
        1 <= chunk_rows(h, s) <= h,
{
    lemma_div_up_bounds(w, s);
    lemma_div_up_bounds(h, s);
    let cols = chunk_cols(w, s);
    let rows = chunk_rows(h, s);
    assert(cols <= w) by (nonlinear_arith)
        requires
            cols >= 1,
            s >= 1,
            (cols - 1) * s < w,
    ;
    assert(rows <= h) by (nonlinear_arith)
        requires
            rows >= 1,
            s >= 1,
            (rows - 1) * s < h,
    ;
    lemma_mul_inequality(rows, h, cols);
    lemma_mul_inequality(cols, w, h);
    assert(rows * cols >= 1) by (nonlinear_arith)
        requires
            rows >= 1,
            cols >= 1,
    ;
}

/// Chunk `k` splits into its row and column, and both lie in range.
pub proof fn lemma_chunk_row_col(w: int, h: int, s: int, k: int)
    requires
        valid_dims(w, h, s),
        0 <= k < chunk_count(w, h, s),
    ensures
        0 <= k % chunk_cols(w, s) < chunk_cols(w, s),
        0 <= k / chunk_cols(w, s) < chunk_rows(h, s),
        k == (k / chunk_cols(w, s)) * chunk_cols(w, s) + k % chunk_cols(w, s),
{
    let cols = chunk_cols(w, s);
    let rows = chunk_rows(h, s);
    lemma_chunk_count_bounds(w, h, s);
    lemma_fundamental_div_mod(k, cols);
    lemma_mod_division_less_than_divisor(k, cols);
    lemma_div_pos_is_pos(k, cols);
    assert(k == (k / cols) * cols + k % cols) by (nonlinear_arith)
        requires
            k == cols * (k / cols) + k % cols,
    ;
    // k <= rows * cols - 1, whose quotient by cols is rows - 1.
    assert(rows * cols - 1 == (rows - 1) * cols + (cols - 1)) by (nonlinear_arith);
    lemma_fundamental_div_mod_converse(rows * cols - 1, cols, rows - 1, cols - 1);
    lemma_div_is_ordered(k, rows * cols - 1, cols);
}

/// Chunk rectangles are non-empty and lie within the buffer.
pub proof fn lemma_chunk_rect_in_bounds(w: int, h: int, s: int, k: int)
    requires
        valid_dims(w, h, s),
        0 <= k < chunk_count(w, h, s),
    ensures
        rect_wf(chunk_rect(w, h, s, k)),
        rect_in_bounds(chunk_rect(w, h, s, k), w, h),
{
    let cols = chunk_cols(w, s);
    let rows = chunk_rows(h, s);
    let r = chunk_rect(w, h, s, k);
    let row = k / cols;
    let col = k % cols;
    lemma_chunk_row_col(w, h, s, k);
    lemma_div_up_bounds(w, s);
    lemma_div_up_bounds(h, s);
    lemma_mul_nonnegative(col, s);
    lemma_mul_nonnegative(row, s);
    // col * s < w: col <= cols - 1 and (cols - 1) * s < w.
    lemma_mul_inequality(col, cols - 1, s);
    lemma_mul_inequality(row, rows - 1, s);
    // (col + 1) * s == col * s + s.
    lemma_mul_is_distributive_add_other_way(s, col, 1);
    lemma_mul_is_distributive_add_other_way(s, row, 1);
    assert(r.x0 < r.x1);
    assert(r.y0 < r.y1);
}

/// Coverage: every cell of the buffer lies in the rectangle of the chunk
/// `chunk_index_at` names, and that index is in range.
pub proof fn lemma_chunk_cover(w: int, h: int, s: int, x: int, y: int)
    requires
        valid_dims(w, h, s),
        0 <= x < w,
        0 <= y < h,
    ensures
        0 <= chunk_index_at(w, h, s, x, y) < chunk_count(w, h, s),
        rect_contains(chunk_rect(w, h, s, chunk_index_at(w, h, s, x, y)), x, y),
{
    let cols = chunk_cols(w, s);
    let rows = chunk_rows(h, s);
    let col = x / s;
    let row = y / s;
    let k = chunk_index_at(w, h, s, x, y);
    lemma_div_up_bounds(w, s);
    lemma_div_up_bounds(h, s);
    lemma_fundamental_div_mod(x, s);
    lemma_mod_division_less_than_divisor(x, s);
    lemma_fundamental_div_mod(y, s);
    lemma_mod_division_less_than_divisor(y, s);
    lemma_div_pos_is_pos(x, s);
    lemma_div_pos_is_pos(y, s);
    // col * s <= x < (col + 1) * s, and the same for the row.
    assert(col * s <= x && x < (col + 1) * s) by (nonlinear_arith)
        requires
            x == s * col + x % s,
            0 <= x % s < s,
    ;
    assert(row * s <= y && y < (row + 1) * s) by (nonlinear_arith)
        requires
            y == s * row + y % s,
            0 <= y % s < s,
    ;
    // col < cols: x <= cols * s - 1, whose quotient by s is cols - 1.
    assert(cols * s - 1 == (cols - 1) * s + (s - 1)) by (nonlinear_arith);
    lemma_fundamental_div_mod_converse(cols * s - 1, s, cols - 1, s - 1);
    assert(x <= cols * s - 1);
    lemma_div_is_ordered(x, cols * s - 1, s);
    assert(rows * s - 1 == (rows - 1) * s + (s - 1)) by (nonlinear_arith);
    lemma_fundamental_div_mod_converse(rows * s - 1, s, rows - 1, s - 1);
    assert(y <= rows * s - 1);
    lemma_div_is_ordered(y, rows * s - 1, s);
    // k splits back into (row, col).
    lemma_fundamental_div_mod_converse(k, cols, row, col);
    // k < rows * cols.
    lemma_mul_inequality(row, rows - 1, cols);
    assert((rows - 1) * cols + cols == rows * cols) by (nonlinear_arith);
    lemma_mul_nonnegative(row, cols);
}

/// Disjointness: distinct chunks of one partition share no cell.
pub proof fn lemma_chunks_disjoint(w: int, h: int, s: int, k1: int, k2: int)
    requires
        valid_dims(w, h, s),
        0 <= k1 < chunk_count(w, h, s),
        0 <= k2 < chunk_count(w, h, s),
        k1 != k2,
    ensures
        rects_disjoint(chunk_rect(w, h, s, k1), chunk_rect(w, h, s, k2)),
{
    let cols = chunk_cols(w, s);
    let row1 = k1 / cols;
    let col1 = k1 % cols;
    let row2 = k2 / cols;
    let col2 = k2 % cols;
    lemma_chunk_row_col(w, h, s, k1);
    lemma_chunk_row_col(w, h, s, k2);
    if row1 < row2 {
        lemma_mul_is_distributive_add_other_way(s, row1, 1);
        lemma_mul_inequality(row1 + 1, row2, s);
    } else if row2 < row1 {
        lemma_mul_is_distributive_add_other_way(s, row2, 1);
        lemma_mul_inequality(row2 + 1, row1, s);
    } else {
        assert(col1 != col2);
        if col1 < col2 {
            lemma_mul_is_distributive_add_other_way(s, col1, 1);
            lemma_mul_inequality(col1 + 1, col2, s);
        } else {
            lemma_mul_is_distributive_add_other_way(s, col2, 1);
            lemma_mul_inequality(col2 + 1, col1, s);
        }
    }
}

/// A chunk rectangle of the partition, in the closed form that
/// [`partition_chunk`] states: its origin is a multiple of the edge and its
/// far corner is clipped to the buffer.
pub proof fn lemma_chunk_rect_is_partition(w: int, h: int, s: int, k: int)
    requires
        valid_dims(w, h, s),
        0 <= k < chunk_count(w, h, s),
    ensures
        chunk_rect(w, h, s, k).x0 % s == 0,
        chunk_rect(w, h, s, k).y0 % s == 0,
        chunk_rect(w, h, s, k).x1 == vstd::math::min(w, chunk_rect(w, h, s, k).x0 + s),
        chunk_rect(w, h, s, k).y1 == vstd::math::min(h, chunk_rect(w, h, s, k).y0 + s),
{
    let cols = chunk_cols(w, s);
    lemma_chunk_row_col(w, h, s, k);
    lemma_mod_multiples_basic(k % cols, s);
    lemma_mod_multiples_basic(k / cols, s);
    lemma_mul_is_distributive_add_other_way(s, k % cols, 1);
    lemma_mul_is_distributive_add_other_way(s, k / cols, 1);
}

/// Uniqueness: a chunk rectangle containing `(x, y)` is the one that
/// `chunk_index_at` names, so the cover is exact, with no overlap.
pub proof fn lemma_chunk_index_unique(w: int, h: int, s: int, k: int, x: int, y: int)
    requires
        valid_dims(w, h, s),
        0 <= k < chunk_count(w, h, s),
        rect_contains(chunk_rect(w, h, s, k), x, y),
    ensures
        k == chunk_index_at(w, h, s, x, y),
{
    let cols = chunk_cols(w, s);
    let row = k / cols;
    let col = k % cols;
    lemma_chunk_row_col(w, h, s, k);
    lemma_mul_is_distributive_add_other_way(s, col, 1);
    lemma_mul_is_distributive_add_other_way(s, row, 1);
    // col * s <= x < col * s + s pins x / s to col; likewise for y.
    lemma_fundamental_div_mod_converse(x, s, col, x - col * s);
    lemma_fundamental_div_mod_converse(y, s, row, y - row * s);
}

/// Two chunks of one partition with different origins cover disjoint
/// rectangles, so workers mutating them never touch a shared cell.
pub proof fn lemma_partition_chunks_disjoint(w: int, h: int, s: int, c1: ChunkView, c2: ChunkView)
    requires
        valid_dims(w, h, s),
        partition_chunk(w, h, s, c1),
        partition_chunk(w, h, s, c2),
        !(c1.x0 == c2.x0 && c1.y0 == c2.y0),
    ensures
        rects_disjoint(chunk_rect_of(c1), chunk_rect_of(c2)),
{
    if c1.x0 != c2.x0 {
        lemma_multiples_apart(c1.x0, c2.x0, s);
    } else {
        lemma_multiples_apart(c1.y0, c2.y0, s);
    }
}

/// Distinct non-negative multiples of `s` lie at least `s` apart.
proof fn lemma_multiples_apart(a: int, b: int, s: int)
    requires
        s >= 1,
        a >= 0,
        b >= 0,
        a % s == 0,
        b % s == 0,
        a != b,
    ensures
        a + s <= b || b + s <= a,
{
    lemma_fundamental_div_mod(a, s);
    lemma_fundamental_div_mod(b, s);
    let qa = a / s;
    let qb = b / s;
    assert(a == s * qa && b == s * qb);
    if a < b {
        assert(qa < qb) by (nonlinear_arith)
            requires
                a == s * qa,
                b == s * qb,
                a < b,
                s >= 1,
        ;
        lemma_mul_inequality(qa + 1, qb, s);
        assert((qa + 1) * s == qa * s + s) by (nonlinear_arith);
        assert(qa * s == s * qa) by (nonlinear_arith);
        assert(qb * s == s * qb) by (nonlinear_arith);
    } else {
        assert(qb < qa) by (nonlinear_arith)
            requires
                a == s * qa,
                b == s * qb,
                b < a,
                s >= 1,
        ;
        lemma_mul_inequality(qb + 1, qa, s);
        assert((qb + 1) * s == qb * s + s) by (nonlinear_arith);
        assert(qa * s == s * qa) by (nonlinear_arith);
        assert(qb * s == s * qb) by (nonlinear_arith);
    }
}

/// Row-major cell indices stay within the buffer.
pub proof fn lemma_row_major_index(w: int, h: int, x: int, y: int)
    requires
        w >= 1,
        h >= 1,
        0 <= x < w,
        0 <= y < h,
    ensures
        0 <= y * w + x < h * w,
        h * w == w * h,
{
    lemma_mul_nonnegative(y, w);
    lemma_mul_inequality(y, h - 1, w);
    assert((h - 1) * w + w == h * w && h * w == w * h) by (nonlinear_arith);
}

/// The cell at `(x, y)` of a row-major buffer of width `w`.
pub open spec fn cell_at(cells: Seq<u32>, w: int, x: int, y: int) -> u32 {
    cells[y * w + x]
}

/// Row-major indexing is injective: distinct in-bounds coordinates name
/// distinct flat indices.
pub proof fn lemma_row_major_injective(w: int, xa: int, ya: int, xb: int, yb: int)
    requires
        w >= 1,
        0 <= xa < w,
        0 <= xb < w,
        0 <= ya,
        0 <= yb,
        !(xa == xb && ya == yb),
    ensures
        ya * w + xa != yb * w + xb,
{
    if ya < yb {
        lemma_mul_inequality(ya + 1, yb, w);
        assert((ya + 1) * w == ya * w + w) by (nonlinear_arith);
    } else if yb < ya {
        lemma_mul_inequality(yb + 1, ya, w);
        assert((yb + 1) * w == yb * w + w) by (nonlinear_arith);
    }
}

/// View of a [`Chunk`]: its global bounds and the covered cells, row-major.
pub ghost struct ChunkView {
    pub x0: int,
    pub y0: int,
    pub x1: int,
    pub y1: int,
    pub cells: Seq<u32>,
}

/// Width, in cells, of the chunk's rectangle.
pub open spec fn chunk_width(c: ChunkView) -> int {
    c.x1 - c.x0
}

/// Height, in cells, of the chunk's rectangle.
pub open spec fn chunk_height(c: ChunkView) -> int {
    c.y1 - c.y0
}

/// The chunk's rectangle of global cell coordinates.
pub open spec fn chunk_rect_of(c: ChunkView) -> Rect {
    Rect { x0: c.x0, y0: c.y0, x1: c.x1, y1: c.y1 }
}

/// The chunk's rectangle is non-empty and it carries one cell per covered
/// position.
pub open spec fn chunk_wf(c: ChunkView) -> bool {
    &&& 0 <= c.x0 < c.x1
    &&& 0 <= c.y0 < c.y1
    &&& c.cells.len() == chunk_width(c) * chunk_height(c)
}

/// The chunk is one rectangle of the partition of a `w x h` buffer at edge
/// `s`: its origin is an in-bounds multiple of `s` and its far corner is one
/// edge further, clipped to the buffer.
pub open spec fn partition_chunk(w: int, h: int, s: int, c: ChunkView) -> bool {
    &&& chunk_wf(c)
    &&& c.x0 < w
    &&& c.y0 < h
    &&& c.x0 % s == 0
    &&& c.y0 % s == 0
    &&& c.x1 == vstd::math::min(w, c.x0 + s)
    &&& c.y1 == vstd::math::min(h, c.y0 + s)
}

/// A guard over one rectangle of a chunked partition: the rectangle's global
/// bounds and an owned row-major copy of the cells it covers.  A chunk is
/// created by `WriteIter::next`, may be mutated independently of every other
/// chunk of the same partition, and hands its cells back through
/// `WriteIter::absorb`.
pub struct Chunk {
    x0: usize,
    y0: usize,
    x1: usize,
    y1: usize,
    cells: Vec<u32>,
}

impl View for Chunk {
    type V = ChunkView;

    closed spec fn view(&self) -> ChunkView {
        ChunkView {
            x0: self.x0 as int,
            y0: self.y0 as int,
            x1: self.x1 as int,
            y1: self.y1 as int,
            cells: self.cells@,
        }
    }
}

impl Chunk {
    /// Assembles a chunk from its bounds and cells; the caller owes the
    /// well-formedness of what it passes.
    pub(crate) fn from_parts(x0: usize, y0: usize, x1: usize, y1: usize, cells: Vec<u32>) -> (c:
        Chunk)
        ensures
            c@ == (ChunkView {
                x0: x0 as int,
                y0: y0 as int,
                x1: x1 as int,
                y1: y1 as int,
                cells: cells@,
            }),
    {
        Chunk { x0, y0, x1, y1, cells }
    }

    /// Global coordinates of the chunk's top-left cell.
    pub fn offset(&self) -> (r: (usize, usize))
        ensures
            r.0 == self@.x0,
            r.1 == self@.y0,
    {
        (self.x0, self.y0)
    }

    /// Global bounds: top-left cell, and the exclusive bottom-right corner.
    pub fn bounds(&self) -> (r: ((usize, usize), (usize, usize)))
        ensures
            r.0.0 == self@.x0,
            r.0.1 == self@.y0,
            r.1.0 == self@.x1,
            r.1.1 == self@.y1,
    {
        ((self.x0, self.y0), (self.x1, self.y1))
    }

    /// Width of the chunk's rectangle.
    pub fn width(&self) -> (r: usize)
        requires
            chunk_wf(self@),
        ensures
            r == chunk_width(self@),
    {
        self.x1 - self.x0
    }

    /// Height of the chunk's rectangle.
    pub fn height(&self) -> (r: usize)
        requires
            chunk_wf(self@),
        ensures
            r == chunk_height(self@),
    {
        self.y1 - self.y0
    }

    /// Read-only view of the chunk's cells, row-major.
    pub fn raw(&self) -> (r: &Vec<u32>)
        ensures
            r@ == self@.cells,
    {
        &self.cells
    }

    /// Bounds-checked read of the cell at local coordinates `(x, y)`.
    pub fn get(&self, x: usize, y: usize) -> (v: u32)
        requires
            chunk_wf(self@),
            x < chunk_width(self@),
            y < chunk_height(self@),
        ensures
            v == self@.cells[y * chunk_width(self@) + x],
    {
        let cw = self.x1 - self.x0;
        let ch = self.y1 - self.y0;
        proof {
            lemma_row_major_index(cw as int, ch as int, x as int, y as int);
            assert(self.cells@.len() == (cw as int) * (ch as int));
            vstd::std_specs::vec::axiom_spec_len(&self.cells);
        }
        self.cells[y * cw + x]
    }

    /// Bounds-checked write of the cell at local coordinates `(x, y)`.
    pub fn set(&mut self, x: usize, y: usize, v: u32)
        requires
            chunk_wf(old(self)@),
            x < chunk_width(old(self)@),
            y < chunk_height(old(self)@),
        ensures
            final(self)@ == (ChunkView {
                cells: old(self)@.cells.update(y * chunk_width(old(self)@) + x, v),
                ..old(self)@
            }),
            chunk_wf(final(self)@),
    {
        let cw = self.x1 - self.x0;
        let ch = self.y1 - self.y0;
        proof {
            lemma_row_major_index(cw as int, ch as int, x as int, y as int);
            assert(self.cells@.len() == (cw as int) * (ch as int));
            vstd::std_specs::vec::axiom_spec_len(&self.cells);
        }
        self.cells[y * cw + x] = v;
    }
}

} // verus!
