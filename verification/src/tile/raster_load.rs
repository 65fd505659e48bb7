//! Reading a window of a raster, chunk by chunk.

use crate::double::INFINITY_BITS;
use crate::numbers::decimal_text;
use crate::text::{concat3, str_eq};
use crate::tile::types::{ChunkType, IfdInfo};
use vstd::prelude::*;

verus! {

/// A window of an image, read at every `step`-th row and column.
#[derive(Debug, Clone, Copy)]
pub struct RegionWindow {
    pub col_off: u32,
    pub row_off: u32,
    pub width: u32,
    pub height: u32,
    pub bands: usize,
    pub step: u32,
}

/// `n / d`, rounded up.
pub open spec fn ceil_div(n: int, d: int) -> int {
    (n + d - 1) / d
}

impl RegionWindow {
    /// The column behind the window.
    pub open spec fn col_end(self) -> int {
        self.col_off + self.width
    }

    /// The row behind the window.
    pub open spec fn row_end(self) -> int {
        self.row_off + self.height
    }

    /// The width of what is read.
    pub open spec fn out_w(self) -> int {
        ceil_div(self.width as int, self.step as int)
    }

    /// The height of what is read.
    pub open spec fn out_h(self) -> int {
        ceil_div(self.height as int, self.step as int)
    }

    /// The number of samples that are read.
    pub open spec fn out_len(self) -> int {
        self.out_h() * self.out_w() * self.bands
    }

    /// The window can be walked without leaving the range of the integers.
    pub open spec fn valid(self) -> bool {
        &&& self.step >= 1
        &&& self.col_end() + self.step - 1 <= u32::MAX
        &&& self.row_end() + self.step - 1 <= u32::MAX
        &&& self.out_len() <= usize::MAX
    }
}

/// The place of band `b` of the pixel in row `r` and column `c` of samples that lie
/// row by row, `w` pixels to a row and `bands` samples to a pixel.
pub open spec fn cell(r: int, c: int, b: int, w: int, bands: int) -> int {
    (r * w + c) * bands + b
}

/// Different pixels and bands have different places.
pub proof fn lemma_cell_injective(
    r1: int,
    c1: int,
    b1: int,
    r2: int,
    c2: int,
    b2: int,
    w: int,
    bands: int,
)
    requires
        0 <= c1 < w,
        0 <= c2 < w,
        0 <= b1 < bands,
        0 <= b2 < bands,
        cell(r1, c1, b1, w, bands) == cell(r2, c2, b2, w, bands),
    ensures
        r1 == r2,
        c1 == c2,
        b1 == b2,
{
    let p1 = r1 * w + c1;
    let p2 = r2 * w + c2;
    let n1 = cell(r1, c1, b1, w, bands);
    let n2 = cell(r2, c2, b2, w, bands);
    vstd::arithmetic::div_mod::lemma_fundamental_div_mod_converse(n1, bands, p1, b1);
    vstd::arithmetic::div_mod::lemma_fundamental_div_mod_converse(n2, bands, p2, b2);
    vstd::arithmetic::div_mod::lemma_fundamental_div_mod_converse(p1, w, r1, c1);
    vstd::arithmetic::div_mod::lemma_fundamental_div_mod_converse(p2, w, r2, c2);
}

/// A pixel and band inside a grid has its place inside the samples of the grid.
pub proof fn lemma_cell_bound(r: int, c: int, b: int, h: int, w: int, bands: int)
    requires
        0 <= r < h,
        0 <= c < w,
        0 <= b < bands,
    ensures
        0 <= cell(r, c, b, w, bands) < h * w * bands,
{
    assert(r * w + c < h * w) by (nonlinear_arith)
        requires
            0 <= r < h,
            0 <= c < w,
    ;
    assert(0 <= r * w) by (nonlinear_arith)
        requires
            0 <= r,
            0 <= c < w,
    ;
    let p = r * w + c;
    let n = h * w;
    assert(p * bands + b < n * bands) by (nonlinear_arith)
        requires
            0 <= p < n,
            0 <= b < bands,
    ;
    assert(0 <= p * bands) by (nonlinear_arith)
        requires
            0 <= p,
            0 <= b < bands,
    ;
}

/// The place of a sample of a grid that the first `len` places hold.
pub fn sample_index(
    y: usize,
    x: usize,
    b: usize,
    w: usize,
    h: usize,
    bands: usize,
    len: usize,
) -> (i: usize)
    requires
        x < w,
        y < h,
        b < bands,
        h * w * bands <= len,
    ensures
        i == cell(y as int, x as int, b as int, w as int, bands as int),
        i < len,
{
    proof {
        lemma_cell_bound(
            y as int,
            x as int,
            b as int,
            h as int,
            w as int,
            bands as int,
        );
        let p = y * w + x;
        assert(0 <= y * w <= p) by (nonlinear_arith)
            requires
                p == y * w + x,
                0 <= y,
                0 <= w,
                0 <= x,
        ;
        assert(p <= p * bands) by (nonlinear_arith)
            requires
                0 <= p,
                bands >= 1,
        ;
    }
    (y * w + x) * bands + b
}

/// Where a chunk lies in its image, and which of its pixels the window takes: every
/// `step`-th row of `top..bottom` and every `step`-th column of `left..right`.
#[derive(Debug, Clone, Copy)]
pub struct ChunkOverlap {
    pub chunk_x: u32,
    pub chunk_y: u32,
    /// Pixels to a row of the chunk's samples.
    pub stride: u32,
    pub left: u32,
    pub right: u32,
    pub top: u32,
    pub bottom: u32,
}

impl ChunkOverlap {
    /// The overlap lies in the window and behind the origin of the chunk.
    pub open spec fn fits(self, win: RegionWindow) -> bool {
        &&& self.left < self.right ==> {
            &&& win.col_off <= self.left
            &&& self.chunk_x <= self.left
            &&& self.right <= win.col_end()
        }
        &&& self.top < self.bottom ==> {
            &&& win.row_off <= self.top
            &&& self.chunk_y <= self.top
            &&& self.bottom <= win.row_end()
        }
    }

    /// No place of a sample of the overlap is beyond the range of the integers.
    pub open spec fn addressable(self, bands: int) -> bool {
        self.left < self.right && self.top < self.bottom ==> ((self.bottom - self.chunk_y)
            * self.stride + (self.right - self.chunk_x)) * bands <= usize::MAX
    }

    /// The image row that goes to row `dr` of what is read.
    pub open spec fn row_for(self, win: RegionWindow, dr: int) -> int {
        self.top + (dr - (self.top - win.row_off) / (win.step as int)) * win.step
    }

    /// The image column that goes to column `dc` of what is read.
    pub open spec fn col_for(self, win: RegionWindow, dc: int) -> int {
        self.left + (dc - (self.left - win.col_off) / (win.step as int)) * win.step
    }

    /// The chunk gives the pixel in row `dr` and column `dc` of what is read.
    pub open spec fn supplies(self, win: RegionWindow, dr: int, dc: int) -> bool {
        &&& self.top <= self.row_for(win, dr) < self.bottom
        &&& self.left <= self.col_for(win, dc) < self.right
    }

    /// The place among the chunk's samples of band `b` of that pixel.
    pub open spec fn source(self, win: RegionWindow, dr: int, dc: int, b: int) -> int {
        cell(
            self.row_for(win, dr) - self.chunk_y,
            self.col_for(win, dc) - self.chunk_x,
            b,
            self.stride as int,
            win.bands as int,
        )
    }

    /// What band `b` of the pixel in row `dr` and column `dc` holds once the chunk has
    /// been copied: the chunk's sample where it has one, and else what was there.
    pub open spec fn sample<T>(
        self,
        win: RegionWindow,
        data: Seq<T>,
        before: Seq<T>,
        dr: int,
        dc: int,
        b: int,
    ) -> T {
        let src = self.source(win, dr, dc, b);
        if self.supplies(win, dr, dc) && 0 <= src < data.len() {
            data[src]
        } else {
            before[cell(dr, dc, b, win.out_w(), win.bands as int)]
        }
    }
}

/// `after` is what is read of the window once the chunk has been copied over `before`.
pub open spec fn copied<T>(
    win: RegionWindow,
    ov: ChunkOverlap,
    data: Seq<T>,
    before: Seq<T>,
    after: Seq<T>,
) -> bool {
    &&& after.len() == before.len()
    &&& forall|dr: int, dc: int, b: int|
        #![trigger cell(dr, dc, b, win.out_w(), win.bands as int)]
        0 <= dr < win.out_h() && 0 <= dc < win.out_w() && 0 <= b < win.bands ==> after[cell(
            dr,
            dc,
            b,
            win.out_w(),
            win.bands as int,
        )] == ov.sample(win, data, before, dr, dc, b)
}

proof fn lemma_step_division(a: int, k: int, s: int)
    requires
        s > 0,
    ensures
        (a + k * s) / s == a / s + k,
{
    vstd::arithmetic::div_mod::lemma_hoist_over_denominator(a, k, s as nat);
}

/// Copies the samples of one pixel, as far as the source reaches.
fn copy_pixel<T: Copy>(out: &mut Vec<T>, dst: usize, data: &[T], src: usize, bands: usize)
    requires
        dst + bands <= old(out)@.len(),
        src + bands <= usize::MAX,
    ensures
        final(out)@.len() == old(out)@.len(),
        forall|i: int|
            0 <= i < old(out)@.len() ==> #[trigger] final(out)@[i] == (if dst <= i < dst + bands
                && src + (i - dst) < data@.len() {
                data@[src + (i - dst)]
            } else {
                old(out)@[i]
            }),
{
    let total: usize = out.len();
    for b in 0..bands
        invariant
            total == old(out)@.len(),
            dst + bands <= total,
            src + bands <= usize::MAX,
            out@.len() == old(out)@.len(),
            forall|i: int|
                0 <= i < old(out)@.len() ==> #[trigger] out@[i] == (if dst <= i < dst + b && src + (
                i - dst) < data@.len() {
                    data@[src + (i - dst)]
                } else {
                    old(out)@[i]
                }),
    {
        if src + b < data.len() {
            out.set(dst + b, data[src + b]);
        }
    }
}

/// Copies what a chunk holds of the window.
pub fn copy_chunk<T: Copy>(win: &RegionWindow, ov: &ChunkOverlap, data: &[T], out: &mut Vec<T>)
    requires
        win.valid(),
        ov.fits(*win),
        ov.addressable(win.bands as int),
        old(out)@.len() == win.out_len(),
    ensures
        copied(*win, *ov, data@, old(out)@, final(out)@),
{
    let ghost before = out@;
    let ghost step = win.step as int;
    let ghost bands = win.bands as int;
    let ghost w = win.out_w();
    let ghost h = win.out_h();
    let ghost dr0 = (ov.top - win.row_off) / step;
    let ghost dc0 = (ov.left - win.col_off) / step;
    if win.bands == 0 || ov.left >= ov.right {
        return ;
    }
    proof {
        vstd::arithmetic::div_mod::lemma_div_is_ordered_by_denominator(
            win.width + step - 1,
            1,
            step,
        );
        lemma_before_start(step);
    }
    let out_w: u32 = ((win.width as u64 + win.step as u64 - 1) / win.step as u64) as u32;
    let mut row: u32 = ov.top;
    let ghost mut k: int = 0;
    while row < ov.bottom
        invariant
            win.valid(),
            ov.fits(*win),
            ov.addressable(bands),
            ov.left < ov.right,
            step == win.step,
            bands == win.bands,
            bands > 0,
            w == win.out_w(),
            h == win.out_h(),
            out_w == w,
            dr0 == (ov.top - win.row_off) / step,
            dc0 == (ov.left - win.col_off) / step,
            before.len() == win.out_len(),
            out@.len() == before.len(),
            k >= 0,
            row == ov.top + k * step,
            forall|dr: int, dc: int, b: int|
                #![trigger cell(dr, dc, b, w, bands)]
                0 <= dr < h && 0 <= dc < w && 0 <= b < bands ==> out@[cell(dr, dc, b, w, bands)]
                    == (if dr < dr0 + k {
                    ov.sample(*win, data@, before, dr, dc, b)
                } else {
                    before[cell(dr, dc, b, w, bands)]
                }),
        decreases ov.bottom + step - row,
    {
        let local_row: u32 = row - ov.chunk_y;
        let dst_row: u32 = (row - win.row_off) / win.step;
        proof {
            lemma_step_division(ov.top - win.row_off, k, step);
            lemma_inside(row - win.row_off, win.height as int, step);
            lemma_before_start(step);
        }
        let mut col: u32 = ov.left;
        let ghost mut m: int = 0;
        while col < ov.right
            invariant
                win.valid(),
                ov.fits(*win),
                ov.addressable(bands),
                ov.left < ov.right,
                ov.top <= row < ov.bottom,
                step == win.step,
                bands == win.bands,
                bands > 0,
                w == win.out_w(),
                h == win.out_h(),
                out_w == w,
                dr0 == (ov.top - win.row_off) / step,
                dc0 == (ov.left - win.col_off) / step,
                before.len() == win.out_len(),
                out@.len() == before.len(),
                k >= 0,
                row == ov.top + k * step,
                local_row == row - ov.chunk_y,
                dst_row == dr0 + k,
                dst_row < h,
                m >= 0,
                col == ov.left + m * step,
                forall|dr: int, dc: int, b: int|
                    #![trigger cell(dr, dc, b, w, bands)]
                    0 <= dr < h && 0 <= dc < w && 0 <= b < bands ==> out@[cell(dr, dc, b, w, bands)]
                        == (if dr < dr0 + k || (dr == dr0 + k && dc < dc0 + m) {
                        ov.sample(*win, data@, before, dr, dc, b)
                    } else {
                        before[cell(dr, dc, b, w, bands)]
                    }),
            decreases ov.right + step - col,
        {
            let local_col: u32 = col - ov.chunk_x;
            let dst_col: u32 = (col - win.col_off) / win.step;
            proof {
                lemma_step_division(ov.left - win.col_off, m, step);
                lemma_inside(col - win.col_off, win.width as int, step);
                lemma_source_fits(*ov, local_row as int, local_col as int, bands);
                lemma_cell_row(dst_row as int, dst_col as int, h, w, bands);
            }
            let src: usize = (local_row as usize * ov.stride as usize + local_col as usize)
                * win.bands;
            let dst: usize = (dst_row as usize * out_w as usize + dst_col as usize) * win.bands;
            let ghost prior = out@;
            copy_pixel(out, dst, data, src, win.bands);
            proof {
                assert forall|dr: int, dc: int, b: int|
                    #![trigger cell(dr, dc, b, w, bands)]
                    0 <= dr < h && 0 <= dc < w && 0 <= b < bands implies out@[cell(
                    dr,
                    dc,
                    b,
                    w,
                    bands,
                )] == (if dr < dr0 + k || (dr == dr0 + k && dc < dc0 + m + 1) {
                    ov.sample(*win, data@, before, dr, dc, b)
                } else {
                    before[cell(dr, dc, b, w, bands)]
                }) by {
                    let at = cell(dr, dc, b, w, bands);
                    lemma_cell_bound(dr, dc, b, h, w, bands);
                    assert(prior[at] == (if dr < dr0 + k || (dr == dr0 + k && dc < dc0 + m) {
                        ov.sample(*win, data@, before, dr, dc, b)
                    } else {
                        before[at]
                    }));
                    if dst <= at < dst + bands {
                        let b2 = at - dst;
                        assert(at == cell(dst_row as int, dst_col as int, b2, w, bands));
                        lemma_cell_injective(
                            dr,
                            dc,
                            b,
                            dst_row as int,
                            dst_col as int,
                            b2,
                            w,
                            bands,
                        );
                        assert(ov.row_for(*win, dr) == row);
                        assert(ov.col_for(*win, dc) == col);
                        assert(ov.source(*win, dr, dc, b) == src + b);
                    } else if dr == dst_row && dc == dst_col {
                        assert(at == dst + b);
                    }
                }
                m = m + 1;
                assert(ov.left + m * step == col + step) by (nonlinear_arith)
                    requires
                        col == ov.left + (m - 1) * step,
                ;
            }
            col += win.step;
        }
        proof {
            assert forall|dr: int, dc: int, b: int|
                #![trigger cell(dr, dc, b, w, bands)]
                0 <= dr < h && 0 <= dc < w && 0 <= b < bands implies out@[cell(dr, dc, b, w, bands)]
                == (if dr < dr0 + k + 1 {
                ov.sample(*win, data@, before, dr, dc, b)
            } else {
                before[cell(dr, dc, b, w, bands)]
            }) by {
                if dr == dr0 + k && dc >= dc0 + m {
                    assert((dc - dc0) * step >= m * step) by (nonlinear_arith)
                        requires
                            dc - dc0 >= m,
                            step > 0,
                    ;
                    assert(!ov.supplies(*win, dr, dc));
                }
            }
            k = k + 1;
            assert(ov.top + k * step == row + step) by (nonlinear_arith)
                requires
                    row == ov.top + (k - 1) * step,
            ;
        }
        row += win.step;
    }
    proof {
        assert forall|dr: int, dc: int, b: int|
            #![trigger cell(dr, dc, b, w, bands)]
            0 <= dr < h && 0 <= dc < w && 0 <= b < bands implies out@[cell(dr, dc, b, w, bands)]
            == ov.sample(*win, data@, before, dr, dc, b) by {
            if dr >= dr0 + k {
                assert((dr - dr0) * step >= k * step) by (nonlinear_arith)
                    requires
                        dr - dr0 >= k,
                        step > 0,
                ;
                assert(!ov.supplies(*win, dr, dc));
            }
        }
    }
}

/// A negative number of steps leads backwards.
proof fn lemma_before_start(s: int)
    requires
        s > 0,
    ensures
        forall|n: int| n < 0 ==> #[trigger] (n * s) < 0,
{
    assert forall|n: int| n < 0 implies #[trigger] (n * s) < 0 by {
        assert(n * s < 0) by (nonlinear_arith)
            requires
                n < 0,
                s > 0,
        ;
    }
}

/// A distance below `n` has its `s`-th part below `n / s`, rounded up.
pub proof fn lemma_inside(a: int, n: int, s: int)
    requires
        0 <= a < n,
        s > 0,
    ensures
        0 <= a / s < ceil_div(n, s),
{
    assert((a + s) / s == a / s + 1) by {
        lemma_step_division(a, 1, s);
    }
    vstd::arithmetic::div_mod::lemma_div_is_ordered(a + s, n + s - 1, s);
    vstd::arithmetic::div_mod::lemma_div_is_ordered(0, a, s);
}

proof fn lemma_source_fits(ov: ChunkOverlap, local_row: int, local_col: int, bands: int)
    requires
        ov.addressable(bands),
        ov.top < ov.bottom,
        ov.left < ov.right,
        0 <= local_row < ov.bottom - ov.chunk_y,
        0 <= local_col < ov.right - ov.chunk_x,
        bands >= 0,
    ensures
        0 <= local_row * ov.stride <= (local_row * ov.stride + local_col),
        0 <= (local_row * ov.stride + local_col) * bands,
        (local_row * ov.stride + local_col) * bands + bands <= usize::MAX,
        bands > 0 ==> local_row * ov.stride + local_col <= usize::MAX,
{
    let stride = ov.stride as int;
    let rows = ov.bottom - ov.chunk_y;
    let cols = ov.right - ov.chunk_x;
    assert(0 <= local_row * stride <= rows * stride) by (nonlinear_arith)
        requires
            0 <= local_row < rows,
            stride >= 0,
    ;
    let p = local_row * stride + local_col;
    let q = rows * stride + cols;
    assert(p + 1 <= q);
    assert(p * bands + bands <= q * bands) by (nonlinear_arith)
        requires
            p + 1 <= q,
            bands >= 0,
    ;
    assert(0 <= p * bands) by (nonlinear_arith)
        requires
            0 <= p,
            bands >= 0,
    ;
    if bands > 0 {
        assert(p <= p * bands) by (nonlinear_arith)
            requires
                0 <= p,
                bands > 0,
        ;
    }
}

pub proof fn lemma_cell_row(r: int, c: int, h: int, w: int, bands: int)
    requires
        0 <= r < h,
        0 <= c < w,
        0 <= bands,
    ensures
        0 <= r * w,
        0 <= (r * w + c) * bands,
        (r * w + c) * bands + bands <= h * w * bands,
        bands > 0 ==> r * w + c <= (r * w + c) * bands,
{
    assert(0 <= r * w && r * w + c + 1 <= h * w) by (nonlinear_arith)
        requires
            0 <= r < h,
            0 <= c < w,
    ;
    let p = r * w + c;
    let n = h * w;
    assert(p * bands + bands <= n * bands) by (nonlinear_arith)
        requires
            p + 1 <= n,
            0 <= bands,
    ;
    assert(0 <= p * bands) by (nonlinear_arith)
        requires
            0 <= p,
            0 <= bands,
    ;
    if bands > 0 {
        assert(p <= p * bands) by (nonlinear_arith)
            requires
                0 <= p,
                bands > 0,
        ;
    }
}

/// A chunk that a window needs: its number in the file and its part of the window.
#[derive(Debug, Clone, Copy)]
pub struct PlannedChunk {
    pub index: u32,
    pub overlap: ChunkOverlap,
}

pub open spec fn min_int(a: int, b: int) -> int {
    if a <= b {
        a
    } else {
        b
    }
}

pub open spec fn max_int(a: int, b: int) -> int {
    if a >= b {
        a
    } else {
        b
    }
}

/// The first chunk, along one axis, that an interval starting at `from` touches.
pub open spec fn first_chunk(from: int, size: int) -> int {
    from / size
}

/// The last chunk, along one axis, that an interval ending before `end` touches.
pub open spec fn last_chunk(end: int, size: int) -> int {
    (end - 1) / size
}

/// The window can be read from the image: it has an end that is not the origin, and
/// no number on the way leaves its range.
pub open spec fn readable(ifd: IfdInfo, win: RegionWindow) -> bool {
    &&& win.valid()
    &&& win.row_end() >= 1
    &&& win.col_end() >= 1
    &&& ifd.chunk_length >= 1
    &&& match ifd.chunk_type {
        ChunkType::Strip => {
            &&& last_chunk(win.row_end(), ifd.chunk_length as int) * ifd.chunk_length
                <= ifd.height
            &&& (ifd.chunk_length * ifd.width + win.col_end()) * win.bands <= usize::MAX
        },
        ChunkType::Tile => {
            let tx = last_chunk(win.col_end(), ifd.chunk_width as int);
            let ty = last_chunk(win.row_end(), ifd.chunk_length as int);
            &&& ifd.chunk_width >= 1
            &&& ty * ifd.chunks_per_row + tx <= u32::MAX
            &&& (tx + 1) * ifd.chunk_width <= u32::MAX
            &&& (ty + 1) * ifd.chunk_length <= u32::MAX
        },
    }
}

/// Strip `si` of an image and its part of the window.
pub open spec fn strip_chunk(ifd: IfdInfo, win: RegionWindow, si: int) -> PlannedChunk {
    let y = si * ifd.chunk_length;
    PlannedChunk {
        index: si as u32,
        overlap: ChunkOverlap {
            chunk_x: 0,
            chunk_y: y as u32,
            stride: ifd.width,
            left: win.col_off,
            right: win.col_end() as u32,
            top: max_int(win.row_off as int, y) as u32,
            bottom: min_int(
                win.row_end(),
                y + min_int(ifd.chunk_length as int, ifd.height - y),
            ) as u32,
        },
    }
}

/// The tile in column `tx` and row `ty` of an image and its part of the window.
pub open spec fn tile_chunk(ifd: IfdInfo, win: RegionWindow, tx: int, ty: int) -> PlannedChunk {
    let x = tx * ifd.chunk_width;
    let y = ty * ifd.chunk_length;
    PlannedChunk {
        index: (ty * ifd.chunks_per_row + tx) as u32,
        overlap: ChunkOverlap {
            chunk_x: x as u32,
            chunk_y: y as u32,
            stride: ifd.chunk_width,
            left: max_int(win.col_off as int, x) as u32,
            right: min_int(win.col_end(), x + ifd.chunk_width) as u32,
            top: max_int(win.row_off as int, y) as u32,
            bottom: min_int(win.row_end(), y + ifd.chunk_length) as u32,
        },
    }
}

/// The chunks that a window needs, in the order in which they are read: strips from the
/// top, tiles row by row.
pub open spec fn chunk_plan(ifd: IfdInfo, win: RegionWindow) -> Seq<PlannedChunk> {
    let y0 = first_chunk(win.row_off as int, ifd.chunk_length as int);
    let y1 = last_chunk(win.row_end(), ifd.chunk_length as int);
    match ifd.chunk_type {
        ChunkType::Strip => Seq::new(
            max_int(y1 - y0 + 1, 0) as nat,
            |k: int| strip_chunk(ifd, win, y0 + k),
        ),
        ChunkType::Tile => {
            let x0 = first_chunk(win.col_off as int, ifd.chunk_width as int);
            let x1 = last_chunk(win.col_end(), ifd.chunk_width as int);
            let across = max_int(x1 - x0 + 1, 0);
            let down = max_int(y1 - y0 + 1, 0);
            Seq::new(
                (down * across) as nat,
                |k: int| tile_chunk(ifd, win, x0 + k % across, y0 + k / across),
            )
        },
    }
}

/// A chunk no later than the last one starts before the end.
proof fn lemma_chunk_starts(end: int, size: int, i: int)
    requires
        end >= 1,
        size >= 1,
        0 <= i <= last_chunk(end, size),
    ensures
        0 <= i * size <= last_chunk(end, size) * size <= end - 1,
{
    let n = last_chunk(end, size);
    vstd::arithmetic::div_mod::lemma_fundamental_div_mod(end - 1, size);
    assert(n * size == size * n) by (nonlinear_arith);
    assert(0 <= i * size <= n * size) by (nonlinear_arith)
        requires
            0 <= i <= n,
            size >= 1,
    ;
}

fn min_u32(a: u32, b: u32) -> (m: u32)
    ensures
        m == min_int(a as int, b as int),
{
    if a <= b {
        a
    } else {
        b
    }
}

fn max_u32(a: u32, b: u32) -> (m: u32)
    ensures
        m == max_int(a as int, b as int),
{
    if a >= b {
        a
    } else {
        b
    }
}

fn plan_strip(ifd: &IfdInfo, win: &RegionWindow, si: u32) -> (chunk: PlannedChunk)
    requires
        readable(*ifd, *win),
        ifd.chunk_type is Strip,
        si <= last_chunk(win.row_end(), ifd.chunk_length as int),
    ensures
        chunk == strip_chunk(*ifd, *win, si as int),
{
    proof {
        lemma_chunk_starts(win.row_end(), ifd.chunk_length as int, si as int);
    }
    let y: u32 = si * ifd.chunk_length;
    let rows: u32 = min_u32(ifd.chunk_length, ifd.height - y);
    PlannedChunk {
        index: si,
        overlap: ChunkOverlap {
            chunk_x: 0,
            chunk_y: y,
            stride: ifd.width,
            left: win.col_off,
            right: win.col_off + win.width,
            top: max_u32(win.row_off, y),
            bottom: min_u32(win.row_off + win.height, y + rows),
        },
    }
}

fn plan_tile(ifd: &IfdInfo, win: &RegionWindow, tx: u32, ty: u32) -> (chunk: PlannedChunk)
    requires
        readable(*ifd, *win),
        ifd.chunk_type is Tile,
        tx <= last_chunk(win.col_end(), ifd.chunk_width as int),
        ty <= last_chunk(win.row_end(), ifd.chunk_length as int),
    ensures
        chunk == tile_chunk(*ifd, *win, tx as int, ty as int),
{
    let ghost mx = last_chunk(win.col_end(), ifd.chunk_width as int);
    let ghost my = last_chunk(win.row_end(), ifd.chunk_length as int);
    let ghost tw = ifd.chunk_width as int;
    let ghost th = ifd.chunk_length as int;
    let ghost per_row = ifd.chunks_per_row as int;
    proof {
        assert(0 <= ty * per_row <= my * per_row) by (nonlinear_arith)
            requires
                0 <= ty <= my,
                per_row >= 0,
        ;
        assert(0 <= tx * tw && tx * tw + tw <= (mx + 1) * tw) by (nonlinear_arith)
            requires
                0 <= tx <= mx,
                tw >= 1,
        ;
        assert(0 <= ty * th && ty * th + th <= (my + 1) * th) by (nonlinear_arith)
            requires
                0 <= ty <= my,
                th >= 1,
        ;
    }
    let x: u32 = tx * ifd.chunk_width;
    let y: u32 = ty * ifd.chunk_length;
    PlannedChunk {
        index: ty * ifd.chunks_per_row + tx,
        overlap: ChunkOverlap {
            chunk_x: x,
            chunk_y: y,
            stride: ifd.chunk_width,
            left: max_u32(win.col_off, x),
            right: min_u32(win.col_off + win.width, x + ifd.chunk_width),
            top: max_u32(win.row_off, y),
            bottom: min_u32(win.row_off + win.height, y + ifd.chunk_length),
        },
    }
}

/// The chunks that a window needs, in the order in which they are to be read.
pub fn region_chunks(ifd: &IfdInfo, win: &RegionWindow) -> (plan: Vec<PlannedChunk>)
    requires
        readable(*ifd, *win),
    ensures
        plan@ == chunk_plan(*ifd, *win),
{
    let mut plan: Vec<PlannedChunk> = Vec::new();
    let y0: u32 = win.row_off / ifd.chunk_length;
    let y1: u32 = (win.row_off + win.height - 1) / ifd.chunk_length;
    match ifd.chunk_type {
        ChunkType::Strip => {
            let mut si: u64 = y0 as u64;
            while si <= y1 as u64
                invariant
                    readable(*ifd, *win),
                    ifd.chunk_type is Strip,
                    y1 == last_chunk(win.row_end(), ifd.chunk_length as int),
                    y0 <= si,
                    y0 <= y1 ==> si <= y1 + 1,
                    y0 > y1 ==> si == y0,
                    plan@ =~= Seq::new(
                        (si - y0) as nat,
                        |k: int| strip_chunk(*ifd, *win, y0 + k),
                    ),
                decreases y1 + 1 - si,
            {
                plan.push(plan_strip(ifd, win, si as u32));
                si += 1;
            }
            assert(plan@ =~= chunk_plan(*ifd, *win));
        },
        ChunkType::Tile => {
            let x0: u32 = win.col_off / ifd.chunk_width;
            let x1: u32 = (win.col_off + win.width - 1) / ifd.chunk_width;
            let ghost across = max_int(x1 - x0 + 1, 0);
            let ghost down = max_int(y1 - y0 + 1, 0);
            let mut ty: u64 = y0 as u64;
            proof {
                assert(0 * across == 0);
            }
            while ty <= y1 as u64
                invariant
                    readable(*ifd, *win),
                    ifd.chunk_type is Tile,
                    y1 == last_chunk(win.row_end(), ifd.chunk_length as int),
                    x1 == last_chunk(win.col_end(), ifd.chunk_width as int),
                    across == max_int(x1 - x0 + 1, 0),
                    y0 <= ty,
                    y0 <= y1 ==> ty <= y1 + 1,
                    y0 > y1 ==> ty == y0,
                    plan@.len() == (ty - y0) * across,
                    forall|k: int|
                        0 <= k < plan@.len() ==> #[trigger] plan@[k] == tile_chunk(
                            *ifd,
                            *win,
                            x0 + k % across,
                            y0 + k / across,
                        ),
                decreases y1 + 1 - ty,
            {
                let mut tx: u64 = x0 as u64;
                while tx <= x1 as u64
                    invariant
                        readable(*ifd, *win),
                        ifd.chunk_type is Tile,
                        y1 == last_chunk(win.row_end(), ifd.chunk_length as int),
                        x1 == last_chunk(win.col_end(), ifd.chunk_width as int),
                        across == max_int(x1 - x0 + 1, 0),
                        y0 <= ty <= y1,
                        x0 <= tx,
                        x0 <= x1 ==> tx <= x1 + 1,
                        x0 > x1 ==> tx == x0,
                        plan@.len() == (ty - y0) * across + (tx - x0),
                        forall|k: int|
                            0 <= k < plan@.len() ==> #[trigger] plan@[k] == tile_chunk(
                                *ifd,
                                *win,
                                x0 + k % across,
                                y0 + k / across,
                            ),
                    decreases x1 + 1 - tx,
                {
                    proof {
                        vstd::arithmetic::div_mod::lemma_fundamental_div_mod_converse(
                            plan@.len() as int,
                            across,
                            ty - y0,
                            tx - x0,
                        );
                    }
                    plan.push(plan_tile(ifd, win, tx as u32, ty as u32));
                    tx += 1;
                }
                proof {
                    assert((ty + 1 - y0) * across == (ty - y0) * across + across)
                        by (nonlinear_arith);
                }
                ty += 1;
            }
            assert(ty - y0 == down);
            assert(plan@ =~= chunk_plan(*ifd, *win));
        },
    }
    plan
}

/// Every chunk of a plan lies in its window, and the samples of a strip have places
/// within range.
proof fn lemma_plan_fits(ifd: IfdInfo, win: RegionWindow, k: int)
    requires
        readable(ifd, win),
        0 <= k < chunk_plan(ifd, win).len(),
    ensures
        chunk_plan(ifd, win)[k].overlap.fits(win),
        ifd.chunk_type is Strip ==> chunk_plan(ifd, win)[k].overlap.addressable(win.bands as int),
{
    let bands = win.bands as int;
    let y0 = first_chunk(win.row_off as int, ifd.chunk_length as int);
    let y1 = last_chunk(win.row_end(), ifd.chunk_length as int);
    vstd::arithmetic::div_mod::lemma_div_pos_is_pos(win.row_off as int, ifd.chunk_length as int);
    match ifd.chunk_type {
        ChunkType::Strip => {
            let si = y0 + k;
            let width = ifd.width as int;
            lemma_chunk_starts(win.row_end(), ifd.chunk_length as int, si);
            let c = strip_chunk(ifd, win, si).overlap;
            if c.top < c.bottom {
                let rows = c.bottom - c.chunk_y;
                let length = ifd.chunk_length as int;
                assert(rows * width <= length * width) by (nonlinear_arith)
                    requires
                        rows <= length,
                        width >= 0,
                ;
                let p = rows * width + win.col_end();
                let q = length * width + win.col_end();
                assert(p * bands <= q * bands) by (nonlinear_arith)
                    requires
                        p <= q,
                        bands >= 0,
                ;
            }
        },
        ChunkType::Tile => {
            let x0 = first_chunk(win.col_off as int, ifd.chunk_width as int);
            let x1 = last_chunk(win.col_end(), ifd.chunk_width as int);
            let across = max_int(x1 - x0 + 1, 0);
            let down = max_int(y1 - y0 + 1, 0);
            vstd::arithmetic::div_mod::lemma_div_pos_is_pos(
                win.col_off as int,
                ifd.chunk_width as int,
            );
            lemma_split_index(k, down, across);
            let tx = x0 + k % across;
            let ty = y0 + k / across;
            lemma_chunk_starts(win.row_end(), ifd.chunk_length as int, ty);
            lemma_chunk_starts(win.col_end(), ifd.chunk_width as int, tx);
            let tw = ifd.chunk_width as int;
            let th = ifd.chunk_length as int;
            assert(tx * tw + tw <= (x1 + 1) * tw) by (nonlinear_arith)
                requires
                    tx <= x1,
                    tw >= 1,
            ;
            assert(ty * th + th <= (y1 + 1) * th) by (nonlinear_arith)
                requires
                    ty <= y1,
                    th >= 1,
            ;
        },
    }
}

/// The row and the column of item `k` of a grid that is walked row by row.
pub proof fn lemma_split_index(k: int, rows: int, cols: int)
    requires
        0 <= k < rows * cols,
        rows >= 0,
        cols >= 0,
    ensures
        cols > 0,
        0 <= k / cols < rows,
        0 <= k % cols < cols,
        k == (k / cols) * cols + k % cols,
{
    assert(cols > 0) by (nonlinear_arith)
        requires
            0 < rows * cols,
            cols >= 0,
    ;
    vstd::arithmetic::div_mod::lemma_fundamental_div_mod(k, cols);
    vstd::arithmetic::div_mod::lemma_mod_bound(k, cols);
    let q = k / cols;
    let r = k % cols;
    assert(cols * q == q * cols) by (nonlinear_arith);
    assert(0 <= q < rows) by (nonlinear_arith)
        requires
            k == q * cols + r,
            0 <= r < cols,
            0 <= k < rows * cols,
    ;
}

fn rounded_up(n: u32, d: u32) -> (r: u128)
    requires
        d >= 1,
    ensures
        r == ceil_div(n as int, d as int),
        r <= n + d,
{
    proof {
        vstd::arithmetic::div_mod::lemma_div_is_ordered_by_denominator(n + d - 1, 1, d as int);
        vstd::arithmetic::div_mod::lemma_div_pos_is_pos(n + d - 1, d as int);
    }
    (n as u128 + d as u128 - 1) / d as u128
}

/// Tells whether a product stays in the range of the integers that count samples.
fn product_fits(a: u128, bands: usize) -> (r: bool)
    ensures
        r == (a * bands <= usize::MAX),
{
    match a.checked_mul(bands as u128) {
        Some(p) => p <= usize::MAX as u128,
        None => false,
    }
}

proof fn lemma_product_bound(a: int, b: int, m: int)
    requires
        0 <= a <= m,
        0 <= b <= m,
    ensures
        0 <= a * b <= m * m,
{
    assert(0 <= a * b <= m * m) by (nonlinear_arith)
        requires
            0 <= a <= m,
            0 <= b <= m,
    ;
}

/// Tells whether a window can be read from an image.
pub fn is_readable(ifd: &IfdInfo, win: &RegionWindow) -> (r: bool)
    ensures
        r == readable(*ifd, *win),
{
    if win.step < 1 || ifd.chunk_length < 1 {
        return false;
    }
    let col_end: u64 = win.col_off as u64 + win.width as u64;
    let row_end: u64 = win.row_off as u64 + win.height as u64;
    let limit: u64 = u32::MAX as u64;
    if col_end + win.step as u64 - 1 > limit || row_end + win.step as u64 - 1 > limit {
        return false;
    }
    let w: u128 = rounded_up(win.width, win.step);
    let h: u128 = rounded_up(win.height, win.step);
    proof {
        lemma_product_bound(h as int, w as int, 0x2_0000_0000);
    }
    if !product_fits(h * w, win.bands) || row_end < 1 || col_end < 1 {
        return false;
    }
    proof {
        vstd::arithmetic::div_mod::lemma_div_is_ordered_by_denominator(
            row_end - 1,
            1,
            ifd.chunk_length as int,
        );
        vstd::arithmetic::div_mod::lemma_div_pos_is_pos(row_end - 1, ifd.chunk_length as int);
    }
    let ty: u64 = (row_end - 1) / ifd.chunk_length as u64;
    match ifd.chunk_type {
        ChunkType::Strip => {
            proof {
                lemma_product_bound(ty as int, ifd.chunk_length as int, 0xFFFF_FFFF);
                lemma_product_bound(ifd.chunk_length as int, ifd.width as int, 0xFFFF_FFFF);
            }
            ty * ifd.chunk_length as u64 <= ifd.height as u64 && product_fits(
                ifd.chunk_length as u128 * ifd.width as u128 + col_end as u128,
                win.bands,
            )
        },
        ChunkType::Tile => {
            if ifd.chunk_width < 1 {
                return false;
            }
            proof {
                vstd::arithmetic::div_mod::lemma_div_is_ordered_by_denominator(
                    col_end - 1,
                    1,
                    ifd.chunk_width as int,
                );
                vstd::arithmetic::div_mod::lemma_div_pos_is_pos(
                    col_end - 1,
                    ifd.chunk_width as int,
                );
            }
            let tx: u64 = (col_end - 1) / ifd.chunk_width as u64;
            proof {
                lemma_product_bound(ty as int, ifd.chunks_per_row as int, 0xFFFF_FFFF);
                lemma_product_bound(tx + 1, ifd.chunk_width as int, 0x1_0000_0000);
                lemma_product_bound(ty + 1, ifd.chunk_length as int, 0x1_0000_0000);
            }
            let limit: u128 = u32::MAX as u128;
            ty as u128 * ifd.chunks_per_row as u128 + tx as u128 <= limit && (tx as u128 + 1)
                * ifd.chunk_width as u128 <= limit && (ty as u128 + 1) * ifd.chunk_length as u128
                <= limit
        },
    }
}

/// A window that is being read: the plan, how much of it is done, and the samples
/// so far.
pub struct RegionReader<T> {
    pub win: RegionWindow,
    pub chunk_type: ChunkType,
    pub plan: Vec<PlannedChunk>,
    pub done: usize,
    pub out: Vec<T>,
}

impl<T> RegionReader<T> {
    pub open spec fn wf(self) -> bool {
        &&& self.win.valid()
        &&& self.done <= self.plan@.len()
        &&& self.out@.len() == self.win.out_len()
        &&& forall|k: int|
            0 <= k < self.plan@.len() ==> (#[trigger] self.plan@[k]).overlap.fits(self.win)
        &&& self.chunk_type is Strip ==> forall|k: int|
            0 <= k < self.plan@.len() ==> (#[trigger] self.plan@[k]).overlap.addressable(
                self.win.bands as int,
            )
    }

    /// The part of the window that the next chunk gives, where the rows of its samples
    /// are `data_width` pixels wide. The rows of a strip are as wide as the image.
    pub open spec fn next_overlap(self, data_width: u32) -> ChunkOverlap {
        let ov = self.plan@[self.done as int].overlap;
        match self.chunk_type {
            ChunkType::Strip => ov,
            ChunkType::Tile => ChunkOverlap { stride: data_width, ..ov },
        }
    }
}

impl<T: Copy> RegionReader<T> {
    /// Starts to read a window: the samples are `zero` until a chunk brings them.
    pub fn new(ifd: &IfdInfo, win: RegionWindow, zero: T) -> (reader: Self)
        requires
            readable(*ifd, win),
        ensures
            reader.wf(),
            reader.win == win,
            reader.chunk_type == ifd.chunk_type,
            reader.plan@ == chunk_plan(*ifd, win),
            reader.done == 0,
            reader.out@ == Seq::new(win.out_len() as nat, |i: int| zero),
    {
        let plan: Vec<PlannedChunk> = region_chunks(ifd, &win);
        proof {
            let step = win.step as int;
            vstd::arithmetic::div_mod::lemma_div_is_ordered_by_denominator(
                win.width + step - 1,
                1,
                step,
            );
            vstd::arithmetic::div_mod::lemma_div_is_ordered_by_denominator(
                win.height + step - 1,
                1,
                step,
            );
            vstd::arithmetic::div_mod::lemma_div_pos_is_pos(win.width + step - 1, step);
            vstd::arithmetic::div_mod::lemma_div_pos_is_pos(win.height + step - 1, step);
            assert forall|k: int| 0 <= k < plan@.len() implies (
            #[trigger] plan@[k]).overlap.fits(win) && (ifd.chunk_type is Strip
                ==> plan@[k].overlap.addressable(win.bands as int)) by {
                lemma_plan_fits(*ifd, win, k);
            }
        }
        let out_w: u32 = ((win.width as u64 + win.step as u64 - 1) / win.step as u64) as u32;
        let out_h: u32 = ((win.height as u64 + win.step as u64 - 1) / win.step as u64) as u32;
        let mut total: usize = 0;
        if win.bands > 0 {
            proof {
                let pixels = win.out_h() * win.out_w();
                assert(0 <= pixels) by (nonlinear_arith)
                    requires
                        pixels == win.out_h() * win.out_w(),
                        win.out_h() >= 0,
                        win.out_w() >= 0,
                ;
                assert(pixels <= pixels * win.bands) by (nonlinear_arith)
                    requires
                        0 <= pixels,
                        win.bands > 0,
                ;
            }
            total = out_h as usize * out_w as usize * win.bands;
        }
        let mut out: Vec<T> = Vec::new();
        for i in 0..total
            invariant
                out@ =~= Seq::new(i as nat, |j: int| zero),
        {
            out.push(zero);
        }
        assert(total == win.out_len());
        RegionReader { win, chunk_type: ifd.chunk_type, plan, done: 0, out }
    }

    /// The number of the chunk that is to be read next, while one is missing.
    pub fn wanted(&self) -> (index: Option<u32>)
        requires
            self.wf(),
        ensures
            index == (if self.done < self.plan@.len() {
                Some(self.plan@[self.done as int].index)
            } else {
                None
            }),
    {
        if self.done < self.plan.len() {
            Some(self.plan[self.done].index)
        } else {
            None
        }
    }

    /// Tells whether the chunk that is wanted can have rows of samples that are
    /// `data_width` pixels wide.
    pub fn can_accept(&self, data_width: u32) -> (r: bool)
        requires
            self.wf(),
            self.done < self.plan@.len(),
        ensures
            r == self.next_overlap(data_width).addressable(self.win.bands as int),
    {
        let mut ov: ChunkOverlap = self.plan[self.done].overlap;
        match self.chunk_type {
            ChunkType::Strip => {},
            ChunkType::Tile => {
                ov.stride = data_width;
            },
        }
        if ov.left >= ov.right || ov.top >= ov.bottom {
            return true;
        }
        let rows: u32 = ov.bottom - ov.chunk_y;
        let cols: u32 = ov.right - ov.chunk_x;
        proof {
            lemma_product_bound(rows as int, ov.stride as int, 0xFFFF_FFFF);
        }
        product_fits(rows as u128 * ov.stride as u128 + cols as u128, self.win.bands)
    }

    /// Takes the samples of the chunk that was wanted.
    pub fn accept(&mut self, data: &[T], data_width: u32)
        requires
            old(self).wf(),
            old(self).done < old(self).plan@.len(),
            old(self).next_overlap(data_width).addressable(old(self).win.bands as int),
        ensures
            final(self).wf(),
            final(self).win == old(self).win,
            final(self).chunk_type == old(self).chunk_type,
            final(self).plan@ == old(self).plan@,
            final(self).done == old(self).done + 1,
            copied(
                old(self).win,
                old(self).next_overlap(data_width),
                data@,
                old(self).out@,
                final(self).out@,
            ),
    {
        let mut ov: ChunkOverlap = self.plan[self.done].overlap;
        match self.chunk_type {
            ChunkType::Strip => {},
            ChunkType::Tile => {
                ov.stride = data_width;
            },
        }
        assert(self.done < self.plan.len());
        let win: RegionWindow = self.win;
        copy_chunk(&win, &ov, data, &mut self.out);
        self.done += 1;
    }

    /// The samples of the window.
    pub fn finish(self) -> (out: Vec<T>)
        requires
            self.wf(),
            self.done == self.plan@.len(),
        ensures
            out@ == self.out@,
    {
        self.out
    }
}

/// The text of the error for a chunk that could not be read.
pub fn chunk_error(chunk_type: ChunkType, index: u32, reason: &str) -> (text: String)
    ensures
        text@ == (match chunk_type {
            ChunkType::Strip => "Failed to read strip "@,
            ChunkType::Tile => "Failed to read tile "@,
        }) + crate::numbers::decimal(index as nat) + ": "@ + reason@,
{
    let kind: &str = match chunk_type {
        ChunkType::Strip => "Failed to read strip ",
        ChunkType::Tile => "Failed to read tile ",
    };
    let number: String = decimal_text(index as u64);
    let mut text: String = concat3(kind, number.as_str(), ": ");
    text.append(reason);
    text
}

/// The chunk's samples are those of the image, wherever the window takes them.
pub open spec fn faithful<T>(
    win: RegionWindow,
    ov: ChunkOverlap,
    data: Seq<T>,
    image: spec_fn(int, int, int) -> T,
) -> bool {
    forall|dr: int, dc: int, b: int|
        #![trigger ov.source(win, dr, dc, b)]
        0 <= dr < win.out_h() && 0 <= dc < win.out_w() && 0 <= b < win.bands && ov.supplies(
            win,
            dr,
            dc,
        ) ==> {
            &&& 0 <= ov.source(win, dr, dc, b) < data.len()
            &&& data[ov.source(win, dr, dc, b)] == image(
                ov.row_for(win, dr),
                ov.col_for(win, dc),
                b,
            )
        }
}

/// Two overlaps are the same but for the width of the rows of samples.
pub open spec fn same_place(a: ChunkOverlap, b: ChunkOverlap) -> bool {
    a == (ChunkOverlap { stride: a.stride, ..b })
}

/// What the first `k` chunks of a plan leave: every pixel that one of them gives is
/// that of the image.
proof fn lemma_region_prefix<T>(
    win: RegionWindow,
    ovs: Seq<ChunkOverlap>,
    datas: Seq<Seq<T>>,
    outs: Seq<Seq<T>>,
    image: spec_fn(int, int, int) -> T,
    k: int,
    dr: int,
    dc: int,
    b: int,
    j: int,
)
    requires
        win.step == 1,
        datas.len() == ovs.len(),
        outs.len() == ovs.len() + 1,
        forall|i: int|
            0 <= i < ovs.len() ==> copied(win, #[trigger] ovs[i], datas[i], outs[i], outs[i + 1]),
        forall|i: int| 0 <= i < ovs.len() ==> faithful(win, #[trigger] ovs[i], datas[i], image),
        0 <= j < k <= ovs.len(),
        0 <= dr < win.out_h(),
        0 <= dc < win.out_w(),
        0 <= b < win.bands,
        ovs[j].supplies(win, dr, dc),
    ensures
        outs[k][cell(dr, dc, b, win.out_w(), win.bands as int)] == image(
            win.row_off + dr,
            win.col_off + dc,
            b,
        ),
    decreases k,
{
    let ov = ovs[k - 1];
    assert(copied(win, ov, datas[k - 1], outs[k - 1], outs[k - 1 + 1]));
    assert(faithful(win, ov, datas[k - 1], image));
    assert(ov.row_for(win, dr) == win.row_off + dr);
    assert(ov.col_for(win, dc) == win.col_off + dc);
    assert(outs[k][cell(dr, dc, b, win.out_w(), win.bands as int)] == ov.sample(
        win,
        datas[k - 1],
        outs[k - 1],
        dr,
        dc,
        b,
    ));
    if ov.supplies(win, dr, dc) {
        assert(0 <= ov.source(win, dr, dc, b) < datas[k - 1].len());
    } else {
        lemma_region_prefix(win, ovs, datas, outs, image, k - 1, dr, dc, b, j);
    }
}

/// Every pixel of a window that is read without skipping lies in a chunk of the plan.
proof fn lemma_plan_covers(ifd: IfdInfo, win: RegionWindow, dr: int, dc: int) -> (k: int)
    requires
        readable(ifd, win),
        win.step == 1,
        win.row_end() <= ifd.height,
        0 <= dr < win.height,
        0 <= dc < win.width,
    ensures
        0 <= k < chunk_plan(ifd, win).len(),
        chunk_plan(ifd, win)[k].overlap.supplies(win, dr, dc),
{
    let y = win.row_off + dr;
    let length = ifd.chunk_length as int;
    let y0 = first_chunk(win.row_off as int, length);
    let y1 = last_chunk(win.row_end(), length);
    let ty = y / length;
    vstd::arithmetic::div_mod::lemma_fundamental_div_mod(y, length);
    vstd::arithmetic::div_mod::lemma_mod_bound(y, length);
    vstd::arithmetic::div_mod::lemma_div_is_ordered(win.row_off as int, y, length);
    vstd::arithmetic::div_mod::lemma_div_is_ordered(y, win.row_end() - 1, length);
    vstd::arithmetic::div_mod::lemma_div_pos_is_pos(win.row_off as int, length);
    assert(length * ty == ty * length) by (nonlinear_arith);
    match ifd.chunk_type {
        ChunkType::Strip => {
            let k = ty - y0;
            lemma_chunk_starts(win.row_end(), length, ty);
            let ov = chunk_plan(ifd, win)[k].overlap;
            assert(ov == strip_chunk(ifd, win, ty).overlap);
            assert(ov.row_for(win, dr) == y);
            assert(ov.col_for(win, dc) == win.col_off + dc);
            k
        },
        ChunkType::Tile => {
            let x = win.col_off + dc;
            let cw = ifd.chunk_width as int;
            let x0 = first_chunk(win.col_off as int, cw);
            let x1 = last_chunk(win.col_end(), cw);
            let tx = x / cw;
            vstd::arithmetic::div_mod::lemma_fundamental_div_mod(x, cw);
            vstd::arithmetic::div_mod::lemma_mod_bound(x, cw);
            vstd::arithmetic::div_mod::lemma_div_is_ordered(win.col_off as int, x, cw);
            vstd::arithmetic::div_mod::lemma_div_is_ordered(x, win.col_end() - 1, cw);
            vstd::arithmetic::div_mod::lemma_div_pos_is_pos(win.col_off as int, cw);
            assert(cw * tx == tx * cw) by (nonlinear_arith);
            let across = x1 - x0 + 1;
            let down = y1 - y0 + 1;
            let r = ty - y0;
            let c = tx - x0;
            let k = r * across + c;
            assert(0 <= k < down * across) by (nonlinear_arith)
                requires
                    k == r * across + c,
                    0 <= r < down,
                    0 <= c < across,
            ;
            vstd::arithmetic::div_mod::lemma_fundamental_div_mod_converse(k, across, r, c);
            lemma_chunk_starts(win.row_end(), length, ty);
            lemma_chunk_starts(win.col_end(), cw, tx);
            assert(tx * cw + cw <= (x1 + 1) * cw) by (nonlinear_arith)
                requires
                    tx <= x1,
                    cw >= 1,
            ;
            assert(ty * length + length <= (y1 + 1) * length) by (nonlinear_arith)
                requires
                    ty <= y1,
                    length >= 1,
            ;
            let ov = chunk_plan(ifd, win)[k].overlap;
            assert(ov == tile_chunk(ifd, win, tx, ty).overlap);
            assert(ov.row_for(win, dr) == y);
            assert(ov.col_for(win, dc) == x);
            k
        },
    }
}

/// A window that is read without skipping holds the image: when each chunk of the plan
/// has been copied in turn and each held the samples of the image, the pixel in row `dr`
/// and column `dc` is that of the image, `dr` rows and `dc` columns into the window.
pub proof fn law_region_is_window<T>(
    ifd: IfdInfo,
    win: RegionWindow,
    ovs: Seq<ChunkOverlap>,
    datas: Seq<Seq<T>>,
    outs: Seq<Seq<T>>,
    image: spec_fn(int, int, int) -> T,
)
    requires
        readable(ifd, win),
        win.step == 1,
        win.row_end() <= ifd.height,
        ovs.len() == chunk_plan(ifd, win).len(),
        datas.len() == ovs.len(),
        outs.len() == ovs.len() + 1,
        forall|i: int|
            0 <= i < ovs.len() ==> same_place(
                #[trigger] ovs[i],
                chunk_plan(ifd, win)[i].overlap,
            ),
        forall|i: int|
            0 <= i < ovs.len() ==> copied(win, #[trigger] ovs[i], datas[i], outs[i], outs[i + 1]),
        forall|i: int| 0 <= i < ovs.len() ==> faithful(win, #[trigger] ovs[i], datas[i], image),
    ensures
        forall|dr: int, dc: int, b: int|
            #![trigger cell(dr, dc, b, win.out_w(), win.bands as int)]
            0 <= dr < win.height && 0 <= dc < win.width && 0 <= b < win.bands
                ==> outs.last()[cell(dr, dc, b, win.out_w(), win.bands as int)] == image(
                win.row_off + dr,
                win.col_off + dc,
                b,
            ),
{
    assert forall|dr: int, dc: int, b: int|
        #![trigger cell(dr, dc, b, win.out_w(), win.bands as int)]
        0 <= dr < win.height && 0 <= dc < win.width && 0 <= b < win.bands implies outs.last()[cell(
        dr,
        dc,
        b,
        win.out_w(),
        win.bands as int,
    )] == image(win.row_off + dr, win.col_off + dc, b) by {
        let k = lemma_plan_covers(ifd, win, dr, dc);
        assert(same_place(ovs[k], chunk_plan(ifd, win)[k].overlap));
        assert(ovs[k].supplies(win, dr, dc));
        lemma_region_prefix(
            win,
            ovs,
            datas,
            outs,
            image,
            ovs.len() as int,
            dr,
            dc,
            b,
            k,
        );
    }
}

/// `i` is the first place of the smallest key, or 0 where no key is below infinity.
pub open spec fn is_closest(keys: Seq<u64>, i: int) -> bool {
    ||| {
        &&& 0 <= i < keys.len()
        &&& keys[i] < INFINITY_BITS
        &&& forall|j: int| 0 <= j < keys.len() ==> keys[i] <= #[trigger] keys[j]
        &&& forall|j: int| 0 <= j < i ==> keys[i] < #[trigger] keys[j]
    }
    ||| {
        &&& i == 0
        &&& forall|j: int| 0 <= j < keys.len() ==> #[trigger] keys[j] >= INFINITY_BITS
    }
}

/// The place of the closest of several distances, given by their bits: doubles that are
/// not negative are ordered as their bits are, and what is no number lies above infinity.
pub fn closest(keys: &[u64]) -> (best: usize)
    ensures
        is_closest(keys@, best as int),
{
    let mut best: usize = 0;
    let mut best_key: u64 = INFINITY_BITS;
    for i in 0..keys.len()
        invariant
            best_key <= INFINITY_BITS,
            best_key == INFINITY_BITS ==> best == 0,
            best_key < INFINITY_BITS ==> best < i && best_key == keys@[best as int],
            forall|j: int| 0 <= j < i ==> best_key <= #[trigger] keys@[j],
            forall|j: int| 0 <= j < best ==> best_key < #[trigger] keys@[j],
    {
        if keys[i] < best_key {
            best_key = keys[i];
            best = i;
        }
    }
    best
}

/// The image of a file to read for a zoom level: the one whose resolution is closest to
/// that of the tile, given the bits of the distances. With one image, or where a
/// resolution is unknown (`comparable` is false), it is the full raster.
pub fn select_ifd_for_zoom(distances: &[u64], comparable: bool) -> (best: usize)
    ensures
        distances@.len() <= 1 || !comparable ==> best == 0,
        distances@.len() > 1 && comparable ==> is_closest(distances@, best as int),
        distances@.len() >= 1 ==> best < distances@.len(),
{
    if distances.len() <= 1 || !comparable {
        return 0;
    }
    closest(distances)
}

/// Coordinates of this kind of reference system are degrees.
pub fn is_geographic(crs_type: &str) -> (r: bool)
    ensures
        r == (crs_type@ == "Geographic"@ || crs_type@ == "Unknown"@),
{
    str_eq(crs_type, "Geographic") || str_eq(crs_type, "Unknown")
}

/// The file that holds an image: the overview file for an image outside of the raster's
/// own file.
pub fn region_file(ifd: &IfdInfo, path: &str, ovr_path: Option<&str>) -> (file: Result<
    String,
    String,
>)
    ensures
        !ifd.external ==> file is Ok && file->Ok_0@ == path@,
        ifd.external && ovr_path is Some ==> file is Ok && file->Ok_0@ == ovr_path->Some_0@,
        ifd.external && ovr_path is None ==> file is Err && file->Err_0@
            == "External IFD but no .ovr path provided"@,
{
    if ifd.external {
        match ovr_path {
            Some(ovr) => Ok(ovr.to_owned()),
            None => Err("External IFD but no .ovr path provided".to_owned()),
        }
    } else {
        Ok(path.to_owned())
    }
}

/// The offset of the directory to go to before an image is read: the image's own in an
/// overview file, that of the sub-image in the raster's file. `None` stays at the first
/// directory.
pub fn region_directory(ifd: &IfdInfo, sub_ifds: &[u64]) -> (offset: Option<u64>)
    ensures
        offset == (if ifd.external {
            ifd.ifd_ptr
        } else if 0 < ifd.index <= sub_ifds@.len() {
            Some(sub_ifds@[ifd.index - 1])
        } else {
            None
        }),
{
    if ifd.external {
        ifd.ifd_ptr
    } else if ifd.index > 0 && ifd.index - 1 < sub_ifds.len() {
        Some(sub_ifds[ifd.index - 1])
    } else {
        None
    }
}

// ─── What holds of windows ───

proof fn lemma_ceil(n: int, d: int, q: int)
    requires
        d >= 1,
        n <= q * d,
        (q - 1) * d < n,
    ensures
        ceil_div(n, d) == q,
{
    let r = n + d - 1 - q * d;
    assert(0 <= r < d) by (nonlinear_arith)
        requires
            r == n + d - 1 - q * d,
            n <= q * d,
            (q - 1) * d < n,
    ;
    vstd::arithmetic::div_mod::lemma_fundamental_div_mod_converse(n + d - 1, d, q, r);
}

/// A part of a number of parts of a size, rounded up: as many parts as are needed, and no more.
pub proof fn law_parts_are_rounded_up(n: int, d: int)
    requires
        d >= 1,
        n >= 0,
    ensures
        n <= ceil_div(n, d) * d < n + d,
{
    vstd::arithmetic::div_mod::lemma_fundamental_div_mod(n + d - 1, d);
    vstd::arithmetic::div_mod::lemma_mod_bound(n + d - 1, d);
    let q = ceil_div(n, d);
    assert(q * d == d * q) by (nonlinear_arith);
}

/// A chunk that was copied gives its samples to the window: the pixel in row `r` and column
/// `c` of the image, which the window takes from the chunk at every so-manieth row and column,
/// is what was read in the row and column of the window that many steps from its corner. `w`
/// is the width of what is read.
pub proof fn law_chunk_is_copied<T>(
    win: RegionWindow,
    ov: ChunkOverlap,
    data: Seq<T>,
    before: Seq<T>,
    after: Seq<T>,
    w: int,
    r: int,
    c: int,
    b: int,
)
    requires
        copied(win, ov, data, before, after),
        ov.fits(win),
        win.step >= 1,
        (w - 1) * win.step < win.width <= w * win.step,
        ov.top <= r < ov.bottom,
        ov.left <= c < ov.right,
        (r - ov.top) % (win.step as int) == 0,
        (c - ov.left) % (win.step as int) == 0,
        0 <= b < win.bands,
        0 <= ((r - ov.chunk_y) * ov.stride + (c - ov.chunk_x)) * win.bands + b < data.len(),
    ensures
        after[((r - win.row_off) / (win.step as int) * w + (c - win.col_off) / (win.step as int))
            * win.bands + b] == data[((r - ov.chunk_y) * ov.stride + (c - ov.chunk_x)) * win.bands
            + b],
{
    let s = win.step as int;
    lemma_ceil(win.width as int, s, w);
    let k = (r - ov.top) / s;
    let m = (c - ov.left) / s;
    vstd::arithmetic::div_mod::lemma_fundamental_div_mod(r - ov.top, s);
    vstd::arithmetic::div_mod::lemma_fundamental_div_mod(c - ov.left, s);
    assert(k * s == s * k && m * s == s * m) by (nonlinear_arith);
    lemma_step_division(ov.top - win.row_off, k, s);
    lemma_step_division(ov.left - win.col_off, m, s);
    let dr = (r - win.row_off) / s;
    let dc = (c - win.col_off) / s;
    lemma_inside(r - win.row_off, win.height as int, s);
    lemma_inside(c - win.col_off, win.width as int, s);
    assert(dr - (ov.top - win.row_off) / s == k);
    assert(dc - (ov.left - win.col_off) / s == m);
    assert(ov.row_for(win, dr) == r);
    assert(ov.col_for(win, dc) == c);
    assert(ov.supplies(win, dr, dc));
    assert(after[cell(dr, dc, b, win.out_w(), win.bands as int)] == ov.sample(
        win,
        data,
        before,
        dr,
        dc,
        b,
    ));
}

/// A chunk holds the pixel in row `r` and column `c` of its image, which lies `dr` and `dc` steps
/// from the corner of a window.
pub open spec fn is_step_pixel(
    win: RegionWindow,
    ov: ChunkOverlap,
    dr: int,
    dc: int,
    r: int,
    c: int,
) -> bool {
    &&& ov.top <= r < ov.bottom
    &&& ov.left <= c < ov.right
    &&& (r - win.row_off) / (win.step as int) == dr
    &&& (c - win.col_off) / (win.step as int) == dc
}

/// A chunk that was copied changes nothing but the pixels that it gives: what was read in a row
/// and a column of the window is what was there, or the sample of a pixel of the chunk that
/// lies that many steps from the corner of the window.
pub proof fn law_chunk_leaves_the_rest<T>(
    win: RegionWindow,
    ov: ChunkOverlap,
    data: Seq<T>,
    before: Seq<T>,
    after: Seq<T>,
    w: int,
    h: int,
    dr: int,
    dc: int,
    b: int,
)
    requires
        copied(win, ov, data, before, after),
        ov.fits(win),
        win.step >= 1,
        (w - 1) * win.step < win.width <= w * win.step,
        (h - 1) * win.step < win.height <= h * win.step,
        0 <= dr < h,
        0 <= dc < w,
        0 <= b < win.bands,
    ensures
        ({
            let at = (dr * w + dc) * win.bands + b;
            ||| after[at] == before[at]
            ||| exists|r: int, c: int| #[trigger]
                is_step_pixel(win, ov, dr, dc, r, c) && after[at] == data[((r - ov.chunk_y)
                    * ov.stride + (c - ov.chunk_x)) * win.bands + b]
        }),
{
    let s = win.step as int;
    lemma_ceil(win.width as int, s, w);
    lemma_ceil(win.height as int, s, h);
    let at = cell(dr, dc, b, win.out_w(), win.bands as int);
    assert(after[at] == ov.sample(win, data, before, dr, dc, b));
    if ov.supplies(win, dr, dc) && 0 <= ov.source(win, dr, dc, b) < data.len() {
        let (r, c) = (ov.row_for(win, dr), ov.col_for(win, dc));
        lemma_step_division(ov.top - win.row_off, dr - (ov.top - win.row_off) / s, s);
        lemma_step_division(ov.left - win.col_off, dc - (ov.left - win.col_off) / s, s);
        assert((r - win.row_off) / s == dr);
        assert((c - win.col_off) / s == dc);
        assert(after[at] == data[((r - ov.chunk_y) * ov.stride + (c - ov.chunk_x)) * win.bands
            + b]);
        assert(is_step_pixel(win, ov, dr, dc, r, c));
    }
}

/// A chunk holds a pixel of an image: it starts at a multiple of its size, and its part of the
/// window takes the pixel.
pub open spec fn chunk_holds(ifd: IfdInfo, p: PlannedChunk, r: int, c: int) -> bool {
    &&& p.overlap.top <= r < p.overlap.bottom
    &&& p.overlap.left <= c < p.overlap.right
    &&& p.overlap.chunk_y <= r < p.overlap.chunk_y + ifd.chunk_length
    &&& p.overlap.chunk_y as int % ifd.chunk_length as int == 0
    &&& match ifd.chunk_type {
        ChunkType::Strip => {
            &&& p.overlap.chunk_x == 0
            &&& p.overlap.stride == ifd.width
            &&& p.index * ifd.chunk_length == p.overlap.chunk_y
        },
        ChunkType::Tile => {
            &&& p.overlap.chunk_x <= c < p.overlap.chunk_x + ifd.chunk_width
            &&& p.overlap.chunk_x as int % ifd.chunk_width as int == 0
            &&& p.overlap.stride == ifd.chunk_width
            &&& p.index == r / ifd.chunk_length as int * ifd.chunks_per_row + c
                / ifd.chunk_width as int
        },
    }
}

/// Every pixel of a window in an image lies in a chunk that is read for the window. The chunks
/// are those of the image: strip number `n` starts `n` times the length of a strip from the
/// top, and tiles are numbered row by row.
pub proof fn law_every_pixel_has_a_chunk(
    ifd: &IfdInfo,
    win: &RegionWindow,
    plan: Vec<PlannedChunk>,
    r: int,
    c: int,
)
    requires
        call_ensures(region_chunks, (ifd, win), plan),
        readable(*ifd, *win),
        win.row_off + win.height <= ifd.height,
        win.row_off <= r < win.row_off + win.height,
        win.col_off <= c < win.col_off + win.width,
    ensures
        exists|k: int| 0 <= k < plan@.len() && #[trigger] chunk_holds(*ifd, plan@[k], r, c),
{
    let one = RegionWindow { step: 1, ..*win };
    let length = ifd.chunk_length as int;
    let y0 = first_chunk(win.row_off as int, length);
    let y1 = last_chunk(win.row_end(), length);
    let ty = r / length;
    vstd::arithmetic::div_mod::lemma_fundamental_div_mod(r, length);
    vstd::arithmetic::div_mod::lemma_mod_bound(r, length);
    vstd::arithmetic::div_mod::lemma_div_is_ordered(win.row_off as int, r, length);
    vstd::arithmetic::div_mod::lemma_div_is_ordered(r, win.row_end() - 1, length);
    vstd::arithmetic::div_mod::lemma_div_pos_is_pos(win.row_off as int, length);
    assert(length * ty == ty * length) by (nonlinear_arith);
    vstd::arithmetic::div_mod::lemma_mod_multiples_basic(ty, length);
    lemma_chunk_starts(win.row_end(), length, ty);
    match ifd.chunk_type {
        ChunkType::Strip => {
            let k = ty - y0;
            assert(plan@[k] == strip_chunk(*ifd, *win, ty));
            assert(chunk_holds(*ifd, plan@[k], r, c));
        },
        ChunkType::Tile => {
            let cw = ifd.chunk_width as int;
            let x0 = first_chunk(win.col_off as int, cw);
            let x1 = last_chunk(win.col_end(), cw);
            let tx = c / cw;
            vstd::arithmetic::div_mod::lemma_fundamental_div_mod(c, cw);
            vstd::arithmetic::div_mod::lemma_mod_bound(c, cw);
            vstd::arithmetic::div_mod::lemma_div_is_ordered(win.col_off as int, c, cw);
            vstd::arithmetic::div_mod::lemma_div_is_ordered(c, win.col_end() - 1, cw);
            vstd::arithmetic::div_mod::lemma_div_pos_is_pos(win.col_off as int, cw);
            assert(cw * tx == tx * cw) by (nonlinear_arith);
            vstd::arithmetic::div_mod::lemma_mod_multiples_basic(tx, cw);
            lemma_chunk_starts(win.col_end(), cw, tx);
            let across = x1 - x0 + 1;
            let down = y1 - y0 + 1;
            let (a, d) = (ty - y0, tx - x0);
            let k = a * across + d;
            assert(0 <= k < down * across) by (nonlinear_arith)
                requires
                    k == a * across + d,
                    0 <= a < down,
                    0 <= d < across,
            ;
            vstd::arithmetic::div_mod::lemma_fundamental_div_mod_converse(k, across, a, d);
            assert(tx * cw + cw <= (x1 + 1) * cw) by (nonlinear_arith)
                requires
                    tx <= x1,
                    cw >= 1,
            ;
            assert(ty * length + length <= (y1 + 1) * length) by (nonlinear_arith)
                requires
                    ty <= y1,
                    length >= 1,
            ;
            assert(plan@[k] == tile_chunk(*ifd, *win, tx, ty));
            assert(0 <= ty * ifd.chunks_per_row <= y1 * ifd.chunks_per_row) by (nonlinear_arith)
                requires
                    0 <= ty <= y1,
                    ifd.chunks_per_row >= 0,
            ;
            assert(chunk_holds(*ifd, plan@[k], r, c));
        },
    }
}

/// The next chunk of a window is that of the plan. The rows of a strip are as wide as its
/// image, those of a tile as wide as its samples.
pub proof fn law_next_chunk_is_planned<T>(reader: RegionReader<T>, data_width: u32)
    ensures
        ({
            let (a, b) = (
                reader.next_overlap(data_width),
                reader.plan@[reader.done as int].overlap,
            );
            &&& a.chunk_x == b.chunk_x && a.chunk_y == b.chunk_y
            &&& a.left == b.left && a.right == b.right && a.top == b.top && a.bottom == b.bottom
            &&& reader.chunk_type is Strip ==> a.stride == b.stride
            &&& reader.chunk_type is Tile ==> a.stride == data_width
        }),
{
}

/// The image that is read is the one with the least distance, the first of several, unless all
/// distances are infinite or no numbers, or cannot be compared: then it is the full one.
pub proof fn law_closest_image_is_read(distances: &[u64], comparable: bool, best: usize)
    requires
        call_ensures(select_ifd_for_zoom, (distances, comparable), best),
    ensures
        !comparable || distances@.len() <= 1 ==> best == 0,
        comparable && distances@.len() > 1 && (exists|k: int|
            0 <= k < distances@.len() && #[trigger] distances@[k] < 0x7FF0_0000_0000_0000) ==> {
            &&& best < distances@.len()
            &&& forall|k: int|
                0 <= k < distances@.len() ==> distances@[best as int] <= #[trigger] distances@[k]
            &&& forall|k: int|
                0 <= k < best ==> distances@[best as int] < #[trigger] distances@[k]
        },
        (forall|k: int|
            0 <= k < distances@.len() ==> #[trigger] distances@[k] >= 0x7FF0_0000_0000_0000)
            ==> best == 0,
{
}

/// The place of a sample of a grid is that behind the rows, columns and bands before it.
pub proof fn law_places_of_samples(
    y: usize,
    x: usize,
    b: usize,
    w: usize,
    h: usize,
    bands: usize,
    len: usize,
    i: usize,
)
    requires
        call_ensures(sample_index, (y, x, b, w, h, bands, len), i),
    ensures
        i == (y * w + x) * bands + b,
{
}

/// A window of an image of ordinary size can be read.
pub proof fn law_ordinary_windows_can_be_read(ifd: &IfdInfo, win: &RegionWindow, r: bool)
    requires
        call_ensures(is_readable, (ifd, win), r),
        1 <= win.step <= 0x3FFF,
        1 <= win.width,
        1 <= win.height,
        win.col_off + win.width <= ifd.width <= 0x3FFF,
        win.row_off + win.height <= ifd.height <= 0x3FFF,
        win.bands <= 4,
        1 <= ifd.chunk_width <= 0x3FFF,
        1 <= ifd.chunk_length <= 0x3FFF,
        ifd.chunks_per_row <= 0x3FFF,
    ensures
        r,
{
    let (w, h) = (win.out_w(), win.out_h());
    let (ce, re) = (win.col_end(), win.row_end());
    let (cw, cl) = (ifd.chunk_width as int, ifd.chunk_length as int);
    lemma_rounded(win.width as int, win.step as int);
    lemma_rounded(win.height as int, win.step as int);
    let b = win.bands as int;
    assert(0 <= h * w <= 0x3FFF * 0x3FFF) by (nonlinear_arith)
        requires
            0 <= h <= 0x3FFF,
            0 <= w <= 0x3FFF,
    ;
    let hw = h * w;
    assert(hw * b <= 0x3FFF * 0x3FFF * 4) by (nonlinear_arith)
        requires
            0 <= hw <= 0x3FFF * 0x3FFF,
            0 <= b <= 4,
    ;
    let (tx, ty) = (last_chunk(ce, cw), last_chunk(re, cl));
    lemma_last_chunk(ce, cw);
    lemma_last_chunk(re, cl);
    assert((tx + 1) * cw == tx * cw + cw) by (nonlinear_arith);
    assert((ty + 1) * cl == ty * cl + cl) by (nonlinear_arith);
    let n = ifd.chunks_per_row as int;
    assert(ty * n <= 0x3FFF * 0x3FFF) by (nonlinear_arith)
        requires
            0 <= ty <= 0x3FFF,
            0 <= n <= 0x3FFF,
    ;
    let width = ifd.width as int;
    assert(cl * width <= 0x3FFF * 0x3FFF) by (nonlinear_arith)
        requires
            0 <= cl <= 0x3FFF,
            0 <= width <= 0x3FFF,
    ;
    let m = cl * width + ce;
    assert(m * b <= (0x3FFF * 0x3FFF + 0x3FFF) * 4) by (nonlinear_arith)
        requires
            0 <= m <= 0x3FFF * 0x3FFF + 0x3FFF,
            0 <= b <= 4,
    ;
}

proof fn lemma_rounded(n: int, d: int)
    requires
        1 <= n,
        1 <= d,
    ensures
        0 <= ceil_div(n, d) <= n,
{
    let q = ceil_div(n, d);
    vstd::arithmetic::div_mod::lemma_fundamental_div_mod(n + d - 1, d);
    vstd::arithmetic::div_mod::lemma_mod_bound(n + d - 1, d);
    vstd::arithmetic::div_mod::lemma_div_pos_is_pos(n + d - 1, d);
    assert(q <= n) by (nonlinear_arith)
        requires
            d * q <= n + d - 1,
            n >= 1,
            d >= 1,
    ;
}

proof fn lemma_last_chunk(end: int, size: int)
    requires
        1 <= end,
        1 <= size,
    ensures
        0 <= last_chunk(end, size) <= end - 1,
        last_chunk(end, size) * size <= end - 1,
{
    let q = last_chunk(end, size);
    vstd::arithmetic::div_mod::lemma_fundamental_div_mod(end - 1, size);
    vstd::arithmetic::div_mod::lemma_mod_bound(end - 1, size);
    vstd::arithmetic::div_mod::lemma_div_pos_is_pos(end - 1, size);
    assert(q * size == size * q) by (nonlinear_arith);
    assert(q <= end - 1) by (nonlinear_arith)
        requires
            q * size <= end - 1,
            size >= 1,
            q >= 0,
    ;
}

} // verus!
