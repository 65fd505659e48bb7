//! Rendering a raster: which part of it a picture needs, and the pixels of the picture.

use crate::double::{number, rank_of};
use crate::raster::is_nodata;
use crate::text::{concat2, str_eq};
use crate::tile::raster_load;
use vstd::prelude::*;

verus! {

// ─── The part of a raster that a picture needs ───

/// The pixels around the part of a raster that are read with it.
pub const SAFE_PADDING: i64 = 10;

/// No more pixels than these are read for a picture, unless it is to be smooth.
pub const MAX_READ_PIXELS: u64 = 0x10_0000;

/// The least of several numbers and `m`.
pub open spec fn least(v: Seq<i64>, m: int) -> int
    decreases v.len(),
{
    if v.len() == 0 {
        m
    } else {
        raster_load::min_int(least(v.drop_last(), m), v.last() as int)
    }
}

/// The greatest of several numbers and `m`.
pub open spec fn greatest(v: Seq<i64>, m: int) -> int
    decreases v.len(),
{
    if v.len() == 0 {
        m
    } else {
        raster_load::max_int(greatest(v.drop_last(), m), v.last() as int)
    }
}

/// The first place of an axis that the numbers touch, not below 0.
pub open spec fn axis_low(v: Seq<i64>) -> int {
    if v.len() == 0 {
        0
    } else {
        raster_load::max_int(least(v, v[0] as int), 0)
    }
}

/// The last place of an axis that the numbers touch.
pub open spec fn axis_high(v: Seq<i64>) -> int {
    if v.len() == 0 {
        0
    } else {
        greatest(v, v[0] as int)
    }
}

/// The start of the part of an axis of `n` places around the numbers.
pub open spec fn axis_start(v: Seq<i64>, n: int) -> int {
    raster_load::min_int(
        raster_load::max_int(axis_low(v) - SAFE_PADDING, 0) % 0x1_0000_0000,
        n - 1,
    )
}

/// The length of the part of an axis of `n` places around the numbers.
pub open spec fn axis_len(v: Seq<i64>, n: int) -> int {
    raster_load::min_int(
        raster_load::max_int(axis_high(v) - axis_low(v) + 2 * SAFE_PADDING, 1) % 0x1_0000_0000,
        n - axis_start(v, n),
    )
}

/// The part of an axis around several places.
fn axis_window(v: &Vec<i64>, n: u32) -> (r: (u32, u32))
    requires
        n >= 1,
        forall|i: int| 0 <= i < v@.len() ==> (#[trigger] v@[i]) <= i64::MAX - 2 * SAFE_PADDING,
    ensures
        r.0 == axis_start(v@, n as int),
        r.1 == axis_len(v@, n as int),
        r.0 + r.1 <= n,
{
    let mut low: i64 = 0;
    let mut high: i64 = 0;
    if v.len() > 0 {
        low = v[0];
        high = v[0];
        for i in 0..v.len()
            invariant
                v@.len() > 0,
                low == least(v@.take(i as int), v@[0] as int),
                high == greatest(v@.take(i as int), v@[0] as int),
                low <= high,
                high <= i64::MAX - 2 * SAFE_PADDING,
                forall|k: int|
                    0 <= k < v@.len() ==> (#[trigger] v@[k]) <= i64::MAX - 2 * SAFE_PADDING,
        {
            assert(v@.take(i + 1).drop_last() =~= v@.take(i as int));
            if v[i] < low {
                low = v[i];
            }
            if v[i] > high {
                high = v[i];
            }
        }
        assert(v@.take(v@.len() as int) =~= v@);
    }
    if low < 0 {
        low = 0;
    }
    assert(low == axis_low(v@));
    assert(high == axis_high(v@));
    let from: i64 = if low > SAFE_PADDING {
        low - SAFE_PADDING
    } else {
        0
    };
    let span: i64 = if high - low + 2 * SAFE_PADDING > 1 {
        high - low + 2 * SAFE_PADDING
    } else {
        1
    };
    let from32: u32 = (from % 0x1_0000_0000) as u32;
    let span32: u32 = (span % 0x1_0000_0000) as u32;
    let start: u32 = if from32 < n - 1 {
        from32
    } else {
        n - 1
    };
    let len: u32 = if span32 < n - start {
        span32
    } else {
        n - start
    };
    (start, len)
}

/// A part of an image.
#[derive(Debug, Clone, Copy, PartialEq, Eq, Structural)]
pub struct SourceWindow {
    pub col_off: u32,
    pub row_off: u32,
    pub src_w: u32,
    pub src_h: u32,
}

/// The columns of pixels.
pub open spec fn columns(coords: Seq<(i64, i64)>) -> Seq<i64> {
    coords.map_values(|c: (i64, i64)| c.0)
}

/// The rows of pixels.
pub open spec fn rows(coords: Seq<(i64, i64)>) -> Seq<i64> {
    coords.map_values(|c: (i64, i64)| c.1)
}

/// The part of an image that a picture needs, given the columns and rows of the image
/// where the corners of the picture lie. It is inside of the image.
pub fn source_window(coords: &Vec<(i64, i64)>, width: u32, height: u32) -> (win: SourceWindow)
    requires
        width >= 1,
        height >= 1,
        forall|i: int|
            0 <= i < coords@.len() ==> (#[trigger] coords@[i]).0 <= i64::MAX - 2 * SAFE_PADDING
                && coords@[i].1 <= i64::MAX - 2 * SAFE_PADDING,
    ensures
        win.col_off == axis_start(columns(coords@), width as int),
        win.src_w == axis_len(columns(coords@), width as int),
        win.row_off == axis_start(rows(coords@), height as int),
        win.src_h == axis_len(rows(coords@), height as int),
        win.col_off + win.src_w <= width,
        win.row_off + win.src_h <= height,
{
    let mut cs: Vec<i64> = Vec::new();
    let mut rs: Vec<i64> = Vec::new();
    for i in 0..coords.len()
        invariant
            cs@.len() == i,
            rs@.len() == i,
            forall|k: int| 0 <= k < i ==> #[trigger] cs@[k] == coords@[k].0,
            forall|k: int| 0 <= k < i ==> #[trigger] rs@[k] == coords@[k].1,
    {
        cs.push(coords[i].0);
        rs.push(coords[i].1);
    }
    assert(cs@ =~= columns(coords@));
    assert(rs@ =~= rows(coords@));
    let (col_off, src_w): (u32, u32) = axis_window(&cs, width);
    let (row_off, src_h): (u32, u32) = axis_window(&rs, height);
    SourceWindow { col_off, row_off, src_w, src_h }
}

proof fn lemma_least_bounds(v: Seq<i64>, m: int, i: int)
    requires
        0 <= i < v.len(),
    ensures
        least(v, m) <= v[i] <= greatest(v, m),
    decreases v.len(),
{
    if i < v.len() - 1 {
        lemma_least_bounds(v.drop_last(), m, i);
    }
}

/// Every place of an axis where a corner of a picture lies is in the part that is read,
/// where the corners do not lie further apart than 32 bits can tell.
pub proof fn law_window_covers_corners(v: Seq<i64>, n: int, i: int)
    requires
        1 <= n <= u32::MAX,
        0 <= i < v.len(),
        0 <= v[i] < n,
        axis_high(v) - axis_low(v) + 2 * SAFE_PADDING < 0x1_0000_0000,
    ensures
        axis_start(v, n) <= v[i] < axis_start(v, n) + axis_len(v, n),
{
    lemma_least_bounds(v, v[0] as int, i);
}

/// The bits of 1.
pub const ONE_BITS: u64 = 0x3FF0_0000_0000_0000;

/// A fraction of a side of a raster lies on it.
pub open spec fn on_side(fraction: u64) -> bool {
    crate::double::is_number(fraction) && 0 <= crate::double::rank(fraction)
        <= crate::double::rank(ONE_BITS)
}

/// Tells whether a point lies in a raster, by the bits of the fractions of its width and its
/// height up to the point. What lies outside is not drawn, so that a tile next to a raster
/// is empty.
pub fn in_raster(u: u64, v: u64) -> (r: bool)
    ensures
        r == (on_side(u) && on_side(v)),
{
    number(u) && number(v) && 0 <= rank_of(u) && rank_of(u) <= rank_of(ONE_BITS) && 0 <= rank_of(v)
        && rank_of(v) <= rank_of(ONE_BITS)
}

/// Tells whether an image has a pixel at a column and a row.
pub fn in_image(col: i64, row: i64, width: u32, height: u32) -> (r: bool)
    ensures
        r == (0 <= col < width && 0 <= row < height),
{
    0 <= col && col < width as i64 && 0 <= row && row < height as i64
}

/// Only every so-manieth pixel of a part of an image is read where it is large and the
/// picture need not be smooth. `root` is the square root, rounded up, of how many times
/// larger than `MAX_READ_PIXELS` it is.
pub fn read_step(smooth: bool, src_w: u32, src_h: u32, root: u32) -> (step: u32)
    ensures
        step == (if smooth || src_w * src_h <= MAX_READ_PIXELS || root < 1 {
            1
        } else {
            root
        }),
{
    proof {
        assert(0 <= src_w * src_h <= u32::MAX * u32::MAX) by (nonlinear_arith)
            requires
                0 <= src_w <= u32::MAX,
                0 <= src_h <= u32::MAX,
        ;
    }
    if smooth || src_w as u64 * src_h as u64 <= MAX_READ_PIXELS || root < 1 {
        1
    } else {
        root
    }
}

/// The pixels that are read along an axis.
pub fn read_size(len: u32, step: u32) -> (n: u32)
    requires
        step >= 1,
    ensures
        n == raster_load::ceil_div(len as int, step as int),
{
    proof {
        vstd::arithmetic::div_mod::lemma_div_is_ordered_by_denominator(
            len + step - 1,
            1,
            step as int,
        );
        vstd::arithmetic::div_mod::lemma_div_pos_is_pos(len + step - 1, step as int);
        if step > 1 && len > 0 {
            assert((len + step - 1) / (step as int) <= len) by {
                let q = (len + step - 1) / (step as int);
                vstd::arithmetic::div_mod::lemma_fundamental_div_mod(
                    len + step - 1,
                    step as int,
                );
                assert(q <= len) by (nonlinear_arith)
                    requires
                        step * q <= len + step - 1,
                        step >= 1,
                        len >= 1,
                ;
            }
        }
        if len == 0 {
            vstd::arithmetic::div_mod::lemma_small_mod((step - 1) as nat, step as nat);
            vstd::arithmetic::div_mod::lemma_basic_div(step - 1, step as int);
        }
    }
    ((len as u64 + step as u64 - 1) / step as u64) as u32
}

/// How a picture is read from an image: the part of it, and how much of that is read.
#[derive(Debug, Clone, Copy, PartialEq, Eq, Structural)]
pub struct ReadPlan {
    pub window: SourceWindow,
    pub step: u32,
    pub read_w: u32,
    pub read_h: u32,
}

/// Plans what is read of an image for a picture. A smooth picture is read in full.
pub fn plan_read(window: SourceWindow, smooth: bool, root: u32) -> (plan: ReadPlan)
    ensures
        plan.window == window,
        plan.step == (if smooth || window.src_w * window.src_h <= MAX_READ_PIXELS || root < 1 {
            1
        } else {
            root
        }),
        plan.step >= 1,
        plan.read_w == raster_load::ceil_div(window.src_w as int, plan.step as int),
        plan.read_h == raster_load::ceil_div(window.src_h as int, plan.step as int),
{
    let step: u32 = read_step(smooth, window.src_w, window.src_h, root);
    ReadPlan {
        window,
        step,
        read_w: read_size(window.src_w, step),
        read_h: read_size(window.src_h, step),
    }
}

/// The places of bands, from their numbers, which start at 1.
pub fn band_indices(bands: &[u32]) -> (indices: Vec<usize>)
    requires
        forall|i: int| 0 <= i < bands@.len() ==> (#[trigger] bands@[i]) >= 1,
    ensures
        indices@.len() == bands@.len(),
        forall|i: int| 0 <= i < indices@.len() ==> #[trigger] indices@[i] == bands@[i] - 1,
{
    let mut indices: Vec<usize> = Vec::new();
    for i in 0..bands.len()
        invariant
            forall|k: int| 0 <= k < bands@.len() ==> (#[trigger] bands@[k]) >= 1,
            indices@.len() == i,
            forall|k: int| 0 <= k < i ==> #[trigger] indices@[k] == bands@[k] - 1,
    {
        indices.push(bands[i] as usize - 1);
    }
    indices
}

// ─── Pixels ───

/// The place of a sample among those that were read, where there is one.
pub open spec fn sample_place(
    row: int,
    col: int,
    read_w: int,
    read_h: int,
    bands: int,
    band: int,
    len: int,
) -> Option<int> {
    if 0 <= col < read_w && 0 <= row < read_h && raster_load::cell(row, col, band, read_w, bands)
        < len {
        Some(raster_load::cell(row, col, band, read_w, bands))
    } else {
        None
    }
}

/// The place of a sample among those that were read, where there is one.
pub fn nearest_place(
    row: i64,
    col: i64,
    read_w: usize,
    read_h: usize,
    bands: usize,
    band: usize,
    len: usize,
) -> (place: Option<usize>)
    requires
        read_h * read_w * bands + band <= usize::MAX,
        bands >= 1,
    ensures
        place is Some <==> sample_place(
            row as int,
            col as int,
            read_w as int,
            read_h as int,
            bands as int,
            band as int,
            len as int,
        ) is Some,
        place is Some ==> place->Some_0 == sample_place(
            row as int,
            col as int,
            read_w as int,
            read_h as int,
            bands as int,
            band as int,
            len as int,
        )->Some_0 && place->Some_0 < len,
{
    if row < 0 || col < 0 || row as u64 >= read_h as u64 || col as u64 >= read_w as u64 {
        return None;
    }
    let r: usize = row as usize;
    let c: usize = col as usize;
    proof {
        raster_load::lemma_cell_row(
            r as int,
            c as int,
            read_h as int,
            read_w as int,
            bands as int,
        );
    }
    let at: usize = (r * read_w + c) * bands + band;
    if at < len {
        Some(at)
    } else {
        None
    }
}

/// The bits of a double that is no number.
pub const NAN_BITS: u64 = 0x7FF8_0000_0000_0000;

/// The number of bands that are looked at for a pixel: one of a raster with fewer than
/// three, else the first three that are listed.
pub open spec fn looked_at(bands: int, listed: int) -> int {
    if bands < 3 {
        1
    } else {
        shown(listed)
    }
}

/// The band that is looked at in place `i`.
pub open spec fn band_for(bands: int, indices: Seq<usize>, i: int) -> int {
    if bands < 3 {
        0
    } else {
        indices[i] as int
    }
}

/// The sample of a band at a pixel of what was read, or no number where there is none.
pub open spec fn nearest_sample(
    region: Seq<u64>,
    row: int,
    col: int,
    read_w: int,
    read_h: int,
    bands: int,
    band: int,
) -> u64 {
    match sample_place(row, col, read_w, read_h, bands, band, region.len() as int) {
        Some(p) => if band < bands {
            region[p]
        } else {
            NAN_BITS
        },
        None => NAN_BITS,
    }
}

/// The sample of a band, by its bits, in a row and a column of what was read.
pub fn nearest_value(
    region: &[u64],
    row: i64,
    col: i64,
    read_w: usize,
    read_h: usize,
    bands: usize,
    band: usize,
) -> (sample: u64)
    requires
        read_h * read_w * bands + bands <= usize::MAX,
    ensures
        sample == nearest_sample(
            region@,
            row as int,
            col as int,
            read_w as int,
            read_h as int,
            bands as int,
            band as int,
        ),
{
    if band >= bands {
        return NAN_BITS;
    }
    match nearest_place(row, col, read_w, read_h, bands, band, region.len()) {
        Some(p) => region[p],
        None => NAN_BITS,
    }
}

/// A pixel of a picture: red, green, blue and opacity.
pub type Pixel = [u8; 4];

/// Some sample of the pixel stands for no value, or a band does not exist.
pub open spec fn pixel_is_empty(
    bands: int,
    indices: Seq<usize>,
    samples: Seq<u64>,
    no_data: Option<u64>,
) -> bool {
    if bands < 3 {
        crate::raster::nodata(samples[0], no_data)
    } else {
        exists|i: int|
            0 <= i < 3 && i < indices.len() && (#[trigger] indices[i] >= bands
                || crate::raster::nodata(samples[i], no_data))
    }
}

/// The level of a colour of a pixel that is not empty: with fewer than three bands the
/// first band gives all colours, else each band gives one, and missing ones are dark.
pub open spec fn colour(bands: int, indices: Seq<usize>, levels: Seq<u8>, i: int) -> u8 {
    if bands < 3 {
        levels[0]
    } else if i < indices.len() {
        levels[i]
    } else {
        0
    }
}

/// The bands that are shown: the first three.
pub open spec fn shown(n: int) -> int {
    if n < 3 {
        n
    } else {
        3
    }
}

/// The pixel for the samples of the bands that are shown, given by their bits, and for
/// the levels that the samples are stretched to. An empty pixel is not drawn.
pub fn compose_pixel(
    bands: usize,
    indices: &[usize],
    samples: &[u64],
    levels: &[u8],
    no_data: Option<u64>,
) -> (pixel: Option<Pixel>)
    requires
        bands < 3 ==> samples@.len() >= 1 && levels@.len() >= 1,
        bands >= 3 ==> shown(indices@.len() as int) <= samples@.len() && shown(
            indices@.len() as int,
        ) <= levels@.len(),
    ensures
        pixel is None <==> pixel_is_empty(bands as int, indices@, samples@, no_data),
        pixel is Some ==> {
            &&& pixel->Some_0@[0] == colour(bands as int, indices@, levels@, 0)
            &&& pixel->Some_0@[1] == colour(bands as int, indices@, levels@, 1)
            &&& pixel->Some_0@[2] == colour(bands as int, indices@, levels@, 2)
            &&& pixel->Some_0@[3] == 255
        },
        pixel is Some && bands >= 3 ==> forall|i: int|
            0 <= i < 3 && i < indices@.len() ==> #[trigger] pixel->Some_0@[i] == levels@[i],
        pixel is Some && bands >= 3 ==> forall|i: int|
            indices@.len() <= i < 3 ==> #[trigger] pixel->Some_0@[i] == 0,
        pixel is Some && bands < 3 ==> forall|i: int|
            0 <= i < 3 ==> #[trigger] pixel->Some_0@[i] == levels@[0],
{
    if bands < 3 {
        if is_nodata(samples[0], no_data) {
            return None;
        }
        let gray: u8 = levels[0];
        return Some([gray, gray, gray, 255]);
    }
    let mut pixel: Pixel = [0, 0, 0, 255];
    let mut i: usize = 0;
    while i < 3 && i < indices.len()
        invariant
            bands >= 3,
            i <= 3,
            i <= indices@.len(),
            shown(indices@.len() as int) <= samples@.len(),
            shown(indices@.len() as int) <= levels@.len(),
            forall|k: int|
                0 <= k < i ==> #[trigger] indices@[k] < bands && !crate::raster::nodata(
                    samples@[k],
                    no_data,
                ),
            forall|k: int|
                0 <= k < 3 ==> #[trigger] pixel@[k] == (if k < i {
                    levels@[k]
                } else {
                    0
                }),
            pixel@[3] == 255,
        decreases 3 - i,
    {
        if indices[i] >= bands || is_nodata(samples[i], no_data) {
            assert(indices@[i as int] >= bands || crate::raster::nodata(
                samples@[i as int],
                no_data,
            ));
            return None;
        }
        pixel[i] = levels[i];
        i += 1;
    }
    Some(pixel)
}

/// A raster of three or more bands shows the listed bands in their order: the first is red,
/// the second green, the third blue, whatever the number of bands. A colour without a band
/// is dark. A raster of fewer bands is gray. What is drawn is opaque.
pub proof fn law_bands_are_colours_in_order(
    bands: usize,
    indices: &[usize],
    samples: &[u64],
    levels: &[u8],
    no_data: Option<u64>,
    pixel: Option<Pixel>,
)
    requires
        call_ensures(compose_pixel, (bands, indices, samples, levels, no_data), pixel),
        pixel is Some,
    ensures
        bands >= 3 ==> forall|i: int|
            0 <= i < 3 ==> #[trigger] pixel->Some_0@[i] == (if i < indices@.len() {
                levels@[i]
            } else {
                0
            }),
        bands < 3 ==> forall|i: int| 0 <= i < 3 ==> #[trigger] pixel->Some_0@[i] == levels@[0],
        pixel->Some_0@[3] == 255,
{
}

/// The number of pixels that were drawn.
pub open spec fn drawn(pixels: Seq<Option<Pixel>>) -> nat
    decreases pixels.len(),
{
    if pixels.len() == 0 {
        0
    } else {
        drawn(pixels.drop_last()) + (if pixels.last() is Some {
            1nat
        } else {
            0nat
        })
    }
}

/// The bytes of a picture whose pixels are drawn on a background.
pub open spec fn painted(pixels: Seq<Option<Pixel>>, background: Pixel) -> Seq<u8>
    decreases pixels.len(),
{
    if pixels.len() == 0 {
        Seq::empty()
    } else {
        painted(pixels.drop_last(), background) + (match pixels.last() {
            Some(p) => p@,
            None => background@,
        })
    }
}

/// The pixels are those that `shade` gives, row by row.
pub open spec fn shaded<F: Fn(u32, u32) -> Option<Pixel>>(
    pixels: Seq<Option<Pixel>>,
    width: int,
    shade: F,
) -> bool {
    forall|i: int|
        0 <= i < pixels.len() ==> shade.ensures(
            ((i % width) as u32, (i / width) as u32),
            #[trigger] pixels[i],
        )
}

/// Draws a picture: `shade` gives the pixel in a column and a row, or none. Gives back
/// the bytes of the picture and the number of pixels that were drawn.
pub fn paint<F: Fn(u32, u32) -> Option<Pixel>>(
    width: u32,
    height: u32,
    background: Pixel,
    shade: F,
) -> (picture: (Vec<u8>, u32))
    requires
        width * height <= u32::MAX,
        forall|x: u32, y: u32| shade.requires((x, y)),
    ensures
        exists|pixels: Seq<Option<Pixel>>|
            #![trigger shaded(pixels, width as int, shade)]
            pixels.len() == width * height && shaded(pixels, width as int, shade) && picture.0@
                == painted(pixels, background) && picture.1 == drawn(pixels),
        picture.0@.len() == width * height * 4,
{
    let ghost mut pixels: Seq<Option<Pixel>> = Seq::empty();
    let mut bytes: Vec<u8> = Vec::new();
    let mut count: u32 = 0;
    proof {
        assert(0 * width == 0);
    }
    let mut y: u32 = 0;
    while y < height
        invariant
            y <= height,
            width * height <= u32::MAX,
            forall|x: u32, y: u32| shade.requires((x, y)),
            pixels.len() == y * width,
            shaded(pixels, width as int, shade),
            bytes@ == painted(pixels, background),
            bytes@.len() == pixels.len() * 4,
            count == drawn(pixels),
            count <= pixels.len(),
        decreases height - y,
    {
        let mut x: u32 = 0;
        while x < width
            invariant
                x <= width,
                y < height,
                width * height <= u32::MAX,
                forall|x: u32, y: u32| shade.requires((x, y)),
                pixels.len() == y * width + x,
                shaded(pixels, width as int, shade),
                bytes@ == painted(pixels, background),
                bytes@.len() == pixels.len() * 4,
                count == drawn(pixels),
                count <= pixels.len(),
            decreases width - x,
        {
            proof {
                vstd::arithmetic::div_mod::lemma_fundamental_div_mod_converse(
                    pixels.len() as int,
                    width as int,
                    y as int,
                    x as int,
                );
                assert(y * width + x < width * height) by (nonlinear_arith)
                    requires
                        0 <= y < height,
                        0 <= x < width,
                ;
            }
            let p: Option<Pixel> = shade(x, y);
            let ghost before = pixels;
            proof {
                pixels = pixels.push(p);
                assert(pixels.drop_last() =~= before);
            }
            let colours: Pixel = match p {
                Some(c) => c,
                None => background,
            };
            bytes.push(colours[0]);
            bytes.push(colours[1]);
            bytes.push(colours[2]);
            bytes.push(colours[3]);
            assert(bytes@ =~= painted(before, background) + colours@);
            if p.is_some() {
                count += 1;
            }
            x += 1;
        }
        proof {
            assert((y + 1) * width == y * width + width) by (nonlinear_arith);
        }
        y += 1;
    }
    proof {
        assert(height * width == width * height) by (nonlinear_arith);
    }
    (bytes, count)
}

proof fn lemma_drawn(pixels: Seq<Option<Pixel>>, i: int)
    requires
        0 <= i < pixels.len(),
        pixels[i] is Some,
    ensures
        drawn(pixels) > 0,
    decreases pixels.len(),
{
    if i < pixels.len() - 1 {
        lemma_drawn(pixels.drop_last(), i);
    }
}

proof fn lemma_painted(pixels: Seq<Option<Pixel>>, background: Pixel, i: int, c: int)
    requires
        0 <= i < pixels.len(),
        0 <= c < 4,
    ensures
        painted(pixels, background).len() == pixels.len() * 4,
        painted(pixels, background)[4 * i + c] == (match pixels[i] {
            Some(p) => p@[c],
            None => background@[c],
        }),
    decreases pixels.len(),
{
    let before = pixels.drop_last();
    if before.len() > 0 {
        lemma_painted(
            before,
            background,
            if i < before.len() {
                i
            } else {
                0
            },
            c,
        );
    } else {
        assert(painted(before, background) == Seq::<u8>::empty());
    }
    assert(painted(before, background).len() == before.len() * 4);
    let last = match pixels.last() {
        Some(p) => p@,
        None => background@,
    };
    assert(last.len() == 4);
    if i == before.len() {
        assert(painted(pixels, background)[4 * i + c] == last[c]);
    } else {
        assert(painted(pixels, background)[4 * i + c] == painted(before, background)[4 * i + c]);
    }
}

/// The pixel in a row and a column of a picture is the one that was drawn there, or the
/// background.
pub proof fn law_picture_holds_pixels(
    pixels: Seq<Option<Pixel>>,
    background: Pixel,
    i: int,
    c: int,
)
    requires
        0 <= i < pixels.len(),
        0 <= c < 4,
    ensures
        painted(pixels, background)[4 * i + c] == (match pixels[i] {
            Some(p) => p@[c],
            None => background@[c],
        }),
{
    lemma_painted(pixels, background, i, c);
}

/// A picture on which nothing was drawn is all background.
pub proof fn law_nothing_drawn(pixels: Seq<Option<Pixel>>, background: Pixel)
    requires
        drawn(pixels) == 0,
    ensures
        forall|i: int, c: int|
            #![trigger painted(pixels, background)[4 * i + c]]
            0 <= i < pixels.len() && 0 <= c < 4 ==> painted(pixels, background)[4 * i + c]
                == background@[c],
{
    assert forall|i: int, c: int|
        #![trigger painted(pixels, background)[4 * i + c]]
        0 <= i < pixels.len() && 0 <= c < 4 implies painted(pixels, background)[4 * i + c]
        == background@[c] by {
        lemma_painted(pixels, background, i, c);
        if pixels[i] is Some {
            lemma_drawn(pixels, i);
        }
    }
}

// ─── Pictures of a raster ───

/// The bands of a raster that a picture shows.
pub struct ShownBands {
    /// The number of bands of the raster.
    pub bands: usize,
    /// The places of the bands that were asked for.
    pub indices: Vec<usize>,
    /// The bits of the sample that stands for no value.
    pub no_data: Option<u64>,
}

/// The samples of the bands that are looked at for a pixel at a place: those that `sample`
/// gives, and no number for a band that does not exist.
pub open spec fn sampled_at<P, S: Fn(&P, usize) -> u64>(
    shown: ShownBands,
    sample: S,
    place: P,
    samples: Seq<u64>,
) -> bool {
    &&& samples.len() == looked_at(shown.bands as int, shown.indices@.len() as int)
    &&& forall|i: int|
        0 <= i < samples.len() ==> {
            let band = band_for(shown.bands as int, shown.indices@, i);
            if band < shown.bands {
                sample.ensures((&place, band as usize), #[trigger] samples[i])
            } else {
                samples[i] == NAN_BITS
            }
        }
}

/// The levels that `level` gives for the samples of bands.
pub open spec fn leveled<L: Fn(usize, u64) -> u8>(
    shown: ShownBands,
    level: L,
    samples: Seq<u64>,
    levels: Seq<u8>,
) -> bool {
    &&& levels.len() == samples.len()
    &&& forall|i: int|
        0 <= i < levels.len() ==> {
            let band = band_for(shown.bands as int, shown.indices@, i);
            band < shown.bands ==> level.ensures((band as usize, samples[i]), #[trigger] levels[i])
        }
}

/// The pixel for samples and their levels.
pub open spec fn is_composed(
    shown: ShownBands,
    samples: Seq<u64>,
    levels: Seq<u8>,
    pixel: Option<Pixel>,
) -> bool {
    let bands = shown.bands as int;
    let indices = shown.indices@;
    match pixel {
        None => pixel_is_empty(bands, indices, samples, shown.no_data),
        Some(p) => {
            &&& !pixel_is_empty(bands, indices, samples, shown.no_data)
            &&& p@[0] == colour(bands, indices, levels, 0)
            &&& p@[1] == colour(bands, indices, levels, 1)
            &&& p@[2] == colour(bands, indices, levels, 2)
            &&& p@[3] == 255
        },
    }
}

/// The pixel at a place of a raster.
pub open spec fn is_pixel_at<P, S: Fn(&P, usize) -> u64, L: Fn(usize, u64) -> u8>(
    shown: ShownBands,
    sample: S,
    level: L,
    place: P,
    pixel: Option<Pixel>,
) -> bool {
    exists|samples: Seq<u64>, levels: Seq<u8>|
        #![trigger sampled_at(shown, sample, place, samples), leveled(shown, level, samples, levels)]
        sampled_at(shown, sample, place, samples) && leveled(shown, level, samples, levels)
            && is_composed(shown, samples, levels, pixel)
}

/// The pixel in a column and a row of a picture: that at the place of the raster that
/// `locate` gives for it, and none where there is no such place.
pub open spec fn is_shown_pixel<
    P,
    T: Fn(u32, u32) -> Option<P>,
    S: Fn(&P, usize) -> u64,
    L: Fn(usize, u64) -> u8,
>(
    shown: ShownBands,
    locate: T,
    sample: S,
    level: L,
    x: u32,
    y: u32,
    pixel: Option<Pixel>,
) -> bool {
    exists|place: Option<P>| #[trigger]
        locate.ensures((x, y), place) && match place {
            Some(p) => is_pixel_at(shown, sample, level, p, pixel),
            None => pixel is None,
        }
}

/// The pixels of a picture of a raster, row by row.
pub open spec fn is_picture_of<
    P,
    T: Fn(u32, u32) -> Option<P>,
    S: Fn(&P, usize) -> u64,
    L: Fn(usize, u64) -> u8,
>(
    shown: ShownBands,
    locate: T,
    sample: S,
    level: L,
    width: int,
    height: int,
    pixels: Seq<Option<Pixel>>,
) -> bool {
    &&& pixels.len() == width * height
    &&& forall|i: int|
        0 <= i < pixels.len() ==> is_shown_pixel(
            shown,
            locate,
            sample,
            level,
            (i % width) as u32,
            (i / width) as u32,
            #[trigger] pixels[i],
        )
}

fn pixel_at<P, S: Fn(&P, usize) -> u64, L: Fn(usize, u64) -> u8>(
    shown: &ShownBands,
    sample: &S,
    level: &L,
    place: &P,
) -> (pixel: Option<Pixel>)
    requires
        forall|p: &P, b: usize| sample.requires((p, b)),
        forall|b: usize, v: u64| level.requires((b, v)),
    ensures
        is_pixel_at(*shown, *sample, *level, *place, pixel),
{
    let bands: usize = shown.bands;
    let count: usize = if bands < 3 {
        1
    } else if shown.indices.len() < 3 {
        shown.indices.len()
    } else {
        3
    };
    let mut samples: Vec<u64> = Vec::new();
    let mut levels: Vec<u8> = Vec::new();
    for i in 0..count
        invariant
            bands == shown.bands,
            count == looked_at(bands as int, shown.indices@.len() as int),
            forall|p: &P, b: usize| sample.requires((p, b)),
            forall|b: usize, v: u64| level.requires((b, v)),
            samples@.len() == i,
            levels@.len() == i,
            forall|k: int|
                0 <= k < i ==> {
                    let band = band_for(bands as int, shown.indices@, k);
                    if band < bands {
                        sample.ensures((place, band as usize), #[trigger] samples@[k])
                    } else {
                        samples@[k] == NAN_BITS
                    }
                },
            forall|k: int|
                0 <= k < i ==> {
                    let band = band_for(bands as int, shown.indices@, k);
                    band < bands ==> level.ensures(
                        (band as usize, samples@[k]),
                        #[trigger] levels@[k],
                    )
                },
    {
        let band: usize = if bands < 3 {
            0
        } else {
            shown.indices[i]
        };
        if band < bands {
            let value: u64 = sample(place, band);
            samples.push(value);
            levels.push(level(band, value));
        } else {
            samples.push(NAN_BITS);
            levels.push(0);
        }
    }
    assert(sampled_at(*shown, *sample, *place, samples@));
    assert(leveled(*shown, *level, samples@, levels@));
    compose_pixel(
        bands,
        shown.indices.as_slice(),
        samples.as_slice(),
        levels.as_slice(),
        shown.no_data,
    )
}

/// Draws a picture of a raster on a background. `locate` gives the place in the raster for
/// a column and a row of the picture, `sample` the sample of a band at a place, by its
/// bits, and `level` how bright a sample of a band is shown. Gives back the bytes of the
/// picture and the number of pixels that were drawn.
pub fn draw<
    P,
    T: Fn(u32, u32) -> Option<P>,
    S: Fn(&P, usize) -> u64,
    L: Fn(usize, u64) -> u8,
>(
    shown: &ShownBands,
    width: u32,
    height: u32,
    background: Pixel,
    locate: T,
    sample: S,
    level: L,
) -> (picture: (Vec<u8>, u32))
    requires
        width * height <= u32::MAX,
        forall|x: u32, y: u32| locate.requires((x, y)),
        forall|p: &P, b: usize| sample.requires((p, b)),
        forall|b: usize, v: u64| level.requires((b, v)),
    ensures
        exists|pixels: Seq<Option<Pixel>>|
            #![trigger painted(pixels, background)]
            is_picture_of(*shown, locate, sample, level, width as int, height as int, pixels)
                && picture.0@ == painted(pixels, background) && picture.1 == drawn(pixels),
        picture.0@.len() == width * height * 4,
{
    let (t, s, l): (&T, &S, &L) = (&locate, &sample, &level);
    let shade = |x: u32, y: u32| -> (pixel: Option<Pixel>)
        ensures
            is_shown_pixel(*shown, *t, *s, *l, x, y, pixel),
        {
            match t(x, y) {
                Some(p) => pixel_at(shown, s, l, &p),
                None => None,
            }
        };
    let picture: (Vec<u8>, u32) = paint(width, height, background, shade);
    proof {
        let pixels = choose|pixels: Seq<Option<Pixel>>|
            #![trigger shaded(pixels, width as int, shade)]
            pixels.len() == width * height && shaded(pixels, width as int, shade) && picture.0@
                == painted(pixels, background) && picture.1 == drawn(pixels);
        assert(is_picture_of(
            *shown,
            locate,
            sample,
            level,
            width as int,
            height as int,
            pixels,
        ));
    }
    picture
}

proof fn lemma_none_drawn(pixels: Seq<Option<Pixel>>)
    requires
        forall|i: int| 0 <= i < pixels.len() ==> #[trigger] pixels[i] is None,
    ensures
        drawn(pixels) == 0,
    decreases pixels.len(),
{
    if pixels.len() > 0 {
        assert(pixels.last() == pixels[pixels.len() - 1]);
        lemma_none_drawn(pixels.drop_last());
    }
}

/// A picture that lies outside of its raster is all background: where no pixel has a place
/// in the raster, none is drawn.
pub proof fn law_outside_is_background<
    P,
    T: Fn(u32, u32) -> Option<P>,
    S: Fn(&P, usize) -> u64,
    L: Fn(usize, u64) -> u8,
>(
    shown: ShownBands,
    locate: T,
    sample: S,
    level: L,
    width: int,
    height: int,
    pixels: Seq<Option<Pixel>>,
    background: Pixel,
)
    requires
        is_picture_of(shown, locate, sample, level, width, height, pixels),
        forall|x: u32, y: u32, place: Option<P>| #[trigger]
            locate.ensures((x, y), place) ==> place is None,
    ensures
        drawn(pixels) == 0,
        forall|i: int, c: int|
            #![trigger painted(pixels, background)[4 * i + c]]
            0 <= i < pixels.len() && 0 <= c < 4 ==> painted(pixels, background)[4 * i + c]
                == background@[c],
{
    assert forall|i: int| 0 <= i < pixels.len() implies #[trigger] pixels[i] is None by {
        assert(is_shown_pixel(
            shown,
            locate,
            sample,
            level,
            (i % width) as u32,
            (i / width) as u32,
            pixels[i],
        ));
    }
    lemma_none_drawn(pixels);
    law_nothing_drawn(pixels, background);
}

/// A picture that reaches its raster shows it: where some pixel has a place in the raster
/// and every sample there stands for a value, something is drawn.
pub proof fn law_inside_is_drawn<
    P,
    T: Fn(u32, u32) -> Option<P>,
    S: Fn(&P, usize) -> u64,
    L: Fn(usize, u64) -> u8,
>(
    shown: ShownBands,
    locate: T,
    sample: S,
    level: L,
    width: int,
    height: int,
    pixels: Seq<Option<Pixel>>,
    i: int,
)
    requires
        is_picture_of(shown, locate, sample, level, width, height, pixels),
        0 <= i < pixels.len(),
        forall|place: Option<P>| #[trigger]
            locate.ensures(((i % width) as u32, (i / width) as u32), place) ==> place is Some
                && forall|samples: Seq<u64>| #[trigger]
                sampled_at(shown, sample, place->Some_0, samples) ==> !pixel_is_empty(
                    shown.bands as int,
                    shown.indices@,
                    samples,
                    shown.no_data,
                ),
    ensures
        drawn(pixels) > 0,
{
    assert(is_shown_pixel(
        shown,
        locate,
        sample,
        level,
        (i % width) as u32,
        (i / width) as u32,
        pixels[i],
    ));
    lemma_drawn(pixels, i);
}

/// The background of a map: clear, or white.
pub fn map_background(transparent: bool) -> (p: Pixel)
    ensures
        p == background_of(transparent),
{
    if transparent {
        [0, 0, 0, 0]
    } else {
        [255, 255, 255, 255]
    }
}

// ─── Files of pictures ───

/// What `image::codecs::png::PngEncoder` makes of a picture: the bytes of the file, or
/// the text of the error.
pub uninterp spec fn png_file(rgba: Seq<u8>, width: u32, height: u32) -> Result<
    Seq<u8>,
    Seq<char>,
>;

/// A result of bytes or a text, as a value.
pub open spec fn file_of(r: Result<Vec<u8>, String>) -> Result<Seq<u8>, Seq<char>> {
    match r {
        Ok(bytes) => Ok(bytes@),
        Err(text) => Err(text@),
    }
}

/// Calls `image::codecs::png::PngEncoder::write_image` on the bytes of a picture with
/// eight bits for each of red, green, blue and opacity. The result is named `png_file`.
/// The length of the bytes must be that of the picture, or the encoder stops the program.
#[verifier::external_body]
fn encode_png(rgba: &[u8], width: u32, height: u32) -> (r: Result<Vec<u8>, String>)
    requires
        rgba@.len() == width * height * 4,
    ensures
        file_of(r) == png_file(rgba@, width, height),
{
    let mut out: Vec<u8> = Vec::new();
    let encoder = image::codecs::png::PngEncoder::new(&mut out);
    let color = image::ExtendedColorType::Rgba8;
    match image::ImageEncoder::write_image(encoder, rgba, width, height, color) {
        Ok(()) => Ok(out),
        Err(e) => Err(e.to_string()),
    }
}

/// The file of a picture, or the error, told what the encoder made of it.
pub fn png_answer(encoded: Result<Vec<u8>, String>) -> (r: Result<Vec<u8>, String>)
    ensures
        encoded is Ok ==> r is Ok && r->Ok_0@ == encoded->Ok_0@,
        encoded is Err ==> r is Err && r->Err_0@ == "PNG encode error: "@ + encoded->Err_0@,
{
    match encoded {
        Ok(bytes) => Ok(bytes),
        Err(e) => Err(concat2("PNG encode error: ", e.as_str())),
    }
}

/// The file of a picture.
pub fn to_png(rgba: &[u8], width: u32, height: u32) -> (r: Result<Vec<u8>, String>)
    requires
        rgba@.len() == width * height * 4,
    ensures
        match png_file(rgba@, width, height) {
            Ok(bytes) => r is Ok && r->Ok_0@ == bytes,
            Err(e) => r is Err && r->Err_0@ == "PNG encode error: "@ + e,
        },
{
    png_answer(encode_png(rgba, width, height))
}

/// The quality of tiles that are encoded with losses, of a hundred.
pub const WEBP_QUALITY: u8 = 90;

/// What `webp::Encoder` makes of a picture with a quality, where it can encode it.
pub uninterp spec fn webp_file(rgba: Seq<u8>, width: u32, height: u32, quality: u8) -> Option<
    Seq<u8>,
>;

/// The longest side of a picture in the format of `webp`.
pub const MAX_WEBP_SIDE: u32 = 16383;

/// The file of a square picture, encoded with losses, where it can be encoded.
pub open spec fn square_webp(rgba: Seq<u8>, size: u32) -> Option<Seq<u8>> {
    if size <= MAX_WEBP_SIDE {
        webp_file(rgba, size, size, WEBP_QUALITY)
    } else {
        None
    }
}

/// Bytes that may be missing, as a value.
pub open spec fn bytes_of(bytes: Option<Vec<u8>>) -> Option<Seq<u8>> {
    match bytes {
        Some(b) => Some(b@),
        None => None,
    }
}

/// Calls `webp::Encoder::from_rgba` and `webp::Encoder::encode_simple`, with losses, on the
/// bytes of a picture with eight bits for each of red, green, blue and opacity. The result,
/// without the reason of a failure, is named `webp_file`. The length of the bytes must be
/// that of the picture, or the encoder stops the program. Sides longer than the format
/// allows are left out: the encoder computes the length of a row in 32 bits.
#[verifier::external_body]
fn encode_webp(rgba: &[u8], width: u32, height: u32, quality: u8) -> (bytes: Option<Vec<u8>>)
    requires
        width <= MAX_WEBP_SIDE,
        height <= MAX_WEBP_SIDE,
        rgba@.len() == width * height * 4,
    ensures
        bytes_of(bytes) == webp_file(rgba@, width, height, quality),
{
    let encoder = webp::Encoder::from_rgba(rgba, width, height);
    encoder.encode_simple(false, quality.into()).ok().map(|m| m.to_vec())
}

/// The file of a square picture, encoded with losses, where it can be encoded.
pub fn to_webp(rgba: &[u8], size: u32) -> (bytes: Option<Vec<u8>>)
    requires
        rgba@.len() == size * size * 4,
    ensures
        bytes_of(bytes) == square_webp(rgba@, size),
{
    if size <= MAX_WEBP_SIDE {
        encode_webp(rgba, size, size, WEBP_QUALITY)
    } else {
        None
    }
}

/// The background of a tile.
pub open spec fn clear() -> Pixel {
    [0, 0, 0, 0]
}

/// A tile as it is handed out, with the number of pixels that were drawn: its bytes as
/// they are, or what the encoder makes of them.
pub open spec fn is_finished(
    rgba: Seq<u8>,
    size: u32,
    rendered: nat,
    return_rgba: bool,
    r: Result<(Vec<u8>, u32), String>,
) -> bool {
    if return_rgba {
        r is Ok && r->Ok_0.0@ == rgba && r->Ok_0.1 == rendered
    } else {
        match png_file(rgba, size, size) {
            Ok(bytes) => r is Ok && r->Ok_0.0@ == bytes && r->Ok_0.1 == rendered,
            Err(e) => r is Err && r->Err_0@ == "PNG encode error: "@ + e,
        }
    }
}

/// A tile as it is handed out: its bytes as they are, or as a file.
pub fn finish_tile(rgba: Vec<u8>, size: u32, rendered: u32, return_rgba: bool) -> (r: Result<
    (Vec<u8>, u32),
    String,
>)
    requires
        rgba@.len() == size * size * 4,
    ensures
        is_finished(rgba@, size, rendered as nat, return_rgba, r),
{
    if return_rgba {
        return Ok((rgba, rendered));
    }
    match to_png(rgba.as_slice(), size, size) {
        Ok(bytes) => Ok((bytes, rendered)),
        Err(e) => Err(e),
    }
}

/// Draws a tile of a raster, as bytes or as a file.
pub fn render_raster_tile_ex<
    P,
    T: Fn(u32, u32) -> Option<P>,
    S: Fn(&P, usize) -> u64,
    L: Fn(usize, u64) -> u8,
>(
    shown: &ShownBands,
    size: u32,
    return_rgba: bool,
    locate: T,
    sample: S,
    level: L,
) -> (r: Result<(Vec<u8>, u32), String>)
    requires
        size * size <= u32::MAX,
        forall|x: u32, y: u32| locate.requires((x, y)),
        forall|p: &P, b: usize| sample.requires((p, b)),
        forall|b: usize, v: u64| level.requires((b, v)),
    ensures
        exists|pixels: Seq<Option<Pixel>>|
            #![trigger painted(pixels, clear())]
            is_picture_of(*shown, locate, sample, level, size as int, size as int, pixels)
                && is_finished(painted(pixels, clear()), size, drawn(pixels), return_rgba, r),
{
    let background: Pixel = [0, 0, 0, 0];
    assert(background@ =~= clear()@);
    assert(background == clear());
    let (rgba, rendered): (Vec<u8>, u32) = draw(
        shown,
        size,
        size,
        background,
        locate,
        sample,
        level,
    );
    finish_tile(rgba, size, rendered, return_rgba)
}

/// Draws a tile of a raster as a file that is encoded with losses, and tells the number of
/// pixels that were drawn. There is none where the picture cannot be encoded.
pub fn render_raster_tile_webp<
    P,
    T: Fn(u32, u32) -> Option<P>,
    S: Fn(&P, usize) -> u64,
    L: Fn(usize, u64) -> u8,
>(
    shown: &ShownBands,
    size: u32,
    locate: T,
    sample: S,
    level: L,
) -> (r: Option<(Vec<u8>, u32)>)
    requires
        size * size <= u32::MAX,
        forall|x: u32, y: u32| locate.requires((x, y)),
        forall|p: &P, b: usize| sample.requires((p, b)),
        forall|b: usize, v: u64| level.requires((b, v)),
    ensures
        exists|pixels: Seq<Option<Pixel>>|
            #![trigger painted(pixels, clear())]
            is_picture_of(*shown, locate, sample, level, size as int, size as int, pixels)
                && match square_webp(painted(pixels, clear()), size) {
                Some(bytes) => r is Some && r->Some_0.0@ == bytes && r->Some_0.1 == drawn(pixels),
                None => r is None,
            },
{
    let background: Pixel = [0, 0, 0, 0];
    assert(background@ =~= clear()@);
    assert(background == clear());
    let (rgba, rendered): (Vec<u8>, u32) = draw(
        shown,
        size,
        size,
        background,
        locate,
        sample,
        level,
    );
    match to_webp(rgba.as_slice(), size) {
        Some(bytes) => Some((bytes, rendered)),
        None => None,
    }
}

/// The bytes of a tile in this format are handed out as they are.
pub open spec fn is_raw(format: Seq<char>) -> bool {
    format == "raw-rgba"@
}

/// Draws a tile of a raster in a format, and tells the format: bytes as they are, or a
/// file for any other format.
pub fn render_single_tile<
    P,
    T: Fn(u32, u32) -> Option<P>,
    S: Fn(&P, usize) -> u64,
    L: Fn(usize, u64) -> u8,
>(
    shown: &ShownBands,
    size: u32,
    format: &str,
    locate: T,
    sample: S,
    level: L,
) -> (r: Result<(Vec<u8>, u32, String), String>)
    requires
        size * size <= u32::MAX,
        forall|x: u32, y: u32| locate.requires((x, y)),
        forall|p: &P, b: usize| sample.requires((p, b)),
        forall|b: usize, v: u64| level.requires((b, v)),
    ensures
        exists|pixels: Seq<Option<Pixel>>, tile: Result<(Vec<u8>, u32), String>|
            #![trigger is_finished(
                painted(pixels, clear()),
                size,
                drawn(pixels),
                is_raw(format@),
                tile,
            )]
            is_picture_of(*shown, locate, sample, level, size as int, size as int, pixels)
                && is_finished(
                painted(pixels, clear()),
                size,
                drawn(pixels),
                is_raw(format@),
                tile,
            ) && match tile {
                Ok(t) => r is Ok && r->Ok_0.0 == t.0 && r->Ok_0.1 == t.1 && r->Ok_0.2@ == format@,
                Err(e) => r is Err && r->Err_0 == e,
            },
{
    let raw: bool = str_eq(format, "raw-rgba");
    let tile: Result<(Vec<u8>, u32), String> = render_raster_tile_ex(
        shown,
        size,
        raw,
        locate,
        sample,
        level,
    );
    proof {
        let pixels = choose|pixels: Seq<Option<Pixel>>|
            #![trigger painted(pixels, clear())]
            is_picture_of(*shown, locate, sample, level, size as int, size as int, pixels)
                && is_finished(painted(pixels, clear()), size, drawn(pixels), raw, tile);
        assert(is_finished(
            painted(pixels, clear()),
            size,
            drawn(pixels),
            is_raw(format@),
            tile,
        ));
    }
    match tile {
        Ok(t) => Ok((t.0, t.1, format.to_owned())),
        Err(e) => Err(e),
    }
}

/// The background of a map, as a value.
pub open spec fn background_of(transparent: bool) -> Pixel {
    if transparent {
        [0, 0, 0, 0]
    } else {
        [255, 255, 255, 255]
    }
}

/// Draws a map of a raster, as a file.
pub fn render_map_bbox<
    P,
    T: Fn(u32, u32) -> Option<P>,
    S: Fn(&P, usize) -> u64,
    L: Fn(usize, u64) -> u8,
>(
    shown: &ShownBands,
    width: u32,
    height: u32,
    transparent: bool,
    locate: T,
    sample: S,
    level: L,
) -> (r: Result<Vec<u8>, String>)
    requires
        width * height <= u32::MAX,
        forall|x: u32, y: u32| locate.requires((x, y)),
        forall|p: &P, b: usize| sample.requires((p, b)),
        forall|b: usize, v: u64| level.requires((b, v)),
    ensures
        exists|pixels: Seq<Option<Pixel>>|
            #![trigger painted(pixels, background_of(transparent))]
            is_picture_of(*shown, locate, sample, level, width as int, height as int, pixels)
                && match png_file(painted(pixels, background_of(transparent)), width, height) {
                Ok(bytes) => r is Ok && r->Ok_0@ == bytes,
                Err(e) => r is Err && r->Err_0@ == "PNG encode error: "@ + e,
            },
{
    let (rgba, _count): (Vec<u8>, u32) = draw(
        shown,
        width,
        height,
        map_background(transparent),
        locate,
        sample,
        level,
    );
    to_png(rgba.as_slice(), width, height)
}

/// `locate`, `sample` and `level` give the same for the same arguments.
pub open spec fn are_functions<
    P,
    T: Fn(u32, u32) -> Option<P>,
    S: Fn(&P, usize) -> u64,
    L: Fn(usize, u64) -> u8,
>(locate: T, sample: S, level: L) -> bool {
    &&& forall|x: u32, y: u32, a: Option<P>, b: Option<P>| #[trigger]
        locate.ensures((x, y), a) && #[trigger] locate.ensures((x, y), b) ==> a == b
    &&& forall|p: &P, n: usize, a: u64, b: u64| #[trigger]
        sample.ensures((p, n), a) && #[trigger] sample.ensures((p, n), b) ==> a == b
    &&& forall|n: usize, v: u64, a: u8, b: u8| #[trigger]
        level.ensures((n, v), a) && #[trigger] level.ensures((n, v), b) ==> a == b
}

proof fn lemma_pixel_is_unique<
    P,
    T: Fn(u32, u32) -> Option<P>,
    S: Fn(&P, usize) -> u64,
    L: Fn(usize, u64) -> u8,
>(
    shown: ShownBands,
    locate: T,
    sample: S,
    level: L,
    x: u32,
    y: u32,
    a: Option<Pixel>,
    b: Option<Pixel>,
)
    requires
        are_functions(locate, sample, level),
        is_shown_pixel(shown, locate, sample, level, x, y, a),
        is_shown_pixel(shown, locate, sample, level, x, y, b),
    ensures
        a == b,
        a is Some ==> a->Some_0@[3] == 255,
{
    let pa = choose|place: Option<P>| #[trigger]
        locate.ensures((x, y), place) && match place {
            Some(p) => is_pixel_at(shown, sample, level, p, a),
            None => a is None,
        };
    let pb = choose|place: Option<P>| #[trigger]
        locate.ensures((x, y), place) && match place {
            Some(p) => is_pixel_at(shown, sample, level, p, b),
            None => b is None,
        };
    assert(pa == pb);
    if pa is Some {
        let place = pa->Some_0;
        let (sa, la) = choose|samples: Seq<u64>, levels: Seq<u8>|
            #![trigger sampled_at(shown, sample, place, samples),
                leveled(shown, level, samples, levels)]
            sampled_at(shown, sample, place, samples) && leveled(shown, level, samples, levels)
                && is_composed(shown, samples, levels, a);
        let (sb, lb) = choose|samples: Seq<u64>, levels: Seq<u8>|
            #![trigger sampled_at(shown, sample, place, samples),
                leveled(shown, level, samples, levels)]
            sampled_at(shown, sample, place, samples) && leveled(shown, level, samples, levels)
                && is_composed(shown, samples, levels, b);
        let bands = shown.bands as int;
        let indices = shown.indices@;
        assert forall|i: int| 0 <= i < sa.len() implies #[trigger] sa[i] == sb[i] by {
            let band = band_for(bands, indices, i);
            if band < bands {
                assert(sample.ensures((&place, band as usize), sa[i]));
                assert(sample.ensures((&place, band as usize), sb[i]));
            }
        }
        assert(sa =~= sb);
        if !pixel_is_empty(bands, indices, sa, shown.no_data) {
            assert forall|i: int| 0 <= i < la.len() implies #[trigger] la[i] == lb[i] by {
                let band = band_for(bands, indices, i);
                if bands >= 3 {
                    assert(indices[i] < bands);
                } else {
                    assert(bands > 0) by {
                        if bands == 0 {
                            assert(sa[0] == NAN_BITS);
                        }
                    }
                }
                assert(level.ensures((band as usize, sa[i]), la[i]));
                assert(level.ensures((band as usize, sa[i]), lb[i]));
            }
            assert(la =~= lb);
            assert(a->Some_0@ =~= b->Some_0@);
            assert(a->Some_0 =~= b->Some_0);
        }
    }
}

/// The bytes of a pixel of a picture.
pub open spec fn pixel_in(bytes: Seq<u8>, i: int) -> Seq<u8> {
    bytes.subrange(4 * i, 4 * i + 4)
}

proof fn lemma_pixel_in(pixels: Seq<Option<Pixel>>, background: Pixel, i: int)
    requires
        0 <= i < pixels.len(),
    ensures
        pixel_in(painted(pixels, background), i) == (match pixels[i] {
            Some(p) => p@,
            None => background@,
        }),
{
    lemma_painted(pixels, background, i, 0);
    lemma_painted(pixels, background, i, 1);
    lemma_painted(pixels, background, i, 2);
    lemma_painted(pixels, background, i, 3);
    assert(pixel_in(painted(pixels, background), i) =~= (match pixels[i] {
        Some(p) => p@,
        None => background@,
    }));
}

/// A pixel of a transparent map `t` and of a map `f` that is not: it is opaque and the same
/// on both, or clear on the one and white on the other. On the second it is opaque.
pub open spec fn differ_in_background(t: Seq<u8>, f: Seq<u8>, i: int) -> bool {
    &&& pixel_in(f, i)[3] == 255
    &&& {
        ||| pixel_in(t, i)[3] == 255 && pixel_in(f, i) == pixel_in(t, i)
        ||| pixel_in(t, i) == seq![0u8, 0u8, 0u8, 0u8] && pixel_in(f, i) == seq![
            255u8,
            255u8,
            255u8,
            255u8,
        ]
    }
}

/// Whether a map is transparent changes nothing but its background: a pixel that is drawn
/// is opaque and the same on both maps, and one that is not is clear on the one and white
/// on the other. So a map that is not transparent is opaque everywhere.
pub proof fn law_flag_chooses_background<
    P,
    T: Fn(u32, u32) -> Option<P>,
    S: Fn(&P, usize) -> u64,
    L: Fn(usize, u64) -> u8,
>(
    shown: ShownBands,
    locate: T,
    sample: S,
    level: L,
    width: int,
    height: int,
    clear_pixels: Seq<Option<Pixel>>,
    white_pixels: Seq<Option<Pixel>>,
)
    requires
        are_functions(locate, sample, level),
        is_picture_of(shown, locate, sample, level, width, height, clear_pixels),
        is_picture_of(shown, locate, sample, level, width, height, white_pixels),
    ensures
        clear_pixels == white_pixels,
        forall|i: int|
            0 <= i < clear_pixels.len() ==> #[trigger] differ_in_background(
                painted(clear_pixels, background_of(true)),
                painted(white_pixels, background_of(false)),
                i,
            ),
{
    assert forall|i: int| 0 <= i < clear_pixels.len() implies #[trigger] clear_pixels[i]
        == white_pixels[i] && (clear_pixels[i] is Some ==> clear_pixels[i]->Some_0@[3]
        == 255) by {
        let (x, y) = ((i % width) as u32, (i / width) as u32);
        assert(is_shown_pixel(shown, locate, sample, level, x, y, clear_pixels[i]));
        assert(is_shown_pixel(shown, locate, sample, level, x, y, white_pixels[i]));
        lemma_pixel_is_unique(
            shown,
            locate,
            sample,
            level,
            x,
            y,
            clear_pixels[i],
            white_pixels[i],
        );
    }
    assert(clear_pixels =~= white_pixels);
    assert forall|i: int| 0 <= i < clear_pixels.len() implies #[trigger] differ_in_background(
        painted(clear_pixels, background_of(true)),
        painted(white_pixels, background_of(false)),
        i,
    ) by {
        assert(clear_pixels[i] is Some ==> clear_pixels[i]->Some_0@[3] == 255);
        lemma_pixel_in(clear_pixels, background_of(true), i);
        lemma_pixel_in(white_pixels, background_of(false), i);
        assert(background_of(true)@ =~= seq![0u8, 0u8, 0u8, 0u8]);
        assert(background_of(false)@ =~= seq![255u8, 255u8, 255u8, 255u8]);
    }
}

// ─── What holds of pictures ───

proof fn lemma_extreme_places(v: Seq<i64>) -> (r: (int, int))
    requires
        v.len() > 0,
    ensures
        0 <= r.0 < v.len(),
        0 <= r.1 < v.len(),
        least(v, v[0] as int) == v[r.0],
        greatest(v, v[0] as int) == v[r.1],
{
    (lemma_least_place(v, v[0] as int, 0), lemma_greatest_place(v, v[0] as int, 0))
}

proof fn lemma_least_place(v: Seq<i64>, m: int, at: int) -> (k: int)
    requires
        0 <= at < v.len(),
        v[at] == m,
    ensures
        0 <= k < v.len(),
        least(v, m) == v[k],
    decreases v.len(),
{
    if v.len() == 1 {
        assert(least(v.drop_last(), m) == m);
        0
    } else if at < v.len() - 1 {
        let k = lemma_least_place(v.drop_last(), m, at);
        if v.last() < least(v.drop_last(), m) {
            v.len() - 1
        } else {
            k
        }
    } else if least(v, m) == v.last() {
        v.len() - 1
    } else {
        lemma_least_of(v.drop_last(), m);
        if least(v.drop_last(), m) == m {
            v.len() - 1
        } else {
            choose|k: int| 0 <= k < v.drop_last().len() && least(v.drop_last(), m) == v.drop_last()[k]
        }
    }
}

proof fn lemma_least_of(v: Seq<i64>, m: int)
    ensures
        least(v, m) == m || exists|k: int| 0 <= k < v.len() && least(v, m) == v[k],
        greatest(v, m) == m || exists|k: int| 0 <= k < v.len() && greatest(v, m) == v[k],
    decreases v.len(),
{
    if v.len() > 0 {
        let t = v.drop_last();
        lemma_least_of(t, m);
        if least(v, m) != v.last() && least(v, m) != m {
            let k = choose|k: int| 0 <= k < t.len() && least(t, m) == t[k];
            assert(least(v, m) == v[k]);
        } else if least(v, m) == v.last() {
            assert(least(v, m) == v[v.len() - 1]);
        }
        if greatest(v, m) != v.last() && greatest(v, m) != m {
            let k = choose|k: int| 0 <= k < t.len() && greatest(t, m) == t[k];
            assert(greatest(v, m) == v[k]);
        } else if greatest(v, m) == v.last() {
            assert(greatest(v, m) == v[v.len() - 1]);
        }
    }
}

proof fn lemma_greatest_place(v: Seq<i64>, m: int, at: int) -> (k: int)
    requires
        0 <= at < v.len(),
        v[at] == m,
    ensures
        0 <= k < v.len(),
        greatest(v, m) == v[k],
{
    lemma_least_of(v, m);
    if greatest(v, m) == m {
        at
    } else {
        choose|k: int| 0 <= k < v.len() && greatest(v, m) == v[k]
    }
}

/// A part of an axis of `n` places from `start` on is `len` places long: it reaches from ten
/// places before the least of several places that are not below 0, and is twenty places longer
/// than they lie apart, as far as the axis goes.
pub open spec fn is_padded(v: Seq<i64>, n: int, start: int, len: int) -> bool {
    if v.len() == 0 {
        start == 0 && len == (if n < 20 {
            n
        } else {
            20
        })
    } else {
        exists|lo: int, hi: int|
            #![trigger v[lo], v[hi]]
            {
                let low = if v[lo] < 0 {
                    0
                } else {
                    v[lo] as int
                };
                &&& 0 <= lo < v.len()
                &&& 0 <= hi < v.len()
                &&& forall|i: int| 0 <= i < v.len() ==> v[lo] <= #[trigger] v[i] <= v[hi]
                &&& start == (if low < 10 {
                    0
                } else if low - 10 < n - 1 {
                    low - 10
                } else {
                    n - 1
                })
                &&& len == (if v[hi] - low + 20 < 1 {
                    1
                } else if v[hi] - low + 20 < n - start {
                    v[hi] - low + 20
                } else {
                    n - start
                })
            }
    }
}

proof fn lemma_padded(v: Seq<i64>, n: int)
    requires
        1 <= n <= u32::MAX,
        forall|i: int|
            0 <= i < v.len() ==> -0x4000_0000 <= #[trigger] v[i] < 0x4000_0000,
    ensures
        is_padded(v, n, axis_start(v, n), axis_len(v, n)),
{
    if v.len() > 0 {
        let (lo, hi) = lemma_extreme_places(v);
        assert forall|i: int| 0 <= i < v.len() implies v[lo] <= #[trigger] v[i] <= v[hi] by {
            lemma_least_bounds(v, v[0] as int, i);
        }
        assert(v[lo] <= v[hi]);
        let low = axis_low(v);
        let from = raster_load::max_int(low - SAFE_PADDING, 0);
        let span = raster_load::max_int(axis_high(v) - low + 2 * SAFE_PADDING, 1);
        vstd::arithmetic::div_mod::lemma_small_mod(from as nat, 0x1_0000_0000);
        vstd::arithmetic::div_mod::lemma_small_mod(span as nat, 0x1_0000_0000);
    }
}

/// What is read for a picture holds every pixel of the image where a corner of the picture
/// lies, with ten more on each side as far as the image goes, and lies in the image. This
/// holds of corners within thirty bits.
pub proof fn law_window_is_padded(
    coords: &Vec<(i64, i64)>,
    width: u32,
    height: u32,
    win: SourceWindow,
)
    requires
        call_ensures(source_window, (coords, width, height), win),
        width >= 1,
        height >= 1,
        forall|i: int|
            0 <= i < coords@.len() ==> -0x4000_0000 <= (#[trigger] coords@[i]).0 < 0x4000_0000
                && -0x4000_0000 <= coords@[i].1 < 0x4000_0000,
    ensures
        is_padded(
            Seq::new(coords@.len(), |i: int| coords@[i].0),
            width as int,
            win.col_off as int,
            win.src_w as int,
        ),
        is_padded(
            Seq::new(coords@.len(), |i: int| coords@[i].1),
            height as int,
            win.row_off as int,
            win.src_h as int,
        ),
        forall|i: int|
            0 <= i < coords@.len() && 0 <= (#[trigger] coords@[i]).0 < width && 0 <= coords@[i].1
                < height ==> win.col_off <= coords@[i].0 < win.col_off + win.src_w && win.row_off
                <= coords@[i].1 < win.row_off + win.src_h,
        win.col_off + win.src_w <= width,
        win.row_off + win.src_h <= height,
{
    let (cs, rs) = (
        Seq::new(coords@.len(), |i: int| coords@[i].0),
        Seq::new(coords@.len(), |i: int| coords@[i].1),
    );
    assert(cs =~= columns(coords@));
    assert(rs =~= rows(coords@));
    assert forall|i: int| 0 <= i < cs.len() implies -0x4000_0000 <= #[trigger] cs[i]
        < 0x4000_0000 by {
        assert(coords@[i].0 == cs[i]);
    }
    assert forall|i: int| 0 <= i < rs.len() implies -0x4000_0000 <= #[trigger] rs[i]
        < 0x4000_0000 by {
        assert(coords@[i].1 == rs[i]);
    }
    lemma_padded(cs, width as int);
    lemma_padded(rs, height as int);
    assert forall|i: int|
        0 <= i < coords@.len() && 0 <= (#[trigger] coords@[i]).0 < width && 0 <= coords@[i].1
            < height implies win.col_off <= coords@[i].0 < win.col_off + win.src_w && win.row_off
        <= coords@[i].1 < win.row_off + win.src_h by {
        assert(cs[i] == coords@[i].0 && rs[i] == coords@[i].1);
        lemma_extents_are_small(cs);
        lemma_extents_are_small(rs);
        law_window_covers_corners(cs, width as int, i);
        law_window_covers_corners(rs, height as int, i);
    }
}

proof fn lemma_extents_are_small(v: Seq<i64>)
    requires
        v.len() > 0,
        forall|i: int|
            0 <= i < v.len() ==> -0x4000_0000 <= #[trigger] v[i] < 0x4000_0000,
    ensures
        axis_high(v) - axis_low(v) + 2 * SAFE_PADDING < 0x1_0000_0000,
{
    let (lo, hi) = lemma_extreme_places(v);
    assert(v[hi] < 0x4000_0000);
}

/// A point lies in a raster where both fractions are from zero, with either sign, to one.
pub proof fn law_points_in_a_raster(u: u64, v: u64, r: bool)
    requires
        call_ensures(in_raster, (u, v), r),
    ensures
        r <==> (u <= 0x3FF0_0000_0000_0000 || u == 0x8000_0000_0000_0000) && (v
            <= 0x3FF0_0000_0000_0000 || v == 0x8000_0000_0000_0000),
{
}

/// A smooth picture, and one of no more than a million pixels, is read in full; of any other
/// only every so-manieth pixel is read. What is read reaches to the end of the window and no
/// further than the step.
pub proof fn law_what_is_read(window: SourceWindow, smooth: bool, root: u32, plan: ReadPlan)
    requires
        call_ensures(plan_read, (window, smooth, root), plan),
    ensures
        plan.window == window,
        smooth || window.src_w * window.src_h <= 1048576 ==> plan.step == 1,
        !smooth && window.src_w * window.src_h > 1048576 && root >= 1 ==> plan.step == root,
        window.src_w <= plan.read_w * plan.step < window.src_w + plan.step,
        window.src_h <= plan.read_h * plan.step < window.src_h + plan.step,
{
    let s = plan.step as int;
    let (w, h) = (window.src_w as int, window.src_h as int);
    vstd::arithmetic::div_mod::lemma_fundamental_div_mod(w + s - 1, s);
    vstd::arithmetic::div_mod::lemma_fundamental_div_mod(h + s - 1, s);
    vstd::arithmetic::div_mod::lemma_mod_bound(w + s - 1, s);
    vstd::arithmetic::div_mod::lemma_mod_bound(h + s - 1, s);
    assert(plan.read_w * s == s * plan.read_w) by (nonlinear_arith);
    assert(plan.read_h * s == s * plan.read_h) by (nonlinear_arith);
}

/// The sample of a band in a row and a column of what was read stands behind those of the
/// rows before, of the columns before in its row, and of the bands before at its pixel.
/// Outside of what was read there is no number.
pub proof fn law_samples_lie_row_by_row(
    region: &[u64],
    row: i64,
    col: i64,
    read_w: usize,
    read_h: usize,
    bands: usize,
    band: usize,
    sample: u64,
)
    requires
        call_ensures(nearest_value, (region, row, col, read_w, read_h, bands, band), sample),
        region@.len() == read_h * read_w * bands,
    ensures
        0 <= row < read_h && 0 <= col < read_w && band < bands ==> {
            &&& 0 <= (row * read_w + col) * bands + band < region@.len()
            &&& sample == region@[(row * read_w + col) * bands + band]
        },
        !(0 <= row < read_h && 0 <= col < read_w && band < bands) ==> sample
            == 0x7FF8_0000_0000_0000,
{
    if 0 <= row < read_h && 0 <= col < read_w && band < bands {
        raster_load::lemma_cell_bound(
            row as int,
            col as int,
            band as int,
            read_h as int,
            read_w as int,
            bands as int,
        );
    }
}

/// The bytes of a drawn pixel: opaque, and each colour is how bright the sample of its band at
/// the place of the pixel is shown. Of a raster of three or more bands the first listed band
/// is red, the second green and the third blue, and a colour without a band is dark; of a
/// raster of fewer bands the first band gives all colours.
pub open spec fn shows<P, S: Fn(&P, usize) -> u64, L: Fn(usize, u64) -> u8>(
    shown: ShownBands,
    sample: S,
    level: L,
    place: P,
    pixel: Seq<u8>,
) -> bool {
    &&& pixel.len() == 4
    &&& pixel[3] == 255
    &&& if shown.bands < 3 {
        &&& pixel[0] == pixel[1] && pixel[1] == pixel[2]
        &&& shows_band(shown, sample, level, place, 0, pixel[0])
    } else {
        forall|i: int|
            0 <= i < 3 ==> if i < shown.indices@.len() {
                shows_band(shown, sample, level, place, shown.indices@[i], #[trigger] pixel[i])
            } else {
                pixel[i] == 0
            }
    }
}

/// A colour is how bright the sample of a band at a place is shown, and the sample stands for
/// a value.
pub open spec fn shows_band<P, S: Fn(&P, usize) -> u64, L: Fn(usize, u64) -> u8>(
    shown: ShownBands,
    sample: S,
    level: L,
    place: P,
    band: usize,
    colour: u8,
) -> bool {
    &&& band < shown.bands
    &&& exists|value: u64| #[trigger]
        sample.ensures((&place, band), value) && !crate::raster::nodata(value, shown.no_data)
            && level.ensures((band, value), colour)
}

/// Some band that a pixel needs does not exist, or its sample at the place of the pixel stands
/// for no value.
pub open spec fn lacks<P, S: Fn(&P, usize) -> u64>(
    shown: ShownBands,
    sample: S,
    place: P,
) -> bool {
    if shown.bands < 3 {
        lacks_band(shown, sample, place, 0)
    } else {
        exists|i: int|
            0 <= i < 3 && i < shown.indices@.len() && lacks_band(
                shown,
                sample,
                place,
                #[trigger] shown.indices@[i],
            )
    }
}

/// A band does not exist, or its sample at a place stands for no value.
pub open spec fn lacks_band<P, S: Fn(&P, usize) -> u64>(
    shown: ShownBands,
    sample: S,
    place: P,
    band: usize,
) -> bool {
    ||| band >= shown.bands
    ||| exists|value: u64| #[trigger]
        sample.ensures((&place, band), value) && crate::raster::nodata(value, shown.no_data)
}

proof fn lemma_pixel_shows<P, S: Fn(&P, usize) -> u64, L: Fn(usize, u64) -> u8>(
    shown: ShownBands,
    sample: S,
    level: L,
    place: P,
    pixel: Option<Pixel>,
)
    requires
        is_pixel_at(shown, sample, level, place, pixel),
    ensures
        pixel is Some ==> shows(shown, sample, level, place, pixel->Some_0@),
        pixel is None ==> lacks(shown, sample, place),
{
    let (samples, levels) = choose|samples: Seq<u64>, levels: Seq<u8>|
        #![trigger sampled_at(shown, sample, place, samples), leveled(shown, level, samples, levels)]
        sampled_at(shown, sample, place, samples) && leveled(shown, level, samples, levels)
            && is_composed(shown, samples, levels, pixel);
    let bands = shown.bands as int;
    let indices = shown.indices@;
    if pixel is Some {
        let p = pixel->Some_0@;
        if bands < 3 {
            assert(band_for(bands, indices, 0) == 0);
            if bands == 0 {
                assert(samples[0] == NAN_BITS);
            }
            assert(sample.ensures((&place, 0usize), samples[0]));
            assert(level.ensures((0usize, samples[0]), levels[0]));
            assert(shows_band(shown, sample, level, place, 0, p[0]));
        } else {
            assert forall|i: int| 0 <= i < 3 implies if i < indices.len() {
                shows_band(shown, sample, level, place, indices[i], #[trigger] p[i])
            } else {
                p[i] == 0
            } by {
                if i < indices.len() {
                    assert(!(indices[i] >= bands || crate::raster::nodata(
                        samples[i],
                        shown.no_data,
                    )));
                    assert(band_for(bands, indices, i) == indices[i]);
                    assert(sample.ensures((&place, indices[i]), samples[i]));
                    assert(level.ensures((indices[i], samples[i]), levels[i]));
                    assert(p[i] == levels[i]);
                }
            }
        }
    } else if bands < 3 {
        assert(band_for(bands, indices, 0) == 0);
        if bands > 0 {
            assert(sample.ensures((&place, 0usize), samples[0]));
        }
        assert(lacks_band(shown, sample, place, 0));
    } else {
        let i = choose|i: int|
            0 <= i < 3 && i < indices.len() && (#[trigger] indices[i] >= bands
                || crate::raster::nodata(samples[i], shown.no_data));
        assert(band_for(bands, indices, i) == indices[i]);
        if indices[i] < bands {
            assert(sample.ensures((&place, indices[i]), samples[i]));
        }
        assert(lacks_band(shown, sample, place, indices[i]));
    }
}

/// The bytes of the pixel in a column and a row show the raster at the place that `locate` gives
/// for it. Where there is no such place, or something is lacking there, they are the background.
pub open spec fn shows_place<
    P,
    T: Fn(u32, u32) -> Option<P>,
    S: Fn(&P, usize) -> u64,
    L: Fn(usize, u64) -> u8,
>(
    shown: ShownBands,
    locate: T,
    sample: S,
    level: L,
    background: Seq<u8>,
    x: u32,
    y: u32,
    bytes: Seq<u8>,
) -> bool {
    exists|place: Option<P>| #[trigger]
        locate.ensures((x, y), place) && match place {
            None => bytes == background,
            Some(p) => shows(shown, sample, level, p, bytes) || (lacks(shown, sample, p) && bytes
                == background),
        }
}

proof fn lemma_shows_place<
    P,
    T: Fn(u32, u32) -> Option<P>,
    S: Fn(&P, usize) -> u64,
    L: Fn(usize, u64) -> u8,
>(
    shown: ShownBands,
    locate: T,
    sample: S,
    level: L,
    background: Pixel,
    x: u32,
    y: u32,
    pixel: Option<Pixel>,
)
    requires
        is_shown_pixel(shown, locate, sample, level, x, y, pixel),
    ensures
        shows_place(
            shown,
            locate,
            sample,
            level,
            background@,
            x,
            y,
            match pixel {
                Some(p) => p@,
                None => background@,
            },
        ),
{
    let place = choose|place: Option<P>| #[trigger]
        locate.ensures((x, y), place) && match place {
            Some(p) => is_pixel_at(shown, sample, level, p, pixel),
            None => pixel is None,
        };
    match place {
        Some(p) => lemma_pixel_shows(shown, sample, level, p, pixel),
        None => {},
    }
    assert(locate.ensures((x, y), place));
}

proof fn lemma_pixel_number(width: int, height: int, x: int, y: int)
    requires
        0 <= x < width,
        0 <= y < height,
    ensures
        0 <= y * width + x < width * height,
        (y * width + x) / width == y,
        (y * width + x) % width == x,
{
    assert(0 <= y * width + x < width * height) by (nonlinear_arith)
        requires
            0 <= x < width,
            0 <= y < height,
    ;
    vstd::arithmetic::div_mod::lemma_fundamental_div_mod_converse(y * width + x, width, y, x);
}

/// Each pixel of a picture shows the raster at the place that `locate` gives for its column and
/// its row. Where there is no such place, or something is lacking there, it is the background.
pub proof fn law_picture_shows_the_raster<
    P,
    T: Fn(u32, u32) -> Option<P>,
    S: Fn(&P, usize) -> u64,
    L: Fn(usize, u64) -> u8,
>(
    shown: &ShownBands,
    width: u32,
    height: u32,
    background: Pixel,
    locate: T,
    sample: S,
    level: L,
    picture: (Vec<u8>, u32),
    x: u32,
    y: u32,
)
    requires
        call_ensures(
            draw::<P, T, S, L>,
            (shown, width, height, background, locate, sample, level),
            picture,
        ),
        x < width,
        y < height,
    ensures
        picture.0@.len() == width * height * 4,
        0 <= y * width + x < width * height,
        shows_place(
            *shown,
            locate,
            sample,
            level,
            background@,
            x,
            y,
            picture.0@.subrange(4 * (y * width + x), 4 * (y * width + x) + 4),
        ),
{
    let (w, h) = (width as int, height as int);
    let i = y * w + x;
    lemma_pixel_number(w, h, x as int, y as int);
    let pixels = choose|pixels: Seq<Option<Pixel>>|
        #![trigger painted(pixels, background)]
        is_picture_of(*shown, locate, sample, level, w, h, pixels) && picture.0@ == painted(
            pixels,
            background,
        ) && picture.1 == drawn(pixels);
    lemma_pixel_in(pixels, background, i);
    assert(is_shown_pixel(*shown, locate, sample, level, x, y, pixels[i]));
    lemma_shows_place(*shown, locate, sample, level, background, x, y, pixels[i]);
}

/// The number of drawn pixels counts each of them once: it is none of no pixels, and one more
/// with every pixel that is drawn.
pub proof fn law_drawn_pixels_are_counted(pixels: Seq<Option<Pixel>>, pixel: Option<Pixel>)
    ensures
        drawn(Seq::<Option<Pixel>>::empty()) == 0,
        drawn(pixels.push(pixel)) == drawn(pixels) + (if pixel is Some {
            1int
        } else {
            0int
        }),
{
    assert(pixels.push(pixel).drop_last() =~= pixels);
}

/// A tile is handed out with the number of its pixels: as its bytes where they are asked for,
/// else as the file that the encoder makes of them. Where there is none, its reason is told.
pub proof fn law_tiles_are_handed_out(
    rgba: Vec<u8>,
    size: u32,
    rendered: u32,
    return_rgba: bool,
    r: Result<(Vec<u8>, u32), String>,
)
    requires
        call_ensures(finish_tile, (rgba, size, rendered, return_rgba), r),
    ensures
        return_rgba ==> r is Ok && r->Ok_0.0@ == rgba@ && r->Ok_0.1 == rendered,
        !return_rgba && png_file(rgba@, size, size) is Ok ==> r is Ok && r->Ok_0.0@ == png_file(
            rgba@,
            size,
            size,
        )->Ok_0 && r->Ok_0.1 == rendered,
        !return_rgba && png_file(rgba@, size, size) is Err ==> r is Err,
{
}

/// The background of a tile is clear.
pub proof fn law_tiles_are_clear()
    ensures
        clear()@ == seq![0u8, 0u8, 0u8, 0u8],
        background_of(true)@ == seq![0u8, 0u8, 0u8, 0u8],
        background_of(false)@ == seq![255u8, 255u8, 255u8, 255u8],
{
    assert(clear()@ =~= seq![0u8, 0u8, 0u8, 0u8]);
    assert(background_of(true)@ =~= seq![0u8, 0u8, 0u8, 0u8]);
    assert(background_of(false)@ =~= seq![255u8, 255u8, 255u8, 255u8]);
}

/// A tile of a raster as bytes has four of them for each pixel, and shows the raster at the
/// place of each pixel on a clear background. The number of its pixels that are drawn comes
/// with it.
pub proof fn law_tile_shows_the_raster<
    P,
    T: Fn(u32, u32) -> Option<P>,
    S: Fn(&P, usize) -> u64,
    L: Fn(usize, u64) -> u8,
>(
    shown: &ShownBands,
    size: u32,
    locate: T,
    sample: S,
    level: L,
    r: Result<(Vec<u8>, u32), String>,
    x: u32,
    y: u32,
)
    requires
        call_ensures(
            render_raster_tile_ex::<P, T, S, L>,
            (shown, size, true, locate, sample, level),
            r,
        ),
        x < size,
        y < size,
    ensures
        r is Ok,
        r->Ok_0.0@.len() == size * size * 4,
        0 <= y * size + x < size * size,
        shows_place(
            *shown,
            locate,
            sample,
            level,
            seq![0u8, 0u8, 0u8, 0u8],
            x,
            y,
            r->Ok_0.0@.subrange(4 * (y * size + x), 4 * (y * size + x) + 4),
        ),
{
    let w = size as int;
    let i = y * w + x;
    lemma_pixel_number(w, w, x as int, y as int);
    law_tiles_are_clear();
    let pixels = choose|pixels: Seq<Option<Pixel>>|
        #![trigger painted(pixels, clear())]
        is_picture_of(*shown, locate, sample, level, w, w, pixels) && is_finished(
            painted(pixels, clear()),
            size,
            drawn(pixels),
            true,
            r,
        );
    lemma_painted(pixels, clear(), i, 0);
    lemma_pixel_in(pixels, clear(), i);
    assert(is_shown_pixel(*shown, locate, sample, level, x, y, pixels[i]));
    lemma_shows_place(*shown, locate, sample, level, clear(), x, y, pixels[i]);
}

/// A tile in the format `raw-rgba`, and only in it, is handed out as its bytes.
pub proof fn law_raw_format(format: Seq<char>)
    ensures
        is_raw(format) <==> format == "raw-rgba"@,
{
}

/// A tile is encoded with losses at ninety of a hundred, where its side has no more than
/// fourteen bits.
pub proof fn law_lossy_tiles(rgba: &[u8], size: u32, bytes: Option<Vec<u8>>)
    requires
        call_ensures(to_webp, (rgba, size), bytes),
    ensures
        size < 16384 ==> match webp_file(rgba@, size, size, 90) {
            Some(b) => bytes is Some && bytes->Some_0@ == b,
            None => bytes is None,
        },
{
}

/// A pixel is drawn where no sample that it needs stands for no value and no band is missing.
pub proof fn law_empty_pixels(
    bands: usize,
    indices: &[usize],
    samples: &[u64],
    levels: &[u8],
    no_data: Option<u64>,
    pixel: Option<Pixel>,
)
    requires
        call_ensures(compose_pixel, (bands, indices, samples, levels, no_data), pixel),
    ensures
        bands < 3 ==> (pixel is Some <==> !crate::raster::nodata(samples@[0], no_data)),
        bands >= 3 ==> (pixel is Some <==> forall|i: int|
            0 <= i < 3 && i < indices@.len() ==> #[trigger] indices@[i] < bands
                && !crate::raster::nodata(samples@[i], no_data)),
{
    if bands >= 3 && pixel is None {
        let i = choose|i: int|
            0 <= i < 3 && i < indices@.len() && (#[trigger] indices@[i] >= bands
                || crate::raster::nodata(samples@[i], no_data));
        assert(!(indices@[i] < bands && !crate::raster::nodata(samples@[i], no_data)));
    }
    if bands >= 3 && pixel is Some {
        assert forall|i: int| 0 <= i < 3 && i < indices@.len() implies #[trigger] indices@[i]
            < bands && !crate::raster::nodata(samples@[i], no_data) by {
            assert(!(indices@[i] >= bands || crate::raster::nodata(samples@[i], no_data)));
        }
    }
}

/// A picture holds, row by row, what was drawn in each column and row, or the background.
pub proof fn law_pictures_are_drawn_row_by_row<F: Fn(u32, u32) -> Option<Pixel>>(
    width: u32,
    height: u32,
    background: Pixel,
    shade: F,
    picture: (Vec<u8>, u32),
    x: u32,
    y: u32,
)
    requires
        call_ensures(paint::<F>, (width, height, background, shade), picture),
        width * height <= u32::MAX,
        x < width,
        y < height,
    ensures
        exists|pixel: Option<Pixel>| #[trigger]
            shade.ensures((x, y), pixel) && forall|c: int|
                0 <= c < 4 ==> #[trigger] picture.0@[4 * (y * width + x) + c] == (match pixel {
                    Some(p) => p@[c],
                    None => background@[c],
                }),
{
    let pixels = choose|pixels: Seq<Option<Pixel>>|
        #![trigger shaded(pixels, width as int, shade)]
        pixels.len() == width * height && shaded(pixels, width as int, shade) && picture.0@
            == painted(pixels, background) && picture.1 == drawn(pixels);
    let i = y * width + x;
    vstd::arithmetic::div_mod::lemma_fundamental_div_mod_converse(
        i,
        width as int,
        y as int,
        x as int,
    );
    assert(0 <= i < width * height) by (nonlinear_arith)
        requires
            i == y * width + x,
            x < width,
            y < height,
    ;
    assert(shade.ensures((x, y), pixels[i]));
    assert forall|c: int| 0 <= c < 4 implies #[trigger] picture.0@[4 * (y * width + x) + c] == (
    match pixels[i] {
        Some(p) => p@[c],
        None => background@[c],
    }) by {
        lemma_painted(pixels, background, i, c);
    }
}

/// A map is clear where nothing is drawn if it is asked to be, and white otherwise. Bands are
/// counted from one in a request and from zero in a file.
pub proof fn law_backgrounds_of_maps(
    clear_map: Pixel,
    white_map: Pixel,
    bands: &[u32],
    indices: Vec<usize>,
    i: int,
)
    requires
        call_ensures(map_background, (true,), clear_map),
        call_ensures(map_background, (false,), white_map),
        call_ensures(band_indices, (bands,), indices),
        0 <= i < bands@.len(),
    ensures
        clear_map@[0] == 0 && clear_map@[1] == 0 && clear_map@[2] == 0 && clear_map@[3] == 0,
        white_map@[0] == 255 && white_map@[1] == 255 && white_map@[2] == 255 && white_map@[3]
            == 255,
        indices@.len() == bands@.len(),
        indices@[i] + 1 == bands@[i],
{
}

/// The place of a sample among those that were read is that of its row, its column and its
/// band, and outside of what was read there is none.
pub proof fn law_places_of_nearest_samples(
    row: i64,
    col: i64,
    read_w: usize,
    read_h: usize,
    bands: usize,
    band: usize,
    len: usize,
    place: Option<usize>,
)
    requires
        call_ensures(nearest_place, (row, col, read_w, read_h, bands, band, len), place),
    ensures
        place is Some <==> 0 <= row < read_h && 0 <= col < read_w && (row * read_w + col) * bands
            + band < len,
        place is Some ==> place->Some_0 == (row * read_w + col) * bands + band,
{
}

} // verus!
