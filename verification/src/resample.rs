//! How samples are picked from a raster and stretched to the range of a picture.

use crate::text::{str_eq, lower};
use crate::tile::raster_load;
use crate::tile::raster_load::sample_index;
use vstd::prelude::*;

verus! {

/// How a sample between pixels is found.
#[derive(Debug, Clone, Copy, PartialEq, Eq, Structural)]
pub enum ResamplingMode {
    NearestNeighbor,
    Bilinear,
    Bicubic,
    Lanczos3,
}

/// The mode that a name stands for, once in lower case.
pub open spec fn resampling_named(name: Seq<char>) -> ResamplingMode {
    if name == "bilinear"@ {
        ResamplingMode::Bilinear
    } else if name == "bicubic"@ {
        ResamplingMode::Bicubic
    } else if name == "lanczos"@ || name == "lanczos3"@ {
        ResamplingMode::Lanczos3
    } else {
        ResamplingMode::NearestNeighbor
    }
}

impl ResamplingMode {
    /// The number of the mode, in the order of its variants.
    pub open spec fn number(self) -> u8 {
        match self {
            ResamplingMode::NearestNeighbor => 0,
            ResamplingMode::Bilinear => 1,
            ResamplingMode::Bicubic => 2,
            ResamplingMode::Lanczos3 => 3,
        }
    }

    /// The mode that a name stands for in any case of letters; an unknown name is the
    /// nearest neighbour.
    pub fn from_str(s: &str) -> (mode: Self)
        ensures
            mode == resampling_named(crate::text::lowered(s@)),
    {
        let name: String = lower(s);
        if str_eq(name.as_str(), "bilinear") {
            ResamplingMode::Bilinear
        } else if str_eq(name.as_str(), "bicubic") {
            ResamplingMode::Bicubic
        } else if str_eq(name.as_str(), "lanczos") || str_eq(name.as_str(), "lanczos3") {
            ResamplingMode::Lanczos3
        } else {
            ResamplingMode::NearestNeighbor
        }
    }

    /// The number of the mode.
    pub fn code(self) -> (n: u8)
        ensures
            n == self.number(),
    {
        match self {
            ResamplingMode::NearestNeighbor => 0,
            ResamplingMode::Bilinear => 1,
            ResamplingMode::Bicubic => 2,
            ResamplingMode::Lanczos3 => 3,
        }
    }
}

/// Different modes have different numbers.
pub proof fn law_mode_numbers_differ(a: ResamplingMode, b: ResamplingMode)
    requires
        a.number() == b.number(),
    ensures
        a == b,
{
}

/// How the range of the samples is found that is spread over the colours.
#[derive(Debug, Clone, Copy, PartialEq, Eq, Structural)]
pub enum StretchMethod {
    MinMax,
    Percentile,
    StdDev,
}

/// The method that a name stands for, once in lower case.
pub open spec fn stretch_named(name: Seq<char>) -> StretchMethod {
    if name == "percentile"@ {
        StretchMethod::Percentile
    } else if name == "stddev"@ || name == "standard-deviation"@ {
        StretchMethod::StdDev
    } else {
        StretchMethod::MinMax
    }
}

impl StretchMethod {
    /// The method that a name stands for in any case of letters; an unknown name is the
    /// full range.
    pub fn from_str(s: &str) -> (method: Self)
        ensures
            method == stretch_named(crate::text::lowered(s@)),
    {
        let name: String = lower(s);
        if str_eq(name.as_str(), "percentile") {
            StretchMethod::Percentile
        } else if str_eq(name.as_str(), "stddev") || str_eq(name.as_str(), "standard-deviation") {
            StretchMethod::StdDev
        } else {
            StretchMethod::MinMax
        }
    }
}

/// A stretch as it is asked for. `F` is the type of the numbers.
#[derive(Debug, Clone)]
pub struct StretchConfig<F> {
    pub method: StretchMethod,
    pub min_percent: Option<F>,
    pub max_percent: Option<F>,
    pub std_dev_factor: Option<F>,
}

/// What is known of the samples of a raster, band by band.
pub struct BandStats<F> {
    pub min_values: Vec<F>,
    pub max_values: Vec<F>,
    pub mean_values: Vec<F>,
    pub std_dev_values: Vec<F>,
    pub percentile_bounds: Option<Vec<(F, F)>>,
}

impl<F> BandStats<F> {
    /// Every statistic covers all bands.
    pub open spec fn covers(self, bands: int) -> bool {
        &&& self.min_values@.len() >= bands
        &&& self.max_values@.len() >= bands
        &&& self.mean_values@.len() >= bands
        &&& self.std_dev_values@.len() >= bands
    }

    /// The full ranges of the first `bands` bands.
    pub open spec fn full_ranges(self, bands: nat) -> Seq<(F, F)> {
        Seq::new(bands, |b: int| (self.min_values@[b], self.max_values@[b]))
    }
}

fn full_ranges<F: Copy>(stats: &BandStats<F>, bands: usize) -> (r: Vec<(F, F)>)
    requires
        stats.covers(bands as int),
    ensures
        r@ == stats.full_ranges(bands as nat),
{
    let mut r: Vec<(F, F)> = Vec::new();
    for b in 0..bands
        invariant
            stats.covers(bands as int),
            r@ =~= stats.full_ranges(b as nat),
    {
        r.push((stats.min_values[b], stats.max_values[b]));
    }
    r
}

/// The range of each band that is spread over the colours. `spread` gives the range
/// around a mean for a deviation, and an optional factor of that deviation.
pub fn compute_stretch_bounds<F: Copy, G: Fn(F, F, Option<F>) -> (F, F)>(
    stats: &BandStats<F>,
    bands: usize,
    stretch: Option<&StretchConfig<F>>,
    spread: G,
) -> (bounds: Vec<(F, F)>)
    requires
        stats.covers(bands as int),
        forall|m: F, d: F, k: Option<F>| spread.requires((m, d, k)),
    ensures
        match stretch {
            Some(s) => match s.method {
                StretchMethod::Percentile => match stats.percentile_bounds {
                    Some(p) => bounds@ == p@,
                    None => bounds@ == stats.full_ranges(bands as nat),
                },
                StretchMethod::StdDev => {
                    &&& bounds@.len() == bands
                    &&& forall|b: int|
                        0 <= b < bands ==> spread.ensures(
                            (stats.mean_values@[b], stats.std_dev_values@[b], s.std_dev_factor),
                            #[trigger] bounds@[b],
                        )
                },
                StretchMethod::MinMax => bounds@ == stats.full_ranges(bands as nat),
            },
            None => bounds@ == stats.full_ranges(bands as nat),
        },
{
    match stretch {
        Some(s) => match s.method {
            StretchMethod::Percentile => match &stats.percentile_bounds {
                Some(p) => {
                    let mut r: Vec<(F, F)> = Vec::new();
                    for i in 0..p.len()
                        invariant
                            r@ =~= p@.subrange(0, i as int),
                    {
                        r.push(p[i]);
                    }
                    assert(p@.subrange(0, p@.len() as int) =~= p@);
                    r
                },
                None => full_ranges(stats, bands),
            },
            StretchMethod::StdDev => {
                let mut r: Vec<(F, F)> = Vec::new();
                for b in 0..bands
                    invariant
                        stats.covers(bands as int),
                        forall|m: F, d: F, k: Option<F>| spread.requires((m, d, k)),
                        r@.len() == b,
                        forall|i: int|
                            0 <= i < b ==> spread.ensures(
                                (
                                    stats.mean_values@[i],
                                    stats.std_dev_values@[i],
                                    s.std_dev_factor,
                                ),
                                #[trigger] r@[i],
                            ),
                {
                    r.push(
                        spread(stats.mean_values[b], stats.std_dev_values[b], s.std_dev_factor),
                    );
                }
                r
            },
            StretchMethod::MinMax => full_ranges(stats, bands),
        },
        None => full_ranges(stats, bands),
    }
}

/// The places of the four samples around a point whose upper left neighbour is in row
/// `y0` and column `x0`: upper left, upper right, lower left, lower right.
pub fn bilinear_taps(
    x0: usize,
    y0: usize,
    w: usize,
    h: usize,
    bands: usize,
    band: usize,
    len: usize,
) -> (taps: (usize, usize, usize, usize))
    requires
        x0 < w,
        y0 < h,
        band < bands,
        h * w * bands <= len,
    ensures
        ({
            let x1 = crate::tile::raster_ovr::neighbour(x0 as int, w as int);
            let y1 = crate::tile::raster_ovr::neighbour(y0 as int, h as int);
            &&& taps.0 == raster_load::cell(y0 as int, x0 as int, band as int, w as int, bands as int)
            &&& taps.1 == raster_load::cell(y0 as int, x1, band as int, w as int, bands as int)
            &&& taps.2 == raster_load::cell(y1, x0 as int, band as int, w as int, bands as int)
            &&& taps.3 == raster_load::cell(y1, x1, band as int, w as int, bands as int)
        }),
        taps.0 < len,
        taps.1 < len,
        taps.2 < len,
        taps.3 < len,
{
    let x1: usize = if x0 < w - 1 {
        x0 + 1
    } else {
        w - 1
    };
    let y1: usize = if y0 < h - 1 {
        y0 + 1
    } else {
        h - 1
    };
    (
        sample_index(y0, x0, band, w, h, bands, len),
        sample_index(y0, x1, band, w, h, bands, len),
        sample_index(y1, x0, band, w, h, bands, len),
        sample_index(y1, x1, band, w, h, bands, len),
    )
}

/// `i`, moved to the nearest end of `0..n` where it lies outside.
pub open spec fn clamped(i: int, n: int) -> int {
    if i < 0 {
        0
    } else if i > n - 1 {
        n - 1
    } else {
        i
    }
}

fn clamp_index(i: i64, n: usize) -> (r: usize)
    requires
        1 <= n <= i64::MAX,
    ensures
        r == clamped(i as int, n as int),
{
    if i < 0 {
        0
    } else if i > n as i64 - 1 {
        n - 1
    } else {
        i as usize
    }
}

/// The places of the four by four samples around a point whose upper left neighbour is
/// in row `iy` and column `ix`, row by row. A row or column outside of the grid is
/// replaced by the nearest one.
pub fn bicubic_taps(
    ix: i64,
    iy: i64,
    w: usize,
    h: usize,
    bands: usize,
    band: usize,
    len: usize,
) -> (taps: Vec<usize>)
    requires
        0 <= ix < w,
        0 <= iy < h,
        w <= i64::MAX - 4,
        h <= i64::MAX - 4,
        band < bands,
        h * w * bands <= len,
    ensures
        taps@.len() == 16,
        forall|k: int|
            0 <= k < 16 ==> #[trigger] taps@[k] == raster_load::cell(
                clamped(iy + k / 4 - 1, h as int),
                clamped(ix + k % 4 - 1, w as int),
                band as int,
                w as int,
                bands as int,
            ) && taps@[k] < len,
{
    let mut taps: Vec<usize> = Vec::new();
    let mut k: i64 = 0;
    while k < 16
        invariant
            0 <= k <= 16,
            0 <= ix < w,
            0 <= iy < h,
            w <= i64::MAX - 4,
            h <= i64::MAX - 4,
            band < bands,
            h * w * bands <= len,
            taps@.len() == k,
            forall|j: int|
                0 <= j < k ==> #[trigger] taps@[j] == raster_load::cell(
                    clamped(iy + j / 4 - 1, h as int),
                    clamped(ix + j % 4 - 1, w as int),
                    band as int,
                    w as int,
                    bands as int,
                ) && taps@[j] < len,
        decreases 16 - k,
    {
        let y: usize = clamp_index(iy + k / 4 - 1, h);
        let x: usize = clamp_index(ix + k % 4 - 1, w);
        taps.push(sample_index(y, x, band, w, h, bands, len));
        k += 1;
    }
    taps
}

/// A sample that goes into a weighted sum: its distance from the point in rows and in
/// columns, and its place.
#[derive(Debug, Clone, Copy, PartialEq, Eq, Structural)]
pub struct Tap {
    pub dy: i64,
    pub dx: i64,
    pub place: usize,
}

/// The offset number `k` of the six by six around a point, row by row.
pub open spec fn window_offset(k: int) -> (int, int) {
    (k / 6 - 2, k % 6 - 2)
}

/// The first `n` offsets of the six by six around a point that lie in the grid.
pub open spec fn window_offsets(cx: int, cy: int, w: int, h: int, n: nat) -> Seq<(int, int)> {
    Seq::new(n, |k: int| window_offset(k)).filter(
        |d: (int, int)| 0 <= cy + d.0 < h && 0 <= cx + d.1 < w,
    )
}

/// The samples of the six by six around a point whose upper left neighbour is in row `cy`
/// and column `cx`, row by row. What lies outside of the grid is left out.
pub fn lanczos_taps(
    cx: i64,
    cy: i64,
    w: usize,
    h: usize,
    bands: usize,
    band: usize,
    len: usize,
) -> (taps: Vec<Tap>)
    requires
        0 <= cx < w,
        0 <= cy < h,
        w <= i64::MAX - 4,
        h <= i64::MAX - 4,
        band < bands,
        h * w * bands <= len,
    ensures
        taps@.map_values(|t: Tap| (t.dy as int, t.dx as int)) == window_offsets(
            cx as int,
            cy as int,
            w as int,
            h as int,
            36,
        ),
        forall|i: int|
            0 <= i < taps@.len() ==> (#[trigger] taps@[i]).place == raster_load::cell(
                cy + taps@[i].dy,
                cx + taps@[i].dx,
                band as int,
                w as int,
                bands as int,
            ) && taps@[i].place < len,
{
    let mut taps: Vec<Tap> = Vec::new();
    let mut k: i64 = 0;
    let ghost inside = |d: (int, int)| 0 <= cy + d.0 < h && 0 <= cx + d.1 < w;
    proof {
        reveal(Seq::filter);
        assert(Seq::new(0, |i: int| window_offset(i)) =~= Seq::empty());
        assert(taps@.map_values(|t: Tap| (t.dy as int, t.dx as int)) =~= window_offsets(
            cx as int,
            cy as int,
            w as int,
            h as int,
            0,
        ));
    }
    while k < 36
        invariant
            0 <= k <= 36,
            0 <= cx < w,
            0 <= cy < h,
            w <= i64::MAX - 4,
            h <= i64::MAX - 4,
            band < bands,
            h * w * bands <= len,
            taps@.map_values(|t: Tap| (t.dy as int, t.dx as int)) == window_offsets(
                cx as int,
                cy as int,
                w as int,
                h as int,
                k as nat,
            ),
            forall|i: int|
                0 <= i < taps@.len() ==> (#[trigger] taps@[i]).place == raster_load::cell(
                    cy + taps@[i].dy,
                    cx + taps@[i].dx,
                    band as int,
                    w as int,
                    bands as int,
                ) && taps@[i].place < len,
        decreases 36 - k,
    {
        let dy: i64 = k / 6 - 2;
        let dx: i64 = k % 6 - 2;
        let py: i64 = cy + dy;
        let px: i64 = cx + dx;
        let ghost prior = taps@;
        proof {
            reveal(Seq::filter);
            let all = Seq::new((k + 1) as nat, |i: int| window_offset(i));
            assert(all.drop_last() =~= Seq::new(k as nat, |i: int| window_offset(i)));
            assert(all.last() == (dy as int, dx as int));
        }
        if 0 <= py && py < h as i64 && 0 <= px && px < w as i64 {
            let place: usize = sample_index(py as usize, px as usize, band, w, h, bands, len);
            let tap: Tap = Tap { dy, dx, place };
            taps.push(tap);
            assert(taps@.map_values(|t: Tap| (t.dy as int, t.dx as int)) =~= prior.map_values(
                |t: Tap| (t.dy as int, t.dx as int),
            ).push((dy as int, dx as int)));
        }
        k += 1;
    }
    taps
}

// ─── What holds of modes and samples ───

/// The names of the resampling modes, in small letters. A name that is none of these is the
/// nearest neighbour.
pub proof fn law_names_of_modes(s: &str, mode: ResamplingMode)
    requires
        call_ensures(ResamplingMode::from_str, (s,), mode),
    ensures
        mode is Bilinear <==> crate::text::lowered(s@) == "bilinear"@,
        mode is Bicubic <==> crate::text::lowered(s@) == "bicubic"@,
        mode is Lanczos3 <==> crate::text::lowered(s@) == "lanczos"@ || crate::text::lowered(s@)
            == "lanczos3"@,
{
    reveal_strlit("bilinear");
    reveal_strlit("bicubic");
    reveal_strlit("lanczos");
    reveal_strlit("lanczos3");
    assert("bilinear"@[2] == 'l' && "bicubic"@[2] == 'c' && "lanczos"@[2] == 'n'
        && "lanczos3"@[2] == 'n');
}

/// The numbers of the resampling modes.
pub proof fn law_numbers_of_modes(mode: ResamplingMode, n: u8)
    requires
        call_ensures(ResamplingMode::code, (mode,), n),
    ensures
        mode is NearestNeighbor <==> n == 0,
        mode is Bilinear <==> n == 1,
        mode is Bicubic <==> n == 2,
        mode is Lanczos3 <==> n == 3,
{
}

/// The names of the methods of stretching, in small letters. A name that is none of these is
/// the full range.
pub proof fn law_names_of_stretches(s: &str, method: StretchMethod)
    requires
        call_ensures(StretchMethod::from_str, (s,), method),
    ensures
        method is Percentile <==> crate::text::lowered(s@) == "percentile"@,
        method is StdDev <==> crate::text::lowered(s@) == "stddev"@ || crate::text::lowered(s@)
            == "standard-deviation"@,
{
    reveal_strlit("percentile");
    reveal_strlit("stddev");
    reveal_strlit("standard-deviation");
    assert("percentile"@[0] == 'p' && "stddev"@[0] == 's' && "standard-deviation"@[0] == 's');
}

/// Each band is stretched over its own range: from its least to its greatest sample, unless
/// percentiles or deviations are asked for; between its percentiles where they are known; or
/// around its own mean by its own deviation.
pub proof fn law_bands_are_stretched_by_their_own<F: Copy, G: Fn(F, F, Option<F>) -> (F, F)>(
    stats: &BandStats<F>,
    bands: usize,
    stretch: Option<&StretchConfig<F>>,
    spread: G,
    bounds: Vec<(F, F)>,
    b: int,
)
    requires
        call_ensures(compute_stretch_bounds::<F, G>, (stats, bands, stretch, spread), bounds),
        0 <= b < bands,
        stats.covers(bands as int),
    ensures
        stretch is None || stretch->Some_0.method is MinMax ==> bounds@.len() == bands && bounds@[b].0
            == stats.min_values@[b] && bounds@[b].1 == stats.max_values@[b],
        stretch is Some && stretch->Some_0.method is Percentile && stats.percentile_bounds is None
            ==> bounds@.len() == bands && bounds@[b].0 == stats.min_values@[b] && bounds@[b].1
            == stats.max_values@[b],
        stretch is Some && stretch->Some_0.method is Percentile && stats.percentile_bounds is Some
            ==> bounds@ == stats.percentile_bounds->Some_0@,
        stretch is Some && stretch->Some_0.method is StdDev ==> bounds@.len() == bands
            && spread.ensures(
            (stats.mean_values@[b], stats.std_dev_values@[b], stretch->Some_0.std_dev_factor),
            bounds@[b],
        ),
{
}

/// The four samples around a point are those of its pixel, of the next column, of the next
/// row, and of both; at an edge the last column or row takes the place of the next.
pub proof fn law_four_samples(
    x0: usize,
    y0: usize,
    w: usize,
    h: usize,
    bands: usize,
    band: usize,
    len: usize,
    taps: (usize, usize, usize, usize),
    x1: int,
    y1: int,
)
    requires
        call_ensures(bilinear_taps, (x0, y0, w, h, bands, band, len), taps),
        x0 < w,
        y0 < h,
        x1 == x0 + 1 || (x0 == w - 1 && x1 == x0),
        x1 < w,
        y1 == y0 + 1 || (y0 == h - 1 && y1 == y0),
        y1 < h,
    ensures
        taps.0 == (y0 * w + x0) * bands + band,
        taps.1 == (y0 * w + x1) * bands + band,
        taps.2 == (y1 * w + x0) * bands + band,
        taps.3 == (y1 * w + x1) * bands + band,
{
}

/// The sixteen samples around a point are those from one row before to two behind, each row
/// from one column before to two behind; what lies outside is replaced by the nearest row or
/// column.
pub proof fn law_sixteen_samples(
    ix: i64,
    iy: i64,
    w: usize,
    h: usize,
    bands: usize,
    band: usize,
    len: usize,
    taps: Vec<usize>,
    dy: int,
    dx: int,
)
    requires
        call_ensures(bicubic_taps, (ix, iy, w, h, bands, band, len), taps),
        0 <= ix < w,
        0 <= iy < h,
        -1 <= dy <= 2,
        -1 <= dx <= 2,
    ensures
        taps@.len() == 16,
        exists|y: int, x: int|
            #![trigger raster_load::cell(y, x, band as int, w as int, bands as int)]
            {
                &&& 0 <= y < h
                &&& 0 <= x < w
                &&& y == iy + dy || (iy + dy < 0 && y == 0) || (iy + dy >= h && y == h - 1)
                &&& x == ix + dx || (ix + dx < 0 && x == 0) || (ix + dx >= w && x == w - 1)
                &&& taps@[4 * (dy + 1) + dx + 1] == (y * w + x) * bands + band
            },
{
    let k = 4 * (dy + 1) + dx + 1;
    assert(k / 4 == dy + 1 && k % 4 == dx + 1);
    let (y, x) = (clamped(iy + dy, h as int), clamped(ix + dx, w as int));
    assert(taps@[k] == raster_load::cell(y, x, band as int, w as int, bands as int));
}

/// The samples of the six by six around a point are those of all rows and columns from two
/// before to three behind that lie in the grid, each with its distance.
pub proof fn law_window_samples(
    cx: i64,
    cy: i64,
    w: usize,
    h: usize,
    bands: usize,
    band: usize,
    len: usize,
    taps: Vec<Tap>,
)
    requires
        call_ensures(lanczos_taps, (cx, cy, w, h, bands, band, len), taps),
    ensures
        forall|i: int|
            0 <= i < taps@.len() ==> {
                let t = #[trigger] taps@[i];
                &&& -2 <= t.dy <= 3
                &&& -2 <= t.dx <= 3
                &&& 0 <= cy + t.dy < h
                &&& 0 <= cx + t.dx < w
                &&& t.place == ((cy + t.dy) * w + (cx + t.dx)) * bands + band
            },
        forall|dy: int, dx: int|
            -2 <= dy <= 3 && -2 <= dx <= 3 && 0 <= cy + dy < h && 0 <= cx + dx < w
                ==> #[trigger] has_tap(taps@, dy, dx),
{
    let all = Seq::new(36, |k: int| window_offset(k));
    let inside = |d: (int, int)| 0 <= cy + d.0 < h && 0 <= cx + d.1 < w;
    let kept = all.filter(inside);
    all.filter_lemma(inside);
    let pairs = taps@.map_values(|t: Tap| (t.dy as int, t.dx as int));
    assert(pairs == kept);
    assert forall|i: int| 0 <= i < taps@.len() implies {
        let t = #[trigger] taps@[i];
        &&& -2 <= t.dy <= 3
        &&& -2 <= t.dx <= 3
        &&& 0 <= cy + t.dy < h
        &&& 0 <= cx + t.dx < w
        &&& t.place == ((cy + t.dy) * w + (cx + t.dx)) * bands + band
    } by {
        assert(pairs[i] == (taps@[i].dy as int, taps@[i].dx as int));
        assert(inside(kept[i]));
        assert(all.contains(kept[i])) by {
            all.lemma_filter_contains_rev(inside, kept[i]);
        }
        let k = choose|k: int| 0 <= k < all.len() && all[k] == kept[i];
        assert(kept[i] == window_offset(k));
    }
    assert forall|dy: int, dx: int|
        -2 <= dy <= 3 && -2 <= dx <= 3 && 0 <= cy + dy < h && 0 <= cx + dx < w implies
        #[trigger] has_tap(taps@, dy, dx) by {
        let k = 6 * (dy + 2) + dx + 2;
        assert(k / 6 == dy + 2 && k % 6 == dx + 2);
        assert(all[k] == (dy, dx));
        assert(inside(all[k]));
        assert(kept.contains(all[k]));
        let i = choose|i: int| 0 <= i < kept.len() && kept[i] == all[k];
        assert(pairs[i] == (dy, dx));
        assert(taps@[i].dy == dy && taps@[i].dx == dx);
    }
}

/// A sample with a distance in rows and in columns is among some.
pub open spec fn has_tap(taps: Seq<Tap>, dy: int, dx: int) -> bool {
    exists|i: int| 0 <= i < taps.len() && (#[trigger] taps[i]).dy == dy && taps[i].dx == dx
}

} // verus!
