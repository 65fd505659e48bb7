//! Rendering with the graphics processor: what it is told, and what it gives back.

use crate::numbers::decimal_text;
use crate::resample::ResamplingMode;
use crate::text::concat3;
use vstd::prelude::*;

verus! {

/// A tile that was rendered.
#[derive(Debug, Clone)]
pub struct TileRenderResult {
    pub rgba: Vec<u8>,
    pub rendered_pixels: u32,
}

/// Tells whether there is a renderer.
pub fn is_gpu_available<R>(renderer: &Option<R>) -> (r: bool)
    ensures
        r == (renderer is Some),
{
    match renderer {
        Some(_r) => true,
        None => false,
    }
}

/// The bytes of a sample on the graphics processor.
pub const SAMPLE_BYTES: usize = 4;

/// The samples of a tile fit in the memory that is set apart for them.
pub fn check_source_size(samples: usize, max_src_size: u64) -> (r: Result<(), String>)
    requires
        samples * SAMPLE_BYTES <= usize::MAX,
    ensures
        r is Ok <==> samples * SAMPLE_BYTES <= max_src_size,
        r is Err ==> r->Err_0@ == "Source data too large for GPU buffer: "@
            + crate::numbers::decimal((samples * SAMPLE_BYTES) as nat) + " bytes, max is "@
            + crate::numbers::decimal(max_src_size as nat) + " bytes"@,
{
    let needed: u64 = (samples * SAMPLE_BYTES) as u64;
    if needed > max_src_size {
        let have: String = decimal_text(needed);
        let most: String = decimal_text(max_src_size);
        let mut text: String = concat3(
            "Source data too large for GPU buffer: ",
            have.as_str(),
            " bytes, max is ",
        );
        text.append(most.as_str());
        text.append(" bytes");
        return Err(text);
    }
    Ok(())
}

/// A band for a colour: the one at a place of the list, or the first.
pub open spec fn band_at(indices: Seq<usize>, i: int) -> u32 {
    if i < indices.len() {
        indices[i] as u32
    } else {
        0
    }
}

/// The bands for red, green and blue.
pub fn shader_bands(indices: &[usize]) -> (b: (u32, u32, u32))
    requires
        forall|i: int| 0 <= i < indices@.len() ==> (#[trigger] indices@[i]) <= u32::MAX,
    ensures
        b == (band_at(indices@, 0), band_at(indices@, 1), band_at(indices@, 2)),
{
    let n: usize = indices.len();
    let r: u32 = if n > 0 {
        indices[0] as u32
    } else {
        0
    };
    let g: u32 = if n > 1 {
        indices[1] as u32
    } else {
        0
    };
    let b: u32 = if n > 2 {
        indices[2] as u32
    } else {
        0
    };
    (r, g, b)
}

/// The number of a resampling mode on the graphics processor, which has no mode of its
/// own for the widest one and takes the linear one in its place.
pub fn shader_resampling(mode: ResamplingMode) -> (n: u32)
    ensures
        n == (match mode {
            ResamplingMode::NearestNeighbor => 0u32,
            ResamplingMode::Bilinear => 1,
            ResamplingMode::Bicubic => 2,
            ResamplingMode::Lanczos3 => 1,
        }),
{
    match mode {
        ResamplingMode::NearestNeighbor => 0,
        ResamplingMode::Bilinear => 1,
        ResamplingMode::Bicubic => 2,
        ResamplingMode::Lanczos3 => 1,
    }
}

/// The number of pixels that are not clear, of the first `n`.
pub open spec fn opaque_of(rgba: Seq<u8>, n: nat) -> nat
    decreases n,
{
    if n == 0 {
        0
    } else {
        opaque_of(rgba, (n - 1) as nat) + (if rgba[4 * (n - 1) + 3] > 0 {
            1nat
        } else {
            0nat
        })
    }
}

/// The number of pixels of a picture that are not clear.
pub fn rendered_pixels(rgba: &[u8]) -> (count: u32)
    requires
        rgba@.len() % 4 == 0,
        rgba@.len() / 4 <= u32::MAX,
    ensures
        count == opaque_of(rgba@, (rgba@.len() / 4) as nat),
{
    let len: usize = rgba.len();
    let n: usize = len / 4;
    let mut count: u32 = 0;
    for i in 0..n
        invariant
            len == rgba@.len(),
            n == len / 4,
            n <= u32::MAX,
            count <= i,
            count == opaque_of(rgba@, i as nat),
    {
        if rgba[4 * i + 3] > 0 {
            count += 1;
        }
    }
    count
}

/// A size, rounded up to a multiple of an alignment.
pub fn aligned(size: u64, alignment: u64) -> (r: u64)
    requires
        alignment >= 1,
        size + alignment <= u64::MAX,
    ensures
        r == crate::tile::raster_load::ceil_div(size as int, alignment as int) * alignment,
        size <= r < size + alignment,
        r % alignment == 0,
{
    let k: u64 = (size + alignment - 1) / alignment;
    proof {
        vstd::arithmetic::div_mod::lemma_fundamental_div_mod(
            size + alignment - 1,
            alignment as int,
        );
        vstd::arithmetic::div_mod::lemma_mod_bound(size + alignment - 1, alignment as int);
        assert(alignment * k == k * alignment) by (nonlinear_arith);
        vstd::arithmetic::div_mod::lemma_mod_multiples_basic(k as int, alignment as int);
    }
    k * alignment
}

/// The first three bands that are listed are red, green and blue, in this order. Where fewer
/// are listed, the first band of the file takes the place of the others.
pub proof fn law_bands_of_the_shader(indices: &[usize], b: (u32, u32, u32))
    requires
        call_ensures(shader_bands, (indices,), b),
        forall|i: int| 0 <= i < indices@.len() ==> (#[trigger] indices@[i]) <= u32::MAX,
    ensures
        indices@.len() > 0 ==> b.0 == indices@[0],
        indices@.len() > 1 ==> b.1 == indices@[1],
        indices@.len() > 2 ==> b.2 == indices@[2],
        indices@.len() == 0 ==> b.0 == 0,
        indices@.len() <= 1 ==> b.1 == 0,
        indices@.len() <= 2 ==> b.2 == 0,
{
}

proof fn lemma_opaque_of(a: Seq<u8>, b: Seq<u8>, n: nat)
    requires
        4 * n <= a.len(),
        a.len() <= b.len(),
        forall|i: int| 0 <= i < a.len() ==> #[trigger] a[i] == b[i],
    ensures
        opaque_of(a, n) == opaque_of(b, n),
    decreases n,
{
    if n > 0 {
        lemma_opaque_of(a, b, (n - 1) as nat);
        assert(a[4 * (n - 1) + 3] == b[4 * (n - 1) + 3]);
    }
}

/// A pixel more is counted where its fourth byte is not zero, and a picture without pixels
/// counts none.
pub proof fn law_pixels_are_counted(
    rgba: &[u8],
    count: u32,
    more: &[u8],
    next: u32,
    pixel: Seq<u8>,
)
    requires
        call_ensures(rendered_pixels, (rgba,), count),
        call_ensures(rendered_pixels, (more,), next),
        rgba@.len() % 4 == 0,
        pixel.len() == 4,
        more@ == rgba@ + pixel,
    ensures
        rgba@.len() == 0 ==> count == 0,
        next == count + (if pixel[3] == 0 {
            0int
        } else {
            1int
        }),
{
    let n = (rgba@.len() / 4) as nat;
    assert(more@.len() / 4 == n + 1);
    assert(more@[(4 * n + 3) as int] == pixel[3]);
    lemma_opaque_of(rgba@, more@, n);
}

/// A sample has four bytes.
pub proof fn law_bytes_of_samples(samples: usize, max_src_size: u64, r: Result<(), String>)
    requires
        call_ensures(check_source_size, (samples, max_src_size), r),
    ensures
        r is Ok <==> 4 * samples <= max_src_size,
{
}

} // verus!
