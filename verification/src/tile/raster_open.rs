//! Opening a raster: what its file says of it, and what is told while it is read.

use crate::reproject;
use crate::reproject::{all_corners, extent_corners, GeoKeyInfo};
use crate::resample::BandStats;
use crate::tile::raster_cache;
use crate::tile::raster_cache::{
    all_ifds, band_count, base_ifd, cap_zoom, chunks_per_row, crs_type_text,
    interleave_from_planar, native_corners, sub_ifds, BandBounds, BandRange,
    StatsReader,
};
use crate::tile::types::{
    CachedRaster, ChunkType, IfdInfo, InterleaveType, RasterFileInfo, RasterLoadProgress,
};
use vstd::prelude::*;

verus! {

// ─── What a file says ───

/// What stands in the file of a raster. `F` is the type of samples and coordinates.
pub struct RasterProbe<F> {
    pub width: u32,
    pub height: u32,
    /// The name of the kind of samples, where the file has a known one.
    pub colour: Option<String>,
    pub no_data: Option<F>,
    pub chunk_type: ChunkType,
    pub chunk_width: u32,
    pub chunk_length: u32,
    /// The number of chunks, where they can be counted.
    pub chunk_count: Option<u32>,
    /// How the file says that the bands lie.
    pub planar: Option<u16>,
    /// The number of bands that the file names.
    pub samples_per_pixel: Option<u16>,
    /// The number of samples of the first chunk, its width and its height. They count
    /// only where the file names no number of bands.
    pub first_chunk: (usize, u32, u32),
    pub model_type: Option<u16>,
}

impl<F> RasterProbe<F> {
    /// No number on the way leaves its range.
    pub open spec fn sound(self) -> bool {
        &&& self.chunk_type is Tile ==> self.chunk_width >= 1 && self.width + self.chunk_width
            <= u32::MAX
        &&& self.samples_per_pixel is None ==> self.first_chunk.1 * self.first_chunk.2 <= u32::MAX
    }
}

/// Where a raster lies.
pub struct GeoProbe<F> {
    pub transform: [F; 6],
    /// The extent in degrees, where it is known.
    pub extent: Option<[F; 4]>,
    /// The extent in the units of the transform.
    pub plain_extent: [F; 4],
    /// The corners in the units of the transform.
    pub plain_corners: [(F, F); 4],
    /// The zoom level that the resolution asks for.
    pub zoom: Option<u32>,
}

/// The corners that `convert` gives, or `plain` where one cannot be converted.
pub open spec fn is_native<F, C: Fn(F, F) -> Option<(F, F)>>(
    degrees: Seq<(F, F)>,
    plain: [(F, F); 4],
    convert: C,
    corners: [(F, F); 4],
) -> bool {
    exists|found: Seq<Option<(F, F)>>|
        #![trigger each_native(degrees, convert, found)]
        each_native(degrees, convert, found) && if found[0] is Some && found[1] is Some && found[2]
            is Some && found[3] is Some {
            forall|i: int| 0 <= i < 4 ==> Some(#[trigger] corners@[i]) == found[i]
        } else {
            corners == plain
        }
}

/// `found` is what `convert` gives for each corner.
pub open spec fn each_native<F, C: Fn(F, F) -> Option<(F, F)>>(
    degrees: Seq<(F, F)>,
    convert: C,
    found: Seq<Option<(F, F)>>,
) -> bool {
    &&& found.len() == degrees.len()
    &&& forall|i: int|
        0 <= i < found.len() ==> convert.ensures(
            (degrees[i].0, degrees[i].1),
            #[trigger] found[i],
        )
}

/// What is told of a raster from its file and its position. `convert` gives the
/// coordinates of the raster for degrees.
pub open spec fn is_file_info<F, C: Fn(F, F) -> Option<(F, F)>>(
    probe: RasterProbe<F>,
    geo: GeoProbe<F>,
    convert: C,
    info: RasterFileInfo<F>,
) -> bool {
    &&& info.width == probe.width
    &&& info.height == probe.height
    &&& info.bands == raster_cache::bands_of(
        probe.samples_per_pixel,
        probe.first_chunk.0 as int,
        probe.first_chunk.1 as int,
        probe.first_chunk.2 as int,
    )
    &&& info.data_type@ == (match probe.colour {
        Some(name) => name@,
        None => "Unknown"@,
    })
    &&& info.no_data == probe.no_data
    &&& info.interleave == raster_cache::interleave_of(probe.planar)
    &&& info.chunk_count == (match probe.chunk_count {
        Some(n) => n,
        None => 1,
    })
    &&& info.chunk_type == probe.chunk_type
    &&& info.chunk_width == probe.chunk_width
    &&& info.chunk_length == probe.chunk_length
    &&& info.chunks_per_row == raster_cache::row_chunks(
        probe.chunk_type,
        probe.width,
        probe.chunk_width,
    )
    &&& info.geo_transform == geo.transform
    &&& info.crs_type@ == raster_cache::crs_kind(probe.model_type)
    &&& info.extent_wgs84 == geo.extent
    &&& info.max_zoom == raster_cache::capped_zoom(geo.zoom)
    &&& info.wgs84_corners@ == reproject::corners_of(
        match geo.extent {
            Some(e) => e@,
            None => geo.plain_extent@,
        },
    )
    &&& if probe.model_type == Some(1u16) {
        is_native(info.wgs84_corners@, geo.plain_corners, convert, info.native_corners)
    } else {
        info.native_corners == info.wgs84_corners
    }
}

/// Tells of a raster what its file and its position say.
pub fn open_raster_metadata<F: Copy, C: Fn(F, F) -> Option<(F, F)>>(
    probe: RasterProbe<F>,
    geo: &GeoProbe<F>,
    convert: C,
) -> (info: RasterFileInfo<F>)
    requires
        probe.sound(),
        forall|x: F, y: F| convert.requires((x, y)),
    ensures
        is_file_info(probe, *geo, convert, info),
{
    let crs_type: String = crs_type_text(probe.model_type);
    let extent: [F; 4] = match geo.extent {
        Some(e) => e,
        None => geo.plain_extent,
    };
    let degrees: [(F, F); 4] = extent_corners(&extent);
    let projected: bool = match probe.model_type {
        Some(t) => t == 1,
        None => false,
    };
    let ghost mut given: Seq<Option<(F, F)>> = Seq::empty();
    let converted: Option<[(F, F); 4]> = if projected {
        let found: [Option<(F, F)>; 4] = [
            convert(degrees[0].0, degrees[0].1),
            convert(degrees[1].0, degrees[1].1),
            convert(degrees[2].0, degrees[2].1),
            convert(degrees[3].0, degrees[3].1),
        ];
        proof {
            given = found@;
        }
        all_corners(&found)
    } else {
        None
    };
    let native: [(F, F); 4] = native_corners(
        crs_type.as_str(),
        degrees,
        converted,
        geo.plain_corners,
    );
    proof {
        reveal_strlit("Geographic");
        reveal_strlit("Projected");
        reveal_strlit("Unknown");
        assert("Projected"@.len() != "Geographic"@.len());
        assert("Projected"@.len() != "Unknown"@.len());
        if projected {
            assert(each_native(degrees@, convert, given));
            assert(is_native(degrees@, geo.plain_corners, convert, native));
        }
    }
    let chunk_count: u32 = match probe.chunk_count {
        Some(n) => n,
        None => 1,
    };
    let bands: usize = band_count(
        probe.samples_per_pixel,
        probe.first_chunk.0,
        probe.first_chunk.1,
        probe.first_chunk.2,
    );
    let row: u32 = chunks_per_row(probe.chunk_type, probe.width, probe.chunk_width);
    let data_type: String = match probe.colour {
        Some(name) => name,
        None => "Unknown".to_owned(),
    };
    RasterFileInfo {
        width: probe.width,
        height: probe.height,
        bands,
        data_type,
        no_data: probe.no_data,
        interleave: interleave_from_planar(probe.planar),
        chunk_count,
        chunk_type: probe.chunk_type,
        chunk_width: probe.chunk_width,
        chunk_length: probe.chunk_length,
        chunks_per_row: row,
        geo_transform: geo.transform,
        crs_type,
        extent_wgs84: geo.extent,
        max_zoom: cap_zoom(geo.zoom),
        wgs84_corners: degrees,
        native_corners: native,
    }
}

// ─── Reading ───

/// The word for how bands lie in a file.
pub open spec fn interleave_word(interleave: InterleaveType) -> Seq<char> {
    match interleave {
        InterleaveType::Chunky => "Chunky"@,
        InterleaveType::Planar => "Planar"@,
    }
}

/// It is told that the file of a raster was opened.
pub open spec fn tells_opened<F>(p: RasterLoadProgress<F>, info: RasterFileInfo<F>) -> bool {
    match p {
        RasterLoadProgress::FileOpened {
            width,
            height,
            bands,
            data_type,
            no_data,
            interleave,
            chunk_count,
        } => {
            &&& width == info.width
            &&& height == info.height
            &&& bands == info.bands
            &&& data_type@ == info.data_type@
            &&& no_data == info.no_data
            &&& interleave@ == interleave_word(info.interleave)
            &&& chunk_count == info.chunk_count
        },
        _ => false,
    }
}

/// It is told where a raster lies.
pub open spec fn tells_position<F>(p: RasterLoadProgress<F>, info: RasterFileInfo<F>) -> bool {
    match p {
        RasterLoadProgress::GeoInfoReady {
            crs_type,
            geo_transform,
            extent_wgs84,
            max_zoom,
            wgs84_corners,
            native_corners,
        } => {
            &&& crs_type@ == info.crs_type@
            &&& geo_transform == info.geo_transform
            &&& extent_wgs84 == info.extent_wgs84
            &&& max_zoom == info.max_zoom
            &&& wgs84_corners == info.wgs84_corners
            &&& native_corners == info.native_corners
        },
        _ => false,
    }
}

/// The statistics of a raster are told.
pub open spec fn tells_stats<F>(p: RasterLoadProgress<F>, stats: BandStats<F>) -> bool {
    match p {
        RasterLoadProgress::StatsComplete {
            min_values,
            max_values,
            mean_values,
            std_dev_values,
            percentile_bounds,
        } => {
            &&& min_values@ == stats.min_values@
            &&& max_values@ == stats.max_values@
            &&& mean_values@ == stats.mean_values@
            &&& std_dev_values@ == stats.std_dev_values@
            &&& stats.percentile_bounds is Some
            &&& percentile_bounds@ == stats.percentile_bounds->Some_0@
        },
        _ => false,
    }
}

fn copy_of<F: Copy>(v: &Vec<F>) -> (r: Vec<F>)
    ensures
        r@ == v@,
{
    let mut r: Vec<F> = Vec::new();
    for i in 0..v.len()
        invariant
            r@ == v@.take(i as int),
    {
        r.push(v[i]);
        assert(v@.take(i + 1) =~= v@.take(i as int).push(v@[i as int]));
    }
    assert(v@.take(v@.len() as int) =~= v@);
    r
}

/// A raster that is being read: what its file says, the ranges of the chunks that were
/// read, and what came of them.
pub struct RasterLoader<F> {
    pub path: String,
    pub info: RasterFileInfo<F>,
    pub geo_key: GeoKeyInfo,
    pub reader: StatsReader,
    /// The statistics, once the chunks were read.
    pub stats: Option<BandStats<F>>,
    /// The images in the file, once they were found.
    pub images: Vec<IfdInfo>,
}

/// The statistics of a band, from its bounds: `from_bits` gives a number for its bits.
pub open spec fn is_band_stats<F, G: Fn(u64) -> F>(
    stats: BandStats<F>,
    b: int,
    bounds: BandBounds,
    from_bits: G,
) -> bool {
    &&& from_bits.ensures((bounds.min,), stats.min_values@[b])
    &&& from_bits.ensures((bounds.max,), stats.max_values@[b])
    &&& from_bits.ensures((bounds.low,), stats.percentile_bounds->Some_0@[b].0)
    &&& from_bits.ensures((bounds.high,), stats.percentile_bounds->Some_0@[b].1)
}

/// The statistics of a band are those of its range.
pub open spec fn has_band_stats<F, G: Fn(u64) -> F>(
    range: BandRange,
    stats: BandStats<F>,
    b: int,
    from_bits: G,
) -> bool {
    exists|bounds: BandBounds| #[trigger]
        raster_cache::is_bounds(range, bounds) && is_band_stats(stats, b, bounds, from_bits)
}

/// The statistics of a raster: those of the ranges of its bands, and the given means and
/// deviations.
pub open spec fn is_stats_of<F, G: Fn(u64) -> F>(
    reader: StatsReader,
    means: Seq<F>,
    deviations: Seq<F>,
    from_bits: G,
    stats: BandStats<F>,
) -> bool {
    &&& stats.covers(reader.bands as int)
    &&& stats.min_values@.len() == reader.bands
    &&& stats.max_values@.len() == reader.bands
    &&& stats.mean_values@ == means
    &&& stats.std_dev_values@ == deviations
    &&& stats.percentile_bounds is Some
    &&& stats.percentile_bounds->Some_0@.len() == reader.bands
    &&& forall|b: int|
        0 <= b < reader.bands ==> #[trigger] has_band_stats(
            reader.ranges@[b],
            stats,
            b,
            from_bits,
        )
}

/// The full image of a raster and the smaller ones in its file.
pub open spec fn is_images<F>(
    path: Seq<char>,
    info: RasterFileInfo<F>,
    sizes: Seq<Option<(u32, u32)>>,
    images: Seq<IfdInfo>,
) -> bool {
    let known = raster_cache::known_sizes(sizes);
    &&& images.len() == known.len() + 1
    &&& is_full_image(path, info, images[0])
    &&& forall|i: int|
        1 <= i < images.len() ==> raster_cache::is_sub_ifd(
            images[0],
            #[trigger] images[i],
            known[i - 1],
            i,
        )
}

/// A raster is the one that was read: everything but its images and its overview file is
/// what the loader holds.
pub open spec fn is_loaded<F>(loader: RasterLoader<F>, raster: CachedRaster<F>) -> bool {
    &&& raster.file_path == loader.path
    &&& raster.width == loader.info.width
    &&& raster.height == loader.info.height
    &&& raster.bands == loader.info.bands
    &&& raster.geo_transform == loader.info.geo_transform
    &&& raster.no_data == loader.info.no_data
    &&& loader.stats == Some(raster.stats)
    &&& raster.crs_type == loader.info.crs_type
    &&& raster.data_type == loader.info.data_type
    &&& raster.geo_key == loader.geo_key
    &&& raster.wgs84_corners == loader.info.wgs84_corners
    &&& raster.native_corners == loader.info.native_corners
    &&& raster.max_zoom == loader.info.max_zoom
}

/// A description is that of the full image of a raster.
pub open spec fn is_full_image<F>(path: Seq<char>, info: RasterFileInfo<F>, ifd: IfdInfo) -> bool {
    raster_cache::is_base_ifd(
        ifd,
        path,
        info.width,
        info.height,
        info.chunk_type,
        info.chunk_width,
        info.chunk_length,
        info.interleave,
    )
}

impl<F> RasterLoader<F> {
    /// Statistics come after the last chunk, and the first image is the full one.
    pub open spec fn wf(self) -> bool {
        &&& self.stats is Some ==> self.reader.next_visits() is None
        &&& self.images@.len() > 0 ==> is_full_image(self.path@, self.info, self.images@[0])
        &&& self.reader.wf()
        &&& self.reader.chunks == self.info.chunk_count
        &&& self.reader.bands == self.info.bands
        &&& self.info.chunk_type is Tile ==> self.info.chunk_width >= 1 && self.info.width
            + self.info.chunk_width <= u32::MAX
    }
}

impl<F: Copy> RasterLoader<F> {
    /// Starts to read a raster, where `no_data` are the bits of the sample that stands for
    /// no value, and tells what its file says and where it lies.
    pub fn new(
        path: &str,
        info: RasterFileInfo<F>,
        geo_key: GeoKeyInfo,
        no_data: Option<u64>,
    ) -> (r: (Self, Vec<RasterLoadProgress<F>>))
        requires
            info.interleave is Planar ==> 1 <= info.bands && (info.chunk_count == 0 || info.bands
                <= info.chunk_count),
            info.chunk_type is Tile ==> info.chunk_width >= 1 && info.width + info.chunk_width
                <= u32::MAX,
        ensures
            r.0.wf(),
            r.0.path@ == path@,
            r.0.info == info,
            r.0.geo_key == geo_key,
            r.0.reader.fresh(),
            r.0.reader.no_data == no_data,
            r.0.stats is None,
            r.0.images@.len() == 0,
            info.chunk_count > 0 ==> r.0.reader.interleave == info.interleave,
            r.1@.len() == 2,
            tells_opened(r.1@[0], info),
            tells_position(r.1@[1], info),
    {
        let interleave: InterleaveType = if info.chunk_count == 0 {
            InterleaveType::Chunky
        } else {
            info.interleave
        };
        let reader: StatsReader = StatsReader::new(
            interleave,
            info.chunk_count,
            info.bands,
            no_data,
        );
        let word: String = match info.interleave {
            InterleaveType::Chunky => "Chunky".to_owned(),
            InterleaveType::Planar => "Planar".to_owned(),
        };
        let mut told: Vec<RasterLoadProgress<F>> = Vec::new();
        told.push(
            RasterLoadProgress::FileOpened {
                width: info.width,
                height: info.height,
                bands: info.bands,
                data_type: info.data_type.as_str().to_owned(),
                no_data: info.no_data,
                interleave: word,
                chunk_count: info.chunk_count,
            },
        );
        told.push(
            RasterLoadProgress::GeoInfoReady {
                crs_type: info.crs_type.as_str().to_owned(),
                geo_transform: info.geo_transform,
                extent_wgs84: info.extent_wgs84,
                max_zoom: info.max_zoom,
                wgs84_corners: info.wgs84_corners,
                native_corners: info.native_corners,
            },
        );
        let loader: Self = RasterLoader {
            path: path.to_owned(),
            info,
            geo_key,
            reader,
            stats: None,
            images: Vec::new(),
        };
        (loader, told)
    }

    /// The chunk that is to be read next, where one is missing.
    pub fn wanted(&self) -> (chunk: Option<u32>)
        requires
            self.wf(),
        ensures
            chunk == (if self.reader.next_visits() is Some {
                Some(self.reader.next)
            } else {
                None
            }),
    {
        self.reader.wanted()
    }

    /// Takes the samples of the chunk that was wanted, by their bits. Gives back the runs of
    /// samples by bands, and tells how many chunks were read.
    pub fn accept(&mut self, data: &[u64], pixels: usize) -> (r: (
        Vec<(usize, Vec<u64>)>,
        RasterLoadProgress<F>,
    ))
        requires
            old(self).wf(),
            old(self).reader.next_visits() is Some,
            forall|b: int|
                0 <= b < old(self).reader.bands ==> (#[trigger] old(self).reader.ranges@[b]).count
                    + pixels <= u64::MAX,
        ensures
            final(self).wf(),
            final(self).path == old(self).path,
            final(self).info == old(self).info,
            final(self).geo_key == old(self).geo_key,
            final(self).stats == old(self).stats,
            final(self).images == old(self).images,
            raster_cache::takes_in(
                old(self).reader,
                final(self).reader,
                data@,
                pixels as nat,
                r.0@,
            ),
            r.1 == (RasterLoadProgress::<F>::StatsProgress {
                chunks_done: final(self).reader.next,
                chunk_count: old(self).info.chunk_count,
            }),
    {
        let runs: Vec<(usize, Vec<u64>)> = self.reader.accept(data, pixels);
        let told: RasterLoadProgress<F> = RasterLoadProgress::StatsProgress {
            chunks_done: self.reader.next,
            chunk_count: self.info.chunk_count,
        };
        (runs, told)
    }

    /// Keeps the statistics of the raster, once no chunk is missing, and tells them. `means` and
    /// `deviations` are those of the bands, and `from_bits` gives a number for its bits.
    pub fn complete<G: Fn(u64) -> F>(
        &mut self,
        means: Vec<F>,
        deviations: Vec<F>,
        from_bits: G,
    ) -> (told: RasterLoadProgress<F>)
        requires
            old(self).wf(),
            old(self).reader.next_visits() is None,
            means@.len() == old(self).info.bands,
            deviations@.len() == old(self).info.bands,
            forall|v: u64| from_bits.requires((v,)),
        ensures
            final(self).wf(),
            final(self).path == old(self).path,
            final(self).info == old(self).info,
            final(self).geo_key == old(self).geo_key,
            final(self).reader == old(self).reader,
            final(self).images == old(self).images,
            final(self).stats is Some,
            is_stats_of(
                old(self).reader,
                means@,
                deviations@,
                from_bits,
                final(self).stats->Some_0,
            ),
            tells_stats(told, final(self).stats->Some_0),
    {
        let all: Vec<BandBounds> = self.reader.bounds();
        let mut mins: Vec<F> = Vec::new();
        let mut maxs: Vec<F> = Vec::new();
        let mut percentiles: Vec<(F, F)> = Vec::new();
        for b in 0..all.len()
            invariant
                forall|v: u64| from_bits.requires((v,)),
                mins@.len() == b,
                maxs@.len() == b,
                percentiles@.len() == b,
                forall|k: int|
                    0 <= k < b ==> {
                        &&& from_bits.ensures(((#[trigger] all@[k]).min,), mins@[k])
                        &&& from_bits.ensures((all@[k].max,), maxs@[k])
                        &&& from_bits.ensures((all@[k].low,), percentiles@[k].0)
                        &&& from_bits.ensures((all@[k].high,), percentiles@[k].1)
                    },
        {
            let bounds: BandBounds = all[b];
            mins.push(from_bits(bounds.min));
            maxs.push(from_bits(bounds.max));
            percentiles.push((from_bits(bounds.low), from_bits(bounds.high)));
        }
        let told: RasterLoadProgress<F> = RasterLoadProgress::StatsComplete {
            min_values: copy_of(&mins),
            max_values: copy_of(&maxs),
            mean_values: copy_of(&means),
            std_dev_values: copy_of(&deviations),
            percentile_bounds: copy_of(&percentiles),
        };
        let stats: BandStats<F> = BandStats {
            min_values: mins,
            max_values: maxs,
            mean_values: means,
            std_dev_values: deviations,
            percentile_bounds: Some(percentiles),
        };
        proof {
            assert forall|b: int| 0 <= b < self.reader.bands implies #[trigger] has_band_stats(
                self.reader.ranges@[b],
                stats,
                b,
                from_bits,
            ) by {
                assert(raster_cache::is_bounds(self.reader.ranges@[b], all@[b]));
                assert(is_band_stats(stats, b, all@[b], from_bits));
            }
        }
        self.stats = Some(stats);
        told
    }

    /// Keeps the full image of the raster and the smaller ones in its file, from their sizes.
    /// Gives back their number.
    pub fn find_images(&mut self, sizes: &Vec<Option<(u32, u32)>>) -> (n: usize)
        requires
            old(self).wf(),
            sizes@.len() < usize::MAX,
            old(self).info.chunk_type is Tile ==> forall|i: int|
                0 <= i < sizes@.len() && (#[trigger] sizes@[i]) is Some ==> sizes@[i]->Some_0.0
                    + old(self).info.chunk_width <= u32::MAX,
        ensures
            final(self).wf(),
            final(self).path == old(self).path,
            final(self).info == old(self).info,
            final(self).geo_key == old(self).geo_key,
            final(self).reader == old(self).reader,
            final(self).stats == old(self).stats,
            is_images(old(self).path@, old(self).info, sizes@, final(self).images@),
            n == final(self).images@.len(),
    {
        let base: IfdInfo = base_ifd(
            self.path.as_str(),
            self.info.width,
            self.info.height,
            self.info.chunk_type,
            self.info.chunk_width,
            self.info.chunk_length,
            self.info.interleave,
        );
        let subs: Vec<IfdInfo> = sub_ifds(&base, sizes);
        let ghost (b, s) = (base, subs@);
        let images: Vec<IfdInfo> = all_ifds(base, subs, Vec::new());
        proof {
            assert(images@ =~= seq![b] + s);
            assert forall|i: int| 1 <= i < images@.len() implies raster_cache::is_sub_ifd(
                images@[0],
                #[trigger] images@[i],
                raster_cache::known_sizes(sizes@)[i - 1],
                i,
            ) by {
                assert(images@[i] == s[i - 1]);
            }
        }
        let n: usize = images.len();
        self.images = images;
        n
    }

    /// The raster, once everything was read: its images are those in its file and then those
    /// in its overview file. Gives back also what is told last.
    pub fn finish(self, ovr_path: Option<String>, overviews: Vec<IfdInfo>) -> (r: (
        CachedRaster<F>,
        Vec<RasterLoadProgress<F>>,
    ))
        requires
            self.wf(),
            self.stats is Some,
            self.images@.len() > 0,
        ensures
            is_loaded(self, r.0),
            is_full_image(self.path@, self.info, r.0.ifds@[0]),
            r.0.ifds@ == self.images@ + overviews@,
            r.0.ovr_path == ovr_path,
            r.1@.len() == 2,
            r.1@[0] matches RasterLoadProgress::OverviewsReady { total_ifds, ovr_path: told }
                && total_ifds == self.images@.len() + overviews@.len() && crate::text::text_of(
                told,
            ) == crate::text::text_of(ovr_path),
            r.1@[1] is Ready,
    {
        let stats: BandStats<F> = self.stats.unwrap();
        let mut ifds: Vec<IfdInfo> = self.images;
        let mut overviews: Vec<IfdInfo> = overviews;
        ifds.append(&mut overviews);
        let named: Option<String> = match &ovr_path {
            Some(path) => Some(path.as_str().to_owned()),
            None => None,
        };
        let mut told: Vec<RasterLoadProgress<F>> = Vec::new();
        told.push(
            RasterLoadProgress::OverviewsReady { total_ifds: ifds.len(), ovr_path: named },
        );
        told.push(RasterLoadProgress::Ready);
        let raster: CachedRaster<F> = CachedRaster {
            file_path: self.path,
            width: self.info.width,
            height: self.info.height,
            bands: self.info.bands,
            geo_transform: self.info.geo_transform,
            no_data: self.info.no_data,
            stats,
            crs_type: self.info.crs_type,
            data_type: self.info.data_type,
            geo_key: self.geo_key,
            wgs84_corners: self.info.wgs84_corners,
            native_corners: self.info.native_corners,
            ifds,
            ovr_path,
            max_zoom: self.info.max_zoom,
        };
        (raster, told)
    }
}

/// `convert` gives the same for the same coordinates.
pub open spec fn is_function<F, C: Fn(F, F) -> Option<(F, F)>>(convert: C) -> bool {
    forall|x: F, y: F, a: Option<(F, F)>, b: Option<(F, F)>| #[trigger]
        convert.ensures((x, y), a) && #[trigger] convert.ensures((x, y), b) ==> a == b
}

proof fn lemma_native_is_unique<F, C: Fn(F, F) -> Option<(F, F)>>(
    degrees: Seq<(F, F)>,
    plain: [(F, F); 4],
    convert: C,
    a: [(F, F); 4],
    b: [(F, F); 4],
)
    requires
        degrees.len() == 4,
        is_function(convert),
        is_native(degrees, plain, convert, a),
        is_native(degrees, plain, convert, b),
    ensures
        a == b,
{
    let f = choose|found: Seq<Option<(F, F)>>|
        #![trigger each_native(degrees, convert, found)]
        each_native(degrees, convert, found) && if found[0] is Some && found[1] is Some && found[2]
            is Some && found[3] is Some {
            forall|i: int| 0 <= i < 4 ==> Some(#[trigger] a@[i]) == found[i]
        } else {
            a == plain
        };
    let g = choose|found: Seq<Option<(F, F)>>|
        #![trigger each_native(degrees, convert, found)]
        each_native(degrees, convert, found) && if found[0] is Some && found[1] is Some && found[2]
            is Some && found[3] is Some {
            forall|i: int| 0 <= i < 4 ==> Some(#[trigger] b@[i]) == found[i]
        } else {
            b == plain
        };
    assert forall|i: int| 0 <= i < 4 implies #[trigger] f[i] == g[i] by {
        assert(convert.ensures((degrees[i].0, degrees[i].1), f[i]));
        assert(convert.ensures((degrees[i].0, degrees[i].1), g[i]));
    }
    assert(f[0] == g[0] && f[1] == g[1] && f[2] == g[2] && f[3] == g[3]);
    if f[0] is Some && f[1] is Some && f[2] is Some && f[3] is Some {
        assert forall|i: int| 0 <= i < 4 implies #[trigger] a@[i] == b@[i] by {
            assert(Some(a@[i]) == f[i]);
            assert(Some(b@[i]) == g[i]);
        }
        assert(a@ =~= b@);
        assert(a =~= b);
    }
}

/// What is told of a raster without reading it is what is kept of it when it is read, and
/// what is told meanwhile, where the file and its position are the same: `info` comes from
/// opening the file, and `loader` has read it.
pub proof fn law_metadata_is_that_of_the_raster<F, C: Fn(F, F) -> Option<(F, F)>>(
    probe: RasterProbe<F>,
    geo: GeoProbe<F>,
    convert: C,
    info: RasterFileInfo<F>,
    loader: RasterLoader<F>,
    raster: CachedRaster<F>,
    opened: RasterLoadProgress<F>,
    position: RasterLoadProgress<F>,
)
    requires
        is_function(convert),
        is_file_info(probe, geo, convert, info),
        is_file_info(probe, geo, convert, loader.info),
        is_loaded(loader, raster),
        tells_opened(opened, loader.info),
        tells_position(position, loader.info),
    ensures
        info.width == raster.width,
        info.height == raster.height,
        info.bands == raster.bands,
        info.data_type@ == raster.data_type@,
        info.no_data == raster.no_data,
        info.geo_transform == raster.geo_transform,
        info.crs_type@ == raster.crs_type@,
        info.max_zoom == raster.max_zoom,
        info.max_zoom <= raster_cache::MAX_ZOOM,
        info.wgs84_corners == raster.wgs84_corners,
        info.native_corners == raster.native_corners,
        tells_opened(opened, info),
        tells_position(position, info),
{
    assert(info.wgs84_corners@ == loader.info.wgs84_corners@);
    assert(info.wgs84_corners =~= loader.info.wgs84_corners);
    if probe.model_type == Some(1u16) {
        lemma_native_is_unique(
            info.wgs84_corners@,
            geo.plain_corners,
            convert,
            info.native_corners,
            loader.info.native_corners,
        );
    }
}

/// The statistics of a band are those of samples.
pub open spec fn has_stats_of<F, G: Fn(u64) -> F>(
    samples: Seq<u64>,
    stats: BandStats<F>,
    band: int,
    from_bits: G,
) -> bool {
    exists|bounds: BandBounds| #[trigger]
        raster_cache::is_bounds_of(samples, bounds) && is_band_stats(stats, band, bounds, from_bits)
}

/// A raster that was loaded is whole: no chunk of it is missing, the statistics of each band
/// are those of all the samples of its chunks that stand for a value, and its first image is
/// the full one. `readers` are what was seen before each of `chunks` and after the last.
pub proof fn law_loaded_raster_is_whole<F, G: Fn(u64) -> F>(
    readers: Seq<StatsReader>,
    chunks: Seq<(Seq<u64>, nat)>,
    means: Seq<F>,
    deviations: Seq<F>,
    from_bits: G,
    loader: RasterLoader<F>,
    raster: CachedRaster<F>,
)
    requires
        raster_cache::is_reading(readers, chunks),
        readers.last() == loader.reader,
        loader.wf(),
        loader.images@.len() > 0,
        loader.stats is Some,
        is_stats_of(loader.reader, means, deviations, from_bits, loader.stats->Some_0),
        is_loaded(loader, raster),
        loader.images@.is_prefix_of(raster.ifds@),
    ensures
        loader.reader.next_visits() is None,
        forall|band: int|
            0 <= band < raster.bands ==> #[trigger] has_stats_of(
                raster_cache::band_samples(readers[0], chunks, band),
                raster.stats,
                band,
                from_bits,
            ),
        raster.stats.mean_values@ == means,
        raster.stats.std_dev_values@ == deviations,
        is_full_image(raster.file_path@, loader.info, raster.ifds@[0]),
        raster.ifds@[0].width == raster.width,
        raster.ifds@[0].height == raster.height,
{
    assert forall|band: int| 0 <= band < raster.bands implies #[trigger] has_stats_of(
        raster_cache::band_samples(readers[0], chunks, band),
        raster.stats,
        band,
        from_bits,
    ) by {
        raster_cache::lemma_bands_stay(readers, chunks);
        assert(has_band_stats(loader.reader.ranges@[band], raster.stats, band, from_bits));
        let bounds = choose|bounds: BandBounds| #[trigger]
            raster_cache::is_bounds(loader.reader.ranges@[band], bounds) && is_band_stats(
                raster.stats,
                band,
                bounds,
                from_bits,
            );
        raster_cache::law_bounds_are_of_all_samples(readers, chunks, band, bounds);
    }
    assert(raster.ifds@[0] == loader.images@[0]);
}

// ─── What holds of what is told ───

/// What is told of a raster is what its file says: its sizes, its bands, its samples, its
/// chunks and its transform. Its corners in degrees are the combinations of the sides of its
/// extent, where that is known, and else of the one in the units of its transform.
pub proof fn law_metadata_is_that_of_the_file<F: Copy, C: Fn(F, F) -> Option<(F, F)>>(
    probe: RasterProbe<F>,
    geo: &GeoProbe<F>,
    convert: C,
    info: RasterFileInfo<F>,
)
    requires
        call_ensures(open_raster_metadata::<F, C>, (probe, geo, convert), info),
        probe.sound(),
    ensures
        info.width == probe.width && info.height == probe.height,
        probe.samples_per_pixel is Some ==> info.bands == probe.samples_per_pixel->Some_0,
        info.no_data == probe.no_data,
        probe.colour is Some ==> info.data_type@ == probe.colour->Some_0@,
        probe.colour is None ==> info.data_type@ == "Unknown"@,
        info.interleave is Planar <==> probe.planar == Some(2u16),
        probe.chunk_count is Some ==> info.chunk_count == probe.chunk_count->Some_0,
        probe.chunk_count is None ==> info.chunk_count == 1,
        info.chunk_type == probe.chunk_type,
        info.chunk_width == probe.chunk_width && info.chunk_length == probe.chunk_length,
        probe.chunk_type is Strip ==> info.chunks_per_row == 1,
        probe.chunk_type is Tile ==> info.width <= info.chunks_per_row * info.chunk_width
            < info.width + info.chunk_width,
        info.geo_transform == geo.transform,
        probe.model_type == Some(1u16) ==> info.crs_type@ == "Projected"@,
        probe.model_type == Some(2u16) ==> info.crs_type@ == "Geographic"@,
        probe.model_type != Some(1u16) && probe.model_type != Some(2u16) ==> info.crs_type@
            == "Unknown"@,
        info.extent_wgs84 == geo.extent,
        geo.zoom is Some && geo.zoom->Some_0 <= 22 ==> info.max_zoom == geo.zoom->Some_0,
        geo.zoom is None || geo.zoom->Some_0 > 22 ==> info.max_zoom == 22,
        ({
            let e = match geo.extent {
                Some(e) => e@,
                None => geo.plain_extent@,
            };
            let c = info.wgs84_corners@;
            c[0] == (e[0], e[1]) && c[1] == (e[2], e[1]) && c[2] == (e[0], e[3]) && c[3] == (
                e[2],
                e[3],
            )
        }),
        probe.model_type != Some(1u16) ==> info.native_corners == info.wgs84_corners,
{
    if probe.chunk_type is Tile {
        crate::tile::raster_load::law_parts_are_rounded_up(
            probe.width as int,
            probe.chunk_width as int,
        );
    }
}

/// The corners of a projected raster in its own system are what `convert` gives for its corners
/// in degrees, where it gives something for all of them, and else those of its transform.
pub proof fn law_corners_are_converted<F: Copy, C: Fn(F, F) -> Option<(F, F)>>(
    probe: RasterProbe<F>,
    geo: &GeoProbe<F>,
    convert: C,
    info: RasterFileInfo<F>,
)
    requires
        call_ensures(open_raster_metadata::<F, C>, (probe, geo, convert), info),
        probe.model_type == Some(1u16),
    ensures
        exists|found: Seq<Option<(F, F)>>|
            #![trigger are_found(info.wgs84_corners@, convert, found)]
            {
                &&& are_found(info.wgs84_corners@, convert, found)
                &&& (forall|i: int| 0 <= i < 4 ==> (#[trigger] found[i]) is Some) ==> forall|i: int|
                    0 <= i < 4 ==> #[trigger] info.native_corners@[i] == found[i]->Some_0
                &&& (exists|i: int| 0 <= i < 4 && (#[trigger] found[i]) is None)
                    ==> info.native_corners == geo.plain_corners
            },
{
    let d = info.wgs84_corners@;
    let found = choose|found: Seq<Option<(F, F)>>|
        #![trigger each_native(d, convert, found)]
        each_native(d, convert, found) && if found[0] is Some && found[1] is Some && found[2]
            is Some && found[3] is Some {
            forall|i: int| 0 <= i < 4 ==> Some(#[trigger] info.native_corners@[i]) == found[i]
        } else {
            info.native_corners == geo.plain_corners
        };
    assert(d.len() == 4);
    assert forall|i: int| 0 <= i < 4 implies convert.ensures(
        (d[i].0, d[i].1),
        #[trigger] found[i],
    ) by {}
    assert(are_found(d, convert, found));
    if forall|i: int| 0 <= i < 4 ==> (#[trigger] found[i]) is Some {
        assert(found[0] is Some && found[1] is Some && found[2] is Some && found[3] is Some);
        assert forall|i: int| 0 <= i < 4 implies #[trigger] info.native_corners@[i]
            == found[i]->Some_0 by {
            assert(Some(info.native_corners@[i]) == found[i]);
        }
    }
    if exists|i: int| 0 <= i < 4 && (#[trigger] found[i]) is None {
        let i = choose|i: int| 0 <= i < 4 && (#[trigger] found[i]) is None;
        assert(i == 0 || i == 1 || i == 2 || i == 3);
    }
}

/// `found` is what `convert` gives for each of four corners.
pub open spec fn are_found<F, C: Fn(F, F) -> Option<(F, F)>>(
    corners: Seq<(F, F)>,
    convert: C,
    found: Seq<Option<(F, F)>>,
) -> bool {
    &&& found.len() == 4
    &&& forall|i: int|
        0 <= i < 4 ==> convert.ensures((corners[i].0, corners[i].1), #[trigger] found[i])
}

/// A raster that starts to be read has no statistics and no images yet, and it is told what
/// its file says and where it lies.
pub proof fn law_reading_starts<F: Copy>(
    path: &str,
    info: RasterFileInfo<F>,
    geo_key: GeoKeyInfo,
    no_data: Option<u64>,
    r: (RasterLoader<F>, Vec<RasterLoadProgress<F>>),
)
    requires
        call_ensures(RasterLoader::<F>::new, (path, info, geo_key, no_data), r),
    ensures
        r.0.path@ == path@,
        r.0.info == info,
        r.0.geo_key == geo_key,
        r.0.stats is None,
        r.0.images@.len() == 0,
        r.0.reader.next == 0,
        r.0.reader.chunks == info.chunk_count,
        r.0.reader.bands == info.bands,
        r.0.reader.no_data == no_data,
        info.chunk_count > 0 ==> r.0.reader.interleave == info.interleave,
        r.1@.len() == 2,
        r.1@[0] matches RasterLoadProgress::FileOpened {
            width,
            height,
            bands,
            data_type,
            no_data,
            interleave,
            chunk_count,
        } && {
            &&& width == info.width && height == info.height && bands == info.bands
            &&& data_type@ == info.data_type@
            &&& no_data == info.no_data
            &&& chunk_count == info.chunk_count
            &&& info.interleave is Chunky ==> interleave@ == "Chunky"@
            &&& info.interleave is Planar ==> interleave@ == "Planar"@
        },
        r.1@[1] matches RasterLoadProgress::GeoInfoReady {
            crs_type,
            geo_transform,
            extent_wgs84,
            max_zoom,
            wgs84_corners,
            native_corners,
        } && {
            &&& crs_type@ == info.crs_type@
            &&& geo_transform == info.geo_transform
            &&& extent_wgs84 == info.extent_wgs84
            &&& max_zoom == info.max_zoom
            &&& wgs84_corners == info.wgs84_corners
            &&& native_corners == info.native_corners
        },
{
}

/// The statistics of a raster are told as they are kept: the least and the greatest samples,
/// the means and the deviations, and the percentiles, each of every band. The least, the
/// greatest and the percentiles of a band are the numbers for its own bounds.
pub proof fn law_statistics_are_told<F, G: Fn(u64) -> F>(
    reader: StatsReader,
    means: Seq<F>,
    deviations: Seq<F>,
    from_bits: G,
    stats: BandStats<F>,
    told: RasterLoadProgress<F>,
    b: int,
)
    requires
        is_stats_of(reader, means, deviations, from_bits, stats),
        tells_stats(told, stats),
        0 <= b < reader.bands,
    ensures
        told matches RasterLoadProgress::StatsComplete {
            min_values,
            max_values,
            mean_values,
            std_dev_values,
            percentile_bounds,
        } && {
            &&& min_values@ == stats.min_values@ && max_values@ == stats.max_values@
            &&& mean_values@ == means && std_dev_values@ == deviations
            &&& stats.mean_values@ == means && stats.std_dev_values@ == deviations
            &&& stats.percentile_bounds is Some && percentile_bounds@
                == stats.percentile_bounds->Some_0@
            &&& min_values@.len() == reader.bands && max_values@.len() == reader.bands
            &&& percentile_bounds@.len() == reader.bands
            &&& exists|bounds: BandBounds| #[trigger]
                raster_cache::is_bounds(reader.ranges@[b], bounds) && from_bits.ensures(
                    (bounds.min,),
                    min_values@[b],
                ) && from_bits.ensures((bounds.max,), max_values@[b]) && from_bits.ensures(
                    (bounds.low,),
                    percentile_bounds@[b].0,
                ) && from_bits.ensures((bounds.high,), percentile_bounds@[b].1)
        },
{
    assert(has_band_stats(reader.ranges@[b], stats, b, from_bits));
}

/// A raster that was read has what its file said of it, its statistics, and its images: those
/// of its file and then those of its overview file. It is told how many there are, and that it
/// is ready.
pub proof fn law_raster_is_what_was_read<F: Copy>(
    loader: RasterLoader<F>,
    ovr_path: Option<String>,
    overviews: Vec<IfdInfo>,
    r: (CachedRaster<F>, Vec<RasterLoadProgress<F>>),
)
    requires
        call_ensures(RasterLoader::<F>::finish, (loader, ovr_path, overviews), r),
    ensures
        r.0.file_path == loader.path,
        r.0.width == loader.info.width && r.0.height == loader.info.height,
        r.0.bands == loader.info.bands,
        r.0.geo_transform == loader.info.geo_transform,
        r.0.no_data == loader.info.no_data,
        loader.stats == Some(r.0.stats),
        r.0.crs_type == loader.info.crs_type,
        r.0.data_type == loader.info.data_type,
        r.0.geo_key == loader.geo_key,
        r.0.wgs84_corners == loader.info.wgs84_corners,
        r.0.native_corners == loader.info.native_corners,
        r.0.max_zoom == loader.info.max_zoom,
        r.0.ifds@ == loader.images@ + overviews@,
        r.0.ovr_path == ovr_path,
        r.1@.len() == 2,
        r.1@[0] matches RasterLoadProgress::OverviewsReady { total_ifds, ovr_path: told }
            && total_ifds == loader.images@.len() + overviews@.len(),
        r.1@[1] is Ready,
{
}

/// The images of a file are the full one and the smaller ones whose sizes could be read, in
/// order, numbered one behind the other, all in the same file and cut into chunks alike.
pub proof fn law_images_of_a_file<F>(
    path: Seq<char>,
    info: RasterFileInfo<F>,
    sizes: Seq<Option<(u32, u32)>>,
    images: Seq<IfdInfo>,
    i: int,
)
    requires
        is_images(path, info, sizes, images),
        0 <= i < images.len(),
    ensures
        images.len() >= 1,
        images[0].width == info.width && images[0].height == info.height,
        images[i].index == i,
        !images[i].external,
        images[i].file_path@ == path,
        images[i].chunk_type == info.chunk_type,
        images[i].chunk_width == info.chunk_width,
        images[i].chunk_length == info.chunk_length,
        images[i].interleave == info.interleave,
        images.len() == raster_cache::known_sizes(sizes).len() + 1,
        i > 0 ==> raster_cache::known_sizes(sizes)[i - 1] == (images[i].width, images[i].height),
{
    if i > 0 {
        assert(raster_cache::is_sub_ifd(
            images[0],
            images[i],
            raster_cache::known_sizes(sizes)[i - 1],
            i,
        ));
    }
}

} // verus!
