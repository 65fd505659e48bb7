//! Sources of tiles: what they are, what is asked of them, and the caches before them.

use crate::paths::HttpError;
use crate::resample::{ResamplingMode, StretchConfig, StretchMethod};
use crate::text::str_eq;
use crate::tile::types::{GeoFileInfo, TileInfo};
use crate::tile_cache;
use crate::tile_cache::{
    record_l2_hit, record_l3_hit, record_miss, CacheStats, MemCache, TileCacheKey,
};
use vstd::prelude::*;

verus! {

/// The kind of data of a source.
#[derive(Debug, Clone, Copy, PartialEq, Eq, Structural)]
pub enum DataType {
    Raster,
    Vector,
}

impl DataType {
    /// The word for the kind.
    pub open spec fn word(self) -> Seq<char> {
        match self {
            DataType::Raster => "raster"@,
            DataType::Vector => "vector"@,
        }
    }

    /// The word for the kind.
    pub fn as_str(&self) -> (s: &'static str)
        ensures
            s@ == self.word(),
    {
        match self {
            DataType::Raster => "raster",
            DataType::Vector => "vector",
        }
    }
}

/// What is told of a source. `F` is the type of coordinates.
#[derive(Debug, Clone)]
pub struct DataSourceInfo<F> {
    pub name: String,
    pub data_type: DataType,
    pub tile_info: TileInfo<F>,
}

/// A raster file as a source of tiles.
#[derive(Debug, Clone)]
pub struct RasterDataSource {
    pub name: String,
    pub path: String,
}

impl RasterDataSource {
    pub fn new(name: String, path: String) -> (source: Self)
        ensures
            source.name@ == name@,
            source.path@ == path@,
    {
        RasterDataSource { name, path }
    }
}

/// A file with vector data as a source of tiles.
#[derive(Debug, Clone)]
pub struct VectorDataSource {
    pub name: String,
    pub path: String,
    pub ext: String,
}

impl VectorDataSource {
    pub fn new(name: String, path: String, ext: String) -> (source: Self)
        ensures
            source.name@ == name@,
            source.path@ == path@,
            source.ext@ == ext@,
    {
        VectorDataSource { name, path, ext }
    }

    /// The format of the file.
    pub fn format(&self) -> (format: VectorFormat)
        ensures
            format == format_of(self.ext@),
    {
        let ext: &str = self.ext.as_str();
        if str_eq(ext, "shp") {
            VectorFormat::Shapefile
        } else if str_eq(ext, "wkt") {
            VectorFormat::Wkt
        } else if str_eq(ext, "kml") || str_eq(ext, "kmz") {
            VectorFormat::Kml
        } else {
            VectorFormat::GeoJson
        }
    }
}

/// The format of vector data.
#[derive(Debug, Clone, Copy, PartialEq, Eq, Structural)]
pub enum VectorFormat {
    Shapefile,
    Wkt,
    Kml,
    GeoJson,
}

/// The format of vector data with an extension.
pub open spec fn format_of(ext: Seq<char>) -> VectorFormat {
    if ext == "shp"@ {
        VectorFormat::Shapefile
    } else if ext == "wkt"@ {
        VectorFormat::Wkt
    } else if ext == "kml"@ || ext == "kmz"@ {
        VectorFormat::Kml
    } else {
        VectorFormat::GeoJson
    }
}

/// A file as a source of tiles.
#[derive(Debug, Clone)]
pub enum FileSource {
    Raster(RasterDataSource),
    Vector(VectorDataSource),
}

/// A source as a value.
pub struct SourceValue {
    pub data_type: DataType,
    pub name: Seq<char>,
    pub path: Seq<char>,
    /// The extension of a file with vector data.
    pub ext: Seq<char>,
}

impl View for FileSource {
    type V = SourceValue;

    open spec fn view(&self) -> SourceValue {
        match self {
            FileSource::Raster(s) => SourceValue {
                data_type: DataType::Raster,
                name: s.name@,
                path: s.path@,
                ext: Seq::empty(),
            },
            FileSource::Vector(s) => SourceValue {
                data_type: DataType::Vector,
                name: s.name@,
                path: s.path@,
                ext: s.ext@,
            },
        }
    }
}

/// The source for a file with an extension in lower case, where it is supported.
pub open spec fn source_value(name: Seq<char>, path: Seq<char>, ext: Seq<char>) -> Option<
    SourceValue,
> {
    if crate::paths::raster_ext(ext) {
        Some(SourceValue { data_type: DataType::Raster, name, path, ext: Seq::empty() })
    } else if crate::paths::vector_ext(ext) {
        Some(SourceValue { data_type: DataType::Vector, name, path, ext })
    } else {
        None
    }
}

/// The source for a file with an extension in lower case, where it is supported.
pub fn create_file_source(name: &str, path: &str, ext: &str) -> (source: Option<FileSource>)
    ensures
        source is Some <==> source_value(name@, path@, ext@) is Some,
        source is Some ==> source->Some_0@ == source_value(name@, path@, ext@)->Some_0,
{
    if str_eq(ext, "tif") || str_eq(ext, "tiff") {
        Some(FileSource::Raster(RasterDataSource::new(name.to_owned(), path.to_owned())))
    } else if str_eq(ext, "geojson") || str_eq(ext, "json") || str_eq(ext, "wkt") || str_eq(
        ext,
        "kml",
    ) || str_eq(ext, "kmz") || str_eq(ext, "shp") {
        Some(
            FileSource::Vector(
                VectorDataSource::new(name.to_owned(), path.to_owned(), ext.to_owned()),
            ),
        )
    } else {
        None
    }
}

/// What a source can be asked for.
#[derive(Debug, Clone, Copy, PartialEq, Eq, Structural)]
pub enum SourceRequest {
    RasterTile,
    VectorTile,
    MapImage,
}

/// A source answers what its kind of data allows, and refuses the rest.
pub fn supports(data_type: DataType, request: SourceRequest) -> (r: Result<(), HttpError>)
    ensures
        match (data_type, request) {
            (DataType::Raster, SourceRequest::VectorTile) => r is Err && r->Err_0.is(
                415,
                "Raster source does not support vector tiles"@,
            ),
            (DataType::Vector, SourceRequest::RasterTile) => r is Err && r->Err_0.is(
                415,
                "Vector source does not support raster tiles"@,
            ),
            (DataType::Vector, SourceRequest::MapImage) => r is Err && r->Err_0.is(
                415,
                "Vector source does not support WMS rendering"@,
            ),
            _ => r is Ok,
        },
{
    match data_type {
        DataType::Raster => match request {
            SourceRequest::VectorTile => Err(
                HttpError::new(415, "Raster source does not support vector tiles"),
            ),
            _ => Ok(()),
        },
        DataType::Vector => match request {
            SourceRequest::RasterTile => Err(
                HttpError::new(415, "Vector source does not support raster tiles"),
            ),
            SourceRequest::MapImage => Err(
                HttpError::new(415, "Vector source does not support WMS rendering"),
            ),
            SourceRequest::VectorTile => Ok(()),
        },
    }
}

/// What is told of a raster whose file cannot be read.
pub fn unreadable_raster_info<F: Copy>(zero: F) -> (info: TileInfo<F>)
    ensures
        info.data_type@ == "raster"@,
        info.min_zoom == 0,
        info.max_zoom == 0,
        info.crs@ == Seq::<char>::empty(),
        info.extent@ == seq![zero, zero, zero, zero],
        info.native_crs@ == Seq::<char>::empty(),
        info.native_extent@ == seq![zero, zero, zero, zero],
{
    let extent: [F; 4] = [zero, zero, zero, zero];
    assert(extent@ =~= seq![zero, zero, zero, zero]);
    TileInfo {
        data_type: "raster".to_owned(),
        min_zoom: 0,
        max_zoom: 0,
        crs: String::new(),
        extent,
        native_crs: String::new(),
        native_extent: extent,
    }
}

/// A source as an entry of the list of files.
pub fn source_to_geo_file<F: Copy>(info: &DataSourceInfo<F>) -> (file: GeoFileInfo<F>)
    ensures
        file.name@ == info.name@,
        file.path@ == info.name@,
        file.data_type@ == info.data_type.word(),
        file.info.data_type@ == info.tile_info.data_type@,
        file.info.min_zoom == info.tile_info.min_zoom,
        file.info.max_zoom == info.tile_info.max_zoom,
        file.info.crs@ == info.tile_info.crs@,
        file.info.extent == info.tile_info.extent,
        file.info.native_crs@ == info.tile_info.native_crs@,
        file.info.native_extent == info.tile_info.native_extent,
{
    let t: &TileInfo<F> = &info.tile_info;
    GeoFileInfo {
        name: info.name.as_str().to_owned(),
        path: info.name.as_str().to_owned(),
        data_type: info.data_type.as_str().to_owned(),
        info: TileInfo {
            data_type: t.data_type.as_str().to_owned(),
            min_zoom: t.min_zoom,
            max_zoom: t.max_zoom,
            crs: t.crs.as_str().to_owned(),
            extent: t.extent,
            native_crs: t.native_crs.as_str().to_owned(),
            native_extent: t.native_extent,
        },
    }
}

// ─── Parameters of a tile ───

/// The parameters of a request for a tile. `F` is the type of the numbers.
pub struct TileQueryParams<F> {
    pub resampling: Option<String>,
    pub stretch: Option<String>,
    pub std_dev_factor: Option<F>,
    pub min_percent: Option<F>,
    pub max_percent: Option<F>,
    pub bands: Option<Vec<u32>>,
}

impl<F> Default for TileQueryParams<F> {
    fn default() -> (params: Self)
        ensures
            params.resampling is None,
            params.stretch is None,
            params.std_dev_factor is None,
            params.min_percent is None,
            params.max_percent is None,
            params.bands is None,
    {
        TileQueryParams {
            resampling: None,
            stretch: None,
            std_dev_factor: None,
            min_percent: None,
            max_percent: None,
            bands: None,
        }
    }
}

/// The resampling mode that a request asks for.
pub open spec fn asked_mode(name: Option<String>) -> ResamplingMode {
    match name {
        Some(n) => crate::resample::resampling_named(crate::text::lowered(n@)),
        None => ResamplingMode::NearestNeighbor,
    }
}

/// The resampling mode that a request asks for.
pub fn requested_mode(name: &Option<String>) -> (mode: ResamplingMode)
    ensures
        mode == asked_mode(*name),
{
    match name {
        Some(n) => ResamplingMode::from_str(n.as_str()),
        None => ResamplingMode::NearestNeighbor,
    }
}

/// The bands that a request asks for.
pub open spec fn asked_bands(bands: Option<Vec<u32>>) -> Seq<u32> {
    match bands {
        Some(b) => b@,
        None => seq![1u32, 2u32, 3u32],
    }
}

/// The bands that a request asks for: the first three, unless it names others.
pub fn requested_bands(bands: &Option<Vec<u32>>) -> (r: Vec<u32>)
    ensures
        r@ == asked_bands(*bands),
{
    let mut r: Vec<u32> = Vec::new();
    match bands {
        Some(b) => {
            for i in 0..b.len()
                invariant
                    r@ =~= b@.take(i as int),
            {
                r.push(b[i]);
            }
            assert(b@.take(b@.len() as int) =~= b@);
        },
        None => {
            r.push(1);
            r.push(2);
            r.push(3);
            assert(r@ =~= seq![1u32, 2u32, 3u32]);
        },
    }
    r
}

/// The stretch that a request asks for: its method by name, and of the numbers only the
/// factor of the deviation.
pub open spec fn is_asked_stretch<F>(
    name: Option<String>,
    factor: Option<F>,
    stretch: Option<StretchConfig<F>>,
) -> bool {
    match name {
        Some(n) => stretch matches Some(s) && {
            &&& s.method == crate::resample::stretch_named(crate::text::lowered(n@))
            &&& s.min_percent is None
            &&& s.max_percent is None
            &&& s.std_dev_factor == factor
        },
        None => stretch is None,
    }
}

/// The stretch that a request for a tile asks for.
pub fn requested_stretch<F: Copy>(name: &Option<String>, factor: Option<F>) -> (stretch: Option<
    StretchConfig<F>,
>)
    ensures
        is_asked_stretch(*name, factor, stretch),
{
    match name {
        Some(n) => Some(
            StretchConfig {
                method: StretchMethod::from_str(n.as_str()),
                min_percent: None,
                max_percent: None,
                std_dev_factor: factor,
            },
        ),
        None => None,
    }
}

// ─── The caches before a source ───

fn copy_bytes(v: &Vec<u8>) -> (r: Vec<u8>)
    ensures
        r@ == v@,
{
    let mut r: Vec<u8> = Vec::new();
    for i in 0..v.len()
        invariant
            r@ =~= v@.take(i as int),
    {
        r.push(v[i]);
    }
    assert(v@.take(v@.len() as int) =~= v@);
    r
}

/// Looks a tile up in memory, and counts it where it is found.
pub fn memory_lookup(cache: &mut MemCache, stats: &mut CacheStats, key: &TileCacheKey) -> (tile:
    Option<Vec<u8>>)
    requires
        old(cache).wf(),
    ensures
        final(cache).wf(),
        final(cache).max() == old(cache).max(),
        final(cache).counted() == old(cache).counted(),
        tile is Some <==> tile_cache::holds(old(cache).tiles(), key@),
        tile is Some ==> {
            &&& tile_cache::lookup(*old(cache), key@) == Some(tile->Some_0@)
            &&& final(cache).tiles() == tile_cache::without(old(cache).tiles(), key@).push(
                old(cache).tiles()[tile_cache::place_of(old(cache).tiles(), key@)],
            )
            &&& *final(stats) == (CacheStats {
                l2_hits: tile_cache::counted_up(old(stats).l2_hits),
                ..*old(stats)
            })
        },
        tile is None ==> final(cache).tiles() == old(cache).tiles() && *final(stats) == *old(stats),
{
    match cache.get(key) {
        Some(data) => {
            record_l2_hit(stats);
            Some(copy_bytes(data))
        },
        None => None,
    }
}

/// Takes what the disk had for a tile that was not in memory: a tile is counted and goes
/// to memory, and a missing one is counted as such.
pub fn disk_lookup(
    cache: &mut MemCache,
    stats: &mut CacheStats,
    key: TileCacheKey,
    disk: Option<Vec<u8>>,
) -> (tile: Option<Vec<u8>>)
    requires
        old(cache).wf(),
        disk is Some ==> old(cache).counted() + tile_cache::tile_size(disk->Some_0@.len())
            <= u64::MAX,
    ensures
        final(cache).wf(),
        tile is Some <==> disk is Some,
        disk is Some ==> {
            &&& tile->Some_0@ == disk->Some_0@
            &&& tile_cache::inserted(*old(cache), *final(cache), key@, disk->Some_0@)
            &&& *final(stats) == (CacheStats {
                l3_hits: tile_cache::counted_up(old(stats).l3_hits),
                ..*old(stats)
            })
        },
        disk is None ==> {
            &&& *final(cache) == *old(cache)
            &&& *final(stats) == (CacheStats {
                misses: tile_cache::counted_up(old(stats).misses),
                ..*old(stats)
            })
        },
{
    match disk {
        Some(data) => {
            record_l3_hit(stats);
            let copy: Vec<u8> = copy_bytes(&data);
            cache.insert(key, copy);
            Some(data)
        },
        None => {
            record_miss(stats);
            None
        },
    }
}

/// Puts a tile that was rendered in memory, and hands it on.
pub fn store_tile(cache: &mut MemCache, key: TileCacheKey, data: Vec<u8>) -> (tile: Vec<u8>)
    requires
        old(cache).wf(),
        old(cache).counted() + tile_cache::tile_size(data@.len()) <= u64::MAX,
    ensures
        final(cache).wf(),
        tile_cache::inserted(*old(cache), *final(cache), key@, data@),
        tile@ == data@,
{
    let copy: Vec<u8> = copy_bytes(&data);
    cache.insert(key, copy);
    data
}

/// A tile that was stored is what the next lookup in memory gives.
pub proof fn law_stored_tile_is_found(
    before: MemCache,
    after: MemCache,
    key: tile_cache::KeyValue,
    data: Seq<u8>,
)
    requires
        before.wf(),
        after.wf(),
        tile_cache::inserted(before, after, key, data),
    ensures
        tile_cache::holds(after.tiles(), key),
        tile_cache::lookup(after, key) == Some(data),
{
    tile_cache::law_insert_then_get(before, after, key, data);
}

// ─── What holds of sources ───

/// The words for the kinds of data.
pub proof fn law_words_of_kinds(r: &'static str, v: &'static str)
    requires
        call_ensures(DataType::as_str, (&DataType::Raster,), r),
        call_ensures(DataType::as_str, (&DataType::Vector,), v),
    ensures
        r@ == "raster"@,
        v@ == "vector"@,
{
}

/// The format of vector data follows from the extension: three formats have their own, and
/// everything else is read as GeoJSON.
pub proof fn law_formats_of_vector_data(source: &VectorDataSource, format: VectorFormat)
    requires
        call_ensures(VectorDataSource::format, (source,), format),
    ensures
        format is Shapefile <==> source.ext@ == "shp"@,
        format is Wkt <==> source.ext@ == "wkt"@,
        format is Kml <==> source.ext@ == "kml"@ || source.ext@ == "kmz"@,
        format is GeoJson <==> source.ext@ != "shp"@ && source.ext@ != "wkt"@ && source.ext@
            != "kml"@ && source.ext@ != "kmz"@,
{
    reveal_strlit("shp");
    reveal_strlit("wkt");
    reveal_strlit("kml");
    reveal_strlit("kmz");
    assert("shp"@[0] == 's' && "wkt"@[0] == 'w' && "kml"@[0] == 'k' && "kmz"@[0] == 'k');
}

/// A file is a source where its extension is that of a raster or of vector data; the source has
/// the name and the path that were given.
pub proof fn law_files_become_sources(
    name: &str,
    path: &str,
    ext: &str,
    source: Option<FileSource>,
)
    requires
        call_ensures(create_file_source, (name, path, ext), source),
    ensures
        source is Some && source->Some_0 is Raster <==> ext@ == "tif"@ || ext@ == "tiff"@,
        source is Some && source->Some_0 is Vector <==> ext@ == "geojson"@ || ext@ == "json"@
            || ext@ == "shp"@ || ext@ == "wkt"@ || ext@ == "kml"@ || ext@ == "kmz"@,
        source is Some && source->Some_0 is Raster ==> source->Some_0->Raster_0.name@ == name@
            && source->Some_0->Raster_0.path@ == path@,
        source is Some && source->Some_0 is Vector ==> source->Some_0->Vector_0.name@ == name@
            && source->Some_0->Vector_0.path@ == path@ && source->Some_0->Vector_0.ext@ == ext@,
{
    reveal_strlit("tif");
    reveal_strlit("tiff");
    reveal_strlit("geojson");
    reveal_strlit("json");
    reveal_strlit("shp");
    reveal_strlit("wkt");
    reveal_strlit("kml");
    reveal_strlit("kmz");
    assert("tif"@[0] == 't' && "tiff"@[0] == 't');
    assert("geojson"@[0] == 'g' && "json"@[0] == 'j' && "shp"@[0] == 's' && "wkt"@[0] == 'w'
        && "kml"@[0] == 'k' && "kmz"@[0] == 'k');
    if source is Some {
        let v = source->Some_0@;
        match source->Some_0 {
            FileSource::Raster(s) => {
                assert(v.data_type is Raster && v.name == s.name@ && v.path == s.path@);
            },
            FileSource::Vector(s) => {
                assert(v.data_type is Vector && v.name == s.name@ && v.path == s.path@ && v.ext
                    == s.ext@);
            },
        }
    }
}

/// A request has the resampling mode and the stretch that it names, the bands that it lists,
/// and the factor that it gives. One that names none has the nearest sample, no stretch, and
/// the first three bands.
pub proof fn law_what_a_request_asks_for<F: Copy>(
    name: &Option<String>,
    word: &str,
    named: ResamplingMode,
    mode: ResamplingMode,
    method: StretchMethod,
    factor: Option<F>,
    stretch: Option<StretchConfig<F>>,
    bands: &Option<Vec<u32>>,
    r: Vec<u32>,
)
    requires
        call_ensures(requested_mode, (name,), mode),
        call_ensures(requested_stretch::<F>, (name, factor), stretch),
        call_ensures(requested_bands, (bands,), r),
        name is Some ==> word@ == name->Some_0@,
        call_ensures(ResamplingMode::from_str, (word,), named),
        call_ensures(StretchMethod::from_str, (word,), method),
    ensures
        name is Some ==> mode == named,
        name is None ==> mode is NearestNeighbor,
        name is Some ==> stretch is Some && stretch->Some_0.method == method
            && stretch->Some_0.std_dev_factor == factor && stretch->Some_0.min_percent is None
            && stretch->Some_0.max_percent is None,
        name is None ==> stretch is None,
        bands is Some ==> r@ == bands->Some_0@,
        bands is None ==> r@.len() == 3 && r@[0] == 1 && r@[1] == 2 && r@[2] == 3,
{
}

} // verus!
