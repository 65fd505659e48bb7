use simple_geo_server::tile::raster_cache::{
    all_ifds, band_count, base_ifd, cap_zoom, chunk_values, chunk_visits, chunks_per_row,
    clear_raster_memory_cache, crs_type_text, estimate_raster_size_bytes, find_ovr_file,
    interleave_from_planar, native_corners, ovr_candidates, raster_memory_cache_size_bytes,
    read_geo_transform_tile, sub_ifds, BandRange, ChunkVisit, RasterCacheInner, RasterSizes,
    StatsReader,
};
use simple_geo_server::tile::raster_load::{
    chunk_error, closest, is_geographic, is_readable, region_chunks, region_directory,
    region_file, select_ifd_for_zoom, RegionReader, RegionWindow,
};
use simple_geo_server::tile::raster_open::{
    open_raster_metadata, GeoProbe, RasterLoader, RasterProbe,
};
use simple_geo_server::tile::raster_ovr::{
    bilinear_downsample, generate_ovr, level_layout, overview_levels, ovr_band_count,
    ovr_bands_supported, ovr_is_walkable, parse_ovr_ifd_offsets, read_u16_ifd_entry, BandLayout, SampleType,
};
use simple_geo_server::tile::types::{
    ChunkType, IfdInfo, InterleaveType, RasterBlockConfig, RasterBlockIterator,
    RasterLoadProgress,
};
use simple_geo_server::reproject::GeoKeyInfo;

fn ifd(chunk_type: ChunkType, width: u32, height: u32, cw: u32, ch: u32) -> IfdInfo {
    base_ifd("a.tif", width, height, chunk_type, cw, ch, InterleaveType::Chunky)
}

fn window(col_off: u32, row_off: u32, width: u32, height: u32, step: u32) -> RegionWindow {
    RegionWindow { col_off, row_off, width, height, bands: 1, step }
}

/// The value of a pixel of a made-up image.
fn image(row: u32, col: u32) -> u32 {
    row * 1000 + col
}

fn chunk_data(ifd: &IfdInfo, index: u32) -> (Vec<u32>, u32) {
    let (x0, y0, w, h) = match ifd.chunk_type {
        ChunkType::Strip => (0, index * ifd.chunk_length, ifd.width, ifd.chunk_length),
        ChunkType::Tile => (
            (index % ifd.chunks_per_row) * ifd.chunk_width,
            (index / ifd.chunks_per_row) * ifd.chunk_length,
            ifd.chunk_width,
            ifd.chunk_length,
        ),
    };
    let w = w.min(ifd.width - x0);
    let h = h.min(ifd.height - y0);
    let mut data = Vec::new();
    for r in 0..h {
        for c in 0..w {
            data.push(image(y0 + r, x0 + c));
        }
    }
    (data, w)
}

fn read(ifd: &IfdInfo, win: RegionWindow) -> (Vec<u32>, Vec<u32>) {
    let mut reader = RegionReader::new(ifd, win, 0u32);
    let mut chunks = Vec::new();
    while let Some(index) = reader.wanted() {
        chunks.push(index);
        let (data, width) = chunk_data(ifd, index);
        reader.accept(&data, width);
    }
    (reader.finish(), chunks)
}

#[test]
fn a_window_of_strips_is_the_image() {
    let ifd = ifd(ChunkType::Strip, 10, 9, 10, 4);
    let (out, chunks) = read(&ifd, window(2, 3, 5, 4, 1));
    assert_eq!(chunks, vec![0, 1]);
    for r in 0..4u32 {
        for c in 0..5u32 {
            assert_eq!(out[(r * 5 + c) as usize], image(3 + r, 2 + c));
        }
    }
}

#[test]
fn a_window_of_tiles_is_the_image() {
    let ifd = ifd(ChunkType::Tile, 10, 9, 4, 4);
    assert_eq!(ifd.chunks_per_row, 3);
    let (out, chunks) = read(&ifd, window(3, 3, 6, 5, 1));
    assert_eq!(chunks, vec![0, 1, 2, 3, 4, 5]);
    for r in 0..5u32 {
        for c in 0..6u32 {
            assert_eq!(out[(r * 6 + c) as usize], image(3 + r, 3 + c));
        }
    }
}

#[test]
fn a_step_skips_rows_and_columns() {
    let ifd = ifd(ChunkType::Strip, 8, 8, 8, 8);
    let (out, _) = read(&ifd, window(0, 0, 8, 8, 3));
    assert_eq!(out.len(), 9);
    assert_eq!(
        out,
        vec![
            image(0, 0), image(0, 3), image(0, 6), image(3, 0), image(3, 3), image(3, 6),
            image(6, 0), image(6, 3), image(6, 6),
        ]
    );
}

#[test]
fn a_short_chunk_leaves_zeros() {
    let ifd = ifd(ChunkType::Strip, 4, 2, 4, 2);
    let mut reader = RegionReader::new(&ifd, window(0, 0, 4, 2, 1), 0u32);
    assert_eq!(reader.wanted(), Some(0));
    reader.accept(&[7, 8, 9], 4);
    assert_eq!(reader.wanted(), None);
    assert_eq!(reader.finish(), vec![7, 8, 9, 0, 0, 0, 0, 0]);
}

#[test]
fn windows_that_cannot_be_read() {
    let strips = ifd(ChunkType::Strip, 10, 9, 10, 4);
    assert!(is_readable(&strips, &window(2, 3, 5, 4, 1)));
    assert!(is_readable(&strips, &window(2, 3, 5, 4, 3)));
    assert!(!is_readable(&strips, &window(2, 3, 5, 4, 0)));
    assert!(!is_readable(&strips, &window(0, 0, 0, 0, 1)));
    assert!(is_readable(&strips, &window(0, 0, 1, 12, 1)));
    assert!(!is_readable(&strips, &window(0, 0, 1, 13, 1)));
    assert!(!is_readable(&strips, &window(u32::MAX, 0, 1, 1, 1)));
    let tiles = ifd(ChunkType::Tile, 10, 9, 4, 4);
    assert!(is_readable(&tiles, &window(3, 3, 6, 5, 1)));
    let flat = IfdInfo { chunk_length: 0, ..tiles.clone() };
    assert!(!is_readable(&flat, &window(3, 3, 6, 5, 1)));
    let narrow = IfdInfo { chunk_width: 0, ..tiles.clone() };
    assert!(!is_readable(&narrow, &window(3, 3, 6, 5, 1)));
    let many = IfdInfo { chunks_per_row: u32::MAX, ..tiles };
    assert!(is_readable(&many, &window(0, 0, 4, 4, 1)));
    assert!(!is_readable(&many, &window(0, 0, 4, 12, 1)));
}

#[test]
fn chunks_that_can_be_addressed() {
    let tiles = ifd(ChunkType::Tile, 10, 9, 4, 4);
    let win = RegionWindow { bands: 3, ..window(0, 0, 1, 1, 1) };
    let reader = RegionReader::new(&tiles, win, 0u8);
    assert!(reader.can_accept(4) && reader.can_accept(u32::MAX));
}

#[test]
fn plans_list_chunks_in_order() {
    let ifd = ifd(ChunkType::Tile, 100, 100, 10, 10);
    let plan = region_chunks(&ifd, &window(25, 35, 10, 10, 1));
    let numbers: Vec<u32> = plan.iter().map(|c| c.index).collect();
    assert_eq!(numbers, vec![32, 33, 42, 43]);
    assert_eq!((plan[0].overlap.left, plan[0].overlap.right), (25, 30));
    assert_eq!((plan[3].overlap.top, plan[3].overlap.bottom), (40, 45));
    assert_eq!(chunk_error(ChunkType::Strip, 3, "eof"), "Failed to read strip 3: eof");
    assert_eq!(chunk_error(ChunkType::Tile, 12, "eof"), "Failed to read tile 12: eof");
}

#[test]
fn the_closest_image_is_read() {
    let keys: Vec<u64> = [3.0f64, 1.0, 1.0, 9.0].iter().map(|d| d.to_bits()).collect();
    assert_eq!(closest(&keys), 1);
    assert_eq!(select_ifd_for_zoom(&keys, true), 1);
    assert_eq!(select_ifd_for_zoom(&keys, false), 0);
    assert_eq!(select_ifd_for_zoom(&keys[3..], true), 0);
    let none: Vec<u64> = [f64::NAN, f64::INFINITY].iter().map(|d| d.to_bits()).collect();
    assert_eq!(closest(&none), 0);
    let some: Vec<u64> = [f64::NAN, 5.0].iter().map(|d| d.to_bits()).collect();
    assert_eq!(closest(&some), 1);
    assert!(is_geographic("Geographic") && is_geographic("Unknown") && !is_geographic("Projected"));
}

#[test]
fn files_and_directories_of_images() {
    let mut i = ifd(ChunkType::Strip, 1, 1, 1, 1);
    assert_eq!(region_file(&i, "a.tif", None), Ok("a.tif".to_string()));
    assert_eq!(region_directory(&i, &[10, 20]), None);
    i.index = 2;
    assert_eq!(region_directory(&i, &[10, 20]), Some(20));
    i.index = 3;
    assert_eq!(region_directory(&i, &[10, 20]), None);
    i.external = true;
    i.ifd_ptr = Some(99);
    assert_eq!(region_file(&i, "a.tif", Some("a.ovr")), Ok("a.ovr".to_string()));
    assert_eq!(
        region_file(&i, "a.tif", None),
        Err("External IFD but no .ovr path provided".to_string())
    );
    assert_eq!(region_directory(&i, &[]), Some(99));
}

fn entry(tag: u16, value: u32) -> Vec<u8> {
    let mut e = tag.to_le_bytes().to_vec();
    e.extend([4, 0, 1, 0, 0, 0]);
    e.extend(value.to_le_bytes());
    e
}

fn directory(entries: &[(u16, u32)], next: u32) -> Vec<u8> {
    let mut d = (entries.len() as u16).to_le_bytes().to_vec();
    for (tag, value) in entries {
        d.extend(entry(*tag, *value));
    }
    d.extend(next.to_le_bytes());
    d
}

fn file(directories: &[&[(u16, u32)]], last: u32) -> Vec<u8> {
    let mut bytes = vec![0x49, 0x49, 42, 0];
    bytes.extend(8u32.to_le_bytes());
    for (i, d) in directories.iter().enumerate() {
        let len = bytes.len() + 2 + 12 * d.len() + 4;
        let next = if i + 1 < directories.len() { len as u32 } else { last };
        bytes.extend(directory(d, next));
    }
    bytes
}

#[test]
fn overview_files_are_read() {
    let bytes = file(
        &[
            &[(0x100, 500), (0x101, 400), (0x142, 256), (0x143, 128)],
            &[(0x100, 0), (0x101, 9)],
            &[(0x100, 250), (0x101, 200), (0x117, 16)],
            &[(0x100, 125), (0x101, 100)],
            &[(0x100, 60), (0x101, 50), (0x142, 32)],
        ],
        0,
    );
    assert!(ovr_is_walkable(&bytes));
    let ifds = parse_ovr_ifd_offsets(&bytes, "a.ovr", 3).unwrap();
    assert_eq!(ifds.len(), 4);
    assert_eq!((ifds[0].index, ifds[0].width, ifds[0].height), (3, 500, 400));
    assert_eq!((ifds[0].chunk_type, ifds[0].chunk_width, ifds[0].chunk_length), (ChunkType::Tile, 256, 128));
    assert_eq!((ifds[0].chunks_per_row, ifds[0].ifd_ptr), (2, Some(8)));
    assert!(ifds[0].external && ifds[0].file_path == "a.ovr");
    assert_eq!((ifds[1].index, ifds[1].chunk_type), (4, ChunkType::Strip));
    assert_eq!((ifds[1].chunk_width, ifds[1].chunk_length, ifds[1].chunks_per_row), (250, 16, 1));
    assert_eq!((ifds[2].chunk_width, ifds[2].chunk_length), (125, 100));
    assert_eq!((ifds[3].chunk_length, ifds[3].chunks_per_row), (32, 2));
}

#[test]
fn overview_files_of_the_other_byte_order_are_read() {
    let mut bytes = vec![0x4D, 0x4D, 0, 42, 0, 0, 0, 8, 0, 2];
    bytes.extend([1, 0, 0, 4, 0, 0, 0, 1, 0, 0, 1, 0]);
    bytes.extend([1, 1, 0, 4, 0, 0, 0, 1, 0, 0, 0, 7]);
    bytes.extend([0, 0, 0, 0]);
    let ifds = parse_ovr_ifd_offsets(&bytes, "b.ovr", 0).unwrap();
    assert_eq!(ifds.len(), 1);
    assert_eq!((ifds[0].width, ifds[0].height), (256, 7));
}

#[test]
fn broken_overview_files_are_refused() {
    assert_eq!(
        parse_ovr_ifd_offsets(&[0x49, 0x49, 42], "a", 0).unwrap_err(),
        "Failed to read TIFF header from .ovr: failed to fill whole buffer"
    );
    assert_eq!(
        parse_ovr_ifd_offsets(&[0x49, 0x4D, 42, 0, 8, 0, 0, 0], "a", 0).unwrap_err(),
        "Invalid TIFF byte order in .ovr"
    );
    let short = file(&[&[(0x100, 5), (0x101, 4)]], 0);
    assert_eq!(parse_ovr_ifd_offsets(&short[..9], "a", 0).unwrap().len(), 0);
    assert_eq!(parse_ovr_ifd_offsets(&short[..34], "a", 0).unwrap().len(), 1);
    assert_eq!(parse_ovr_ifd_offsets(&short[..30], "a", 0).unwrap().len(), 0);
}

#[test]
fn circles_and_empty_tiles_are_found() {
    assert!(!ovr_is_walkable(&file(&[&[(0x100, 5), (0x101, 4)]], 8)));
    assert!(!ovr_is_walkable(&file(&[&[(0x100, 5), (0x101, 4), (0x142, 0)]], 0)));
    assert!(ovr_is_walkable(&file(&[&[(0x100, 5), (0x101, 4)]], 9999)));
    assert!(ovr_is_walkable(&[1, 2]));
    assert_eq!(read_u16_ifd_entry(&[(1, 5), (2, 6), (1, 7)], 1), Some(5));
    assert_eq!(read_u16_ifd_entry(&[(1, 5)], 3), None);
}

#[test]
fn overviews_halve() {
    assert_eq!(overview_levels(256, 256), vec![]);
    assert_eq!(overview_levels(257, 100), vec![(128, 50)]);
    assert_eq!(overview_levels(1000, 600), vec![(500, 300), (250, 150)]);
    assert_eq!(overview_levels(1000, 1), vec![(500, 1), (250, 1)]);
    assert_eq!(overview_levels(1 << 20, 1 << 20).len(), 8);
    assert_eq!(overview_levels(0, 0), vec![]);
}

#[test]
fn bands_of_overviews() {
    assert_eq!(ovr_band_count(12, 2, 2), Ok(3));
    assert_eq!(ovr_band_count(3, 2, 2), Ok(1));
    assert_eq!(ovr_band_count(3, 0, 2), Err("Image has zero pixels".to_string()));
    assert_eq!(ovr_bands_supported(4), Ok(()));
    assert_eq!(
        ovr_bands_supported(5),
        Err("Cannot generate .ovr for 5 bands (max supported: 4)".to_string())
    );
    assert_eq!(level_layout(SampleType::U8, 1), Ok(BandLayout::Gray));
    assert_eq!(level_layout(SampleType::U16, 2), Ok(BandLayout::GrayExtra));
    assert_eq!(level_layout(SampleType::F32, 3), Ok(BandLayout::Rgb));
    assert_eq!(level_layout(SampleType::F64, 4), Ok(BandLayout::Rgba));
    assert_eq!(
        level_layout(SampleType::F64, 2),
        Err("Unsupported band count 2 for f64 .ovr".to_string())
    );
    assert_eq!(
        level_layout(SampleType::Other, 1),
        Err("Unsupported data type for .ovr generation".to_string())
    );
}

#[test]
fn four_neighbours_are_mixed() {
    let data = [1.0f64, 2.0, 3.0, 4.0, 5.0, 6.0, 7.0, 8.0, 9.0];
    let out = bilinear_downsample(&data, 3, 3, 1, &[0, 2], &[1], |a, b, c, d, x, y| {
        a + b + c + d + (x as f64) * 100.0 + (y as f64) * 1000.0
    });
    assert_eq!(out, vec![4.0 + 5.0 + 7.0 + 8.0, 6.0 + 6.0 + 9.0 + 9.0 + 100.0]);
}

fn fixed(bytes: u64) -> RasterSizes {
    RasterSizes {
        fixed: bytes,
        file_path: 0,
        min_values: 0,
        max_values: 0,
        mean_values: 0,
        std_dev_values: 0,
        ifds: 0,
        crs_type: 0,
    }
}

#[test]
fn a_full_cache_of_rasters_forgets_the_oldest() {
    let mut cache: RasterCacheInner<u32> = RasterCacheInner::new(2);
    cache.insert("a", 1);
    cache.insert("b", 2);
    assert_eq!(cache.get("a"), Some(&1));
    cache.insert("c", 3);
    assert_eq!(cache.get("b"), None);
    assert_eq!(cache.get("a"), Some(&1));
    cache.insert("a", 9);
    assert_eq!(cache.get("a"), Some(&1));
    assert_eq!(cache.len(), 2);
    let words = 2 * std::mem::size_of::<usize>() as u64;
    let size = |path: &String, raster: &u32| (path.len() as u64, fixed(10 * *raster as u64));
    assert_eq!(raster_memory_cache_size_bytes(&cache, size), 42 + 2 * words);
    assert_eq!(cache.get("c"), Some(&3));
    assert_eq!(raster_memory_cache_size_bytes(&cache, size), 42 + 2 * words);
    let nothing = |_: &String, _: &u32| (0, fixed(0));
    assert_eq!(raster_memory_cache_size_bytes(&cache, nothing), 2 * words);
    clear_raster_memory_cache(&mut cache);
    assert_eq!((cache.len(), raster_memory_cache_size_bytes(&cache, size)), (0, 0));
    let mut none: RasterCacheInner<u32> = RasterCacheInner::new(0);
    none.insert("a", 1);
    none.insert("b", 2);
    assert_eq!((none.len(), none.get("b")), (1, Some(&2)));
}

#[test]
fn sizes_of_rasters() {
    let s = RasterSizes {
        fixed: 100, file_path: 10, min_values: 3, max_values: 3, mean_values: 3,
        std_dev_values: 3, ifds: 50, crs_type: 9,
    };
    let words = 2 * std::mem::size_of::<usize>() as u64;
    assert_eq!(estimate_raster_size_bytes(&s), 100 + 10 + 4 * 24 + 50 + 9 + words);
    let huge = RasterSizes { fixed: u64::MAX, ..s };
    assert_eq!(estimate_raster_size_bytes(&huge), u64::MAX);
    let mut cache: RasterCacheInner<u64> = RasterCacheInner::new(3);
    cache.insert("a", u64::MAX);
    cache.insert("b", 1);
    let size = |_: &String, v: &u64| (2, fixed(*v));
    assert_eq!(raster_memory_cache_size_bytes(&cache, size), u64::MAX);
}

#[test]
fn overview_files_are_found() {
    assert_eq!(ovr_candidates("d/a.tif"), ("d/a.tif.ovr".to_string(), "d/a.ovr".to_string()));
    assert_eq!(find_ovr_file("d/a.tif", true, true), Some("d/a.tif.ovr".to_string()));
    assert_eq!(find_ovr_file("d/a.tif", false, true), Some("d/a.ovr".to_string()));
    assert_eq!(find_ovr_file("d/a.tif", false, false), None);
}

#[test]
fn transforms_come_from_three_places() {
    let world = vec![1.0, 2.0, 3.0, 4.0, 5.0, 6.0];
    let tie = vec![0.0, 0.0, 0.0, 10.0, 20.0, 0.0];
    let scale = vec![0.5, 0.25, 0.0];
    let neg = |v: f64| -v;
    assert_eq!(
        read_geo_transform_tile(Some(&world), Some(&tie), Some(&scale), 0.0, 1.0, neg),
        [5.0, 1.0, 2.0, 6.0, 3.0, 4.0]
    );
    let five = vec![1.0; 5];
    assert_eq!(
        read_geo_transform_tile(Some(&five), Some(&tie), Some(&scale), 0.0, 1.0, neg),
        [10.0, 0.5, 0.0, 20.0, 0.0, -0.25]
    );
    assert_eq!(
        read_geo_transform_tile(None, Some(&tie), None, 0.0, 1.0, neg),
        [0.0, 1.0, 0.0, 0.0, 0.0, -1.0]
    );
}

#[test]
fn facts_of_a_file() {
    assert_eq!(chunks_per_row(ChunkType::Strip, 100, 100), 1);
    assert_eq!(chunks_per_row(ChunkType::Tile, 100, 30), 4);
    assert_eq!(interleave_from_planar(Some(2)), InterleaveType::Planar);
    assert_eq!(interleave_from_planar(Some(1)), InterleaveType::Chunky);
    assert_eq!(interleave_from_planar(None), InterleaveType::Chunky);
    assert_eq!(band_count(Some(4), 0, 0, 0), 4);
    assert_eq!(band_count(None, 12, 2, 2), 3);
    assert_eq!(band_count(None, 3, 2, 2), 1);
    assert_eq!(band_count(None, 3, 0, 2), 1);
    assert_eq!(crs_type_text(Some(2)), "Geographic");
    assert_eq!(crs_type_text(Some(1)), "Projected");
    assert_eq!(crs_type_text(None), "Unknown");
    assert_eq!(cap_zoom(Some(7)), 7);
    assert_eq!(cap_zoom(Some(30)), 22);
    assert_eq!(cap_zoom(None), 22);
    let (a, b, c) = ([(1, 1); 4], [(2, 2); 4], [(3, 3); 4]);
    assert_eq!(native_corners("Geographic", a, Some(b), c), a);
    assert_eq!(native_corners("Projected", a, Some(b), c), b);
    assert_eq!(native_corners("Projected", a, None, c), c);
}

#[test]
fn samples_are_visited_band_by_band() {
    let planar = chunk_visits(InterleaveType::Planar, 3, 6, 3).unwrap();
    assert_eq!(planar, vec![ChunkVisit { band: 1, stride: 1, offset: 0 }]);
    assert!(chunk_visits(InterleaveType::Planar, 6, 7, 3).is_none());
    let chunky = chunk_visits(InterleaveType::Chunky, 0, 1, 2).unwrap();
    assert_eq!(chunky.len(), 2);
    assert_eq!(chunky[1], ChunkVisit { band: 1, stride: 2, offset: 1 });
    let data: Vec<u64> = [1.0f64, 10.0, -9.0, 20.0, f64::NAN, 30.0, 4.0]
        .iter()
        .map(|v| v.to_bits())
        .collect();
    let values = chunk_values(&data, 100, chunky[0], Some((-9.0f64).to_bits()));
    assert_eq!(values, vec![1.0f64.to_bits(), 4.0f64.to_bits()]);
    let values = chunk_values(&data, 2, chunky[1], None);
    assert_eq!(values, vec![10.0f64.to_bits(), 20.0f64.to_bits()]);
}

#[test]
fn ranges_of_bands() {
    let bits = |v: &[f64]| v.iter().map(|x| x.to_bits()).collect::<Vec<u64>>();
    let mut r = BandRange::new();
    let empty = r.bounds();
    assert_eq!((empty.min, empty.max, empty.low, empty.high), (0, 0, 0, 0));
    r.absorb(&bits(&[3.0, -1.5]));
    r.absorb(&bits(&[7.0]));
    let b = r.bounds();
    assert_eq!((f64::from_bits(b.min), f64::from_bits(b.max)), (-1.5, 7.0));
    assert_eq!((f64::from_bits(b.low), f64::from_bits(b.high)), (-1.5, 3.0));
    let mut many = BandRange::new();
    let values: Vec<f64> = (0..101).rev().map(|v| v as f64).collect();
    many.absorb(&bits(&values));
    let b = many.bounds();
    assert_eq!((f64::from_bits(b.low), f64::from_bits(b.high)), (2.0, 98.0));
    let mut full = BandRange::new();
    full.absorb(&vec![1.0f64.to_bits(); 60000]);
    assert_eq!((full.count, full.samples.len()), (60000, 50000));
}

#[test]
fn percentiles_are_at_the_places_of_the_formula() {
    for last in 0..50000usize {
        let low = ((2.0 / 100.0) * last as f64) as usize;
        let high = ((98.0 / 100.0) * last as f64) as usize;
        assert_eq!(last / 50, low);
        assert_eq!(last - (last + 49) / 50, high);
    }
}

#[test]
fn statistics_are_read_chunk_by_chunk() {
    let bits = |v: &[f64]| v.iter().map(|x| x.to_bits()).collect::<Vec<u64>>();
    let mut reader = StatsReader::new(InterleaveType::Chunky, 2, 2, Some(0.0f64.to_bits()));
    assert_eq!(reader.wanted(), Some(0));
    let runs = reader.accept(&bits(&[1.0, 5.0, 0.0, 6.0]), 2);
    assert_eq!(runs.len(), 2);
    assert_eq!((runs[0].0, runs[0].1.len(), runs[1].1.len()), (0, 1, 2));
    reader.accept(&bits(&[2.0, 7.0]), 1);
    assert_eq!(reader.wanted(), None);
    let b = reader.bounds();
    assert_eq!((f64::from_bits(b[0].min), f64::from_bits(b[0].max)), (1.0, 2.0));
    assert_eq!((f64::from_bits(b[1].min), f64::from_bits(b[1].max)), (5.0, 7.0));

    let mut planar = StatsReader::new(InterleaveType::Planar, 3, 2, None);
    planar.accept(&bits(&[4.0]), 1);
    planar.accept(&bits(&[8.0]), 1);
    assert_eq!(planar.wanted(), None);
    let b = planar.bounds();
    assert_eq!((f64::from_bits(b[0].max), f64::from_bits(b[1].max)), (4.0, 8.0));
}

#[test]
fn statistics_do_not_depend_on_the_chunks() {
    let samples: Vec<u64> = (0..60).map(|i: i64| ((i * 37 % 60) as f64).to_bits()).collect();
    let bounds = |size: usize| {
        let chunks = samples.chunks(size).count() as u32;
        let mut reader = StatsReader::new(InterleaveType::Chunky, chunks, 1, None);
        for chunk in samples.chunks(size) {
            reader.accept(chunk, chunk.len());
        }
        assert_eq!(reader.wanted(), None);
        reader.bounds()
    };
    let all = bounds(60)[0];
    let told = [all.min, all.max, all.low, all.high].map(f64::from_bits);
    assert_eq!(told, [0.0, 59.0, 1.0, 57.0]);
    for size in [1, 7, 30] {
        assert_eq!(bounds(size)[0], all);
    }
}

#[test]
fn images_of_a_raster_are_listed() {
    let base = ifd(ChunkType::Tile, 100, 80, 32, 32);
    let subs = sub_ifds(&base, &vec![Some((50, 40)), None, Some((25, 20))]);
    assert_eq!(subs.len(), 2);
    assert_eq!((subs[1].index, subs[1].width, subs[1].chunks_per_row), (2, 25, 1));
    assert_eq!(subs[0].chunks_per_row, 2);
    let all = all_ifds(base, subs, vec![ifd(ChunkType::Strip, 5, 5, 5, 5)]);
    let widths: Vec<u32> = all.iter().map(|i| i.width).collect();
    assert_eq!(widths, vec![100, 50, 25, 5]);
}

#[test]
fn blocks_tile_the_raster() {
    let config = RasterBlockConfig { block_width: 4, block_height: 3, overlap: 1, step: 1 };
    let mut it = RasterBlockIterator::new(ifd(ChunkType::Strip, 10, 7, 10, 7), config, 1);
    let mut seen = vec![0; 70];
    let mut blocks = 0;
    while let Some(g) = it.geometry() {
        for r in g.row_off..g.row_off + g.height {
            for c in g.col_off..g.col_off + g.width {
                seen[(r * 10 + c) as usize] += 1;
            }
        }
        let block = it.next_block(Ok(vec![blocks])).unwrap().unwrap();
        assert_eq!((block.geometry, block.data), (g, vec![blocks]));
        blocks += 1;
    }
    assert_eq!(blocks, 9);
    assert!(seen.iter().all(|n| *n == 1));
    assert!(it.next_block(Ok(vec![0])).is_none());
}

#[test]
fn a_block_that_cannot_be_read_stays() {
    let config = RasterBlockConfig { block_width: 4, block_height: 3, overlap: 2, step: 1 };
    let mut it = RasterBlockIterator::new(ifd(ChunkType::Strip, 10, 7, 10, 7), config, 1);
    let r: Option<Result<_, String>> = it.next_block::<u8>(Err("eof".to_string()));
    assert_eq!(r.unwrap().err(), Some("eof".to_string()));
    assert_eq!(it.current_block, 0);
    it.next_block(Ok(vec![1u8]));
    let g = it.geometry().unwrap();
    assert_eq!((g.block_col, g.col_off, g.width), (1, 4, 4));
    assert_eq!((g.col_off_raw, g.width_raw), (2, 8));
    assert_eq!((g.row_off_raw, g.height_raw), (0, 7));
    let d = RasterBlockConfig::default();
    assert_eq!((d.block_width, d.block_height, d.overlap, d.step), (512, 512, 0, 1));
}

#[test]
fn overviews_are_planned() {
    let plan = generate_ovr(1000, 600, 3, SampleType::U8).expect("a plan");
    assert_eq!(plan.len(), 2);
    assert_eq!((plan[0].src_w, plan[0].src_h, plan[0].width, plan[0].height), (1000, 600, 500, 300));
    assert_eq!((plan[1].src_w, plan[1].src_h, plan[1].width, plan[1].height), (500, 300, 250, 150));
    assert_eq!(plan[1].layout, BandLayout::Rgb);
    assert_eq!(
        generate_ovr(1000, 600, 5, SampleType::U8),
        Err("Cannot generate .ovr for 5 bands (max supported: 4)".to_string())
    );
    assert_eq!(
        generate_ovr(1000, 600, 2, SampleType::F64),
        Err("Unsupported band count 2 for f64 .ovr".to_string())
    );
    assert_eq!(generate_ovr(200, 200, 2, SampleType::F64), Ok(vec![]));
    assert_eq!(
        generate_ovr(257, 1, 1, SampleType::Other),
        Err("Unsupported data type for .ovr generation".to_string())
    );
}

fn probe() -> RasterProbe<i32> {
    RasterProbe {
        width: 10,
        height: 6,
        colour: Some("Gray(8)".to_string()),
        no_data: Some(-1),
        chunk_type: ChunkType::Tile,
        chunk_width: 4,
        chunk_length: 4,
        chunk_count: Some(6),
        planar: None,
        samples_per_pixel: Some(2),
        first_chunk: (0, 0, 0),
        model_type: Some(1),
    }
}

fn position() -> GeoProbe<i32> {
    GeoProbe {
        transform: [1, 2, 3, 4, 5, 6],
        extent: Some([10, 20, 30, 40]),
        plain_extent: [1, 2, 3, 4],
        plain_corners: [(0, 0), (0, 1), (1, 0), (1, 1)],
        zoom: Some(30),
    }
}

#[test]
fn files_tell_of_rasters() {
    let info = open_raster_metadata(probe(), &position(), |x, y| Some((x * 2, y * 3)));
    assert_eq!((info.width, info.height, info.bands, info.max_zoom), (10, 6, 2, 22));
    assert_eq!((info.chunk_count, info.chunks_per_row), (6, 3));
    assert_eq!((info.data_type.as_str(), info.crs_type.as_str()), ("Gray(8)", "Projected"));
    assert_eq!(info.interleave, InterleaveType::Chunky);
    assert_eq!(info.wgs84_corners, [(10, 20), (30, 20), (10, 40), (30, 40)]);
    assert_eq!(info.native_corners, [(20, 60), (60, 60), (20, 120), (60, 120)]);
    let partly = |x: i32, y: i32| if x > 20 { None } else { Some((x, y)) };
    let info = open_raster_metadata(probe(), &position(), partly);
    assert_eq!(info.native_corners, position().plain_corners);
    let bare = RasterProbe {
        colour: None,
        chunk_count: None,
        planar: Some(2),
        samples_per_pixel: None,
        first_chunk: (48, 4, 4),
        model_type: None,
        ..probe()
    };
    let nowhere = GeoProbe { extent: None, zoom: None, ..position() };
    let info = open_raster_metadata(bare, &nowhere, partly);
    assert_eq!((info.bands, info.chunk_count, info.max_zoom), (3, 1, 22));
    assert_eq!((info.data_type.as_str(), info.crs_type.as_str()), ("Unknown", "Unknown"));
    assert_eq!(info.interleave, InterleaveType::Planar);
    assert_eq!(info.wgs84_corners, [(1, 2), (3, 2), (1, 4), (3, 4)]);
    assert_eq!(info.native_corners, info.wgs84_corners);
}

#[test]
fn rasters_are_read_in_steps() {
    let strips = RasterProbe {
        width: 2,
        height: 2,
        chunk_type: ChunkType::Strip,
        chunk_width: 2,
        chunk_length: 1,
        chunk_count: Some(2),
        ..probe()
    };
    let told_alone = open_raster_metadata(strips, &position(), |_, _| None);
    let info = open_raster_metadata(
        RasterProbe {
            width: 2,
            height: 2,
            chunk_type: ChunkType::Strip,
            chunk_width: 2,
            chunk_length: 1,
            chunk_count: Some(2),
            ..probe()
        },
        &position(),
        |_, _| None,
    );
    let bits = |v: &[f64]| v.iter().map(|x| x.to_bits()).collect::<Vec<u64>>();
    let no_data = Some((-1f64).to_bits());
    let (mut loader, told) = RasterLoader::new("a.tif", info, GeoKeyInfo::default(), no_data);
    assert_eq!(told.len(), 2);
    assert!(matches!(&told[0], RasterLoadProgress::FileOpened { bands: 2, interleave, .. }
        if interleave == "Chunky"));
    assert!(matches!(&told[1], RasterLoadProgress::GeoInfoReady { max_zoom: 22, .. }));
    assert_eq!(loader.wanted(), Some(0));
    let (runs, told) = loader.accept(&bits(&[1.0, 10.0, -1.0, 20.0]), 2);
    assert_eq!(runs, vec![(0, bits(&[1.0])), (1, bits(&[10.0, 20.0]))]);
    assert!(matches!(told, RasterLoadProgress::StatsProgress { chunks_done: 1, chunk_count: 2 }));
    let (_, told) = loader.accept(&bits(&[5.0, 30.0, 3.0, 40.0]), 2);
    assert!(matches!(told, RasterLoadProgress::StatsProgress { chunks_done: 2, chunk_count: 2 }));
    assert_eq!(loader.wanted(), None);
    let told = loader.complete(vec![3, 25], vec![1, 2], |b| f64::from_bits(b) as i32);
    let stats = loader.stats.as_ref().expect("statistics");
    assert_eq!((&stats.min_values, &stats.max_values), (&vec![1, 10], &vec![5, 40]));
    assert_eq!((&stats.mean_values, &stats.std_dev_values), (&vec![3, 25], &vec![1, 2]));
    assert_eq!(stats.percentile_bounds, Some(vec![(1, 3), (10, 30)]));
    assert!(matches!(&told, RasterLoadProgress::StatsComplete { max_values, .. }
        if max_values == &vec![5, 40]));
    assert_eq!(loader.find_images(&vec![Some((1, 1)), None]), 2);
    let images = &loader.images;
    assert_eq!((images[1].index, images[1].width, images[1].chunks_per_row), (1, 1, 1));
    let external = vec![ifd(ChunkType::Strip, 9, 9, 9, 9)];
    let (raster, told) = loader.finish(Some("a.tif.ovr".to_string()), external);
    assert_eq!((raster.file_path.as_str(), raster.bands, raster.ifds.len()), ("a.tif", 2, 3));
    assert_eq!((raster.ifds[2].width, &raster.stats.max_values), (9, &vec![5, 40]));
    assert_eq!((told_alone.width, told_alone.height), (raster.width, raster.height));
    assert_eq!((told_alone.bands, told_alone.max_zoom), (raster.bands, raster.max_zoom));
    assert_eq!((told_alone.data_type, told_alone.crs_type), (raster.data_type, raster.crs_type));
    assert_eq!(told_alone.geo_transform, raster.geo_transform);
    assert_eq!(told_alone.wgs84_corners, raster.wgs84_corners);
    assert_eq!(told_alone.native_corners, raster.native_corners);
    assert!(matches!(&told[0], RasterLoadProgress::OverviewsReady { total_ifds: 3, ovr_path }
        if ovr_path.as_deref() == Some("a.tif.ovr")));
    assert!(matches!(&told[1], RasterLoadProgress::Ready));
}
