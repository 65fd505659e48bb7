use simple_geo_server::gpu_renderer::{
    aligned, check_source_size, is_gpu_available, rendered_pixels, shader_bands,
    shader_resampling, TileRenderResult,
};
use simple_geo_server::render_farm::{
    channel_closed, gpu_pixels, job_priority, use_gpu, RenderFarm, TileJob,
};
use simple_geo_server::resample::{
    bicubic_taps, bilinear_taps, compute_stretch_bounds, lanczos_taps, BandStats, ResamplingMode,
    StretchConfig, StretchMethod,
};
use simple_geo_server::tile::raster_render::{
    band_indices, compose_pixel, draw, finish_tile, in_image, in_raster, map_background,
    nearest_place, nearest_value, paint, plan_read, png_answer, read_size, read_step, render_map_bbox,
    render_raster_tile_ex, render_raster_tile_webp, render_single_tile, source_window, to_png,
    to_webp, ShownBands, SourceWindow,
};

#[test]
fn modes_have_names() {
    assert_eq!(ResamplingMode::from_str("nearest"), ResamplingMode::NearestNeighbor);
    assert_eq!(ResamplingMode::from_str("Nearest-Neighbor"), ResamplingMode::NearestNeighbor);
    assert_eq!(ResamplingMode::from_str("BILINEAR"), ResamplingMode::Bilinear);
    assert_eq!(ResamplingMode::from_str("bicubic"), ResamplingMode::Bicubic);
    assert_eq!(ResamplingMode::from_str("lanczos"), ResamplingMode::Lanczos3);
    assert_eq!(ResamplingMode::from_str("lanczos3"), ResamplingMode::Lanczos3);
    assert_eq!(ResamplingMode::from_str("other"), ResamplingMode::NearestNeighbor);
    assert_eq!(ResamplingMode::Bicubic.code(), 2);
    assert_eq!(StretchMethod::from_str("min-max"), StretchMethod::MinMax);
    assert_eq!(StretchMethod::from_str("Percentile"), StretchMethod::Percentile);
    assert_eq!(StretchMethod::from_str("stddev"), StretchMethod::StdDev);
    assert_eq!(StretchMethod::from_str("standard-deviation"), StretchMethod::StdDev);
}

fn stats(percentiles: Option<Vec<(f64, f64)>>) -> BandStats<f64> {
    BandStats {
        min_values: vec![0.0, 1.0],
        max_values: vec![10.0, 11.0],
        mean_values: vec![5.0, 6.0],
        std_dev_values: vec![1.0, 2.0],
        percentile_bounds: percentiles,
    }
}

fn stretch(method: StretchMethod, factor: Option<f64>) -> StretchConfig<f64> {
    StretchConfig { method, min_percent: None, max_percent: None, std_dev_factor: factor }
}

#[test]
fn bounds_of_a_stretch() {
    let spread = |mean: f64, dev: f64, k: Option<f64>| {
        let f = k.unwrap_or(2.0).abs();
        (mean - f * dev, mean + f * dev)
    };
    let s = stats(Some(vec![(2.0, 8.0), (3.0, 9.0)]));
    assert_eq!(compute_stretch_bounds(&s, 2, None, spread), vec![(0.0, 10.0), (1.0, 11.0)]);
    let minmax = stretch(StretchMethod::MinMax, None);
    assert_eq!(compute_stretch_bounds(&s, 1, Some(&minmax), spread), vec![(0.0, 10.0)]);
    let percent = stretch(StretchMethod::Percentile, None);
    assert_eq!(
        compute_stretch_bounds(&s, 2, Some(&percent), spread),
        vec![(2.0, 8.0), (3.0, 9.0)]
    );
    assert_eq!(
        compute_stretch_bounds(&stats(None), 2, Some(&percent), spread),
        vec![(0.0, 10.0), (1.0, 11.0)]
    );
    let dev = stretch(StretchMethod::StdDev, Some(-3.0));
    assert_eq!(
        compute_stretch_bounds(&s, 2, Some(&dev), spread),
        vec![(2.0, 8.0), (0.0, 12.0)]
    );
}

#[test]
fn neighbours_of_a_point() {
    assert_eq!(bilinear_taps(1, 1, 4, 3, 2, 1, 24), (11, 13, 19, 21));
    assert_eq!(bilinear_taps(3, 2, 4, 3, 1, 0, 12), (11, 11, 11, 11));
    let taps = bicubic_taps(0, 0, 4, 3, 1, 0, 12);
    assert_eq!(taps, vec![0, 0, 1, 2, 0, 0, 1, 2, 4, 4, 5, 6, 8, 8, 9, 10]);
    let taps = lanczos_taps(0, 0, 2, 2, 1, 0, 4);
    let list: Vec<(i64, i64, usize)> = taps.iter().map(|t| (t.dy, t.dx, t.place)).collect();
    assert_eq!(list, vec![(0, 0, 0), (0, 1, 1), (1, 0, 2), (1, 1, 3)]);
    assert_eq!(lanczos_taps(10, 10, 30, 30, 1, 0, 900).len(), 36);
}

#[test]
fn the_part_of_an_image_for_a_picture() {
    let coords = vec![(50, 60), (90, 60), (50, 100), (90, 100)];
    let w = source_window(&coords, 1000, 800);
    assert_eq!(w, SourceWindow { col_off: 40, row_off: 50, src_w: 60, src_h: 60 });
    let none = source_window(&vec![], 1000, 800);
    assert_eq!(none, SourceWindow { col_off: 0, row_off: 0, src_w: 20, src_h: 20 });
    let left = source_window(&vec![(-500, -5), (30, 20)], 100, 100);
    assert_eq!(left, SourceWindow { col_off: 0, row_off: 0, src_w: 50, src_h: 40 });
    let right = source_window(&vec![(5000, 7000)], 100, 100);
    assert_eq!(right, SourceWindow { col_off: 99, row_off: 99, src_w: 1, src_h: 1 });
    let before = source_window(&vec![(-500, -500), (-400, -400)], 100, 100);
    assert_eq!(before, SourceWindow { col_off: 0, row_off: 0, src_w: 1, src_h: 1 });
}

#[test]
fn large_parts_are_thinned_out() {
    assert_eq!(read_step(false, 1024, 1024, 9), 1);
    assert_eq!(read_step(false, 1025, 1024, 2), 2);
    assert_eq!(read_step(false, 1025, 1024, 0), 1);
    assert_eq!(read_step(true, 5000, 5000, 5), 1);
    assert_eq!(read_size(10, 3), 4);
    assert_eq!(read_size(0, 3), 0);
    assert_eq!(read_size(u32::MAX, 1), u32::MAX);
    let w = SourceWindow { col_off: 0, row_off: 0, src_w: 3000, src_h: 2000 };
    let p = plan_read(w, false, 3);
    assert_eq!((p.step, p.read_w, p.read_h), (3, 1000, 667));
}

#[test]
fn samples_of_a_pixel() {
    let region: Vec<u64> = (0..24).collect();
    assert_eq!(nearest_place(1, 2, 4, 2, 3, 1, 24), Some(19));
    assert_eq!(nearest_place(2, 0, 4, 2, 3, 0, 24), None);
    assert_eq!(nearest_place(0, -1, 4, 2, 3, 0, 24), None);
    assert_eq!(nearest_place(1, 3, 4, 2, 3, 2, 23), None);
    assert_eq!(nearest_value(&region, 1, 2, 4, 2, 3, 2), 20);
    assert_eq!(nearest_value(&region, 1, 2, 4, 2, 3, 0), 18);
    assert_eq!(nearest_value(&region, 1, 2, 12, 2, 1, 0), 14);
    assert!(f64::from_bits(nearest_value(&region, 9, 0, 4, 2, 3, 0)).is_nan());
    assert!(f64::from_bits(nearest_value(&region, 0, 0, 4, 2, 3, 7)).is_nan());
    assert_eq!(band_indices(&[1, 3]), vec![0, 2]);
}

/// A raster of three bands whose samples tell the band, the row and the column.
fn banded(row: i64, col: i64, band: usize) -> u64 {
    ((band * 100) as f64 + (row * 10 + col) as f64).to_bits()
}

fn plain_level(_band: usize, bits: u64) -> u8 {
    f64::from_bits(bits) as u8
}

#[test]
fn pictures_of_a_raster() {
    let shown = ShownBands { bands: 3, indices: vec![2, 0, 1], no_data: Some(11f64.to_bits()) };
    let locate = |x: u32, y: u32| if x == 2 { None } else { Some((y as i64, x as i64)) };
    let sample = |p: &(i64, i64), band: usize| banded(p.0, p.1, band);
    let (rgba, rendered) = draw(&shown, 3, 2, [1, 2, 3, 4], locate, sample, plain_level);
    assert_eq!(rendered, 3);
    assert_eq!(&rgba[0..4], &[200, 0, 100, 255]);
    assert_eq!(&rgba[4..8], &[201, 1, 101, 255]);
    assert_eq!(&rgba[8..12], &[1, 2, 3, 4]);
    assert_eq!(&rgba[12..16], &[210, 10, 110, 255]);
    assert_eq!(&rgba[16..24], &[1, 2, 3, 4, 1, 2, 3, 4]);
    let gray = ShownBands { bands: 1, indices: vec![5], no_data: None };
    let (rgba, rendered) = draw(&gray, 2, 1, [0, 0, 0, 0], locate, sample, plain_level);
    assert_eq!((rgba, rendered), (vec![0, 0, 0, 255, 1, 1, 1, 255], 2));
    let missing = ShownBands { bands: 3, indices: vec![0, 9], no_data: None };
    let (rgba, rendered) = draw(&missing, 1, 1, [7, 7, 7, 7], locate, sample, plain_level);
    assert_eq!((rgba, rendered), (vec![7, 7, 7, 7], 0));
    let none = ShownBands { bands: 0, indices: vec![0], no_data: None };
    let (_, rendered) = draw(&none, 1, 1, [7, 7, 7, 7], locate, sample, plain_level);
    assert_eq!(rendered, 0);
}

#[test]
fn tiles_and_maps_of_a_raster() {
    let shown = ShownBands { bands: 3, indices: vec![0, 1, 2], no_data: None };
    let locate = |x: u32, y: u32| if x > y { None } else { Some((y as i64, x as i64)) };
    let sample = |p: &(i64, i64), band: usize| banded(p.0, p.1, band);
    let (rgba, rendered) = render_raster_tile_ex(&shown, 2, true, locate, sample, plain_level)
        .expect("bytes");
    assert_eq!(rendered, 3);
    assert_eq!(&rgba[0..8], &[0, 100, 200, 255, 0, 0, 0, 0]);
    assert_eq!(&rgba[8..16], &[10, 110, 210, 255, 11, 111, 211, 255]);
    let (png, rendered) = render_raster_tile_ex(&shown, 2, false, locate, sample, plain_level)
        .expect("a file");
    assert_eq!(rendered, 3);
    assert_eq!(png, to_png(&rgba, 2, 2).expect("a file"));
    assert_eq!(&png[1..4], b"PNG");
    let (raw, count, format) =
        render_single_tile(&shown, 2, "raw-rgba", locate, sample, plain_level).expect("bytes");
    assert_eq!((raw, count, format.as_str()), (rgba, 3, "raw-rgba"));
    let (file, count, format) =
        render_single_tile(&shown, 2, "png", locate, sample, plain_level).expect("a file");
    assert_eq!((file, count, format.as_str()), (png, 3, "png"));
    let map = render_map_bbox(&shown, 2, 2, false, locate, sample, plain_level).expect("a file");
    let (white, _) = draw(&shown, 2, 2, [255, 255, 255, 255], locate, sample, plain_level);
    assert_eq!(&white[4..8], &[255, 255, 255, 255]);
    assert_eq!(map, to_png(&white, 2, 2).expect("a file"));
    let clear = render_map_bbox(&shown, 2, 2, true, locate, sample, plain_level).expect("a file");
    assert!(clear != map);
}

#[test]
fn tiles_with_losses() {
    let shown = ShownBands { bands: 3, indices: vec![0, 1, 2], no_data: None };
    let locate = |x: u32, y: u32| if x > y { None } else { Some((y as i64, x as i64)) };
    let sample = |p: &(i64, i64), band: usize| banded(p.0, p.1, band);
    let (file, rendered) =
        render_raster_tile_webp(&shown, 16, locate, sample, plain_level).expect("a file");
    let (rgba, _) = draw(&shown, 16, 16, [0, 0, 0, 0], locate, sample, plain_level);
    assert_eq!(rendered, 136);
    assert_eq!(&file[0..4], b"RIFF");
    assert_eq!(&file[8..12], b"WEBP");
    assert_eq!(Some(file), to_webp(&rgba, 16));
    assert_eq!(to_webp(&[], 0), None);
}

/// A raster over the middle of a picture.
fn middle(x: u32, y: u32) -> Option<(i64, i64)> {
    if (64..192).contains(&x) && (64..192).contains(&y) {
        Some((y as i64 % 10, x as i64 % 10))
    } else {
        None
    }
}

#[test]
fn test_outside_tile_returns_transparent_png() {
    for bands in [1, 3, 8] {
        let shown = ShownBands { bands, indices: vec![0, 1, 2], no_data: None };
        let nowhere = |_x: u32, _y: u32| None::<(i64, i64)>;
        let sample = |p: &(i64, i64), band: usize| banded(p.0, p.1, band);
        let (png, rendered) =
            render_raster_tile_ex(&shown, 256, false, nowhere, sample, plain_level).expect("a file");
        assert_eq!(rendered, 0);
        let image = image::load_from_memory(&png).expect("a picture").to_rgba8();
        assert_eq!((image.width(), image.height()), (256, 256));
        for pixel in image.pixels() {
            assert_eq!(pixel.0, [0, 0, 0, 0]);
        }
    }
}

#[test]
fn test_inside_tile_has_rendered_pixels() {
    for bands in [1, 3, 8] {
        let shown = ShownBands { bands, indices: vec![0, 1, 2], no_data: None };
        let sample = |p: &(i64, i64), band: usize| banded(p.0, p.1, band);
        let (png, rendered) =
            render_raster_tile_ex(&shown, 256, false, middle, sample, plain_level).expect("a file");
        assert!(rendered > 0);
        assert_eq!(rendered, 128 * 128);
        let image = image::load_from_memory(&png).expect("a picture").to_rgba8();
        assert_eq!((image.width(), image.height()), (256, 256));
        assert_eq!(image.pixels().filter(|p| p.0[3] == 255).count(), 128 * 128);
        assert!(image.pixels().all(|p| p.0[3] == 255 || p.0 == [0, 0, 0, 0]));
    }
}

#[test]
fn points_next_to_a_raster_are_outside() {
    let inside = |u: f64, v: f64| in_raster(u.to_bits(), v.to_bits());
    assert!(inside(0.0, 0.0) && inside(1.0, 1.0) && inside(0.5, -0.0));
    assert!(!inside(1.0 + f64::EPSILON, 0.5) && !inside(0.5, -1e-300));
    assert!(in_image(0, 3, 2, 4) && !in_image(2, 0, 2, 4) && !in_image(0, -1, 2, 4));
    assert!(!in_image(-1, 0, 2, 4) && !in_image(0, 4, 2, 4));
    assert!(!inside(f64::NAN, 0.5) && !inside(0.5, f64::NAN) && !inside(0.5, f64::INFINITY));
}

#[test]
fn the_flag_of_a_map_chooses_its_background() {
    let shown = ShownBands { bands: 3, indices: vec![0, 1, 2], no_data: None };
    let sample = |p: &(i64, i64), band: usize| banded(p.0, p.1, band);
    let map = |transparent: bool| {
        let png = render_map_bbox(&shown, 200, 80, transparent, middle, sample, plain_level);
        image::load_from_memory(&png.expect("a file")).expect("a picture").to_rgba8()
    };
    let (t, f) = (map(true), map(false));
    assert_eq!((t.width(), t.height(), f.width(), f.height()), (200, 80, 200, 80));
    let mut drawn = 0;
    for (a, b) in t.pixels().zip(f.pixels()) {
        assert_eq!(b.0[3], 255);
        if a.0[3] == 255 {
            assert_eq!(a.0, b.0);
            drawn += 1;
        } else {
            assert_eq!((a.0, b.0), ([0, 0, 0, 0], [255, 255, 255, 255]));
        }
    }
    assert_eq!(drawn, 128 * 16);
}

#[test]
fn test_adjacent_outside_tile_is_empty() {
    let shown = ShownBands { bands: 3, indices: vec![0, 1, 2], no_data: None };
    let sample = |p: &(i64, i64), band: usize| banded(p.0, p.1, band);
    let north = |x: u32, y: u32| if y < 256 { None } else { middle(x, y) };
    let (_, rendered) = render_raster_tile_ex(&shown, 256, false, north, sample, plain_level)
        .expect("adjacent north tile should not error");
    assert_eq!(rendered, 0);
    let east = |x: u32, y: u32| middle(x + 256, y);
    let (_, rendered) = render_raster_tile_ex(&shown, 256, false, east, sample, plain_level)
        .expect("adjacent east tile should not error");
    assert_eq!(rendered, 0);
}

#[test]
fn colours_of_a_pixel() {
    let v = |x: f64| x.to_bits();
    assert_eq!(compose_pixel(1, &[], &[v(5.0)], &[9], None), Some([9, 9, 9, 255]));
    assert_eq!(compose_pixel(2, &[1], &[v(5.0)], &[9], Some(v(5.0))), None);
    assert_eq!(compose_pixel(1, &[], &[v(f64::NAN)], &[9], None), None);
    let three = [v(1.0), v(2.0), v(3.0)];
    assert_eq!(compose_pixel(3, &[2, 1, 0], &three, &[7, 8, 9], None), Some([7, 8, 9, 255]));
    assert_eq!(compose_pixel(3, &[2, 1, 0], &three, &[7, 8, 9], Some(v(3.0))), None);
    assert_eq!(compose_pixel(3, &[0, 5, 0], &three, &[7, 8, 9], None), None);
    assert_eq!(compose_pixel(4, &[0, 1], &three[..2], &[7, 8], None), Some([7, 8, 0, 255]));
    assert_eq!(compose_pixel(4, &[], &[], &[], None), Some([0, 0, 0, 255]));
}

#[test]
fn pictures_hold_their_pixels() {
    let shade = |x: u32, y: u32| if (x + y) % 2 == 0 { Some([x as u8, y as u8, 1, 255]) } else { None };
    let (bytes, count) = paint(3, 2, map_background(false), shade);
    assert_eq!(count, 3);
    assert_eq!(bytes.len(), 24);
    assert_eq!(&bytes[0..4], &[0, 0, 1, 255]);
    assert_eq!(&bytes[4..8], &[255, 255, 255, 255]);
    assert_eq!(&bytes[16..20], &[1, 1, 1, 255]);
    assert_eq!(map_background(true), [0, 0, 0, 0]);
}

#[test]
fn an_empty_tile_is_a_transparent_file() {
    let (rgba, rendered) = paint(256, 256, map_background(true), |_x, _y| None);
    assert_eq!(rendered, 0);
    let (png, count) = finish_tile(rgba, 256, rendered, false).unwrap();
    assert_eq!(count, 0);
    let image = image::load_from_memory(&png).unwrap().to_rgba8();
    assert_eq!((image.width(), image.height()), (256, 256));
    assert!(image.pixels().all(|p| p.0 == [0, 0, 0, 0]));
}

#[test]
fn a_file_of_a_picture_is_the_picture() {
    let (rgba, _) = paint(5, 5, [0, 0, 0, 0], |x, y| Some([x as u8, y as u8, 9, 255]));
    let png = to_png(&rgba, 5, 5).unwrap();
    assert_eq!(&png[1..4], b"PNG");
    assert_eq!(image::load_from_memory(&png).unwrap().to_rgba8().into_raw(), rgba);
    let (raw, n) = finish_tile(rgba.clone(), 5, 25, true).unwrap();
    assert_eq!((raw, n), (rgba, 25));
    let error = to_png(&[], 0, 0).unwrap_err();
    assert!(error.starts_with("PNG encode error: "));
    assert_eq!(png_answer(Err("x".to_string())), Err("PNG encode error: x".to_string()));
    assert_eq!(png_answer(Ok(vec![1])), Ok(vec![1]));
}

fn job(z: u32, x: u32, y: u32) -> TileJob<f64> {
    TileJob {
        path: "a.tif".to_string(),
        z,
        x,
        y,
        bands: vec![1],
        stretch: None,
        resampling: ResamplingMode::NearestNeighbor,
        priority: job_priority(z, x, y),
    }
}

#[test]
fn jobs_come_by_zoom_level_column_and_row() {
    assert_eq!(job_priority(1, 2, 3), (1 << 40) + (2 << 20) + 3);
    let mut farm: RenderFarm<f64> = RenderFarm::new();
    assert_eq!(farm.submit(job(2, 0, 0), 1), None);
    assert_eq!(farm.submit(job(1, 5, 0), 2), None);
    assert_eq!(farm.submit(job(1, 4, 9), 3), None);
    let order: Vec<(u32, u32)> = (0..3).map(|_| farm.next_job().map(|j| (j.z, j.x)).unwrap()).collect();
    assert_eq!(order, vec![(1, 4), (1, 5), (2, 0)]);
    assert!(farm.next_job().is_none());
    assert_eq!(farm.finish(1, 5, 0), Some(2));
    assert_eq!(farm.finish(1, 5, 0), None);
    assert_eq!(farm.finish(2, 0, 0), Some(1));
}

#[test]
fn a_second_request_for_a_tile_replaces_the_first() {
    let mut farm: RenderFarm<f64> = RenderFarm::new();
    assert_eq!(farm.submit(job(1, 1, 1), 10), None);
    assert_eq!(farm.submit(job(1, 1, 1), 11), Some(10));
    assert_eq!(farm.queue.len(), 2);
    assert_eq!(farm.finish(1, 1, 1), Some(11));
    assert_eq!(channel_closed(), "Render farm: response channel closed");
}

#[test]
fn the_graphics_processor() {
    let tile = |n: u32| Ok(TileRenderResult { rgba: vec![1, 2, 3, 4], rendered_pixels: n });
    assert_eq!(gpu_pixels(tile(1)), Some(vec![1, 2, 3, 4]));
    assert_eq!(gpu_pixels(tile(0)), None);
    assert_eq!(gpu_pixels(Err("lost".to_string())), None);
    assert!(use_gpu(true, 1024, 1024, 1));
    assert!(!use_gpu(true, 1025, 10, 1) && !use_gpu(false, 1, 1, 1) && !use_gpu(true, 1, 1, 0));
    assert!(is_gpu_available(&Some(1)) && !is_gpu_available::<u8>(&None));
    assert_eq!(check_source_size(10, 40), Ok(()));
    assert_eq!(
        check_source_size(11, 40),
        Err("Source data too large for GPU buffer: 44 bytes, max is 40 bytes".to_string())
    );
    assert_eq!(shader_bands(&[4, 5]), (4, 5, 0));
    assert_eq!(shader_resampling(ResamplingMode::Lanczos3), 1);
    assert_eq!(shader_resampling(ResamplingMode::Bicubic), 2);
    assert_eq!(rendered_pixels(&[0, 0, 0, 0, 1, 1, 1, 255, 9, 9, 9, 1]), 2);
    assert_eq!(aligned(108, 256), 256);
    assert_eq!(aligned(256, 256), 256);
    for n in 0..1000u64 {
        assert_eq!(aligned(n, 256), (n + 255) & !255);
    }
}
