use simple_geo_server::paths::{
    directory_size_bytes, fallback_handler, file_ext, file_name, filter_dotfiles, is_raster_ext,
    is_vector_ext, lower_ext, mime_type, path_goes_up, path_is_under, set_cache_header,
    static_path, static_type, validate_path, with_extension, Probe, StaticAnswer, StaticProbe,
};

fn found(base: &str, file: &str) -> Probe {
    Probe::Found { base: base.to_string(), file: file.to_string() }
}

#[test]
fn test_validate_path_rejects_parent_dir() {
    let result = validate_path("../etc/passwd", &vec![found("/srv", "/srv/allowed.tif")]);
    assert!(result.is_err());
    let err = result.unwrap_err();
    assert_eq!(err.status, 400);
    assert_eq!(err.message, "Path traversal detected");
}

#[test]
fn test_validate_path_rejects_absolute_path() {
    let result = validate_path("/etc/passwd", &vec![found("/srv", "/srv/allowed.tif")]);
    assert!(result.is_err());
    let err = result.unwrap_err();
    assert_eq!(err.status, 400);
    assert_eq!(err.message, "Absolute path not allowed");
}

#[test]
fn test_validate_path_rejects_nonexistent_file() {
    let result = validate_path("nonexistent.tif", &vec![Probe::Missing]);
    assert!(result.is_err());
    let err = result.unwrap_err();
    assert_eq!(err.status, 404);
    assert_eq!(err.message, "File not found: nonexistent.tif");
}

#[test]
fn test_validate_path_accepts_valid_file() {
    let result = validate_path("allowed.tif", &vec![found("/srv", "/srv/allowed.tif")]);
    assert!(result.is_ok());
    assert!(result.unwrap().starts_with("/srv"));
}

#[test]
fn test_validate_path_rejects_deep_traversal() {
    let result = validate_path("subdir/../../etc/passwd", &vec![Probe::Missing]);
    assert!(result.is_err());
    let err = result.unwrap_err();
    assert_eq!(err.status, 400);
    assert_eq!(err.message, "Path traversal detected");
}

#[test]
fn test_validate_path_accepts_subdir_valid_file() {
    let result = validate_path("nested/data.tif", &vec![found("/srv", "/srv/nested/data.tif")]);
    assert!(result.is_ok());
}

#[test]
fn test_validate_path_accepts_allowed_path_file() {
    let probes = vec![Probe::Missing, found("/outer", "/outer/external.tif")];
    let result = validate_path("external.tif", &probes);
    assert!(result.is_ok());
    assert!(result.unwrap().starts_with("/outer"));
}

#[test]
fn test_validate_path_rejects_outside_allowed_paths() {
    let result = validate_path("external.tif", &vec![Probe::Missing]);
    assert!(result.is_err());
}

#[test]
fn a_link_out_of_the_base_is_not_served() {
    let probes = vec![found("/srv", "/srvx/data.tif"), found("/srv", "/etc/data.tif")];
    let err = validate_path("data.tif", &probes).unwrap_err();
    assert_eq!(err.status, 404);
}

#[test]
fn probes_that_fail_decide() {
    let err = validate_path("a.tif", &vec![Probe::BaseInvalid, found("/b", "/b/a.tif")]).unwrap_err();
    assert_eq!((err.status, err.message.as_str()), (500, "Invalid base directory"));
    let err = validate_path("a.tif", &vec![Probe::FileInvalid, found("/b", "/b/a.tif")]).unwrap_err();
    assert_eq!((err.status, err.message.as_str()), (404, "File not found: a.tif"));
}

#[test]
fn containment_goes_by_segments() {
    assert!(path_is_under("/srv/data", "/srv/data/a.tif"));
    assert!(path_is_under("/srv/data/", "/srv/data"));
    assert!(path_is_under("/", "/etc"));
    assert!(!path_is_under("/srv/data", "/srv/database/a.tif"));
    assert!(!path_is_under("/srv/data", "/srv"));
}

#[test]
fn extensions_of_names() {
    assert_eq!(file_ext("a/b.tif"), "tif");
    assert_eq!(file_ext("a.b/c"), "");
    assert_eq!(file_ext(".bashrc"), "");
    assert_eq!(file_ext("archive.tar.gz"), "gz");
    assert_eq!(file_ext("a."), "");
    assert_eq!(file_ext("a.tif/"), "tif");
    assert_eq!(file_ext("a.tif/."), "tif");
    assert_eq!(file_ext("dir/.."), "");
    assert_eq!(file_ext("..a"), "a");
    assert_eq!(lower_ext("IMAGE.TIFF"), "tiff");
}

#[test]
fn extensions_agree_with_std() {
    let paths = [
        "a/b.tif", "a.b/c", ".bashrc", "x.tar.gz", "a.", "a.tif/", "a.tif/.", "dir/..", "/", ".",
        "./", "/.", "a/./b.c/./", "..", "a..b", "", "a/b/", "/x.y",
    ];
    for p in paths {
        let path = std::path::Path::new(p);
        let ext = path.extension().and_then(|e| e.to_str()).unwrap_or("");
        assert_eq!(file_ext(p), ext);
        let name = path.file_name().and_then(|e| e.to_str()).map(|e| e.to_string());
        assert_eq!(file_name(p), name);
        let replaced = path.with_extension("ovr").to_string_lossy().to_string();
        assert_eq!(with_extension(p, "ovr"), replaced);
    }
}

#[test]
fn a_replaced_extension_is_there() {
    assert_eq!(with_extension("data/map.tif", "tfw"), "data/map.tfw");
    assert_eq!(with_extension("data/map", "prj"), "data/map.prj");
    assert_eq!(file_ext(&with_extension("data/map.tif", "prj")), "prj");
}

#[test]
fn test_dotfile_filter_blocks_dotfiles() {
    assert!(filter_dotfiles("/.env"));
}

#[test]
fn test_dotfile_filter_allows_normal_files() {
    assert!(!filter_dotfiles("/welcome.txt"));
    assert!(filter_dotfiles("/a/.git/config"));
    assert!(!filter_dotfiles("/a//b"));
    assert!(!filter_dotfiles("/a.b/c"));
}

#[test]
fn test_serve_dir_serves_normal_file() {
    assert_eq!(fallback_handler("/welcome.txt", &vec![StaticProbe::File]), StaticAnswer::File(0));
}

#[test]
fn test_dotfile_filter_disabled_serves_dotfiles() {
    assert_eq!(fallback_handler("/.env", &vec![StaticProbe::File]), StaticAnswer::File(0));
}

#[test]
fn test_serve_dir_rejects_parent_dir_traversal() {
    assert_eq!(
        fallback_handler("/../etc/passwd", &vec![StaticProbe::File]),
        StaticAnswer::BadRequest
    );
}

#[test]
fn test_serve_dir_rejects_url_encoded_traversal() {
    assert_eq!(
        fallback_handler("/%2e%2e/etc/passwd", &vec![StaticProbe::Nothing]),
        StaticAnswer::NotFound
    );
}

#[test]
fn test_serve_dir_rejects_deep_traversal() {
    assert_eq!(
        fallback_handler("/subdir/../../etc/passwd", &vec![StaticProbe::File]),
        StaticAnswer::BadRequest
    );
}

#[test]
fn test_tile_info_falls_to_serve_dir_on_traversal() {
    assert_eq!(
        fallback_handler("/api/tiles/../../etc/passwd/info", &vec![StaticProbe::File]),
        StaticAnswer::BadRequest
    );
}

#[test]
fn test_tile_png_falls_to_serve_dir_on_traversal() {
    assert_eq!(
        fallback_handler("/api/tiles/../../etc/passwd/png/0/0/0", &vec![StaticProbe::File]),
        StaticAnswer::BadRequest
    );
}

#[test]
fn test_ogc_wmts_traversal_falls_to_serve_dir() {
    let path = "/ogc/wmts/1.0.0/../../etc/passwd/default/GoogleMapsCompatible/0/0/0";
    assert_eq!(fallback_handler(path, &vec![StaticProbe::File]), StaticAnswer::BadRequest);
}

#[test]
fn test_ogc_tms_traversal_falls_to_serve_dir() {
    let path = "/ogc/tms/1.0.0/../../etc/passwd/0/0/0";
    assert_eq!(fallback_handler(path, &vec![StaticProbe::File]), StaticAnswer::BadRequest);
}

#[test]
fn test_tilejson_traversal_falls_to_serve_dir() {
    let path = "/ogc/tilejson/../../etc/passwd";
    assert_eq!(fallback_handler(path, &vec![StaticProbe::File]), StaticAnswer::BadRequest);
}

#[test]
fn the_first_directory_with_an_answer_serves() {
    let probes = vec![StaticProbe::Nothing, StaticProbe::Index, StaticProbe::File];
    assert_eq!(fallback_handler("/docs", &probes), StaticAnswer::Index(1));
    assert_eq!(static_type("/docs", StaticAnswer::Index(1)), "text/html");
    assert_eq!(static_type("/a.css", StaticAnswer::File(0)), "text/css");
    assert_eq!(fallback_handler("/docs", &vec![]), StaticAnswer::NotFound);
    assert_eq!(static_path("//a/b"), "a/b");
    assert!(path_goes_up("a/.."));
    assert!(!path_goes_up("a/..b"));
}

#[test]
fn media_types() {
    let expected = [
        ("a.html", "text/html"), ("a.js", "application/javascript"), ("a.CSS", "text/css"),
        ("a.png", "image/png"), ("a.jpg", "image/jpeg"), ("a.jpeg", "image/jpeg"),
        ("a.gif", "image/gif"), ("a.svg", "image/svg+xml"), ("a.json", "application/json"),
        ("a.xml", "application/xml"), ("a.tif", "image/tiff"), ("a.TIFF", "image/tiff"),
        ("a.geojson", "application/geo+json"), ("a.webp", "image/webp"),
        ("a.ico", "image/x-icon"), ("a.woff2", "font/woff2"),
        ("a.bin", "application/octet-stream"), ("html", "text/html"),
        ("/html", "application/octet-stream"),
    ];
    for (path, mime) in expected {
        assert_eq!(mime_type(path), mime);
    }
}

#[test]
fn cache_headers() {
    assert_eq!(set_cache_header(3600, 200), Some("public, max-age=3600".to_string()));
    assert_eq!(set_cache_header(0, 304), Some("public, max-age=0".to_string()));
    assert_eq!(set_cache_header(-1, 200), None);
    assert_eq!(set_cache_header(3600, 404), None);
    assert_eq!(set_cache_header(3600, 300), None);
    assert_eq!(set_cache_header(60, 299), Some("public, max-age=60".to_string()));
}

#[test]
fn kinds_of_files() {
    assert!(is_raster_ext("tif") && is_raster_ext("tiff") && !is_raster_ext("TIF"));
    for ext in ["geojson", "json", "shp", "wkt", "kml", "kmz"] {
        assert!(is_vector_ext(ext) && !is_raster_ext(ext));
    }
    assert!(!is_vector_ext("txt"));
}

#[test]
fn sizes_add_up() {
    assert_eq!(directory_size_bytes(&vec![]), 0);
    assert_eq!(directory_size_bytes(&vec![5, 7, 30]), 42);
}
