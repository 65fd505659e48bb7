use simple_geo_server::batch_render::{
    render_single, render_tiles_parallel, run_worker, worker_ranges, BatchTileJob, BatchTileResult,
};
use simple_geo_server::config::{
    access_urls, default_config, resolve_settings, served_dirs, worker_threads, AppConfig,
    CacheSection, Cli, HostKind, ServerConfig, ServerSection, SourceEntry,
};
use simple_geo_server::data_source::{
    create_file_source, requested_bands, requested_mode, requested_stretch, source_to_geo_file,
    supports, unreadable_raster_info, DataSourceInfo, DataType, FileSource, SourceRequest,
    VectorFormat,
};
use simple_geo_server::json::{json_member, JsonValue};
use simple_geo_server::paths::HttpError;
use simple_geo_server::raster::{
    build_name_table, crs_entries, crs_name_from_epsg, crs_name_from_geo_key,
    crs_string_from_geo_key, is_nodata, list_entries, parse_nodata_string, NodataText,
};
use simple_geo_server::registry::{init_registry, sort_infos, DataSourceRegistry, RegistryEvent};
use simple_geo_server::reproject::{
    all_corners, bounding_extent, crs_operation, definition_operation, epsg_from_geo_key,
    extent_corners, extent_method, extent_to_wgs84, geographic_range, is_web_mercator_range,
    known_crs_corners_to_wgs84, known_crs_extent_to_wgs84, known_crs_operation, native_method,
    parse_known_crs, proj4_from_tm_params, read_crs_name, read_geo_key_info, sort_extent,
    wgs84_to_native_crs, CrsName, CrsOperation, ExtentMethod, GeoKeyInfo, GeoParam, KnownCrs,
    NativeMethod,
};
use simple_geo_server::resample::{ResamplingMode, StretchMethod};
use simple_geo_server::server::{
    batch_tiles, build_registry_from_config, deserialize_bands, find_source, mount_source,
    scan_and_auto_mount, unmount_source, BatchRequest, BatchTileReq, MountRequest,
};
use simple_geo_server::shapefile_reader::{
    convert_shape, parse_epsg_code, parse_prj_file, shapefile_crs, shapefile_extent,
};
use simple_geo_server::tile::vector_check::{find_fault, has_shallow_brackets};
use simple_geo_server::tile::vector_tile::{
    collect_geojson_features, collect_kml_placemarks, document_tile, extract_geojson_crs_name,
    features_text, get_kml_tile_geojson, get_raster_tile_info, get_shapefile_tile_geojson,
    get_vector_tile_geojson, get_vector_tile_info, get_wkt_tile_geojson, place_features, places_tile,
    resolve_geojson_source_crs, shape_tile, transform_geojson_feature, tree_tile, GeoDocument,
    GeoFeature, KmlPlace, KmlTree,
};
use simple_geo_server::xml::{read_pieces, XmlToken};

fn texts(v: &[&str]) -> Vec<String> {
    v.iter().map(|t| t.to_string()).collect()
}

#[test]
fn names_of_reference_systems() {
    assert_eq!(parse_known_crs("EPSG:4326"), Some(KnownCrs::Wgs84));
    assert_eq!(parse_known_crs("urn:ogc:def:crs:OGC:1.3:CRS84"), Some(KnownCrs::Wgs84));
    assert_eq!(parse_known_crs("WGS 84"), Some(KnownCrs::Wgs84));
    assert_eq!(parse_known_crs("WGS_1984"), Some(KnownCrs::Wgs84));
    assert_eq!(parse_known_crs("epsg:3857"), Some(KnownCrs::WebMercator));
    assert_eq!(parse_known_crs("WGS 84 / Pseudo-Mercator"), Some(KnownCrs::WebMercator));
    assert_eq!(parse_known_crs("Web_Mercator_Auxiliary_Sphere"), Some(KnownCrs::WebMercator));
    assert_eq!(parse_known_crs("WGS 84 / UTM zone 33N"), Some(KnownCrs::Epsg(32633)));
    assert_eq!(parse_known_crs("UTM Zone 7, Southern"), Some(KnownCrs::Epsg(32707)));
    assert_eq!(parse_known_crs("UTM zone 61N WGS84"), Some(KnownCrs::Wgs84));
    assert_eq!(parse_known_crs("UTM zone 999N WGS84"), Some(KnownCrs::Wgs84));
    assert_eq!(parse_known_crs("UTM 999N UTM 33N"), None);
    assert_eq!(parse_known_crs("UTM 61N UTM 33N"), Some(KnownCrs::Epsg(32633)));
    assert_eq!(parse_known_crs("EPSG:2154"), Some(KnownCrs::Epsg(2154)));
    assert_eq!(parse_known_crs("epsg2154"), Some(KnownCrs::Epsg(2154)));
    assert_eq!(parse_known_crs("EPSG:1"), None);
    assert_eq!(parse_known_crs("EPSG:99999"), None);
    assert_eq!(parse_known_crs("Mars"), None);
    assert_eq!(read_crs_name("EPSG:1"), CrsName::Code(1));
    assert_eq!(read_crs_name("EPSG:EPSG:EPSG7"), CrsName::Code(7));
    assert_eq!(KnownCrs::Wgs84.epsg_code(), Some(4326));
    assert_eq!(KnownCrs::WebMercator.epsg_code(), Some(3857));
    assert_eq!(KnownCrs::Epsg(5).epsg_code(), Some(5));
}

#[test]
fn operations_of_reference_systems() {
    assert!(matches!(crs_operation(4326), Some(CrsOperation::Identity)));
    assert!(matches!(crs_operation(3857), Some(CrsOperation::WebMercator)));
    assert!(crs_operation(1).is_none());
    match crs_operation(32633) {
        Some(CrsOperation::Defined(op)) => {
            assert!(op.starts_with("utm ") && op.contains("zone=33") && !op.contains('+'));
        }
        _ => panic!("a zone should have an operation"),
    }
    assert!(matches!(known_crs_operation(KnownCrs::Wgs84), Some(CrsOperation::Identity)));
    assert!(matches!(known_crs_operation(KnownCrs::Epsg(3857)), Some(CrsOperation::WebMercator)));
}

#[test]
fn parameters_make_a_definition() {
    let d = proj4_from_tm_params(Some("9"), Some("0"), None, Some("500000"), None).unwrap();
    assert_eq!(
        d,
        "+proj=tmerc +lat_0=0 +lon_0=9 +k=1 +x_0=500000 +y_0=0 +ellps=WGS84 +units=m +no_defs"
    );
    assert_eq!(proj4_from_tm_params(None, Some("0"), None, None, None), None);
    assert_eq!(proj4_from_tm_params(Some("0"), None, None, None, None), None);
    let op = definition_operation(&d).unwrap();
    assert!(op.starts_with("tmerc ") && op.contains("k_0=1"));
    assert_eq!(definition_operation("+proj=utm +inv"), None);
}

#[test]
fn keys_of_a_raster() {
    let dir = [
        1, 1, 0, 6, 1024, 0, 1, 1, 3072, 0, 1, 32633, 2048, 0, 2, 4326, 3080, 34736, 1, 1, 3081, 0,
        1, 7, 3082, 34736, 1, 9,
    ];
    let info = read_geo_key_info(&dir, &[5, 6]);
    assert_eq!(info.model_type, Some(1));
    assert_eq!(info.projected_type, Some(32633));
    assert_eq!(info.geographic_type, None);
    assert_eq!(info.proj_nat_origin_long, Some(GeoParam::Double(6)));
    assert_eq!(info.proj_nat_origin_lat, Some(GeoParam::Short(7)));
    assert_eq!(info.proj_false_easting, None);
    assert_eq!(read_geo_key_info(&dir[..27], &[5, 6]), GeoKeyInfo::default());
    assert_eq!(read_geo_key_info(&[1, 1], &[]), GeoKeyInfo::default());
}

fn keys(model: Option<u16>, projected: Option<u16>, geographic: Option<u16>, trans: Option<u16>) -> GeoKeyInfo {
    let mut k = GeoKeyInfo::default();
    k.model_type = model;
    k.projected_type = projected;
    k.geographic_type = geographic;
    k.proj_coord_trans = trans;
    k
}

#[test]
fn keys_name_a_system() {
    assert_eq!(epsg_from_geo_key(&keys(Some(2), Some(7), None, None)), Some(7));
    assert_eq!(epsg_from_geo_key(&keys(Some(2), None, None, None)), Some(4326));
    assert_eq!(epsg_from_geo_key(&keys(Some(2), None, Some(9), None)), Some(9));
    assert_eq!(epsg_from_geo_key(&keys(Some(1), None, Some(9), Some(1))), None);
    assert_eq!(epsg_from_geo_key(&keys(Some(1), None, Some(9), None)), Some(9));
    assert_eq!(native_method(&keys(Some(2), Some(7), None, None)), NativeMethod::Identity);
    assert_eq!(native_method(&keys(Some(1), Some(7), None, None)), NativeMethod::Epsg(7));
    assert_eq!(native_method(&keys(Some(1), None, None, Some(1))), NativeMethod::TransverseMercator);
    assert_eq!(native_method(&keys(None, None, None, None)), NativeMethod::Unknown);
}

fn corners(c: [(f64, f64); 4]) -> [(u64, u64); 4] {
    c.map(|(x, y)| (x.to_bits(), y.to_bits()))
}

#[test]
fn extents_become_degrees() {
    let degrees = corners([(10.0, 50.0), (11.0, 50.0), (10.0, -49.0), (11.0, 49.0)]);
    let meters = corners([(1e6, 5e6), (1.1e6, 5e6), (1e6, 4e6), (1.1e6, 4e6)]);
    let far = corners([(3e7, 0.0), (1e6, 5e6), (1e6, 5e6), (1e6, 5e6)]);
    assert!(geographic_range(&degrees) && !geographic_range(&meters));
    assert!(is_web_mercator_range(&meters) && !is_web_mercator_range(&degrees));
    assert!(!is_web_mercator_range(&far));
    let none = keys(None, None, None, None);
    assert!(matches!(extent_method(5, &none, None, &degrees), ExtentMethod::Unknown));
    assert!(matches!(extent_method(6, &none, None, &degrees), ExtentMethod::Identity));
    assert!(matches!(extent_method(6, &none, None, &meters), ExtentMethod::Epsg(3857)));
    assert!(matches!(extent_method(6, &none, None, &far), ExtentMethod::Unknown));
    let geographic = keys(Some(2), None, None, None);
    assert!(matches!(extent_method(6, &geographic, None, &far), ExtentMethod::Identity));
    let named = keys(Some(1), Some(32633), None, None);
    assert!(matches!(extent_method(6, &named, None, &far), ExtentMethod::Epsg(32633)));
    let tm = keys(Some(1), None, None, Some(1));
    match extent_method(6, &tm, Some("op".to_string()), &degrees) {
        ExtentMethod::Operation(op) => assert_eq!(op, "op"),
        _ => panic!("the operation should be used"),
    }
    assert!(matches!(extent_method(6, &tm, None, &degrees), ExtentMethod::Identity));
}

#[test]
fn extents_of_corners() {
    let c = corners([(3.0, -7.0), (-2.0, 8.0), (0.5, 0.0), (1.0, 1.0)]);
    assert_eq!(sort_extent(&c).map(f64::from_bits), [-2.0, -7.0, 3.0, 8.0]);
    assert_eq!(bounding_extent(&c).map(f64::from_bits), [-2.0, -7.0, 3.0, 8.0]);
    let holes = corners([(f64::NAN, 1.0), (2.0, f64::NAN), (3.0, 4.0), (5.0, 6.0)]);
    assert_eq!(bounding_extent(&holes).map(f64::from_bits), [2.0, 1.0, 5.0, 6.0]);
    assert_eq!(extent_corners(&[1, 2, 3, 4]), [(1, 2), (3, 2), (1, 4), (3, 4)]);
    let p = Some((1, 1));
    assert_eq!(all_corners(&[p, p, p, p]), Some([(1, 1); 4]));
    assert_eq!(all_corners(&[p, None, p, p]), None);
}

/// Degrees are a tenth of the coordinates; those above a limit cannot be converted.
fn tenth(op: &CrsOperation, c: (u64, u64)) -> Option<(u64, u64)> {
    let (x, y) = (f64::from_bits(c.0), f64::from_bits(c.1));
    match op {
        CrsOperation::Identity => Some(c),
        _ if x > 5000.0 => None,
        CrsOperation::WebMercator => Some(((x / 10.0).to_bits(), (y / 10.0).to_bits())),
        CrsOperation::Defined(_) => Some(((-x).to_bits(), (-y).to_bits())),
    }
}

#[test]
fn corners_are_converted() {
    let c = corners([(1000.0, 40.0), (3000.0, 20.0), (1000.0, 20.0), (3000.0, 40.0)]);
    let doubles = |e: Option<[u64; 4]>| e.map(|e| e.map(f64::from_bits));
    let plain = known_crs_corners_to_wgs84(&c, KnownCrs::Wgs84, tenth);
    assert_eq!(doubles(plain), Some([1000.0, 20.0, 3000.0, 40.0]));
    let web = known_crs_corners_to_wgs84(&c, KnownCrs::WebMercator, tenth);
    assert_eq!(doubles(web), Some([100.0, 2.0, 300.0, 4.0]));
    let utm = known_crs_corners_to_wgs84(&c, KnownCrs::Epsg(32633), tenth);
    assert_eq!(doubles(utm), Some([-3000.0, -40.0, -1000.0, -20.0]));
    assert_eq!(known_crs_corners_to_wgs84(&c, KnownCrs::Epsg(1), tenth), None);
    let far = corners([(1000.0, 40.0), (9000.0, 20.0), (1000.0, 20.0), (9000.0, 40.0)]);
    assert_eq!(known_crs_corners_to_wgs84(&far, KnownCrs::WebMercator, tenth), None);
    let extent = [1000.0f64, 20.0, 3000.0, 40.0].map(f64::to_bits);
    let degrees = known_crs_extent_to_wgs84(extent, KnownCrs::WebMercator, tenth);
    assert_eq!(doubles(degrees), Some([100.0, 2.0, 300.0, 4.0]));
    assert_eq!(known_crs_extent_to_wgs84(extent, KnownCrs::Wgs84, tenth), Some(extent));

    let none = keys(None, None, None, None);
    assert_eq!(doubles(extent_to_wgs84(6, &none, None, &c, tenth)), Some([100.0, 2.0, 300.0, 4.0]));
    assert_eq!(extent_to_wgs84(5, &none, None, &c, tenth), None);
    let tm = keys(None, None, None, Some(1));
    let op = Some("op".to_string());
    let by_tm = extent_to_wgs84(6, &tm, op, &c, tenth);
    assert_eq!(doubles(by_tm), Some([-3000.0, -40.0, -1000.0, -20.0]));
    let geographic = keys(Some(2), None, None, None);
    let same = extent_to_wgs84(6, &geographic, None, &far, tenth);
    assert_eq!(doubles(same), Some([1000.0, 20.0, 9000.0, 40.0]));
    let unknown = keys(None, Some(1), None, None);
    assert_eq!(extent_to_wgs84(6, &unknown, None, &c, tenth), None);
}

#[test]
fn degrees_become_coordinates() {
    let geographic = keys(Some(2), Some(32633), None, None);
    assert!(matches!(wgs84_to_native_crs(&geographic, None), Some(CrsOperation::Identity)));
    let web = keys(Some(1), Some(3857), None, None);
    assert!(matches!(wgs84_to_native_crs(&web, None), Some(CrsOperation::WebMercator)));
    let utm = keys(Some(1), Some(32633), None, None);
    match wgs84_to_native_crs(&utm, None) {
        Some(CrsOperation::Defined(op)) => assert!(op.contains("utm")),
        _ => panic!("a zone has an operation"),
    }
    let tm = keys(Some(1), None, None, Some(1));
    match wgs84_to_native_crs(&tm, Some("op".to_string())) {
        Some(CrsOperation::Defined(op)) => assert_eq!(op, "op"),
        _ => panic!("parameters have an operation"),
    }
    assert!(wgs84_to_native_crs(&tm, None).is_none());
    assert!(wgs84_to_native_crs(&keys(Some(1), None, None, None), None).is_none());
    assert!(wgs84_to_native_crs(&keys(Some(1), Some(1), None, None), None).is_none());
}

#[test]
fn samples_without_a_value() {
    assert!(matches!(parse_nodata_string(" NaN\0"), Some(NodataText::NotANumber)));
    assert!(matches!(parse_nodata_string("+INF"), Some(NodataText::Infinity)));
    assert!(matches!(parse_nodata_string("infinity x"), Some(NodataText::Infinity)));
    assert!(matches!(parse_nodata_string("-Infinity"), Some(NodataText::NegInfinity)));
    match parse_nodata_string("-9999 0\0\0 ") {
        Some(NodataText::Word(w)) => assert_eq!(w, "-9999"),
        _ => panic!("the first word should be found"),
    }
    assert!(parse_nodata_string(" \0 ").is_none());
    assert!(parse_nodata_string("").is_none());
    let b = |v: f64| v.to_bits();
    assert!(is_nodata(b(f64::NAN), None) && is_nodata(b(f64::INFINITY), Some(b(1.0))));
    assert!(is_nodata(b(-0.0), Some(b(0.0))) && !is_nodata(b(1.0), Some(b(0.0))));
    assert!(!is_nodata(b(1.0), Some(b(f64::NAN))) && !is_nodata(b(1.0), None));
}

#[test]
fn names_for_numbers() {
    let table = build_name_table(&vec![
        (4326, "WGS 84".to_string()), (32633, "UTM 33N".to_string()),
        (4326, "other".to_string()), (2154, "Lambert".to_string()),
    ]);
    let codes: Vec<u16> = table.iter().map(|e| e.0).collect();
    assert_eq!(codes, vec![2154, 4326, 32633]);
    assert_eq!(crs_name_from_epsg(&table, 4326), Some("WGS 84".to_string()));
    assert_eq!(crs_name_from_epsg(&table, 1), None);
    let projected = keys(Some(1), Some(32633), None, None);
    assert_eq!(crs_name_from_geo_key(&table, &projected), Some("UTM 33N".to_string()));
    assert_eq!(crs_string_from_geo_key(&table, &projected), "UTM 33N");
    assert_eq!(crs_string_from_geo_key(&table, &keys(Some(1), Some(5), None, None)), "EPSG:5");
    assert_eq!(crs_string_from_geo_key(&table, &keys(Some(1), None, None, None)), "Projected CRS");
    assert_eq!(crs_string_from_geo_key(&table, &keys(Some(2), None, Some(6), None)), "EPSG:6");
    assert_eq!(crs_string_from_geo_key(&table, &keys(Some(2), None, None, None)), "Geographic CRS");
    assert_eq!(crs_string_from_geo_key(&table, &keys(Some(3), Some(5), None, None)), "Unknown");
    assert_eq!(crs_name_from_geo_key(&table, &keys(None, Some(32633), None, None)), None);
}

#[test]
fn names_in_a_list() {
    let text = r#"[{"code":"4326","name":"WGS 84"},{"code":4327,"name":"a"},{"code":"65536",
        "name":"b"},{"name":"c"},7,{"code":"+3857","name":"Pseudo \u0022Mercator\u0022"}]"#;
    let entries = crs_entries(text);
    assert_eq!(entries.len(), 2);
    assert_eq!((entries[0].0, entries[0].1.as_str()), (4326, "WGS 84"));
    assert_eq!((entries[1].0, entries[1].1.as_str()), (3857, "Pseudo \"Mercator\""));
    assert!(crs_entries("{}").is_empty() && crs_entries("nonsense").is_empty());
    assert_eq!(list_entries(&vec!["[]".to_string()]), vec![]);
}

#[test]
fn shapefiles_have_systems() {
    let wkt = "GEOGCS[\"x\",AUTHORITY[\"EPSG\",\"4326\"]]";
    assert_eq!(parse_prj_file(wkt), Some(KnownCrs::Wgs84));
    assert_eq!(parse_prj_file("AUTHORITY[\"EPSG\",\"900913\"]"), Some(KnownCrs::WebMercator));
    assert_eq!(parse_prj_file("AUTHORITY[\"EPSG\",\"32633\"]"), Some(KnownCrs::Epsg(32633)));
    assert_eq!(parse_prj_file("AUTHORITY[\"EPSG\",\"2154\"] WGS 84"), None);
    assert_eq!(parse_prj_file("AUTHORITY[\"EPSG\",\"x\"] WGS 84"), Some(KnownCrs::Wgs84));
    assert_eq!(parse_prj_file("AUTHORITY[\"EPSG\" AUTHORITY \"\",\"4326\"]"), Some(KnownCrs::Wgs84));
    assert_eq!(parse_prj_file("GCS_WGS_1984"), Some(KnownCrs::Wgs84));
    assert_eq!(parse_prj_file("Mercator"), Some(KnownCrs::WebMercator));
    assert_eq!(parse_prj_file("Lambert"), None);
    assert_eq!(parse_epsg_code(32760), Some(KnownCrs::Epsg(32760)));
    assert_eq!(parse_epsg_code(32761), None);
    assert_eq!(parse_epsg_code(3857), Some(KnownCrs::WebMercator));
    assert_eq!(shapefile_crs(None), KnownCrs::Wgs84);
    assert_eq!(shapefile_crs(Some("Lambert")), KnownCrs::Wgs84);
    let bits = |e: [f64; 4]| e.map(|v| v.to_bits());
    assert_eq!(shapefile_extent(&vec![]), [0; 4]);
    let e = shapefile_extent(&vec![bits([1.0, 2.0, 3.0, 4.0]), bits([0.0, 3.0, 2.0, 9.0])]);
    assert_eq!(e.map(f64::from_bits), [0.0, 2.0, 3.0, 9.0]);
}

#[test]
fn systems_of_documents() {
    assert_eq!(resolve_geojson_source_crs(None), Ok(KnownCrs::Wgs84));
    assert_eq!(resolve_geojson_source_crs(Some("EPSG:3857")), Ok(KnownCrs::WebMercator));
    assert_eq!(
        resolve_geojson_source_crs(Some("Mars")),
        Err("Unsupported GeoJSON CRS: Mars".to_string())
    );
}

fn feature(geometry: Option<&str>, rest: Option<&str>) -> GeoFeature {
    let text = |t: Option<&str>| t.map(str::to_string);
    GeoFeature { geometry: text(geometry), bbox: None, rest: text(rest) }
}

fn parts(features: &[GeoFeature]) -> Vec<(Option<&str>, Option<&str>)> {
    features.iter().map(|f| (f.geometry.as_deref(), f.rest.as_deref())).collect()
}

/// Geometries with an `x` are outside, those with a `!` are errors.
fn place(text: &str, crs: KnownCrs) -> Result<Option<String>, String> {
    if text.contains('!') {
        Err(format!("bad {text}"))
    } else if text.contains('x') {
        Ok(None)
    } else {
        Ok(Some(format!("{text} {}", crs.epsg_code().unwrap())))
    }
}

#[test]
fn features_of_a_tile() {
    let all = vec![
        feature(Some("a"), Some("1")),
        feature(None, Some("2")),
        feature(Some("x"), Some("3")),
        feature(Some("b"), None),
    ];
    let kept = collect_geojson_features(&all, KnownCrs::WebMercator, place).unwrap();
    assert_eq!(parts(&kept), vec![(Some("a 3857"), Some("1")), (Some("b 3857"), None)]);
    let bad = vec![feature(Some("a"), None), feature(Some("!1"), None), feature(Some("!2"), None)];
    assert_eq!(collect_geojson_features(&bad, KnownCrs::Wgs84, place).err().unwrap(), "bad !1");
    let none = collect_geojson_features(&vec![], KnownCrs::Wgs84, place).unwrap();
    assert!(none.is_empty());
    let mut boxed = feature(Some("a"), None);
    boxed.bbox = Some("[0,0,9,9]".to_string());
    let kept = collect_geojson_features(&vec![boxed], KnownCrs::Wgs84, place).unwrap();
    assert_eq!(kept[0].bbox, None);
}

#[test]
fn documents_name_their_systems() {
    let members = r#"{"crs":{"type":"name","properties":{"name":"EPSG:3857"}},"a":1}"#;
    let name = extract_geojson_crs_name(Some(members.to_string()));
    assert_eq!(name.as_deref(), Some("EPSG:3857"));
    for other in ["{}", "[]", "nonsense", r#"{"crs":null}"#, r#"{"crs":{"properties":{"name":7}}}"#]
    {
        assert_eq!(extract_geojson_crs_name(Some(other.to_string())), None);
    }
    assert_eq!(extract_geojson_crs_name(None), None);
    let object = JsonValue::Object(vec![("a".to_string(), "1".to_string())]);
    assert_eq!(json_member(&object, "a").as_deref(), Some("1"));
    assert_eq!(json_member(&object, "b"), None);
    assert_eq!(json_member(&JsonValue::Text("a".to_string()), "a"), None);

    let list = GeoDocument::Collection(Some(members.to_string()), vec![feature(Some("a"), None)]);
    assert_eq!(parts(&document_tile(list, place).unwrap()), vec![(Some("a 3857"), None)]);
    let alone = GeoDocument::Single(feature(Some("a"), Some(members)));
    let kept = document_tile(alone, place).unwrap();
    assert_eq!(parts(&kept), vec![(Some("a 3857"), Some(members))]);
    let bare = document_tile(GeoDocument::Bare("a".to_string()), place).unwrap();
    assert_eq!(parts(&bare), vec![(Some("a 4326"), None)]);
    let odd = r#"{"crs":{"properties":{"name":"Mars"}}}"#.to_string();
    let refused = document_tile(GeoDocument::Collection(Some(odd), vec![]), place);
    assert_eq!(refused.err().unwrap(), "Unsupported GeoJSON CRS: Mars");
}

#[test]
fn tiles_of_geojson_texts() {
    let text = r#"{
        "type": "FeatureCollection",
        "crs": {"type": "name", "properties": {"name": "urn:ogc:def:crs:EPSG::3857"}},
        "features": [
            {"type": "Feature", "id": "one", "properties": {"n": 1},
             "geometry": {"type": "Point", "coordinates": [1, 2]}},
            {"type": "Feature", "properties": {"n": 2}, "geometry": null},
            {"type": "Feature", "id": 3, "properties": null, "more": true,
             "geometry": {"type": "LineString", "coordinates": [[3, 4], [5, 6.5]]}}
        ]
    }"#;
    let seen = |g: &str, crs: KnownCrs| {
        assert_eq!(crs, KnownCrs::Wgs84);
        Ok(Some(g.to_string()))
    };
    let plain = text.replace("urn:ogc:def:crs:EPSG::3857", "WGS 84");
    let kept = get_vector_tile_geojson(&plain, seen).unwrap();
    assert_eq!(kept.len(), 2);
    assert!(kept[0].geometry.as_deref().unwrap().contains("Point"));
    assert!(kept[1].geometry.as_deref().unwrap().contains("6.5"));
    assert!(kept[0].rest.as_deref().unwrap().contains(r#""id":"one""#));
    assert!(kept[0].rest.as_deref().unwrap().contains(r#""n":1"#));
    assert!(!kept[0].rest.as_deref().unwrap().contains("coordinates"));
    assert!(kept[1].rest.as_deref().unwrap().contains(r#""more":true"#));
    let web = |g: &str, crs: KnownCrs| {
        assert_eq!(crs, KnownCrs::WebMercator);
        Ok(if g.contains("Line") { None } else { Some("moved".to_string()) })
    };
    let kept = get_vector_tile_geojson(&text.replace("EPSG::", "EPSG:"), web).unwrap();
    assert_eq!(kept.len(), 1);
    assert_eq!(kept[0].geometry.as_deref(), Some("moved"));
    let point = r#"{"type": "Point", "coordinates": [1.5, 2]}"#;
    let kept = get_vector_tile_geojson(point, seen).unwrap();
    assert_eq!(kept.len(), 1);
    assert_eq!(kept[0].rest, None);
    let none = get_vector_tile_geojson(&plain, |_: &str, _: KnownCrs| Ok(None)).unwrap();
    assert!(none.is_empty());
    let e = get_vector_tile_geojson("{", seen).err().unwrap();
    assert!(e.starts_with("Invalid GeoJSON: ") && e.len() > 17);
    let e = get_vector_tile_geojson(&text.replace("EPSG::3857", "MARS"), seen).err().unwrap();
    assert_eq!(e, "Unsupported GeoJSON CRS: urn:ogc:def:crs:MARS");
}

#[test]
fn tiles_of_wkt_texts() {
    let kept = get_wkt_tile_geojson("POINT (1.5 2)", |g: &str| g.contains("1.5")).unwrap();
    assert_eq!(kept.len(), 1);
    assert!(kept[0].geometry.as_deref().unwrap().contains(r#""Point""#));
    assert_eq!(kept[0].rest, None);
    assert!(get_wkt_tile_geojson("POINT (1 2)", |_: &str| false).unwrap().is_empty());
    let e = get_wkt_tile_geojson("CIRCLE (1 2)", |_: &str| true).err().unwrap();
    assert!(e.starts_with("Invalid WKT: ") && e.len() > 13);
    let odd = Ok(Err("odd".to_string()));
    let e = shape_tile(odd, |_: &str| true).err().unwrap();
    assert_eq!(e, "Failed to convert WKT geometry: odd");
    assert_eq!(get_shapefile_tile_geojson(&vec![5, 1, 7, 9], |g: &i32| *g > 4), vec![0, 2, 3]);
}

#[test]
fn tiles_of_kml_texts() {
    let point = |at: &str| format!("<Point><coordinates>{at}</coordinates></Point>");
    let text = format!(
        "<kml><Document><Placemark><name>a</name><description>d &amp; e</description>{}</Placemark>\
         <Folder><Placemark><name>b</name></Placemark><Placemark>{}</Placemark></Folder>\
         <Placemark><name>c</name>{}</Placemark></Document></kml>",
        point("1.5,2"),
        point("3,4"),
        point("9,9"),
    );
    let kept = get_kml_tile_geojson(&text, |g: &str| !g.contains('9')).unwrap();
    assert_eq!(kept.len(), 2);
    assert!(kept[0].geometry.contains("1.5"));
    let pair = |n: &str, v: &str| (n.to_string(), v.to_string());
    assert_eq!(kept[0].properties, vec![pair("name", "a"), pair("description", "d & e")]);
    assert_eq!(kept[1].properties, vec![]);
    let all = get_kml_tile_geojson(&text, |_: &str| true).unwrap();
    assert_eq!(all.len(), 3);
    assert_eq!(all[2].properties, vec![pair("name", "c")]);
    let e = get_kml_tile_geojson("", |_: &str| true).err().unwrap();
    assert!(e.starts_with("Invalid KML: "));
    let places = vec![
        KmlPlace { name: None, description: Some("d".to_string()), geometry: None },
        KmlPlace { name: None, description: Some("f".to_string()), geometry: Some("g".to_string()) },
    ];
    let kept = places_tile(&places, |_: &str| true);
    assert_eq!(kept.len(), 1);
    assert_eq!(kept[0].properties, vec![pair("description", "f")]);

    let named = |name: &str, geometry: &str| {
        KmlTree::Placemark(KmlPlace {
            name: Some(name.to_string()),
            description: None,
            geometry: Some(geometry.to_string()),
        })
    };
    let inner = KmlTree::Group(vec![named("b", "2"), KmlTree::Other, named("c", "3")]);
    let tree = KmlTree::Group(vec![named("a", "1"), inner, KmlTree::Group(vec![]), named("d", "4")]);
    let kept = tree_tile(&tree, |g: &str| g != "3");
    let names: Vec<&str> = kept.iter().map(|f| f.properties[0].1.as_str()).collect();
    assert_eq!(names, vec!["a", "b", "d"]);
    let mut out = vec![];
    collect_kml_placemarks(&tree, &mut out);
    assert_eq!((out.len(), out[2].name.as_deref()), (4, Some("c")));
}

fn nested(open: &str, times: usize, inner: &str, close: &str) -> String {
    format!("{}{inner}{}", open.repeat(times), close.repeat(times))
}

#[test]
fn geometries_are_nested_to_a_depth() {
    let all = |_: &str| true;
    let collections = |times: usize, inner: &str| nested("GEOMETRYCOLLECTION(", times, inner, ")");
    let polygon = "MULTIPOLYGON(((0 0, 1 0, 1 1, 0 0)))";
    for (times, inner) in [(59, "POINT(1.5 2)"), (59, "LINESTRING(1 2, 3 4)"), (57, polygon)] {
        let kept = get_wkt_tile_geojson(&collections(times, inner), all).unwrap();
        let text = features_text(&kept).unwrap();
        assert_eq!(text.matches("\"GeometryCollection\"").count(), times);
        let e = get_wkt_tile_geojson(&collections(times + 1, inner), all).err().unwrap();
        assert_eq!(e, "Invalid WKT: geometries are nested too deep");
    }
    let wide = format!("MULTIPOINT({}(1 2))", "(1 2),".repeat(500));
    assert_eq!(get_wkt_tile_geojson(&wide, all).unwrap().len(), 1);
    assert!(get_wkt_tile_geojson(&"(".repeat(400000), all).is_err());
    assert!(has_shallow_brackets(")))(((") && has_shallow_brackets(&"(".repeat(60)));
    assert!(!has_shallow_brackets(&"(".repeat(61)));
}

#[test]
fn documents_are_nested_to_a_depth() {
    let all = |_: &str| true;
    let deep = "Invalid KML: elements are nested too deep";
    let point = "<Point><coordinates>1.5,2</coordinates></Point>";
    let place = format!("<Placemark>{point}</Placemark>");
    let folders = |times: usize| nested("<Folder>", times, &place, "</Folder>");
    assert_eq!(get_kml_tile_geojson(&folders(37), all).unwrap().len(), 1);
    assert_eq!(get_kml_tile_geojson(&folders(38), all).err().unwrap(), deep);
    assert_eq!(get_kml_tile_geojson(&folders(50000), all).err().unwrap(), deep);
    let groups = |times: usize| {
        let inner = nested("<MultiGeometry>", times, point, "</MultiGeometry>");
        format!("<Placemark>{inner}</Placemark>")
    };
    let kept = get_kml_tile_geojson(&groups(37), all).unwrap();
    let text = features_text(&place_features(&kept)).unwrap();
    assert_eq!(text.matches("\"GeometryCollection\"").count(), 37);
    assert_eq!(get_kml_tile_geojson(&groups(38), all).err().unwrap(), deep);
    let others = nested("<other>", 37, &place, "</other>");
    assert!(get_kml_tile_geojson(&others, all).unwrap().is_empty());
    assert_eq!(get_kml_tile_geojson(&"<kml></kml>".repeat(40), all).unwrap().len(), 0);
    assert_eq!(get_kml_tile_geojson(&"<kml></kml>".repeat(41), all).err().unwrap(), deep);
    assert_eq!(get_kml_tile_geojson(&place.repeat(500), all).unwrap().len(), 500);
}

#[test]
fn documents_are_tested_before_they_are_read() {
    let told = |text: &str| get_kml_tile_geojson(text, |_: &str| true).err();
    let bare = Some("Invalid KML: a point has no coordinates".to_string());
    assert_eq!(told("<Point></Point>"), bare);
    assert_eq!(told("<Placemark><Point><coordinates> </coordinates></Point></Placemark>"), bare);
    assert_eq!(told("<Point><coordinates>&#32;</coordinates></Point>"), bare);
    assert_eq!(
        told("<Point><coordinates>1,2</coordinates><coordinates></coordinates></Point>"),
        bare
    );
    assert_eq!(told("<Point><coordinates>&#49;,2</coordinates></Point>"), None);
    assert_eq!(told("<Point><coordinates><![CDATA[1,2]]></coordinates></Point>"), None);
    assert_eq!(told("<Placemark><Point/></Placemark>"), None);
    let endless = Some("Invalid KML: an element has no end".to_string());
    assert_eq!(told("<Document><Placemark>"), endless);
    assert_eq!(told("<LineString><coordinates>1,2</coordinates>"), endless);
    assert_eq!(told("<SchemaData>"), endless);
    assert_eq!(told("<Document><Placemark></Placemark>"), None);
    let hidden = Some("Invalid KML: the document cannot be read on".to_string());
    assert_eq!(told("<SchemaData><SimpleData name=\"a\">1<"), hidden);
    let e = told("<Document><Placemark></Document>").unwrap();
    assert!(e.starts_with("Invalid KML: ") && Some(e) != hidden);
    let close = |name: &str| XmlToken::Close(name.to_string());
    assert_eq!(find_fault(&vec![close("a"), XmlToken::End]), None);
    assert_eq!(
        find_fault(&vec![close("Point"), XmlToken::End]).as_deref(),
        Some("a point has no coordinates")
    );
}

#[test]
fn pieces_of_a_document() {
    let tokens = read_pieces("<k:a x=\"1\">b<c/><!-- d --><![CDATA[e]]>&#102;&g;</k:a>");
    let told: Vec<String> = tokens
        .iter()
        .map(|t| match t {
            XmlToken::Open(n) => format!("+{n}"),
            XmlToken::Close(n) => format!("-{n}"),
            XmlToken::Text(t) => format!("={t}"),
            XmlToken::Other => "other".to_string(),
            XmlToken::End => "end".to_string(),
            XmlToken::Broken => "broken".to_string(),
        })
        .collect();
    assert_eq!(told, vec!["+a", "=b", "other", "other", "=e", "=f", "other", "-a", "end"]);
    assert!(matches!(read_pieces("")[..], [XmlToken::End]));
    assert!(matches!(read_pieces("<a></b>")[..], [XmlToken::Open(_), XmlToken::Broken]));
    assert!(matches!(read_pieces("<a")[..], [XmlToken::Broken]));
}

#[test]
fn features_are_written() {
    let point = r#"{"type":"Point","coordinates":[1.5,2.0]}"#;
    let alone = features_text(&vec![feature(Some(point), None)]).unwrap();
    let prefix = r#"{"type":"FeatureCollection","features":["#;
    assert_eq!(
        alone,
        format!(r#"{prefix}{{"type":"Feature","geometry":{point},"properties":null}}]}}"#)
    );
    assert_eq!(features_text(&vec![]).unwrap(), format!("{prefix}]}}"));
    let mut boxed = feature(Some(point), None);
    boxed.bbox = Some("[0.0,0.5]".to_string());
    let written = features_text(&vec![boxed]).unwrap();
    assert!(written.contains(r#""bbox":[0.0,0.5]"#));
    let e = features_text(&vec![feature(Some("odd"), None)]).unwrap_err();
    assert!(e.starts_with("Serialization error: ") && e.len() > 21);

    let text = r#"{"type":"Feature","bbox":[0,0,9,9],"id":7,"properties":{"p":0.1},"more":[1],
        "geometry":{"type":"Point","coordinates":[5,6]}}"#;
    let moved = |_: &str, _: KnownCrs| Ok(Some(point.to_string()));
    let kept = get_vector_tile_geojson(text, moved).unwrap();
    let rest = r#""id":7,"properties":{"p":0.1},"more":[1]"#;
    assert_eq!(
        features_text(&kept).unwrap(),
        format!(r#"{prefix}{{"type":"Feature","geometry":{point},{rest}}}]}}"#)
    );

    let kml = "<Placemark><name>a \"b\"</name><Point><coordinates>1.5,2</coordinates></Point>\
               </Placemark>";
    let places = get_kml_tile_geojson(kml, |_: &str| true).unwrap();
    let written = features_text(&place_features(&places)).unwrap();
    let rest = r#""properties":{"name":"a \"b\""}"#;
    assert_eq!(
        written,
        format!(r#"{prefix}{{"type":"Feature","geometry":{point},{rest}}}]}}"#)
    );
}

#[test]
fn features_are_brought_into_a_tile() {
    let convert = |g: &i32| if *g > 100 { None } else { Some(g * 2) };
    let inside = |g: &i32| *g < 50;
    assert_eq!(transform_geojson_feature(None, convert, inside), Ok(None));
    assert_eq!(transform_geojson_feature(Some(Ok(20)), convert, inside), Ok(Some(40)));
    assert_eq!(transform_geojson_feature(Some(Ok(30)), convert, inside), Ok(None));
    assert_eq!(
        transform_geojson_feature(Some(Ok(101)), convert, inside),
        Err("Failed to reproject GeoJSON geometry to WGS84".to_string())
    );
    assert_eq!(
        transform_geojson_feature(Some(Err("odd".to_string())), convert, inside),
        Err("Failed to convert GeoJSON geometry: odd".to_string())
    );
    assert_eq!(convert_shape(7, KnownCrs::Wgs84, convert), 7);
    assert_eq!(convert_shape(7, KnownCrs::WebMercator, convert), 14);
    assert_eq!(convert_shape(700, KnownCrs::Epsg(32633), convert), 700);
}

#[test]
fn what_is_told_of_data() {
    let i = get_raster_tile_info("Unknown", [1, 2, 3, 4], Some([5; 4]), 0, 30, "X", [9; 4]);
    assert_eq!((i.extent, i.max_zoom, i.native_crs.as_str()), ([1, 2, 3, 4], 22, "X"));
    let i = get_raster_tile_info("Projected", [1, 2, 3, 4], Some([5; 4]), 0, 3, "X", [9; 4]);
    assert_eq!((i.extent, i.max_zoom, i.native_extent), ([5; 4], 3, [9; 4]));
    let i = get_raster_tile_info("Projected", [1, 2, 3, 4], None, 0, 3, "X", [9; 4]);
    assert_eq!(i.extent, [0; 4]);
    let v = get_vector_tile_info(-1.5, 1.5);
    assert_eq!((v.extent, v.data_type.as_str(), v.max_zoom), ([-1.5, -1.5, 1.5, 1.5], "vector", 22));
    let u = unreadable_raster_info(0.0);
    assert_eq!((u.data_type.as_str(), u.max_zoom, u.extent), ("raster", 0, [0.0; 4]));
}

#[test]
fn sources_are_made_of_files() {
    assert!(matches!(create_file_source("n", "p.tif", "tif"), Some(FileSource::Raster(_))));
    match create_file_source("n", "p.kmz", "kmz") {
        Some(FileSource::Vector(v)) => {
            assert_eq!((v.name.as_str(), v.path.as_str(), v.ext.as_str()), ("n", "p.kmz", "kmz"));
            assert_eq!(v.format(), VectorFormat::Kml);
        }
        _ => panic!("vector data should be a source"),
    }
    assert!(create_file_source("n", "p.txt", "txt").is_none());
    assert!(supports(DataType::Raster, SourceRequest::RasterTile).is_ok());
    assert!(supports(DataType::Vector, SourceRequest::VectorTile).is_ok());
    let message = |t, r| supports(t, r).unwrap_err().message;
    assert_eq!(
        message(DataType::Raster, SourceRequest::VectorTile),
        "Raster source does not support vector tiles"
    );
    assert_eq!(
        message(DataType::Vector, SourceRequest::RasterTile),
        "Vector source does not support raster tiles"
    );
    assert_eq!(
        message(DataType::Vector, SourceRequest::MapImage),
        "Vector source does not support WMS rendering"
    );
    assert_eq!((DataType::Raster.as_str(), DataType::Vector.as_str()), ("raster", "vector"));
    let info = DataSourceInfo {
        name: "n".to_string(), data_type: DataType::Vector, tile_info: get_vector_tile_info(0, 1),
    };
    let file = source_to_geo_file(&info);
    assert_eq!((file.name.as_str(), file.path.as_str(), file.data_type.as_str()), ("n", "n", "vector"));
    assert_eq!(file.info.extent, [0, 0, 1, 1]);
}

#[test]
fn parameters_of_a_tile() {
    assert_eq!(requested_mode(&None), ResamplingMode::NearestNeighbor);
    assert_eq!(requested_mode(&Some("Bicubic".to_string())), ResamplingMode::Bicubic);
    assert_eq!(requested_bands(&None), vec![1, 2, 3]);
    assert_eq!(requested_bands(&Some(vec![4])), vec![4]);
    assert_eq!(deserialize_bands("3, 2,x,1,-5,4294967296"), vec![3, 2, 1]);
    assert_eq!(deserialize_bands(""), Vec::<u32>::new());
    assert!(requested_stretch::<f64>(&None, Some(1.0)).is_none());
    let s = requested_stretch(&Some("stddev".to_string()), Some(1.0)).unwrap();
    assert_eq!((s.method, s.std_dev_factor, s.min_percent), (StretchMethod::StdDev, Some(1.0), None));
}

#[test]
fn sources_are_mounted_and_unmounted() {
    let mut r: DataSourceRegistry<u32> = init_registry();
    assert!(matches!(r.mount("a", 1), Ok(RegistryEvent::Mounted(n)) if n == "a"));
    assert_eq!(r.mount("a", 2).unwrap_err(), "DataSource 'a' already exists");
    assert_eq!(r.get("a"), Some(&1));
    r.mount_or_replace("a", 3);
    assert_eq!((r.get("a"), r.len()), (Some(&3), 1));
    assert!(r.contains("a") && !r.contains("b"));
    assert_eq!(r.list_names(), vec!["a"]);
    assert!(matches!(r.unmount("a"), Ok(RegistryEvent::Unmounted(n)) if n == "a"));
    assert_eq!(r.unmount("a").unwrap_err(), "DataSource 'a' not found");
    assert_eq!((r.len(), r.get("a")), (0, None));
}

fn info_of(name: &str) -> DataSourceInfo<i32> {
    DataSourceInfo {
        name: name.to_string(), data_type: DataType::Raster, tile_info: get_vector_tile_info(0, 0),
    }
}

#[test]
fn sources_are_listed_by_name() {
    let mut r: DataSourceRegistry<String> = DataSourceRegistry::default();
    for name in ["pear", "apple", "Zoo", "fig"] {
        r.mount(name, name.to_string()).unwrap();
    }
    let list = r.list(|s: &String| info_of(s));
    let names: Vec<&str> = list.iter().map(|i| i.name.as_str()).collect();
    assert_eq!(names, vec!["Zoo", "apple", "fig", "pear"]);
    assert_eq!(sort_infos(vec![info_of("b"), info_of("b"), info_of("a")]).len(), 3);
}

#[test]
fn test_mount_rejects_path_traversal() {
    let mut r = init_registry();
    let req = MountRequest { name: "evil".to_string(), path: "../../etc/passwd".to_string() };
    let path = simple_geo_server::validate_path(&req.path, &vec![]);
    assert_eq!(mount_source(&mut r, &req, path).unwrap_err().status, 400);
    assert_eq!(r.len(), 0);
}

#[test]
fn test_mount_rejects_absolute_path() {
    let mut r = init_registry();
    let req = MountRequest { name: "evil".to_string(), path: "/etc/passwd".to_string() };
    let path = simple_geo_server::validate_path(&req.path, &vec![]);
    assert_eq!(mount_source(&mut r, &req, path).unwrap_err().status, 400);
    assert_eq!(r.len(), 0);
}

#[test]
fn test_tile_info_encoded_traversal_rejected_by_registry() {
    let r: DataSourceRegistry<FileSource> = init_registry();
    let e = find_source(&r, "..").unwrap_err();
    assert_eq!((e.status, e.message.as_str()), (404, "Source not found: .."));
}

#[test]
fn test_tile_png_encoded_traversal_rejected_by_registry() {
    let r: DataSourceRegistry<FileSource> = init_registry();
    assert_eq!(find_source(&r, "..").unwrap_err().status, 404);
}

#[test]
fn test_ogc_tilejson_encoded_traversal_rejected_by_registry() {
    let r: DataSourceRegistry<FileSource> = init_registry();
    let known = find_source(&r, "..").is_ok();
    let e = simple_geo_server::protocols::file_info(known, "..").unwrap_err();
    assert_eq!(e.status, 404);
}

#[test]
fn mounting_answers() {
    let mut r = init_registry();
    let req = MountRequest { name: "m".to_string(), path: "a.TIF".to_string() };
    assert!(mount_source(&mut r, &req, Ok("/d/a.TIF".to_string())).is_ok());
    assert!(find_source(&r, "m").is_ok());
    let e = mount_source(&mut r, &req, Ok("/d/a.TIF".to_string())).unwrap_err();
    assert_eq!((e.status, e.message.as_str()), (409, "DataSource 'm' already exists"));
    let e = mount_source(&mut r, &req, Ok("/d/a.TXT".to_string())).unwrap_err();
    assert_eq!((e.status, e.message.as_str()), (415, "Unsupported file type: .txt"));
    let gone: Result<String, HttpError> = Err(HttpError::new(404, "gone"));
    assert_eq!(mount_source(&mut r, &req, gone).unwrap_err().message, "gone");
    assert!(unmount_source(&mut r, "m").is_ok());
    let e = unmount_source(&mut r, "m").unwrap_err();
    assert_eq!((e.status, e.message.as_str()), (404, "DataSource 'm' not found"));
}

#[test]
fn files_are_mounted_under_their_names() {
    let entry = |n: &str, p: &str| SourceEntry { name: n.to_string(), path: p.to_string() };
    let entries = Some(vec![entry("b.tif", "x/other.tif"), entry("c", "c.txt"), entry("v", "v.shp")]);
    let files = texts(&["d/a.kml", "d/b.tif", "d/openapi.json", "d/x.txt", "d/data.json"]);
    let r = build_registry_from_config(&entries, &files);
    let mut names = r.list_names();
    names.sort();
    assert_eq!(names, vec!["a.kml", "b.tif", "data.json", "v"]);
    match r.get("b.tif") {
        Some(FileSource::Raster(s)) => assert_eq!(s.path, "x/other.tif"),
        _ => panic!("the source of the settings should stay"),
    }
    let mut more = init_registry();
    scan_and_auto_mount(&mut more, &texts(&["d/..", "d/b.tif"]));
    assert_eq!(more.list_names(), vec!["b.tif"]);
}

#[test]
fn batches_become_jobs() {
    let req = BatchRequest {
        filename: "a.tif".to_string(),
        tiles: vec![BatchTileReq { z: 4, x: 12, y: 6 }, BatchTileReq { z: 4, x: 13, y: 6 }],
        resampling: Some("bilinear".to_string()),
        stretch: Some("percentile".to_string()),
        bands: None,
    };
    let jobs = batch_tiles::<f64>(&req, "/d/a.tif");
    assert_eq!(jobs.len(), 2);
    assert_eq!((jobs[1].z, jobs[1].x, jobs[1].y, jobs[1].priority), (4, 13, 6, 4));
    assert_eq!((jobs[0].path.as_str(), jobs[0].bands.clone()), ("/d/a.tif", vec![1, 2, 3]));
    assert_eq!(jobs[0].resampling, ResamplingMode::Bilinear);
    assert_eq!(jobs[0].stretch.as_ref().map(|s| s.method), Some(StretchMethod::Percentile));
}

#[test]
fn jobs_are_shared_out() {
    assert_eq!(worker_ranges(0, 4), vec![]);
    assert_eq!(worker_ranges(10, 4), vec![(0, 3), (3, 6), (6, 9), (9, 10)]);
    assert_eq!(worker_ranges(3, 8), vec![(0, 1), (1, 2), (2, 3)]);
    assert_eq!(worker_ranges(5, 0), vec![(0, 5)]);
    assert_eq!(worker_ranges(9, 8), vec![(0, 2), (2, 4), (4, 6), (6, 8), (8, 9)]);
    let done = BatchTileResult { x: 1, y: 2, z: 3, data: vec![9], rendered: 4 };
    let all = render_tiles_parallel(vec![Some(Ok(done)), None, Some(Err("bad".to_string()))]);
    assert_eq!(all.len(), 3);
    assert_eq!(all[0].0, 0);
    assert_eq!(all[0].1.as_ref().map(|t| t.data.clone()), Ok(vec![9]));
    assert_eq!(all[1].1.as_ref().err().map(|e| e.as_str()), Some("No result"));
    assert_eq!((all[2].0, all[2].1.as_ref().err().map(|e| e.as_str())), (2, Some("bad")));
}

fn no_args() -> Cli {
    Cli {
        command: None, config: None, threads: None, full_data: None, port: None, address: None,
        root: None, dir: None, cache_max_age: None, cors: None, gzip: None, no_dotfiles: None,
        log_format: None, l2_cache_mb: None, allow_path: None,
    }
}

#[test]
fn settings_have_defaults() {
    let s = resolve_settings(&no_args(), &AppConfig::default());
    assert_eq!((s.port, s.address.as_str(), s.root.as_str()), (8080, "0.0.0.0", "."));
    assert_eq!((s.server.threads, s.server.cache_max_age, s.server.l2_cache_mb), (4, 3600, 512));
    assert!(!s.server.cors && !s.server.gzip && !s.server.no_dotfiles);
    assert!(s.server.disk_cache_dir.is_none() && s.server.allowed_paths.is_empty());
    let d = ServerConfig::default();
    assert!(d.cors && d.threads == 4 && d.l2_cache_mb == 512);
    assert_eq!(ServerSection::default().port, None);
    assert_eq!(CacheSection::default().l2_size_mb, Some(512));
}

#[test]
fn arguments_count_before_the_file() {
    let mut file = default_config();
    if let Some(server) = &mut file.server {
        server.port = Some(9000);
        server.root = Some("file".to_string());
        server.allowed_paths = Some(texts(&["x"]));
    }
    let mut args = no_args();
    let s = resolve_settings(&args, &file);
    assert_eq!((s.port, s.root.as_str()), (9000, "file"));
    assert_eq!(s.server.disk_cache_dir.as_deref(), Some("./cache/tiles"));
    assert_eq!(s.server.allowed_paths, vec!["x"]);
    args.port = Some(1);
    args.root = Some("option".to_string());
    args.allow_path = Some(vec![]);
    let s = resolve_settings(&args, &file);
    assert_eq!((s.port, s.root.as_str(), s.server.allowed_paths.len()), (1, "option", 0));
    args.dir = Some("dir".to_string());
    assert_eq!(resolve_settings(&args, &file).root, "dir");
    assert_eq!(served_dirs("r", &texts(&["a", "b"])), vec!["r", "a", "b"]);
    assert_eq!((worker_threads(0), worker_threads(3)), (1, 3));
}

#[test]
fn the_first_settings_file() {
    let c = default_config();
    let server = c.server.unwrap();
    assert_eq!((server.port, server.threads, server.cache_max_age), (Some(8080), Some(4), Some(3600)));
    assert_eq!(server.address.as_deref(), Some("0.0.0.0"));
    assert_eq!(server.log_format.as_deref(), Some("default"));
    let sources = c.sources.unwrap();
    assert_eq!((sources[0].name.as_str(), sources[0].path.as_str()), ("example-raster", "./data/raster.tif"));
    assert_eq!(sources[1].name, "example-vector");
    assert_eq!(c.cache.unwrap().disk_dir.as_deref(), Some("./cache/tiles"));
}

#[test]
fn addresses_of_the_server() {
    assert_eq!(access_urls(&HostKind::AnyV4, 80), vec!["http://127.0.0.1:80", "http://localhost:80"]);
    assert_eq!(
        access_urls(&HostKind::AnyV6, 80),
        vec!["http://127.0.0.1:80", "http://localhost:80", "http://[::1]:80"]
    );
    assert_eq!(access_urls(&HostKind::LocalV4, 1), vec!["http://127.0.0.1:1"]);
    assert_eq!(access_urls(&HostKind::LocalV6, 1), vec!["http://[::1]:1"]);
    assert_eq!(access_urls(&HostKind::V4("10.0.0.1".to_string()), 5), vec!["http://10.0.0.1:5"]);
    assert_eq!(access_urls(&HostKind::V6("fe80::1".to_string()), 5), vec!["http://[fe80::1]:5"]);
}

fn batch_job(z: u32, x: u32, y: u32) -> BatchTileJob<i32> {
    BatchTileJob {
        path: format!("{x}.tif"),
        z,
        x,
        y,
        bands: vec![1],
        resampling: ResamplingMode::Bilinear,
        stretch: None,
        priority: z,
    }
}

/// Tiles in odd columns cannot be read.
fn draw_batch(job: &BatchTileJob<i32>) -> Result<(Vec<u8>, u32), String> {
    if job.x % 2 == 1 {
        Err(format!("no {}", job.path))
    } else {
        Ok((vec![job.x as u8], job.y))
    }
}

/// What the workers make of jobs.
fn run_batch(jobs: &Vec<BatchTileJob<i32>>, workers: usize) -> Vec<(usize, String)> {
    let mut results: Vec<Option<Result<BatchTileResult, String>>> =
        (0..jobs.len()).map(|_| None).collect();
    for range in worker_ranges(jobs.len(), workers) {
        for (k, outcome) in run_worker(jobs, range, draw_batch).into_iter().enumerate() {
            results[range.0 + k] = Some(outcome);
        }
    }
    render_tiles_parallel(results).into_iter().map(|(i, r)| (i, format!("{r:?}"))).collect()
}

#[test]
fn batches_do_not_depend_on_workers() {
    let jobs: Vec<BatchTileJob<i32>> = (0..7).map(|x| batch_job(3, x, x + 10)).collect();
    let one = run_batch(&jobs, 1);
    assert_eq!(one.len(), 7);
    assert!(one[2].1.contains("x: 2") && one[2].1.contains("y: 12"));
    assert!(one[3].1.contains("no 3.tif"));
    for workers in [0, 2, 3, 5, 7, 100] {
        assert_eq!(run_batch(&jobs, workers), one);
    }
    assert!(run_batch(&vec![], 4).is_empty());
    let tile = render_single(&jobs[5], Ok((vec![1, 2], 9))).unwrap();
    assert_eq!((tile.z, tile.x, tile.y, tile.data, tile.rendered), (3, 5, 15, vec![1, 2], 9));
    assert_eq!(render_single(&jobs[5], Err("e".to_string())).unwrap_err(), "e");
}
