use simple_geo_server::openapi::{
    build_dynamic_spec, make_operation_id, spec_description, PathTemplate,
};
use simple_geo_server::paths::HttpError;
use simple_geo_server::protocols::{
    base_url, bbox_numbers, file_info, get_bands, map_layer, ows_exception_xml, raster_names,
    tile_count, tile_layer, tilejson, tms_layer, tms_root, tms_row, union_extent,
    wms_capabilities_xml, wms_document, wms_get_map, wms_handler, wmts_capabilities,
    wmts_document, FileExtent, GeoBox, LayerBounds, MapAction, WmsQuery, WmsRequest,
};
use simple_geo_server::tile::types::TileInfo;
use simple_geo_server::xml::{elem, join, leaf, no_attrs, with_attr, write_document, write_empty};

fn s(t: &str) -> Option<String> {
    Some(t.to_string())
}

fn query() -> WmsQuery {
    WmsQuery {
        service: s("WMS"), request: s("GetMap"), version: None, layers: s("a.tif"), styles: None,
        crs: None, bbox: None, width: None, height: None, format: None, transparent: None,
        bgcolor: None, exceptions: None,
    }
}

fn layer(name: &str) -> LayerBounds {
    LayerBounds {
        name: name.to_string(),
        west: "1.0".to_string(), east: "2.0".to_string(), south: "3.0".to_string(),
        north: "4.0".to_string(), minx: "10".to_string(), miny: "20".to_string(),
        maxx: "30".to_string(), maxy: "40".to_string(),
    }
}

#[test]
fn documents_are_moved_in() {
    let inner = join(leaf("b", "x < y"), write_empty("c", with_attr(no_attrs(), "k", "\"v\"\n")));
    let text = write_document(elem("a", no_attrs(), inner));
    assert_eq!(
        text,
        "<?xml version=\"1.0\" encoding=\"UTF-8\"?>\n<a>\n  <b>x &lt; y</b>\n  <c k=\"&quot;v&quot;\n\"/>\n</a>"
    );
    let empty = write_document(elem("a", no_attrs(), vec![]));
    assert_eq!(empty, "<?xml version=\"1.0\" encoding=\"UTF-8\"?>\n<a>\n</a>");
    let special = write_document(leaf("t", "<>&'\"\r\n\tä"));
    assert_eq!(
        special,
        "<?xml version=\"1.0\" encoding=\"UTF-8\"?>\n<t>&lt;&gt;&amp;&apos;&quot;\r\n\tä</t>"
    );
    let attr = write_document(write_empty("t", with_attr(no_attrs(), "a", "<>&'\"\r\n\tä")));
    assert_eq!(
        attr,
        "<?xml version=\"1.0\" encoding=\"UTF-8\"?>\n<t a=\"&lt;&gt;&amp;&apos;&quot;\r\n\tä\"/>"
    );
}

#[test]
fn deep_documents_are_moved_in() {
    let mut inner = leaf("e", "x");
    for _ in 0..70 {
        inner = elem("e", no_attrs(), inner);
    }
    let text = write_document(inner);
    let deepest = text.lines().map(|l| l.len() - l.trim_start().len()).max();
    assert_eq!(deepest, Some(140));
}

#[test]
fn refusals_are_documents() {
    assert_eq!(
        ows_exception_xml("InvalidCRS", "a & b"),
        "<?xml version=\"1.0\" encoding=\"UTF-8\"?>\n<ServiceExceptionReport version=\"1.3.0\" xmlns=\"http://www.opengis.net/ogc\">\n  <ServiceException code=\"InvalidCRS\">a &amp; b</ServiceException>\n</ServiceExceptionReport>"
    );
}

#[test]
fn addresses_name_the_host() {
    assert_eq!(base_url(Some("example.org:80")), "http://example.org:80");
    assert_eq!(base_url(None), "http://localhost:8080");
}

#[test]
fn requests_of_the_map_service() {
    assert_eq!(wms_handler(&query()).unwrap(), WmsRequest::GetMap);
    let mut q = query();
    q.request = s("getcapabilities");
    q.service = s("wms");
    assert_eq!(wms_handler(&q).unwrap(), WmsRequest::GetCapabilities);
    q.request = s("Dance");
    let e = wms_handler(&q).unwrap_err();
    assert_eq!((e.code.as_str(), e.text.as_str()), ("OperationNotSupported", "Unknown request: Dance"));
    q.service = None;
    let e = wms_handler(&q).unwrap_err();
    assert_eq!((e.code.as_str(), e.text.as_str()), ("InvalidParameterValue", "SERVICE must be 'WMS'"));
    assert!(e.document().contains("SERVICE must be &apos;WMS&apos;"));
}

#[test]
fn layers_of_a_map() {
    let mut q = query();
    q.layers = s("a.tif,b.tif");
    assert_eq!(map_layer(&q).unwrap(), "a.tif");
    q.layers = None;
    let e = map_layer(&q).unwrap_err();
    assert_eq!((e.code.as_str(), e.text.as_str()), ("MissingParameterValue", "LAYERS is required"));
}

fn refused(q: &WmsQuery, layer: &str, bbox: &Vec<f64>) -> (String, String) {
    let e = wms_get_map(q, layer, &Ok("/d/x".to_string()), bbox).err().unwrap();
    (e.code, e.text)
}

fn pair(a: &str, b: &str) -> (String, String) {
    (a.to_string(), b.to_string())
}

#[test]
fn maps_are_refused_in_order() {
    let bbox = vec![0.0, 1.0, 2.0, 3.0];
    let gone: Result<String, HttpError> = Err(HttpError::new(404, "gone"));
    let e = wms_get_map(&query(), "a.tif", &gone, &bbox).err().unwrap();
    assert_eq!((e.code, e.text), pair("LayerNotDefined", "Layer 'a.tif' not found: gone"));
    assert_eq!(
        refused(&query(), "a.geojson", &bbox),
        pair("LayerNotQueryable", "WMS GetMap only supports raster layers (GeoTIFF)")
    );
    let mut q = query();
    q.crs = s("EPSG:4326");
    assert_eq!(
        refused(&q, "a.tif", &vec![]),
        pair("InvalidCRS", "Unsupported CRS: EPSG:4326 (only EPSG:3857 is supported)")
    );
    q.crs = s("epsg:900913");
    assert_eq!(
        refused(&q, "a.tif", &vec![1.0]),
        pair("MissingParameterValue", "BBOX is required and must be minx,miny,maxx,maxy")
    );
    let size = pair("InvalidParameterValue", "WIDTH and HEIGHT must be between 1 and 4096");
    q.width = Some(0);
    assert_eq!(refused(&q, "a.tif", &bbox), size);
    q.width = Some(4097);
    assert_eq!(refused(&q, "a.tif", &bbox), size);
}

#[test]
fn bounds_of_maps() {
    let number = |s: &str| s.parse::<f64>().ok();
    let mut q = query();
    q.bbox = s("1, -2.5 ,x,,3e2,4 5");
    assert_eq!(bbox_numbers(&q, number), vec![1.0, -2.5, 300.0]);
    q.bbox = s("");
    assert!(bbox_numbers(&q, number).is_empty());
    q.bbox = None;
    assert!(bbox_numbers(&q, number).is_empty());
}

#[test]
fn maps_are_drawn() {
    let mut q = query();
    q.transparent = s("true");
    q.height = Some(4096);
    match wms_get_map(&q, "a.TIF", &Ok("/d/a.TIF".to_string()), &vec![0.0, 1.0, 2.0, 3.0]) {
        Ok(MapAction::Draw(m)) => {
            assert_eq!((m.width, m.height, m.transparent), (256, 4096, true));
            assert_eq!(m.bbox, [0.0, 1.0, 2.0, 3.0]);
            assert_eq!(m.path, "/d/a.TIF");
        }
        _ => panic!("the map should be drawn"),
    }
    match wms_get_map(&q, "a.shp", &Ok("/d/a.shp".to_string()), &Vec::<f64>::new()) {
        Ok(MapAction::Features(p)) => assert_eq!(p, "/d/a.shp"),
        _ => panic!("the features should be given"),
    }
}

#[test]
fn kinds_of_layers() {
    assert_eq!(file_info(true, "a.tif").unwrap(), "raster");
    assert_eq!(file_info(true, "a.shp").unwrap(), "vector");
    assert_eq!(file_info(true, "a.kml").unwrap(), "vector");
    let e = file_info(true, "a.TXT").unwrap_err();
    assert_eq!((e.status, e.message.as_str()), (415, "Unsupported format: .txt"));
    let e = file_info(false, "a.tif").unwrap_err();
    assert_eq!((e.status, e.message.as_str()), (404, "Layer not found: a.tif"));
    assert!(tile_layer(true, "a.tif", "WMTS").is_ok());
    let e = tile_layer(true, "a.shp", "WMTS").unwrap_err();
    assert_eq!((e.status, e.message.as_str()), (415, "WMTS only supports raster layers"));
    let e = tile_layer(false, "a.tif", "TMS").unwrap_err();
    assert_eq!((e.status, e.message.as_str()), (404, "Layer not found"));
    assert_eq!(get_bands(4), vec![1, 2, 3]);
    assert_eq!(get_bands(2), vec![1]);
    let names: Vec<String> = ["a.tif", "b.shp", "c.TIFF"].iter().map(|n| n.to_string()).collect();
    assert_eq!(raster_names(&names), vec!["a.tif", "c.TIFF"]);
}

#[test]
fn bounds_of_all_layers() {
    let bits = |e: [f64; 4]| [e[0].to_bits(), e[1].to_bits(), e[2].to_bits(), e[3].to_bits()];
    let all = vec![bits([1.0, 2.0, 3.0, 4.0]), bits([-1.0, 5.0, 2.0, 9.0])];
    let (w, e, so, n) = union_extent(&all).unwrap();
    let back = [w, e, so, n].map(f64::from_bits);
    assert_eq!(back, [-1.0, 3.0, 2.0, 9.0]);
    assert_eq!(union_extent(&vec![]), None);
}

#[test]
fn the_map_service_describes_itself() {
    let bounds = Some(GeoBox {
        west: "1".to_string(), east: "2".to_string(), south: "3".to_string(), north: "4".to_string(),
    });
    let doc = wms_document("http://h", &bounds, &vec![layer("a&b.tif")]);
    let expected = "<?xml version=\"1.0\" encoding=\"UTF-8\"?>
<WMS_Capabilities version=\"1.3.0\" xmlns=\"http://www.opengis.net/wms\" xmlns:sld=\"http://www.opengis.net/sld\" xmlns:xsi=\"http://www.w3.org/2001/XMLSchema-instance\" xmlns:xlink=\"http://www.w3.org/1999/xlink\">
  <Service>
    <Name>WMS</Name>
    <Title>SimpleGeoServer WMS</Title>
    <OnlineResource xmlns:xlink=\"http://www.w3.org/1999/xlink\" xlink:href=\"http://h/ogc/wms\"/>
  </Service>
  <Capability>
    <Request>
      <GetCapabilities>
        <Format>application/vnd.ogc.wms_xml</Format>
        <DCPType>
          <HTTP>
            <Get>
              <OnlineResource xmlns:xlink=\"http://www.w3.org/1999/xlink\" xlink:href=\"http://h/ogc/wms\"/>
            </Get>
          </HTTP>
        </DCPType>
      </GetCapabilities>
      <GetMap>
        <Format>image/png</Format>
        <DCPType>
          <HTTP>
            <Get>
              <OnlineResource xmlns:xlink=\"http://www.w3.org/1999/xlink\" xlink:href=\"http://h/ogc/wms\"/>
            </Get>
          </HTTP>
        </DCPType>
        <DCPType>
          <HTTP>
            <Post>
              <OnlineResource xmlns:xlink=\"http://www.w3.org/1999/xlink\" xlink:href=\"http://h/ogc/wms\"/>
            </Post>
          </HTTP>
        </DCPType>
      </GetMap>
    </Request>
    <Exception>
      <Format>XML</Format>
      <Format>INIMAGE</Format>
      <Format>BLANK</Format>
    </Exception>
    <Layer>
      <Title>SimpleGeoServer WMS</Title>
      <CRS>EPSG:3857</CRS>
      <EX_GeographicBoundingBox>
        <westBoundLongitude>1</westBoundLongitude>
        <eastBoundLongitude>2</eastBoundLongitude>
        <southBoundLatitude>3</southBoundLatitude>
        <northBoundLatitude>4</northBoundLatitude>
      </EX_GeographicBoundingBox>
      <Layer>
        <Name>a&amp;b.tif</Name>
        <Title>a&amp;b.tif</Title>
        <CRS>EPSG:3857</CRS>
        <EX_GeographicBoundingBox>
          <westBoundLongitude>1.0</westBoundLongitude>
          <eastBoundLongitude>2.0</eastBoundLongitude>
          <southBoundLatitude>3.0</southBoundLatitude>
          <northBoundLatitude>4.0</northBoundLatitude>
        </EX_GeographicBoundingBox>
        <BoundingBox CRS=\"EPSG:3857\" minx=\"10\" miny=\"20\" maxx=\"30\" maxy=\"40\"/>
        <MinScaleDenominator>0.0</MinScaleDenominator>
        <MaxScaleDenominator>1e12</MaxScaleDenominator>
      </Layer>
    </Layer>
  </Capability>
</WMS_Capabilities>";
    assert_eq!(doc, expected);
    let bare = wms_document("http://h", &None, &vec![]);
    assert!(!bare.contains("EX_GeographicBoundingBox"));
}

#[test]
fn the_tile_matrix_service_describes_itself() {
    let scales: Vec<String> = (0..23).map(|z| format!("scale{z}")).collect();
    let doc = wmts_document("http://h", &vec![layer("a.tif")], &scales, "corner");
    assert!(doc.contains("<ows:BoundingBox CRS=\"EPSG:3857\" minx=\"10\" miny=\"20\" maxx=\"30\" maxy=\"40\"/>"));
    assert!(doc.contains("template=\"http://h/ogc/wmts/1.0.0/{layer}/default/GoogleMapsCompatible/{TileMatrix}/{TileCol}/{TileRow}.png\""));
    assert_eq!(doc.matches("<TileMatrix>").count(), 23);
    let last = "      <TileMatrix>
        <ows:Identifier>22</ows:Identifier>
        <ScaleDenominator>scale22</ScaleDenominator>
        <TopLeftCorner>corner</TopLeftCorner>
        <TileWidth>256</TileWidth>
        <TileHeight>256</TileHeight>
        <MatrixWidth>4194304</MatrixWidth>
        <MatrixHeight>4194304</MatrixHeight>
      </TileMatrix>
    </TileMatrixSet>
  </Contents>
</Capabilities>";
    assert!(doc.ends_with(last));
}

#[test]
fn the_tile_map_service_describes_itself() {
    let files: Vec<String> = ["a.tif", "b.kml"].iter().map(|n| n.to_string()).collect();
    assert_eq!(
        tms_root("http://h", &files),
        "<?xml version=\"1.0\" encoding=\"UTF-8\"?>\n<TileMaps version=\"1.0.0\" xmlns=\"http://tms.osgeo.org/1.0.0\">\n  <TileMap title=\"a.tif\" srs=\"EPSG:3857\" profile=\"global-geodetic\" href=\"http://h/ogc/tms/1.0.0/a.tif\"/>\n</TileMaps>"
    );
    let resolutions: Vec<String> = (0..23).map(|z| format!("r{z}")).collect();
    let doc = tms_layer("http://h", &layer("a.tif"), "-1", 1, &resolutions);
    let expected = "<?xml version=\"1.0\" encoding=\"UTF-8\"?>
<TileMap version=\"1.0.0\" xmlns=\"http://tms.osgeo.org/1.0.0\">
  <Title>a.tif</Title>
  <Abstract>TMS layer for a.tif</Abstract>
  <SRS>EPSG:3857</SRS>
  <BoundingBox minx=\"10\" miny=\"20\" maxx=\"30\" maxy=\"40\"/>
  <Origin x=\"-1\" y=\"-1\"/>
  <TileFormat width=\"256\" height=\"256\" mime-type=\"image/png\" extension=\"png\"/>
  <TileSets>
    <TileSet href=\"http://h/ogc/tms/1.0.0/a.tif/0\" units-per-pixel=\"r0\" order=\"0\"/>
    <TileSet href=\"http://h/ogc/tms/1.0.0/a.tif/1\" units-per-pixel=\"r1\" order=\"1\"/>
  </TileSets>
</TileMap>";
    assert_eq!(doc, expected);
    let deep = tms_layer("http://h", &layer("a.tif"), "-1", 40, &resolutions);
    assert_eq!(deep.matches("<TileSet ").count(), 23);
}

#[test]
fn rows_are_counted_from_the_other_side() {
    assert_eq!(tile_count(0), 1);
    assert_eq!(tile_count(63), 1 << 63);
    assert_eq!(tms_row(3, 0).unwrap(), 7);
    assert_eq!(tms_row(3, 7).unwrap(), 0);
    let e = tms_row(3, 8).unwrap_err();
    assert_eq!((e.status, e.message.as_str()), (400, "Tile Y out of range"));
    for y in 0..16 {
        assert_eq!(tms_row(4, tms_row(4, y).unwrap()).unwrap(), y);
    }
    assert_eq!(tms_row(40, 5).unwrap(), ((1u64 << 40) - 6) as u32);
}

#[test]
fn sources_are_described_for_viewers() {
    let info = TileInfo {
        data_type: "raster".to_string(), min_zoom: 2, max_zoom: 11, crs: "EPSG:4326".to_string(),
        extent: [0.0, 10.0, 4.0, 30.0], native_crs: String::new(), native_extent: [0.0; 4],
    };
    let tj = tilejson("http://h", "a.tif", true, &info, |a: f64, b: f64| (a + b) / 2.0);
    assert_eq!(tj.tiles, vec!["http://h/api/tiles/a.tif/png/{z}/{x}/{y}"]);
    assert_eq!(tj.center, (2.0, 20.0, 6));
    assert_eq!((tj.minzoom, tj.maxzoom, tj.bounds), (2, 11, [0.0, 10.0, 4.0, 30.0]));
    assert_eq!(tj.description, "raster tile layer for a.tif");
    assert_eq!((tj.format.as_str(), tj.tile_type.as_str()), ("png", "raster"));
    assert_eq!((tj.tilejson.as_str(), tj.version.as_str(), tj.scheme.as_str()), ("3.0.0", "1.0.0", "xyz"));
    let tj = tilejson("http://h", "a.kml", false, &info, |a: f64, _b: f64| a);
    assert_eq!(tj.tiles, vec!["http://h/api/tiles/a.kml/geojson/{z}/{x}/{y}"]);
    assert_eq!((tj.format.as_str(), tj.tile_type.as_str()), ("geojson", "vector"));
}

fn template(path: &str, operation: &str) -> PathTemplate {
    let parameters = vec![s("z"), s("filename"), None];
    PathTemplate { path: path.to_string(), operation: operation.to_string(), parameters }
}

#[test]
fn the_interface_is_described_for_each_file() {
    assert_eq!(make_operation_id("get_tile", "a-b.tif"), "get_tile_a_b_tif");
    assert_eq!(make_operation_id("x", "é_1"), "x_é_1");
    let files: Vec<String> = ["b.tif", "a.kml"].iter().map(|n| n.to_string()).collect();
    assert_eq!(
        spec_description(&files),
        "Geospatial file server with raster and vector tile serving.\n\n### Available Geo Files (2)\n\n- `b.tif`\n- `a.kml`"
    );
    assert!(spec_description(&vec![]).ends_with("(0)\n\n"));
    let templates = vec![
        template("/api/tiles/{filename}/info", "info"),
        template("/api/tiles/{filename}/png/{z}", "png"),
        template("/api/tiles/{filename}/geojson/{z}", "features"),
        template("/api/geo-files", "list"),
    ];
    let spec = build_dynamic_spec(&templates, &files);
    assert_eq!(spec.files, files);
    assert_eq!(spec.description, spec_description(&files));
    assert_eq!(spec.kept, vec![3]);
    assert!(spec.paths.iter().all(|p| p.parameters == vec![0, 2]));
    let list: Vec<(usize, &str, &str, &str)> = spec
        .paths
        .iter()
        .map(|p| (p.template, p.path.as_str(), p.operation.as_str(), p.summary.as_str()))
        .collect();
    assert_eq!(
        list,
        vec![
            (2, "/api/tiles/a.kml/geojson/{z}", "features_a_kml", "Get vector tile (GeoJSON) for a.kml"),
            (0, "/api/tiles/a.kml/info", "info_a_kml", "Get info for a.kml"),
            (0, "/api/tiles/b.tif/info", "info_b_tif", "Get info for b.tif"),
            (1, "/api/tiles/b.tif/png/{z}", "png_b_tif", "Get raster tile (PNG) for b.tif"),
        ]
    );
    let empty = build_dynamic_spec(&templates, &vec![]);
    assert_eq!((empty.kept, empty.paths.len()), (vec![0, 1, 2, 3], 0));
    let twice = build_dynamic_spec(&vec![template("/{filename}/{filename}", "o")], &files);
    assert_eq!(twice.paths[0].path, "/a.kml/a.kml");
}

#[test]
fn described_paths_of_a_raster_and_shapes() {
    let files: Vec<String> = ["a.tif", "b.shp"].iter().map(|n| n.to_string()).collect();
    let templates = vec![
        template("/api/geo-files", "list"),
        template("/api/tiles/{filename}/geojson/{z}/{x}/{y}", "features"),
        template("/api/tiles/{filename}/info", "info"),
        template("/api/tiles/{filename}/png/{z}/{x}/{y}", "png"),
    ];
    let spec = build_dynamic_spec(&templates, &files);
    let kept = spec.kept.iter().map(|&i| templates[i].path.clone());
    let mut keys: Vec<String> = kept.chain(spec.paths.iter().map(|p| p.path.clone())).collect();
    keys.sort();
    assert_eq!(
        keys,
        vec![
            "/api/geo-files",
            "/api/tiles/a.tif/info",
            "/api/tiles/a.tif/png/{z}/{x}/{y}",
            "/api/tiles/b.shp/geojson/{z}/{x}/{y}",
            "/api/tiles/b.shp/info",
        ]
    );
    assert_eq!(spec.files, vec!["a.tif", "b.shp"]);
    for path in &spec.paths {
        let names = &templates[path.template].parameters;
        assert!(path.parameters.iter().all(|&i| names[i].as_deref() != Some("filename")));
    }
}

#[test]
fn services_are_described_for_files() {
    let bits = |e: [f64; 4]| Some(e.map(f64::to_bits));
    let file = |name: &str, extent: Option<[u64; 4]>| FileExtent { name: name.to_string(), extent };
    let files = vec![
        file("b.TIF", bits([1.0, 2.0, 3.0, 4.0])),
        file("a.kml", bits([-50.0, -50.0, 50.0, 50.0])),
        file("gone.tif", None),
        file("a.tiff", bits([0.0, 3.0, 2.0, 9.0])),
    ];
    let degrees = |v: u64| format!("{:.1}", f64::from_bits(v));
    let metres = |e: &[u64; 4]| {
        let m = e.map(|v| format!("{}", f64::from_bits(v) * 10.0));
        (m[0].clone(), m[1].clone(), m[2].clone(), m[3].clone())
    };
    let bounds = |name: &str, d: [&str; 4], m: [&str; 4]| LayerBounds {
        name: name.to_string(),
        west: d[0].to_string(), south: d[1].to_string(), east: d[2].to_string(),
        north: d[3].to_string(), minx: m[0].to_string(), miny: m[1].to_string(),
        maxx: m[2].to_string(), maxy: m[3].to_string(),
    };
    let layers = vec![
        bounds("b.TIF", ["1.0", "2.0", "3.0", "4.0"], ["10", "20", "30", "40"]),
        bounds("a.tiff", ["0.0", "3.0", "2.0", "9.0"], ["0", "30", "20", "90"]),
    ];
    let all = Some(GeoBox {
        west: "0.0".to_string(), east: "3.0".to_string(), south: "2.0".to_string(),
        north: "9.0".to_string(),
    });
    assert_eq!(
        wms_capabilities_xml("http://h", &files, degrees, metres),
        wms_document("http://h", &all, &layers)
    );
    assert_eq!(
        wms_capabilities_xml("http://h", &vec![], degrees, metres),
        wms_document("http://h", &None, &vec![])
    );
    let scales: Vec<String> = (0..23).map(|z| z.to_string()).collect();
    assert_eq!(
        wmts_capabilities("http://h", &files, degrees, metres, &scales, "c"),
        wmts_document("http://h", &layers, &scales, "c")
    );
}
