//! The map protocols: their documents, and what they answer.

use crate::double::finite;
use crate::double::{is_less, INFINITY_BITS, NEG_INFINITY_BITS};
use crate::numbers::decimal_text;
use crate::paths::{is_raster_ext, is_vector_ext, lower_ext, HttpError};
use crate::text::{concat2, concat3, split, str_eq, trim, upper};
use crate::tile::types::TileInfo;
use crate::xml;
use crate::xml::{
    elem, join, leaf, no_attrs, with_attr, write_document, write_empty, Attrs, XmlEvent,
};
use vstd::prelude::*;

verus! {

// ─── Layers ───

/// The address of the server, by the host that a request names.
pub fn base_url(host: Option<&str>) -> (url: String)
    ensures
        url@ == "http://"@ + (match host {
            Some(h) => h@,
            None => "localhost:8080"@,
        }),
{
    match host {
        Some(h) => concat2("http://", h),
        None => concat2("http://", "localhost:8080"),
    }
}

/// What a file is served as, by its extension in lower case.
#[derive(Debug, Clone, Copy, PartialEq, Eq, Structural)]
pub enum LayerKind {
    Raster,
    Shapefile,
    Vector,
    Unsupported,
}

/// What a file with an extension is served as.
pub open spec fn kind_of(ext: Seq<char>) -> LayerKind {
    if crate::paths::raster_ext(ext) {
        LayerKind::Raster
    } else if ext == "shp"@ {
        LayerKind::Shapefile
    } else if crate::paths::vector_ext(ext) {
        LayerKind::Vector
    } else {
        LayerKind::Unsupported
    }
}

/// The extension of a file name in lower case.
pub open spec fn ext_of(name: Seq<char>) -> Seq<char> {
    crate::text::lowered(crate::paths::extension(name))
}

/// What a file is served as, and its extension in lower case.
pub fn layer_kind(name: &str) -> (r: (LayerKind, String))
    ensures
        r.0 == kind_of(ext_of(name@)),
        r.1@ == ext_of(name@),
{
    let ext: String = lower_ext(name);
    let kind: LayerKind = if is_raster_ext(ext.as_str()) {
        LayerKind::Raster
    } else if str_eq(ext.as_str(), "shp") {
        LayerKind::Shapefile
    } else if is_vector_ext(ext.as_str()) {
        LayerKind::Vector
    } else {
        LayerKind::Unsupported
    };
    (kind, ext)
}

/// The word for a kind of layer, or the answer that refuses a file of no known kind. The
/// path of the file is valid or not.
pub fn file_info(path_valid: bool, name: &str) -> (r: Result<&'static str, HttpError>)
    ensures
        !path_valid ==> r is Err && r->Err_0.is(404, "Layer not found: "@ + name@),
        path_valid ==> match kind_of(ext_of(name@)) {
            LayerKind::Raster => r is Ok && r->Ok_0@ == "raster"@,
            LayerKind::Shapefile => r is Ok && r->Ok_0@ == "vector"@,
            LayerKind::Vector => r is Ok && r->Ok_0@ == "vector"@,
            LayerKind::Unsupported => r is Err && r->Err_0.is(
                415,
                "Unsupported format: ."@ + ext_of(name@),
            ),
        },
{
    if !path_valid {
        let message: String = concat2("Layer not found: ", name);
        return Err(HttpError::new(404, message.as_str()));
    }
    let (kind, ext): (LayerKind, String) = layer_kind(name);
    match kind {
        LayerKind::Raster => Ok("raster"),
        LayerKind::Shapefile => Ok("vector"),
        LayerKind::Vector => Ok("vector"),
        LayerKind::Unsupported => {
            let message: String = concat2("Unsupported format: .", ext.as_str());
            Err(HttpError::new(415, message.as_str()))
        },
    }
}

/// The rasters among files.
pub open spec fn rasters(names: Seq<Seq<char>>) -> Seq<Seq<char>> {
    names.filter(|n: Seq<char>| crate::paths::raster_ext(ext_of(n)))
}

/// The rasters among files, in the same order.
pub fn raster_names(names: &Vec<String>) -> (r: Vec<String>)
    ensures
        crate::text::texts(r@) == rasters(crate::text::texts(names@)),
{
    let ghost all = crate::text::texts(names@);
    let ghost keep = |n: Seq<char>| crate::paths::raster_ext(ext_of(n));
    let mut r: Vec<String> = Vec::new();
    proof {
        reveal(Seq::filter);
        assert(all.take(0).filter(keep) =~= Seq::empty());
        assert(crate::text::texts(r@) =~= Seq::empty());
    }
    for i in 0..names.len()
        invariant
            all == crate::text::texts(names@),
            keep == (|n: Seq<char>| crate::paths::raster_ext(ext_of(n))),
            crate::text::texts(r@) == all.take(i as int).filter(keep),
    {
        let ghost before = r@;
        proof {
            reveal(Seq::filter);
            assert(all.take(i + 1).drop_last() =~= all.take(i as int));
            assert(all.take(i + 1).last() == names@[i as int]@);
        }
        let ext: String = lower_ext(names[i].as_str());
        if is_raster_ext(ext.as_str()) {
            r.push(names[i].as_str().to_owned());
            assert(crate::text::texts(r@) =~= crate::text::texts(before).push(
                names@[i as int]@,
            ));
        }
    }
    assert(all.take(all.len() as int) =~= all);
    r
}

/// The bands of a raster that are shown: the first three, or the first.
pub fn get_bands(bands: usize) -> (shown: Vec<u32>)
    ensures
        shown@ == (if bands >= 3 {
            seq![1u32, 2u32, 3u32]
        } else {
            seq![1u32]
        }),
{
    let mut shown: Vec<u32> = Vec::new();
    shown.push(1);
    if bands >= 3 {
        shown.push(2);
        shown.push(3);
        assert(shown@ =~= seq![1u32, 2u32, 3u32]);
    } else {
        assert(shown@ =~= seq![1u32]);
    }
    shown
}

/// A layer of a map: its name, and the texts of its bounds in degrees and on the
/// spherical map of the world.
pub struct LayerBounds {
    pub name: String,
    pub west: String,
    pub east: String,
    pub south: String,
    pub north: String,
    pub minx: String,
    pub miny: String,
    pub maxx: String,
    pub maxy: String,
}

/// The texts of bounds in degrees.
pub struct GeoBox {
    pub west: String,
    pub east: String,
    pub south: String,
    pub north: String,
}

/// The bounds of all layers in degrees, by the bits of their numbers: the least west,
/// the greatest east, the least south and the greatest north.
pub open spec fn union_of(extents: Seq<[u64; 4]>) -> (u64, u64, u64, u64)
    decreases extents.len(),
{
    if extents.len() == 0 {
        (INFINITY_BITS, NEG_INFINITY_BITS, INFINITY_BITS, NEG_INFINITY_BITS)
    } else {
        let u = union_of(extents.drop_last());
        let e = extents.last()@;
        (
            if crate::double::less(e[0], u.0) {
                e[0]
            } else {
                u.0
            },
            if crate::double::less(u.1, e[2]) {
                e[2]
            } else {
                u.1
            },
            if crate::double::less(e[1], u.2) {
                e[1]
            } else {
                u.2
            },
            if crate::double::less(u.3, e[3]) {
                e[3]
            } else {
                u.3
            },
        )
    }
}

/// The bounds `(west, east, south, north)` of all layers, where there is a finite west.
pub fn union_extent(extents: &Vec<[u64; 4]>) -> (bounds: Option<(u64, u64, u64, u64)>)
    ensures
        bounds == (if crate::double::is_finite(union_of(extents@).0) {
            Some(union_of(extents@))
        } else {
            None
        }),
{
    let mut west: u64 = INFINITY_BITS;
    let mut east: u64 = NEG_INFINITY_BITS;
    let mut south: u64 = INFINITY_BITS;
    let mut north: u64 = NEG_INFINITY_BITS;
    for i in 0..extents.len()
        invariant
            (west, east, south, north) == union_of(extents@.take(i as int)),
    {
        assert(extents@.take(i + 1).drop_last() =~= extents@.take(i as int));
        let e: [u64; 4] = extents[i];
        if is_less(e[0], west) {
            west = e[0];
        }
        if is_less(east, e[2]) {
            east = e[2];
        }
        if is_less(e[1], south) {
            south = e[1];
        }
        if is_less(north, e[3]) {
            north = e[3];
        }
    }
    assert(extents@.take(extents@.len() as int) =~= extents@);
    if finite(west) {
        Some((west, east, south, north))
    } else {
        None
    }
}

// ─── Layers of files ───

/// A file that is served, and its extent `[west, south, east, north]` by the bits of its
/// numbers, where it can be read.
pub struct FileExtent {
    pub name: String,
    pub extent: Option<[u64; 4]>,
}

/// The rasters among files that can be read, in order.
pub open spec fn readable(files: Seq<FileExtent>) -> Seq<FileExtent>
    decreases files.len(),
{
    if files.len() == 0 {
        Seq::empty()
    } else {
        let before = readable(files.drop_last());
        let f = files.last();
        if crate::paths::raster_ext(ext_of(f.name@)) && f.extent is Some {
            before.push(f)
        } else {
            before
        }
    }
}

/// The extents of files.
pub open spec fn extents_of(files: Seq<FileExtent>) -> Seq<[u64; 4]> {
    files.map_values(|f: FileExtent| f.extent->Some_0)
}

/// A layer is that of a file: `degrees` writes a number of its extent, and `metres` its
/// extent on the spherical map of the world.
pub open spec fn is_layer_of<
    D: Fn(u64) -> String,
    M: Fn(&[u64; 4]) -> (String, String, String, String),
>(f: FileExtent, degrees: D, metres: M, l: LayerBounds) -> bool {
    let e = f.extent->Some_0;
    &&& l.name@ == f.name@
    &&& degrees.ensures((e@[0],), l.west)
    &&& degrees.ensures((e@[2],), l.east)
    &&& degrees.ensures((e@[1],), l.south)
    &&& degrees.ensures((e@[3],), l.north)
    &&& metres.ensures((&e,), (l.minx, l.miny, l.maxx, l.maxy))
}

/// The layers are those of the rasters among files that can be read, in order.
pub open spec fn are_layers_of<
    D: Fn(u64) -> String,
    M: Fn(&[u64; 4]) -> (String, String, String, String),
>(files: Seq<FileExtent>, degrees: D, metres: M, layers: Seq<LayerBounds>) -> bool {
    &&& layers.len() == readable(files).len()
    &&& forall|i: int|
        0 <= i < layers.len() ==> is_layer_of(
            readable(files)[i],
            degrees,
            metres,
            #[trigger] layers[i],
        )
}

/// The bounds of all layers: the union of their extents, where it has a finite west.
pub open spec fn is_box_of<D: Fn(u64) -> String>(
    files: Seq<FileExtent>,
    degrees: D,
    bounds: Option<GeoBox>,
) -> bool {
    let u = union_of(extents_of(readable(files)));
    if crate::double::is_finite(u.0) {
        bounds matches Some(b) && {
            &&& degrees.ensures((u.0,), b.west)
            &&& degrees.ensures((u.1,), b.east)
            &&& degrees.ensures((u.2,), b.south)
            &&& degrees.ensures((u.3,), b.north)
        }
    } else {
        bounds is None
    }
}

/// The layers of files, and their extents.
fn layers_of<D: Fn(u64) -> String, M: Fn(&[u64; 4]) -> (String, String, String, String)>(
    files: &Vec<FileExtent>,
    degrees: &D,
    metres: &M,
) -> (r: (Vec<LayerBounds>, Vec<[u64; 4]>))
    requires
        forall|v: u64| degrees.requires((v,)),
        forall|e: &[u64; 4]| metres.requires((e,)),
    ensures
        are_layers_of(files@, *degrees, *metres, r.0@),
        r.1@ == extents_of(readable(files@)),
{
    let mut layers: Vec<LayerBounds> = Vec::new();
    let mut extents: Vec<[u64; 4]> = Vec::new();
    assert(files@.take(0) =~= Seq::<FileExtent>::empty());
    assert(extents@ =~= extents_of(readable(files@.take(0))));
    for i in 0..files.len()
        invariant
            forall|v: u64| degrees.requires((v,)),
            forall|e: &[u64; 4]| metres.requires((e,)),
            are_layers_of(files@.take(i as int), *degrees, *metres, layers@),
            extents@ == extents_of(readable(files@.take(i as int))),
    {
        let ghost before = readable(files@.take(i as int));
        assert(files@.take(i + 1).drop_last() =~= files@.take(i as int));
        assert(files@.take(i + 1).last() == files@[i as int]);
        let f: &FileExtent = &files[i];
        let ext: String = lower_ext(f.name.as_str());
        if is_raster_ext(ext.as_str()) {
            match f.extent {
                Some(e) => {
                    let (minx, miny, maxx, maxy): (String, String, String, String) = metres(&e);
                    let layer: LayerBounds = LayerBounds {
                        name: f.name.as_str().to_owned(),
                        west: degrees(e[0]),
                        east: degrees(e[2]),
                        south: degrees(e[1]),
                        north: degrees(e[3]),
                        minx,
                        miny,
                        maxx,
                        maxy,
                    };
                    assert(is_layer_of(files@[i as int], *degrees, *metres, layer));
                    let ghost (prior_layers, prior_extents) = (layers@, extents@);
                    layers.push(layer);
                    extents.push(e);
                    proof {
                        let now = readable(files@.take(i + 1));
                        assert(now =~= before.push(files@[i as int]));
                        assert(extents@ =~= extents_of(now));
                        assert forall|k: int| 0 <= k < layers@.len() implies is_layer_of(
                            now[k],
                            *degrees,
                            *metres,
                            #[trigger] layers@[k],
                        ) by {
                            if k < prior_layers.len() {
                                assert(layers@[k] == prior_layers[k]);
                            }
                        }
                    }
                },
                None => {},
            }
        }
    }
    assert(files@.take(files@.len() as int) =~= files@);
    (layers, extents)
}

// ─── Answers to wrong requests ───

/// The parts of the document that refuses a request.
pub open spec fn exception_parts(code: Seq<char>, text: Seq<char>) -> Seq<xml::XmlItem> {
    xml::element(
        "ServiceExceptionReport"@,
        seq![("version"@, "1.3.0"@), ("xmlns"@, "http://www.opengis.net/ogc"@)],
        xml::element(
            "ServiceException"@,
            seq![("code"@, code)],
            seq![xml::XmlItem::Text(text)],
        ),
    )
}

/// The document that refuses a request. It goes with status 400.
pub fn ows_exception_xml(code: &str, text: &str) -> (doc: String)
    ensures
        doc@ == xml::xml_text(exception_parts(code@, text@)),
{
    let mut inner: Vec<XmlEvent> = Vec::new();
    inner.push(XmlEvent::Text(text.to_owned()));
    assert(xml::items(inner@) =~= seq![xml::XmlItem::Text(text@)]);
    let code_attr: Attrs = with_attr(no_attrs(), "code", code);
    assert(xml::attrs_view(code_attr@) =~= seq![("code"@, code@)]);
    let exception: Vec<XmlEvent> = elem("ServiceException", code_attr, inner);
    let attrs: Attrs = with_attr(
        with_attr(no_attrs(), "version", "1.3.0"),
        "xmlns",
        "http://www.opengis.net/ogc",
    );
    assert(xml::attrs_view(attrs@) =~= seq![
        ("version"@, "1.3.0"@),
        ("xmlns"@, "http://www.opengis.net/ogc"@),
    ]);
    write_document(elem("ServiceExceptionReport", attrs, exception))
}

// ─── The map service ───

pub open spec fn xlink() -> Seq<char> {
    "http://www.w3.org/1999/xlink"@
}

/// The address of a service.
pub open spec fn online_resource(url: Seq<char>) -> Seq<xml::XmlItem> {
    xml::empty_element(
        "OnlineResource"@,
        seq![("xmlns:xlink"@, xlink()), ("xlink:href"@, url)],
    )
}

fn online_resource_xml(url: &str) -> (r: Vec<XmlEvent>)
    ensures
        xml::items(r@) == online_resource(url@),
{
    let attrs: Attrs = with_attr(
        with_attr(no_attrs(), "xmlns:xlink", "http://www.w3.org/1999/xlink"),
        "xlink:href",
        url,
    );
    assert(xml::attrs_view(attrs@) =~= seq![("xmlns:xlink"@, xlink()), ("xlink:href"@, url@)]);
    write_empty("OnlineResource", attrs)
}

/// An element without attributes.
pub open spec fn plain(name: Seq<char>, inner: Seq<xml::XmlItem>) -> Seq<xml::XmlItem> {
    xml::element(name, Seq::empty(), inner)
}

fn plain_xml(name: &str, inner: Vec<XmlEvent>) -> (r: Vec<XmlEvent>)
    ensures
        xml::items(r@) == plain(name@, xml::items(inner@)),
{
    elem(name, no_attrs(), inner)
}

/// The way in which a request can be sent.
pub open spec fn transport(method: Seq<char>, url: Seq<char>) -> Seq<xml::XmlItem> {
    plain("DCPType"@, plain("HTTP"@, plain(method, online_resource(url))))
}

fn transport_xml(method: &str, url: &str) -> (r: Vec<XmlEvent>)
    ensures
        xml::items(r@) == transport(method@, url@),
{
    plain_xml("DCPType", plain_xml("HTTP", plain_xml(method, online_resource_xml(url))))
}

/// Bounds in degrees.
pub open spec fn geographic_box(
    west: Seq<char>,
    east: Seq<char>,
    south: Seq<char>,
    north: Seq<char>,
) -> Seq<xml::XmlItem> {
    plain(
        "EX_GeographicBoundingBox"@,
        xml::text_element("westBoundLongitude"@, west) + xml::text_element(
            "eastBoundLongitude"@,
            east,
        ) + xml::text_element("southBoundLatitude"@, south) + xml::text_element(
            "northBoundLatitude"@,
            north,
        ),
    )
}

fn geographic_box_xml(west: &str, east: &str, south: &str, north: &str) -> (r: Vec<XmlEvent>)
    ensures
        xml::items(r@) == geographic_box(west@, east@, south@, north@),
{
    let mut inner: Vec<XmlEvent> = leaf("westBoundLongitude", west);
    inner = join(inner, leaf("eastBoundLongitude", east));
    inner = join(inner, leaf("southBoundLatitude", south));
    inner = join(inner, leaf("northBoundLatitude", north));
    plain_xml("EX_GeographicBoundingBox", inner)
}

/// Bounds on the spherical map of the world.
pub open spec fn mercator_box(name: Seq<char>, l: LayerBounds) -> Seq<xml::XmlItem> {
    xml::empty_element(
        name,
        seq![
            ("CRS"@, "EPSG:3857"@),
            ("minx"@, l.minx@),
            ("miny"@, l.miny@),
            ("maxx"@, l.maxx@),
            ("maxy"@, l.maxy@),
        ],
    )
}

fn mercator_box_xml(name: &str, l: &LayerBounds) -> (r: Vec<XmlEvent>)
    ensures
        xml::items(r@) == mercator_box(name@, *l),
{
    let mut attrs: Attrs = with_attr(no_attrs(), "CRS", "EPSG:3857");
    attrs = with_attr(attrs, "minx", l.minx.as_str());
    attrs = with_attr(attrs, "miny", l.miny.as_str());
    attrs = with_attr(attrs, "maxx", l.maxx.as_str());
    attrs = with_attr(attrs, "maxy", l.maxy.as_str());
    assert(xml::attrs_view(attrs@) =~= seq![
        ("CRS"@, "EPSG:3857"@),
        ("minx"@, l.minx@),
        ("miny"@, l.miny@),
        ("maxx"@, l.maxx@),
        ("maxy"@, l.maxy@),
    ]);
    write_empty(name, attrs)
}

/// A layer of the map service.
pub open spec fn wms_layer(l: LayerBounds) -> Seq<xml::XmlItem> {
    plain(
        "Layer"@,
        xml::text_element("Name"@, l.name@) + xml::text_element("Title"@, l.name@)
            + xml::text_element("CRS"@, "EPSG:3857"@) + geographic_box(
            l.west@,
            l.east@,
            l.south@,
            l.north@,
        ) + mercator_box("BoundingBox"@, l) + xml::text_element("MinScaleDenominator"@, "0.0"@)
            + xml::text_element("MaxScaleDenominator"@, "1e12"@),
    )
}

fn wms_layer_xml(l: &LayerBounds) -> (r: Vec<XmlEvent>)
    ensures
        xml::items(r@) == wms_layer(*l),
{
    let mut inner: Vec<XmlEvent> = leaf("Name", l.name.as_str());
    inner = join(inner, leaf("Title", l.name.as_str()));
    inner = join(inner, leaf("CRS", "EPSG:3857"));
    inner = join(
        inner,
        geographic_box_xml(l.west.as_str(), l.east.as_str(), l.south.as_str(), l.north.as_str()),
    );
    inner = join(inner, mercator_box_xml("BoundingBox", l));
    inner = join(inner, leaf("MinScaleDenominator", "0.0"));
    inner = join(inner, leaf("MaxScaleDenominator", "1e12"));
    plain_xml("Layer", inner)
}

/// The layers of the map service.
pub open spec fn wms_layers(layers: Seq<LayerBounds>) -> Seq<xml::XmlItem>
    decreases layers.len(),
{
    if layers.len() == 0 {
        Seq::empty()
    } else {
        wms_layers(layers.drop_last()) + wms_layer(layers.last())
    }
}

/// What the map service tells of itself.
pub open spec fn wms_service(url: Seq<char>) -> Seq<xml::XmlItem> {
    plain(
        "Service"@,
        xml::text_element("Name"@, "WMS"@) + xml::text_element("Title"@, "SimpleGeoServer WMS"@)
            + online_resource(url),
    )
}

/// The requests of the map service.
pub open spec fn wms_requests(url: Seq<char>) -> Seq<xml::XmlItem> {
    plain(
        "Request"@,
        plain(
            "GetCapabilities"@,
            xml::text_element("Format"@, "application/vnd.ogc.wms_xml"@) + transport("Get"@, url),
        ) + plain(
            "GetMap"@,
            xml::text_element("Format"@, "image/png"@) + transport("Get"@, url) + transport(
                "Post"@,
                url,
            ),
        ),
    )
}

/// How the map service tells of errors.
pub open spec fn wms_exceptions() -> Seq<xml::XmlItem> {
    plain(
        "Exception"@,
        xml::text_element("Format"@, "XML"@) + xml::text_element("Format"@, "INIMAGE"@)
            + xml::text_element("Format"@, "BLANK"@),
    )
}

/// The bounds of all layers, where they are known.
pub open spec fn wms_bounds(bounds: Option<GeoBox>) -> Seq<xml::XmlItem> {
    match bounds {
        Some(b) => geographic_box(b.west@, b.east@, b.south@, b.north@),
        None => Seq::empty(),
    }
}

/// The parts of the document that describes the map service.
pub open spec fn wms_capabilities(
    url: Seq<char>,
    bounds: Option<GeoBox>,
    layers: Seq<LayerBounds>,
) -> Seq<xml::XmlItem> {
    xml::element(
        "WMS_Capabilities"@,
        seq![
            ("version"@, "1.3.0"@),
            ("xmlns"@, "http://www.opengis.net/wms"@),
            ("xmlns:sld"@, "http://www.opengis.net/sld"@),
            ("xmlns:xsi"@, "http://www.w3.org/2001/XMLSchema-instance"@),
            ("xmlns:xlink"@, xlink()),
        ],
        wms_service(url) + plain(
            "Capability"@,
            wms_requests(url) + wms_exceptions() + plain(
                "Layer"@,
                xml::text_element("Title"@, "SimpleGeoServer WMS"@) + xml::text_element(
                    "CRS"@,
                    "EPSG:3857"@,
                ) + wms_bounds(bounds) + wms_layers(layers),
            ),
        ),
    )
}

/// The document that describes the map service, with the bounds of all layers, where
/// they are known, and the layers.
pub fn wms_document(base: &str, bounds: &Option<GeoBox>, layers: &Vec<LayerBounds>) -> (doc: String)
    ensures
        doc@ == xml::xml_text(wms_capabilities(base@ + "/ogc/wms"@, *bounds, layers@)),
{
    let url_text: String = concat2(base, "/ogc/wms");
    let url: &str = url_text.as_str();

    let mut service: Vec<XmlEvent> = leaf("Name", "WMS");
    service = join(service, leaf("Title", "SimpleGeoServer WMS"));
    service = join(service, online_resource_xml(url));
    let service: Vec<XmlEvent> = plain_xml("Service", service);

    let mut describe: Vec<XmlEvent> = leaf("Format", "application/vnd.ogc.wms_xml");
    describe = join(describe, transport_xml("Get", url));
    let mut map: Vec<XmlEvent> = leaf("Format", "image/png");
    map = join(map, transport_xml("Get", url));
    map = join(map, transport_xml("Post", url));
    let requests: Vec<XmlEvent> = plain_xml(
        "Request",
        join(plain_xml("GetCapabilities", describe), plain_xml("GetMap", map)),
    );

    let mut errors: Vec<XmlEvent> = leaf("Format", "XML");
    errors = join(errors, leaf("Format", "INIMAGE"));
    errors = join(errors, leaf("Format", "BLANK"));
    let errors: Vec<XmlEvent> = plain_xml("Exception", errors);

    let mut top: Vec<XmlEvent> = leaf("Title", "SimpleGeoServer WMS");
    top = join(top, leaf("CRS", "EPSG:3857"));
    let mut all_bounds: Vec<XmlEvent> = Vec::new();
    assert(xml::items(all_bounds@) =~= Seq::empty());
    match bounds {
        Some(b) => {
            all_bounds = geographic_box_xml(
                b.west.as_str(),
                b.east.as_str(),
                b.south.as_str(),
                b.north.as_str(),
            );
        },
        None => {},
    }
    top = join(top, all_bounds);
    let mut each: Vec<XmlEvent> = Vec::new();
    assert(xml::items(each@) =~= Seq::empty());
    for i in 0..layers.len()
        invariant
            xml::items(each@) == wms_layers(layers@.take(i as int)),
    {
        assert(layers@.take(i + 1).drop_last() =~= layers@.take(i as int));
        each = join(each, wms_layer_xml(&layers[i]));
    }
    assert(layers@.take(layers@.len() as int) =~= layers@);
    top = join(top, each);
    let layer: Vec<XmlEvent> = plain_xml("Layer", top);

    let capability: Vec<XmlEvent> = plain_xml("Capability", join(join(requests, errors), layer));
    let mut attrs: Attrs = with_attr(no_attrs(), "version", "1.3.0");
    attrs = with_attr(attrs, "xmlns", "http://www.opengis.net/wms");
    attrs = with_attr(attrs, "xmlns:sld", "http://www.opengis.net/sld");
    attrs = with_attr(attrs, "xmlns:xsi", "http://www.w3.org/2001/XMLSchema-instance");
    attrs = with_attr(attrs, "xmlns:xlink", "http://www.w3.org/1999/xlink");
    assert(xml::attrs_view(attrs@) =~= seq![
        ("version"@, "1.3.0"@),
        ("xmlns"@, "http://www.opengis.net/wms"@),
        ("xmlns:sld"@, "http://www.opengis.net/sld"@),
        ("xmlns:xsi"@, "http://www.w3.org/2001/XMLSchema-instance"@),
        ("xmlns:xlink"@, xlink()),
    ]);
    write_document(elem("WMS_Capabilities", attrs, join(service, capability)))
}

/// The document that describes the map service for files: its layers are the rasters that
/// can be read, in order, and its bounds are the union of their extents. `degrees` writes a
/// number of an extent, and `metres` an extent on the spherical map of the world.
pub fn wms_capabilities_xml<
    D: Fn(u64) -> String,
    M: Fn(&[u64; 4]) -> (String, String, String, String),
>(base: &str, files: &Vec<FileExtent>, degrees: D, metres: M) -> (doc: String)
    requires
        forall|v: u64| degrees.requires((v,)),
        forall|e: &[u64; 4]| metres.requires((e,)),
    ensures
        exists|bounds: Option<GeoBox>, layers: Seq<LayerBounds>|
            #![trigger wms_capabilities(base@ + "/ogc/wms"@, bounds, layers)]
            is_box_of(files@, degrees, bounds) && are_layers_of(files@, degrees, metres, layers)
                && doc@ == xml::xml_text(wms_capabilities(base@ + "/ogc/wms"@, bounds, layers)),
{
    let (layers, extents): (Vec<LayerBounds>, Vec<[u64; 4]>) = layers_of(files, &degrees, &metres);
    let bounds: Option<GeoBox> = match union_extent(&extents) {
        Some(u) => Some(
            GeoBox {
                west: degrees(u.0),
                east: degrees(u.1),
                south: degrees(u.2),
                north: degrees(u.3),
            },
        ),
        None => None,
    };
    assert(is_box_of(files@, degrees, bounds));
    wms_document(base, &bounds, &layers)
}

/// The parameters of a request to the map service.
pub struct WmsQuery {
    pub service: Option<String>,
    pub request: Option<String>,
    pub version: Option<String>,
    pub layers: Option<String>,
    pub styles: Option<String>,
    pub crs: Option<String>,
    pub bbox: Option<String>,
    pub width: Option<u32>,
    pub height: Option<u32>,
    pub format: Option<String>,
    pub transparent: Option<String>,
    pub bgcolor: Option<String>,
    pub exceptions: Option<String>,
}

/// A request that is refused: the code of the error and what it says.
#[derive(Debug, Clone)]
pub struct OwsError {
    pub code: String,
    pub text: String,
}

impl OwsError {
    pub open spec fn is(self, code: Seq<char>, text: Seq<char>) -> bool {
        self.code@ == code && self.text@ == text
    }

    pub fn new(code: &str, text: &str) -> (e: Self)
        ensures
            e.is(code@, text@),
    {
        OwsError { code: code.to_owned(), text: text.to_owned() }
    }

    /// The document that refuses the request.
    pub fn document(&self) -> (doc: String)
        ensures
            doc@ == xml::xml_text(exception_parts(self.code@, self.text@)),
    {
        ows_exception_xml(self.code.as_str(), self.text.as_str())
    }
}

/// A parameter, or another text where it is missing.
pub open spec fn param_or(p: Option<String>, default: Seq<char>) -> Seq<char> {
    match p {
        Some(t) => t@,
        None => default,
    }
}

fn param<'a>(p: &'a Option<String>, default: &'a str) -> (t: &'a str)
    ensures
        t@ == param_or(*p, default@),
{
    match p {
        Some(t) => t.as_str(),
        None => default,
    }
}

/// What a request to the map service asks for.
#[derive(Debug, Clone, Copy, PartialEq, Eq, Structural)]
pub enum WmsRequest {
    GetCapabilities,
    GetMap,
}

/// What a request to the map service asks for, or how it is refused.
pub fn wms_handler(q: &WmsQuery) -> (r: Result<WmsRequest, OwsError>)
    ensures
        ({
            let service = crate::text::raised(param_or(q.service, ""@));
            let request = crate::text::raised(param_or(q.request, ""@));
            if service != "WMS"@ {
                r is Err && r->Err_0.is("InvalidParameterValue"@, "SERVICE must be 'WMS'"@)
            } else if request == "GETCAPABILITIES"@ {
                r == Ok::<WmsRequest, OwsError>(WmsRequest::GetCapabilities)
            } else if request == "GETMAP"@ {
                r == Ok::<WmsRequest, OwsError>(WmsRequest::GetMap)
            } else {
                r is Err && r->Err_0.is(
                    "OperationNotSupported"@,
                    "Unknown request: "@ + param_or(q.request, ""@),
                )
            }
        }),
{
    let service: String = upper(param(&q.service, ""));
    if !str_eq(service.as_str(), "WMS") {
        return Err(OwsError::new("InvalidParameterValue", "SERVICE must be 'WMS'"));
    }
    let asked: &str = param(&q.request, "");
    let request: String = upper(asked);
    if str_eq(request.as_str(), "GETCAPABILITIES") {
        return Ok(WmsRequest::GetCapabilities);
    }
    proof {
        reveal_strlit("GETCAPABILITIES");
        reveal_strlit("GETMAP");
    }
    if str_eq(request.as_str(), "GETMAP") {
        return Ok(WmsRequest::GetMap);
    }
    let text: String = concat2("Unknown request: ", asked);
    Err(OwsError::new("OperationNotSupported", text.as_str()))
}

/// The first of the layers that a request names.
pub open spec fn first_layer(layers: Seq<char>) -> Seq<char> {
    crate::text::split_spec(layers, ',')[0]
}

/// The layer that a request for a map names.
pub fn map_layer(q: &WmsQuery) -> (r: Result<String, OwsError>)
    ensures
        param_or(q.layers, ""@).len() == 0 ==> r is Err && r->Err_0.is(
            "MissingParameterValue"@,
            "LAYERS is required"@,
        ),
        param_or(q.layers, ""@).len() > 0 ==> r is Ok && r->Ok_0@ == first_layer(
            param_or(q.layers, ""@),
        ),
{
    let layers: &str = param(&q.layers, "");
    proof {
        reveal_strlit("");
        if layers@.len() == 0 {
            assert(layers@ =~= ""@);
        }
    }
    if str_eq(layers, "") {
        return Err(OwsError::new("MissingParameterValue", "LAYERS is required"));
    }
    let names: Vec<String> = split(layers, ',');
    assert(crate::text::texts(names@)[0] == names@[0]@);
    Ok(names[0].as_str().to_owned())
}

/// A map that is to be drawn. `F` is the type of coordinates.
pub struct MapRequest<F> {
    pub path: String,
    pub bbox: [F; 4],
    pub width: u32,
    pub height: u32,
    pub transparent: bool,
}

/// What a request for a map gets.
pub enum MapAction<F> {
    /// The features of the shapefile at this path.
    Features(String),
    Draw(MapRequest<F>),
}

/// A map can be drawn in this reference system.
pub open spec fn map_crs(crs: Seq<char>) -> bool {
    crate::text::raised(crs) == "EPSG:3857"@ || crate::text::raised(crs) == "EPSG:900913"@
}

/// A map can have this size.
pub open spec fn map_size(width: u32, height: u32) -> bool {
    1 <= width <= 4096 && 1 <= height <= 4096
}

pub open spec fn size_or(n: Option<u32>) -> u32 {
    match n {
        Some(n) => n,
        None => 256,
    }
}

fn size_param(n: Option<u32>) -> (r: u32)
    ensures
        r == size_or(n),
{
    match n {
        Some(n) => n,
        None => 256,
    }
}

/// The pieces of the bounds that were asked for: what stands between commas, without the
/// white space around it.
pub open spec fn bbox_pieces(q: WmsQuery) -> Seq<Seq<char>> {
    crate::text::split_spec(param_or(q.bbox, ""@), ',').map_values(
        |piece: Seq<char>| crate::text::trim_spec(piece),
    )
}

/// `found` is what `parse` gives for a piece.
pub open spec fn is_parsed<F, P: Fn(&str) -> Option<F>>(
    piece: Seq<char>,
    parse: P,
    found: Option<F>,
) -> bool {
    exists|text: &str| #[trigger] parse.ensures((text,), found) && text@ == piece
}

/// `found` is what `parse` gives for each piece.
pub open spec fn all_parsed<F, P: Fn(&str) -> Option<F>>(
    pieces: Seq<Seq<char>>,
    parse: P,
    found: Seq<Option<F>>,
) -> bool {
    &&& found.len() == pieces.len()
    &&& forall|i: int| 0 <= i < found.len() ==> is_parsed(pieces[i], parse, #[trigger] found[i])
}

/// What was found, in order.
pub open spec fn all_found<F>(found: Seq<Option<F>>) -> Seq<F>
    decreases found.len(),
{
    if found.len() == 0 {
        Seq::empty()
    } else {
        match found.last() {
            Some(v) => all_found(found.drop_last()).push(v),
            None => all_found(found.drop_last()),
        }
    }
}

/// The numbers in the bounds that were asked for: what `parse` gives for the pieces of the
/// bounds, without those that it refuses.
pub fn bbox_numbers<F, P: Fn(&str) -> Option<F>>(q: &WmsQuery, parse: P) -> (bbox: Vec<F>)
    requires
        forall|text: &str| parse.requires((text,)),
    ensures
        exists|found: Seq<Option<F>>| #[trigger]
            all_parsed(bbox_pieces(*q), parse, found) && bbox@ == all_found(found),
{
    let split_up: Vec<String> = split(param(&q.bbox, ""), ',');
    let ghost pieces = bbox_pieces(*q);
    let ghost mut found: Seq<Option<F>> = Seq::empty();
    let mut bbox: Vec<F> = Vec::new();
    for i in 0..split_up.len()
        invariant
            forall|text: &str| parse.requires((text,)),
            crate::text::texts(split_up@).map_values(
                |piece: Seq<char>| crate::text::trim_spec(piece),
            ) == pieces,
            found.len() == i,
            forall|k: int| 0 <= k < i ==> is_parsed(pieces[k], parse, #[trigger] found[k]),
            bbox@ == all_found(found),
    {
        let piece: String = trim(split_up[i].as_str());
        assert(piece@ == pieces[i as int]);
        let number: Option<F> = parse(piece.as_str());
        let ghost before = found;
        proof {
            assert(is_parsed(pieces[i as int], parse, number));
            found = found.push(number);
            assert(found.drop_last() =~= before);
        }
        match number {
            Some(v) => {
                bbox.push(v);
            },
            None => {},
        }
    }
    assert(all_parsed(pieces, parse, found));
    bbox
}

/// What a request for a map of a layer gets, or how it is refused. `path` is the path of
/// the layer or the answer that refuses it, and `bbox` the numbers in the bounds that
/// were asked for.
pub fn wms_get_map<F: Copy>(
    q: &WmsQuery,
    layer: &str,
    path: &Result<String, HttpError>,
    bbox: &Vec<F>,
) -> (r: Result<MapAction<F>, OwsError>)
    ensures
        ({
            let kind = kind_of(ext_of(layer@));
            let crs = param_or(q.crs, "EPSG:3857"@);
            if path is Err {
                r is Err && r->Err_0.is(
                    "LayerNotDefined"@,
                    "Layer '"@ + layer@ + "' not found: "@ + path->Err_0.message@,
                )
            } else if kind is Shapefile {
                r matches Ok(MapAction::Features(p)) && p@ == path->Ok_0@
            } else if !(kind is Raster) {
                r is Err && r->Err_0.is(
                    "LayerNotQueryable"@,
                    "WMS GetMap only supports raster layers (GeoTIFF)"@,
                )
            } else if !map_crs(crs) {
                r is Err && r->Err_0.is(
                    "InvalidCRS"@,
                    "Unsupported CRS: "@ + crs + " (only EPSG:3857 is supported)"@,
                )
            } else if bbox@.len() != 4 {
                r is Err && r->Err_0.is(
                    "MissingParameterValue"@,
                    "BBOX is required and must be minx,miny,maxx,maxy"@,
                )
            } else if !map_size(size_or(q.width), size_or(q.height)) {
                r is Err && r->Err_0.is(
                    "InvalidParameterValue"@,
                    "WIDTH and HEIGHT must be between 1 and 4096"@,
                )
            } else {
                &&& r matches Ok(MapAction::Draw(m))
                &&& m.path@ == path->Ok_0@
                &&& m.bbox@ == bbox@
                &&& m.width == size_or(q.width)
                &&& m.height == size_or(q.height)
                &&& m.transparent == (q.transparent is Some && crate::text::raised(
                    q.transparent->Some_0@,
                ) == "TRUE"@)
            }
        }),
{
    let file: &String = match path {
        Ok(p) => p,
        Err(e) => {
            let mut text: String = concat3("Layer '", layer, "' not found: ");
            text.append(e.message.as_str());
            return Err(OwsError::new("LayerNotDefined", text.as_str()));
        },
    };
    let (kind, _ext): (LayerKind, String) = layer_kind(layer);
    match kind {
        LayerKind::Shapefile => {
            return Ok(MapAction::Features(file.as_str().to_owned()));
        },
        LayerKind::Raster => {},
        _ => {
            return Err(
                OwsError::new(
                    "LayerNotQueryable",
                    "WMS GetMap only supports raster layers (GeoTIFF)",
                ),
            );
        },
    }
    let crs: &str = param(&q.crs, "EPSG:3857");
    let raised: String = upper(crs);
    if !str_eq(raised.as_str(), "EPSG:3857") && !str_eq(raised.as_str(), "EPSG:900913") {
        let text: String = concat3(
            "Unsupported CRS: ",
            crs,
            " (only EPSG:3857 is supported)",
        );
        return Err(OwsError::new("InvalidCRS", text.as_str()));
    }
    if bbox.len() != 4 {
        return Err(
            OwsError::new(
                "MissingParameterValue",
                "BBOX is required and must be minx,miny,maxx,maxy",
            ),
        );
    }
    let width: u32 = size_param(q.width);
    let height: u32 = size_param(q.height);
    if width == 0 || height == 0 || width > 4096 || height > 4096 {
        return Err(
            OwsError::new("InvalidParameterValue", "WIDTH and HEIGHT must be between 1 and 4096"),
        );
    }
    let transparent: bool = match &q.transparent {
        Some(t) => {
            let raised: String = upper(t.as_str());
            str_eq(raised.as_str(), "TRUE")
        },
        None => false,
    };
    let corners: [F; 4] = [bbox[0], bbox[1], bbox[2], bbox[3]];
    assert(corners@ =~= bbox@);
    Ok(
        MapAction::Draw(
            MapRequest {
                path: file.as_str().to_owned(),
                bbox: corners,
                width,
                height,
                transparent,
            },
        ),
    )
}

// ─── The tile services ───

/// The answer that refuses a tile of a layer, where it is refused.
pub fn tile_layer(path_valid: bool, name: &str, service: &str) -> (r: Result<(), HttpError>)
    ensures
        !path_valid ==> r is Err && r->Err_0.is(404, "Layer not found"@),
        path_valid && !crate::paths::raster_ext(ext_of(name@)) ==> r is Err && r->Err_0.is(
            415,
            service@ + " only supports raster layers"@,
        ),
        path_valid && crate::paths::raster_ext(ext_of(name@)) ==> r is Ok,
{
    if !path_valid {
        return Err(HttpError::new(404, "Layer not found"));
    }
    let ext: String = lower_ext(name);
    if !is_raster_ext(ext.as_str()) {
        let message: String = concat2(service, " only supports raster layers");
        return Err(HttpError::new(415, message.as_str()));
    }
    Ok(())
}

/// The number of tiles along one side of the world at a zoom level.
pub open spec fn tiles_across(z: nat) -> nat
    decreases z,
{
    if z == 0 {
        1
    } else {
        2 * tiles_across((z - 1) as nat)
    }
}

proof fn lemma_tiles_across(a: nat, b: nat)
    requires
        a <= b,
    ensures
        1 <= tiles_across(a) <= tiles_across(b),
    decreases b,
{
    if a < b {
        lemma_tiles_across(a, (b - 1) as nat);
    } else if a > 0 {
        lemma_tiles_across((a - 1) as nat, (a - 1) as nat);
    }
}

proof fn lemma_tiles_are_power(z: nat)
    ensures
        tiles_across(z) == vstd::arithmetic::power2::pow2(z),
    decreases z,
{
    if z == 0 {
        vstd::arithmetic::power2::lemma2_to64();
    } else {
        lemma_tiles_are_power((z - 1) as nat);
        vstd::arithmetic::power2::lemma_pow2_unfold(z);
    }
}

/// The number of tiles along one side of the world at a zoom level.
pub fn tile_count(z: u32) -> (n: u64)
    requires
        z < 64,
    ensures
        n == tiles_across(z as nat),
        n >= 1,
{
    let mut n: u64 = 1;
    let mut k: u32 = 0;
    while k < z
        invariant
            k <= z < 64,
            n == tiles_across(k as nat),
            n >= 1,
        decreases z - k,
    {
        proof {
            lemma_tiles_across(k as nat + 1, 63);
            lemma_tiles_are_power(63);
            vstd::arithmetic::power2::lemma2_to64_rest();
        }
        n = n * 2;
        k += 1;
    }
    n
}

/// The row of a tile that is counted from the south, counted from the north. A row
/// outside of the world has none. Where a world of more than 32 bits of rows is meant,
/// the lower 32 bits of the row are given.
pub fn tms_row(z: u32, y: u32) -> (row: Result<u32, HttpError>)
    requires
        z < 64,
    ensures
        y >= tiles_across(z as nat) ==> row is Err && row->Err_0.is(400, "Tile Y out of range"@),
        y < tiles_across(z as nat) ==> row == Ok::<u32, HttpError>(
            ((tiles_across(z as nat) - 1 - y) % 0x1_0000_0000) as u32,
        ),
{
    let max_y: u64 = tile_count(z) - 1;
    if y as u64 <= max_y {
        Ok(((max_y - y as u64) % 0x1_0000_0000) as u32)
    } else {
        Err(HttpError::new(400, "Tile Y out of range"))
    }
}

/// Counting a row from the other side twice gives the row back.
pub proof fn law_row_flips_back(z: nat, y: int)
    requires
        z <= 32,
        0 <= y < tiles_across(z),
    ensures
        ({
            let flipped = (tiles_across(z) - 1 - y) % 0x1_0000_0000;
            &&& 0 <= flipped < tiles_across(z)
            &&& (tiles_across(z) - 1 - flipped) % 0x1_0000_0000 == y
        }),
{
    lemma_tiles_across(z, 32);
    lemma_widest_world();
    let a = tiles_across(z) - 1 - y;
    vstd::arithmetic::div_mod::lemma_small_mod(a as nat, 0x1_0000_0000);
    vstd::arithmetic::div_mod::lemma_small_mod(y as nat, 0x1_0000_0000);
}

proof fn lemma_widest_world()
    ensures
        tiles_across(32) == 0x1_0000_0000,
{
    lemma_tiles_are_power(32);
    vstd::arithmetic::power2::lemma2_to64();
}

/// A layer of the tile matrix service.
pub open spec fn wmts_layer(url: Seq<char>, l: LayerBounds) -> Seq<xml::XmlItem> {
    plain(
        "Layer"@,
        xml::text_element("ows:Title"@, l.name@) + xml::text_element("ows:Identifier"@, l.name@)
            + mercator_box("ows:BoundingBox"@, l) + plain(
            "Style"@,
            xml::text_element("ows:Identifier"@, "default"@) + xml::text_element(
                "ows:Title"@,
                "Default Style"@,
            ),
        ) + xml::text_element("Format"@, "image/png"@) + plain(
            "TileMatrixSetLink"@,
            xml::text_element("TileMatrixSet"@, "GoogleMapsCompatible"@),
        ) + xml::empty_element(
            "ResourceURL"@,
            seq![
                ("format"@, "image/png"@),
                ("resourceType"@, "tile"@),
                (
                    "template"@,
                    url
                        + "/{layer}/default/GoogleMapsCompatible/{TileMatrix}/{TileCol}/{TileRow}.png"@,
                ),
            ],
        ),
    )
}

fn wmts_layer_xml(url: &str, l: &LayerBounds) -> (r: Vec<XmlEvent>)
    ensures
        xml::items(r@) == wmts_layer(url@, *l),
{
    let mut inner: Vec<XmlEvent> = leaf("ows:Title", l.name.as_str());
    inner = join(inner, leaf("ows:Identifier", l.name.as_str()));
    inner = join(inner, mercator_box_xml("ows:BoundingBox", l));
    let style: Vec<XmlEvent> = join(
        leaf("ows:Identifier", "default"),
        leaf("ows:Title", "Default Style"),
    );
    inner = join(inner, plain_xml("Style", style));
    inner = join(inner, leaf("Format", "image/png"));
    inner = join(
        inner,
        plain_xml("TileMatrixSetLink", leaf("TileMatrixSet", "GoogleMapsCompatible")),
    );
    let template: String = concat2(
        url,
        "/{layer}/default/GoogleMapsCompatible/{TileMatrix}/{TileCol}/{TileRow}.png",
    );
    let mut attrs: Attrs = with_attr(no_attrs(), "format", "image/png");
    attrs = with_attr(attrs, "resourceType", "tile");
    attrs = with_attr(attrs, "template", template.as_str());
    assert(xml::attrs_view(attrs@) =~= seq![
        ("format"@, "image/png"@),
        ("resourceType"@, "tile"@),
        ("template"@, template@),
    ]);
    inner = join(inner, write_empty("ResourceURL", attrs));
    plain_xml("Layer", inner)
}

/// The layers of the tile matrix service.
pub open spec fn wmts_layers(url: Seq<char>, layers: Seq<LayerBounds>) -> Seq<xml::XmlItem>
    decreases layers.len(),
{
    if layers.len() == 0 {
        Seq::empty()
    } else {
        wmts_layers(url, layers.drop_last()) + wmts_layer(url, layers.last())
    }
}

/// A zoom level of the tile matrix service.
pub open spec fn tile_matrix(z: nat, scale: Seq<char>, corner: Seq<char>) -> Seq<xml::XmlItem> {
    let n = crate::numbers::decimal(tiles_across(z));
    plain(
        "TileMatrix"@,
        xml::text_element("ows:Identifier"@, crate::numbers::decimal(z)) + xml::text_element(
            "ScaleDenominator"@,
            scale,
        ) + xml::text_element("TopLeftCorner"@, corner) + xml::text_element("TileWidth"@, "256"@)
            + xml::text_element("TileHeight"@, "256"@) + xml::text_element("MatrixWidth"@, n)
            + xml::text_element("MatrixHeight"@, n),
    )
}

fn tile_matrix_xml(z: u32, scale: &str, corner: &str) -> (r: Vec<XmlEvent>)
    requires
        z < 64,
    ensures
        xml::items(r@) == tile_matrix(z as nat, scale@, corner@),
{
    let count: String = decimal_text(tile_count(z));
    let level: String = decimal_text(z as u64);
    let mut inner: Vec<XmlEvent> = leaf("ows:Identifier", level.as_str());
    inner = join(inner, leaf("ScaleDenominator", scale));
    inner = join(inner, leaf("TopLeftCorner", corner));
    inner = join(inner, leaf("TileWidth", "256"));
    inner = join(inner, leaf("TileHeight", "256"));
    inner = join(inner, leaf("MatrixWidth", count.as_str()));
    inner = join(inner, leaf("MatrixHeight", count.as_str()));
    plain_xml("TileMatrix", inner)
}

/// The first `n` zoom levels of the tile matrix service.
pub open spec fn tile_matrices(n: nat, scales: Seq<Seq<char>>, corner: Seq<char>) -> Seq<
    xml::XmlItem,
>
    decreases n,
{
    if n == 0 {
        Seq::empty()
    } else {
        tile_matrices((n - 1) as nat, scales, corner) + tile_matrix(
            (n - 1) as nat,
            scales[n - 1],
            corner,
        )
    }
}

/// The zoom levels of the tile services.
pub const ZOOM_LEVELS: u32 = 23;

/// The parts of the document that describes the tile matrix service.
pub open spec fn wmts_parts(
    url: Seq<char>,
    layers: Seq<LayerBounds>,
    scales: Seq<Seq<char>>,
    corner: Seq<char>,
) -> Seq<xml::XmlItem> {
    xml::element(
        "Capabilities"@,
        seq![
            ("xmlns"@, "http://www.opengis.net/wmts/1.0"@),
            ("xmlns:ows"@, "http://www.opengis.net/ows/1.1"@),
            ("xmlns:xlink"@, xlink()),
            ("xmlns:xsi"@, "http://www.w3.org/2001/XMLSchema-instance"@),
            ("version"@, "1.0.0"@),
        ],
        plain(
            "ows:ServiceIdentification"@,
            xml::text_element("ows:Title"@, "SimpleGeoServer WMTS"@) + xml::text_element(
                "ows:ServiceType"@,
                "OGC WMTS"@,
            ) + xml::text_element("ows:ServiceTypeVersion"@, "1.0.0"@),
        ) + plain(
            "ows:ServiceProvider"@,
            xml::text_element("ows:ProviderName"@, "SimpleGeoServer"@),
        ) + plain(
            "Contents"@,
            wmts_layers(url, layers) + plain(
                "TileMatrixSet"@,
                xml::text_element("ows:Identifier"@, "GoogleMapsCompatible"@) + xml::text_element(
                    "ows:SupportedCRS"@,
                    "EPSG:3857"@,
                ) + tile_matrices(ZOOM_LEVELS as nat, scales, corner),
            ),
        ),
    )
}

/// The document that describes the tile matrix service, with the layers, the texts of the
/// scales of the zoom levels, and the text of the upper left corner of the world.
pub fn wmts_document(
    base: &str,
    layers: &Vec<LayerBounds>,
    scales: &Vec<String>,
    corner: &str,
) -> (doc: String)
    requires
        scales@.len() == ZOOM_LEVELS,
    ensures
        doc@ == xml::xml_text(
            wmts_parts(
                base@ + "/ogc/wmts/1.0.0"@,
                layers@,
                crate::text::texts(scales@),
                corner@,
            ),
        ),
{
    let url_text: String = concat2(base, "/ogc/wmts/1.0.0");
    let url: &str = url_text.as_str();
    let mut about: Vec<XmlEvent> = leaf("ows:Title", "SimpleGeoServer WMTS");
    about = join(about, leaf("ows:ServiceType", "OGC WMTS"));
    about = join(about, leaf("ows:ServiceTypeVersion", "1.0.0"));
    let about: Vec<XmlEvent> = plain_xml("ows:ServiceIdentification", about);
    let provider: Vec<XmlEvent> = plain_xml(
        "ows:ServiceProvider",
        leaf("ows:ProviderName", "SimpleGeoServer"),
    );
    let mut each: Vec<XmlEvent> = Vec::new();
    assert(xml::items(each@) =~= Seq::empty());
    for i in 0..layers.len()
        invariant
            xml::items(each@) == wmts_layers(url@, layers@.take(i as int)),
    {
        assert(layers@.take(i + 1).drop_last() =~= layers@.take(i as int));
        each = join(each, wmts_layer_xml(url, &layers[i]));
    }
    assert(layers@.take(layers@.len() as int) =~= layers@);
    let mut matrices: Vec<XmlEvent> = Vec::new();
    assert(xml::items(matrices@) =~= Seq::empty());
    for z in 0..ZOOM_LEVELS
        invariant
            scales@.len() == ZOOM_LEVELS,
            xml::items(matrices@) == tile_matrices(
                z as nat,
                crate::text::texts(scales@),
                corner@,
            ),
    {
        matrices = join(matrices, tile_matrix_xml(z, scales[z as usize].as_str(), corner));
    }
    let mut set: Vec<XmlEvent> = leaf("ows:Identifier", "GoogleMapsCompatible");
    set = join(set, leaf("ows:SupportedCRS", "EPSG:3857"));
    set = join(set, matrices);
    let contents: Vec<XmlEvent> = plain_xml("Contents", join(each, plain_xml("TileMatrixSet", set)));
    let mut attrs: Attrs = with_attr(no_attrs(), "xmlns", "http://www.opengis.net/wmts/1.0");
    attrs = with_attr(attrs, "xmlns:ows", "http://www.opengis.net/ows/1.1");
    attrs = with_attr(attrs, "xmlns:xlink", "http://www.w3.org/1999/xlink");
    attrs = with_attr(attrs, "xmlns:xsi", "http://www.w3.org/2001/XMLSchema-instance");
    attrs = with_attr(attrs, "version", "1.0.0");
    assert(xml::attrs_view(attrs@) =~= seq![
        ("xmlns"@, "http://www.opengis.net/wmts/1.0"@),
        ("xmlns:ows"@, "http://www.opengis.net/ows/1.1"@),
        ("xmlns:xlink"@, xlink()),
        ("xmlns:xsi"@, "http://www.w3.org/2001/XMLSchema-instance"@),
        ("version"@, "1.0.0"@),
    ]);
    write_document(elem("Capabilities", attrs, join(join(about, provider), contents)))
}

/// The document that describes the tile matrix service for files: its layers are the
/// rasters that can be read, in order.
pub fn wmts_capabilities<
    D: Fn(u64) -> String,
    M: Fn(&[u64; 4]) -> (String, String, String, String),
>(
    base: &str,
    files: &Vec<FileExtent>,
    degrees: D,
    metres: M,
    scales: &Vec<String>,
    corner: &str,
) -> (doc: String)
    requires
        scales@.len() == ZOOM_LEVELS,
        forall|v: u64| degrees.requires((v,)),
        forall|e: &[u64; 4]| metres.requires((e,)),
    ensures
        exists|layers: Seq<LayerBounds>| #[trigger]
            are_layers_of(files@, degrees, metres, layers) && doc@ == xml::xml_text(
                wmts_parts(
                    base@ + "/ogc/wmts/1.0.0"@,
                    layers,
                    crate::text::texts(scales@),
                    corner@,
                ),
            ),
{
    let (layers, _extents): (Vec<LayerBounds>, Vec<[u64; 4]>) = layers_of(
        files,
        &degrees,
        &metres,
    );
    wmts_document(base, &layers, scales, corner)
}

/// A layer in the list of the tile map service.
pub open spec fn tms_entry(url: Seq<char>, name: Seq<char>) -> Seq<xml::XmlItem> {
    xml::empty_element(
        "TileMap"@,
        seq![
            ("title"@, name),
            ("srs"@, "EPSG:3857"@),
            ("profile"@, "global-geodetic"@),
            ("href"@, url + "/"@ + name),
        ],
    )
}

/// The layers in the list of the tile map service.
pub open spec fn tms_entries(url: Seq<char>, names: Seq<Seq<char>>) -> Seq<xml::XmlItem>
    decreases names.len(),
{
    if names.len() == 0 {
        Seq::empty()
    } else {
        tms_entries(url, names.drop_last()) + tms_entry(url, names.last())
    }
}

/// The parts of the document that lists the layers of the tile map service.
pub open spec fn tms_root_parts(url: Seq<char>, names: Seq<Seq<char>>) -> Seq<xml::XmlItem> {
    xml::element(
        "TileMaps"@,
        seq![("version"@, "1.0.0"@), ("xmlns"@, "http://tms.osgeo.org/1.0.0"@)],
        tms_entries(url, names),
    )
}

fn tms_attrs() -> (attrs: Attrs)
    ensures
        xml::attrs_view(attrs@) == seq![
            ("version"@, "1.0.0"@),
            ("xmlns"@, "http://tms.osgeo.org/1.0.0"@),
        ],
{
    let attrs: Attrs = with_attr(
        with_attr(no_attrs(), "version", "1.0.0"),
        "xmlns",
        "http://tms.osgeo.org/1.0.0",
    );
    assert(xml::attrs_view(attrs@) =~= seq![
        ("version"@, "1.0.0"@),
        ("xmlns"@, "http://tms.osgeo.org/1.0.0"@),
    ]);
    attrs
}

/// The document that lists the rasters among files as layers of the tile map service.
pub fn tms_root(base: &str, files: &Vec<String>) -> (doc: String)
    ensures
        doc@ == xml::xml_text(
            tms_root_parts(base@ + "/ogc/tms/1.0.0"@, rasters(crate::text::texts(files@))),
        ),
{
    let url_text: String = concat2(base, "/ogc/tms/1.0.0");
    let url: &str = url_text.as_str();
    let names: Vec<String> = raster_names(files);
    let ghost all = crate::text::texts(names@);
    let mut each: Vec<XmlEvent> = Vec::new();
    assert(xml::items(each@) =~= Seq::empty());
    for i in 0..names.len()
        invariant
            all == crate::text::texts(names@),
            xml::items(each@) == tms_entries(url@, all.take(i as int)),
    {
        assert(all.take(i + 1).drop_last() =~= all.take(i as int));
        assert(all.take(i + 1).last() == names@[i as int]@);
        let name: &str = names[i].as_str();
        let href: String = concat3(url, "/", name);
        let mut attrs: Attrs = with_attr(no_attrs(), "title", name);
        attrs = with_attr(attrs, "srs", "EPSG:3857");
        attrs = with_attr(attrs, "profile", "global-geodetic");
        attrs = with_attr(attrs, "href", href.as_str());
        assert(xml::attrs_view(attrs@) =~= seq![
            ("title"@, name@),
            ("srs"@, "EPSG:3857"@),
            ("profile"@, "global-geodetic"@),
            ("href"@, url@ + "/"@ + name@),
        ]);
        each = join(each, write_empty("TileMap", attrs));
    }
    assert(all.take(all.len() as int) =~= all);
    write_document(elem("TileMaps", tms_attrs(), each))
}

/// A zoom level of a layer of the tile map service.
pub open spec fn tile_set(url: Seq<char>, z: nat, resolution: Seq<char>) -> Seq<xml::XmlItem> {
    xml::empty_element(
        "TileSet"@,
        seq![
            ("href"@, url + "/"@ + crate::numbers::decimal(z)),
            ("units-per-pixel"@, resolution),
            ("order"@, crate::numbers::decimal(z)),
        ],
    )
}

/// The first `n` zoom levels of a layer of the tile map service.
pub open spec fn tile_sets(url: Seq<char>, n: nat, resolutions: Seq<Seq<char>>) -> Seq<xml::XmlItem>
    decreases n,
{
    if n == 0 {
        Seq::empty()
    } else {
        tile_sets(url, (n - 1) as nat, resolutions) + tile_set(
            url,
            (n - 1) as nat,
            resolutions[n - 1],
        )
    }
}

/// The number of zoom levels of a layer of the tile map service.
pub open spec fn tms_levels(max_zoom: u32) -> nat {
    if max_zoom < ZOOM_LEVELS - 1 {
        max_zoom as nat + 1
    } else {
        ZOOM_LEVELS as nat
    }
}

/// The parts of the document that describes a layer of the tile map service.
pub open spec fn tms_layer_parts(
    url: Seq<char>,
    l: LayerBounds,
    origin: Seq<char>,
    max_zoom: u32,
    resolutions: Seq<Seq<char>>,
) -> Seq<xml::XmlItem> {
    xml::element(
        "TileMap"@,
        seq![("version"@, "1.0.0"@), ("xmlns"@, "http://tms.osgeo.org/1.0.0"@)],
        xml::text_element("Title"@, l.name@) + xml::text_element(
            "Abstract"@,
            "TMS layer for "@ + l.name@,
        ) + xml::text_element("SRS"@, "EPSG:3857"@) + xml::empty_element(
            "BoundingBox"@,
            seq![
                ("minx"@, l.minx@),
                ("miny"@, l.miny@),
                ("maxx"@, l.maxx@),
                ("maxy"@, l.maxy@),
            ],
        ) + xml::empty_element("Origin"@, seq![("x"@, origin), ("y"@, origin)])
            + xml::empty_element(
            "TileFormat"@,
            seq![
                ("width"@, "256"@),
                ("height"@, "256"@),
                ("mime-type"@, "image/png"@),
                ("extension"@, "png"@),
            ],
        ) + plain(
            "TileSets"@,
            tile_sets(url + "/"@ + l.name@, tms_levels(max_zoom), resolutions),
        ),
    )
}

/// The document that describes a layer of the tile map service, with the text of the
/// lower left corner of the world and those of the resolutions of the zoom levels.
pub fn tms_layer(
    base: &str,
    l: &LayerBounds,
    origin: &str,
    max_zoom: u32,
    resolutions: &Vec<String>,
) -> (doc: String)
    requires
        resolutions@.len() >= tms_levels(max_zoom),
    ensures
        doc@ == xml::xml_text(
            tms_layer_parts(
                base@ + "/ogc/tms/1.0.0"@,
                *l,
                origin@,
                max_zoom,
                crate::text::texts(resolutions@),
            ),
        ),
{
    let root: String = concat2(base, "/ogc/tms/1.0.0");
    let url_text: String = concat3(root.as_str(), "/", l.name.as_str());
    let url: &str = url_text.as_str();
    let about: String = concat2("TMS layer for ", l.name.as_str());
    let mut inner: Vec<XmlEvent> = leaf("Title", l.name.as_str());
    inner = join(inner, leaf("Abstract", about.as_str()));
    inner = join(inner, leaf("SRS", "EPSG:3857"));
    let mut bounds: Attrs = with_attr(no_attrs(), "minx", l.minx.as_str());
    bounds = with_attr(bounds, "miny", l.miny.as_str());
    bounds = with_attr(bounds, "maxx", l.maxx.as_str());
    bounds = with_attr(bounds, "maxy", l.maxy.as_str());
    assert(xml::attrs_view(bounds@) =~= seq![
        ("minx"@, l.minx@),
        ("miny"@, l.miny@),
        ("maxx"@, l.maxx@),
        ("maxy"@, l.maxy@),
    ]);
    inner = join(inner, write_empty("BoundingBox", bounds));
    let corner: Attrs = with_attr(with_attr(no_attrs(), "x", origin), "y", origin);
    assert(xml::attrs_view(corner@) =~= seq![("x"@, origin@), ("y"@, origin@)]);
    inner = join(inner, write_empty("Origin", corner));
    let mut format: Attrs = with_attr(no_attrs(), "width", "256");
    format = with_attr(format, "height", "256");
    format = with_attr(format, "mime-type", "image/png");
    format = with_attr(format, "extension", "png");
    assert(xml::attrs_view(format@) =~= seq![
        ("width"@, "256"@),
        ("height"@, "256"@),
        ("mime-type"@, "image/png"@),
        ("extension"@, "png"@),
    ]);
    inner = join(inner, write_empty("TileFormat", format));
    let levels: u32 = if max_zoom < ZOOM_LEVELS - 1 {
        max_zoom + 1
    } else {
        ZOOM_LEVELS
    };
    let mut sets: Vec<XmlEvent> = Vec::new();
    assert(xml::items(sets@) =~= Seq::empty());
    for z in 0..levels
        invariant
            levels == tms_levels(max_zoom),
            resolutions@.len() >= levels,
            xml::items(sets@) == tile_sets(url@, z as nat, crate::text::texts(resolutions@)),
    {
        let level: String = decimal_text(z as u64);
        let href: String = concat3(url, "/", level.as_str());
        let mut attrs: Attrs = with_attr(no_attrs(), "href", href.as_str());
        attrs = with_attr(attrs, "units-per-pixel", resolutions[z as usize].as_str());
        attrs = with_attr(attrs, "order", level.as_str());
        assert(xml::attrs_view(attrs@) =~= seq![
            ("href"@, url@ + "/"@ + crate::numbers::decimal(z as nat)),
            ("units-per-pixel"@, crate::text::texts(resolutions@)[z as int]),
            ("order"@, crate::numbers::decimal(z as nat)),
        ]);
        sets = join(sets, write_empty("TileSet", attrs));
    }
    inner = join(inner, plain_xml("TileSets", sets));
    write_document(elem("TileMap", tms_attrs(), inner))
}

// ─── The description of a source ───

/// The description of a source of tiles for a viewer. `F` is the type of coordinates.
pub struct TileJson<F> {
    pub tilejson: String,
    pub name: String,
    pub description: String,
    pub version: String,
    pub attribution: String,
    pub scheme: String,
    pub tiles: Vec<String>,
    pub minzoom: u32,
    pub maxzoom: u32,
    pub bounds: [F; 4],
    /// The longitude and the latitude of the centre, and the zoom level to start with.
    pub center: (F, F, u32),
    pub format: String,
    pub tile_type: String,
}

/// The description of a source of tiles for a viewer. `raster` tells rasters from vector
/// data, and `middle` gives the middle between two coordinates.
pub fn tilejson<F: Copy, M: Fn(F, F) -> F>(
    base: &str,
    filename: &str,
    raster: bool,
    info: &TileInfo<F>,
    middle: M,
) -> (tj: TileJson<F>)
    requires
        info.max_zoom + info.min_zoom <= u32::MAX,
        forall|a: F, b: F| middle.requires((a, b)),
    ensures
        tj.tilejson@ == "3.0.0"@,
        tj.name@ == filename@,
        tj.description@ == (if raster {
            "raster"@
        } else {
            "vector"@
        }) + " tile layer for "@ + filename@,
        tj.version@ == "1.0.0"@,
        tj.attribution@ == Seq::<char>::empty(),
        tj.scheme@ == "xyz"@,
        tj.tiles@.len() == 1,
        tj.tiles@[0]@ == base@ + "/api/tiles/"@ + filename@ + (if raster {
            "/png/{z}/{x}/{y}"@
        } else {
            "/geojson/{z}/{x}/{y}"@
        }),
        tj.minzoom == info.min_zoom,
        tj.maxzoom == info.max_zoom,
        tj.bounds == info.extent,
        middle.ensures((info.extent@[0], info.extent@[2]), tj.center.0),
        middle.ensures((info.extent@[1], info.extent@[3]), tj.center.1),
        tj.center.2 == (if (info.max_zoom + info.min_zoom) / 2 >= info.min_zoom {
            (info.max_zoom + info.min_zoom) / 2
        } else {
            info.min_zoom as int
        }),
        tj.format@ == (if raster {
            "png"@
        } else {
            "geojson"@
        }),
        tj.tile_type@ == (if raster {
            "raster"@
        } else {
            "vector"@
        }),
{
    let kind: &str = if raster {
        "raster"
    } else {
        "vector"
    };
    let mut url: String = concat3(base, "/api/tiles/", filename);
    if raster {
        url.append("/png/{z}/{x}/{y}");
    } else {
        url.append("/geojson/{z}/{x}/{y}");
    }
    let mut tiles: Vec<String> = Vec::new();
    tiles.push(url);
    let half: u32 = (info.max_zoom + info.min_zoom) / 2;
    let zoom: u32 = if half >= info.min_zoom {
        half
    } else {
        info.min_zoom
    };
    let lng: F = middle(info.extent[0], info.extent[2]);
    let lat: F = middle(info.extent[1], info.extent[3]);
    TileJson {
        tilejson: "3.0.0".to_owned(),
        name: filename.to_owned(),
        description: concat3(kind, " tile layer for ", filename),
        version: "1.0.0".to_owned(),
        attribution: String::new(),
        scheme: "xyz".to_owned(),
        tiles,
        minzoom: info.min_zoom,
        maxzoom: info.max_zoom,
        bounds: info.extent,
        center: (lng, lat, zoom),
        format: (if raster {
            "png"
        } else {
            "geojson"
        }).to_owned(),
        tile_type: kind.to_owned(),
    }
}

// ─── What holds of the documents ───

/// A start tag without attributes.
pub open spec fn tag(name: Seq<char>) -> xml::XmlItem {
    xml::XmlItem::Start(name, Seq::empty())
}

/// A start tag, a text and an end tag.
pub open spec fn entry(name: Seq<char>, text: Seq<char>) -> Seq<xml::XmlItem> {
    seq![tag(name), xml::XmlItem::Text(text), xml::XmlItem::End(name)]
}

/// How many elements with a name parts start, with contents or without.
pub open spec fn starts(items: Seq<xml::XmlItem>, name: Seq<char>) -> nat
    decreases items.len(),
{
    if items.len() == 0 {
        0
    } else {
        starts(items.drop_last(), name) + (match items.last() {
            xml::XmlItem::Start(n, _) => if n == name {
                1nat
            } else {
                0nat
            },
            xml::XmlItem::Empty(n, _) => if n == name {
                1nat
            } else {
                0nat
            },
            _ => 0nat,
        })
    }
}

proof fn lemma_starts_concat(a: Seq<xml::XmlItem>, b: Seq<xml::XmlItem>, name: Seq<char>)
    ensures
        starts(a + b, name) == starts(a, name) + starts(b, name),
    decreases b.len(),
{
    if b.len() == 0 {
        assert(a + b =~= a);
    } else {
        lemma_starts_concat(a, b.drop_last(), name);
        assert((a + b).drop_last() =~= a + b.drop_last());
        assert((a + b).last() == b.last());
    }
}

proof fn lemma_starts_one(item: xml::XmlItem, name: Seq<char>)
    ensures
        starts(seq![item], name) == (match item {
            xml::XmlItem::Start(n, _) => if n == name {
                1nat
            } else {
                0nat
            },
            xml::XmlItem::Empty(n, _) => if n == name {
                1nat
            } else {
                0nat
            },
            _ => 0nat,
        }),
{
    assert(seq![item].drop_last() =~= Seq::<xml::XmlItem>::empty());
    assert(starts(Seq::<xml::XmlItem>::empty(), name) == 0);
}

proof fn lemma_starts_element(
    n: Seq<char>,
    attrs: Seq<(Seq<char>, Seq<char>)>,
    inner: Seq<xml::XmlItem>,
    name: Seq<char>,
)
    ensures
        starts(xml::element(n, attrs, inner), name) == starts(inner, name) + (if n == name {
            1nat
        } else {
            0nat
        }),
{
    let (a, b) = (xml::XmlItem::Start(n, attrs), xml::XmlItem::End(n));
    lemma_starts_one(a, name);
    lemma_starts_one(b, name);
    lemma_starts_concat(seq![a], inner, name);
    lemma_starts_concat(seq![a] + inner, seq![b], name);
}

proof fn lemma_starts_entry(n: Seq<char>, text: Seq<char>, name: Seq<char>)
    ensures
        starts(xml::text_element(n, text), name) == (if n == name {
            1nat
        } else {
            0nat
        }),
{
    lemma_starts_element(n, Seq::empty(), seq![xml::XmlItem::Text(text)], name);
    lemma_starts_one(xml::XmlItem::Text(text), name);
}

proof fn lemma_entry(name: Seq<char>, text: Seq<char>)
    ensures
        xml::text_element(name, text) == entry(name, text),
{
    assert(xml::text_element(name, text) =~= entry(name, text));
}

/// The parts of bounds in degrees, one behind the other.
pub open spec fn written_box(
    west: Seq<char>,
    east: Seq<char>,
    south: Seq<char>,
    north: Seq<char>,
) -> Seq<xml::XmlItem> {
    seq![tag("EX_GeographicBoundingBox"@)] + entry("westBoundLongitude"@, west) + entry(
        "eastBoundLongitude"@,
        east,
    ) + entry("southBoundLatitude"@, south) + entry("northBoundLatitude"@, north) + seq![
        xml::XmlItem::End("EX_GeographicBoundingBox"@),
    ]
}

proof fn lemma_written_box(
    west: Seq<char>,
    east: Seq<char>,
    south: Seq<char>,
    north: Seq<char>,
)
    ensures
        geographic_box(west, east, south, north) == written_box(west, east, south, north),
{
    lemma_entry("westBoundLongitude"@, west);
    lemma_entry("eastBoundLongitude"@, east);
    lemma_entry("southBoundLatitude"@, south);
    lemma_entry("northBoundLatitude"@, north);
    assert(geographic_box(west, east, south, north) =~= written_box(west, east, south, north));
}

/// The parts of a layer of the map service, one behind the other.
pub open spec fn written_wms_layer(l: LayerBounds) -> Seq<xml::XmlItem> {
    seq![tag("Layer"@)] + entry("Name"@, l.name@) + entry("Title"@, l.name@) + entry(
        "CRS"@,
        "EPSG:3857"@,
    ) + written_box(l.west@, l.east@, l.south@, l.north@) + seq![
        xml::XmlItem::Empty(
            "BoundingBox"@,
            seq![
                ("CRS"@, "EPSG:3857"@),
                ("minx"@, l.minx@),
                ("miny"@, l.miny@),
                ("maxx"@, l.maxx@),
                ("maxy"@, l.maxy@),
            ],
        ),
    ] + entry("MinScaleDenominator"@, "0.0"@) + entry("MaxScaleDenominator"@, "1e12"@) + seq![
        xml::XmlItem::End("Layer"@),
    ]
}

proof fn lemma_written_wms_layer(l: LayerBounds)
    ensures
        wms_layer(l) == written_wms_layer(l),
{
    lemma_entry("Name"@, l.name@);
    lemma_entry("Title"@, l.name@);
    lemma_entry("CRS"@, "EPSG:3857"@);
    lemma_entry("MinScaleDenominator"@, "0.0"@);
    lemma_entry("MaxScaleDenominator"@, "1e12"@);
    lemma_written_box(l.west@, l.east@, l.south@, l.north@);
    assert(wms_layer(l) =~= written_wms_layer(l));
}

proof fn lemma_wms_layers(layers: Seq<LayerBounds>)
    ensures
        wms_layers(layers) == Seq::new(layers.len(), |i: int| written_wms_layer(layers[i])).flatten(),
    decreases layers.len(),
{
    let each = Seq::new(layers.len(), |i: int| written_wms_layer(layers[i]));
    if layers.len() == 0 {
        assert(each =~= Seq::empty());
    } else {
        let before = layers.drop_last();
        lemma_wms_layers(before);
        lemma_written_wms_layer(layers.last());
        let rest = Seq::new(before.len(), |i: int| written_wms_layer(before[i]));
        assert(each =~= rest.push(written_wms_layer(layers.last())));
        rest.lemma_flatten_push(written_wms_layer(layers.last()));
    }
}

proof fn lemma_names_differ()
    ensures
        "Layer"@ != "Name"@,
        "Layer"@ != "Title"@,
        "Layer"@ != "CRS"@,
        "Layer"@ != "MinScaleDenominator"@,
        "Layer"@ != "MaxScaleDenominator"@,
        "Layer"@ != "EX_GeographicBoundingBox"@,
        "Layer"@ != "westBoundLongitude"@,
        "Layer"@ != "eastBoundLongitude"@,
        "Layer"@ != "southBoundLatitude"@,
        "Layer"@ != "northBoundLatitude"@,
        "Layer"@ != "BoundingBox"@,
        "Layer"@ != "Service"@,
        "Layer"@ != "OnlineResource"@,
        "Layer"@ != "Request"@,
        "Layer"@ != "GetCapabilities"@,
        "Layer"@ != "GetMap"@,
        "Layer"@ != "Format"@,
        "Layer"@ != "DCPType"@,
        "Layer"@ != "HTTP"@,
        "Layer"@ != "Get"@,
        "Layer"@ != "Post"@,
        "Layer"@ != "Exception"@,
        "Layer"@ != "Capability"@,
        "Layer"@ != "WMS_Capabilities"@,
{
    reveal_strlit("Layer");
    reveal_strlit("Name");
    reveal_strlit("Title");
    reveal_strlit("CRS");
    reveal_strlit("MinScaleDenominator");
    reveal_strlit("MaxScaleDenominator");
    reveal_strlit("EX_GeographicBoundingBox");
    reveal_strlit("westBoundLongitude");
    reveal_strlit("eastBoundLongitude");
    reveal_strlit("southBoundLatitude");
    reveal_strlit("northBoundLatitude");
    reveal_strlit("BoundingBox");
    reveal_strlit("Service");
    reveal_strlit("OnlineResource");
    reveal_strlit("Request");
    reveal_strlit("GetCapabilities");
    reveal_strlit("GetMap");
    reveal_strlit("Format");
    reveal_strlit("DCPType");
    reveal_strlit("HTTP");
    reveal_strlit("Get");
    reveal_strlit("Post");
    reveal_strlit("Exception");
    reveal_strlit("Capability");
    reveal_strlit("WMS_Capabilities");
    assert("Layer"@[0] == 'L' && "Title"@[0] == 'T');
    assert("Layer"@[0] != "Name"@[0]);
}

proof fn lemma_box_starts_no_layer(
    west: Seq<char>,
    east: Seq<char>,
    south: Seq<char>,
    north: Seq<char>,
)
    ensures
        starts(geographic_box(west, east, south, north), "Layer"@) == 0,
{
    lemma_names_differ();
    let (a, b, c, d) = (
        xml::text_element("westBoundLongitude"@, west),
        xml::text_element("eastBoundLongitude"@, east),
        xml::text_element("southBoundLatitude"@, south),
        xml::text_element("northBoundLatitude"@, north),
    );
    lemma_starts_entry("westBoundLongitude"@, west, "Layer"@);
    lemma_starts_entry("eastBoundLongitude"@, east, "Layer"@);
    lemma_starts_entry("southBoundLatitude"@, south, "Layer"@);
    lemma_starts_entry("northBoundLatitude"@, north, "Layer"@);
    lemma_starts_concat(a, b, "Layer"@);
    lemma_starts_concat(a + b, c, "Layer"@);
    lemma_starts_concat(a + b + c, d, "Layer"@);
    lemma_starts_element("EX_GeographicBoundingBox"@, Seq::empty(), a + b + c + d, "Layer"@);
}

proof fn lemma_layer_starts_one(l: LayerBounds)
    ensures
        starts(wms_layer(l), "Layer"@) == 1,
{
    lemma_names_differ();
    let parts = (
        xml::text_element("Name"@, l.name@),
        xml::text_element("Title"@, l.name@),
        xml::text_element("CRS"@, "EPSG:3857"@),
        geographic_box(l.west@, l.east@, l.south@, l.north@),
        mercator_box("BoundingBox"@, l),
        xml::text_element("MinScaleDenominator"@, "0.0"@),
        xml::text_element("MaxScaleDenominator"@, "1e12"@),
    );
    lemma_starts_entry("Name"@, l.name@, "Layer"@);
    lemma_starts_entry("Title"@, l.name@, "Layer"@);
    lemma_starts_entry("CRS"@, "EPSG:3857"@, "Layer"@);
    lemma_box_starts_no_layer(l.west@, l.east@, l.south@, l.north@);
    lemma_starts_one(mercator_box("BoundingBox"@, l)[0], "Layer"@);
    assert(mercator_box("BoundingBox"@, l) =~= seq![mercator_box("BoundingBox"@, l)[0]]);
    lemma_starts_entry("MinScaleDenominator"@, "0.0"@, "Layer"@);
    lemma_starts_entry("MaxScaleDenominator"@, "1e12"@, "Layer"@);
    let p1 = parts.0 + parts.1;
    let p2 = p1 + parts.2;
    let p3 = p2 + parts.3;
    let p4 = p3 + parts.4;
    let p5 = p4 + parts.5;
    lemma_starts_concat(parts.0, parts.1, "Layer"@);
    lemma_starts_concat(p1, parts.2, "Layer"@);
    lemma_starts_concat(p2, parts.3, "Layer"@);
    lemma_starts_concat(p3, parts.4, "Layer"@);
    lemma_starts_concat(p4, parts.5, "Layer"@);
    lemma_starts_concat(p5, parts.6, "Layer"@);
    lemma_starts_element("Layer"@, Seq::empty(), p5 + parts.6, "Layer"@);
}

proof fn lemma_layers_start(layers: Seq<LayerBounds>)
    ensures
        starts(wms_layers(layers), "Layer"@) == layers.len(),
    decreases layers.len(),
{
    if layers.len() > 0 {
        lemma_layers_start(layers.drop_last());
        lemma_layer_starts_one(layers.last());
        lemma_starts_concat(
            wms_layers(layers.drop_last()),
            wms_layer(layers.last()),
            "Layer"@,
        );
    }
}

proof fn lemma_transport_starts_no_layer(method: Seq<char>, url: Seq<char>)
    requires
        method != "Layer"@,
    ensures
        starts(transport(method, url), "Layer"@) == 0,
        starts(online_resource(url), "Layer"@) == 0,
{
    lemma_names_differ();
    lemma_starts_one(online_resource(url)[0], "Layer"@);
    assert(online_resource(url) =~= seq![online_resource(url)[0]]);
    lemma_starts_element(method, Seq::empty(), online_resource(url), "Layer"@);
    lemma_starts_element("HTTP"@, Seq::empty(), plain(method, online_resource(url)), "Layer"@);
    lemma_starts_element(
        "DCPType"@,
        Seq::empty(),
        plain("HTTP"@, plain(method, online_resource(url))),
        "Layer"@,
    );
}

proof fn lemma_rest_starts_no_layer(url: Seq<char>)
    ensures
        starts(wms_service(url), "Layer"@) == 0,
        starts(wms_requests(url), "Layer"@) == 0,
        starts(wms_exceptions(), "Layer"@) == 0,
{
    lemma_names_differ();
    lemma_transport_starts_no_layer("Get"@, url);
    lemma_transport_starts_no_layer("Post"@, url);
    lemma_starts_entry("Name"@, "WMS"@, "Layer"@);
    lemma_starts_entry("Title"@, "SimpleGeoServer WMS"@, "Layer"@);
    let (a, b) = (
        xml::text_element("Name"@, "WMS"@),
        xml::text_element("Title"@, "SimpleGeoServer WMS"@),
    );
    lemma_starts_concat(a, b, "Layer"@);
    lemma_starts_concat(a + b, online_resource(url), "Layer"@);
    lemma_starts_element("Service"@, Seq::empty(), a + b + online_resource(url), "Layer"@);
    let f = xml::text_element("Format"@, "application/vnd.ogc.wms_xml"@);
    let g = xml::text_element("Format"@, "image/png"@);
    lemma_starts_entry("Format"@, "application/vnd.ogc.wms_xml"@, "Layer"@);
    lemma_starts_entry("Format"@, "image/png"@, "Layer"@);
    let (get, post) = (transport("Get"@, url), transport("Post"@, url));
    lemma_starts_concat(f, get, "Layer"@);
    lemma_starts_concat(g, get, "Layer"@);
    lemma_starts_concat(g + get, post, "Layer"@);
    lemma_starts_element("GetCapabilities"@, Seq::empty(), f + get, "Layer"@);
    lemma_starts_element("GetMap"@, Seq::empty(), g + get + post, "Layer"@);
    let (c, m) = (plain("GetCapabilities"@, f + get), plain("GetMap"@, g + get + post));
    lemma_starts_concat(c, m, "Layer"@);
    lemma_starts_element("Request"@, Seq::empty(), c + m, "Layer"@);
    let (x, y, z) = (
        xml::text_element("Format"@, "XML"@),
        xml::text_element("Format"@, "INIMAGE"@),
        xml::text_element("Format"@, "BLANK"@),
    );
    lemma_starts_entry("Format"@, "XML"@, "Layer"@);
    lemma_starts_entry("Format"@, "INIMAGE"@, "Layer"@);
    lemma_starts_entry("Format"@, "BLANK"@, "Layer"@);
    lemma_starts_concat(x, y, "Layer"@);
    lemma_starts_concat(x + y, z, "Layer"@);
    lemma_starts_element("Exception"@, Seq::empty(), x + y + z, "Layer"@);
}

/// What stands in the outer layer of the map service.
spec fn wms_inner(bounds: Option<GeoBox>, layers: Seq<LayerBounds>) -> Seq<xml::XmlItem> {
    xml::text_element("Title"@, "SimpleGeoServer WMS"@) + xml::text_element("CRS"@, "EPSG:3857"@)
        + wms_bounds(bounds) + wms_layers(layers)
}

proof fn lemma_inner_starts(bounds: Option<GeoBox>, layers: Seq<LayerBounds>)
    ensures
        starts(plain("Layer"@, wms_inner(bounds, layers)), "Layer"@) == layers.len() + 1,
{
    lemma_names_differ();
    lemma_layers_start(layers);
    match bounds {
        Some(b) => lemma_box_starts_no_layer(b.west@, b.east@, b.south@, b.north@),
        None => {},
    }
    lemma_starts_entry("Title"@, "SimpleGeoServer WMS"@, "Layer"@);
    lemma_starts_entry("CRS"@, "EPSG:3857"@, "Layer"@);
    let (t, c) = (
        xml::text_element("Title"@, "SimpleGeoServer WMS"@),
        xml::text_element("CRS"@, "EPSG:3857"@),
    );
    lemma_starts_concat(t, c, "Layer"@);
    lemma_starts_concat(t + c, wms_bounds(bounds), "Layer"@);
    lemma_starts_concat(t + c + wms_bounds(bounds), wms_layers(layers), "Layer"@);
    lemma_starts_element("Layer"@, Seq::empty(), wms_inner(bounds, layers), "Layer"@);
}

proof fn lemma_wms_starts(url: Seq<char>, bounds: Option<GeoBox>, layers: Seq<LayerBounds>)
    ensures
        starts(wms_capabilities(url, bounds, layers), "Layer"@) == layers.len() + 1,
{
    lemma_names_differ();
    lemma_rest_starts_no_layer(url);
    lemma_inner_starts(bounds, layers);
    let outer = plain("Layer"@, wms_inner(bounds, layers));
    let (q, e) = (wms_requests(url), wms_exceptions());
    lemma_starts_concat(q, e, "Layer"@);
    lemma_starts_concat(q + e, outer, "Layer"@);
    lemma_starts_element("Capability"@, Seq::empty(), q + e + outer, "Layer"@);
    let s = wms_service(url);
    let capability = plain("Capability"@, q + e + outer);
    lemma_starts_concat(s, capability, "Layer"@);
    let attrs = seq![
        ("version"@, "1.3.0"@),
        ("xmlns"@, "http://www.opengis.net/wms"@),
        ("xmlns:sld"@, "http://www.opengis.net/sld"@),
        ("xmlns:xsi"@, "http://www.w3.org/2001/XMLSchema-instance"@),
        ("xmlns:xlink"@, xlink()),
    ];
    lemma_starts_element("WMS_Capabilities"@, attrs, s + capability, "Layer"@);
}

proof fn lemma_wms_parts(
    url: Seq<char>,
    bounds: Option<GeoBox>,
    layers: Seq<LayerBounds>,
) -> (r: (Seq<xml::XmlItem>, Seq<xml::XmlItem>))
    ensures
        wms_capabilities(url, bounds, layers) == r.0 + wms_bounds(bounds) + wms_layers(layers)
            + r.1,
{
    let (t, c) = (
        xml::text_element("Title"@, "SimpleGeoServer WMS"@),
        xml::text_element("CRS"@, "EPSG:3857"@),
    );
    let (b, l) = (wms_bounds(bounds), wms_layers(layers));
    let inner = t + c + b + l;
    let outer = plain("Layer"@, inner);
    let (x, y) = (seq![tag("Layer"@)] + t + c, seq![xml::XmlItem::End("Layer"@)]);
    assert(outer =~= x + b + l + y);
    let front = wms_requests(url) + wms_exceptions();
    let (x2, y2) = (
        seq![tag("Capability"@)] + front + x,
        y + seq![xml::XmlItem::End("Capability"@)],
    );
    let capability = plain("Capability"@, front + outer);
    assert(capability =~= x2 + b + l + y2);
    let s = wms_service(url);
    let all = wms_capabilities(url, bounds, layers);
    let head = seq![all[0]] + s + x2;
    let tail = y2 + seq![xml::XmlItem::End("WMS_Capabilities"@)];
    assert(all =~= seq![all[0]] + (s + capability) + seq![
        xml::XmlItem::End("WMS_Capabilities"@),
    ]);
    assert(all =~= head + b + l + tail);
    (head, tail)
}

/// The document of the map service lists every layer: the elements of the layers stand one
/// behind the other, in the order of the layers, each with the name and the bounds of its
/// layer, behind the bounds of all of them where they are known. There is no other element
/// `Layer` but the one around them.
pub proof fn law_wms_lists_every_layer(
    base: &str,
    bounds: &Option<GeoBox>,
    layers: &Vec<LayerBounds>,
    doc: String,
)
    requires
        call_ensures(wms_document, (base, bounds, layers), doc),
    ensures
        exists|
            head: Seq<xml::XmlItem>,
            each: Seq<Seq<xml::XmlItem>>,
            tail: Seq<xml::XmlItem>,
        |
            #![trigger xml::xml_text(head + each.flatten() + tail)]
            {
                &&& doc@ == xml::xml_text(head + each.flatten() + tail)
                &&& each.len() == layers@.len()
                &&& forall|i: int|
                    0 <= i < each.len() ==> #[trigger] each[i] == written_wms_layer(layers@[i])
                &&& starts(head + each.flatten() + tail, "Layer"@) == layers@.len() + 1
                &&& *bounds matches Some(b) ==> written_box(
                    b.west@,
                    b.east@,
                    b.south@,
                    b.north@,
                ).is_suffix_of(head)
            },
{
    let url = base@ + "/ogc/wms"@;
    let (front, tail) = lemma_wms_parts(url, *bounds, layers@);
    lemma_wms_starts(url, *bounds, layers@);
    lemma_wms_layers(layers@);
    let each = Seq::new(layers@.len(), |i: int| written_wms_layer(layers@[i]));
    let head = front + wms_bounds(*bounds);
    assert(head + each.flatten() + tail == wms_capabilities(url, *bounds, layers@));
    match *bounds {
        Some(b) => {
            lemma_written_box(b.west@, b.east@, b.south@, b.north@);
            let w = written_box(b.west@, b.east@, b.south@, b.north@);
            assert(head.subrange(head.len() - w.len(), head.len() as int) =~= w);
        },
        None => {},
    }
    assert(doc@ == xml::xml_text(head + each.flatten() + tail));
}

/// The parts of a layer of the tile matrix service, one behind the other.
pub open spec fn written_wmts_layer(url: Seq<char>, l: LayerBounds) -> Seq<xml::XmlItem> {
    seq![tag("Layer"@)] + entry("ows:Title"@, l.name@) + entry("ows:Identifier"@, l.name@) + seq![
        xml::XmlItem::Empty(
            "ows:BoundingBox"@,
            seq![
                ("CRS"@, "EPSG:3857"@),
                ("minx"@, l.minx@),
                ("miny"@, l.miny@),
                ("maxx"@, l.maxx@),
                ("maxy"@, l.maxy@),
            ],
        ),
        tag("Style"@),
    ] + entry("ows:Identifier"@, "default"@) + entry("ows:Title"@, "Default Style"@) + seq![
        xml::XmlItem::End("Style"@),
    ] + entry("Format"@, "image/png"@) + seq![tag("TileMatrixSetLink"@)] + entry(
        "TileMatrixSet"@,
        "GoogleMapsCompatible"@,
    ) + seq![
        xml::XmlItem::End("TileMatrixSetLink"@),
        xml::XmlItem::Empty(
            "ResourceURL"@,
            seq![
                ("format"@, "image/png"@),
                ("resourceType"@, "tile"@),
                (
                    "template"@,
                    url
                        + "/{layer}/default/GoogleMapsCompatible/{TileMatrix}/{TileCol}/{TileRow}.png"@,
                ),
            ],
        ),
        xml::XmlItem::End("Layer"@),
    ]
}

/// The parts of a zoom level of the tile matrix service, one behind the other: `across` tiles
/// lie side by side.
pub open spec fn written_matrix(
    level: Seq<char>,
    across: Seq<char>,
    scale: Seq<char>,
    corner: Seq<char>,
) -> Seq<xml::XmlItem> {
    seq![tag("TileMatrix"@)] + entry("ows:Identifier"@, level) + entry("ScaleDenominator"@, scale)
        + entry("TopLeftCorner"@, corner) + entry("TileWidth"@, "256"@) + entry(
        "TileHeight"@,
        "256"@,
    ) + entry("MatrixWidth"@, across) + entry("MatrixHeight"@, across) + seq![
        xml::XmlItem::End("TileMatrix"@),
    ]
}

proof fn lemma_written_wmts_layer(url: Seq<char>, l: LayerBounds)
    ensures
        wmts_layer(url, l) == written_wmts_layer(url, l),
{
    lemma_entry("ows:Title"@, l.name@);
    lemma_entry("ows:Identifier"@, l.name@);
    lemma_entry("ows:Identifier"@, "default"@);
    lemma_entry("ows:Title"@, "Default Style"@);
    lemma_entry("Format"@, "image/png"@);
    lemma_entry("TileMatrixSet"@, "GoogleMapsCompatible"@);
    assert(wmts_layer(url, l) =~= written_wmts_layer(url, l));
}

proof fn lemma_wmts_layers(url: Seq<char>, layers: Seq<LayerBounds>)
    ensures
        wmts_layers(url, layers) == Seq::new(
            layers.len(),
            |i: int| written_wmts_layer(url, layers[i]),
        ).flatten(),
    decreases layers.len(),
{
    let each = Seq::new(layers.len(), |i: int| written_wmts_layer(url, layers[i]));
    if layers.len() == 0 {
        assert(each =~= Seq::empty());
    } else {
        let before = layers.drop_last();
        lemma_wmts_layers(url, before);
        lemma_written_wmts_layer(url, layers.last());
        let rest = Seq::new(before.len(), |i: int| written_wmts_layer(url, before[i]));
        assert(each =~= rest.push(written_wmts_layer(url, layers.last())));
        rest.lemma_flatten_push(written_wmts_layer(url, layers.last()));
    }
}

/// The parts of a zoom level with the number `z`, where two to the power of `z` tiles lie
/// side by side.
pub open spec fn written_level(z: int, scales: Seq<String>, corner: Seq<char>) -> Seq<
    xml::XmlItem,
> {
    written_matrix(
        crate::numbers::decimal(z as nat),
        crate::numbers::decimal(vstd::arithmetic::power2::pow2(z as nat)),
        scales[z]@,
        corner,
    )
}

proof fn lemma_tile_matrices(n: nat, scales: Seq<String>, corner: Seq<char>)
    requires
        n <= scales.len(),
    ensures
        tile_matrices(n, crate::text::texts(scales), corner) == Seq::new(
            n,
            |z: int| written_level(z, scales, corner),
        ).flatten(),
    decreases n,
{
    let each = Seq::new(n, |z: int| written_level(z, scales, corner));
    if n == 0 {
        assert(each =~= Seq::empty());
    } else {
        let z = (n - 1) as nat;
        lemma_tile_matrices(z, scales, corner);
        lemma_tiles_are_power(z);
        let one = written_level(z as int, scales, corner);
        let across = crate::numbers::decimal(tiles_across(z));
        lemma_entry("ows:Identifier"@, crate::numbers::decimal(z));
        lemma_entry("ScaleDenominator"@, scales[z as int]@);
        lemma_entry("TopLeftCorner"@, corner);
        lemma_entry("TileWidth"@, "256"@);
        lemma_entry("TileHeight"@, "256"@);
        lemma_entry("MatrixWidth"@, across);
        lemma_entry("MatrixHeight"@, across);
        assert(crate::text::texts(scales)[z as int] == scales[z as int]@);
        assert(tile_matrix(z, scales[z as int]@, corner) =~= one);
        let rest = Seq::new(z, |z: int| written_level(z, scales, corner));
        assert(each =~= rest.push(one));
        rest.lemma_flatten_push(one);
    }
}

proof fn lemma_nested_parts(
    first: Seq<xml::XmlItem>,
    s: Seq<xml::XmlItem>,
    c: Seq<xml::XmlItem>,
    l: Seq<xml::XmlItem>,
    x: Seq<xml::XmlItem>,
    m: Seq<xml::XmlItem>,
    ends: (xml::XmlItem, xml::XmlItem, xml::XmlItem),
)
    ensures
        first + (s + (c + (l + (x + m + seq![ends.0])) + seq![ends.1])) + seq![ends.2] == first + s
            + c + l + x + m + seq![ends.0, ends.1, ends.2],
{
    let inner = c + (l + (x + m + seq![ends.0])) + seq![ends.1];
    assert(inner =~= c + l + x + m + seq![ends.0, ends.1]);
    let body = c + l + x + m;
    assert(first + (s + inner) + seq![ends.2] =~= first + s + body + seq![
        ends.0,
        ends.1,
        ends.2,
    ]);
    assert(first + s + body =~= first + s + c + l + x + m);
}

/// The document of the tile matrix service lists every layer, in order, each with its name,
/// its bounds and the address of its tiles, and behind them the zoom levels from 0 to 22,
/// each with its scale and twice as many tiles side by side as the one before.
pub proof fn law_wmts_lists_layers_and_levels(
    base: &str,
    layers: &Vec<LayerBounds>,
    scales: &Vec<String>,
    corner: &str,
    doc: String,
)
    requires
        call_ensures(wmts_document, (base, layers, scales, corner), doc),
        scales@.len() == 23,
    ensures
        exists|
            head: Seq<xml::XmlItem>,
            each: Seq<Seq<xml::XmlItem>>,
            levels: Seq<Seq<xml::XmlItem>>,
            tail: Seq<xml::XmlItem>,
        |
            #![trigger xml::xml_text(
                head + each.flatten() + seq![tag("TileMatrixSet"@)] + entry(
                    "ows:Identifier"@,
                    "GoogleMapsCompatible"@,
                ) + entry("ows:SupportedCRS"@, "EPSG:3857"@) + levels.flatten() + tail,
            )]
            {
                &&& doc@ == xml::xml_text(
                    head + each.flatten() + seq![tag("TileMatrixSet"@)] + entry(
                        "ows:Identifier"@,
                        "GoogleMapsCompatible"@,
                    ) + entry("ows:SupportedCRS"@, "EPSG:3857"@) + levels.flatten() + tail,
                )
                &&& head.last() == tag("Contents"@)
                &&& each.len() == layers@.len()
                &&& forall|i: int|
                    0 <= i < each.len() ==> #[trigger] each[i] == written_wmts_layer(
                        base@ + "/ogc/wmts/1.0.0"@,
                        layers@[i],
                    )
                &&& levels.len() == 23
                &&& forall|z: int|
                    0 <= z < 23 ==> #[trigger] levels[z] == written_level(z, scales@, corner@)
                &&& tail == seq![
                    xml::XmlItem::End("TileMatrixSet"@),
                    xml::XmlItem::End("Contents"@),
                    xml::XmlItem::End("Capabilities"@),
                ]
            },
{
    let url = base@ + "/ogc/wmts/1.0.0"@;
    let each = Seq::new(layers@.len(), |i: int| written_wmts_layer(url, layers@[i]));
    let levels = Seq::new(23, |z: int| written_level(z, scales@, corner@));
    lemma_wmts_layers(url, layers@);
    lemma_tile_matrices(23, scales@, corner@);
    let all = wmts_parts(url, layers@, crate::text::texts(scales@), corner@);
    let about = plain(
        "ows:ServiceIdentification"@,
        xml::text_element("ows:Title"@, "SimpleGeoServer WMTS"@) + xml::text_element(
            "ows:ServiceType"@,
            "OGC WMTS"@,
        ) + xml::text_element("ows:ServiceTypeVersion"@, "1.0.0"@),
    );
    let provider = plain(
        "ows:ServiceProvider"@,
        xml::text_element("ows:ProviderName"@, "SimpleGeoServer"@),
    );
    let head = seq![all[0]] + about + provider + seq![tag("Contents"@)];
    lemma_entry("ows:Identifier"@, "GoogleMapsCompatible"@);
    lemma_entry("ows:SupportedCRS"@, "EPSG:3857"@);
    let tail = seq![
        xml::XmlItem::End("TileMatrixSet"@),
        xml::XmlItem::End("Contents"@),
        xml::XmlItem::End("Capabilities"@),
    ];
    let (set, name, crs) = (
        seq![tag("TileMatrixSet"@)],
        entry("ows:Identifier"@, "GoogleMapsCompatible"@),
        entry("ows:SupportedCRS"@, "EPSG:3857"@),
    );
    let ends = (tail[0], tail[1], tail[2]);
    lemma_nested_parts(
        seq![all[0]],
        about + provider,
        seq![tag("Contents"@)],
        each.flatten(),
        set,
        name + crs + levels.flatten(),
        ends,
    );
    let front = head + each.flatten() + set;
    assert(head =~= seq![all[0]] + (about + provider) + seq![tag("Contents"@)]);
    assert(front + (name + crs + levels.flatten()) =~= front + name + crs + levels.flatten());
    assert(head.last() == tag("Contents"@));
}

/// The rasters among files, by the two extensions of rasters in any case of letters.
pub open spec fn tif_names(names: Seq<String>) -> Seq<Seq<char>> {
    Seq::new(names.len(), |i: int| names[i]@).filter(
        |n: Seq<char>|
            {
                let ext = crate::text::lowered(crate::paths::extension(n));
                ext == "tif"@ || ext == "tiff"@
            },
    )
}

proof fn lemma_tif_names(names: Seq<String>)
    ensures
        rasters(crate::text::texts(names)) == tif_names(names),
{
    let all = Seq::new(names.len(), |i: int| names[i]@);
    assert(all =~= crate::text::texts(names));
    let p = |n: Seq<char>| crate::paths::raster_ext(ext_of(n));
    let q = |n: Seq<char>|
        {
            let ext = crate::text::lowered(crate::paths::extension(n));
            ext == "tif"@ || ext == "tiff"@
        };
    assert(p =~= q);
}

/// The rasters among files are those whose extension is `tif` or `tiff`, in order.
pub proof fn law_rasters_are_tifs(names: &Vec<String>, r: Vec<String>)
    requires
        call_ensures(raster_names, (names,), r),
    ensures
        Seq::new(r@.len(), |i: int| r@[i]@) == tif_names(names@),
{
    lemma_tif_names(names@);
    assert(Seq::new(r@.len(), |i: int| r@[i]@) =~= crate::text::texts(r@));
}

/// A layer in the list of the tile map service, as it is written.
pub open spec fn written_tms_entry(url: Seq<char>, name: Seq<char>) -> xml::XmlItem {
    xml::XmlItem::Empty(
        "TileMap"@,
        seq![
            ("title"@, name),
            ("srs"@, "EPSG:3857"@),
            ("profile"@, "global-geodetic"@),
            ("href"@, url + "/"@ + name),
        ],
    )
}

proof fn lemma_tms_entries(url: Seq<char>, names: Seq<Seq<char>>)
    ensures
        tms_entries(url, names) == Seq::new(
            names.len(),
            |i: int| written_tms_entry(url, names[i]),
        ),
    decreases names.len(),
{
    if names.len() > 0 {
        lemma_tms_entries(url, names.drop_last());
    }
    assert(tms_entries(url, names) =~= Seq::new(
        names.len(),
        |i: int| written_tms_entry(url, names[i]),
    ));
}

/// The list of the tile map service has one entry for each raster among the files, in order,
/// with its name and its address, and nothing else.
pub proof fn law_tms_lists_every_raster(base: &str, files: &Vec<String>, doc: String)
    requires
        call_ensures(tms_root, (base, files), doc),
    ensures
        doc@ == xml::xml_text(
            seq![
                xml::XmlItem::Start(
                    "TileMaps"@,
                    seq![("version"@, "1.0.0"@), ("xmlns"@, "http://tms.osgeo.org/1.0.0"@)],
                ),
            ] + Seq::new(
                tif_names(files@).len(),
                |i: int| written_tms_entry(base@ + "/ogc/tms/1.0.0"@, tif_names(files@)[i]),
            ) + seq![xml::XmlItem::End("TileMaps"@)],
        ),
{
    lemma_tif_names(files@);
    lemma_tms_entries(base@ + "/ogc/tms/1.0.0"@, tif_names(files@));
}

/// A zoom level of a layer of the tile map service, as it is written.
pub open spec fn written_tile_set(url: Seq<char>, z: int, resolution: Seq<char>) -> xml::XmlItem {
    xml::XmlItem::Empty(
        "TileSet"@,
        seq![
            ("href"@, url + "/"@ + crate::numbers::decimal(z as nat)),
            ("units-per-pixel"@, resolution),
            ("order"@, crate::numbers::decimal(z as nat)),
        ],
    )
}

proof fn lemma_tile_sets(url: Seq<char>, n: nat, resolutions: Seq<String>)
    requires
        n <= resolutions.len(),
    ensures
        tile_sets(url, n, crate::text::texts(resolutions)) == Seq::new(
            n,
            |z: int| written_tile_set(url, z, resolutions[z]@),
        ),
    decreases n,
{
    if n > 0 {
        lemma_tile_sets(url, (n - 1) as nat, resolutions);
        assert(crate::text::texts(resolutions)[n - 1] == resolutions[n - 1]@);
    }
    assert(tile_sets(url, n, crate::text::texts(resolutions)) =~= Seq::new(
        n,
        |z: int| written_tile_set(url, z, resolutions[z]@),
    ));
}

/// The document of a layer of the tile map service has its name, its bounds, its origin and
/// the format of its tiles, and every zoom level from 0 to its greatest one, or to 22, each
/// with its address and its resolution.
pub proof fn law_tms_layer_lists_levels(
    base: &str,
    l: &LayerBounds,
    origin: &str,
    max_zoom: u32,
    resolutions: &Vec<String>,
    doc: String,
)
    requires
        call_ensures(tms_layer, (base, l, origin, max_zoom, resolutions), doc),
        resolutions@.len() >= 23 || resolutions@.len() > max_zoom,
    ensures
        doc@ == xml::xml_text(
            seq![
                xml::XmlItem::Start(
                    "TileMap"@,
                    seq![("version"@, "1.0.0"@), ("xmlns"@, "http://tms.osgeo.org/1.0.0"@)],
                ),
            ] + entry("Title"@, l.name@) + entry("Abstract"@, "TMS layer for "@ + l.name@) + entry(
                "SRS"@,
                "EPSG:3857"@,
            ) + seq![
                xml::XmlItem::Empty(
                    "BoundingBox"@,
                    seq![
                        ("minx"@, l.minx@),
                        ("miny"@, l.miny@),
                        ("maxx"@, l.maxx@),
                        ("maxy"@, l.maxy@),
                    ],
                ),
                xml::XmlItem::Empty("Origin"@, seq![("x"@, origin@), ("y"@, origin@)]),
                xml::XmlItem::Empty(
                    "TileFormat"@,
                    seq![
                        ("width"@, "256"@),
                        ("height"@, "256"@),
                        ("mime-type"@, "image/png"@),
                        ("extension"@, "png"@),
                    ],
                ),
                tag("TileSets"@),
            ] + Seq::new(
                if max_zoom <= 22 {
                    (max_zoom + 1) as nat
                } else {
                    23
                },
                |z: int|
                    written_tile_set(
                        base@ + "/ogc/tms/1.0.0"@ + "/"@ + l.name@,
                        z,
                        resolutions@[z]@,
                    ),
            ) + seq![xml::XmlItem::End("TileSets"@), xml::XmlItem::End("TileMap"@)],
        ),
{
    let url = base@ + "/ogc/tms/1.0.0"@;
    let n = if max_zoom <= 22 {
        (max_zoom + 1) as nat
    } else {
        23
    };
    assert(tms_levels(max_zoom) == n);
    lemma_tile_sets(url + "/"@ + l.name@, n, resolutions@);
    lemma_entry("Title"@, l.name@);
    lemma_entry("Abstract"@, "TMS layer for "@ + l.name@);
    lemma_entry("SRS"@, "EPSG:3857"@);
    let parts = tms_layer_parts(url, *l, origin@, max_zoom, crate::text::texts(resolutions@));
    assert(parts =~= seq![
        xml::XmlItem::Start(
            "TileMap"@,
            seq![("version"@, "1.0.0"@), ("xmlns"@, "http://tms.osgeo.org/1.0.0"@)],
        ),
    ] + entry("Title"@, l.name@) + entry("Abstract"@, "TMS layer for "@ + l.name@) + entry(
        "SRS"@,
        "EPSG:3857"@,
    ) + seq![
        xml::XmlItem::Empty(
            "BoundingBox"@,
            seq![
                ("minx"@, l.minx@),
                ("miny"@, l.miny@),
                ("maxx"@, l.maxx@),
                ("maxy"@, l.maxy@),
            ],
        ),
        xml::XmlItem::Empty("Origin"@, seq![("x"@, origin@), ("y"@, origin@)]),
        xml::XmlItem::Empty(
            "TileFormat"@,
            seq![
                ("width"@, "256"@),
                ("height"@, "256"@),
                ("mime-type"@, "image/png"@),
                ("extension"@, "png"@),
            ],
        ),
        tag("TileSets"@),
    ] + Seq::new(
        n,
        |z: int| written_tile_set(url + "/"@ + l.name@, z, resolutions@[z]@),
    ) + seq![xml::XmlItem::End("TileSets"@), xml::XmlItem::End("TileMap"@)]);
}

/// The document that refuses a request holds the code and the text, and nothing else.
pub proof fn law_refusal_tells_code_and_text(code: &str, text: &str, doc: String)
    requires
        call_ensures(ows_exception_xml, (code, text), doc),
    ensures
        doc@ == xml::xml_text(
            seq![
                xml::XmlItem::Start(
                    "ServiceExceptionReport"@,
                    seq![("version"@, "1.3.0"@), ("xmlns"@, "http://www.opengis.net/ogc"@)],
                ),
                xml::XmlItem::Start("ServiceException"@, seq![("code"@, code@)]),
                xml::XmlItem::Text(text@),
                xml::XmlItem::End("ServiceException"@),
                xml::XmlItem::End("ServiceExceptionReport"@),
            ],
        ),
{
    assert(exception_parts(code@, text@) =~= seq![
        xml::XmlItem::Start(
            "ServiceExceptionReport"@,
            seq![("version"@, "1.3.0"@), ("xmlns"@, "http://www.opengis.net/ogc"@)],
        ),
        xml::XmlItem::Start("ServiceException"@, seq![("code"@, code@)]),
        xml::XmlItem::Text(text@),
        xml::XmlItem::End("ServiceException"@),
        xml::XmlItem::End("ServiceExceptionReport"@),
    ]);
}

/// A file is a raster that can be read: its extension is `tif` or `tiff`, and it has an
/// extent.
pub open spec fn is_readable_tif(f: FileExtent) -> bool {
    let ext = crate::text::lowered(crate::paths::extension(f.name@));
    (ext == "tif"@ || ext == "tiff"@) && f.extent is Some
}

/// The places of the rasters among files that can be read: all of them, in order.
pub open spec fn are_places(files: Seq<FileExtent>, places: Seq<int>) -> bool {
    &&& forall|k: int|
        0 <= k < places.len() ==> 0 <= #[trigger] places[k] < files.len() && is_readable_tif(
            files[places[k]],
        )
    &&& forall|j: int, k: int| 0 <= j < k < places.len() ==> places[j] < places[k]
    &&& forall|i: int|
        0 <= i < files.len() && is_readable_tif(#[trigger] files[i]) ==> places.contains(i)
}

proof fn lemma_readable_places(files: Seq<FileExtent>) -> (places: Seq<int>)
    ensures
        are_places(files, places),
        readable(files).len() == places.len(),
        forall|k: int| 0 <= k < places.len() ==> readable(files)[k] == files[#[trigger] places[k]],
    decreases files.len(),
{
    if files.len() == 0 {
        Seq::empty()
    } else {
        let n = files.len() - 1;
        let before = lemma_readable_places(files.drop_last());
        let places = if is_readable_tif(files.last()) {
            before.push(n)
        } else {
            before
        };
        assert forall|k: int| 0 <= k < places.len() implies 0 <= #[trigger] places[k]
            < files.len() && is_readable_tif(files[places[k]]) && readable(files)[k]
            == files[places[k]] by {
            if k < before.len() {
                assert(places[k] == before[k]);
                assert(files.drop_last()[before[k]] == files[before[k]]);
            }
        }
        assert forall|j: int, k: int| 0 <= j < k < places.len() implies places[j] < places[k] by {
            assert(places[j] == before[j]);
            if k < before.len() {
                assert(places[k] == before[k]);
            }
        }
        assert forall|i: int| 0 <= i < files.len() && is_readable_tif(
            #[trigger] files[i],
        ) implies places.contains(i) by {
            if i < n {
                assert(files.drop_last()[i] == files[i]);
                assert(before.contains(i));
                let k = choose|k: int| 0 <= k < before.len() && before[k] == i;
                assert(places[k] == i);
            } else {
                assert(places[before.len() as int] == n);
            }
        }
        places
    }
}

/// The layer of a file: its name, the texts of its extent in degrees, west and east from the
/// first and the third number, south and north from the second and the fourth, and those of
/// its extent on the spherical map.
pub open spec fn tells_file<
    D: Fn(u64) -> String,
    M: Fn(&[u64; 4]) -> (String, String, String, String),
>(f: FileExtent, degrees: D, metres: M, l: LayerBounds) -> bool {
    &&& l.name@ == f.name@
    &&& degrees.ensures((f.extent->Some_0@[0],), l.west)
    &&& degrees.ensures((f.extent->Some_0@[1],), l.south)
    &&& degrees.ensures((f.extent->Some_0@[2],), l.east)
    &&& degrees.ensures((f.extent->Some_0@[3],), l.north)
    &&& metres.ensures((&f.extent->Some_0,), (l.minx, l.miny, l.maxx, l.maxy))
}

/// The document of the map service for files has a layer for every raster that can be read,
/// in the order of the files, with the name and the extent of the file, and none for any
/// other file.
pub proof fn law_wms_shows_every_readable_raster<
    D: Fn(u64) -> String,
    M: Fn(&[u64; 4]) -> (String, String, String, String),
>(base: &str, files: &Vec<FileExtent>, degrees: D, metres: M, doc: String)
    requires
        call_ensures(wms_capabilities_xml::<D, M>, (base, files, degrees, metres), doc),
    ensures
        exists|
            head: Seq<xml::XmlItem>,
            each: Seq<Seq<xml::XmlItem>>,
            tail: Seq<xml::XmlItem>,
            layers: Seq<LayerBounds>,
            places: Seq<int>,
        |
            #![trigger xml::xml_text(head + each.flatten() + tail), are_places(files@, places),
                starts(head, layers[0].name@)]
            {
                &&& doc@ == xml::xml_text(head + each.flatten() + tail)
                &&& starts(head + each.flatten() + tail, "Layer"@) == each.len() + 1
                &&& are_places(files@, places)
                &&& each.len() == places.len()
                &&& layers.len() == places.len()
                &&& forall|k: int|
                    0 <= k < each.len() ==> #[trigger] each[k] == written_wms_layer(layers[k])
                &&& forall|k: int|
                    0 <= k < layers.len() ==> tells_file(
                        files@[places[k]],
                        degrees,
                        metres,
                        #[trigger] layers[k],
                    )
            },
{
    let url = base@ + "/ogc/wms"@;
    let (bounds, layers) = choose|bounds: Option<GeoBox>, layers: Seq<LayerBounds>|
        #![trigger wms_capabilities(url, bounds, layers)]
        is_box_of(files@, degrees, bounds) && are_layers_of(files@, degrees, metres, layers)
            && doc@ == xml::xml_text(wms_capabilities(url, bounds, layers));
    let places = lemma_readable_places(files@);
    let (front, tail) = lemma_wms_parts(url, bounds, layers);
    lemma_wms_starts(url, bounds, layers);
    lemma_wms_layers(layers);
    let each = Seq::new(layers.len(), |i: int| written_wms_layer(layers[i]));
    let head = front + wms_bounds(bounds);
    assert forall|k: int| 0 <= k < layers.len() implies tells_file(
        files@[places[k]],
        degrees,
        metres,
        #[trigger] layers[k],
    ) by {
        assert(is_layer_of(readable(files@)[k], degrees, metres, layers[k]));
    }
    assert(doc@ == xml::xml_text(head + each.flatten() + tail));
    assert(starts(head, layers[0].name@) >= 0);
}

/// The document of the tile matrix service for files has a layer for every raster that can
/// be read, in the order of the files, and none for any other file.
pub proof fn law_wmts_shows_every_readable_raster<
    D: Fn(u64) -> String,
    M: Fn(&[u64; 4]) -> (String, String, String, String),
>(
    base: &str,
    files: &Vec<FileExtent>,
    degrees: D,
    metres: M,
    scales: &Vec<String>,
    corner: &str,
    doc: String,
)
    requires
        call_ensures(
            wmts_capabilities::<D, M>,
            (base, files, degrees, metres, scales, corner),
            doc,
        ),
    ensures
        exists|
            head: Seq<xml::XmlItem>,
            each: Seq<Seq<xml::XmlItem>>,
            tail: Seq<xml::XmlItem>,
            layers: Seq<LayerBounds>,
            places: Seq<int>,
        |
            #![trigger xml::xml_text(head + each.flatten() + tail), are_places(files@, places),
                starts(head, layers[0].name@)]
            {
                &&& doc@ == xml::xml_text(head + each.flatten() + tail)
                &&& head.last() == tag("Contents"@)
                &&& tail[0] == tag("TileMatrixSet"@)
                &&& are_places(files@, places)
                &&& each.len() == places.len()
                &&& layers.len() == places.len()
                &&& forall|k: int|
                    0 <= k < each.len() ==> #[trigger] each[k] == written_wmts_layer(
                        base@ + "/ogc/wmts/1.0.0"@,
                        layers[k],
                    )
                &&& forall|k: int|
                    0 <= k < layers.len() ==> tells_file(
                        files@[places[k]],
                        degrees,
                        metres,
                        #[trigger] layers[k],
                    )
            },
{
    let url = base@ + "/ogc/wmts/1.0.0"@;
    let layers = choose|layers: Seq<LayerBounds>| #[trigger]
        are_layers_of(files@, degrees, metres, layers) && doc@ == xml::xml_text(
            wmts_parts(url, layers, crate::text::texts(scales@), corner@),
        );
    let places = lemma_readable_places(files@);
    lemma_wmts_layers(url, layers);
    let each = Seq::new(layers.len(), |i: int| written_wmts_layer(url, layers[i]));
    let all = wmts_parts(url, layers, crate::text::texts(scales@), corner@);
    let about = plain(
        "ows:ServiceIdentification"@,
        xml::text_element("ows:Title"@, "SimpleGeoServer WMTS"@) + xml::text_element(
            "ows:ServiceType"@,
            "OGC WMTS"@,
        ) + xml::text_element("ows:ServiceTypeVersion"@, "1.0.0"@),
    );
    let provider = plain(
        "ows:ServiceProvider"@,
        xml::text_element("ows:ProviderName"@, "SimpleGeoServer"@),
    );
    let set = plain(
        "TileMatrixSet"@,
        xml::text_element("ows:Identifier"@, "GoogleMapsCompatible"@) + xml::text_element(
            "ows:SupportedCRS"@,
            "EPSG:3857"@,
        ) + tile_matrices(ZOOM_LEVELS as nat, crate::text::texts(scales@), corner@),
    );
    let head = seq![all[0]] + about + provider + seq![tag("Contents"@)];
    let tail = set + seq![xml::XmlItem::End("Contents"@), xml::XmlItem::End("Capabilities"@)];
    assert(all =~= head + each.flatten() + tail);
    assert(head.last() == tag("Contents"@));
    assert(tail[0] == tag("TileMatrixSet"@));
    assert forall|k: int| 0 <= k < layers.len() implies tells_file(
        files@[places[k]],
        degrees,
        metres,
        #[trigger] layers[k],
    ) by {
        assert(is_layer_of(readable(files@)[k], degrees, metres, layers[k]));
    }
    assert(doc@ == xml::xml_text(head + each.flatten() + tail));
    assert(starts(head, layers[0].name@) >= 0);
}

proof fn lemma_union(extents: Seq<[u64; 4]>)
    requires
        forall|k: int, c: int|
            0 <= k < extents.len() && 0 <= c < 4 ==> crate::double::is_finite(
                #[trigger] extents[k]@[c],
            ),
    ensures
        crate::double::is_number(union_of(extents).0),
        crate::double::is_number(union_of(extents).1),
        crate::double::is_number(union_of(extents).2),
        crate::double::is_number(union_of(extents).3),
        forall|k: int|
            #![trigger extents[k]]
            0 <= k < extents.len() ==> {
                &&& crate::double::rank(union_of(extents).0) <= crate::double::rank(extents[k]@[0])
                &&& crate::double::rank(extents[k]@[2]) <= crate::double::rank(union_of(extents).1)
                &&& crate::double::rank(union_of(extents).2) <= crate::double::rank(extents[k]@[1])
                &&& crate::double::rank(extents[k]@[3]) <= crate::double::rank(union_of(extents).3)
            },
        extents.len() > 0 ==> {
            &&& exists|k: int| 0 <= k < extents.len() && union_of(extents).0 == #[trigger] extents[k]@[0]
            &&& exists|k: int| 0 <= k < extents.len() && union_of(extents).1 == #[trigger] extents[k]@[2]
            &&& exists|k: int| 0 <= k < extents.len() && union_of(extents).2 == #[trigger] extents[k]@[1]
            &&& exists|k: int| 0 <= k < extents.len() && union_of(extents).3 == #[trigger] extents[k]@[3]
        },
    decreases extents.len(),
{
    if extents.len() > 0 {
        let n = extents.len() - 1;
        let before = extents.drop_last();
        assert forall|k: int, c: int| 0 <= k < before.len() && 0 <= c < 4 implies
            crate::double::is_finite(#[trigger] before[k]@[c]) by {
            assert(crate::double::is_finite(extents[k]@[c]));
        }
        lemma_union(before);
        assert(crate::double::is_finite(extents[n]@[0]));
        assert(crate::double::is_finite(extents[n]@[1]));
        assert(crate::double::is_finite(extents[n]@[2]));
        assert(crate::double::is_finite(extents[n]@[3]));
        assert forall|k: int|
            #![trigger extents[k]]
            0 <= k < extents.len() implies {
            &&& crate::double::rank(union_of(extents).0) <= crate::double::rank(extents[k]@[0])
            &&& crate::double::rank(extents[k]@[2]) <= crate::double::rank(union_of(extents).1)
            &&& crate::double::rank(union_of(extents).2) <= crate::double::rank(extents[k]@[1])
            &&& crate::double::rank(extents[k]@[3]) <= crate::double::rank(union_of(extents).3)
        } by {
            if k < n {
                assert(before[k] == extents[k]);
            }
        }
        let u = union_of(extents);
        let v = union_of(before);
        assert(exists|k: int| 0 <= k < extents.len() && u.0 == #[trigger] extents[k]@[0]) by {
            if u.0 == v.0 && before.len() > 0 {
                let k = choose|k: int| 0 <= k < before.len() && v.0 == #[trigger] before[k]@[0];
                assert(u.0 == extents[k]@[0]);
            } else {
                assert(u.0 == extents[n]@[0]);
            }
        }
        assert(exists|k: int| 0 <= k < extents.len() && u.1 == #[trigger] extents[k]@[2]) by {
            if u.1 == v.1 && before.len() > 0 {
                let k = choose|k: int| 0 <= k < before.len() && v.1 == #[trigger] before[k]@[2];
                assert(u.1 == extents[k]@[2]);
            } else {
                assert(u.1 == extents[n]@[2]);
            }
        }
        assert(exists|k: int| 0 <= k < extents.len() && u.2 == #[trigger] extents[k]@[1]) by {
            if u.2 == v.2 && before.len() > 0 {
                let k = choose|k: int| 0 <= k < before.len() && v.2 == #[trigger] before[k]@[1];
                assert(u.2 == extents[k]@[1]);
            } else {
                assert(u.2 == extents[n]@[1]);
            }
        }
        assert(exists|k: int| 0 <= k < extents.len() && u.3 == #[trigger] extents[k]@[3]) by {
            if u.3 == v.3 && before.len() > 0 {
                let k = choose|k: int| 0 <= k < before.len() && v.3 == #[trigger] before[k]@[3];
                assert(u.3 == extents[k]@[3]);
            } else {
                assert(u.3 == extents[n]@[3]);
            }
        }
    }
}

/// The bounds of all layers hold those of every layer, and each side is that of some layer,
/// where there is a layer and all numbers are finite. Without layers there are no bounds.
pub proof fn law_bounds_hold_every_layer(
    extents: &Vec<[u64; 4]>,
    bounds: Option<(u64, u64, u64, u64)>,
)
    requires
        call_ensures(union_extent, (extents,), bounds),
        forall|k: int, c: int|
            0 <= k < extents@.len() && 0 <= c < 4 ==> crate::double::is_finite(
                #[trigger] extents@[k]@[c],
            ),
    ensures
        bounds is Some <==> extents@.len() > 0,
        bounds matches Some((west, east, south, north)) ==> {
            &&& forall|k: int|
                #![trigger extents@[k]]
                0 <= k < extents@.len() ==> {
                    &&& crate::double::rank(west) <= crate::double::rank(extents@[k]@[0])
                    &&& crate::double::rank(south) <= crate::double::rank(extents@[k]@[1])
                    &&& crate::double::rank(extents@[k]@[2]) <= crate::double::rank(east)
                    &&& crate::double::rank(extents@[k]@[3]) <= crate::double::rank(north)
                }
            &&& exists|k: int| 0 <= k < extents@.len() && west == #[trigger] extents@[k]@[0]
            &&& exists|k: int| 0 <= k < extents@.len() && south == #[trigger] extents@[k]@[1]
            &&& exists|k: int| 0 <= k < extents@.len() && east == #[trigger] extents@[k]@[2]
            &&& exists|k: int| 0 <= k < extents@.len() && north == #[trigger] extents@[k]@[3]
        },
{
    lemma_union(extents@);
}

/// What a file is served as goes by its extension in lower case: two extensions for rasters,
/// one for shapefiles, five for other vector data, and nothing else is supported.
pub proof fn law_kinds_of_layers(name: &str, r: (LayerKind, String))
    requires
        call_ensures(layer_kind, (name,), r),
    ensures
        r.1@ == crate::text::lowered(crate::paths::extension(name@)),
        r.0 is Raster <==> r.1@ == "tif"@ || r.1@ == "tiff"@,
        r.0 is Shapefile <==> r.1@ == "shp"@,
        r.0 is Vector <==> r.1@ == "geojson"@ || r.1@ == "json"@ || r.1@ == "wkt"@ || r.1@
            == "kml"@ || r.1@ == "kmz"@,
{
    reveal_strlit("tif");
    reveal_strlit("tiff");
    reveal_strlit("shp");
    reveal_strlit("geojson");
    reveal_strlit("json");
    reveal_strlit("wkt");
    reveal_strlit("kml");
    reveal_strlit("kmz");
    assert("tif"@[0] == 't' && "tiff"@[0] == 't' && "shp"@[0] == 's' && "geojson"@[0] == 'g'
        && "json"@[0] == 'j' && "wkt"@[0] == 'w' && "kml"@[0] == 'k' && "kmz"@[0] == 'k');
}

/// A request for a map names its layer: the text before the first comma.
pub proof fn law_first_layer_is_drawn(q: &WmsQuery, r: Result<String, OwsError>)
    requires
        call_ensures(map_layer, (q,), r),
    ensures
        q.layers is None ==> r is Err,
        q.layers is Some && q.layers->Some_0@.len() == 0 ==> r is Err,
        q.layers is Some && q.layers->Some_0@.len() > 0 ==> {
            &&& r is Ok
            &&& !r->Ok_0@.contains(',')
            &&& q.layers->Some_0@ == r->Ok_0@ || (r->Ok_0@ + seq![',']).is_prefix_of(
                q.layers->Some_0@,
            )
        },
{
    reveal_strlit("");
    match q.layers {
        Some(t) => {
            if t@.len() > 0 {
                lemma_first_piece(t@, ',');
            }
        },
        None => {},
    }
}

proof fn lemma_first_piece(s: Seq<char>, sep: char)
    ensures
        crate::text::split_spec(s, sep).len() >= 1,
        !crate::text::split_spec(s, sep)[0].contains(sep),
        crate::text::split_spec(s, sep).len() == 1 ==> s == crate::text::split_spec(s, sep)[0],
        crate::text::split_spec(s, sep).len() > 1 ==> (crate::text::split_spec(s, sep)[0] + seq![
            sep,
        ]).is_prefix_of(s),
    decreases s.len(),
{
    let all = crate::text::split_spec(s, sep);
    if s.len() == 0 {
        assert(all[0] =~= s);
    } else {
        let t = s.drop_last();
        let before = crate::text::split_spec(t, sep);
        lemma_first_piece(t, sep);
        if s.last() == sep {
            if before.len() == 1 {
                assert(all[0] + seq![sep] =~= s);
            } else {
                let p = before[0] + seq![sep];
                assert(s.subrange(0, p.len() as int) =~= t.subrange(0, p.len() as int));
            }
        } else if before.len() == 1 {
            assert(all[0] =~= s);
            if all[0].contains(sep) {
                let k = choose|k: int| 0 <= k < all[0].len() && all[0][k] == sep;
                assert(k < t.len());
                assert(before[0][k] == sep);
            }
        } else {
            assert(all[0] == before[0]);
            let p = before[0] + seq![sep];
            assert(s.subrange(0, p.len() as int) =~= t.subrange(0, p.len() as int));
        }
    }
}

/// A row counted from the south and the same row counted from the north lie as far from
/// either edge of a world of two to the power of the zoom level rows: together they are one
/// less than its rows. A row outside of the world is refused.
pub proof fn law_rows_mirror(z: u32, y: u32, row: Result<u32, HttpError>)
    requires
        call_ensures(tms_row, (z, y), row),
        z <= 32,
    ensures
        y < vstd::arithmetic::power2::pow2(z as nat) ==> row is Ok && row->Ok_0 + y + 1
            == vstd::arithmetic::power2::pow2(z as nat),
        y >= vstd::arithmetic::power2::pow2(z as nat) ==> row is Err && row->Err_0.status == 400,
{
    lemma_tiles_are_power(z as nat);
    lemma_tiles_across(z as nat, 32);
    lemma_widest_world();
    if y < tiles_across(z as nat) {
        vstd::arithmetic::div_mod::lemma_small_mod(
            (tiles_across(z as nat) - 1 - y) as nat,
            0x1_0000_0000,
        );
    }
}

/// The number of tiles along a side of the world is two to the power of the zoom level.
pub proof fn law_tiles_double(z: u32, n: u64)
    requires
        call_ensures(tile_count, (z,), n),
        z < 64,
    ensures
        n == vstd::arithmetic::power2::pow2(z as nat),
{
    lemma_tiles_are_power(z as nat);
}

/// A map of a raster is drawn where it is asked for in the system of the web, within four
/// numbers, and with sides from 1 to 4096, which are 256 where they are not given. It has the
/// path of the layer, these bounds and these sides.
pub proof fn law_maps_that_are_drawn<F: Copy>(
    q: &WmsQuery,
    layer: &str,
    path: &Result<String, HttpError>,
    bbox: &Vec<F>,
    r: Result<MapAction<F>, OwsError>,
)
    requires
        call_ensures(wms_get_map::<F>, (q, layer, path, bbox), r),
    ensures
        r matches Ok(MapAction::Draw(m)) ==> {
            &&& path is Ok && m.path@ == path->Ok_0@
            &&& crate::text::lowered(crate::paths::extension(layer@)) == "tif"@
                || crate::text::lowered(crate::paths::extension(layer@)) == "tiff"@
            &&& q.crs matches Some(crs) ==> crate::text::raised(crs@) == "EPSG:3857"@
                || crate::text::raised(crs@) == "EPSG:900913"@
            &&& bbox@.len() == 4 && m.bbox@ == bbox@
            &&& 1 <= m.width <= 4096 && 1 <= m.height <= 4096
            &&& q.width is Some ==> q.width == Some(m.width)
            &&& q.height is Some ==> q.height == Some(m.height)
            &&& q.width is None ==> m.width == 256
            &&& q.height is None ==> m.height == 256
            &&& m.transparent <==> (q.transparent matches Some(t) && crate::text::raised(t@)
                == "TRUE"@)
        },
        path is Ok && (crate::text::lowered(crate::paths::extension(layer@)) == "tif"@
            || crate::text::lowered(crate::paths::extension(layer@)) == "tiff"@) && (q.crs is None
            || crate::text::raised(q.crs->Some_0@) == "EPSG:3857"@ || crate::text::raised(
            q.crs->Some_0@,
        ) == "EPSG:900913"@) && bbox@.len() == 4 && (q.width is None || 1 <= q.width->Some_0
            <= 4096) && (q.height is None || 1 <= q.height->Some_0 <= 4096) ==> (r matches Ok(
            MapAction::Draw(_),
        )),
        path is Ok && crate::text::lowered(crate::paths::extension(layer@)) == "shp"@ ==> (r matches
            Ok(MapAction::Features(p)) && p@ == path->Ok_0@),
        path is Err ==> r is Err,
{
    reveal_strlit("tif");
    reveal_strlit("tiff");
    reveal_strlit("shp");
    assert("tif"@[0] == 't' && "tiff"@[0] == 't' && "shp"@[0] == 's');
    reveal_strlit("EPSG:3857");
    assert(crate::text::raised("EPSG:3857"@) =~= "EPSG:3857"@);
}

proof fn lemma_all_found<F>(found: Seq<Option<F>>) -> (places: Seq<int>)
    ensures
        places.len() == all_found(found).len(),
        forall|k: int|
            0 <= k < places.len() ==> 0 <= #[trigger] places[k] < found.len() && found[places[k]]
                == Some(all_found(found)[k]),
        forall|j: int, k: int| 0 <= j < k < places.len() ==> places[j] < places[k],
        forall|i: int|
            0 <= i < found.len() && #[trigger] found[i] is Some ==> places.contains(i),
    decreases found.len(),
{
    if found.len() == 0 {
        Seq::empty()
    } else {
        let n = found.len() - 1;
        let before = lemma_all_found(found.drop_last());
        let places = if found.last() is Some {
            before.push(n)
        } else {
            before
        };
        assert forall|k: int| 0 <= k < places.len() implies 0 <= #[trigger] places[k]
            < found.len() && found[places[k]] == Some(all_found(found)[k]) by {
            if k < before.len() {
                assert(places[k] == before[k]);
                assert(found.drop_last()[before[k]] == found[before[k]]);
            }
        }
        assert forall|j: int, k: int| 0 <= j < k < places.len() implies places[j] < places[k] by {
            assert(places[j] == before[j]);
            if k < before.len() {
                assert(places[k] == before[k]);
            }
        }
        assert forall|i: int| 0 <= i < found.len() && #[trigger] found[i] is Some implies
            places.contains(i) by {
            if i < n {
                assert(found.drop_last()[i] == found[i]);
                assert(before.contains(i));
                let k = choose|k: int| 0 <= k < before.len() && before[k] == i;
                assert(places[k] == i);
            } else {
                assert(places[before.len() as int] == n);
            }
        }
        places
    }
}

/// `parse` was asked about a text.
pub open spec fn was_asked<F, P: Fn(&str) -> Option<F>>(
    asked: Seq<char>,
    parse: P,
    found: Option<F>,
) -> bool {
    exists|text: &str| text@ == asked && #[trigger] parse.ensures((text,), found)
}

/// `parse` was asked about every piece, without the white space around it.
pub open spec fn are_asked<F, P: Fn(&str) -> Option<F>>(
    pieces: Seq<Seq<char>>,
    parse: P,
    found: Seq<Option<F>>,
) -> bool {
    &&& found.len() == pieces.len()
    &&& forall|i: int|
        0 <= i < found.len() ==> was_asked(
            crate::text::trim_spec(pieces[i]),
            parse,
            #[trigger] found[i],
        )
}

/// What was found is kept, in order: `places` are the places where something was found.
pub open spec fn are_kept<F>(found: Seq<Option<F>>, places: Seq<int>, kept: Seq<F>) -> bool {
    &&& places.len() == kept.len()
    &&& forall|k: int|
        0 <= k < places.len() ==> 0 <= #[trigger] places[k] < found.len() && found[places[k]]
            == Some(kept[k])
    &&& forall|j: int, k: int| 0 <= j < k < places.len() ==> places[j] < places[k]
    &&& forall|i: int| 0 <= i < found.len() && #[trigger] found[i] is Some ==> places.contains(i)
}

/// The numbers of the bounds of a map are those that stand between its commas, in order:
/// `parse` was asked about every piece, and what it gave is kept.
pub proof fn law_bounds_are_read_in_order<F, P: Fn(&str) -> Option<F>>(
    q: &WmsQuery,
    parse: P,
    bbox: Vec<F>,
)
    requires
        call_ensures(bbox_numbers::<F, P>, (q, parse), bbox),
    ensures
        exists|pieces: Seq<Seq<char>>, found: Seq<Option<F>>, places: Seq<int>|
            #![trigger are_asked(pieces, parse, found), are_kept(found, places, bbox@)]
            {
                &&& crate::text::joined_by(pieces, ',') == (match q.bbox {
                    Some(t) => t@,
                    None => Seq::empty(),
                })
                &&& forall|i: int| 0 <= i < pieces.len() ==> !(#[trigger] pieces[i]).contains(',')
                &&& are_asked(pieces, parse, found)
                &&& are_kept(found, places, bbox@)
            },
{
    reveal_strlit("");
    let text = param_or(q.bbox, ""@);
    assert(text == (match q.bbox {
        Some(t) => t@,
        None => Seq::empty(),
    })) by {
        assert(""@ =~= Seq::<char>::empty());
    }
    let pieces = crate::text::split_spec(text, ',');
    crate::text::lemma_split_joins(text, ',');
    let found = choose|found: Seq<Option<F>>| #[trigger]
        all_parsed(bbox_pieces(*q), parse, found) && bbox@ == all_found(found);
    let places = lemma_all_found(found);
    assert forall|i: int| 0 <= i < found.len() implies was_asked(
        crate::text::trim_spec(pieces[i]),
        parse,
        #[trigger] found[i],
    ) by {
        assert(is_parsed(bbox_pieces(*q)[i], parse, found[i]));
    }
    assert(are_asked(pieces, parse, found));
    assert(are_kept(found, places, bbox@));
}

proof fn lemma_transport(method: Seq<char>, url: Seq<char>)
    ensures
        transport(method, url) == seq![
            tag("DCPType"@),
            tag("HTTP"@),
            tag(method),
            xml::XmlItem::Empty(
                "OnlineResource"@,
                seq![("xmlns:xlink"@, "http://www.w3.org/1999/xlink"@), ("xlink:href"@, url)],
            ),
            xml::XmlItem::End(method),
            xml::XmlItem::End("HTTP"@),
            xml::XmlItem::End("DCPType"@),
        ],
{
    assert(transport(method, url) =~= seq![
        tag("DCPType"@),
        tag("HTTP"@),
        tag(method),
        xml::XmlItem::Empty(
            "OnlineResource"@,
            seq![("xmlns:xlink"@, "http://www.w3.org/1999/xlink"@), ("xlink:href"@, url)],
        ),
        xml::XmlItem::End(method),
        xml::XmlItem::End("HTTP"@),
        xml::XmlItem::End("DCPType"@),
    ]);
}

/// A way to send a request, as it is written.
pub open spec fn written_way(method: Seq<char>, url: Seq<char>) -> Seq<xml::XmlItem> {
    seq![
        tag("DCPType"@),
        tag("HTTP"@),
        tag(method),
        xml::XmlItem::Empty(
            "OnlineResource"@,
            seq![("xmlns:xlink"@, "http://www.w3.org/1999/xlink"@), ("xlink:href"@, url)],
        ),
        xml::XmlItem::End(method),
        xml::XmlItem::End("HTTP"@),
        xml::XmlItem::End("DCPType"@),
    ]
}

/// What the map service tells of itself before its layers, as it is written.
pub open spec fn written_wms_head(url: Seq<char>) -> Seq<xml::XmlItem> {
    seq![
        xml::XmlItem::Start(
            "WMS_Capabilities"@,
            seq![
                ("version"@, "1.3.0"@),
                ("xmlns"@, "http://www.opengis.net/wms"@),
                ("xmlns:sld"@, "http://www.opengis.net/sld"@),
                ("xmlns:xsi"@, "http://www.w3.org/2001/XMLSchema-instance"@),
                ("xmlns:xlink"@, "http://www.w3.org/1999/xlink"@),
            ],
        ),
    ] + (seq![tag("Service"@)] + entry("Name"@, "WMS"@) + entry(
        "Title"@,
        "SimpleGeoServer WMS"@,
    ) + seq![
        xml::XmlItem::Empty(
            "OnlineResource"@,
            seq![("xmlns:xlink"@, "http://www.w3.org/1999/xlink"@), ("xlink:href"@, url)],
        ),
        xml::XmlItem::End("Service"@),
    ]) + seq![tag("Capability"@)] + (seq![tag("Request"@), tag("GetCapabilities"@)] + entry(
        "Format"@,
        "application/vnd.ogc.wms_xml"@,
    ) + written_way("Get"@, url) + seq![
        xml::XmlItem::End("GetCapabilities"@),
        tag("GetMap"@),
    ] + entry("Format"@, "image/png"@) + written_way("Get"@, url) + written_way("Post"@, url)
        + seq![xml::XmlItem::End("GetMap"@), xml::XmlItem::End("Request"@)]) + (seq![
        tag("Exception"@),
    ] + entry("Format"@, "XML"@) + entry("Format"@, "INIMAGE"@) + entry("Format"@, "BLANK"@)
        + seq![xml::XmlItem::End("Exception"@)]) + (seq![tag("Layer"@)] + entry(
        "Title"@,
        "SimpleGeoServer WMS"@,
    ) + entry("CRS"@, "EPSG:3857"@))
}

proof fn lemma_wms_service(url: Seq<char>)
    ensures
        wms_service(url) == seq![tag("Service"@)] + entry("Name"@, "WMS"@) + entry(
            "Title"@,
            "SimpleGeoServer WMS"@,
        ) + seq![
            xml::XmlItem::Empty(
                "OnlineResource"@,
                seq![("xmlns:xlink"@, "http://www.w3.org/1999/xlink"@), ("xlink:href"@, url)],
            ),
            xml::XmlItem::End("Service"@),
        ],
{
    lemma_entry("Name"@, "WMS"@);
    lemma_entry("Title"@, "SimpleGeoServer WMS"@);
    assert(wms_service(url) =~= seq![tag("Service"@)] + entry("Name"@, "WMS"@) + entry(
        "Title"@,
        "SimpleGeoServer WMS"@,
    ) + seq![
        xml::XmlItem::Empty(
            "OnlineResource"@,
            seq![("xmlns:xlink"@, "http://www.w3.org/1999/xlink"@), ("xlink:href"@, url)],
        ),
        xml::XmlItem::End("Service"@),
    ]);
}

proof fn lemma_wms_requests(url: Seq<char>)
    ensures
        wms_requests(url) == seq![tag("Request"@), tag("GetCapabilities"@)] + entry(
            "Format"@,
            "application/vnd.ogc.wms_xml"@,
        ) + written_way("Get"@, url) + seq![
            xml::XmlItem::End("GetCapabilities"@),
            tag("GetMap"@),
        ] + entry("Format"@, "image/png"@) + written_way("Get"@, url) + written_way("Post"@, url)
            + seq![xml::XmlItem::End("GetMap"@), xml::XmlItem::End("Request"@)],
{
    lemma_entry("Format"@, "application/vnd.ogc.wms_xml"@);
    lemma_entry("Format"@, "image/png"@);
    lemma_transport("Get"@, url);
    lemma_transport("Post"@, url);
    let f = entry("Format"@, "application/vnd.ogc.wms_xml"@);
    let g = entry("Format"@, "image/png"@);
    let (get, post) = (written_way("Get"@, url), written_way("Post"@, url));
    let first = plain("GetCapabilities"@, f + get);
    let second = plain("GetMap"@, g + get + post);
    assert(first =~= seq![tag("GetCapabilities"@)] + f + get + seq![
        xml::XmlItem::End("GetCapabilities"@),
    ]);
    assert(second =~= seq![tag("GetMap"@)] + g + get + post + seq![xml::XmlItem::End("GetMap"@)]);
    assert(wms_requests(url) =~= seq![tag("Request"@)] + first + second + seq![
        xml::XmlItem::End("Request"@),
    ]);
    assert(wms_requests(url) =~= seq![tag("Request"@), tag("GetCapabilities"@)] + f + get + seq![
        xml::XmlItem::End("GetCapabilities"@),
        tag("GetMap"@),
    ] + g + get + post + seq![xml::XmlItem::End("GetMap"@), xml::XmlItem::End("Request"@)]);
}

proof fn lemma_wms_exceptions()
    ensures
        wms_exceptions() == seq![tag("Exception"@)] + entry("Format"@, "XML"@) + entry(
            "Format"@,
            "INIMAGE"@,
        ) + entry("Format"@, "BLANK"@) + seq![xml::XmlItem::End("Exception"@)],
{
    lemma_entry("Format"@, "XML"@);
    lemma_entry("Format"@, "INIMAGE"@);
    lemma_entry("Format"@, "BLANK"@);
    assert(wms_exceptions() =~= seq![tag("Exception"@)] + entry("Format"@, "XML"@) + entry(
        "Format"@,
        "INIMAGE"@,
    ) + entry("Format"@, "BLANK"@) + seq![xml::XmlItem::End("Exception"@)]);
}

proof fn lemma_wms_whole(url: Seq<char>, bounds: Option<GeoBox>, layers: Seq<LayerBounds>)
    ensures
        wms_capabilities(url, bounds, layers) == written_wms_head(url) + (wms_bounds(bounds)
            + wms_layers(layers)) + seq![
            xml::XmlItem::End("Layer"@),
            xml::XmlItem::End("Capability"@),
            xml::XmlItem::End("WMS_Capabilities"@),
        ],
{
    lemma_wms_service(url);
    lemma_wms_requests(url);
    lemma_wms_exceptions();
    lemma_entry("Title"@, "SimpleGeoServer WMS"@);
    lemma_entry("CRS"@, "EPSG:3857"@);
    let (t, c) = (entry("Title"@, "SimpleGeoServer WMS"@), entry("CRS"@, "EPSG:3857"@));
    let (b, l) = (wms_bounds(bounds), wms_layers(layers));
    let x = seq![tag("Layer"@)] + t + c;
    let (s, q, e) = (wms_service(url), wms_requests(url), wms_exceptions());
    let first = seq![
        xml::XmlItem::Start(
            "WMS_Capabilities"@,
            seq![
                ("version"@, "1.3.0"@),
                ("xmlns"@, "http://www.opengis.net/wms"@),
                ("xmlns:sld"@, "http://www.opengis.net/sld"@),
                ("xmlns:xsi"@, "http://www.w3.org/2001/XMLSchema-instance"@),
                ("xmlns:xlink"@, "http://www.w3.org/1999/xlink"@),
            ],
        ),
    ];
    let ends = (
        xml::XmlItem::End("Layer"@),
        xml::XmlItem::End("Capability"@),
        xml::XmlItem::End("WMS_Capabilities"@),
    );
    let outer = plain("Layer"@, t + c + b + l);
    assert(outer =~= x + (b + l) + seq![ends.0]);
    lemma_nested_parts(first, s, seq![tag("Capability"@)], q + e, x, b + l, ends);
    let head = first + s + seq![tag("Capability"@)];
    assert(head + (q + e) =~= head + q + e);
    assert(written_wms_head(url) == head + q + e + x);
}

/// The document of the map service tells its name, its address, its requests and the formats
/// of its answers, and then the bounds, where they are known, and the layers, one behind the
/// other.
pub proof fn law_wms_tells_of_itself(
    base: &str,
    bounds: &Option<GeoBox>,
    layers: &Vec<LayerBounds>,
    doc: String,
)
    requires
        call_ensures(wms_document, (base, bounds, layers), doc),
    ensures
        doc@ == xml::xml_text(
            written_wms_head(base@ + "/ogc/wms"@) + ((match *bounds {
                Some(b) => written_box(b.west@, b.east@, b.south@, b.north@),
                None => Seq::empty(),
            }) + Seq::new(layers@.len(), |i: int| written_wms_layer(layers@[i])).flatten())
                + seq![
                xml::XmlItem::End("Layer"@),
                xml::XmlItem::End("Capability"@),
                xml::XmlItem::End("WMS_Capabilities"@),
            ],
        ),
{
    lemma_wms_layers(layers@);
    lemma_wms_whole(base@ + "/ogc/wms"@, *bounds, layers@);
    match *bounds {
        Some(b) => lemma_written_box(b.west@, b.east@, b.south@, b.north@),
        None => {},
    }
}

/// What the tile matrix service tells of itself before its layers, as it is written.
pub open spec fn written_wmts_head() -> Seq<xml::XmlItem> {
    seq![
        xml::XmlItem::Start(
            "Capabilities"@,
            seq![
                ("xmlns"@, "http://www.opengis.net/wmts/1.0"@),
                ("xmlns:ows"@, "http://www.opengis.net/ows/1.1"@),
                ("xmlns:xlink"@, "http://www.w3.org/1999/xlink"@),
                ("xmlns:xsi"@, "http://www.w3.org/2001/XMLSchema-instance"@),
                ("version"@, "1.0.0"@),
            ],
        ),
        tag("ows:ServiceIdentification"@),
    ] + entry("ows:Title"@, "SimpleGeoServer WMTS"@) + entry("ows:ServiceType"@, "OGC WMTS"@)
        + entry("ows:ServiceTypeVersion"@, "1.0.0"@) + seq![
        xml::XmlItem::End("ows:ServiceIdentification"@),
        tag("ows:ServiceProvider"@),
    ] + entry("ows:ProviderName"@, "SimpleGeoServer"@) + seq![
        xml::XmlItem::End("ows:ServiceProvider"@),
        tag("Contents"@),
    ]
}

/// The document of the tile matrix service starts with what it tells of itself.
pub proof fn law_wmts_tells_of_itself(
    base: &str,
    layers: &Vec<LayerBounds>,
    scales: &Vec<String>,
    corner: &str,
    doc: String,
)
    requires
        call_ensures(wmts_document, (base, layers, scales, corner), doc),
    ensures
        exists|rest: Seq<xml::XmlItem>|
            doc@ == #[trigger] xml::xml_text(written_wmts_head() + rest),
{
    let url = base@ + "/ogc/wmts/1.0.0"@;
    let all = wmts_parts(url, layers@, crate::text::texts(scales@), corner@);
    lemma_entry("ows:Title"@, "SimpleGeoServer WMTS"@);
    lemma_entry("ows:ServiceType"@, "OGC WMTS"@);
    lemma_entry("ows:ServiceTypeVersion"@, "1.0.0"@);
    lemma_entry("ows:ProviderName"@, "SimpleGeoServer"@);
    let head = written_wmts_head();
    let (a, b, c, d) = (
        entry("ows:Title"@, "SimpleGeoServer WMTS"@),
        entry("ows:ServiceType"@, "OGC WMTS"@),
        entry("ows:ServiceTypeVersion"@, "1.0.0"@),
        entry("ows:ProviderName"@, "SimpleGeoServer"@),
    );
    let about = plain("ows:ServiceIdentification"@, a + b + c);
    let provider = plain("ows:ServiceProvider"@, d);
    let inner = wmts_layers(url, layers@) + plain(
        "TileMatrixSet"@,
        xml::text_element("ows:Identifier"@, "GoogleMapsCompatible"@) + xml::text_element(
            "ows:SupportedCRS"@,
            "EPSG:3857"@,
        ) + tile_matrices(ZOOM_LEVELS as nat, crate::text::texts(scales@), corner@),
    );
    let rest = inner + seq![xml::XmlItem::End("Contents"@), xml::XmlItem::End("Capabilities"@)];
    assert(head =~= seq![head[0]] + about + provider + seq![tag("Contents"@)]);
    assert(all =~= seq![all[0]] + (about + provider + plain("Contents"@, inner)) + seq![
        xml::XmlItem::End("Capabilities"@),
    ]);
    assert(all[0] == head[0]);
    assert(all =~= head + rest);
}

/// A request that names another service is refused, and so is one for something else than the
/// description or a map; capital and small letters are the same.
pub proof fn law_requests_of_the_map_service(q: &WmsQuery, r: Result<WmsRequest, OwsError>)
    requires
        call_ensures(wms_handler, (q,), r),
    ensures
        r is Ok ==> q.service is Some && crate::text::raised(q.service->Some_0@) == "WMS"@
            && q.request is Some,
        q.service is Some && crate::text::raised(q.service->Some_0@) == "WMS"@ && q.request is Some
            ==> {
            let request = crate::text::raised(q.request->Some_0@);
            &&& r is Ok && r->Ok_0 is GetMap <==> request == "GETMAP"@
            &&& r is Ok && r->Ok_0 is GetCapabilities <==> request == "GETCAPABILITIES"@
            &&& r is Err ==> r->Err_0.code@ == "OperationNotSupported"@ && r->Err_0.text@
                == "Unknown request: "@ + q.request->Some_0@
        },
        q.service is None || crate::text::raised(q.service->Some_0@) != "WMS"@ ==> r is Err
            && r->Err_0.code@ == "InvalidParameterValue"@ && r->Err_0.text@
            == "SERVICE must be 'WMS'"@,
{
    reveal_strlit("");
    reveal_strlit("WMS");
    reveal_strlit("GETMAP");
    reveal_strlit("GETCAPABILITIES");
    let none = ""@;
    assert(none.len() == 0);
    assert(crate::text::all_ascii(none));
    assert(crate::text::raised(none) =~= none);
    assert("GETMAP"@.len() != "GETCAPABILITIES"@.len());
}

/// A file is told to be a raster or vector data by its extension in small letters; any other
/// file is refused, and so is one without a valid path. Tiles are served of rasters only.
pub proof fn law_what_is_told_of_files(
    valid: bool,
    name: &str,
    told: Result<&'static str, HttpError>,
    service: &str,
    layer: Result<(), HttpError>,
)
    requires
        call_ensures(file_info, (valid, name), told),
        call_ensures(tile_layer, (valid, name, service), layer),
    ensures
        ({
            let ext = crate::text::lowered(crate::paths::extension(name@));
            let raster = ext == "tif"@ || ext == "tiff"@;
            let vector = ext == "geojson"@ || ext == "json"@ || ext == "shp"@ || ext == "wkt"@
                || ext == "kml"@ || ext == "kmz"@;
            &&& !valid ==> told is Err && told->Err_0.status == 404 && layer is Err
                && layer->Err_0.status == 404
            &&& valid && raster ==> told is Ok && told->Ok_0@ == "raster"@ && layer is Ok
            &&& valid && !raster && vector ==> told is Ok && told->Ok_0@ == "vector"@
            &&& valid && !raster && !vector ==> told is Err && told->Err_0.status == 415
            &&& valid && !raster ==> layer is Err && layer->Err_0.status == 415
        }),
{
}

/// A raster of three bands or more is shown with its first three, any other with its first.
/// The address of the server is that of the host that the request names.
pub proof fn law_bands_and_addresses(
    bands: usize,
    shown: Vec<u32>,
    host: Option<&str>,
    url: String,
)
    requires
        call_ensures(get_bands, (bands,), shown),
        call_ensures(base_url, (host,), url),
    ensures
        bands < 3 ==> shown@.len() == 1 && shown@[0] == 1,
        bands >= 3 ==> shown@.len() == 3 && shown@[0] == 1 && shown@[1] == 2 && shown@[2] == 3,
        host is Some ==> url@ == "http://"@ + host->Some_0@,
        host is None ==> url@ == "http://"@ + "localhost:8080"@,
{
}

/// An error of the services is the one with a code and a text where it has both, and its
/// document is that of both.
pub proof fn law_errors_have_code_and_text(
    e: OwsError,
    code: &str,
    text: &str,
    doc: String,
    other: String,
)
    requires
        call_ensures(OwsError::new, (code, text), e),
        call_ensures(OwsError::document, (&e,), doc),
        call_ensures(ows_exception_xml, (code, text), other),
    ensures
        e.code@ == code@ && e.text@ == text@,
        doc@ == other@,
{
}

} // verus!
