//! Tiles of vector data.

use crate::json::{json_at, json_text, member_at, text_value};
use crate::reproject;
use crate::reproject::{parse_known_crs, CrsName, KnownCrs};
use crate::text::concat2;
use crate::tile::raster_cache::MAX_ZOOM;
use crate::tile::raster_load::is_geographic;
use crate::tile::types::TileInfo;
use crate::tile::vector_check::{
    brackets_are_shallow, document_fault, find_fault, has_shallow_brackets,
};
use crate::xml::{read_pieces, xml_pieces, XmlToken};
use geojson::{Feature, FeatureCollection, GeoJson};
use serde_json::Value;
use vstd::prelude::*;

verus! {

/// A text that may be missing, as a value.
pub open spec fn str_value(t: Option<&str>) -> Option<Seq<char>> {
    match t {
        Some(s) => Some(s@),
        None => None,
    }
}

/// The system that the name in a file stands for, or the error where it is unknown. A
/// file without a name has coordinates in degrees.
pub fn resolve_geojson_source_crs(name: Option<&str>) -> (r: Result<KnownCrs, String>)
    ensures
        match named_system(str_value(name)) {
            Ok(crs) => r == Ok::<KnownCrs, String>(crs),
            Err(e) => r is Err && r->Err_0@ == e,
        },
{
    match name {
        Some(n) => match parse_known_crs(n) {
            Some(crs) => Ok(crs),
            None => Err(concat2("Unsupported GeoJSON CRS: ", n)),
        },
        None => Ok(KnownCrs::Wgs84),
    }
}

/// Brings the geometry of a feature into a tile. `geometry` is what could be read of it,
/// `convert` gives it in degrees, and `inside` tells whether the tile meets it. A feature
/// without a geometry, or one outside of the tile, is left out.
pub fn transform_geojson_feature<G, C: Fn(&G) -> Option<G>, I: Fn(&G) -> bool>(
    geometry: Option<Result<G, String>>,
    convert: C,
    inside: I,
) -> (r: Result<Option<G>, String>)
    requires
        forall|g: &G| convert.requires((g,)),
        forall|g: &G| inside.requires((g,)),
    ensures
        match geometry {
            None => r == Ok::<Option<G>, String>(None),
            Some(Err(e)) => r is Err && r->Err_0@ == "Failed to convert GeoJSON geometry: "@ + e@,
            Some(Ok(g)) => exists|converted: Option<G>| #[trigger]
                convert.ensures((&g,), converted) && match converted {
                    None => r is Err && r->Err_0@
                        == "Failed to reproject GeoJSON geometry to WGS84"@,
                    Some(h) => exists|meets: bool| #[trigger]
                        inside.ensures((&h,), meets) && r == Ok::<Option<G>, String>(
                            if meets {
                                Some(h)
                            } else {
                                None
                            },
                        ),
                },
        },
{
    match geometry {
        None => Ok(None),
        Some(Err(e)) => Err(concat2("Failed to convert GeoJSON geometry: ", e.as_str())),
        Some(Ok(g)) => match convert(&g) {
            None => Err("Failed to reproject GeoJSON geometry to WGS84".to_owned()),
            Some(h) => if inside(&h) {
                Ok(Some(h))
            } else {
                Ok(None)
            },
        },
    }
}

fn copied(text: &Option<String>) -> (r: Option<String>)
    ensures
        crate::text::text_of(r) == crate::text::text_of(*text),
{
    match text {
        Some(t) => Some(t.as_str().to_owned()),
        None => None,
    }
}

// ─── Documents of features ───

/// A feature of a document: its geometry, its box, and everything else, as JSON. A geometry
/// that stands alone has nothing else.
pub struct GeoFeature {
    pub geometry: Option<String>,
    /// The box around the geometry that the document tells.
    pub bbox: Option<String>,
    /// The feature without its geometry and its box: its id, its properties and its other
    /// members.
    pub rest: Option<String>,
}

/// A feature of a document, as a value.
pub struct FeatureValue {
    pub geometry: Option<Seq<char>>,
    pub bbox: Option<Seq<char>>,
    pub rest: Option<Seq<char>>,
}

impl View for GeoFeature {
    type V = FeatureValue;

    open spec fn view(&self) -> FeatureValue {
        FeatureValue {
            geometry: crate::text::text_of(self.geometry),
            bbox: crate::text::text_of(self.bbox),
            rest: crate::text::text_of(self.rest),
        }
    }
}

/// Features, as values.
pub open spec fn feature_values(features: Seq<GeoFeature>) -> Seq<FeatureValue> {
    features.map_values(|f: GeoFeature| f@)
}

/// A document of features.
pub enum GeoDocument {
    /// A list of features, and the other members of the document, as a text.
    Collection(Option<String>, Vec<GeoFeature>),
    Single(GeoFeature),
    /// A geometry that stands alone.
    Bare(String),
}

/// A document of features, as a value.
pub enum DocumentValue {
    Collection(Option<Seq<char>>, Seq<FeatureValue>),
    Single(FeatureValue),
    Bare(Seq<char>),
}

impl View for GeoDocument {
    type V = DocumentValue;

    open spec fn view(&self) -> DocumentValue {
        match *self {
            GeoDocument::Collection(members, features) => DocumentValue::Collection(
                crate::text::text_of(members),
                feature_values(features@),
            ),
            GeoDocument::Single(feature) => DocumentValue::Single(feature@),
            GeoDocument::Bare(geometry) => DocumentValue::Bare(geometry@),
        }
    }
}

/// A document that was read, or the text of the error.
pub open spec fn document_value(r: Result<GeoDocument, String>) -> Result<
    DocumentValue,
    Seq<char>,
> {
    match r {
        Ok(document) => Ok(document@),
        Err(e) => Err(e@),
    }
}

/// What `geojson::GeoJson` reads from a text: the document, or the text of the error.
pub uninterp spec fn geojson_document(text: Seq<char>) -> Result<DocumentValue, Seq<char>>;

/// Calls `geojson::GeoJson::from_str`, and writes the geometry of each feature, its box,
/// what is left of the feature without both, and the members of a collection that the
/// format does not name as the crate and `serde_json` write them. The result is named
/// `geojson_document`.
#[verifier::external_body]
fn read_geojson(text: &str) -> (r: Result<GeoDocument, String>)
    ensures
        document_value(r) == geojson_document(text@),
{
    let part = |mut f: Feature| GeoFeature {
        geometry: f.geometry.take().map(|g| g.to_string()),
        bbox: f.bbox.take().map(|b| Value::from(b).to_string()),
        rest: Some(f.to_string()),
    };
    match text.parse() {
        Ok(GeoJson::FeatureCollection(c)) => Ok(GeoDocument::Collection(
            c.foreign_members.map(|m| Value::Object(m).to_string()),
            c.features.into_iter().map(part).collect(),
        )),
        Ok(GeoJson::Feature(f)) => Ok(GeoDocument::Single(part(f))),
        Ok(GeoJson::Geometry(g)) => Ok(GeoDocument::Bare(g.to_string())),
        Err(e) => Err(e.to_string()),
    }
}

/// The name of the reference system among the members of a document: the text
/// `crs.properties.name`.
pub open spec fn crs_name_in(members: Option<Seq<char>>) -> Option<Seq<char>> {
    json_text(json_at(json_at(json_at(members, "crs"@), "properties"@), "name"@))
}

/// The name of the reference system among the members of a document, given as a text.
pub fn extract_geojson_crs_name(members: Option<String>) -> (name: Option<String>)
    ensures
        crate::text::text_of(name) == crs_name_in(crate::text::text_of(members)),
{
    text_value(member_at(member_at(member_at(members, "crs"), "properties"), "name"))
}

/// What became of a feature, as a value.
pub type Outcome = Result<Option<FeatureValue>, Seq<char>>;

/// What a feature becomes in a tile: `place` gives its geometry there, where it has one. A
/// feature without a geometry is left out. The box of the feature is dropped, as it is that
/// of the former geometry; everything else of the feature stays.
pub open spec fn is_placed<C: Fn(&str, KnownCrs) -> Result<Option<String>, String>>(
    feature: FeatureValue,
    crs: KnownCrs,
    place: C,
    outcome: Outcome,
) -> bool {
    match feature.geometry {
        None => outcome == Ok::<Option<FeatureValue>, Seq<char>>(None),
        Some(g) => exists|text: &str, r: Result<Option<String>, String>| #[trigger]
            place.ensures((text, crs), r) && text@ == g && outcome == placed_value(feature, r),
    }
}

/// A feature with its geometry in a tile.
pub open spec fn placed_value(feature: FeatureValue, r: Result<Option<String>, String>) -> Outcome {
    match r {
        Ok(Some(geometry)) => Ok(
            Some(FeatureValue { geometry: Some(geometry@), bbox: None, rest: feature.rest }),
        ),
        Ok(None) => Ok(None),
        Err(e) => Err(e@),
    }
}

/// What became of features, in order, up to the first error.
pub open spec fn are_placed<C: Fn(&str, KnownCrs) -> Result<Option<String>, String>>(
    features: Seq<FeatureValue>,
    crs: KnownCrs,
    place: C,
    outcomes: Seq<Outcome>,
) -> bool {
    &&& outcomes.len() <= features.len()
    &&& forall|i: int|
        0 <= i < outcomes.len() ==> is_placed(features[i], crs, place, #[trigger] outcomes[i])
    &&& outcomes.len() < features.len() ==> outcomes.len() > 0 && outcomes.last() is Err
}

/// The features that are left, in order, or the first error.
pub open spec fn gathered(outcomes: Seq<Outcome>) -> Result<Seq<FeatureValue>, Seq<char>>
    decreases outcomes.len(),
{
    if outcomes.len() == 0 {
        Ok(Seq::empty())
    } else {
        match gathered(outcomes.drop_last()) {
            Ok(before) => match outcomes.last() {
                Ok(Some(feature)) => Ok(before.push(feature)),
                Ok(None) => Ok(before),
                Err(e) => Err(e),
            },
            Err(e) => Err(e),
        }
    }
}

/// Features or an error, as a value.
pub open spec fn features_value(r: Result<Vec<GeoFeature>, String>) -> Result<
    Seq<FeatureValue>,
    Seq<char>,
> {
    match r {
        Ok(features) => Ok(feature_values(features@)),
        Err(e) => Err(e@),
    }
}

/// The features of a tile are those of a document that `place` keeps, in the order of the
/// document, each with its geometry in the tile, without its box and everything else as it
/// was, or the first error of `place`.
pub open spec fn is_tile_of<C: Fn(&str, KnownCrs) -> Result<Option<String>, String>>(
    features: Seq<FeatureValue>,
    crs: KnownCrs,
    place: C,
    r: Result<Vec<GeoFeature>, String>,
) -> bool {
    exists|outcomes: Seq<Outcome>| #[trigger]
        are_placed(features, crs, place, outcomes) && features_value(r) == gathered(outcomes)
}

/// Collects the features of a tile from those of a document in a reference system. `place`
/// gives a geometry in the tile, or nothing where the geometry is outside of it.
pub fn collect_geojson_features<C: Fn(&str, KnownCrs) -> Result<Option<String>, String>>(
    features: &Vec<GeoFeature>,
    crs: KnownCrs,
    place: C,
) -> (r: Result<Vec<GeoFeature>, String>)
    requires
        forall|g: &str, k: KnownCrs| place.requires((g, k)),
    ensures
        is_tile_of(feature_values(features@), crs, place, r),
{
    let ghost all = feature_values(features@);
    let ghost mut outcomes: Seq<Outcome> = Seq::empty();
    let mut kept: Vec<GeoFeature> = Vec::new();
    assert(feature_values(kept@) =~= Seq::<FeatureValue>::empty());
    for i in 0..features.len()
        invariant
            forall|g: &str, k: KnownCrs| place.requires((g, k)),
            all == feature_values(features@),
            outcomes.len() == i,
            forall|k: int|
                0 <= k < i ==> is_placed(all[k], crs, place, #[trigger] outcomes[k]),
            gathered(outcomes) == Ok::<Seq<FeatureValue>, Seq<char>>(feature_values(kept@)),
    {
        let ghost before = outcomes;
        match &features[i].geometry {
            Some(g) => {
                let placed: Result<Option<String>, String> = place(g.as_str(), crs);
                proof {
                    outcomes = outcomes.push(placed_value(all[i as int], placed));
                    assert(outcomes.drop_last() =~= before);
                    assert(is_placed(all[i as int], crs, place, outcomes[i as int]));
                }
                match placed {
                    Ok(Some(geometry)) => {
                        let rest: Option<String> = copied(&features[i].rest);
                        let ghost old_kept = kept@;
                        kept.push(GeoFeature { geometry: Some(geometry), bbox: None, rest });
                        assert(feature_values(kept@) =~= feature_values(old_kept).push(
                            FeatureValue {
                                geometry: Some(geometry@),
                                bbox: None,
                                rest: all[i as int].rest,
                            },
                        ));
                    },
                    Ok(None) => {},
                    Err(e) => {
                        assert(are_placed(all, crs, place, outcomes));
                        return Err(e);
                    },
                }
            },
            None => {
                proof {
                    outcomes = outcomes.push(Ok(None));
                    assert(outcomes.drop_last() =~= before);
                }
            },
        }
    }
    assert(are_placed(all, crs, place, outcomes));
    Ok(kept)
}

/// The features of a document.
pub open spec fn features_in(document: DocumentValue) -> Seq<FeatureValue> {
    match document {
        DocumentValue::Collection(_, features) => features,
        DocumentValue::Single(feature) => seq![feature],
        DocumentValue::Bare(geometry) => seq![
            FeatureValue { geometry: Some(geometry), bbox: None, rest: None },
        ],
    }
}

/// The members among which a document names its reference system.
pub open spec fn members_in(document: DocumentValue) -> Option<Seq<char>> {
    match document {
        DocumentValue::Collection(members, _) => members,
        DocumentValue::Single(feature) => feature.rest,
        DocumentValue::Bare(_) => None,
    }
}

/// The reference system that a name stands for, or the error where it is unknown. Without
/// a name, coordinates are degrees.
pub open spec fn named_system(name: Option<Seq<char>>) -> Result<KnownCrs, Seq<char>> {
    match name {
        None => Ok(KnownCrs::Wgs84),
        Some(n) => match reproject::crs_meaning(n) {
            CrsName::Known(known) => Ok(known),
            CrsName::Code(code) => if reproject::crs_definition(code) is Some {
                Ok(KnownCrs::Epsg(code))
            } else {
                Err("Unsupported GeoJSON CRS: "@ + n)
            },
            CrsName::Unknown => Err("Unsupported GeoJSON CRS: "@ + n),
        },
    }
}

/// The features of a document in a tile, told the document. The document is in the
/// reference system that it names.
pub fn document_tile<C: Fn(&str, KnownCrs) -> Result<Option<String>, String>>(
    document: GeoDocument,
    place: C,
) -> (r: Result<Vec<GeoFeature>, String>)
    requires
        forall|g: &str, k: KnownCrs| place.requires((g, k)),
    ensures
        match named_system(crs_name_in(members_in(document@))) {
            Ok(crs) => is_tile_of(features_in(document@), crs, place, r),
            Err(e) => r is Err && r->Err_0@ == e,
        },
{
    let ghost value = document@;
    let mut features: Vec<GeoFeature> = Vec::new();
    let mut members: Option<String> = None;
    match document {
        GeoDocument::Collection(m, f) => {
            features = f;
            members = m;
        },
        GeoDocument::Single(feature) => {
            members = copied(&feature.rest);
            features.push(feature);
        },
        GeoDocument::Bare(geometry) => {
            features.push(GeoFeature { geometry: Some(geometry), bbox: None, rest: None });
        },
    }
    assert(feature_values(features@) =~= features_in(value));
    let name: Option<String> = extract_geojson_crs_name(members);
    let system: Result<KnownCrs, String> = match &name {
        Some(n) => resolve_geojson_source_crs(Some(n.as_str())),
        None => resolve_geojson_source_crs(None),
    };
    match system {
        Ok(crs) => collect_geojson_features(&features, crs, place),
        Err(e) => Err(e),
    }
}

/// The features of a GeoJSON text in a tile: those that `place` keeps, in the order of the
/// text, each with the geometry that `place` gives, without its box and everything else
/// unchanged.
pub fn get_vector_tile_geojson<C: Fn(&str, KnownCrs) -> Result<Option<String>, String>>(
    text: &str,
    place: C,
) -> (r: Result<Vec<GeoFeature>, String>)
    requires
        forall|g: &str, k: KnownCrs| place.requires((g, k)),
    ensures
        match geojson_document(text@) {
            Err(e) => r is Err && r->Err_0@ == "Invalid GeoJSON: "@ + e,
            Ok(document) => match named_system(crs_name_in(members_in(document))) {
                Ok(crs) => is_tile_of(features_in(document), crs, place, r),
                Err(e) => r is Err && r->Err_0@ == e,
            },
        },
{
    match read_geojson(text) {
        Ok(document) => document_tile(document, place),
        Err(e) => Err(concat2("Invalid GeoJSON: ", e.as_str())),
    }
}

/// A text or an error, as a value.
pub open spec fn text_result(r: Result<String, String>) -> Result<Seq<char>, Seq<char>> {
    match r {
        Ok(text) => Ok(text@),
        Err(e) => Err(e@),
    }
}

/// What `geojson::FeatureCollection` writes for features, or the text of the error where a
/// part of a feature is no text of the crate.
pub uninterp spec fn collection_text(features: Seq<FeatureValue>) -> Result<Seq<char>, Seq<char>>;

/// Reads the parts of each feature by `geojson::Geometry::from_str`, `serde_json::from_str`
/// and `geojson::Feature::from_str`, and writes all features as a
/// `geojson::FeatureCollection`.
/// The result is named `collection_text`.
#[verifier::external_body]
fn write_collection(features: &Vec<GeoFeature>) -> (r: Result<String, String>)
    ensures
        text_result(r) == collection_text(feature_values(features@)),
{
    let one = |f: &GeoFeature| -> geojson::Result<Feature> {
        let rest: Option<Feature> = f.rest.as_deref().map(str::parse).transpose()?;
        let geometry = f.geometry.as_deref().map(str::parse).transpose()?;
        let bbox = f.bbox.as_deref().map(serde_json::from_str).transpose()?;
        Ok(Feature { geometry, bbox, ..rest.unwrap_or_default() })
    };
    match features.iter().map(one).collect() {
        Ok(features) => Ok(FeatureCollection { features, ..Default::default() }.to_string()),
        Err(e) => Err(geojson::Error::to_string(&e)),
    }
}

/// The text of the features of a tile.
pub fn features_text(features: &Vec<GeoFeature>) -> (r: Result<String, String>)
    ensures
        match collection_text(feature_values(features@)) {
            Ok(text) => r is Ok && r->Ok_0@ == text,
            Err(e) => r is Err && r->Err_0@ == "Serialization error: "@ + e,
        },
{
    match write_collection(features) {
        Ok(text) => Ok(text),
        Err(e) => Err(concat2("Serialization error: ", e.as_str())),
    }
}

// ─── Single geometries ───

/// A geometry that was read from a text: its text as GeoJSON, the reason why it has none,
/// or the reason why it cannot be read.
pub open spec fn shape_value(r: Result<Result<String, String>, String>) -> Result<
    Result<Seq<char>, Seq<char>>,
    Seq<char>,
> {
    match r {
        Ok(Ok(geometry)) => Ok(Ok(geometry@)),
        Ok(Err(e)) => Ok(Err(e@)),
        Err(e) => Err(e@),
    }
}

/// What `wkt::Wkt` reads from a text, converted to `geo_types::Geometry` and written by the
/// `geojson` crate; the reason why it cannot be converted; or the reason why the text cannot
/// be read.
pub uninterp spec fn wkt_shape(text: Seq<char>) -> Result<Result<Seq<char>, Seq<char>>, Seq<char>>;

/// Calls `wkt::Wkt::from_str`, converts what it reads by `geo_types::Geometry::try_from`,
/// and writes it as the `geojson` crate does. The result is named `wkt_shape`. The reader
/// calls itself for geometries inside of others, behind a round bracket each, so that a
/// text with many open brackets is left out.
#[verifier::external_body]
fn read_wkt(text: &str) -> (r: Result<Result<String, String>, String>)
    requires
        brackets_are_shallow(text@),
    ensures
        shape_value(r) == wkt_shape(text@),
{
    match text.parse::<wkt::Wkt>() {
        Ok(shape) => Ok(match geo_types::Geometry::try_from(shape) {
            Ok(geometry) => Ok(geojson::Geometry::from(&geometry).to_string()),
            Err(e) => Err(format!("{e:?}")),
        }),
        Err(e) => Err(e.to_string()),
    }
}

/// The features of a tile that a single geometry gives: itself where `inside` holds of it.
pub open spec fn is_single_tile<I: Fn(&str) -> bool>(
    geometry: Seq<char>,
    inside: I,
    features: Seq<FeatureValue>,
) -> bool {
    exists|text: &str, meets: bool| #[trigger]
        inside.ensures((text,), meets) && text@ == geometry && features == (if meets {
            seq![FeatureValue { geometry: Some(geometry), bbox: None, rest: None }]
        } else {
            Seq::empty()
        })
}

/// The features of a tile, told what was read from a text with one geometry.
pub fn shape_tile<I: Fn(&str) -> bool>(
    shape: Result<Result<String, String>, String>,
    inside: I,
) -> (r: Result<Vec<GeoFeature>, String>)
    requires
        forall|g: &str| inside.requires((g,)),
    ensures
        match shape_value(shape) {
            Ok(Ok(geometry)) => r is Ok && is_single_tile(
                geometry,
                inside,
                feature_values(r->Ok_0@),
            ),
            Ok(Err(e)) => r is Err && r->Err_0@ == "Failed to convert WKT geometry: "@ + e,
            Err(e) => r is Err && r->Err_0@ == "Invalid WKT: "@ + e,
        },
{
    match shape {
        Ok(Ok(geometry)) => {
            let mut features: Vec<GeoFeature> = Vec::new();
            let meets: bool = inside(geometry.as_str());
            let ghost text = geometry@;
            if meets {
                features.push(GeoFeature { geometry: Some(geometry), bbox: None, rest: None });
                assert(feature_values(features@) =~= seq![
                    FeatureValue { geometry: Some(text), bbox: None, rest: None },
                ]);
            } else {
                assert(feature_values(features@) =~= Seq::<FeatureValue>::empty());
            }
            Ok(features)
        },
        Ok(Err(e)) => Err(concat2("Failed to convert WKT geometry: ", e.as_str())),
        Err(e) => Err(concat2("Invalid WKT: ", e.as_str())),
    }
}

/// The features of a WKT text in a tile: its geometry where `inside` holds of it. A text
/// that is nested too deep is refused.
pub fn get_wkt_tile_geojson<I: Fn(&str) -> bool>(text: &str, inside: I) -> (r: Result<
    Vec<GeoFeature>,
    String,
>)
    requires
        forall|g: &str| inside.requires((g,)),
    ensures
        !brackets_are_shallow(text@) ==> r is Err && r->Err_0@
            == "Invalid WKT: geometries are nested too deep"@,
        brackets_are_shallow(text@) ==> match wkt_shape(text@) {
            Ok(Ok(geometry)) => r is Ok && is_single_tile(
                geometry,
                inside,
                feature_values(r->Ok_0@),
            ),
            Ok(Err(e)) => r is Err && r->Err_0@ == "Failed to convert WKT geometry: "@ + e,
            Err(e) => r is Err && r->Err_0@ == "Invalid WKT: "@ + e,
        },
{
    if has_shallow_brackets(text) {
        shape_tile(read_wkt(text), inside)
    } else {
        Err("Invalid WKT: geometries are nested too deep".to_owned())
    }
}

/// The shapes of a file that are in a tile, by their numbers: those of which `inside`
/// holds, in the order of the file.
pub fn get_shapefile_tile_geojson<G, I: Fn(&G) -> bool>(shapes: &Vec<G>, inside: I) -> (numbers:
    Vec<usize>)
    requires
        forall|g: &G| inside.requires((g,)),
    ensures
        exists|meets: Seq<bool>| #[trigger]
            all_told(shapes@, inside, meets) && numbers@ == held(meets),
{
    let ghost mut meets: Seq<bool> = Seq::empty();
    let mut numbers: Vec<usize> = Vec::new();
    for i in 0..shapes.len()
        invariant
            forall|g: &G| inside.requires((g,)),
            meets.len() == i,
            forall|k: int| 0 <= k < i ==> inside.ensures((&shapes@[k],), #[trigger] meets[k]),
            numbers@ == held(meets),
    {
        let m: bool = inside(&shapes[i]);
        let ghost before = meets;
        proof {
            meets = meets.push(m);
            assert(meets.drop_last() =~= before);
        }
        if m {
            numbers.push(i);
        }
    }
    assert(all_told(shapes@, inside, meets));
    numbers
}

/// `meets` is what `inside` says of each shape.
pub open spec fn all_told<G, I: Fn(&G) -> bool>(
    shapes: Seq<G>,
    inside: I,
    meets: Seq<bool>,
) -> bool {
    &&& meets.len() == shapes.len()
    &&& forall|i: int| 0 <= i < meets.len() ==> inside.ensures((&shapes[i],), #[trigger] meets[i])
}

/// The places where a list says yes, in order.
pub open spec fn held(meets: Seq<bool>) -> Seq<usize>
    decreases meets.len(),
{
    if meets.len() == 0 {
        Seq::empty()
    } else if meets.last() {
        held(meets.drop_last()).push((meets.len() - 1) as usize)
    } else {
        held(meets.drop_last())
    }
}

// ─── Documents of places ───

/// A place of a document: its name, its description, and its geometry as GeoJSON.
pub struct KmlPlace {
    pub name: Option<String>,
    pub description: Option<String>,
    pub geometry: Option<String>,
}

/// A place of a document, as a value.
pub struct PlaceValue {
    pub name: Option<Seq<char>>,
    pub description: Option<Seq<char>>,
    pub geometry: Option<Seq<char>>,
}

impl View for KmlPlace {
    type V = PlaceValue;

    open spec fn view(&self) -> PlaceValue {
        PlaceValue {
            name: crate::text::text_of(self.name),
            description: crate::text::text_of(self.description),
            geometry: crate::text::text_of(self.geometry),
        }
    }
}

/// Places, as values.
pub open spec fn place_values(places: Seq<KmlPlace>) -> Seq<PlaceValue> {
    places.map_values(|p: KmlPlace| p@)
}

/// A part of a document of places, as a value: a group of parts, a place, or anything
/// else.
pub enum KmlItem {
    Group(Seq<KmlItem>),
    Placemark(PlaceValue),
    Other,
}

/// The places of a part, in the order of the document.
pub open spec fn places(item: KmlItem) -> Seq<PlaceValue>
    decreases item,
{
    match item {
        KmlItem::Group(parts) => places_of(parts, parts.len()),
        KmlItem::Placemark(place) => seq![place],
        KmlItem::Other => Seq::empty(),
    }
}

/// The places of the first `n` parts.
pub open spec fn places_of(parts: Seq<KmlItem>, n: nat) -> Seq<PlaceValue>
    decreases parts, n,
{
    if n == 0 || n > parts.len() {
        Seq::empty()
    } else {
        places_of(parts, (n - 1) as nat) + places(parts[n - 1])
    }
}

/// A part of a document of places, as the `kml` crate holds it.
#[verifier::external_body]
pub struct KmlNode {
    kml: kml::Kml,
}

/// What a part of a document holds.
pub uninterp spec fn kml_contents(node: KmlNode) -> KmlItem;

/// What `kml::Kml` reads from a text: the document, or the text of the error.
pub uninterp spec fn kml_document(text: Seq<char>) -> Result<KmlItem, Seq<char>>;

/// Calls `kml::Kml::from_str`. What it reads, or the text of its error, is named
/// `kml_document`. Left out are the documents on which the reader does not return: it calls
/// itself for parts inside of others, takes the first coordinates of each point, and waits
/// for the end of some elements even where the document ends.
#[verifier::external_body]
fn read_kml(text: &str) -> (r: Result<KmlNode, String>)
    requires
        document_fault(xml_pieces(text@)) is None,
    ensures
        match r {
            Ok(node) => kml_document(text@) == Ok::<KmlItem, Seq<char>>(kml_contents(node)),
            Err(e) => kml_document(text@) == Err::<KmlItem, Seq<char>>(e@),
        },
{
    match text.parse::<kml::Kml>() {
        Ok(kml) => Ok(KmlNode { kml }),
        Err(e) => Err(e.to_string()),
    }
}

/// What a part of a document of places is.
pub enum KmlPart {
    Group(Vec<KmlNode>),
    Placemark(KmlPlace),
    Other,
}

/// What a part of a document of places is, as a value.
pub open spec fn part_value(part: KmlPart) -> KmlItem {
    match part {
        KmlPart::Group(nodes) => KmlItem::Group(nodes@.map_values(|n: KmlNode| kml_contents(n))),
        KmlPart::Placemark(place) => KmlItem::Placemark(place@),
        KmlPart::Other => KmlItem::Other,
    }
}

/// Matches on a `kml::Kml`: the elements of a document or a folder, a placemark, or
/// anything else. The geometry of a placemark is converted by
/// `geo_types::Geometry::try_from` and written as the `geojson` crate does; one that cannot
/// be converted is missing. Claims that this is what the part holds.
#[verifier::external_body]
fn kml_part(node: &KmlNode) -> (part: KmlPart)
    ensures
        part_value(part) == kml_contents(*node),
{
    let group = |all: &Vec<kml::Kml>| {
        KmlPart::Group(all.iter().map(|k| KmlNode { kml: k.clone() }).collect())
    };
    match &node.kml {
        kml::Kml::KmlDocument(document) => group(&document.elements),
        kml::Kml::Document { elements, .. } => group(elements),
        kml::Kml::Folder(folder) => group(&folder.elements),
        kml::Kml::Placemark(p) => KmlPart::Placemark(KmlPlace {
            name: p.name.clone(),
            description: p.description.clone(),
            geometry: p.geometry.clone().and_then(|g| geo_types::Geometry::try_from(g).ok()).map(
                |g| geojson::Geometry::from(&g).to_string()),
        }),
        _ => KmlPart::Other,
    }
}

/// A document of places.
pub enum KmlTree {
    Group(Vec<KmlTree>),
    Placemark(KmlPlace),
    Other,
}

/// A document of places, as a value.
pub open spec fn tree_value(tree: KmlTree) -> KmlItem
    decreases tree,
{
    match tree {
        KmlTree::Group(trees) => KmlItem::Group(
            Seq::new(
                trees@.len(),
                |i: int|
                    if 0 <= i < trees@.len() {
                        tree_value(trees@[i])
                    } else {
                        KmlItem::Other
                    },
            ),
        ),
        KmlTree::Placemark(place) => KmlItem::Placemark(place@),
        KmlTree::Other => KmlItem::Other,
    }
}

/// The document that a part is.
pub fn kml_tree(node: &KmlNode) -> (tree: KmlTree)
    ensures
        tree_value(tree) == kml_contents(*node),
    decreases kml_contents(*node),
{
    let ghost item = kml_contents(*node);
    match kml_part(node) {
        KmlPart::Group(nodes) => {
            let ghost parts = nodes@.map_values(|n: KmlNode| kml_contents(n));
            let mut trees: Vec<KmlTree> = Vec::new();
            let mut i: usize = 0;
            while i < nodes.len()
                invariant
                    item == kml_contents(*node),
                    item == KmlItem::Group(parts),
                    parts == nodes@.map_values(|n: KmlNode| kml_contents(n)),
                    i <= nodes@.len(),
                    trees@.len() == i,
                    forall|k: int| 0 <= k < i ==> tree_value(#[trigger] trees@[k]) == parts[k],
                decreases nodes@.len() - i,
            {
                proof {
                    assert(parts[i as int] == kml_contents(nodes@[i as int]));
                    assert(decreases_to!(item => item->Group_0));
                    assert(decreases_to!(parts => parts[i as int]));
                }
                trees.push(kml_tree(&nodes[i]));
                i += 1;
            }
            let tree: KmlTree = KmlTree::Group(trees);
            assert(tree_value(tree)->Group_0 =~= parts);
            tree
        },
        KmlPart::Placemark(place) => KmlTree::Placemark(place),
        KmlPart::Other => KmlTree::Other,
    }
}

/// Collects the places of a document, in the order of the document.
pub fn collect_kml_placemarks(tree: &KmlTree, out: &mut Vec<KmlPlace>)
    ensures
        place_values(final(out)@) == place_values(old(out)@) + places(tree_value(*tree)),
    decreases tree,
{
    let ghost before = place_values(out@);
    match tree {
        KmlTree::Group(trees) => {
            let ghost parts = tree_value(*tree)->Group_0;
            assert(place_values(out@) =~= before + places_of(parts, 0));
            let mut i: usize = 0;
            while i < trees.len()
                invariant
                    *tree == KmlTree::Group(*trees),
                    tree_value(*tree) == KmlItem::Group(parts),
                    parts.len() == trees@.len(),
                    i <= trees@.len(),
                    before == place_values(old(out)@),
                    place_values(out@) == before + places_of(parts, i as nat),
                decreases trees@.len() - i,
            {
                assert(parts[i as int] == tree_value(trees@[i as int]));
                collect_kml_placemarks(&trees[i], out);
                assert(place_values(out@) =~= before + places_of(parts, i as nat + 1));
                i += 1;
            }
        },
        KmlTree::Placemark(place) => {
            let copy: KmlPlace = KmlPlace {
                name: copied(&place.name),
                description: copied(&place.description),
                geometry: copied(&place.geometry),
            };
            out.push(copy);
            assert(place_values(out@) =~= before + seq![place@]);
        },
        KmlTree::Other => {
            assert(place_values(out@) =~= before + Seq::empty());
        },
    }
}

/// A feature that a place gives: its geometry, and its properties under their names.
pub struct PlaceFeature {
    pub geometry: String,
    pub properties: Vec<(String, String)>,
}

/// A feature that a place gives, as a value.
pub struct PlaceFeatureValue {
    pub geometry: Seq<char>,
    pub properties: Seq<(Seq<char>, Seq<char>)>,
}

impl View for PlaceFeature {
    type V = PlaceFeatureValue;

    open spec fn view(&self) -> PlaceFeatureValue {
        PlaceFeatureValue {
            geometry: self.geometry@,
            properties: property_values(self.properties@),
        }
    }
}

/// A property that is there, or none.
pub open spec fn property(name: Seq<char>, value: Option<Seq<char>>) -> Seq<
    (Seq<char>, Seq<char>),
> {
    match value {
        Some(v) => seq![(name, v)],
        None => Seq::empty(),
    }
}

/// The feature that a place with a geometry gives: its name and its description are its
/// properties.
pub open spec fn place_feature(place: PlaceValue) -> PlaceFeatureValue {
    PlaceFeatureValue {
        geometry: place.geometry->Some_0,
        properties: property("name"@, place.name) + property("description"@, place.description),
    }
}

/// `meets` tells of each place whether it has a geometry of which `inside` holds.
pub open spec fn places_told<I: Fn(&str) -> bool>(
    places: Seq<PlaceValue>,
    inside: I,
    meets: Seq<bool>,
) -> bool {
    &&& meets.len() == places.len()
    &&& forall|i: int|
        0 <= i < meets.len() ==> place_told(places[i], inside, #[trigger] meets[i])
}

/// `meets` tells whether a place has a geometry of which `inside` holds.
pub open spec fn place_told<I: Fn(&str) -> bool>(
    place: PlaceValue,
    inside: I,
    meets: bool,
) -> bool {
    match place.geometry {
        Some(g) => exists|text: &str| #[trigger] inside.ensures((text,), meets) && text@ == g,
        None => !meets,
    }
}

/// The features of the places that are told to be in a tile, in order.
pub open spec fn chosen(places: Seq<PlaceValue>, meets: Seq<bool>) -> Seq<PlaceFeatureValue>
    decreases places.len(),
{
    if places.len() == 0 {
        Seq::empty()
    } else {
        let before = chosen(places.drop_last(), meets);
        if meets[places.len() - 1] {
            before.push(place_feature(places.last()))
        } else {
            before
        }
    }
}

/// The features of a tile are those of the places with a geometry of which `inside` holds,
/// in order.
pub open spec fn is_place_tile<I: Fn(&str) -> bool>(
    places: Seq<PlaceValue>,
    inside: I,
    features: Seq<PlaceFeature>,
) -> bool {
    exists|meets: Seq<bool>| #[trigger]
        places_told(places, inside, meets) && features.map_values(|f: PlaceFeature| f@) == chosen(
            places,
            meets,
        )
}

fn with_property(properties: Vec<(String, String)>, name: &str, value: &Option<String>) -> (r: Vec<
    (String, String),
>)
    ensures
        property_values(r@) == property_values(properties@) + property(
            name@,
            crate::text::text_of(*value),
        ),
{
    let mut r: Vec<(String, String)> = properties;
    let ghost before = r@;
    match value {
        Some(v) => {
            r.push((name.to_owned(), v.as_str().to_owned()));
        },
        None => {},
    }
    assert(property_values(r@) =~= property_values(before) + property(
        name@,
        crate::text::text_of(*value),
    ));
    r
}

/// The features of a tile that places give: those with a geometry of which `inside` holds.
pub fn places_tile<I: Fn(&str) -> bool>(places: &Vec<KmlPlace>, inside: I) -> (features: Vec<
    PlaceFeature,
>)
    requires
        forall|g: &str| inside.requires((g,)),
    ensures
        is_place_tile(place_values(places@), inside, features@),
{
    let ghost all = place_values(places@);
    let ghost mut meets: Seq<bool> = Seq::empty();
    let mut features: Vec<PlaceFeature> = Vec::new();
    assert(features@.map_values(|f: PlaceFeature| f@) =~= Seq::<PlaceFeatureValue>::empty());
    assert(all.take(0) =~= Seq::<PlaceValue>::empty());
    for i in 0..places.len()
        invariant
            forall|g: &str| inside.requires((g,)),
            all == place_values(places@),
            meets.len() == i,
            forall|k: int| 0 <= k < i ==> place_told(all[k], inside, #[trigger] meets[k]),
            features@.map_values(|f: PlaceFeature| f@) == chosen(all.take(i as int), meets),
    {
        let place: &KmlPlace = &places[i];
        let m: bool = match &place.geometry {
            Some(g) => inside(g.as_str()),
            None => false,
        };
        let ghost told = meets;
        proof {
            assert(place_told(all[i as int], inside, m));
            meets = meets.push(m);
            assert(all.take(i + 1).drop_last() =~= all.take(i as int));
            assert(all.take(i + 1).last() == all[i as int]);
            lemma_chosen(all.take(i as int), told, meets);
        }
        if m {
            match &place.geometry {
                Some(g) => {
                    let ghost before = features@;
                    let named: Vec<(String, String)> = with_property(
                        Vec::new(),
                        "name",
                        &place.name,
                    );
                    let properties: Vec<(String, String)> = with_property(
                        named,
                        "description",
                        &place.description,
                    );
                    let feature: PlaceFeature = PlaceFeature {
                        geometry: g.as_str().to_owned(),
                        properties,
                    };
                    proof {
                        let none = Seq::<(String, String)>::empty();
                        assert(property_values(none) + property("name"@, all[i as int].name)
                            =~= property("name"@, all[i as int].name));
                        assert(feature@ == place_feature(all[i as int]));
                    }
                    features.push(feature);
                    assert(features@.map_values(|f: PlaceFeature| f@) =~= before.map_values(
                        |f: PlaceFeature| f@,
                    ).push(place_feature(all[i as int])));
                },
                None => {},
            }
        }
    }
    assert(all.take(all.len() as int) =~= all);
    assert(places_told(all, inside, meets));
    features
}

proof fn lemma_chosen(places: Seq<PlaceValue>, a: Seq<bool>, b: Seq<bool>)
    requires
        a.len() >= places.len(),
        b.len() >= places.len(),
        forall|i: int| 0 <= i < places.len() ==> a[i] == b[i],
    ensures
        chosen(places, a) == chosen(places, b),
    decreases places.len(),
{
    if places.len() > 0 {
        lemma_chosen(places.drop_last(), a, b);
    }
}

/// Properties, as values.
pub open spec fn property_values(properties: Seq<(String, String)>) -> Seq<
    (Seq<char>, Seq<char>),
> {
    properties.map_values(|p: (String, String)| (p.0@, p.1@))
}

/// What `geojson::Feature` writes for a feature that has nothing but properties, each a
/// text.
pub uninterp spec fn properties_text(properties: Seq<(Seq<char>, Seq<char>)>) -> Seq<char>;

/// Writes a `geojson::Feature` that has nothing but properties, each a text. The result is
/// named `properties_text`.
#[verifier::external_body]
fn write_properties(properties: &Vec<(String, String)>) -> (text: String)
    ensures
        text@ == properties_text(property_values(properties@)),
{
    let all = properties.iter().map(|p| (p.0.clone(), p.1.clone().into())).collect();
    Feature { properties: Some(all), ..Default::default() }.to_string()
}

/// A feature that a place gives, as a feature of a document.
pub open spec fn as_feature(feature: PlaceFeatureValue) -> FeatureValue {
    FeatureValue {
        geometry: Some(feature.geometry),
        bbox: None,
        rest: Some(properties_text(feature.properties)),
    }
}

/// The features that places give, as features of a document.
pub fn place_features(places: &Vec<PlaceFeature>) -> (features: Vec<GeoFeature>)
    ensures
        features@.len() == places@.len(),
        forall|i: int|
            0 <= i < features@.len() ==> #[trigger] features@[i]@ == as_feature(places@[i]@),
{
    let mut features: Vec<GeoFeature> = Vec::new();
    for i in 0..places.len()
        invariant
            features@.len() == i,
            forall|k: int| 0 <= k < i ==> #[trigger] features@[k]@ == as_feature(places@[k]@),
    {
        features.push(
            GeoFeature {
                geometry: Some(places[i].geometry.as_str().to_owned()),
                bbox: None,
                rest: Some(write_properties(&places[i].properties)),
            },
        );
    }
    features
}

/// The features of a document of places in a tile: its places with a geometry of which
/// `inside` holds, in the order of the document.
pub fn tree_tile<I: Fn(&str) -> bool>(tree: &KmlTree, inside: I) -> (features: Vec<PlaceFeature>)
    requires
        forall|g: &str| inside.requires((g,)),
    ensures
        is_place_tile(places(tree_value(*tree)), inside, features@),
{
    let mut all: Vec<KmlPlace> = Vec::new();
    assert(place_values(all@) =~= Seq::<PlaceValue>::empty());
    collect_kml_placemarks(tree, &mut all);
    assert(place_values(all@) =~= places(tree_value(*tree)));
    places_tile(&all, inside)
}

/// The features of a KML text in a tile: its places with a geometry of which `inside`
/// holds, in the order of the text. A text that the reader cannot be given is refused.
pub fn get_kml_tile_geojson<I: Fn(&str) -> bool>(text: &str, inside: I) -> (r: Result<
    Vec<PlaceFeature>,
    String,
>)
    requires
        forall|g: &str| inside.requires((g,)),
    ensures
        match document_fault(xml_pieces(text@)) {
            Some(fault) => r is Err && r->Err_0@ == "Invalid KML: "@ + fault,
            None => match kml_document(text@) {
                Ok(item) => r is Ok && is_place_tile(places(item), inside, r->Ok_0@),
                Err(e) => r is Err && r->Err_0@ == "Invalid KML: "@ + e,
            },
        },
{
    let tokens: Vec<XmlToken> = read_pieces(text);
    match find_fault(&tokens) {
        Some(fault) => {
            return Err(concat2("Invalid KML: ", fault.as_str()));
        },
        None => {},
    }
    match read_kml(text) {
        Ok(node) => {
            let tree: KmlTree = kml_tree(&node);
            Ok(tree_tile(&tree, inside))
        },
        Err(e) => Err(concat2("Invalid KML: ", e.as_str())),
    }
}

/// What is told of a raster: its extent in degrees is the one of its transform where its
/// system is geographic or unknown, else the converted one, or zeros where it could not
/// be converted.
pub fn get_raster_tile_info<F: Copy>(
    crs_type: &str,
    transform_extent: [F; 4],
    converted: Option<[F; 4]>,
    zero: F,
    max_zoom: u32,
    native_crs: &str,
    native_extent: [F; 4],
) -> (info: TileInfo<F>)
    ensures
        info.data_type@ == "raster"@,
        info.min_zoom == 0,
        info.max_zoom == (if max_zoom < MAX_ZOOM {
            max_zoom
        } else {
            MAX_ZOOM
        }),
        info.crs@ == "EPSG:4326"@,
        crs_type@ == "Geographic"@ || crs_type@ == "Unknown"@ ==> info.extent == transform_extent,
        !(crs_type@ == "Geographic"@ || crs_type@ == "Unknown"@) && converted is Some
            ==> info.extent == converted->Some_0,
        !(crs_type@ == "Geographic"@ || crs_type@ == "Unknown"@) && converted is None
            ==> info.extent@ == seq![zero, zero, zero, zero],
        info.native_crs@ == native_crs@,
        info.native_extent == native_extent,
{
    let zeros: [F; 4] = [zero, zero, zero, zero];
    assert(zeros@ =~= seq![zero, zero, zero, zero]);
    let extent: [F; 4] = if is_geographic(crs_type) {
        transform_extent
    } else {
        match converted {
            Some(e) => e,
            None => zeros,
        }
    };
    TileInfo {
        data_type: "raster".to_owned(),
        min_zoom: 0,
        max_zoom: if max_zoom < MAX_ZOOM {
            max_zoom
        } else {
            MAX_ZOOM
        },
        crs: "EPSG:4326".to_owned(),
        extent,
        native_crs: native_crs.to_owned(),
        native_extent,
    }
}

/// What is told of vector data with an extent.
pub fn vector_tile_info<F: Copy>(extent: [F; 4]) -> (info: TileInfo<F>)
    ensures
        info.data_type@ == "vector"@,
        info.min_zoom == 0,
        info.max_zoom == MAX_ZOOM,
        info.crs@ == "EPSG:4326"@,
        info.extent == extent,
        info.native_crs@ == "EPSG:4326"@,
        info.native_extent == extent,
{
    TileInfo {
        data_type: "vector".to_owned(),
        min_zoom: 0,
        max_zoom: MAX_ZOOM,
        crs: "EPSG:4326".to_owned(),
        extent,
        native_crs: "EPSG:4326".to_owned(),
        native_extent: extent,
    }
}

/// What is told of vector data of which nothing is known: it reaches from `low` to `high`
/// on both axes.
pub fn get_vector_tile_info<F: Copy>(low: F, high: F) -> (info: TileInfo<F>)
    ensures
        info.data_type@ == "vector"@,
        info.min_zoom == 0,
        info.max_zoom == MAX_ZOOM,
        info.crs@ == "EPSG:4326"@,
        info.extent@ == seq![low, low, high, high],
        info.native_crs@ == "EPSG:4326"@,
        info.native_extent@ == seq![low, low, high, high],
{
    let extent: [F; 4] = [low, low, high, high];
    assert(extent@ =~= seq![low, low, high, high]);
    vector_tile_info(extent)
}

// ─── What holds of vector tiles ───

/// The system that a document names is the one that its name stands for. A name that stands for
/// none is refused, and a document without a name is in degrees.
pub proof fn law_documents_are_in_named_systems(
    name: &str,
    crs: Option<KnownCrs>,
    named: Result<KnownCrs, String>,
    unnamed: Result<KnownCrs, String>,
)
    requires
        call_ensures(parse_known_crs, (name,), crs),
        call_ensures(resolve_geojson_source_crs, (Some(name),), named),
        call_ensures(resolve_geojson_source_crs, (None,), unnamed),
    ensures
        crs is Some ==> named == Ok::<KnownCrs, String>(crs->Some_0),
        crs is None ==> named is Err && named->Err_0@ == "Unsupported GeoJSON CRS: "@ + name@,
        unnamed == Ok::<KnownCrs, String>(KnownCrs::Wgs84),
{
}

/// The name of the system of a document is the text under `name` under `properties` under `crs`.
pub proof fn law_where_systems_are_named(
    members: Option<String>,
    a: Option<String>,
    b: Option<String>,
    c: Option<String>,
    text: Option<String>,
    name: Option<String>,
    x: &str,
    y: &str,
    z: &str,
)
    requires
        call_ensures(extract_geojson_crs_name, (members,), name),
        call_ensures(member_at, (members, x), a),
        x@ == "crs"@,
        call_ensures(member_at, (a, y), b),
        y@ == "properties"@,
        call_ensures(member_at, (b, z), c),
        z@ == "name"@,
        call_ensures(text_value, (c,), text),
    ensures
        name is Some <==> text is Some,
        name is Some ==> name->Some_0@ == text->Some_0@,
{
}

/// What became of a feature: one without a geometry is left out; the geometry of any other was
/// given to `place`, and what `place` gave takes its place, its box is gone, and everything else
/// of it is as it was.
pub open spec fn became<C: Fn(&str, KnownCrs) -> Result<Option<String>, String>>(
    feature: GeoFeature,
    crs: KnownCrs,
    place: C,
    outcome: Outcome,
) -> bool {
    match feature.geometry {
        None => outcome == Ok::<Option<FeatureValue>, Seq<char>>(None),
        Some(g) => exists|text: &str, answer: Result<Option<String>, String>|
            text@ == g@ && #[trigger] place.ensures((text, crs), answer) && match answer {
                Err(e) => outcome == Err::<Option<FeatureValue>, Seq<char>>(e@),
                Ok(None) => outcome == Ok::<Option<FeatureValue>, Seq<char>>(None),
                Ok(Some(n)) => outcome is Ok && outcome->Ok_0 is Some && {
                    let f = outcome->Ok_0->Some_0;
                    &&& f.geometry == Some(n@)
                    &&& f.bbox is None
                    &&& f.rest == (match feature.rest {
                        Some(t) => Some(t@),
                        None => None,
                    })
                },
            },
    }
}

/// `places` are the features that are kept, in order: all that became something.
pub open spec fn are_kept_features(
    outcomes: Seq<Outcome>,
    kept: Seq<GeoFeature>,
    places: Seq<int>,
) -> bool {
    &&& places.len() == kept.len()
    &&& forall|k: int|
        0 <= k < places.len() ==> 0 <= #[trigger] places[k] < outcomes.len()
            && outcomes[places[k]] == Ok::<Option<FeatureValue>, Seq<char>>(Some(kept[k]@))
    &&& forall|j: int, k: int| 0 <= j < k < places.len() ==> places[j] < places[k]
    &&& forall|i: int|
        0 <= i < outcomes.len() && #[trigger] outcomes[i] is Ok && outcomes[i]->Ok_0 is Some
            ==> places.contains(i)
}

proof fn lemma_gathered_ok(outcomes: Seq<Outcome>) -> (places: Seq<int>)
    requires
        gathered(outcomes) is Ok,
    ensures
        forall|i: int| 0 <= i < outcomes.len() ==> (#[trigger] outcomes[i]) is Ok,
        places.len() == gathered(outcomes)->Ok_0.len(),
        forall|k: int|
            0 <= k < places.len() ==> 0 <= #[trigger] places[k] < outcomes.len()
                && outcomes[places[k]] == Ok::<Option<FeatureValue>, Seq<char>>(
                Some(gathered(outcomes)->Ok_0[k]),
            ),
        forall|j: int, k: int| 0 <= j < k < places.len() ==> places[j] < places[k],
        forall|i: int|
            0 <= i < outcomes.len() && #[trigger] outcomes[i] is Ok && outcomes[i]->Ok_0 is Some
                ==> places.contains(i),
    decreases outcomes.len(),
{
    if outcomes.len() == 0 {
        Seq::empty()
    } else {
        let n = outcomes.len() - 1;
        let t = outcomes.drop_last();
        let before = lemma_gathered_ok(t);
        let places = if outcomes.last()->Ok_0 is Some {
            before.push(n)
        } else {
            before
        };
        assert forall|i: int| 0 <= i < outcomes.len() implies (#[trigger] outcomes[i]) is Ok by {
            if i < n {
                assert(t[i] == outcomes[i]);
            }
        }
        assert forall|k: int| 0 <= k < places.len() implies 0 <= #[trigger] places[k]
            < outcomes.len() && outcomes[places[k]] == Ok::<Option<FeatureValue>, Seq<char>>(
            Some(gathered(outcomes)->Ok_0[k]),
        ) by {
            if k < before.len() {
                assert(places[k] == before[k]);
                assert(t[before[k]] == outcomes[before[k]]);
            }
        }
        assert forall|j: int, k: int| 0 <= j < k < places.len() implies places[j] < places[k] by {
            assert(places[j] == before[j]);
            if k < before.len() {
                assert(places[k] == before[k]);
            }
        }
        assert forall|i: int|
            0 <= i < outcomes.len() && #[trigger] outcomes[i] is Ok && outcomes[i]->Ok_0
                is Some implies places.contains(i) by {
            if i < n {
                assert(t[i] == outcomes[i]);
                assert(before.contains(i));
                let k = choose|k: int| 0 <= k < before.len() && before[k] == i;
                assert(places[k] == i);
            } else {
                assert(places[before.len() as int] == n);
            }
        }
        places
    }
}

proof fn lemma_gathered_err(outcomes: Seq<Outcome>)
    requires
        gathered(outcomes) is Err,
    ensures
        exists|i: int|
            0 <= i < outcomes.len() && #[trigger] outcomes[i] == Err::<
                Option<FeatureValue>,
                Seq<char>,
            >(gathered(outcomes)->Err_0) && forall|j: int|
                0 <= j < i ==> (#[trigger] outcomes[j]) is Ok,
    decreases outcomes.len(),
{
    let n = outcomes.len() - 1;
    let t = outcomes.drop_last();
    if gathered(t) is Err {
        lemma_gathered_err(t);
        let i = choose|i: int|
            0 <= i < t.len() && #[trigger] t[i] == Err::<Option<FeatureValue>, Seq<char>>(
                gathered(t)->Err_0,
            ) && forall|j: int| 0 <= j < i ==> (#[trigger] t[j]) is Ok;
        assert(outcomes[i] == t[i]);
        assert forall|j: int| 0 <= j < i implies (#[trigger] outcomes[j]) is Ok by {
            assert(outcomes[j] == t[j]);
        }
    } else {
        let places = lemma_gathered_ok(t);
        assert forall|j: int| 0 <= j < n implies (#[trigger] outcomes[j]) is Ok by {
            assert(outcomes[j] == t[j]);
        }
        assert(outcomes[n] == outcomes.last());
    }
}

/// The features of a tile are all those that `place` keeps, in the order of the document, each
/// with its geometry in the tile, without its box and with everything else as it was. Where
/// `place` fails, the first of its errors is given back.
pub proof fn law_features_are_kept_in_order<
    C: Fn(&str, KnownCrs) -> Result<Option<String>, String>,
>(
    features: &Vec<GeoFeature>,
    crs: KnownCrs,
    place: C,
    r: Result<Vec<GeoFeature>, String>,
)
    requires
        call_ensures(collect_geojson_features::<C>, (features, crs, place), r),
    ensures
        is_told_tile(features@, crs, place, r),
{
    lemma_told_tile(features@, crs, place, r);
}

/// The features of a tile are what became of those of a document.
pub open spec fn is_told_tile<C: Fn(&str, KnownCrs) -> Result<Option<String>, String>>(
    features: Seq<GeoFeature>,
    crs: KnownCrs,
    place: C,
    r: Result<Vec<GeoFeature>, String>,
) -> bool {
    exists|outcomes: Seq<Outcome>, places: Seq<int>|
        #![trigger outcomes.len(), places.len()]
        {
            &&& outcomes.len() <= features.len()
            &&& forall|i: int|
                0 <= i < outcomes.len() ==> became(
                    features[i],
                    crs,
                    place,
                    #[trigger] outcomes[i],
                )
            &&& r matches Ok(kept) ==> outcomes.len() == features.len() && are_kept_features(
                outcomes,
                kept@,
                places,
            )
            &&& r matches Err(e) ==> exists|i: int|
                0 <= i < outcomes.len() && #[trigger] outcomes[i] == Err::<
                    Option<FeatureValue>,
                    Seq<char>,
                >(e@) && forall|j: int| 0 <= j < i ==> (#[trigger] outcomes[j]) is Ok
        }
}

proof fn lemma_told_tile<C: Fn(&str, KnownCrs) -> Result<Option<String>, String>>(
    features: Seq<GeoFeature>,
    crs: KnownCrs,
    place: C,
    r: Result<Vec<GeoFeature>, String>,
)
    requires
        is_tile_of(feature_values(features), crs, place, r),
    ensures
        is_told_tile(features, crs, place, r),
{
    let all = feature_values(features);
    let outcomes = choose|outcomes: Seq<Outcome>| #[trigger]
        are_placed(all, crs, place, outcomes) && features_value(r) == gathered(outcomes);
    assert forall|i: int| 0 <= i < outcomes.len() implies became(
        features[i],
        crs,
        place,
        #[trigger] outcomes[i],
    ) by {
        assert(is_placed(all[i], crs, place, outcomes[i]));
        assert(all[i] == features[i]@);
    }
    match r {
        Ok(kept) => {
            let places = lemma_gathered_ok(outcomes);
            let found = feature_values(kept@);
            assert forall|k: int| 0 <= k < places.len() implies 0 <= #[trigger] places[k]
                < outcomes.len() && outcomes[places[k]] == Ok::<
                Option<FeatureValue>,
                Seq<char>,
            >(Some(kept@[k]@)) by {
                assert(found[k] == kept@[k]@);
            }
            assert(are_kept_features(outcomes, kept@, places));
            if outcomes.len() < all.len() {
                assert(outcomes[outcomes.len() - 1] is Ok);
            }
            assert(outcomes.len() >= 0 && places.len() >= 0);
        },
        Err(e) => {
            lemma_gathered_err(outcomes);
            let none = Seq::<int>::empty();
            assert(none.len() >= 0);
        },
    }
}

/// The features of a document are those of its list, in order, or the one that it is, or one
/// that is nothing but its geometry. The last of these names no system; a list names it among
/// its own members, and a feature among its own.
pub proof fn law_features_of_documents(document: GeoDocument)
    ensures
        document matches GeoDocument::Collection(m, f) ==> {
            &&& features_in(document@).len() == f@.len()
            &&& forall|i: int| 0 <= i < f@.len() ==> #[trigger] features_in(document@)[i] == f@[i]@
            &&& m is Some ==> members_in(document@) == Some(m->Some_0@)
            &&& m is None ==> members_in(document@) is None
        },
        document matches GeoDocument::Single(f) ==> {
            &&& features_in(document@).len() == 1
            &&& features_in(document@)[0] == f@
            &&& f.rest is Some ==> members_in(document@) == Some(f.rest->Some_0@)
            &&& f.rest is None ==> members_in(document@) is None
        },
        document matches GeoDocument::Bare(g) ==> {
            &&& features_in(document@).len() == 1
            &&& features_in(document@)[0].geometry == Some(g@)
            &&& features_in(document@)[0].rest is None
            &&& members_in(document@) is None
        },
{
}

/// A geometry that was read alone is in a tile where `inside` holds of it, and then it is all
/// that is in the tile. What cannot be read or converted is refused.
pub proof fn law_single_geometries<I: Fn(&str) -> bool>(
    shape: Result<Result<String, String>, String>,
    inside: I,
    r: Result<Vec<GeoFeature>, String>,
)
    requires
        call_ensures(shape_tile::<I>, (shape, inside), r),
    ensures
        shape is Err ==> r is Err && r->Err_0@ == "Invalid WKT: "@ + shape->Err_0@,
        shape is Ok && shape->Ok_0 is Err ==> r is Err && r->Err_0@
            == "Failed to convert WKT geometry: "@ + shape->Ok_0->Err_0@,
        shape is Ok && shape->Ok_0 is Ok ==> r is Ok && exists|text: &str, meets: bool|
            text@ == shape->Ok_0->Ok_0@ && #[trigger] inside.ensures((text,), meets) && (if meets {
                r->Ok_0@.len() == 1 && r->Ok_0@[0]@.geometry == Some(text@) && r->Ok_0@[0]@.rest
                    is None && r->Ok_0@[0]@.bbox is None
            } else {
                r->Ok_0@.len() == 0
            }),
{
    if shape is Ok && shape->Ok_0 is Ok {
        let g = shape->Ok_0->Ok_0@;
        let all = feature_values(r->Ok_0@);
        assert(shape_value(shape) == Ok::<Result<Seq<char>, Seq<char>>, Seq<char>>(Ok(g)));
        assert(is_single_tile(g, inside, all));
        assert(all.len() == r->Ok_0@.len());
        let (text, meets) = choose|text: &str, meets: bool| #[trigger]
            inside.ensures((text,), meets) && text@ == g && all == (if meets {
                seq![FeatureValue { geometry: Some(g), bbox: None, rest: None }]
            } else {
                Seq::empty()
            });
        if meets {
            assert(all.len() == 1);
            assert(all[0] == r->Ok_0@[0]@);
        }
        assert(inside.ensures((text,), meets));
    }
}

proof fn lemma_held(meets: Seq<bool>)
    requires
        meets.len() <= usize::MAX,
    ensures
        forall|k: int|
            0 <= k < held(meets).len() ==> (#[trigger] held(meets)[k]) < meets.len()
                && meets[held(meets)[k] as int],
        forall|j: int, k: int| 0 <= j < k < held(meets).len() ==> held(meets)[j] < held(meets)[k],
        forall|i: int| 0 <= i < meets.len() && #[trigger] meets[i] ==> held(meets).contains(i as usize),
    decreases meets.len(),
{
    if meets.len() > 0 {
        let n = meets.len() - 1;
        let t = meets.drop_last();
        lemma_held(t);
        let (before, all) = (held(t), held(meets));
        assert forall|k: int| 0 <= k < all.len() implies (#[trigger] all[k]) < meets.len()
            && meets[all[k] as int] by {
            if k < before.len() {
                assert(all[k] == before[k]);
                assert(t[before[k] as int] == meets[before[k] as int]);
            }
        }
        assert forall|j: int, k: int| 0 <= j < k < all.len() implies all[j] < all[k] by {
            assert(all[j] == before[j]);
            if k < before.len() {
                assert(all[k] == before[k]);
            }
        }
        assert forall|i: int| 0 <= i < meets.len() && #[trigger] meets[i] implies all.contains(
            i as usize,
        ) by {
            if i < n {
                assert(t[i] == meets[i]);
                assert(before.contains(i as usize));
                let k = choose|k: int| 0 <= k < before.len() && before[k] == i as usize;
                assert(all[k] == i as usize);
            } else {
                assert(all[before.len() as int] == n as usize);
            }
        }
    }
}

/// The shapes of a tile are all those of which `inside` holds, in the order of the file.
pub proof fn law_shapes_of_a_tile<G, I: Fn(&G) -> bool>(
    shapes: &Vec<G>,
    inside: I,
    numbers: Vec<usize>,
)
    requires
        call_ensures(get_shapefile_tile_geojson::<G, I>, (shapes, inside), numbers),
        shapes@.len() <= usize::MAX,
    ensures
        forall|j: int, k: int| 0 <= j < k < numbers@.len() ==> numbers@[j] < numbers@[k],
        exists|meets: Seq<bool>|
            #![trigger meets.len()]
            {
                &&& meets.len() == shapes@.len()
                &&& forall|i: int|
                    0 <= i < meets.len() ==> inside.ensures((&shapes@[i],), #[trigger] meets[i])
                &&& forall|i: int|
                    0 <= i < meets.len() ==> (#[trigger] meets[i] <==> numbers@.contains(i as usize))
                &&& forall|k: int|
                    0 <= k < numbers@.len() ==> (#[trigger] numbers@[k]) < meets.len()
            },
{
    let meets = choose|meets: Seq<bool>| #[trigger]
        all_told(shapes@, inside, meets) && numbers@ == held(meets);
    lemma_held(meets);
    assert forall|i: int| 0 <= i < meets.len() implies (#[trigger] meets[i]
        <==> numbers@.contains(i as usize)) by {
        if numbers@.contains(i as usize) {
            let k = choose|k: int| 0 <= k < numbers@.len() && numbers@[k] == i as usize;
            assert(meets[held(meets)[k] as int]);
        }
    }
    assert(meets.len() >= 0);
}

/// The places of a group are those of its parts, one part behind the other; a place is its own,
/// and anything else has none.
pub proof fn law_places_of_a_group(parts: Seq<KmlItem>, place: PlaceValue)
    ensures
        places(KmlItem::Group(parts)) == Seq::new(
            parts.len(),
            |i: int| places(parts[i]),
        ).flatten(),
        places(KmlItem::Placemark(place)) == seq![place],
        places(KmlItem::Other).len() == 0,
{
    lemma_places_flatten(parts, parts.len());
    assert(parts.take(parts.len() as int) =~= parts);
}

proof fn lemma_places_flatten(parts: Seq<KmlItem>, n: nat)
    requires
        n <= parts.len(),
    ensures
        places_of(parts, n) == Seq::new(n, |i: int| places(parts[i])).flatten(),
    decreases n,
{
    let each = Seq::new(n, |i: int| places(parts[i]));
    if n == 0 {
        assert(each =~= Seq::empty());
    } else {
        let m = (n - 1) as nat;
        lemma_places_flatten(parts, m);
        let rest = Seq::new(m, |i: int| places(parts[i]));
        assert(each =~= rest.push(places(parts[m as int])));
        rest.lemma_flatten_push(places(parts[m as int]));
    }
}

proof fn lemma_chosen_places(all: Seq<PlaceValue>, meets: Seq<bool>) -> (picked: Seq<int>)
    requires
        meets.len() >= all.len(),
    ensures
        picked.len() == chosen(all, meets).len(),
        forall|k: int|
            0 <= k < picked.len() ==> 0 <= #[trigger] picked[k] < all.len() && meets[picked[k]]
                && chosen(all, meets)[k] == place_feature(all[picked[k]]),
        forall|j: int, k: int| 0 <= j < k < picked.len() ==> picked[j] < picked[k],
        forall|i: int| 0 <= i < all.len() && #[trigger] meets[i] ==> picked.contains(i),
    decreases all.len(),
{
    if all.len() == 0 {
        Seq::empty()
    } else {
        let n = all.len() - 1;
        let t = all.drop_last();
        let before = lemma_chosen_places(t, meets);
        let picked = if meets[n] {
            before.push(n)
        } else {
            before
        };
        assert forall|k: int| 0 <= k < picked.len() implies 0 <= #[trigger] picked[k] < all.len()
            && meets[picked[k]] && chosen(all, meets)[k] == place_feature(all[picked[k]]) by {
            if k < before.len() {
                assert(picked[k] == before[k]);
                assert(t[before[k]] == all[before[k]]);
            }
        }
        assert forall|j: int, k: int| 0 <= j < k < picked.len() implies picked[j] < picked[k] by {
            assert(picked[j] == before[j]);
            if k < before.len() {
                assert(picked[k] == before[k]);
            }
        }
        assert forall|i: int| 0 <= i < all.len() && #[trigger] meets[i] implies picked.contains(
            i,
        ) by {
            if i < n {
                assert(before.contains(i));
                let k = choose|k: int| 0 <= k < before.len() && before[k] == i;
                assert(picked[k] == i);
            } else {
                assert(picked[before.len() as int] == n);
            }
        }
        picked
    }
}

/// A feature is that of a place: it has its geometry, its name under `name` where it has one,
/// and behind it its description under `description` where it has one.
pub open spec fn is_feature_of(place: KmlPlace, feature: PlaceFeature) -> bool {
    let p = feature.properties@;
    &&& place.geometry is Some && feature.geometry@ == place.geometry->Some_0@
    &&& place.name is Some && place.description is Some ==> p.len() == 2 && p[0].0@ == "name"@
        && p[0].1@ == place.name->Some_0@ && p[1].0@ == "description"@ && p[1].1@
        == place.description->Some_0@
    &&& place.name is Some && place.description is None ==> p.len() == 1 && p[0].0@ == "name"@
        && p[0].1@ == place.name->Some_0@
    &&& place.name is None && place.description is Some ==> p.len() == 1 && p[0].0@
        == "description"@ && p[0].1@ == place.description->Some_0@
    &&& place.name is None && place.description is None ==> p.len() == 0
}

/// `inside` says of a place with a geometry whether it is in a tile; one without is not.
pub open spec fn is_told_of<I: Fn(&str) -> bool>(place: KmlPlace, inside: I, meets: bool) -> bool {
    match place.geometry {
        None => !meets,
        Some(g) => exists|text: &str| text@ == g@ && #[trigger] inside.ensures((text,), meets),
    }
}

/// The features of a tile are those of all places with a geometry of which `inside` holds, in
/// order.
pub proof fn law_places_of_a_tile<I: Fn(&str) -> bool>(
    all: &Vec<KmlPlace>,
    inside: I,
    features: Vec<PlaceFeature>,
)
    requires
        call_ensures(places_tile::<I>, (all, inside), features),
    ensures
        exists|meets: Seq<bool>, picked: Seq<int>|
            #![trigger meets.len(), picked.len()]
            {
                &&& meets.len() == all@.len()
                &&& forall|i: int|
                    0 <= i < meets.len() ==> is_told_of(all@[i], inside, #[trigger] meets[i])
                &&& picked.len() == features@.len()
                &&& forall|k: int|
                    0 <= k < picked.len() ==> 0 <= #[trigger] picked[k] < all@.len()
                        && meets[picked[k]] && is_feature_of(all@[picked[k]], features@[k])
                &&& forall|j: int, k: int| 0 <= j < k < picked.len() ==> picked[j] < picked[k]
                &&& forall|i: int| 0 <= i < meets.len() && #[trigger] meets[i] ==> picked.contains(i)
            },
{
    let values = place_values(all@);
    let meets = choose|meets: Seq<bool>| #[trigger]
        places_told(values, inside, meets) && features@.map_values(|f: PlaceFeature| f@) == chosen(
            values,
            meets,
        );
    let picked = lemma_chosen_places(values, meets);
    let found = features@.map_values(|f: PlaceFeature| f@);
    assert forall|i: int| 0 <= i < meets.len() implies is_told_of(
        all@[i],
        inside,
        #[trigger] meets[i],
    ) by {
        assert(place_told(values[i], inside, meets[i]));
        assert(values[i] == all@[i]@);
    }
    assert forall|k: int| 0 <= k < picked.len() implies 0 <= #[trigger] picked[k] < all@.len()
        && meets[picked[k]] && is_feature_of(all@[picked[k]], features@[k]) by {
        let i = picked[k];
        assert(found[k] == features@[k]@);
        assert(values[i] == all@[i]@);
        assert(place_told(values[i], inside, meets[i]));
        lemma_feature_of(all@[i], features@[k]);
    }
    assert(meets.len() >= 0 && picked.len() >= 0);
}

proof fn lemma_feature_of(place: KmlPlace, feature: PlaceFeature)
    requires
        place.geometry is Some,
        feature@ == place_feature(place@),
    ensures
        is_feature_of(place, feature),
{
    let v = property_values(feature.properties@);
    let p = feature.properties@;
    assert(v.len() == p.len());
    assert forall|i: int| 0 <= i < p.len() implies #[trigger] v[i] == (p[i].0@, p[i].1@) by {}
    let (a, b) = (
        property("name"@, place@.name),
        property("description"@, place@.description),
    );
    assert(v == a + b);
    if p.len() > 0 {
        assert(v[0] == (p[0].0@, p[0].1@));
    }
    if p.len() > 1 {
        assert(v[1] == (p[1].0@, p[1].1@));
    }
}

/// The features of places, as features of a document, have their geometries, and their properties
/// as the crate for GeoJSON writes them.
pub proof fn law_places_become_features(
    all: &Vec<PlaceFeature>,
    features: Vec<GeoFeature>,
    i: int,
)
    requires
        call_ensures(place_features, (all,), features),
        0 <= i < all@.len(),
    ensures
        features@.len() == all@.len(),
        features@[i].geometry is Some && features@[i].geometry->Some_0@ == all@[i].geometry@,
        features@[i].rest is Some && features@[i].rest->Some_0@ == properties_text(
            Seq::new(
                all@[i].properties@.len(),
                |k: int| (all@[i].properties@[k].0@, all@[i].properties@[k].1@),
            ),
        ),
{
    assert(features@[i]@ == as_feature(all@[i]@));
    assert(Seq::new(
        all@[i].properties@.len(),
        |k: int| (all@[i].properties@[k].0@, all@[i].properties@[k].1@),
    ) =~= property_values(all@[i].properties@));
}

/// The features of a document in a tile are those of its system: nothing is kept of a document
/// in an unknown one.
pub proof fn law_documents_in_tiles<C: Fn(&str, KnownCrs) -> Result<Option<String>, String>>(
    members: Option<String>,
    features: Vec<GeoFeature>,
    place: C,
    r: Result<Vec<GeoFeature>, String>,
    name: Option<String>,
    crs: Result<KnownCrs, String>,
)
    requires
        call_ensures(
            document_tile::<C>,
            (GeoDocument::Collection(members, features), place),
            r,
        ),
        call_ensures(extract_geojson_crs_name, (members,), name),
        name matches Some(n) ==> exists|text: &str|
            text@ == n@ && #[trigger] call_ensures(
                resolve_geojson_source_crs,
                (Some(text),),
                crs,
            ),
        name is None ==> crs == Ok::<KnownCrs, String>(KnownCrs::Wgs84),
    ensures
        crs is Ok ==> is_told_tile(features@, crs->Ok_0, place, r),
        crs is Err ==> r is Err && r->Err_0@ == crs->Err_0@,
{
    let document = GeoDocument::Collection(members, features);
    assert(members_in(document@) == crate::text::text_of(members));
    assert(features_in(document@) == feature_values(features@));
    if crs is Ok {
        lemma_told_tile(features@, crs->Ok_0, place, r);
    }
}

} // verus!
