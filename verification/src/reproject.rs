//! Reference systems: naming them, and choosing how coordinates are converted.

use crate::double::{abs_bits, greater_of, lesser_of, rank_of};
use crate::numbers::parse_unsigned;
use crate::order::stable_order;
use crate::text::{chars_of, contains_text, occurs_here, slice_text, string_of, upper};
use vstd::prelude::*;

verus! {

/// A reference system that is known by name.
#[derive(Debug, Clone, Copy, PartialEq, Eq, Structural)]
pub enum KnownCrs {
    Wgs84,
    WebMercator,
    Epsg(u16),
}

impl KnownCrs {
    /// The number of the system.
    pub open spec fn code(self) -> u16 {
        match self {
            KnownCrs::Wgs84 => 4326,
            KnownCrs::WebMercator => 3857,
            KnownCrs::Epsg(code) => code,
        }
    }

    /// The number of the system.
    pub fn epsg_code(&self) -> (code: Option<u16>)
        ensures
            code == Some(self.code()),
    {
        match self {
            KnownCrs::Wgs84 => Some(4326),
            KnownCrs::WebMercator => Some(3857),
            KnownCrs::Epsg(code) => Some(*code),
        }
    }
}

// ─── Definitions of reference systems ───

/// The definition that `crs_definitions::from_code` has for a number.
pub uninterp spec fn crs_definition(code: u16) -> Option<Seq<char>>;

/// What `geodesy::authoring::parse_proj` makes of a definition, where it succeeds.
pub uninterp spec fn proj_operation(definition: Seq<char>) -> Option<Seq<char>>;

/// Calls `crs_definitions::from_code` for the field `proj4` of the definition with a
/// number. The result is named `crs_definition`. It is claimed that no definition holds
/// the word `inv`.
#[verifier::external_body]
fn definition_of(code: u16) -> (definition: Option<String>)
    ensures
        crate::text::text_of(definition) == crs_definition(code),
        definition is Some ==> !crate::text::has_text(definition->Some_0@, "inv"@),
{
    crs_definitions::from_code(code).map(|d| d.proj4.to_string())
}

/// Calls `geodesy::authoring::parse_proj`, and gives back what it returns, without the
/// reason of a failure. The result is named `proj_operation`. A definition with the word
/// `inv` is left out: there are such definitions on which the function does not return.
#[verifier::external_body]
fn operation_of(definition: &str) -> (operation: Option<String>)
    requires
        !crate::text::has_text(definition@, "inv"@),
    ensures
        crate::text::text_of(operation) == proj_operation(definition@),
{
    geodesy::authoring::parse_proj(definition).ok()
}

/// How coordinates of a reference system are converted.
#[derive(Debug, Clone)]
pub enum CrsOperation {
    /// The coordinates are degrees already.
    Identity,
    /// The operation on spherical coordinates for the web.
    WebMercator,
    /// An operation with this definition.
    Defined(String),
}

/// The operation for a system with a number, given what the outside definitions say.
pub open spec fn is_operation_for(
    code: u16,
    defined: Option<Seq<char>>,
    op: Option<CrsOperation>,
) -> bool {
    if code == 4326 {
        op == Some(CrsOperation::Identity)
    } else if code == 3857 {
        op == Some(CrsOperation::WebMercator)
    } else {
        match defined {
            Some(d) => op matches Some(CrsOperation::Defined(o)) && o@ == d,
            None => op is None,
        }
    }
}

/// The operation that the outside definitions give for a number.
pub open spec fn defined_operation(code: u16) -> Option<Seq<char>> {
    match crs_definition(code) {
        Some(d) => proj_operation(d),
        None => None,
    }
}

/// Chooses the operation for a system with a number, where `defined` is the operation
/// that its definition gives.
pub fn choose_operation(code: u16, defined: Option<String>) -> (op: Option<CrsOperation>)
    ensures
        is_operation_for(code, crate::text::text_of(defined), op),
{
    if code == 4326 {
        Some(CrsOperation::Identity)
    } else if code == 3857 {
        Some(CrsOperation::WebMercator)
    } else {
        match defined {
            Some(d) => Some(CrsOperation::Defined(d)),
            None => None,
        }
    }
}

/// The operation that converts between degrees and a system with a number.
pub fn crs_operation(code: u16) -> (op: Option<CrsOperation>)
    ensures
        is_operation_for(code, defined_operation(code), op),
{
    if code == 4326 || code == 3857 {
        return choose_operation(code, None);
    }
    let defined: Option<String> = match definition_of(code) {
        Some(d) => operation_of(d.as_str()),
        None => None,
    };
    choose_operation(code, defined)
}

/// The operation for a system that is known by name.
pub fn known_crs_operation(crs: KnownCrs) -> (op: Option<CrsOperation>)
    ensures
        crs is Wgs84 ==> op == Some(CrsOperation::Identity),
        !(crs is Wgs84) ==> is_operation_for(crs.code(), defined_operation(crs.code()), op),
{
    match crs {
        KnownCrs::Wgs84 => Some(CrsOperation::Identity),
        KnownCrs::WebMercator => crs_operation(3857),
        KnownCrs::Epsg(code) => crs_operation(code),
    }
}

// ─── Keys of a raster ───

/// A parameter of a projection: written in the key, or among the doubles of the file.
#[derive(Debug, Clone, Copy, PartialEq, Eq, Structural)]
pub enum GeoParam {
    Short(u16),
    /// The bits of a double.
    Double(u64),
}

/// What the keys of a raster say of its reference system.
#[derive(Debug, Clone, Copy, PartialEq, Eq, Structural)]
pub struct GeoKeyInfo {
    pub model_type: Option<u16>,
    pub projected_type: Option<u16>,
    pub geographic_type: Option<u16>,
    pub proj_nat_origin_long: Option<GeoParam>,
    pub proj_nat_origin_lat: Option<GeoParam>,
    pub proj_false_easting: Option<GeoParam>,
    pub proj_false_northing: Option<GeoParam>,
    pub proj_scale_at_nat_origin: Option<GeoParam>,
    pub proj_coord_trans: Option<u16>,
}

/// No key says anything.
pub open spec fn no_geo_keys() -> GeoKeyInfo {
    GeoKeyInfo {
        model_type: None,
        projected_type: None,
        geographic_type: None,
        proj_nat_origin_long: None,
        proj_nat_origin_lat: None,
        proj_false_easting: None,
        proj_false_northing: None,
        proj_scale_at_nat_origin: None,
        proj_coord_trans: None,
    }
}

impl Default for GeoKeyInfo {
    fn default() -> (info: Self)
        ensures
            info == no_geo_keys(),
    {
        GeoKeyInfo {
            model_type: None,
            projected_type: None,
            geographic_type: None,
            proj_nat_origin_long: None,
            proj_nat_origin_lat: None,
            proj_false_easting: None,
            proj_false_northing: None,
            proj_scale_at_nat_origin: None,
            proj_coord_trans: None,
        }
    }
}

/// The place of a key's value that stands for the doubles of the file.
pub const GEO_DOUBLE_PARAMS: u16 = 34736;

/// The parameter that a key holds or points at.
pub open spec fn param_at(loc: u16, count: u16, value: u16, doubles: Seq<u64>) -> Option<GeoParam> {
    if loc == 0 && count == 1 {
        Some(GeoParam::Short(value))
    } else if loc == GEO_DOUBLE_PARAMS && value < doubles.len() {
        Some(GeoParam::Double(doubles[value as int]))
    } else {
        None
    }
}

/// What is known once a key has been read. A key of another kind, or one whose value is
/// not where it should be, changes nothing.
pub open spec fn with_key(
    info: GeoKeyInfo,
    key: u16,
    loc: u16,
    count: u16,
    value: u16,
    doubles: Seq<u64>,
) -> GeoKeyInfo {
    let here = loc == 0 && count == 1;
    let param = param_at(loc, count, value, doubles);
    if key == 1024 && here {
        GeoKeyInfo { model_type: Some(value), ..info }
    } else if key == 2048 && here {
        GeoKeyInfo { geographic_type: Some(value), ..info }
    } else if key == 3072 && here {
        GeoKeyInfo { projected_type: Some(value), ..info }
    } else if key == 3075 && here {
        GeoKeyInfo { proj_coord_trans: Some(value), ..info }
    } else if key == 3080 && param is Some {
        GeoKeyInfo { proj_nat_origin_long: param, ..info }
    } else if key == 3081 && param is Some {
        GeoKeyInfo { proj_nat_origin_lat: param, ..info }
    } else if key == 3082 && param is Some {
        GeoKeyInfo { proj_false_easting: param, ..info }
    } else if key == 3083 && param is Some {
        GeoKeyInfo { proj_false_northing: param, ..info }
    } else if key == 3092 && param is Some {
        GeoKeyInfo { proj_scale_at_nat_origin: param, ..info }
    } else {
        info
    }
}

/// What the first `n` keys of a directory say.
pub open spec fn first_keys(dir: Seq<u16>, doubles: Seq<u64>, n: nat) -> GeoKeyInfo
    decreases n,
{
    if n == 0 {
        no_geo_keys()
    } else {
        let base = 4 + 4 * (n - 1);
        with_key(
            first_keys(dir, doubles, (n - 1) as nat),
            dir[base],
            dir[base + 1],
            dir[base + 2],
            dir[base + 3],
            doubles,
        )
    }
}

/// What the keys of a directory say. A directory that is shorter than it claims says
/// nothing.
pub open spec fn geo_keys(dir: Seq<u16>, doubles: Seq<u64>) -> GeoKeyInfo {
    if dir.len() < 4 || dir.len() < 4 + 4 * dir[3] {
        no_geo_keys()
    } else {
        first_keys(dir, doubles, dir[3] as nat)
    }
}

/// Reads the keys of a raster from its key directory and the bits of its doubles.
pub fn read_geo_key_info(dir: &[u16], doubles: &[u64]) -> (info: GeoKeyInfo)
    ensures
        info == geo_keys(dir@, doubles@),
{
    let mut info: GeoKeyInfo = GeoKeyInfo::default();
    if dir.len() < 4 {
        return info;
    }
    let n: usize = dir[3] as usize;
    if dir.len() < 4 + 4 * n {
        return info;
    }
    for i in 0..n
        invariant
            n <= u16::MAX,
            dir@.len() >= 4 + 4 * n,
            info == first_keys(dir@, doubles@, i as nat),
    {
        let base: usize = 4 + 4 * i;
        let key: u16 = dir[base];
        let loc: u16 = dir[base + 1];
        let count: u16 = dir[base + 2];
        let value: u16 = dir[base + 3];
        let here: bool = loc == 0 && count == 1;
        let param: Option<GeoParam> = if here {
            Some(GeoParam::Short(value))
        } else if loc == GEO_DOUBLE_PARAMS && (value as usize) < doubles.len() {
            Some(GeoParam::Double(doubles[value as usize]))
        } else {
            None
        };
        if key == 1024 && here {
            info.model_type = Some(value);
        } else if key == 2048 && here {
            info.geographic_type = Some(value);
        } else if key == 3072 && here {
            info.projected_type = Some(value);
        } else if key == 3075 && here {
            info.proj_coord_trans = Some(value);
        } else if param.is_some() {
            if key == 3080 {
                info.proj_nat_origin_long = param;
            } else if key == 3081 {
                info.proj_nat_origin_lat = param;
            } else if key == 3082 {
                info.proj_false_easting = param;
            } else if key == 3083 {
                info.proj_false_northing = param;
            } else if key == 3092 {
                info.proj_scale_at_nat_origin = param;
            }
        }
    }
    info
}

/// No entry of a key directory from `from` up to `n` has a key.
pub open spec fn none_from(dir: Seq<u16>, key: u16, from: int, n: int) -> bool {
    forall|j: int| from <= j < n ==> #[trigger] dir[4 + 4 * j] != key
}

proof fn lemma_other_keys_stay(dir: Seq<u16>, doubles: Seq<u64>, m: nat, n: nat)
    requires
        m <= n,
    ensures
        none_from(dir, 1024, m as int, n as int) ==> first_keys(dir, doubles, n).model_type
            == first_keys(dir, doubles, m).model_type,
        none_from(dir, 2048, m as int, n as int) ==> first_keys(dir, doubles, n).geographic_type
            == first_keys(dir, doubles, m).geographic_type,
        none_from(dir, 3072, m as int, n as int) ==> first_keys(dir, doubles, n).projected_type
            == first_keys(dir, doubles, m).projected_type,
        none_from(dir, 3075, m as int, n as int) ==> first_keys(dir, doubles, n).proj_coord_trans
            == first_keys(dir, doubles, m).proj_coord_trans,
        none_from(dir, 3080, m as int, n as int) ==> first_keys(dir, doubles, n).proj_nat_origin_long
            == first_keys(dir, doubles, m).proj_nat_origin_long,
        none_from(dir, 3081, m as int, n as int) ==> first_keys(dir, doubles, n).proj_nat_origin_lat
            == first_keys(dir, doubles, m).proj_nat_origin_lat,
        none_from(dir, 3082, m as int, n as int) ==> first_keys(dir, doubles, n).proj_false_easting
            == first_keys(dir, doubles, m).proj_false_easting,
        none_from(dir, 3083, m as int, n as int) ==> first_keys(dir, doubles, n).proj_false_northing
            == first_keys(dir, doubles, m).proj_false_northing,
        none_from(dir, 3092, m as int, n as int) ==> first_keys(dir, doubles, n).proj_scale_at_nat_origin
            == first_keys(dir, doubles, m).proj_scale_at_nat_origin,
    decreases n,
{
    if m < n {
        lemma_other_keys_stay(dir, doubles, m, (n - 1) as nat);
        assert(dir[4 + 4 * (n - 1)] == dir[4 + 4 * ((n - 1) as int)]);
    }
}

/// Key 1024 is the type of the model: its last entry gives it, and without an entry there is none.
pub proof fn law_key_1024_is_model_type(dir: &[u16], doubles: &[u64], info: GeoKeyInfo, i: int)
    requires
        call_ensures(read_geo_key_info, (dir, doubles), info),
        dir@.len() >= 4,
        dir@.len() >= 4 + 4 * dir@[3],
        0 <= i < dir@[3],
        dir@[4 + 4 * i] == 1024,
        forall|j: int| i < j < dir@[3] ==> #[trigger] dir@[4 + 4 * j] != 1024,
    ensures
        dir@[5 + 4 * i] == 0 && dir@[6 + 4 * i] == 1 ==> info.model_type == Some(
            dir@[7 + 4 * i],
        ),
{
    let n = dir@[3] as nat;
    assert(none_from(dir@, 1024, i + 1, n as int));
    lemma_other_keys_stay(dir@, doubles@, (i + 1) as nat, n);
    let base = 4 + 4 * i;
    assert(dir@[base + 1] == dir@[5 + 4 * i]);
}

/// Key 2048 is the geographic system: its last entry gives it, and without an entry there is none.
pub proof fn law_key_2048_is_geographic_type(dir: &[u16], doubles: &[u64], info: GeoKeyInfo, i: int)
    requires
        call_ensures(read_geo_key_info, (dir, doubles), info),
        dir@.len() >= 4,
        dir@.len() >= 4 + 4 * dir@[3],
        0 <= i < dir@[3],
        dir@[4 + 4 * i] == 2048,
        forall|j: int| i < j < dir@[3] ==> #[trigger] dir@[4 + 4 * j] != 2048,
    ensures
        dir@[5 + 4 * i] == 0 && dir@[6 + 4 * i] == 1 ==> info.geographic_type == Some(
            dir@[7 + 4 * i],
        ),
{
    let n = dir@[3] as nat;
    assert(none_from(dir@, 2048, i + 1, n as int));
    lemma_other_keys_stay(dir@, doubles@, (i + 1) as nat, n);
    let base = 4 + 4 * i;
    assert(dir@[base + 1] == dir@[5 + 4 * i]);
}

/// Key 3072 is the projected system: its last entry gives it, and without an entry there is none.
pub proof fn law_key_3072_is_projected_type(dir: &[u16], doubles: &[u64], info: GeoKeyInfo, i: int)
    requires
        call_ensures(read_geo_key_info, (dir, doubles), info),
        dir@.len() >= 4,
        dir@.len() >= 4 + 4 * dir@[3],
        0 <= i < dir@[3],
        dir@[4 + 4 * i] == 3072,
        forall|j: int| i < j < dir@[3] ==> #[trigger] dir@[4 + 4 * j] != 3072,
    ensures
        dir@[5 + 4 * i] == 0 && dir@[6 + 4 * i] == 1 ==> info.projected_type == Some(
            dir@[7 + 4 * i],
        ),
{
    let n = dir@[3] as nat;
    assert(none_from(dir@, 3072, i + 1, n as int));
    lemma_other_keys_stay(dir@, doubles@, (i + 1) as nat, n);
    let base = 4 + 4 * i;
    assert(dir@[base + 1] == dir@[5 + 4 * i]);
}

/// Key 3075 is the kind of the projection: its last entry gives it, and without an entry there is none.
pub proof fn law_key_3075_is_proj_coord_trans(dir: &[u16], doubles: &[u64], info: GeoKeyInfo, i: int)
    requires
        call_ensures(read_geo_key_info, (dir, doubles), info),
        dir@.len() >= 4,
        dir@.len() >= 4 + 4 * dir@[3],
        0 <= i < dir@[3],
        dir@[4 + 4 * i] == 3075,
        forall|j: int| i < j < dir@[3] ==> #[trigger] dir@[4 + 4 * j] != 3075,
    ensures
        dir@[5 + 4 * i] == 0 && dir@[6 + 4 * i] == 1 ==> info.proj_coord_trans == Some(
            dir@[7 + 4 * i],
        ),
{
    let n = dir@[3] as nat;
    assert(none_from(dir@, 3075, i + 1, n as int));
    lemma_other_keys_stay(dir@, doubles@, (i + 1) as nat, n);
    let base = 4 + 4 * i;
    assert(dir@[base + 1] == dir@[5 + 4 * i]);
}

/// Key 3080 is the longitude of the origin: its last entry gives it, and without an entry there is none.
pub proof fn law_key_3080_is_proj_nat_origin_long(dir: &[u16], doubles: &[u64], info: GeoKeyInfo, i: int)
    requires
        call_ensures(read_geo_key_info, (dir, doubles), info),
        dir@.len() >= 4,
        dir@.len() >= 4 + 4 * dir@[3],
        0 <= i < dir@[3],
        dir@[4 + 4 * i] == 3080,
        forall|j: int| i < j < dir@[3] ==> #[trigger] dir@[4 + 4 * j] != 3080,
    ensures
        dir@[5 + 4 * i] == 0 && dir@[6 + 4 * i] == 1 ==> info.proj_nat_origin_long == Some(
            GeoParam::Short(dir@[7 + 4 * i]),
        ),
        dir@[5 + 4 * i] == 34736 && dir@[7 + 4 * i] < doubles@.len() ==> info.proj_nat_origin_long
            == Some(GeoParam::Double(doubles@[dir@[7 + 4 * i] as int])),
{
    let n = dir@[3] as nat;
    assert(none_from(dir@, 3080, i + 1, n as int));
    lemma_other_keys_stay(dir@, doubles@, (i + 1) as nat, n);
    let base = 4 + 4 * i;
    assert(dir@[base + 1] == dir@[5 + 4 * i]);
}

/// Key 3081 is the latitude of the origin: its last entry gives it, and without an entry there is none.
pub proof fn law_key_3081_is_proj_nat_origin_lat(dir: &[u16], doubles: &[u64], info: GeoKeyInfo, i: int)
    requires
        call_ensures(read_geo_key_info, (dir, doubles), info),
        dir@.len() >= 4,
        dir@.len() >= 4 + 4 * dir@[3],
        0 <= i < dir@[3],
        dir@[4 + 4 * i] == 3081,
        forall|j: int| i < j < dir@[3] ==> #[trigger] dir@[4 + 4 * j] != 3081,
    ensures
        dir@[5 + 4 * i] == 0 && dir@[6 + 4 * i] == 1 ==> info.proj_nat_origin_lat == Some(
            GeoParam::Short(dir@[7 + 4 * i]),
        ),
        dir@[5 + 4 * i] == 34736 && dir@[7 + 4 * i] < doubles@.len() ==> info.proj_nat_origin_lat
            == Some(GeoParam::Double(doubles@[dir@[7 + 4 * i] as int])),
{
    let n = dir@[3] as nat;
    assert(none_from(dir@, 3081, i + 1, n as int));
    lemma_other_keys_stay(dir@, doubles@, (i + 1) as nat, n);
    let base = 4 + 4 * i;
    assert(dir@[base + 1] == dir@[5 + 4 * i]);
}

/// Key 3082 is the false easting: its last entry gives it, and without an entry there is none.
pub proof fn law_key_3082_is_proj_false_easting(dir: &[u16], doubles: &[u64], info: GeoKeyInfo, i: int)
    requires
        call_ensures(read_geo_key_info, (dir, doubles), info),
        dir@.len() >= 4,
        dir@.len() >= 4 + 4 * dir@[3],
        0 <= i < dir@[3],
        dir@[4 + 4 * i] == 3082,
        forall|j: int| i < j < dir@[3] ==> #[trigger] dir@[4 + 4 * j] != 3082,
    ensures
        dir@[5 + 4 * i] == 0 && dir@[6 + 4 * i] == 1 ==> info.proj_false_easting == Some(
            GeoParam::Short(dir@[7 + 4 * i]),
        ),
        dir@[5 + 4 * i] == 34736 && dir@[7 + 4 * i] < doubles@.len() ==> info.proj_false_easting
            == Some(GeoParam::Double(doubles@[dir@[7 + 4 * i] as int])),
{
    let n = dir@[3] as nat;
    assert(none_from(dir@, 3082, i + 1, n as int));
    lemma_other_keys_stay(dir@, doubles@, (i + 1) as nat, n);
    let base = 4 + 4 * i;
    assert(dir@[base + 1] == dir@[5 + 4 * i]);
}

/// Key 3083 is the false northing: its last entry gives it, and without an entry there is none.
pub proof fn law_key_3083_is_proj_false_northing(dir: &[u16], doubles: &[u64], info: GeoKeyInfo, i: int)
    requires
        call_ensures(read_geo_key_info, (dir, doubles), info),
        dir@.len() >= 4,
        dir@.len() >= 4 + 4 * dir@[3],
        0 <= i < dir@[3],
        dir@[4 + 4 * i] == 3083,
        forall|j: int| i < j < dir@[3] ==> #[trigger] dir@[4 + 4 * j] != 3083,
    ensures
        dir@[5 + 4 * i] == 0 && dir@[6 + 4 * i] == 1 ==> info.proj_false_northing == Some(
            GeoParam::Short(dir@[7 + 4 * i]),
        ),
        dir@[5 + 4 * i] == 34736 && dir@[7 + 4 * i] < doubles@.len() ==> info.proj_false_northing
            == Some(GeoParam::Double(doubles@[dir@[7 + 4 * i] as int])),
{
    let n = dir@[3] as nat;
    assert(none_from(dir@, 3083, i + 1, n as int));
    lemma_other_keys_stay(dir@, doubles@, (i + 1) as nat, n);
    let base = 4 + 4 * i;
    assert(dir@[base + 1] == dir@[5 + 4 * i]);
}

/// Key 3092 is the scale at the origin: its last entry gives it, and without an entry there is none.
pub proof fn law_key_3092_is_proj_scale_at_nat_origin(dir: &[u16], doubles: &[u64], info: GeoKeyInfo, i: int)
    requires
        call_ensures(read_geo_key_info, (dir, doubles), info),
        dir@.len() >= 4,
        dir@.len() >= 4 + 4 * dir@[3],
        0 <= i < dir@[3],
        dir@[4 + 4 * i] == 3092,
        forall|j: int| i < j < dir@[3] ==> #[trigger] dir@[4 + 4 * j] != 3092,
    ensures
        dir@[5 + 4 * i] == 0 && dir@[6 + 4 * i] == 1 ==> info.proj_scale_at_nat_origin == Some(
            GeoParam::Short(dir@[7 + 4 * i]),
        ),
        dir@[5 + 4 * i] == 34736 && dir@[7 + 4 * i] < doubles@.len() ==> info.proj_scale_at_nat_origin
            == Some(GeoParam::Double(doubles@[dir@[7 + 4 * i] as int])),
{
    let n = dir@[3] as nat;
    assert(none_from(dir@, 3092, i + 1, n as int));
    lemma_other_keys_stay(dir@, doubles@, (i + 1) as nat, n);
    let base = 4 + 4 * i;
    assert(dir@[base + 1] == dir@[5 + 4 * i]);
}

/// The value of an entry stands in the entry.
pub open spec fn stands_here(dir: Seq<u16>, i: int) -> bool {
    dir[5 + 4 * i] == 0 && dir[6 + 4 * i] == 1
}

/// The value of an entry stands in the entry or among the doubles.
pub open spec fn is_readable_key(dir: Seq<u16>, doubles: Seq<u64>, i: int) -> bool {
    stands_here(dir, i) || (dir[5 + 4 * i] == 34736 && dir[7 + 4 * i] < doubles.len())
}

proof fn lemma_unread_keys(dir: Seq<u16>, doubles: Seq<u64>, n: nat)
    ensures
        (forall|i: int| 0 <= i < n && #[trigger] dir[4 + 4 * i] == 1024 ==> !stands_here(dir, i))
            ==> first_keys(dir, doubles, n).model_type is None,
        (forall|i: int| 0 <= i < n && #[trigger] dir[4 + 4 * i] == 2048 ==> !stands_here(dir, i))
            ==> first_keys(dir, doubles, n).geographic_type is None,
        (forall|i: int| 0 <= i < n && #[trigger] dir[4 + 4 * i] == 3072 ==> !stands_here(dir, i))
            ==> first_keys(dir, doubles, n).projected_type is None,
        (forall|i: int| 0 <= i < n && #[trigger] dir[4 + 4 * i] == 3075 ==> !stands_here(dir, i))
            ==> first_keys(dir, doubles, n).proj_coord_trans is None,
        (forall|i: int| 0 <= i < n && #[trigger] dir[4 + 4 * i] == 3080 ==> !is_readable_key(dir, doubles, i))
            ==> first_keys(dir, doubles, n).proj_nat_origin_long is None,
        (forall|i: int| 0 <= i < n && #[trigger] dir[4 + 4 * i] == 3081 ==> !is_readable_key(dir, doubles, i))
            ==> first_keys(dir, doubles, n).proj_nat_origin_lat is None,
        (forall|i: int| 0 <= i < n && #[trigger] dir[4 + 4 * i] == 3082 ==> !is_readable_key(dir, doubles, i))
            ==> first_keys(dir, doubles, n).proj_false_easting is None,
        (forall|i: int| 0 <= i < n && #[trigger] dir[4 + 4 * i] == 3083 ==> !is_readable_key(dir, doubles, i))
            ==> first_keys(dir, doubles, n).proj_false_northing is None,
        (forall|i: int| 0 <= i < n && #[trigger] dir[4 + 4 * i] == 3092 ==> !is_readable_key(dir, doubles, i))
            ==> first_keys(dir, doubles, n).proj_scale_at_nat_origin is None,
    decreases n,
{
    if n > 0 {
        lemma_unread_keys(dir, doubles, (n - 1) as nat);
        let base = 4 + 4 * (n - 1);
        assert(dir[base] == dir[4 + 4 * ((n - 1) as int)]);
        assert(dir[base + 1] == dir[5 + 4 * ((n - 1) as int)]);
    }
}

/// A field that no entry gives a value for is missing: where the directory has no entry with
/// its key, or none whose value can be read.
pub proof fn law_missing_keys_give_nothing(dir: &[u16], doubles: &[u64], info: GeoKeyInfo)
    requires
        call_ensures(read_geo_key_info, (dir, doubles), info),
        dir@.len() >= 4,
        dir@.len() >= 4 + 4 * dir@[3],
    ensures
        (forall|i: int| 0 <= i < dir@[3] && #[trigger] dir@[4 + 4 * i] == 1024 ==> !stands_here(dir@, i))
            ==> info.model_type is None,
        (forall|i: int| 0 <= i < dir@[3] && #[trigger] dir@[4 + 4 * i] == 2048 ==> !stands_here(dir@, i))
            ==> info.geographic_type is None,
        (forall|i: int| 0 <= i < dir@[3] && #[trigger] dir@[4 + 4 * i] == 3072 ==> !stands_here(dir@, i))
            ==> info.projected_type is None,
        (forall|i: int| 0 <= i < dir@[3] && #[trigger] dir@[4 + 4 * i] == 3075 ==> !stands_here(dir@, i))
            ==> info.proj_coord_trans is None,
        (forall|i: int| 0 <= i < dir@[3] && #[trigger] dir@[4 + 4 * i] == 3080 ==> !is_readable_key(dir@, doubles@, i))
            ==> info.proj_nat_origin_long is None,
        (forall|i: int| 0 <= i < dir@[3] && #[trigger] dir@[4 + 4 * i] == 3081 ==> !is_readable_key(dir@, doubles@, i))
            ==> info.proj_nat_origin_lat is None,
        (forall|i: int| 0 <= i < dir@[3] && #[trigger] dir@[4 + 4 * i] == 3082 ==> !is_readable_key(dir@, doubles@, i))
            ==> info.proj_false_easting is None,
        (forall|i: int| 0 <= i < dir@[3] && #[trigger] dir@[4 + 4 * i] == 3083 ==> !is_readable_key(dir@, doubles@, i))
            ==> info.proj_false_northing is None,
        (forall|i: int| 0 <= i < dir@[3] && #[trigger] dir@[4 + 4 * i] == 3092 ==> !is_readable_key(dir@, doubles@, i))
            ==> info.proj_scale_at_nat_origin is None,
{
    lemma_unread_keys(dir@, doubles@, dir@[3] as nat);
}

/// A directory that is shorter than it claims gives nothing.
pub proof fn law_short_directory_gives_nothing(dir: &[u16], doubles: &[u64], info: GeoKeyInfo)
    requires
        call_ensures(read_geo_key_info, (dir, doubles), info),
        dir@.len() < 4 || dir@.len() < 4 + 4 * dir@[3],
    ensures
        info.model_type is None,
        info.geographic_type is None,
        info.projected_type is None,
        info.proj_coord_trans is None,
        info.proj_nat_origin_long is None,
        info.proj_nat_origin_lat is None,
        info.proj_false_easting is None,
        info.proj_false_northing is None,
        info.proj_scale_at_nat_origin is None,
{
}

/// The number of the system that the keys name.
pub open spec fn named_epsg(info: GeoKeyInfo) -> Option<u16> {
    if info.projected_type is Some {
        info.projected_type
    } else if info.model_type == Some(2u16) {
        if info.geographic_type is Some {
            info.geographic_type
        } else {
            Some(4326)
        }
    } else if info.proj_coord_trans == Some(1u16) {
        None
    } else {
        info.geographic_type
    }
}

fn is_value(v: Option<u16>, n: u16) -> (r: bool)
    ensures
        r == (v == Some(n)),
{
    match v {
        Some(x) => x == n,
        None => false,
    }
}

/// The number of the system that the keys name.
pub fn epsg_from_geo_key(info: &GeoKeyInfo) -> (code: Option<u16>)
    ensures
        code == named_epsg(*info),
{
    if info.projected_type.is_some() {
        return info.projected_type;
    }
    if is_value(info.model_type, 2) {
        return if info.geographic_type.is_some() {
            info.geographic_type
        } else {
            Some(4326)
        };
    }
    if is_value(info.proj_coord_trans, 1) {
        return None;
    }
    info.geographic_type
}

// ─── Names of reference systems ───

/// A character that separates words in a name.
pub open spec fn is_separator(c: char) -> bool {
    c == ' ' || c == '_' || c == '-'
}

/// A name in upper case and without separators.
pub open spec fn compact(name: Seq<char>) -> Seq<char> {
    crate::text::raised(name).filter(|c: char| !is_separator(c))
}

fn compact_name(name: &str) -> (r: Vec<char>)
    ensures
        r@ == compact(name@),
{
    let raised: String = upper(name);
    let all: Vec<char> = chars_of(raised.as_str());
    let ghost keep = |c: char| !is_separator(c);
    let mut r: Vec<char> = Vec::new();
    proof {
        reveal(Seq::filter);
        assert(all@.take(0).filter(keep) =~= Seq::empty());
    }
    for i in 0..all.len()
        invariant
            keep == (|c: char| !is_separator(c)),
            r@ == all@.take(i as int).filter(keep),
    {
        proof {
            reveal(Seq::filter);
            assert(all@.take(i + 1).drop_last() =~= all@.take(i as int));
            assert(all@.take(i + 1).last() == all@[i as int]);
        }
        let c: char = all[i];
        if c != ' ' && c != '_' && c != '-' {
            r.push(c);
        }
    }
    assert(all@.take(all@.len() as int) =~= all@);
    r
}

/// The first place from `i` on, below `limit`, whose character is a digit or is none.
pub open spec fn next_place(s: Seq<char>, i: int, limit: int, digit: bool) -> int
    decreases limit - i,
{
    if i >= limit || crate::numbers::is_digit(s[i]) == digit {
        i
    } else {
        next_place(s, i + 1, limit, digit)
    }
}

/// The first place from `i` on, below `limit`, of a letter for a hemisphere.
pub open spec fn next_hemisphere(s: Seq<char>, i: int, limit: int) -> int
    decreases limit - i,
{
    if i >= limit || s[i] == 'N' || s[i] == 'S' {
        i
    } else {
        next_hemisphere(s, i + 1, limit)
    }
}

/// What a name says of a zone at one of its places.
pub enum ZoneAt {
    /// Nothing: look further on.
    Nothing,
    /// There is a number that is too large for any zone.
    NoZone,
    /// The zone, and whether it is on the northern hemisphere.
    Zone(u8, bool),
}

/// No more characters than these belong to a zone.
pub const ZONE_TEXT: usize = 20;

/// What a name says of a zone at a place: the letters `UTM`, then a number, then the
/// letter of a hemisphere, with anything between them.
pub open spec fn zone_at(s: Seq<char>, start: int) -> ZoneAt {
    let limit = if start + ZONE_TEXT < s.len() {
        start + ZONE_TEXT
    } else {
        s.len() as int
    };
    let from = next_place(s, start + 3, limit, true);
    let to = next_place(s, from, limit, false);
    let side = next_hemisphere(s, to, limit);
    if !crate::text::occurs_at(s, "UTM"@, start) || from >= limit {
        ZoneAt::Nothing
    } else {
        match crate::numbers::unsigned_value(s.subrange(from, to), u8::MAX as nat) {
            None => ZoneAt::NoZone,
            Some(zone) => if 1 <= zone <= 60 && side < limit {
                ZoneAt::Zone(zone as u8, s[side] == 'N')
            } else {
                ZoneAt::Nothing
            },
        }
    }
}

/// The zone that a name gives from a place on.
pub open spec fn zone_from(s: Seq<char>, start: int) -> Option<(u8, bool)>
    decreases s.len() - start,
{
    if start >= s.len() {
        None
    } else {
        match zone_at(s, start) {
            ZoneAt::Nothing => zone_from(s, start + 1),
            ZoneAt::NoZone => None,
            ZoneAt::Zone(zone, north) => Some((zone, north)),
        }
    }
}

fn find_zone(s: &Vec<char>, start: usize) -> (z: ZoneAt)
    requires
        start < s@.len(),
    ensures
        z == zone_at(s@, start as int),
{
    let utm: Vec<char> = chars_of("UTM");
    if !occurs_here(s.as_slice(), utm.as_slice(), start) {
        return ZoneAt::Nothing;
    }
    proof {
        reveal_strlit("UTM");
    }
    let limit: usize = if s.len() - start > ZONE_TEXT {
        start + ZONE_TEXT
    } else {
        s.len()
    };
    let mut idx: usize = start + 3;
    while idx < limit && !('0' <= s[idx] && s[idx] <= '9')
        invariant
            limit <= s@.len(),
            start + 3 <= idx,
            start + 3 <= limit,
            idx <= limit,
            next_place(s@, start + 3, limit as int, true) == next_place(
                s@,
                idx as int,
                limit as int,
                true,
            ),
        decreases limit - idx,
    {
        idx += 1;
    }
    if idx >= limit {
        return ZoneAt::Nothing;
    }
    let from: usize = idx;
    while idx < limit && '0' <= s[idx] && s[idx] <= '9'
        invariant
            limit <= s@.len(),
            from <= idx <= limit,
            next_place(s@, from as int, limit as int, false) == next_place(
                s@,
                idx as int,
                limit as int,
                false,
            ),
        decreases limit - idx,
    {
        idx += 1;
    }
    let text: String = slice_text(s.as_slice(), from, idx);
    let zone: u64 = match parse_unsigned(text.as_str(), 255) {
        Some(zone) => zone,
        None => {
            return ZoneAt::NoZone;
        },
    };
    if zone < 1 || zone > 60 {
        return ZoneAt::Nothing;
    }
    let ghost to = idx as int;
    while idx < limit && s[idx] != 'N' && s[idx] != 'S'
        invariant
            limit <= s@.len(),
            idx <= limit,
            next_hemisphere(s@, to, limit as int) == next_hemisphere(s@, idx as int, limit as int),
        decreases limit - idx,
    {
        idx += 1;
    }
    if idx < limit {
        ZoneAt::Zone(zone as u8, s[idx] == 'N')
    } else {
        ZoneAt::Nothing
    }
}

/// The zone that a compact name gives, and whether it is on the northern hemisphere.
pub fn parse_utm_zone(s: &Vec<char>) -> (zone: Option<(u8, bool)>)
    ensures
        zone == zone_from(s@, 0),
        zone is Some ==> 1 <= zone->Some_0.0 <= 60,
{
    let mut start: usize = 0;
    while start < s.len()
        invariant
            start <= s@.len(),
            zone_from(s@, 0) == zone_from(s@, start as int),
        decreases s@.len() - start,
    {
        match find_zone(s, start) {
            ZoneAt::Nothing => {},
            ZoneAt::NoZone => {
                return None;
            },
            ZoneAt::Zone(zone, north) => {
                return Some((zone, north));
            },
        }
        start += 1;
    }
    None
}

/// The text without its first occurrences of a word.
pub open spec fn stripped(s: Seq<char>, word: Seq<char>) -> Seq<char>
    decreases s.len(),
{
    if word.len() > 0 && crate::text::occurs_at(s, word, 0) {
        stripped(s.skip(word.len() as int), word)
    } else {
        s
    }
}

fn strip(s: &Vec<char>, from: usize, word: &Vec<char>) -> (at: usize)
    requires
        from <= s@.len(),
        word@.len() > 0,
    ensures
        from <= at <= s@.len(),
        s@.skip(at as int) == stripped(s@.skip(from as int), word@),
{
    let mut at: usize = from;
    loop
        invariant
            from <= at <= s@.len(),
            word@.len() > 0,
            stripped(s@.skip(from as int), word@) == stripped(s@.skip(at as int), word@),
        ensures
            from <= at <= s@.len(),
            s@.skip(at as int) == stripped(s@.skip(from as int), word@),
        decreases s@.len() - at,
    {
        let ghost rest = s@.skip(at as int);
        let here: bool = occurs_here(s.as_slice(), word.as_slice(), at);
        proof {
            let n = word@.len() as int;
            if at + n <= s@.len() {
                assert(rest.subrange(0, n) =~= s@.subrange(at as int, at + n));
                assert(rest.skip(n) =~= s@.skip(at + n));
            }
            assert(crate::text::occurs_at(rest, word@, 0) == crate::text::occurs_at(
                s@,
                word@,
                at as int,
            ));
        }
        if !here {
            break;
        }
        assert(at + word@.len() <= s.len());
        at += word.len();
    }
    at
}

/// What the name of a reference system says.
#[derive(Debug, Clone, Copy, PartialEq, Eq, Structural)]
pub enum CrsName {
    Known(KnownCrs),
    /// The number of a system, which may have no definition.
    Code(u16),
    Unknown,
}

/// The compact name is one of those of the spherical system for the web.
pub open spec fn names_web_mercator(s: Seq<char>) -> bool {
    ||| crate::text::has_text(s, "EPSG:3857"@)
    ||| crate::text::has_text(s, "EPSG3857"@)
    ||| crate::text::has_text(s, "WEBMERCATOR"@)
    ||| crate::text::has_text(s, "PSEUDOMERCATOR"@)
    ||| crate::text::has_text(s, "AUXILIARYSPHERE"@)
}

/// The compact name is one of those of the geographic system.
pub open spec fn names_wgs84(s: Seq<char>) -> bool {
    ||| crate::text::has_text(s, "EPSG:4326"@)
    ||| crate::text::has_text(s, "EPSG4326"@)
    ||| crate::text::has_text(s, "CRS84"@)
    ||| crate::text::has_text(s, "WGS84"@)
    ||| crate::text::has_text(s, "WGS1984"@)
}

/// What a compact name says: the spherical system comes before a zone, a zone before
/// the geographic system, and that before a number.
pub open spec fn compact_meaning(s: Seq<char>) -> CrsName {
    if names_web_mercator(s) {
        CrsName::Known(KnownCrs::WebMercator)
    } else {
        match zone_from(s, 0) {
            Some((zone, north)) => CrsName::Known(
                KnownCrs::Epsg(
                    (zone + (if north {
                        32600int
                    } else {
                        32700int
                    })) as u16,
                ),
            ),
            None => if names_wgs84(s) {
                CrsName::Known(KnownCrs::Wgs84)
            } else if crate::text::occurs_at(s, "EPSG"@, 0) {
                match crate::numbers::unsigned_value(
                    stripped(stripped(s, "EPSG:"@), "EPSG"@),
                    u16::MAX as nat,
                ) {
                    Some(code) => CrsName::Code(code as u16),
                    None => CrsName::Unknown,
                }
            } else {
                CrsName::Unknown
            },
        }
    }
}

/// What the name of a reference system says.
pub open spec fn crs_meaning(name: Seq<char>) -> CrsName {
    compact_meaning(compact(name))
}

/// Reads the name of a reference system, without asking whether a number has a
/// definition.
pub fn read_crs_name(name: &str) -> (meaning: CrsName)
    ensures
        meaning == crs_meaning(name@),
{
    let chars: Vec<char> = compact_name(name);
    let text: String = string_of(chars.as_slice());
    let s: &str = text.as_str();
    if contains_text(s, "EPSG:3857") || contains_text(s, "EPSG3857") || contains_text(
        s,
        "WEBMERCATOR",
    ) || contains_text(s, "PSEUDOMERCATOR") || contains_text(s, "AUXILIARYSPHERE") {
        return CrsName::Known(KnownCrs::WebMercator);
    }
    match parse_utm_zone(&chars) {
        Some((zone, north)) => {
            let base: u16 = if north {
                32600
            } else {
                32700
            };
            return CrsName::Known(KnownCrs::Epsg(base + zone as u16));
        },
        None => {},
    }
    if contains_text(s, "EPSG:4326") || contains_text(s, "EPSG4326") || contains_text(s, "CRS84")
        || contains_text(s, "WGS84") || contains_text(s, "WGS1984") {
        return CrsName::Known(KnownCrs::Wgs84);
    }
    let bare: Vec<char> = chars_of("EPSG");
    let colon: Vec<char> = chars_of("EPSG:");
    if occurs_here(chars.as_slice(), bare.as_slice(), 0) {
        proof {
            reveal_strlit("EPSG");
            reveal_strlit("EPSG:");
            assert(chars@.skip(0) =~= chars@);
        }
        let first: usize = strip(&chars, 0, &colon);
        let from: usize = strip(&chars, first, &bare);
        let number: String = slice_text(chars.as_slice(), from, chars.len());
        assert(number@ =~= chars@.skip(from as int));
        match parse_unsigned(number.as_str(), 65535) {
            Some(code) => {
                return CrsName::Code(code as u16);
            },
            None => {},
        }
    }
    CrsName::Unknown
}

/// The system that a name stands for. A number stands for a system only where it has a
/// definition.
pub fn parse_known_crs(name: &str) -> (crs: Option<KnownCrs>)
    ensures
        crs == (match crs_meaning(name@) {
            CrsName::Known(known) => Some(known),
            CrsName::Code(code) => if crs_definition(code) is Some {
                Some(KnownCrs::Epsg(code))
            } else {
                None
            },
            CrsName::Unknown => None,
        }),
{
    match read_crs_name(name) {
        CrsName::Known(known) => Some(known),
        CrsName::Code(code) => {
            if definition_of(code).is_some() {
                Some(KnownCrs::Epsg(code))
            } else {
                None
            }
        },
        CrsName::Unknown => None,
    }
}

proof fn lemma_char_is_missing(s: Seq<char>, p: Seq<char>, k: int)
    requires
        0 <= k < p.len(),
        !s.contains(p[k]),
    ensures
        !crate::text::has_text(s, p),
{
    if crate::text::has_text(s, p) {
        let i = choose|i: int| crate::text::occurs_at(s, p, i);
        assert(s.subrange(i, i + p.len())[k] == p[k]);
        assert(s[i + k] == p[k]);
    }
}

/// The digits of a zone from 1 to 60, without a leading zero.
pub open spec fn zone_digits(n: int) -> Seq<char> {
    if n < 10 {
        seq![('0' as u32 + n) as char]
    } else {
        seq![('0' as u32 + n / 10) as char, ('0' as u32 + n % 10) as char]
    }
}

proof fn lemma_zone_value(n: int)
    requires
        1 <= n <= 60,
    ensures
        crate::numbers::unsigned_value(zone_digits(n), u8::MAX as nat) == Some(n as nat),
        crate::numbers::all_digits(zone_digits(n)),
{
    let d = zone_digits(n);
    if n < 10 {
        assert(d.drop_last() =~= Seq::<char>::empty());
        assert(crate::numbers::digits_value(d.drop_last()) == 0);
    } else {
        assert(d.drop_last() =~= seq![d[0]]);
        assert(d.drop_last().drop_last() =~= Seq::<char>::empty());
        assert(crate::numbers::digits_value(d.drop_last().drop_last()) == 0);
        assert(crate::numbers::digits_value(d.drop_last()) == n / 10);
    }
    assert(d[0] != '+');
}

proof fn lemma_zone_name(s: Seq<char>, n: int, north: bool)
    requires
        1 <= n <= 60,
        s == "WGS84/UTMZONE"@ + zone_digits(n) + seq![
            if north {
                'N'
            } else {
                'S'
            },
        ],
    ensures
        zone_from(s, 0) == Some((n as u8, north)),
        !names_web_mercator(s),
{
    reveal_strlit("WGS84/UTMZONE");
    reveal_strlit("UTM");
    let d = zone_digits(n);
    lemma_zone_value(n);
    let limit = s.len() as int;
    assert(forall|i: int| 0 <= i < 6 ==> s[i] != 'U');
    assert forall|i: int| 0 <= i < 6 implies !crate::text::occurs_at(s, "UTM"@, i) by {
        if crate::text::occurs_at(s, "UTM"@, i) {
            assert(s.subrange(i, i + 3)[0] == 'U');
            assert(s[i] == 'U');
        }
    }
    assert(s.subrange(6, 9) =~= "UTM"@);
    assert(crate::text::occurs_at(s, "UTM"@, 6));
    reveal_with_fuel(next_place, 6);
    reveal_with_fuel(next_hemisphere, 3);
    assert(crate::numbers::is_digit(d[0]));
    assert(s[13] == d[0]);
    assert(next_place(s, 9, limit, true) == 13);
    let to = 13 + d.len() as int;
    assert(next_place(s, 13, limit, false) == to) by {
        assert(s[to] == 'N' || s[to] == 'S');
        if d.len() == 2 {
            assert(s[14] == d[1]);
            assert(crate::numbers::is_digit(d[1]));
        }
    }
    assert(s.subrange(13, to) =~= d);
    assert(next_hemisphere(s, to, limit) == to);
    reveal_with_fuel(zone_from, 8);
    let words = "WGS84/UTMZONE"@;
    assert forall|c: char| #[trigger] s.contains(c) implies c != 'P' && c != 'B' && c != 'A' by {
        let k = choose|k: int| 0 <= k < s.len() && s[k] == c;
        if k >= 13 && k < to {
            assert(s[k] == d[k - 13]);
            assert(crate::numbers::is_digit(d[k - 13]));
        }
    }
    reveal_strlit("EPSG:3857");
    reveal_strlit("EPSG3857");
    reveal_strlit("WEBMERCATOR");
    reveal_strlit("PSEUDOMERCATOR");
    reveal_strlit("AUXILIARYSPHERE");
    lemma_char_is_missing(s, "EPSG:3857"@, 1);
    lemma_char_is_missing(s, "EPSG3857"@, 1);
    lemma_char_is_missing(s, "WEBMERCATOR"@, 2);
    lemma_char_is_missing(s, "PSEUDOMERCATOR"@, 0);
    lemma_char_is_missing(s, "AUXILIARYSPHERE"@, 0);
}

proof fn lemma_compact_empty()
    ensures
        compact(Seq::empty()) == Seq::<char>::empty(),
{
    reveal(Seq::filter);
    assert(crate::text::raised(Seq::empty()) =~= Seq::<char>::empty());
}

proof fn lemma_compact_push(s: Seq<char>, c: char)
    requires
        crate::text::all_ascii(s),
        c as u32 <= 127,
    ensures
        crate::text::all_ascii(s.push(c)),
        compact(s.push(c)) == (if is_separator(crate::text::ascii_upper(c)) {
            compact(s)
        } else {
            compact(s).push(crate::text::ascii_upper(c))
        }),
{
    reveal(Seq::filter);
    let keep = |c: char| !is_separator(c);
    let up = crate::text::raised(s.push(c));
    assert forall|i: int| 0 <= i < s.push(c).len() implies (#[trigger] s.push(c)[i]) as u32
        <= 127 by {
        if i < s.len() {
            assert(s.push(c)[i] == s[i]);
        }
    }
    assert(up =~= crate::text::raised(s).push(crate::text::ascii_upper(c)));
    assert(up.drop_last() =~= crate::text::raised(s));
}

proof fn lemma_compact_zone_name(name: Seq<char>, n: int, side: char)
    requires
        1 <= n <= 60,
        side == 'N' || side == 'S',
        name == "WGS 84 / UTM zone "@ + zone_digits(n) + seq![side] || name == "WGS84/UTMZONE"@
            + zone_digits(n) + seq![side],
    ensures
        compact(name) == "WGS84/UTMZONE"@ + zone_digits(n) + seq![side],
{
    lemma_zone_words();
    let plain = "WGS84/UTMZONE"@;
    let head = if name == plain + zone_digits(n) + seq![side] {
        plain
    } else {
        "WGS 84 / UTM zone "@
    };
    let d = zone_digits(n);
    lemma_zone_value(n);
    assert(crate::numbers::is_digit(d[0]));
    lemma_compact_push(head, d[0]);
    let one = head.push(d[0]);
    let two = if n < 10 {
        one
    } else {
        assert(crate::numbers::is_digit(d[1]));
        lemma_compact_push(one, d[1]);
        one.push(d[1])
    };
    lemma_compact_push(two, side);
    assert(name =~= two.push(side));
    assert(compact(name) =~= plain + d + seq![side]);
}

proof fn lemma_zone_words()
    ensures
        crate::text::all_ascii("WGS84/UTMZONE"@),
        crate::text::all_ascii("WGS 84 / UTM zone "@),
        compact("WGS84/UTMZONE"@) == "WGS84/UTMZONE"@,
        compact("WGS 84 / UTM zone "@) == "WGS84/UTMZONE"@,
{
    lemma_plain_zone_words();
    lemma_spaced_zone_words();
}

proof fn lemma_plain_zone_words()
    ensures
        crate::text::all_ascii("WGS84/UTMZONE"@),
        compact("WGS84/UTMZONE"@) == "WGS84/UTMZONE"@,
{
    reveal_strlit("WGS84/UTMZONE");
    lemma_compact_empty();
    let a0 = Seq::<char>::empty();
    let a1 = a0.push('W');
    lemma_compact_push(a0, 'W');
    let a2 = a1.push('G');
    lemma_compact_push(a1, 'G');
    let a3 = a2.push('S');
    lemma_compact_push(a2, 'S');
    let a4 = a3.push('8');
    lemma_compact_push(a3, '8');
    let a5 = a4.push('4');
    lemma_compact_push(a4, '4');
    let a6 = a5.push('/');
    lemma_compact_push(a5, '/');
    let a7 = a6.push('U');
    lemma_compact_push(a6, 'U');
    let a8 = a7.push('T');
    lemma_compact_push(a7, 'T');
    let a9 = a8.push('M');
    lemma_compact_push(a8, 'M');
    let a10 = a9.push('Z');
    lemma_compact_push(a9, 'Z');
    let a11 = a10.push('O');
    lemma_compact_push(a10, 'O');
    let a12 = a11.push('N');
    lemma_compact_push(a11, 'N');
    let a13 = a12.push('E');
    lemma_compact_push(a12, 'E');
    assert("WGS84/UTMZONE"@ =~= a13);
}

proof fn lemma_spaced_zone_words()
    ensures
        crate::text::all_ascii("WGS 84 / UTM zone "@),
        compact("WGS 84 / UTM zone "@) == "WGS84/UTMZONE"@,
{
    reveal_strlit("WGS84/UTMZONE");
    reveal_strlit("WGS 84 / UTM zone ");
    lemma_compact_empty();
    let a0 = Seq::<char>::empty();
    let a1 = a0.push('W');
    lemma_compact_push(a0, 'W');
    let a2 = a1.push('G');
    lemma_compact_push(a1, 'G');
    let a3 = a2.push('S');
    lemma_compact_push(a2, 'S');
    let a4 = a3.push(' ');
    lemma_compact_push(a3, ' ');
    let a5 = a4.push('8');
    lemma_compact_push(a4, '8');
    let a6 = a5.push('4');
    lemma_compact_push(a5, '4');
    let a7 = a6.push(' ');
    lemma_compact_push(a6, ' ');
    let a8 = a7.push('/');
    lemma_compact_push(a7, '/');
    let a9 = a8.push(' ');
    lemma_compact_push(a8, ' ');
    let a10 = a9.push('U');
    lemma_compact_push(a9, 'U');
    let a11 = a10.push('T');
    lemma_compact_push(a10, 'T');
    let a12 = a11.push('M');
    lemma_compact_push(a11, 'M');
    let a13 = a12.push(' ');
    lemma_compact_push(a12, ' ');
    let a14 = a13.push('z');
    lemma_compact_push(a13, 'z');
    let a15 = a14.push('o');
    lemma_compact_push(a14, 'o');
    let a16 = a15.push('n');
    lemma_compact_push(a15, 'n');
    let a17 = a16.push('e');
    lemma_compact_push(a16, 'e');
    let a18 = a17.push(' ');
    lemma_compact_push(a17, ' ');
    assert("WGS 84 / UTM zone "@ =~= a18);
    assert(compact(a18) =~= "WGS84/UTMZONE"@);
}

/// A name of a zone stands for the system of the zone, for every zone from 1 to 60: number
/// 32600 and that of the zone in the north, number 32700 and that of the zone in the south,
/// with spaces between the words or without them.
pub proof fn law_zone_names(name: &str, crs: Option<KnownCrs>, n: int)
    requires
        call_ensures(parse_known_crs, (name,), crs),
        1 <= n <= 60,
    ensures
        name@ == "WGS84/UTMZONE"@ + zone_digits(n) + seq!['N'] ==> crs == Some(
            KnownCrs::Epsg((32600 + n) as u16),
        ),
        name@ == "WGS84/UTMZONE"@ + zone_digits(n) + seq!['S'] ==> crs == Some(
            KnownCrs::Epsg((32700 + n) as u16),
        ),
        name@ == "WGS 84 / UTM zone "@ + zone_digits(n) + seq!['N'] ==> crs == Some(
            KnownCrs::Epsg((32600 + n) as u16),
        ),
        name@ == "WGS 84 / UTM zone "@ + zone_digits(n) + seq!['S'] ==> crs == Some(
            KnownCrs::Epsg((32700 + n) as u16),
        ),
{
    let (a, b) = ("WGS84/UTMZONE"@ + zone_digits(n), "WGS 84 / UTM zone "@ + zone_digits(n));
    if name@ == a + seq!['N'] || name@ == b + seq!['N'] {
        lemma_compact_zone_name(name@, n, 'N');
        lemma_zone_name(compact(name@), n, true);
    } else if name@ == a + seq!['S'] || name@ == b + seq!['S'] {
        lemma_compact_zone_name(name@, n, 'S');
        lemma_zone_name(compact(name@), n, false);
    }
    reveal_strlit("WGS84/UTMZONE");
    reveal_strlit("WGS 84 / UTM zone ");
    assert((a + seq!['N']).last() == 'N' && (a + seq!['S']).last() == 'S');
    assert((b + seq!['N']).last() == 'N' && (b + seq!['S']).last() == 'S');
}

// ─── Choosing a conversion ───

/// How degrees become coordinates of a raster.
#[derive(Debug, Clone, Copy, PartialEq, Eq, Structural)]
pub enum NativeMethod {
    /// They are its coordinates.
    Identity,
    /// By the system with this number.
    Epsg(u16),
    /// By a transverse projection with the parameters of the raster.
    TransverseMercator,
    /// They do not.
    Unknown,
}

/// How degrees become coordinates of a raster with these keys.
pub fn native_method(info: &GeoKeyInfo) -> (method: NativeMethod)
    ensures
        method == (if info.model_type == Some(2u16) {
            NativeMethod::Identity
        } else if named_epsg(*info) is Some {
            NativeMethod::Epsg(named_epsg(*info)->Some_0)
        } else if info.proj_coord_trans == Some(1u16) {
            NativeMethod::TransverseMercator
        } else {
            NativeMethod::Unknown
        }),
{
    if is_value(info.model_type, 2) {
        return NativeMethod::Identity;
    }
    match epsg_from_geo_key(info) {
        Some(code) => {
            return NativeMethod::Epsg(code);
        },
        None => {},
    }
    if is_value(info.proj_coord_trans, 1) {
        NativeMethod::TransverseMercator
    } else {
        NativeMethod::Unknown
    }
}

/// The operation from degrees to the coordinates of a raster with these keys, where there
/// is one. `tm_operation` is the operation for the parameters of the raster.
pub fn wgs84_to_native_crs(info: &GeoKeyInfo, tm_operation: Option<String>) -> (op: Option<
    CrsOperation,
>)
    ensures
        if info.model_type == Some(2u16) {
            op == Some(CrsOperation::Identity)
        } else if named_epsg(*info) is Some {
            is_operation_for(
                named_epsg(*info)->Some_0,
                defined_operation(named_epsg(*info)->Some_0),
                op,
            )
        } else if info.proj_coord_trans == Some(1u16) && tm_operation is Some {
            op matches Some(CrsOperation::Defined(o)) && o@ == tm_operation->Some_0@
        } else {
            op is None
        },
{
    match native_method(info) {
        NativeMethod::Identity => Some(CrsOperation::Identity),
        NativeMethod::Epsg(code) => crs_operation(code),
        NativeMethod::TransverseMercator => match tm_operation {
            Some(op) => Some(CrsOperation::Defined(op)),
            None => None,
        },
        NativeMethod::Unknown => None,
    }
}

/// A text, or another one where it is missing.
pub open spec fn text_or(t: Option<&str>, default: Seq<char>) -> Seq<char> {
    match t {
        Some(s) => s@,
        None => default,
    }
}

/// The definition of a transverse projection, from the texts of its parameters. Without
/// an origin there is none; the other parameters have defaults.
pub fn proj4_from_tm_params(
    lon0: Option<&str>,
    lat0: Option<&str>,
    k0: Option<&str>,
    false_easting: Option<&str>,
    false_northing: Option<&str>,
) -> (definition: Option<String>)
    ensures
        definition is Some <==> lon0 is Some && lat0 is Some,
        definition is Some ==> definition->Some_0@ == "+proj=tmerc +lat_0="@ + lat0->Some_0@
            + " +lon_0="@ + lon0->Some_0@ + " +k="@ + text_or(k0, "1"@) + " +x_0="@ + text_or(
            false_easting,
            "0"@,
        ) + " +y_0="@ + text_or(false_northing, "0"@) + " +ellps=WGS84 +units=m +no_defs"@,
{
    let lon: &str = match lon0 {
        Some(t) => t,
        None => {
            return None;
        },
    };
    let lat: &str = match lat0 {
        Some(t) => t,
        None => {
            return None;
        },
    };
    let k: &str = match k0 {
        Some(t) => t,
        None => "1",
    };
    let fe: &str = match false_easting {
        Some(t) => t,
        None => "0",
    };
    let fnorth: &str = match false_northing {
        Some(t) => t,
        None => "0",
    };
    let mut d: String = "+proj=tmerc +lat_0=".to_owned();
    d.append(lat);
    d.append(" +lon_0=");
    d.append(lon);
    d.append(" +k=");
    d.append(k);
    d.append(" +x_0=");
    d.append(fe);
    d.append(" +y_0=");
    d.append(fnorth);
    d.append(" +ellps=WGS84 +units=m +no_defs");
    Some(d)
}

/// The operation for a definition, where it has one. The parameters of a definition are
/// numbers: one with the word `inv` has no operation.
pub fn definition_operation(definition: &str) -> (operation: Option<String>)
    ensures
        crate::text::has_text(definition@, "inv"@) ==> operation is None,
        !crate::text::has_text(definition@, "inv"@) ==> crate::text::text_of(operation)
            == proj_operation(definition@),
{
    if contains_text(definition, "inv") {
        return None;
    }
    operation_of(definition)
}

/// A corner of a raster, by the bits of its coordinates.
pub type Corner = (u64, u64);

/// The bits of 180.
pub const HALF_TURN_BITS: u64 = 0x4066_8000_0000_0000;

/// The bits of 90.
pub const QUARTER_TURN_BITS: u64 = 0x4056_8000_0000_0000;

/// The bits of 20037508.34, half of the width of the spherical map of the world.
pub const MERCATOR_BOUND_BITS: u64 = 0x4173_1BF8_4570_A3D7;

/// A corner can be a place in degrees.
pub open spec fn in_degrees(c: Corner) -> bool {
    crate::double::magnitude(c.0) <= HALF_TURN_BITS && crate::double::magnitude(c.1)
        <= QUARTER_TURN_BITS
}

/// A corner can be a place on the spherical map of the world, and not one in degrees.
pub open spec fn in_mercator(c: Corner) -> bool {
    crate::double::magnitude(c.0) <= MERCATOR_BOUND_BITS && crate::double::magnitude(c.1)
        <= MERCATOR_BOUND_BITS && crate::double::magnitude(c.0) > HALF_TURN_BITS
}

/// All corners can be places in degrees.
pub fn geographic_range(corners: &[Corner; 4]) -> (r: bool)
    ensures
        r == all_in_degrees(corners@),
{
    for i in 0..4usize
        invariant
            forall|j: int| 0 <= j < i ==> in_degrees(#[trigger] corners@[j]),
    {
        if abs_bits(corners[i].0) > HALF_TURN_BITS || abs_bits(corners[i].1) > QUARTER_TURN_BITS {
            return false;
        }
    }
    true
}

/// All corners can be places on the spherical map of the world.
pub fn is_web_mercator_range(corners: &[Corner; 4]) -> (r: bool)
    ensures
        r == all_in_mercator(corners@),
{
    for i in 0..4usize
        invariant
            forall|j: int| 0 <= j < i ==> in_mercator(#[trigger] corners@[j]),
    {
        let x: u64 = abs_bits(corners[i].0);
        let y: u64 = abs_bits(corners[i].1);
        if x > MERCATOR_BOUND_BITS || y > MERCATOR_BOUND_BITS || x <= HALF_TURN_BITS {
            return false;
        }
    }
    true
}

/// How the corners of a raster become degrees.
#[derive(Debug, Clone)]
pub enum ExtentMethod {
    /// They do not.
    Unknown,
    /// They are degrees.
    Identity,
    /// By the system with this number.
    Epsg(u16),
    /// By an operation with this definition.
    Operation(String),
}

/// All corners can be places in degrees.
pub open spec fn all_in_degrees(corners: Seq<Corner>) -> bool {
    in_degrees(corners[0]) && in_degrees(corners[1]) && in_degrees(corners[2]) && in_degrees(
        corners[3],
    )
}

/// All corners can be places on the spherical map of the world, and not in degrees.
pub open spec fn all_in_mercator(corners: Seq<Corner>) -> bool {
    in_mercator(corners[0]) && in_mercator(corners[1]) && in_mercator(corners[2]) && in_mercator(
        corners[3],
    )
}

/// How the corners of a raster become degrees: by its keys where they tell, else by the
/// range of the corners. `tm` is the operation for the parameters of the raster, where it
/// has one, and `transform_len` the number of terms of its transform.
pub open spec fn is_extent_method(
    transform_len: int,
    info: GeoKeyInfo,
    tm: Option<Seq<char>>,
    corners: Seq<Corner>,
    method: ExtentMethod,
) -> bool {
    if transform_len < 6 {
        method is Unknown
    } else if info.model_type == Some(2u16) {
        method is Identity
    } else if named_epsg(info) is Some {
        method == ExtentMethod::Epsg(named_epsg(info)->Some_0)
    } else if info.proj_coord_trans == Some(1u16) && tm is Some {
        method matches ExtentMethod::Operation(op) && op@ == tm->Some_0
    } else if all_in_degrees(corners) {
        method is Identity
    } else if all_in_mercator(corners) {
        method == ExtentMethod::Epsg(3857)
    } else {
        method is Unknown
    }
}

/// How the corners of a raster become degrees.
pub fn extent_method(
    transform_len: usize,
    info: &GeoKeyInfo,
    tm_operation: Option<String>,
    corners: &[Corner; 4],
) -> (method: ExtentMethod)
    ensures
        is_extent_method(
            transform_len as int,
            *info,
            crate::text::text_of(tm_operation),
            corners@,
            method,
        ),
{
    if transform_len < 6 {
        return ExtentMethod::Unknown;
    }
    if is_value(info.model_type, 2) {
        return ExtentMethod::Identity;
    }
    match epsg_from_geo_key(info) {
        Some(code) => {
            return ExtentMethod::Epsg(code);
        },
        None => {},
    }
    if is_value(info.proj_coord_trans, 1) {
        match tm_operation {
            Some(op) => {
                return ExtentMethod::Operation(op);
            },
            None => {},
        }
    }
    if geographic_range(corners) {
        return ExtentMethod::Identity;
    }
    if is_web_mercator_range(corners) {
        return ExtentMethod::Epsg(3857);
    }
    ExtentMethod::Unknown
}

/// The corners of an extent `[west, south, east, north]`: those in the south first, and
/// of two in the same row the western one first.
pub open spec fn corners_of<F>(extent: Seq<F>) -> Seq<(F, F)> {
    seq![
        (extent[0], extent[1]),
        (extent[2], extent[1]),
        (extent[0], extent[3]),
        (extent[2], extent[3]),
    ]
}

/// The corners of an extent.
pub fn extent_corners<F: Copy>(extent: &[F; 4]) -> (corners: [(F, F); 4])
    ensures
        corners@ == corners_of(extent@),
{
    let corners: [(F, F); 4] = [
        (extent[0], extent[1]),
        (extent[2], extent[1]),
        (extent[0], extent[3]),
        (extent[2], extent[3]),
    ];
    assert(corners@ =~= corners_of(extent@));
    corners
}

/// Four converted corners, where all could be converted.
pub fn all_corners<F: Copy>(corners: &[Option<(F, F)>; 4]) -> (all: Option<[(F, F); 4]>)
    ensures
        all is Some <==> corners@[0] is Some && corners@[1] is Some && corners@[2] is Some
            && corners@[3] is Some,
        all is Some ==> forall|i: int|
            0 <= i < 4 ==> Some(#[trigger] all->Some_0@[i]) == corners@[i],
{
    match (corners[0], corners[1], corners[2], corners[3]) {
        (Some(a), Some(b), Some(c), Some(d)) => {
            let r: [(F, F); 4] = [a, b, c, d];
            Some(r)
        },
        _ => None,
    }
}

/// `m` is the least, or the greatest, of four doubles.
pub open spec fn is_extreme(v: Seq<u64>, m: u64, greatest: bool) -> bool {
    &&& v.contains(m)
    &&& forall|i: int|
        0 <= i < v.len() ==> if greatest {
            crate::double::rank(#[trigger] v[i]) <= crate::double::rank(m)
        } else {
            crate::double::rank(m) <= crate::double::rank(v[i])
        }
}

fn extremes(v: &Vec<u64>) -> (r: (u64, u64))
    requires
        v@.len() > 0,
    ensures
        is_extreme(v@, r.0, false),
        is_extreme(v@, r.1, true),
{
    let mut ranks: Vec<i64> = Vec::new();
    for i in 0..v.len()
        invariant
            ranks@.len() == i,
            forall|j: int| 0 <= j < i ==> #[trigger] ranks@[j] == crate::double::rank(v@[j]),
    {
        ranks.push(rank_of(v[i]));
    }
    let order: Vec<usize> = stable_order(&ranks);
    let n: usize = order.len();
    proof {
        assert(order@[0] < ranks@.len() && order@[n - 1] < ranks@.len());
        assert forall|i: int| 0 <= i < v@.len() implies crate::double::rank(
            v@[order@[0] as int],
        ) <= crate::double::rank(#[trigger] v@[i]) && crate::double::rank(v@[i])
            <= crate::double::rank(v@[order@[n - 1] as int]) by {
            assert(order@.contains(i as usize));
            let k = choose|k: int| 0 <= k < order@.len() && order@[k] == i as usize;
            if k > 0 {
                assert(crate::order::ordered_pair(
                    ranks@,
                    order@[0] as int,
                    order@[k] as int,
                ));
            }
            if k < n - 1 {
                assert(crate::order::ordered_pair(
                    ranks@,
                    order@[k] as int,
                    order@[n - 1] as int,
                ));
            }
            assert(ranks@[i] == crate::double::rank(v@[i]));
        }
    }
    (v[order[0]], v[order[n - 1]])
}

/// An extent `[west, south, east, north]` goes from the least to the greatest of the
/// coordinates of corners.
pub open spec fn is_extent(corners: Seq<Corner>, extent: Seq<u64>) -> bool {
    let xs = corners.map_values(|c: Corner| c.0);
    let ys = corners.map_values(|c: Corner| c.1);
    &&& is_extreme(xs, extent[0], false)
    &&& is_extreme(ys, extent[1], false)
    &&& is_extreme(xs, extent[2], true)
    &&& is_extreme(ys, extent[3], true)
}

/// Both coordinates of every corner are numbers or infinite.
pub open spec fn all_numbers(corners: Seq<Corner>) -> bool {
    forall|i: int|
        0 <= i < corners.len() ==> crate::double::is_number((#[trigger] corners[i]).0)
            && crate::double::is_number(corners[i].1)
}

/// The extent of four corners: the least and the greatest of their coordinates.
pub fn sort_extent(corners: &[Corner; 4]) -> (extent: [u64; 4])
    requires
        all_numbers(corners@),
    ensures
        is_extent(corners@, extent@),
{
    let mut xs: Vec<u64> = Vec::new();
    let mut ys: Vec<u64> = Vec::new();
    for i in 0..4usize
        invariant
            xs@.len() == i,
            ys@.len() == i,
            forall|j: int| 0 <= j < i ==> #[trigger] xs@[j] == corners@[j].0,
            forall|j: int| 0 <= j < i ==> #[trigger] ys@[j] == corners@[j].1,
    {
        xs.push(corners[i].0);
        ys.push(corners[i].1);
    }
    proof {
        assert(xs@ =~= corners@.map_values(|c: Corner| c.0));
        assert(ys@ =~= corners@.map_values(|c: Corner| c.1));
    }
    let (west, east): (u64, u64) = extremes(&xs);
    let (south, north): (u64, u64) = extremes(&ys);
    [west, south, east, north]
}

/// `convert` can be called, and a corner that it gives has numbers for coordinates.
pub open spec fn is_converter<C: Fn(&CrsOperation, Corner) -> Option<Corner>>(convert: C) -> bool {
    &&& forall|op: &CrsOperation, c: Corner| convert.requires((op, c))
    &&& forall|op: &CrsOperation, c: Corner, r: Option<Corner>| #[trigger]
        convert.ensures((op, c), r) && r is Some ==> crate::double::is_number(r->Some_0.0)
            && crate::double::is_number(r->Some_0.1)
}

/// The corners that were converted.
pub open spec fn found_corners(found: Seq<Option<Corner>>) -> Seq<Corner> {
    found.map_values(|c: Option<Corner>| c->Some_0)
}

/// `found` is what `convert` gives for each corner.
pub open spec fn each_converted<C: Fn(&CrsOperation, Corner) -> Option<Corner>>(
    op: CrsOperation,
    corners: Seq<Corner>,
    convert: C,
    found: Seq<Option<Corner>>,
) -> bool {
    &&& found.len() == corners.len()
    &&& forall|i: int|
        0 <= i < found.len() ==> convert.ensures((&op, corners[i]), #[trigger] found[i])
}

/// The extent of the converted corners, where all of them can be converted.
pub open spec fn is_converted_extent<C: Fn(&CrsOperation, Corner) -> Option<Corner>>(
    op: CrsOperation,
    corners: Seq<Corner>,
    convert: C,
    extent: Option<[u64; 4]>,
) -> bool {
    exists|found: Seq<Option<Corner>>|
        #![trigger each_converted(op, corners, convert, found)]
        each_converted(op, corners, convert, found) && match extent {
            Some(e) => (forall|i: int| 0 <= i < found.len() ==> #[trigger] found[i] is Some)
                && is_extent(found_corners(found), e@),
            None => exists|i: int| 0 <= i < found.len() && #[trigger] found[i] is None,
        }
}

fn converted_extent<C: Fn(&CrsOperation, Corner) -> Option<Corner>>(
    op: &CrsOperation,
    corners: &[Corner; 4],
    convert: &C,
) -> (extent: Option<[u64; 4]>)
    requires
        is_converter(*convert),
    ensures
        is_converted_extent(*op, corners@, *convert, extent),
{
    let found: [Option<Corner>; 4] = [
        convert(op, corners[0]),
        convert(op, corners[1]),
        convert(op, corners[2]),
        convert(op, corners[3]),
    ];
    assert(each_converted(*op, corners@, *convert, found@));
    match all_corners(&found) {
        Some(all) => {
            assert(all@ =~= found_corners(found@)) by {
                assert(Some(all@[0]) == found@[0]);
                assert(Some(all@[1]) == found@[1]);
                assert(Some(all@[2]) == found@[2]);
                assert(Some(all@[3]) == found@[3]);
            }
            assert forall|i: int| 0 <= i < 4 implies crate::double::is_number(
                (#[trigger] all@[i]).0,
            ) && crate::double::is_number(all@[i].1) by {
                assert(convert.ensures((op, corners@[i]), found@[i]));
            }
            Some(sort_extent(&all))
        },
        None => None,
    }
}

/// The extent in degrees of corners in a known system: `convert` gives the degrees of a
/// corner by an operation. There is none where the system has no operation or a corner
/// cannot be converted.
pub fn known_crs_corners_to_wgs84<C: Fn(&CrsOperation, Corner) -> Option<Corner>>(
    corners: &[Corner; 4],
    crs: KnownCrs,
    convert: C,
) -> (extent: Option<[u64; 4]>)
    requires
        is_converter(convert),
        crs is Wgs84 ==> all_numbers(corners@),
    ensures
        if crs is Wgs84 {
            extent is Some && is_extent(corners@, extent->Some_0@)
        } else {
            exists|op: Option<CrsOperation>|
                #![trigger is_operation_for(crs.code(), defined_operation(crs.code()), op)]
                is_operation_for(crs.code(), defined_operation(crs.code()), op) && match op {
                    Some(o) => is_converted_extent(o, corners@, convert, extent),
                    None => extent is None,
                }
        },
{
    match crs {
        KnownCrs::Wgs84 => Some(sort_extent(corners)),
        _ => {
            let op: Option<CrsOperation> = known_crs_operation(crs);
            assert(is_operation_for(crs.code(), defined_operation(crs.code()), op));
            match &op {
                Some(o) => converted_extent(o, corners, &convert),
                None => None,
            }
        },
    }
}

/// The extent in degrees of an extent in a known system.
pub fn known_crs_extent_to_wgs84<C: Fn(&CrsOperation, Corner) -> Option<Corner>>(
    extent: [u64; 4],
    crs: KnownCrs,
    convert: C,
) -> (degrees: Option<[u64; 4]>)
    requires
        is_converter(convert),
        crs is Wgs84 ==> forall|i: int|
            0 <= i < 4 ==> crate::double::is_number(#[trigger] extent@[i]),
    ensures
        ({
            let corners = corners_of(extent@);
            if crs is Wgs84 {
                degrees is Some && is_extent(corners, degrees->Some_0@)
            } else {
                exists|op: Option<CrsOperation>|
                    #![trigger is_operation_for(crs.code(), defined_operation(crs.code()), op)]
                    is_operation_for(crs.code(), defined_operation(crs.code()), op) && match op {
                        Some(o) => is_converted_extent(o, corners, convert, degrees),
                        None => degrees is None,
                    }
            }
        }),
{
    let corners: [Corner; 4] = extent_corners(&extent);
    known_crs_corners_to_wgs84(&corners, crs, convert)
}

/// The extent in degrees of a raster, from its corners: `convert` gives the degrees of a
/// corner by an operation. There is none where nothing tells how the corners become
/// degrees, where there is no operation, or where a corner cannot be converted.
pub fn extent_to_wgs84<C: Fn(&CrsOperation, Corner) -> Option<Corner>>(
    transform_len: usize,
    info: &GeoKeyInfo,
    tm_operation: Option<String>,
    corners: &[Corner; 4],
    convert: C,
) -> (extent: Option<[u64; 4]>)
    requires
        is_converter(convert),
        info.model_type == Some(2u16) ==> all_numbers(corners@),
    ensures
        exists|method: ExtentMethod|
            #![trigger is_extent_method(
                transform_len as int,
                *info,
                crate::text::text_of(tm_operation),
                corners@,
                method,
            )]
            is_extent_method(
                transform_len as int,
                *info,
                crate::text::text_of(tm_operation),
                corners@,
                method,
            ) && is_extent_by(method, corners@, convert, extent),
{
    let ghost tm = crate::text::text_of(tm_operation);
    let method: ExtentMethod = extent_method(transform_len, info, tm_operation, corners);
    assert(is_extent_method(transform_len as int, *info, tm, corners@, method));
    match method {
        ExtentMethod::Unknown => None,
        ExtentMethod::Identity => Some(sort_extent(corners)),
        ExtentMethod::Epsg(code) => {
            let op: Option<CrsOperation> = crs_operation(code);
            assert(is_operation_for(code, defined_operation(code), op));
            match &op {
                Some(o) => converted_extent(o, corners, &convert),
                None => None,
            }
        },
        ExtentMethod::Operation(text) => {
            let op: CrsOperation = CrsOperation::Defined(text);
            converted_extent(&op, corners, &convert)
        },
    }
}

/// The extent in degrees of corners that become degrees in a certain way.
pub open spec fn is_extent_by<C: Fn(&CrsOperation, Corner) -> Option<Corner>>(
    method: ExtentMethod,
    corners: Seq<Corner>,
    convert: C,
    extent: Option<[u64; 4]>,
) -> bool {
    match method {
        ExtentMethod::Unknown => extent is None,
        ExtentMethod::Identity => extent is Some && is_extent(corners, extent->Some_0@),
        ExtentMethod::Epsg(code) => exists|op: Option<CrsOperation>|
            #![trigger is_operation_for(code, defined_operation(code), op)]
            is_operation_for(code, defined_operation(code), op) && match op {
                Some(o) => is_converted_extent(o, corners, convert, extent),
                None => extent is None,
            },
        ExtentMethod::Operation(text) => is_converted_extent(
            CrsOperation::Defined(text),
            corners,
            convert,
            extent,
        ),
    }
}

/// The extent of four corners, where coordinates that are no numbers do not count.
pub open spec fn bounding(c: Seq<Corner>) -> Seq<u64> {
    seq![
        crate::double::lesser(
            crate::double::lesser(crate::double::lesser(c[0].0, c[1].0), c[2].0),
            c[3].0,
        ),
        crate::double::lesser(
            crate::double::lesser(crate::double::lesser(c[0].1, c[1].1), c[2].1),
            c[3].1,
        ),
        crate::double::greater(
            crate::double::greater(crate::double::greater(c[0].0, c[1].0), c[2].0),
            c[3].0,
        ),
        crate::double::greater(
            crate::double::greater(crate::double::greater(c[0].1, c[1].1), c[2].1),
            c[3].1,
        ),
    ]
}

/// The extent of four corners, where coordinates that are no numbers do not count.
pub fn bounding_extent(c: &[Corner; 4]) -> (extent: [u64; 4])
    ensures
        extent@ == bounding(c@),
{
    let extent: [u64; 4] = [
        lesser_of(lesser_of(lesser_of(c[0].0, c[1].0), c[2].0), c[3].0),
        lesser_of(lesser_of(lesser_of(c[0].1, c[1].1), c[2].1), c[3].1),
        greater_of(greater_of(greater_of(c[0].0, c[1].0), c[2].0), c[3].0),
        greater_of(greater_of(greater_of(c[0].1, c[1].1), c[2].1), c[3].1),
    ];
    assert(extent@ =~= bounding(c@));
    extent
}

// ─── What holds of systems and extents ───

/// The number of a known system.
pub proof fn law_numbers_of_systems(crs: KnownCrs, code: Option<u16>)
    requires
        call_ensures(KnownCrs::epsg_code, (&crs,), code),
    ensures
        crs is Wgs84 ==> code == Some(4326u16),
        crs is WebMercator ==> code == Some(3857u16),
        crs matches KnownCrs::Epsg(n) ==> code == Some(n),
{
}

/// Degrees are converted to no other system by nothing, the system of the web has its own
/// operation, and any other system the one of its definition, where it has one.
pub proof fn law_operations_of_systems(code: u16, op: Option<CrsOperation>)
    requires
        call_ensures(crs_operation, (code,), op),
    ensures
        code == 4326 ==> op == Some(CrsOperation::Identity),
        code == 3857 ==> op == Some(CrsOperation::WebMercator),
        code != 4326 && code != 3857 && crs_definition(code) is None ==> op is None,
        code != 4326 && code != 3857 && crs_definition(code) is Some && proj_operation(
            crs_definition(code)->Some_0,
        ) is None ==> op is None,
        code != 4326 && code != 3857 && crs_definition(code) is Some && proj_operation(
            crs_definition(code)->Some_0,
        ) is Some ==> (op matches Some(CrsOperation::Defined(o)) && o@ == proj_operation(
            crs_definition(code)->Some_0,
        )->Some_0),
{
}

/// A known system has the operation of its number.
pub proof fn law_known_systems_have_operations(
    crs: KnownCrs,
    a: Option<CrsOperation>,
    code: u16,
    b: Option<CrsOperation>,
)
    requires
        call_ensures(known_crs_operation, (crs,), a),
        call_ensures(crs_operation, (code,), b),
    ensures
        crs is Wgs84 ==> a == Some(CrsOperation::Identity),
        crs is WebMercator ==> a == Some(CrsOperation::WebMercator),
        crs == KnownCrs::Epsg(code) ==> match (a, b) {
            (Some(CrsOperation::Defined(x)), Some(CrsOperation::Defined(y))) => x@ == y@,
            _ => a == b,
        },
{
}

/// The keys of a raster name its system by its projected number where there is one. A
/// geographic raster without it has its geographic number, or that of degrees. A raster of
/// another model has its geographic number, unless it has a transverse projection of its own.
pub proof fn law_keys_name_systems(info: &GeoKeyInfo, code: Option<u16>)
    requires
        call_ensures(epsg_from_geo_key, (info,), code),
    ensures
        info.projected_type is Some ==> code == info.projected_type,
        info.projected_type is None && info.model_type == Some(2u16) && info.geographic_type is Some
            ==> code == info.geographic_type,
        info.projected_type is None && info.model_type == Some(2u16) && info.geographic_type is None
            ==> code == Some(4326u16),
        info.projected_type is None && info.model_type != Some(2u16) && info.proj_coord_trans
            == Some(1u16) ==> code is None,
        info.projected_type is None && info.model_type != Some(2u16) && info.proj_coord_trans
            != Some(1u16) ==> code == info.geographic_type,
{
}

/// The coordinates of a geographic raster are degrees. Those of any other go by the number of
/// its system, and where it has none by its own transverse projection.
pub proof fn law_ways_to_coordinates(info: &GeoKeyInfo, method: NativeMethod, code: Option<u16>)
    requires
        call_ensures(native_method, (info,), method),
        call_ensures(epsg_from_geo_key, (info,), code),
    ensures
        info.model_type == Some(2u16) <==> method is Identity,
        info.model_type != Some(2u16) && code is Some ==> method == NativeMethod::Epsg(
            code->Some_0,
        ),
        info.model_type != Some(2u16) && code is None && info.proj_coord_trans == Some(1u16)
            ==> method is TransverseMercator,
        info.model_type != Some(2u16) && code is None && info.proj_coord_trans != Some(1u16)
            ==> method is Unknown,
{
}

/// The operation from degrees to the coordinates of a raster is that of its system, or that of
/// its own transverse projection where its keys name no system.
pub proof fn law_operations_to_coordinates(
    info: &GeoKeyInfo,
    tm: Option<String>,
    op: Option<CrsOperation>,
    code: Option<u16>,
    known: Option<CrsOperation>,
)
    requires
        call_ensures(wgs84_to_native_crs, (info, tm), op),
        call_ensures(epsg_from_geo_key, (info,), code),
        code is Some ==> call_ensures(crs_operation, (code->Some_0,), known),
    ensures
        info.model_type == Some(2u16) ==> op == Some(CrsOperation::Identity),
        info.model_type != Some(2u16) && code is Some ==> match (op, known) {
            (Some(CrsOperation::Defined(x)), Some(CrsOperation::Defined(y))) => x@ == y@,
            _ => op == known,
        },
        info.model_type != Some(2u16) && code is None && info.proj_coord_trans == Some(1u16)
            && tm is Some ==> (op matches Some(CrsOperation::Defined(o)) && o@ == tm->Some_0@),
        info.model_type != Some(2u16) && code is None && (info.proj_coord_trans != Some(1u16)
            || tm is None) ==> op is None,
{
}

/// A definition of a transverse projection holds each parameter under its own name, and
/// defaults for those that may be missing.
pub proof fn law_parameters_of_a_definition(
    lon0: Option<&str>,
    lat0: Option<&str>,
    k0: Option<&str>,
    east: Option<&str>,
    north: Option<&str>,
    definition: Option<String>,
)
    requires
        call_ensures(proj4_from_tm_params, (lon0, lat0, k0, east, north), definition),
    ensures
        definition is Some <==> lon0 is Some && lat0 is Some,
        definition is Some ==> definition->Some_0@ == "+proj=tmerc +lat_0="@ + lat0->Some_0@
            + " +lon_0="@ + lon0->Some_0@ + " +k="@ + (match k0 {
            Some(t) => t@,
            None => "1"@,
        }) + " +x_0="@ + (match east {
            Some(t) => t@,
            None => "0"@,
        }) + " +y_0="@ + (match north {
            Some(t) => t@,
            None => "0"@,
        }) + " +ellps=WGS84 +units=m +no_defs"@,
{
}

/// Corners can be degrees where none is further than 180 from zero to the east or west and
/// than 90 to the north or south. They can lie on the map of the web where each is further
/// than 180, and none further than half of the width of that map.
pub proof fn law_ranges_of_corners(corners: &[Corner; 4], degrees: bool, web: bool)
    requires
        call_ensures(geographic_range, (corners,), degrees),
        call_ensures(is_web_mercator_range, (corners,), web),
    ensures
        degrees <==> forall|i: int|
            0 <= i < 4 ==> (#[trigger] corners@[i]).0 as int % 0x8000_0000_0000_0000
                <= 0x4066_8000_0000_0000 && corners@[i].1 as int % 0x8000_0000_0000_0000
                <= 0x4056_8000_0000_0000,
        web <==> forall|i: int|
            0 <= i < 4 ==> 0x4066_8000_0000_0000 < (#[trigger] corners@[i]).0 as int
                % 0x8000_0000_0000_0000 <= 0x4173_1BF8_4570_A3D7 && corners@[i].1 as int
                % 0x8000_0000_0000_0000 <= 0x4173_1BF8_4570_A3D7,
{
    assert forall|b: u64| #[trigger] crate::double::magnitude(b) == b as int
        % 0x8000_0000_0000_0000 by {}
    let c = corners@;
    assert(crate::double::magnitude(c[0].0) >= 0 && crate::double::magnitude(c[0].1) >= 0);
    assert(crate::double::magnitude(c[1].0) >= 0 && crate::double::magnitude(c[1].1) >= 0);
    assert(crate::double::magnitude(c[2].0) >= 0 && crate::double::magnitude(c[2].1) >= 0);
    assert(crate::double::magnitude(c[3].0) >= 0 && crate::double::magnitude(c[3].1) >= 0);
    if degrees {
        assert forall|i: int| 0 <= i < 4 implies (#[trigger] c[i]).0 as int
            % 0x8000_0000_0000_0000 <= 0x4066_8000_0000_0000 && c[i].1 as int
            % 0x8000_0000_0000_0000 <= 0x4056_8000_0000_0000 by {
            assert(in_degrees(c[i]));
        }
    }
    if forall|i: int|
        0 <= i < 4 ==> (#[trigger] c[i]).0 as int % 0x8000_0000_0000_0000
            <= 0x4066_8000_0000_0000 && c[i].1 as int % 0x8000_0000_0000_0000
            <= 0x4056_8000_0000_0000 {
        assert(in_degrees(c[0]) && in_degrees(c[1]) && in_degrees(c[2]) && in_degrees(c[3]));
    }
    if web {
        assert forall|i: int| 0 <= i < 4 implies 0x4066_8000_0000_0000 < (
        #[trigger] c[i]).0 as int % 0x8000_0000_0000_0000 <= 0x4173_1BF8_4570_A3D7 && c[i].1 as int
            % 0x8000_0000_0000_0000 <= 0x4173_1BF8_4570_A3D7 by {
            assert(in_mercator(c[i]));
        }
    }
    if forall|i: int|
        0 <= i < 4 ==> 0x4066_8000_0000_0000 < (#[trigger] c[i]).0 as int % 0x8000_0000_0000_0000
            <= 0x4173_1BF8_4570_A3D7 && c[i].1 as int % 0x8000_0000_0000_0000
            <= 0x4173_1BF8_4570_A3D7 {
        assert(in_mercator(c[0]) && in_mercator(c[1]) && in_mercator(c[2]) && in_mercator(c[3]));
    }
}

/// The corners of a raster become degrees by its keys where they tell: not at all where they
/// are degrees, by the number of its system, or by its own transverse projection. Where they
/// do not tell, it goes by the range of the corners.
pub proof fn law_ways_to_degrees(
    transform_len: usize,
    info: &GeoKeyInfo,
    tm: Option<String>,
    corners: &[Corner; 4],
    method: ExtentMethod,
    code: Option<u16>,
    degrees: bool,
    web: bool,
)
    requires
        call_ensures(extent_method, (transform_len, info, tm, corners), method),
        call_ensures(epsg_from_geo_key, (info,), code),
        call_ensures(geographic_range, (corners,), degrees),
        call_ensures(is_web_mercator_range, (corners,), web),
    ensures
        transform_len < 6 ==> method is Unknown,
        transform_len >= 6 && info.model_type == Some(2u16) ==> method is Identity,
        transform_len >= 6 && info.model_type != Some(2u16) && code is Some ==> method
            == ExtentMethod::Epsg(code->Some_0),
        transform_len >= 6 && info.model_type != Some(2u16) && code is None
            && info.proj_coord_trans == Some(1u16) && tm is Some ==> (method matches
            ExtentMethod::Operation(o) && o@ == tm->Some_0@),
        transform_len >= 6 && info.model_type != Some(2u16) && code is None
            && (info.proj_coord_trans != Some(1u16) || tm is None) ==> {
            &&& degrees ==> method is Identity
            &&& !degrees && web ==> method == ExtentMethod::Epsg(3857)
            &&& !degrees && !web ==> method is Unknown
        },
{
}

/// The corners of an extent are all four combinations of its west or east with its south or
/// north.
pub proof fn law_corners_of_an_extent<F: Copy>(extent: &[F; 4], corners: [(F, F); 4])
    requires
        call_ensures(extent_corners::<F>, (extent,), corners),
    ensures
        corners@[0] == (extent@[0], extent@[1]),
        corners@[1] == (extent@[2], extent@[1]),
        corners@[2] == (extent@[0], extent@[3]),
        corners@[3] == (extent@[2], extent@[3]),
{
}

/// The extent of corners holds every corner, and each of its sides is a coordinate of some
/// corner. So does the one in which what is no number does not count, where all are numbers.
pub proof fn law_extent_holds_every_corner(
    corners: &[Corner; 4],
    sorted: [u64; 4],
    bounds: [u64; 4],
)
    requires
        call_ensures(sort_extent, (corners,), sorted),
        call_ensures(bounding_extent, (corners,), bounds),
        all_numbers(corners@),
    ensures
        holds_corners(corners@, sorted@),
        holds_corners(corners@, bounds@),
{
    let c = corners@;
    let xs = c.map_values(|c: Corner| c.0);
    let ys = c.map_values(|c: Corner| c.1);
    assert(c.len() == 4);
    assert forall|i: int| 0 <= i < 4 implies {
        &&& crate::double::rank(sorted@[0]) <= crate::double::rank((#[trigger] c[i]).0)
        &&& crate::double::rank(sorted@[1]) <= crate::double::rank(c[i].1)
        &&& crate::double::rank(c[i].0) <= crate::double::rank(sorted@[2])
        &&& crate::double::rank(c[i].1) <= crate::double::rank(sorted@[3])
    } by {
        assert(xs[i] == c[i].0 && ys[i] == c[i].1);
    }
    assert(is_extreme(xs, sorted@[0], false) && is_extreme(ys, sorted@[1], false));
    assert(is_extreme(xs, sorted@[2], true) && is_extreme(ys, sorted@[3], true));
    assert(exists|i: int| 0 <= i < 4 && (#[trigger] c[i]).0 == sorted@[0]) by {
        let i = choose|i: int| 0 <= i < xs.len() && xs[i] == sorted@[0];
        assert(c[i].0 == sorted@[0]);
    }
    assert(exists|i: int| 0 <= i < 4 && (#[trigger] c[i]).1 == sorted@[1]) by {
        let i = choose|i: int| 0 <= i < ys.len() && ys[i] == sorted@[1];
        assert(c[i].1 == sorted@[1]);
    }
    assert(exists|i: int| 0 <= i < 4 && (#[trigger] c[i]).0 == sorted@[2]) by {
        let i = choose|i: int| 0 <= i < xs.len() && xs[i] == sorted@[2];
        assert(c[i].0 == sorted@[2]);
    }
    assert(exists|i: int| 0 <= i < 4 && (#[trigger] c[i]).1 == sorted@[3]) by {
        let i = choose|i: int| 0 <= i < ys.len() && ys[i] == sorted@[3];
        assert(c[i].1 == sorted@[3]);
    }
    let b = bounds@;
    assert(b == bounding(c));
    assert(crate::double::is_number(c[0].0) && crate::double::is_number(c[0].1));
    assert(crate::double::is_number(c[1].0) && crate::double::is_number(c[1].1));
    assert(crate::double::is_number(c[2].0) && crate::double::is_number(c[2].1));
    assert(crate::double::is_number(c[3].0) && crate::double::is_number(c[3].1));
    assert(exists|i: int| 0 <= i < 4 && (#[trigger] c[i]).0 == b[0]) by {
        assert(b[0] == c[0].0 || b[0] == c[1].0 || b[0] == c[2].0 || b[0] == c[3].0);
    }
    assert(exists|i: int| 0 <= i < 4 && (#[trigger] c[i]).1 == b[1]) by {
        assert(b[1] == c[0].1 || b[1] == c[1].1 || b[1] == c[2].1 || b[1] == c[3].1);
    }
    assert(exists|i: int| 0 <= i < 4 && (#[trigger] c[i]).0 == b[2]) by {
        assert(b[2] == c[0].0 || b[2] == c[1].0 || b[2] == c[2].0 || b[2] == c[3].0);
    }
    assert(exists|i: int| 0 <= i < 4 && (#[trigger] c[i]).1 == b[3]) by {
        assert(b[3] == c[0].1 || b[3] == c[1].1 || b[3] == c[2].1 || b[3] == c[3].1);
    }
}

/// An extent `[west, south, east, north]` holds every corner, and each of its sides is a
/// coordinate of some corner.
pub open spec fn holds_corners(c: Seq<Corner>, extent: Seq<u64>) -> bool {
    &&& forall|i: int|
        0 <= i < 4 ==> {
            &&& crate::double::rank(extent[0]) <= crate::double::rank((#[trigger] c[i]).0)
            &&& crate::double::rank(extent[1]) <= crate::double::rank(c[i].1)
            &&& crate::double::rank(c[i].0) <= crate::double::rank(extent[2])
            &&& crate::double::rank(c[i].1) <= crate::double::rank(extent[3])
        }
    &&& exists|i: int| 0 <= i < 4 && (#[trigger] c[i]).0 == extent[0]
    &&& exists|i: int| 0 <= i < 4 && (#[trigger] c[i]).1 == extent[1]
    &&& exists|i: int| 0 <= i < 4 && (#[trigger] c[i]).0 == extent[2]
    &&& exists|i: int| 0 <= i < 4 && (#[trigger] c[i]).1 == extent[3]
}

proof fn lemma_extent_holds(c: Seq<Corner>, extent: Seq<u64>)
    requires
        c.len() == 4,
        is_extent(c, extent),
    ensures
        holds_corners(c, extent),
{
    let xs = c.map_values(|c: Corner| c.0);
    let ys = c.map_values(|c: Corner| c.1);
    assert forall|i: int| 0 <= i < 4 implies {
        &&& crate::double::rank(extent[0]) <= crate::double::rank((#[trigger] c[i]).0)
        &&& crate::double::rank(extent[1]) <= crate::double::rank(c[i].1)
        &&& crate::double::rank(c[i].0) <= crate::double::rank(extent[2])
        &&& crate::double::rank(c[i].1) <= crate::double::rank(extent[3])
    } by {
        assert(xs[i] == c[i].0 && ys[i] == c[i].1);
    }
    let a = choose|i: int| 0 <= i < xs.len() && xs[i] == extent[0];
    assert(c[a].0 == extent[0]);
    let b = choose|i: int| 0 <= i < ys.len() && ys[i] == extent[1];
    assert(c[b].1 == extent[1]);
    let d = choose|i: int| 0 <= i < xs.len() && xs[i] == extent[2];
    assert(c[d].0 == extent[2]);
    let e = choose|i: int| 0 <= i < ys.len() && ys[i] == extent[3];
    assert(c[e].1 == extent[3]);
}

/// Every corner was converted by an operation, and an extent is the one of what came out; or
/// some corner cannot be converted, and there is none.
pub open spec fn holds_converted<C: Fn(&CrsOperation, Corner) -> Option<Corner>>(
    op: CrsOperation,
    corners: Seq<Corner>,
    convert: C,
    extent: Option<[u64; 4]>,
    found: Seq<Option<Corner>>,
) -> bool {
    &&& found.len() == 4
    &&& forall|i: int| 0 <= i < 4 ==> convert.ensures((&op, corners[i]), #[trigger] found[i])
    &&& extent matches Some(e) ==> (forall|i: int| 0 <= i < 4 ==> (#[trigger] found[i]) is Some)
        && holds_corners(Seq::new(4, |i: int| found[i]->Some_0), e@)
    &&& extent is None ==> exists|i: int| 0 <= i < 4 && (#[trigger] found[i]) is None
}

proof fn lemma_converted_holds<C: Fn(&CrsOperation, Corner) -> Option<Corner>>(
    op: CrsOperation,
    corners: Seq<Corner>,
    convert: C,
    extent: Option<[u64; 4]>,
)
    requires
        corners.len() == 4,
        is_converted_extent(op, corners, convert, extent),
    ensures
        exists|found: Seq<Option<Corner>>| #[trigger]
            holds_converted(op, corners, convert, extent, found),
{
    let found = choose|found: Seq<Option<Corner>>|
        #![trigger each_converted(op, corners, convert, found)]
        each_converted(op, corners, convert, found) && match extent {
            Some(e) => (forall|i: int| 0 <= i < found.len() ==> #[trigger] found[i] is Some)
                && is_extent(found_corners(found), e@),
            None => exists|i: int| 0 <= i < found.len() && #[trigger] found[i] is None,
        };
    match extent {
        Some(e) => {
            assert(Seq::new(4, |i: int| found[i]->Some_0) =~= found_corners(found));
            lemma_extent_holds(found_corners(found), e@);
        },
        None => {},
    }
    assert(holds_converted(op, corners, convert, extent, found));
}

/// The extent of corners in degrees holds every corner once it is converted by the operation
/// of its system. Corners that are degrees already stay as they are. Where the system has no
/// operation, or a corner cannot be converted, there is none.
pub proof fn law_extent_in_degrees<C: Fn(&CrsOperation, Corner) -> Option<Corner>>(
    corners: &[Corner; 4],
    crs: KnownCrs,
    convert: C,
    extent: Option<[u64; 4]>,
)
    requires
        call_ensures(known_crs_corners_to_wgs84::<C>, (corners, crs, convert), extent),
    ensures
        crs is Wgs84 ==> extent is Some && holds_corners(corners@, extent->Some_0@),
        crs is WebMercator ==> exists|found: Seq<Option<Corner>>| #[trigger]
            holds_converted(CrsOperation::WebMercator, corners@, convert, extent, found),
        crs matches KnownCrs::Epsg(code) ==> code != 4326 && code != 3857
            && defined_operation(code) is None ==> extent is None,
        crs matches KnownCrs::Epsg(code) ==> code != 4326 && code != 3857
            && defined_operation(code) is Some ==> exists|op: String, found: Seq<Option<Corner>>|
            op@ == defined_operation(code)->Some_0 && #[trigger] holds_converted(
                CrsOperation::Defined(op),
                corners@,
                convert,
                extent,
                found,
            ),
{
    let c = corners@;
    assert(c.len() == 4);
    if crs is Wgs84 {
        lemma_extent_holds(c, extent->Some_0@);
    } else {
        let op = choose|op: Option<CrsOperation>|
            #![trigger is_operation_for(crs.code(), defined_operation(crs.code()), op)]
            is_operation_for(crs.code(), defined_operation(crs.code()), op) && match op {
                Some(o) => is_converted_extent(o, c, convert, extent),
                None => extent is None,
            };
        match op {
            Some(o) => {
                lemma_converted_holds(o, c, convert, extent);
                let found = choose|found: Seq<Option<Corner>>| #[trigger]
                    holds_converted(o, c, convert, extent, found);
                match o {
                    CrsOperation::Defined(text) => {
                        assert(holds_converted(
                            CrsOperation::Defined(text),
                            c,
                            convert,
                            extent,
                            found,
                        ));
                    },
                    _ => {},
                }
            },
            None => {},
        }
    }
}

/// The extent of a raster in degrees holds its corners where they are degrees, and else every
/// corner once it is converted in the way that its keys or the range of its corners tell.
pub proof fn law_raster_extent_in_degrees<C: Fn(&CrsOperation, Corner) -> Option<Corner>>(
    transform_len: usize,
    info: &GeoKeyInfo,
    tm: Option<String>,
    corners: &[Corner; 4],
    convert: C,
    extent: Option<[u64; 4]>,
)
    requires
        call_ensures(
            extent_to_wgs84::<C>,
            (transform_len, info, tm, corners, convert),
            extent,
        ),
    ensures
        transform_len < 6 ==> extent is None,
        transform_len >= 6 && info.model_type == Some(2u16) ==> extent is Some && holds_corners(
            corners@,
            extent->Some_0@,
        ),
        transform_len >= 6 && info.model_type != Some(2u16) && info.projected_type == Some(3857u16)
            ==> exists|found: Seq<Option<Corner>>| #[trigger]
            holds_converted(CrsOperation::WebMercator, corners@, convert, extent, found),
        transform_len >= 6 && info.model_type != Some(2u16) && info.projected_type is Some
            && info.projected_type != Some(3857u16) && info.projected_type != Some(4326u16)
            && defined_operation(info.projected_type->Some_0) is Some ==> exists|
            op: String,
            found: Seq<Option<Corner>>,
        |
            op@ == defined_operation(info.projected_type->Some_0)->Some_0 && #[trigger]
                holds_converted(CrsOperation::Defined(op), corners@, convert, extent, found),
        transform_len >= 6 && info.model_type != Some(2u16) && info.projected_type is Some
            && info.projected_type != Some(3857u16) && info.projected_type != Some(4326u16)
            && defined_operation(info.projected_type->Some_0) is None ==> extent is None,
        transform_len >= 6 && info.model_type != Some(2u16) && info.projected_type is None
            && info.proj_coord_trans == Some(1u16) && tm is Some ==> exists|
            op: String,
            found: Seq<Option<Corner>>,
        |
            op@ == tm->Some_0@ && #[trigger] holds_converted(
                CrsOperation::Defined(op),
                corners@,
                convert,
                extent,
                found,
            ),
{
    let c = corners@;
    assert(c.len() == 4);
    let text = crate::text::text_of(tm);
    let method = choose|method: ExtentMethod|
        #![trigger is_extent_method(transform_len as int, *info, text, c, method)]
        is_extent_method(transform_len as int, *info, text, c, method) && is_extent_by(
            method,
            c,
            convert,
            extent,
        );
    match method {
        ExtentMethod::Unknown => {},
        ExtentMethod::Identity => lemma_extent_holds(c, extent->Some_0@),
        ExtentMethod::Epsg(code) => {
            let op = choose|op: Option<CrsOperation>|
                #![trigger is_operation_for(code, defined_operation(code), op)]
                is_operation_for(code, defined_operation(code), op) && match op {
                    Some(o) => is_converted_extent(o, c, convert, extent),
                    None => extent is None,
                };
            match op {
                Some(o) => {
                    lemma_converted_holds(o, c, convert, extent);
                    let found = choose|found: Seq<Option<Corner>>| #[trigger]
                        holds_converted(o, c, convert, extent, found);
                    match o {
                        CrsOperation::Defined(text) => {
                            assert(holds_converted(
                                CrsOperation::Defined(text),
                                c,
                                convert,
                                extent,
                                found,
                            ));
                        },
                        _ => {},
                    }
                },
                None => {},
            }
        },
        ExtentMethod::Operation(text) => {
            lemma_converted_holds(CrsOperation::Defined(text), c, convert, extent);
        },
    }
}

/// The operation that its definition gives for a number.
pub proof fn law_defined_operations(code: u16)
    ensures
        crs_definition(code) is None ==> defined_operation(code) is None,
        crs_definition(code) is Some ==> defined_operation(code) == proj_operation(
            crs_definition(code)->Some_0,
        ),
{
}

/// A name in capital letters, digits and signs, without anything that separates words.
pub open spec fn is_plain_name(s: Seq<char>) -> bool {
    forall|i: int|
        0 <= i < s.len() ==> 33 <= (#[trigger] s[i]) as u32 <= 94 && s[i] != '-'
}

proof fn lemma_plain_name(s: Seq<char>)
    requires
        is_plain_name(s),
    ensures
        compact(s) == s,
    decreases s.len(),
{
    if s.len() == 0 {
        lemma_compact_empty();
        assert(s =~= Seq::<char>::empty());
    } else {
        let t = s.drop_last();
        assert forall|i: int| 0 <= i < t.len() implies 33 <= (#[trigger] t[i]) as u32 <= 94 && t[i]
            != '-' by {
            assert(t[i] == s[i]);
        }
        lemma_plain_name(t);
        let c = s[s.len() - 1];
        assert(33 <= c as u32 <= 94 && c != '-');
        assert forall|i: int| 0 <= i < t.len() implies (#[trigger] t[i]) as u32 <= 127 by {
            assert(t[i] as u32 <= 94);
        }
        lemma_compact_push(t, c);
        assert(t.push(c) =~= s);
    }
}

proof fn lemma_holds_word(s: Seq<char>, a: Seq<char>, word: Seq<char>, b: Seq<char>)
    requires
        s == a + word + b,
    ensures
        crate::text::has_text(s, word),
{
    let k = a.len() as int;
    assert(s.subrange(k, k + word.len()) =~= word);
    assert(crate::text::occurs_at(s, word, k));
}

proof fn lemma_no_zone(s: Seq<char>, from: int)
    requires
        0 <= from <= s.len(),
        !s.contains('U'),
    ensures
        zone_from(s, from) is None,
    decreases s.len() - from,
{
    reveal_strlit("UTM");
    if from < s.len() {
        lemma_no_zone(s, from + 1);
        if crate::text::occurs_at(s, "UTM"@, from) {
            assert(s.subrange(from, from + 3)[0] == 'U');
            assert(s[from] == 'U');
        }
    }
}

/// A name that holds one of the words of the system of the web stands for it, whatever else it
/// holds.
pub proof fn law_words_of_the_web(
    name: &str,
    crs: Option<KnownCrs>,
    a: Seq<char>,
    b: Seq<char>,
    word: Seq<char>,
)
    requires
        call_ensures(parse_known_crs, (name,), crs),
        is_plain_name(name@),
        name@ == a + word + b,
        word == "EPSG:3857"@ || word == "EPSG3857"@ || word == "WEBMERCATOR"@ || word
            == "PSEUDOMERCATOR"@ || word == "AUXILIARYSPHERE"@,
    ensures
        crs == Some(KnownCrs::WebMercator),
{
    lemma_plain_name(name@);
    lemma_holds_word(name@, a, word, b);
}

/// A name that holds one of the words of degrees stands for them, where it holds no word of
/// the system of the web, and no letter U that could name a zone.
pub proof fn law_words_of_degrees(
    name: &str,
    crs: Option<KnownCrs>,
    a: Seq<char>,
    b: Seq<char>,
    word: Seq<char>,
)
    requires
        call_ensures(parse_known_crs, (name,), crs),
        is_plain_name(name@),
        name@ == a + word + b,
        word == "EPSG:4326"@ || word == "EPSG4326"@ || word == "CRS84"@ || word == "WGS84"@ || word
            == "WGS1984"@,
        !name@.contains('U'),
        !crate::text::has_text(name@, "EPSG:3857"@),
        !crate::text::has_text(name@, "EPSG3857"@),
        !crate::text::has_text(name@, "WEBMERCATOR"@),
    ensures
        crs == Some(KnownCrs::Wgs84),
{
    lemma_plain_name(name@);
    lemma_holds_word(name@, a, word, b);
    lemma_no_zone(name@, 0);
    reveal_strlit("PSEUDOMERCATOR");
    reveal_strlit("AUXILIARYSPHERE");
    lemma_char_is_missing(name@, "PSEUDOMERCATOR"@, 3);
    lemma_char_is_missing(name@, "AUXILIARYSPHERE"@, 1);
}

/// A number behind `EPSG:` stands for the system with this number, where the number has a
/// definition, and for none where it has not. The numbers of degrees and of the system of the
/// web, and those that begin with their digits, are told by other words.
pub proof fn law_numbers_name_systems(
    name: &str,
    crs: Option<KnownCrs>,
    digits: Seq<char>,
    code: u16,
)
    requires
        call_ensures(parse_known_crs, (name,), crs),
        name@ == "EPSG:"@ + digits,
        digits.len() > 0,
        forall|i: int| 0 <= i < digits.len() ==> '0' <= #[trigger] digits[i] && digits[i] <= '9',
        crate::numbers::unsigned_value(digits, 65535) == Some(code as nat),
        !"3857"@.is_prefix_of(digits),
        !"4326"@.is_prefix_of(digits),
    ensures
        crs == (if crs_definition(code) is Some {
            Some(KnownCrs::Epsg(code))
        } else {
            None
        }),
{
    let s = name@;
    reveal_strlit("EPSG:");
    reveal_strlit("EPSG");
    assert forall|i: int| 0 <= i < s.len() implies 33 <= (#[trigger] s[i]) as u32 <= 94 && s[i]
        != '-' && s[i] != 'U' && s[i] != 'W' && s[i] != 'C' && s[i] != 'M' && s[i] != 'X' by {
        if i >= 5 {
            assert(s[i] == digits[i - 5]);
        }
    }
    lemma_plain_name(s);
    assert(!s.contains('U'));
    lemma_no_zone(s, 0);
    reveal_strlit("EPSG:3857");
    reveal_strlit("EPSG3857");
    reveal_strlit("WEBMERCATOR");
    reveal_strlit("PSEUDOMERCATOR");
    reveal_strlit("AUXILIARYSPHERE");
    reveal_strlit("EPSG:4326");
    reveal_strlit("EPSG4326");
    reveal_strlit("CRS84");
    reveal_strlit("WGS84");
    reveal_strlit("WGS1984");
    reveal_strlit("3857");
    reveal_strlit("4326");
    assert(!s.contains('W') && !s.contains('C') && !s.contains('M'));
    lemma_char_is_missing(s, "WEBMERCATOR"@, 0);
    lemma_char_is_missing(s, "PSEUDOMERCATOR"@, 3);
    lemma_char_is_missing(s, "AUXILIARYSPHERE"@, 1);
    lemma_char_is_missing(s, "CRS84"@, 0);
    lemma_char_is_missing(s, "WGS84"@, 0);
    lemma_char_is_missing(s, "WGS1984"@, 0);
    assert("EPSG:3857"@ =~= "EPSG:"@ + "3857"@);
    assert("EPSG:4326"@ =~= "EPSG:"@ + "4326"@);
    lemma_no_prefixed_number(s, digits, "EPSG:3857"@, "3857"@);
    lemma_no_prefixed_number(s, digits, "EPSG:4326"@, "4326"@);
    lemma_no_bare_number(s, digits, "EPSG3857"@);
    lemma_no_bare_number(s, digits, "EPSG4326"@);
    assert(s.subrange(0, 4) =~= "EPSG"@);
    assert(s.subrange(0, 5) =~= "EPSG:"@);
    assert(s.skip(5) =~= digits);
    assert(crate::text::occurs_at(s, "EPSG:"@, 0));
    if crate::text::occurs_at(digits, "EPSG:"@, 0) {
        assert(digits.subrange(0, 5)[0] == 'E');
        assert(digits[0] == 'E');
    }
    if crate::text::occurs_at(digits, "EPSG"@, 0) {
        assert(digits.subrange(0, 4)[0] == 'E');
        assert(digits[0] == 'E');
    }
    assert(stripped(digits, "EPSG:"@) == digits);
    assert(stripped(s, "EPSG:"@) == digits);
    assert(stripped(digits, "EPSG"@) == digits);
}

proof fn lemma_no_prefixed_number(
    s: Seq<char>,
    digits: Seq<char>,
    word: Seq<char>,
    number: Seq<char>,
)
    requires
        s == "EPSG:"@ + digits,
        word == "EPSG:"@ + number,
        forall|i: int| 0 <= i < digits.len() ==> '0' <= #[trigger] digits[i] && digits[i] <= '9',
        !number.is_prefix_of(digits),
    ensures
        !crate::text::has_text(s, word),
{
    reveal_strlit("EPSG:");
    if crate::text::has_text(s, word) {
        let i = choose|i: int| crate::text::occurs_at(s, word, i);
        let part = s.subrange(i, i + word.len());
        assert(part[0] == 'E');
        assert(s[i] == 'E');
        if i > 0 {
            if i >= 5 {
                assert(s[i] == digits[i - 5]);
            }
        } else {
            assert(digits.subrange(0, number.len() as int) =~= number) by {
                assert forall|k: int| 0 <= k < number.len() implies digits[k] == number[k] by {
                    assert(part[k + 5] == word[k + 5]);
                    assert(s[k + 5] == digits[k]);
                }
            }
        }
    }
}

proof fn lemma_no_bare_number(s: Seq<char>, digits: Seq<char>, word: Seq<char>)
    requires
        s == "EPSG:"@ + digits,
        word.len() == 8,
        word[0] == 'E',
        word[4] == '3' || word[4] == '4',
        forall|i: int| 0 <= i < digits.len() ==> '0' <= #[trigger] digits[i] && digits[i] <= '9',
    ensures
        !crate::text::has_text(s, word),
{
    reveal_strlit("EPSG:");
    if crate::text::has_text(s, word) {
        let i = choose|i: int| crate::text::occurs_at(s, word, i);
        let part = s.subrange(i, i + word.len());
        assert(part[0] == 'E' && part[4] == word[4]);
        assert(s[i] == 'E');
        if i >= 5 {
            assert(s[i] == digits[i - 5]);
        }
        assert(s[4] == ':');
    }
}

/// Neither spaces, underscores and hyphens nor the case of ASCII letters change what a name
/// stands for.
pub proof fn law_separators_do_not_count(
    s: &str,
    t: &str,
    x: Option<KnownCrs>,
    y: Option<KnownCrs>,
    a: Seq<char>,
    b: Seq<char>,
    c: char,
)
    requires
        call_ensures(parse_known_crs, (s,), x),
        call_ensures(parse_known_crs, (t,), y),
        crate::text::all_ascii(a),
        crate::text::all_ascii(b),
        s@ == a + b,
        (t@ == a + seq![c] + b && (c == ' ' || c == '_' || c == '-')) || t@
            == crate::text::raised(s@),
    ensures
        x == y,
{
    lemma_raised_twice(a + b);
    let keep = |c: char| !is_separator(c);
    lemma_raised_join(a, b);
    if t@ != crate::text::raised(s@) {
        let m = seq![c];
        assert(crate::text::all_ascii(m));
        assert(crate::text::raised(m) =~= m);
        lemma_raised_join(a, m);
        assert forall|i: int| 0 <= i < (a + m).len() implies (#[trigger] (a + m)[i]) as u32
            <= 127 by {
            if i < a.len() {
                assert((a + m)[i] == a[i]);
            }
        }
        lemma_raised_join(a + m, b);
        let (ra, rb) = (crate::text::raised(a), crate::text::raised(b));
        Seq::filter_distributes_over_add(ra, rb, keep);
        Seq::filter_distributes_over_add(ra + m, rb, keep);
        Seq::filter_distributes_over_add(ra, m, keep);
        assert(m.filter(keep) =~= Seq::<char>::empty()) by {
            reveal(Seq::filter);
            assert(m.drop_last() =~= Seq::<char>::empty());
            assert(!keep(m.last()));
            assert(m.drop_last().filter(keep) =~= Seq::<char>::empty());
        }
        assert(ra.filter(keep) + m.filter(keep) =~= ra.filter(keep));
        assert(compact(s@) == compact(t@));
    }
}

proof fn lemma_raised_join(a: Seq<char>, b: Seq<char>)
    requires
        crate::text::all_ascii(a),
        crate::text::all_ascii(b),
    ensures
        crate::text::raised(a + b) == crate::text::raised(a) + crate::text::raised(b),
{
    let all = a + b;
    assert forall|i: int| 0 <= i < all.len() implies (#[trigger] all[i]) as u32 <= 127 by {
        if i < a.len() {
            assert(all[i] == a[i]);
        } else {
            assert(all[i] == b[i - a.len()]);
        }
    }
    assert(crate::text::raised(a + b) =~= crate::text::raised(a) + crate::text::raised(b));
}

proof fn lemma_raised_twice(s: Seq<char>)
    ensures
        crate::text::all_ascii(s) ==> crate::text::raised(crate::text::raised(s))
            == crate::text::raised(s),
{
    if crate::text::all_ascii(s) {
        let r = crate::text::raised(s);
        assert forall|i: int| 0 <= i < r.len() implies (#[trigger] r[i]) as u32 <= 127 by {
            assert(s[i] as u32 <= 127);
        }
        assert(crate::text::raised(r) =~= r) by {
            assert forall|i: int| 0 <= i < r.len() implies crate::text::ascii_upper(
                #[trigger] r[i],
            ) == r[i] by {
                assert(s[i] as u32 <= 127);
            }
        }
    }
}

} // verus!
