//! Readers for bare corner points: NONNA-style lines and tabular rows.

use vstd::prelude::*;

use crate::bathymetry::Point;
use crate::read::{corner_lines_spec, corner_rows_spec, ReadError};
use crate::text::{
    split_char_spec, split_lines_spec, find_col_spec, str_chars, split_ranges, find_col_exec,
};

verus! {

/// The corners of a whole tabular text; unlike the lenient corner reader,
/// a header without a latitude or longitude column is an error here.
pub open spec fn point_csv_spec(s: Seq<char>) -> Result<Seq<Point>, ReadError> {
    let lines = split_lines_spec(s);
    if lines.len() == 0 {
        Result::Ok(Seq::empty())
    } else {
        let cols = split_char_spec(lines[0], ',');
        let li = find_col_spec(cols, "la"@);
        let lo = find_col_spec(cols, "lo"@);
        if li >= cols.len() {
            Result::Err(ReadError::MissingLatitude)
        } else if lo >= cols.len() {
            Result::Err(ReadError::MissingLongitude)
        } else {
            Result::Ok(corner_rows_spec(lines, li, lo, lines.len() - 1))
        }
    }
}

/// Reads corner points, one per line; lines that do not parse are skipped.
pub fn from_nonna(input: &str) -> (r: Vec<Point>)
    ensures
        r@ == corner_lines_spec(split_lines_spec(input@)),
{
    crate::read::read_corner_lines(input)
}

/// Reads corner points from a tabular text; the read fails when the header
/// lacks a latitude or longitude column.
pub fn from_csv(input: &str) -> (r: Result<Vec<Point>, ReadError>)
    ensures
        match (r, point_csv_spec(input@)) {
            (Result::Ok(out), Result::Ok(spec)) => out@ == spec,
            (Result::Err(e1), Result::Err(e2)) => e1 == e2,
            _ => false,
        },
{
    let v = str_chars(input);
    let lines = crate::read::line_ranges(&v);
    let ghost ls = split_lines_spec(v@);
    let ghost f = |p: (usize, usize)| v@.subrange(p.0 as int, p.1 as int);
    let n = lines.len();
    if n == 0 {
        let out: Vec<Point> = Vec::new();
        return Ok(out);
    }
    let (hlo, hhi) = lines[0];
    proof {
        assert(ls[0] == f(lines@[0]));
    }
    let cols = split_ranges(&v, hlo, hhi, ',');
    let la_name = str_chars("la");
    let lo_name = str_chars("lo");
    proof {
        reveal_strlit("la");
        reveal_strlit("lo");
    }
    let li = find_col_exec(&v, &cols, &la_name);
    let lo = find_col_exec(&v, &cols, &lo_name);
    let m = cols.len();
    if li == m {
        return Err(ReadError::MissingLatitude);
    }
    if lo == m {
        return Err(ReadError::MissingLongitude);
    }
    let mut out: Vec<Point> = Vec::new();
    let mut i: usize = 1;
    while i < n
        invariant
            1 <= i <= n,
            n == lines@.len(),
            ls == lines@.map_values(|p: (usize, usize)| v@.subrange(p.0 as int, p.1 as int)),
            forall|t: int| 0 <= t < lines@.len() ==> (#[trigger] lines@[t]).0 <= lines@[t].1
                <= v@.len(),
            out@ == corner_rows_spec(ls, li as int, lo as int, i as int - 1),
        decreases n - i,
    {
        proof {
            assert(ls[i as int] == v@.subrange(
                lines@[i as int].0 as int,
                lines@[i as int].1 as int,
            ));
        }
        let (llo, lhi) = lines[i];
        match crate::read::corner_row_range(&v, llo, lhi, li, lo) {
            Some(p) => {
                out.push(p);
            },
            None => {},
        }
        i = i + 1;
    }
    Ok(out)
}

} // verus!

use crate::json::{parse_json, JsonValue, get_spec, is_text_spec, as_fixed_spec};

verus! {

/// Whether a value carries a `type` field spelling out `t`.
pub open spec fn geom_type_is(geom: JsonValue, t: Seq<char>) -> bool {
    match get_spec(geom, "type"@) {
        Option::Some(v) => is_text_spec(v, t),
        Option::None => false,
    }
}

/// The corner one LineString coordinate member yields: its first two
/// numbers as longitude and latitude in microdegrees.
pub open spec fn line_member_spec(m: JsonValue) -> Result<Point, ReadError> {
    match m {
        JsonValue::Arr(items) => {
            if items@.len() < 1 {
                Result::Err(ReadError::MissingLongitude)
            } else {
                match as_fixed_spec(items@[0], 6) {
                    Option::None => Result::Err(ReadError::MissingLongitude),
                    Option::Some(lon) => {
                        if items@.len() < 2 {
                            Result::Err(ReadError::MissingLatitude)
                        } else {
                            match as_fixed_spec(items@[1], 6) {
                                Option::None => Result::Err(ReadError::MissingLatitude),
                                Option::Some(lat) => Result::Ok((lon, lat)),
                            }
                        }
                    },
                }
            }
        },
        _ => Result::Err(ReadError::MissingLongitude),
    }
}

/// The corners of the first `i` coordinate members, or the first error.
pub open spec fn line_members_spec(items: Seq<JsonValue>, i: int) -> Result<Seq<Point>, ReadError>
    decreases i,
{
    if i <= 0 {
        Result::Ok(Seq::empty())
    } else {
        match line_members_spec(items, i - 1) {
            Result::Err(e) => Result::Err(e),
            Result::Ok(pre) => match line_member_spec(items[i - 1]) {
                Result::Err(e) => Result::Err(e),
                Result::Ok(p) => Result::Ok(pre.push(p)),
            },
        }
    }
}

/// An error among the first `i` members decides the whole read.
proof fn lemma_line_members_err(items: Seq<JsonValue>, i: int, j: int)
    requires
        0 <= i <= j,
        line_members_spec(items, i) is Err,
    ensures
        line_members_spec(items, j) == line_members_spec(items, i),
    decreases j,
{
    if j > i {
        lemma_line_members_err(items, i, j - 1);
    }
}

/// The corners of a LineString geometry: every coordinate member read in
/// order, an error when the geometry is of another type or a member is not
/// a pair of numbers.
pub open spec fn points_from_line_spec(geom: JsonValue) -> Result<Seq<Point>, ReadError> {
    if !geom_type_is(geom, "LineString"@) {
        Result::Err(ReadError::WrongGeometry)
    } else {
        match get_spec(geom, "coordinates"@) {
            Option::None => Result::Err(ReadError::MissingCoordinate),
            Option::Some(c) => match c {
                JsonValue::Arr(items) => line_members_spec(items@, items@.len() as int),
                _ => Result::Err(ReadError::MissingCoordinate),
            },
        }
    }
}

/// The corner a Point geometry yields: `None` when its coordinates are
/// missing or null, an error when they do not read as two numbers.
pub open spec fn point_geometry_spec(g: JsonValue) -> Result<Option<Point>, ReadError> {
    match get_spec(g, "coordinates"@) {
        Option::None => Result::Ok(Option::None),
        Option::Some(c) => {
            if c is Null {
                Result::Ok(Option::None)
            } else {
                match c {
                    JsonValue::Arr(items) => {
                        if items@.len() < 1 {
                            Result::Err(ReadError::MissingLongitude)
                        } else {
                            match as_fixed_spec(items@[0], 6) {
                                Option::None => Result::Err(ReadError::MissingLongitude),
                                Option::Some(lon) => {
                                    if items@.len() < 2 {
                                        Result::Err(ReadError::MissingLatitude)
                                    } else {
                                        match as_fixed_spec(items@[1], 6) {
                                            Option::None => Result::Err(
                                                ReadError::MissingLatitude,
                                            ),
                                            Option::Some(lat) => Result::Ok(
                                                Option::Some((lon, lat)),
                                            ),
                                        }
                                    }
                                },
                            }
                        }
                    },
                    _ => Result::Err(ReadError::MissingLongitude),
                }
            }
        },
    }
}

/// Whether every feature carries a geometry of type Point.
pub open spec fn features_all_point_typed(items: Seq<JsonValue>) -> bool {
    forall|i: int|
        0 <= i < items.len() ==> match get_spec(#[trigger] items[i], "geometry"@) {
            Option::Some(g) => geom_type_is(g, "Point"@),
            Option::None => false,
        }
}

/// The corners of the first `i` features' geometries, or the first error;
/// geometries without coordinates contribute nothing.
pub open spec fn features_points_spec(items: Seq<JsonValue>, i: int) -> Result<
    Seq<Point>,
    ReadError,
>
    decreases i,
{
    if i <= 0 {
        Result::Ok(Seq::empty())
    } else {
        match features_points_spec(items, i - 1) {
            Result::Err(e) => Result::Err(e),
            Result::Ok(pre) => match get_spec(items[i - 1], "geometry"@) {
                Option::None => Result::Err(ReadError::WrongGeometry),
                Option::Some(g) => match point_geometry_spec(g) {
                    Result::Err(e) => Result::Err(e),
                    Result::Ok(Option::Some(p)) => Result::Ok(pre.push(p)),
                    Result::Ok(Option::None) => Result::Ok(pre),
                },
            },
        }
    }
}

/// An error among the first `i` features decides the whole read.
proof fn lemma_features_points_err(items: Seq<JsonValue>, i: int, j: int)
    requires
        0 <= i <= j,
        features_points_spec(items, i) is Err,
    ensures
        features_points_spec(items, j) == features_points_spec(items, i),
    decreases j,
{
    if j > i {
        lemma_features_points_err(items, i, j - 1);
    }
}

/// The corners of a feature list: an error unless every feature holds a
/// Point geometry, else those geometries' corners in order.
pub open spec fn points_from_features_spec(items: Seq<JsonValue>) -> Result<
    Seq<Point>,
    ReadError,
> {
    if !features_all_point_typed(items) {
        Result::Err(ReadError::WrongGeometry)
    } else {
        features_points_spec(items, items.len() as int)
    }
}

/// The corners of a whole GeoJSON document of Point geometries: a single
/// Point, a Feature around one, or a FeatureCollection of such features.
pub open spec fn point_doc_spec(doc: JsonValue) -> Result<Seq<Point>, ReadError> {
    if geom_type_is(doc, "FeatureCollection"@) {
        match get_spec(doc, "features"@) {
            Option::None => Result::Err(ReadError::WrongGeometry),
            Option::Some(f) => match f {
                JsonValue::Arr(items) => points_from_features_spec(items@),
                _ => Result::Err(ReadError::WrongGeometry),
            },
        }
    } else if geom_type_is(doc, "Feature"@) {
        match get_spec(doc, "geometry"@) {
            Option::None => Result::Err(ReadError::WrongGeometry),
            Option::Some(g) => {
                if !geom_type_is(g, "Point"@) {
                    Result::Err(ReadError::WrongGeometry)
                } else {
                    match point_geometry_spec(g) {
                        Result::Err(e) => Result::Err(e),
                        Result::Ok(Option::Some(p)) => Result::Ok(seq![p]),
                        Result::Ok(Option::None) => Result::Ok(Seq::empty()),
                    }
                }
            },
        }
    } else {
        if !geom_type_is(doc, "Point"@) {
            Result::Err(ReadError::WrongGeometry)
        } else {
            match point_geometry_spec(doc) {
                Result::Err(e) => Result::Err(e),
                Result::Ok(Option::Some(p)) => Result::Ok(seq![p]),
                Result::Ok(Option::None) => Result::Ok(Seq::empty()),
            }
        }
    }
}

/// The corners of a GeoJSON LineString document: the geometry itself, a
/// Feature around one, or the first feature of a FeatureCollection.
pub open spec fn line_doc_spec(doc: JsonValue) -> Result<Seq<Point>, ReadError> {
    if geom_type_is(doc, "FeatureCollection"@) {
        match get_spec(doc, "features"@) {
            Option::None => Result::Err(ReadError::WrongGeometry),
            Option::Some(f) => match f {
                JsonValue::Arr(items) => {
                    if items@.len() == 0 {
                        Result::Err(ReadError::WrongGeometry)
                    } else {
                        match get_spec(items@[0], "geometry"@) {
                            Option::None => Result::Err(ReadError::WrongGeometry),
                            Option::Some(g) => points_from_line_spec(g),
                        }
                    }
                },
                _ => Result::Err(ReadError::WrongGeometry),
            },
        }
    } else if geom_type_is(doc, "Feature"@) {
        match get_spec(doc, "geometry"@) {
            Option::None => Result::Err(ReadError::WrongGeometry),
            Option::Some(g) => points_from_line_spec(g),
        }
    } else {
        points_from_line_spec(doc)
    }
}

/// Whether the value is a geometry of the given GeoJSON type.
fn has_geom_type(geom: &JsonValue, t: &str) -> (r: bool)
    ensures
        r == geom_type_is(*geom, t@),
{
    match geom.get("type") {
        Some(v) => v.is_text(t),
        None => false,
    }
}

/// The corner a GeoJSON Point geometry yields.
fn point_from_geometry(geom: &JsonValue) -> (r: Result<Option<Point>, ReadError>)
    ensures
        match (r, point_geometry_spec(*geom)) {
            (Result::Ok(a), Result::Ok(b)) => a == b,
            (Result::Err(e1), Result::Err(e2)) => e1 == e2,
            _ => false,
        },
{
    let coords = match geom.get("coordinates") {
        Some(c) => c,
        None => {
            return Ok(None);
        },
    };
    if coords.is_null() {
        return Ok(None);
    }
    let items = match coords.as_array() {
        Some(a) => a,
        None => {
            return Err(ReadError::MissingLongitude);
        },
    };
    if items.len() < 1 {
        return Err(ReadError::MissingLongitude);
    }
    let lon = match items[0].as_fixed(6) {
        Some(x) => x,
        None => {
            return Err(ReadError::MissingLongitude);
        },
    };
    if items.len() < 2 {
        return Err(ReadError::MissingLatitude);
    }
    let lat = match items[1].as_fixed(6) {
        Some(x) => x,
        None => {
            return Err(ReadError::MissingLatitude);
        },
    };
    Ok(Some((lon, lat)))
}

/// Reads corner points from Point geometries, each taken from the feature
/// it sits in.
fn points_from_features(features: &Vec<JsonValue>) -> (r: Result<Vec<Point>, ReadError>)
    ensures
        match (r, points_from_features_spec(features@)) {
            (Result::Ok(out), Result::Ok(spec)) => out@ == spec,
            (Result::Err(e1), Result::Err(e2)) => e1 == e2,
            _ => false,
        },
{
    let n = features.len();
    let mut i: usize = 0;
    while i < n
        invariant
            i <= n,
            n == features@.len(),
            forall|t: int|
                0 <= t < i ==> match get_spec(#[trigger] features@[t], "geometry"@) {
                    Option::Some(g) => geom_type_is(g, "Point"@),
                    Option::None => false,
                },
        decreases n - i,
    {
        let geom = match features[i].get("geometry") {
            Some(g) => g,
            None => {
                return Err(ReadError::WrongGeometry);
            },
        };
        if !has_geom_type(geom, "Point") {
            return Err(ReadError::WrongGeometry);
        }
        i = i + 1;
    }
    let mut out: Vec<Point> = Vec::new();
    let mut k: usize = 0;
    while k < n
        invariant
            k <= n,
            n == features@.len(),
            features_all_point_typed(features@),
            points_from_features_spec(features@) == features_points_spec(features@, n as int),
            features_points_spec(features@, k as int) == Result::<Seq<Point>, ReadError>::Ok(
                out@,
            ),
        decreases n - k,
    {
        let geom = match features[k].get("geometry") {
            Some(g) => g,
            None => {
                return Err(ReadError::WrongGeometry);
            },
        };
        match point_from_geometry(geom) {
            Ok(Some(p)) => {
                out.push(p);
            },
            Ok(None) => {},
            Err(e) => {
                proof {
                    lemma_features_points_err(features@, k as int + 1, n as int);
                }
                return Err(e);
            },
        }
        k = k + 1;
    }
    Ok(out)
}

/// Reads corner points from GeoJSON: a single Point geometry, a Feature
/// around one, or a FeatureCollection of such features; the document's
/// corners are exactly what `point_doc_spec` names for the parsed document.
pub fn from_geojson_doc(doc: &JsonValue) -> (r: Result<Vec<Point>, ReadError>)
    ensures
        match (r, point_doc_spec(*doc)) {
            (Result::Ok(out), Result::Ok(spec)) => out@ == spec,
            (Result::Err(e1), Result::Err(e2)) => e1 == e2,
            _ => false,
        },
{
    if has_geom_type(doc, "FeatureCollection") {
        let features = match doc.get("features") {
            Some(f) => f,
            None => {
                return Err(ReadError::WrongGeometry);
            },
        };
        match features.as_array() {
            Some(items) => points_from_features(items),
            None => Err(ReadError::WrongGeometry),
        }
    } else if has_geom_type(doc, "Feature") {
        let geom = match doc.get("geometry") {
            Some(g) => g,
            None => {
                return Err(ReadError::WrongGeometry);
            },
        };
        if !has_geom_type(geom, "Point") {
            return Err(ReadError::WrongGeometry);
        }
        match point_from_geometry(geom) {
            Ok(Some(p)) => {
                let mut out: Vec<Point> = Vec::new();
                out.push(p);
                proof {
                    assert(out@ =~= seq![p]);
                }
                Ok(out)
            },
            Ok(None) => {
                let out: Vec<Point> = Vec::new();
                Ok(out)
            },
            Err(e) => Err(e),
        }
    } else {
        if !has_geom_type(doc, "Point") {
            return Err(ReadError::WrongGeometry);
        }
        match point_from_geometry(doc) {
            Ok(Some(p)) => {
                let mut out: Vec<Point> = Vec::new();
                out.push(p);
                proof {
                    assert(out@ =~= seq![p]);
                }
                Ok(out)
            },
            Ok(None) => {
                let out: Vec<Point> = Vec::new();
                Ok(out)
            },
            Err(e) => Err(e),
        }
    }
}

/// Reads corner points from a GeoJSON text of Point geometries. The text is
/// first read as a JSON document — that step promises only a well-formed
/// document or `BadDocument` — and the corners are then exactly what
/// `point_doc_spec` names for it.
pub fn from_geojson(input: &str) -> (r: Result<Vec<Point>, ReadError>) {
    let doc = match parse_json(input) {
        Some(d) => d,
        None => {
            return Err(ReadError::BadDocument);
        },
    };
    from_geojson_doc(&doc)
}

/// The corner points of a LineString geometry.
fn points_from_line(geom: &JsonValue) -> (r: Result<Vec<Point>, ReadError>)
    ensures
        match (r, points_from_line_spec(*geom)) {
            (Result::Ok(out), Result::Ok(spec)) => out@ == spec,
            (Result::Err(e1), Result::Err(e2)) => e1 == e2,
            _ => false,
        },
{
    if !has_geom_type(geom, "LineString") {
        return Err(ReadError::WrongGeometry);
    }
    let coords = match geom.get("coordinates") {
        Some(c) => c,
        None => {
            return Err(ReadError::MissingCoordinate);
        },
    };
    let items = match coords.as_array() {
        Some(a) => a,
        None => {
            return Err(ReadError::MissingCoordinate);
        },
    };
    let n = items.len();
    let mut out: Vec<Point> = Vec::new();
    let mut i: usize = 0;
    while i < n
        invariant
            i <= n,
            n == items@.len(),
            points_from_line_spec(*geom) == line_members_spec(items@, n as int),
            line_members_spec(items@, i as int) == Result::<Seq<Point>, ReadError>::Ok(out@),
        decreases n - i,
    {
        let member = match items[i].as_array() {
            Some(a) => a,
            None => {
                proof {
                    lemma_line_members_err(items@, i as int + 1, n as int);
                }
                return Err(ReadError::MissingLongitude);
            },
        };
        if member.len() < 1 {
            proof {
                lemma_line_members_err(items@, i as int + 1, n as int);
            }
            return Err(ReadError::MissingLongitude);
        }
        let lon = match member[0].as_fixed(6) {
            Some(x) => x,
            None => {
                proof {
                    lemma_line_members_err(items@, i as int + 1, n as int);
                }
                return Err(ReadError::MissingLongitude);
            },
        };
        if member.len() < 2 {
            proof {
                lemma_line_members_err(items@, i as int + 1, n as int);
            }
            return Err(ReadError::MissingLatitude);
        }
        let lat = match member[1].as_fixed(6) {
            Some(x) => x,
            None => {
                proof {
                    lemma_line_members_err(items@, i as int + 1, n as int);
                }
                return Err(ReadError::MissingLatitude);
            },
        };
        out.push((lon, lat));
        i = i + 1;
    }
    Ok(out)
}

/// Reads corner points from a GeoJSON LineString document; the corners are
/// exactly what `line_doc_spec` names for the parsed document.
pub fn from_geojson_line_doc(doc: &JsonValue) -> (r: Result<Vec<Point>, ReadError>)
    ensures
        match (r, line_doc_spec(*doc)) {
            (Result::Ok(out), Result::Ok(spec)) => out@ == spec,
            (Result::Err(e1), Result::Err(e2)) => e1 == e2,
            _ => false,
        },
{
    if has_geom_type(doc, "FeatureCollection") {
        let features = match doc.get("features") {
            Some(f) => f,
            None => {
                return Err(ReadError::WrongGeometry);
            },
        };
        let items = match features.as_array() {
            Some(a) => a,
            None => {
                return Err(ReadError::WrongGeometry);
            },
        };
        if items.len() == 0 {
            return Err(ReadError::WrongGeometry);
        }
        match items[0].get("geometry") {
            Some(g) => points_from_line(g),
            None => Err(ReadError::WrongGeometry),
        }
    } else if has_geom_type(doc, "Feature") {
        match doc.get("geometry") {
            Some(g) => points_from_line(g),
            None => Err(ReadError::WrongGeometry),
        }
    } else {
        points_from_line(doc)
    }
}

/// Reads corner points from a GeoJSON LineString text: the geometry itself,
/// a Feature around one, or the first feature of a FeatureCollection. The
/// text is first read as a JSON document — that step promises only a
/// well-formed document or `BadDocument` — and the corners are then exactly
/// what `line_doc_spec` names for it.
pub fn from_geojson_line(input: &str) -> (r: Result<Vec<Point>, ReadError>) {
    let doc = match parse_json(input) {
        Some(d) => d,
        None => {
            return Err(ReadError::BadDocument);
        },
    };
    from_geojson_line_doc(&doc)
}

} // verus!
