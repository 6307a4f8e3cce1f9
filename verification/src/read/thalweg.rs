//! Readers for previously computed paths: NONNA-style lines and tabular
//! rows carrying a depth column.

use vstd::prelude::*;

use crate::bathymetry::Bathymetry;
use crate::read::{data_lines_spec, ReadError};
use crate::read::bathymetry::bathy_rows_spec;
use crate::text::{
    split_char_spec, split_lines_spec, find_col_spec, str_chars, split_ranges, find_col_exec,
};

verus! {

/// The soundings of a whole tabular path text: latitude, longitude and a
/// depth column are all required.
pub open spec fn thalweg_csv_spec(s: Seq<char>) -> Result<Seq<Bathymetry>, ReadError> {
    let lines = split_lines_spec(s);
    if lines.len() == 0 {
        Result::Ok(Seq::empty())
    } else {
        let cols = split_char_spec(lines[0], ',');
        let li = find_col_spec(cols, "la"@);
        let lo = find_col_spec(cols, "lo"@);
        let di = find_col_spec(cols, "depth"@);
        if li >= cols.len() {
            Result::Err(ReadError::MissingLatitude)
        } else if lo >= cols.len() {
            Result::Err(ReadError::MissingLongitude)
        } else if di >= cols.len() {
            Result::Err(ReadError::MissingDepth)
        } else {
            Result::Ok(
                bathy_rows_spec(lines, li, lo, di, false, Option::None, lines.len() - 1),
            )
        }
    }
}

/// Reads a path from NONNA-style lines; lines that do not parse are skipped.
pub fn from_nonna(input: &str) -> (r: Vec<Bathymetry>)
    ensures
        r@ == data_lines_spec(split_lines_spec(input@), Option::None),
{
    crate::read::data_lines_core(input, None)
}

/// Reads a path from a tabular text; latitude, longitude and depth columns
/// are all required.
pub fn from_csv(input: &str) -> (r: Result<Vec<Bathymetry>, ReadError>)
    ensures
        match (r, thalweg_csv_spec(input@)) {
            (Result::Ok(out), Result::Ok(spec)) => out@ == spec,
            (Result::Err(e1), Result::Err(e2)) => e1 == e2,
            _ => false,
        },
{
    let v = str_chars(input);
    let lines = crate::read::line_ranges(&v);
    let ghost ls = split_lines_spec(v@);
    let ghost f = |p: (usize, usize)| v@.subrange(p.0 as int, p.1 as int);
    let n = lines.len();
    if n == 0 {
        let out: Vec<Bathymetry> = Vec::new();
        return Ok(out);
    }
    let (hlo, hhi) = lines[0];
    proof {
        assert(ls[0] == f(lines@[0]));
    }
    let cols = split_ranges(&v, hlo, hhi, ',');
    let la_name = str_chars("la");
    let lo_name = str_chars("lo");
    let de_name = str_chars("depth");
    proof {
        reveal_strlit("la");
        reveal_strlit("lo");
        reveal_strlit("depth");
    }
    let li = find_col_exec(&v, &cols, &la_name);
    let lo = find_col_exec(&v, &cols, &lo_name);
    let di = find_col_exec(&v, &cols, &de_name);
    let m = cols.len();
    if li == m {
        return Err(ReadError::MissingLatitude);
    }
    if lo == m {
        return Err(ReadError::MissingLongitude);
    }
    if di == m {
        return Err(ReadError::MissingDepth);
    }
    Ok(crate::read::bathymetry::bathy_rows_core(&v, &lines, li, lo, di, false, None))
}

} // verus!

use crate::json::{parse_json, JsonValue, get_spec, as_fixed_spec};
use crate::read::point::geom_type_is;

verus! {

/// The sounding one LineString coordinate member yields: longitude,
/// latitude, and a negated elevation as the depth.
pub open spec fn sounding_member_spec(m: JsonValue) -> Result<Bathymetry, ReadError> {
    match m {
        JsonValue::Arr(items) => {
            if items@.len() < 1 {
                Result::Err(ReadError::MissingLongitude)
            } else {
                match as_fixed_spec(items@[0], 6) {
                    Option::None => Result::Err(ReadError::MissingLongitude),
                    Option::Some(lon) => {
                        if items@.len() < 2 {
                            Result::Err(ReadError::MissingLatitude)
                        } else {
                            match as_fixed_spec(items@[1], 6) {
                                Option::None => Result::Err(ReadError::MissingLatitude),
                                Option::Some(lat) => {
                                    if items@.len() < 3 {
                                        Result::Err(ReadError::MissingDepth)
                                    } else {
                                        match as_fixed_spec(items@[2], 3) {
                                            Option::None => Result::Err(ReadError::MissingDepth),
                                            Option::Some(elev) => Result::Ok(
                                                Bathymetry {
                                                    location: (lon, lat),
                                                    depth: (0 - elev) as i64,
                                                },
                                            ),
                                        }
                                    }
                                },
                            }
                        }
                    },
                }
            }
        },
        _ => Result::Err(ReadError::MissingLongitude),
    }
}

/// The soundings of the first `i` coordinate members, or the first error.
pub open spec fn sounding_members_spec(items: Seq<JsonValue>, i: int) -> Result<
    Seq<Bathymetry>,
    ReadError,
>
    decreases i,
{
    if i <= 0 {
        Result::Ok(Seq::empty())
    } else {
        match sounding_members_spec(items, i - 1) {
            Result::Err(e) => Result::Err(e),
            Result::Ok(pre) => match sounding_member_spec(items[i - 1]) {
                Result::Err(e) => Result::Err(e),
                Result::Ok(b) => Result::Ok(pre.push(b)),
            },
        }
    }
}

/// An error among the first `i` members decides the whole read.
proof fn lemma_sounding_members_err(items: Seq<JsonValue>, i: int, j: int)
    requires
        0 <= i <= j,
        sounding_members_spec(items, i) is Err,
    ensures
        sounding_members_spec(items, j) == sounding_members_spec(items, i),
    decreases j,
{
    if j > i {
        lemma_sounding_members_err(items, i, j - 1);
    }
}

/// The soundings of a LineString geometry whose third coordinate is an
/// elevation, negated to a depth.
pub open spec fn soundings_from_line_spec(geom: JsonValue) -> Result<Seq<Bathymetry>, ReadError> {
    if !geom_type_is(geom, "LineString"@) {
        Result::Err(ReadError::WrongGeometry)
    } else {
        match get_spec(geom, "coordinates"@) {
            Option::None => Result::Err(ReadError::MissingCoordinate),
            Option::Some(c) => match c {
                JsonValue::Arr(items) => sounding_members_spec(items@, items@.len() as int),
                _ => Result::Err(ReadError::MissingCoordinate),
            },
        }
    }
}

/// The soundings of a whole GeoJSON path document: a LineString geometry, a
/// Feature around one, or the first feature of a FeatureCollection.
pub open spec fn thalweg_doc_spec(doc: JsonValue) -> Result<Seq<Bathymetry>, ReadError> {
    if geom_type_is(doc, "FeatureCollection"@) {
        match get_spec(doc, "features"@) {
            Option::None => Result::Err(ReadError::WrongGeometry),
            Option::Some(f) => match f {
                JsonValue::Arr(items) => {
                    if items@.len() == 0 {
                        Result::Err(ReadError::WrongGeometry)
                    } else {
                        match get_spec(items@[0], "geometry"@) {
                            Option::None => Result::Err(ReadError::WrongGeometry),
                            Option::Some(g) => soundings_from_line_spec(g),
                        }
                    }
                },
                _ => Result::Err(ReadError::WrongGeometry),
            },
        }
    } else if geom_type_is(doc, "Feature"@) {
        match get_spec(doc, "geometry"@) {
            Option::None => Result::Err(ReadError::WrongGeometry),
            Option::Some(g) => soundings_from_line_spec(g),
        }
    } else {
        soundings_from_line_spec(doc)
    }
}

/// Whether the value is a geometry of the given GeoJSON type.
fn has_geom_type(geom: &JsonValue, t: &str) -> (r: bool)
    ensures
        r == geom_type_is(*geom, t@),
{
    match geom.get("type") {
        Some(v) => v.is_text(t),
        None => false,
    }
}

/// The soundings of a LineString geometry.
fn soundings_from_line(geom: &JsonValue) -> (r: Result<Vec<Bathymetry>, ReadError>)
    ensures
        match (r, soundings_from_line_spec(*geom)) {
            (Result::Ok(out), Result::Ok(spec)) => out@ == spec,
            (Result::Err(e1), Result::Err(e2)) => e1 == e2,
            _ => false,
        },
{
    if !has_geom_type(geom, "LineString") {
        return Err(ReadError::WrongGeometry);
    }
    let coords = match geom.get("coordinates") {
        Some(c) => c,
        None => {
            return Err(ReadError::MissingCoordinate);
        },
    };
    let items = match coords.as_array() {
        Some(a) => a,
        None => {
            return Err(ReadError::MissingCoordinate);
        },
    };
    let n = items.len();
    let mut out: Vec<Bathymetry> = Vec::new();
    let mut i: usize = 0;
    while i < n
        invariant
            i <= n,
            n == items@.len(),
            soundings_from_line_spec(*geom) == sounding_members_spec(items@, n as int),
            sounding_members_spec(items@, i as int) == Result::<Seq<Bathymetry>, ReadError>::Ok(
                out@,
            ),
        decreases n - i,
    {
        let member = match items[i].as_array() {
            Some(a) => a,
            None => {
                proof {
                    lemma_sounding_members_err(items@, i as int + 1, n as int);
                }
                return Err(ReadError::MissingLongitude);
            },
        };
        if member.len() < 1 {
            proof {
                lemma_sounding_members_err(items@, i as int + 1, n as int);
            }
            return Err(ReadError::MissingLongitude);
        }
        let lon = match member[0].as_fixed(6) {
            Some(x) => x,
            None => {
                proof {
                    lemma_sounding_members_err(items@, i as int + 1, n as int);
                }
                return Err(ReadError::MissingLongitude);
            },
        };
        if member.len() < 2 {
            proof {
                lemma_sounding_members_err(items@, i as int + 1, n as int);
            }
            return Err(ReadError::MissingLatitude);
        }
        let lat = match member[1].as_fixed(6) {
            Some(x) => x,
            None => {
                proof {
                    lemma_sounding_members_err(items@, i as int + 1, n as int);
                }
                return Err(ReadError::MissingLatitude);
            },
        };
        if member.len() < 3 {
            proof {
                lemma_sounding_members_err(items@, i as int + 1, n as int);
            }
            return Err(ReadError::MissingDepth);
        }
        let elev = match member[2].as_fixed(3) {
            Some(x) => x,
            None => {
                proof {
                    lemma_sounding_members_err(items@, i as int + 1, n as int);
                }
                return Err(ReadError::MissingDepth);
            },
        };
        out.push(Bathymetry { location: (lon, lat), depth: 0 - elev });
        i = i + 1;
    }
    Ok(out)
}

/// Reads a path from a GeoJSON document; the soundings are exactly what
/// `thalweg_doc_spec` names for it.
pub fn from_geojson_doc(doc: &JsonValue) -> (r: Result<Vec<Bathymetry>, ReadError>)
    ensures
        match (r, thalweg_doc_spec(*doc)) {
            (Result::Ok(out), Result::Ok(spec)) => out@ == spec,
            (Result::Err(e1), Result::Err(e2)) => e1 == e2,
            _ => false,
        },
{
    if has_geom_type(doc, "FeatureCollection") {
        let features = match doc.get("features") {
            Some(f) => f,
            None => {
                return Err(ReadError::WrongGeometry);
            },
        };
        let items = match features.as_array() {
            Some(a) => a,
            None => {
                return Err(ReadError::WrongGeometry);
            },
        };
        if items.len() == 0 {
            return Err(ReadError::WrongGeometry);
        }
        match items[0].get("geometry") {
            Some(g) => soundings_from_line(g),
            None => Err(ReadError::WrongGeometry),
        }
    } else if has_geom_type(doc, "Feature") {
        match doc.get("geometry") {
            Some(g) => soundings_from_line(g),
            None => Err(ReadError::WrongGeometry),
        }
    } else {
        soundings_from_line(doc)
    }
}

/// Reads a path from GeoJSON: a LineString geometry, a Feature around one,
/// or the first feature of a FeatureCollection, with the third coordinate
/// negated from elevation to depth. The text is first read as a JSON
/// document — that step promises only a well-formed document or
/// `BadDocument` — and the soundings are then exactly what
/// `thalweg_doc_spec` names for it.
pub fn from_geojson(input: &str) -> (r: Result<Vec<Bathymetry>, ReadError>) {
    let doc = match parse_json(input) {
        Some(d) => d,
        None => {
            return Err(ReadError::BadDocument);
        },
    };
    from_geojson_doc(&doc)
}

} // verus!

verus! {

/// One CSV row rendered for a sounding, without its closing newline.
pub open spec fn csv_row_of(b: Bathymetry) -> Seq<char> {
    crate::format::csv_line_spec(b).drop_last()
}

/// The rendered rows of a path, in order.
pub open spec fn csv_rows_of(s: Seq<Bathymetry>) -> Seq<Seq<char>> {
    s.map_values(|b: Bathymetry| csv_row_of(b))
}

/// A CSV row is its newline-free body plus the newline.
proof fn lemma_csv_line_shape(b: Bathymetry)
    ensures
        crate::format::csv_line_spec(b) == csv_row_of(b) + seq!['\n'],
        forall|i: int| 0 <= i < csv_row_of(b).len() ==> #[trigger] csv_row_of(b)[i] != '\n',
{
    let lon = crate::text::render_trimmed(b.location.0 as int, 6);
    let lat = crate::text::render_trimmed(b.location.1 as int, 6);
    let dep = crate::text::render_trimmed(b.depth as int, 3);
    let line = crate::format::csv_line_spec(b);
    crate::text::lemma_render_trimmed_chars(b.location.0 as int, 6);
    crate::text::lemma_render_trimmed_chars(b.location.1 as int, 6);
    crate::text::lemma_render_trimmed_chars(b.depth as int, 3);
    assert(line == lon + seq![','] + lat + seq![','] + dep + seq!['\n']);
    assert(csv_row_of(b) =~= lon + seq![','] + lat + seq![','] + dep);
    assert(line =~= csv_row_of(b) + seq!['\n']);
    let row = csv_row_of(b);
    assert forall|i: int| 0 <= i < row.len() implies #[trigger] row[i] != '\n' by {
        if i < lon.len() {
            assert(row[i] == lon[i]);
        } else if i == lon.len() {
            assert(row[i] == ',');
        } else if i < lon.len() + 1 + lat.len() {
            assert(row[i] == lat[i - lon.len() - 1]);
        } else if i == lon.len() + 1 + lat.len() {
            assert(row[i] == ',');
        } else {
            assert(row[i] == dep[i - lon.len() - lat.len() - 2]);
        }
    }
}

/// The CSV body of a path, peeled from the front.
proof fn lemma_csv_body_front(s: Seq<Bathymetry>)
    requires
        s.len() > 0,
    ensures
        crate::format::csv_body_spec(s) == crate::format::csv_line_spec(s[0])
            + crate::format::csv_body_spec(s.drop_first()),
    decreases s.len(),
{
    if s.len() == 1 {
        assert(s.drop_last() =~= Seq::<Bathymetry>::empty());
        assert(s.drop_first() =~= Seq::<Bathymetry>::empty());
        assert(crate::format::csv_body_spec(s) =~= crate::format::csv_line_spec(s[0])
            + crate::format::csv_body_spec(s.drop_first()));
    } else {
        let d = s.drop_last();
        lemma_csv_body_front(d);
        assert(d[0] == s[0]);
        assert(d.drop_first() =~= s.drop_first().drop_last());
        assert(s.drop_first().last() == s.last());
        assert(crate::format::csv_body_spec(s) == crate::format::csv_body_spec(d)
            + crate::format::csv_line_spec(s.last()));
        assert(crate::format::csv_body_spec(s.drop_first())
            == crate::format::csv_body_spec(s.drop_first().drop_last())
            + crate::format::csv_line_spec(s.last()));
        assert(crate::format::csv_line_spec(s[0]) + crate::format::csv_body_spec(
            s.drop_first(),
        ) =~= crate::format::csv_body_spec(d) + crate::format::csv_line_spec(s.last()));
    }
}

/// Splitting the rendered body at newlines yields the rows and one empty
/// trailing piece.
proof fn lemma_csv_body_split(s: Seq<Bathymetry>)
    ensures
        crate::text::split_char_spec(crate::format::csv_body_spec(s), '\n') == csv_rows_of(s)
            + seq![Seq::<char>::empty()],
    decreases s.len(),
{
    if s.len() == 0 {
        let e = Seq::<char>::empty();
        assert(crate::text::find_char(e, '\n') == 0);
        assert(crate::text::split_char_spec(e, '\n') == seq![e]);
        assert(csv_rows_of(s) + seq![e] =~= seq![e]);
    } else {
        lemma_csv_body_split(s.drop_first());
        lemma_csv_body_front(s);
        lemma_csv_line_shape(s[0]);
        let row = csv_row_of(s[0]);
        let rest = crate::format::csv_body_spec(s.drop_first());
        assert(crate::format::csv_body_spec(s) =~= row + seq!['\n'] + rest);
        crate::text::lemma_split_piece_off(row, rest, '\n');
        assert(csv_rows_of(s) =~= seq![row] + csv_rows_of(s.drop_first()));
        assert(crate::text::split_char_spec(crate::format::csv_body_spec(s), '\n') =~= csv_rows_of(
            s,
        ) + seq![Seq::<char>::empty()]);
    }
}

} // verus!

verus! {

/// The rendered rows fold back into the path, row by row.
proof fn lemma_csv_rows_fold(s: Seq<Bathymetry>, lines: Seq<Seq<char>>, i: int)
    requires
        lines.len() == s.len() + 1,
        forall|t: int| 1 <= t <= s.len() ==> #[trigger] lines[t] == csv_row_of(s[t - 1]),
        forall|t: int|
            0 <= t < s.len() ==> -1000000000000000000 < ((#[trigger] s[t]).location.0 as int)
                && ((s[t]).location.0 as int) < 1000000000000000000
                && -1000000000000000000 < ((s[t]).location.1 as int)
                && ((s[t]).location.1 as int) < 1000000000000000000
                && -1000000000000000 < ((s[t]).depth as int)
                && ((s[t]).depth as int) < 1000000000000000,
        0 <= i <= s.len(),
    ensures
        crate::read::bathymetry::bathy_rows_spec(lines, 1, 0, 2, false, Option::None, i)
            == s.subrange(0, i),
    decreases i,
{
    if i == 0 {
        assert(s.subrange(0, 0) =~= Seq::<Bathymetry>::empty());
    } else {
        lemma_csv_rows_fold(s, lines, i - 1);
        crate::read::bathymetry::lemma_csv_row_round_trip(s[i - 1]);
        assert(lines[i] == csv_row_of(s[i - 1]));
        assert(crate::read::bathymetry::bathy_row_spec(lines[i], 1, 0, 2, false)
            == Option::Some(s[i - 1]));
        assert(s.subrange(0, i) =~= s.subrange(0, i - 1).push(s[i - 1]));
    }
}

/// Writing a path as CSV and reading the text back with the path reader
/// yields the path again, exactly, for every sounding whose fields fit in
/// the twelve integer digits the readers accept — far beyond the
/// geographic range. At the fixed quantization the CSV round trip loses
/// nothing.
#[verifier::spinoff_prover]
#[verifier::rlimit(100)]
pub proof fn lemma_csv_document_round_trip(s: Seq<Bathymetry>)
    requires
        forall|t: int|
            0 <= t < s.len() ==> -1000000000000000000 < ((#[trigger] s[t]).location.0 as int)
                && ((s[t]).location.0 as int) < 1000000000000000000
                && -1000000000000000000 < ((s[t]).location.1 as int)
                && ((s[t]).location.1 as int) < 1000000000000000000
                && -1000000000000000 < ((s[t]).depth as int)
                && ((s[t]).depth as int) < 1000000000000000,
    ensures
        thalweg_csv_spec(crate::format::csv_render_spec(s)) == Result::<
            Seq<Bathymetry>,
            ReadError,
        >::Ok(s),
{
    reveal_strlit("longitude,latitude,depth\n");
    reveal_strlit("longitude");
    reveal_strlit("latitude");
    reveal_strlit("depth");
    reveal_strlit("la");
    reveal_strlit("lo");
    let header = "longitude,latitude,depth\n"@;
    let hb = header.drop_last();
    let body = crate::format::csv_body_spec(s);
    let doc = crate::format::csv_render_spec(s);
    assert(doc == header + body);
    assert(forall|i: int| 0 <= i < hb.len() ==> #[trigger] hb[i] != '\n');
    assert(doc =~= hb + seq!['\n'] + body);
    crate::text::lemma_split_piece_off(hb, body, '\n');
    lemma_csv_body_split(s);
    let parts = split_char_spec(doc, '\n');
    assert(parts =~= seq![hb] + csv_rows_of(s) + seq![Seq::<char>::empty()]);
    assert(parts.last() == Seq::<char>::empty());
    let lines = split_lines_spec(doc);
    assert(lines =~= seq![hb] + csv_rows_of(s));
    assert(lines.len() == s.len() + 1);
    assert(lines[0] == hb);
    // the header names the three columns at positions one, zero and two
    let name0 = "longitude"@;
    let name1 = "latitude"@;
    let name2 = "depth"@;
    assert(hb =~= name0 + seq![','] + name1 + seq![','] + name2);
    assert(forall|i: int| 0 <= i < name0.len() ==> #[trigger] name0[i] != ',');
    assert(forall|i: int| 0 <= i < name1.len() ==> #[trigger] name1[i] != ',');
    assert(forall|i: int| 0 <= i < name2.len() ==> #[trigger] name2[i] != ',');
    assert(hb =~= name0 + seq![','] + (name1 + seq![','] + name2));
    crate::text::lemma_split_piece_off(name0, name1 + seq![','] + name2, ',');
    crate::text::lemma_split_piece_off(name1, name2, ',');
    crate::text::lemma_find_char_at(name2, ',', name2.len() as int);
    let cols = split_char_spec(hb, ',');
    assert(split_char_spec(name2, ',') == seq![name2]);
    assert(split_char_spec(name1 + seq![','] + name2, ',') == seq![name1] + split_char_spec(
        name2,
        ',',
    ));
    assert(cols == split_char_spec(name0 + seq![','] + (name1 + seq![','] + name2), ','));
    assert(cols =~= seq![name0, name1, name2]);
    assert(crate::text::trim_spec(name0) == name0 && crate::text::trim_quotes_spec(name0)
        == name0);
    assert(crate::text::trim_spec(name1) == name1 && crate::text::trim_quotes_spec(name1)
        == name1);
    assert(crate::text::trim_spec(name2) == name2 && crate::text::trim_quotes_spec(name2)
        == name2);
    assert(!crate::text::col_matches(name0, "la"@)) by {
        assert(!crate::text::eq_ci(name0[1], "la"@[1]));
    }
    assert(crate::text::col_matches(name1, "la"@)) by {
        assert(forall|i: int|
            0 <= i < 2 ==> crate::text::eq_ci(name1[i], #[trigger] ("la"@)[i]));
    }
    assert(crate::text::col_matches(name0, "lo"@)) by {
        assert(forall|i: int|
            0 <= i < 2 ==> crate::text::eq_ci(name0[i], #[trigger] ("lo"@)[i]));
    }
    assert(!crate::text::col_matches(name0, "depth"@)) by {
        assert(!crate::text::eq_ci(name0[0], "depth"@[0]));
    }
    assert(!crate::text::col_matches(name1, "depth"@)) by {
        assert(!crate::text::eq_ci(name1[0], "depth"@[0]));
    }
    assert(crate::text::col_matches(name2, "depth"@)) by {
        assert(forall|i: int|
            0 <= i < 5 ==> crate::text::eq_ci(name2[i], #[trigger] ("depth"@)[i]));
    }
    crate::text::lemma_find_col_at(cols, "la"@, 1);
    crate::text::lemma_find_col_at(cols, "lo"@, 0);
    crate::text::lemma_find_col_at(cols, "depth"@, 2);
    assert(find_col_spec(cols, "la"@) == 1);
    assert(find_col_spec(cols, "lo"@) == 0);
    assert(find_col_spec(cols, "depth"@) == 2);
    assert(forall|t: int| 1 <= t <= s.len() ==> #[trigger] lines[t] == csv_row_of(s[t - 1]));
    lemma_csv_rows_fold(s, lines, s.len() as int);
    assert(s.subrange(0, s.len() as int) =~= s);
}

} // verus!
