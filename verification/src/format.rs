//! Serialization of paths: CSV, degrees-minutes-seconds text, and GeoJSON.

use vstd::prelude::*;

use crate::bathymetry::Bathymetry;
use crate::text::{
    dec_rep, dec_rep2, pad3, render_fixed3, render_trimmed, push_dec, push_dec2, push_pad3,
    push_fixed3, push_trimmed,
};

verus! {

/// The output formats a path can be written in.
#[derive(Clone, Copy, Debug)]
pub enum OutputFormat {
    Csv,
    Dms,
    GeoJson,
}

impl Default for OutputFormat {
    /// Degrees-minutes-seconds text is the default format.
    fn default() -> (r: Self)
        ensures
            r is Dms,
    {
        OutputFormat::Dms
    }
}

/// Reads a format from its name, ignoring case: `csv`, `dms` or `geojson`;
/// anything else is rejected.
pub fn parse_format(s: &str) -> (r: Result<OutputFormat, ()>)
    ensures
        r == if crate::text::matches_ci(s@, "csv"@) {
            Result::<OutputFormat, ()>::Ok(OutputFormat::Csv)
        } else if crate::text::matches_ci(s@, "dms"@) {
            Result::<OutputFormat, ()>::Ok(OutputFormat::Dms)
        } else if crate::text::matches_ci(s@, "geojson"@) {
            Result::<OutputFormat, ()>::Ok(OutputFormat::GeoJson)
        } else {
            Result::<OutputFormat, ()>::Err(())
        },
{
    proof {
        reveal_strlit("csv");
        reveal_strlit("dms");
        reveal_strlit("geojson");
    }
    let v = crate::text::str_chars(s);
    let csv = crate::text::str_chars("csv");
    let dms = crate::text::str_chars("dms");
    let geojson = crate::text::str_chars("geojson");
    if crate::text::chars_eq_ci(&v, &csv) {
        Ok(OutputFormat::Csv)
    } else if crate::text::chars_eq_ci(&v, &dms) {
        Ok(OutputFormat::Dms)
    } else if crate::text::chars_eq_ci(&v, &geojson) {
        Ok(OutputFormat::GeoJson)
    } else {
        Err(())
    }
}

impl core::str::FromStr for OutputFormat {
    type Err = ();

    /// Reads a format from its name, ignoring case.
    fn from_str(s: &str) -> (r: Result<OutputFormat, ()>) {
        parse_format(s)
    }
}

/// The file extension conventionally used for each format.
pub fn extension(format: OutputFormat) -> (r: &'static str)
    ensures
        format is Csv ==> r@ == "csv"@,
        format is Dms ==> r@ == "txt"@,
        format is GeoJson ==> r@ == "geojson"@,
{
    match format {
        OutputFormat::Csv => "csv",
        OutputFormat::Dms => "txt",
        OutputFormat::GeoJson => "geojson",
    }
}

/// One CSV row: longitude, latitude and depth, comma separated.
pub open spec fn csv_line_spec(b: Bathymetry) -> Seq<char> {
    render_trimmed(b.location.0 as int, 6) + seq![','] + render_trimmed(b.location.1 as int, 6)
        + seq![','] + render_trimmed(b.depth as int, 3) + seq!['\n']
}

/// The CSV rows of a path, in order.
pub open spec fn csv_body_spec(s: Seq<Bathymetry>) -> Seq<char>
    decreases s.len(),
{
    if s.len() == 0 {
        Seq::empty()
    } else {
        csv_body_spec(s.drop_last()) + csv_line_spec(s.last())
    }
}

/// A whole CSV document: header then one row per sounding.
pub open spec fn csv_render_spec(s: Seq<Bathymetry>) -> Seq<char> {
    "longitude,latitude,depth\n"@ + csv_body_spec(s)
}

/// One coordinate in degrees-minutes-seconds: two-digit degrees and minutes,
/// seconds with three decimal places, and a hemisphere letter.
pub open spec fn dms_coord_spec(v: int, pos: char, neg: char) -> Seq<char> {
    let m = if v < 0 {
        0 - v
    } else {
        v
    };
    let mas = (18 * m + 2) / 5;
    let deg = mas / 3600000;
    let mn = (mas / 60000) % 60;
    let smas = mas % 60000;
    dec_rep2(deg) + seq!['-'] + dec_rep2(mn) + seq!['-'] + dec_rep(smas / 1000) + seq!['.'] + pad3(
        smas % 1000,
    ) + seq![if v < 0 {
        neg
    } else {
        pos
    }]
}

/// One line of the text format: latitude, longitude and depth in metres.
pub open spec fn dms_line_spec(b: Bathymetry) -> Seq<char> {
    dms_coord_spec(b.location.1 as int, 'N', 'S') + seq![' '] + dms_coord_spec(
        b.location.0 as int,
        'E',
        'W',
    ) + seq![' '] + render_fixed3(b.depth as int) + seq!['\n']
}

/// The text lines of a path, in order.
pub open spec fn dms_body_spec(s: Seq<Bathymetry>) -> Seq<char>
    decreases s.len(),
{
    if s.len() == 0 {
        Seq::empty()
    } else {
        dms_body_spec(s.drop_last()) + dms_line_spec(s.last())
    }
}

/// A whole text document: header then one line per sounding.
pub open spec fn dms_render_spec(s: Seq<Bathymetry>) -> Seq<char> {
    "\"Lat (DMS)\" \"Long (DMS)\" \"Depth (m)\"\n"@ + dms_body_spec(s)
}

/// One GeoJSON coordinate triple: longitude, latitude, negated depth.
pub open spec fn geojson_triple_spec(b: Bathymetry) -> Seq<char> {
    seq!['['] + render_trimmed(b.location.0 as int, 6) + seq![','] + render_trimmed(
        b.location.1 as int,
        6,
    ) + seq![','] + render_trimmed(0 - b.depth as int, 3) + seq![']']
}

/// The comma-joined coordinate triples of a path.
pub open spec fn geojson_body_spec(s: Seq<Bathymetry>) -> Seq<char>
    decreases s.len(),
{
    if s.len() == 0 {
        Seq::empty()
    } else if s.len() == 1 {
        geojson_triple_spec(s[0])
    } else {
        geojson_body_spec(s.drop_last()) + seq![','] + geojson_triple_spec(s.last())
    }
}

/// A whole GeoJSON document: one LineString feature holding the path.
pub open spec fn geojson_render_spec(s: Seq<Bathymetry>) -> Seq<char> {
    "{\"type\":\"FeatureCollection\",\"features\":[{\"type\":\"Feature\",\"properties\":{},\"geometry\":{\"type\":\"LineString\",\"coordinates\":["@
        + geojson_body_spec(s) + "]}}]}"@
}

/// Writes a path in the chosen format.
pub fn convert(format: OutputFormat, input: &Vec<Bathymetry>) -> (r: String)
    ensures
        format is Csv ==> r@ == csv_render_spec(input@),
        format is Dms ==> r@ == dms_render_spec(input@),
        format is GeoJson ==> r@ == geojson_render_spec(input@),
{
    match format {
        OutputFormat::Csv => to_csv(input),
        OutputFormat::Dms => to_dms(input),
        OutputFormat::GeoJson => to_geojson(input),
    }
}

/// Writes a path as CSV: a header row, then longitude, latitude and depth.
pub fn to_csv(input: &Vec<Bathymetry>) -> (r: String)
    ensures
        r@ == csv_render_spec(input@),
{
    proof {
        reveal_strlit("longitude,latitude,depth\n");
        reveal_strlit(",");
        reveal_strlit("\n");
    }
    let mut out = String::new();
    out.append("longitude,latitude,depth\n");
    let n = input.len();
    let mut i: usize = 0;
    while i < n
        invariant
            i <= n,
            n == input@.len(),
            out@ == "longitude,latitude,depth\n"@ + csv_body_spec(input@.subrange(0, i as int)),
        decreases n - i,
    {
        proof {
            reveal_strlit("longitude,latitude,depth\n");
            reveal_strlit(",");
            reveal_strlit("\n");
        }
        let b = input[i];
        push_trimmed(&mut out, b.location.0 as i128, 6);
        out.append(",");
        push_trimmed(&mut out, b.location.1 as i128, 6);
        out.append(",");
        push_trimmed(&mut out, b.depth as i128, 3);
        out.append("\n");
        proof {
            let cur = input@.subrange(0, i as int + 1);
            assert(cur.drop_last() =~= input@.subrange(0, i as int));
            assert(cur.last() == input@[i as int]);
            assert(out@ =~= "longitude,latitude,depth\n"@ + csv_body_spec(cur));
        }
        i = i + 1;
    }
    proof {
        assert(input@.subrange(0, n as int) =~= input@);
    }
    out
}

/// Appends one coordinate in degrees-minutes-seconds notation.
fn push_dms_coord(out: &mut String, v: i64, pos: &str, neg: &str)
    requires
        pos@.len() == 1,
        neg@.len() == 1,
    ensures
        final(out)@ == old(out)@ + dms_coord_spec(v as int, pos@[0], neg@[0]),
{
    proof {
        reveal_strlit("-");
        reveal_strlit(".");
    }
    let m: u128 = if v < 0 {
        (0 - (v as i128)) as u128
    } else {
        v as u128
    };
    let mas = (18 * m + 2) / 5;
    proof {
        vstd::arithmetic::div_mod::lemma_div_pos_is_pos(18 * m as int + 2, 5);
        vstd::arithmetic::div_mod::lemma_div_is_ordered(
            18 * m as int + 2,
            18 * 9223372036854775808int + 2,
            5,
        );
        vstd::arithmetic::div_mod::lemma_mod_bound(mas as int, 3600000);
        vstd::arithmetic::div_mod::lemma_mod_bound(mas as int / 60000, 60);
        vstd::arithmetic::div_mod::lemma_div_pos_is_pos(mas as int, 60000);
        vstd::arithmetic::div_mod::lemma_mod_bound(mas as int, 60000);
        vstd::arithmetic::div_mod::lemma_div_pos_is_pos(mas as int, 3600000);
        vstd::arithmetic::div_mod::lemma_div_pos_is_pos(mas as int % 60000, 1000);
        vstd::arithmetic::div_mod::lemma_div_is_ordered(mas as int % 60000, 59999, 1000);
        vstd::arithmetic::div_mod::lemma_mod_bound(mas as int % 60000, 1000);
    }
    push_dec2(out, mas / 3600000);
    out.append("-");
    push_dec2(out, (mas / 60000) % 60);
    out.append("-");
    let smas = mas % 60000;
    push_dec(out, smas / 1000);
    out.append(".");
    push_pad3(out, smas % 1000);
    if v < 0 {
        out.append(neg);
    } else {
        out.append(pos);
    }
    proof {
        assert(neg@ =~= seq![neg@[0]]);
        assert(pos@ =~= seq![pos@[0]]);
        assert(final(out)@ =~= old(out)@ + dms_coord_spec(v as int, pos@[0], neg@[0]));
    }
}

/// Writes a path as degrees-minutes-seconds text with a header line.
pub fn to_dms(input: &Vec<Bathymetry>) -> (r: String)
    ensures
        r@ == dms_render_spec(input@),
{
    proof {
        reveal_strlit("\"Lat (DMS)\" \"Long (DMS)\" \"Depth (m)\"\n");
    }
    let mut out = String::new();
    out.append("\"Lat (DMS)\" \"Long (DMS)\" \"Depth (m)\"\n");
    let n = input.len();
    let mut i: usize = 0;
    while i < n
        invariant
            i <= n,
            n == input@.len(),
            out@ == "\"Lat (DMS)\" \"Long (DMS)\" \"Depth (m)\"\n"@ + dms_body_spec(
                input@.subrange(0, i as int),
            ),
        decreases n - i,
    {
        proof {
            reveal_strlit(" ");
            reveal_strlit("\n");
            reveal_strlit("N");
            reveal_strlit("S");
            reveal_strlit("E");
            reveal_strlit("W");
        }
        let b = input[i];
        push_dms_coord(&mut out, b.location.1, "N", "S");
        out.append(" ");
        push_dms_coord(&mut out, b.location.0, "E", "W");
        out.append(" ");
        push_fixed3(&mut out, b.depth as i128);
        out.append("\n");
        proof {
            let cur = input@.subrange(0, i as int + 1);
            assert(cur.drop_last() =~= input@.subrange(0, i as int));
            assert(cur.last() == input@[i as int]);
            assert("N"@[0] == 'N' && "S"@[0] == 'S' && "E"@[0] == 'E' && "W"@[0] == 'W');
            assert(out@ =~= "\"Lat (DMS)\" \"Long (DMS)\" \"Depth (m)\"\n"@ + dms_body_spec(cur));
        }
        i = i + 1;
    }
    proof {
        assert(input@.subrange(0, n as int) =~= input@);
    }
    out
}

/// Writes a path as a GeoJSON LineString feature.
pub fn to_geojson(input: &Vec<Bathymetry>) -> (r: String)
    ensures
        r@ == geojson_render_spec(input@),
{
    proof {
        reveal_strlit(
            "{\"type\":\"FeatureCollection\",\"features\":[{\"type\":\"Feature\",\"properties\":{},\"geometry\":{\"type\":\"LineString\",\"coordinates\":[",
        );
        reveal_strlit("]}}]}");
    }
    let mut out = String::new();
    out.append(
        "{\"type\":\"FeatureCollection\",\"features\":[{\"type\":\"Feature\",\"properties\":{},\"geometry\":{\"type\":\"LineString\",\"coordinates\":[",
    );
    let ghost head =
        "{\"type\":\"FeatureCollection\",\"features\":[{\"type\":\"Feature\",\"properties\":{},\"geometry\":{\"type\":\"LineString\",\"coordinates\":["@;
    let n = input.len();
    let mut i: usize = 0;
    while i < n
        invariant
            i <= n,
            n == input@.len(),
            out@ == head + geojson_body_spec(input@.subrange(0, i as int)),
        decreases n - i,
    {
        proof {
            reveal_strlit("[");
            reveal_strlit("]");
            reveal_strlit(",");
        }
        let b = input[i];
        if i > 0 {
            out.append(",");
        }
        out.append("[");
        push_trimmed(&mut out, b.location.0 as i128, 6);
        out.append(",");
        push_trimmed(&mut out, b.location.1 as i128, 6);
        out.append(",");
        push_trimmed(&mut out, 0 - (b.depth as i128), 3);
        out.append("]");
        proof {
            let cur = input@.subrange(0, i as int + 1);
            assert(cur.drop_last() =~= input@.subrange(0, i as int));
            assert(cur.last() == input@[i as int]);
            assert(out@ =~= head + geojson_body_spec(cur));
        }
        i = i + 1;
    }
    proof {
        assert(input@.subrange(0, n as int) =~= input@);
    }
    out.append("]}}]}");
    proof {
        assert(out@ =~= geojson_render_spec(input@));
    }
    out
}

} // verus!
