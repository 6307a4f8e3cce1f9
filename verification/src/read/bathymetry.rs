//! Readers for sounding data: NONNA-style lines and tabular rows, with an
//! optional bounding box that keeps only the soundings inside it.

use vstd::prelude::*;

use crate::bathymetry::Bathymetry;
use crate::parse::{BoundingBox, box_contains_spec};
use crate::read::{data_lines_spec, ReadError};
use crate::text::{
    split_char_spec, split_lines_spec, find_col_spec, str_chars, split_ranges, parse_dec_range,
    find_col_exec, parse_dec_spec,
};

verus! {

/// The sounding a tabular row yields under the given column positions; the
/// depth is negated when it came from an elevation column.
pub open spec fn bathy_row_spec(line: Seq<char>, li: int, lo: int, di: int, negate: bool)
    -> Option<Bathymetry> {
    let fields = split_char_spec(line, ',');
    if li < fields.len() && lo < fields.len() && di < fields.len() {
        match (
            parse_dec_spec(fields[li], 6),
            parse_dec_spec(fields[lo], 6),
            parse_dec_spec(fields[di], 3),
        ) {
            (Option::Some(lat), Option::Some(lon), Option::Some(d)) => Option::Some(
                Bathymetry {
                    location: (lon, lat),
                    depth: if negate {
                        (0 - d) as i64
                    } else {
                        d
                    },
                },
            ),
            _ => Option::None,
        }
    } else {
        Option::None
    }
}

/// The soundings of the tabular rows up to line `i`, header excluded,
/// filtered by the bounding box when one is given.
pub open spec fn bathy_rows_spec(
    lines: Seq<Seq<char>>,
    li: int,
    lo: int,
    di: int,
    negate: bool,
    bb: Option<BoundingBox>,
    i: int,
) -> Seq<Bathymetry>
    decreases i,
{
    if i <= 0 {
        Seq::empty()
    } else {
        let pre = bathy_rows_spec(lines, li, lo, di, negate, bb, i - 1);
        match bathy_row_spec(lines[i], li, lo, di, negate) {
            Option::Some(b) => {
                if match bb {
                    Option::Some(x) => box_contains_spec(x, b.location),
                    Option::None => true,
                } {
                    pre.push(b)
                } else {
                    pre
                }
            },
            Option::None => pre,
        }
    }
}

/// The soundings of a whole tabular text: the header names latitude and
/// longitude columns by prefix, and a depth column, or an elevation column
/// whose values are negated; without a depth or elevation column the read
/// fails.
pub open spec fn bathy_csv_spec(s: Seq<char>, bb: Option<BoundingBox>) -> Result<
    Seq<Bathymetry>,
    ReadError,
> {
    let lines = split_lines_spec(s);
    if lines.len() == 0 {
        Result::Ok(Seq::empty())
    } else {
        let cols = split_char_spec(lines[0], ',');
        let li = find_col_spec(cols, "la"@);
        let lo = find_col_spec(cols, "lo"@);
        let di = find_col_spec(cols, "depth"@);
        let ei = find_col_spec(cols, "elevation"@);
        if li >= cols.len() {
            Result::Err(ReadError::MissingLatitude)
        } else if lo >= cols.len() {
            Result::Err(ReadError::MissingLongitude)
        } else if di >= cols.len() {
            if ei >= cols.len() {
                Result::Err(ReadError::MissingDepth)
            } else {
                Result::Ok(bathy_rows_spec(lines, li, lo, ei, true, bb, lines.len() - 1))
            }
        } else {
            Result::Ok(bathy_rows_spec(lines, li, lo, di, false, bb, lines.len() - 1))
        }
    }
}

/// Reads soundings from NONNA-style lines, keeping those inside the box when
/// one is given.
pub fn from_nonna(input: &str, bb: &Option<BoundingBox>) -> (r: Vec<Bathymetry>)
    ensures
        r@ == data_lines_spec(split_lines_spec(input@), *bb),
{
    let bbv = match bb {
        Some(x) => Some(*x),
        None => None,
    };
    crate::read::data_lines_core(input, bbv)
}

/// Parses one tabular sounding row.
pub(crate) fn bathy_row_range(
    v: &Vec<char>,
    llo: usize,
    lhi: usize,
    li: usize,
    lo: usize,
    di: usize,
    negate: bool,
) -> (r: Option<Bathymetry>)
    requires
        llo <= lhi <= v@.len(),
    ensures
        r == bathy_row_spec(
            v@.subrange(llo as int, lhi as int),
            li as int,
            lo as int,
            di as int,
            negate,
        ),
{
    let ghost line = v@.subrange(llo as int, lhi as int);
    let fields = split_ranges(v, llo, lhi, ',');
    let ghost f = |p: (usize, usize)| v@.subrange(p.0 as int, p.1 as int);
    let m = fields.len();
    if !(li < m && lo < m && di < m) {
        return None;
    }
    proof {
        assert(split_char_spec(line, ',')[li as int] == f(fields@[li as int]));
        assert(split_char_spec(line, ',')[lo as int] == f(fields@[lo as int]));
        assert(split_char_spec(line, ',')[di as int] == f(fields@[di as int]));
    }
    let (la, lb) = fields[li];
    let (oa, ob) = fields[lo];
    let (da, db) = fields[di];
    let lat = match parse_dec_range(v, la, lb, 6) {
        Some(x) => x,
        None => {
            return None;
        },
    };
    let lon = match parse_dec_range(v, oa, ob, 6) {
        Some(x) => x,
        None => {
            return None;
        },
    };
    let d = match parse_dec_range(v, da, db, 3) {
        Some(x) => x,
        None => {
            return None;
        },
    };
    let depth = if negate {
        0 - d
    } else {
        d
    };
    Some(Bathymetry { location: (lon, lat), depth })
}

/// Reads the tabular rows under an already parsed header.
pub(crate) fn bathy_rows_core(
    v: &Vec<char>,
    lines: &Vec<(usize, usize)>,
    li: usize,
    lo: usize,
    di: usize,
    negate: bool,
    bb: Option<BoundingBox>,
) -> (r: Vec<Bathymetry>)
    requires
        lines@.len() >= 1,
        forall|t: int| 0 <= t < lines@.len() ==> (#[trigger] lines@[t]).0 <= lines@[t].1
            <= v@.len(),
    ensures
        r@ == bathy_rows_spec(
            lines@.map_values(|p: (usize, usize)| v@.subrange(p.0 as int, p.1 as int)),
            li as int,
            lo as int,
            di as int,
            negate,
            bb,
            lines@.len() - 1,
        ),
{
    let ghost ls = lines@.map_values(|p: (usize, usize)| v@.subrange(p.0 as int, p.1 as int));
    let n = lines.len();
    let mut out: Vec<Bathymetry> = Vec::new();
    let mut i: usize = 1;
    while i < n
        invariant
            1 <= i <= n,
            n == lines@.len(),
            ls == lines@.map_values(|p: (usize, usize)| v@.subrange(p.0 as int, p.1 as int)),
            forall|t: int| 0 <= t < lines@.len() ==> (#[trigger] lines@[t]).0 <= lines@[t].1
                <= v@.len(),
            out@ == bathy_rows_spec(ls, li as int, lo as int, di as int, negate, bb, i as int - 1),
        decreases n - i,
    {
        proof {
            assert(ls[i as int] == v@.subrange(
                lines@[i as int].0 as int,
                lines@[i as int].1 as int,
            ));
        }
        let (llo, lhi) = lines[i];
        match bathy_row_range(v, llo, lhi, li, lo, di, negate) {
            Some(b) => {
                let keep = match bb {
                    Some(x) => x.contains(b.location),
                    None => true,
                };
                if keep {
                    out.push(b);
                }
            },
            None => {},
        }
        i = i + 1;
    }
    out
}

/// Reads soundings from a tabular text, keeping those inside the box when
/// one is given; the read fails when a required column is missing.
pub fn from_csv(input: &str, bb: &Option<BoundingBox>) -> (r: Result<Vec<Bathymetry>, ReadError>)
    ensures
        match (r, bathy_csv_spec(input@, *bb)) {
            (Result::Ok(out), Result::Ok(spec)) => out@ == spec,
            (Result::Err(e1), Result::Err(e2)) => e1 == e2,
            _ => false,
        },
{
    let bbv = match bb {
        Some(x) => Some(*x),
        None => None,
    };
    let v = str_chars(input);
    let lines = crate::read::line_ranges(&v);
    let ghost ls = split_lines_spec(v@);
    let ghost f = |p: (usize, usize)| v@.subrange(p.0 as int, p.1 as int);
    let n = lines.len();
    if n == 0 {
        let out: Vec<Bathymetry> = Vec::new();
        return Ok(out);
    }
    let (hlo, hhi) = lines[0];
    proof {
        assert(ls[0] == f(lines@[0]));
    }
    let cols = split_ranges(&v, hlo, hhi, ',');
    let la_name = str_chars("la");
    let lo_name = str_chars("lo");
    let de_name = str_chars("depth");
    let el_name = str_chars("elevation");
    proof {
        reveal_strlit("la");
        reveal_strlit("lo");
        reveal_strlit("depth");
        reveal_strlit("elevation");
    }
    let li = find_col_exec(&v, &cols, &la_name);
    let lo = find_col_exec(&v, &cols, &lo_name);
    let di = find_col_exec(&v, &cols, &de_name);
    let ei = find_col_exec(&v, &cols, &el_name);
    let m = cols.len();
    if li == m {
        return Err(ReadError::MissingLatitude);
    }
    if lo == m {
        return Err(ReadError::MissingLongitude);
    }
    if di == m {
        if ei == m {
            return Err(ReadError::MissingDepth);
        }
        return Ok(bathy_rows_core(&v, &lines, li, lo, ei, true, bbv));
    }
    Ok(bathy_rows_core(&v, &lines, li, lo, di, false, bbv))
}

} // verus!

verus! {

/// One rendered CSV row reads back as its sounding exactly, under the
/// column order the CSV writer uses: longitude, latitude, depth. At the
/// fixed quantization the tabular round trip loses nothing, for every
/// sounding whose fields fit in the twelve integer digits the readers
/// accept — far beyond the geographic range.
pub proof fn lemma_csv_row_round_trip(b: Bathymetry)
    requires
        -1000000000000000000 < (b.location.0 as int)
            && (b.location.0 as int) < 1000000000000000000,
        -1000000000000000000 < (b.location.1 as int)
            && (b.location.1 as int) < 1000000000000000000,
        -1000000000000000 < (b.depth as int) && (b.depth as int) < 1000000000000000,
    ensures
        bathy_row_spec(
            crate::format::csv_line_spec(b).drop_last(),
            1,
            0,
            2,
            false,
        ) == Option::<Bathymetry>::Some(b),
{
    let lon = crate::text::render_trimmed(b.location.0 as int, 6);
    let lat = crate::text::render_trimmed(b.location.1 as int, 6);
    let dep = crate::text::render_trimmed(b.depth as int, 3);
    let line = lon + seq![','] + lat + seq![','] + dep;
    assert(crate::format::csv_line_spec(b).drop_last() =~= line);
    crate::text::lemma_render_trimmed_chars(b.location.0 as int, 6);
    crate::text::lemma_render_trimmed_chars(b.location.1 as int, 6);
    crate::text::lemma_render_trimmed_chars(b.depth as int, 3);
    assert(forall|i: int| 0 <= i < lon.len() ==> #[trigger] lon[i] != ',');
    assert(forall|i: int| 0 <= i < lat.len() ==> #[trigger] lat[i] != ',');
    assert(forall|i: int| 0 <= i < dep.len() ==> #[trigger] dep[i] != ',');
    crate::text::lemma_split_three(lon, lat, dep, ',');
    let fields = split_char_spec(line, ',');
    assert(fields =~= seq![lon, lat, dep]);
    assert(crate::text::pow10(6) == 1000000 && crate::text::pow10(3) == 1000) by {
        reveal_with_fuel(crate::text::pow10, 8);
    }
    crate::text::lemma_decimal_round_trip(b.location.0, 6);
    crate::text::lemma_decimal_round_trip(b.location.1, 6);
    crate::text::lemma_decimal_round_trip(b.depth, 3);
    assert(parse_dec_spec(fields[0], 6) == Option::Some(b.location.0));
    assert(parse_dec_spec(fields[1], 6) == Option::Some(b.location.1));
    assert(parse_dec_spec(fields[2], 3) == Option::Some(b.depth));
}

} // verus!
