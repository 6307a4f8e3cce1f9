//! Readers for sounding and corner data held in text: one sounding or corner
//! per line, or tabular rows under a header. Malformed lines are skipped,
//! never fatal.

use vstd::prelude::*;

use crate::bathymetry::{Bathymetry, Point};
use crate::parse::{
    parse_dms_latitude_spec, parse_dms_longitude_spec, BoundingBox, box_contains_spec,
};
use crate::text::{
    find_char, parse_dec_spec, split_char_spec, split_lines_spec, find_col_spec, str_chars,
    split_ranges, trim_range, find_from, parse_dec_range, find_col_exec,
};

pub mod bathymetry;
pub mod point;
pub mod thalweg;

verus! {

/// Why a tabular read can fail: a column the format requires is missing.
#[derive(Clone, Copy, Debug, PartialEq, Eq, Structural)]
pub enum ReadError {
    MissingLatitude,
    MissingLongitude,
    MissingDepth,
    BadDocument,
    WrongGeometry,
    MissingCoordinate,
}

/// One sounding line: `<lat DMS> <lon DMS> <depth>`, space separated; the
/// third token runs to the next space or the end.
pub open spec fn read_data_line_spec(line: Seq<char>) -> Option<Bathymetry> {
    let t = crate::text::trim_spec(line);
    let s1 = find_char(t, ' ');
    if s1 >= t.len() {
        Option::None
    } else {
        let tok1 = t.subrange(0, s1);
        let rest = t.subrange(s1 + 1, t.len() as int);
        let s2 = find_char(rest, ' ');
        if s2 >= rest.len() {
            Option::None
        } else {
            let tok2 = rest.subrange(0, s2);
            let rest2 = rest.subrange(s2 + 1, rest.len() as int);
            let s3 = find_char(rest2, ' ');
            let tok3 = rest2.subrange(0, s3);
            match (
                parse_dms_latitude_spec(tok1),
                parse_dms_longitude_spec(tok2),
                parse_dec_spec(tok3, 3),
            ) {
                (Option::Some(lat), Option::Some(lon), Option::Some(depth)) => Option::Some(
                    Bathymetry { location: (lon, lat), depth },
                ),
                _ => Option::None,
            }
        }
    }
}

/// One corner line: `<lat DMS> <lon DMS>`, space separated.
pub open spec fn read_corner_line_spec(line: Seq<char>) -> Option<Point> {
    let t = crate::text::trim_spec(line);
    let s1 = find_char(t, ' ');
    if s1 >= t.len() {
        Option::None
    } else {
        let tok1 = t.subrange(0, s1);
        let rest = t.subrange(s1 + 1, t.len() as int);
        let s2 = find_char(rest, ' ');
        let tok2 = rest.subrange(0, s2);
        match (parse_dms_latitude_spec(tok1), parse_dms_longitude_spec(tok2)) {
            (Option::Some(lat), Option::Some(lon)) => Option::Some((lon, lat)),
            _ => Option::None,
        }
    }
}

/// The soundings parsed from the lines of a text, kept when they parse and,
/// with a box given, when they lie inside it.
pub open spec fn data_lines_spec(lines: Seq<Seq<char>>, bb: Option<BoundingBox>) -> Seq<
    Bathymetry,
>
    decreases lines.len(),
{
    if lines.len() == 0 {
        Seq::empty()
    } else {
        let pre = data_lines_spec(lines.drop_last(), bb);
        match read_data_line_spec(lines.last()) {
            Option::Some(b) => {
                if match bb {
                    Option::Some(x) => box_contains_spec(x, b.location),
                    Option::None => true,
                } {
                    pre.push(b)
                } else {
                    pre
                }
            },
            Option::None => pre,
        }
    }
}

/// The corners parsed from the lines of a text.
pub open spec fn corner_lines_spec(lines: Seq<Seq<char>>) -> Seq<Point>
    decreases lines.len(),
{
    if lines.len() == 0 {
        Seq::empty()
    } else {
        let pre = corner_lines_spec(lines.drop_last());
        match read_corner_line_spec(lines.last()) {
            Option::Some(p) => pre.push(p),
            Option::None => pre,
        }
    }
}

/// The corner a tabular row yields under the given column positions.
pub open spec fn corner_row_spec(line: Seq<char>, li: int, lo: int) -> Option<Point> {
    let fields = split_char_spec(line, ',');
    if li < fields.len() && lo < fields.len() {
        match (parse_dec_spec(fields[lo], 6), parse_dec_spec(fields[li], 6)) {
            (Option::Some(lonv), Option::Some(latv)) => Option::Some((lonv, latv)),
            _ => Option::None,
        }
    } else {
        Option::None
    }
}

/// The corners of the tabular rows up to line `i`, header excluded.
pub open spec fn corner_rows_spec(lines: Seq<Seq<char>>, li: int, lo: int, i: int) -> Seq<Point>
    decreases i,
{
    if i <= 0 {
        Seq::empty()
    } else {
        let pre = corner_rows_spec(lines, li, lo, i - 1);
        match corner_row_spec(lines[i], li, lo) {
            Option::Some(p) => pre.push(p),
            Option::None => pre,
        }
    }
}

/// The corners of a whole tabular text: the header names the latitude and
/// longitude columns by the prefixes `la` and `lo`, ignoring case; without
/// both columns nothing is read.
pub open spec fn corner_csv_spec(s: Seq<char>) -> Seq<Point> {
    let lines = split_lines_spec(s);
    if lines.len() == 0 {
        Seq::empty()
    } else {
        let cols = split_char_spec(lines[0], ',');
        let li = find_col_spec(cols, "la"@);
        let lo = find_col_spec(cols, "lo"@);
        if li >= cols.len() || lo >= cols.len() {
            Seq::empty()
        } else {
            corner_rows_spec(lines, li, lo, lines.len() - 1)
        }
    }
}

/// The line ranges of a text, mirroring `split_lines_spec`.
pub(crate) fn line_ranges(v: &Vec<char>) -> (r: Vec<(usize, usize)>)
    ensures
        r@.map_values(|p: (usize, usize)| v@.subrange(p.0 as int, p.1 as int))
            == split_lines_spec(v@),
        forall|t: int| 0 <= t < r@.len() ==> (#[trigger] r@[t]).0 <= r@[t].1 <= v@.len(),
{
    let n = v.len();
    proof {
        assert(v@.subrange(0, n as int) =~= v@);
    }
    let mut lines = split_ranges(v, 0, n, '\n');
    let m = lines.len();
    let ghost f = |p: (usize, usize)| v@.subrange(p.0 as int, p.1 as int);
    let last = lines[m - 1];
    if last.0 == last.1 {
        proof {
            assert(lines@.map_values(f).last() == v@.subrange(last.0 as int, last.1 as int));
            assert(v@.subrange(last.0 as int, last.1 as int).len() == 0);
        }
        lines.pop();
        proof {
            assert(lines@.map_values(f) =~= split_lines_spec(v@));
        }
    } else {
        proof {
            assert(lines@.map_values(f).last() == v@.subrange(last.0 as int, last.1 as int));
            assert(lines@.map_values(f) =~= split_lines_spec(v@));
        }
    }
    lines
}

/// Parses one sounding line.
pub(crate) fn read_data_line_range(v: &Vec<char>, llo: usize, lhi: usize) -> (r: Option<
    Bathymetry,
>)
    requires
        llo <= lhi <= v@.len(),
    ensures
        r == read_data_line_spec(v@.subrange(llo as int, lhi as int)),
{
    let (a, b) = trim_range(v, llo, lhi);
    let ghost t = v@.subrange(a as int, b as int);
    proof {
        assert(forall|u: int| 0 <= u < t.len() ==> t[u] == v@[u + a]);
    }
    let s1 = find_from(v, a, b, ' ');
    if s1 == b {
        return None;
    }
    let ghost rest = t.subrange(s1 as int - a as int + 1, t.len() as int);
    proof {
        assert(t.subrange(0, s1 as int - a as int) =~= v@.subrange(a as int, s1 as int));
        assert(rest =~= v@.subrange(s1 as int + 1, b as int));
        assert(forall|u: int| 0 <= u < rest.len() ==> rest[u] == v@[u + s1 + 1]);
    }
    let s2 = find_from(v, s1 + 1, b, ' ');
    if s2 == b {
        return None;
    }
    let ghost rest2 = rest.subrange(s2 as int - s1 as int, rest.len() as int);
    proof {
        assert(rest.subrange(0, s2 as int - s1 as int - 1) =~= v@.subrange(
            s1 as int + 1,
            s2 as int,
        ));
        assert(rest2 =~= v@.subrange(s2 as int + 1, b as int));
        assert(forall|u: int| 0 <= u < rest2.len() ==> rest2[u] == v@[u + s2 + 1]);
    }
    let s3 = find_from(v, s2 + 1, b, ' ');
    proof {
        assert(rest2.subrange(0, s3 as int - s2 as int - 1) =~= v@.subrange(
            s2 as int + 1,
            s3 as int,
        ));
    }
    let lat = match crate::parse::parse_dms_latitude_range(v, a, s1) {
        Some(x) => x,
        None => {
            return None;
        },
    };
    let lon = match crate::parse::parse_dms_longitude_range(v, s1 + 1, s2) {
        Some(x) => x,
        None => {
            return None;
        },
    };
    let depth = match parse_dec_range(v, s2 + 1, s3, 3) {
        Some(x) => x,
        None => {
            return None;
        },
    };
    Some(Bathymetry { location: (lon, lat), depth })
}

/// Parses one corner line.
pub(crate) fn read_corner_line_range(v: &Vec<char>, llo: usize, lhi: usize) -> (r: Option<Point>)
    requires
        llo <= lhi <= v@.len(),
    ensures
        r == read_corner_line_spec(v@.subrange(llo as int, lhi as int)),
{
    let (a, b) = trim_range(v, llo, lhi);
    let ghost t = v@.subrange(a as int, b as int);
    proof {
        assert(forall|u: int| 0 <= u < t.len() ==> t[u] == v@[u + a]);
    }
    let s1 = find_from(v, a, b, ' ');
    if s1 == b {
        return None;
    }
    let ghost rest = t.subrange(s1 as int - a as int + 1, t.len() as int);
    proof {
        assert(t.subrange(0, s1 as int - a as int) =~= v@.subrange(a as int, s1 as int));
        assert(rest =~= v@.subrange(s1 as int + 1, b as int));
        assert(forall|u: int| 0 <= u < rest.len() ==> rest[u] == v@[u + s1 + 1]);
    }
    let s2 = find_from(v, s1 + 1, b, ' ');
    proof {
        assert(rest.subrange(0, s2 as int - s1 as int - 1) =~= v@.subrange(
            s1 as int + 1,
            s2 as int,
        ));
    }
    let lat = match crate::parse::parse_dms_latitude_range(v, a, s1) {
        Some(x) => x,
        None => {
            return None;
        },
    };
    let lon = match crate::parse::parse_dms_longitude_range(v, s1 + 1, s2) {
        Some(x) => x,
        None => {
            return None;
        },
    };
    Some((lon, lat))
}

/// Reads soundings, one per line, optionally keeping only those inside a
/// bounding box; lines that do not parse are skipped.
pub(crate) fn data_lines_core(input: &str, bb: Option<BoundingBox>) -> (r: Vec<Bathymetry>)
    ensures
        r@ == data_lines_spec(split_lines_spec(input@), bb),
{
    let v = str_chars(input);
    let lines = line_ranges(&v);
    let ghost ls = split_lines_spec(v@);
    let ghost f = |p: (usize, usize)| v@.subrange(p.0 as int, p.1 as int);
    let n = lines.len();
    let mut out: Vec<Bathymetry> = Vec::new();
    let mut i: usize = 0;
    while i < n
        invariant
            i <= n,
            n == lines@.len(),
            ls == lines@.map_values(
                |p: (usize, usize)| v@.subrange(p.0 as int, p.1 as int),
            ),
            forall|t: int| 0 <= t < lines@.len() ==> (#[trigger] lines@[t]).0 <= lines@[t].1
                <= v@.len(),
            out@ == data_lines_spec(ls.subrange(0, i as int), bb),
        decreases n - i,
    {
        let ghost pre = ls.subrange(0, i as int);
        let ghost cur = ls.subrange(0, i as int + 1);
        proof {
            assert(cur.drop_last() =~= pre);
            assert(cur.last() == ls[i as int]);
            assert(ls[i as int] == v@.subrange(
                lines@[i as int].0 as int,
                lines@[i as int].1 as int,
            ));
        }
        let (llo, lhi) = lines[i];
        match read_data_line_range(&v, llo, lhi) {
            Some(b) => {
                let keep = match bb {
                    Some(x) => x.contains(b.location),
                    None => true,
                };
                if keep {
                    out.push(b);
                }
            },
            None => {},
        }
        i = i + 1;
    }
    proof {
        assert(ls.subrange(0, n as int) =~= ls);
    }
    out
}

/// Reads the soundings of a NONNA-style text, one per line.
pub fn read_data_lines(input: &str) -> (r: Vec<Bathymetry>)
    ensures
        r@ == data_lines_spec(split_lines_spec(input@), Option::None),
{
    data_lines_core(input, None)
}

/// Parses one sounding line.
pub fn read_data_line(input: &str) -> (r: Option<Bathymetry>)
    ensures
        r == read_data_line_spec(input@),
{
    let v = str_chars(input);
    let n = v.len();
    proof {
        assert(v@.subrange(0, n as int) =~= input@);
    }
    read_data_line_range(&v, 0, n)
}

/// Reads corners, one per line; lines that do not parse are skipped.
pub fn read_corner_lines(input: &str) -> (r: Vec<Point>)
    ensures
        r@ == corner_lines_spec(split_lines_spec(input@)),
{
    let v = str_chars(input);
    let lines = line_ranges(&v);
    let ghost ls = split_lines_spec(v@);
    let ghost f = |p: (usize, usize)| v@.subrange(p.0 as int, p.1 as int);
    let n = lines.len();
    let mut out: Vec<Point> = Vec::new();
    let mut i: usize = 0;
    while i < n
        invariant
            i <= n,
            n == lines@.len(),
            ls == lines@.map_values(
                |p: (usize, usize)| v@.subrange(p.0 as int, p.1 as int),
            ),
            forall|t: int| 0 <= t < lines@.len() ==> (#[trigger] lines@[t]).0 <= lines@[t].1
                <= v@.len(),
            out@ == corner_lines_spec(ls.subrange(0, i as int)),
        decreases n - i,
    {
        let ghost pre = ls.subrange(0, i as int);
        let ghost cur = ls.subrange(0, i as int + 1);
        proof {
            assert(cur.drop_last() =~= pre);
            assert(cur.last() == ls[i as int]);
            assert(ls[i as int] == v@.subrange(
                lines@[i as int].0 as int,
                lines@[i as int].1 as int,
            ));
        }
        let (llo, lhi) = lines[i];
        match read_corner_line_range(&v, llo, lhi) {
            Some(p) => {
                out.push(p);
            },
            None => {},
        }
        i = i + 1;
    }
    proof {
        assert(ls.subrange(0, n as int) =~= ls);
    }
    out
}

/// Parses one tabular corner row.
pub(crate) fn corner_row_range(v: &Vec<char>, llo: usize, lhi: usize, li: usize, lo: usize) -> (r:
    Option<Point>)
    requires
        llo <= lhi <= v@.len(),
    ensures
        r == corner_row_spec(v@.subrange(llo as int, lhi as int), li as int, lo as int),
{
    let ghost line = v@.subrange(llo as int, lhi as int);
    let fields = split_ranges(v, llo, lhi, ',');
    let ghost f = |p: (usize, usize)| v@.subrange(p.0 as int, p.1 as int);
    let m = fields.len();
    if !(li < m && lo < m) {
        return None;
    }
    proof {
        assert(split_char_spec(line, ',')[li as int] == f(fields@[li as int]));
        assert(split_char_spec(line, ',')[lo as int] == f(fields@[lo as int]));
    }
    let (la, lb) = fields[li];
    let (oa, ob) = fields[lo];
    let lonv = match parse_dec_range(v, oa, ob, 6) {
        Some(x) => x,
        None => {
            return None;
        },
    };
    let latv = match parse_dec_range(v, la, lb, 6) {
        Some(x) => x,
        None => {
            return None;
        },
    };
    Some((lonv, latv))
}

/// Reads corners from a tabular text whose header names latitude and
/// longitude columns; rows that do not parse are skipped, and a header
/// without both columns reads as nothing.
pub fn read_corner_csv(input: &str) -> (r: Vec<Point>)
    ensures
        r@ == corner_csv_spec(input@),
{
    let v = str_chars(input);
    let lines = line_ranges(&v);
    let ghost ls = split_lines_spec(v@);
    let ghost f = |p: (usize, usize)| v@.subrange(p.0 as int, p.1 as int);
    let n = lines.len();
    if n == 0 {
        let out: Vec<Point> = Vec::new();
        return out;
    }
    let (hlo, hhi) = lines[0];
    let cols = split_ranges(&v, hlo, hhi, ',');
    let ghost colseq = split_char_spec(ls[0], ',');
    proof {
        assert(ls[0] == f(lines@[0]));
    }
    let la_name = str_chars("la");
    let lo_name = str_chars("lo");
    proof {
        reveal_strlit("la");
        reveal_strlit("lo");
    }
    let li = find_col_exec(&v, &cols, &la_name);
    let lo = find_col_exec(&v, &cols, &lo_name);
    let m = cols.len();
    if li == m || lo == m {
        let out: Vec<Point> = Vec::new();
        return out;
    }
    let mut out: Vec<Point> = Vec::new();
    let mut i: usize = 1;
    while i < n
        invariant
            1 <= i <= n,
            n == lines@.len(),
            ls == lines@.map_values(
                |p: (usize, usize)| v@.subrange(p.0 as int, p.1 as int),
            ),
            forall|t: int| 0 <= t < lines@.len() ==> (#[trigger] lines@[t]).0 <= lines@[t].1
                <= v@.len(),
            out@ == corner_rows_spec(ls, li as int, lo as int, i as int - 1),
        decreases n - i,
    {
        proof {
            assert(ls[i as int] == v@.subrange(
                lines@[i as int].0 as int,
                lines@[i as int].1 as int,
            ));
        }
        let (llo, lhi) = lines[i];
        match corner_row_range(&v, llo, lhi, li, lo) {
            Some(p) => {
                out.push(p);
            },
            None => {},
        }
        i = i + 1;
    }
    out
}

} // verus!
