//! Parsing of coordinate strings: degrees-minutes-seconds notation, plain
//! decimals, and bounding boxes.

use vstd::prelude::*;

use crate::text::{
    find_char, parse_dec_core, parse_dec_spec, parse_uint_spec, str_chars, find_from,
    parse_dec_range, parse_uint_range, dec_rep2, render_fixed3, is_digit, lemma_dec_rep2_val,
    lemma_fixed3_core_round_trip, lemma_find_char_at,
};
use crate::format::dms_coord_spec;

verus! {

/// A geographic rectangle given by two opposite corners in microdegrees,
/// `(x1, y1)` and `(x2, y2)` as `(longitude, latitude)`.
#[derive(Clone, Copy, Debug, PartialEq, Eq, Structural)]
pub struct BoundingBox {
    pub x1: i64,
    pub y1: i64,
    pub x2: i64,
    pub y2: i64,
}

/// Whether a point lies strictly inside the box.
pub open spec fn box_contains_spec(bb: BoundingBox, p: (i64, i64)) -> bool {
    let xlo = if bb.x1 < bb.x2 {
        bb.x1
    } else {
        bb.x2
    };
    let xhi = if bb.x1 < bb.x2 {
        bb.x2
    } else {
        bb.x1
    };
    let ylo = if bb.y1 < bb.y2 {
        bb.y1
    } else {
        bb.y2
    };
    let yhi = if bb.y1 < bb.y2 {
        bb.y2
    } else {
        bb.y1
    };
    xlo < p.0 && p.0 < xhi && ylo < p.1 && p.1 < yhi
}

impl BoundingBox {
    /// Whether a point lies strictly inside the box.
    pub fn contains(&self, p: (i64, i64)) -> (r: bool)
        ensures
            r == box_contains_spec(*self, p),
    {
        let xlo = if self.x1 < self.x2 {
            self.x1
        } else {
            self.x2
        };
        let xhi = if self.x1 < self.x2 {
            self.x2
        } else {
            self.x1
        };
        let ylo = if self.y1 < self.y2 {
            self.y1
        } else {
            self.y2
        };
        let yhi = if self.y1 < self.y2 {
            self.y2
        } else {
            self.y1
        };
        xlo < p.0 && p.0 < xhi && ylo < p.1 && p.1 < yhi
    }
}

/// A degrees-minutes-seconds body, `DD-MM-SS.sss`, as non-negative
/// microdegrees, rounded to the nearest microdegree so that writing a
/// coordinate at three-decimal seconds and reading it back loses nothing;
/// the degrees must stay under `bound`.
pub open spec fn parse_dms_coord_spec(s: Seq<char>, bound: int) -> Option<i64> {
    let d1 = find_char(s, '-');
    if d1 >= s.len() {
        Option::None
    } else {
        let rest = s.subrange(d1 + 1, s.len() as int);
        let d2 = find_char(rest, '-');
        if d2 >= rest.len() {
            Option::None
        } else {
            let sec0 = s.subrange(0, d1);
            let sec1 = rest.subrange(0, d2);
            let sec2 = rest.subrange(d2 + 1, rest.len() as int);
            if find_char(sec2, '-') < sec2.len() {
                Option::None
            } else {
                match (parse_uint_spec(sec0), parse_uint_spec(sec1), parse_dec_core(sec2, 3)) {
                    (Option::Some(deg), Option::Some(mn), Option::Some(smas)) => {
                        if deg < bound && mn < 60 && 0 <= smas < 60000 {
                            Option::Some(
                                (((deg * 3600000 + mn * 60000 + smas) * 5 + 9) / 18) as i64,
                            )
                        } else {
                            Option::None
                        }
                    },
                    _ => Option::None,
                }
            }
        }
    }
}

/// A latitude such as `49-12-00.000N`, as signed microdegrees: north
/// positive, south negative, under ninety degrees.
pub open spec fn parse_dms_latitude_spec(s: Seq<char>) -> Option<i64> {
    if s.len() == 0 {
        Option::None
    } else {
        let body = s.drop_last();
        let c = s.last();
        if c == 'n' || c == 'N' {
            parse_dms_coord_spec(body, 90)
        } else if c == 's' || c == 'S' {
            match parse_dms_coord_spec(body, 90) {
                Option::Some(m) => Option::Some((0 - m) as i64),
                Option::None => Option::None,
            }
        } else {
            Option::None
        }
    }
}

/// A longitude such as `122-56-24.360W`, as signed microdegrees: east
/// positive, west negative, under one hundred and eighty degrees.
pub open spec fn parse_dms_longitude_spec(s: Seq<char>) -> Option<i64> {
    if s.len() == 0 {
        Option::None
    } else {
        let body = s.drop_last();
        let c = s.last();
        if c == 'e' || c == 'E' {
            parse_dms_coord_spec(body, 180)
        } else if c == 'w' || c == 'W' {
            match parse_dms_coord_spec(body, 180) {
                Option::Some(m) => Option::Some((0 - m) as i64),
                Option::None => Option::None,
            }
        } else {
            Option::None
        }
    }
}

/// The bounding box of a comma-separated `x1,y1,x2,y2` of decimal degrees,
/// quantized to microdegrees; anything else is rejected.
pub open spec fn parse_bounding_box_spec(s: Seq<char>) -> Option<BoundingBox> {
    let c1 = find_char(s, ',');
    if c1 >= s.len() {
        Option::None
    } else {
        let r1 = s.subrange(c1 + 1, s.len() as int);
        let c2 = find_char(r1, ',');
        if c2 >= r1.len() {
            Option::None
        } else {
            let r2 = r1.subrange(c2 + 1, r1.len() as int);
            let c3 = find_char(r2, ',');
            if c3 >= r2.len() {
                Option::None
            } else {
                let r3 = r2.subrange(c3 + 1, r2.len() as int);
                let c4 = find_char(r3, ',');
                let p1 = parse_dec_spec(s.subrange(0, c1), 6);
                let p2 = parse_dec_spec(r1.subrange(0, c2), 6);
                let p3 = parse_dec_spec(r2.subrange(0, c3), 6);
                let p4 = parse_dec_spec(r3.subrange(0, c4), 6);
                match (p1, p2, p3, p4) {
                    (
                        Option::Some(x1),
                        Option::Some(y1),
                        Option::Some(x2),
                        Option::Some(y2),
                    ) => Option::Some(BoundingBox { x1, y1, x2, y2 }),
                    _ => Option::None,
                }
            }
        }
    }
}

/// Reading back the rendered degrees-minutes-seconds body of a coordinate
/// magnitude yields the magnitude again: the renderer rounds microdegrees to
/// milliarcseconds and the parser rounds them back.
#[verifier::spinoff_prover]
#[verifier::rlimit(100)]
proof fn lemma_dms_body_round_trip(m: int, bound: int, pos: char, neg: char)
    requires
        0 <= m,
        m < bound * 1000000,
        bound == 90 || bound == 180,
    ensures
        parse_dms_coord_spec(dms_coord_spec(m, pos, neg).drop_last(), bound) == Option::Some(
            m as i64,
        ),
{
    vstd::arithmetic::div_mod::lemma_div_pos_is_pos(18 * m + 2, 5);
    let mas = (18 * m + 2) / 5;
    if bound == 90 {
        vstd::arithmetic::div_mod::lemma_div_is_ordered(18 * m + 2, 1619999984, 5);
        assert(1619999984int / 5 == 323999996);
    } else {
        vstd::arithmetic::div_mod::lemma_div_is_ordered(18 * m + 2, 3239999984, 5);
        assert(3239999984int / 5 == 647999996);
    }
    let deg = mas / 3600000;
    let mn = (mas / 60000) % 60;
    let smas = mas % 60000;
    vstd::arithmetic::div_mod::lemma_div_pos_is_pos(mas, 3600000);
    vstd::arithmetic::div_mod::lemma_div_pos_is_pos(mas, 60000);
    vstd::arithmetic::div_mod::lemma_mod_bound(mas / 60000, 60);
    vstd::arithmetic::div_mod::lemma_mod_bound(mas, 60000);
    if bound == 90 {
        vstd::arithmetic::div_mod::lemma_div_is_ordered(mas, 323999996, 3600000);
        assert(323999996int / 3600000 == 89);
    } else {
        vstd::arithmetic::div_mod::lemma_div_is_ordered(mas, 647999996, 3600000);
        assert(647999996int / 3600000 == 179);
    }
    lemma_dec_rep2_val(deg);
    lemma_dec_rep2_val(mn);
    lemma_fixed3_core_round_trip(smas as i64);
    let a = dec_rep2(deg);
    let b = dec_rep2(mn);
    let c = render_fixed3(smas);
    let body = a + seq!['-'] + b + seq!['-'] + c;
    assert(dms_coord_spec(m, pos, neg).drop_last() =~= body);
    assert(forall|i: int| 0 <= i < a.len() ==> #[trigger] body[i] == a[i]);
    assert(body[a.len() as int] == '-');
    assert(forall|i: int| 0 <= i < a.len() ==> body[i] != '-') by {
        assert(forall|i: int| 0 <= i < a.len() ==> is_digit(#[trigger] a[i]));
    }
    lemma_find_char_at(body, '-', a.len() as int);
    let rest = body.subrange(a.len() as int + 1, body.len() as int);
    assert(rest =~= b + seq!['-'] + c);
    assert(forall|i: int| 0 <= i < b.len() ==> #[trigger] rest[i] == b[i]);
    assert(rest[b.len() as int] == '-');
    assert(forall|i: int| 0 <= i < b.len() ==> rest[i] != '-') by {
        assert(forall|i: int| 0 <= i < b.len() ==> is_digit(#[trigger] b[i]));
    }
    lemma_find_char_at(rest, '-', b.len() as int);
    let sec0 = body.subrange(0, a.len() as int);
    let sec1 = rest.subrange(0, b.len() as int);
    let sec2 = rest.subrange(b.len() as int + 1, rest.len() as int);
    assert(sec0 =~= a);
    assert(sec1 =~= b);
    assert(sec2 =~= c);
    lemma_find_char_at(c, '-', c.len() as int);
    assert(parse_uint_spec(sec0) == Option::Some(deg as u64));
    assert(parse_uint_spec(sec1) == Option::Some(mn as u64));
    assert(parse_dec_core(sec2, 3) == Option::Some(smas as i64));
    assert(deg < bound && mn < 60 && 0 <= smas < 60000);
    // the three fields reassemble into the milliarcseconds
    vstd::arithmetic::div_mod::lemma_fundamental_div_mod(mas, 3600000);
    vstd::arithmetic::div_mod::lemma_breakdown(mas, 60000, 60);
    assert(deg * 3600000 + mn * 60000 + smas == mas) by {
        assert(mas == 3600000 * deg + mas % 3600000);
        assert(mas % 3600000 == mas % (60000int * 60));
        assert(mas % (60000int * 60) == 60000 * ((mas / 60000) % 60) + mas % 60000);
    }
    // and rounding the milliarcseconds back recovers the magnitude
    vstd::arithmetic::div_mod::lemma_fundamental_div_mod(18 * m + 2, 5);
    vstd::arithmetic::div_mod::lemma_mod_bound(18 * m + 2, 5);
    let r5 = (18 * m + 2) % 5;
    assert(mas * 5 + 9 == 18 * m + 11 - r5) by {
        assert(18 * m + 2 == 5 * mas + r5);
    }
    vstd::arithmetic::div_mod::lemma_fundamental_div_mod_converse(
        18 * m + 11 - r5,
        18,
        m,
        11 - r5,
    );
    assert((mas * 5 + 9) / 18 == m);
}

/// Writing a latitude in degrees-minutes-seconds and reading the text back
/// yields the latitude again, exactly.
pub proof fn lemma_dms_latitude_round_trip(v: i64)
    requires
        -90000000 < (v as int) && (v as int) < 90000000,
    ensures
        parse_dms_latitude_spec(dms_coord_spec(v as int, 'N', 'S')) == Option::Some(v),
{
    let m = if v < 0 {
        0 - v as int
    } else {
        v as int
    };
    lemma_dms_body_round_trip(m, 90, 'N', 'S');
    let s = dms_coord_spec(v as int, 'N', 'S');
    assert(s.last() == if v < 0 {
        'S'
    } else {
        'N'
    });
    assert(dms_coord_spec(v as int, 'N', 'S').drop_last() =~= dms_coord_spec(
        m,
        'N',
        'S',
    ).drop_last());
}

/// Writing a longitude in degrees-minutes-seconds and reading the text back
/// yields the longitude again, exactly.
pub proof fn lemma_dms_longitude_round_trip(v: i64)
    requires
        -180000000 < (v as int) && (v as int) < 180000000,
    ensures
        parse_dms_longitude_spec(dms_coord_spec(v as int, 'E', 'W')) == Option::Some(v),
{
    let m = if v < 0 {
        0 - v as int
    } else {
        v as int
    };
    lemma_dms_body_round_trip(m, 180, 'E', 'W');
    let s = dms_coord_spec(v as int, 'E', 'W');
    assert(s.last() == if v < 0 {
        'W'
    } else {
        'E'
    });
    assert(dms_coord_spec(v as int, 'E', 'W').drop_last() =~= dms_coord_spec(
        m,
        'E',
        'W',
    ).drop_last());
}

/// Parses a degrees-minutes-seconds body over the character range.
fn parse_dms_coord_range(v: &Vec<char>, lo: usize, hi: usize, bound: u64) -> (r: Option<i64>)
    requires
        lo <= hi <= v@.len(),
    ensures
        r == parse_dms_coord_spec(v@.subrange(lo as int, hi as int), bound as int),
{
    let ghost s = v@.subrange(lo as int, hi as int);
    proof {
        assert(forall|t: int| 0 <= t < s.len() ==> s[t] == v@[t + lo]);
    }
    let d1 = find_from(v, lo, hi, '-');
    if d1 == hi {
        return None;
    }
    let ghost rest = s.subrange(d1 as int - lo as int + 1, s.len() as int);
    proof {
        assert(rest =~= v@.subrange(d1 as int + 1, hi as int));
        assert(forall|t: int| 0 <= t < rest.len() ==> rest[t] == v@[t + d1 + 1]);
    }
    let d2 = find_from(v, d1 + 1, hi, '-');
    if d2 == hi {
        return None;
    }
    let ghost sec2 = rest.subrange(d2 as int - d1 as int, rest.len() as int);
    proof {
        assert(sec2 =~= v@.subrange(d2 as int + 1, hi as int));
        assert(forall|t: int| 0 <= t < sec2.len() ==> sec2[t] == v@[t + d2 + 1]);
    }
    let d3 = find_from(v, d2 + 1, hi, '-');
    if d3 < hi {
        return None;
    }
    proof {
        assert(s.subrange(0, d1 as int - lo as int) =~= v@.subrange(lo as int, d1 as int));
        assert(rest.subrange(0, d2 as int - d1 as int - 1) =~= v@.subrange(
            d1 as int + 1,
            d2 as int,
        ));
    }
    let deg = match parse_uint_range(v, lo, d1) {
        Some(x) => x,
        None => {
            return None;
        },
    };
    let mn = match parse_uint_range(v, d1 + 1, d2) {
        Some(x) => x,
        None => {
            return None;
        },
    };
    let smas = match parse_dec_core_range(v, d2 + 1, hi, 3) {
        Some(x) => x,
        None => {
            return None;
        },
    };
    if !(deg < bound && mn < 60 && 0 <= smas && smas < 60000) {
        return None;
    }
    let mas = (deg as u128) * 3600000 + (mn as u128) * 60000 + (smas as u128);
    let micro = (mas * 5 + 9) / 18;
    Some(micro as i64)
}

/// Parses an untrimmed decimal over the character range.
fn parse_dec_core_range(v: &Vec<char>, lo: usize, hi: usize, k: u32) -> (r: Option<i64>)
    requires
        lo <= hi <= v@.len(),
        k <= 6,
    ensures
        r == parse_dec_core(v@.subrange(lo as int, hi as int), k as int),
{
    let ghost s = v@.subrange(lo as int, hi as int);
    // an untrimmed body never starts or ends with blank space when it is
    // well formed; reject it up front otherwise, exactly as the spec does
    if lo < hi && (crate::text::is_space_exec(v[lo]) || crate::text::is_space_exec(v[hi - 1])) {
        proof {
            assert(s[0] == v@[lo as int]);
            assert(s.last() == v@[hi as int - 1]);
            crate::text::lemma_parse_core_space(s, k as int);
        }
        return None;
    }
    proof {
        if s.len() > 0 {
            assert(s[0] == v@[lo as int]);
            assert(s.last() == v@[hi as int - 1]);
        }
        assert(crate::text::trim_spec(s) == s);
    }
    parse_dec_range(v, lo, hi, k)
}

/// Parses a latitude over the character range.
pub(crate) fn parse_dms_latitude_range(v: &Vec<char>, lo: usize, hi: usize) -> (r: Option<i64>)
    requires
        lo <= hi <= v@.len(),
    ensures
        r == parse_dms_latitude_spec(v@.subrange(lo as int, hi as int)),
{
    let ghost s = v@.subrange(lo as int, hi as int);
    if lo == hi {
        return None;
    }
    proof {
        assert(s.last() == v@[hi as int - 1]);
        assert(s.drop_last() =~= v@.subrange(lo as int, hi as int - 1));
    }
    let c = v[hi - 1];
    if c == 'n' || c == 'N' {
        parse_dms_coord_range(v, lo, hi - 1, 90)
    } else if c == 's' || c == 'S' {
        match parse_dms_coord_range(v, lo, hi - 1, 90) {
            Some(m) => Some(0 - m),
            None => None,
        }
    } else {
        None
    }
}

/// Parses a longitude over the character range.
pub(crate) fn parse_dms_longitude_range(v: &Vec<char>, lo: usize, hi: usize) -> (r: Option<i64>)
    requires
        lo <= hi <= v@.len(),
    ensures
        r == parse_dms_longitude_spec(v@.subrange(lo as int, hi as int)),
{
    let ghost s = v@.subrange(lo as int, hi as int);
    if lo == hi {
        return None;
    }
    proof {
        assert(s.last() == v@[hi as int - 1]);
        assert(s.drop_last() =~= v@.subrange(lo as int, hi as int - 1));
    }
    let c = v[hi - 1];
    if c == 'e' || c == 'E' {
        parse_dms_coord_range(v, lo, hi - 1, 180)
    } else if c == 'w' || c == 'W' {
        match parse_dms_coord_range(v, lo, hi - 1, 180) {
            Some(m) => Some(0 - m),
            None => None,
        }
    } else {
        None
    }
}

/// A latitude in degrees-minutes-seconds notation, as microdegrees.
pub fn parse_dms_latitude(input: &str) -> (r: Option<i64>)
    ensures
        r == parse_dms_latitude_spec(input@),
{
    let v = str_chars(input);
    let n = v.len();
    if n == 0 {
        return None;
    }
    let ghost body = input@.drop_last();
    proof {
        assert(body =~= v@.subrange(0, n as int - 1));
        assert(input@.last() == v@[n as int - 1]);
    }
    let c = v[n - 1];
    if c == 'n' || c == 'N' {
        parse_dms_coord_range(&v, 0, n - 1, 90)
    } else if c == 's' || c == 'S' {
        match parse_dms_coord_range(&v, 0, n - 1, 90) {
            Some(m) => Some(0 - m),
            None => None,
        }
    } else {
        None
    }
}

/// A longitude in degrees-minutes-seconds notation, as microdegrees.
pub fn parse_dms_longitude(input: &str) -> (r: Option<i64>)
    ensures
        r == parse_dms_longitude_spec(input@),
{
    let v = str_chars(input);
    let n = v.len();
    if n == 0 {
        return None;
    }
    let ghost body = input@.drop_last();
    proof {
        assert(body =~= v@.subrange(0, n as int - 1));
        assert(input@.last() == v@[n as int - 1]);
    }
    let c = v[n - 1];
    if c == 'e' || c == 'E' {
        parse_dms_coord_range(&v, 0, n - 1, 180)
    } else if c == 'w' || c == 'W' {
        match parse_dms_coord_range(&v, 0, n - 1, 180) {
            Some(m) => Some(0 - m),
            None => None,
        }
    } else {
        None
    }
}

/// A decimal number as microdegrees: six decimal places kept, the rest
/// truncated toward zero, blank space around the number ignored.
pub fn parse_micros(input: &str) -> (r: Option<i64>)
    ensures
        r == parse_dec_spec(input@, 6),
{
    let v = str_chars(input);
    let n = v.len();
    proof {
        assert(v@.subrange(0, n as int) =~= input@);
    }
    parse_dec_range(&v, 0, n, 6)
}

/// A decimal number as millimetres: three decimal places kept, the rest
/// truncated toward zero, blank space around the number ignored.
pub fn parse_millis(input: &str) -> (r: Option<i64>)
    ensures
        r == parse_dec_spec(input@, 3),
{
    let v = str_chars(input);
    let n = v.len();
    proof {
        assert(v@.subrange(0, n as int) =~= input@);
    }
    parse_dec_range(&v, 0, n, 3)
}

/// A bounding box of the form `x1,y1,x2,y2` in decimal degrees.
pub fn parse_bounding_box(input: &str) -> (r: Option<BoundingBox>)
    ensures
        r == parse_bounding_box_spec(input@),
{
    let v = str_chars(input);
    let n = v.len();
    let ghost s = input@;
    proof {
        assert(v@.subrange(0, n as int) =~= s);
        assert(forall|t: int| 0 <= t < s.len() ==> s[t] == v@[t]);
    }
    let c1 = find_from(&v, 0, n, ',');
    if c1 == n {
        return None;
    }
    let ghost r1 = s.subrange(c1 as int + 1, n as int);
    proof {
        assert(r1 =~= v@.subrange(c1 as int + 1, n as int));
        assert(forall|t: int| 0 <= t < r1.len() ==> r1[t] == v@[t + c1 + 1]);
    }
    let c2 = find_from(&v, c1 + 1, n, ',');
    if c2 == n {
        return None;
    }
    let ghost r2 = r1.subrange(c2 as int - c1 as int, r1.len() as int);
    proof {
        assert(r2 =~= v@.subrange(c2 as int + 1, n as int));
        assert(forall|t: int| 0 <= t < r2.len() ==> r2[t] == v@[t + c2 + 1]);
    }
    let c3 = find_from(&v, c2 + 1, n, ',');
    if c3 == n {
        return None;
    }
    let ghost r3 = r2.subrange(c3 as int - c2 as int, r2.len() as int);
    proof {
        assert(r3 =~= v@.subrange(c3 as int + 1, n as int));
        assert(forall|t: int| 0 <= t < r3.len() ==> r3[t] == v@[t + c3 + 1]);
    }
    let c4 = find_from(&v, c3 + 1, n, ',');
    proof {
        assert(s.subrange(0, c1 as int) =~= v@.subrange(0, c1 as int));
        assert(r1.subrange(0, c2 as int - c1 as int - 1) =~= v@.subrange(
            c1 as int + 1,
            c2 as int,
        ));
        assert(r2.subrange(0, c3 as int - c2 as int - 1) =~= v@.subrange(
            c2 as int + 1,
            c3 as int,
        ));
        assert(r3.subrange(0, c4 as int - c3 as int - 1) =~= v@.subrange(
            c3 as int + 1,
            c4 as int,
        ));
    }
    let p1 = parse_dec_range(&v, 0, c1, 6);
    let p2 = parse_dec_range(&v, c1 + 1, c2, 6);
    let p3 = parse_dec_range(&v, c2 + 1, c3, 6);
    let p4 = parse_dec_range(&v, c3 + 1, c4, 6);
    match (p1, p2, p3, p4) {
        (Some(x1), Some(y1), Some(x2), Some(y2)) => Some(BoundingBox { x1, y1, x2, y2 }),
        _ => None,
    }
}

} // verus!
