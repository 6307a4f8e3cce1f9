//! A small JSON reader, enough to carry GeoJSON documents: objects, arrays,
//! strings without escape decoding, numbers kept as their raw text, and the
//! three literal words.

use vstd::prelude::*;

use crate::text::{is_space_exec, str_chars, parse_dec_range, parse_dec_spec};

verus! {

/// A JSON value. Numbers keep their textual form and are read as fixed-point
/// integers only where they are used.
pub enum JsonValue {
    Null,
    Bool(bool),
    Num(Vec<char>),
    Text(Vec<char>),
    Arr(Vec<JsonValue>),
    Obj(Vec<(Vec<char>, JsonValue)>),
}

/// The value under the first occurrence of `key` among an object's entries.
pub open spec fn obj_get_spec(items: Seq<(Vec<char>, JsonValue)>, key: Seq<char>) -> Option<
    JsonValue,
>
    decreases items.len(),
{
    if items.len() == 0 {
        Option::None
    } else if items[0].0@ == key {
        Option::Some(items[0].1)
    } else {
        obj_get_spec(items.drop_first(), key)
    }
}

/// The value under `key`, when the document is an object that has one.
pub open spec fn get_spec(doc: JsonValue, key: Seq<char>) -> Option<JsonValue> {
    match doc {
        JsonValue::Obj(items) => obj_get_spec(items@, key),
        _ => Option::None,
    }
}

/// Whether the value is a string spelling out `s`.
pub open spec fn is_text_spec(v: JsonValue, s: Seq<char>) -> bool {
    match v {
        JsonValue::Text(t) => t@ == s,
        _ => false,
    }
}

/// The fixed-point reading of a number value over `k` decimal places.
pub open spec fn as_fixed_spec(v: JsonValue, k: int) -> Option<i64> {
    match v {
        JsonValue::Num(tok) => parse_dec_spec(tok@, k),
        _ => Option::None,
    }
}

/// The position of the first character at or after `pos` that is not blank.
fn skip_ws(v: &Vec<char>, pos: usize) -> (r: usize)
    requires
        pos <= v@.len(),
    ensures
        pos <= r <= v@.len(),
{
    let n = v.len();
    let mut i = pos;
    while i < n && is_space_exec(v[i])
        invariant
            pos <= i <= n,
            n == v@.len(),
        decreases n - i,
    {
        i = i + 1;
    }
    i
}

/// Whether a character can appear in a JSON number.
fn is_num_char(c: char) -> bool {
    ('0' <= c && c <= '9') || c == '-' || c == '+' || c == '.' || c == 'e' || c == 'E'
}

/// Reads a string body from the opening quote, skipping over backslash
/// escapes without decoding them.
fn parse_string(v: &Vec<char>, pos: usize) -> (r: Option<(Vec<char>, usize)>)
    requires
        pos < v@.len(),
    ensures
        r matches Option::Some(p) ==> pos < p.1 <= v@.len(),
{
    let n = v.len();
    if !(v[pos] == '"') {
        return None;
    }
    let mut out: Vec<char> = Vec::new();
    let mut i = pos + 1;
    while i < n && !(v[i] == '"')
        invariant
            pos < i <= n + 1,
            i >= pos + 1,
            n == v@.len(),
        decreases n - i,
    {
        if v[i] == '\\' && i + 1 < n {
            out.push(v[i]);
            out.push(v[i + 1]);
            i = i + 2;
        } else {
            out.push(v[i]);
            i = i + 1;
        }
    }
    if i >= n {
        return None;
    }
    Some((out, i + 1))
}

/// Reads the keyword `w` at `pos`.
fn expect_word(v: &Vec<char>, pos: usize, w: &Vec<char>) -> (r: bool)
    requires
        pos <= v@.len(),
    ensures
        r ==> pos + w@.len() <= v@.len(),
{
    let m = w.len();
    let n = v.len();
    if n - pos < m || pos > n {
        return false;
    }
    let mut i: usize = 0;
    while i < m
        invariant
            i <= m,
            m == w@.len(),
            n == v@.len(),
            pos + m <= n,
        decreases m - i,
    {
        if !(v[pos + i] == w[i]) {
            return false;
        }
        i = i + 1;
    }
    true
}

/// Reads one JSON value beginning at `pos`, blank space allowed first.
pub fn parse_value(v: &Vec<char>, pos: usize) -> (r: Option<(JsonValue, usize)>)
    requires
        pos <= v@.len(),
    ensures
        r matches Option::Some(p) ==> pos < p.1 <= v@.len(),
    decreases v@.len() - pos, 1int,
{
    let n = v.len();
    let p = skip_ws(v, pos);
    if p >= n {
        return None;
    }
    let c = v[p];
    if c == '{' {
        parse_object(v, p)
    } else if c == '[' {
        parse_array(v, p)
    } else if c == '"' {
        match parse_string(v, p) {
            Some((s, q)) => Some((JsonValue::Text(s), q)),
            None => None,
        }
    } else if c == 't' {
        proof {
            reveal_strlit("true");
        }
        let w = str_chars("true");
        if expect_word(v, p, &w) {
            Some((JsonValue::Bool(true), p + 4))
        } else {
            None
        }
    } else if c == 'f' {
        proof {
            reveal_strlit("false");
        }
        let w = str_chars("false");
        if expect_word(v, p, &w) {
            Some((JsonValue::Bool(false), p + 5))
        } else {
            None
        }
    } else if c == 'n' {
        proof {
            reveal_strlit("null");
        }
        let w = str_chars("null");
        if expect_word(v, p, &w) {
            Some((JsonValue::Null, p + 4))
        } else {
            None
        }
    } else if is_num_char(c) {
        let mut tok: Vec<char> = Vec::new();
        tok.push(v[p]);
        let mut i = p + 1;
        while i < n && is_num_char(v[i])
            invariant
                p < i <= n,
                n == v@.len(),
            decreases n - i,
        {
            tok.push(v[i]);
            i = i + 1;
        }
        Some((JsonValue::Num(tok), i))
    } else {
        None
    }
}

/// Reads one JSON array from its opening bracket.
fn parse_array(v: &Vec<char>, pos: usize) -> (r: Option<(JsonValue, usize)>)
    requires
        pos < v@.len(),
    ensures
        r matches Option::Some(p) ==> pos < p.1 <= v@.len(),
    decreases v@.len() - pos, 0int,
{
    let n = v.len();
    if !(v[pos] == '[') {
        return None;
    }
    let mut items: Vec<JsonValue> = Vec::new();
    let mut cur = skip_ws(v, pos + 1);
    if cur < n && v[cur] == ']' {
        return Some((JsonValue::Arr(items), cur + 1));
    }
    loop
        invariant
            pos < cur <= n,
            n == v@.len(),
        ensures
            pos < cur,
        decreases n - cur,
    {
        let parsed = parse_value(v, cur);
        match parsed {
            Some((item, q)) => {
                items.push(item);
                let after = skip_ws(v, q);
                if after < n && v[after] == ',' {
                    cur = after + 1;
                } else if after < n && v[after] == ']' {
                    return Some((JsonValue::Arr(items), after + 1));
                } else {
                    return None;
                }
            },
            None => {
                return None;
            },
        }
    }
}

/// Reads one JSON object from its opening brace.
fn parse_object(v: &Vec<char>, pos: usize) -> (r: Option<(JsonValue, usize)>)
    requires
        pos < v@.len(),
    ensures
        r matches Option::Some(p) ==> pos < p.1 <= v@.len(),
    decreases v@.len() - pos, 0int,
{
    let n = v.len();
    if !(v[pos] == '{') {
        return None;
    }
    let mut items: Vec<(Vec<char>, JsonValue)> = Vec::new();
    let mut cur = skip_ws(v, pos + 1);
    if cur < n && v[cur] == '}' {
        return Some((JsonValue::Obj(items), cur + 1));
    }
    loop
        invariant
            pos < cur <= n,
            n == v@.len(),
        ensures
            pos < cur,
        decreases n - cur,
    {
        let kstart = skip_ws(v, cur);
        if kstart >= n {
            return None;
        }
        let (key, after_key) = match parse_string(v, kstart) {
            Some(p) => p,
            None => {
                return None;
            },
        };
        let colon = skip_ws(v, after_key);
        if !(colon < n && v[colon] == ':') {
            return None;
        }
        let parsed = parse_value(v, colon + 1);
        match parsed {
            Some((item, q)) => {
                items.push((key, item));
                let after = skip_ws(v, q);
                if after < n && v[after] == ',' {
                    cur = after + 1;
                } else if after < n && v[after] == '}' {
                    return Some((JsonValue::Obj(items), after + 1));
                } else {
                    return None;
                }
            },
            None => {
                return None;
            },
        }
    }
}

/// Reads a whole JSON document; what follows the first value is ignored.
pub fn parse_json(input: &str) -> (r: Option<JsonValue>)
{
    let v = str_chars(input);
    match parse_value(&v, 0) {
        Some((val, _rest)) => Some(val),
        None => None,
    }
}

/// Whether the characters spell out the string.
pub fn chars_eq(v: &Vec<char>, s: &str) -> (r: bool)
    ensures
        r == (v@ == s@),
{
    let w = str_chars(s);
    let n = v.len();
    if n != w.len() {
        proof {
            assert(v@ != s@);
        }
        return false;
    }
    let mut i: usize = 0;
    while i < n
        invariant
            i <= n,
            n == v@.len() && n == w@.len(),
            w@ == s@,
            forall|t: int| 0 <= t < i ==> v@[t] == w@[t],
        decreases n - i,
    {
        if !(v[i] == w[i]) {
            proof {
                assert(v@[i as int] != s@[i as int]);
            }
            return false;
        }
        i = i + 1;
    }
    proof {
        assert(v@ =~= s@);
    }
    true
}

impl JsonValue {
    /// The value under the first occurrence of `key`, when this is an object
    /// that has one.
    pub fn get<'a>(&'a self, key: &str) -> (r: Option<&'a JsonValue>)
        ensures
            match r {
                Option::Some(x) => get_spec(*self, key@) == Option::Some(*x),
                Option::None => get_spec(*self, key@) is None,
            },
    {
        match self {
            JsonValue::Obj(items) => {
                let n = items.len();
                let mut i: usize = 0;
                proof {
                    assert(items@.subrange(0, n as int) =~= items@);
                }
                while i < n
                    invariant
                        i <= n,
                        n == items@.len(),
                        *self == JsonValue::Obj(*items),
                        obj_get_spec(items@, key@) == obj_get_spec(
                            items@.subrange(i as int, n as int),
                            key@,
                        ),
                    decreases n - i,
                {
                    let ghost tail = items@.subrange(i as int, n as int);
                    proof {
                        assert(tail[0] == items@[i as int]);
                        assert(tail.drop_first() =~= items@.subrange(i as int + 1, n as int));
                    }
                    if chars_eq(&items[i].0, key) {
                        proof {
                            assert(tail[0].0@ == key@);
                            assert(obj_get_spec(tail, key@) == Option::Some(tail[0].1));
                            assert(get_spec(*self, key@) == obj_get_spec(items@, key@));
                        }
                        return Some(&items[i].1);
                    }
                    i = i + 1;
                }
                proof {
                    assert(items@.subrange(n as int, n as int) =~= Seq::<(
                        Vec<char>,
                        JsonValue,
                    )>::empty());
                }
                None
            },
            _ => None,
        }
    }

    /// Whether this is a string spelling out `s`.
    pub fn is_text(&self, s: &str) -> (r: bool)
        ensures
            r == is_text_spec(*self, s@),
    {
        match self {
            JsonValue::Text(t) => chars_eq(t, s),
            _ => false,
        }
    }

    /// The elements, when this is an array.
    pub fn as_array<'a>(&'a self) -> (r: Option<&'a Vec<JsonValue>>)
        ensures
            match r {
                Option::Some(a) => *self == JsonValue::Arr(*a),
                Option::None => !(*self is Arr),
            },
    {
        match self {
            JsonValue::Arr(items) => Some(items),
            _ => None,
        }
    }

    /// Whether this is the null value.
    pub fn is_null(&self) -> (r: bool)
        ensures
            r == (*self is Null),
    {
        match self {
            JsonValue::Null => true,
            _ => false,
        }
    }

    /// The fixed-point reading of this number over `k` decimal places.
    pub fn as_fixed(&self, k: u32) -> (r: Option<i64>)
        requires
            k <= 6,
        ensures
            r == as_fixed_spec(*self, k as int),
            r matches Option::Some(x) ==> -2000000000000000000 < x < 2000000000000000000,
    {
        match self {
            JsonValue::Num(tok) => {
                let n = tok.len();
                proof {
                    assert(tok@.subrange(0, n as int) =~= tok@);
                }
                parse_dec_range(tok, 0, n, k)
            },
            _ => None,
        }
    }
}

} // verus!
