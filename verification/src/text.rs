//! Rendering and parsing of fixed-point decimal numbers as text.
//!
//! Quantized values are written with their scale's decimal places — trimmed
//! of trailing zeros for tabular output, or with exactly three places — and
//! read back by exact integer arithmetic.

use vstd::prelude::*;

verus! {

/// The decimal digit character of a value between zero and nine.
pub open spec fn digit_char(d: int) -> char {
    if d == 0 {
        '0'
    } else if d == 1 {
        '1'
    } else if d == 2 {
        '2'
    } else if d == 3 {
        '3'
    } else if d == 4 {
        '4'
    } else if d == 5 {
        '5'
    } else if d == 6 {
        '6'
    } else if d == 7 {
        '7'
    } else if d == 8 {
        '8'
    } else {
        '9'
    }
}

/// The decimal digits of a positive number, most significant first.
pub open spec fn digits_rec(n: int) -> Seq<char>
    decreases n,
{
    if n <= 0 {
        Seq::empty()
    } else if n < 10 {
        seq![digit_char(n)]
    } else {
        digits_rec(n / 10).push(digit_char(n % 10))
    }
}

/// The decimal representation of a non-negative number.
pub open spec fn dec_rep(n: int) -> Seq<char> {
    if n <= 0 {
        seq!['0']
    } else {
        digits_rec(n)
    }
}

/// A number below one hundred in two digits; wider numbers as they are.
pub open spec fn dec_rep2(n: int) -> Seq<char> {
    if n < 10 {
        seq!['0'].push(digit_char(n))
    } else {
        dec_rep(n)
    }
}

/// A number below one thousand in exactly three digits.
pub open spec fn pad3(n: int) -> Seq<char> {
    seq![digit_char(n / 100), digit_char((n / 10) % 10), digit_char(n % 10)]
}

/// Ten to the `k`.
pub open spec fn pow10(k: int) -> int
    decreases k,
{
    if k <= 0 {
        1
    } else {
        10 * pow10(k - 1)
    }
}

/// The fractional digits of `fr` over `k` decimal places, zero-padded.
pub open spec fn frac_seq(fr: int, k: int) -> Seq<char>
    decreases k,
{
    if k <= 0 {
        Seq::empty()
    } else {
        seq![digit_char(fr / pow10(k - 1))] + frac_seq(fr % pow10(k - 1), k - 1)
    }
}

/// The sequence with its trailing zero characters removed.
pub open spec fn trim_zeros(s: Seq<char>) -> Seq<char>
    decreases s.len(),
{
    if s.len() > 0 && s.last() == '0' {
        trim_zeros(s.drop_last())
    } else {
        s
    }
}

/// A fixed-point value over `k` decimal places, written with its shortest
/// fraction: no decimal point at all on a whole number.
pub open spec fn render_trimmed(v: int, k: int) -> Seq<char> {
    let m = if v < 0 {
        0 - v
    } else {
        v
    };
    let whole = m / pow10(k);
    let fr = m % pow10(k);
    let sign: Seq<char> = if v < 0 {
        seq!['-']
    } else {
        Seq::empty()
    };
    if fr == 0 {
        sign + dec_rep(whole)
    } else {
        sign + dec_rep(whole) + seq!['.'] + trim_zeros(frac_seq(fr, k))
    }
}

/// A millimetre value written in metres with exactly three decimal places.
pub open spec fn render_fixed3(v: int) -> Seq<char> {
    let m = if v < 0 {
        0 - v
    } else {
        v
    };
    let sign: Seq<char> = if v < 0 {
        seq!['-']
    } else {
        Seq::empty()
    };
    sign + dec_rep(m / 1000) + seq!['.'] + pad3(m % 1000)
}

/// Whether the character is a decimal digit.
pub open spec fn is_digit(c: char) -> bool {
    '0' <= c && c <= '9'
}

/// The value of a digit character.
pub open spec fn digit_val(c: char) -> int {
    c as int - '0' as int
}

/// Whether every character of the sequence is a digit.
pub open spec fn all_digits(s: Seq<char>) -> bool {
    forall|i: int| 0 <= i < s.len() ==> is_digit(#[trigger] s[i])
}

/// The number a digit sequence denotes.
pub open spec fn digits_val(s: Seq<char>) -> int
    decreases s.len(),
{
    if s.len() == 0 {
        0
    } else {
        digits_val(s.drop_last()) * 10 + digit_val(s.last())
    }
}

/// The sequence with its leading zero characters removed.
pub open spec fn strip_zeros(s: Seq<char>) -> Seq<char>
    decreases s.len(),
{
    if s.len() > 0 && s[0] == '0' {
        strip_zeros(s.drop_first())
    } else {
        s
    }
}

/// Whether the character counts as blank space around a number.
pub open spec fn is_space(c: char) -> bool {
    c == ' ' || c == '\t' || c == '\r' || c == '\n'
}

/// The sequence with blank space removed from both ends.
pub open spec fn trim_spec(s: Seq<char>) -> Seq<char>
    decreases s.len(),
{
    if s.len() > 0 && is_space(s[0]) {
        trim_spec(s.drop_first())
    } else if s.len() > 0 && is_space(s.last()) {
        trim_spec(s.drop_last())
    } else {
        s
    }
}

/// The position of the first occurrence of `c`, or the length when absent.
pub open spec fn find_char(s: Seq<char>, c: char) -> int
    decreases s.len(),
{
    if s.len() == 0 {
        0
    } else if s[0] == c {
        0
    } else {
        1 + find_char(s.drop_first(), c)
    }
}

/// A signed decimal with up to `k` kept fractional digits, parsed to the
/// fixed-point integer over `k` places, truncating extra digits toward zero.
///
/// The shape is an optional sign, at least one integer digit, and an
/// optional fraction behind a point. Numbers of more than twelve integer
/// digits are rejected.
pub open spec fn parse_dec_core(s: Seq<char>, k: int) -> Option<i64> {
    if s.len() == 0 {
        Option::None
    } else {
        let neg = s[0] == '-';
        let body = if s[0] == '-' || s[0] == '+' {
            s.drop_first()
        } else {
            s
        };
        if body.len() == 0 {
            Option::None
        } else {
            let dot = find_char(body, '.');
            let ip = body.subrange(0, dot);
            let fp = body.subrange(if dot < body.len() {
                dot + 1
            } else {
                dot
            }, body.len() as int);
            if ip.len() == 0 || !all_digits(ip) || !all_digits(fp) {
                Option::None
            } else if strip_zeros(ip).len() > 12 {
                Option::None
            } else {
                let m = if fp.len() < k {
                    fp.len() as int
                } else {
                    k
                };
                let fval = digits_val(fp.subrange(0, m)) * pow10(k - m);
                let val = digits_val(ip) * pow10(k) + fval;
                if neg {
                    Option::Some((0 - val) as i64)
                } else {
                    Option::Some(val as i64)
                }
            }
        }
    }
}

/// `parse_dec_core` after trimming blank space.
pub open spec fn parse_dec_spec(s: Seq<char>, k: int) -> Option<i64> {
    parse_dec_core(trim_spec(s), k)
}

/// An unsigned integer of at most twelve significant digits.
pub open spec fn parse_uint_spec(s: Seq<char>) -> Option<u64> {
    if s.len() == 0 || !all_digits(s) || strip_zeros(s).len() > 12 {
        Option::None
    } else {
        Option::Some(digits_val(s) as u64)
    }
}

/// The pieces of `s` between occurrences of `c`: always one piece more than
/// there are separators.
pub open spec fn split_char_spec(s: Seq<char>, c: char) -> Seq<Seq<char>>
    decreases s.len(),
    via split_char_spec_dec
{
    let d = find_char(s, c);
    if d >= s.len() {
        seq![s]
    } else {
        seq![s.subrange(0, d)] + split_char_spec(s.subrange(d + 1, s.len() as int), c)
    }
}

#[via_fn]
proof fn split_char_spec_dec(s: Seq<char>, c: char) {
    lemma_find_char_props(s, c);
}

/// The lines of a text: pieces between newlines, without the empty piece a
/// trailing newline would leave.
pub open spec fn split_lines_spec(s: Seq<char>) -> Seq<Seq<char>> {
    let parts = split_char_spec(s, '\n');
    if parts.len() > 0 && parts.last().len() == 0 {
        parts.drop_last()
    } else {
        parts
    }
}

/// Whether `c` reads as the lower-case letter `l`, ignoring case.
pub open spec fn eq_ci(c: char, l: char) -> bool {
    c == l || c as u32 + 32 == l as u32
}

/// Whether `s` begins with the lower-case word `p`, ignoring case.
pub open spec fn starts_with_ci(s: Seq<char>, p: Seq<char>) -> bool {
    s.len() >= p.len() && forall|i: int| 0 <= i < p.len() ==> eq_ci(s[i], #[trigger] p[i])
}

/// Whether `s` spells out the lower-case word `p`, ignoring case.
pub open spec fn matches_ci(s: Seq<char>, p: Seq<char>) -> bool {
    s.len() == p.len() && starts_with_ci(s, p)
}

/// Whether the characters spell out the lower-case word, ignoring case.
pub fn chars_eq_ci(v: &Vec<char>, p: &Vec<char>) -> (r: bool)
    ensures
        r == matches_ci(v@, p@),
{
    let n = v.len();
    if n != p.len() {
        return false;
    }
    let mut i: usize = 0;
    while i < n
        invariant
            i <= n,
            n == v@.len() && n == p@.len(),
            forall|t: int| 0 <= t < i ==> eq_ci(v@[t], #[trigger] p@[t]),
        decreases n - i,
    {
        let c = v[i];
        let l = p[i];
        let same = c == l || (c as u32 as u64) + 32 == (l as u32 as u64);
        if !same {
            proof {
                assert(!eq_ci(v@[i as int], p@[i as int]));
            }
            return false;
        }
        i = i + 1;
    }
    true
}

/// The sequence with double quotes removed from both ends.
pub open spec fn trim_quotes_spec(s: Seq<char>) -> Seq<char>
    decreases s.len(),
{
    if s.len() > 0 && s[0] == '"' {
        trim_quotes_spec(s.drop_first())
    } else if s.len() > 0 && s.last() == '"' {
        trim_quotes_spec(s.drop_last())
    } else {
        s
    }
}

/// A header cell reads as the column `p` when, trimmed and unquoted, it
/// begins with `p` ignoring case.
pub open spec fn col_matches(name: Seq<char>, p: Seq<char>) -> bool {
    starts_with_ci(trim_quotes_spec(trim_spec(name)), p)
}

/// The first column whose name reads as `p`, or the column count.
pub open spec fn find_col_spec(cols: Seq<Seq<char>>, p: Seq<char>) -> int
    decreases cols.len(),
{
    if cols.len() == 0 {
        0
    } else if col_matches(cols[0], p) {
        0
    } else {
        1 + find_col_spec(cols.drop_first(), p)
    }
}

// ---------------------------------------------------------------------------
// Lemmas about digit sequences
// ---------------------------------------------------------------------------

/// A digit sequence denotes a value below ten to its length.
pub proof fn lemma_digits_val_bound(s: Seq<char>)
    requires
        all_digits(s),
    ensures
        0 <= digits_val(s) < pow10(s.len() as int),
    decreases s.len(),
{
    if s.len() > 0 {
        assert(forall|i: int| 0 <= i < s.len() - 1 ==> s.drop_last()[i] == s[i]);
        lemma_digits_val_bound(s.drop_last());
        assert(is_digit(s.last()));
        assert(digits_val(s.drop_last()) * 10 <= (pow10(s.len() - 1) - 1) * 10) by {
            vstd::arithmetic::mul::lemma_mul_inequality(
                digits_val(s.drop_last()),
                pow10(s.len() - 1) - 1,
                10,
            );
        }
    }
}

/// Leading zeros change nothing of a digit sequence's value.
pub proof fn lemma_strip_zeros_val(s: Seq<char>)
    requires
        all_digits(s),
    ensures
        digits_val(strip_zeros(s)) == digits_val(s),
        strip_zeros(s).len() <= s.len(),
        all_digits(strip_zeros(s)),
    decreases s.len(),
{
    if s.len() > 0 && s[0] == '0' {
        let d = s.drop_first();
        assert(forall|i: int| 0 <= i < d.len() ==> d[i] == s[i + 1]);
        lemma_strip_zeros_val(d);
        lemma_digits_val_drop_zero(s);
    }
}

/// Dropping one leading zero keeps the value.
proof fn lemma_digits_val_drop_zero(s: Seq<char>)
    requires
        s.len() > 0,
        s[0] == '0',
        all_digits(s),
    ensures
        digits_val(s.drop_first()) == digits_val(s),
    decreases s.len(),
{
    if s.len() == 1 {
        assert(s.drop_first() =~= Seq::<char>::empty());
        assert(digits_val(s) == digits_val(s.drop_last()) * 10 + digit_val(s.last()));
        assert(s.drop_last() =~= Seq::<char>::empty());
    } else {
        let d = s.drop_first();
        assert(s.drop_last()[0] == '0');
        assert(forall|i: int| 0 <= i < s.len() - 1 ==> s.drop_last()[i] == s[i]);
        lemma_digits_val_drop_zero(s.drop_last());
        assert(s.drop_last().drop_first() =~= d.drop_last());
        assert(d.last() == s.last());
    }
}

// ---------------------------------------------------------------------------
// Building strings
// ---------------------------------------------------------------------------

/// The digit character of a value below ten, as a one-character string.
fn digit_str(d: u128) -> (r: &'static str)
    requires
        d < 10,
    ensures
        r@ == seq![digit_char(d as int)],
{
    proof {
        reveal_strlit("0");
        reveal_strlit("1");
        reveal_strlit("2");
        reveal_strlit("3");
        reveal_strlit("4");
        reveal_strlit("5");
        reveal_strlit("6");
        reveal_strlit("7");
        reveal_strlit("8");
        reveal_strlit("9");
    }
    if d == 0 {
        "0"
    } else if d == 1 {
        "1"
    } else if d == 2 {
        "2"
    } else if d == 3 {
        "3"
    } else if d == 4 {
        "4"
    } else if d == 5 {
        "5"
    } else if d == 6 {
        "6"
    } else if d == 7 {
        "7"
    } else if d == 8 {
        "8"
    } else {
        "9"
    }
}

/// The digit characters of a stack of digits, topmost written first.
spec fn rev_digit_chars(stack: Seq<u128>) -> Seq<char> {
    Seq::new(stack.len(), |i: int| digit_char(stack[stack.len() - 1 - i] as int))
}

/// Appends the decimal representation of `n`.
pub fn push_dec(out: &mut String, n: u128)
    ensures
        final(out)@ == old(out)@ + dec_rep(n as int),
{
    let ghost base = out@;
    if n == 0 {
        proof {
            reveal_strlit("0");
        }
        out.append("0");
        proof {
            assert(out@ =~= old(out)@ + dec_rep(0));
        }
        return;
    }
    let mut stack: Vec<u128> = Vec::new();
    let mut cur = n;
    while cur > 0
        invariant
            digits_rec(n as int) =~= digits_rec(cur as int) + rev_digit_chars(stack@),
            forall|i: int| 0 <= i < stack@.len() ==> #[trigger] stack@[i] < 10,
        decreases cur,
    {
        let d = cur % 10;
        stack.push(d);
        proof {
            assert(rev_digit_chars(stack@) =~= seq![
                digit_char(d as int),
            ] + rev_digit_chars(stack@.drop_last()));
            assert(digits_rec(cur as int) == digits_rec(cur as int / 10).push(
                digit_char(cur as int % 10),
            ));
            assert(digits_rec(cur as int) + rev_digit_chars(stack@.drop_last()) =~= digits_rec(
                cur as int / 10,
            ) + rev_digit_chars(stack@));
        }
        cur = cur / 10;
    }
    let m = stack.len();
    let mut i: usize = 0;
    while i < m
        invariant
            i <= m,
            m == stack@.len(),
            forall|t: int| 0 <= t < stack@.len() ==> #[trigger] stack@[t] < 10,
            digits_rec(n as int) =~= rev_digit_chars(stack@),
            out@ == base + rev_digit_chars(stack@).subrange(0, i as int),
        decreases m - i,
    {
        let piece = digit_str(stack[m - 1 - i]);
        out.append(piece);
        proof {
            assert(rev_digit_chars(stack@).subrange(0, i as int + 1) =~= rev_digit_chars(
                stack@,
            ).subrange(0, i as int) + seq![digit_char(stack@[m - 1 - i] as int)]);
        }
        i = i + 1;
    }
    proof {
        assert(rev_digit_chars(stack@).subrange(0, m as int) =~= rev_digit_chars(stack@));
        assert(dec_rep(n as int) == digits_rec(n as int));
        assert(out@ =~= base + dec_rep(n as int));
    }
}

/// Appends `n` over at least two digits.
pub fn push_dec2(out: &mut String, n: u128)
    ensures
        final(out)@ == old(out)@ + dec_rep2(n as int),
{
    if n < 10 {
        proof {
            reveal_strlit("0");
        }
        out.append("0");
        out.append(digit_str(n));
        proof {
            assert(out@ =~= old(out)@ + dec_rep2(n as int));
        }
    } else {
        push_dec(out, n);
        proof {
            assert(dec_rep2(n as int) == dec_rep(n as int));
        }
    }
}

/// Appends `n` over exactly three digits.
pub fn push_pad3(out: &mut String, n: u128)
    requires
        n < 1000,
    ensures
        final(out)@ == old(out)@ + pad3(n as int),
{
    out.append(digit_str(n / 100));
    out.append(digit_str((n / 10) % 10));
    out.append(digit_str(n % 10));
    proof {
        assert(out@ =~= old(out)@ + pad3(n as int));
    }
}

/// Ten to a small power.
fn pow10_exec(k: u32) -> (r: u128)
    requires
        k <= 6,
    ensures
        r == pow10(k as int),
        1 <= r <= 1000000,
{
    proof {
        reveal_with_fuel(pow10, 8);
    }
    if k == 0 {
        1
    } else if k == 1 {
        10
    } else if k == 2 {
        100
    } else if k == 3 {
        1000
    } else if k == 4 {
        10000
    } else if k == 5 {
        100000
    } else {
        1000000
    }
}

/// A run of trailing zero characters is what `trim_zeros` removes.
proof fn lemma_trim_zeros_subrange(s: Seq<char>, j: int)
    requires
        0 <= j <= s.len(),
        forall|t: int| j <= t < s.len() ==> s[t] == '0',
        j > 0 ==> s[j - 1] != '0',
    ensures
        trim_zeros(s) == s.subrange(0, j),
    decreases s.len(),
{
    if s.len() > 0 && s.last() == '0' {
        assert(j < s.len());
        assert(forall|i: int| 0 <= i < s.len() - 1 ==> s.drop_last()[i] == s[i]);
        lemma_trim_zeros_subrange(s.drop_last(), j);
        assert(s.drop_last().subrange(0, j) =~= s.subrange(0, j));
    } else {
        assert(j == s.len());
        assert(s.subrange(0, j) =~= s);
    }
}

/// Appends a fixed-point value over `k` decimal places with its fraction
/// trimmed of trailing zeros.
pub fn push_trimmed(out: &mut String, v: i128, k: u32)
    requires
        k <= 6,
        -1000000000000000000000000 <= v <= 1000000000000000000000000,
    ensures
        final(out)@ == old(out)@ + render_trimmed(v as int, k as int),
{
    let p = pow10_exec(k);
    let m: u128 = if v < 0 {
        proof {
            reveal_strlit("-");
        }
        out.append("-");
        (0 - v) as u128
    } else {
        v as u128
    };
    proof {
        vstd::arithmetic::div_mod::lemma_mod_bound(m as int, p as int);
        vstd::arithmetic::div_mod::lemma_div_pos_is_pos(m as int, p as int);
        vstd::arithmetic::div_mod::lemma_div_is_ordered(
            m as int,
            1000000000000000000000000,
            p as int,
        );
        vstd::arithmetic::div_mod::lemma_div_is_ordered_by_denominator(
            1000000000000000000000000,
            1,
            p as int,
        );
        vstd::arithmetic::div_mod::lemma_div_basics(1000000000000000000000000);
    }
    let whole = m / p;
    let fr = m % p;
    push_dec(out, whole);
    if fr > 0 {
        proof {
            reveal_strlit(".");
        }
        out.append(".");
        // write the k fraction digits, most significant first
        let mut digs: Vec<u128> = Vec::new();
        let mut rem = fr;
        let mut t: u32 = 0;
        while t < k
            invariant
                t <= k <= 6,
                rem < pow10(k as int - t as int),
                digs@.len() == t,
                forall|u: int| 0 <= u < t ==> #[trigger] digs@[u] < 10,
                frac_seq(fr as int, k as int) =~= Seq::new(
                    t as nat,
                    |u: int| digit_char(digs@[u] as int),
                ) + frac_seq(rem as int, k as int - t as int),
            decreases k - t,
        {
            let q = pow10_exec(k - t - 1);
            proof {
                vstd::arithmetic::div_mod::lemma_mod_bound(rem as int, q as int);
                vstd::arithmetic::div_mod::lemma_div_pos_is_pos(rem as int, q as int);
                assert(pow10(k as int - t as int) == 10 * pow10(k as int - t as int - 1));
                assert((rem as int) / (q as int) < 10) by {
                    if (rem as int) / (q as int) >= 10 {
                        vstd::arithmetic::div_mod::lemma_fundamental_div_mod(
                            rem as int,
                            q as int,
                        );
                        vstd::arithmetic::mul::lemma_mul_inequality(
                            10,
                            (rem as int) / (q as int),
                            q as int,
                        );
                    }
                }
            }
            let d = rem / q;
            digs.push(d);
            proof {
                assert(frac_seq(rem as int, k as int - t as int) =~= seq![
                    digit_char(d as int),
                ] + frac_seq(rem as int % q as int, k as int - t as int - 1));
                assert(Seq::new(t as nat + 1, |u: int| digit_char(digs@[u] as int)) =~= Seq::new(
                    t as nat,
                    |u: int| digit_char(digs@.subrange(0, t as int)[u] as int),
                ).push(digit_char(d as int)));
                assert(digs@.subrange(0, t as int) =~= digs@.drop_last());
            }
            rem = rem % q;
            t = t + 1;
        }
        proof {
            assert(frac_seq(rem as int, 0) =~= Seq::<char>::empty());
            assert(frac_seq(fr as int, k as int) =~= Seq::new(
                k as nat,
                |u: int| digit_char(digs@[u] as int),
            ));
        }
        // find the end of the significant digits
        let mut j: usize = k as usize;
        while j > 0 && digs[j - 1] == 0
            invariant
                j <= k,
                digs@.len() == k,
                forall|u: int| 0 <= u < digs@.len() ==> #[trigger] digs@[u] < 10,
                forall|u: int| j <= u < digs@.len() ==> #[trigger] digs@[u] == 0,
            decreases j,
        {
            j = j - 1;
        }
        proof {
            let fs = frac_seq(fr as int, k as int);
            assert(forall|u: int| j <= u < fs.len() ==> #[trigger] fs[u] == '0');
            if j > 0 {
                assert(digs@[j - 1] != 0);
                assert(fs[j - 1] == digit_char(digs@[j - 1] as int));
                assert(fs[j - 1] != '0');
            }
            lemma_trim_zeros_subrange(fs, j as int);
        }
        let mut u: usize = 0;
        let ghost mid = out@;
        while u < j
            invariant
                u <= j <= k,
                digs@.len() == k,
                forall|w: int| 0 <= w < digs@.len() ==> #[trigger] digs@[w] < 10,
                out@ == mid + Seq::new(u as nat, |w: int| digit_char(digs@[w] as int)),
            decreases j - u,
        {
            out.append(digit_str(digs[u]));
            proof {
                assert(Seq::new(u as nat + 1, |w: int| digit_char(digs@[w] as int)) =~= Seq::new(
                    u as nat,
                    |w: int| digit_char(digs@[w] as int),
                ).push(digit_char(digs@[u as int] as int)));
            }
            u = u + 1;
        }
        proof {
            let fs = frac_seq(fr as int, k as int);
            assert(Seq::new(j as nat, |w: int| digit_char(digs@[w] as int)) =~= fs.subrange(
                0,
                j as int,
            ));
            assert(out@ =~= old(out)@ + render_trimmed(v as int, k as int));
        }
    } else {
        proof {
            assert(out@ =~= old(out)@ + render_trimmed(v as int, k as int));
        }
    }
}

/// Appends a millimetre value as metres with three decimal places.
pub fn push_fixed3(out: &mut String, v: i128)
    requires
        -1000000000000000000000000 <= v <= 1000000000000000000000000,
    ensures
        final(out)@ == old(out)@ + render_fixed3(v as int),
{
    let m: u128 = if v < 0 {
        proof {
            reveal_strlit("-");
        }
        out.append("-");
        (0 - v) as u128
    } else {
        v as u128
    };
    proof {
        vstd::arithmetic::div_mod::lemma_mod_bound(m as int, 1000);
        vstd::arithmetic::div_mod::lemma_div_pos_is_pos(m as int, 1000);
    }
    push_dec(out, m / 1000);
    proof {
        reveal_strlit(".");
    }
    out.append(".");
    push_pad3(out, m % 1000);
    proof {
        assert(out@ =~= old(out)@ + render_fixed3(v as int));
    }
}

// ---------------------------------------------------------------------------
// Reading strings
// ---------------------------------------------------------------------------

/// The characters of a string, as a vector.
pub fn str_chars(s: &str) -> (r: Vec<char>)
    ensures
        r@ == s@,
{
    let n = s.unicode_len();
    let mut out: Vec<char> = Vec::new();
    let mut i: usize = 0;
    while i < n
        invariant
            i <= n,
            n == s@.len(),
            out@ == s@.subrange(0, i as int),
        decreases n - i,
    {
        out.push(s.get_char(i));
        proof {
            assert(out@ =~= s@.subrange(0, i as int + 1));
        }
        i = i + 1;
    }
    proof {
        assert(s@.subrange(0, n as int) =~= s@);
    }
    out
}

/// Whether a character is a decimal digit.
fn is_digit_exec(c: char) -> (r: bool)
    ensures
        r == is_digit(c),
{
    '0' <= c && c <= '9'
}

/// The value of a digit character.
fn digit_val_exec(c: char) -> (r: u64)
    requires
        is_digit(c),
    ensures
        r == digit_val(c),
        r < 10,
{
    (c as u32 as u64) - ('0' as u32 as u64)
}

/// Whether a character counts as blank space around a number.
pub fn is_space_exec(c: char) -> (r: bool)
    ensures
        r == is_space(c),
{
    c == ' ' || c == '\t' || c == '\r' || c == '\n'
}

/// Parses the digit run `v[lo..hi]` as an unsigned integer.
pub fn parse_uint_range(v: &Vec<char>, lo: usize, hi: usize) -> (r: Option<u64>)
    requires
        lo <= hi <= v@.len(),
    ensures
        r == parse_uint_spec(v@.subrange(lo as int, hi as int)),
{
    let ghost s = v@.subrange(lo as int, hi as int);
    if lo == hi {
        return None;
    }
    // every character must be a digit
    let mut i: usize = lo;
    while i < hi
        invariant
            lo <= i <= hi <= v@.len(),
            s == v@.subrange(lo as int, hi as int),
            forall|t: int| lo <= t < i ==> is_digit(#[trigger] v@[t]),
        decreases hi - i,
    {
        if !is_digit_exec(v[i]) {
            proof {
                assert(s[i - lo] == v@[i as int]);
                assert(!all_digits(s));
            }
            return None;
        }
        i = i + 1;
    }
    proof {
        assert forall|t: int| 0 <= t < s.len() implies is_digit(#[trigger] s[t]) by {
            assert(s[t] == v@[t + lo]);
        }
    }
    // skip leading zeros and bound the significant length
    let mut z: usize = lo;
    proof {
        assert(strip_zeros(s) == strip_zeros(v@.subrange(lo as int, hi as int)));
    }
    while z < hi && v[z] == '0'
        invariant
            lo <= z <= hi <= v@.len(),
            s == v@.subrange(lo as int, hi as int),
            all_digits(s),
            strip_zeros(s) == strip_zeros(v@.subrange(z as int, hi as int)),
        decreases hi - z,
    {
        proof {
            let cur = v@.subrange(z as int, hi as int);
            assert(cur[0] == v@[z as int]);
            assert(cur.drop_first() =~= v@.subrange(z as int + 1, hi as int));
        }
        z = z + 1;
    }
    proof {
        let tail = v@.subrange(z as int, hi as int);
        if z < hi {
            assert(tail[0] == v@[z as int]);
        }
        assert(strip_zeros(s) == tail);
    }
    if hi - z > 12 {
        return None;
    }
    proof {
        lemma_strip_zeros_val(s);
        lemma_digits_val_bound(strip_zeros(s));
        lemma_pow10_le(strip_zeros(s).len() as int, 12);
        assert(pow10(12) == 1000000000000) by {
            reveal_with_fuel(pow10, 13);
        }
    }
    let mut val: u64 = 0;
    let mut t: usize = lo;
    while t < hi
        invariant
            lo <= t <= hi <= v@.len(),
            s == v@.subrange(lo as int, hi as int),
            all_digits(s),
            digits_val(s) < 1000000000000,
            val == digits_val(v@.subrange(lo as int, t as int)),
            val <= digits_val(s),
        decreases hi - t,
    {
        let ghost pre = v@.subrange(lo as int, t as int);
        let ghost cur = v@.subrange(lo as int, t as int + 1);
        proof {
            assert(cur.drop_last() =~= pre);
            assert(cur.last() == v@[t as int]);
            assert(is_digit(s[t - lo]) && s[t - lo] == v@[t as int]);
            lemma_digits_prefix_le(s, t as int + 1 - lo);
            assert(cur =~= s.subrange(0, t as int + 1 - lo));
        }
        val = val * 10 + digit_val_exec(v[t]);
        t = t + 1;
    }
    proof {
        assert(v@.subrange(lo as int, hi as int) =~= s);
    }
    Some(val)
}

/// The first occurrence lies in range, hits `c`, and nothing before it does.
pub proof fn lemma_find_char_props(s: Seq<char>, c: char)
    ensures
        0 <= find_char(s, c) <= s.len(),
        find_char(s, c) < s.len() ==> s[find_char(s, c)] == c,
        forall|t: int| 0 <= t < find_char(s, c) ==> s[t] != c,
    decreases s.len(),
{
    if s.len() > 0 && s[0] != c {
        let d = s.drop_first();
        assert(forall|t: int| 0 <= t < d.len() ==> d[t] == s[t + 1]);
        lemma_find_char_props(d, c);
        assert forall|t: int| 0 <= t < find_char(s, c) implies s[t] != c by {
            if t > 0 {
                assert(d[t - 1] != c);
            }
        }
    }
}

/// A decimal body that starts or ends in blank space never parses.
pub proof fn lemma_parse_core_space(s: Seq<char>, k: int)
    requires
        s.len() > 0,
        is_space(s[0]) || is_space(s.last()),
    ensures
        parse_dec_core(s, k) is None,
{
    let body = if s[0] == '-' || s[0] == '+' {
        s.drop_first()
    } else {
        s
    };
    if body.len() == 0 {
    } else {
        let dot = find_char(body, '.');
        lemma_find_char_props(body, '.');
        let ip = body.subrange(0, dot);
        if is_space(s[0]) {
            assert(body == s);
            if dot == 0 {
                assert(ip.len() == 0);
            } else {
                assert(ip[0] == s[0]);
                assert(!is_digit(ip[0]));
                assert(!all_digits(ip));
            }
        } else {
            assert(is_space(s.last()));
            assert(body.last() == s.last());
            if dot == body.len() {
                assert(ip =~= body);
                assert(!is_digit(ip[ip.len() - 1]));
                assert(!all_digits(ip));
            } else {
                assert(body[dot] == '.');
                assert(dot != body.len() - 1);
                let fp = body.subrange(dot + 1, body.len() as int);
                assert(fp[fp.len() - 1] == body.last());
                assert(!is_digit(fp[fp.len() - 1]));
                assert(!all_digits(fp));
            }
        }
    }
}

/// A scan that passes `j` mismatches and stops finds the first occurrence.
pub proof fn lemma_find_char_at(s: Seq<char>, c: char, j: int)
    requires
        0 <= j <= s.len(),
        forall|t: int| 0 <= t < j ==> s[t] != c,
        j < s.len() ==> s[j] == c,
    ensures
        find_char(s, c) == j,
    decreases j,
{
    if j > 0 {
        let d = s.drop_first();
        assert(forall|t: int| 0 <= t < d.len() ==> d[t] == s[t + 1]);
        lemma_find_char_at(d, c, j - 1);
    }
}

/// The position of the first `c` at or after `lo`, or `hi` when there is
/// none before `hi`.
pub fn find_from(v: &Vec<char>, lo: usize, hi: usize, c: char) -> (r: usize)
    requires
        lo <= hi <= v@.len(),
    ensures
        lo <= r <= hi,
        r as int - lo as int == find_char(v@.subrange(lo as int, hi as int), c),
        forall|t: int| lo <= t < r ==> v@[t] != c,
        r < hi ==> v@[r as int] == c,
{
    let mut i: usize = lo;
    while i < hi && !(v[i] == c)
        invariant
            lo <= i <= hi <= v@.len(),
            forall|t: int| lo <= t < i ==> v@[t] != c,
        decreases hi - i,
    {
        i = i + 1;
    }
    proof {
        let s = v@.subrange(lo as int, hi as int);
        assert(forall|t: int| 0 <= t < s.len() ==> s[t] == v@[t + lo]);
        lemma_find_char_at(s, c, i as int - lo as int);
    }
    i
}

/// Whether every character of `v[lo..hi]` is a digit.
pub fn all_digits_range(v: &Vec<char>, lo: usize, hi: usize) -> (r: bool)
    requires
        lo <= hi <= v@.len(),
    ensures
        r == all_digits(v@.subrange(lo as int, hi as int)),
{
    let ghost s = v@.subrange(lo as int, hi as int);
    proof {
        assert(forall|t: int| 0 <= t < s.len() ==> s[t] == v@[t + lo]);
    }
    let mut i: usize = lo;
    while i < hi
        invariant
            lo <= i <= hi <= v@.len(),
            s == v@.subrange(lo as int, hi as int),
            forall|t: int| lo <= t < i ==> is_digit(#[trigger] v@[t]),
        decreases hi - i,
    {
        if !is_digit_exec(v[i]) {
            proof {
                assert(s[i - lo] == v@[i as int]);
            }
            return false;
        }
        i = i + 1;
    }
    true
}

/// Parses `v[lo..hi]` as a signed fixed-point decimal over `k` places.
#[verifier::spinoff_prover]
#[verifier::rlimit(100)]
pub fn parse_dec_range(v: &Vec<char>, lo: usize, hi: usize, k: u32) -> (r: Option<i64>)
    requires
        lo <= hi <= v@.len(),
        k <= 6,
    ensures
        r == parse_dec_spec(v@.subrange(lo as int, hi as int), k as int),
        r matches Option::Some(x) ==> -2000000000000000000 < x < 2000000000000000000,
{
    let ghost s0 = v@.subrange(lo as int, hi as int);
    let mut a = lo;
    let mut b = hi;
    while a < b && is_space_exec(v[a])
        invariant
            lo <= a <= b <= v@.len(),
            b == hi,
            trim_spec(s0) == trim_spec(v@.subrange(a as int, b as int)),
        decreases b - a,
    {
        proof {
            let cur = v@.subrange(a as int, b as int);
            assert(cur[0] == v@[a as int]);
            assert(cur.drop_first() =~= v@.subrange(a as int + 1, b as int));
        }
        a = a + 1;
    }
    while b > a && is_space_exec(v[b - 1])
        invariant
            lo <= a <= b <= hi <= v@.len(),
            a < b ==> !is_space(v@[a as int]),
            trim_spec(s0) == trim_spec(v@.subrange(a as int, b as int)),
        decreases b,
    {
        proof {
            let cur = v@.subrange(a as int, b as int);
            assert(cur[0] == v@[a as int]);
            assert(cur.last() == v@[b as int - 1]);
            assert(cur.drop_last() =~= v@.subrange(a as int, b as int - 1));
        }
        b = b - 1;
    }
    let ghost t = v@.subrange(a as int, b as int);
    proof {
        if t.len() > 0 {
            assert(t[0] == v@[a as int]);
            assert(t.last() == v@[b as int - 1]);
        }
        assert(trim_spec(t) == t);
        assert(trim_spec(s0) == t);
    }
    if a == b {
        return None;
    }
    let c0 = v[a];
    let neg = c0 == '-';
    let bl = if c0 == '-' || c0 == '+' {
        a + 1
    } else {
        a
    };
    let ghost body = v@.subrange(bl as int, b as int);
    proof {
        assert(t[0] == v@[a as int]);
        if c0 == '-' || c0 == '+' {
            assert(t.drop_first() =~= body);
        }
    }
    if bl == b {
        return None;
    }
    let dot = find_from(v, bl, b, '.');
    proof {
        assert(forall|u: int| 0 <= u < body.len() ==> body[u] == v@[u + bl]);
        assert(body.subrange(0, dot as int - bl as int) =~= v@.subrange(bl as int, dot as int));
        if dot < b {
            assert(body.subrange(dot as int - bl as int + 1, body.len() as int) =~= v@.subrange(
                dot as int + 1,
                b as int,
            ));
        } else {
            assert(body.subrange(dot as int - bl as int, body.len() as int) =~= v@.subrange(
                dot as int,
                b as int,
            ));
        }
    }
    if dot == bl {
        // no integer digits before the point
        return None;
    }
    let ip_val = match parse_uint_range(v, bl, dot) {
        Some(x) => x,
        None => {
            return None;
        },
    };
    let ghost ip = v@.subrange(bl as int, dot as int);
    proof {
        assert(all_digits(ip) && strip_zeros(ip).len() <= 12);
        lemma_strip_zeros_val(ip);
        lemma_digits_val_bound(strip_zeros(ip));
        lemma_pow10_le(strip_zeros(ip).len() as int, 12);
        assert(pow10(12) == 1000000000000) by {
            reveal_with_fuel(pow10, 13);
        }
        assert(ip_val < 1000000000000);
    }
    let fl = if dot < b {
        dot + 1
    } else {
        dot
    };
    if !all_digits_range(v, fl, b) {
        return None;
    }
    let ghost fp = v@.subrange(fl as int, b as int);
    let flen = b - fl;
    let m: usize = if flen < k as usize {
        flen
    } else {
        k as usize
    };
    let fval: u64 = if m == 0 {
        proof {
            assert(fp.subrange(0, 0) =~= Seq::<char>::empty());
        }
        0
    } else {
        proof {
            let fpm = fp.subrange(0, m as int);
            assert(forall|u: int| 0 <= u < fpm.len() ==> fpm[u] == v@[u + fl]);
            assert(fpm =~= v@.subrange(fl as int, fl as int + m as int));
            lemma_strip_zeros_val(fpm);
        }
        match parse_uint_range(v, fl, fl + m) {
            Some(x) => x,
            None => 0,
        }
    };
    let p_rest = pow10_exec(k - m as u32);
    let pk = pow10_exec(k);
    proof {
        let fpm = fp.subrange(0, m as int);
        assert(all_digits(fpm)) by {
            assert(forall|u: int| 0 <= u < fpm.len() ==> fpm[u] == fp[u]);
        }
        lemma_digits_val_bound(fpm);
        lemma_pow10_le(fpm.len() as int, 6);
        assert(pow10(6) == 1000000) by {
            reveal_with_fuel(pow10, 8);
        }
        assert(ip_val as int * pk as int <= 999999999999int * 1000000) by {
            vstd::arithmetic::mul::lemma_mul_inequality(ip_val as int, 999999999999, pk as int);
            vstd::arithmetic::mul::lemma_mul_inequality(pk as int, 1000000, 999999999999);
            assert(999999999999int * pk as int == pk as int * 999999999999);
        }
        vstd::arithmetic::mul::lemma_mul_nonnegative(ip_val as int, pk as int);
        assert(fval as int * p_rest as int <= 999999 * 1000000) by (nonlinear_arith)
            requires
                0 <= fval < 1000000,
                0 < p_rest <= 1000000,
        ;
        vstd::arithmetic::mul::lemma_mul_nonnegative(fval as int, p_rest as int);
    }
    let val: u64 = ip_val * (pk as u64) + fval * (p_rest as u64);
    if neg {
        Some(0 - (val as i64))
    } else {
        Some(val as i64)
    }
}

/// A column scan that passes `j` mismatches and stops finds the first match.
pub proof fn lemma_find_col_at(cols: Seq<Seq<char>>, p: Seq<char>, j: int)
    requires
        0 <= j <= cols.len(),
        forall|t: int| 0 <= t < j ==> !col_matches(#[trigger] cols[t], p),
        j < cols.len() ==> col_matches(cols[j], p),
    ensures
        find_col_spec(cols, p) == j,
    decreases j,
{
    if j > 0 {
        let d = cols.drop_first();
        assert(forall|t: int| 0 <= t < d.len() ==> d[t] == cols[t + 1]);
        lemma_find_col_at(d, p, j - 1);
    }
}

/// Splitting at the first separator peels one piece off the front.
pub proof fn lemma_split_piece_off(x: Seq<char>, rest: Seq<char>, sep: char)
    requires
        forall|i: int| 0 <= i < x.len() ==> x[i] != sep,
    ensures
        split_char_spec(x + seq![sep] + rest, sep) == seq![x] + split_char_spec(rest, sep),
{
    let line = x + seq![sep] + rest;
    assert(forall|i: int| 0 <= i < x.len() ==> line[i] == x[i]);
    assert(line[x.len() as int] == sep);
    lemma_find_char_at(line, sep, x.len() as int);
    assert(line.subrange(0, x.len() as int) =~= x);
    assert(line.subrange(x.len() as int + 1, line.len() as int) =~= rest);
}

/// The ranges within `v` of the pieces of `v[lo..hi]` split at `c`.
pub fn split_ranges(v: &Vec<char>, lo: usize, hi: usize, c: char) -> (r: Vec<(usize, usize)>)
    requires
        lo <= hi <= v@.len(),
    ensures
        r@.map_values(|p: (usize, usize)| v@.subrange(p.0 as int, p.1 as int))
            == split_char_spec(v@.subrange(lo as int, hi as int), c),
        forall|t: int| 0 <= t < r@.len() ==> lo <= (#[trigger] r@[t]).0 <= r@[t].1 <= hi,
        r@.len() >= 1,
{
    let ghost s0 = v@.subrange(lo as int, hi as int);
    let mut out: Vec<(usize, usize)> = Vec::new();
    let mut cur = lo;
    let mut done = false;
    while !done
        invariant
            lo <= cur <= hi <= v@.len(),
            s0 == v@.subrange(lo as int, hi as int),
            forall|t: int| 0 <= t < out@.len() ==> lo <= (#[trigger] out@[t]).0 <= out@[t].1 <= hi,
            !done ==> split_char_spec(s0, c) == out@.map_values(
                |p: (usize, usize)| v@.subrange(p.0 as int, p.1 as int),
            ) + split_char_spec(v@.subrange(cur as int, hi as int), c),
            done ==> split_char_spec(s0, c) == out@.map_values(
                |p: (usize, usize)| v@.subrange(p.0 as int, p.1 as int),
            ),
            done ==> out@.len() >= 1,
        decreases hi - cur + (if done {
            0int
        } else {
            1int
        }),
    {
        let ghost rest = v@.subrange(cur as int, hi as int);
        proof {
            assert(forall|t: int| 0 <= t < rest.len() ==> rest[t] == v@[t + cur]);
        }
        let d = find_from(v, cur, hi, c);
        proof {
            assert(rest.subrange(0, d as int - cur as int) =~= v@.subrange(cur as int, d as int));
        }
        out.push((cur, d));
        proof {
            let f = |p: (usize, usize)| v@.subrange(p.0 as int, p.1 as int);
            assert(out@.map_values(f) =~= out@.drop_last().map_values(f).push(
                v@.subrange(cur as int, d as int),
            ));
        }
        if d == hi {
            proof {
                assert(split_char_spec(rest, c) =~= seq![v@.subrange(cur as int, hi as int)]);
                let f = |p: (usize, usize)| v@.subrange(p.0 as int, p.1 as int);
                assert(split_char_spec(s0, c) =~= out@.map_values(f));
            }
            done = true;
        } else {
            proof {
                assert(rest.subrange(d as int - cur as int + 1, rest.len() as int) =~= v@.subrange(
                    d as int + 1,
                    hi as int,
                ));
                let f = |p: (usize, usize)| v@.subrange(p.0 as int, p.1 as int);
                assert(split_char_spec(s0, c) =~= out@.map_values(f) + split_char_spec(
                    v@.subrange(d as int + 1, hi as int),
                    c,
                ));
            }
            cur = d + 1;
        }
    }
    out
}

/// The subrange of `v` holding `v[lo..hi]` with blank space trimmed away.
pub fn trim_range(v: &Vec<char>, lo: usize, hi: usize) -> (r: (usize, usize))
    requires
        lo <= hi <= v@.len(),
    ensures
        lo <= r.0 <= r.1 <= hi,
        v@.subrange(r.0 as int, r.1 as int) == trim_spec(v@.subrange(lo as int, hi as int)),
{
    let ghost s0 = v@.subrange(lo as int, hi as int);
    let mut a = lo;
    let mut b = hi;
    while a < b && is_space_exec(v[a])
        invariant
            lo <= a <= b <= v@.len(),
            b == hi,
            trim_spec(s0) == trim_spec(v@.subrange(a as int, b as int)),
        decreases b - a,
    {
        proof {
            let cur = v@.subrange(a as int, b as int);
            assert(cur[0] == v@[a as int]);
            assert(cur.drop_first() =~= v@.subrange(a as int + 1, b as int));
        }
        a = a + 1;
    }
    while b > a && is_space_exec(v[b - 1])
        invariant
            lo <= a <= b <= hi <= v@.len(),
            a < b ==> !is_space(v@[a as int]),
            trim_spec(s0) == trim_spec(v@.subrange(a as int, b as int)),
        decreases b,
    {
        proof {
            let cur = v@.subrange(a as int, b as int);
            assert(cur[0] == v@[a as int]);
            assert(cur.last() == v@[b as int - 1]);
            assert(cur.drop_last() =~= v@.subrange(a as int, b as int - 1));
        }
        b = b - 1;
    }
    proof {
        let t = v@.subrange(a as int, b as int);
        if t.len() > 0 {
            assert(t[0] == v@[a as int]);
            assert(t.last() == v@[b as int - 1]);
        }
        assert(trim_spec(t) == t);
    }
    (a, b)
}

/// The subrange of `v` holding `v[lo..hi]` with double quotes trimmed away.
fn trim_quotes_range(v: &Vec<char>, lo: usize, hi: usize) -> (r: (usize, usize))
    requires
        lo <= hi <= v@.len(),
    ensures
        lo <= r.0 <= r.1 <= hi,
        v@.subrange(r.0 as int, r.1 as int) == trim_quotes_spec(v@.subrange(lo as int, hi as int)),
{
    let ghost s0 = v@.subrange(lo as int, hi as int);
    let mut a = lo;
    let mut b = hi;
    while a < b && v[a] == '"'
        invariant
            lo <= a <= b <= v@.len(),
            b == hi,
            trim_quotes_spec(s0) == trim_quotes_spec(v@.subrange(a as int, b as int)),
        decreases b - a,
    {
        proof {
            let cur = v@.subrange(a as int, b as int);
            assert(cur[0] == v@[a as int]);
            assert(cur.drop_first() =~= v@.subrange(a as int + 1, b as int));
        }
        a = a + 1;
    }
    while b > a && v[b - 1] == '"'
        invariant
            lo <= a <= b <= hi <= v@.len(),
            a < b ==> v@[a as int] != '"',
            trim_quotes_spec(s0) == trim_quotes_spec(v@.subrange(a as int, b as int)),
        decreases b,
    {
        proof {
            let cur = v@.subrange(a as int, b as int);
            assert(cur[0] == v@[a as int]);
            assert(cur.last() == v@[b as int - 1]);
            assert(cur.drop_last() =~= v@.subrange(a as int, b as int - 1));
        }
        b = b - 1;
    }
    proof {
        let t = v@.subrange(a as int, b as int);
        if t.len() > 0 {
            assert(t[0] == v@[a as int]);
            assert(t.last() == v@[b as int - 1]);
        }
        assert(trim_quotes_spec(t) == t);
    }
    (a, b)
}

/// Whether the header cell `v[lo..hi]` reads as the column name `p`.
pub fn col_matches_exec(v: &Vec<char>, lo: usize, hi: usize, p: &Vec<char>) -> (r: bool)
    requires
        lo <= hi <= v@.len(),
    ensures
        r == col_matches(v@.subrange(lo as int, hi as int), p@),
{
    let (a0, b0) = trim_range(v, lo, hi);
    let (a, b) = trim_quotes_range(v, a0, b0);
    let ghost name = v@.subrange(a as int, b as int);
    let m = p.len();
    if b - a < m {
        proof {
            assert(name.len() < p@.len());
        }
        return false;
    }
    let mut i: usize = 0;
    while i < m
        invariant
            i <= m,
            m == p@.len(),
            a <= b <= v@.len(),
            b - a >= m,
            name == v@.subrange(a as int, b as int),
            name == trim_quotes_spec(trim_spec(v@.subrange(lo as int, hi as int))),
            forall|t: int| 0 <= t < i ==> eq_ci(name[t], #[trigger] p@[t]),
        decreases m - i,
    {
        proof {
            assert(name[i as int] == v@[a + i]);
        }
        let c = v[a + i];
        let l = p[i];
        let same = c == l || (c as u32 as u64) + 32 == (l as u32 as u64);
        if !same {
            proof {
                assert(!eq_ci(name[i as int], p@[i as int]));
            }
            return false;
        }
        i = i + 1;
    }
    true
}

/// The first of the listed header cells that reads as `p`, or their count.
pub fn find_col_exec(v: &Vec<char>, cols: &Vec<(usize, usize)>, p: &Vec<char>) -> (r: usize)
    requires
        forall|t: int| 0 <= t < cols@.len() ==> (#[trigger] cols@[t]).0 <= cols@[t].1 <= v@.len(),
    ensures
        r == find_col_spec(
            cols@.map_values(|q: (usize, usize)| v@.subrange(q.0 as int, q.1 as int)),
            p@,
        ),
        r <= cols@.len(),
{
    let ghost mapped = cols@.map_values(|q: (usize, usize)| v@.subrange(q.0 as int, q.1 as int));
    let n = cols.len();
    let mut i: usize = 0;
    while i < n
        invariant
            i <= n,
            n == cols@.len(),
            forall|t: int| 0 <= t < cols@.len() ==> (#[trigger] cols@[t]).0 <= cols@[t].1
                <= v@.len(),
            mapped == cols@.map_values(
                |q: (usize, usize)| v@.subrange(q.0 as int, q.1 as int),
            ),
            forall|t: int| 0 <= t < i ==> !col_matches(#[trigger] mapped[t], p@),
        decreases n - i,
    {
        let (a, b) = cols[i];
        if col_matches_exec(v, a, b, p) {
            proof {
                assert(mapped[i as int] == v@.subrange(a as int, b as int));
                lemma_find_col_at(mapped, p@, i as int);
            }
            return i;
        }
        proof {
            assert(mapped[i as int] == v@.subrange(a as int, b as int));
        }
        i = i + 1;
    }
    proof {
        lemma_find_col_at(mapped, p@, n as int);
    }
    n
}

/// The value of a digit prefix is at most the value of the whole run.
proof fn lemma_digits_prefix_le(s: Seq<char>, i: int)
    requires
        all_digits(s),
        0 <= i <= s.len(),
    ensures
        digits_val(s.subrange(0, i)) <= digits_val(s),
        0 <= digits_val(s.subrange(0, i)),
    decreases s.len() - i,
{
    lemma_digits_val_bound(s);
    if i < s.len() {
        lemma_digits_prefix_le(s, i + 1);
        let a = s.subrange(0, i);
        let b = s.subrange(0, i + 1);
        assert(b.drop_last() =~= a);
        assert(all_digits(a)) by {
            assert(forall|t: int| 0 <= t < a.len() ==> a[t] == s[t]);
        }
        lemma_digits_val_bound(a);
        assert(digits_val(b) == digits_val(a) * 10 + digit_val(b.last()));
        assert(digits_val(a) <= digits_val(a) * 10) by (nonlinear_arith)
            requires
                digits_val(a) >= 0,
        ;
    } else {
        assert(s.subrange(0, i) =~= s);
    }
}

/// A single digit run denotes its digit.
proof fn lemma_digits_val_single(c: char)
    ensures
        digits_val(seq![c]) == digit_val(c),
{
    let s = seq![c];
    assert(s.len() == 1);
    assert(s.last() == c);
    assert(s.drop_last() =~= Seq::<char>::empty());
    assert(digits_val(s) == digits_val(s.drop_last()) * 10 + digit_val(s.last()));
}

/// A digit character carries its digit back.
proof fn lemma_digit_char_val(d: int)
    requires
        0 <= d < 10,
    ensures
        is_digit(digit_char(d)),
        digit_val(digit_char(d)) == d,
        d != 0 ==> digit_char(d) != '0',
{
}

/// The digits of a positive number spell the number, without a leading zero.
proof fn lemma_digits_rec_val(n: int)
    requires
        0 < n,
    ensures
        all_digits(digits_rec(n)),
        digits_rec(n).len() >= 1,
        digits_rec(n)[0] != '0',
        digits_val(digits_rec(n)) == n,
    decreases n,
{
    vstd::arithmetic::div_mod::lemma_mod_bound(n, 10);
    if n < 10 {
        lemma_digit_char_val(n);
        assert(digits_rec(n) == seq![digit_char(n)]);
        lemma_digits_val_single(digit_char(n));
        assert(forall|i: int| 0 <= i < 1 ==> is_digit(#[trigger] seq![digit_char(n)][i]));
    } else {
        vstd::arithmetic::div_mod::lemma_div_pos_is_pos(n, 10);
        vstd::arithmetic::div_mod::lemma_fundamental_div_mod(n, 10);
        assert(n / 10 > 0) by {
            if n / 10 == 0 {
                assert(n == 10 * (n / 10) + n % 10);
            }
        }
        lemma_digits_rec_val(n / 10);
        lemma_digit_char_val(n % 10);
        let pre = digits_rec(n / 10);
        let s = digits_rec(n);
        assert(s == pre.push(digit_char(n % 10)));
        assert(s.drop_last() =~= pre);
        assert(forall|i: int| 0 <= i < pre.len() ==> s[i] == pre[i]);
        assert(digits_val(s) == digits_val(pre) * 10 + (n % 10));
        assert((n / 10) * 10 + n % 10 == n);
    }
}

/// A positive number below ten to the `j` has at most `j` digits.
proof fn lemma_digits_rec_len(n: int, j: int)
    requires
        0 < n < pow10(j),
    ensures
        digits_rec(n).len() <= j,
    decreases n,
{
    if n < 10 {
        assert(j >= 1) by {
            if j <= 0 {
                assert(pow10(j) == 1);
            }
        }
    } else {
        let q = pow10(j - 1);
        assert(pow10(j) == 10 * q);
        assert(q >= 1) by {
            lemma_pow10_le(0, j - 1);
        }
        vstd::arithmetic::div_mod::lemma_div_is_ordered(n, 10 * q - 1, 10);
        vstd::arithmetic::div_mod::lemma_fundamental_div_mod_converse(10 * q - 1, 10, q - 1, 9);
        vstd::arithmetic::div_mod::lemma_div_pos_is_pos(n, 10);
        vstd::arithmetic::div_mod::lemma_fundamental_div_mod(n, 10);
        assert(n / 10 > 0) by {
            if n / 10 == 0 {
                assert(n == 10 * (n / 10) + n % 10);
                vstd::arithmetic::div_mod::lemma_mod_bound(n, 10);
            }
        }
        lemma_digits_rec_len(n / 10, j - 1);
    }
}

/// The whole decimal representation spells its number, as digits without a
/// leading zero past the first place.
proof fn lemma_dec_rep_val(n: int)
    requires
        0 <= n,
    ensures
        all_digits(dec_rep(n)),
        dec_rep(n).len() >= 1,
        digits_val(dec_rep(n)) == n,
        strip_zeros(dec_rep(n)).len() <= dec_rep(n).len(),
        n < 1000000000000 ==> strip_zeros(dec_rep(n)).len() <= 12,
{
    if n == 0 {
        let s = dec_rep(0);
        assert(s == seq!['0']);
        lemma_digit_char_val(0);
        lemma_digits_val_single('0');
        assert(forall|i: int| 0 <= i < 1 ==> is_digit(#[trigger] seq!['0'][i]));
        assert(s[0] == '0');
        assert(s.drop_first() =~= Seq::<char>::empty());
        assert(strip_zeros(s) == strip_zeros(s.drop_first()));
        assert(strip_zeros(Seq::<char>::empty()) == Seq::<char>::empty());
    } else {
        lemma_digits_rec_val(n);
        assert(strip_zeros(dec_rep(n)) == dec_rep(n));
        if n < 1000000000000 {
            assert(pow10(12) == 1000000000000) by {
                reveal_with_fuel(pow10, 13);
            }
            lemma_digits_rec_len(n, 12);
        }
    }
}

/// Concatenated digit runs denote a place-shifted sum.
proof fn lemma_digits_val_concat(a: Seq<char>, b: Seq<char>)
    ensures
        digits_val(a + b) == digits_val(a) * pow10(b.len() as int) + digits_val(b),
    decreases b.len(),
{
    if b.len() == 0 {
        assert(a + b =~= a);
    } else {
        lemma_digits_val_concat(a, b.drop_last());
        assert((a + b).drop_last() =~= a + b.drop_last());
        assert((a + b).last() == b.last());
        let p = pow10(b.len() - 1);
        assert(digits_val(a + b) == (digits_val(a) * p + digits_val(b.drop_last())) * 10
            + digit_val(b.last()));
        assert((digits_val(a) * p) * 10 == digits_val(a) * (10 * p)) by (nonlinear_arith);
        assert(pow10(b.len() as int) == 10 * p);
    }
}

/// The padded fraction digits spell the fraction.
proof fn lemma_frac_seq_val(fr: int, k: int)
    requires
        0 <= k,
        0 <= fr < pow10(k),
    ensures
        all_digits(frac_seq(fr, k)),
        frac_seq(fr, k).len() == k,
        digits_val(frac_seq(fr, k)) == fr,
    decreases k,
{
    if k == 0 {
        assert(frac_seq(fr, 0) =~= Seq::<char>::empty());
    } else {
        let p = pow10(k - 1);
        assert(pow10(k) == 10 * p);
        assert(p >= 1) by {
            lemma_pow10_le(0, k - 1);
        }
        vstd::arithmetic::div_mod::lemma_div_pos_is_pos(fr, p);
        vstd::arithmetic::div_mod::lemma_mod_bound(fr, p);
        assert(fr / p < 10) by {
            if fr / p >= 10 {
                vstd::arithmetic::div_mod::lemma_fundamental_div_mod(fr, p);
                vstd::arithmetic::mul::lemma_mul_inequality(10, fr / p, p);
            }
        }
        lemma_digit_char_val(fr / p);
        lemma_frac_seq_val(fr % p, k - 1);
        let head = seq![digit_char(fr / p)];
        let tail = frac_seq(fr % p, k - 1);
        lemma_digits_val_concat(head, tail);
        lemma_digits_val_single(digit_char(fr / p));
        assert(digits_val(head) == fr / p);
        vstd::arithmetic::div_mod::lemma_fundamental_div_mod(fr, p);
        assert((fr / p) * pow10(k - 1) + fr % p == fr) by {
            assert(p * (fr / p) == (fr / p) * p);
        }
        assert(forall|i: int| 0 <= i < (head + tail).len() ==> is_digit(
            #[trigger] (head + tail)[i],
        )) by {
            assert(forall|i: int| 1 <= i < (head + tail).len() ==> (head + tail)[i] == tail[i
                - 1]);
        }
    }
}

/// Trimming trailing zeros divides a digit run's value by the places removed.
proof fn lemma_trim_zeros_val(s: Seq<char>)
    requires
        all_digits(s),
    ensures
        trim_zeros(s).len() <= s.len(),
        all_digits(trim_zeros(s)),
        digits_val(trim_zeros(s)) * pow10(s.len() - trim_zeros(s).len()) == digits_val(s),
        digits_val(s) != 0 ==> trim_zeros(s).len() >= 1,
    decreases s.len(),
{
    if s.len() > 0 && s.last() == '0' {
        assert(forall|i: int| 0 <= i < s.len() - 1 ==> s.drop_last()[i] == s[i]);
        lemma_trim_zeros_val(s.drop_last());
        let t = trim_zeros(s);
        assert(t == trim_zeros(s.drop_last()));
        assert(digit_val(s.last()) == 0);
        assert(digits_val(s) == digits_val(s.drop_last()) * 10);
        let g = s.len() - 1 - t.len();
        assert(pow10(g + 1) == 10 * pow10(g));
        assert((digits_val(t) * pow10(g)) * 10 == digits_val(t) * (10 * pow10(g)))
            by (nonlinear_arith);
    } else {
        assert(trim_zeros(s) == s);
        assert(pow10(0) == 1);
    }
}

/// Writing a quantized value over its scale's decimal places and reading the
/// text back yields the value again, exactly: at the fixed quantization the
/// tabular serializations lose nothing.
pub proof fn lemma_decimal_round_trip(v: i64, k: int)
    requires
        0 <= k <= 6,
        -1000000000000 * pow10(k) < (v as int) && (v as int) < 1000000000000 * pow10(k),
    ensures
        parse_dec_spec(render_trimmed(v as int, k), k) == Option::Some(v),
{
    let p = pow10(k);
    lemma_pow10_le(0, k);
    let m = if v < 0 {
        0 - v as int
    } else {
        v as int
    };
    let whole = m / p;
    let fr = m % p;
    vstd::arithmetic::div_mod::lemma_mod_bound(m, p);
    vstd::arithmetic::div_mod::lemma_div_pos_is_pos(m, p);
    vstd::arithmetic::div_mod::lemma_fundamental_div_mod(m, p);
    assert(whole < 1000000000000) by {
        if whole >= 1000000000000 {
            vstd::arithmetic::mul::lemma_mul_inequality(1000000000000, whole, p);
            assert(p * whole == whole * p);
        }
    }
    lemma_dec_rep_val(whole);
    let ip = dec_rep(whole);
    let s = render_trimmed(v as int, k);
    let sign: Seq<char> = if v < 0 {
        seq!['-']
    } else {
        Seq::empty()
    };
    if fr == 0 {
        assert(s == sign + ip);
        assert(forall|i: int| 0 <= i < ip.len() ==> s[sign.len() + i] == ip[i]);
        assert(s.last() == ip.last());
        assert(is_digit(s.last()));
        if v < 0 {
            assert(s[0] == '-');
        } else {
            assert(s[0] == ip[0] && is_digit(s[0]));
        }
        assert(trim_spec(s) == s);
        let body = if s[0] == '-' || s[0] == '+' {
            s.drop_first()
        } else {
            s
        };
        assert(body =~= ip);
        lemma_find_char_at(ip, '.', ip.len() as int);
        assert(body.subrange(0, ip.len() as int) =~= ip);
        let fp = body.subrange(ip.len() as int, ip.len() as int);
        assert(fp =~= Seq::<char>::empty());
        assert(fp.subrange(0, 0) =~= Seq::<char>::empty());
        assert(digits_val(ip) * p + 0 * p == m) by {
            assert(p * whole == whole * p);
        }
        assert(parse_dec_core(s, k) == Option::Some(v)) by {
            if v < 0 {
                assert((0 - m) as i64 == v);
            } else {
                assert(m as i64 == v);
            }
        }
    } else {
        lemma_frac_seq_val(fr, k);
        let fs = frac_seq(fr, k);
        lemma_trim_zeros_val(fs);
        let ft = trim_zeros(fs);
        assert(ft.len() >= 1);
        assert(s == sign + ip + seq!['.'] + ft);
        assert(s.last() == ft.last());
        assert(is_digit(s.last()));
        if v < 0 {
            assert(s[0] == '-');
        } else {
            assert(s[0] == ip[0] && is_digit(s[0]));
        }
        assert(trim_spec(s) == s);
        let body = if s[0] == '-' || s[0] == '+' {
            s.drop_first()
        } else {
            s
        };
        assert(body =~= ip + seq!['.'] + ft);
        assert(forall|t: int| 0 <= t < ip.len() ==> body[t] == ip[t]);
        assert(body[ip.len() as int] == '.');
        assert(forall|t: int| 0 <= t < ft.len() ==> body[ip.len() + 1 + t] == ft[t]);
        lemma_find_char_at(body, '.', ip.len() as int);
        let dot = ip.len() as int;
        assert(body.subrange(0, dot) =~= ip);
        let fp = body.subrange(dot + 1, body.len() as int);
        assert(fp =~= ft);
        assert(ft.len() <= k) by {
            assert(fs.len() == k);
        }
        let mm = if fp.len() < k {
            fp.len() as int
        } else {
            k
        };
        assert(mm == ft.len());
        assert(fp.subrange(0, mm) =~= ft);
        let fval = digits_val(ft) * pow10(k - ft.len());
        assert(fval == fr) by {
            assert(k - ft.len() == fs.len() - ft.len());
        }
        assert(digits_val(ip) * p + fval == m) by {
            assert(p * whole == whole * p);
        }
        assert(parse_dec_core(s, k) == Option::Some(v)) by {
            if v < 0 {
                assert((0 - m) as i64 == v);
            } else {
                assert(m as i64 == v);
            }
        }
    }
}

/// Writing a millimetre value with exactly three decimal places and reading
/// it back yields the value again: the depth field of the text format is
/// lossless.
pub proof fn lemma_fixed3_round_trip(v: i64)
    requires
        -1000000000000000 < (v as int) && (v as int) < 1000000000000000,
    ensures
        parse_dec_spec(render_fixed3(v as int), 3) == Option::Some(v),
{
    let m = if v < 0 {
        0 - v as int
    } else {
        v as int
    };
    let whole = m / 1000;
    let fr = m % 1000;
    vstd::arithmetic::div_mod::lemma_mod_bound(m, 1000);
    vstd::arithmetic::div_mod::lemma_div_pos_is_pos(m, 1000);
    vstd::arithmetic::div_mod::lemma_fundamental_div_mod(m, 1000);
    vstd::arithmetic::div_mod::lemma_div_is_ordered(m, 999999999999999, 1000);
    lemma_dec_rep_val(whole);
    let ip = dec_rep(whole);
    let pd = pad3(fr);
    assert(pow10(3) == 1000) by {
        reveal_with_fuel(pow10, 4);
    }
    assert(pd =~= frac_seq(fr, 3)) by {
        reveal_with_fuel(pow10, 4);
        vstd::arithmetic::div_mod::lemma_mod_bound(fr, 100);
        vstd::arithmetic::div_mod::lemma_mod_bound(fr, 10);
        vstd::arithmetic::div_mod::lemma_mod_bound(fr / 10, 10);
        vstd::arithmetic::div_mod::lemma_breakdown(fr, 10, 10);
        let a = (fr / 10) % 10;
        let b = fr % 10;
        assert(fr % 100 == 10 * a + b);
        vstd::arithmetic::div_mod::lemma_fundamental_div_mod_converse(fr % 100, 10, a, b);
        vstd::arithmetic::div_mod::lemma_fundamental_div_mod_converse(b, 1, b, 0);
        assert((fr % 100) / 10 == a && (fr % 100) % 10 == b);
        assert(b / 1 == b && b % 1 == 0);
        assert(frac_seq(fr, 3) == seq![digit_char(fr / 100)] + frac_seq(fr % 100, 2));
        assert(frac_seq(fr % 100, 2) == seq![digit_char(a)] + frac_seq(b, 1));
        assert(frac_seq(b, 1) == seq![digit_char(b)] + frac_seq(0, 0));
        assert(frac_seq(0, 0) =~= Seq::<char>::empty());
        assert(frac_seq(fr, 3).len() == 3);
        assert(frac_seq(fr, 3)[0] == digit_char(fr / 100));
        assert(frac_seq(fr, 3)[1] == digit_char(a));
        assert(frac_seq(fr, 3)[2] == digit_char(b));
    }
    lemma_frac_seq_val(fr, 3);
    let s = render_fixed3(v as int);
    let sign: Seq<char> = if v < 0 {
        seq!['-']
    } else {
        Seq::empty()
    };
    assert(s == sign + ip + seq!['.'] + pd);
    assert(s.last() == pd[2]);
    assert(is_digit(s.last()));
    if v < 0 {
        assert(s[0] == '-');
    } else {
        assert(s[0] == ip[0] && is_digit(s[0]));
    }
    assert(trim_spec(s) == s);
    let body = if s[0] == '-' || s[0] == '+' {
        s.drop_first()
    } else {
        s
    };
    assert(body =~= ip + seq!['.'] + pd);
    assert(forall|t: int| 0 <= t < ip.len() ==> body[t] == ip[t]);
    assert(body[ip.len() as int] == '.');
    assert(forall|t: int| 0 <= t < pd.len() ==> body[ip.len() + 1 + t] == pd[t]);
    lemma_find_char_at(body, '.', ip.len() as int);
    let dot = ip.len() as int;
    assert(body.subrange(0, dot) =~= ip);
    let fp = body.subrange(dot + 1, body.len() as int);
    assert(fp =~= pd);
    assert(fp.subrange(0, 3) =~= pd);
    assert(digits_val(ip) * 1000 + digits_val(pd) * pow10(0) == m) by {
        assert(1000 * whole == whole * 1000);
    }
    assert(parse_dec_core(s, 3) == Option::Some(v)) by {
        if v < 0 {
            assert((0 - m) as i64 == v);
        } else {
            assert(m as i64 == v);
        }
    }
}

/// A rendered number holds only digits, a sign, and a decimal point.
pub proof fn lemma_render_trimmed_chars(v: int, k: int)
    requires
        0 <= k,
    ensures
        forall|i: int|
            0 <= i < render_trimmed(v, k).len() ==> is_digit(#[trigger] render_trimmed(v, k)[i])
                || render_trimmed(v, k)[i] == '-' || render_trimmed(v, k)[i] == '.',
{
    let p = pow10(k);
    lemma_pow10_le(0, k);
    let m = if v < 0 {
        0 - v
    } else {
        v
    };
    vstd::arithmetic::div_mod::lemma_mod_bound(m, p);
    vstd::arithmetic::div_mod::lemma_div_pos_is_pos(m, p);
    let whole = m / p;
    let fr = m % p;
    lemma_dec_rep_val(whole);
    let ip = dec_rep(whole);
    let sign: Seq<char> = if v < 0 {
        seq!['-']
    } else {
        Seq::empty()
    };
    if fr == 0 {
        let s = sign + ip;
        assert(render_trimmed(v, k) == s);
        assert(forall|i: int|
            sign.len() <= i < s.len() ==> #[trigger] s[i] == ip[i - sign.len()]);
    } else {
        lemma_frac_seq_val(fr, k);
        lemma_trim_zeros_val(frac_seq(fr, k));
        let ft = trim_zeros(frac_seq(fr, k));
        let s = sign + ip + seq!['.'] + ft;
        assert(render_trimmed(v, k) == s);
        assert(forall|i: int|
            sign.len() <= i < sign.len() + ip.len() ==> #[trigger] s[i] == ip[i - sign.len()]);
        assert(s[sign.len() + ip.len() as int] == '.');
        assert(forall|i: int|
            sign.len() + ip.len() + 1 <= i < s.len() ==> #[trigger] s[i] == ft[i - sign.len()
                - ip.len() - 1]);
    }
}

/// Splitting two separators off a three-part run gives back the parts.
pub proof fn lemma_split_three(a: Seq<char>, b: Seq<char>, c: Seq<char>, sep: char)
    requires
        forall|i: int| 0 <= i < a.len() ==> a[i] != sep,
        forall|i: int| 0 <= i < b.len() ==> b[i] != sep,
        forall|i: int| 0 <= i < c.len() ==> c[i] != sep,
    ensures
        split_char_spec(a + seq![sep] + b + seq![sep] + c, sep) =~= seq![a, b, c],
{
    let line = a + seq![sep] + b + seq![sep] + c;
    assert(forall|i: int| 0 <= i < a.len() ==> line[i] == a[i]);
    assert(line[a.len() as int] == sep);
    lemma_find_char_at(line, sep, a.len() as int);
    assert(line.subrange(0, a.len() as int) =~= a);
    let rest = line.subrange(a.len() as int + 1, line.len() as int);
    assert(rest =~= b + seq![sep] + c);
    assert(forall|i: int| 0 <= i < b.len() ==> rest[i] == b[i]);
    assert(rest[b.len() as int] == sep);
    lemma_find_char_at(rest, sep, b.len() as int);
    assert(rest.subrange(0, b.len() as int) =~= b);
    let rest2 = rest.subrange(b.len() as int + 1, rest.len() as int);
    assert(rest2 =~= c);
    lemma_find_char_at(c, sep, c.len() as int);
    assert(split_char_spec(c, sep) == seq![c]);
    assert(split_char_spec(rest, sep) == seq![b] + split_char_spec(rest2, sep));
    assert(split_char_spec(line, sep) == seq![a] + split_char_spec(rest, sep));
}

/// The two-digit representation spells its number and reads back as it.
pub proof fn lemma_dec_rep2_val(n: int)
    requires
        0 <= n < 1000000000000,
    ensures
        all_digits(dec_rep2(n)),
        dec_rep2(n).len() >= 1,
        digits_val(dec_rep2(n)) == n,
        parse_uint_spec(dec_rep2(n)) == Option::Some(n as u64),
{
    if n < 10 {
        lemma_digit_char_val(n);
        lemma_digits_val_single(digit_char(n));
        let s = dec_rep2(n);
        assert(s == seq!['0'].push(digit_char(n)));
        assert(s.len() == 2);
        assert(s[0] == '0' && s[1] == digit_char(n));
        assert(all_digits(s)) by {
            lemma_digit_char_val(0);
            assert(forall|i: int| 0 <= i < 2 ==> is_digit(#[trigger] s[i]));
        }
        assert(s.drop_last() =~= seq!['0']);
        lemma_digits_val_single('0');
        assert(digits_val(s) == 0 * 10 + digit_val(digit_char(n)));
        lemma_strip_zeros_val(s);
    } else {
        assert(dec_rep2(n) == dec_rep(n));
        lemma_dec_rep_val(n);
        lemma_strip_zeros_val(dec_rep(n));
    }
}

/// For a non-negative value, the three-place rendering holds no dash and
/// reads back exactly even without trimming around it.
pub proof fn lemma_fixed3_core_round_trip(v: i64)
    requires
        0 <= v < 1000000000000000,
    ensures
        parse_dec_core(render_fixed3(v as int), 3) == Option::Some(v),
        forall|i: int|
            0 <= i < render_fixed3(v as int).len() ==> #[trigger] render_fixed3(v as int)[i]
                != '-',
{
    lemma_fixed3_round_trip(v);
    let m = v as int;
    vstd::arithmetic::div_mod::lemma_mod_bound(m, 1000);
    vstd::arithmetic::div_mod::lemma_div_pos_is_pos(m, 1000);
    lemma_dec_rep_val(m / 1000);
    let ip = dec_rep(m / 1000);
    let fr = m % 1000;
    let pd = pad3(fr);
    let s = render_fixed3(m);
    assert(s == ip + seq!['.'] + pd);
    assert(all_digits(pd)) by {
        vstd::arithmetic::div_mod::lemma_div_pos_is_pos(fr, 100);
        vstd::arithmetic::div_mod::lemma_div_is_ordered(fr, 999, 100);
        vstd::arithmetic::div_mod::lemma_mod_bound(fr / 10, 10);
        vstd::arithmetic::div_mod::lemma_mod_bound(fr, 10);
        vstd::arithmetic::div_mod::lemma_div_pos_is_pos(fr, 10);
        lemma_digit_char_val(fr / 100);
        lemma_digit_char_val((fr / 10) % 10);
        lemma_digit_char_val(fr % 10);
        assert(forall|i: int| 0 <= i < 3 ==> is_digit(#[trigger] pd[i]));
    }
    assert(forall|i: int| 0 <= i < ip.len() ==> #[trigger] s[i] == ip[i]);
    assert(s[ip.len() as int] == '.');
    assert(forall|i: int|
        ip.len() + 1 <= i < s.len() ==> #[trigger] s[i] == pd[i - ip.len() - 1]);
    assert(forall|i: int| 0 <= i < s.len() ==> #[trigger] s[i] != '-');
    assert(s[0] == ip[0] && is_digit(s[0]));
    assert(s.last() == pd[2] && is_digit(s.last()));
    assert(trim_spec(s) == s);
}

/// Ten to a lesser power is no greater.
proof fn lemma_pow10_le(a: int, b: int)
    requires
        0 <= a <= b,
    ensures
        pow10(a) <= pow10(b),
        pow10(a) >= 1,
    decreases b,
{
    if a < b {
        lemma_pow10_le(a, b - 1);
        assert(pow10(b) == 10 * pow10(b - 1));
    } else if b > 0 {
        lemma_pow10_le(a - 1, b - 1);
    }
}

} // verus!

