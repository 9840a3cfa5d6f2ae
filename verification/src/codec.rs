//! The persisted store format: a small JSON-shaped grammar, a reader for
//! it, and a writer whose output is proved to read back unchanged.

use vstd::prelude::*;
use crate::text::{is_char_prefix, str_to_chars};
use vstd::arithmetic::div_mod::{
    lemma_div_denominator, lemma_fundamental_div_mod, lemma_mod_bound,
};
use crate::entry::{opt_tags_view, opt_ts_view, EntryView};
use crate::ident::is_id_text;
use crate::text::{
    digit_val, four_digits, is_digit, two_digits,
};
use crate::time::{
    epoch_of, spec_four_digit_val, spec_four_digits_at, spec_two_digit_val, spec_two_digits_at,
    valid_date, MAX_EPOCH_SECS,
};
use crate::errors::ParseError;

verus! {

// --- Whitespace ------------------------------------------------------------

/// Whether a character is insignificant between tokens.
pub open spec fn is_blank(c: char) -> bool {
    c == ' ' || c == '\t' || c == '\n' || c == '\r'
}

/// The input with its leading whitespace removed.
pub open spec fn spec_ws(t: Seq<char>) -> Seq<char>
    decreases t.len(),
{
    if t.len() > 0 && is_blank(t[0]) {
        spec_ws(t.drop_first())
    } else {
        t
    }
}

pub proof fn lemma_ws_le(t: Seq<char>)
    ensures
        spec_ws(t).len() <= t.len(),
    decreases t.len(),
{
    if t.len() > 0 && is_blank(t[0]) {
        lemma_ws_le(t.drop_first());
    }
}

/// Skipping whitespace stops at the first non-blank character.
pub proof fn lemma_ws_clean(t: Seq<char>)
    requires
        t.len() == 0 || !is_blank(t[0]),
    ensures
        spec_ws(t) == t,
{
}

/// Advances past whitespace.
pub(crate) fn skip_ws(v: &Vec<char>, i: usize) -> (r: usize)
    requires
        i <= v@.len(),
    ensures
        i <= r <= v@.len(),
        v@.skip(r as int) == spec_ws(v@.skip(i as int)),
    decreases v@.len() - i,
{
    let n = v.len();
    if i < n {
        let c = v[i];
        if c == ' ' || c == '\t' || c == '\n' || c == '\r' {
            proof {
                assert(v@.skip(i as int).drop_first() =~= v@.skip(i + 1));
            }
            return skip_ws(v, i + 1);
        }
    }
    proof {
        lemma_ws_clean(v@.skip(i as int));
    }
    i
}

// --- Fixed tokens ----------------------------------------------------------

/// The input after the expected literal, or nothing when the literal is not
/// there.
pub open spec fn spec_expect(t: Seq<char>, lit: Seq<char>) -> Option<Seq<char>> {
    if is_char_prefix(lit, t) {
        Some(t.skip(lit.len() as int))
    } else {
        None
    }
}

/// The input after whitespace and the expected literal.
pub open spec fn spec_tok(t: Seq<char>, lit: Seq<char>) -> Option<Seq<char>> {
    spec_expect(spec_ws(t), lit)
}

pub proof fn lemma_tok_le(t: Seq<char>, lit: Seq<char>)
    ensures
        spec_tok(t, lit) matches Some(r) ==> r.len() + lit.len() <= t.len(),
{
    lemma_ws_le(t);
}

/// A literal followed by anything parses as that literal.
pub proof fn lemma_tok_of_lit(lit: Seq<char>, rest: Seq<char>)
    requires
        lit.len() > 0,
        !is_blank(lit[0]),
    ensures
        spec_tok(lit + rest, lit) == Some(rest),
{
    let t = lit + rest;
    assert(t[0] == lit[0]);
    lemma_ws_clean(t);
    assert(t.subrange(0, lit.len() as int) =~= lit);
    assert(t.skip(lit.len() as int) =~= rest);
}

/// Advances past whitespace and the expected literal, or fails.
pub(crate) fn tok(v: &Vec<char>, i: usize, lit: &str) -> (r: Option<usize>)
    requires
        i <= v@.len(),
    ensures
        spec_tok(v@.skip(i as int), lit@) matches Some(rest) ==> (r matches Some(j) && i <= j
            <= v@.len() && v@.skip(j as int) == rest),
        spec_tok(v@.skip(i as int), lit@) is None ==> r is None,
{
    let j = skip_ws(v, i);
    let lv = str_to_chars(lit);
    let m = lv.len();
    let n = v.len();
    if n - j < m {
        proof {
            assert(!is_char_prefix(lit@, v@.skip(j as int)));
        }
        return None;
    }
    let mut k: usize = 0;
    while k < m
        invariant
            0 <= k <= m,
            m == lit@.len(),
            lv@ == lit@,
            i <= j,
            j + m <= n,
            n == v@.len(),
            v@.skip(j as int) == spec_ws(v@.skip(i as int)),
            forall|q: int| 0 <= q < k ==> lit@[q] == v@.skip(j as int)[q],
        decreases m - k,
    {
        if v[j + k] != lv[k] {
            proof {
                assert(v@.skip(j as int)[k as int] == v@[j + k]);
                assert(!is_char_prefix(lit@, v@.skip(j as int)));
            }
            return None;
        }
        proof {
            assert(v@.skip(j as int)[k as int] == v@[j + k]);
        }
        k += 1;
    }
    proof {
        assert(v@.skip(j as int).subrange(0, lit@.len() as int) =~= lit@);
        assert(is_char_prefix(lit@, v@.skip(j as int)));
        assert(v@.skip(j as int).skip(lit@.len() as int) =~= v@.skip(j + m));
    }
    Some(j + m)
}

// --- Strings ---------------------------------------------------------------

/// How one character is written inside a quoted string.
pub open spec fn spec_escape_char(c: char) -> Seq<char> {
    if c == '"' {
        seq!['\\', '"']
    } else if c == '\\' {
        seq!['\\', '\\']
    } else if c == '\n' {
        seq!['\\', 'n']
    } else if c == '\t' {
        seq!['\\', 't']
    } else if c == '\r' {
        seq!['\\', 'r']
    } else {
        seq![c]
    }
}

/// How text is written inside a quoted string.
pub open spec fn spec_escape(s: Seq<char>) -> Seq<char>
    decreases s.len(),
{
    if s.len() == 0 {
        Seq::empty()
    } else {
        spec_escape_char(s[0]) + spec_escape(s.drop_first())
    }
}

pub proof fn lemma_escape_add(a: Seq<char>, b: Seq<char>)
    ensures
        spec_escape(a + b) == spec_escape(a) + spec_escape(b),
    decreases a.len(),
{
    if a.len() == 0 {
        assert(a + b =~= b);
        assert(spec_escape(a) + spec_escape(b) =~= spec_escape(b));
    } else {
        assert((a + b).drop_first() =~= a.drop_first() + b);
        lemma_escape_add(a.drop_first(), b);
        assert(spec_escape(a + b) =~= spec_escape(a) + spec_escape(b));
    }
}

/// The meaning of an escape mark.
pub open spec fn spec_unescape_char(c: char) -> Option<char> {
    if c == '"' {
        Some('"')
    } else if c == '\\' {
        Some('\\')
    } else if c == 'n' {
        Some('\n')
    } else if c == 't' {
        Some('\t')
    } else if c == 'r' {
        Some('\r')
    } else {
        None
    }
}

/// The body of a quoted string, read up to and including the closing quote:
/// the text denoted and the input after the quote.
pub open spec fn spec_parse_string_body(t: Seq<char>) -> Option<(Seq<char>, Seq<char>)>
    decreases t.len(),
{
    if t.len() == 0 {
        None
    } else if t[0] == '"' {
        Some((Seq::empty(), t.drop_first()))
    } else if t[0] == '\\' {
        if t.len() < 2 {
            None
        } else {
            match spec_unescape_char(t[1]) {
                None => None,
                Some(c) => match spec_parse_string_body(t.skip(2)) {
                    None => None,
                    Some((s, r)) => Some((seq![c] + s, r)),
                },
            }
        }
    } else {
        match spec_parse_string_body(t.drop_first()) {
            None => None,
            Some((s, r)) => Some((seq![t[0]] + s, r)),
        }
    }
}

pub proof fn lemma_string_body_lt(t: Seq<char>)
    ensures
        spec_parse_string_body(t) matches Some((s, r)) ==> r.len() < t.len(),
    decreases t.len(),
{
    if t.len() == 0 {
    } else if t[0] == '"' {
    } else if t[0] == '\\' {
        if t.len() >= 2 {
            lemma_string_body_lt(t.skip(2));
        }
    } else {
        lemma_string_body_lt(t.drop_first());
    }
}

/// A quoted string: whitespace, a quote, the body.
pub open spec fn spec_parse_string(t: Seq<char>) -> Option<(Seq<char>, Seq<char>)> {
    let u = spec_ws(t);
    if u.len() > 0 && u[0] == '"' {
        spec_parse_string_body(u.drop_first())
    } else {
        None
    }
}

pub proof fn lemma_string_lt(t: Seq<char>)
    ensures
        spec_parse_string(t) matches Some((s, r)) ==> r.len() < t.len(),
{
    lemma_ws_le(t);
    let u = spec_ws(t);
    if u.len() > 0 && u[0] == '"' {
        lemma_string_body_lt(u.drop_first());
    }
}

/// Escaped text between quotes parses back to exactly that text.
pub proof fn lemma_parse_string_of_escape(s: Seq<char>, rest: Seq<char>)
    ensures
        spec_parse_string(seq!['"'] + spec_escape(s) + seq!['"'] + rest) == Some((s, rest)),
{
    let t = seq!['"'] + spec_escape(s) + seq!['"'] + rest;
    assert(t[0] == '"');
    lemma_ws_clean(t);
    assert(t.drop_first() =~= spec_escape(s) + seq!['"'] + rest);
    lemma_body_of_escape(s, rest);
}

proof fn lemma_body_of_escape(s: Seq<char>, rest: Seq<char>)
    ensures
        spec_parse_string_body(spec_escape(s) + seq!['"'] + rest) == Some((s, rest)),
    decreases s.len(),
{
    let t = spec_escape(s) + seq!['"'] + rest;
    if s.len() == 0 {
        assert(t =~= seq!['"'] + rest);
        assert(t[0] == '"');
        assert(t.drop_first() =~= rest);
    } else {
        let c = s[0];
        let tail = s.drop_first();
        lemma_body_of_escape(tail, rest);
        let t2 = spec_escape(tail) + seq!['"'] + rest;
        if c == '"' || c == '\\' || c == '\n' || c == '\t' || c == '\r' {
            assert(spec_escape_char(c).len() == 2);
            assert(t =~= spec_escape_char(c) + t2);
            assert(t[0] == '\\');
            assert(t.len() >= 2);
            assert(t[1] == spec_escape_char(c)[1]);
            assert(spec_unescape_char(t[1]) == Some(c));
            assert(t.skip(2) =~= t2);
            assert(seq![c] + tail =~= s);
        } else {
            assert(t =~= seq![c] + t2);
            assert(t[0] == c);
            assert(t[0] != '"' && t[0] != '\\');
            assert(t.drop_first() =~= t2);
            assert(seq![t[0]] + tail =~= s);
        }
    }
}

/// Appends text in its quoted, escaped written form.
pub(crate) fn push_quoted(out: &mut Vec<char>, s: &str)
    ensures
        final(out)@ == old(out)@ + seq!['"'] + spec_escape(s@) + seq!['"'],
{
    out.push('"');
    let v = str_to_chars(s);
    let n = v.len();
    let mut i: usize = 0;
    proof {
        assert(out@ =~= old(out)@ + seq!['"'] + spec_escape(s@.take(0)));
    }
    while i < n
        invariant
            0 <= i <= n,
            n == s@.len(),
            v@ == s@,
            out@ == old(out)@ + seq!['"'] + spec_escape(s@.take(i as int)),
        decreases n - i,
    {
        let c = v[i];
        if c == '"' {
            out.push('\\');
            out.push('"');
        } else if c == '\\' {
            out.push('\\');
            out.push('\\');
        } else if c == '\n' {
            out.push('\\');
            out.push('n');
        } else if c == '\t' {
            out.push('\\');
            out.push('t');
        } else if c == '\r' {
            out.push('\\');
            out.push('r');
        } else {
            out.push(c);
        }
        proof {
            assert(s@.take(i + 1).drop_last() =~= s@.take(i as int));
            lemma_escape_add(s@.take(i as int), seq![s@[i as int]]);
            assert(s@.take(i + 1) =~= s@.take(i as int) + seq![s@[i as int]]);
            assert(seq![s@[i as int]].drop_first() =~= Seq::<char>::empty());
            assert(spec_escape(Seq::<char>::empty()) =~= Seq::<char>::empty());
            assert(spec_escape(seq![s@[i as int]]) =~= spec_escape_char(s@[i as int]));
            assert(out@ =~= old(out)@ + seq!['"'] + spec_escape(s@.take(i + 1)));
        }
        i += 1;
    }
    proof {
        assert(s@.take(n as int) =~= s@);
    }
    out.push('"');
}

/// Reads a quoted string, returning its text and the next position.
pub(crate) fn parse_string_at(v: &Vec<char>, i: usize) -> (r: Option<(Vec<char>, usize)>)
    requires
        i <= v@.len(),
    ensures
        spec_parse_string(v@.skip(i as int)) matches Some((s, rest)) ==> (r matches Some(p)
            && p.0@ == s && i <= p.1 <= v@.len() && v@.skip(p.1 as int) == rest),
        spec_parse_string(v@.skip(i as int)) is None ==> r is None,
{
    let ghost t0 = v@.skip(i as int);
    let j0 = skip_ws(v, i);
    let n = v.len();
    if j0 >= n {
        return None;
    }
    if v[j0] != '"' {
        proof {
            assert(spec_ws(t0)[0] == v@[j0 as int]);
        }
        return None;
    }
    let mut acc: Vec<char> = Vec::new();
    let mut j = j0 + 1;
    proof {
        assert(spec_ws(t0).drop_first() =~= v@.skip(j0 + 1));
        assert(acc@ + v@.skip(j0 + 1) =~= v@.skip(j0 + 1));
    }
    while j < n
        invariant
            i <= j0,
            j0 + 1 <= j <= n,
            n == v@.len(),
            t0 == v@.skip(i as int),
            spec_parse_string(t0) == (match spec_parse_string_body(v@.skip(j as int)) {
                Some((s, r)) => Some((acc@ + s, r)),
                None => None::<(Seq<char>, Seq<char>)>,
            }),
        decreases n - j,
    {
        let c = v[j];
        let ghost tc = v@.skip(j as int);
        proof {
            assert(tc[0] == c);
        }
        if c == '"' {
            proof {
                assert(tc.drop_first() =~= v@.skip(j + 1));
                assert(acc@ + Seq::<char>::empty() =~= acc@);
            }
            return Some((acc, j + 1));
        } else if c == '\\' {
            if j + 1 >= n {
                proof {
                    assert(tc.len() < 2);
                }
                return None;
            }
            let e = v[j + 1];
            proof {
                assert(tc[1] == e);
            }
            let u = if e == '"' {
                '"'
            } else if e == '\\' {
                '\\'
            } else if e == 'n' {
                '\n'
            } else if e == 't' {
                '\t'
            } else if e == 'r' {
                '\r'
            } else {
                proof {
                    assert(spec_unescape_char(tc[1]) is None);
                }
                return None;
            };
            let ghost prev = acc@;
            acc.push(u);
            proof {
                assert(tc.skip(2) =~= v@.skip(j + 2));
                assert(spec_unescape_char(tc[1]) == Some(u));
                assert forall|s2: Seq<char>| true implies prev + (seq![u] + s2) =~= acc@ + s2 by {
                    assert(prev + (seq![u] + s2) =~= prev.push(u) + s2);
                };
            }
            j += 2;
        } else {
            let ghost prev = acc@;
            acc.push(c);
            proof {
                assert(tc.drop_first() =~= v@.skip(j + 1));
                assert forall|s2: Seq<char>| true implies prev + (seq![c] + s2) =~= acc@ + s2 by {
                    assert(prev + (seq![c] + s2) =~= prev.push(c) + s2);
                };
            }
            j += 1;
        }
    }
    proof {
        assert(v@.skip(j as int).len() == 0);
    }
    None
}

// --- Timestamps ------------------------------------------------------------

/// Whether the input begins with a quoted timestamp: `"YYYY-MM-DDTHH:MM:SSZ"`.
pub open spec fn spec_ts_window_ok(u: Seq<char>) -> bool {
    &&& u.len() >= 22
    &&& u[0] == '"'
    &&& spec_four_digits_at(u, 1)
    &&& u[5] == '-'
    &&& spec_two_digits_at(u, 6)
    &&& u[8] == '-'
    &&& spec_two_digits_at(u, 9)
    &&& u[11] == 'T'
    &&& spec_two_digits_at(u, 12)
    &&& u[14] == ':'
    &&& spec_two_digits_at(u, 15)
    &&& u[17] == ':'
    &&& spec_two_digits_at(u, 18)
    &&& u[20] == 'Z'
    &&& u[21] == '"'
}

/// Whether the fields name a supported instant.
pub open spec fn spec_ts_fields_ok(y: int, m: int, d: int, h: int, mi: int, s: int) -> bool {
    &&& valid_date(y, m, d)
    &&& 0 <= h < 24
    &&& 0 <= mi < 60
    &&& 0 <= s < 60
    &&& 0 <= epoch_of(y, m, d, h, mi, s) <= MAX_EPOCH_SECS as int
}

/// The instant a well-shaped quoted timestamp names.
pub open spec fn spec_ts_window_value(u: Seq<char>) -> int {
    epoch_of(
        spec_four_digit_val(u, 1),
        spec_two_digit_val(u, 6),
        spec_two_digit_val(u, 9),
        spec_two_digit_val(u, 12),
        spec_two_digit_val(u, 15),
        spec_two_digit_val(u, 18),
    )
}

/// A quoted timestamp: whitespace, then the fixed-width window.
pub open spec fn spec_parse_ts(t: Seq<char>) -> Option<(int, Seq<char>)> {
    let u = spec_ws(t);
    if spec_ts_window_ok(u) && spec_ts_fields_ok(
        spec_four_digit_val(u, 1),
        spec_two_digit_val(u, 6),
        spec_two_digit_val(u, 9),
        spec_two_digit_val(u, 12),
        spec_two_digit_val(u, 15),
        spec_two_digit_val(u, 18),
    ) {
        Some((spec_ts_window_value(u), u.skip(22)))
    } else {
        None
    }
}

pub proof fn lemma_ts_lt(t: Seq<char>)
    ensures
        spec_parse_ts(t) matches Some((e, r)) ==> r.len() < t.len(),
{
    lemma_ws_le(t);
}

/// Two rendered digits read back as the value they render.
proof fn lemma_two_digits_val(n: int)
    requires
        0 <= n < 100,
    ensures
        digit_val(two_digits(n)[0]) * 10 + digit_val(two_digits(n)[1]) == n,
        is_digit(two_digits(n)[0]) && is_digit(two_digits(n)[1]),
{
    lemma_fundamental_div_mod(n, 10);
    lemma_mod_bound(n, 10);
    crate::text::lemma_digit_char_val(n / 10);
    crate::text::lemma_digit_char_val(n % 10);
}

/// Four rendered digits read back as the value they render.
proof fn lemma_four_digits_val(n: int)
    requires
        0 <= n < 10000,
    ensures
        digit_val(four_digits(n)[0]) * 1000 + digit_val(four_digits(n)[1]) * 100 + digit_val(
            four_digits(n)[2],
        ) * 10 + digit_val(four_digits(n)[3]) == n,
        is_digit(four_digits(n)[0]) && is_digit(four_digits(n)[1]) && is_digit(four_digits(n)[2])
            && is_digit(four_digits(n)[3]),
{
    lemma_fundamental_div_mod(n, 10);
    lemma_mod_bound(n, 10);
    lemma_fundamental_div_mod(n / 10, 10);
    lemma_mod_bound(n / 10, 10);
    lemma_fundamental_div_mod(n / 100, 10);
    lemma_mod_bound(n / 100, 10);
    lemma_div_denominator(n, 10, 10);
    lemma_div_denominator(n, 100, 10);
    assert(n / 100 == 10 * (n / 1000) + (n / 100) % 10);
    assert(0 <= n / 1000 && n / 1000 < 10);
    crate::text::lemma_digit_char_val(n / 1000);
    crate::text::lemma_digit_char_val((n / 100) % 10);
    crate::text::lemma_digit_char_val((n / 10) % 10);
    crate::text::lemma_digit_char_val(n % 10);
    assert(digit_val(four_digits(n)[0]) == n / 1000);
    assert(digit_val(four_digits(n)[1]) == (n / 100) % 10);
    assert(digit_val(four_digits(n)[2]) == (n / 10) % 10);
    assert(digit_val(four_digits(n)[3]) == n % 10);
}

/// The rendered text of an instant's fields, quotes included.
pub open spec fn spec_ts_text(y: int, m: int, d: int, h: int, mi: int, s: int) -> Seq<char> {
    seq!['"'] + four_digits(y) + seq!['-'] + two_digits(m) + seq!['-'] + two_digits(d) + seq!['T']
        + two_digits(h) + seq![':'] + two_digits(mi) + seq![':'] + two_digits(s) + seq!['Z', '"']
}

/// A rendered timestamp parses back to the instant it renders.
pub proof fn lemma_parse_ts_of_render(y: int, m: int, d: int, h: int, mi: int, s: int, rest: Seq<char>)
    requires
        spec_ts_fields_ok(y, m, d, h, mi, s),
    ensures
        spec_parse_ts(spec_ts_text(y, m, d, h, mi, s) + rest) == Some((
            epoch_of(y, m, d, h, mi, s),
            rest,
        )),
{
    let w = spec_ts_text(y, m, d, h, mi, s);
    let t = w + rest;
    assert(t[0] == '"');
    lemma_ws_clean(t);
    lemma_four_digits_val(y);
    lemma_two_digits_val(m);
    lemma_two_digits_val(d);
    lemma_two_digits_val(h);
    lemma_two_digits_val(mi);
    lemma_two_digits_val(s);
    assert(w.len() == 22);
    assert(t[1] == four_digits(y)[0] && t[2] == four_digits(y)[1] && t[3] == four_digits(y)[2]
        && t[4] == four_digits(y)[3]);
    assert(t[5] == '-');
    assert(t[6] == two_digits(m)[0] && t[7] == two_digits(m)[1]);
    assert(t[8] == '-');
    assert(t[9] == two_digits(d)[0] && t[10] == two_digits(d)[1]);
    assert(t[11] == 'T');
    assert(t[12] == two_digits(h)[0] && t[13] == two_digits(h)[1]);
    assert(t[14] == ':');
    assert(t[15] == two_digits(mi)[0] && t[16] == two_digits(mi)[1]);
    assert(t[17] == ':');
    assert(t[18] == two_digits(s)[0] && t[19] == two_digits(s)[1]);
    assert(t[20] == 'Z' && t[21] == '"');
    assert(spec_ts_window_ok(t));
    assert(spec_four_digit_val(t, 1) == y);
    assert(spec_two_digit_val(t, 6) == m);
    assert(spec_two_digit_val(t, 9) == d);
    assert(spec_two_digit_val(t, 12) == h);
    assert(spec_two_digit_val(t, 15) == mi);
    assert(spec_two_digit_val(t, 18) == s);
    assert(t.skip(22) =~= rest);
}

// --- Null, tag arrays, optional fields --------------------------------------

/// The written form of an absent value.
pub open spec fn lit_null() -> Seq<char> {
    seq!['n', 'u', 'l', 'l']
}

/// The texts of a tag array after its first element: `("," string)* "]"`.
pub open spec fn spec_parse_strings_more(t: Seq<char>) -> Option<(Seq<Seq<char>>, Seq<char>)>
    decreases t.len(),
    via spec_parse_strings_more_decreases
{
    let u = spec_ws(t);
    if u.len() == 0 {
        None
    } else if u[0] == ']' {
        Some((Seq::empty(), u.drop_first()))
    } else if u[0] == ',' {
        match spec_parse_string(u.drop_first()) {
            None => None,
            Some((s, r)) => match spec_parse_strings_more(r) {
                None => None,
                Some((ss, r2)) => Some((seq![s] + ss, r2)),
            },
        }
    } else {
        None
    }
}

#[via_fn]
proof fn spec_parse_strings_more_decreases(t: Seq<char>) {
    lemma_ws_le(t);
    let u = spec_ws(t);
    if u.len() > 0 && u[0] != ']' && u[0] == ',' {
        lemma_string_lt(u.drop_first());
    }
}

pub proof fn lemma_strings_more_le(t: Seq<char>)
    ensures
        spec_parse_strings_more(t) matches Some((ss, r)) ==> r.len() < t.len(),
    decreases t.len(),
{
    lemma_ws_le(t);
    let u = spec_ws(t);
    if u.len() > 0 && u[0] == ',' {
        lemma_string_lt(u.drop_first());
        if spec_parse_string(u.drop_first()) is Some {
            lemma_strings_more_le(spec_parse_string(u.drop_first())->Some_0.1);
        }
    }
}

/// A whole string array: `[` then strings separated by commas, or `[]`.
pub open spec fn spec_parse_string_array(t: Seq<char>) -> Option<(Seq<Seq<char>>, Seq<char>)> {
    let u = spec_ws(t);
    if u.len() > 0 && u[0] == '[' {
        let w = spec_ws(u.drop_first());
        if w.len() > 0 && w[0] == ']' {
            Some((Seq::empty(), w.drop_first()))
        } else {
            match spec_parse_string(u.drop_first()) {
                None => None,
                Some((s, r)) => match spec_parse_strings_more(r) {
                    None => None,
                    Some((ss, r2)) => Some((seq![s] + ss, r2)),
                },
            }
        }
    } else {
        None
    }
}

pub proof fn lemma_string_array_lt(t: Seq<char>)
    ensures
        spec_parse_string_array(t) matches Some((ss, r)) ==> r.len() < t.len(),
{
    lemma_ws_le(t);
    let u = spec_ws(t);
    if u.len() > 0 && u[0] == '[' {
        lemma_ws_le(u.drop_first());
        lemma_string_lt(u.drop_first());
        if spec_parse_string(u.drop_first()) is Some {
            lemma_strings_more_le(spec_parse_string(u.drop_first())->Some_0.1);
        }
    }
}

/// Whether parsed tag texts are acceptable: at least one, none empty.
pub open spec fn spec_tags_ok(ss: Seq<Seq<char>>) -> bool {
    ss.len() > 0 && forall|i: int| 0 <= i < ss.len() ==> (#[trigger] ss[i]).len() > 0
}

/// An optional tag collection: `null`, or a valid string array.
pub open spec fn spec_parse_tags(t: Seq<char>) -> Option<(Option<Seq<Seq<char>>>, Seq<char>)> {
    let u = spec_ws(t);
    if is_char_prefix(lit_null(), u) {
        Some((None, u.skip(4)))
    } else {
        match spec_parse_string_array(t) {
            None => None,
            Some((ss, r)) => if spec_tags_ok(ss) {
                Some((Some(ss), r))
            } else {
                None
            },
        }
    }
}

pub proof fn lemma_tags_lt(t: Seq<char>)
    ensures
        spec_parse_tags(t) matches Some((o, r)) ==> r.len() < t.len(),
{
    lemma_ws_le(t);
    lemma_string_array_lt(t);
}

/// An optional end instant: `null`, or a quoted timestamp.
pub open spec fn spec_parse_opt_ts(t: Seq<char>) -> Option<(Option<int>, Seq<char>)> {
    let u = spec_ws(t);
    if is_char_prefix(lit_null(), u) {
        Some((None, u.skip(4)))
    } else {
        match spec_parse_ts(t) {
            None => None,
            Some((e, r)) => Some((Some(e), r)),
        }
    }
}

pub proof fn lemma_opt_ts_lt(t: Seq<char>)
    ensures
        spec_parse_opt_ts(t) matches Some((o, r)) ==> r.len() < t.len(),
{
    lemma_ws_le(t);
    lemma_ts_lt(t);
}

// --- Entries ----------------------------------------------------------------

pub open spec fn lit_obrace() -> Seq<char> {
    seq!['{']
}

pub open spec fn lit_cbrace() -> Seq<char> {
    seq!['}']
}

pub open spec fn lit_obracket() -> Seq<char> {
    seq!['[']
}

pub open spec fn lit_comma() -> Seq<char> {
    seq![',']
}

pub open spec fn lit_colon() -> Seq<char> {
    seq![':']
}

pub open spec fn key_id() -> Seq<char> {
    seq!['"', 'i', 'd', '"']
}

pub open spec fn key_project() -> Seq<char> {
    seq!['"', 'p', 'r', 'o', 'j', 'e', 'c', 't', '"']
}

pub open spec fn key_tags() -> Seq<char> {
    seq!['"', 't', 'a', 'g', 's', '"']
}

pub open spec fn key_start() -> Seq<char> {
    seq!['"', 's', 't', 'a', 'r', 't', '"']
}

pub open spec fn key_end() -> Seq<char> {
    seq!['"', 'e', 'n', 'd', '"']
}

pub open spec fn key_entries() -> Seq<char> {
    seq!['"', 'e', 'n', 't', 'r', 'i', 'e', 's', '"']
}

/// One entry object: the five fields, in order, with the data model's
/// validity checks applied.
pub open spec fn spec_parse_entry(t: Seq<char>) -> Option<(EntryView, Seq<char>)> {
    match spec_tok(t, lit_obrace()) {
        None => None,
        Some(t1) => match spec_tok(t1, key_id()) {
            None => None,
            Some(t2) => match spec_tok(t2, lit_colon()) {
                None => None,
                Some(t3) => match spec_parse_string(t3) {
                    None => None,
                    Some((id, t4)) => match spec_tok(t4, lit_comma()) {
                        None => None,
                        Some(t5) => match spec_tok(t5, key_project()) {
                            None => None,
                            Some(t6) => match spec_tok(t6, lit_colon()) {
                                None => None,
                                Some(t7) => match spec_parse_string(t7) {
                                    None => None,
                                    Some((project, t8)) => match spec_tok(t8, lit_comma()) {
                                        None => None,
                                        Some(t9) => match spec_tok(t9, key_tags()) {
                                            None => None,
                                            Some(t10) => match spec_tok(t10, lit_colon()) {
                                                None => None,
                                                Some(t11) => match spec_parse_tags(t11) {
                                                    None => None,
                                                    Some((tags, t12)) => spec_parse_entry_tail(
                                                        t12,
                                                        id,
                                                        project,
                                                        tags,
                                                    ),
                                                },
                                            },
                                        },
                                    },
                                },
                            },
                        },
                    },
                },
            },
        },
    }
}

/// The `start` and `end` fields and the closing brace of an entry object.
pub open spec fn spec_parse_entry_tail(
    t: Seq<char>,
    id: Seq<char>,
    project: Seq<char>,
    tags: Option<Seq<Seq<char>>>,
) -> Option<(EntryView, Seq<char>)> {
    match spec_tok(t, lit_comma()) {
        None => None,
        Some(t1) => match spec_tok(t1, key_start()) {
            None => None,
            Some(t2) => match spec_tok(t2, lit_colon()) {
                None => None,
                Some(t3) => match spec_parse_ts(t3) {
                    None => None,
                    Some((start, t4)) => match spec_tok(t4, lit_comma()) {
                        None => None,
                        Some(t5) => match spec_tok(t5, key_end()) {
                            None => None,
                            Some(t6) => match spec_tok(t6, lit_colon()) {
                                None => None,
                                Some(t7) => match spec_parse_opt_ts(t7) {
                                    None => None,
                                    Some((end, t8)) => match spec_tok(t8, lit_cbrace()) {
                                        None => None,
                                        Some(t9) => {
                                            let e = EntryView { id, project, tags, start, end };
                                            if is_id_text(id) && project.len() > 0 {
                                                Some((e, t9))
                                            } else {
                                                None
                                            }
                                        },
                                    },
                                },
                            },
                        },
                    },
                },
            },
        },
    }
}

pub proof fn lemma_entry_lt(t: Seq<char>)
    ensures
        spec_parse_entry(t) matches Some((e, r)) ==> r.len() < t.len(),
{
    lemma_tok_le(t, lit_obrace());
    if spec_tok(t, lit_obrace()) is Some {
        let t1 = spec_tok(t, lit_obrace())->Some_0;
        lemma_tok_le(t1, key_id());
        if spec_tok(t1, key_id()) is Some {
            let t2 = spec_tok(t1, key_id())->Some_0;
            lemma_tok_le(t2, lit_colon());
            if spec_tok(t2, lit_colon()) is Some {
                let t3 = spec_tok(t2, lit_colon())->Some_0;
                lemma_string_lt(t3);
                if spec_parse_string(t3) is Some {
                    let id = spec_parse_string(t3)->Some_0.0;
                    let t4 = spec_parse_string(t3)->Some_0.1;
                    lemma_tok_le(t4, lit_comma());
                    if spec_tok(t4, lit_comma()) is Some {
                        let t5 = spec_tok(t4, lit_comma())->Some_0;
                        lemma_tok_le(t5, key_project());
                        if spec_tok(t5, key_project()) is Some {
                            let t6 = spec_tok(t5, key_project())->Some_0;
                            lemma_tok_le(t6, lit_colon());
                            if spec_tok(t6, lit_colon()) is Some {
                                let t7 = spec_tok(t6, lit_colon())->Some_0;
                                lemma_string_lt(t7);
                                if spec_parse_string(t7) is Some {
                                    let project = spec_parse_string(t7)->Some_0.0;
                                    let t8 = spec_parse_string(t7)->Some_0.1;
                                    lemma_tok_le(t8, lit_comma());
                                    if spec_tok(t8, lit_comma()) is Some {
                                        let t9 = spec_tok(t8, lit_comma())->Some_0;
                                        lemma_tok_le(t9, key_tags());
                                        if spec_tok(t9, key_tags()) is Some {
                                            let t10 = spec_tok(t9, key_tags())->Some_0;
                                            lemma_tok_le(t10, lit_colon());
                                            if spec_tok(t10, lit_colon()) is Some {
                                                let t11 = spec_tok(t10, lit_colon())->Some_0;
                                                lemma_tags_lt(t11);
                                                if spec_parse_tags(t11) is Some {
                                                    let tg = spec_parse_tags(t11)->Some_0.0;
                                                    let t12 = spec_parse_tags(t11)->Some_0.1;
                                                    lemma_entry_tail_lt(t12, id, project, tg);
                                                }
                                            }
                                        }
                                    }
                                }
                            }
                        }
                    }
                }
            }
        }
    }
}

proof fn lemma_entry_tail_lt(
    t: Seq<char>,
    id: Seq<char>,
    project: Seq<char>,
    tags: Option<Seq<Seq<char>>>,
)
    ensures
        spec_parse_entry_tail(t, id, project, tags) matches Some((e, r)) ==> r.len() <= t.len(),
{
    lemma_tok_le(t, lit_comma());
    if spec_tok(t, lit_comma()) is Some {
        let t1 = spec_tok(t, lit_comma())->Some_0;
        lemma_tok_le(t1, key_start());
        if spec_tok(t1, key_start()) is Some {
            let t2 = spec_tok(t1, key_start())->Some_0;
            lemma_tok_le(t2, lit_colon());
            if spec_tok(t2, lit_colon()) is Some {
                let t3 = spec_tok(t2, lit_colon())->Some_0;
                lemma_ts_lt(t3);
                if spec_parse_ts(t3) is Some {
                    let t4 = spec_parse_ts(t3)->Some_0.1;
                    lemma_tok_le(t4, lit_comma());
                    if spec_tok(t4, lit_comma()) is Some {
                        let t5 = spec_tok(t4, lit_comma())->Some_0;
                        lemma_tok_le(t5, key_end());
                        if spec_tok(t5, key_end()) is Some {
                            let t6 = spec_tok(t5, key_end())->Some_0;
                            lemma_tok_le(t6, lit_colon());
                            if spec_tok(t6, lit_colon()) is Some {
                                let t7 = spec_tok(t6, lit_colon())->Some_0;
                                lemma_opt_ts_lt(t7);
                                if spec_parse_opt_ts(t7) is Some {
                                    let t8 = spec_parse_opt_ts(t7)->Some_0.1;
                                    lemma_tok_le(t8, lit_cbrace());
                                }
                            }
                        }
                    }
                }
            }
        }
    }
}

/// The entries of a store array after its first element: `("," entry)* "]"`.
pub open spec fn spec_parse_entries_more(t: Seq<char>) -> Option<(Seq<EntryView>, Seq<char>)>
    decreases t.len(),
    via spec_parse_entries_more_decreases
{
    let u = spec_ws(t);
    if u.len() == 0 {
        None
    } else if u[0] == ']' {
        Some((Seq::empty(), u.drop_first()))
    } else if u[0] == ',' {
        match spec_parse_entry(u.drop_first()) {
            None => None,
            Some((e, r)) => match spec_parse_entries_more(r) {
                None => None,
                Some((es, r2)) => Some((seq![e] + es, r2)),
            },
        }
    } else {
        None
    }
}

#[via_fn]
proof fn spec_parse_entries_more_decreases(t: Seq<char>) {
    lemma_ws_le(t);
    let u = spec_ws(t);
    if u.len() > 0 && u[0] != ']' && u[0] == ',' {
        lemma_entry_lt(u.drop_first());
    }
}

/// A whole persisted store: an object holding the `entries` array, with
/// nothing but whitespace after it.
pub open spec fn spec_parse_store(t: Seq<char>) -> Option<Seq<EntryView>> {
    match spec_tok(t, lit_obrace()) {
        None => None,
        Some(t1) => match spec_tok(t1, key_entries()) {
            None => None,
            Some(t2) => match spec_tok(t2, lit_colon()) {
                None => None,
                Some(t3) => match spec_tok(t3, lit_obracket()) {
                    None => None,
                    Some(t4) => {
                        let u = spec_ws(t4);
                        if u.len() > 0 && u[0] == ']' {
                            spec_parse_store_close(u.drop_first(), Seq::empty())
                        } else {
                            match spec_parse_entry(t4) {
                                None => None,
                                Some((e, r)) => match spec_parse_entries_more(r) {
                                    None => None,
                                    Some((es, r2)) => spec_parse_store_close(r2, seq![e] + es),
                                },
                            }
                        }
                    },
                },
            },
        },
    }
}

/// The closing brace and trailing whitespace of a persisted store.
pub open spec fn spec_parse_store_close(t: Seq<char>, es: Seq<EntryView>) -> Option<
    Seq<EntryView>,
> {
    match spec_tok(t, lit_cbrace()) {
        None => None,
        Some(t1) => if spec_ws(t1).len() == 0 {
            Some(es)
        } else {
            None
        },
    }
}

// --- Rendering --------------------------------------------------------------

/// The written form of text: quoted and escaped.
pub open spec fn spec_quoted(s: Seq<char>) -> Seq<char> {
    seq!['"'] + spec_escape(s) + seq!['"']
}

/// The written form of a tag array after its first element.
pub open spec fn spec_tags_tail_text(ts: Seq<Seq<char>>) -> Seq<char>
    decreases ts.len(),
{
    if ts.len() == 0 {
        seq![']']
    } else {
        seq![','] + spec_quoted(ts[0]) + spec_tags_tail_text(ts.drop_first())
    }
}

/// The written form of an optional tag collection.
pub open spec fn spec_tags_text_r(o: Option<Seq<Seq<char>>>) -> Seq<char>
    recommends
        o matches Some(ts) ==> ts.len() > 0,
{
    match o {
        None => lit_null(),
        Some(ts) => seq!['['] + spec_quoted(ts[0]) + spec_tags_tail_text(ts.drop_first()),
    }
}

/// A rendered tag-array tail parses back to the tags it renders.
proof fn lemma_strings_more_of_render(ts: Seq<Seq<char>>, rest: Seq<char>)
    ensures
        spec_parse_strings_more(spec_tags_tail_text(ts) + rest) == Some((ts, rest)),
    decreases ts.len(),
{
    let t = spec_tags_tail_text(ts) + rest;
    if ts.len() == 0 {
        assert(t =~= seq![']'] + rest);
        assert(t[0] == ']');
        lemma_ws_clean(t);
        assert(t.drop_first() =~= rest);
        assert(spec_parse_strings_more(t) == Some((Seq::<Seq<char>>::empty(), rest)));
        assert(ts =~= Seq::<Seq<char>>::empty());
    } else {
        let tail = ts.drop_first();
        assert(t =~= seq![','] + (spec_quoted(ts[0]) + (spec_tags_tail_text(tail) + rest)));
        assert(t[0] == ',');
        lemma_ws_clean(t);
        assert(t.drop_first() =~= seq!['"'] + spec_escape(ts[0]) + seq!['"'] + (
        spec_tags_tail_text(tail) + rest));
        lemma_parse_string_of_escape(ts[0], spec_tags_tail_text(tail) + rest);
        lemma_strings_more_of_render(tail, rest);
        assert(seq![ts[0]] + tail =~= ts);
    }
}

/// Rendered tags parse back to the tags they render.
proof fn lemma_parse_tags_of_render(o: Option<Seq<Seq<char>>>, rest: Seq<char>)
    requires
        o matches Some(ts) ==> spec_tags_ok(ts),
    ensures
        spec_parse_tags(spec_tags_text_r(o) + rest) == Some((o, rest)),
{
    let t = spec_tags_text_r(o) + rest;
    match o {
        None => {
            assert(t =~= lit_null() + rest);
            assert(t[0] == 'n');
            lemma_ws_clean(t);
            assert(t.subrange(0, 4) =~= lit_null());
            assert(is_char_prefix(lit_null(), t));
            assert(t.skip(4) =~= rest);
        },
        Some(ts) => {
            assert(t =~= seq!['['] + (spec_quoted(ts[0]) + (spec_tags_tail_text(ts.drop_first())
                + rest)));
            assert(t[0] == '[');
            lemma_ws_clean(t);
            assert(!is_char_prefix(lit_null(), t));
            let inner = t.drop_first();
            assert(inner =~= seq!['"'] + spec_escape(ts[0]) + seq!['"'] + (spec_tags_tail_text(
                ts.drop_first(),
            ) + rest));
            assert(inner[0] == '"');
            lemma_ws_clean(inner);
            lemma_parse_string_of_escape(ts[0], spec_tags_tail_text(ts.drop_first()) + rest);
            lemma_strings_more_of_render(ts.drop_first(), rest);
            assert(seq![ts[0]] + ts.drop_first() =~= ts);
        },
    }
}

/// A rendered absent value parses back as absent.
proof fn lemma_parse_opt_ts_of_null(rest: Seq<char>)
    ensures
        spec_parse_opt_ts(lit_null() + rest) == Some((None::<int>, rest)),
{
    let t = lit_null() + rest;
    assert(t[0] == 'n');
    lemma_ws_clean(t);
    assert(t.subrange(0, 4) =~= lit_null());
    assert(is_char_prefix(lit_null(), t));
    assert(t.skip(4) =~= rest);
}

/// A rendered present instant parses back as that instant.
proof fn lemma_parse_opt_ts_of_render(
    y: int,
    m: int,
    d: int,
    h: int,
    mi: int,
    s: int,
    rest: Seq<char>,
)
    requires
        spec_ts_fields_ok(y, m, d, h, mi, s),
    ensures
        spec_parse_opt_ts(spec_ts_text(y, m, d, h, mi, s) + rest) == Some((
            Some(epoch_of(y, m, d, h, mi, s)),
            rest,
        )),
{
    let t = spec_ts_text(y, m, d, h, mi, s) + rest;
    assert(t[0] == '"');
    lemma_ws_clean(t);
    assert(!is_char_prefix(lit_null(), t));
    lemma_parse_ts_of_render(y, m, d, h, mi, s, rest);
}

/// The written form of an instant: its calendar fields, quoted.
fn render_ts_chars(ts: &crate::time::Timestamp) -> (r: Vec<char>)
    requires
        ts.wf(),
    ensures
        forall|rest: Seq<char>| #[trigger] spec_parse_ts(r@ + rest) == Some((ts@, rest)),
        forall|rest: Seq<char>| #[trigger] spec_parse_opt_ts(r@ + rest) == Some((Some(ts@), rest)),
{
    let (date, clock) = ts.to_fields();
    let mut out: Vec<char> = Vec::new();
    out.push('"');
    crate::text::push_four_digits(&mut out, date.year() as u64);
    out.push('-');
    crate::text::push_two_digits(&mut out, date.month() as u64);
    out.push('-');
    crate::text::push_two_digits(&mut out, date.day() as u64);
    out.push('T');
    crate::text::push_two_digits(&mut out, clock.hour() as u64);
    out.push(':');
    crate::text::push_two_digits(&mut out, clock.minute() as u64);
    out.push(':');
    crate::text::push_two_digits(&mut out, clock.second() as u64);
    out.push('Z');
    out.push('"');
    proof {
        let y = date.y();
        let m = date.m();
        let d = date.d();
        let h = clock.h();
        let mi = clock.mi();
        let sec = clock.s();
        assert(out@ =~= spec_ts_text(y, m, d, h, mi, sec));
        assert(spec_ts_fields_ok(y, m, d, h, mi, sec));
        assert forall|rest: Seq<char>| #[trigger] spec_parse_ts(out@ + rest) == Some((
            ts@,
            rest,
        )) by {
            lemma_parse_ts_of_render(y, m, d, h, mi, sec, rest);
        };
        assert forall|rest: Seq<char>| #[trigger] spec_parse_opt_ts(out@ + rest) == Some((
            Some(ts@),
            rest,
        )) by {
            lemma_parse_opt_ts_of_render(y, m, d, h, mi, sec, rest);
        };
    }
    out
}

/// The written form of an optional tag collection.
fn render_tags_chars(tags: &Option<crate::params::Tags>) -> (r: Vec<char>)
    requires
        tags matches Some(t) ==> t.wf(),
    ensures
        forall|rest: Seq<char>| #[trigger] spec_parse_tags(r@ + rest) == Some((
            opt_tags_view(tags),
            rest,
        )),
{
    let mut out: Vec<char> = Vec::new();
    match tags {
        None => {
            crate::text::push_str_chars(&mut out, "null");
            proof {
                reveal_strlit("null");
                assert(out@ =~= lit_null());
                assert(out@ =~= spec_tags_text_r(opt_tags_view(tags)));
            }
        },
        Some(ts) => {
            let ghost tsv = ts@;
            out.push('[');
            let first = ts.get(0);
            push_quoted(&mut out, first.value().as_str());
            proof {
                assert(out@ =~= seq!['['] + spec_quoted(tsv[0]));
            }
            let n = ts.len();
            let mut k: usize = 1;
            while k < n
                invariant
                    1 <= k <= n,
                    n == tsv.len(),
                    tsv == ts@,
                    out@ + spec_tags_tail_text(tsv.skip(k as int)) == seq!['['] + spec_quoted(
                        tsv[0],
                    ) + spec_tags_tail_text(tsv.skip(1)),
                decreases n - k,
            {
                let ghost pre = out@;
                out.push(',');
                push_quoted(&mut out, ts.get(k).value().as_str());
                proof {
                    assert(tsv.skip(k as int).drop_first() =~= tsv.skip(k + 1));
                    assert(tsv.skip(k as int)[0] == tsv[k as int]);
                    assert(out@ =~= pre + seq![','] + spec_quoted(tsv[k as int]));
                    assert(spec_tags_tail_text(tsv.skip(k as int)) =~= seq![','] + spec_quoted(
                        tsv[k as int],
                    ) + spec_tags_tail_text(tsv.skip(k + 1)));
                    assert(out@ + spec_tags_tail_text(tsv.skip(k + 1)) =~= pre
                        + spec_tags_tail_text(tsv.skip(k as int)));
                }
                k += 1;
            }
            out.push(']');
            proof {
                assert(tsv.skip(n as int).len() == 0);
                assert(spec_tags_tail_text(tsv.skip(n as int)) =~= seq![']']);
                assert(out@ =~= seq!['['] + spec_quoted(tsv[0]) + spec_tags_tail_text(
                    tsv.skip(1),
                ));
                assert(tsv.drop_first() =~= tsv.skip(1));
                assert(out@ =~= spec_tags_text_r(opt_tags_view(tags)));
            }
        },
    }
    proof {
        assert forall|rest: Seq<char>| #[trigger] spec_parse_tags(out@ + rest) == Some((
            opt_tags_view(tags),
            rest,
        )) by {
            lemma_parse_tags_of_render(opt_tags_view(tags), rest);
        };
    }
    out
}

/// The key segments of a rendered entry, as the renderer emits them.
pub open spec fn seg_id() -> Seq<char> {
    lit_obrace() + key_id() + lit_colon()
}

pub open spec fn seg_project() -> Seq<char> {
    lit_comma() + key_project() + lit_colon()
}

pub open spec fn seg_tags() -> Seq<char> {
    lit_comma() + key_tags() + lit_colon()
}

pub open spec fn seg_start() -> Seq<char> {
    lit_comma() + key_start() + lit_colon()
}

pub open spec fn seg_end() -> Seq<char> {
    lit_comma() + key_end() + lit_colon()
}

/// The written form of an optional end instant.
fn render_opt_ts_chars(end: &Option<crate::time::Timestamp>) -> (r: Vec<char>)
    requires
        end matches Some(t) ==> t.wf(),
    ensures
        forall|rest: Seq<char>| #[trigger] spec_parse_opt_ts(r@ + rest) == Some((
            opt_ts_view(end),
            rest,
        )),
{
    match end {
        None => {
            let mut out: Vec<char> = Vec::new();
            crate::text::push_str_chars(&mut out, "null");
            proof {
                reveal_strlit("null");
                assert(out@ =~= lit_null());
                assert forall|rest: Seq<char>| #[trigger] spec_parse_opt_ts(out@ + rest) == Some((
                    opt_ts_view(end),
                    rest,
                )) by {
                    lemma_parse_opt_ts_of_null(rest);
                };
            }
            out
        },
        Some(ts) => render_ts_chars(ts),
    }
}

/// The written form of one entry.
#[verifier::rlimit(50)]
fn render_entry_chars(e: &crate::entry::Entry) -> (r: Vec<char>)
    requires
        e.wf(),
    ensures
        forall|rest: Seq<char>| #[trigger] spec_parse_entry(r@ + rest) == Some((e@, rest)),
{
    let mut out: Vec<char> = Vec::new();
    crate::text::push_str_chars(&mut out, "{\"id\":");
    proof {
        reveal_strlit("{\"id\":");
        assert(out@ =~= seg_id());
    }
    let id = e.get_id();
    push_quoted(&mut out, id.as_str());
    proof {
        assert(out@ =~= seg_id() + spec_quoted(e@.id));
    }
    crate::text::push_str_chars(&mut out, ",\"project\":");
    proof {
        reveal_strlit(",\"project\":");
        assert(out@ =~= seg_id() + spec_quoted(e@.id) + seg_project());
    }
    let project = e.get_project();
    push_quoted(&mut out, project.value().as_str());
    proof {
        assert(out@ =~= seg_id() + spec_quoted(e@.id) + seg_project() + spec_quoted(e@.project));
    }
    crate::text::push_str_chars(&mut out, ",\"tags\":");
    let tags = e.get_tags();
    let tag_piece = render_tags_chars(&tags);
    crate::text::push_seq(&mut out, &tag_piece);
    proof {
        reveal_strlit(",\"tags\":");
        assert(out@ =~= seg_id() + spec_quoted(e@.id) + seg_project() + spec_quoted(e@.project)
            + seg_tags() + tag_piece@);
    }
    crate::text::push_str_chars(&mut out, ",\"start\":");
    let start = e.get_start();
    let start_piece = render_ts_chars(&start);
    crate::text::push_seq(&mut out, &start_piece);
    proof {
        reveal_strlit(",\"start\":");
        assert(out@ =~= seg_id() + spec_quoted(e@.id) + seg_project() + spec_quoted(e@.project)
            + seg_tags() + tag_piece@ + seg_start() + start_piece@);
    }
    crate::text::push_str_chars(&mut out, ",\"end\":");
    let end = e.get_end();
    let end_piece = render_opt_ts_chars(&end);
    crate::text::push_seq(&mut out, &end_piece);
    out.push('}');
    proof {
        reveal_strlit(",\"end\":");
        assert(out@ =~= seg_id() + spec_quoted(e@.id) + seg_project() + spec_quoted(e@.project)
            + seg_tags() + tag_piece@ + seg_start() + start_piece@ + seg_end() + end_piece@
            + lit_cbrace());
        assert forall|rest: Seq<char>| #[trigger] spec_parse_entry(out@ + rest) == Some((
            e@,
            rest,
        )) by {
            lemma_parse_entry_steps(
                e@,
                spec_quoted(e@.id),
                spec_quoted(e@.project),
                tag_piece@,
                start_piece@,
                end_piece@,
                rest,
            );
        };
    }
    out
}

/// Walks the entry grammar over a decomposed rendered entry.
#[verifier::rlimit(100)]
proof fn lemma_parse_entry_steps(
    ev: EntryView,
    qid: Seq<char>,
    qpr: Seq<char>,
    tgt: Seq<char>,
    stt: Seq<char>,
    edt: Seq<char>,
    rest: Seq<char>,
)
    requires
        ev.wf(),
        qid == spec_quoted(ev.id),
        qpr == spec_quoted(ev.project),
        forall|r2: Seq<char>| #[trigger] spec_parse_tags(tgt + r2) == Some((ev.tags, r2)),
        forall|r2: Seq<char>| #[trigger] spec_parse_ts(stt + r2) == Some((ev.start, r2)),
        forall|r2: Seq<char>| #[trigger] spec_parse_opt_ts(edt + r2) == Some((ev.end, r2)),
    ensures
        spec_parse_entry(
            seg_id() + qid + seg_project() + qpr + seg_tags() + tgt + seg_start() + stt + seg_end()
                + edt + lit_cbrace() + rest,
        ) == Some((ev, rest)),
{
    let t = seg_id() + qid + seg_project() + qpr + seg_tags() + tgt + seg_start() + stt + seg_end()
        + edt + lit_cbrace() + rest;
    let r18 = lit_cbrace() + rest;
    let r17 = edt + r18;
    let r16 = lit_colon() + r17;
    let r15 = key_end() + r16;
    let r14 = lit_comma() + r15;
    let r13 = stt + r14;
    let r12 = lit_colon() + r13;
    let r11 = key_start() + r12;
    let r10 = lit_comma() + r11;
    let r9 = tgt + r10;
    let r8 = lit_colon() + r9;
    let r7 = key_tags() + r8;
    let r6 = lit_comma() + r7;
    let r5 = qpr + r6;
    let r4 = lit_colon() + r5;
    let r3 = key_project() + r4;
    let r2 = lit_comma() + r3;
    let r1 = qid + r2;
    let r0 = lit_colon() + r1;
    let rk = key_id() + r0;
    assert(t =~= lit_obrace() + rk);
    lemma_tok_of_lit(lit_obrace(), rk);
    lemma_tok_of_lit(key_id(), r0);
    lemma_tok_of_lit(lit_colon(), r1);
    assert(r1 =~= seq!['"'] + spec_escape(ev.id) + seq!['"'] + r2);
    lemma_parse_string_of_escape(ev.id, r2);
    lemma_tok_of_lit(lit_comma(), r3);
    lemma_tok_of_lit(key_project(), r4);
    lemma_tok_of_lit(lit_colon(), r5);
    assert(r5 =~= seq!['"'] + spec_escape(ev.project) + seq!['"'] + r6);
    lemma_parse_string_of_escape(ev.project, r6);
    lemma_tok_of_lit(lit_comma(), r7);
    lemma_tok_of_lit(key_tags(), r8);
    lemma_tok_of_lit(lit_colon(), r9);
    assert(spec_parse_tags(tgt + r10) == Some((ev.tags, r10)));
    lemma_tok_of_lit(lit_comma(), r11);
    lemma_tok_of_lit(key_start(), r12);
    lemma_tok_of_lit(lit_colon(), r13);
    assert(spec_parse_ts(stt + r14) == Some((ev.start, r14)));
    lemma_tok_of_lit(lit_comma(), r15);
    lemma_tok_of_lit(key_end(), r16);
    lemma_tok_of_lit(lit_colon(), r17);
    assert(spec_parse_opt_ts(edt + r18) == Some((ev.end, r18)));
    lemma_tok_of_lit(lit_cbrace(), rest);
    assert(EntryView {
        id: ev.id,
        project: ev.project,
        tags: ev.tags,
        start: ev.start,
        end: ev.end,
    } =~= ev);
}

/// The opening of a rendered store, up to and including the `[`.
pub open spec fn seg_store_open() -> Seq<char> {
    lit_obrace() + key_entries() + lit_colon() + lit_obracket()
}

/// The views of a sequence of rendered pieces.
pub open spec fn chunk_views(p: Seq<Vec<char>>) -> Seq<Seq<char>> {
    p.map_values(|v: Vec<char>| v@)
}

/// The written form of an entry array after its first element.
pub open spec fn spec_list_tail_text(p: Seq<Seq<char>>) -> Seq<char>
    decreases p.len(),
{
    if p.len() == 0 {
        seq![']']
    } else {
        seq![','] + p[0] + spec_list_tail_text(p.drop_first())
    }
}

/// A rendered entry-array tail parses back to the entries it renders.
proof fn lemma_entries_more_of_pieces(p: Seq<Seq<char>>, es: Seq<EntryView>, rest: Seq<char>)
    requires
        p.len() == es.len(),
        forall|j: int, r2: Seq<char>|
            0 <= j < p.len() ==> #[trigger] spec_parse_entry(p[j] + r2) == Some((es[j], r2)),
    ensures
        spec_parse_entries_more(spec_list_tail_text(p) + rest) == Some((es, rest)),
    decreases p.len(),
{
    let t = spec_list_tail_text(p) + rest;
    if p.len() == 0 {
        assert(t =~= seq![']'] + rest);
        assert(t[0] == ']');
        lemma_ws_clean(t);
        assert(t.drop_first() =~= rest);
        assert(es =~= Seq::<EntryView>::empty());
    } else {
        let ptail = p.drop_first();
        let etail = es.drop_first();
        assert(t =~= seq![','] + (p[0] + (spec_list_tail_text(ptail) + rest)));
        assert(t[0] == ',');
        lemma_ws_clean(t);
        assert(t.drop_first() =~= p[0] + (spec_list_tail_text(ptail) + rest));
        assert(spec_parse_entry(p[0] + (spec_list_tail_text(ptail) + rest)) == Some((
            es[0],
            spec_list_tail_text(ptail) + rest,
        )));
        assert forall|j: int, r2: Seq<char>|
            0 <= j < ptail.len() implies #[trigger] spec_parse_entry(ptail[j] + r2) == Some((
            etail[j],
            r2,
        )) by {
            assert(spec_parse_entry(p[j + 1] + r2) == Some((es[j + 1], r2)));
        };
        lemma_entries_more_of_pieces(ptail, etail, rest);
        assert(seq![es[0]] + etail =~= es);
    }
}

/// Writes a store in its persisted form. Reading the result back yields
/// exactly this store's entries: the serialization round trip is lossless.
#[verifier::rlimit(100)]
pub fn render_store(store: &crate::store::Entries) -> (r: String)
    requires
        store.wf(),
    ensures
        spec_parse_store(r@) == Some(store@),
{
    let ghost es = store@;
    let n = store.len();
    let mut pieces: Vec<Vec<char>> = Vec::new();
    let mut i: usize = 0;
    while i < n
        invariant
            0 <= i <= n,
            n == es.len(),
            es == store@,
            store.wf(),
            pieces@.len() == i,
            forall|j: int, r2: Seq<char>|
                0 <= j < i ==> #[trigger] spec_parse_entry(chunk_views(pieces@)[j] + r2) == Some(
                    (es[j], r2),
                ),
        decreases n - i,
    {
        let entry = store.get(i);
        proof {
            assert(entry@ == es[i as int]);
            assert(es[i as int].wf());
        }
        let piece = render_entry_chars(entry);
        let ghost prev = pieces@;
        pieces.push(piece);
        proof {
            assert(chunk_views(pieces@)[i as int] == piece@);
            assert forall|j: int, r2: Seq<char>|
                0 <= j < i + 1 implies #[trigger] spec_parse_entry(chunk_views(pieces@)[j] + r2)
                == Some((es[j], r2)) by {
                if j < i {
                    assert(chunk_views(pieces@)[j] == chunk_views(prev)[j]);
                    assert(spec_parse_entry(chunk_views(prev)[j] + r2) == Some((es[j], r2)));
                }
            };
        }
        i += 1;
    }
    let ghost pv = chunk_views(pieces@);
    let mut out: Vec<char> = Vec::new();
    crate::text::push_str_chars(&mut out, "{\"entries\":[");
    proof {
        reveal_strlit("{\"entries\":[");
        assert(out@ =~= seg_store_open());
    }
    if n == 0 {
        out.push(']');
        out.push('}');
        proof {
            let rk = key_entries() + (lit_colon() + (lit_obracket() + (seq![']'] + lit_cbrace())));
            assert(out@ =~= lit_obrace() + rk);
            lemma_tok_of_lit(lit_obrace(), rk);
            let r0 = lit_colon() + (lit_obracket() + (seq![']'] + lit_cbrace()));
            lemma_tok_of_lit(key_entries(), r0);
            let r1 = lit_obracket() + (seq![']'] + lit_cbrace());
            lemma_tok_of_lit(lit_colon(), r1);
            let r2 = seq![']'] + lit_cbrace();
            lemma_tok_of_lit(lit_obracket(), r2);
            assert(r2[0] == ']');
            lemma_ws_clean(r2);
            assert(r2.drop_first() =~= lit_cbrace());
            lemma_tok_of_lit(lit_cbrace(), Seq::<char>::empty());
            assert(lit_cbrace() + Seq::<char>::empty() =~= lit_cbrace());
            assert(spec_ws(Seq::<char>::empty()).len() == 0);
            assert(es =~= Seq::<EntryView>::empty());
        }
        return crate::text::chars_to_string(&out);
    }
    crate::text::push_seq(&mut out, &pieces[0]);
    proof {
        assert(pv[0] == pieces@[0]@);
        assert(out@ =~= seg_store_open() + pv[0]);
    }
    let mut k: usize = 1;
    while k < n
        invariant
            1 <= k <= n,
            n == pv.len(),
            pv == chunk_views(pieces@),
            pieces@.len() == n,
            out@ + spec_list_tail_text(pv.skip(k as int)) == seg_store_open() + pv[0]
                + spec_list_tail_text(pv.skip(1)),
        decreases n - k,
    {
        let ghost pre = out@;
        out.push(',');
        crate::text::push_seq(&mut out, &pieces[k]);
        proof {
            assert(pv.skip(k as int).drop_first() =~= pv.skip(k + 1));
            assert(pv.skip(k as int)[0] == pv[k as int]);
            assert(pv[k as int] == pieces@[k as int]@);
            assert(out@ =~= pre + seq![','] + pv[k as int]);
            assert(spec_list_tail_text(pv.skip(k as int)) =~= seq![','] + pv[k as int]
                + spec_list_tail_text(pv.skip(k + 1)));
            assert(out@ + spec_list_tail_text(pv.skip(k + 1)) =~= pre + spec_list_tail_text(
                pv.skip(k as int),
            ));
        }
        k += 1;
    }
    out.push(']');
    out.push('}');
    proof {
        assert(pv.skip(n as int).len() == 0);
        assert(spec_list_tail_text(pv.skip(n as int)) =~= seq![']']);
        assert(out@ =~= seg_store_open() + pv[0] + spec_list_tail_text(pv.skip(1)) + lit_cbrace());
        let tail1 = spec_list_tail_text(pv.skip(1));
        let rk = key_entries() + (lit_colon() + (lit_obracket() + (pv[0] + (tail1
            + lit_cbrace()))));
        assert(out@ =~= lit_obrace() + rk);
        lemma_tok_of_lit(lit_obrace(), rk);
        let r0 = lit_colon() + (lit_obracket() + (pv[0] + (tail1 + lit_cbrace())));
        lemma_tok_of_lit(key_entries(), r0);
        let r1 = lit_obracket() + (pv[0] + (tail1 + lit_cbrace()));
        lemma_tok_of_lit(lit_colon(), r1);
        let r2 = pv[0] + (tail1 + lit_cbrace());
        lemma_tok_of_lit(lit_obracket(), r2);
        // The first piece parses as an entry, so the array is not empty here.
        assert(spec_parse_entry(pv[0] + (tail1 + lit_cbrace())) == Some((
            es[0],
            tail1 + lit_cbrace(),
        )));
        assert(spec_tok(r2, lit_obrace()) is Some);
        lemma_ws_le(r2);
        let u = spec_ws(r2);
        assert(is_char_prefix(lit_obrace(), u));
        assert(u[0] == '{');
        assert forall|j: int, r3: Seq<char>|
            0 <= j < pv.skip(1).len() implies #[trigger] spec_parse_entry(pv.skip(1)[j] + r3)
            == Some((es.skip(1)[j], r3)) by {
            assert(spec_parse_entry(pv[j + 1] + r3) == Some((es[j + 1], r3)));
        };
        lemma_entries_more_of_pieces(pv.skip(1), es.skip(1), lit_cbrace());
        lemma_tok_of_lit(lit_cbrace(), Seq::<char>::empty());
        assert(lit_cbrace() + Seq::<char>::empty() =~= lit_cbrace());
        assert(spec_ws(Seq::<char>::empty()).len() == 0);
        assert(seq![es[0]] + es.skip(1) =~= es);
    }
    crate::text::chars_to_string(&out)
}

/// Reads a quoted timestamp, returning the instant and the next position.
fn parse_ts_at(v: &Vec<char>, i: usize) -> (r: Option<(crate::time::Timestamp, usize)>)
    requires
        i <= v@.len(),
    ensures
        spec_parse_ts(v@.skip(i as int)) matches Some((e, rest)) ==> (r matches Some(p) && p.0@
            == e && p.0.wf() && i <= p.1 <= v@.len() && v@.skip(p.1 as int) == rest),
        spec_parse_ts(v@.skip(i as int)) is None ==> r is None,
{
    let ghost t0 = v@.skip(i as int);
    let j = skip_ws(v, i);
    let ghost u = spec_ws(t0);
    let n = v.len();
    proof {
        assert(u == v@.skip(j as int));
        assert forall|k: int| 0 <= k < u.len() implies u[k] == v@[j + k] by {};
    }
    if n - j < 22 {
        proof {
            assert(u.len() < 22);
        }
        return None;
    }
    if !(v[j] == '"' && v[j + 5] == '-' && v[j + 8] == '-' && v[j + 11] == 'T' && v[j + 14] == ':'
        && v[j + 17] == ':' && v[j + 20] == 'Z' && v[j + 21] == '"') {
        return None;
    }
    let y = match crate::time::read_four_digits(v, j + 1) {
        Some(y) => y,
        None => {
            proof {
                assert(!spec_four_digits_at(u, 1));
            }
            return None;
        },
    };
    let mo = match crate::time::read_two_digits(v, j + 6) {
        Some(x) => x,
        None => {
            proof {
                assert(!spec_two_digits_at(u, 6));
            }
            return None;
        },
    };
    let d = match crate::time::read_two_digits(v, j + 9) {
        Some(x) => x,
        None => {
            proof {
                assert(!spec_two_digits_at(u, 9));
            }
            return None;
        },
    };
    let h = match crate::time::read_two_digits(v, j + 12) {
        Some(x) => x,
        None => {
            proof {
                assert(!spec_two_digits_at(u, 12));
            }
            return None;
        },
    };
    let mi = match crate::time::read_two_digits(v, j + 15) {
        Some(x) => x,
        None => {
            proof {
                assert(!spec_two_digits_at(u, 15));
            }
            return None;
        },
    };
    let sec = match crate::time::read_two_digits(v, j + 18) {
        Some(x) => x,
        None => {
            proof {
                assert(!spec_two_digits_at(u, 18));
            }
            return None;
        },
    };
    proof {
        assert(spec_ts_window_ok(u));
        assert(spec_four_digit_val(u, 1) == y);
        assert(spec_two_digit_val(u, 6) == mo);
        assert(spec_two_digit_val(u, 9) == d);
        assert(spec_two_digit_val(u, 12) == h);
        assert(spec_two_digit_val(u, 15) == mi);
        assert(spec_two_digit_val(u, 18) == sec);
    }
    let date = match crate::time::Date::from_ymd(y, mo, d) {
        Ok(date) => date,
        Err(_) => {
            return None;
        },
    };
    let clock = match crate::time::ClockTime::from_hms(h, mi, sec) {
        Ok(c) => c,
        Err(_) => {
            return None;
        },
    };
    match crate::time::Timestamp::from_fields(&date, &clock) {
        Ok(ts) => {
            proof {
                assert(v@.skip(j + 22) =~= u.skip(22));
            }
            Some((ts, j + 22))
        },
        Err(_) => None,
    }
}

/// Reads `null` directly (no leading whitespace).
pub(crate) fn null_at(v: &Vec<char>, j: usize) -> (r: bool)
    requires
        j <= v@.len(),
    ensures
        r == is_char_prefix(lit_null(), v@.skip(j as int)),
{
    let n = v.len();
    if n - j < 4 {
        proof {
            assert(!is_char_prefix(lit_null(), v@.skip(j as int)));
        }
        return false;
    }
    let ok = v[j] == 'n' && v[j + 1] == 'u' && v[j + 2] == 'l' && v[j + 3] == 'l';
    proof {
        let u = v@.skip(j as int);
        if ok {
            assert(u.subrange(0, 4) =~= lit_null());
        } else {
            assert(u.subrange(0, 4)[0] == u[0] && u.subrange(0, 4)[1] == u[1] && u.subrange(
                0,
                4,
            )[2] == u[2] && u.subrange(0, 4)[3] == u[3]);
        }
    }
    ok
}

/// Reads a string array, empty arrays included.
pub(crate) fn parse_string_array_at(v: &Vec<char>, i: usize) -> (r: Option<(Vec<Vec<char>>, usize)>)
    requires
        i <= v@.len(),
    ensures
        spec_parse_string_array(v@.skip(i as int)) matches Some((ss, rest)) ==> (r matches Some(p)
            && chunk_views(p.0@) == ss && i <= p.1 <= v@.len() && v@.skip(p.1 as int) == rest),
        spec_parse_string_array(v@.skip(i as int)) is None ==> r is None,
{
    let ghost t0 = v@.skip(i as int);
    let j = skip_ws(v, i);
    let ghost u = spec_ws(t0);
    let n = v.len();
    if j >= n {
        return None;
    }
    if v[j] != '[' {
        proof {
            assert(u[0] == v@[j as int]);
        }
        return None;
    }
    proof {
        assert(u.drop_first() =~= v@.skip(j + 1));
    }
    let jj = skip_ws(v, j + 1);
    proof {
        assert(spec_ws(u.drop_first()) == v@.skip(jj as int));
    }
    if jj < n && v[jj] == ']' {
        proof {
            let w = spec_ws(u.drop_first());
            assert(w[0] == ']');
            assert(w.drop_first() =~= v@.skip(jj + 1));
            assert(chunk_views(Seq::<Vec<char>>::empty()) =~= Seq::<Seq<char>>::empty());
        }
        let empty: Vec<Vec<char>> = Vec::new();
        return Some((empty, jj + 1));
    }
    proof {
        let w = spec_ws(u.drop_first());
        if w.len() > 0 {
            assert(w[0] == v@[jj as int]);
        }
    }
    let first = match parse_string_at(v, j + 1) {
        Some(p) => p,
        None => {
            return None;
        },
    };
    let (s0, p0) = first;
    let ghost rem0 = spec_parse_string(u.drop_first())->Some_0.1;
    let mut texts: Vec<Vec<char>> = Vec::new();
    texts.push(s0);
    let mut j2 = p0;
    let mut done = false;
    let mut failed = false;
    while !done
        invariant
            i <= j2 <= n,
            n == v@.len(),
            t0 == v@.skip(i as int),
            u == spec_ws(t0),
            u.len() > 0 && u[0] == '[',
            !(spec_ws(u.drop_first()).len() > 0 && spec_ws(u.drop_first())[0] == ']'),
            spec_parse_string(u.drop_first()) == Some((s0@, rem0)),
            !done ==> !failed,
            !done ==> spec_parse_strings_more(rem0) == (match spec_parse_strings_more(
                v@.skip(j2 as int),
            ) {
                Some((ss, r)) => Some((chunk_views(texts@).skip(1) + ss, r)),
                None => None::<(Seq<Seq<char>>, Seq<char>)>,
            }),
            done && !failed ==> spec_parse_strings_more(rem0) == Some((
                chunk_views(texts@).skip(1),
                v@.skip(j2 as int),
            )),
            done && failed ==> spec_parse_strings_more(rem0) is None,
            chunk_views(texts@).len() >= 1,
            chunk_views(texts@)[0] == s0@,
        decreases n - j2, (if done {
            0int
        } else {
            1int
        }),
    {
        let ghost tc = v@.skip(j2 as int);
        let jw = skip_ws(v, j2);
        let ghost uw = spec_ws(tc);
        proof {
            lemma_ws_le(tc);
            if jw < n {
                assert(uw[0] == v@[jw as int]);
            }
        }
        if jw >= n {
            proof {
                assert(uw.len() == 0);
            }
            failed = true;
            done = true;
        } else {
            let c = v[jw];
            if c == ']' {
                proof {
                    assert(uw.drop_first() =~= v@.skip(jw + 1));
                    assert(chunk_views(texts@).skip(1) + Seq::<Seq<char>>::empty() =~= chunk_views(
                        texts@,
                    ).skip(1));
                }
                j2 = jw + 1;
                done = true;
            } else if c == ',' {
                proof {
                    assert(uw.drop_first() =~= v@.skip(jw + 1));
                }
                match parse_string_at(v, jw + 1) {
                    None => {
                        failed = true;
                        done = true;
                    },
                    Some((sk, pk)) => {
                        let ghost prev = texts@;
                        texts.push(sk);
                        proof {
                            lemma_string_lt(v@.skip(jw + 1));
                            assert(chunk_views(texts@).skip(1) =~= chunk_views(prev).skip(1).push(
                                sk@,
                            ));
                            let m2 = spec_parse_strings_more(v@.skip(pk as int));
                            if m2 is Some {
                                let ss2 = m2->Some_0.0;
                                assert(chunk_views(prev).skip(1) + (seq![sk@] + ss2)
                                    =~= chunk_views(prev).skip(1).push(sk@) + ss2);
                            }
                        }
                        j2 = pk;
                    },
                }
            } else {
                failed = true;
                done = true;
            }
        }
    }
    if failed {
        return None;
    }
    proof {
        assert(seq![s0@] + chunk_views(texts@).skip(1) =~= chunk_views(texts@));
    }
    Some((texts, j2))
}

/// Reads an optional tag array, returning validated tags.
fn parse_tags_at(v: &Vec<char>, i: usize) -> (r: Option<(Option<crate::params::Tags>, usize)>)
    requires
        i <= v@.len(),
    ensures
        spec_parse_tags(v@.skip(i as int)) matches Some((o, rest)) ==> (r matches Some(p)
            && opt_tags_view(&p.0) == o && (p.0 matches Some(tg) ==> tg.wf()) && i <= p.1
            <= v@.len() && v@.skip(p.1 as int) == rest),
        spec_parse_tags(v@.skip(i as int)) is None ==> r is None,
{
    let ghost t0 = v@.skip(i as int);
    let n = v.len();
    let j = skip_ws(v, i);
    let ghost u = spec_ws(t0);
    if null_at(v, j) {
        proof {
            assert(v@.skip(j as int).len() == n - j);
            assert(v@.skip(j + 4) =~= u.skip(4));
        }
        return Some((None, j + 4));
    }
    let (texts, j2) = match parse_string_array_at(v, i) {
        Some(p) => p,
        None => {
            return None;
        },
    };
    let ghost all = chunk_views(texts@);
    let m = texts.len();
    let mut items: Vec<crate::params::Tag> = Vec::new();
    let mut k: usize = 0;
    if m == 0 {
        proof {
            assert(!spec_tags_ok(all));
        }
        return None;
    }
    while k < m
        invariant
            0 <= k <= m,
            1 <= m == all.len(),
            i <= j2 <= n,
            n == v@.len(),
            t0 == v@.skip(i as int),
            u == spec_ws(t0),
            !is_char_prefix(lit_null(), u),
            spec_parse_string_array(t0) matches Some(pr) && pr.0 == all && pr.1 == v@.skip(
                j2 as int,
            ),
            all == chunk_views(texts@),
            texts@.len() == m,
            items@.len() == k,
            forall|q: int| 0 <= q < k ==> (#[trigger] all[q]).len() > 0,
            forall|q: int| 0 <= q < k ==> (#[trigger] items@[q])@ == all[q] && items@[q].wf(),
        decreases m - k,
    {
        let text = crate::text::chars_to_string(&texts[k]);
        match crate::params::Tag::new(text) {
            Ok(tag) => {
                items.push(tag);
            },
            Err(_) => {
                proof {
                    assert(all[k as int].len() == 0);
                    assert(!spec_tags_ok(all));
                }
                return None;
            },
        }
        k += 1;
    }
    proof {
        assert(spec_tags_ok(all));
    }
    match crate::params::Tags::new(items) {
        Ok(tags) => {
            proof {
                assert(tags@ =~= all);
            }
            Some((Some(tags), j2))
        },
        Err(_) => {
            // Unreachable: the collection is non-empty here.
            None
        },
    }
}

/// Reads an optional end instant.
fn parse_opt_ts_at(v: &Vec<char>, i: usize) -> (r: Option<(Option<crate::time::Timestamp>, usize)>)
    requires
        i <= v@.len(),
    ensures
        spec_parse_opt_ts(v@.skip(i as int)) matches Some((o, rest)) ==> (r matches Some(p)
            && opt_ts_view(&p.0) == o && (p.0 matches Some(t) ==> t.wf()) && i <= p.1 <= v@.len()
            && v@.skip(p.1 as int) == rest),
        spec_parse_opt_ts(v@.skip(i as int)) is None ==> r is None,
{
    let ghost t0 = v@.skip(i as int);
    let n = v.len();
    let j = skip_ws(v, i);
    let ghost u = spec_ws(t0);
    if null_at(v, j) {
        proof {
            assert(v@.skip(j as int).len() == n - j);
            assert(v@.skip(j + 4) =~= u.skip(4));
        }
        return Some((None, j + 4));
    }
    match parse_ts_at(v, i) {
        Some((ts, p)) => Some((Some(ts), p)),
        None => None,
    }
}

/// Reads one entry object, validating it into an `Entry`.
#[verifier::rlimit(100)]
fn parse_entry_at(v: &Vec<char>, i: usize) -> (r: Option<(crate::entry::Entry, usize)>)
    requires
        i <= v@.len(),
    ensures
        spec_parse_entry(v@.skip(i as int)) matches Some((ev, rest)) ==> (r matches Some(p) && p.0@
            == ev && p.0.wf() && i <= p.1 <= v@.len() && v@.skip(p.1 as int) == rest),
        spec_parse_entry(v@.skip(i as int)) is None ==> r is None,
{
    let p0 = match tok(v, i, "{") {
        Some(p) => p,
        None => {
            proof {
                reveal_strlit("{");
                assert("{"@ =~= lit_obrace());
            }
            return None;
        },
    };
    proof {
        reveal_strlit("{");
        assert("{"@ =~= lit_obrace());
    }
    let p1 = match tok(v, p0, "\"id\"") {
        Some(p) => p,
        None => {
            proof {
                reveal_strlit("\"id\"");
                assert("\"id\""@ =~= key_id());
            }
            return None;
        },
    };
    proof {
        reveal_strlit("\"id\"");
        assert("\"id\""@ =~= key_id());
    }
    let p2 = match tok(v, p1, ":") {
        Some(p) => p,
        None => {
            proof {
                reveal_strlit(":");
                assert(":"@ =~= lit_colon());
            }
            return None;
        },
    };
    proof {
        reveal_strlit(":");
        assert(":"@ =~= lit_colon());
    }
    let (id_chars, p3) = match parse_string_at(v, p2) {
        Some(p) => p,
        None => {
            return None;
        },
    };
    let p4 = match tok(v, p3, ",") {
        Some(p) => p,
        None => {
            proof {
                reveal_strlit(",");
                assert(","@ =~= lit_comma());
            }
            return None;
        },
    };
    proof {
        reveal_strlit(",");
        assert(","@ =~= lit_comma());
    }
    let p5 = match tok(v, p4, "\"project\"") {
        Some(p) => p,
        None => {
            proof {
                reveal_strlit("\"project\"");
                assert("\"project\""@ =~= key_project());
            }
            return None;
        },
    };
    proof {
        reveal_strlit("\"project\"");
        assert("\"project\""@ =~= key_project());
    }
    let p6 = match tok(v, p5, ":") {
        Some(p) => p,
        None => {
            return None;
        },
    };
    let (project_chars, p7) = match parse_string_at(v, p6) {
        Some(p) => p,
        None => {
            return None;
        },
    };
    let p8 = match tok(v, p7, ",") {
        Some(p) => p,
        None => {
            return None;
        },
    };
    let p9 = match tok(v, p8, "\"tags\"") {
        Some(p) => p,
        None => {
            proof {
                reveal_strlit("\"tags\"");
                assert("\"tags\""@ =~= key_tags());
            }
            return None;
        },
    };
    proof {
        reveal_strlit("\"tags\"");
        assert("\"tags\""@ =~= key_tags());
    }
    let p10 = match tok(v, p9, ":") {
        Some(p) => p,
        None => {
            return None;
        },
    };
    let (tags, p11) = match parse_tags_at(v, p10) {
        Some(p) => p,
        None => {
            return None;
        },
    };
    let p12 = match tok(v, p11, ",") {
        Some(p) => p,
        None => {
            return None;
        },
    };
    let p13 = match tok(v, p12, "\"start\"") {
        Some(p) => p,
        None => {
            proof {
                reveal_strlit("\"start\"");
                assert("\"start\""@ =~= key_start());
            }
            return None;
        },
    };
    proof {
        reveal_strlit("\"start\"");
        assert("\"start\""@ =~= key_start());
    }
    let p14 = match tok(v, p13, ":") {
        Some(p) => p,
        None => {
            return None;
        },
    };
    let (start, p15) = match parse_ts_at(v, p14) {
        Some(p) => p,
        None => {
            return None;
        },
    };
    let p16 = match tok(v, p15, ",") {
        Some(p) => p,
        None => {
            return None;
        },
    };
    let p17 = match tok(v, p16, "\"end\"") {
        Some(p) => p,
        None => {
            proof {
                reveal_strlit("\"end\"");
                assert("\"end\""@ =~= key_end());
            }
            return None;
        },
    };
    proof {
        reveal_strlit("\"end\"");
        assert("\"end\""@ =~= key_end());
    }
    let p18 = match tok(v, p17, ":") {
        Some(p) => p,
        None => {
            return None;
        },
    };
    let (end, p19) = match parse_opt_ts_at(v, p18) {
        Some(p) => p,
        None => {
            return None;
        },
    };
    let p20 = match tok(v, p19, "}") {
        Some(p) => p,
        None => {
            proof {
                reveal_strlit("}");
                assert("}"@ =~= lit_cbrace());
            }
            return None;
        },
    };
    proof {
        reveal_strlit("}");
        assert("}"@ =~= lit_cbrace());
    }
    let id = crate::text::chars_to_string(&id_chars);
    let project = match crate::params::Project::new(crate::text::chars_to_string(&project_chars)) {
        Ok(p) => p,
        Err(_) => {
            return None;
        },
    };
    match crate::entry::Entry::from_fields(id, project, tags, start, end) {
        Ok(entry) => Some((entry, p20)),
        Err(_) => None,
    }
}

/// Reads a store from its persisted form.
///
/// Exactly the texts the grammar admits are accepted; anything else — bad
/// shape, an invalid value, trailing text — is `Malformed`.
#[verifier::rlimit(100)]
pub fn parse_store(text: &str) -> (r: Result<crate::store::Entries, ParseError>)
    ensures
        spec_parse_store(text@) matches Some(es) ==> (r matches Ok(store) && store@ == es
            && store.wf()),
        spec_parse_store(text@) is None ==> r === Err(ParseError::Malformed),
{
    let v = crate::text::str_to_chars(text);
    let n = v.len();
    proof {
        reveal_strlit("{");
        assert("{"@ =~= lit_obrace());
        reveal_strlit("\"entries\"");
        assert("\"entries\""@ =~= key_entries());
        reveal_strlit(":");
        assert(":"@ =~= lit_colon());
        reveal_strlit("[");
        assert("["@ =~= lit_obracket());
        reveal_strlit("}");
        assert("}"@ =~= lit_cbrace());
        assert(v@.skip(0) =~= text@);
    }
    let p0 = match tok(&v, 0, "{") {
        Some(p) => p,
        None => {
            return Err(ParseError::Malformed);
        },
    };
    let p1 = match tok(&v, p0, "\"entries\"") {
        Some(p) => p,
        None => {
            return Err(ParseError::Malformed);
        },
    };
    let p2 = match tok(&v, p1, ":") {
        Some(p) => p,
        None => {
            return Err(ParseError::Malformed);
        },
    };
    let p3 = match tok(&v, p2, "[") {
        Some(p) => p,
        None => {
            return Err(ParseError::Malformed);
        },
    };
    let ghost t4 = v@.skip(p3 as int);
    let jw = skip_ws(&v, p3);
    proof {
        if jw < n {
            assert(spec_ws(t4)[0] == v@[jw as int]);
        } else {
            assert(spec_ws(t4).len() == 0);
        }
    }
    let mut store = crate::store::Entries::default();
    let mut j2: usize;
    if jw < n && v[jw] == ']' {
        proof {
            assert(spec_ws(t4).drop_first() =~= v@.skip(jw + 1));
        }
        j2 = jw + 1;
    } else {
        let (e0, q0) = match parse_entry_at(&v, p3) {
            Some(p) => p,
            None => {
                return Err(ParseError::Malformed);
            },
        };
        let ghost rem0 = spec_parse_entry(t4)->Some_0.1;
        store.push(e0);
        j2 = q0;
        let mut done = false;
        let mut failed = false;
        proof {
            assert(store@ =~= seq![e0@]);
        }
        while !done
            invariant
                j2 <= n,
                n == v@.len(),
                t4 == v@.skip(p3 as int),
                spec_parse_entry(t4) == Some((store@[0], rem0)),
                store@.len() >= 1,
                store.wf(),
                !done ==> !failed,
                !done ==> spec_parse_entries_more(rem0) == (match spec_parse_entries_more(
                    v@.skip(j2 as int),
                ) {
                    Some((es, r)) => Some((store@.skip(1) + es, r)),
                    None => None::<(Seq<EntryView>, Seq<char>)>,
                }),
                done && !failed ==> spec_parse_entries_more(rem0) == Some((
                    store@.skip(1),
                    v@.skip(j2 as int),
                )),
                done && failed ==> spec_parse_entries_more(rem0) is None,
            decreases n - j2, (if done {
                0int
            } else {
                1int
            }),
        {
            let ghost tc = v@.skip(j2 as int);
            let kw = skip_ws(&v, j2);
            let ghost uw = spec_ws(tc);
            proof {
                lemma_ws_le(tc);
                if kw < n {
                    assert(uw[0] == v@[kw as int]);
                }
            }
            if kw >= n {
                proof {
                    assert(uw.len() == 0);
                }
                failed = true;
                done = true;
            } else {
                let c = v[kw];
                if c == ']' {
                    proof {
                        assert(uw.drop_first() =~= v@.skip(kw + 1));
                        assert(store@.skip(1) + Seq::<EntryView>::empty() =~= store@.skip(1));
                    }
                    j2 = kw + 1;
                    done = true;
                } else if c == ',' {
                    proof {
                        assert(uw.drop_first() =~= v@.skip(kw + 1));
                    }
                    match parse_entry_at(&v, kw + 1) {
                        None => {
                            failed = true;
                            done = true;
                        },
                        Some((ek, pk)) => {
                            let ghost prev = store@;
                            store.push(ek);
                            proof {
                                lemma_entry_lt(v@.skip(kw + 1));
                                assert(store@.skip(1) =~= prev.skip(1).push(ek@));
                                let m2 = spec_parse_entries_more(v@.skip(pk as int));
                                if m2 is Some {
                                    let es2 = m2->Some_0.0;
                                    assert(prev.skip(1) + (seq![ek@] + es2) =~= prev.skip(1).push(
                                        ek@,
                                    ) + es2);
                                }
                                assert(store@[0] == prev[0]);
                            }
                            j2 = pk;
                        },
                    }
                } else {
                    failed = true;
                    done = true;
                }
            }
        }
        if failed {
            return Err(ParseError::Malformed);
        }
        proof {
            assert(seq![store@[0]] + store@.skip(1) =~= store@);
        }
    }
    // The closing brace, then nothing but whitespace.
    let pf = match tok(&v, j2, "}") {
        Some(p) => p,
        None => {
            return Err(ParseError::Malformed);
        },
    };
    let jf = skip_ws(&v, pf);
    if jf < n {
        proof {
            assert(spec_ws(v@.skip(pf as int)).len() == n - jf);
        }
        return Err(ParseError::Malformed);
    }
    proof {
        assert(spec_ws(v@.skip(pf as int)).len() == 0);
    }
    Ok(store)
}

} // verus!
