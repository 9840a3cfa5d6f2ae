//! The legacy tuple-array log format: its grammar, a reader, and the
//! mapping of its records into the store.

use vstd::prelude::*;
use crate::codec::{
    chunk_views, lemma_string_array_lt, lemma_string_lt, lemma_ws_le, lit_null, null_at,
    parse_string_array_at, parse_string_at, skip_ws, spec_parse_string, spec_parse_string_array,
    spec_tok, spec_ws, tok,
};
use crate::entry::Entry;
use crate::errors::ParseError;
use crate::ident::is_id_text;
use crate::params::{Project, Tag, Tags};
use crate::store::Entries;
use crate::text::{digit_val, is_char_prefix, is_digit, str_to_chars};
use crate::time::{Timestamp, MAX_EPOCH_SECS};

verus! {

// --- The legacy tuple grammar ----------------------------------------------

/// The number of leading digit characters.
pub open spec fn spec_digit_run(t: Seq<char>) -> int
    decreases t.len(),
{
    if t.len() > 0 && is_digit(t[0]) {
        1 + spec_digit_run(t.drop_first())
    } else {
        0
    }
}

pub proof fn lemma_digit_run_le(t: Seq<char>)
    ensures
        0 <= spec_digit_run(t) <= t.len(),
    decreases t.len(),
{
    if t.len() > 0 && is_digit(t[0]) {
        lemma_digit_run_le(t.drop_first());
    }
}

/// The value of the first `k` digit characters, read as a decimal number.
pub open spec fn spec_digits_val(t: Seq<char>, k: int) -> int
    decreases k,
{
    if k <= 0 {
        0
    } else {
        spec_digits_val(t, k - 1) * 10 + digit_val(t[k - 1])
    }
}

/// A decimal integer: an optional minus sign and one to eighteen digits.
pub open spec fn spec_parse_int(t: Seq<char>) -> Option<(int, Seq<char>)> {
    let u = spec_ws(t);
    let neg = u.len() > 0 && u[0] == '-';
    let b = if neg {
        u.drop_first()
    } else {
        u
    };
    let k = spec_digit_run(b);
    if 1 <= k <= 18 {
        Some((if neg {
            -spec_digits_val(b, k)
        } else {
            spec_digits_val(b, k)
        }, b.skip(k)))
    } else {
        None
    }
}

pub proof fn lemma_int_lt(t: Seq<char>)
    ensures
        spec_parse_int(t) matches Some((x, r)) ==> r.len() < t.len(),
{
    lemma_ws_le(t);
    let u = spec_ws(t);
    let neg = u.len() > 0 && u[0] == '-';
    let b = if neg {
        u.drop_first()
    } else {
        u
    };
    lemma_digit_run_le(b);
}

/// An integer or `null`.
pub open spec fn spec_parse_opt_int(t: Seq<char>) -> Option<(Option<int>, Seq<char>)> {
    let u = spec_ws(t);
    if is_char_prefix(lit_null(), u) {
        Some((None, u.skip(4)))
    } else {
        match spec_parse_int(t) {
            None => None,
            Some((x, r)) => Some((Some(x), r)),
        }
    }
}

pub proof fn lemma_opt_int_lt(t: Seq<char>)
    ensures
        spec_parse_opt_int(t) matches Some((o, r)) ==> r.len() < t.len(),
{
    lemma_ws_le(t);
    lemma_int_lt(t);
}

/// The mathematical value of one legacy record.
pub ghost struct FrameView {
    pub start_time: Option<int>,
    pub end_time: Option<int>,
    pub project: Seq<char>,
    pub id: Seq<char>,
    pub tags: Seq<Seq<char>>,
    pub timestamp: Option<int>,
}

/// One legacy tuple: start, end, project, identifier, tags, created-at.
pub open spec fn spec_parse_frame(t: Seq<char>) -> Option<(FrameView, Seq<char>)> {
    match spec_tok(t, seq!['[']) {
        None => None,
        Some(t1) => match spec_parse_opt_int(t1) {
            None => None,
            Some((start_time, t2)) => match spec_tok(t2, seq![',']) {
                None => None,
                Some(t3) => match spec_parse_opt_int(t3) {
                    None => None,
                    Some((end_time, t4)) => match spec_tok(t4, seq![',']) {
                        None => None,
                        Some(t5) => match spec_parse_string(t5) {
                            None => None,
                            Some((project, t6)) => match spec_tok(t6, seq![',']) {
                                None => None,
                                Some(t7) => match spec_parse_string(t7) {
                                    None => None,
                                    Some((id, t8)) => match spec_tok(t8, seq![',']) {
                                        None => None,
                                        Some(t9) => match spec_parse_string_array(t9) {
                                            None => None,
                                            Some((tags, t10)) => spec_parse_frame_tail(
                                                t10,
                                                start_time,
                                                end_time,
                                                project,
                                                id,
                                                tags,
                                            ),
                                        },
                                    },
                                },
                            },
                        },
                    },
                },
            },
        },
    }
}

/// The created-at field and the closing bracket of a legacy tuple.
pub open spec fn spec_parse_frame_tail(
    t: Seq<char>,
    start_time: Option<int>,
    end_time: Option<int>,
    project: Seq<char>,
    id: Seq<char>,
    tags: Seq<Seq<char>>,
) -> Option<(FrameView, Seq<char>)> {
    match spec_tok(t, seq![',']) {
        None => None,
        Some(t1) => match spec_parse_opt_int(t1) {
            None => None,
            Some((timestamp, t2)) => match spec_tok(t2, seq![']']) {
                None => None,
                Some(t3) => Some(
                    (FrameView { start_time, end_time, project, id, tags, timestamp }, t3),
                ),
            },
        },
    }
}

pub proof fn lemma_frame_lt(t: Seq<char>)
    ensures
        spec_parse_frame(t) matches Some((f, r)) ==> r.len() < t.len(),
{
    crate::codec::lemma_tok_le(t, seq!['[']);
    if spec_tok(t, seq!['[']) is Some {
        let t1 = spec_tok(t, seq!['['])->Some_0;
        lemma_opt_int_lt(t1);
        if spec_parse_opt_int(t1) is Some {
            let t2 = spec_parse_opt_int(t1)->Some_0.1;
            crate::codec::lemma_tok_le(t2, seq![',']);
            if spec_tok(t2, seq![',']) is Some {
                let t3 = spec_tok(t2, seq![','])->Some_0;
                lemma_opt_int_lt(t3);
                if spec_parse_opt_int(t3) is Some {
                    let t4 = spec_parse_opt_int(t3)->Some_0.1;
                    crate::codec::lemma_tok_le(t4, seq![',']);
                    if spec_tok(t4, seq![',']) is Some {
                        let t5 = spec_tok(t4, seq![','])->Some_0;
                        lemma_string_lt(t5);
                        if spec_parse_string(t5) is Some {
                            let t6 = spec_parse_string(t5)->Some_0.1;
                            crate::codec::lemma_tok_le(t6, seq![',']);
                            if spec_tok(t6, seq![',']) is Some {
                                let t7 = spec_tok(t6, seq![','])->Some_0;
                                lemma_string_lt(t7);
                                if spec_parse_string(t7) is Some {
                                    let t8 = spec_parse_string(t7)->Some_0.1;
                                    crate::codec::lemma_tok_le(t8, seq![',']);
                                    if spec_tok(t8, seq![',']) is Some {
                                        let t9 = spec_tok(t8, seq![','])->Some_0;
                                        lemma_string_array_lt(t9);
                                        if spec_parse_string_array(t9) is Some {
                                            let t10 = spec_parse_string_array(t9)->Some_0.1;
                                            lemma_frame_tail_le(t10);
                                        }
                                    }
                                }
                            }
                        }
                    }
                }
            }
        }
    }
}

proof fn lemma_frame_tail_le(t: Seq<char>)
    ensures
        forall|s: Option<int>, e: Option<int>, p: Seq<char>, id: Seq<char>, tg: Seq<Seq<char>>|
            #[trigger] spec_parse_frame_tail(t, s, e, p, id, tg) matches Some(pr) ==> pr.1.len()
                <= t.len(),
{
    crate::codec::lemma_tok_le(t, seq![',']);
    if spec_tok(t, seq![',']) is Some {
        let t1 = spec_tok(t, seq![','])->Some_0;
        lemma_opt_int_lt(t1);
        if spec_parse_opt_int(t1) is Some {
            let t2 = spec_parse_opt_int(t1)->Some_0.1;
            crate::codec::lemma_tok_le(t2, seq![']']);
        }
    }
}

/// The legacy records of a file after the first: `("," frame)* "]"`.
pub open spec fn spec_parse_frames_more(t: Seq<char>) -> Option<(Seq<FrameView>, Seq<char>)>
    decreases t.len(),
    via spec_parse_frames_more_decreases
{
    let u = spec_ws(t);
    if u.len() == 0 {
        None
    } else if u[0] == ']' {
        Some((Seq::empty(), u.drop_first()))
    } else if u[0] == ',' {
        match spec_parse_frame(u.drop_first()) {
            None => None,
            Some((f, r)) => match spec_parse_frames_more(r) {
                None => None,
                Some((fs, r2)) => Some((seq![f] + fs, r2)),
            },
        }
    } else {
        None
    }
}

#[via_fn]
proof fn spec_parse_frames_more_decreases(t: Seq<char>) {
    lemma_ws_le(t);
    let u = spec_ws(t);
    if u.len() > 0 && u[0] != ']' && u[0] == ',' {
        lemma_frame_lt(u.drop_first());
    }
}

/// A whole legacy file: an array of tuples with nothing but whitespace after
/// it.
pub open spec fn spec_parse_frames(t: Seq<char>) -> Option<Seq<FrameView>> {
    match spec_tok(t, seq!['[']) {
        None => None,
        Some(t1) => {
            let u = spec_ws(t1);
            if u.len() > 0 && u[0] == ']' {
                if spec_ws(u.drop_first()).len() == 0 {
                    Some(Seq::empty())
                } else {
                    None
                }
            } else {
                match spec_parse_frame(t1) {
                    None => None,
                    Some((f, r)) => match spec_parse_frames_more(r) {
                        None => None,
                        Some((fs, r2)) => if spec_ws(r2).len() == 0 {
                            Some(seq![f] + fs)
                        } else {
                            None
                        },
                    },
                }
            }
        },
    }
}

// --- The executable legacy reader ------------------------------------------

/// One record of the legacy log: start and end seconds, a project name, the
/// legacy identifier, the tag texts, and a created-at stamp. Absent values
/// were written `null`.
#[derive(Debug, PartialEq)]
pub struct TdWatsonFrame {
    pub start_time: Option<i64>,
    pub end_time: Option<i64>,
    pub project: String,
    pub id: String,
    pub tags: Vec<String>,
    pub timestamp: Option<i64>,
}

impl View for TdWatsonFrame {
    type V = FrameView;

    closed spec fn view(&self) -> FrameView {
        FrameView {
            start_time: match self.start_time {
                Some(x) => Some(x as int),
                None => None,
            },
            end_time: match self.end_time {
                Some(x) => Some(x as int),
                None => None,
            },
            project: self.project@,
            id: self.id@,
            tags: self.tags@.map_values(|s: String| s@),
            timestamp: match self.timestamp {
                Some(x) => Some(x as int),
                None => None,
            },
        }
    }
}

/// The mathematical values of a sequence of frames.
pub open spec fn frame_views(fs: Seq<TdWatsonFrame>) -> Seq<FrameView> {
    fs.map_values(|f: TdWatsonFrame| f@)
}

/// Powers of ten.
pub open spec fn pow10(k: nat) -> int
    decreases k,
{
    if k == 0 {
        1
    } else {
        10 * pow10((k - 1) as nat)
    }
}

proof fn lemma_pow10_mono(a: nat, b: nat)
    requires
        a <= b,
    ensures
        pow10(a) <= pow10(b),
        pow10(a) >= 1,
    decreases b,
{
    if b == 0 {
    } else if a == b {
        lemma_pow10_mono((a - 1) as nat, (b - 1) as nat);
    } else {
        lemma_pow10_mono(a, (b - 1) as nat);
    }
}

/// The value of `k` digits stays below the `k`-th power of ten.
proof fn lemma_digits_val_bound(b: Seq<char>, k: int)
    requires
        0 <= k <= b.len(),
        forall|q: int| 0 <= q < k ==> is_digit(#[trigger] b[q]),
    ensures
        0 <= spec_digits_val(b, k) < pow10(k as nat),
    decreases k,
{
    if k > 0 {
        lemma_digits_val_bound(b, k - 1);
    }
}

/// A run of digits followed by a non-digit (or the end) has that run length.
proof fn lemma_digit_run_prefix(b: Seq<char>, k: int)
    requires
        0 <= k <= b.len(),
        forall|q: int| 0 <= q < k ==> is_digit(#[trigger] b[q]),
        k < b.len() ==> !is_digit(b[k]),
    ensures
        spec_digit_run(b) == k,
    decreases k,
{
    if k == 0 {
    } else {
        assert(is_digit(b[0]));
        assert(forall|q: int| 0 <= q < k - 1 ==> is_digit(#[trigger] b.drop_first()[q]));
        lemma_digit_run_prefix(b.drop_first(), k - 1);
    }
}

/// A leading run of digits bounds the digit run from below.
proof fn lemma_digit_run_at_least(b: Seq<char>, k: int)
    requires
        0 <= k <= b.len(),
        forall|q: int| 0 <= q < k ==> is_digit(#[trigger] b[q]),
    ensures
        spec_digit_run(b) >= k,
    decreases k,
{
    if k > 0 {
        assert(is_digit(b[0]));
        assert(forall|q: int| 0 <= q < k - 1 ==> is_digit(#[trigger] b.drop_first()[q]));
        lemma_digit_run_at_least(b.drop_first(), k - 1);
    } else {
        lemma_digit_run_le(b);
    }
}

/// Reads a decimal integer, or `null`.
fn parse_opt_int_at(v: &Vec<char>, i: usize) -> (r: Option<(Option<i64>, usize)>)
    requires
        i <= v@.len(),
    ensures
        spec_parse_opt_int(v@.skip(i as int)) matches Some((o, rest)) ==> (r matches Some(p) && (
        match p.0 {
            Some(x) => Some(x as int),
            None => None,
        }) == o && i <= p.1 <= v@.len() && v@.skip(p.1 as int) == rest),
        spec_parse_opt_int(v@.skip(i as int)) is None ==> r is None,
{
    let ghost t0 = v@.skip(i as int);
    let n = v.len();
    let j = skip_ws(v, i);
    let ghost u = spec_ws(t0);
    if null_at(v, j) {
        proof {
            assert(v@.skip(j as int).len() == n - j);
            assert(v@.skip(j + 4) =~= u.skip(4));
        }
        return Some((None, j + 4));
    }
    let neg = j < n && v[j] == '-';
    let b0: usize = if neg {
        j + 1
    } else {
        j
    };
    proof {
        if j < n {
            assert(u[0] == v@[j as int]);
        }
        if neg {
            assert(u.drop_first() =~= v@.skip(j + 1));
        }
    }
    let ghost b = if neg {
        u.drop_first()
    } else {
        u
    };
    let mut k: usize = 0;
    let mut val: i64 = 0;
    while b0 + k < n && k < 18 && v[b0 + k] >= '0' && v[b0 + k] <= '9'
        invariant
            0 <= k <= 18,
            b0 + k <= n,
            i <= b0,
            n == v@.len(),
            b == v@.skip(b0 as int),
            u == spec_ws(t0),
            t0 == v@.skip(i as int),
            0 <= val,
            val == spec_digits_val(b, k as int),
            forall|q: int| 0 <= q < k ==> is_digit(#[trigger] b[q]),
        decreases n - b0 - k,
    {
        let c = v[b0 + k];
        proof {
            assert(b[k as int] == v@[b0 + k]);
            lemma_digits_val_bound(b, k as int);
            lemma_pow10_mono(k as nat, 17);
            reveal_with_fuel(pow10, 19);
            assert(pow10(17) == 100000000000000000);
        }
        let d = (c as u8 - 48) as i64;
        proof {
            assert(digit_val(b[k as int]) == d);
        }
        val = val * 10 + d;
        k += 1;
    }
    if k == 0 {
        proof {
            if b0 < n {
                assert(b[0] == v@[b0 as int]);
            }
            lemma_digit_run_prefix(b, 0);
        }
        return None;
    }
    if b0 + k < n && k == 18 {
        let c = v[b0 + k];
        if '0' <= c && c <= '9' {
            // Nineteen or more digits: out of range.
            proof {
                assert(b[18] == v@[b0 + 18]);
                assert(forall|q: int| 0 <= q < 19 ==> is_digit(#[trigger] b[q]));
                lemma_digit_run_at_least(b, 19);
            }
            return None;
        }
    }
    proof {
        if b0 + k < n {
            assert(b[k as int] == v@[b0 + k]);
        }
        lemma_digit_run_prefix(b, k as int);
        assert(v@.skip(b0 + k) =~= b.skip(k as int));
    }
    let signed: i64 = if neg {
        -val
    } else {
        val
    };
    Some((Some(signed), b0 + k))
}

/// Reads one legacy tuple.
#[verifier::rlimit(100)]
fn parse_frame_at(v: &Vec<char>, i: usize) -> (r: Option<(TdWatsonFrame, usize)>)
    requires
        i <= v@.len(),
    ensures
        spec_parse_frame(v@.skip(i as int)) matches Some((fv, rest)) ==> (r matches Some(p) && p.0@
            == fv && i <= p.1 <= v@.len() && v@.skip(p.1 as int) == rest),
        spec_parse_frame(v@.skip(i as int)) is None ==> r is None,
{
    proof {
        reveal_strlit("[");
        assert("["@ =~= seq!['[']);
        reveal_strlit(",");
        assert(","@ =~= seq![',']);
        reveal_strlit("]");
        assert("]"@ =~= seq![']']);
    }
    let p0 = match tok(v, i, "[") {
        Some(p) => p,
        None => {
            return None;
        },
    };
    let (start_time, p1) = match parse_opt_int_at(v, p0) {
        Some(p) => p,
        None => {
            return None;
        },
    };
    let p2 = match tok(v, p1, ",") {
        Some(p) => p,
        None => {
            return None;
        },
    };
    let (end_time, p3) = match parse_opt_int_at(v, p2) {
        Some(p) => p,
        None => {
            return None;
        },
    };
    let p4 = match tok(v, p3, ",") {
        Some(p) => p,
        None => {
            return None;
        },
    };
    let (project_chars, p5) = match parse_string_at(v, p4) {
        Some(p) => p,
        None => {
            return None;
        },
    };
    let p6 = match tok(v, p5, ",") {
        Some(p) => p,
        None => {
            return None;
        },
    };
    let (id_chars, p7) = match parse_string_at(v, p6) {
        Some(p) => p,
        None => {
            return None;
        },
    };
    let p8 = match tok(v, p7, ",") {
        Some(p) => p,
        None => {
            return None;
        },
    };
    let (tag_chunks, p9) = match parse_string_array_at(v, p8) {
        Some(p) => p,
        None => {
            return None;
        },
    };
    let p10 = match tok(v, p9, ",") {
        Some(p) => p,
        None => {
            return None;
        },
    };
    let (timestamp, p11) = match parse_opt_int_at(v, p10) {
        Some(p) => p,
        None => {
            return None;
        },
    };
    let p12 = match tok(v, p11, "]") {
        Some(p) => p,
        None => {
            return None;
        },
    };
    let project = crate::text::chars_to_string(&project_chars);
    let id = crate::text::chars_to_string(&id_chars);
    let mut tags: Vec<String> = Vec::new();
    let m = tag_chunks.len();
    let mut k: usize = 0;
    while k < m
        invariant
            0 <= k <= m,
            m == tag_chunks@.len(),
            tags@.len() == k,
            forall|q: int| 0 <= q < k ==> (#[trigger] tags@[q])@ == chunk_views(tag_chunks@)[q],
        decreases m - k,
    {
        let text = crate::text::chars_to_string(&tag_chunks[k]);
        tags.push(text);
        k += 1;
    }
    let frame = TdWatsonFrame { start_time, end_time, project, id, tags, timestamp };
    proof {
        assert(frame@.tags =~= chunk_views(tag_chunks@));
    }
    Some((frame, p12))
}

impl TdWatsonFrame {
    /// Reads a whole legacy log: a JSON array of six-element tuples. The
    /// whole operation fails on any deviation from that shape.
    pub fn parse(content: String) -> (r: Result<Vec<TdWatsonFrame>, ParseError>)
        ensures
            spec_parse_frames(content@) matches Some(fs) ==> (r matches Ok(frames) && frame_views(
                frames@,
            ) == fs),
            spec_parse_frames(content@) is None ==> r === Err(ParseError::Malformed),
    {
        let v = str_to_chars(content.as_str());
        let n = v.len();
        proof {
            reveal_strlit("[");
            assert("["@ =~= seq!['[']);
            assert(v@.skip(0) =~= content@);
        }
        let p0 = match tok(&v, 0, "[") {
            Some(p) => p,
            None => {
                return Err(ParseError::Malformed);
            },
        };
        let ghost t1 = v@.skip(p0 as int);
        let jw = skip_ws(&v, p0);
        proof {
            if jw < n {
                assert(spec_ws(t1)[0] == v@[jw as int]);
            } else {
                assert(spec_ws(t1).len() == 0);
            }
        }
        let mut frames: Vec<TdWatsonFrame> = Vec::new();
        let mut j2: usize;
        if jw < n && v[jw] == ']' {
            proof {
                assert(spec_ws(t1).drop_first() =~= v@.skip(jw + 1));
            }
            j2 = jw + 1;
        } else {
            let (f0, q0) = match parse_frame_at(&v, p0) {
                Some(p) => p,
                None => {
                    return Err(ParseError::Malformed);
                },
            };
            let ghost rem0 = spec_parse_frame(t1)->Some_0.1;
            frames.push(f0);
            j2 = q0;
            let mut done = false;
            let mut failed = false;
            proof {
                assert(frame_views(frames@) =~= seq![f0@]);
            }
            while !done
                invariant
                    j2 <= n,
                    n == v@.len(),
                    t1 == v@.skip(p0 as int),
                    spec_parse_frame(t1) == Some((frame_views(frames@)[0], rem0)),
                    frame_views(frames@).len() >= 1,
                    frames@.len() == frame_views(frames@).len(),
                    !done ==> !failed,
                    !done ==> spec_parse_frames_more(rem0) == (match spec_parse_frames_more(
                        v@.skip(j2 as int),
                    ) {
                        Some((fs, r)) => Some((frame_views(frames@).skip(1) + fs, r)),
                        None => None::<(Seq<FrameView>, Seq<char>)>,
                    }),
                    done && !failed ==> spec_parse_frames_more(rem0) == Some((
                        frame_views(frames@).skip(1),
                        v@.skip(j2 as int),
                    )),
                    done && failed ==> spec_parse_frames_more(rem0) is None,
                decreases n - j2, (if done {
                    0int
                } else {
                    1int
                }),
            {
                let ghost tc = v@.skip(j2 as int);
                let kw = skip_ws(&v, j2);
                let ghost uw = spec_ws(tc);
                proof {
                    lemma_ws_le(tc);
                    if kw < n {
                        assert(uw[0] == v@[kw as int]);
                    }
                }
                if kw >= n {
                    proof {
                        assert(uw.len() == 0);
                    }
                    failed = true;
                    done = true;
                } else {
                    let c = v[kw];
                    if c == ']' {
                        proof {
                            assert(uw.drop_first() =~= v@.skip(kw + 1));
                            assert(frame_views(frames@).skip(1) + Seq::<FrameView>::empty()
                                =~= frame_views(frames@).skip(1));
                        }
                        j2 = kw + 1;
                        done = true;
                    } else if c == ',' {
                        proof {
                            assert(uw.drop_first() =~= v@.skip(kw + 1));
                        }
                        match parse_frame_at(&v, kw + 1) {
                            None => {
                                failed = true;
                                done = true;
                            },
                            Some((fk, pk)) => {
                                let ghost prev = frames@;
                                frames.push(fk);
                                proof {
                                    lemma_frame_lt(v@.skip(kw + 1));
                                    assert(frame_views(frames@).skip(1) =~= frame_views(
                                        prev,
                                    ).skip(1).push(fk@));
                                    let m2 = spec_parse_frames_more(v@.skip(pk as int));
                                    if m2 is Some {
                                        let fs2 = m2->Some_0.0;
                                        assert(frame_views(prev).skip(1) + (seq![fk@] + fs2)
                                            =~= frame_views(prev).skip(1).push(fk@) + fs2);
                                    }
                                    assert(frame_views(frames@)[0] == frame_views(prev)[0]);
                                }
                                j2 = pk;
                            },
                        }
                    } else {
                        failed = true;
                        done = true;
                    }
                }
            }
            if failed {
                return Err(ParseError::Malformed);
            }
            proof {
                assert(seq![frame_views(frames@)[0]] + frame_views(frames@).skip(1) =~= frame_views(
                    frames@,
                ));
            }
        }
        let jf = skip_ws(&v, j2);
        if jf < n {
            proof {
                assert(spec_ws(v@.skip(j2 as int)).len() == n - jf);
            }
            return Err(ParseError::Malformed);
        }
        proof {
            assert(spec_ws(v@.skip(j2 as int)).len() == 0);
            if frames@.len() == 0 {
                assert(frame_views(frames@) =~= Seq::<FrameView>::empty());
            }
        }
        Ok(frames)
    }
}

/// Whether a legacy record can enter the store: both instants present and in
/// range, a non-empty project, and no empty tag text.
pub open spec fn frame_ok(f: FrameView) -> bool {
    &&& f.start_time matches Some(s) && 0 <= s <= MAX_EPOCH_SECS as int
    &&& f.end_time matches Some(e) && 0 <= e <= MAX_EPOCH_SECS as int
    &&& f.project.len() > 0
    &&& forall|i: int| 0 <= i < f.tags.len() ==> (#[trigger] f.tags[i]).len() > 0
}

/// The tags a legacy record maps to: none when its list is empty.
pub open spec fn frame_tags(f: FrameView) -> Option<Seq<Seq<char>>> {
    if f.tags.len() == 0 {
        None
    } else {
        Some(f.tags)
    }
}

impl Entries {
    /// Maps legacy records into the store: each becomes an entry with a
    /// fresh identifier; the legacy identifier and created-at stamp are
    /// discarded. Refuses to run against a non-empty store, and fails whole
    /// — leaving the store unchanged — when any record is unacceptable.
    pub fn import(&mut self, frames: Vec<TdWatsonFrame>) -> (r: Result<(), ParseError>)
        ensures
            old(self)@.len() > 0 ==> (r === Err(ParseError::NonEmptyStore) && final(self)@ == old(
                self,
            )@),
            old(self)@.len() == 0 && (exists|i: int|
                0 <= i < frames@.len() && !frame_ok(frame_views(frames@)[i])) ==> (r === Err(
                ParseError::InvalidValue,
            ) && final(self)@ == old(self)@),
            old(self)@.len() == 0 && (forall|i: int|
                0 <= i < frames@.len() ==> frame_ok(#[trigger] frame_views(frames@)[i])) ==> (r
                is Ok && final(self)@.len() == frames@.len() && final(self).wf() && forall|k: int|
                0 <= k < frames@.len() ==> {
                    let fv = frame_views(frames@)[k];
                    let ev = #[trigger] final(self)@[k];
                    &&& ev.project == fv.project
                    &&& ev.tags == frame_tags(fv)
                    &&& Some(ev.start) == fv.start_time
                    &&& ev.end == fv.end_time
                    &&& is_id_text(ev.id)
                }),
    {
        if self.len() > 0 {
            return Err(ParseError::NonEmptyStore);
        }
        let ghost fvs = frame_views(frames@);
        let n = frames.len();
        let mut mapped: Vec<Entry> = Vec::new();
        let mut i: usize = 0;
        while i < n
            invariant
                0 <= i <= n,
                n == fvs.len(),
                fvs == frame_views(frames@),
                frames@.len() == n,
                mapped@.len() == i,
                old(self)@.len() == 0,
                self@ == old(self)@,
                forall|k: int| 0 <= k < i ==> frame_ok(#[trigger] fvs[k]),
                forall|k: int|
                    0 <= k < i ==> {
                        let ev = (#[trigger] mapped@[k])@;
                        &&& mapped@[k].wf()
                        &&& ev.project == fvs[k].project
                        &&& ev.tags == frame_tags(fvs[k])
                        &&& Some(ev.start) == fvs[k].start_time
                        &&& ev.end == fvs[k].end_time
                        &&& is_id_text(ev.id)
                    },
            decreases n - i,
        {
            let frame = &frames[i];
            proof {
                assert(frame@ == fvs[i as int]);
            }
            let start_secs = match frame.start_time {
                Some(s) => s,
                None => {
                    proof {
                        assert(!frame_ok(fvs[i as int]));
                    }
                    return Err(ParseError::InvalidValue);
                },
            };
            let end_secs = match frame.end_time {
                Some(s) => s,
                None => {
                    proof {
                        assert(!frame_ok(fvs[i as int]));
                    }
                    return Err(ParseError::InvalidValue);
                },
            };
            let start = match Timestamp::from_secs(start_secs) {
                Ok(t) => t,
                Err(_) => {
                    proof {
                        assert(!frame_ok(fvs[i as int]));
                    }
                    return Err(ParseError::InvalidValue);
                },
            };
            let end = match Timestamp::from_secs(end_secs) {
                Ok(t) => t,
                Err(_) => {
                    proof {
                        assert(!frame_ok(fvs[i as int]));
                    }
                    return Err(ParseError::InvalidValue);
                },
            };
            let project = match Project::new(frame.project.clone()) {
                Ok(p) => p,
                Err(_) => {
                    proof {
                        assert(!frame_ok(fvs[i as int]));
                    }
                    return Err(ParseError::InvalidValue);
                },
            };
            let m = frame.tags.len();
            let tags: Option<Tags> = if m == 0 {
                None
            } else {
                let mut items: Vec<Tag> = Vec::new();
                let mut k: usize = 0;
                while k < m
                    invariant
                        0 <= k <= m,
                        old(self)@.len() == 0,
                        self@ == old(self)@,
                        m == frame@.tags.len(),
                        frame@ == fvs[i as int],
                        fvs == frame_views(frames@),
                        i < frames@.len(),
                        frame == frames@[i as int],
                        frame.tags@.len() == m,
                        items@.len() == k,
                        forall|q: int|
                            0 <= q < k ==> (#[trigger] items@[q])@ == frame@.tags[q]
                                && items@[q].wf(),
                    decreases m - k,
                {
                    match Tag::new(frame.tags[k].clone()) {
                        Ok(tag) => {
                            items.push(tag);
                        },
                        Err(_) => {
                            proof {
                                assert(frame@.tags[k as int].len() == 0);
                                assert(!frame_ok(fvs[i as int]));
                            }
                            return Err(ParseError::InvalidValue);
                        },
                    }
                    k += 1;
                }
                match Tags::new(items) {
                    Ok(tags) => {
                        proof {
                            assert(tags@ =~= frame@.tags);
                        }
                        Some(tags)
                    },
                    Err(_) => {
                        // Unreachable: the list is non-empty here.
                        return Err(ParseError::InvalidValue);
                    },
                }
            };
            proof {
                if m == 0 {
                    assert(frame_tags(fvs[i as int]) is None);
                }
            }
            let entry = Entry::new(project, tags, start, Some(end));
            mapped.push(entry);
            i += 1;
        }
        let mut k: usize = 0;
        while k < n
            invariant
                0 <= k <= n,
                n == fvs.len(),
                fvs == frame_views(frames@),
                frames@.len() == n,
                mapped@.len() == n,
                old(self)@.len() == 0,
                self@.len() == k,
                self.wf(),
                forall|q: int|
                    0 <= q < n ==> {
                        let ev = (#[trigger] mapped@[q])@;
                        &&& mapped@[q].wf()
                        &&& ev.project == fvs[q].project
                        &&& ev.tags == frame_tags(fvs[q])
                        &&& Some(ev.start) == fvs[q].start_time
                        &&& ev.end == fvs[q].end_time
                        &&& is_id_text(ev.id)
                    },
                forall|q: int| 0 <= q < k ==> #[trigger] self@[q] == mapped@[q]@,
            decreases n - k,
        {
            let entry = mapped[k].clone();
            self.push(entry);
            k += 1;
        }
        proof {
            assert(forall|q: int| 0 <= q < n ==> frame_ok(#[trigger] fvs[q]));
        }
        Ok(())
    }
}

} // verus!
