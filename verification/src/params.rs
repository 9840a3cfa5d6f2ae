//! The validated value types a query or an entry carries: projects, tags,
//! and optional date bounds.

use vstd::prelude::*;
use crate::errors::Error;
use crate::text::{chars_to_string, push_seq, push_str_chars, str_to_chars};
use crate::time::{date_max, date_min, Date};

verus! {

/// Non-empty text identifying a work context. Immutable once constructed.
#[derive(Debug, PartialEq)]
pub struct Project {
    text: String,
}

impl View for Project {
    type V = Seq<char>;

    closed spec fn view(&self) -> Seq<char> {
        self.text@
    }
}

impl Project {
    pub open spec fn wf(&self) -> bool {
        self@.len() > 0
    }

    /// Wraps non-empty text; empty text is rejected.
    pub fn new(text: String) -> (r: Result<Project, Error>)
        ensures
            text@.len() > 0 ==> (r matches Ok(p) && p@ == text@ && p.wf()),
            text@.len() == 0 ==> r === Err(Error::EmptyValue),
    {
        if text.as_str().is_empty() {
            Err(Error::EmptyValue)
        } else {
            Ok(Project { text })
        }
    }

    /// The text this project was constructed from.
    pub fn value(&self) -> (r: &String)
        ensures
            r@ == self@,
    {
        &self.text
    }

    /// Whether two projects carry the same text.
    pub fn same_as(&self, other: &Project) -> (r: bool)
        ensures
            r == (self@ == other@),
    {
        self.text == other.text
    }
}

impl Clone for Project {
    fn clone(&self) -> (r: Self)
        ensures
            r@ == self@,
    {
        Project { text: self.text.clone() }
    }
}

/// Non-empty text labelling an entry. Immutable once constructed.
#[derive(Debug, PartialEq)]
pub struct Tag {
    text: String,
}

impl View for Tag {
    type V = Seq<char>;

    closed spec fn view(&self) -> Seq<char> {
        self.text@
    }
}

impl Tag {
    pub open spec fn wf(&self) -> bool {
        self@.len() > 0
    }

    /// Wraps non-empty text; empty text is rejected.
    pub fn new(text: String) -> (r: Result<Tag, Error>)
        ensures
            text@.len() > 0 ==> (r matches Ok(t) && t@ == text@ && t.wf()),
            text@.len() == 0 ==> r === Err(Error::EmptyValue),
    {
        if text.as_str().is_empty() {
            Err(Error::EmptyValue)
        } else {
            Ok(Tag { text })
        }
    }

    /// The text this tag was constructed from.
    pub fn value(&self) -> (r: &String)
        ensures
            r@ == self@,
    {
        &self.text
    }
}

impl Clone for Tag {
    fn clone(&self) -> (r: Self)
        ensures
            r@ == self@,
    {
        Tag { text: self.text.clone() }
    }
}

/// Whether a character separates tag tokens.
pub open spec fn is_space(c: char) -> bool {
    c == ' ' || c == '\t' || c == '\n' || c == '\r'
}

/// The first position at or after `i` that holds a space, or the end.
pub open spec fn run_end(s: Seq<char>, i: int) -> int
    decreases s.len() - i,
{
    if i < 0 || i >= s.len() || is_space(s[i]) {
        i
    } else {
        run_end(s, i + 1)
    }
}

pub proof fn lemma_run_end(s: Seq<char>, i: int)
    requires
        0 <= i <= s.len(),
    ensures
        i <= run_end(s, i) <= s.len(),
    decreases s.len() - i,
{
    if i < s.len() && !is_space(s[i]) {
        lemma_run_end(s, i + 1);
    }
}

/// The whitespace-separated tokens of `s`, from position `i` on.
pub open spec fn split_ws_from(s: Seq<char>, i: int) -> Seq<Seq<char>>
    decreases s.len() - i,
    when 0 <= i
    via split_ws_from_decreases
{
    if i < 0 || i >= s.len() {
        Seq::empty()
    } else if is_space(s[i]) {
        split_ws_from(s, i + 1)
    } else {
        seq![s.subrange(i, run_end(s, i))] + split_ws_from(s, run_end(s, i))
    }
}

#[via_fn]
proof fn split_ws_from_decreases(s: Seq<char>, i: int) {
    if 0 <= i < s.len() && !is_space(s[i]) {
        assert(run_end(s, i) == run_end(s, i + 1));
        lemma_run_end(s, i + 1);
    }
}

/// A token with every leading `+` marker removed.
pub open spec fn strip_plus(t: Seq<char>) -> Seq<char>
    decreases t.len(),
{
    if t.len() > 0 && t[0] == '+' {
        strip_plus(t.drop_first())
    } else {
        t
    }
}

/// The tag texts that parsing `s` yields, before validation.
pub open spec fn spec_tag_tokens(s: Seq<char>) -> Seq<Seq<char>> {
    split_ws_from(s, 0).map_values(|t: Seq<char>| strip_plus(t))
}

/// The `", "`-joined rendering of tag texts.
pub open spec fn spec_join_tags(ts: Seq<Seq<char>>) -> Seq<char>
    decreases ts.len(),
{
    if ts.len() == 0 {
        Seq::empty()
    } else if ts.len() == 1 {
        ts[0]
    } else {
        spec_join_tags(ts.drop_last()) + seq![',', ' '] + ts.last()
    }
}

/// An ordered, non-empty collection of tags.
#[derive(Debug, PartialEq)]
pub struct Tags {
    items: Vec<Tag>,
}

impl View for Tags {
    type V = Seq<Seq<char>>;

    closed spec fn view(&self) -> Seq<Seq<char>> {
        self.items@.map_values(|t: Tag| t@)
    }
}

impl Clone for Tags {
    fn clone(&self) -> (r: Self)
        ensures
            r@ == self@,
    {
        let items = self.items.clone();
        proof {
            assert(items@.map_values(|t: Tag| t@) =~= self.items@.map_values(|t: Tag| t@));
        }
        Tags { items }
    }
}

impl Tags {
    pub open spec fn wf(&self) -> bool {
        self@.len() > 0 && forall|i: int| 0 <= i < self@.len() ==> self@[i].len() > 0
    }

    /// Wraps a collection of tags; an empty collection is rejected.
    pub fn new(items: Vec<Tag>) -> (r: Result<Tags, Error>)
        requires
            forall|i: int| 0 <= i < items@.len() ==> (#[trigger] items@[i]).wf(),
        ensures
            items@.len() > 0 ==> (r matches Ok(tags) && tags@ == items@.map_values(|t: Tag| t@)
                && tags.wf()),
            items@.len() == 0 ==> r === Err(Error::EmptyValue),
    {
        if items.is_empty() {
            Err(Error::EmptyValue)
        } else {
            let tags = Tags { items };
            proof {
                assert(forall|i: int| 0 <= i < tags@.len() ==> tags@[i].len() > 0);
            }
            Ok(tags)
        }
    }

    pub fn len(&self) -> (r: usize)
        ensures
            r == self@.len(),
    {
        self.items.len()
    }

    /// The tag at position `i`.
    pub fn get(&self, i: usize) -> (r: &Tag)
        requires
            i < self@.len(),
        ensures
            r@ == self@[i as int],
    {
        &self.items[i]
    }

    /// Splits `text` at whitespace, strips each token's leading `+` markers,
    /// and validates the result.
    ///
    /// No tokens yield `None` (the entry has no tags); a token that is empty
    /// after stripping is rejected.
    pub fn parse(text: &str) -> (r: Result<Option<Tags>, Error>)
        ensures
            ({
                let toks = spec_tag_tokens(text@);
                &&& toks.len() == 0 ==> r === Ok(None::<Tags>)
                &&& (toks.len() > 0 && (exists|i: int| 0 <= i < toks.len() && toks[i].len() == 0))
                    ==> r === Err(Error::EmptyValue)
                &&& (toks.len() > 0 && (forall|i: int|
                    0 <= i < toks.len() ==> (#[trigger] toks[i]).len() > 0)) ==> (r matches Ok(o)
                    && o matches Some(tags) && tags@ == toks && tags.wf())
            }),
    {
        let v = str_to_chars(text);
        let ghost s = text@;
        let ghost toks = spec_tag_tokens(s);
        let n = v.len();
        let mut out: Vec<Tag> = Vec::new();
        let mut i: usize = 0;
        proof {
            assert(toks =~= out@.map_values(|t: Tag| t@) + split_ws_from(s, 0).map_values(
                |t: Seq<char>| strip_plus(t),
            ));
        }
        while i < n
            invariant
                0 <= i <= n,
                n == s.len(),
                v@ == s,
                s == text@,
                toks == spec_tag_tokens(s),
                toks =~= out@.map_values(|t: Tag| t@) + split_ws_from(s, i as int).map_values(
                    |t: Seq<char>| strip_plus(t),
                ),
                forall|k: int| 0 <= k < out@.len() ==> (#[trigger] out@[k]).wf(),
            decreases n - i,
        {
            if v[i] == ' ' || v[i] == '\t' || v[i] == '\n' || v[i] == '\r' {
                proof {
                    assert(split_ws_from(s, i as int) =~= split_ws_from(s, i + 1));
                }
                i += 1;
            } else {
                // Scan to the end of the current token.
                let start = i;
                let mut j = i;
                while j < n && !(v[j] == ' ' || v[j] == '\t' || v[j] == '\n' || v[j] == '\r')
                    invariant
                        start <= j <= n,
                        n == s.len(),
                        v@ == s,
                        run_end(s, start as int) == run_end(s, j as int),
                    decreases n - j,
                {
                    proof {
                        assert(run_end(s, j as int) == run_end(s, j + 1));
                    }
                    j += 1;
                }
                proof {
                    assert(run_end(s, j as int) == j);
                }
                // Strip the leading `+` markers.
                let mut p = start;
                while p < j && v[p] == '+'
                    invariant
                        start <= p <= j <= n,
                        n == s.len(),
                        v@ == s,
                        strip_plus(s.subrange(start as int, j as int)) == strip_plus(
                            s.subrange(p as int, j as int),
                        ),
                    decreases j - p,
                {
                    proof {
                        assert(s.subrange(p as int, j as int).drop_first() =~= s.subrange(
                            p + 1,
                            j as int,
                        ));
                    }
                    p += 1;
                }
                proof {
                    assert(strip_plus(s.subrange(p as int, j as int)) =~= s.subrange(
                        p as int,
                        j as int,
                    ));
                }
                if p == j {
                    // The token was only `+` markers: empty after stripping.
                    proof {
                        let f = |t: Seq<char>| strip_plus(t);
                        assert(split_ws_from(s, i as int) =~= seq![
                            s.subrange(start as int, j as int),
                        ] + split_ws_from(s, j as int));
                        let tv = split_ws_from(s, i as int).map_values(f);
                        assert(tv[0] == f(s.subrange(start as int, j as int)));
                        let w = out@.len() as int;
                        assert(toks[w] == tv[0]);
                        assert(toks[w].len() == 0);
                        assert(0 <= w < toks.len());
                    }
                    return Err(Error::EmptyValue);
                }
                let mut tag_chars: Vec<char> = Vec::new();
                let mut q = p;
                while q < j
                    invariant
                        p <= q <= j <= n,
                        v@ == s,
                        n == s.len(),
                        tag_chars@ == s.subrange(p as int, q as int),
                    decreases j - q,
                {
                    tag_chars.push(v[q]);
                    proof {
                        assert(s.subrange(p as int, q as int).push(s[q as int]) =~= s.subrange(
                            p as int,
                            q + 1,
                        ));
                    }
                    q += 1;
                }
                let tag_text = chars_to_string(&tag_chars);
                match Tag::new(tag_text) {
                    Ok(tag) => {
                        out.push(tag);
                    },
                    Err(_) => {
                        // Unreachable: the token is non-empty here.
                        return Err(Error::EmptyValue);
                    },
                }
                proof {
                    let f = |t: Seq<char>| strip_plus(t);
                    let g = |t: Tag| t@;
                    assert(split_ws_from(s, i as int) =~= seq![
                        s.subrange(start as int, j as int),
                    ] + split_ws_from(s, j as int));
                    assert(split_ws_from(s, i as int).map_values(f) =~= seq![
                        f(s.subrange(start as int, j as int)),
                    ] + split_ws_from(s, j as int).map_values(f));
                    assert(toks =~= out@.map_values(g) + split_ws_from(s, j as int).map_values(f));
                }
                i = j;
            }
        }
        proof {
            assert(split_ws_from(s, i as int) =~= Seq::<Seq<char>>::empty());
            assert(toks =~= out@.map_values(|t: Tag| t@));
        }
        if out.len() == 0 {
            Ok(None)
        } else {
            match Tags::new(out) {
                Ok(tags) => Ok(Some(tags)),
                Err(_) => {
                    // Unreachable: the collection is non-empty here.
                    Err(Error::EmptyValue)
                },
            }
        }
    }

    /// The tags joined with `", "`, as listings and reports show them.
    pub fn as_string(&self) -> (r: String)
        ensures
            r@ == spec_join_tags(self@),
    {
        let mut acc: Vec<char> = Vec::new();
        let mut i: usize = 0;
        let n = self.items.len();
        while i < n
            invariant
                0 <= i <= n,
                n == self@.len(),
                acc@ == spec_join_tags(self@.take(i as int)),
            decreases n - i,
        {
            if i > 0 {
                let mut sep: Vec<char> = Vec::new();
                sep.push(',');
                sep.push(' ');
                push_seq(&mut acc, &sep);
            }
            push_str_chars(&mut acc, self.items[i].value().as_str());
            proof {
                assert(self@.take(i + 1).drop_last() =~= self@.take(i as int));
                assert(self@.take(i + 1).last() == self@[i as int]);
                assert(acc@ =~= spec_join_tags(self@.take(i + 1)));
            }
            i += 1;
        }
        proof {
            assert(self@.take(n as int) =~= self@);
        }
        chars_to_string(&acc)
    }
}

/// An optional inclusive lower bound for a date-range query.
#[derive(Debug, PartialEq, Clone, Copy)]
pub struct FromDate {
    date: Option<Date>,
}

impl FromDate {
    pub closed spec fn get(&self) -> Option<Date> {
        self.date
    }

    pub fn new(date: Option<Date>) -> (r: FromDate)
        ensures
            r.get() == date,
    {
        FromDate { date }
    }

    /// The bound itself, or the earliest supported date when absent.
    pub fn or_min(&self) -> (r: Date)
        ensures
            self.get() matches Some(d) ==> r == d,
            self.get() is None ==> (r.wf() && r.y() == 1970 && r.m() == 1 && r.d() == 1),
    {
        match &self.date {
            Some(d) => *d,
            None => date_min(),
        }
    }
}

/// An optional inclusive upper bound for a date-range query.
#[derive(Debug, PartialEq, Clone, Copy)]
pub struct ToDate {
    date: Option<Date>,
}

impl ToDate {
    pub closed spec fn get(&self) -> Option<Date> {
        self.date
    }

    pub fn new(date: Option<Date>) -> (r: ToDate)
        ensures
            r.get() == date,
    {
        ToDate { date }
    }

    /// The bound itself, or the latest supported date when absent.
    pub fn or_max(&self) -> (r: Date)
        ensures
            self.get() matches Some(d) ==> r == d,
            self.get() is None ==> (r.wf() && r.y() == 9999 && r.m() == 12 && r.d() == 31),
    {
        match &self.date {
            Some(d) => *d,
            None => date_max(),
        }
    }
}

} // verus!
