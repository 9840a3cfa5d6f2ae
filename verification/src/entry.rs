//! A single timed work session and its renderings.

use vstd::prelude::*;
use vstd::arithmetic::div_mod::{lemma_fundamental_div_mod, lemma_mod_bound};
use crate::errors::Error;
use crate::ident::{generate_id, is_id_text};
use crate::params::{spec_join_tags, Project, Tags};
use crate::text::{
    chars_to_string, dec_rep, push_decimal, push_str_chars, push_two_digits, two_digits,
};
use crate::time::{Timestamp, MAX_EPOCH_SECS};

verus! {

/// The mathematical value of an entry: its identifier, project and tag texts,
/// and its instants in seconds since the epoch.
#[verifier::ext_equal]
pub ghost struct EntryView {
    pub id: Seq<char>,
    pub project: Seq<char>,
    pub tags: Option<Seq<Seq<char>>>,
    pub start: int,
    pub end: Option<int>,
}

impl EntryView {
    /// Validity of an entry: a generated identifier, a non-empty project,
    /// non-empty tags when present, and instants in the supported range.
    pub open spec fn wf(&self) -> bool {
        &&& is_id_text(self.id)
        &&& self.project.len() > 0
        &&& (self.tags matches Some(ts) ==> ts.len() > 0 && forall|i: int|
            0 <= i < ts.len() ==> (#[trigger] ts[i]).len() > 0)
        &&& 0 <= self.start <= MAX_EPOCH_SECS as int
        &&& (self.end matches Some(e) ==> 0 <= e <= MAX_EPOCH_SECS as int)
    }

    /// The day number of the calendar day the entry started on.
    pub open spec fn start_day(&self) -> int {
        self.start / 86400
    }
}

/// The tag texts of an entry, or nothing.
pub open spec fn opt_tags_view(tags: &Option<Tags>) -> Option<Seq<Seq<char>>> {
    match tags {
        Some(t) => Some(t@),
        None => None,
    }
}

/// The instant of an optional timestamp.
pub open spec fn opt_ts_view(ts: &Option<Timestamp>) -> Option<int> {
    match ts {
        Some(t) => Some(t@),
        None => None,
    }
}

/// The tag text a listing shows: the joined tags, or nothing.
pub open spec fn spec_tags_text(tags: Option<Seq<Seq<char>>>) -> Seq<char> {
    match tags {
        Some(ts) => spec_join_tags(ts),
        None => Seq::empty(),
    }
}

/// The `HH:MM` rendering of a non-negative duration in seconds: whole hours,
/// then the minutes of the remainder hour, both zero-padded to two digits.
pub open spec fn spec_hhmm_nonneg(d: int) -> Seq<char> {
    let hours = d / 3600;
    let minutes = (d % 3600) / 60;
    (if hours < 100 {
        two_digits(hours)
    } else {
        dec_rep(hours as nat)
    }) + seq![':'] + two_digits(minutes)
}

/// The `HH:MM` rendering of a duration, a leading `-` marking a negative one.
pub open spec fn spec_hhmm(d: int) -> Seq<char> {
    if d < 0 {
        seq!['-'] + spec_hhmm_nonneg(-d)
    } else {
        spec_hhmm_nonneg(d)
    }
}

/// The `HH:MM` time of day of an instant.
pub open spec fn spec_clock_hhmm(t: int) -> Seq<char> {
    let of_day = t % 86400;
    two_digits(of_day / 3600) + seq![':'] + two_digits((of_day % 3600) / 60)
}

/// The per-entry line of a report: the joined tags and the duration.
pub open spec fn spec_report_line(e: EntryView) -> Seq<char>
    recommends
        e.end is Some,
{
    seq!['['] + spec_tags_text(e.tags) + seq![' ', ' ', ' '] + spec_hhmm(
        e.end.unwrap() - e.start,
    ) + seq![']']
}

/// The listing line of an entry: the first eight identifier characters, the
/// start and end times of day (`now` for a running entry), the project, and
/// the bracketed tags.
pub open spec fn spec_listing_line(e: EntryView) -> Seq<char> {
    let end_text = match e.end {
        Some(t) => spec_clock_hhmm(t),
        None => "now"@,
    };
    e.id.subrange(0, 8) + seq![' ', ' '] + spec_clock_hhmm(e.start) + seq![' ', 't', 'o', ' ']
        + end_text + seq![' ', ' '] + e.project + seq![' ', ' ', ' ', ' ', '['] + spec_tags_text(
        e.tags,
    ) + seq![']']
}

/// One timed work session: an identity, a project, optional tags, a start
/// instant, and an end instant that is absent while the session runs.
#[derive(Debug, PartialEq)]
pub struct Entry {
    id: String,
    project: Project,
    tags: Option<Tags>,
    start: Timestamp,
    end: Option<Timestamp>,
}

impl View for Entry {
    type V = EntryView;

    closed spec fn view(&self) -> EntryView {
        EntryView {
            id: self.id@,
            project: self.project@,
            tags: opt_tags_view(&self.tags),
            start: self.start@,
            end: opt_ts_view(&self.end),
        }
    }
}

impl Clone for Entry {
    fn clone(&self) -> (r: Self)
        ensures
            r@ == self@,
    {
        let r = Entry {
            id: self.id.clone(),
            project: self.project.clone(),
            tags: match &self.tags {
                Some(t) => Some(t.clone()),
                None => None,
            },
            start: self.start,
            end: self.end,
        };
        proof {
            assert(r@ =~= self@);
        }
        r
    }
}

impl Entry {
    pub open spec fn wf(&self) -> bool {
        self@.wf()
    }

    /// Builds an entry with a freshly generated identifier; the other fields
    /// are taken as given.
    pub fn new(
        project: Project,
        tags: Option<Tags>,
        start: Timestamp,
        end: Option<Timestamp>,
    ) -> (r: Entry)
        requires
            project.wf(),
            tags matches Some(t) ==> t.wf(),
            start.wf(),
            end matches Some(e) ==> e.wf(),
        ensures
            r@.project == project@,
            r@.tags == opt_tags_view(&tags),
            r@.start == start@,
            r@.end == opt_ts_view(&end),
            is_id_text(r@.id),
            r.wf(),
            (r@.end is None) == (end is None),
    {
        let id = generate_id();
        Entry { id, project, tags, start, end }
    }

    /// Rebuilds an entry from all five fields, as editing and parsing do.
    pub fn from_fields(
        id: String,
        project: Project,
        tags: Option<Tags>,
        start: Timestamp,
        end: Option<Timestamp>,
    ) -> (r: Result<Entry, Error>)
        requires
            project.wf(),
            tags matches Some(t) ==> t.wf(),
            start.wf(),
            end matches Some(e) ==> e.wf(),
        ensures
            is_id_text(id@) ==> (r matches Ok(e) && e@ == (EntryView {
                id: id@,
                project: project@,
                tags: opt_tags_view(&tags),
                start: start@,
                end: opt_ts_view(&end),
            }) && e.wf()),
            !is_id_text(id@) ==> r === Err(Error::InvalidId),
    {
        if !id_text_ok(&id) {
            return Err(Error::InvalidId);
        }
        let e = Entry { id, project, tags, start, end };
        proof {
            assert(e@ =~= (EntryView {
                id: e.id@,
                project: e.project@,
                tags: opt_tags_view(&e.tags),
                start: e.start@,
                end: opt_ts_view(&e.end),
            }));
        }
        Ok(e)
    }

    pub fn get_project(&self) -> (r: Project)
        ensures
            r@ == self@.project,
    {
        self.project.clone()
    }

    pub fn get_tags(&self) -> (r: Option<Tags>)
        ensures
            opt_tags_view(&r) == self@.tags,
    {
        match &self.tags {
            Some(t) => Some(t.clone()),
            None => None,
        }
    }

    pub fn get_start(&self) -> (r: Timestamp)
        ensures
            r@ == self@.start,
    {
        self.start
    }

    pub fn get_end(&self) -> (r: Option<Timestamp>)
        ensures
            opt_ts_view(&r) == self@.end,
    {
        self.end
    }

    pub fn get_id(&self) -> (r: String)
        ensures
            r@ == self@.id,
    {
        self.id.clone()
    }

    /// Overwrites the end instant; the sole mutation a stop performs.
    pub fn set_end(&mut self, end: Timestamp)
        requires
            end.wf(),
        ensures
            final(self)@ == (EntryView { end: Some(end@), ..old(self)@ }),
            final(self)@.end is Some,
            old(self).wf() ==> final(self).wf(),
    {
        self.end = Some(end);
        proof {
            assert(self@ =~= (EntryView { end: Some(end@), ..old(self)@ }));
        }
    }

    /// True while the session has no end instant yet.
    pub fn is_running(&self) -> (r: bool)
        ensures
            r == (self@.end is None),
    {
        self.end.is_none()
    }

    /// The session length in whole seconds, negative if the end lies before
    /// the start; fails while the session runs.
    pub fn duration_seconds(&self) -> (r: Result<i64, Error>)
        requires
            self.wf(),
        ensures
            self@.end is None ==> r === Err(Error::MissingEnd),
            self@.end matches Some(e) ==> (r matches Ok(d) && d == e - self@.start),
    {
        match &self.end {
            None => Err(Error::MissingEnd),
            Some(end) => Ok(end.secs() - self.start.secs()),
        }
    }

    /// The session length as zero-padded `HH:MM`; fails while the session
    /// runs.
    pub fn human_duration(&self) -> (r: Result<String, Error>)
        requires
            self.wf(),
        ensures
            self@.end is None ==> r === Err(Error::MissingEnd),
            self@.end matches Some(e) ==> (r matches Ok(s) && s@ == spec_hhmm(e - self@.start)),
    {
        let d = match self.duration_seconds() {
            Err(e) => {
                return Err(e);
            },
            Ok(d) => d,
        };
        let mut out: Vec<char> = Vec::new();
        let nn: i64 = if d < 0 {
            out.push('-');
            -d
        } else {
            d
        };
        push_hhmm(&mut out, nn);
        proof {
            if d < 0 {
                assert(out@ =~= spec_hhmm(d as int));
            }
        }
        Ok(chars_to_string(&out))
    }

    /// The report line for this entry; fails while the session runs.
    pub fn print_report(&self) -> (r: Result<String, Error>)
        requires
            self.wf(),
        ensures
            self@.end is None ==> r === Err(Error::MissingEnd),
            self@.end is Some ==> (r matches Ok(s) && s@ == spec_report_line(self@)),
    {
        if self.end.is_none() {
            return Err(Error::MissingEnd);
        }
        let mut out: Vec<char> = Vec::new();
        out.push('[');
        self.push_tags_text(&mut out);
        out.push(' ');
        out.push(' ');
        out.push(' ');
        let d = match self.duration_seconds() {
            Err(e) => {
                return Err(e);
            },
            Ok(d) => d,
        };
        if d < 0 {
            out.push('-');
            push_hhmm(&mut out, -d);
        } else {
            push_hhmm(&mut out, d);
        }
        out.push(']');
        proof {
            assert(out@ =~= spec_report_line(self@));
        }
        Ok(chars_to_string(&out))
    }

    /// The listing line for this entry.
    pub fn render_line(&self) -> (r: String)
        requires
            self.wf(),
        ensures
            r@ == spec_listing_line(self@),
    {
        let mut out: Vec<char> = Vec::new();
        let id_chars = crate::text::str_to_chars(self.id.as_str());
        let mut i: usize = 0;
        while i < 8
            invariant
                0 <= i <= 8,
                id_chars@ == self@.id,
                self@.id.len() == 32,
                out@ == self@.id.subrange(0, i as int),
            decreases 8 - i,
        {
            out.push(id_chars[i]);
            proof {
                assert(out@ =~= self@.id.subrange(0, i + 1));
            }
            i += 1;
        }
        out.push(' ');
        out.push(' ');
        push_clock_hhmm(&mut out, self.start.secs());
        push_str_chars(&mut out, " to ");
        match &self.end {
            Some(end) => push_clock_hhmm(&mut out, end.secs()),
            None => push_str_chars(&mut out, "now"),
        }
        out.push(' ');
        out.push(' ');
        push_str_chars(&mut out, self.project.value().as_str());
        push_str_chars(&mut out, "    [");
        self.push_tags_text(&mut out);
        out.push(']');
        proof {
            reveal_strlit(" to ");
            reveal_strlit("now");
            reveal_strlit("    [");
            assert(out@ =~= spec_listing_line(self@));
        }
        chars_to_string(&out)
    }

    /// Appends the joined tag texts, or nothing when the entry has no tags.
    fn push_tags_text(&self, out: &mut Vec<char>)
        ensures
            final(out)@ == old(out)@ + spec_tags_text(self@.tags),
    {
        match &self.tags {
            Some(tags) => {
                let text = tags.as_string();
                push_str_chars(out, text.as_str());
            },
            None => {
                proof {
                    assert(out@ =~= old(out)@ + spec_tags_text(self@.tags));
                }
            },
        }
    }
}

/// Checks the identifier shape at run time, for entries rebuilt from text.
fn id_text_ok(id: &String) -> (r: bool)
    ensures
        r == is_id_text(id@),
{
    let v = crate::text::str_to_chars(id.as_str());
    if v.len() != 32 {
        return false;
    }
    let mut i: usize = 0;
    while i < 32
        invariant
            0 <= i <= 32,
            v@ == id@,
            v@.len() == 32,
            forall|j: int| 0 <= j < i ==> crate::ident::is_hex_lower(#[trigger] v@[j]),
        decreases 32 - i,
    {
        let c = v[i];
        if !(('0' <= c && c <= '9') || ('a' <= c && c <= 'f')) {
            return false;
        }
        i += 1;
    }
    true
}

/// Appends the `HH:MM` rendering of a non-negative duration.
fn push_hhmm(out: &mut Vec<char>, d: i64)
    requires
        0 <= d,
    ensures
        final(out)@ == old(out)@ + spec_hhmm_nonneg(d as int),
{
    let hours = d / 3600;
    let minutes = (d % 3600) / 60;
    proof {
        lemma_mod_bound(d as int, 3600);
    }
    if hours < 100 {
        push_two_digits(out, hours as u64);
    } else {
        push_decimal(out, hours as u64);
    }
    out.push(':');
    push_two_digits(out, minutes as u64);
    proof {
        assert(out@ =~= old(out)@ + spec_hhmm_nonneg(d as int));
    }
}

/// Appends the `HH:MM` time of day of an instant.
fn push_clock_hhmm(out: &mut Vec<char>, t: i64)
    requires
        0 <= t,
    ensures
        final(out)@ == old(out)@ + spec_clock_hhmm(t as int),
{
    let of_day = t % 86400;
    proof {
        lemma_mod_bound(t as int, 86400);
        lemma_mod_bound((t as int) % 86400, 3600);
    }
    let h = of_day / 3600;
    let m = (of_day % 3600) / 60;
    push_two_digits(out, h as u64);
    out.push(':');
    push_two_digits(out, m as u64);
    proof {
        assert(out@ =~= old(out)@ + spec_clock_hhmm(t as int));
    }
}

} // verus!
