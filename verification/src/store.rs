//! The ordered entry store: insertion, lookup, mutation by identity, the
//! date-range and project filters, and the laws those filters obey.

use vstd::prelude::*;
use vstd::arithmetic::div_mod::lemma_div_is_ordered;
use crate::entry::{spec_listing_line, Entry, EntryView};
use crate::errors::Error;
use crate::params::{Project, Tags};
use crate::text::{is_char_prefix, string_starts_with};
use crate::time::{Date, Timestamp, MAX_DAY_NUMBER, MAX_EPOCH_SECS};

verus! {

broadcast use vstd::seq_lib::group_filter_ensures;

/// The mathematical values of a sequence of entries.
pub open spec fn views_of(s: Seq<Entry>) -> Seq<EntryView> {
    s.map_values(|e: Entry| e@)
}

/// The listing text of a store: one line per entry, in order.
pub open spec fn spec_log_text(s: Seq<EntryView>) -> Seq<char>
    decreases s.len(),
{
    if s.len() == 0 {
        Seq::empty()
    } else {
        spec_log_text(s.drop_last()) + spec_listing_line(s.last()) + seq!['\n']
    }
}

/// Whether an entry's start day lies in the inclusive day-number range.
pub open spec fn in_date_range(e: EntryView, lo: int, hi: int) -> bool {
    lo <= e.start_day() && e.start_day() <= hi
}

/// The entries whose start day lies in the inclusive day-number range, in
/// order.
pub open spec fn spec_filter_range(s: Seq<EntryView>, lo: int, hi: int) -> Seq<EntryView> {
    s.filter(|e: EntryView| in_date_range(e, lo, hi))
}

/// The entries of the given project, in order.
pub open spec fn spec_filter_project(s: Seq<EntryView>, name: Seq<char>) -> Seq<EntryView> {
    s.filter(|e: EntryView| e.project == name)
}

/// The position of the first entry whose identifier begins with `p`, scanning
/// from `i`.
pub open spec fn spec_first_match(s: Seq<EntryView>, p: Seq<char>, i: int) -> Option<int>
    decreases s.len() - i,
    when i >= 0
{
    if i < 0 || i >= s.len() {
        None
    } else if is_char_prefix(p, s[i].id) {
        Some(i)
    } else {
        spec_first_match(s, p, i + 1)
    }
}

/// The position of the first entry whose identifier equals `id`, scanning
/// from `i`.
pub open spec fn spec_first_id(s: Seq<EntryView>, id: Seq<char>, i: int) -> Option<int>
    decreases s.len() - i,
    when i >= 0
{
    if i < 0 || i >= s.len() {
        None
    } else if s[i].id == id {
        Some(i)
    } else {
        spec_first_id(s, id, i + 1)
    }
}

/// A sequence whose elements all satisfy a predicate filters to itself.
proof fn lemma_filter_all<A>(s: Seq<A>, pred: spec_fn(A) -> bool)
    requires
        forall|i: int| 0 <= i < s.len() ==> pred(#[trigger] s[i]),
    ensures
        s.filter(pred) == s,
    decreases s.len(),
{
    reveal(Seq::filter);
    if s.len() > 0 {
        assert(forall|i: int| 0 <= i < s.drop_last().len() ==> pred(#[trigger] s.drop_last()[i]));
        lemma_filter_all(s.drop_last(), pred);
        assert(s.filter(pred) =~= s);
    }
}

/// Filtering by a date range twice with the same bounds changes nothing after
/// the first time.
pub proof fn lemma_date_filter_idempotent(s: Seq<EntryView>, lo: int, hi: int)
    ensures
        spec_filter_range(spec_filter_range(s, lo, hi), lo, hi) == spec_filter_range(s, lo, hi),
{
    let pred = |e: EntryView| in_date_range(e, lo, hi);
    let once = s.filter(pred);
    assert(forall|i: int| 0 <= i < once.len() ==> pred(#[trigger] once[i]));
    lemma_filter_all(once, pred);
}

/// Filtering by the default bounds — 1970-01-01 through 9999-12-31 — keeps
/// every valid entry: the filter is the identity.
pub proof fn lemma_date_filter_no_bounds(s: Seq<EntryView>)
    requires
        forall|i: int| 0 <= i < s.len() ==> (#[trigger] s[i]).wf(),
    ensures
        spec_filter_range(s, 0, MAX_DAY_NUMBER as int) == s,
{
    let pred = |e: EntryView| in_date_range(e, 0, MAX_DAY_NUMBER as int);
    assert forall|i: int| 0 <= i < s.len() implies pred(#[trigger] s[i]) by {
        lemma_div_is_ordered(0, s[i].start, 86400);
        lemma_div_is_ordered(s[i].start, MAX_EPOCH_SECS as int, 86400);
    };
    lemma_filter_all(s, pred);
}

/// On a store with distinct, well-formed identifiers, looking an entry up by
/// its own full identifier finds exactly that entry.
pub proof fn lemma_full_id_lookup(s: Seq<EntryView>, ix: int)
    requires
        0 <= ix < s.len(),
        forall|i: int| 0 <= i < s.len() ==> (#[trigger] s[i]).wf(),
        forall|i: int, j: int| 0 <= i < j < s.len() ==> s[i].id != s[j].id,
    ensures
        spec_first_match(s, s[ix].id, 0) == Some(ix),
{
    lemma_full_id_lookup_from(s, ix, 0);
}

proof fn lemma_full_id_lookup_from(s: Seq<EntryView>, ix: int, j: int)
    requires
        0 <= j <= ix < s.len(),
        forall|i: int| 0 <= i < s.len() ==> (#[trigger] s[i]).wf(),
        forall|i: int, k: int| 0 <= i < k < s.len() ==> s[i].id != s[k].id,
    ensures
        spec_first_match(s, s[ix].id, j) == Some(ix),
    decreases ix - j,
{
    let p = s[ix].id;
    if j == ix {
        assert(p.subrange(0, p.len() as int) =~= p);
        assert(is_char_prefix(p, s[ix].id));
    } else {
        // An identifier of the same length that starts with `p` is `p`, and
        // identifiers are distinct, so entry `j` does not match.
        assert(s[j].id.len() == p.len());
        if is_char_prefix(p, s[j].id) {
            assert(s[j].id.subrange(0, p.len() as int) =~= s[j].id);
            assert(s[j].id == p);
            assert(false);
        }
        lemma_full_id_lookup_from(s, ix, j + 1);
    }
}

/// The ordered store of entries: insertion order preserved, no deduplication.
#[derive(Debug, PartialEq)]
pub struct Entries {
    entries: Vec<Entry>,
}

impl View for Entries {
    type V = Seq<EntryView>;

    closed spec fn view(&self) -> Seq<EntryView> {
        views_of(self.entries@)
    }
}

impl Default for Entries {
    /// The empty store.
    fn default() -> (r: Self)
        ensures
            r@ == Seq::<EntryView>::empty(),
    {
        let r = Entries { entries: Vec::new() };
        proof {
            assert(r@ =~= Seq::<EntryView>::empty());
        }
        r
    }
}

impl Clone for Entries {
    fn clone(&self) -> (r: Self)
        ensures
            r@ == self@,
    {
        Entries { entries: clone_entries(&self.entries) }
    }
}

/// Clones a vector of entries, keeping every value.
fn clone_entries(entries: &Vec<Entry>) -> (r: Vec<Entry>)
    ensures
        views_of(r@) == views_of(entries@),
{
    let mut out: Vec<Entry> = Vec::new();
    let mut i: usize = 0;
    let n = entries.len();
    while i < n
        invariant
            0 <= i <= n,
            n == entries@.len(),
            views_of(out@) == views_of(entries@).take(i as int),
        decreases n - i,
    {
        let cloned = entries[i].clone();
        let ghost prev = out@;
        out.push(cloned);
        proof {
            assert(views_of(prev).len() == prev.len());
            assert(prev.len() == i as int);
            assert(out@ == prev.push(cloned));
            assert(views_of(out@) =~= views_of(entries@).take(i + 1));
        }
        i += 1;
    }
    proof {
        assert(views_of(entries@).take(n as int) =~= views_of(entries@));
    }
    out
}

impl Entries {
    /// Validity of a store: every entry is valid.
    pub open spec fn wf(&self) -> bool {
        forall|i: int| 0 <= i < self@.len() ==> (#[trigger] self@[i]).wf()
    }

    pub fn len(&self) -> (r: usize)
        ensures
            r == self@.len(),
    {
        self.entries.len()
    }

    /// The entry at position `i`.
    pub fn get(&self, i: usize) -> (r: &Entry)
        requires
            i < self@.len(),
        ensures
            r@ == self@[i as int],
    {
        &self.entries[i]
    }

    /// Appends an entry; no uniqueness check is performed.
    pub fn push(&mut self, entry: Entry)
        ensures
            final(self)@ == old(self)@.push(entry@),
            old(self).wf() && entry.wf() ==> final(self).wf(),
    {
        self.entries.push(entry);
        proof {
            assert(self@ =~= old(self)@.push(self.entries@.last()@));
        }
    }

    /// A copy of every entry, in order.
    pub fn get_entries(&self) -> (r: Vec<Entry>)
        ensures
            views_of(r@) == self@,
    {
        clone_entries(&self.entries)
    }

    /// The last entry by insertion order, if any.
    pub fn get_last(&self) -> (r: Option<&Entry>)
        ensures
            self@.len() == 0 ==> r is None,
            self@.len() > 0 ==> (r matches Some(e) && e@ == self@.last()),
    {
        let n = self.entries.len();
        if n == 0 {
            None
        } else {
            Some(&self.entries[n - 1])
        }
    }

    /// Ends the last entry at the given instant; does nothing on an empty
    /// store. The sole mutation path a stop uses.
    pub fn set_last_end(&mut self, end: Timestamp)
        requires
            end.wf(),
        ensures
            old(self)@.len() == 0 ==> final(self)@ == old(self)@,
            old(self)@.len() > 0 ==> final(self)@ == old(self)@.update(
                old(self)@.len() - 1,
                EntryView { end: Some(end@), ..old(self)@.last() },
            ),
            old(self).wf() ==> final(self).wf(),
    {
        let n = self.entries.len();
        if n == 0 {
            return ;
        }
        let last = &mut self.entries[n - 1];
        last.set_end(end);
        proof {
            assert(self@ =~= old(self)@.update(
                old(self)@.len() - 1,
                EntryView { end: Some(end@), ..old(self)@.last() },
            ));
        }
    }

    /// The entries whose start date lies between the two dates, both ends
    /// inclusive; the receiver is unchanged.
    pub fn get_in_range(&self, from: &Date, to: &Date) -> (r: Entries)
        requires
            self.wf(),
            from.wf(),
            to.wf(),
        ensures
            r@ == spec_filter_range(self@, from.spec_day_number(), to.spec_day_number()),
            r.wf(),
    {
        let ghost lo = from.spec_day_number();
        let ghost hi = to.spec_day_number();
        let ghost pred = |e: EntryView| in_date_range(e, lo, hi);
        let lo_day = from.to_day_number();
        let hi_day = to.to_day_number();
        let mut out: Vec<Entry> = Vec::new();
        let mut i: usize = 0;
        let n = self.entries.len();
        proof {
            reveal(Seq::filter);
            assert(views_of(out@) =~= self@.take(0).filter(pred));
        }
        while i < n
            invariant
                0 <= i <= n,
                n == self@.len(),
                self.wf(),
                lo == from.spec_day_number(),
                hi == to.spec_day_number(),
                lo_day == lo,
                hi_day == hi,
                pred == (|e: EntryView| in_date_range(e, lo, hi)),
                self@ == views_of(self.entries@),
                views_of(out@) == self@.take(i as int).filter(pred),
                forall|k: int| 0 <= k < out@.len() ==> (#[trigger] out@[k])@.wf(),
            decreases n - i,
        {
            let entry = &self.entries[i];
            proof {
                assert(entry@ == self@[i as int]);
                assert(self@[i as int].wf());
            }
            let day = entry.get_start().day();
            proof {
                reveal(Seq::filter);
                assert(self@.take(i + 1).drop_last() =~= self@.take(i as int));
            }
            if lo_day <= day && day <= hi_day {
                out.push(entry.clone());
                proof {
                    assert(views_of(out@) =~= self@.take(i as int).filter(pred).push(
                        self@[i as int],
                    ));
                }
            }
            i += 1;
        }
        proof {
            assert(self@.take(n as int) =~= self@);
        }
        let r = Entries { entries: out };
        proof {
            assert(r@ =~= spec_filter_range(self@, lo, hi));
        }
        r
    }

    /// The entries whose project equals the given one; the receiver is
    /// unchanged.
    pub fn filter_by_project(&self, project: Project) -> (r: Entries)
        requires
            self.wf(),
        ensures
            r@ == spec_filter_project(self@, project@),
            r.wf(),
    {
        let ghost name = project@;
        let ghost pred = |e: EntryView| e.project == name;
        let mut out: Vec<Entry> = Vec::new();
        let mut i: usize = 0;
        let n = self.entries.len();
        proof {
            reveal(Seq::filter);
            assert(views_of(out@) =~= self@.take(0).filter(pred));
        }
        while i < n
            invariant
                0 <= i <= n,
                n == self@.len(),
                self.wf(),
                name == project@,
                pred == (|e: EntryView| e.project == name),
                self@ == views_of(self.entries@),
                views_of(out@) == self@.take(i as int).filter(pred),
                forall|k: int| 0 <= k < out@.len() ==> (#[trigger] out@[k])@.wf(),
            decreases n - i,
        {
            let entry = &self.entries[i];
            proof {
                assert(entry@ == self@[i as int]);
                reveal(Seq::filter);
                assert(self@.take(i + 1).drop_last() =~= self@.take(i as int));
            }
            if entry.get_project().same_as(&project) {
                out.push(entry.clone());
                proof {
                    assert(views_of(out@) =~= self@.take(i as int).filter(pred).push(
                        self@[i as int],
                    ));
                }
            }
            i += 1;
        }
        proof {
            assert(self@.take(n as int) =~= self@);
        }
        let r = Entries { entries: out };
        proof {
            assert(r@ =~= spec_filter_project(self@, name));
        }
        r
    }

    /// The single project all entries share. Fails on an empty store and on a
    /// store spanning two or more distinct projects.
    pub fn get_unique_project(&self) -> (r: Result<Project, Error>)
        ensures
            (self@.len() > 0 && forall|i: int|
                0 <= i < self@.len() ==> (#[trigger] self@[i]).project == self@[0].project) <==> r
                is Ok,
            r matches Ok(p) ==> p@ == self@[0].project,
            r is Err ==> r === Err(Error::AmbiguousProjects),
    {
        let n = self.entries.len();
        if n == 0 {
            return Err(Error::AmbiguousProjects);
        }
        let first = self.entries[0].get_project();
        let mut i: usize = 1;
        while i < n
            invariant
                1 <= i <= n,
                n == self@.len(),
                first@ == self@[0].project,
                self@ == views_of(self.entries@),
                forall|k: int| 0 <= k < i ==> (#[trigger] self@[k]).project == self@[0].project,
            decreases n - i,
        {
            let entry = &self.entries[i];
            proof {
                assert(entry@ == self@[i as int]);
            }
            if !entry.get_project().same_as(&first) {
                proof {
                    assert(self@[i as int].project != self@[0].project);
                }
                return Err(Error::AmbiguousProjects);
            }
            i += 1;
        }
        Ok(first)
    }

    /// The first entry whose identifier begins with the given prefix; fails
    /// `NotFound` when no identifier matches.
    pub fn get_by_hash(&self, hash: &str) -> (r: Result<Entry, Error>)
        ensures
            spec_first_match(self@, hash@, 0) matches Some(ix) ==> (r matches Ok(e) && e@
                == self@[ix]),
            spec_first_match(self@, hash@, 0) is None ==> r === Err(Error::NotFound),
            (r is Err) <==> (forall|i: int|
                0 <= i < self@.len() ==> !is_char_prefix(hash@, (#[trigger] self@[i]).id)),
    {
        let n = self.entries.len();
        let mut i: usize = 0;
        while i < n
            invariant
                0 <= i <= n,
                n == self@.len(),
                self@ == views_of(self.entries@),
                spec_first_match(self@, hash@, 0) == spec_first_match(self@, hash@, i as int),
                forall|k: int| 0 <= k < i ==> !is_char_prefix(hash@, (#[trigger] self@[k]).id),
            decreases n - i,
        {
            let entry = &self.entries[i];
            proof {
                assert(entry@ == self@[i as int]);
            }
            let id = entry.get_id();
            if string_starts_with(id.as_str(), hash) {
                return Ok(entry.clone());
            }
            proof {
                assert(spec_first_match(self@, hash@, i as int) == spec_first_match(
                    self@,
                    hash@,
                    i + 1,
                ));
            }
            i += 1;
        }
        Err(Error::NotFound)
    }

    /// Replaces the stored entry whose identifier equals the given entry's;
    /// fails `NotFound` when no identifier matches.
    pub fn update(&mut self, entry: Entry) -> (r: Result<(), Error>)
        ensures
            spec_first_id(old(self)@, entry@.id, 0) matches Some(ix) ==> (r is Ok && final(self)@
                == old(self)@.update(ix, entry@)),
            spec_first_id(old(self)@, entry@.id, 0) is None ==> (r === Err(Error::NotFound)
                && final(self)@ == old(self)@),
            old(self).wf() && entry.wf() ==> final(self).wf(),
    {
        let n = self.entries.len();
        let mut i: usize = 0;
        let id = entry.get_id();
        while i < n
            invariant
                0 <= i <= n,
                n == self@.len(),
                self@ == views_of(self.entries@),
                self@ == old(self)@,
                id@ == entry@.id,
                spec_first_id(old(self)@, entry@.id, 0) == spec_first_id(
                    old(self)@,
                    entry@.id,
                    i as int,
                ),
            decreases n - i,
        {
            let stored = &self.entries[i];
            proof {
                assert(stored@ == self@[i as int]);
            }
            let stored_id = stored.get_id();
            if stored_id == id {
                self.entries[i] = entry;
                proof {
                    assert(self@ =~= old(self)@.update(i as int, self.entries@[i as int]@));
                }
                return Ok(());
            }
            proof {
                assert(spec_first_id(old(self)@, entry@.id, i as int) == spec_first_id(
                    old(self)@,
                    entry@.id,
                    i + 1,
                ));
            }
            i += 1;
        }
        Err(Error::NotFound)
    }

    /// Begins a session: ends a still-running last entry at the given
    /// instant, then appends a fresh running entry.
    pub fn start_session(&mut self, project: Project, tags: Option<Tags>, at: Timestamp)
        requires
            project.wf(),
            tags matches Some(t) ==> t.wf(),
            at.wf(),
            old(self).wf(),
        ensures
            final(self)@.len() == old(self)@.len() + 1,
            ({
                let added = final(self)@.last();
                &&& added.project == project@
                &&& added.tags == crate::entry::opt_tags_view(&tags)
                &&& added.start == at@
                &&& added.end is None
            }),
            (old(self)@.len() == 0 || old(self)@.last().end is Some) ==> final(self)@.drop_last()
                == old(self)@,
            (old(self)@.len() > 0 && old(self)@.last().end is None) ==> final(self)@.drop_last()
                == old(self)@.update(
                old(self)@.len() - 1,
                EntryView { end: Some(at@), ..old(self)@.last() },
            ),
            final(self).wf(),
    {
        let running = match self.get_last() {
            Some(last) => last.is_running(),
            None => false,
        };
        if running {
            self.set_last_end(at);
        }
        let entry = Entry::new(project, tags, at, None);
        self.push(entry);
        proof {
            if old(self)@.len() == 0 || old(self)@.last().end is Some {
                assert(self@.drop_last() =~= old(self)@);
            } else {
                assert(self@.drop_last() =~= old(self)@.update(
                    old(self)@.len() - 1,
                    EntryView { end: Some(at@), ..old(self)@.last() },
                ));
            }
        }
    }

    /// Groups this store by project, one group per distinct project in
    /// order of first appearance; report grouping always runs on an already
    /// filtered store.
    pub fn report(&self) -> (r: crate::report::Report)
        requires
            self.wf(),
        ensures
            ({
                let names = crate::report::spec_distinct_projects(self@);
                &&& r.groups().len() == names.len()
                &&& forall|k: int|
                    0 <= k < names.len() ==> (#[trigger] r.groups()[k]).0 == names[k]
                        && r.groups()[k].1 == spec_filter_project(self@, names[k])
            }),
            r.wf(),
    {
        crate::report::Report::build(self)
    }

    /// The listing of the whole store: one line per entry, in order.
    pub fn render_log(&self) -> (r: String)
        requires
            self.wf(),
        ensures
            r@ == spec_log_text(self@),
    {
        let mut out: Vec<char> = Vec::new();
        let n = self.entries.len();
        let mut i: usize = 0;
        proof {
            assert(out@ =~= spec_log_text(self@.take(0)));
        }
        while i < n
            invariant
                0 <= i <= n,
                n == self@.len(),
                self.wf(),
                self@ == views_of(self.entries@),
                out@ == spec_log_text(self@.take(i as int)),
            decreases n - i,
        {
            let entry = &self.entries[i];
            proof {
                assert(entry@ == self@[i as int]);
                assert(self@[i as int].wf());
            }
            let line = entry.render_line();
            crate::text::push_str_chars(&mut out, line.as_str());
            out.push('\n');
            proof {
                assert(self@.take(i + 1).drop_last() =~= self@.take(i as int));
                assert(self@.take(i + 1).last() == self@[i as int]);
                assert(out@ =~= spec_log_text(self@.take(i + 1)));
            }
            i += 1;
        }
        proof {
            assert(self@.take(n as int) =~= self@);
        }
        crate::text::chars_to_string(&out)
    }
}

} // verus!
