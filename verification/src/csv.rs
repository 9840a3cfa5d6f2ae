//! Tabular export of a store.

use vstd::prelude::*;
use crate::entry::{spec_tags_text, EntryView};
use crate::store::Entries;
use crate::text::{chars_to_string, dec_rep, push_decimal, push_str_chars};

verus! {

/// Whether a cell needs quoting: it holds a comma, a quote, or a line break.
pub open spec fn spec_needs_quote(s: Seq<char>) -> bool {
    exists|i: int|
        0 <= i < s.len() && ((#[trigger] s[i]) == ',' || s[i] == '"' || s[i] == '\n' || s[i]
            == '\r')
}

/// Cell text with every quote doubled.
pub open spec fn spec_doubled(s: Seq<char>) -> Seq<char>
    decreases s.len(),
{
    if s.len() == 0 {
        Seq::empty()
    } else {
        (if s[0] == '"' {
            seq!['"', '"']
        } else {
            seq![s[0]]
        }) + spec_doubled(s.drop_first())
    }
}

/// A written cell: quoted with doubled quotes when needed, bare otherwise.
pub open spec fn spec_csv_field(s: Seq<char>) -> Seq<char> {
    if spec_needs_quote(s) {
        seq!['"'] + spec_doubled(s) + seq!['"']
    } else {
        s
    }
}

/// One row: the entry's fields in declaration order, instants written as
/// seconds since the epoch, an empty cell for a running entry's end.
pub open spec fn spec_csv_line(e: EntryView) -> Seq<char> {
    spec_csv_field(e.id) + seq![','] + spec_csv_field(e.project) + seq![','] + spec_csv_field(
        spec_tags_text(e.tags),
    ) + seq![','] + dec_rep(e.start as nat) + seq![','] + (match e.end {
        Some(t) => dec_rep(t as nat),
        None => Seq::empty(),
    }) + seq!['\n']
}

/// The rows of a store, in order.
pub open spec fn spec_csv_rows(s: Seq<EntryView>) -> Seq<char>
    decreases s.len(),
{
    if s.len() == 0 {
        Seq::empty()
    } else {
        spec_csv_rows(s.drop_last()) + spec_csv_line(s.last())
    }
}

/// A whole export: one header row, then one row per entry.
pub open spec fn spec_csv_text(s: Seq<EntryView>) -> Seq<char> {
    "id,project,tags,start,end\n"@ + spec_csv_rows(s)
}

proof fn lemma_doubled_add(a: Seq<char>, b: Seq<char>)
    ensures
        spec_doubled(a + b) == spec_doubled(a) + spec_doubled(b),
    decreases a.len(),
{
    if a.len() == 0 {
        assert(a + b =~= b);
        assert(spec_doubled(a) + spec_doubled(b) =~= spec_doubled(b));
    } else {
        assert((a + b).drop_first() =~= a.drop_first() + b);
        lemma_doubled_add(a.drop_first(), b);
        assert(spec_doubled(a + b) =~= spec_doubled(a) + spec_doubled(b));
    }
}

/// Appends one written cell.
fn push_csv_field(out: &mut Vec<char>, s: &str)
    ensures
        final(out)@ == old(out)@ + spec_csv_field(s@),
{
    let v = crate::text::str_to_chars(s);
    let n = v.len();
    let mut quote = false;
    let mut i: usize = 0;
    while i < n
        invariant
            0 <= i <= n,
            n == s@.len(),
            v@ == s@,
            quote ==> spec_needs_quote(s@),
            !quote ==> forall|q: int|
                0 <= q < i ==> !((#[trigger] s@[q]) == ',' || s@[q] == '"' || s@[q] == '\n'
                    || s@[q] == '\r'),
        decreases n - i,
    {
        let c = v[i];
        if c == ',' || c == '"' || c == '\n' || c == '\r' {
            quote = true;
        }
        i += 1;
    }
    if !quote {
        proof {
            assert(!spec_needs_quote(s@));
        }
        push_str_chars(out, s);
        return ;
    }
    out.push('"');
    let mut k: usize = 0;
    proof {
        assert(out@ =~= old(out)@ + seq!['"'] + spec_doubled(s@.take(0)));
    }
    while k < n
        invariant
            0 <= k <= n,
            n == s@.len(),
            v@ == s@,
            quote,
            spec_needs_quote(s@),
            out@ == old(out)@ + seq!['"'] + spec_doubled(s@.take(k as int)),
        decreases n - k,
    {
        let c = v[k];
        if c == '"' {
            out.push('"');
            out.push('"');
        } else {
            out.push(c);
        }
        proof {
            assert(s@.take(k + 1) =~= s@.take(k as int) + seq![s@[k as int]]);
            lemma_doubled_add(s@.take(k as int), seq![s@[k as int]]);
            assert(seq![s@[k as int]].drop_first() =~= Seq::<char>::empty());
            assert(spec_doubled(Seq::<char>::empty()) =~= Seq::<char>::empty());
            assert(spec_doubled(seq![s@[k as int]]) =~= (if s@[k as int] == '"' {
                seq!['"', '"']
            } else {
                seq![s@[k as int]]
            }));
            assert(out@ =~= old(out)@ + seq!['"'] + spec_doubled(s@.take(k + 1)));
        }
        k += 1;
    }
    proof {
        assert(s@.take(n as int) =~= s@);
    }
    out.push('"');
    proof {
        assert(out@ =~= old(out)@ + spec_csv_field(s@));
    }
}

/// The tabular exporter: one header row, one row per entry.
pub struct CsvExporter;

impl CsvExporter {
    /// Writes the given (already filtered) store as CSV text.
    pub fn render(entries: &Entries) -> (r: String)
        requires
            entries.wf(),
        ensures
            r@ == spec_csv_text(entries@),
    {
        let mut out: Vec<char> = Vec::new();
        push_str_chars(&mut out, "id,project,tags,start,end\n");
        let n = entries.len();
        let mut i: usize = 0;
        proof {
            assert(spec_csv_rows(entries@.take(0)) =~= Seq::<char>::empty());
            assert(out@ =~= spec_csv_text(entries@.take(0)));
        }
        while i < n
            invariant
                0 <= i <= n,
                n == entries@.len(),
                entries.wf(),
                out@ == spec_csv_text(entries@.take(i as int)),
            decreases n - i,
        {
            let entry = entries.get(i);
            proof {
                assert(entry@ == entries@[i as int]);
                assert(entries@[i as int].wf());
            }
            let id = entry.get_id();
            push_csv_field(&mut out, id.as_str());
            out.push(',');
            let project = entry.get_project();
            push_csv_field(&mut out, project.value().as_str());
            out.push(',');
            let tags_text = match entry.get_tags() {
                Some(tags) => tags.as_string(),
                None => String::new(),
            };
            push_csv_field(&mut out, tags_text.as_str());
            out.push(',');
            push_decimal(&mut out, entry.get_start().secs() as u64);
            out.push(',');
            match entry.get_end() {
                Some(end) => push_decimal(&mut out, end.secs() as u64),
                None => {},
            }
            out.push('\n');
            proof {
                assert(entries@.take(i + 1).drop_last() =~= entries@.take(i as int));
                assert(entries@.take(i + 1).last() == entries@[i as int]);
                assert(out@ =~= spec_csv_text(entries@.take(i + 1)));
            }
            i += 1;
        }
        proof {
            assert(entries@.take(n as int) =~= entries@);
        }
        chars_to_string(&out)
    }
}

} // verus!
