//! Per-project grouping of a store and the rendered duration summaries.

use vstd::prelude::*;
use crate::entry::{spec_report_line, spec_tags_text, EntryView};
use crate::errors::Error;
use crate::params::Project;
use crate::store::{spec_filter_project, Entries};

use crate::text::{chars_to_string, push_str_chars};

verus! {

/// The distinct project names of a store, each at its first appearance, in
/// order of first appearance.
pub open spec fn spec_distinct_projects(s: Seq<EntryView>) -> Seq<Seq<char>>
    decreases s.len(),
{
    if s.len() == 0 {
        Seq::empty()
    } else {
        let rest = spec_distinct_projects(s.drop_last());
        if rest.contains(s.last().project) {
            rest
        } else {
            rest.push(s.last().project)
        }
    }
}

/// The report text of one entry: indented, the tag-and-duration line, or the
/// tag list alone when the entry is still running.
pub open spec fn spec_entry_report_text(e: EntryView) -> Seq<char> {
    seq![' ', ' ', ' '] + (if e.end is Some {
        spec_report_line(e)
    } else {
        seq!['['] + spec_tags_text(e.tags) + seq![']']
    }) + seq!['\n']
}

/// The report text of a group's entries, in order.
pub open spec fn spec_entries_report_text(es: Seq<EntryView>) -> Seq<char>
    decreases es.len(),
{
    if es.len() == 0 {
        Seq::empty()
    } else {
        spec_entries_report_text(es.drop_last()) + spec_entry_report_text(es.last())
    }
}

/// The report text of one group: the project name as a header line, the
/// entries, and a blank line.
pub open spec fn spec_group_text(name: Seq<char>, es: Seq<EntryView>) -> Seq<char> {
    name + seq!['\n'] + spec_entries_report_text(es) + seq!['\n']
}

/// The report text of a sequence of groups.
pub open spec fn spec_report_text(groups: Seq<(Seq<char>, Seq<EntryView>)>) -> Seq<char>
    decreases groups.len(),
{
    if groups.len() == 0 {
        Seq::empty()
    } else {
        spec_report_text(groups.drop_last()) + spec_group_text(
            groups.last().0,
            groups.last().1,
        )
    }
}

/// One report group: a project name and that project's entries.
#[derive(Debug)]
pub struct ProjectEntry {
    name: String,
    entries: Entries,
}

/// The mathematical values of a sequence of report groups.
pub open spec fn groups_of(s: Seq<ProjectEntry>) -> Seq<(Seq<char>, Seq<EntryView>)> {
    s.map_values(|g: ProjectEntry| (g.name_view(), g.entries_view()))
}

impl ProjectEntry {
    pub closed spec fn name_view(&self) -> Seq<char> {
        self.name@
    }

    pub closed spec fn entries_view(&self) -> Seq<EntryView> {
        self.entries@
    }

    pub open spec fn wf(&self) -> bool {
        forall|i: int| 0 <= i < self.entries_view().len() ==> (#[trigger] self.entries_view()[i]).wf()
    }

    /// Wraps a named group of entries.
    pub fn new(name: String, entries: Entries) -> (r: ProjectEntry)
        ensures
            r.name_view() == name@,
            r.entries_view() == entries@,
    {
        ProjectEntry { name, entries }
    }

    /// Builds the group of a single-project store, named after that project;
    /// fails when the store does not span exactly one project.
    pub fn from_entries(entries: Entries) -> (r: Result<ProjectEntry, Error>)
        ensures
            (entries@.len() > 0 && forall|i: int|
                0 <= i < entries@.len() ==> (#[trigger] entries@[i]).project
                    == entries@[0].project) <==> r is Ok,
            r matches Ok(g) ==> (g.name_view() == entries@[0].project && g.entries_view()
                == entries@),
            r is Err ==> r === Err(Error::AmbiguousProjects),
    {
        let project = match entries.get_unique_project() {
            Ok(p) => p,
            Err(e) => {
                return Err(e);
            },
        };
        let name = project.value().clone();
        Ok(ProjectEntry { name, entries })
    }

    pub fn name(&self) -> (r: &String)
        ensures
            r@ == self.name_view(),
    {
        &self.name
    }

    pub fn entries(&self) -> (r: &Entries)
        ensures
            r@ == self.entries_view(),
    {
        &self.entries
    }
}

/// A derived, read-only view of a store: one group per project, built fresh
/// per request and never persisted.
#[derive(Debug)]
pub struct Report {
    projects: Vec<ProjectEntry>,
}

impl Report {
    pub closed spec fn groups(&self) -> Seq<(Seq<char>, Seq<EntryView>)> {
        groups_of(self.projects@)
    }

    pub open spec fn wf(&self) -> bool {
        forall|k: int, i: int|
            0 <= k < self.groups().len() && 0 <= i < self.groups()[k].1.len() ==> (
            #[trigger] self.groups()[k].1[i]).wf()
    }

    /// Wraps an already-built sequence of groups.
    pub fn new(projects: Vec<ProjectEntry>) -> (r: Report)
        ensures
            r.groups() == groups_of(projects@),
    {
        Report { projects }
    }

    pub fn len(&self) -> (r: usize)
        ensures
            r == self.groups().len(),
    {
        self.projects.len()
    }

    /// The group at position `k`.
    pub fn get(&self, k: usize) -> (r: &ProjectEntry)
        requires
            k < self.groups().len(),
        ensures
            r.name_view() == self.groups()[k as int].0,
            r.entries_view() == self.groups()[k as int].1,
    {
        &self.projects[k]
    }

    /// Groups a store by project: one group per distinct project, in order of
    /// first appearance, each holding exactly that project's entries.
    pub fn build(entries: &Entries) -> (r: Report)
        requires
            entries.wf(),
        ensures
            ({
                let names = spec_distinct_projects(entries@);
                &&& r.groups().len() == names.len()
                &&& forall|k: int|
                    0 <= k < names.len() ==> (#[trigger] r.groups()[k]).0 == names[k]
                        && r.groups()[k].1 == spec_filter_project(entries@, names[k])
            }),
            r.wf(),
    {
        let ghost names = spec_distinct_projects(entries@);
        let mut seen: Vec<Project> = Vec::new();
        let mut groups: Vec<ProjectEntry> = Vec::new();
        let n = entries.len();
        let mut i: usize = 0;
        proof {
            assert(seen@.map_values(|p: Project| p@) =~= spec_distinct_projects(entries@.take(0)));
        }
        while i < n
            invariant
                0 <= i <= n,
                n == entries@.len(),
                entries.wf(),
                names == spec_distinct_projects(entries@),
                seen@.map_values(|p: Project| p@) == spec_distinct_projects(
                    entries@.take(i as int),
                ),
                groups_of(groups@).len() == seen@.len(),
                forall|k: int|
                    0 <= k < seen@.len() ==> (#[trigger] groups_of(groups@)[k]).0 == seen@.map_values(
                        |p: Project| p@,
                    )[k] && groups_of(groups@)[k].1 == spec_filter_project(
                        entries@,
                        seen@.map_values(|p: Project| p@)[k],
                    ),
                forall|k: int| 0 <= k < groups@.len() ==> (#[trigger] groups@[k]).wf(),
            decreases n - i,
        {
            let entry = entries.get(i);
            let project = entry.get_project();
            let mut found = false;
            let mut j: usize = 0;
            let m = seen.len();
            while j < m && !found
                invariant
                    0 <= j <= m,
                    m == seen@.len(),
                    project@ == entries@[i as int].project,
                    !found ==> forall|k: int| 0 <= k < j ==> (#[trigger] seen@[k])@ != project@,
                    found ==> seen@.map_values(|p: Project| p@).contains(project@),
                decreases m - j + (if found {
                    0int
                } else {
                    1int
                }),
            {
                if seen[j].same_as(&project) {
                    found = true;
                    proof {
                        assert(seen@.map_values(|p: Project| p@)[j as int] == project@);
                    }
                } else {
                    j += 1;
                }
            }
            proof {
                assert(entries@.take(i + 1).drop_last() =~= entries@.take(i as int));
                assert(entries@.take(i + 1).last() == entries@[i as int]);
                if !found {
                    let sn = seen@.map_values(|p: Project| p@);
                    if sn.contains(project@) {
                        let j = choose|j: int| 0 <= j < sn.len() && sn[j] == project@;
                        assert((seen@[j])@ != project@);
                        assert(false);
                    }
                }
            }
            if !found {
                let group_entries = entries.filter_by_project(project.clone());
                let name = project.value().clone();
                let group = ProjectEntry { name, entries: group_entries };
                let ghost prev_seen = seen@;
                let ghost prev_groups = groups@;
                seen.push(project);
                groups.push(group);
                proof {
                    assert(seen@.map_values(|p: Project| p@) =~= prev_seen.map_values(
                        |p: Project| p@,
                    ).push(entries@[i as int].project));
                    assert(groups_of(groups@) =~= groups_of(prev_groups).push(
                        (entries@[i as int].project, spec_filter_project(
                            entries@,
                            entries@[i as int].project,
                        )),
                    ));
                }
            }
            i += 1;
        }
        proof {
            assert(entries@.take(n as int) =~= entries@);
        }
        let r = Report { projects: groups };
        proof {
            assert forall|k: int, i2: int|
                0 <= k < r.groups().len() && 0 <= i2 < r.groups()[k].1.len() implies (
            #[trigger] r.groups()[k].1[i2]).wf() by {
                assert((groups@[k]).wf());
            };
        }
        r
    }

    /// The rendered report: per group, the project name as a header line,
    /// then each entry's tag-and-duration line (the tag list alone for a
    /// still-running entry), then a blank line.
    pub fn render(&self) -> (r: String)
        requires
            self.wf(),
        ensures
            r@ == spec_report_text(self.groups()),
    {
        let mut out: Vec<char> = Vec::new();
        let n = self.projects.len();
        let mut k: usize = 0;
        proof {
            assert(out@ =~= spec_report_text(self.groups().take(0)));
        }
        while k < n
            invariant
                0 <= k <= n,
                n == self.groups().len(),
                self.wf(),
                out@ == spec_report_text(self.groups().take(k as int)),
            decreases n - k,
        {
            let group = &self.projects[k];
            proof {
                assert(group.name_view() == self.groups()[k as int].0);
                assert(group.entries_view() == self.groups()[k as int].1);
            }
            push_str_chars(&mut out, group.name.as_str());
            out.push('\n');
            let m = group.entries.len();
            let mut i: usize = 0;
            let ghost es = group.entries_view();
            proof {
                assert(spec_entries_report_text(es.take(0)) =~= Seq::<char>::empty());
            }
            let mut body: Vec<char> = Vec::new();
            while i < m
                invariant
                    0 <= i <= m,
                    m == es.len(),
                    es == group.entries@,
                    forall|q: int| 0 <= q < es.len() ==> (#[trigger] es[q]).wf(),
                    body@ == spec_entries_report_text(es.take(i as int)),
                decreases m - i,
            {
                let entry = group.entries.get(i);
                body.push(' ');
                body.push(' ');
                body.push(' ');
                match entry.print_report() {
                    Ok(line) => {
                        push_str_chars(&mut body, line.as_str());
                    },
                    Err(_) => {
                        // A running entry: fall back to the tag list alone.
                        body.push('[');
                        let tag_text = match entry.get_tags() {
                            Some(tags) => tags.as_string(),
                            None => String::new(),
                        };
                        push_str_chars(&mut body, tag_text.as_str());
                        body.push(']');
                    },
                }
                body.push('\n');
                proof {
                    assert(es.take(i + 1).drop_last() =~= es.take(i as int));
                    assert(es.take(i + 1).last() == es[i as int]);
                    assert(body@ =~= spec_entries_report_text(es.take(i + 1)));
                }
                i += 1;
            }
            proof {
                assert(es.take(m as int) =~= es);
            }
            crate::text::push_seq(&mut out, &body);
            out.push('\n');
            proof {
                assert(self.groups().take(k + 1).drop_last() =~= self.groups().take(k as int));
                assert(self.groups().take(k + 1).last() == self.groups()[k as int]);
                assert(out@ =~= spec_report_text(self.groups().take(k + 1)));
            }
            k += 1;
        }
        proof {
            assert(self.groups().take(n as int) =~= self.groups());
        }
        chars_to_string(&out)
    }
}

} // verus!
