use rswatson::entry::Entry;
use rswatson::params::{Project, Tags};
use rswatson::report::{ProjectEntry, Report};
use rswatson::store::Entries;
use rswatson::time::Timestamp;

fn project(name: &str) -> Project {
    Project::new(name.to_string()).unwrap()
}

fn ts(secs: i64) -> Timestamp {
    Timestamp::from_secs(secs).unwrap()
}

#[test]
fn test_report_from_project_entries() {
    let project_entries = vec![ProjectEntry::new("default".to_string(), Entries::default())];
    let report = Report::new(project_entries);
    assert_eq!(report.len(), 1);
}

#[test]
fn test_build_groups_by_first_appearance() {
    let mut entries = Entries::default();
    entries.push(Entry::new(project("beta"), None, ts(0), Some(ts(60))));
    entries.push(Entry::new(project("alpha"), None, ts(0), Some(ts(120))));
    entries.push(Entry::new(project("beta"), None, ts(0), Some(ts(180))));
    let report = Report::build(&entries);
    assert_eq!(report.len(), 2);
    assert_eq!(report.get(0).name().as_str(), "beta");
    assert_eq!(report.get(0).entries().len(), 2);
    assert_eq!(report.get(1).name().as_str(), "alpha");
    assert_eq!(report.get(1).entries().len(), 1);
}

#[test]
fn test_project_entry_from_entries() {
    let mut entries = Entries::default();
    entries.push(Entry::new(project("solo"), None, ts(0), None));
    let group = ProjectEntry::from_entries(entries).unwrap();
    assert_eq!(group.name().as_str(), "solo");
    let mut mixed = Entries::default();
    mixed.push(Entry::new(project("a"), None, ts(0), None));
    mixed.push(Entry::new(project("b"), None, ts(0), None));
    assert!(ProjectEntry::from_entries(mixed).is_err());
}

#[test]
fn test_render_report_text() {
    let mut entries = Entries::default();
    entries.push(Entry::new(
        project("watson"),
        Tags::parse("dev").unwrap(),
        ts(1704099600),
        Some(ts(1704105000)),
    ));
    // A running entry renders its tag list alone instead of aborting.
    entries.push(Entry::new(
        project("watson"),
        Tags::parse("ops").unwrap(),
        ts(1704105000),
        None,
    ));
    let report = Report::build(&entries);
    let text = report.render();
    assert_eq!(text, "watson\n   [dev   01:30]\n   [ops]\n\n");
}
