use rswatson::entry::Entry;
use rswatson::params::{Project, Tags};
use rswatson::time::Timestamp;

fn project(name: &str) -> Project {
    Project::new(name.to_string()).unwrap()
}

fn ts(secs: i64) -> Timestamp {
    Timestamp::from_secs(secs).unwrap()
}

#[test]
fn test_get_project() {
    let entry = Entry::new(Project::new("project".to_string()).unwrap(), None, ts(1704067200), None);
    assert_eq!(entry.get_project(), Project::new("project".to_string()).unwrap());
}

#[test]
fn test_get_tags() {
    let tags = Tags::parse("tag1,tag2").unwrap().unwrap();
    let entry = Entry::new(project("project"), Some(tags.clone()), ts(1704067200), None);
    assert_eq!(entry.get_tags().unwrap(), tags);
}

#[test]
fn test_get_start() {
    let start = ts(1704067200);
    let entry = Entry::new(project("project"), None, start, None);
    assert_eq!(entry.get_start(), start);
}

#[test]
fn test_set_end() {
    let start = ts(1704067200);
    let mut entry = Entry::new(project("project"), None, start, None);
    let end = ts(1704070800);
    entry.set_end(end);
    assert_eq!(entry.get_end().unwrap(), end);
}

#[test]
fn test_is_running() {
    let start = ts(1704067200);
    let entry = Entry::new(project("project"), None, start, None);
    assert!(entry.is_running());
}

#[test]
fn test_get_id() {
    let entry = Entry::new(project("project"), None, ts(1704067200), None);
    let id = entry.get_id();
    assert_eq!(entry.get_id(), id.to_string());
}

#[test]
fn test_running_entry_has_no_end() {
    let entry = Entry::new(project("p"), None, ts(0), None);
    assert!(entry.is_running());
    assert!(entry.get_end().is_none());
    let finished = Entry::new(project("p"), None, ts(0), Some(ts(60)));
    assert!(!finished.is_running());
}

#[test]
fn test_duration_seconds() {
    let entry = Entry::new(project("p"), None, ts(1000), Some(ts(4600)));
    assert_eq!(entry.duration_seconds().unwrap(), 3600);
    let running = Entry::new(project("p"), None, ts(1000), None);
    assert_eq!(running.duration_seconds(), Err(rswatson::errors::Error::MissingEnd));
}

#[test]
fn test_human_duration_exact() {
    // One hour and thirty minutes.
    let entry = Entry::new(project("p"), None, ts(1704099600), Some(ts(1704105000)));
    assert_eq!(entry.human_duration().unwrap(), "01:30");
    // 101 hours and five minutes: hours may grow past two digits.
    let long = Entry::new(project("p"), None, ts(0), Some(ts(101 * 3600 + 5 * 60)));
    assert_eq!(long.human_duration().unwrap(), "101:05");
    let running = Entry::new(project("p"), None, ts(0), None);
    assert_eq!(running.human_duration(), Err(rswatson::errors::Error::MissingEnd));
}

#[test]
fn test_print_report_line() {
    let tags = Tags::parse("dev").unwrap();
    let entry = Entry::new(project("watson"), tags, ts(1704099600), Some(ts(1704105000)));
    assert_eq!(entry.print_report().unwrap(), "[dev   01:30]");
}

#[test]
fn test_render_line_shape() {
    let tags = Tags::parse("dev ops").unwrap();
    let entry = Entry::new(project("watson"), tags, ts(1704099600), None);
    let line = entry.render_line();
    let id = entry.get_id();
    let expected = format!("{}  09:00 to now  watson    [dev, ops]", &id[..8]);
    assert_eq!(line, expected);
}
