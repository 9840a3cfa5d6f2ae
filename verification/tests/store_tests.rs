use rswatson::entry::Entry;
use rswatson::errors::Error;
use rswatson::params::{Project, Tags};
use rswatson::store::Entries;
use rswatson::time::{Date, Timestamp};

fn project(name: &str) -> Project {
    Project::new(name.to_string()).unwrap()
}

fn ts(secs: i64) -> Timestamp {
    Timestamp::from_secs(secs).unwrap()
}

fn entry(name: &str, secs: i64) -> Entry {
    Entry::new(project(name), None, ts(secs), None)
}

#[test]
fn test_get_unique_project() {
    let mut entries = Entries::default();
    let entry = Entry::new(project("project"), None, ts(1704067200), None);
    let entry2 = Entry::new(project("project"), None, ts(1704067200), None);
    entries.push(entry);
    entries.push(entry2);
    let found = entries.get_unique_project().unwrap();
    assert_eq!(found, Project::new("project".to_string()).unwrap());
}

#[test]
fn test_unique_project_fails_on_empty_and_mixed() {
    let entries = Entries::default();
    assert_eq!(entries.get_unique_project(), Err(Error::AmbiguousProjects));
    let mut mixed = Entries::default();
    mixed.push(entry("one", 0));
    mixed.push(entry("two", 0));
    assert_eq!(mixed.get_unique_project(), Err(Error::AmbiguousProjects));
}

#[test]
fn test_get_by_hash() {
    let mut entries = Entries::default();
    let entry = Entry::new(project("project"), None, ts(1704067200), None);
    entries.push(entry.clone());
    let found_entry = entries.get_by_hash(entry.get_id().as_str()).unwrap();
    assert_eq!(found_entry, entry);
}

#[test]
fn test_get_by_hash_prefix_and_not_found() {
    let mut entries = Entries::default();
    let entry = Entry::new(project("project"), None, ts(0), None);
    entries.push(entry.clone());
    let prefix = entry.get_id()[..8].to_string();
    assert_eq!(entries.get_by_hash(prefix.as_str()).unwrap(), entry);
    // No identifier holds a character outside the hexadecimal alphabet.
    assert_eq!(entries.get_by_hash("zzzz"), Err(Error::NotFound));
}

#[test]
fn test_get_last() {
    let mut entries = Entries::default();
    let entry = Entry::new(project("project"), None, ts(1704067200), None);
    let entry2 = Entry::new(project("project"), None, ts(1704067200), None);
    entries.push(entry.clone());
    entries.push(entry2.clone());
    let last_entry = entries.get_last().unwrap();
    assert_eq!(last_entry, &entry2);
}

#[test]
fn test_filter_by_project() {
    let mut entries = Entries::default();
    let entry = Entry::new(project("project"), None, ts(1704067200), None);
    let entry2 = Entry::new(project("project2"), None, ts(1704067200), None);
    entries.push(entry.clone());
    entries.push(entry2.clone());
    let filtered_entries = entries.filter_by_project(project("project"));
    assert_eq!(filtered_entries.len(), 1);
    assert_eq!(filtered_entries.get_entries()[0], entry);
}

#[test]
fn test_get_in_range() {
    let mut entries = Entries::default();
    let entry = Entry::new(project("project"), None, ts(1704067200), None);
    let entry2 = Entry::new(project("project2"), None, ts(1704067200), None);
    entries.push(entry.clone());
    entries.push(entry2.clone());
    let from = Date::from_ymd(2024, 1, 1).unwrap();
    let to = Date::from_ymd(2024, 1, 1).unwrap();
    let filtered_entries = entries.get_in_range(&from, &to);
    assert_eq!(filtered_entries.len(), 2);
}

#[test]
fn test_get_entries() {
    let mut entries = Entries::default();
    let entry = Entry::new(project("project"), None, ts(1704067200), None);
    let entry2 = Entry::new(project("project2"), None, ts(1704067200), None);
    entries.push(entry.clone());
    entries.push(entry2.clone());
    let entries = entries.get_entries();
    assert_eq!(entries.len(), 2);
}

#[test]
fn test_push() {
    let mut entries = Entries::default();
    let entry = Entry::new(project("project"), None, ts(1704067200), None);
    entries.push(entry.clone());
    let entries = entries.get_entries();
    assert_eq!(entries.len(), 1);
    assert_eq!(entries[0], entry);
}

#[test]
fn test_set_last_end() {
    let mut entries = Entries::default();
    entries.set_last_end(ts(100));
    assert_eq!(entries.len(), 0);
    entries.push(entry("p", 0));
    entries.set_last_end(ts(100));
    assert_eq!(entries.get_last().unwrap().get_end().unwrap(), ts(100));
}

#[test]
fn test_update() {
    let mut entries = Entries::default();
    let original = Entry::new(project("p"), None, ts(0), None);
    entries.push(original.clone());
    let replacement = rswatson::codec::parse_store(
        "{\"entries\":[{\"id\":\"00112233445566778899aabbccddeeff\",\"project\":\"q\",\
         \"tags\":null,\"start\":\"2024-01-01T00:00:00Z\",\"end\":null}]}",
    )
    .unwrap()
    .get_entries()
    .remove(0);
    // No stored entry carries the replacement's identifier.
    assert_eq!(entries.update(replacement.clone()), Err(Error::NotFound));
    let mut same = Entry::new(project("p2"), None, ts(5), None);
    same = rebuild_with_id(&original, same);
    assert!(entries.update(same.clone()).is_ok());
    assert_eq!(entries.get_entries()[0], same);
}

fn rebuild_with_id(with_id_of: &Entry, fields_of: Entry) -> Entry {
    Entry::from_fields(
        with_id_of.get_id(),
        fields_of.get_project(),
        fields_of.get_tags(),
        fields_of.get_start(),
        fields_of.get_end(),
    )
    .unwrap()
}

#[test]
fn test_start_session_stops_running_entry() {
    let mut entries = Entries::default();
    entries.start_session(project("alpha"), None, ts(100));
    assert!(entries.get_last().unwrap().is_running());
    entries.start_session(project("beta"), Tags::parse("dev").unwrap(), ts(200));
    assert_eq!(entries.len(), 2);
    let all = entries.get_entries();
    assert_eq!(all[0].get_end().unwrap(), ts(200));
    assert!(all[1].is_running());
    assert_eq!(all[1].get_project(), project("beta"));
}

#[test]
fn test_filter_by_date_range_identity_and_idempotence() {
    let mut entries = Entries::default();
    entries.push(entry("p", 1704067200));
    entries.push(entry("p", 1706745600));
    let from = Date::from_ymd(1970, 1, 1).unwrap();
    let to = Date::from_ymd(9999, 12, 31).unwrap();
    // Open-ended bounds keep everything.
    let unbounded = entries.get_in_range(&from, &to);
    assert_eq!(unbounded.get_entries(), entries.get_entries());
    // Filtering an already-filtered store changes nothing.
    let lo = Date::from_ymd(2024, 1, 1).unwrap();
    let hi = Date::from_ymd(2024, 1, 31).unwrap();
    let once = entries.get_in_range(&lo, &hi);
    let twice = once.get_in_range(&lo, &hi);
    assert_eq!(once.get_entries(), twice.get_entries());
}

#[test]
fn test_render_log_lines() {
    let mut entries = Entries::default();
    entries.push(Entry::new(
        project("watson"),
        Tags::parse("dev").unwrap(),
        ts(1704099600),
        None,
    ));
    let log = entries.render_log();
    let id = entries.get_last().unwrap().get_id();
    assert_eq!(log, format!("{}  09:00 to now  watson    [dev]\n", &id[..8]));
}
