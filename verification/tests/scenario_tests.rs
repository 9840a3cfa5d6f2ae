use rswatson::csv::CsvExporter;
use rswatson::entry::Entry;
use rswatson::params::{Project, Tags};
use rswatson::store::Entries;
use rswatson::time::{Date, Timestamp};

fn project(name: &str) -> Project {
    Project::new(name.to_string()).unwrap()
}

fn ts(secs: i64) -> Timestamp {
    Timestamp::from_secs(secs).unwrap()
}

#[test]
fn test_stop_scenario() {
    // One running entry for project "watson" with tag "dev", started at
    // 2024-01-01T09:00:00Z; stopping at 10:30 fixes the end and the duration.
    let mut store = Entries::default();
    store.push(Entry::new(
        project("watson"),
        Tags::parse("dev").unwrap(),
        ts(1704099600),
        None,
    ));
    store.set_last_end(ts(1704105000));
    let entry = store.get_last().unwrap();
    assert_eq!(entry.get_end().unwrap(), ts(1704105000));
    assert_eq!(entry.human_duration().unwrap(), "01:30");
}

#[test]
fn test_date_range_scenario() {
    // Entries dated 2024-01-01 and 2024-02-01; January keeps only the first.
    let mut store = Entries::default();
    let january = Entry::new(project("p"), None, ts(1704067200), None);
    let february = Entry::new(project("p"), None, ts(1706745600), None);
    store.push(january.clone());
    store.push(february);
    let from = Date::from_ymd(2024, 1, 1).unwrap();
    let to = Date::from_ymd(2024, 1, 31).unwrap();
    let filtered = store.get_in_range(&from, &to);
    assert_eq!(filtered.len(), 1);
    assert_eq!(filtered.get_entries()[0], january);
}

#[test]
fn test_csv_export() {
    let text = "{\"entries\":[{\"id\":\"00112233445566778899aabbccddeeff\",\"project\":\"watson\",\
                \"tags\":[\"dev\",\"ops\"],\"start\":\"2024-01-01T09:00:00Z\",\"end\":\"2024-01-01T10:30:00Z\"}]}";
    let store = rswatson::codec::parse_store(text).unwrap();
    let csv = CsvExporter::render(&store);
    assert_eq!(
        csv,
        "id,project,tags,start,end\n\
         00112233445566778899aabbccddeeff,watson,\"dev, ops\",1704099600,1704105000\n"
    );
}

#[test]
fn test_csv_export_quoting_and_running_entry() {
    let mut store = Entries::default();
    store.push(Entry::new(project("a,b\"c"), None, ts(0), None));
    let csv = CsvExporter::render(&store);
    let id = store.get_entries()[0].get_id();
    assert_eq!(csv, format!("id,project,tags,start,end\n{},\"a,b\"\"c\",,0,\n", id));
}

#[test]
fn test_config_paths() {
    let config = rswatson::config::Config::new(
        "/tmp/watson.json".to_string(),
        "/tmp/config.toml".to_string(),
    );
    assert_eq!(config.get_file_name(), "/tmp/watson.json");
    assert_eq!(config.get_config_name(), "/tmp/config.toml");
}
