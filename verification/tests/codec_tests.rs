use rswatson::codec::{parse_store, render_store};
use rswatson::entry::Entry;
use rswatson::errors::ParseError;
use rswatson::params::{Project, Tags};
use rswatson::store::Entries;
use rswatson::time::Timestamp;

fn project(name: &str) -> Project {
    Project::new(name.to_string()).unwrap()
}

fn ts(secs: i64) -> Timestamp {
    Timestamp::from_secs(secs).unwrap()
}

#[test]
fn test_round_trip_preserves_entries() {
    let mut store = Entries::default();
    store.push(Entry::new(
        project("watson"),
        Tags::parse("dev ops").unwrap(),
        ts(1704099600),
        Some(ts(1704105000)),
    ));
    store.push(Entry::new(project("a \"quoted\" name\n"), None, ts(0), None));
    let text = render_store(&store);
    let read_back = parse_store(text.as_str()).unwrap();
    assert_eq!(read_back, store);
}

#[test]
fn test_round_trip_empty_store() {
    let store = Entries::default();
    let text = render_store(&store);
    assert_eq!(text, "{\"entries\":[]}");
    assert_eq!(parse_store(text.as_str()).unwrap(), store);
}

#[test]
fn test_rendered_form_is_exact() {
    let text = "{\"entries\":[{\"id\":\"00112233445566778899aabbccddeeff\",\"project\":\"watson\",\
                \"tags\":[\"dev\"],\"start\":\"2024-01-01T09:00:00Z\",\"end\":\"2024-01-01T10:30:00Z\"}]}";
    let store = parse_store(text).unwrap();
    assert_eq!(store.len(), 1);
    let entry = &store.get_entries()[0];
    assert_eq!(entry.get_id(), "00112233445566778899aabbccddeeff");
    assert_eq!(entry.get_start(), ts(1704099600));
    assert_eq!(entry.get_end().unwrap(), ts(1704105000));
    assert_eq!(render_store(&store), text);
}

#[test]
fn test_parse_tolerates_whitespace() {
    let text = "{ \"entries\" : [ { \"id\" : \"00112233445566778899aabbccddeeff\" ,\n \"project\" : \"w\" ,\
                \"tags\" : null , \"start\" : \"2024-01-01T09:00:00Z\" , \"end\" : null } ] }";
    let store = parse_store(text).unwrap();
    assert_eq!(store.len(), 1);
    assert!(store.get_entries()[0].is_running());
}

#[test]
fn test_parse_rejects_malformed_text() {
    assert_eq!(parse_store(""), Err(ParseError::Malformed));
    assert_eq!(parse_store("{\"entries\":[}"), Err(ParseError::Malformed));
    assert_eq!(parse_store("{\"entries\":[]} trailing"), Err(ParseError::Malformed));
    // A bad identifier shape is rejected.
    assert_eq!(
        parse_store(
            "{\"entries\":[{\"id\":\"short\",\"project\":\"w\",\"tags\":null,\
             \"start\":\"2024-01-01T09:00:00Z\",\"end\":null}]}"
        ),
        Err(ParseError::Malformed)
    );
    // An empty project is rejected.
    assert_eq!(
        parse_store(
            "{\"entries\":[{\"id\":\"00112233445566778899aabbccddeeff\",\"project\":\"\",\
             \"tags\":null,\"start\":\"2024-01-01T09:00:00Z\",\"end\":null}]}"
        ),
        Err(ParseError::Malformed)
    );
    // An impossible calendar date is rejected.
    assert_eq!(
        parse_store(
            "{\"entries\":[{\"id\":\"00112233445566778899aabbccddeeff\",\"project\":\"w\",\
             \"tags\":null,\"start\":\"2024-02-30T09:00:00Z\",\"end\":null}]}"
        ),
        Err(ParseError::Malformed)
    );
    // An empty tag array is rejected: absent tags are written null.
    assert_eq!(
        parse_store(
            "{\"entries\":[{\"id\":\"00112233445566778899aabbccddeeff\",\"project\":\"w\",\
             \"tags\":[],\"start\":\"2024-01-01T09:00:00Z\",\"end\":null}]}"
        ),
        Err(ParseError::Malformed)
    );
}
