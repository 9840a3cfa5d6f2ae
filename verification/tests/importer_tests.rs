use rswatson::errors::ParseError;
use rswatson::importer::TdWatsonFrame;
use rswatson::params::Project;
use rswatson::store::Entries;
use rswatson::time::Timestamp;

#[test]
fn td_watson_test() {
    let data = r#"[
            [ 1658206800, 1658216700, "projb", "7cf346662e1049e2a9717c729cd695d1", ["taga"], 1658225005 ],
            [ null, null, "", "", [], null ],
            [ null, 1658217600, "proja", "45352e42521242f6babebecfc104bad5", ["tagb"], 1658225019 ]
            ]"#;
    let result = TdWatsonFrame::parse(data.to_string());
    assert!(result.is_ok());
}

#[test]
fn test_parse_reads_fields() {
    let data = "[[1658206800, 1658216700, \"projb\", \"7cf346662e1049e2a9717c729cd695d1\", [\"taga\"], 1658225005]]";
    let frames = TdWatsonFrame::parse(data.to_string()).unwrap();
    assert_eq!(frames.len(), 1);
    assert_eq!(frames[0].start_time, Some(1658206800));
    assert_eq!(frames[0].end_time, Some(1658216700));
    assert_eq!(frames[0].project, "projb");
    assert_eq!(frames[0].id, "7cf346662e1049e2a9717c729cd695d1");
    assert_eq!(frames[0].tags, vec!["taga".to_string()]);
    assert_eq!(frames[0].timestamp, Some(1658225005));
}

#[test]
fn test_parse_negative_and_empty() {
    let frames = TdWatsonFrame::parse("[ ]".to_string()).unwrap();
    assert_eq!(frames.len(), 0);
    let bad = TdWatsonFrame::parse("[[1, 2, \"p\"]]".to_string());
    assert_eq!(bad, Err(ParseError::Malformed));
    let trailing = TdWatsonFrame::parse("[] x".to_string());
    assert_eq!(trailing, Err(ParseError::Malformed));
}

#[test]
fn test_import_legacy_record() {
    let frames =
        TdWatsonFrame::parse("[[1000, 2000, \"proj\", \"legacy-id\", [\"tag\"], 3000]]".to_string())
            .unwrap();
    let mut store = Entries::default();
    store.import(frames).unwrap();
    assert_eq!(store.len(), 1);
    let entry = &store.get_entries()[0];
    assert_eq!(entry.get_project(), Project::new("proj".to_string()).unwrap());
    let tags = entry.get_tags().unwrap();
    assert_eq!(tags.len(), 1);
    assert_eq!(tags.get(0).value().as_str(), "tag");
    assert_eq!(entry.get_start(), Timestamp::from_secs(1000).unwrap());
    assert_eq!(entry.get_end().unwrap(), Timestamp::from_secs(2000).unwrap());
    assert_ne!(entry.get_id(), "legacy-id");
    assert_eq!(entry.get_id().len(), 32);
}

#[test]
fn test_import_refuses_non_empty_store() {
    let frames =
        TdWatsonFrame::parse("[[1000, 2000, \"proj\", \"x\", [], null]]".to_string()).unwrap();
    let mut store = Entries::default();
    store.start_session(Project::new("busy".to_string()).unwrap(), None, Timestamp::from_secs(0).unwrap());
    assert_eq!(store.import(frames), Err(ParseError::NonEmptyStore));
    assert_eq!(store.len(), 1);
}

#[test]
fn test_import_rejects_invalid_records_whole() {
    // An empty legacy project cannot enter the store; nothing is imported.
    let frames = TdWatsonFrame::parse(
        "[[1000, 2000, \"ok\", \"x\", [], null], [1000, 2000, \"\", \"y\", [], null]]".to_string(),
    )
    .unwrap();
    let mut store = Entries::default();
    assert_eq!(store.import(frames), Err(ParseError::InvalidValue));
    assert_eq!(store.len(), 0);
    // A missing start instant is rejected too.
    let missing = TdWatsonFrame::parse("[[null, 2000, \"p\", \"x\", [], null]]".to_string()).unwrap();
    assert_eq!(store.import(missing), Err(ParseError::InvalidValue));
}

#[test]
fn test_import_empty_tag_list_means_no_tags() {
    let frames =
        TdWatsonFrame::parse("[[1000, 2000, \"proj\", \"x\", [], null]]".to_string()).unwrap();
    let mut store = Entries::default();
    store.import(frames).unwrap();
    assert!(store.get_entries()[0].get_tags().is_none());
}
