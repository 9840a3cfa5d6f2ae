use rswatson::errors::Error;
use rswatson::params::{FromDate, Project, Tag, Tags, ToDate};
use rswatson::time::Date;

#[test]
fn test_project_keeps_value() {
    let project = Project::new("watson".to_string()).unwrap();
    assert_eq!(project.value().as_str(), "watson");
}

#[test]
fn test_project_rejects_empty() {
    assert_eq!(Project::new("".to_string()), Err(Error::EmptyValue));
}

#[test]
fn test_tag_rejects_empty() {
    assert_eq!(Tag::new("".to_string()), Err(Error::EmptyValue));
    assert_eq!(Tag::new("dev".to_string()).unwrap().value().as_str(), "dev");
}

#[test]
fn test_tags_rejects_empty_collection() {
    assert_eq!(Tags::new(Vec::new()), Err(Error::EmptyValue));
}

#[test]
fn test_tags_parse_whitespace_and_markers() {
    let tags = Tags::parse("+dev ops").unwrap().unwrap();
    assert_eq!(tags.len(), 2);
    assert_eq!(tags.get(0).value().as_str(), "dev");
    assert_eq!(tags.get(1).value().as_str(), "ops");
}

#[test]
fn test_tags_parse_empty_is_none() {
    assert!(Tags::parse("").unwrap().is_none());
    assert!(Tags::parse("   ").unwrap().is_none());
}

#[test]
fn test_tags_parse_bare_marker_fails() {
    assert_eq!(Tags::parse("+"), Err(Error::EmptyValue));
    assert_eq!(Tags::parse("dev +"), Err(Error::EmptyValue));
}

#[test]
fn test_tags_parse_comma_is_no_separator() {
    let tags = Tags::parse("tag1,tag2").unwrap().unwrap();
    assert_eq!(tags.len(), 1);
    assert_eq!(tags.get(0).value().as_str(), "tag1,tag2");
}

#[test]
fn test_tags_as_string() {
    let tags = Tags::parse("dev ops").unwrap().unwrap();
    assert_eq!(tags.as_string(), "dev, ops");
}

#[test]
fn test_date_bounds_defaults() {
    let from = FromDate::new(None).or_min();
    assert_eq!(from, Date::from_ymd(1970, 1, 1).unwrap());
    let to = ToDate::new(None).or_max();
    assert_eq!(to, Date::from_ymd(9999, 12, 31).unwrap());
    let given = Date::from_ymd(2024, 5, 6).unwrap();
    assert_eq!(FromDate::new(Some(given)).or_min(), given);
    assert_eq!(ToDate::new(Some(given)).or_max(), given);
}
