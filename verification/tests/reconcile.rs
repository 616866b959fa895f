use sbd_gen::filemap::{compare, parse_mode, plan_writes, FileMap, Mode};

fn map_of(entries: &[(&str, &str)]) -> FileMap {
    let mut fm = FileMap::new();
    for (p, c) in entries {
        fm.insert((*p).to_owned(), (*c).to_owned());
    }
    fm
}

#[test]
fn test_create_refuses_existing_destination() {
    // In create mode an existing destination is a conflict: no write at all
    // is planned, whatever the map holds.
    let files = map_of(&[("a.txt", "hello")]);
    assert!(plan_writes(&files, "out", false, true).is_err());
    let empty = map_of(&[]);
    assert!(plan_writes(&empty, "out", false, true).is_err());
}

#[test]
fn test_create_plans_writes_when_absent() {
    let files = map_of(&[("a.txt", "hello"), ("sub/b.txt", "bye")]);
    let writes = plan_writes(&files, "out", false, false).unwrap();
    assert_eq!(
        writes,
        vec![
            ("out/a.txt".to_owned(), "hello".to_owned()),
            ("out/sub/b.txt".to_owned(), "bye".to_owned()),
        ]
    );
}

#[test]
fn test_overwrite_ignores_existing() {
    let files = map_of(&[("a.txt", "hello")]);
    let writes = plan_writes(&files, "out", true, true).unwrap();
    assert_eq!(writes, vec![("out/a.txt".to_owned(), "hello".to_owned())]);
}

#[test]
fn test_parse_mode_names() {
    assert_eq!(parse_mode("create").unwrap(), Mode::Create);
    assert_eq!(parse_mode("overwrite").unwrap(), Mode::Overwrite);
    assert_eq!(parse_mode("check").unwrap(), Mode::Check);
    assert_eq!(parse_mode("update").unwrap_err(), "Invalid mode: update");
    assert!(Mode::Overwrite.overwrites());
    assert!(!Mode::Create.overwrites());
    assert!(!Mode::Check.overwrites());
}

#[test]
fn test_compare_reports_three_sets() {
    let files = map_of(&[("same.txt", "aa"), ("diff.txt", "abc"), ("only_map.txt", "x")]);
    let disk = map_of(&[("same.txt", "bb"), ("diff.txt", "abcd"), ("only_disk.txt", "y")]);
    let (differing, extra, missing) = compare(&files, &disk);
    // equal length short-circuits to "same": same.txt does not differ
    assert_eq!(differing, vec!["diff.txt".to_owned()]);
    assert_eq!(extra, vec!["only_disk.txt".to_owned()]);
    assert_eq!(missing, vec!["only_map.txt".to_owned()]);
}

#[test]
fn test_filemap_insert_replaces() {
    let mut fm = map_of(&[("a", "1"), ("b", "2")]);
    fm.insert("a".to_owned(), "9".to_owned());
    assert_eq!(fm.get("a").unwrap(), "9");
    assert_eq!(fm.get("b").unwrap(), "2");
    assert_eq!(fm.len(), 2);
    assert!(fm.get("c").is_none());
}
