use rage::CsvDataCache;

fn lines(v: &[Option<&str>]) -> Option<Vec<Option<String>>> {
    Some(v.iter().map(|l| l.map(|s| s.to_string())).collect())
}

#[test]
fn none_source_loads_nothing() {
    assert!(CsvDataCache::load("none", lines(&[Some("a"), Some("1")])).is_none());
}

#[test]
fn empty_source_loads_nothing() {
    assert!(CsvDataCache::load("", lines(&[Some("a"), Some("1")])).is_none());
}

#[test]
fn unopened_file_loads_nothing() {
    assert!(CsvDataCache::load("data.csv", None).is_none());
}

#[test]
fn empty_file_loads_nothing() {
    assert!(CsvDataCache::load("data.csv", lines(&[])).is_none());
}

#[test]
fn unreadable_header_line_loads_nothing() {
    assert!(CsvDataCache::load("data.csv", lines(&[None, Some("1,2")])).is_none());
}

#[test]
fn header_only_file_loads_nothing() {
    assert!(CsvDataCache::load("data.csv", lines(&[Some("email,name"), Some("   "), Some("")])).is_none());
}

#[test]
fn cells_are_split_and_trimmed() {
    let c = CsvDataCache::load(
        "data.csv",
        lines(&[Some(" email , name\t"), Some("a@x, Ann "), Some("  "), None, Some("b@x,,Bob,")]),
    )
    .unwrap();
    assert_eq!(c.headers, vec!["email", "name"]);
    assert_eq!(
        c.records,
        vec![
            vec!["a@x".to_string(), "Ann".to_string()],
            vec!["b@x".to_string(), "".to_string(), "Bob".to_string(), "".to_string()],
        ]
    );
}

#[test]
fn unicode_whitespace_is_trimmed() {
    let c = CsvDataCache::load("d", lines(&[Some("\u{3000}h\u{a0}"), Some("\u{2003}v\u{85}")])).unwrap();
    assert_eq!(c.headers, vec!["h"]);
    assert_eq!(c.records, vec![vec!["v".to_string()]]);
}

#[test]
fn loaded_cache_feeds_interpolation() {
    let c = CsvDataCache::load("users.csv", lines(&[Some("email"), Some("a@x"), Some("b@x")])).unwrap();
    let cache = Some(std::sync::Arc::new(c));
    let ctx = rage::StrMap::new();
    assert_eq!(rage::resolve_variables("to=$csv.email", &ctx, &cache, 0), "to=a@x");
    assert_eq!(rage::resolve_variables("to=$csv.email", &ctx, &cache, 5), "to=b@x");
}

#[test]
fn source_switch() {
    assert!(!rage::csv_source_enabled("none"));
    assert!(!rage::csv_source_enabled(""));
    assert!(rage::csv_source_enabled("users.csv"));
    assert!(rage::csv_source_enabled("None"));
}
