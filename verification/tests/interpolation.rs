use std::sync::Arc;

use rage::{resolve_variables, CsvDataCache, StrMap};

fn ctx(pairs: &[(&str, &str)]) -> StrMap {
    let mut m = StrMap::new();
    for (k, v) in pairs {
        m.insert(k.to_string(), v.to_string());
    }
    m
}

fn cache(headers: &[&str], rows: &[&[&str]]) -> Option<Arc<CsvDataCache>> {
    Some(Arc::new(CsvDataCache {
        headers: headers.iter().map(|s| s.to_string()).collect(),
        records: rows
            .iter()
            .map(|r| r.iter().map(|s| s.to_string()).collect())
            .collect(),
    }))
}

#[test]
fn text_without_dollar_is_returned_unchanged() {
    let c = ctx(&[("id", "42")]);
    assert_eq!(resolve_variables("/users/id", &c, &None, 0), "/users/id");
}

#[test]
fn context_tokens_are_replaced() {
    let c = ctx(&[("token", "abc"), ("id", "7")]);
    assert_eq!(
        resolve_variables("/items/$id?t=$token&again=$id", &c, &None, 0),
        "/items/7?t=abc&again=7"
    );
}

#[test]
fn unknown_tokens_stay() {
    let c = ctx(&[("id", "7")]);
    assert_eq!(resolve_variables("cost $5 for $name", &c, &None, 3), "cost $5 for $name");
}

#[test]
fn entries_are_applied_in_order() {
    // "$id" is written first and also matches the start of "$idx".
    let c = ctx(&[("id", "A"), ("idx", "B")]);
    assert_eq!(resolve_variables("$idx", &c, &None, 0), "Ax");
    let c2 = ctx(&[("idx", "B"), ("id", "A")]);
    assert_eq!(resolve_variables("$idx", &c2, &None, 0), "B");
}

#[test]
fn csv_columns_come_from_the_chosen_row() {
    let csv = cache(&["email", "name"], &[&["a@x", "Ann"], &["b@x", "Bob"]]);
    let c = StrMap::new();
    assert_eq!(
        resolve_variables("{\"e\":\"$csv.email\",\"n\":\"$csv.name\"}", &c, &csv, 1),
        "{\"e\":\"b@x\",\"n\":\"Bob\"}"
    );
}

#[test]
fn csv_row_index_wraps_around() {
    let csv = cache(&["email"], &[&["a@x"], &["b@x"], &["c@x"]]);
    let c = StrMap::new();
    for row in 0..3usize {
        assert_eq!(
            resolve_variables("$csv.email", &c, &csv, row),
            resolve_variables("$csv.email", &c, &csv, row + 3)
        );
    }
    assert_eq!(resolve_variables("$csv.email", &c, &csv, 4), "b@x");
}

#[test]
fn missing_cell_leaves_placeholder() {
    let csv = cache(&["a", "b"], &[&["1"]]);
    let c = StrMap::new();
    assert_eq!(resolve_variables("$csv.a-$csv.b", &c, &csv, 0), "1-$csv.b");
}

#[test]
fn context_value_can_introduce_csv_placeholder() {
    let csv = cache(&["user"], &[&["u1"]]);
    let c = ctx(&[("who", "$csv.user")]);
    assert_eq!(resolve_variables("hello $who", &c, &csv, 0), "hello u1");
}

#[test]
fn csv_placeholder_without_cache_stays() {
    let c = StrMap::new();
    assert_eq!(resolve_variables("$csv.email", &c, &None, 0), "$csv.email");
}

#[test]
fn single_token_resolves_to_its_value() {
    let c = ctx(&[("session", "s-1")]);
    assert_eq!(resolve_variables("$session", &c, &None, 9), "s-1");
}

#[test]
fn non_ascii_text_is_kept() {
    let c = ctx(&[("名前", "値")]);
    assert_eq!(resolve_variables("é $名前 ü", &c, &None, 0), "é 値 ü");
}
