use std::sync::Arc;

use rage::{
    apply_captures, endpoint_key, parse_method, prepare_request, request_url, response_outcome,
    CsvDataCache, HttpMethod, Step, StrMap,
};

fn map(pairs: &[(&str, &str)]) -> StrMap {
    let mut m = StrMap::new();
    for (k, v) in pairs {
        m.insert(k.to_string(), v.to_string());
    }
    m
}

fn entries(m: &StrMap) -> Vec<(String, String)> {
    (0..m.len()).map(|i| {
        let (k, v) = m.entry(i);
        (k.clone(), v.clone())
    }).collect()
}

fn pair(k: Option<&str>, v: Option<&str>) -> (Option<String>, Option<String>) {
    (k.map(|s| s.to_string()), v.map(|s| s.to_string()))
}

fn step(method: &str, endpoint: Option<&str>) -> Step {
    Step {
        method: method.to_string(),
        endpoint: endpoint.map(|s| s.to_string()),
        headers: vec![],
        body: String::new(),
        capture: vec![],
    }
}

#[test]
fn methods_map_to_requests() {
    assert_eq!(parse_method("POST"), HttpMethod::Post);
    assert_eq!(parse_method("PUT"), HttpMethod::Put);
    assert_eq!(parse_method("DELETE"), HttpMethod::Delete);
    assert_eq!(parse_method("GET"), HttpMethod::Get);
    assert_eq!(parse_method("PATCH"), HttpMethod::Get);
    assert_eq!(parse_method("post"), HttpMethod::Get);
}

#[test]
fn url_is_host_then_endpoint() {
    assert_eq!(request_url("http://localhost:8080", "/health"), "http://localhost:8080/health");
}

#[test]
fn success_status_gives_body() {
    assert_eq!(response_outcome(200, "ok".to_string()), Ok("ok".to_string()));
    assert_eq!(response_outcome(299, "x".to_string()), Ok("x".to_string()));
}

#[test]
fn failure_status_names_the_status() {
    assert_eq!(
        response_outcome(404, "nope".to_string()),
        Err("HTTP Status Error: 404 Not Found".to_string())
    );
    assert_eq!(
        response_outcome(503, String::new()),
        Err("HTTP Status Error: 503 Service Unavailable".to_string())
    );
    assert_eq!(
        response_outcome(199, String::new()),
        Err("HTTP Status Error: 199 <unknown status code>".to_string())
    );
    assert_eq!(
        response_outcome(300, String::new()),
        Err("HTTP Status Error: 300 Multiple Choices".to_string())
    );
}

#[test]
fn key_joins_method_and_endpoint() {
    assert_eq!(endpoint_key("GET", "/a"), "GET /a");
}

#[test]
fn prepared_request_upper_cases_and_defaults_endpoint() {
    let s = step("get", None);
    let r = prepare_request(&StrMap::new(), &s, &StrMap::new(), &None, 0);
    assert_eq!(r.method, "GET");
    assert_eq!(r.endpoint, "/");
    assert_eq!(r.body, "");
    assert_eq!(r.headers.len(), 0);
}

#[test]
fn step_headers_override_common_headers() {
    let common = map(&[("Accept", "json"), ("Auth", "none")]);
    let mut s = step("post", Some("/users/$id"));
    s.headers = vec![
        pair(Some("Auth"), Some("Bearer $token")),
        pair(Some("X-Num"), None),
        pair(None, Some("dropped")),
        pair(Some("X-Row"), Some("$csv.email")),
    ];
    s.body = "name: $csv.email\n".to_string();
    let context = map(&[("token", "t1"), ("id", "5")]);
    let csv = Some(Arc::new(CsvDataCache {
        headers: vec!["email".to_string()],
        records: vec![vec!["a@x".to_string()], vec!["b@x".to_string()]],
    }));
    let r = prepare_request(&common, &s, &context, &csv, 3);
    assert_eq!(r.method, "POST");
    assert_eq!(r.endpoint, "/users/5");
    assert_eq!(r.body, "name: b@x\n");
    assert_eq!(
        entries(&r.headers),
        vec![
            ("Accept".to_string(), "json".to_string()),
            ("Auth".to_string(), "Bearer t1".to_string()),
            ("X-Row".to_string(), "b@x".to_string()),
        ]
    );
}

#[test]
fn captures_string_members_of_the_response() {
    let mut s = step("post", Some("/login"));
    s.capture = vec![
        pair(Some("token"), Some("json.access_token")),
        pair(Some("uid"), Some("json.user_id")),
        pair(Some("plain"), Some("name")),
        pair(Some("missing"), Some("json.nothing")),
        pair(None, Some("json.name")),
    ];
    let mut context = map(&[("token", "old")]);
    let body = r#"{"access_token":"abc","user_id":12,"name":"ann"}"#.to_string();
    apply_captures(&mut context, &s, &Ok(body));
    assert_eq!(
        entries(&context),
        vec![("token".to_string(), "abc".to_string()), ("plain".to_string(), "ann".to_string())]
    );
}

#[test]
fn failed_response_captures_nothing() {
    let mut s = step("get", None);
    s.capture = vec![pair(Some("token"), Some("json.token"))];
    let mut context = map(&[("a", "1")]);
    apply_captures(&mut context, &s, &Err(r#"{"token":"x"}"#.to_string()));
    assert_eq!(entries(&context), vec![("a".to_string(), "1".to_string())]);
}

#[test]
fn non_json_response_captures_nothing() {
    let mut s = step("get", None);
    s.capture = vec![pair(Some("token"), Some("json.token"))];
    let mut context = StrMap::new();
    apply_captures(&mut context, &s, &Ok("<html>".to_string()));
    assert_eq!(context.len(), 0);
}

#[test]
fn captured_token_is_used_by_the_next_request() {
    let mut login = step("post", Some("/login"));
    login.capture = vec![pair(Some("sid"), Some("json.sid"))];
    let mut context = StrMap::new();
    apply_captures(&mut context, &login, &Ok(r#"{"sid":"S9"}"#.to_string()));
    let next = step("get", Some("/me/$sid"));
    let r = prepare_request(&StrMap::new(), &next, &context, &None, 0);
    assert_eq!(r.endpoint, "/me/S9");
}

#[test]
fn untouched_common_header_is_sent_unchanged() {
    let common = map(&[("X-Trace", "$notavar"), ("Accept", "json")]);
    let mut s = step("get", Some("/"));
    s.headers = vec![pair(Some("Accept"), Some("xml"))];
    let r = prepare_request(&common, &s, &StrMap::new(), &None, 0);
    assert_eq!(r.headers.get(&"X-Trace".to_string()), Some(&"$notavar".to_string()));
    assert_eq!(r.headers.get(&"Accept".to_string()), Some(&"xml".to_string()));
}

#[test]
fn map_write_then_read() {
    let mut m = StrMap::new();
    m.insert("k".to_string(), "1".to_string());
    m.insert("j".to_string(), "2".to_string());
    m.insert("k".to_string(), "3".to_string());
    assert_eq!(m.get(&"k".to_string()), Some(&"3".to_string()));
    assert_eq!(m.get(&"j".to_string()), Some(&"2".to_string()));
    assert_eq!(m.get(&"z".to_string()), None);
    assert_eq!(entries(&m), vec![("k".to_string(), "3".to_string()), ("j".to_string(), "2".to_string())]);
    assert_eq!(m.find(&"j".to_string()), Some(1));
}

#[test]
fn captured_value_replaces_every_placeholder_over_old_context() {
    let mut s = step("post", Some("/login"));
    s.capture = vec![
        pair(Some("sid"), Some("json.a")),
        pair(Some("sid"), Some("json.missing")),
        pair(Some("n"), Some("json.count")),
    ];
    let mut context = map(&[("sid", "old"), ("x", "1")]);
    apply_captures(&mut context, &s, &Ok(r#"{"a":"S","count":3}"#.to_string()));
    assert_eq!(context.get(&"sid".to_string()), Some(&"S".to_string()));
    let r = rage::resolve_variables("/u/$sid?q=$$sid&z=$sid", &context, &None, 0);
    assert_eq!(r, "/u/S?q=$S&z=S");
}

#[test]
fn earlier_step_header_wins_when_not_rewritten() {
    let common = map(&[("Auth", "none")]);
    let mut s = step("get", Some("/"));
    s.headers = vec![pair(Some("Auth"), Some("tok")), pair(Some("X"), Some("y")), pair(Some("Auth"), None)];
    let r = prepare_request(&common, &s, &StrMap::new(), &None, 0);
    assert_eq!(r.headers.get(&"Auth".to_string()), Some(&"tok".to_string()));
    assert_eq!(r.headers.get(&"X".to_string()), Some(&"y".to_string()));
}
