use rage::{event_kind, push_user_history, split_endpoint_key, EndpointStats, EventKind, GlobalStats};

const MS: u128 = 1_000_000;

#[test]
fn fresh_endpoint_counters() {
    let e = EndpointStats::default();
    assert_eq!(e.requests, 0);
    assert_eq!(e.success, 0);
    assert_eq!(e.failure, 0);
    assert_eq!(e.total_response_time, 0);
    assert_eq!(e.min_response_time, 999_000 * MS);
    assert_eq!(e.max_response_time, 0);
    assert_eq!(e.min_latency_ms(), 0);
}

#[test]
fn recording_updates_counters() {
    let mut e = EndpointStats::default();
    e.record(true, 30 * MS + 5);
    e.record(false, 10 * MS);
    e.record(true, 50 * MS);
    assert_eq!(e.requests, 3);
    assert_eq!(e.success, 2);
    assert_eq!(e.failure, 1);
    assert_eq!(e.total_response_time, 90 * MS + 5);
    assert_eq!(e.min_latency_ms(), 10);
    assert_eq!(e.max_latency_ms(), 50);
    assert_eq!(e.total_latency_ms(), 90);
    assert_eq!(e.success + e.failure, e.requests);
}

#[test]
fn global_stats_count_per_endpoint() {
    let mut g = GlobalStats::new();
    g.user_started();
    g.user_started();
    assert_eq!(g.record_request("GET /a".to_string(), true, 5 * MS), 2);
    g.record_request("POST /b".to_string(), false, 7 * MS);
    g.record_request("GET /a".to_string(), false, 1 * MS);
    g.user_finished();
    assert_eq!(g.active_users(), 1);
    assert_eq!(g.len(), 2);
    let (name, a) = g.endpoint(0);
    assert_eq!(name, "GET /a");
    assert_eq!((a.requests, a.success, a.failure), (2, 1, 1));
    assert_eq!(a.min_latency_ms(), 1);
    assert_eq!(a.max_latency_ms(), 5);
    let (name, b) = g.endpoint(1);
    assert_eq!(name, "POST /b");
    assert_eq!((b.requests, b.failure), (1, 1));
    assert_eq!(g.totals(), (3, 2, 13 * MS));
    assert_eq!(g.find_endpoint(&"POST /b".to_string()), Some(1));
    assert_eq!(g.find_endpoint(&"PUT /b".to_string()), None);
}

#[test]
fn each_record_adds_one_request() {
    let mut g = GlobalStats::new();
    for i in 0..10u128 {
        let key = if i % 3 == 0 { "GET /x" } else { "GET /y" };
        g.record_request(key.to_string(), i % 2 == 0, i);
        assert_eq!(g.totals().0, (i + 1) as u64);
    }
}

#[test]
fn keys_split_at_first_space() {
    assert_eq!(split_endpoint_key("GET /a b"), ("GET".to_string(), "/a b".to_string()));
    assert_eq!(split_endpoint_key("GET"), ("GET".to_string(), "-".to_string()));
    assert_eq!(split_endpoint_key(""), ("".to_string(), "-".to_string()));
    assert_eq!(split_endpoint_key(" /x"), ("".to_string(), "/x".to_string()));
}

#[test]
fn user_history_keeps_recent_snapshots() {
    let mut h = Vec::new();
    for v in 1..=5u32 {
        push_user_history(&mut h, v, 3);
        assert!(h.len() <= 3);
        assert_eq!(*h.last().unwrap(), v);
    }
    assert_eq!(h, vec![3, 4, 5]);
    let mut z = Vec::new();
    push_user_history(&mut z, 1, 0);
    assert!(z.is_empty());
}

#[test]
fn log_records_are_classified() {
    assert_eq!(event_kind("request"), EventKind::Request);
    assert_eq!(event_kind("metric"), EventKind::Metric);
    assert_eq!(event_kind("Request"), EventKind::Other);
    assert_eq!(event_kind(""), EventKind::Other);
}

#[test]
fn counters_stay_consistent() {
    let mut e = EndpointStats::default();
    for i in 0..20u128 {
        e.record(i % 3 != 0, 1000 * i + 1);
        assert_eq!(e.success + e.failure, e.requests);
        assert!(e.min_response_time <= e.max_response_time);
        assert!(e.min_response_time <= e.total_response_time);
    }
}

#[test]
fn counters_match_request_history() {
    let history: Vec<(bool, u128)> = vec![(true, 40), (false, 5), (true, 70), (true, 12)];
    let mut g = GlobalStats::new();
    for (ok, d) in &history {
        g.record_request("GET /h".to_string(), *ok, *d);
    }
    let (_, e) = g.endpoint(0);
    assert_eq!(e.requests, 4);
    assert_eq!(e.success, 3);
    assert_eq!(e.failure, 1);
    assert_eq!(e.total_response_time, 127);
    assert_eq!(e.max_response_time, 70);
    assert_eq!(e.min_response_time, 5);
}
