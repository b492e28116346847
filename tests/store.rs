use aegis::config::{AegisConfig, BackendConfig, RouteConfig};
use aegis::counter::{DurationCount, StoreProcessResult};
use aegis::identity::RequestIdentifier;
use aegis::store::InMemoryStore;
use aegis::table::IpTable;

fn route(url: &str, quota: Option<u32>) -> RouteConfig {
    RouteConfig { name: None, url: url.to_string(), rate_limit_ip_min: quota, rate_limit_token_min: None }
}

fn backend(url: &str, prefix: Option<&str>, quota: Option<u32>) -> BackendConfig {
    BackendConfig {
        name: Some("svc".to_string()),
        prefix: prefix.map(|p| p.to_string()),
        url: url.to_string(),
        rate_limit_ip_min: quota,
        rate_limit_token_min: Some(20),
    }
}

fn store(backends: Vec<BackendConfig>, routes: Vec<RouteConfig>) -> InMemoryStore {
    AegisConfig::new([127, 0, 0, 1], backends, routes).to_store()
}

fn local() -> RequestIdentifier {
    RequestIdentifier::Ip(127, 0, 0, 1)
}

const C: StoreProcessResult = StoreProcessResult::Continue;
const X: StoreProcessResult = StoreProcessResult::RateLimitExceeded;
const N: StoreProcessResult = StoreProcessResult::NotFound;

#[test]
fn route_quota_of_two_then_rollover() {
    let mut s = store(vec![], vec![route("/route", Some(2))]);
    assert_eq!(s.process("/route".to_string(), local(), 0), C);
    assert_eq!(s.process("/route".to_string(), local(), 4_000), C);
    assert_eq!(s.process("/route".to_string(), local(), 9_000), X);
    assert_eq!(s.process("/route".to_string(), local(), 70_000), C);
}

#[test]
fn quota_requests_pass_and_next_is_refused() {
    let mut s = store(vec![], vec![route("/r", Some(5))]);
    for i in 0..5u64 {
        assert_eq!(s.process("/r".to_string(), local(), i * 1_000), C);
    }
    assert_eq!(s.process("/r".to_string(), local(), 59_999), X);
}

#[test]
fn default_quota_is_one_hundred() {
    let mut s = store(vec![], vec![route("/r", None)]);
    for i in 0..100u64 {
        assert_eq!(s.process("/r".to_string(), local(), i), C);
    }
    assert_eq!(s.process("/r".to_string(), local(), 100), X);
}

#[test]
fn window_rollover_restores_quota() {
    let mut s = store(vec![], vec![route("/r", Some(3))]);
    for _ in 0..3 {
        assert_eq!(s.process("/r".to_string(), local(), 10), C);
    }
    assert_eq!(s.process("/r".to_string(), local(), 60_009), X);
    assert_eq!(s.process("/r".to_string(), local(), 60_010), C);
    assert_eq!(s.process("/r".to_string(), local(), 60_011), C);
    assert_eq!(s.process("/r".to_string(), local(), 60_012), C);
    assert_eq!(s.process("/r".to_string(), local(), 60_013), X);
}

#[test]
fn stale_caller_is_evicted() {
    let mut t = IpTable::init_table(2);
    assert_eq!(t.check_or_add(local(), 1_000), C);
    assert_eq!(t.check_or_add(local(), 1_001), C);
    assert_eq!(t.check_or_add(local(), 1_002), X);
    t.gc(180_999);
    assert!(t.contains(&local()));
    t.gc(181_000);
    assert!(!t.contains(&local()));
    assert_eq!(t.check_or_add(local(), 181_000), C);
    assert_eq!(t.check_or_add(local(), 181_001), C);
    assert_eq!(t.check_or_add(local(), 181_002), X);
}

#[test]
fn process_evicts_before_admitting() {
    let mut s = store(vec![], vec![route("/r", Some(1))]);
    assert_eq!(s.process("/r".to_string(), local(), 0), C);
    assert_eq!(s.process("/r".to_string(), local(), 1), X);
    assert_eq!(s.process("/r".to_string(), local(), 200_000), C);
    assert_eq!(s.process("/r".to_string(), local(), 200_001), X);
}

#[test]
fn route_takes_precedence_over_backend() {
    let mut s = store(
        vec![backend("http://localhost:3000", Some("/api/"), Some(100))],
        vec![route("http://localhost:3000/api/", Some(1))],
    );
    assert_eq!(s.process("http://localhost:3000/api/".to_string(), local(), 0), C);
    assert_eq!(s.process("http://localhost:3000/api/".to_string(), local(), 1_000), X);
}

#[test]
fn backend_governs_path_without_route() {
    let mut s = store(
        vec![backend("http://localhost:3000", Some("/api/"), Some(2)), backend("http://localhost:4000", None, Some(1))],
        vec![route("/other", Some(50))],
    );
    assert_eq!(s.process("http://localhost:3000/api/".to_string(), local(), 0), C);
    assert_eq!(s.process("http://localhost:3000/api/".to_string(), local(), 1), C);
    assert_eq!(s.process("http://localhost:3000/api/".to_string(), local(), 2), X);
    assert_eq!(s.process("http://localhost:4000".to_string(), local(), 3), C);
    assert_eq!(s.process("http://localhost:4000".to_string(), local(), 4), X);
    assert_eq!(s.process("http://localhost:3000".to_string(), local(), 5), N);
}

#[test]
fn unmatched_path_is_not_found() {
    let mut s = store(vec![backend("http://a", Some("/x"), Some(1))], vec![route("/r", Some(1))]);
    for i in 0..3u64 {
        assert_eq!(s.process("/nowhere".to_string(), local(), i), N);
        assert_eq!(s.process("/nowhere".to_string(), RequestIdentifier::Token("t".to_string()), i), N);
    }
    assert_eq!(s.process("".to_string(), local(), 0), N);
}

#[test]
fn callers_and_paths_are_isolated() {
    let mut s = store(vec![], vec![route("/p", Some(1)), route("/q", Some(1))]);
    assert_eq!(s.process("/p".to_string(), local(), 0), C);
    assert_eq!(s.process("/p".to_string(), local(), 1), X);
    assert_eq!(s.process("/p".to_string(), RequestIdentifier::Ip(10, 0, 0, 1), 2), C);
    assert_eq!(s.process("/q".to_string(), local(), 3), C);
}

#[test]
fn token_and_ip_are_distinct_callers() {
    let mut s = store(vec![], vec![route("/p", Some(1))]);
    assert_eq!(s.process("/p".to_string(), RequestIdentifier::Token("1.2.3.4".to_string()), 0), C);
    assert_eq!(s.process("/p".to_string(), RequestIdentifier::Ip(1, 2, 3, 4), 1), C);
    assert_eq!(s.process("/p".to_string(), RequestIdentifier::Token("1.2.3.4".to_string()), 2), X);
    assert!(RequestIdentifier::Token("1.2.3.4".to_string()) != RequestIdentifier::Ip(1, 2, 3, 4));
}

#[test]
fn later_route_with_same_url_replaces_earlier() {
    let mut s = store(vec![], vec![route("/p", Some(1)), route("/p", Some(2))]);
    assert_eq!(s.process("/p".to_string(), local(), 0), C);
    assert_eq!(s.process("/p".to_string(), local(), 1), C);
    assert_eq!(s.process("/p".to_string(), local(), 2), X);
}

#[test]
fn empty_store_finds_nothing() {
    let mut s = InMemoryStore::init_empty(0, 0);
    assert_eq!(s.process("/p".to_string(), local(), 0), N);
    let cfg = AegisConfig::new([0, 0, 0, 0], vec![], vec![route("/p", Some(3))]);
    s.fill(&cfg);
    assert_eq!(s.process("/p".to_string(), local(), 0), C);
}

#[test]
fn counter_lifecycle() {
    let (mut c, r) = DurationCount::new(3, 500);
    assert_eq!(r, C);
    assert_eq!(c, DurationCount { start: 500, remain: 2, size: 3 });
    assert_eq!(c.reduce(600), C);
    assert_eq!(c.reduce(700), C);
    assert_eq!(c.remain, 0);
    assert_eq!(c.reduce(800), X);
    assert_eq!(c.get_issue_time(), 500);
    assert_eq!(c.get_when_issued(1_500), 1_000);
    assert_eq!(c.get_when_issued(100), 0);
    c.check_or_refresh(60_499);
    assert_eq!(c.remain, 0);
    c.check_or_refresh(60_500);
    assert_eq!(c, DurationCount { start: 60_500, remain: 3, size: 3 });
    assert!(!c.is_stale(240_499));
    assert!(c.is_stale(240_500));
}
