use aegis::admission::{decide_request, Admission};
use aegis::config::{AegisConfig, BackendConfig, ConfigError, RouteConfig};
use aegis::identity::RequestIdentifier;
use aegis::origin::to_request_identifier;

fn sample() -> AegisConfig {
    AegisConfig::new(
        [127, 0, 0, 1],
        vec![
            BackendConfig {
                name: Some("apache-one".to_string()),
                prefix: Some("/api/".to_string()),
                url: "http://localhost:3000".to_string(),
                rate_limit_ip_min: Some(10),
                rate_limit_token_min: Some(20),
            },
            BackendConfig {
                name: Some("apache-two".to_string()),
                prefix: None,
                url: "http://localhost:4000".to_string(),
                rate_limit_ip_min: Some(1),
                rate_limit_token_min: Some(20),
            },
        ],
        vec![RouteConfig {
            name: Some("route-one".to_string()),
            url: "http://localhost:300/route".to_string(),
            rate_limit_ip_min: Some(50),
            rate_limit_token_min: Some(100),
        }],
    )
}

#[test]
fn config_accessors() {
    let c = sample();
    assert_eq!(c.get_address(), [127, 0, 0, 1]);
    assert_eq!(c.backend_config().len(), 2);
    assert_eq!(c.backend_config()[0].url, "http://localhost:3000");
    assert_eq!(c.route_config()[0].rate_limit_ip_min, Some(50));
    assert!(c.validate_config().is_ok());
}

#[test]
fn zero_quota_is_rejected() {
    let c = AegisConfig::new(
        [0, 0, 0, 0],
        vec![],
        vec![RouteConfig { name: None, url: "/r".to_string(), rate_limit_ip_min: Some(0), rate_limit_token_min: None }],
    );
    assert!(matches!(c.validate_config(), Err(ConfigError::ValidationError(_))));
    let c = AegisConfig::new(
        [0, 0, 0, 0],
        vec![BackendConfig { name: None, prefix: None, url: "/b".to_string(), rate_limit_ip_min: Some(0), rate_limit_token_min: None }],
        vec![],
    );
    assert!(matches!(c.validate_config(), Err(ConfigError::ValidationError(_))));
}

#[test]
fn backend_key_joins_url_and_prefix() {
    let mut store = sample().to_store();
    let id = RequestIdentifier::Ip(1, 2, 3, 4);
    assert_eq!(decide_request(&mut store, "http://localhost:3000/api/".to_string(), id, 0), Admission::Proceed);
    let id = RequestIdentifier::Ip(1, 2, 3, 4);
    assert_eq!(decide_request(&mut store, "http://localhost:3000".to_string(), id, 0), Admission::NotFound);
    let id = RequestIdentifier::Ip(1, 2, 3, 4);
    assert_eq!(decide_request(&mut store, "http://localhost:4000".to_string(), id, 0), Admission::Proceed);
    let id = RequestIdentifier::Ip(1, 2, 3, 4);
    assert_eq!(decide_request(&mut store, "http://localhost:4000".to_string(), id, 1), Admission::TooManyRequests);
}

#[test]
fn unidentified_caller_is_a_bad_request() {
    let mut store = sample().to_store();
    let id = to_request_identifier(None, None, None);
    let a = decide_request(&mut store, "http://localhost:300/route".to_string(), id, 0);
    assert_eq!(a, Admission::BadRequest);
    assert_eq!(a.status_code(), 400);
    assert_eq!(a.error_text(), "Could not identify request origin");
    assert_eq!(a.message_text(), "No valid authorization token or IP address found");
}

#[test]
fn rejection_bodies() {
    assert_eq!(Admission::Proceed.status_code(), 200);
    assert_eq!(Admission::Proceed.error_text(), "");
    assert_eq!(Admission::NotFound.status_code(), 404);
    assert_eq!(Admission::NotFound.error_text(), "Requested resource was not found on this server");
    assert_eq!(Admission::NotFound.message_text(), "The requested resource of route was not found");
    assert_eq!(Admission::TooManyRequests.status_code(), 429);
    assert_eq!(Admission::TooManyRequests.error_text(), "The rate limit has been exceeded");
    assert_eq!(
        Admission::TooManyRequests.message_text(),
        "The rate limit has been exceeded for the request identifier"
    );
}
