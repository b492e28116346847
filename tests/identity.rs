use aegis::identity::RequestIdentifier;
use aegis::ipv4::parse_ipv4;
use aegis::origin::{strip_bearer_prefix, to_request_identifier};

fn s(x: &str) -> Option<String> {
    Some(x.to_string())
}

fn chars(x: &str) -> Vec<char> {
    x.chars().collect()
}

#[test]
fn bearer_token_wins_over_forwarded_for() {
    let r = to_request_identifier(s("Bearer abc"), s("9.9.9.9"), Some((1, 1, 1, 1)));
    assert_eq!(r, RequestIdentifier::Token("abc".to_string()));
}

#[test]
fn first_forwarded_entry_names_caller() {
    let r = to_request_identifier(None, s("9.9.9.9, 1.1.1.1"), Some((2, 2, 2, 2)));
    assert_eq!(r, RequestIdentifier::Ip(9, 9, 9, 9));
}

#[test]
fn authorization_without_bearer_is_used_verbatim() {
    let r = to_request_identifier(s("Basic xyz"), None, None);
    assert_eq!(r, RequestIdentifier::Token("Basic xyz".to_string()));
    assert_eq!(strip_bearer_prefix("Bearer "), "");
    assert_eq!(strip_bearer_prefix("Bearer Bearer t"), "Bearer t");
    assert_eq!(strip_bearer_prefix("bearer t"), "bearer t");
}

#[test]
fn forwarded_entry_is_trimmed() {
    let r = to_request_identifier(None, s(" \t10.0.0.1 ,x"), None);
    assert_eq!(r, RequestIdentifier::Ip(10, 0, 0, 1));
}

#[test]
fn unparsable_forwarded_falls_back_to_peer() {
    let r = to_request_identifier(None, s("unknown, 9.9.9.9"), Some((192, 168, 0, 7)));
    assert_eq!(r, RequestIdentifier::Ip(192, 168, 0, 7));
    let r = to_request_identifier(None, s(""), Some((5, 6, 7, 8)));
    assert_eq!(r, RequestIdentifier::Ip(5, 6, 7, 8));
}

#[test]
fn nothing_to_go_on_is_unresolved() {
    assert_eq!(to_request_identifier(None, None, None), RequestIdentifier::NoParse);
    assert_eq!(to_request_identifier(None, s("1.2.3"), None), RequestIdentifier::NoParse);
}

#[test]
fn peer_address_when_no_headers() {
    assert_eq!(to_request_identifier(None, None, Some((127, 0, 0, 1))), RequestIdentifier::Ip(127, 0, 0, 1));
}

#[test]
fn ipv4_text_is_parsed_exactly() {
    assert_eq!(parse_ipv4(&chars("0.0.0.0")), Some((0, 0, 0, 0)));
    assert_eq!(parse_ipv4(&chars("255.255.255.255")), Some((255, 255, 255, 255)));
    assert_eq!(parse_ipv4(&chars("192.168.10.1")), Some((192, 168, 10, 1)));
    assert_eq!(parse_ipv4(&chars("256.1.1.1")), None);
    assert_eq!(parse_ipv4(&chars("01.2.3.4")), None);
    assert_eq!(parse_ipv4(&chars("1.2.3.4.")), None);
    assert_eq!(parse_ipv4(&chars("1.2.3")), None);
    assert_eq!(parse_ipv4(&chars("1..2.3")), None);
    assert_eq!(parse_ipv4(&chars("1234.1.1.1")), None);
    assert_eq!(parse_ipv4(&chars(" 1.2.3.4")), None);
    assert_eq!(parse_ipv4(&chars("")), None);
}
