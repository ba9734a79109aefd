use static_http::request::Request;
use static_http::validate::{is_valid_method, is_valid_protocol, is_valid_version_str, validate};

fn request(method: &str, path: &str, protocol: &str) -> Request {
    Request { method: method.to_string(), path: path.to_string(), protocol: protocol.to_string() }
}

#[test]
fn get_is_valid_method_test() {
    assert_eq!(is_valid_method("GET"), true);
}

#[test]
fn post_is_not_valid_method_test() {
    assert_eq!(is_valid_method("POST"), false);
}

#[test]
fn http_is_valid_protocol_test() {
    assert_eq!(is_valid_protocol("HTTP"), true);
}

#[test]
fn gibberish_is_not_valid_protocol_test() {
    assert_eq!(is_valid_protocol("alskds/llk"), false);
}

#[test]
fn newer_http_version_is_valid_protocol_test() {
    assert_eq!(is_valid_protocol("HTTP/1.0"), true);
}

#[test]
fn older_http_version_is_not_valid_protocol_test() {
    assert_eq!(is_valid_protocol("HTTP/0.8"), false);
}

#[test]
fn method_match_is_case_sensitive() {
    assert!(!is_valid_method("get"));
    assert!(!is_valid_method("GET "));
    assert!(!is_valid_method(""));
}

#[test]
fn version_boundary_is_nine_tenths() {
    assert!(is_valid_protocol("HTTP/0.9"));
    assert!(is_valid_protocol("HTTP/0.900"));
    assert!(!is_valid_protocol("HTTP/0.89"));
    assert!(!is_valid_protocol("HTTP/0.8999999"));
    assert!(is_valid_protocol("HTTP/.9"));
    assert!(is_valid_protocol("HTTP/1"));
    assert!(is_valid_protocol("HTTP/9."));
    assert!(is_valid_protocol("HTTP/10"));
    assert!(is_valid_protocol("HTTP/+1.1"));
    assert!(is_valid_protocol("HTTP/00.95"));
    assert!(!is_valid_protocol("HTTP/0"));
    assert!(!is_valid_protocol("HTTP/0.0"));
}

#[test]
fn malformed_versions_are_rejected() {
    assert!(!is_valid_protocol("HTTP/"));
    assert!(!is_valid_protocol("HTTP/."));
    assert!(!is_valid_protocol("HTTP/1.0.0"));
    assert!(!is_valid_protocol("HTTP/1/2"));
    assert!(!is_valid_protocol("HTTP/-1.0"));
    assert!(!is_valid_protocol("HTTP/1.x"));
    assert!(!is_valid_protocol("http/1.0"));
    assert!(!is_valid_protocol("HTTPS/1.0"));
    assert!(!is_valid_protocol("/1.0"));
    assert!(!is_valid_version_str("+"));
    assert!(is_valid_version_str("2.0"));
}

#[test]
fn unrooted_path_is_rejected() {
    assert!(!validate(&request("GET", "foo", "HTTP/1.0")));
    assert!(!validate(&request("GET", "", "HTTP/1.0")));
    assert!(validate(&request("GET", "/foo", "HTTP/1.0")));
}

#[test]
fn every_rule_must_hold() {
    assert!(validate(&request("GET", "/", "HTTP")));
    assert!(!validate(&request("POST", "/", "HTTP")));
    assert!(!validate(&request("GET", "/", "HTTP/0.5")));
}

#[test]
fn exponent_versions_follow_their_value() {
    assert!(is_valid_protocol("HTTP/1e0"));
    assert!(is_valid_protocol("HTTP/9E-1"));
    assert!(is_valid_protocol("HTTP/1.0e0"));
    assert!(is_valid_protocol("HTTP/1E+0"));
    assert!(is_valid_protocol("HTTP/0.09e1"));
    assert!(is_valid_protocol("HTTP/000.0009e3"));
    assert!(is_valid_protocol("HTTP/.9e0"));
    assert!(is_valid_protocol("HTTP/1.e1"));
    assert!(!is_valid_protocol("HTTP/8e-1"));
    assert!(!is_valid_protocol("HTTP/1e-1"));
    assert!(!is_valid_protocol("HTTP/0.0899e1"));
    assert!(!is_valid_protocol("HTTP/0e5"));
}

#[test]
fn huge_exponents_are_decided_by_their_sign() {
    assert!(is_valid_version_str("1e99999999999999999999999999"));
    assert!(!is_valid_version_str("9e-99999999999999999999999999"));
    assert!(is_valid_version_str("0.000001e18446744073709551617"));
}

#[test]
fn malformed_exponents_are_rejected() {
    assert!(!is_valid_version_str("1e"));
    assert!(!is_valid_version_str("1e+"));
    assert!(!is_valid_version_str("e1"));
    assert!(!is_valid_version_str(".e1"));
    assert!(!is_valid_version_str("1e1e1"));
    assert!(!is_valid_version_str("1e1.5"));
    assert!(!is_valid_version_str("1e--1"));
    assert!(!is_valid_version_str("inf"));
    assert!(!is_valid_version_str("NaN"));
}
