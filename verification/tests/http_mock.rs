//! HTTP-side decisions and the mock server's routing table.

use quickurl::http::{host_header_value, normalize_method, timeout_armed, ClientErrorKind, HttpMethod};
use quickurl::mock::{
    default_method, default_status_code, match_route, parse_routes, MockConfig, Route, RouteConfig,
};
use quickurl::ui::{format_number, truncate_string};

#[test]
fn test_method_normalization() {
    assert_eq!(normalize_method("get"), HttpMethod::Get);
    assert_eq!(normalize_method("Post"), HttpMethod::Post);
    assert_eq!(normalize_method("DELETE"), HttpMethod::Delete);
    assert_eq!(normalize_method("options"), HttpMethod::Options);
    assert_eq!(normalize_method("brew"), HttpMethod::Get);
    assert_eq!(HttpMethod::Patch.name(), "PATCH");
}

#[test]
fn test_host_header() {
    assert_eq!(host_header_value("example.com", None), "example.com");
    assert_eq!(host_header_value("example.com", Some(8080)), "example.com:8080");
}

#[test]
fn test_timeout_armed_for_every_positive_timeout() {
    assert!(!timeout_armed(0));
    assert!(timeout_armed(100));
    assert!(timeout_armed(999));
    assert!(timeout_armed(1000));
    assert!(timeout_armed(30_000));
}

#[test]
fn test_client_error_labels() {
    assert_eq!(ClientErrorKind::InvalidUrl.label(), "Invalid URL");
    assert_eq!(ClientErrorKind::ConnectFailed.label(), "Failed to connect");
    assert_eq!(ClientErrorKind::HandshakeFailed.label(), "Failed to handshake");
    assert_eq!(ClientErrorKind::SendFailed.label(), "Request failed");
    assert_eq!(ClientErrorKind::Timeout.label(), "Request timeout");
    assert_eq!(ClientErrorKind::BuildRequestFailed.label(), "Failed to build request");
}

#[test]
fn test_parse_routes_normalizes() {
    let routes = parse_routes(Some(vec![
        RouteConfig {
            path: "/ok".to_string(),
            method: "post".to_string(),
            status_code: 201,
            response: Some("done".to_string()),
            delay: Some("250ms".to_string()),
            echo: false,
        },
        RouteConfig {
            path: "/odd".to_string(),
            method: "brew".to_string(),
            status_code: 42,
            response: None,
            delay: Some("nonsense".to_string()),
            echo: true,
        },
    ]));
    assert_eq!(routes.len(), 2);
    assert_eq!(routes[0].method, HttpMethod::Post);
    assert_eq!(routes[0].status_code, 201);
    assert_eq!(routes[0].delay_ms, Some(250));
    assert_eq!(routes[0].response.as_deref(), Some("done"));
    assert_eq!(routes[1].method, HttpMethod::Get);
    assert_eq!(routes[1].status_code, 200);
    assert_eq!(routes[1].delay_ms, None);
    assert!(routes[1].echo);
    assert!(parse_routes(None).is_empty());
}

#[test]
fn test_match_route_takes_first_hit() {
    let routes = vec![
        Route {
            path: "/a".to_string(),
            method: HttpMethod::Get,
            status_code: 200,
            response: None,
            delay_ms: None,
            echo: false,
        },
        Route {
            path: "*".to_string(),
            method: HttpMethod::Get,
            status_code: 204,
            response: None,
            delay_ms: None,
            echo: true,
        },
    ];
    assert_eq!(match_route(&routes, HttpMethod::Get, "/a"), Some(0));
    assert_eq!(match_route(&routes, HttpMethod::Get, "/b"), Some(1));
    assert_eq!(match_route(&routes, HttpMethod::Post, "/a"), None);
}

#[test]
fn test_mock_defaults() {
    assert_eq!(default_method(), "GET");
    assert_eq!(default_status_code(), 200);
    let cfg = MockConfig { port: Some(9090), routes: None };
    assert_eq!(cfg.port, Some(9090));
}

#[test]
fn test_format_number_suffixes() {
    assert_eq!(format_number(999), "999");
    assert_eq!(format_number(1_000), "1.0K");
    assert_eq!(format_number(1_234), "1.2K");
    assert_eq!(format_number(1_250), "1.3K");
    assert_eq!(format_number(999_949), "999.9K");
    assert_eq!(format_number(1_500_000), "1.5M");
    assert_eq!(format_number(12_345_678), "12.3M");
}

#[test]
fn test_truncate_string_keeps_short_text() {
    assert_eq!(truncate_string("hello", 10), "hello");
    assert_eq!(truncate_string("hello world", 8), "hello...");
    assert_eq!(truncate_string("abcdef", 3), "...");
}
