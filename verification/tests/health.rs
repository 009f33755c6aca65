use oxygn::health::{check_kind, health_check_request, response_is_healthy, status_is_healthy, HealthCheckKind};

#[test]
fn check_kind_from_configuration() {
    assert!(matches!(check_kind("http"), HealthCheckKind::Http));
    assert!(matches!(check_kind("tcp"), HealthCheckKind::Tcp));
    assert!(matches!(check_kind("HTTP"), HealthCheckKind::Tcp));
    assert!(matches!(check_kind(""), HealthCheckKind::Tcp));
}

#[test]
fn health_check_request_text() {
    assert_eq!(
        health_check_request("/health", "127.0.0.1:8080"),
        "GET /health HTTP/1.1\r\nHost: 127.0.0.1:8080\r\nConnection: close\r\n\r\n"
    );
    assert_eq!(
        health_check_request("/api/health", "10.0.0.2:3001"),
        "GET /api/health HTTP/1.1\r\nHost: 10.0.0.2:3001\r\nConnection: close\r\n\r\n"
    );
}

#[test]
fn healthy_statuses_are_200_to_399() {
    assert!(!status_is_healthy(199));
    assert!(status_is_healthy(200));
    assert!(status_is_healthy(301));
    assert!(status_is_healthy(399));
    assert!(!status_is_healthy(400));
    assert!(!status_is_healthy(503));
}

#[test]
fn replies_with_good_status_lines() {
    assert!(response_is_healthy(b"HTTP/1.1 200 OK\r\nContent-Length: 0\r\n\r\n"));
    assert!(response_is_healthy(b"HTTP/1.0 302 Found\r\n"));
    assert!(response_is_healthy(b"HTTP/1.1 399"));
    assert!(response_is_healthy(b"  HTTP/1.1 \t 204   No Content\n"));
    assert!(response_is_healthy(b"HTTP/1.1 +200 OK"));
    assert!(response_is_healthy(b"HTTP/1.1 0200 OK"));
    assert!(response_is_healthy(b"HTTP/1.10 200 OK"));
    // the words may be separated by a non-ASCII white space character
    assert!(response_is_healthy("HTTP/1.1\u{a0}200 OK".as_bytes()));
    assert!(response_is_healthy("HTTP/1.1\u{3000}200".as_bytes()));
    // an invalid byte is part of the word it stands in
    assert!(response_is_healthy(b"HTTP/1.1\xff 200 OK"));
}

#[test]
fn replies_with_bad_status_lines() {
    assert!(!response_is_healthy(b""));
    assert!(!response_is_healthy(b"\r\nHTTP/1.1 200 OK"));
    assert!(!response_is_healthy(b"HTTP/1.1 404 Not Found\r\n"));
    assert!(!response_is_healthy(b"HTTP/1.1 500"));
    assert!(!response_is_healthy(b"HTTP/1.1 199"));
    assert!(!response_is_healthy(b"HTTP/2 200 OK"));
    assert!(!response_is_healthy(b"http/1.1 200 OK"));
    assert!(!response_is_healthy(b"HTTP/1.1"));
    assert!(!response_is_healthy(b"HTTP/1.1 70000"));
    assert!(!response_is_healthy(b"HTTP/1.1 -200"));
    assert!(!response_is_healthy(b"HTTP/1.1 + 200"));
    assert!(!response_is_healthy(b"HTTP/1.1 2OO OK"));
    assert!(!response_is_healthy(b"HTTP/1.1 200\xff OK"));
    assert!(!response_is_healthy(b"HTTP/1.1\n200 OK"));
    // U+001C is no white space for Rust, so it joins the words
    assert!(!response_is_healthy(b"HTTP/1.1\x1c200 OK"));
}
