//! What the metrics endpoint reads and answers.

use bowst::telemetry::exposition::CONTENT_TYPE;
use bowst::telemetry::server::{
    keep_draining, may_listen, read_chunk, respond, route, too_large, HeadState, Route,
    DRAIN_LIMIT, MAX_REQUEST,
};
use std::cell::Cell;

/// Reads `request` in pieces as a socket gives them, and answers it.
fn exchange(scrapes: &Cell<u64>, request: &[u8]) -> String {
    let mut head = Vec::new();
    let mut state = HeadState::Partial;
    for chunk in request.chunks(512) {
        state = read_chunk(&mut head, chunk);
        if state != HeadState::Partial {
            break;
        }
    }
    if state == HeadState::Partial {
        state = read_chunk(&mut head, b"");
    }
    let response = if state == HeadState::TooLarge {
        too_large()
    } else {
        respond(&head, || {
            let n = scrapes.get() + 1;
            scrapes.set(n);
            format!("# TYPE scrapes counter\nscrapes {n}\n")
        })
    };
    String::from_utf8(response).unwrap()
}

#[test]
fn serves_metrics_to_a_scrape() {
    let scrapes = Cell::new(0);
    let response = exchange(
        &scrapes,
        b"GET /metrics HTTP/1.1\r\nHost: localhost\r\nAccept: text/plain\r\n\r\n",
    );
    assert!(response.starts_with("HTTP/1.1 200 OK\r\n"), "{response}");
    assert!(response.contains(&format!("Content-Type: {CONTENT_TYPE}\r\n")));
    assert!(response.contains("Content-Length: 33\r\n"), "{response}");
    assert!(response.ends_with("\r\n\r\n# TYPE scrapes counter\nscrapes 1\n"));
    // Rendered fresh on every scrape, and query strings are ignored.
    let again = exchange(&scrapes, b"GET /metrics?x=1 HTTP/1.0\r\n\r\n");
    assert!(again.ends_with("scrapes 2\n"), "{again}");
    assert_eq!(scrapes.get(), 2);
}

#[test]
fn only_get_metrics_is_served() {
    let scrapes = Cell::new(0);
    let cases: [(&[u8], &str); 5] = [
        (b"GET / HTTP/1.1\r\n\r\n", "404"),
        (b"GET /metricsx HTTP/1.1\r\n\r\n", "404"),
        (b"POST /metrics HTTP/1.1\r\n\r\n", "405"),
        (b"GET /metrics\r\n\r\n", "400"),
        (b"GET /metrics SPDY/3\r\n\r\n", "400"),
    ];
    for (request, code) in cases {
        let response = exchange(&scrapes, request);
        assert!(
            response.starts_with(&format!("HTTP/1.1 {code} ")),
            "{request:?} -> {response}"
        );
    }
    assert_eq!(scrapes.get(), 0, "nothing rendered");
}

#[test]
fn oversized_requests_are_refused() {
    let scrapes = Cell::new(0);
    let huge = format!(
        "GET /metrics HTTP/1.1\r\nX: {}\r\n\r\n",
        "a".repeat(MAX_REQUEST)
    );
    assert_eq!(
        exchange(&scrapes, huge.as_bytes()),
        "HTTP/1.1 431 Request Header Fields Too Large\r\nContent-Length: 0\r\nConnection: close\r\n\r\n"
    );
    assert_eq!(scrapes.get(), 0);
}

#[test]
fn refuses_non_loopback_addresses_unless_allowed() {
    assert!(!may_listen(false, false));
    assert!(may_listen(false, true));
    assert!(may_listen(true, false));
}

#[test]
fn refusals_say_what_is_allowed() {
    let answer = respond(b"DELETE /metrics HTTP/1.1\r\n\r\n", String::new);
    assert_eq!(
        String::from_utf8(answer).unwrap(),
        "HTTP/1.1 405 Method Not Allowed\r\nContent-Length: 0\r\nConnection: close\r\nAllow: GET\r\n\r\n"
    );
}

#[test]
fn request_lines_must_be_complete() {
    assert_eq!(route(b"GET /metrics HTTP/1.1\r\n"), Route::Metrics);
    assert_eq!(route(b"GET /metrics HTTP/1.1\n"), Route::BadRequest);
    assert_eq!(route(b"GET  /metrics HTTP/1.1\r\n"), Route::BadRequest);
    assert_eq!(route(b""), Route::BadRequest);
}

#[test]
fn heads_end_at_the_blank_line() {
    let mut head = Vec::new();
    assert_eq!(read_chunk(&mut head, b"GET / HTTP/1.1\r\n"), HeadState::Partial);
    assert_eq!(read_chunk(&mut head, b"\r\n"), HeadState::Complete);
    assert_eq!(head, b"GET / HTTP/1.1\r\n\r\n");
    assert_eq!(read_chunk(&mut head, b""), HeadState::Complete);
    assert!(keep_draining(DRAIN_LIMIT - 1));
    assert!(!keep_draining(DRAIN_LIMIT));
}
