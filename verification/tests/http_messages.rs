use rinha_fraud::http::{
    buffered_message, content_length_at, fast_known_post_header_bounds, find_header_body_boundary,
    find_post_header_bounds, http_message_bounds_direct, http_response, parse_header_usize, route,
    DirectHttpMessage, Route,
};

const KNOWN: &str = "POST /fraud-score HTTP/1.1\r\nHost: localhost:9999\r\nUser-Agent: Grafana k6/2.0.0\r\nContent-Length: 123\r\nContent-Type: application/json\r\n\r\n";

#[test]
fn get_messages_end_with_the_first_empty_line() {
    let text = b"GET /ready HTTP/1.1\r\nHost: x\r\n\r\nrest\r\n\r\n";
    assert_eq!(find_header_body_boundary(text), Some((28, 32)));
    assert_eq!(
        buffered_message(text),
        Some(DirectHttpMessage { body_start: 32, message_end: 32 })
    );
    assert_eq!(find_header_body_boundary(b"GET / HTTP/1.1\r\n\r"), None);
    assert!(buffered_message(b"").is_none());
}

#[test]
fn known_headers_are_read_at_once() {
    let bytes = KNOWN.as_bytes();
    assert_eq!(bytes.len(), 135);
    assert_eq!(fast_known_post_header_bounds(bytes), Some((135, 123)));
    assert_eq!(find_post_header_bounds(bytes), Some((135, 123)));
    let long = KNOWN.replace("123", "12345");
    assert_eq!(fast_known_post_header_bounds(long.as_bytes()), Some((137, 12_345)));
    assert_eq!(find_post_header_bounds(long.as_bytes()), None);
    let none = KNOWN.replace("123", "");
    assert_eq!(fast_known_post_header_bounds(none.as_bytes()), None);
    let huge = KNOWN.replace("123", "99999999999999999999999");
    assert_eq!(fast_known_post_header_bounds(huge.as_bytes()), None);
    let full = KNOWN.replace("123", "18446744073709551615");
    assert_eq!(
        fast_known_post_header_bounds(full.as_bytes()),
        Some((152, 18_446_744_073_709_551_615))
    );
    assert_eq!(http_message_bounds_direct(full.as_bytes()), None);
}

#[test]
fn any_header_may_give_the_length() {
    let text = b"POST / HTTP/1.1\r\ncontent-length: 007\r\nX: y\r\n\r\nabcdefg";
    assert_eq!(find_post_header_bounds(text), Some((46, 7)));
    assert_eq!(
        buffered_message(text),
        Some(DirectHttpMessage { body_start: 46, message_end: 53 })
    );
    assert!(buffered_message(&text[..52]).is_none());
    assert_eq!(
        http_message_bounds_direct(&text[..50]),
        Some(DirectHttpMessage { body_start: 46, message_end: 53 })
    );
}

#[test]
fn the_last_length_line_counts() {
    let text = b"PUT / HTTP/1.1\r\nContent-Length: 100\r\ncontent-length: 002\r\n\r\nab";
    assert_eq!(find_post_header_bounds(text).map(|found| found.1), Some(2));
    let spoiled = b"PUT / HTTP/1.1\r\nContent-Length: 100\r\ncontent-length: 2\r\n\r\nab";
    assert_eq!(find_post_header_bounds(spoiled), None);
    let mixed = b"PUT / HTTP/1.1\r\nContent-length: 100\r\n\r\nab";
    assert_eq!(find_post_header_bounds(mixed), None);
}

#[test]
fn lengths_take_three_digits() {
    assert_eq!(parse_header_usize(b" 042\r", 0), Some(42));
    assert_eq!(parse_header_usize(b" 999 ", 0), Some(999));
    assert_eq!(parse_header_usize(b" 9999", 0), None);
    assert_eq!(parse_header_usize(b" 99\r\n", 0), None);
    assert_eq!(parse_header_usize(b" 042", 0), None);
    assert_eq!(parse_header_usize(b"0042\r", 0), None);
    assert!(content_length_at(b"Content-Length: 1", 0));
    assert!(content_length_at(b"content-length:", 0));
    assert!(!content_length_at(b"Content-length:", 0));
    assert!(!content_length_at(b"Content-Length", 0));
}

#[test]
fn bounds_stay_when_more_bytes_arrive() {
    let body = "x".repeat(123);
    for text in [
        format!("{KNOWN}{body}GET / HTTP/1.1\r\n\r\n"),
        format!("POST / HTTP/1.1\r\nContent-Length: 123\r\n\r\n{body}{KNOWN}"),
        "GET /ready HTTP/1.1\r\n\r\nPOST".to_string(),
    ] {
        let bytes = text.as_bytes();
        let mut settled = None;
        for end in 0..=bytes.len() {
            let now = http_message_bounds_direct(&bytes[..end]);
            if settled.is_some() {
                assert_eq!(now, settled);
            }
            settled = now;
        }
        assert!(settled.is_some());
    }
}

#[test]
fn requests_are_routed_by_method_and_path() {
    assert_eq!(route(b"POST /fraud-score HTTP/1.1\r\n"), Route::Score);
    assert_eq!(route(KNOWN.as_bytes()), Route::Score);
    assert_eq!(route(b"GET /ready HTTP/1.1\r\n"), Route::Ready);
    assert_eq!(route(b"GET /other HTTP/1.1\r\n"), Route::NotFound);
    assert_eq!(route(b"POST / HTTP/1.1\r\n"), Route::NotFound);
    assert_eq!(route(b"GET /fraud-score HTTP/1.1\r\n"), Route::NotFound);
    assert_eq!(route(b"POST /ready HTTP/1.1\r\n"), Route::NotFound);
    assert_eq!(route(b"GET /ready"), Route::NotFound);
    assert_eq!(route(b""), Route::NotFound);
}

#[test]
fn answers_announce_their_length() {
    let cases = [
        (http_response(Route::Score, 0), "{\"approved\":true,\"fraud_score\":0}", "200 OK"),
        (http_response(Route::Score, 5), "{\"approved\":false,\"fraud_score\":1}", "200 OK"),
        (http_response(Route::Score, 1), "{\"approved\":false,\"fraud_score\":1}", "200 OK"),
        (http_response(Route::Ready, 0), "ok", "200 OK"),
        (http_response(Route::NotFound, 0), "", "404 Not Found"),
    ];
    for (response, body, status) in cases {
        let text = std::str::from_utf8(response).unwrap();
        let (head, rest) = text.split_once("\r\n\r\n").unwrap();
        assert_eq!(rest, body);
        assert!(head.starts_with(&format!("HTTP/1.1 {status}\r\n")));
        assert!(head.contains(&format!("content-length: {}", body.len())));
    }
    assert!(http_response(Route::NotFound, 0).ends_with(b"connection: close\r\n\r\n"));
}
