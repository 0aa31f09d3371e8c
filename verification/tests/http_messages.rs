use rinha_vini::bytes::{find_after, find_key, find_subseq, read_decimal};
use rinha_vini::http::{
    classify_route, find_double_crlf, header_match, itoa_u32, parse_request_head,
    read_request_head, render_response, Route,
};
use rinha_vini::service::{respond, score_request};

#[test]
fn keys_are_found_at_their_first_place() {
    assert_eq!(find_key(b"abcabc", b"bc"), Some(1));
    assert_eq!(find_key(b"abcabc", b"x"), None);
    assert_eq!(find_key(b"ab", b"abc"), None);
    assert_eq!(find_key(b"abc", b""), Some(0));
    assert_eq!(find_after(b"abcabc", b"bc", 0), Some(3));
    assert_eq!(find_after(b"abcabc", b"bc", 2), Some(6));
    assert_eq!(find_after(b"abcabc", b"bc", 5), None);
    assert_eq!(find_after(b"abc", b"", 4), None);
    assert_eq!(find_subseq(b"abcabc", b"ca"), Some(2));
    assert_eq!(find_subseq(b"abc", b""), None);
}

#[test]
fn decimal_runs_are_read() {
    assert_eq!(read_decimal(b"x123y", 1), Some(123));
    assert_eq!(read_decimal(b"abc", 0), Some(0));
    assert_eq!(read_decimal(b"", 0), Some(0));
    assert_eq!(
        read_decimal(b"18446744073709551615", 0),
        Some(18446744073709551615)
    );
    assert_eq!(read_decimal(b"18446744073709551616", 0), None);
    assert_eq!(read_decimal(b"99999999999999999999999999", 0), None);
}

#[test]
fn digits_are_written() {
    assert_eq!(itoa_u32(0), b"0".to_vec());
    assert_eq!(itoa_u32(7), b"7".to_vec());
    assert_eq!(itoa_u32(10), b"10".to_vec());
    assert_eq!(itoa_u32(4096), b"4096".to_vec());
    assert_eq!(itoa_u32(4294967295), b"4294967295".to_vec());
}

#[test]
fn digits_written_are_read_back() {
    for n in [0u32, 1, 9, 10, 99, 100, 35, 36, 123456, 4294967295] {
        let digits = itoa_u32(n);
        assert_eq!(read_decimal(&digits, 0), Some(n as usize));
    }
}

#[test]
fn the_blank_line_is_found() {
    assert_eq!(find_double_crlf(b"GET / HTTP/1.1\r\n\r\nrest"), Some(14));
    assert_eq!(find_double_crlf(b"GET / HTTP/1.1\r\n"), None);
    assert_eq!(find_double_crlf(b"\r\n"), None);
    assert_eq!(find_double_crlf(b"\r\n\r\n\r\n"), Some(0));
}

#[test]
fn header_names_ignore_case() {
    assert!(header_match(b"Content-Length: 3", 0, b"content-length:"));
    assert!(header_match(b"xxCONNECTION:", 2, b"connection:"));
    assert!(!header_match(b"Content-Lengt", 0, b"content-length:"));
    assert!(!header_match(b"Content-Lengthy", 0, b"content-length:"));
    assert!(!header_match(b"abc", 9, b"a"));
    assert!(header_match(b"abc", 3, b""));
}

#[test]
fn a_request_head_is_read() {
    let req = b"POST /fraud-score HTTP/1.1\r\nHost: x\r\nCONTENT-length: \t 42\r\nConnection:  Close";
    let (method, path, length, keep) = parse_request_head(req);
    assert_eq!(method, b"POST");
    assert_eq!(path, b"/fraud-score");
    assert_eq!(length, 42);
    assert!(!keep);
}

#[test]
fn a_bare_request_line_has_no_body_and_stays_open() {
    let (method, path, length, keep) = parse_request_head(b"GET /ready HTTP/1.1");
    assert_eq!(method, b"GET");
    assert_eq!(path, b"/ready");
    assert_eq!(length, 0);
    assert!(keep);
    let (method, path, _, _) = parse_request_head(b"GET ");
    assert_eq!(method, b"GET");
    assert_eq!(path, b"");
}

#[test]
fn the_last_content_length_counts() {
    let (_, _, length, _) =
        parse_request_head(b"GET / X\r\nContent-Length: 5\r\nContent-Length: 7\r\nA: b");
    assert_eq!(length, 7);
    let (_, _, length, _) = parse_request_head(b"GET / X\r\nContent-Length: 5\r\nContent-Length: x");
    assert_eq!(length, 0);
}

#[test]
fn keep_alive_is_no_close() {
    let (_, _, _, keep) = parse_request_head(b"GET / X\r\nConnection: keep-alive");
    assert!(keep);
    let (_, _, _, keep) = parse_request_head(b"GET / X\r\nConnection: closed");
    assert!(!keep);
    let (_, _, _, keep) = parse_request_head(b"GET / X\r\nConnection: clos");
    assert!(keep);
}

#[test]
fn unreadable_heads_are_told() {
    assert!(read_request_head(b"").is_none());
    assert!(read_request_head(b"nospace").is_none());
    assert!(
        read_request_head(b"GET / X\r\nContent-Length: 99999999999999999999\r\nA: b").is_none()
    );
    assert!(read_request_head(b"GET / X").is_some());
}

#[test]
fn routes_are_told_apart() {
    assert_eq!(classify_route(b"GET", b"/ready"), Route::Ready);
    assert_eq!(classify_route(b"POST", b"/fraud-score"), Route::FraudScore);
    assert_eq!(classify_route(b"POST", b"/ready"), Route::Other);
    assert_eq!(classify_route(b"GET", b"/fraud-score"), Route::Other);
    assert_eq!(classify_route(b"get", b"/ready"), Route::Other);
    assert_eq!(classify_route(b"", b""), Route::Other);
}

fn rendered(approved: bool, fifths: u32, keep_alive: bool) -> String {
    let mut out = b">".to_vec();
    render_response(&mut out, approved, fifths, keep_alive);
    String::from_utf8(out).unwrap()
}

#[test]
fn scores_are_rendered() {
    assert_eq!(
        rendered(true, 0, true),
        ">HTTP/1.1 200 OK\r\nContent-Type: application/json\r\nContent-Length: 35\r\nConnection: keep-alive\r\n\r\n{\"approved\":true,\"fraud_score\":0.0}"
    );
    assert_eq!(
        rendered(false, 5, false),
        ">HTTP/1.1 200 OK\r\nContent-Type: application/json\r\nContent-Length: 36\r\nConnection: close\r\n\r\n{\"approved\":false,\"fraud_score\":1.0}"
    );
    assert!(rendered(true, 1, true).ends_with("{\"approved\":true,\"fraud_score\":0.2}"));
    assert!(rendered(true, 2, true).ends_with("{\"approved\":true,\"fraud_score\":0.4}"));
    assert!(rendered(false, 3, true).ends_with("{\"approved\":false,\"fraud_score\":0.6}"));
    assert!(rendered(false, 4, true).ends_with("{\"approved\":false,\"fraud_score\":0.8}"));
}

#[test]
fn other_decisions_are_rendered_as_approval() {
    assert!(rendered(true, 3, true).ends_with("{\"approved\":true,\"fraud_score\":0.0}"));
    assert!(rendered(false, 6, true).ends_with("{\"approved\":true,\"fraud_score\":0.0}"));
}

#[test]
fn three_frauds_of_five_are_too_many() {
    assert_eq!(score_request(Some(0)), (true, 0));
    assert_eq!(score_request(Some(2)), (true, 2));
    assert_eq!(score_request(Some(3)), (false, 3));
    assert_eq!(score_request(Some(5)), (false, 5));
    assert_eq!(score_request(None), (true, 0));
}

#[test]
fn every_route_is_answered() {
    assert_eq!(
        respond(Route::Ready, None, false),
        b"HTTP/1.1 200 OK\r\nContent-Length: 2\r\nConnection: keep-alive\r\n\r\nok".to_vec()
    );
    assert_eq!(
        respond(Route::Other, Some(5), true),
        b"HTTP/1.1 404 Not Found\r\nContent-Length: 0\r\nConnection: close\r\n\r\n".to_vec()
    );
    assert_eq!(
        respond(Route::FraudScore, None, true),
        respond(Route::FraudScore, Some(0), true)
    );
    assert!(respond(Route::FraudScore, Some(4), true)
        .ends_with(b"{\"approved\":false,\"fraud_score\":0.8}"));
}

#[test]
fn responses_announce_the_length_of_their_bodies() {
    for route in [Route::Ready, Route::FraudScore, Route::Other] {
        for frauds in [None, Some(0), Some(1), Some(2), Some(3), Some(4), Some(5)] {
            for keep in [true, false] {
                let r = respond(route, frauds, keep);
                let p = find_double_crlf(&r).unwrap();
                let (_, _, length, _) = parse_request_head(&r[..p]);
                assert_eq!(length, r.len() - p - 4);
            }
        }
    }
}
