use balancer::msg::{serialize_request, serialize_response, extend_header_value};
use balancer::parse::{
    parse_request, parse_response, close_failure, MalformedKind, ParseError, RequestStep,
    ResponseStep,
};
use balancer::proxy::{make_http_error, status_for};

fn b(s: &str) -> Vec<u8> {
    s.as_bytes().to_vec()
}

#[test]
fn round_trip_get_request() {
    let bytes = b("GET /a HTTP/1.1\r\nHost: h\r\nx-sent-by: loadbalancer-tests\r\n\r\n");
    match parse_request(&bytes) {
        RequestStep::Done(req, consumed) => {
            assert_eq!(consumed, bytes.len());
            assert_eq!(req.method, b("GET"));
            assert_eq!(req.path, b("/a"));
            assert_eq!(req.version, b("HTTP/1.1"));
            assert_eq!(req.headers.len(), 2);
            assert_eq!(req.headers[0].name, b("Host"));
            assert_eq!(req.headers[0].value, b("h"));
            assert_eq!(req.headers[1].name, b("x-sent-by"));
            assert_eq!(req.headers[1].value, b("loadbalancer-tests"));
            assert!(req.body.is_empty());
            assert_eq!(serialize_request(&req), bytes);
        },
        _ => panic!("expected a complete request"),
    }
}

#[test]
fn round_trip_post_with_body() {
    let bytes = b("POST /first_url HTTP/1.1\r\ncontent-length: 12\r\n\r\nHello world!");
    match parse_request(&bytes) {
        RequestStep::Done(req, consumed) => {
            assert_eq!(consumed, bytes.len());
            assert_eq!(req.method, b("POST"));
            assert_eq!(req.body, b("Hello world!"));
            assert_eq!(serialize_request(&req), bytes);
        },
        _ => panic!("expected a complete request"),
    }
}

#[test]
fn header_spelling_preserved_case_insensitive_length() {
    let bytes = b("PUT /x HTTP/1.0\r\nContent-Length: 3\r\n\r\nabc");
    match parse_request(&bytes) {
        RequestStep::Done(req, consumed) => {
            assert_eq!(consumed, bytes.len());
            assert_eq!(req.headers[0].name, b("Content-Length"));
            assert_eq!(req.body, b("abc"));
            assert_eq!(serialize_request(&req), bytes);
        },
        _ => panic!("expected a complete request"),
    }
}

#[test]
fn value_leading_whitespace_is_trimmed() {
    let bytes = b("GET / HTTP/1.1\r\nHost:   spaced\r\n\r\n");
    match parse_request(&bytes) {
        RequestStep::Done(req, _) => {
            assert_eq!(req.headers[0].value, b("spaced"));
        },
        _ => panic!("expected a complete request"),
    }
}

#[test]
fn incomplete_header_block_waits() {
    let bytes = b("GET / HTT");
    assert!(matches!(parse_request(&bytes), RequestStep::NeedMoreHeader));
    let bytes = b("GET / HTTP/1.1\r\nHost: h\r\n");
    assert!(matches!(parse_request(&bytes), RequestStep::NeedMoreHeader));
}

#[test]
fn short_body_waits_then_close_is_mismatch() {
    let bytes = b("POST / HTTP/1.1\r\ncontent-length: 10\r\n\r\nabc");
    assert!(matches!(parse_request(&bytes), RequestStep::NeedMoreBody));
    let e = close_failure(true, bytes.len());
    assert_eq!(e, ParseError::ContentLengthMismatch);
    assert_eq!(status_for(&e), 400);
}

#[test]
fn close_with_no_bytes_is_graceful_end() {
    let e = close_failure(false, 0);
    assert_eq!(e, ParseError::Incomplete(0));
    let e = close_failure(false, 7);
    assert_eq!(e, ParseError::Incomplete(7));
    assert_eq!(status_for(&e), 400);
}

#[test]
fn start_line_with_wrong_token_count_is_malformed() {
    let bytes = b("GET /x\r\n\r\n");
    match parse_request(&bytes) {
        RequestStep::Fail(e) => assert_eq!(e, ParseError::Malformed(MalformedKind::StartLine)),
        _ => panic!("expected a malformed-request failure"),
    }
    let bytes = b("GET  /x HTTP/1.1\r\n\r\n");
    assert!(matches!(parse_request(&bytes), RequestStep::Fail(_)));
}

#[test]
fn unknown_version_is_malformed() {
    let bytes = b("GET / HTTP/9.9\r\n\r\n");
    match parse_request(&bytes) {
        RequestStep::Fail(e) => {
            assert_eq!(e, ParseError::Malformed(MalformedKind::UnknownVersion))
        },
        _ => panic!("expected a malformed-request failure"),
    }
}

#[test]
fn header_line_without_colon_is_malformed() {
    let bytes = b("GET / HTTP/1.1\r\nbadheader\r\n\r\n");
    match parse_request(&bytes) {
        RequestStep::Fail(e) => assert_eq!(e, ParseError::Malformed(MalformedKind::HeaderLine)),
        _ => panic!("expected a malformed-request failure"),
    }
}

#[test]
fn duplicate_content_length_is_invalid() {
    let bytes = b("GET / HTTP/1.1\r\ncontent-length: 1\r\nContent-Length: 1\r\n\r\nx");
    match parse_request(&bytes) {
        RequestStep::Fail(e) => assert_eq!(e, ParseError::InvalidContentLength),
        _ => panic!("expected an invalid-content-length failure"),
    }
}

#[test]
fn non_numeric_content_length_is_invalid() {
    let bytes = b("GET / HTTP/1.1\r\ncontent-length: 12a\r\n\r\n");
    match parse_request(&bytes) {
        RequestStep::Fail(e) => assert_eq!(e, ParseError::InvalidContentLength),
        _ => panic!("expected an invalid-content-length failure"),
    }
    assert_eq!(status_for(&ParseError::InvalidContentLength), 400);
}

#[test]
fn oversized_declared_body_is_rejected_before_reading() {
    let bytes = b("POST / HTTP/1.1\r\ncontent-length: 10000001\r\n\r\n");
    match parse_request(&bytes) {
        RequestStep::Fail(e) => {
            assert_eq!(e, ParseError::BodyTooLarge);
            assert_eq!(status_for(&e), 413);
        },
        _ => panic!("expected a body-too-large failure"),
    }
    let bytes = b("POST / HTTP/1.1\r\ncontent-length: 999999999999999999999999\r\n\r\n");
    assert!(matches!(parse_request(&bytes), RequestStep::Fail(ParseError::BodyTooLarge)));
}

#[test]
fn largest_allowed_declared_length_is_accepted() {
    let bytes = b("POST / HTTP/1.1\r\ncontent-length: 10000000\r\n\r\n");
    assert!(matches!(parse_request(&bytes), RequestStep::NeedMoreBody));
}

#[test]
fn response_parse_and_round_trip() {
    let bytes = b("HTTP/1.1 200 OK\r\ncontent-length: 5\r\n\r\nhello");
    match parse_response(&bytes, false) {
        ResponseStep::Done(resp, consumed) => {
            assert_eq!(consumed, bytes.len());
            assert_eq!(resp.status, 200);
            assert_eq!(resp.reason, b("OK"));
            assert_eq!(resp.body, b("hello"));
            assert_eq!(serialize_response(&resp), bytes);
        },
        _ => panic!("expected a complete response"),
    }
}

#[test]
fn response_reason_may_hold_spaces() {
    let bytes = b("HTTP/1.1 404 Not Found\r\ncontent-length: 0\r\n\r\n");
    match parse_response(&bytes, false) {
        ResponseStep::Done(resp, _) => {
            assert_eq!(resp.status, 404);
            assert_eq!(resp.reason, b("Not Found"));
        },
        _ => panic!("expected a complete response"),
    }
}

#[test]
fn response_body_suppressed_for_head_requests() {
    let bytes = b("HTTP/1.1 200 OK\r\ncontent-length: 5\r\n\r\nhello");
    match parse_response(&bytes, true) {
        ResponseStep::Done(resp, consumed) => {
            assert!(resp.body.is_empty());
            assert_eq!(consumed, bytes.len() - 5);
        },
        _ => panic!("expected a complete response"),
    }
}

#[test]
fn response_with_bad_status_token_is_malformed() {
    let bytes = b("HTTP/1.1 2x0 OK\r\n\r\n");
    match parse_response(&bytes, false) {
        ResponseStep::Fail(e) => assert_eq!(e, ParseError::Malformed(MalformedKind::StatusCode)),
        _ => panic!("expected a malformed-response failure"),
    }
}

#[test]
fn synthesized_error_responses_are_minimal_and_well_formed() {
    let resp = make_http_error(502);
    assert_eq!(
        serialize_response(&resp),
        b("HTTP/1.1 502 Bad Gateway\r\ncontent-length: 0\r\n\r\n")
    );
    let resp = make_http_error(400);
    assert_eq!(
        serialize_response(&resp),
        b("HTTP/1.1 400 Bad Request\r\ncontent-length: 0\r\n\r\n")
    );
    let resp = make_http_error(413);
    assert_eq!(
        serialize_response(&resp),
        b("HTTP/1.1 413 Payload Too Large\r\ncontent-length: 0\r\n\r\n")
    );
    let resp = make_http_error(503);
    assert_eq!(
        serialize_response(&resp),
        b("HTTP/1.1 503 Service Unavailable\r\ncontent-length: 0\r\n\r\n")
    );
}

#[test]
fn forwarded_for_appends_to_existing_chain() {
    let bytes = b("GET / HTTP/1.1\r\nx-forwarded-for: 10.0.0.1\r\nHost: h\r\n\r\n");
    let mut req = match parse_request(&bytes) {
        RequestStep::Done(req, _) => req,
        _ => panic!("expected a complete request"),
    };
    extend_header_value(&mut req, &b("x-forwarded-for"), &b("127.0.0.1"));
    assert_eq!(req.headers.len(), 2);
    assert_eq!(req.headers[0].name, b("x-forwarded-for"));
    assert_eq!(req.headers[0].value, b("10.0.0.1, 127.0.0.1"));
    assert_eq!(req.headers[1].name, b("Host"));
    assert_eq!(req.headers[1].value, b("h"));
    let out = String::from_utf8(serialize_request(&req)).unwrap();
    assert!(out.contains("x-forwarded-for: 10.0.0.1, 127.0.0.1"));
}

#[test]
fn forwarded_for_created_when_absent() {
    let bytes = b("GET / HTTP/1.1\r\nHost: h\r\n\r\n");
    let mut req = match parse_request(&bytes) {
        RequestStep::Done(req, _) => req,
        _ => panic!("expected a complete request"),
    };
    extend_header_value(&mut req, &b("x-forwarded-for"), &b("127.0.0.1"));
    assert_eq!(req.headers.len(), 2);
    assert_eq!(req.headers[1].name, b("x-forwarded-for"));
    assert_eq!(req.headers[1].value, b("127.0.0.1"));
    let out = String::from_utf8(serialize_request(&req)).unwrap();
    assert!(out.contains("x-forwarded-for: 127.0.0.1"));
}

#[test]
fn extend_matches_names_case_insensitively() {
    let bytes = b("GET / HTTP/1.1\r\nX-Forwarded-For: 10.0.0.1\r\n\r\n");
    let mut req = match parse_request(&bytes) {
        RequestStep::Done(req, _) => req,
        _ => panic!("expected a complete request"),
    };
    extend_header_value(&mut req, &b("x-forwarded-for"), &b("127.0.0.1"));
    assert_eq!(req.headers.len(), 1);
    assert_eq!(req.headers[0].name, b("X-Forwarded-For"));
    assert_eq!(req.headers[0].value, b("10.0.0.1, 127.0.0.1"));
}
