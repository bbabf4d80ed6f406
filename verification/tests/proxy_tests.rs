use balancer::msg::{serialize_request, serialize_response, Request, Response};
use balancer::parse::{parse_request, parse_response, ParseError, RequestStep, ResponseStep};
use balancer::proxy::{
    make_http_error, ConfigError, ProxyAction, ProxyConfig, ProxyConn, ProxyEvent, ProxyPhase,
};

fn b(s: &str) -> Vec<u8> {
    s.as_bytes().to_vec()
}

fn parse_req(bytes: &Vec<u8>) -> Request {
    match parse_request(bytes) {
        RequestStep::Done(req, _) => req,
        _ => panic!("expected a complete request"),
    }
}

fn parse_resp(bytes: &Vec<u8>, suppress: bool) -> Response {
    match parse_response(bytes, suppress) {
        ResponseStep::Done(resp, _) => resp,
        _ => panic!("expected a complete response"),
    }
}

#[test]
fn config_refuses_empty_upstream_set() {
    let r = ProxyConfig::new(
        String::from("0.0.0.0:1100"),
        Vec::new(),
        10,
        String::from("/"),
        0,
    );
    assert!(matches!(r, Err(ConfigError::NoUpstreams)));
}

#[test]
fn config_keeps_fields() {
    let upstreams = vec![String::from("127.0.0.1:8080"), String::from("127.0.0.1:8081")];
    let c = ProxyConfig::new(String::from("0.0.0.0:1100"), upstreams, 10, String::from("/"), 0)
        .expect("a non-empty upstream set must be accepted");
    assert_eq!(c.bind, "0.0.0.0:1100");
    assert_eq!(c.upstreams.len(), 2);
    assert_eq!(c.active_health_check_interval, 10);
    assert_eq!(c.active_health_check_path, "/");
    assert_eq!(c.max_requests_per_minute, 0);
}

#[test]
fn chosen_upstream_is_always_in_range() {
    let upstreams = vec![
        String::from("a:1"),
        String::from("b:2"),
        String::from("c:3"),
    ];
    let c = ProxyConfig::new(String::from("0.0.0.0:1100"), upstreams, 10, String::from("/"), 0)
        .expect("a non-empty upstream set must be accepted");
    let mut i: usize = 0;
    while i < 200 {
        assert!(c.choose_upstream() < 3);
        i += 1;
    }
}

#[test]
fn upstream_unreachable_yields_502_and_close() {
    let mut conn = ProxyConn::new(b("127.0.0.1"));
    match conn.step(ProxyEvent::Connected(false)) {
        ProxyAction::SendToClient(resp) => {
            assert_eq!(resp.status, 502);
            assert_eq!(
                serialize_response(&resp),
                b("HTTP/1.1 502 Bad Gateway\r\ncontent-length: 0\r\n\r\n")
            );
        },
        _ => panic!("a failed connect must answer the client"),
    }
    assert_eq!(conn.phase, ProxyPhase::Closed);
}

#[test]
fn zero_byte_close_sends_nothing() {
    let mut conn = ProxyConn::new(b("127.0.0.1"));
    assert!(matches!(conn.step(ProxyEvent::Connected(true)), ProxyAction::Continue));
    let act = conn.step(ProxyEvent::RequestRead(Err(ParseError::Incomplete(0))));
    assert!(matches!(act, ProxyAction::Continue));
    assert_eq!(conn.phase, ProxyPhase::Closed);
}

#[test]
fn client_io_failure_closes_silently() {
    let mut conn = ProxyConn::new(b("127.0.0.1"));
    assert!(matches!(conn.step(ProxyEvent::Connected(true)), ProxyAction::Continue));
    let act = conn.step(ProxyEvent::RequestRead(Err(ParseError::Connection)));
    assert!(matches!(act, ProxyAction::Continue));
    assert_eq!(conn.phase, ProxyPhase::Closed);
}

#[test]
fn partial_then_close_yields_400_and_keeps_serving() {
    let mut conn = ProxyConn::new(b("127.0.0.1"));
    assert!(matches!(conn.step(ProxyEvent::Connected(true)), ProxyAction::Continue));
    match conn.step(ProxyEvent::RequestRead(Err(ParseError::Incomplete(17)))) {
        ProxyAction::SendToClient(resp) => assert_eq!(resp.status, 400),
        _ => panic!("an incomplete request with bytes read must answer 400"),
    }
    assert_eq!(conn.phase, ProxyPhase::AwaitRequest);
}

#[test]
fn body_length_mismatch_yields_400_not_a_hang() {
    let mut conn = ProxyConn::new(b("127.0.0.1"));
    assert!(matches!(conn.step(ProxyEvent::Connected(true)), ProxyAction::Continue));
    match conn.step(ProxyEvent::RequestRead(Err(ParseError::ContentLengthMismatch))) {
        ProxyAction::SendToClient(resp) => assert_eq!(resp.status, 400),
        _ => panic!("a content-length mismatch must answer 400"),
    }
    assert_eq!(conn.phase, ProxyPhase::AwaitRequest);
}

#[test]
fn oversized_body_yields_413_and_keeps_serving() {
    let mut conn = ProxyConn::new(b("127.0.0.1"));
    assert!(matches!(conn.step(ProxyEvent::Connected(true)), ProxyAction::Continue));
    match conn.step(ProxyEvent::RequestRead(Err(ParseError::BodyTooLarge))) {
        ProxyAction::SendToClient(resp) => assert_eq!(resp.status, 413),
        _ => panic!("an oversized body must answer 413"),
    }
    assert_eq!(conn.phase, ProxyPhase::AwaitRequest);
}

#[test]
fn upstream_write_failure_yields_502_and_close() {
    let mut conn = ProxyConn::new(b("127.0.0.1"));
    assert!(matches!(conn.step(ProxyEvent::Connected(true)), ProxyAction::Continue));
    let req = parse_req(&b("GET / HTTP/1.1\r\nHost: h\r\n\r\n"));
    assert!(matches!(
        conn.step(ProxyEvent::RequestRead(Ok(req))),
        ProxyAction::ForwardRequest(_)
    ));
    match conn.step(ProxyEvent::ForwardDone(false)) {
        ProxyAction::SendToClient(resp) => assert_eq!(resp.status, 502),
        _ => panic!("a failed upstream write must answer 502"),
    }
    assert_eq!(conn.phase, ProxyPhase::Closed);
}

#[test]
fn upstream_response_failure_yields_502_and_close() {
    let mut conn = ProxyConn::new(b("127.0.0.1"));
    assert!(matches!(conn.step(ProxyEvent::Connected(true)), ProxyAction::Continue));
    let req = parse_req(&b("GET / HTTP/1.1\r\nHost: h\r\n\r\n"));
    assert!(matches!(
        conn.step(ProxyEvent::RequestRead(Ok(req))),
        ProxyAction::ForwardRequest(_)
    ));
    assert!(matches!(conn.step(ProxyEvent::ForwardDone(true)), ProxyAction::Continue));
    match conn.step(ProxyEvent::ResponseRead(Err(ParseError::Malformed(
        balancer::parse::MalformedKind::StartLine,
    )))) {
        ProxyAction::SendToClient(resp) => assert_eq!(resp.status, 502),
        _ => panic!("a failed upstream read must answer 502"),
    }
    assert_eq!(conn.phase, ProxyPhase::Closed);
}

#[test]
fn head_request_marks_response_body_suppressed() {
    let mut conn = ProxyConn::new(b("127.0.0.1"));
    assert!(matches!(conn.step(ProxyEvent::Connected(true)), ProxyAction::Continue));
    let req = parse_req(&b("HEAD / HTTP/1.1\r\nHost: h\r\n\r\n"));
    assert!(matches!(
        conn.step(ProxyEvent::RequestRead(Ok(req))),
        ProxyAction::ForwardRequest(_)
    ));
    assert_eq!(conn.phase, ProxyPhase::Forwarding(true));
}

#[test]
fn three_requests_on_one_connection_stay_in_order() {
    let mut conn = ProxyConn::new(b("127.0.0.1"));
    assert!(matches!(conn.step(ProxyEvent::Connected(true)), ProxyAction::Continue));
    let mut n: usize = 0;
    while n < 3 {
        let path = format!("/conn-0/req-{}", n);
        let bytes = b(&format!("GET {} HTTP/1.1\r\nHost: h\r\n\r\n", path));
        let req = parse_req(&bytes);
        let forwarded = match conn.step(ProxyEvent::RequestRead(Ok(req))) {
            ProxyAction::ForwardRequest(f) => f,
            _ => panic!("a parsed request must be forwarded"),
        };
        let wire = String::from_utf8(serialize_request(&forwarded)).unwrap();
        assert!(wire.contains(&format!("GET {} HTTP/1.1", path)));
        assert!(wire.contains("x-forwarded-for: 127.0.0.1"));
        assert!(matches!(conn.step(ProxyEvent::ForwardDone(true)), ProxyAction::Continue));
        let body = format!("reply-{}", n);
        let resp_bytes = b(
            &format!("HTTP/1.1 200 OK\r\ncontent-length: {}\r\n\r\n{}", body.len(), body),
        );
        let resp = parse_resp(&resp_bytes, false);
        match conn.step(ProxyEvent::ResponseRead(Ok(resp))) {
            ProxyAction::SendToClient(r) => {
                assert_eq!(String::from_utf8(r.body.clone()).unwrap(), body);
            },
            _ => panic!("a parsed response must go back to the client"),
        }
        assert_eq!(conn.phase, ProxyPhase::AwaitRequest);
        n += 1;
    }
}

#[test]
fn end_to_end_exchange_with_echoing_upstream() {
    let mut conn = ProxyConn::new(b("127.0.0.1"));
    assert!(matches!(conn.step(ProxyEvent::Connected(true)), ProxyAction::Continue));

    // The client's request arrives on the client socket.
    let client_bytes = b("GET /a HTTP/1.1\r\nHost: h\r\n\r\n");
    let req = parse_req(&client_bytes);
    let request_line = String::from_utf8(req.method.clone()).unwrap() + " "
        + &String::from_utf8(req.path.clone()).unwrap() + " "
        + &String::from_utf8(req.version.clone()).unwrap();

    // The proxy forwards it with the client's address appended.
    let forwarded = match conn.step(ProxyEvent::RequestRead(Ok(req))) {
        ProxyAction::ForwardRequest(f) => f,
        _ => panic!("a parsed request must be forwarded"),
    };
    let upstream_wire = String::from_utf8(serialize_request(&forwarded)).unwrap();
    assert!(upstream_wire.contains("GET /a HTTP/1.1"));
    assert!(upstream_wire.contains("x-forwarded-for: 127.0.0.1"));
    assert!(matches!(conn.step(ProxyEvent::ForwardDone(true)), ProxyAction::Continue));

    // The upstream echoes the request line in its body.
    let resp_bytes = b(
        &format!(
            "HTTP/1.1 200 OK\r\ncontent-length: {}\r\n\r\n{}",
            request_line.len(),
            request_line
        ),
    );
    let resp = parse_resp(&resp_bytes, false);

    // The proxy returns the response to the client verbatim.
    let to_client = match conn.step(ProxyEvent::ResponseRead(Ok(resp))) {
        ProxyAction::SendToClient(r) => r,
        _ => panic!("a parsed response must go back to the client"),
    };
    assert_eq!(to_client.status, 200);
    let client_wire = String::from_utf8(serialize_response(&to_client)).unwrap();
    assert!(client_wire.contains("GET /a HTTP/1.1"));
    assert_eq!(conn.phase, ProxyPhase::AwaitRequest);
}

#[test]
fn synthesized_error_has_no_body_and_zero_length() {
    let resp = make_http_error(502);
    assert!(resp.body.is_empty());
    assert_eq!(resp.headers.len(), 1);
    assert_eq!(resp.headers[0].name, b("content-length"));
    assert_eq!(resp.headers[0].value, b("0"));
}
