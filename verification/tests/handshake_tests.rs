use ws_chat::handshake::{
    build_upgrade_response, generate_accept_key, handshake, parse_header_line, parse_http_request,
    parse_request_line, HandshakeDecision, HandshakeError,
};

#[test]
fn test_generate_accept_key() {
    let client_key = "dGhlIHNhbXBsZSBub25jZQ==";
    let accept_key = generate_accept_key(client_key);
    assert_eq!(accept_key, "s3pPLMBiTxaQ9kYGzzhZRbK+xOo=");
}

#[test]
fn server_test_generate_accept_key() {
    let client_key = "dGhlIHNhbXBsZSBub25jZQ==";
    let accept_key = generate_accept_key(client_key);
    assert_eq!(accept_key, "s3pPLMBiTxaQ9kYGzzhZRbK+xOo=");
}

#[test]
fn handshake_test_generate_accept_key() {
    let client_key = "dGhlIHNhbXBsZSBub25jZQ==";
    let accept_key = generate_accept_key(client_key);
    assert_eq!(accept_key, "s3pPLMBiTxaQ9kYGzzhZRbK+xOo=");
}

#[test]
fn request_line_splits_into_three_tokens() {
    let r = parse_request_line("GET / HTTP/1.1\r\n").unwrap();
    assert_eq!(r.0, "GET");
    assert_eq!(r.1, "/");
    assert_eq!(r.2, "HTTP/1.1");
}

#[test]
fn request_line_extra_tokens_are_ignored() {
    let r = parse_request_line("GET /chat HTTP/1.1 junk\r\n").unwrap();
    assert_eq!(r.0, "GET");
    assert_eq!(r.1, "/chat");
    assert_eq!(r.2, "HTTP/1.1");
}

#[test]
fn request_line_with_missing_token_is_malformed() {
    let r = parse_request_line("GET /\r\n");
    assert_eq!(r, Err(HandshakeError::MalformedRequestLine));
}

#[test]
fn header_line_splits_on_first_colon_and_trims() {
    let h = parse_header_line("Host: localhost:8080\r\n").unwrap();
    assert_eq!(h.0, "Host");
    assert_eq!(h.1, "localhost:8080");
}

#[test]
fn header_line_without_colon_is_malformed() {
    let h = parse_header_line("no colon here\r\n");
    assert_eq!(h, Err(HandshakeError::MalformedHeader));
}

fn upgrade_request_lines() -> Vec<String> {
    vec![
        "GET / HTTP/1.1\r\n".to_string(),
        "Host: localhost:8080\r\n".to_string(),
        "Connection: Upgrade\r\n".to_string(),
        "Upgrade: websocket\r\n".to_string(),
        "Sec-WebSocket-Version: 13\r\n".to_string(),
        "Sec-WebSocket-Key: dGhlIHNhbXBsZSBub25jZQ==\r\n".to_string(),
    ]
}

#[test]
fn parse_http_request_reads_request_line_and_headers() {
    let req = parse_http_request(&upgrade_request_lines()).unwrap();
    assert_eq!(req.method, "GET");
    assert_eq!(req.path, "/");
    assert_eq!(req.protocol, "HTTP/1.1");
    assert_eq!(req.headers.len(), 5);
    assert_eq!(req.headers[0].0, "Host");
    assert_eq!(req.headers[0].1, "localhost:8080");
}

#[test]
fn parse_http_request_rejects_bad_header() {
    let lines = vec!["GET / HTTP/1.1\r\n".to_string(), "bad header line\r\n".to_string()];
    assert!(matches!(parse_http_request(&lines), Err(HandshakeError::MalformedHeader)));
}

#[test]
fn upgrade_request_is_detected() {
    let req = parse_http_request(&upgrade_request_lines()).unwrap();
    assert!(req.is_websocket_upgrade_request());
}

#[test]
fn non_upgrade_request_is_detected() {
    let lines = vec!["GET / HTTP/1.1\r\n".to_string(), "Host: localhost\r\n".to_string()];
    let req = parse_http_request(&lines).unwrap();
    assert!(!req.is_websocket_upgrade_request());
}

#[test]
fn first_header_value_uses_first_match() {
    let lines = vec![
        "GET / HTTP/1.1\r\n".to_string(),
        "X-Dup: first\r\n".to_string(),
        "X-Dup: second\r\n".to_string(),
    ];
    let req = parse_http_request(&lines).unwrap();
    assert_eq!(req.first_header_value("X-Dup"), Some("first".to_string()));
    assert_eq!(req.first_header_value("X-Missing"), None);
}

#[test]
fn handshake_produces_switching_protocols_response() {
    let req = parse_http_request(&upgrade_request_lines()).unwrap();
    match handshake(&req) {
        HandshakeDecision::Upgrade(resp) => {
            let expected = "HTTP/1.1 101 Switching Protocols\r\n\
                 Sec-WebSocket-Accept: s3pPLMBiTxaQ9kYGzzhZRbK+xOo=\r\n\
                 Connection: Upgrade\r\n\
                 Upgrade: websocket\r\n\r\n";
            assert_eq!(resp, expected);
        }
        _ => panic!("expected an upgrade decision"),
    }
}

#[test]
fn handshake_without_key_is_fatal() {
    let lines = vec!["GET / HTTP/1.1\r\n".to_string(), "Upgrade: websocket\r\n".to_string()];
    let req = parse_http_request(&lines).unwrap();
    assert!(matches!(handshake(&req), HandshakeDecision::MissingKey));
}

#[test]
fn handshake_routes_non_upgrade_requests_away() {
    let lines = vec!["GET / HTTP/1.1\r\n".to_string(), "Host: localhost\r\n".to_string()];
    let req = parse_http_request(&lines).unwrap();
    assert!(matches!(handshake(&req), HandshakeDecision::NotUpgrade));
}

#[test]
fn upgrade_response_has_exact_shape() {
    let resp = build_upgrade_response("token=");
    assert_eq!(
        resp,
        "HTTP/1.1 101 Switching Protocols\r\nSec-WebSocket-Accept: token=\r\nConnection: Upgrade\r\nUpgrade: websocket\r\n\r\n"
    );
}
