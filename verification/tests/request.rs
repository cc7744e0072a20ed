use portfolio_server::request::{parse_request, RequestError};

#[test]
fn simple_get_parses() {
    let req = parse_request(b"GET /index.html HTTP/1.1\r\nHost: example\r\n\r\n").unwrap();
    assert_eq!(req.method, b"GET".to_vec());
    assert_eq!(req.path, b"/index.html".to_vec());
    assert!(req.body.is_none());
    assert_eq!(req.headers.get(b"host").unwrap(), &b"example".to_vec());
}

#[test]
fn header_keys_are_lowercased_and_values_trimmed() {
    let req = parse_request(b"GET / HTTP/1.1\r\nX-Thing:   padded value  \r\n\r\n").unwrap();
    assert_eq!(req.headers.get(b"x-thing").unwrap(), &b"padded value".to_vec());
    assert!(req.headers.get(b"X-Thing").is_none());
}

#[test]
fn duplicate_header_last_write_wins() {
    let req = parse_request(b"GET / HTTP/1.1\r\nA: one\r\nA: two\r\n\r\n").unwrap();
    assert_eq!(req.headers.get(b"a").unwrap(), &b"two".to_vec());
}

#[test]
fn header_line_without_colon_is_skipped() {
    let req = parse_request(b"GET / HTTP/1.1\r\nnot a header\r\nB: ok\r\n\r\n").unwrap();
    assert_eq!(req.headers.len(), 1);
    assert_eq!(req.headers.get(b"b").unwrap(), &b"ok".to_vec());
}

#[test]
fn content_length_zero_yields_no_body() {
    let req = parse_request(b"POST /api/chat HTTP/1.1\r\nContent-Length: 0\r\n\r\n").unwrap();
    assert!(req.body.is_none());
}

#[test]
fn body_read_exactly_to_declared_length() {
    let req = parse_request(b"POST /x HTTP/1.1\r\nContent-Length: 5\r\n\r\nhelloEXTRA").unwrap();
    assert_eq!(req.body.unwrap(), b"hello".to_vec());
}

#[test]
fn short_body_is_truncated_not_hung() {
    let r = parse_request(b"POST /x HTTP/1.1\r\nContent-Length: 50\r\n\r\nonly a little");
    assert_eq!(r.unwrap_err(), RequestError::TruncatedBody);
}

#[test]
fn unparseable_content_length_means_no_body() {
    let req = parse_request(b"POST /x HTTP/1.1\r\nContent-Length: lots\r\n\r\nbytes").unwrap();
    assert!(req.body.is_none());
}

#[test]
fn invalid_utf8_line_is_rejected() {
    let r = parse_request(b"GET /\xff\xfe HTTP/1.1\r\n\r\n");
    assert_eq!(r.unwrap_err(), RequestError::InvalidEncoding);
}

#[test]
fn binary_handshake_is_rejected() {
    // a TLS ClientHello prefix with bytes no UTF-8 text can hold
    let r = parse_request(b"\x16\x03\x01\x00\xa5\x01\x00\n");
    assert_eq!(r.unwrap_err(), RequestError::InvalidEncoding);
}

#[test]
fn empty_stream_is_connection_closed() {
    assert_eq!(parse_request(b"").unwrap_err(), RequestError::ConnectionClosed);
}

#[test]
fn unterminated_headers_are_connection_closed() {
    let r = parse_request(b"GET / HTTP/1.1\r\nHost: example\r\n");
    assert_eq!(r.unwrap_err(), RequestError::ConnectionClosed);
}

#[test]
fn immediate_blank_line_is_empty_request() {
    assert_eq!(parse_request(b"\r\n").unwrap_err(), RequestError::EmptyRequest);
}

#[test]
fn one_token_request_line_is_malformed() {
    let r = parse_request(b"GET\r\n\r\n");
    assert_eq!(r.unwrap_err(), RequestError::MalformedRequestLine);
}

#[test]
fn extra_request_line_tokens_are_ignored() {
    let req = parse_request(b"GET /a/b HTTP/1.0 extra junk\r\n\r\n").unwrap();
    assert_eq!(req.method, b"GET".to_vec());
    assert_eq!(req.path, b"/a/b".to_vec());
}

#[test]
fn bare_newline_lines_are_accepted() {
    let req = parse_request(b"GET / HTTP/1.1\nHost: x\n\n").unwrap();
    assert_eq!(req.headers.get(b"host").unwrap(), &b"x".to_vec());
}
