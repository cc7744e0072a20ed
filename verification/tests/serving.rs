use portfolio_server::bytemap::ByteMap;
use portfolio_server::dispatch::{dispatch, RouteTarget};
use portfolio_server::request::{parse_request, ParsedRequest, RequestError};
use portfolio_server::response::{
    bad_request_response, missing_body_response, not_found_json_response, not_found_response,
    ok_file_response, ok_html_response, ok_json_response, server_error_response,
};

fn req(method: &str, path: &str, body: Option<&[u8]>) -> ParsedRequest {
    ParsedRequest {
        method: method.as_bytes().to_vec(),
        path: path.as_bytes().to_vec(),
        headers: ByteMap::new(),
        body: body.map(|b| b.to_vec()),
    }
}

#[test]
fn dispatch_matches_in_priority_order() {
    assert!(matches!(dispatch(&req("GET", "/api/blogs", None)), RouteTarget::BlogsListApi));
    match dispatch(&req("GET", "/api/blog/first-post", None)) {
        RouteTarget::BlogPostApi(slug) => assert_eq!(slug, b"first-post".to_vec()),
        other => panic!("wrong target: {:?}", other),
    }
    match dispatch(&req("GET", "/blogs/first-post", None)) {
        RouteTarget::BlogPostPage(slug) => assert_eq!(slug, b"first-post".to_vec()),
        other => panic!("wrong target: {:?}", other),
    }
    assert!(matches!(
        dispatch(&req("POST", "/api/chat", Some(b"{}"))),
        RouteTarget::ChatApi
    ));
    assert!(matches!(
        dispatch(&req("POST", "/api/chat", None)),
        RouteTarget::ChatMissingBody
    ));
}

#[test]
fn dispatch_falls_through_to_static() {
    assert!(matches!(dispatch(&req("GET", "/", None)), RouteTarget::StaticFile));
    assert!(matches!(dispatch(&req("GET", "/blogs", None)), RouteTarget::StaticFile));
    assert!(matches!(dispatch(&req("GET", "/blogs/", None)), RouteTarget::StaticFile));
    assert!(matches!(dispatch(&req("POST", "/api/blogs", None)), RouteTarget::StaticFile));
    assert!(matches!(dispatch(&req("GET", "/api/chat", None)), RouteTarget::StaticFile));
}

#[test]
fn empty_slug_still_hits_blog_post_api() {
    match dispatch(&req("GET", "/api/blog/", None)) {
        RouteTarget::BlogPostApi(slug) => assert_eq!(slug, b"".to_vec()),
        other => panic!("wrong target: {:?}", other),
    }
}

#[test]
fn not_found_body_and_declared_length() {
    // the served 404 declares Content-Length: 13 with body "File Not Found"
    assert_eq!(
        not_found_response(),
        b"HTTP/1.1 404 ERROR\r\nContent-Length: 13\r\n\r\nFile Not Found".to_vec()
    );
}

#[test]
fn ok_file_response_shape() {
    let r = ok_file_response(b"text/css", b"body{}");
    assert_eq!(
        r,
        b"HTTP/1.1 200 OK\r\nContent-Length: 6\r\nContent-Type: text/css\r\n\r\nbody{}".to_vec()
    );
}

#[test]
fn ok_json_response_sets_cors() {
    let r = ok_json_response(b"{\"blogs\":[]}");
    assert_eq!(
        r,
        b"HTTP/1.1 200 OK\r\nContent-Type: application/json\r\nContent-Length: 12\r\nAccess-Control-Allow-Origin: *\r\n\r\n{\"blogs\":[]}".to_vec()
    );
}

#[test]
fn ok_html_response_shape() {
    let r = ok_html_response(b"<p>x</p>");
    assert_eq!(
        r,
        b"HTTP/1.1 200 OK\r\nContent-Type: text/html\r\nContent-Length: 8\r\n\r\n<p>x</p>".to_vec()
    );
}

#[test]
fn server_error_body_is_valid_json_with_error_field() {
    let r = server_error_response(b"Failed to call upstream");
    let text = String::from_utf8(r).unwrap();
    let body_start = text.find("\r\n\r\n").unwrap() + 4;
    let body = &text[body_start..];
    let v: serde_json::Value = serde_json::from_str(body).unwrap();
    assert_eq!(v["error"], "Failed to call upstream");
    assert!(text.starts_with("HTTP/1.1 500 Internal Server Error\r\n"));
    assert!(text.contains(&format!("Content-Length: {}\r\n", body.len())));
}

#[test]
fn server_error_escapes_the_message() {
    // upstream error texts can hold quotes and backslashes
    let r = server_error_response(b"bad \"json\" \\ here");
    let text = String::from_utf8(r).unwrap();
    let body_start = text.find("\r\n\r\n").unwrap() + 4;
    let body = &text[body_start..];
    let v: serde_json::Value = serde_json::from_str(body).unwrap();
    assert_eq!(v["error"], "bad \"json\" \\ here");
    assert!(text.contains(&format!("Content-Length: {}\r\n", body.len())));
}

#[test]
fn not_found_json_sets_cors_and_correct_length() {
    let r = not_found_json_response(b"Blog post 'x' not found");
    let text = String::from_utf8(r).unwrap();
    assert!(text.starts_with("HTTP/1.1 404 Not Found\r\nContent-Type: application/json\r\n"));
    assert!(text.contains("Access-Control-Allow-Origin: *\r\n"));
    let body_start = text.find("\r\n\r\n").unwrap() + 4;
    let body = &text[body_start..];
    assert_eq!(body, "{\"error\":\"Blog post 'x' not found\"}");
    assert!(text.contains(&format!("Content-Length: {}\r\n", body.len())));
}

#[test]
fn bad_request_bodies_match_the_failure() {
    assert_eq!(
        bad_request_response(&RequestError::InvalidEncoding),
        b"HTTP/1.1 400 Bad Request\r\n\r\nInvalid UTF-8 in request".to_vec()
    );
    assert_eq!(
        bad_request_response(&RequestError::MalformedRequestLine),
        b"HTTP/1.1 400 Bad Request\r\n\r\nMalformed request line".to_vec()
    );
    assert_eq!(
        bad_request_response(&RequestError::ConnectionClosed),
        b"HTTP/1.1 400 Bad Request\r\n\r\nInvalid Request".to_vec()
    );
    assert_eq!(
        bad_request_response(&RequestError::TruncatedBody),
        b"HTTP/1.1 400 Bad Request\r\n\r\nInvalid Request".to_vec()
    );
    assert_eq!(
        missing_body_response(),
        b"HTTP/1.1 400 Bad Request\r\n\r\nMissing request body".to_vec()
    );
}

#[test]
fn parsed_chat_request_dispatches_to_chat() {
    let raw = b"POST /api/chat HTTP/1.1\r\nContent-Length: 17\r\n\r\n{\"message\":\"hi\"}X";
    let req = parse_request(raw).unwrap();
    assert!(matches!(dispatch(&req), RouteTarget::ChatApi));
}
