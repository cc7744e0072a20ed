use portfolio_server::blog::{
    blog_date, blog_post_api_response, blog_post_page_response, blog_title, handle_blog_post_api,
    handle_blog_post_page, handle_blogs_list_api, json_escape, sort_blogs_desc, BlogMeta,
};

#[test]
fn title_is_first_line_without_hashes() {
    let md = b"# My First Post\n\n**Published:** 2024-01-15\n\nBody text.";
    assert_eq!(blog_title(b"my-first-post", md), b"My First Post".to_vec());
}

#[test]
fn title_falls_back_to_slug_for_empty_file() {
    assert_eq!(blog_title(b"empty-post", b""), b"empty-post".to_vec());
}

#[test]
fn title_skips_leading_blank_lines() {
    assert_eq!(blog_title(b"s", b"\n# X\nbody"), b"X".to_vec());
    assert_eq!(blog_title(b"s", b"\r\n\r\n## Deep Title\n"), b"Deep Title".to_vec());
}

#[test]
fn title_falls_back_to_slug_for_all_blank_lines() {
    assert_eq!(blog_title(b"blank", b"\n\n\n"), b"blank".to_vec());
}

#[test]
fn post_api_response_is_404_json_when_missing() {
    let r = blog_post_api_response(b"nope", None);
    let text = String::from_utf8(r).unwrap();
    assert!(text.starts_with("HTTP/1.1 404 Not Found\r\n"));
    let body_start = text.find("\r\n\r\n").unwrap() + 4;
    let body = &text[body_start..];
    let v: serde_json::Value = serde_json::from_str(body).unwrap();
    assert_eq!(v["error"], "Blog post 'nope' not found");
    assert!(text.contains(&format!("Content-Length: {}\r\n", body.len())));
}

#[test]
fn post_api_response_is_200_json_when_found() {
    let md = b"# Hi\nPublished: 2024-01-01\n".to_vec();
    let r = blog_post_api_response(b"hi", Some(md));
    let text = String::from_utf8(r).unwrap();
    assert!(text.starts_with("HTTP/1.1 200 OK\r\n"));
    assert!(text.contains("\"slug\":\"hi\""));
}

#[test]
fn post_page_response_is_404_page_when_missing() {
    let r = blog_post_page_response(b"gone", None);
    let text = String::from_utf8(r).unwrap();
    assert!(text.starts_with("HTTP/1.1 404 Not Found\r\nContent-Type: text/html\r\n"));
    let body_start = text.find("\r\n\r\n").unwrap() + 4;
    let body = &text[body_start..];
    assert_eq!(
        body,
        "<html><body><h1>Blog Post Not Found</h1><p>Blog post 'gone' not found</p></body></html>"
    );
    assert!(text.contains(&format!("Content-Length: {}\r\n", body.len())));
}

#[test]
fn date_comes_from_published_marker() {
    let md = b"# T\n\n**Published:** 2024-01-15\n\nmore";
    assert_eq!(blog_date(md), b"2024-01-15".to_vec());
    let bare = b"# T\nPublished: 2023-12-31\n";
    assert_eq!(blog_date(bare), b"2023-12-31".to_vec());
}

#[test]
fn date_defaults_to_unknown() {
    assert_eq!(blog_date(b"# T\nno marker here\n"), b"Unknown".to_vec());
}

fn meta(slug: &str, date: &str) -> BlogMeta {
    BlogMeta {
        slug: slug.as_bytes().to_vec(),
        title: slug.as_bytes().to_vec(),
        published_date: date.as_bytes().to_vec(),
    }
}

#[test]
fn sort_is_descending_by_date_and_stable() {
    let entries = vec![
        meta("a", "2023-01-01"),
        meta("b", "2024-06-01"),
        meta("c", "2023-01-01"),
        meta("d", "2025-02-02"),
    ];
    let sorted = sort_blogs_desc(entries);
    let slugs: Vec<Vec<u8>> = sorted.iter().map(|m| m.slug.clone()).collect();
    assert_eq!(slugs, vec![b"d".to_vec(), b"b".to_vec(), b"a".to_vec(), b"c".to_vec()]);
}

#[test]
fn empty_blogs_dir_yields_exact_empty_list() {
    let entries: Vec<(Vec<u8>, Vec<u8>)> = vec![];
    assert_eq!(handle_blogs_list_api(&entries), b"{\"blogs\":[]}".to_vec());
}

#[test]
fn blogs_list_is_sorted_json() {
    let entries: Vec<(Vec<u8>, Vec<u8>)> = vec![
        (b"old".to_vec(), b"# Old\nPublished: 2020-01-01\n".to_vec()),
        (b"new".to_vec(), b"# New\nPublished: 2024-01-01\n".to_vec()),
    ];
    let json = handle_blogs_list_api(&entries);
    assert_eq!(
        json,
        b"{\"blogs\":[{\"slug\":\"new\",\"title\":\"New\",\"published_date\":\"2024-01-01\"},{\"slug\":\"old\",\"title\":\"Old\",\"published_date\":\"2020-01-01\"}]}".to_vec()
    );
}

#[test]
fn post_api_renders_markdown() {
    let md = b"# Hello\nPublished: 2024-01-01\n\nSome *text*.".to_vec();
    let json = handle_blog_post_api(b"hello", Some(md)).unwrap();
    let text = String::from_utf8(json).unwrap();
    assert!(text.starts_with("{\"slug\":\"hello\",\"title\":\"Hello\",\"published_date\":\"2024-01-01\",\"content\":\""));
    assert!(text.contains("<h1>Hello</h1>"), "markdown was not rendered: {}", text);
    assert!(text.contains("<em>text</em>"));
}

#[test]
fn post_api_missing_file_is_an_error() {
    let e = handle_blog_post_api(b"nope", None).unwrap_err();
    assert_eq!(e, b"Blog post 'nope' not found".to_vec());
}

#[test]
fn post_page_embeds_title_date_and_rendering() {
    let md = b"# Greetings\nPublished: 2024-03-04\n\nBody.".to_vec();
    let page = handle_blog_post_page(b"greet", Some(md)).unwrap();
    let text = String::from_utf8_lossy(&page);
    assert!(text.starts_with("<!DOCTYPE html>"));
    assert!(text.contains("<title>Greetings — Blogs — Will Vincent Parrone</title>"));
    assert!(text.contains("<h1>Greetings</h1>"));
    assert!(text.contains("Published: 2024-03-04"));
    assert!(text.contains("<p>Body.</p>"));
}

#[test]
fn json_escaping_matches_the_standard_table() {
    assert_eq!(json_escape(b"plain"), b"plain".to_vec());
    assert_eq!(json_escape(b"a\"b"), b"a\\\"b".to_vec());
    assert_eq!(json_escape(b"a\\b"), b"a\\\\b".to_vec());
    assert_eq!(json_escape(b"a\nb\tc\r"), b"a\\nb\\tc\\r".to_vec());
    assert_eq!(json_escape(b"\x08\x0c"), b"\\b\\f".to_vec());
    assert_eq!(json_escape(b"\x01\x1f"), b"\\u0001\\u001f".to_vec());
}

#[test]
fn escaped_blog_json_is_valid_json() {
    let entries: Vec<(Vec<u8>, Vec<u8>)> = vec![
        (b"q".to_vec(), b"# A \"quoted\" \\ title\nPublished: 2024-01-01\n".to_vec()),
    ];
    let json = handle_blogs_list_api(&entries);
    let v: serde_json::Value = serde_json::from_slice(&json).unwrap();
    assert_eq!(v["blogs"][0]["title"], "A \"quoted\" \\ title");
}
