use portfolio_server::chat::{chat_response_json, extract_json_from_markdown, generate_prompt};

#[test]
fn fenced_reply_is_unwrapped() {
    let text = b"```json\n{\"response\":\"hi\"}\n```";
    assert_eq!(extract_json_from_markdown(text), b"{\"response\":\"hi\"}".to_vec());
}

#[test]
fn bare_fence_without_language_is_unwrapped() {
    let text = b"```\n{\"a\":1}\n```";
    assert_eq!(extract_json_from_markdown(text), b"{\"a\":1}".to_vec());
}

#[test]
fn unfenced_reply_is_only_trimmed() {
    assert_eq!(extract_json_from_markdown(b"  plain text reply \n"), b"plain text reply".to_vec());
}

#[test]
fn unclosed_fence_returns_trimmed_text() {
    let text = b"```json\n{\"a\":1}";
    assert_eq!(extract_json_from_markdown(text), b"```json\n{\"a\":1}".to_vec());
}

#[test]
fn prompt_embeds_message_and_pages() {
    let p = generate_prompt(b"where is your cv?", b"{\"pages\":{}}");
    let text = String::from_utf8_lossy(&p);
    assert!(text.starts_with("You are a helpful assistant for a portfolio website."));
    assert!(text.contains("where is your cv?"));
    assert!(text.contains("{\"pages\":{}}"));
    assert!(text.ends_with("ALWAYS respond in valid JSON format with both \"response\" and \"navigation\" fields."));
}

#[test]
fn chat_envelope_with_navigation() {
    let r = chat_response_json(
        b"Let me show you.",
        true,
        &Some(b"index".to_vec()),
        &Some(b"experience".to_vec()),
    );
    assert_eq!(
        r,
        b"{\"response\":\"Let me show you.\",\"navigation\":{\"needed\":true,\"page\":\"index\",\"sectionId\":\"experience\"}}".to_vec()
    );
}

#[test]
fn chat_envelope_without_navigation() {
    let r = chat_response_json(b"Here you go.", false, &None, &None);
    assert_eq!(
        r,
        b"{\"response\":\"Here you go.\",\"navigation\":{\"needed\":false,\"page\":null,\"sectionId\":null}}".to_vec()
    );
}

#[test]
fn chat_envelope_escapes_reply_text() {
    let r = chat_response_json(b"a \"quote\" and \\ slash", false, &None, &None);
    let v: serde_json::Value = serde_json::from_slice(&r).unwrap();
    assert_eq!(v["response"], "a \"quote\" and \\ slash");
    assert_eq!(v["navigation"]["needed"], false);
}
