use nimpipe::sse::{find_sse_event_end, transform_sse_data, transform_sse_event};
use serde_json::Value;

#[test]
fn test_sse_event_end() {
    assert_eq!(find_sse_event_end(b"hello\n\nworld"), Some(5));
    assert_eq!(find_sse_event_end(b"no double newline"), None);
}

#[test]
fn test_transform_sse_data_maps_reasoning_to_content() {
    let input = r#"{"choices":[{"index":0,"delta":{"role":"assistant","reasoning_content":"hello"},"finish_reason":null}]}"#;
    let output = transform_sse_data(input);
    let v: Value = serde_json::from_str(&output).unwrap();
    assert_eq!(v["choices"][0]["delta"]["content"], "hello");
    assert_eq!(v["choices"][0]["delta"]["reasoning_content"], "hello");
}

#[test]
fn test_transform_sse_data_leaves_content_alone() {
    let input = r#"{"choices":[{"index":0,"delta":{"content":"hello","role":"assistant"},"finish_reason":null}]}"#;
    let output = transform_sse_data(input);
    assert_eq!(output, input);
}

#[test]
fn test_transform_sse_data_null_content() {
    let input = r#"{"choices":[{"index":0,"delta":{"role":"assistant","reasoning_content":"hi","content":null},"finish_reason":null}]}"#;
    let output = transform_sse_data(input);
    let v: Value = serde_json::from_str(&output).unwrap();
    assert_eq!(v["choices"][0]["delta"]["content"], "hi");
}

#[test]
fn test_transform_sse_event_strips_comments() {
    let input = b"data: {\"choices\":[]}\n: {\"input_tokens\":5}\n\n";
    let output = transform_sse_event(input);
    let s = std::str::from_utf8(&output).unwrap();
    assert!(s.contains("data:"));
    assert!(!s.contains(": {"));
}

#[test]
fn test_transform_sse_event_preserves_non_json_comments() {
    let input = b"data: {\"choices\":[]}\n: heartbeat\n\n";
    let output = transform_sse_event(input);
    let s = std::str::from_utf8(&output).unwrap();
    assert!(s.contains(": heartbeat"));
}
