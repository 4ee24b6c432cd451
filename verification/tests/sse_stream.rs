use nimpipe::json::{obj_get, JsonValue};
use nimpipe::sse::{map_reasoning_to_content, transform_sse_data_counted, transform_sse_event_counted, SseFramer};

#[test]
fn event_without_changes_passes_through_byte_for_byte() {
    let input = b"data: {\"choices\":[{\"delta\":{\"content\":\"x\"}}]}\r\n\n";
    let (out, mapped, stripped) = transform_sse_event_counted(input);
    assert_eq!(out, input.to_vec());
    assert_eq!((mapped, stripped), (0, 0));
}

#[test]
fn invalid_utf8_passes_through() {
    let input = b"data: \xff\xfe\n: {\"a\":1}\n\n";
    let (out, mapped, stripped) = transform_sse_event_counted(input);
    assert_eq!(out, input.to_vec());
    assert_eq!((mapped, stripped), (0, 0));
}

#[test]
fn reasoning_is_counted_and_rewritten() {
    let input = b"data: {\"choices\":[{\"delta\":{\"reasoning_content\":\"r\"}}]}\n\n";
    let (out, mapped, stripped) = transform_sse_event_counted(input);
    assert_eq!((mapped, stripped), (1, 0));
    let s = String::from_utf8(out).unwrap();
    assert!(s.starts_with("data:{"));
    assert!(s.ends_with("\n\n"));
    let json: serde_json::Value = serde_json::from_str(s.trim_start_matches("data:").trim()).unwrap();
    assert_eq!(json["choices"][0]["delta"]["content"], "r");
}

#[test]
fn comment_with_leading_whitespace_is_stripped() {
    let input = b": \t {\"usage\":1}\n: ok\n\n";
    let (out, mapped, stripped) = transform_sse_event_counted(input);
    assert_eq!((mapped, stripped), (0, 1));
    assert_eq!(out, b": ok\n\n".to_vec());
}

#[test]
fn data_that_is_not_json_is_kept() {
    let (out, mapped) = transform_sse_data_counted("[DONE]");
    assert_eq!(out, "[DONE]");
    assert!(!mapped);
}

#[test]
fn framer_cuts_first_event_per_chunk() {
    let mut f = SseFramer::new();
    assert!(f.on_chunk(b"data: a").is_none());
    let (ev, _, _) = f.on_chunk(b"\n\ndata: b\n\ndata: c").unwrap();
    assert_eq!(ev, b"data: a\n\n".to_vec());
    assert!(!f.is_done());
    let (ev, _, _) = f.on_chunk(b"").unwrap();
    assert_eq!(ev, b"data: b\n\n".to_vec());
    assert!(f.on_chunk(b"").is_none());
    assert_eq!(f.on_end(), Some(b"data: c".to_vec()));
    assert!(f.is_done());
    assert_eq!(f.on_end(), None);
}

#[test]
fn framer_holds_second_event_of_a_chunk() {
    let mut f = SseFramer::new();
    let (ev, _, _) = f.on_chunk(b"a\n\nb\n\n").unwrap();
    assert_eq!(ev, b"a\n\n".to_vec());
    assert_eq!(f.on_end(), Some(b"b\n\n".to_vec()));
}

#[test]
fn framer_rewrites_held_events_at_end() {
    let mut f = SseFramer::new();
    let (ev, m, c) =
        f.on_chunk(b"data: {\"id\":1}\n\n: {\"usage\":{\"total\":3}}\ndata: [DONE]\n\ntail").unwrap();
    assert_eq!(ev, b"data: {\"id\":1}\n\n".to_vec());
    assert_eq!((m, c), (0, 0));
    assert_eq!(f.on_end(), Some(b"data:[DONE]\n\ntail".to_vec()));
}

#[test]
fn framer_passes_held_bytes_on_error() {
    let mut f = SseFramer::new();
    assert!(f.on_chunk(b"partial").is_none());
    assert_eq!(f.on_error(), Some(b"partial".to_vec()));
    assert!(f.is_done());
    let mut g = SseFramer::new();
    assert_eq!(g.on_error(), None);
    let mut h = SseFramer::new();
    assert!(h.on_chunk(b"x\n\n").is_some());
    assert!(h.on_chunk(b": {\"a\":1}\n\n").is_some());
    assert!(h.on_chunk(b"y").is_none());
    assert_eq!(h.on_error(), Some(b"y".to_vec()));
}

#[test]
fn reasoning_is_copied_in_every_choice_that_lacks_content() {
    let choice = |d: Vec<(&str, JsonValue)>| {
        JsonValue::Object(vec![(
            "delta".to_string(),
            JsonValue::Object(d.into_iter().map(|(k, v)| (k.to_string(), v)).collect()),
        )])
    };
    let payload = JsonValue::Object(vec![(
        "choices".to_string(),
        JsonValue::Array(vec![
            choice(vec![("reasoning_content", JsonValue::Str("r1".into()))]),
            choice(vec![("reasoning_content", JsonValue::Str("r2".into())), ("content", JsonValue::Str("c".into()))]),
            choice(vec![("reasoning_content", JsonValue::Null)]),
        ]),
    )]);
    let out = map_reasoning_to_content(payload).unwrap();
    let JsonValue::Object(es) = &out else { panic!() };
    let Some(JsonValue::Array(cs)) = obj_get(es, &"choices".to_string()) else { panic!() };
    let delta = |c: &JsonValue| match c {
        JsonValue::Object(es) => match obj_get(es, &"delta".to_string()) {
            Some(JsonValue::Object(d)) => obj_get(d, &"content".to_string()).map(|v| format!("{v:?}")),
            _ => None,
        },
        _ => None,
    };
    assert_eq!(delta(&cs[0]), Some(format!("{:?}", JsonValue::Str("r1".into()))));
    assert_eq!(delta(&cs[1]), Some(format!("{:?}", JsonValue::Str("c".into()))));
    assert_eq!(delta(&cs[2]), None);
    let nothing = JsonValue::Object(vec![("choices".to_string(), JsonValue::Array(vec![]))]);
    assert!(map_reasoning_to_content(nothing).is_none());
}

#[test]
fn stream_without_anything_to_rewrite_passes_byte_for_byte() {
    let chunks: Vec<&[u8]> = vec![
        b"data: {\"choices\":[{\"delta\":{\"content\":\"hi\"}}]}\n",
        b"\n: keep-alive\n\nda",
        b"ta: [DONE]\n\ntrailing",
    ];
    let mut f = SseFramer::new();
    let mut out: Vec<u8> = Vec::new();
    for c in &chunks {
        if let Some((ev, _, _)) = f.on_chunk(c) {
            out.extend_from_slice(&ev);
        }
    }
    if let Some(rest) = f.on_end() {
        out.extend_from_slice(&rest);
    }
    let whole: Vec<u8> = chunks.concat();
    assert_eq!(out, whole);
}

#[test]
fn floats_are_written_back_as_read() {
    let input = r#"{"choices":[{"delta":{"reasoning_content":"r"},"x":0.30000000000000004,"y":1.2345678901234567e-300,"z":0.1234567890123456789}]}"#;
    let (out, mapped) = transform_sse_data_counted(input);
    assert!(mapped);
    let expected: serde_json::Value = serde_json::from_str(input).unwrap();
    for k in ["x", "y", "z"] {
        let written = format!("\"{}\":{}", k, expected["choices"][0][k]);
        assert!(out.contains(&written), "{written} not in {out}");
    }
    assert!(out.contains("0.30000000000000004"));
}
