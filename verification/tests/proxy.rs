use nimpipe::config::{AppConfig, TimeoutsConfig};
use nimpipe::json::{obj_get, JsonNumber, JsonValue};
use nimpipe::proxy::{
    accept_header, call_timeout_seconds, chat_completions_url, classify_upstream,
    client_timeout_seconds, poll_decision, poll_timeout_message, start_polling, test_call_body,
    test_call_result, PollAction, PollDecision, PollEvent, PollStartError, Poller, UpstreamAction,
    NVIDIA_BASE_URL,
};
use nimpipe::text::replace_text;

fn get<'a>(v: &'a JsonValue, k: &str) -> Option<&'a JsonValue> {
    match v {
        JsonValue::Object(es) => obj_get(es, &k.to_string()),
        _ => None,
    }
}

fn timeouts() -> TimeoutsConfig {
    AppConfig::default().timeouts
}

#[test]
fn timeouts_and_headers() {
    let t = timeouts();
    assert_eq!(client_timeout_seconds(&t), 300);
    assert_eq!(call_timeout_seconds(&t, true), 300);
    assert_eq!(call_timeout_seconds(&t, false), 120);
    assert_eq!(accept_header(true), "text/event-stream");
    assert_eq!(accept_header(false), "application/json");
    assert_eq!(
        chat_completions_url(NVIDIA_BASE_URL),
        "https://integrate.api.nvidia.com/v1/chat/completions"
    );
}

#[test]
fn upstream_answers_are_classified() {
    assert_eq!(classify_upstream(true, 200), UpstreamAction::StreamThrough);
    assert_eq!(classify_upstream(true, 500), UpstreamAction::ErrorAnswer);
    assert_eq!(classify_upstream(false, 200), UpstreamAction::PassBody);
    assert_eq!(classify_upstream(false, 202), UpstreamAction::Poll);
    assert_eq!(classify_upstream(false, 404), UpstreamAction::ErrorAnswer);
}

#[test]
fn polling_starts_from_request_id() {
    let body = JsonValue::Object(vec![("requestId".to_string(), JsonValue::Str("abc".into()))]);
    let t = start_polling(Some("/status/{request_id}"), &body, "https://h/v1").unwrap();
    assert_eq!(t.request_id, "abc");
    assert_eq!(t.url, "https://h/v1/status/abc");
    let body = JsonValue::Object(vec![("id".to_string(), JsonValue::Str("x".into()))]);
    assert_eq!(start_polling(Some("/p/{request_id}/{request_id}"), &body, "").unwrap().url, "/p/x/x");
    assert_eq!(start_polling(None, &body, "").unwrap_err(), PollStartError::NoPollPath);
    assert_eq!(
        start_polling(Some("/p"), &JsonValue::Null, "").unwrap_err(),
        PollStartError::MissingRequestId
    );
    assert_eq!(
        PollStartError::MissingRequestId.message(),
        "Upstream 202 response missing requestId"
    );
}

#[test]
fn poll_waits_double_up_to_the_maximum() {
    let mut p = Poller::new(&timeouts());
    assert_eq!(p.next_wait(), 1000);
    assert_eq!(p.next_wait(), 2000);
    assert_eq!(p.next_wait(), 4000);
    assert_eq!(p.next_wait(), 8000);
    assert_eq!(p.next_wait(), 10000);
    assert_eq!(p.next_wait(), 10000);
    assert!(!p.timed_out(300_000_000_000));
    assert!(p.timed_out(300_000_000_001));
}

#[test]
fn poll_answers_are_classified() {
    assert_eq!(poll_decision(202), PollDecision::Pending);
    assert_eq!(poll_decision(200), PollDecision::Ready);
    assert_eq!(poll_decision(503), PollDecision::Failed);
}

#[test]
fn test_call_body_asks_hello_world() {
    let b = test_call_body("vendor/m");
    assert_eq!(get(&b, "model"), Some(&JsonValue::Str("vendor/m".into())));
    assert_eq!(get(&b, "max_tokens"), Some(&JsonValue::Number(JsonNumber::PosInt(50))));
    match get(&b, "messages") {
        Some(JsonValue::Array(ms)) => {
            assert_eq!(ms.len(), 1);
            assert_eq!(get(&ms[0], "role"), Some(&JsonValue::Str("user".into())));
            assert_eq!(get(&ms[0], "content"), Some(&JsonValue::Str("hello world".into())));
        },
        other => panic!("{other:?}"),
    }
}

#[test]
fn replace_matches_std() {
    for (s, p, w) in [("aaa", "aa", "b"), ("x{a}y{a}", "{a}", "Z"), ("", "a", "b"), ("abc", "abcd", "")] {
        assert_eq!(replace_text(s, p, w), s.replace(p, w));
    }
}

#[test]
fn poll_steps_wait_then_poll_until_ready() {
    let mut p = Poller::new(&timeouts());
    assert_eq!(p.step(PollEvent::Begin), PollAction::Sleep { ms: 1000 });
    assert_eq!(p.step(PollEvent::Woke { elapsed_ns: 1_000_000_000 }), PollAction::SendPoll);
    assert_eq!(p.step(PollEvent::Answered { status: 202 }), PollAction::Sleep { ms: 2000 });
    assert_eq!(p.step(PollEvent::Woke { elapsed_ns: 3_000_000_000 }), PollAction::SendPoll);
    assert_eq!(p.step(PollEvent::Answered { status: 200 }), PollAction::AnswerReady);
    assert_eq!(p.interval_ms(), 4000);
}

#[test]
fn poll_steps_fail_and_time_out() {
    let mut p = Poller::new(&timeouts());
    assert_eq!(p.step(PollEvent::Answered { status: 500 }), PollAction::AnswerFailed);
    assert_eq!(p.step(PollEvent::Woke { elapsed_ns: 300_000_000_001 }), PollAction::TimedOut);
    assert_eq!(p.step(PollEvent::Woke { elapsed_ns: 300_000_000_000 }), PollAction::SendPoll);
}

#[test]
fn poll_timeout_message_names_request() {
    assert_eq!(poll_timeout_message("abc"), "Polling for requestId abc timed out");
}

#[test]
fn test_call_result_by_status() {
    assert_eq!(test_call_result(200, "200 OK", "hi".to_string()), Ok("hi".to_string()));
    assert_eq!(
        test_call_result(401, "401 Unauthorized", "no key".to_string()),
        Err("Test call failed (401 Unauthorized): no key".to_string())
    );
}
