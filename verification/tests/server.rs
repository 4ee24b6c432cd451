use nimpipe::json::{obj_get, JsonNumber, JsonValue};
use nimpipe::models::{ModelEntry, ModelRegistry, ModelRegistryFile, ParamMap};
use nimpipe::server::{
    asset_content_type, error_body, models_response, plan_chat_request, ChatPlan, RecentEvent,
    RecentEvents,
};

fn obj(entries: Vec<(&str, JsonValue)>) -> JsonValue {
    JsonValue::Object(entries.into_iter().map(|(k, v)| (k.to_string(), v)).collect())
}

fn get<'a>(v: &'a JsonValue, k: &str) -> Option<&'a JsonValue> {
    match v {
        JsonValue::Object(es) => obj_get(es, &k.to_string()),
        _ => None,
    }
}

fn params(kv: Vec<(&str, JsonValue)>) -> ParamMap {
    let mut p = ParamMap::new();
    for (k, v) in kv {
        p.insert(k.to_string(), v);
    }
    p
}

fn registry() -> ModelRegistry {
    let mk = |id: &str, streaming: bool| ModelEntry {
        openai_id: id.to_string(),
        backend_id: format!("vendor/{id}"),
        description: String::new(),
        max_tokens_cap: None,
        default_params: ParamMap::new(),
        injected_params: params(vec![("chat_template_kwargs.thinking", JsonValue::Bool(true))]),
        strip_params: vec![],
        supports_streaming: streaming,
        supports_tools: true,
        status_poll_path: Some("/status/{request_id}".to_string()),
    };
    ModelRegistry::from_file(&ModelRegistryFile { models: vec![mk("fast", true), mk("slow", false)] })
        .unwrap()
}

#[test]
fn unknown_model_is_answered_404() {
    let plan = plan_chat_request(obj(vec![("model", JsonValue::Str("nope".into()))]), &registry());
    match plan {
        ChatPlan::Reject { status, message } => {
            assert_eq!(status, 404);
            assert_eq!(message, "Model 'nope' not found");
        },
        other => panic!("{other:?}"),
    }
    match plan_chat_request(JsonValue::Array(vec![]), &registry()) {
        ChatPlan::Reject { status, message } => {
            assert_eq!(status, 404);
            assert_eq!(message, "Model '' not found");
        },
        other => panic!("{other:?}"),
    }
}

#[test]
fn streaming_refused_for_model_without_streaming() {
    let body = obj(vec![("model", JsonValue::Str("slow".into())), ("stream", JsonValue::Bool(true))]);
    match plan_chat_request(body, &registry()) {
        ChatPlan::Reject { status, message } => {
            assert_eq!(status, 400);
            assert_eq!(message, "Model does not support streaming");
        },
        other => panic!("{other:?}"),
    }
}

#[test]
fn known_model_is_forwarded_rewritten() {
    let body = obj(vec![("model", JsonValue::Str("fast".into())), ("stream", JsonValue::Bool(true))]);
    match plan_chat_request(body, &registry()) {
        ChatPlan::Forward { body, stream, status_poll_path } => {
            assert!(stream);
            assert_eq!(status_poll_path.as_deref(), Some("/status/{request_id}"));
            assert_eq!(get(&body, "model"), Some(&JsonValue::Str("vendor/fast".into())));
        },
        other => panic!("{other:?}"),
    }
}

#[test]
fn conflicting_injection_is_reported() {
    let body = obj(vec![
        ("model", JsonValue::Str("fast".into())),
        ("chat_template_kwargs", JsonValue::Number(JsonNumber::PosInt(1))),
    ]);
    assert!(matches!(plan_chat_request(body, &registry()), ChatPlan::InjectionConflict));
}

#[test]
fn error_body_has_message_type_and_code() {
    let b = error_body("boom", "nimpipe_error", 502);
    let e = get(&b, "error").unwrap();
    assert_eq!(get(e, "message"), Some(&JsonValue::Str("boom".into())));
    assert_eq!(get(e, "type"), Some(&JsonValue::Str("nimpipe_error".into())));
    assert_eq!(get(e, "code"), Some(&JsonValue::Number(JsonNumber::PosInt(502))));
}

#[test]
fn model_list_names_every_entry() {
    let r = models_response(&registry(), 1234);
    assert_eq!(r.object, "list");
    assert_eq!(r.data.len(), 2);
    assert_eq!(r.data[0].id, "fast");
    assert_eq!(r.data[1].id, "slow");
    assert_eq!(r.data[1].object, "model");
    assert_eq!(r.data[1].created, 1234);
    assert_eq!(r.data[1].owned_by, "nimpipe");
}

#[test]
fn event_log_keeps_the_last_hundred() {
    let mut log = RecentEvents::new();
    for i in 0..150 {
        log.log_event(RecentEvent {
            timestamp: format!("t{i}"),
            level: "INFO".to_string(),
            message: format!("m{i}"),
        });
    }
    let events = log.events();
    assert_eq!(events.len(), 100);
    assert_eq!(events[0].message, "m50");
    assert_eq!(events[99].message, "m149");
}

#[test]
fn asset_types() {
    assert_eq!(asset_content_type(Some("js")), "application/javascript");
    assert_eq!(asset_content_type(Some("css")), "text/css");
    assert_eq!(asset_content_type(Some("png")), "application/octet-stream");
    assert_eq!(asset_content_type(None), "application/octet-stream");
}
