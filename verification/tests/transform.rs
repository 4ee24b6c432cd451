use nimpipe::json::{obj_get, JsonNumber, JsonValue};
use nimpipe::models::{ModelEntry, ParamMap};
use nimpipe::transform::{injection_conflict, set_nested, transform_request, TransformError};

fn obj(entries: Vec<(&str, JsonValue)>) -> JsonValue {
    JsonValue::Object(entries.into_iter().map(|(k, v)| (k.to_string(), v)).collect())
}

fn text(s: &str) -> JsonValue {
    JsonValue::Str(s.to_string())
}

fn get<'a>(v: &'a JsonValue, k: &str) -> Option<&'a JsonValue> {
    match v {
        JsonValue::Object(es) => obj_get(es, &k.to_string()),
        _ => None,
    }
}

fn params(kv: Vec<(&str, JsonValue)>) -> ParamMap {
    let mut p = ParamMap::new();
    for (k, v) in kv {
        p.insert(k.to_string(), v);
    }
    p
}

fn sample_model() -> ModelEntry {
    ModelEntry {
        openai_id: "kimi-k2.6-thinking".to_string(),
        backend_id: "moonshotai/kimi-k2.6".to_string(),
        description: String::new(),
        max_tokens_cap: Some(100),
        default_params: params(vec![(
            "temperature",
            JsonValue::Number(JsonNumber::Float("0.7".to_string())),
        )]),
        injected_params: params(vec![("chat_template_kwargs.thinking", JsonValue::Bool(true))]),
        strip_params: vec!["seed".to_string()],
        supports_streaming: true,
        supports_tools: true,
        status_poll_path: None,
    }
}

#[test]
fn maps_model_alias_and_injects_nested_param() {
    let model = sample_model();
    let body = obj(vec![
        ("model", text("kimi-k2.6-thinking")),
        (
            "messages",
            JsonValue::Array(vec![obj(vec![("role", text("user")), ("content", text("hi"))])]),
        ),
        ("max_tokens", JsonValue::Number(JsonNumber::PosInt(200))),
        ("seed", JsonValue::Number(JsonNumber::PosInt(42))),
    ]);

    let out = transform_request(body, &model).unwrap();
    assert_eq!(get(&out, "model"), Some(&text("moonshotai/kimi-k2.6")));
    assert_eq!(get(&out, "max_tokens"), Some(&JsonValue::Number(JsonNumber::PosInt(100))));
    assert!(get(&out, "seed").is_none());
    assert_eq!(
        get(&out, "temperature"),
        Some(&JsonValue::Number(JsonNumber::Float("0.7".to_string())))
    );
    assert_eq!(
        get(get(&out, "chat_template_kwargs").unwrap(), "thinking"),
        Some(&JsonValue::Bool(true))
    );
}

#[test]
fn transform_refuses_a_body_that_is_not_an_object() {
    let model = sample_model();
    let r = transform_request(JsonValue::Array(vec![]), &model);
    assert_eq!(r, Err(TransformError::NotAnObject));
    assert_eq!(TransformError::NotAnObject.message(), "Request body must be a JSON object");
}

#[test]
fn transform_keeps_client_values_over_defaults() {
    let model = sample_model();
    let body = obj(vec![("temperature", JsonValue::Number(JsonNumber::PosInt(1)))]);
    let out = transform_request(body, &model).unwrap();
    assert_eq!(get(&out, "temperature"), Some(&JsonValue::Number(JsonNumber::PosInt(1))));
}

#[test]
fn transform_leaves_small_or_non_integer_max_tokens() {
    let model = sample_model();
    let out = transform_request(
        obj(vec![("max_tokens", JsonValue::Number(JsonNumber::PosInt(50)))]),
        &model,
    )
    .unwrap();
    assert_eq!(get(&out, "max_tokens"), Some(&JsonValue::Number(JsonNumber::PosInt(50))));
    let out = transform_request(
        obj(vec![("max_tokens", JsonValue::Number(JsonNumber::Float("500.5".to_string())))]),
        &model,
    )
    .unwrap();
    assert_eq!(
        get(&out, "max_tokens"),
        Some(&JsonValue::Number(JsonNumber::Float("500.5".to_string())))
    );
}

#[test]
fn transform_merges_into_an_existing_nested_object() {
    let model = sample_model();
    let body = obj(vec![(
        "chat_template_kwargs",
        obj(vec![("thinking", JsonValue::Bool(false)), ("other", text("x"))]),
    )]);
    let out = transform_request(body, &model).unwrap();
    let kw = get(&out, "chat_template_kwargs").unwrap();
    assert_eq!(get(kw, "thinking"), Some(&JsonValue::Bool(true)));
    assert_eq!(get(kw, "other"), Some(&text("x")));
}

#[test]
fn injection_conflict_is_detected() {
    let model = sample_model();
    let body = obj(vec![("chat_template_kwargs", text("not an object"))]);
    assert!(injection_conflict(&body, &model));
    let ok = obj(vec![("chat_template_kwargs", obj(vec![]))]);
    assert!(!injection_conflict(&ok, &model));
    assert!(!injection_conflict(&JsonValue::Null, &model));
}

#[test]
fn set_nested_splits_at_every_dot() {
    let mut entries: Vec<(String, JsonValue)> = Vec::new();
    set_nested(&mut entries, "a.b.c", JsonValue::Bool(true));
    let v = JsonValue::Object(entries);
    let b = get(get(&v, "a").unwrap(), "b").unwrap();
    assert_eq!(get(b, "c"), Some(&JsonValue::Bool(true)));
}

fn same_json(a: &JsonValue, b: &JsonValue) -> bool {
    match (a, b) {
        (JsonValue::Object(x), JsonValue::Object(y)) => {
            x.len() == y.len()
                && x.iter().all(|(k, v)| match obj_get(y, k) {
                    Some(w) => same_json(v, w),
                    None => false,
                })
        }
        (JsonValue::Array(x), JsonValue::Array(y)) => {
            x.len() == y.len() && x.iter().zip(y.iter()).all(|(v, w)| same_json(v, w))
        }
        _ => a == b,
    }
}

#[test]
fn transforming_twice_is_transforming_once() {
    let model = sample_model();
    let body = obj(vec![
        ("model", text("kimi-k2.6-thinking")),
        ("max_tokens", JsonValue::Number(JsonNumber::PosInt(500))),
        ("seed", JsonValue::Number(JsonNumber::PosInt(7))),
        ("chat_template_kwargs", obj(vec![("other", JsonValue::Bool(false))])),
    ]);
    let once = transform_request(body, &model).unwrap();
    let twice = transform_request(once.copy(), &model).unwrap();
    assert!(same_json(&once, &twice));
    assert_eq!(get(&twice, "max_tokens"), Some(&JsonValue::Number(JsonNumber::PosInt(100))));
}
