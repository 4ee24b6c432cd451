use nimpipe::json::JsonValue;
use nimpipe::models::{
    default_models_toml, default_true, ModelEntry, ModelRegistry, ModelRegistryFile, ParamMap,
    RegistryError,
};

fn entry(id: &str, backend: &str) -> ModelEntry {
    ModelEntry {
        openai_id: id.to_string(),
        backend_id: backend.to_string(),
        description: String::new(),
        max_tokens_cap: None,
        default_params: ParamMap::new(),
        injected_params: ParamMap::new(),
        strip_params: vec![],
        supports_streaming: true,
        supports_tools: true,
        status_poll_path: None,
    }
}

fn ids(r: &ModelRegistry) -> Vec<String> {
    r.list().iter().map(|e| e.openai_id.clone()).collect()
}

#[test]
fn registry_lists_models_in_id_order() {
    let file = ModelRegistryFile {
        models: vec![entry("minimax-m3", "minimaxai/minimax-m3"), entry("glm-5.1", "z-ai/glm-5.1"), entry("kimi-k2.6", "moonshotai/kimi-k2.6")],
    };
    let r = ModelRegistry::from_file(&file).unwrap();
    assert_eq!(ids(&r), vec!["glm-5.1", "kimi-k2.6", "minimax-m3"]);
}

#[test]
fn registry_refuses_duplicate_ids() {
    let file = ModelRegistryFile {
        models: vec![entry("a", "x"), entry("b", "y"), entry("a", "z"), entry("b", "w")],
    };
    match ModelRegistry::from_file(&file) {
        Err(RegistryError::DuplicateId(id)) => assert_eq!(id, "a"),
        Ok(_) => panic!("duplicate accepted"),
    }
}

#[test]
fn registry_get_finds_by_client_name() {
    let file = ModelRegistryFile { models: vec![entry("b", "backend-b"), entry("a", "backend-a")] };
    let r = ModelRegistry::from_file(&file).unwrap();
    assert_eq!(r.get("a").unwrap().backend_id, "backend-a");
    assert_eq!(r.get("b").unwrap().backend_id, "backend-b");
    assert!(r.get("c").is_none());
}

#[test]
fn registry_round_trips_through_file() {
    let file = ModelRegistryFile { models: vec![entry("z", "1"), entry("m", "2"), entry("a", "3")] };
    let r = ModelRegistry::from_file(&file).unwrap();
    let back = r.to_file();
    assert_eq!(
        back.models.iter().map(|e| e.openai_id.clone()).collect::<Vec<_>>(),
        vec!["a", "m", "z"]
    );
    let r2 = ModelRegistry::from_file(&back).unwrap();
    assert_eq!(ids(&r2), ids(&r));
}

#[test]
fn registry_orders_by_code_point() {
    let file = ModelRegistryFile { models: vec![entry("b", "1"), entry("B", "2"), entry("ab", "3"), entry("a", "4"), entry("é", "5")] };
    let r = ModelRegistry::from_file(&file).unwrap();
    let mut expected: Vec<String> = vec!["b", "B", "ab", "a", "é"].into_iter().map(String::from).collect();
    expected.sort();
    assert_eq!(ids(&r), expected);
}

#[test]
fn empty_registry_is_empty() {
    let r = ModelRegistry::default();
    assert!(r.list().is_empty());
    assert!(r.to_file().models.is_empty());
}

#[test]
fn defaults_of_capability_flags() {
    assert!(default_true());
}

#[test]
fn default_registry_text_parses() {
    let text = default_models_toml();
    let v: toml::Value = toml::from_str(&text).unwrap();
    let models = v["models"].as_array().unwrap();
    assert_eq!(models.len(), 5);
    let thinking = models.iter().find(|m| m["openai_id"].as_str() == Some("kimi-k2.6-thinking")).unwrap();
    assert_eq!(thinking["backend_id"].as_str(), Some("moonshotai/kimi-k2.6"));
    assert_eq!(thinking["injected_params"]["chat_template_kwargs.thinking"].as_bool(), Some(true));
    let minimax = models.iter().find(|m| m["openai_id"].as_str() == Some("minimax-m3-thinking")).unwrap();
    assert_eq!(minimax["strip_params"].as_array().unwrap()[0].as_str(), Some("stop"));
}

#[test]
fn duplicate_error_text() {
    assert_eq!(
        RegistryError::DuplicateId("x".to_string()).message(),
        "Duplicate openai_id in registry: x"
    );
}

#[test]
fn param_map_keeps_keys_in_order_once() {
    let mut p = ParamMap::new();
    p.insert("top_p".to_string(), JsonValue::Bool(true));
    p.insert("temperature".to_string(), JsonValue::Bool(false));
    p.insert("max".to_string(), JsonValue::Null);
    p.insert("temperature".to_string(), JsonValue::Bool(true));
    assert_eq!(p.len(), 3);
    let keys: Vec<String> = (0..p.len()).map(|i| p.key(i).clone()).collect();
    assert_eq!(keys, vec!["max".to_string(), "temperature".to_string(), "top_p".to_string()]);
    assert_eq!(p.value(1), &JsonValue::Bool(true));
    let q = p.copy();
    assert_eq!(q.len(), 3);
    assert_eq!(q.key(2), "top_p");
}
