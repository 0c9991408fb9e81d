use radiumical_core::llm_cache::{LlmCache, MAX_CACHE_ENTRIES};
use radiumical_core::types::{FunctionDef, Message, MessageContent, ProviderEvent, Role, ToolDefinition};

fn make_message(content: &str) -> Message {
    Message {
        role: Role::User,
        content: MessageContent::Text(content.to_string()),
        tool_calls: None,
        tool_call_id: None,
        name: None,
        reasoning_content: None,
    }
}

fn make_tool(name: &str) -> ToolDefinition {
    ToolDefinition {
        tool_type: "function".to_string(),
        function: FunctionDef {
            name: name.to_string(),
            description: "test tool".to_string(),
            parameters: "{}".to_string(),
        },
    }
}

#[test]
fn cache_miss_then_hit() {
    let mut cache = LlmCache::new();
    let msgs = [make_message("hello")];
    let tools = [];
    let events = vec![ProviderEvent::Text("hi".into()), ProviderEvent::Done];

    assert!(cache.get("gpt-4", &msgs, &tools, None).is_none());

    cache.put("gpt-4", &msgs, &tools, None, events.clone());

    let result = cache.get("gpt-4", &msgs, &tools, None);
    assert!(result.is_some());
    let cached = result.unwrap();
    assert_eq!(cached.len(), 2);
    assert!(matches!(&cached[0], ProviderEvent::Text(t) if t == "hi"));
    assert!(matches!(&cached[1], ProviderEvent::Done));
}

#[test]
fn different_messages_different_keys() {
    let mut cache = LlmCache::new();
    let msgs_a = [make_message("hello")];
    let msgs_b = [make_message("world")];
    let tools = [];

    cache.put(
        "gpt-4", &msgs_a, &tools, None,
        vec![ProviderEvent::Text("alpha".into()), ProviderEvent::Done],
    );
    cache.put(
        "gpt-4", &msgs_b, &tools, None,
        vec![ProviderEvent::Text("beta".into()), ProviderEvent::Done],
    );

    let a = cache.get("gpt-4", &msgs_a, &tools, None).unwrap();
    assert!(matches!(&a[0], ProviderEvent::Text(t) if t == "alpha"));

    let b = cache.get("gpt-4", &msgs_b, &tools, None).unwrap();
    assert!(matches!(&b[0], ProviderEvent::Text(t) if t == "beta"));
}

#[test]
fn different_models_different_keys() {
    let mut cache = LlmCache::new();
    let msgs = [make_message("hello")];
    let tools = [];

    cache.put(
        "gpt-4", &msgs, &tools, None,
        vec![ProviderEvent::Text("gpt4".into()), ProviderEvent::Done],
    );
    cache.put(
        "gpt-4o", &msgs, &tools, None,
        vec![ProviderEvent::Text("gpt4o".into()), ProviderEvent::Done],
    );

    let a = cache.get("gpt-4", &msgs, &tools, None).unwrap();
    assert!(matches!(&a[0], ProviderEvent::Text(t) if t == "gpt4"));

    let b = cache.get("gpt-4o", &msgs, &tools, None).unwrap();
    assert!(matches!(&b[0], ProviderEvent::Text(t) if t == "gpt4o"));
}

#[test]
fn different_tools_different_keys() {
    let mut cache = LlmCache::new();
    let msgs = [make_message("hello")];
    let tools_a = [make_tool("tool_a")];
    let tools_b = [make_tool("tool_b")];

    cache.put(
        "gpt-4", &msgs, &tools_a, None,
        vec![ProviderEvent::Text("a".into()), ProviderEvent::Done],
    );
    cache.put(
        "gpt-4", &msgs, &tools_b, None,
        vec![ProviderEvent::Text("b".into()), ProviderEvent::Done],
    );

    let a = cache.get("gpt-4", &msgs, &tools_a, None).unwrap();
    assert!(matches!(&a[0], ProviderEvent::Text(t) if t == "a"));

    let b = cache.get("gpt-4", &msgs, &tools_b, None).unwrap();
    assert!(matches!(&b[0], ProviderEvent::Text(t) if t == "b"));
}

#[test]
fn reasoning_effort_affects_key() {
    let mut cache = LlmCache::new();
    let msgs = [make_message("hello")];
    let tools = [];

    cache.put(
        "gpt-4", &msgs, &tools, Some("high"),
        vec![ProviderEvent::Text("high".into()), ProviderEvent::Done],
    );
    cache.put(
        "gpt-4", &msgs, &tools, Some("low"),
        vec![ProviderEvent::Text("low".into()), ProviderEvent::Done],
    );

    let a = cache.get("gpt-4", &msgs, &tools, Some("high")).unwrap();
    assert!(matches!(&a[0], ProviderEvent::Text(t) if t == "high"));

    let b = cache.get("gpt-4", &msgs, &tools, Some("low")).unwrap();
    assert!(matches!(&b[0], ProviderEvent::Text(t) if t == "low"));

    assert!(cache.get("gpt-4", &msgs, &tools, None).is_none());
}

#[test]
fn cache_size_limit_eviction() {
    let mut cache = LlmCache::new();
    let tools = [];

    let first_msgs = [make_message("first")];
    cache.put(
        "gpt-4", &first_msgs, &tools, None,
        vec![ProviderEvent::Text("first".into()), ProviderEvent::Done],
    );

    for i in 0..MAX_CACHE_ENTRIES {
        let msgs = [make_message(&format!("msg_{i}"))];
        cache.put(
            "gpt-4", &msgs, &tools, None,
            vec![ProviderEvent::Text(format!("{i}")), ProviderEvent::Done],
        );
    }

    assert!(cache.get("gpt-4", &first_msgs, &tools, None).is_none());

    let recent = MAX_CACHE_ENTRIES - 1;
    let recent_msgs = [make_message(&format!("msg_{recent}"))];
    assert!(cache.get("gpt-4", &recent_msgs, &tools, None).is_some());
}

#[test]
fn empty_events_not_cached() {
    let mut cache = LlmCache::new();
    let msgs = [make_message("test")];
    let tools = [];

    cache.put("gpt-4", &msgs, &tools, None, vec![]);
    assert!(cache.get("gpt-4", &msgs, &tools, None).is_none());
}

#[test]
fn error_events_not_cached() {
    let mut cache = LlmCache::new();
    let msgs = [make_message("test")];
    let tools = [];

    cache.put(
        "gpt-4", &msgs, &tools, None,
        vec![ProviderEvent::Error("fail".into()), ProviderEvent::Done],
    );
    assert!(cache.get("gpt-4", &msgs, &tools, None).is_none());
}

#[test]
fn cache_hit_renews_entry() {
    let mut cache = LlmCache::new();
    let tools = [];
    let k0 = [make_message("k0")];
    cache.put("gpt-4", &k0, &tools, None, vec![ProviderEvent::Text("k0".into()), ProviderEvent::Done]);
    for i in 0..MAX_CACHE_ENTRIES - 1 {
        let msgs = [make_message(&format!("m_{i}"))];
        cache.put("gpt-4", &msgs, &tools, None, vec![ProviderEvent::Text(format!("{i}")), ProviderEvent::Done]);
    }
    assert!(cache.get("gpt-4", &k0, &tools, None).is_some());
    let fresh = [make_message("fresh")];
    cache.put("gpt-4", &fresh, &tools, None, vec![ProviderEvent::Text("fresh".into()), ProviderEvent::Done]);
    assert!(cache.get("gpt-4", &k0, &tools, None).is_some());
    let lru = [make_message("m_0")];
    assert!(cache.get("gpt-4", &lru, &tools, None).is_none());
    assert!(cache.get("gpt-4", &fresh, &tools, None).is_some());
}
