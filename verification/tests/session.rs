use radiumical_core::session::{
    choose_session, hash_name, infer_workspace_name, items_to_messages, session_file_name, session_records, split_session, workspace_hash,
    SessionItem, SessionMeta, SessionMode, SessionPool, UsageChoices, WorkspaceRegistry,
};
use radiumical_core::types::Role;

#[test]
fn test_hash_name_deterministic() {
    let a = hash_name("test");
    let b = hash_name("test");
    assert_eq!(a, b);
}

#[test]
fn test_hash_name_different() {
    let a = hash_name("hello");
    let b = hash_name("world");
    assert_ne!(a, b);
}

#[test]
fn test_workspace_hash_deterministic() {
    let a = workspace_hash("/home/user/project");
    let b = workspace_hash("/home/user/project");
    assert_eq!(a, b);
}

#[test]
fn test_workspace_hash_different() {
    let a = workspace_hash("/home/user/project-a");
    let b = workspace_hash("/home/user/project-b");
    assert_ne!(a, b);
}

#[test]
fn test_pool_for_workspace_isolation() {
    let pool_a = SessionPool::for_workspace("/home/user", "/tmp/workspace-a");
    let pool_b = SessionPool::for_workspace("/home/user", "/tmp/workspace-b");
    assert_ne!(pool_a.dir(), pool_b.dir());
    // Both should be under ~/.radi/sessions/
    assert!(pool_a.dir().contains("sessions"));
    assert!(pool_b.dir().contains("sessions"));
}

#[test]
fn test_items_to_messages_rebuilds_history() {
    let items = vec![
        SessionItem::User {
            content: "hi".into(),
        },
        SessionItem::Reasoning {
            content: "let me think".into(),
        },
        SessionItem::Assistant {
            content: "hello".into(),
        },
        SessionItem::Tool {
            id: "call_1".into(),
            name: "read_file".into(),
            args: "{\"path\":\"x\"}".into(),
            result: Some("data".into()),
        },
        SessionItem::User {
            content: "thanks".into(),
        },
    ];
    let msgs = items_to_messages(&items);
    assert_eq!(msgs.len(), 4);
    assert_eq!(msgs[0].role, Role::User);
    assert_eq!(msgs[1].role, Role::Assistant);
    assert_eq!(msgs[1].reasoning_content.as_deref(), Some("let me think"));
    assert!(msgs[1].tool_calls.is_some());
    assert_eq!(msgs[1].tool_calls.as_ref().unwrap().len(), 1);
    assert_eq!(msgs[2].role, Role::Tool);
    assert_eq!(msgs[3].role, Role::User);
}

#[test]
fn test_items_to_messages_skips_meta_and_raw() {
    let items = vec![
        SessionItem::Meta {
            name: "x".into(),
            created: "now".into(),
            updated: "now".into(),
            model: "m".into(),
            provider: "p".into(),
            mode: SessionMode::Auto,
            thinking_effort: "".into(),
            description: "".into(),
            message_count: 0,
        },
        SessionItem::Raw {
            lines: vec!["error".into()],
        },
        SessionItem::User {
            content: "u".into(),
        },
    ];
    let msgs = items_to_messages(&items);
    assert_eq!(msgs.len(), 1);
    assert_eq!(msgs[0].role, Role::User);
}

#[test]
fn test_pool_for_workspace_different_paths() {
    let pool_a = SessionPool::for_workspace("/home/user", "/tmp/ws-x");
    let pool_b = SessionPool::for_workspace("/home/user", "/tmp/ws-y");
    assert_ne!(pool_a.dir(), pool_b.dir());
    assert!(pool_a.dir().contains("sessions"));
    assert!(pool_b.dir().contains("sessions"));
}


#[test]
fn test_workspace_hash_ignores_case() {
    assert_eq!(workspace_hash("/Home/User/Project"), workspace_hash("/home/user/project"));
    assert_eq!(workspace_hash("/home/user/project"), hash_name("/home/user/project"));
}

#[test]
fn test_hash_name_is_lower_hex() {
    let h = hash_name("session");
    assert!(!h.is_empty() && h.len() <= 16);
    assert!(h.chars().all(|c| c.is_ascii_digit() || ('a'..='f').contains(&c)));
}

#[test]
fn test_pool_dir_layout() {
    let pool = SessionPool::for_workspace("/home/u", "/w");
    assert_eq!(pool.dir(), format!("/home/u/.radi/sessions/{}", workspace_hash("/w")));
    let pool = SessionPool::for_workspace("/home/u/", "/w");
    assert_eq!(pool.dir(), format!("/home/u/.radi/sessions/{}", workspace_hash("/w")));
    let pool = SessionPool::new("/data/sessions");
    assert_eq!(pool.dir(), "/data/sessions");
}

#[test]
fn test_session_records_and_split() {
    let items = vec![
        SessionItem::User { content: "hello".into() },
        SessionItem::Assistant { content: "hi".into() },
        SessionItem::Tool { id: "call_1".into(), name: "read_file".into(), args: "{}".into(), result: Some("content".into()) },
    ];
    let records = session_records("_test_session", items, "test-model", "openai", SessionMode::Auto, "max", Some("test desc"), "2025-01-01 10:00".into());
    assert_eq!(records.len(), 4);
    match &records[0] {
        SessionItem::Meta { name, created, updated, model, provider, mode, thinking_effort, description, message_count } => {
            assert_eq!(name, "_test_session");
            assert_eq!(created, "2025-01-01 10:00");
            assert_eq!(updated, "2025-01-01 10:00");
            assert_eq!(model, "test-model");
            assert_eq!(provider, "openai");
            assert_eq!(*mode, SessionMode::Auto);
            assert_eq!(thinking_effort, "max");
            assert_eq!(description, "test desc");
            assert_eq!(*message_count, 3);
        }
        other => panic!("expected meta, got {other:?}"),
    }
    let (meta, loaded) = split_session(records).unwrap();
    assert_eq!(meta.name, "_test_session");
    assert_eq!(meta.message_count, 3);
    assert_eq!(loaded.len(), 3);
    match &loaded[2] {
        SessionItem::Tool { result, .. } => assert_eq!(result.as_deref(), Some("content")),
        _ => panic!("expected tool item"),
    }
    assert_eq!(split_session(vec![]).unwrap_err(), "session file is empty");
    assert_eq!(
        split_session(vec![SessionItem::User { content: "x".into() }]).unwrap_err(),
        "first record is not meta"
    );
    assert_eq!(session_file_name("abc"), format!("{}.jsonl", hash_name("abc")));
}

#[test]
fn test_message_count_excludes_meta() {
    let items = vec![
        SessionItem::User { content: "q".into() },
        SessionItem::Assistant { content: "a".into() },
        SessionItem::Tool { id: "t1".into(), name: "fn".into(), args: "{}".into(), result: Some("r".into()) },
    ];
    let records = session_records("cnt", items, "m", "p", SessionMode::Auto, "", None, "now".into());
    assert!(matches!(&records[0], SessionItem::Meta { message_count: 3, description, .. } if description.is_empty()));
}

#[test]
fn test_workspace_registry_register_switch_discover() {
    let mut reg = WorkspaceRegistry::default();
    let name = reg.register("/home/u/project-a", None).unwrap();
    assert_eq!(name, "project-a");
    let again = reg.register("/home/u/project-a", Some("other")).unwrap();
    assert_eq!(again, "project-a");
    assert_eq!(reg.workspaces.len(), 1);
    assert_eq!(reg.workspaces[0].hash, workspace_hash("/home/u/project-a"));
    assert_eq!(reg.workspaces[0].path, "/home/u/project-a");
    let named = reg.register_at("/srv/x", "deadbeefcafe", Some("x-ws"), None, "t0".into());
    assert_eq!(named, "x-ws");
    let unnamed = reg.register_at("/", "0123456789", None, None, "t1".into());
    assert_eq!(unnamed, "ws-01234567");
    assert_eq!(reg.workspaces.len(), 3);

    assert!(reg.switch("x-ws").is_ok());
    assert_eq!(reg.active.as_deref(), Some("x-ws"));
    assert_eq!(reg.switch("missing").unwrap_err(), "Workspace 'missing' not found");
    assert!(reg.switch_at("project-a", "T".into()).is_ok());
    assert_eq!(reg.get("project-a").unwrap().last_active, "T");

    reg.discover_at(
        vec![("deadbeefcafe".to_string(), "dup".to_string()), ("feedface00".to_string(), "found".to_string())],
        "now",
    );
    assert_eq!(reg.workspaces.len(), 4);
    assert_eq!(reg.workspaces[3].name, "found");
    assert!(reg.workspaces[3].path.is_empty());

    assert_eq!(infer_workspace_name(Some("my project".into()), "abcdef0123"), "my project");
    assert_eq!(infer_workspace_name(Some("auto-123".into()), "abcdef0123"), "ws-abcdef01");
    assert_eq!(infer_workspace_name(Some(String::new()), "abc"), "ws-abc");
    assert_eq!(infer_workspace_name(None, "abcdef0123"), "ws-abcdef01");
}

fn meta_updated(name: &str, updated: &str) -> SessionMeta {
    SessionMeta {
        name: name.to_string(),
        created: "2024-01-01T00:00:00Z".to_string(),
        updated: updated.to_string(),
        model: String::new(),
        provider: String::new(),
        mode: SessionMode::Auto,
        thinking_effort: String::new(),
        description: String::new(),
        message_count: 0,
    }
}

#[test]
fn choose_session_by_recency() {
    let list = || {
        vec![
            meta_updated("mid", "2024-02-01T00:00:00Z"),
            meta_updated("new", "2024-03-01T00:00:00Z"),
            meta_updated("old", "2024-01-01T00:00:00Z"),
        ]
    };
    assert_eq!(choose_session(list(), UsageChoices::Newest), Some("new".to_string()));
    assert_eq!(choose_session(list(), UsageChoices::Oldest), Some("old".to_string()));
    assert_eq!(
        choose_session(list(), UsageChoices::Customize("any".to_string())),
        Some("any".to_string())
    );
    assert_eq!(choose_session(Vec::new(), UsageChoices::Newest), None);
}
