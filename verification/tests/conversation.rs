use radiumical_core::conversation::Conversation;
use radiumical_core::jsonl::{decode_jsonl, encode_jsonl, records_from_bytes};
use radiumical_core::types::{FunctionCall, Message, MessageContent, Role, ToolCall, ToolResult};

fn make_tool_call(id: &str, name: &str, args: &str) -> ToolCall {
    ToolCall {
        id: id.to_string(),
        call_type: "function".to_string(),
        function: FunctionCall {
            name: name.to_string(),
            arguments: args.to_string(),
        },
    }
}

fn make_tool_result(id: &str, content: &str) -> ToolResult {
    ToolResult {
        tool_call_id: id.to_string(),
        content: content.to_string(),
        is_error: false,
    }
}

#[test]
fn test_new_empty() {
    let conv = Conversation::new("sys".to_string(), None);
    assert!(conv.messages().is_empty());
}

#[test]
fn test_push_user_assistant() {
    let mut conv = Conversation::new("sys".to_string(), None);
    conv.push_user("hello");
    conv.push_assistant("hi", None, None);
    assert_eq!(conv.messages().len(), 2);
    assert_eq!(conv.messages()[0].role, Role::User);
    assert_eq!(conv.messages()[1].role, Role::Assistant);
}

#[test]
fn test_push_tool_result() {
    let mut conv = Conversation::new("sys".to_string(), None);
    let call = make_tool_call("1", "read_file", "{}");
    let result = make_tool_result("1", "file content");
    // Simulate harness flow: push assistant first, then tool result
    conv.push_assistant("", Some(vec![call.clone()]), None);
    conv.push_tool_result(&call, &result, None);
    assert_eq!(conv.messages().len(), 2); // assistant with tool_calls + tool result
    assert!(conv.messages()[0].tool_calls.is_some());
    assert_eq!(conv.messages()[0].role, Role::Assistant);
    assert_eq!(conv.messages()[1].role, Role::Tool);
}

#[test]
fn test_build_context() {
    let mut conv = Conversation::new("system".to_string(), None);
    conv.push_user("hi");
    conv.push_assistant("hello", None, None);
    let ctx = conv.build_context("do stuff", None);
    // system + 2 history + task
    assert_eq!(ctx.len(), 4);
    assert_eq!(ctx[0].role, Role::System);
    assert_eq!(ctx[1].role, Role::User);
    assert_eq!(ctx[2].role, Role::Assistant);
    assert_eq!(ctx[3].role, Role::User);
}

#[test]
fn test_build_context_empty_history() {
    let conv = Conversation::new("sys".to_string(), None);
    let ctx = conv.build_context("task", None);
    assert_eq!(ctx.len(), 2); // system + task
}

#[test]
fn test_estimated_tokens() {
    let mut conv = Conversation::new("sys".to_string(), None);
    conv.push_user("hello world");
    let tokens = conv.estimate_tokens();
    assert!(tokens > 0);
}

#[test]
fn test_truncate_to_tokens() {
    let mut conv = Conversation::new("sys".to_string(), None);
    for i in 0..100 {
        conv.push_user(&format!("message {i}"));
        conv.push_assistant(&format!("reply {i}"), None, None);
    }
    let before = conv.messages().len();
    conv.truncate_to_tokens(50);
    let after = conv.messages().len();
    assert!(after < before);
}

#[test]
fn test_preview_message() {
    let msg = Message {
        role: Role::User,
        content: MessageContent::Text("hello world".to_string()),
        tool_calls: None,
        tool_call_id: None,
        name: None,
        reasoning_content: None,
    };
    let preview = Conversation::preview_message(&msg);
    assert!(preview.contains("user"));
    assert!(preview.contains("hello"));
}

#[test]
fn test_truncate_str_short() {
    let result = Conversation::truncate_str("short", 100);
    assert_eq!(result, "short");
}

#[test]
fn test_truncate_str_long() {
    let long = "a".repeat(1000);
    let result = Conversation::truncate_str(&long, 100);
    assert!(result.contains("truncated"));
    assert!(result.len() < long.len());
}

#[test]
fn test_pending_queue() {
    let mut conv = Conversation::new("sys".to_string(), None);
    conv.push_user("hello");
    conv.push_assistant("hi", None, None);
    // Pending should have 2 entries
    let pending = conv.drain_pending();
    assert_eq!(pending.len(), 2);
    // After drain, dirty should be 0
    assert_eq!(conv.dirty(), 0);
}

#[test]
fn test_compress_range() {
    let mut conv = Conversation::new("sys".to_string(), None);
    conv.push_user("a");
    conv.push_assistant("b", None, None);
    conv.push_user("c");
    conv.push_assistant("d", None, None);
    conv.push_user("e");
    conv.push_assistant("f", None, None);
    let before = conv.messages().len();
    conv.compress_range(3, "summary".to_string());
    // Should have: system + summary + messages[3..]
    assert!(conv.messages().len() < before);
    assert!(matches!(&conv.messages()[1].content, MessageContent::Text(s) if s == "summary"));
}

#[test]
fn test_build_context_with_preview() {
    let mut conv = Conversation::new("system prompt".to_string(), None);
    for i in 0..20 {
        conv.push_user(&format!(
            "user message {i} with some extra padding to increase length"
        ));
        conv.push_assistant(
            &format!("assistant reply {i} with some extra padding too"),
            None,
            None,
        );
    }
    let ctx = conv.build_context_with_preview("task", None, 200);
    // Should be truncated since total chars far exceed 200
    assert!(ctx.len() < 42); // 20 messages * 2 + system + task = 42, should be less
    let has_omission = ctx.iter().any(|m| match &m.content {
        MessageContent::Text(s) => s.contains("omitted for brevity"),
        _ => false,
    });
    assert!(has_omission, "should contain omission message");
}

#[test]
fn test_mark_file_seen_and_changed() {
    let mut conv = Conversation::new("sys".to_string(), None);
    conv.mark_file_seen("test.txt", 1_000);

    // The file was modified after it was read: its modification time moved on.
    let changed = conv.changed_seen_files(&vec![Some(2_500)]);
    assert!(changed.contains(&"test.txt".to_string()));
    let unchanged = conv.changed_seen_files(&vec![Some(1_000)]);
    assert!(unchanged.is_empty());
}

#[test]
fn test_reset_messages_clears_pending() {
    let mut conv = Conversation::new("sys".to_string(), None);
    conv.push_user("hello");
    conv.push_assistant("hi", None, None);
    conv.push_user("again");
    assert_eq!(conv.messages().len(), 3);

    conv.reset_messages(vec![]);
    assert!(conv.messages().is_empty());
    assert_eq!(conv.dirty(), 0);
    let pending = conv.drain_pending();
    assert!(pending.is_empty());
}

#[test]
fn test_estimate_tokens_with_reasoning() {
    let mut conv = Conversation::new("sys".to_string(), None);
    conv.push_assistant(
        "answer",
        None,
        Some("this is my chain of thought reasoning"),
    );
    let tokens = conv.estimate_tokens();
    // "answer" = 6 chars, reasoning = 39 chars, total = 45 / 4 = 11
    assert!(tokens > 0, "tokens should include reasoning content");
    // With only "answer" (6 chars / 4 = 1), tokens would be 1.
    // With reasoning (45 chars / 4 = 11), tokens should be > 1.
    assert!(tokens > 1, "reasoning should increase token count");
}

#[test]
fn test_estimate_tokens_with_tool_calls() {
    let mut conv = Conversation::new("sys".to_string(), None);
    let call = make_tool_call("1", "read_file", "{\"path\":\"src/main.rs\"}");
    conv.push_assistant("", Some(vec![call]), None);
    let tokens = conv.estimate_tokens();
    // function name "read_file" = 9, arguments = 24, total = 33 / 4 = 8
    assert!(tokens > 0, "tokens should include tool call content");
}

#[test]
fn test_zstd_roundtrip() {
    let records: Vec<String> = vec![
        r#"{"role":"user","content":"hello"}"#.to_string(),
        r#"{"role":"assistant","content":"world"}"#.to_string(),
        r#"{"role":"user","content":"how are you?"}"#.to_string(),
        r#"{"role":"assistant","content":"fine"}"#.to_string(),
    ];
    let bytes = encode_jsonl(&records).expect("should compress");
    // The file is a zstd frame, not the plain text.
    assert_eq!(&bytes[..4], &[0x28, 0xb5, 0x2f, 0xfd]);

    let loaded = decode_jsonl(&bytes).expect("should load messages");
    assert_eq!(loaded.len(), 4);
    assert!(loaded[0].contains("\"hello\""));
    assert!(loaded[1].contains("\"world\""));
    assert!(loaded[2].contains("\"how are you?\""));
    assert!(loaded[3].contains("\"fine\""));
    assert_eq!(loaded, records);
}

#[test]
fn test_pending_queue_multiple_pushes() {
    let mut conv = Conversation::new("sys".to_string(), None);
    for i in 0..10 {
        conv.push_user(&format!("msg {i}"));
    }
    assert_eq!(conv.dirty(), 10);
    let drained = conv.drain_pending();
    assert_eq!(drained.len(), 10);
    assert_eq!(conv.dirty(), 0);
}

#[test]
fn records_from_plain_bytes() {
    let r = records_from_bytes(b"{\"a\":1}\n{\"b\":2}\n".to_vec());
    assert_eq!(r, Some(vec!["{\"a\":1}".to_string(), "{\"b\":2}".to_string()]));
    assert_eq!(records_from_bytes(vec![0xff, 0xfe]), None);
}

#[test]
fn appended_batches_decode_in_order() {
    let a = vec!["{\"n\":1}".to_string(), "{\"n\":2}".to_string()];
    let b = vec!["{\"n\":3}".to_string()];
    let mut file = encode_jsonl(&a).unwrap();
    file.extend(encode_jsonl(&b).unwrap());
    let all = decode_jsonl(&file).unwrap();
    assert_eq!(all, vec!["{\"n\":1}", "{\"n\":2}", "{\"n\":3}"]);
}
