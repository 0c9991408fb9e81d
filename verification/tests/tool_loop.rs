use radiumical_core::tool_loop::{
    cancelled_result, dispatch_call, has_mutating, is_mutating, not_allowed_result, parse_settings_marker,
    settings_get_reply, settings_malformed_reply, settings_save_reply, settings_set_reply, summarize_for_checkpoint,
    timed_out_result, trim_start_matches_char, unknown_tool_result, CallDispatch, SettingsCommand,
};
use radiumical_core::types::{FunctionCall, ToolCall};

fn call(id: &str, name: &str) -> ToolCall {
    ToolCall {
        id: id.to_string(),
        call_type: "function".to_string(),
        function: FunctionCall { name: name.to_string(), arguments: "{}".to_string() },
    }
}

fn names(v: &[&str]) -> Vec<String> {
    v.iter().map(|s| s.to_string()).collect()
}

#[test]
fn test_mutating_batches() {
    assert!(is_mutating("write_file"));
    assert!(is_mutating("editFile"));
    assert!(!is_mutating("read_file"));
    assert!(has_mutating(&[call("1", "read_file"), call("2", "edit_file")]));
    assert!(!has_mutating(&[call("1", "read_file"), call("2", "grep")]));
    assert!(!has_mutating(&[]));
}

#[test]
fn test_dispatch_call() {
    let allowed = names(&["read_file", "write_file", "extra"]);
    let known = names(&["read_file", "write_file", "shell", "extra"]);
    assert_eq!(dispatch_call("shell", &allowed, &known), CallDispatch::NotAllowed);
    assert_eq!(dispatch_call("read_file", &allowed, &known), CallDispatch::Run(0));
    assert_eq!(dispatch_call("extra", &allowed, &known), CallDispatch::Run(3));
    let known_without = names(&["read_file"]);
    assert_eq!(dispatch_call("write_file", &allowed, &known_without), CallDispatch::Unknown);
}

#[test]
fn test_results_of_calls_that_do_not_run() {
    let c = call("call_7", "shell");
    let r = not_allowed_result(&c);
    assert_eq!(r.tool_call_id, "call_7");
    assert_eq!(r.content, "Tool 'shell' is not allowed for this agent/mode");
    assert!(r.is_error);
    let r = unknown_tool_result(&c);
    assert_eq!(r.content, "Unknown tool: shell");
    assert!(r.is_error);
    let r = cancelled_result(&c);
    assert_eq!(r.content, "Cancelled by user.");
    assert_eq!(r.tool_call_id, "call_7");
    let r = timed_out_result("shell", 30);
    assert_eq!(r.content, "Tool 'shell' timed out after 30s.");
    assert!(r.tool_call_id.is_empty());
    assert!(r.is_error);
}

#[test]
fn test_parse_settings_marker() {
    assert!(matches!(parse_settings_marker("  __settings_get__:model \n"), SettingsCommand::Get(k) if k == "model"));
    match parse_settings_marker("__settings_set__:max_iterations=20=x") {
        SettingsCommand::Change(k, v) => {
            assert_eq!(k, "max_iterations");
            assert_eq!(v, "20=x");
        }
        other => panic!("unexpected {other:?}"),
    }
    assert!(matches!(parse_settings_marker("__settings_set__:model"), SettingsCommand::Malformed(kv) if kv == "model"));
    assert!(matches!(parse_settings_marker("__settings_save__"), SettingsCommand::Save));
    assert!(matches!(parse_settings_marker("plain output"), SettingsCommand::Other));
}

#[test]
fn test_settings_replies() {
    let r = settings_get_reply("c1".into(), "model", Ok("gpt-4".into()));
    assert_eq!(r.result.content, "model = gpt-4");
    assert!(!r.result.is_error);
    assert_eq!(r.result.tool_call_id, "c1");
    let r = settings_get_reply("c1".into(), "theme", Err("__read_tui__:theme".into()));
    assert_eq!(r.result.content, "theme is managed by the TUI. Use /theme command.");
    assert!(!r.result.is_error);
    let r = settings_get_reply("c1".into(), "nope", Err("Unknown setting: nope".into()));
    assert_eq!(r.result.content, "Unknown setting: nope");
    assert!(r.result.is_error);

    let r = settings_set_reply("c2".into(), Ok("model → gpt-4o".into()));
    assert_eq!(r.result.content, "model → gpt-4o");
    assert_eq!(r.toast.as_deref(), Some("model → gpt-4o"));
    let r = settings_set_reply("c2".into(), Err("__forward_effort__:high".into()));
    assert_eq!(r.result.content, "Thinking effort set to: high (will take effect on next request)");
    assert_eq!(r.toast.as_deref(), Some("Thinking effort → high"));
    assert!(!r.result.is_error);
    let r = settings_set_reply("c2".into(), Err("__forward_cod__:on".into()));
    assert_eq!(r.result.content, "Chain of Draft set to: on (will take effect on next request)");
    assert!(r.toast.is_none());
    let r = settings_set_reply("c2".into(), Err("bad value".into()));
    assert_eq!(r.result.content, "bad value");
    assert!(r.result.is_error);

    let r = settings_malformed_reply("c3".into(), "model");
    assert_eq!(r.result.content, "Invalid settings format: model");
    assert!(r.result.is_error);

    let r = settings_save_reply("c4".into(), Ok(()));
    assert_eq!(r.result.content, "Settings persisted to ~/.radi/config.toml");
    assert_eq!(r.toast.as_deref(), Some("Settings saved to ~/.radi/config.toml"));
    let r = settings_save_reply("c4".into(), Err("disk full".into()));
    assert_eq!(r.result.content, "Failed to save: disk full");
    assert!(r.result.is_error);
}

#[test]
fn test_summarize_for_checkpoint() {
    assert_eq!(summarize_for_checkpoint("## Fix the parser\nmore", ""), "Fix the parser");
    assert_eq!(summarize_for_checkpoint("text line", "  \n\n- * plan: edit files\n"), "* plan: edit files");
    assert_eq!(summarize_for_checkpoint("", "   "), "agent step");
    assert_eq!(summarize_for_checkpoint("**bold** start", ""), "bold** start");
    let long = "a".repeat(80);
    let label = summarize_for_checkpoint(&long, "");
    assert_eq!(label, format!("{}…", "a".repeat(60)));
    assert_eq!(trim_start_matches_char("###x#", '#'), "x#");
}
