use radiumical_core::conversation::Conversation;
use radiumical_core::harness::{
    absorb_summary_event, absorb_title_event, accept_title, allowed_tool_names, assistant_msg, auto_continue_notice,
    auto_continue_prompt, compressed_notice, compressed_summary, compression_request, compression_split,
    decide_turn, drop_empty_range, first_step, next_step, max_iterations_message, plan_compression, range_text, summarise_range,
    timeout_message, title_request, tool_result_msg, user_msg, CompressPlan, LoopAction, StreamStep, TurnAction, TurnOutcome, TurnStream,
};
use radiumical_core::orchestrator::Orchestrator;
use radiumical_core::types::{
    FunctionCall, FunctionDef, Message, MessageContent, ProviderEvent, Role, ToolCall, ToolDefinition, ToolResult,
};

fn text_of(m: &Message) -> &str {
    match &m.content {
        MessageContent::Text(s) => s,
        MessageContent::Parts(_) => "",
    }
}

fn call(id: &str, name: &str) -> ToolCall {
    ToolCall {
        id: id.to_string(),
        call_type: "function".to_string(),
        function: FunctionCall { name: name.to_string(), arguments: "{}".to_string() },
    }
}

#[test]
fn test_messages_built_by_the_loop() {
    let m = user_msg("hi");
    assert_eq!(m.role, Role::User);
    assert_eq!(text_of(&m), "hi");
    let m = assistant_msg("done", None, "");
    assert!(m.reasoning_content.is_none());
    let m = assistant_msg("done", Some(vec![call("1", "read_file")]), "thinking");
    assert_eq!(m.reasoning_content.as_deref(), Some("thinking"));
    assert_eq!(m.tool_calls.as_ref().unwrap().len(), 1);
    let r = ToolResult { tool_call_id: "1".into(), content: "data".into(), is_error: false };
    let m = tool_result_msg(&call("", "grep"), r.clone());
    assert_eq!(m.tool_call_id.as_deref(), Some("call_grep"));
    assert_eq!(m.name.as_deref(), Some("grep"));
    let m = tool_result_msg(&call("abc", "grep"), r);
    assert_eq!(m.tool_call_id.as_deref(), Some("abc"));
    assert_eq!(text_of(&m), "data");
}

#[test]
fn test_turn_stream_collects_events() {
    let mut s = TurnStream::new();
    assert!(matches!(s.absorb(ProviderEvent::Text("Hel".into())), StreamStep::ShowText(t) if t == "Hel"));
    assert!(matches!(s.absorb(ProviderEvent::Reasoning("why".into())), StreamStep::ShowReasoning(t) if t == "why"));
    assert!(matches!(s.absorb(ProviderEvent::Text("lo".into())), StreamStep::ShowText(_)));
    assert!(matches!(s.absorb(ProviderEvent::ToolCalls(vec![call("1", "a")])), StreamStep::Quiet));
    assert!(matches!(s.absorb(ProviderEvent::ToolCalls(vec![call("2", "b"), call("3", "c")])), StreamStep::Quiet));
    assert!(matches!(s.absorb(ProviderEvent::Done), StreamStep::Finished));
    assert!(matches!(s.absorb(ProviderEvent::Error("boom".into())), StreamStep::Failed(e) if e == "boom"));
    assert_eq!(s.text, "Hello");
    assert_eq!(s.reasoning, "why");
    assert_eq!(s.tool_calls.as_ref().unwrap().len(), 2);
}

#[test]
fn test_decide_turn() {
    let mut orch = Orchestrator::new(None);
    orch.create("P", vec![("First".into(), vec![]), ("Second".into(), vec![1])]);
    let ready = orch.get_ready_tasks();
    match decide_turn(true, 120, 2, true, true, &ready) {
        TurnAction::TimedOut(m) => assert_eq!(m, "⚠️ LLM request timed out after 120s (iteration 3)."),
        other => panic!("unexpected {other:?}"),
    }
    assert!(matches!(decide_turn(false, 120, 0, true, true, &ready), TurnAction::RunTools));
    match decide_turn(false, 120, 0, false, true, &ready) {
        TurnAction::ContinuePlan { notice, prompt, task_id } => {
            assert_eq!(task_id, 1);
            assert_eq!(notice, "\n\n▶ Auto-continuing plan: #1 First\n\n");
            assert_eq!(prompt, "Continue the plan. Execute task #1: First");
        }
        other => panic!("unexpected {other:?}"),
    }
    assert!(matches!(decide_turn(false, 120, 0, false, false, &ready), TurnAction::Finish { generate_title: true }));
    assert!(matches!(decide_turn(false, 120, 4, false, true, &[]), TurnAction::Finish { generate_title: false }));
}

#[test]
fn test_loop_messages() {
    assert_eq!(auto_continue_prompt(3, "Ship", Some("coder")), "Continue the plan. Execute task #3: Ship (use agent role: coder)");
    assert_eq!(auto_continue_notice(3, "Ship"), "\n\n▶ Auto-continuing plan: #3 Ship\n\n");
    assert_eq!(timeout_message(30, 0), "⚠️ LLM request timed out after 30s (iteration 1).");
    assert_eq!(max_iterations_message(50), "⚠️  Reached max iterations (50) without completing.");
}

#[test]
fn test_allowed_tool_names() {
    let defs = vec![
        ToolDefinition { tool_type: "function".into(), function: FunctionDef { name: "read_file".into(), description: "".into(), parameters: "{}".into() } },
        ToolDefinition { tool_type: "function".into(), function: FunctionDef { name: "grep".into(), description: "".into(), parameters: "{}".into() } },
    ];
    assert_eq!(allowed_tool_names(&vec![], &defs), vec!["read_file".to_string(), "grep".to_string()]);
    assert_eq!(allowed_tool_names(&vec!["shell".to_string()], &defs), vec!["shell".to_string()]);
}

#[test]
fn test_title() {
    let req = title_request("fix the bug", &"x".repeat(300));
    assert_eq!(req.len(), 2);
    assert_eq!(req[0].role, Role::System);
    assert!(text_of(&req[0]).starts_with("Generate a short session title (3-8 words)"));
    assert_eq!(text_of(&req[1]), format!("User: fix the bug\nAssistant: {}", "x".repeat(200)));
    let mut t = String::new();
    assert!(!absorb_title_event(&mut t, ProviderEvent::Text("  Parser ".into())));
    assert!(!absorb_title_event(&mut t, ProviderEvent::Error("ignored".into())));
    assert!(!absorb_title_event(&mut t, ProviderEvent::Text("fix ".into())));
    assert!(absorb_title_event(&mut t, ProviderEvent::Done));
    assert_eq!(accept_title(&t).as_deref(), Some("Parser fix"));
    assert_eq!(accept_title("   "), None);
    assert_eq!(accept_title(&"y".repeat(80)), None);
    assert_eq!(accept_title(&"y".repeat(79)).map(|s| s.len()), Some(79));
}

fn long_conversation(n: usize, text: &str) -> Conversation {
    let mut conv = Conversation::new("sys".to_string(), None);
    conv.push_system("system prompt");
    for i in 0..n {
        conv.push_user(&format!("{text} {i}"));
    }
    conv
}

#[test]
fn test_compression_plan_and_apply() {
    assert_eq!(compression_split(100, 200, 20), None);
    assert_eq!(compression_split(300, 200, 8), None);
    assert_eq!(compression_split(300, 200, 9), Some(3));
    assert_eq!(compression_split(300, 200, 20), Some(14));

    let conv = long_conversation(12, "message with some words");
    assert!(matches!(plan_compression(&conv, 1_000_000), CompressPlan::Keep));
    let mut conv2 = long_conversation(12, "message with some words");
    match plan_compression(&conv2, 0) {
        CompressPlan::Summarise(split_at, text) => {
            assert_eq!(split_at, 7);
            assert_eq!(text, range_text(conv2.messages(), 1, 7));
            assert!(text.starts_with("[user] message with some words 0\n[user] message"));
            let n = summarise_range(&mut conv2, split_at, "  short summary \n");
            assert_eq!(n, 6);
            assert_eq!(conv2.messages().len(), 1 + 1 + 6);
            assert_eq!(text_of(&conv2.messages()[1]), "[Context compressed: 6 older messages summarised]\n\nshort summary");
            assert_eq!(text_of(&conv2.messages()[1]), compressed_summary(6, "short summary"));
        }
        other => panic!("unexpected {other:?}"),
    }
    let mut conv3 = Conversation::new("sys".to_string(), None);
    conv3.push_system("system prompt");
    for _ in 0..6 {
        conv3.push_user("");
    }
    for i in 0..6 {
        conv3.push_user(&format!("recent {i} with a long enough text to count"));
    }
    match plan_compression(&conv3, 0) {
        CompressPlan::DropEmpty(split_at) => {
            assert_eq!(split_at, 7);
            assert_eq!(drop_empty_range(&mut conv3, split_at), 6);
            assert_eq!(text_of(&conv3.messages()[1]), "[Context compressed: empty messages dropped]");
            assert_eq!(conv3.messages().len(), 8);
        }
        other => panic!("unexpected {other:?}"),
    }
    assert_eq!(compressed_notice(6), "[Context compressed: 6 messages → summary]\n");
}

#[test]
fn test_compression_request_and_summary_stream() {
    let req = compression_request("[user] hi");
    assert_eq!(req.len(), 2);
    assert!(text_of(&req[0]).starts_with("You are a conversation compressor."));
    assert!(text_of(&req[0]).contains("\n5. Important decisions or constraints.\nOutput ONLY the summary, no preamble."));
    assert_eq!(text_of(&req[1]), "[user] hi");
    let mut s = String::new();
    assert!(!absorb_summary_event(&mut s, ProviderEvent::Text("part ".into())));
    assert!(!absorb_summary_event(&mut s, ProviderEvent::Reasoning("hidden".into())));
    assert!(absorb_summary_event(&mut s, ProviderEvent::Error("rate limit".into())));
    assert_eq!(s, "[Context compression failed: rate limit]");
    let mut s = String::from("a");
    assert!(absorb_summary_event(&mut s, ProviderEvent::Done));
    assert_eq!(s, "a");
}

#[test]
fn loop_schedule() {
    assert!(matches!(first_step(3), LoopAction::Turn { iteration: 0, compress: false }));
    assert!(matches!(first_step(0), LoopAction::Exhausted(_)));
    assert!(matches!(next_step(0, 3, TurnOutcome::Continued), LoopAction::Turn { iteration: 1, compress: true }));
    assert!(matches!(next_step(1, 3, TurnOutcome::TimedOut), LoopAction::Turn { iteration: 2, compress: true }));
    match next_step(2, 3, TurnOutcome::CallCancelled) {
        LoopAction::Exhausted(m) => assert_eq!(m, "⚠️  Reached max iterations (3) without completing."),
        _ => panic!("expected the budget to be spent"),
    }
    assert!(matches!(next_step(0, 3, TurnOutcome::Finished), LoopAction::Done));
    assert!(matches!(next_step(0, 3, TurnOutcome::Cancelled), LoopAction::Done));
    match next_step(0, 3, TurnOutcome::ProviderPanicked("oops".to_string())) {
        LoopAction::Fail(m) => assert_eq!(m, "Provider panicked: oops"),
        _ => panic!("expected failure"),
    }
    match next_step(0, 3, TurnOutcome::ProviderError("401".to_string())) {
        LoopAction::Fail(m) => assert_eq!(m, "401"),
        _ => panic!("expected failure"),
    }
}
