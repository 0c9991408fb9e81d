use radiumical_core::agent_pool::{AgentDef, AgentRoleMode};
use radiumical_core::subagent::{error_output, lost_result, role_overrides, SubAgentRegistry};
use radiumical_core::types::AgentMode;

#[test]
fn test_registry_lifecycle() {
    let mut reg = SubAgentRegistry::new();
    assert_eq!(reg.list(), "No sub-agents running.");
    reg.register("a1", "write docs", Some("coder".to_string()));
    reg.register("a2", "run tests", None);
    let r = reg.get_result("a1").unwrap();
    assert!(!r.done);
    assert_eq!(r.task, "write docs");
    reg.append_output("a1", "part one ".to_string());
    reg.append_output("a1", "part two".to_string());
    reg.finish("a1", Ok(()));
    let r = reg.get_result("a1").unwrap();
    assert!(r.done && r.success);
    assert_eq!(r.output, "part one part two");
    reg.finish("a2", Err("crashed".to_string()));
    let r = reg.get_result("a2").unwrap();
    assert!(r.done && !r.success);
    assert_eq!(r.error.as_deref(), Some("crashed"));
    assert_eq!(r.output, "Sub-agent 'a2' failed: crashed");
    assert!(reg.get_result("zz").is_none());
    assert_eq!(reg.list_all().len(), 2);
    reg.cleanup_done();
    assert!(reg.list_all().is_empty());
}

#[test]
fn test_finish_without_output() {
    let mut reg = SubAgentRegistry::new();
    reg.register("b", "check", None);
    reg.finish("b", Ok(()));
    assert_eq!(reg.get_result("b").unwrap().output, "Sub-agent 'b' completed: check");
    reg.register("c", "check", None);
    reg.append_output("c", "log".to_string());
    reg.finish("c", Err("oops".to_string()));
    assert_eq!(reg.get_result("c").unwrap().output, "log\n[Failed: oops]");
}

#[test]
fn test_cancel() {
    let mut reg = SubAgentRegistry::new();
    reg.register("x", "t", None);
    reg.register("y", "t", None);
    assert!(reg.cancel("x"));
    assert!(!reg.cancel("nope"));
    let ids = reg.cancel_all();
    assert!(ids.contains(&"y".to_string()));
}

#[test]
fn test_small_results() {
    assert_eq!(error_output("bad"), "ERROR: bad");
    let r = lost_result("q");
    assert_eq!(r.output, "Sub-agent result lost");
    assert_eq!(r.error.as_deref(), Some("Result not found in registry"));
    assert!(r.done && !r.success);
    let def = AgentDef { name: "p".into(), description: "".into(), mode: AgentRoleMode::Plan, tools: vec![], prompt: "Plan only.".into() };
    let (prompt, mode) = role_overrides(Some(&def));
    assert_eq!(prompt.as_deref(), Some("Plan only."));
    assert_eq!(mode, Some(AgentMode::Plan));
    let def = AgentDef { prompt: String::new(), mode: AgentRoleMode::Exec, ..def };
    assert_eq!(role_overrides(Some(&def)), (None, Some(AgentMode::Exec)));
    assert_eq!(role_overrides(None), (None, None));
}
