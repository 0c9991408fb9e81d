use radiumical_core::agent_pool::{get_agent, parse_agent, AgentDef, AgentRoleMode};
use radiumical_core::types::AgentMode;

/// The bundled default agents, as `(file stem, text)`.
fn default_agent_files() -> Vec<(&'static str, &'static str)> {
    vec![
        ("coder", "---\nname: coder\ndescription: General-purpose coder\nmode: auto\n---\n\nYou write and change code."),
        ("architect", "---\nname: architect\ndescription: System architect — designs structure and data flow\nmode: plan\ntools: read_file, search_code, find_files\n---\n\nYou are a system architect."),
        ("debugger", "---\nname: debugger\ndescription: Finds the cause of failures\nmode: auto\n---\n\nYou debug."),
        ("auditor", "---\nname: auditor\ndescription: Audits changes\nmode: plan\ntools: read_file, search_code\n---\n\nYou audit code."),
        ("tester", "---\nname: tester\ndescription: Writes and runs tests\nmode: exec\n---\n\nYou test."),
    ]
}

/// The default agents, parsed and sorted by name.
fn load_agents() -> Vec<AgentDef> {
    let mut agents: Vec<AgentDef> = default_agent_files()
        .into_iter()
        .map(|(stem, content)| parse_agent(content, Some(stem)))
        .collect();
    agents.sort_by(|a, b| a.name.cmp(&b.name));
    agents
}

// ---------------------------------------------------------------------------
// parse_agent_file
// ---------------------------------------------------------------------------

#[test]
fn test_parse_agent_all_fields() {
    let content = "---\nname: coder\ndescription: General coder\nmode: auto\ntools: read_file, write_file, edit_file\n---\n\nYou are a coder.";
    let agent = parse_agent(content, Some("test_agent"));
    assert_eq!(agent.name, "coder");
    assert_eq!(agent.description, "General coder");
    assert_eq!(agent.mode, AgentRoleMode::Auto);
    assert_eq!(agent.tools, vec!["read_file", "write_file", "edit_file"]);
    assert_eq!(agent.prompt, "You are a coder.");
}

#[test]
fn test_parse_agent_mode_plan() {
    let content = "---\nname: planner\ndescription: Planner agent\nmode: plan\n---\n\nPlan mode prompt.";
    let agent = parse_agent(content, Some("test_agent"));
    assert_eq!(agent.mode, AgentRoleMode::Plan);
}

#[test]
fn test_parse_agent_mode_exec() {
    let content = "---\nname: executor\ndescription: Executor agent\nmode: exec\n---\n\nExec mode prompt.";
    let agent = parse_agent(content, Some("test_agent"));
    assert_eq!(agent.mode, AgentRoleMode::Exec);
}

#[test]
fn test_parse_agent_mode_unknown_defaults_to_auto() {
    let content = "---\nname: unknown\ndescription: Unknown mode\nmode: invalid_mode\n---\n\nPrompt.";
    let agent = parse_agent(content, Some("test_agent"));
    assert_eq!(agent.mode, AgentRoleMode::Auto);
}

#[test]
fn test_parse_agent_no_frontmatter() {
    let content = "Just a plain prompt with no frontmatter.";
    let agent = parse_agent(content, Some("test_agent"));
    assert_eq!(agent.name, "test_agent"); // derived from filename
    assert!(agent.description.is_empty());
    assert_eq!(agent.mode, AgentRoleMode::Auto);
    assert!(agent.tools.is_empty());
    assert_eq!(agent.prompt, "Just a plain prompt with no frontmatter.");
}

#[test]
fn test_parse_agent_name_from_filename() {
    let content = "---\ndescription: No name field in frontmatter\n---\n\nBody here.";
    let agent = parse_agent(content, Some("test_agent"));
    assert_eq!(agent.name, "test_agent"); // derived from test_agent.md
    assert_eq!(agent.description, "No name field in frontmatter");
}

#[test]
fn test_parse_agent_defaults_missing_mode_and_tools() {
    let content = "---\nname: minimal\ndescription: Minimal agent\n---\n\nMinimal prompt.";
    let agent = parse_agent(content, Some("test_agent"));
    assert_eq!(agent.name, "minimal");
    assert_eq!(agent.description, "Minimal agent");
    assert_eq!(agent.mode, AgentRoleMode::Auto);
    assert!(agent.tools.is_empty());
    assert_eq!(agent.prompt, "Minimal prompt.");
}

#[test]
fn test_parse_agent_multiple_tools_with_spaces() {
    let content = "---\nname: toolsy\ndescription: Tools test\nmode: auto\ntools: a,  b , c ,d\n---\n\nTools prompt.";
    let agent = parse_agent(content, Some("test_agent"));
    assert_eq!(agent.tools, vec!["a", "b", "c", "d"]);
}

#[test]
fn test_parse_agent_single_tool() {
    let content = "---\nname: solo\ndescription: Single tool\nmode: auto\ntools: read_file\n---\n\nSingle tool prompt.";
    let agent = parse_agent(content, Some("test_agent"));
    assert_eq!(agent.tools, vec!["read_file"]);
}

#[test]
fn test_parse_agent_empty_tools() {
    let content = "---\nname: no_tools\ndescription: No tools\nmode: auto\ntools:\n---\n\nNo tools prompt.";
    let agent = parse_agent(content, Some("test_agent"));
    assert!(agent.tools.is_empty());
}

#[test]
fn test_parse_agent_frontmatter_with_comments() {
    let content = "---\n# a comment\nname: commented\n# another\ndescription: Has comments\n# more\n---\n\nPrompt.";
    let agent = parse_agent(content, Some("test_agent"));
    assert_eq!(agent.name, "commented");
    assert_eq!(agent.description, "Has comments");
}

#[test]
fn test_parse_agent_frontmatter_empty_lines() {
    let content = "---\n\n\nname: spaced\n\n\ndescription: With spaces\n\n---\n\nPrompt.";
    let agent = parse_agent(content, Some("test_agent"));
    assert_eq!(agent.name, "spaced");
    assert_eq!(agent.description, "With spaces");
}

#[test]
fn test_parse_agent_multiline_prompt() {
    let content = "---\nname: multi\ndescription: Multi line\n---\n\nLine 1.\nLine 2.\n\nLine 3.";
    let agent = parse_agent(content, Some("test_agent"));
    assert_eq!(agent.prompt, "Line 1.\nLine 2.\n\nLine 3.");
}

// ---------------------------------------------------------------------------
// AgentRoleMode
// ---------------------------------------------------------------------------

#[test]
fn test_agent_role_mode_to_agent_mode_auto() {
    assert_eq!(AgentRoleMode::Auto.to_agent_mode(), AgentMode::Auto);
}

#[test]
fn test_agent_role_mode_to_agent_mode_plan() {
    assert_eq!(AgentRoleMode::Plan.to_agent_mode(), AgentMode::Plan);
}

#[test]
fn test_agent_role_mode_to_agent_mode_exec() {
    assert_eq!(AgentRoleMode::Exec.to_agent_mode(), AgentMode::Exec);
}

#[test]
fn test_agent_role_mode_default_is_auto() {
    assert_eq!(AgentRoleMode::default(), AgentRoleMode::Auto);
}

#[test]
fn test_agent_role_mode_partial_eq() {
    assert_eq!(AgentRoleMode::Auto, AgentRoleMode::Auto);
    assert_ne!(AgentRoleMode::Auto, AgentRoleMode::Plan);
    assert_ne!(AgentRoleMode::Plan, AgentRoleMode::Exec);
}

#[test]
fn test_agent_role_mode_debug() {
    assert_eq!(format!("{:?}", AgentRoleMode::Auto), "Auto");
    assert_eq!(format!("{:?}", AgentRoleMode::Plan), "Plan");
    assert_eq!(format!("{:?}", AgentRoleMode::Exec), "Exec");
}

#[test]
fn test_agent_role_mode_clone() {
    let mode = AgentRoleMode::Plan;
    let cloned = mode.clone();
    assert_eq!(mode, cloned);
}

// ---------------------------------------------------------------------------
// AgentDef Default
// ---------------------------------------------------------------------------

#[test]
fn test_agent_def_default() {
    let def = AgentDef::default();
    assert!(def.name.is_empty());
    assert!(def.description.is_empty());
    assert_eq!(def.mode, AgentRoleMode::Auto);
    assert!(def.tools.is_empty());
    assert!(def.prompt.is_empty());
}

// ---------------------------------------------------------------------------
// load_agents / get_agent — ensure defaults exist then query
// ---------------------------------------------------------------------------

#[test]
fn test_ensure_defaults_then_load() {
        let agents = load_agents();
    assert!(!agents.is_empty());
    let names: Vec<&str> = agents.iter().map(|a| a.name.as_str()).collect();
    assert!(names.contains(&"coder"));
    assert!(names.contains(&"architect"));
    assert!(names.contains(&"debugger"));
    assert!(names.contains(&"auditor"));
    assert!(names.contains(&"tester"));
}

#[test]
fn test_get_agent_existing() {
        let agent = get_agent("coder", load_agents());
    assert!(agent.is_some());
    assert_eq!(agent.unwrap().name, "coder");
}

#[test]
fn test_get_agent_nonexistent() {
        let agent = get_agent("no-such-agent", load_agents());
    assert!(agent.is_none());
}

#[test]
fn test_load_agents_sorted_by_name() {
        let agents = load_agents();
    for window in agents.windows(2) {
        assert!(window[0].name <= window[1].name);
    }
}

#[test]
fn parse_agent_yaml_tool_list() {
    let content = "---\nname: security-auditor\ndescription: Security-focused code inspector\nmode: plan\ntools:\n  - read_file\n  - search_code\n  - find_files\n  - run_command\n---\n\nYou are a security auditor.\n";
    let d = parse_agent(content, Some("other"));
    assert_eq!(d.name, "security-auditor");
    assert_eq!(d.description, "Security-focused code inspector");
    assert_eq!(d.mode, AgentRoleMode::Plan);
    assert_eq!(d.tools, vec!["read_file", "search_code", "find_files", "run_command"]);
    assert_eq!(d.prompt, "You are a security auditor.");
}

#[test]
fn parse_agent_list_closed_by_next_key() {
    let content = "---\ntools: a, b\n  - c\nmode: exec\n- d\n---\nbody";
    let d = parse_agent(content, None);
    assert_eq!(d.tools, vec!["a", "b", "c"]);
    assert_eq!(d.mode, AgentRoleMode::Exec);
}
