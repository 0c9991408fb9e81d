use radiumical_core::skill::{match_by_input, parse_full, parse_metadata, split_frontmatter, Skill, SkillMeta, SkillRegistry};

/// The bundled default skills, as `(directory name, SKILL.md text)`.
fn default_skill_files() -> Vec<(&'static str, &'static str)> {
    vec![
        (
            "code-review",
            "---\nname: code-review\ndescription: Review code for bugs, style and security issues\n---\n\n# 代码审查模式\n\nRead the diff, then list problems by severity.",
        ),
        (
            "refactor",
            "---\nname: refactor\ndescription: Restructure existing code without changing its behaviour\n---\n\n# Refactoring\n\nKeep every step small and run the tests after each.",
        ),
        (
            "explain",
            "---\nname: explain\ndescription: Explain how a piece of code works\n---\n\n# Explanation\n\nStart from the entry point.",
        ),
        (
            "test",
            "---\nname: test\ndescription: Write and run unit tests\n---\n\n# Testing\n\nCover the edge cases first.",
        ),
        (
            "debug",
            "---\nname: debug\ndescription: Track down the cause of a failure\n---\n\n# Debugging\n\nReproduce before fixing.",
        ),
        (
            "git",
            "---\nname: git\ndescription: Commit, branch and merge with git\n---\n\n# Git\n\nWrite clear commit messages.",
        ),
        (
            "docs",
            "---\nname: docs\ndescription: Write documentation and comments\n---\n\n# Documentation\n\nDocument the why.",
        ),
    ]
}

/// Discovery over the default skills, sorted by name.
fn discover() -> Vec<SkillMeta> {
    let mut metas: Vec<SkillMeta> = default_skill_files()
        .into_iter()
        .map(|(dir, content)| parse_metadata(content, &format!("skills/{dir}"), dir))
        .collect();
    metas.sort_by(|a, b| a.name.cmp(&b.name));
    metas
}

/// Load a default skill in full.
fn load(name: &str) -> Option<Skill> {
    default_skill_files()
        .into_iter()
        .find(|(dir, _)| *dir == name)
        .map(|(dir, content)| parse_full(content, &format!("skills/{dir}"), dir))
}

fn match_by_input_defaults(input: &str) -> Vec<SkillMeta> {
    match_by_input(input, discover())
}

fn new_registry() -> SkillRegistry {
    SkillRegistry::new(discover())
}

fn activate<'a>(registry: &'a mut SkillRegistry, name: &str) -> Option<&'a Skill> {
    let skill = load(name);
    registry.activate(name, skill)
}

// ---------------------------------------------------------------------------
// split_frontmatter
// ---------------------------------------------------------------------------

#[test]
fn test_split_frontmatter() {
    let content = "---\nname: test\ndescription: A test skill\n---\n\nBody here.";
    let (fm, body) = split_frontmatter(content);
    assert!(fm.contains("name: test"));
    assert!(fm.contains("description: A test skill"));
    assert_eq!(body, "Body here.");
}

#[test]
fn test_split_frontmatter_no_frontmatter() {
    let content = "Just plain text.";
    let (fm, body) = split_frontmatter(content);
    assert!(fm.is_empty());
    assert_eq!(body, "Just plain text.");
}

#[test]
fn test_split_frontmatter_empty_content() {
    let content = "";
    let (fm, body) = split_frontmatter(content);
    assert!(fm.is_empty());
    assert_eq!(body, "");
}

#[test]
fn test_split_frontmatter_only_opening_dashes() {
    let content = "---\nname: test\nstill here";
    let (fm, body) = split_frontmatter(content);
    assert!(fm.is_empty());
    assert_eq!(body, "---\nname: test\nstill here");
}

#[test]
fn test_split_frontmatter_empty_frontmatter() {
    let content = "---\n---\nBody after empty frontmatter.";
    let (fm, body) = split_frontmatter(content);
    assert_eq!(fm, "");
    assert_eq!(body, "Body after empty frontmatter.");
}

#[test]
fn test_split_frontmatter_no_body_after_frontmatter() {
    let content = "---\nname: test\ndescription: desc\n---";
    let (fm, body) = split_frontmatter(content);
    assert!(fm.contains("name: test"));
    assert!(fm.contains("description: desc"));
    assert_eq!(body, "");
}

#[test]
fn test_split_frontmatter_double_dash_not_frontmatter() {
    let content = "--\nnot frontmatter at all\n--";
    let (fm, body) = split_frontmatter(content);
    assert!(fm.is_empty());
    assert_eq!(body, "--\nnot frontmatter at all\n--");
}

#[test]
fn test_split_frontmatter_dashes_in_body_preserved() {
    let content = "---\nname: first\n---\n\nBody with --- in the middle --- and end.";
    let (fm, body) = split_frontmatter(content);
    assert!(fm.contains("name: first"));
    assert_eq!(body, "Body with --- in the middle --- and end.");
}

#[test]
fn test_split_frontmatter_whitespace_lines_in_fm() {
    let content = "---\n\nname: spaced\n\ndescription: whitespace\n\n---\n\nBody.";
    let (fm, body) = split_frontmatter(content);
    assert!(fm.contains("name: spaced"));
    assert!(fm.contains("description: whitespace"));
    assert_eq!(body, "Body.");
}

#[test]
fn test_split_frontmatter_comment_lines_in_fm() {
    let content = "---\n# comment line\nname: with-comment\n# another comment\ndescription: desc\n---\n\nBody.";
    let (fm, body) = split_frontmatter(content);
    assert!(fm.contains("name: with-comment"));
    // Comments and empty lines are skipped during value parsing,
    // but they are still present in the raw frontmatter string.
    assert!(fm.contains("# comment line"));
    assert_eq!(body, "Body.");
}

#[test]
fn test_split_frontmatter_with_indented_body() {
    let content = "---\nname: ind\n---\n\n    Indented body.\n    More indented.";
    let (fm, body) = split_frontmatter(content);
    assert!(fm.contains("name: ind"));
    assert!(body.contains("Indented body."));
}

#[test]
fn test_split_frontmatter_crlf_line_endings() {
    let content = "---\r\nname: win\r\ndescription: CRLF test\r\n---\r\n\r\nBody with CRLF.";
    let (fm, body) = split_frontmatter(content);
    assert!(fm.contains("name: win"));
    assert!(fm.contains("description: CRLF test"));
    assert_eq!(body, "Body with CRLF.");
}

// ---------------------------------------------------------------------------
// match_by_input
// ---------------------------------------------------------------------------

#[test]
fn test_match_by_input_exact_skill_name() {
        let matches = match_by_input_defaults("code-review");
    assert!(!matches.is_empty());
    assert!(matches.iter().any(|m| m.name == "code-review"));
}

#[test]
fn test_match_by_input_name_contained_in_input() {
        let matches = match_by_input_defaults("please run a code-review on this PR");
    assert!(!matches.is_empty());
    assert!(matches.iter().any(|m| m.name == "code-review"));
}

#[test]
fn test_match_by_input_no_match() {
        let matches = match_by_input_defaults("xyznoneskill_notexist");
    assert!(matches.is_empty());
}

#[test]
fn test_match_by_input_empty_input() {
        let matches = match_by_input_defaults("");
    assert!(matches.is_empty());
}

#[test]
fn test_match_by_input_short_words_filtered() {
        // Single character "a" should be filtered out (< 2 chars)
    let matches = match_by_input_defaults("a i x");
    assert!(matches.is_empty());
}

#[test]
fn test_match_by_input_case_insensitive_name() {
        let matches = match_by_input_defaults("CODE-REVIEW");
    assert!(matches.iter().any(|m| m.name == "code-review"));
}

#[test]
fn test_match_by_input_multiple_matches() {
        // "test" should match the test skill by name containment
    let matches = match_by_input_defaults("test debug");
    let names: Vec<&str> = matches.iter().map(|m| m.name.as_str()).collect();
    assert!(names.contains(&"test"));
    assert!(names.contains(&"debug"));
}

// ---------------------------------------------------------------------------
// SkillRegistry
// ---------------------------------------------------------------------------

#[test]
fn test_skill_registry_new() {
    let registry = SkillRegistry::new(discover());
    let _ = registry.all_meta();
}

#[test]
fn test_skill_registry_activate_existing() {
        let mut registry = new_registry();
    let skill = activate(&mut registry, "code-review");
    assert!(skill.is_some());
    assert_eq!(skill.unwrap().name, "code-review");
}

#[test]
fn test_skill_registry_activate_nonexistent() {
        let mut registry = new_registry();
    let skill = activate(&mut registry, "no-such-skill");
    assert!(skill.is_none());
}

#[test]
fn test_skill_registry_get_activated() {
        let mut registry = new_registry();
    activate(&mut registry, "code-review");
    let skill = registry.get("code-review");
    assert!(skill.is_some());
    assert_eq!(skill.unwrap().name, "code-review");
}

#[test]
fn test_skill_registry_get_not_activated() {
        let registry = new_registry();
    let skill = registry.get("code-review");
    assert!(skill.is_none());
}

#[test]
fn test_skill_registry_deactivate() {
        let mut registry = new_registry();
    activate(&mut registry, "code-review");
    assert!(registry.get("code-review").is_some());
    registry.deactivate("code-review");
    assert!(registry.get("code-review").is_none());
}

#[test]
fn test_skill_registry_deactivate_nonexistent() {
        let mut registry = new_registry();
    registry.deactivate("no-such-skill");
    // Should not panic
}

#[test]
fn test_skill_registry_deactivate_all() {
        let mut registry = new_registry();
    activate(&mut registry, "code-review");
    activate(&mut registry, "refactor");
    assert_eq!(registry.activated().len(), 2);
    registry.deactivate_all();
    assert!(registry.activated().is_empty());
}

#[test]
fn test_skill_registry_activated_empty() {
        let registry = new_registry();
    assert!(registry.activated().is_empty());
}

#[test]
fn test_skill_registry_activated_order() {
        let mut registry = new_registry();
    activate(&mut registry, "code-review");
    activate(&mut registry, "refactor");
    let activated = registry.activated();
    assert_eq!(activated.len(), 2);
    let names: Vec<&str> = activated.iter().map(|s| s.name.as_str()).collect();
    assert!(names.contains(&"code-review"));
    assert!(names.contains(&"refactor"));
}

#[test]
fn test_skill_registry_combined_instructions_empty() {
        let registry = new_registry();
    let combined = registry.combined_instructions();
    assert!(combined.is_empty());
}

#[test]
fn test_skill_registry_combined_instructions() {
        let mut registry = new_registry();
    activate(&mut registry, "code-review");
    let combined = registry.combined_instructions();
    assert!(combined.contains("## Active Skills"));
    assert!(combined.contains("### code-review"));
    assert!(combined.contains("代码审查模式"));
}

#[test]
fn test_skill_registry_combined_instructions_multiple() {
        let mut registry = new_registry();
    activate(&mut registry, "code-review");
    activate(&mut registry, "refactor");
    let combined = registry.combined_instructions();
    assert!(combined.contains("### code-review"));
    assert!(combined.contains("### refactor"));
}

#[test]
fn test_skill_registry_refresh_clears_loaded() {
        let mut registry = new_registry();
    activate(&mut registry, "code-review");
    assert!(registry.get("code-review").is_some());
    registry.refresh(discover());
    assert!(registry.get("code-review").is_none());
    assert!(registry.activated().is_empty());
}

#[test]
fn test_skill_registry_all_meta_returns_slice() {
        let registry = new_registry();
    let metas = registry.all_meta();
    assert!(!metas.is_empty());
    // Verify known defaults are present
    let names: Vec<&str> = metas.iter().map(|m| m.name.as_str()).collect();
    assert!(names.contains(&"code-review"));
}

#[test]
fn test_skill_registry_default_trait() {
        let registry = SkillRegistry::default();
    let _ = registry.all_meta();
}

// ---------------------------------------------------------------------------
// parse_metadata (private, tested indirectly or through discover)
// ---------------------------------------------------------------------------

#[test]
fn test_parse_metadata_name_fallback_to_dir() {
    // When the frontmatter has no 'name' field, name should fallback to directory name
    let meta = parse_metadata("---\ndescription: no name here\n---\n\nBody.", "skills/unnamed", "unnamed");
    assert_eq!(meta.name, "unnamed");
    assert_eq!(meta.description, "no name here");
    assert_eq!(meta.path, "skills/unnamed");
    let metas = discover();
    for meta in &metas {
        assert!(!meta.name.is_empty());
        assert!(!meta.description.is_empty());
    }
}

#[test]
fn test_parse_full_allowed_tools_parsing() {
    // The code-review skill has no allowed-tools.
    let skill = load("code-review").unwrap();
    assert!(skill.allowed_tools.is_empty());
    // allowed-tools in the frontmatter is split by whitespace
    let skill = parse_full(
        "---\nname: ro\ndescription: read only\nallowed-tools: read_file  grep\tglob\n---\nLook only.",
        "skills/ro",
        "ro",
    );
    assert_eq!(skill.allowed_tools, vec!["read_file".to_string(), "grep".to_string(), "glob".to_string()]);
    assert_eq!(skill.instructions, "Look only.");
}

// ---------------------------------------------------------------------------
// split_frontmatter — additional edge cases
// ---------------------------------------------------------------------------

#[test]
fn test_split_frontmatter_trailing_whitespace_after_close() {
    let content = "---\nname: a\n---   \n   \nBody.";
    let (fm, body) = split_frontmatter(content);
    assert!(fm.contains("name: a"));
    assert_eq!(body, "Body.");
}

#[test]
fn test_split_frontmatter_frontmatter_with_colons_in_value() {
    let content = "---\nname: test\ndescription: http://example.com\n---\n\nBody.";
    let (fm, body) = split_frontmatter(content);
    assert!(fm.contains("name: test"));
    // The description contains a colon; split_once splits on first colon only
    assert!(fm.contains("description: http://example.com"));
    assert_eq!(body, "Body.");
}

#[test]
fn test_split_frontmatter_only_dashes_no_newlines() {
    let content = "------";
    // Starts with "---", content[3..] = "---", find("---") at pos 0
    // fm = content[3..3].trim() = "".trim() = ""
    // body = content[6..].trim() = "".trim() = ""
    let (fm, body) = split_frontmatter(content);
    assert_eq!(fm, "");
    assert_eq!(body, "");
}

#[test]
fn test_split_frontmatter_three_dashes_only() {
    let content = "---";
    // Starts with "---", content[3..] = "", find("---") = None
    // Falls back to ("", "---")
    let (fm, body) = split_frontmatter(content);
    assert_eq!(fm, "");
    assert_eq!(body, "---");
}
