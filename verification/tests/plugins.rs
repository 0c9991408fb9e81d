use radiumical_core::plugins::{language_for, merge_outcomes, plugins_to_ask, PluginOutcome, RegexLinter, Severity, SourceSummary};

#[test]
fn test_regex_linter_finds_markers_and_trailing_whitespace() {
    let text = "fn main() {\n    // TODO: fix this \n}\n";
    let summary = RegexLinter::scan("main.rs", text);

    assert!(summary.language.as_deref() == Some("rust"));
    let todo = summary
        .findings
        .iter()
        .any(|f| f.message.contains("TODO"));
    let trailing = summary
        .findings
        .iter()
        .any(|f| f.message.contains("Trailing whitespace"));
    assert!(todo, "should find TODO marker");
    assert!(trailing, "should find trailing whitespace");
}

#[test]
fn test_source_plugin_registry_merges_plugins() {
    let text = "// FIXME: hack\n";
    let outcomes = vec![PluginOutcome {
        plugin: RegexLinter.id().to_string(),
        result: Ok(RegexLinter::scan("lib.rs", text)),
    }];
    let summary = merge_outcomes(language_for("lib.rs"), outcomes);

    assert!(summary.findings.iter().any(|f| f.message.contains("FIXME")));
}

#[test]
fn test_language_detection() {
    assert_eq!(language_for("src/main.rs"), Some("rust".into()));
    assert_eq!(language_for("app.py"), Some("python".into()));
    assert_eq!(language_for("README.md"), None);
}

#[test]
fn only_handling_plugins_are_asked() {
    assert_eq!(plugins_to_ask(&[true, false, true, false]), vec![0usize, 2]);
    assert_eq!(plugins_to_ask(&[false, false]), Vec::<usize>::new());
    assert_eq!(plugins_to_ask(&[]), Vec::<usize>::new());
}
