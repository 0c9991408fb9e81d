use radiumical_core::checkpoint::{
    checkpoint_branch, checkpoint_message, is_left_alone, plan_file_diff, push_change_lines, render_file_diff, slash_path, step_line,
    DiffStep,
};

#[test]
fn test_plan_file_diff_walks_sorted_lists() {
    let old = vec!["b.txt".to_string(), "a.txt".to_string(), "c.txt".to_string()];
    let new = vec!["c.txt".to_string(), "d.txt".to_string(), "a.txt".to_string()];
    let steps = plan_file_diff(old, new);
    let lines: Vec<Option<String>> = steps.iter().map(step_line).collect();
    assert_eq!(
        lines,
        vec![None, Some("- b.txt".to_string()), None, Some("+ d.txt".to_string())]
    );
    assert!(matches!(&steps[0], DiffStep::Both(a) if a == "a.txt"));
}

#[test]
fn test_render_file_diff() {
    let lines = render_file_diff("src/a.rs", "one\ntwo\nthree\n", "one\n2\nthree\n");
    assert_eq!(
        lines,
        vec![
            "diff --git a/src/a.rs b/src/a.rs",
            "--- a/src/a.rs",
            "+++ b/src/a.rs",
            " one",
            "-two",
            "+2",
            " three",
        ]
    );
    assert!(render_file_diff("x", "same\n", "same\n").is_empty());
}

#[test]
fn test_checkpoint_names() {
    assert_eq!(checkpoint_message("  edit parser \n").as_deref(), Some("[radiumical] checkpoint: edit parser"));
    assert_eq!(checkpoint_message("   "), None);
    assert_eq!(checkpoint_branch("s-42"), "radi/s-42");
    assert!(is_left_alone(".git"));
    assert!(is_left_alone(".env"));
    assert!(is_left_alone("target"));
    assert!(is_left_alone("node_modules"));
    assert!(!is_left_alone("src"));
    assert_eq!(slash_path("src\\sub\\f.rs"), "src/sub/f.rs");
}

#[test]
fn change_lines_are_signed() {
    let mut out = vec!["head".to_string()];
    let changes = vec![
        (2u8, "same\n".to_string()),
        (0u8, "gone\n".to_string()),
        (1u8, "new\n".to_string()),
    ];
    push_change_lines(&mut out, &changes);
    assert_eq!(out, vec!["head", " same", "-gone", "+new"]);
}
