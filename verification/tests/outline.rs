use radiumical_core::outline::{
    extract_items, is_skipped_dir, is_source_file, language_for, outline_entry, outline_is_fresh, parse_c_family, parse_go,
    parse_java, parse_js_ts, parse_python, parse_rust, OutlineEntry, OutlineItem, WorkspaceOutline,
};

#[test]
fn test_parse_rust() {
    let text = r#"
// comment
pub fn foo(a: i32) -> i32 { a }
pub struct Bar;
mod baz;
    "#;
    let items = parse_rust(text);
    assert!(items.iter().any(|i| i.name == "foo" && i.kind == "fn"));
    assert!(items.iter().any(|i| i.name == "Bar" && i.kind == "struct"));
    assert!(items.iter().any(|i| i.name == "baz" && i.kind == "mod"));
}

#[test]
fn test_parse_python() {
    let text = "def hello():\n    pass\nclass World:\n    pass";
    let items = parse_python(text);
    assert!(items.iter().any(|i| i.name == "hello" && i.kind == "def"));
    assert!(items.iter().any(|i| i.name == "World" && i.kind == "class"));
}

#[test]
fn test_workspace_outline_format() {
    let outline = WorkspaceOutline {
        entries: vec![OutlineEntry {
            path: "src/main.rs".into(),
            language: "rust".into(),
            items: vec![OutlineItem {
                kind: "fn".into(),
                name: "main".into(),
                signature: Some("fn main()".into()),
            }],
            modified: None,
        }],
        generated_at: 0,
    };
    let text = outline.format(1000);
    assert!(text.contains("src/main.rs"));
    assert!(text.contains("fn main"));
}

fn names_kinds(items: &[OutlineItem]) -> Vec<(String, String)> {
    items.iter().map(|i| (i.kind.clone(), i.name.clone())).collect()
}

fn pair(k: &str, n: &str) -> (String, String) {
    (k.to_string(), n.to_string())
}

#[test]
fn test_parse_js_ts() {
    let text = "function greet(name) {\nclass Widget {\nexport function make() {}\nexport class Store extends Base {\nexport const LIMIT = 5;\nexport let x=1\n// function hidden()\nconst inner = 2;";
    let items = parse_js_ts(text);
    assert_eq!(
        names_kinds(&items),
        vec![pair("function", "greet"), pair("class", "Widget"), pair("function", "make"), pair("class", "Store"), pair("const", "LIMIT"), pair("const", "x")]
    );
    assert_eq!(items[0].signature.as_deref(), Some("function greet(name)"));
}

#[test]
fn test_parse_go() {
    let text = "func main() {\nfunc (s *Server) Start(port int) error {\ntype Server struct {\nfunc () {";
    let items = parse_go(text);
    // A method is named by the last word before its first `(`, the keyword itself.
    assert_eq!(
        names_kinds(&items),
        vec![pair("func", "main"), pair("func", "func"), pair("type", "Server"), pair("func", "func")]
    );
    assert_eq!(items[1].signature.as_deref(), Some("func (s *Server) Start(port int) error"));
}

#[test]
fn test_parse_java() {
    let text = "public class App {\n  private   static int count(String s) {\nprotected interface Shape\npublic int x;\nclass Hidden {";
    let items = parse_java(text);
    assert_eq!(names_kinds(&items), vec![pair("class", "App"), pair("method", "count"), pair("interface", "Shape")]);
}

#[test]
fn test_parse_c_family() {
    let text = "typedef struct point Point;\nstruct node {\nenum color{\nint main(int argc) {\n#define MAX(a) (a)\ntypedef int myint;";
    let items = parse_c_family(text);
    assert_eq!(
        names_kinds(&items),
        vec![pair("typedef", "point"), pair("struct", "node"), pair("enum", "color"), pair("function", "main")]
    );
}

#[test]
fn test_extract_items_by_language() {
    assert_eq!(extract_items("def f():\n  pass", "python").len(), 1);
    assert_eq!(extract_items("function f() {}", "typescript-tsx").len(), 1);
    assert_eq!(extract_items("fn f() {}", "text").len(), 0);
    assert_eq!(language_for("src/lib.rs"), "rust");
    assert_eq!(language_for("web/app.tsx"), "typescript-tsx");
    assert_eq!(language_for("include/a.hpp"), "cpp");
    assert_eq!(language_for("README"), "text");
}

#[test]
fn test_source_files_and_dirs() {
    assert!(is_source_file("src/main.rs"));
    assert!(is_source_file("a/b/c.hpp"));
    assert!(!is_source_file("src/.hidden.rs"));
    assert!(!is_source_file("notes.md"));
    assert!(!is_source_file("Makefile"));
    assert!(is_skipped_dir(".git"));
    assert!(is_skipped_dir("target"));
    assert!(is_skipped_dir("node_modules"));
    assert!(!is_skipped_dir("src"));
}

#[test]
fn test_cached_outline_freshness_and_entries() {
    let entry = outline_entry("src/main.rs", "fn main() {}\n", Some(10)).unwrap();
    assert_eq!(entry.language, "rust");
    assert_eq!(entry.items.len(), 1);
    assert!(outline_entry("src/empty.rs", "// nothing\n", Some(1)).is_none());
    let outline = WorkspaceOutline { entries: vec![entry], generated_at: 0 };
    assert!(outline_is_fresh(&outline, &[("src/main.rs".to_string(), Some(10))]));
    assert!(!outline_is_fresh(&outline, &[("src/main.rs".to_string(), Some(11))]));
    assert!(!outline_is_fresh(&outline, &[("src/main.rs".to_string(), Some(10)), ("src/b.rs".to_string(), Some(1))]));
    assert!(!outline_is_fresh(&outline, &[("src/other.rs".to_string(), None)]));
    assert!(outline.format(10).ends_with("  fn main\n\n") || outline.format(10).contains("truncated"));
}

#[test]
fn tree_lines_and_prefixes() {
    use_tree();
}

fn use_tree() {
    assert_eq!(radiumical_core::outline::tree_line("│   ", false, "src"), "│   ├── src\n");
    assert_eq!(radiumical_core::outline::tree_line("", true, "main.rs"), "└── main.rs\n");
    assert_eq!(radiumical_core::outline::tree_child_prefix("", false), "│   ");
    assert_eq!(radiumical_core::outline::tree_child_prefix("│   ", true), "│       ");
    assert!(radiumical_core::outline::tree_skips(".git", 2));
    assert!(!radiumical_core::outline::tree_skips(".git", 3));
    assert!(!radiumical_core::outline::tree_skips("src", 1));
    assert_eq!(radiumical_core::outline::tree_depth(7), 3);
}
