use radiumical_core::memory::{workspace_dir, Memory, MemoryEntry, MAX_MINO, MAX_SHORT};

fn temp_memory() -> Memory {
    Memory::with_dir(Some("/tmp/radiumical-memory-test".to_string()))
}

#[test]
fn test_add_with_tags() {
    let mut m = temp_memory();
    m.add("core", "user prefers Rust", &["preference", "lang"])
        .unwrap();
    assert_eq!(m.core.len(), 1);
    assert_eq!(m.core[0].tags, vec!["preference", "lang"]);
}

#[test]
fn test_add_invalid_tier() {
    let mut m = temp_memory();
    assert!(m.add("invalid", "x", &[]).is_err());
}

#[test]
fn test_delete() {
    let mut m = temp_memory();
    m.add("short", "a", &[]).unwrap();
    m.add("short", "b", &[]).unwrap();
    m.delete("short", 0).unwrap();
    assert_eq!(m.short.len(), 1);
    assert_eq!(m.short[0].content, "b");
}

#[test]
fn test_delete_out_of_bounds() {
    let mut m = temp_memory();
    assert!(m.delete("core", 5).is_err());
}

#[test]
fn test_edit() {
    let mut m = temp_memory();
    m.add("mino", "old content", &[]).unwrap();
    m.edit("mino", 0, "new content").unwrap();
    assert_eq!(m.mino[0].content, "new content");
}

#[test]
fn test_edit_out_of_bounds() {
    let mut m = temp_memory();
    assert!(m.edit("mino", 0, "x").is_err());
}

#[test]
fn test_clear() {
    let mut m = temp_memory();
    m.add("core", "a", &[]).unwrap();
    m.add("core", "b", &[]).unwrap();
    m.clear("core").unwrap();
    assert!(m.core.is_empty());
}

#[test]
fn test_remove_by_content_found() {
    let mut m = temp_memory();
    m.add("short", "hello", &[]).unwrap();
    m.add("short", "world", &[]).unwrap();
    let removed = m.remove_by_content("short", "hello").unwrap();
    assert!(removed);
    assert_eq!(m.short.len(), 1);
    assert_eq!(m.short[0].content, "world");
}

#[test]
fn test_remove_by_content_not_found() {
    let mut m = temp_memory();
    m.add("short", "hello", &[]).unwrap();
    let removed = m.remove_by_content("short", "missing").unwrap();
    assert!(!removed);
}

#[test]
fn test_search_case_insensitive() {
    let mut m = temp_memory();
    m.add("core", "User prefers Rust", &["lang"]).unwrap();
    m.add("mino", "Used python today", &[]).unwrap();
    m.add("short", "Nothing relevant", &[]).unwrap();
    let results = m.search("rust");
    assert_eq!(results.len(), 1);
    assert_eq!(results[0].1.content, "User prefers Rust");
}

#[test]
fn test_search_by_tag() {
    let mut m = temp_memory();
    m.add("core", "Some content", &["important"]).unwrap();
    m.add("mino", "Other", &[]).unwrap();
    let results = m.search("important");
    assert_eq!(results.len(), 1);
}

#[test]
fn test_search_no_match() {
    let mut m = temp_memory();
    m.add("core", "hello", &[]).unwrap();
    let results = m.search("xyz");
    assert!(results.is_empty());
}

#[test]
fn test_trim_short() {
    let mut m = temp_memory();
    for i in 0..25 {
        m.short.push(MemoryEntry {
            content: format!("item {i}"),
            timestamp: String::new(),
            tags: vec![],
        });
    }
    m.trim();
    assert_eq!(m.short.len(), MAX_SHORT);
    assert_eq!(m.short[0].content, "item 5");
}

#[test]
fn test_trim_mino() {
    let mut m = temp_memory();
    for i in 0..55 {
        m.mino.push(MemoryEntry {
            content: format!("item {i}"),
            timestamp: String::new(),
            tags: vec![],
        });
    }
    m.trim();
    assert_eq!(m.mino.len(), MAX_MINO);
    assert_eq!(m.mino[0].content, "item 5");
}

#[test]
fn test_core_context_with_tags() {
    let mut m = temp_memory();
    m.core.push(MemoryEntry {
        content: "prefers Rust".into(),
        timestamp: String::new(),
        tags: vec!["lang".into()],
    });
    let ctx = m.core_context();
    assert!(ctx.contains("prefers Rust"));
    assert!(ctx.contains("[lang]"));
}

#[test]
fn test_core_context_empty() {
    let m = temp_memory();
    assert!(m.core_context().is_empty());
}

#[test]
fn test_context_empty() {
    let m = temp_memory();
    assert!(m.context().is_empty());
}

#[test]
fn test_for_workspace_isolation() {
    let a = Memory::with_dir(Some(workspace_dir("/home/user", "/tmp/workspace-a")));
    let b = Memory::with_dir(Some(workspace_dir("/home/user", "/tmp/workspace-b")));
    let dir_a = a.dir_path().as_ref().unwrap();
    let dir_b = b.dir_path().as_ref().unwrap();
    assert_ne!(dir_a, dir_b);
    assert!(dir_a.contains("mem"));
    assert!(dir_b.contains("mem"));
}
