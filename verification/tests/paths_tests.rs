use gprdeps::paths::{sort_by_path, sort_paths};

#[test]
fn sort_paths_by_components() {
    // "a" comes before "a-b" as a component, though '-' comes before '/'.
    let v = vec!["a-b/x".to_string(), "a/b".to_string()];
    let r = sort_paths(&v);
    assert_eq!(r, vec!["a/b".to_string(), "a-b/x".to_string()]);
}

#[test]
fn sort_paths_keeps_one_per_path() {
    let v = vec!["/x/b.adb".to_string(), "/x/a.adb".to_string(), "/x/b.adb".to_string(), "/x//a.adb".to_string()];
    let r = sort_paths(&v);
    assert_eq!(r, vec!["/x/a.adb".to_string(), "/x/b.adb".to_string()]);
}

#[test]
fn sort_by_path_in_place() {
    let mut v = vec!["b".to_string(), "a-b/x".to_string(), "a/b".to_string(), "/root".to_string()];
    sort_by_path(&mut v);
    assert_eq!(v, vec!["/root".to_string(), "a/b".to_string(), "a-b/x".to_string(), "b".to_string()]);
}

#[test]
fn lexable_text_counts_lines() {
    assert!(gprdeps::base_lexer::lexable_text("project A is\nend A;\n"));
    assert!(gprdeps::base_lexer::lexable_text(""));
}
