use agent_hud::paths::{file_name_str, path_components, same_path_str};

fn name(path: &str) -> String {
    file_name_str(path).into_iter().collect()
}

#[test]
fn paths_compare_by_components() {
    assert!(same_path_str(r"C:\Users\me\.codex\state_5.sqlite", "C:/Users/me/.codex/state_5.sqlite"));
    assert!(same_path_str("/a//b/", "/a/b"));
    assert!(same_path_str("/a/./b", "/a/b"));
    assert!(same_path_str("./a", "./a"));
    assert!(!same_path_str("./a", "a"));
    assert!(!same_path_str("/a", "a"));
    assert!(!same_path_str("/a/../b", "/b"));
    assert!(!same_path_str("/a/b", "/a/c"));
}

#[test]
fn components_drop_empty_pieces_and_inner_dots() {
    let parts: Vec<String> = path_components(r"\x\\.\y\")
        .into_iter()
        .map(|p| p.into_iter().collect())
        .collect();
    assert_eq!(parts, vec!["x".to_string(), "y".to_string()]);
}

#[test]
fn file_name_is_the_last_component() {
    assert_eq!(name(r"C:\Users\me\.codex\state_5.sqlite-wal"), "state_5.sqlite-wal");
    assert_eq!(name("/tmp/rollout.jsonl/"), "rollout.jsonl");
    assert_eq!(name("/tmp/rollout.jsonl/."), "rollout.jsonl");
    assert_eq!(name("/tmp/.."), "");
    assert_eq!(name("/"), "");
}
