use mindtask::store::{dir_or_current, sibling_dir};

#[test]
fn sibling_dir_handles_bare_and_nested_paths() {
    assert_eq!(sibling_dir("project.json"), ".");
    assert_eq!(sibling_dir("a/b/project.json"), "a/b");
    assert_eq!(sibling_dir("/tmp/project.json"), "/tmp");
}

#[test]
fn root_path_has_no_parent_and_uses_current_dir() {
    assert_eq!(sibling_dir("/"), ".");
    assert_eq!(sibling_dir(""), ".");
}

#[test]
fn empty_parent_means_current_dir() {
    assert_eq!(dir_or_current(Some(String::new())), ".");
    assert_eq!(dir_or_current(None), ".");
    assert_eq!(dir_or_current(Some("x/y".to_string())), "x/y");
}
