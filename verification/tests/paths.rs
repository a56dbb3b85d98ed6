use typst_web::paths::{
    deck_for_path, file_name, has_ignored_segment, normalize_link, normalize_relative_path,
    parent_directory, progress_path,
};

#[test]
fn normalize_resolves_dots() {
    assert_eq!(normalize_relative_path("a/./b/../c.typ"), Some("a/c.typ".to_string()));
    assert_eq!(normalize_relative_path("a//b/"), Some("a/b".to_string()));
    assert_eq!(normalize_relative_path(""), Some(String::new()));
    assert_eq!(normalize_relative_path("./"), Some(String::new()));
}

#[test]
fn normalize_refuses_escapes_and_absolute_paths() {
    assert_eq!(normalize_relative_path("../x.typ"), None);
    assert_eq!(normalize_relative_path("a/../../x.typ"), None);
    assert_eq!(normalize_relative_path("/etc/x.typ"), None);
}

#[test]
fn deck_is_parent_directory_or_root() {
    assert_eq!(deck_for_path("patterns/observer.typ"), "patterns");
    assert_eq!(deck_for_path("index.typ"), "root");
    assert_eq!(deck_for_path("a/b/c.typ"), "a/b");
    assert_eq!(deck_for_path("./a/./c.typ"), "a");
    assert_eq!(deck_for_path("../x.typ"), "root");
    assert_eq!(deck_for_path("/abs/x.typ"), "root");
    assert_eq!(deck_for_path(""), "root");
}

#[test]
fn parent_directory_is_empty_at_top() {
    assert_eq!(parent_directory("patterns/observer.typ"), "patterns");
    assert_eq!(parent_directory("index.typ"), "");
    assert_eq!(parent_directory("/abs/x.typ"), "");
    assert_eq!(parent_directory("a/b/c.typ"), "a/b");
}

#[test]
fn file_name_is_last_component() {
    assert_eq!(file_name("patterns/observer.typ"), "observer.typ");
    assert_eq!(file_name("index.typ"), "index.typ");
    assert_eq!(file_name("dir/"), "dir");
    assert_eq!(file_name(".."), "..");
    assert_eq!(file_name(""), "");
}

#[test]
fn links_resolve_against_the_source_directory() {
    assert_eq!(
        normalize_link("patterns/observer.typ", "../index.typ"),
        Some("index.typ".to_string())
    );
    assert_eq!(
        normalize_link("index.typ", "./patterns/observer.typ"),
        Some("patterns/observer.typ".to_string())
    );
    assert_eq!(normalize_link("a/b.typ", "c.typ"), Some("a/c.typ".to_string()));
}

#[test]
fn web_and_escaping_links_are_dropped() {
    assert_eq!(normalize_link("a.typ", "https://example.com/x.typ"), None);
    assert_eq!(normalize_link("a.typ", "http://example.com/x.typ"), None);
    assert_eq!(normalize_link("a.typ", "../x.typ"), None);
    assert_eq!(normalize_link("a.typ", "/x.typ"), None);
}

#[test]
fn hidden_and_node_modules_segments_are_ignored() {
    assert!(has_ignored_segment(".git/config.typ"));
    assert!(has_ignored_segment("a/node_modules/b.typ"));
    assert!(has_ignored_segment("a/.draft.typ"));
    assert!(!has_ignored_segment("a/b.typ"));
    assert!(!has_ignored_segment("node_modules_x/b.typ"));
}

#[test]
fn progress_lives_next_to_local_projects_only() {
    assert_eq!(progress_path("github:owner/repo@main"), None);
    assert_eq!(progress_path("sample workspace"), None);
    assert_eq!(
        progress_path("/home/me/notes"),
        Some("/home/me/notes/.srs-progress.json".to_string())
    );
    assert_eq!(
        progress_path("/home/me/notes/"),
        Some("/home/me/notes/.srs-progress.json".to_string())
    );
}
