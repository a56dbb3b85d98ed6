use typst_web::model::{Flashcard, PreviewPackage, Project, SavedGitHubRepo, TypstFile};
use typst_web::packages::preview_packages_in_sources;
use typst_web::paths::{deck_for_path, normalize_relative_path, parent_directory};
use typst_web::render::{card_typst_path, render_cache_key, render_sources, CardSide};
use typst_web::search::fuzzy_match;

#[test]
fn normalizing_twice_changes_nothing() {
    for p in ["a/./b/../c.typ", "x//y/", "", "./", "d/e/f.typ", "../up", "/abs"] {
        if let Some(n) = normalize_relative_path(p) {
            assert_eq!(normalize_relative_path(&n), Some(n.clone()));
        }
    }
}

#[test]
fn deck_is_parent_directory_or_root_law() {
    for p in ["a/b/c.typ", "index.typ", "../x.typ", "./a/./c.typ", "/abs/x.typ"] {
        let dir = parent_directory(p);
        let expected = if dir.is_empty() { "root".to_string() } else { dir };
        assert_eq!(deck_for_path(p), expected);
    }
}

#[test]
fn card_scratch_file_is_beside_its_note() {
    for source_path in ["patterns/observer.typ", "index.typ", "a/./b/../c/d.typ"] {
        let card = Flashcard {
            id: "0123abcd".to_string(),
            deck: "d".to_string(),
            source_path: source_path.to_string(),
            question: "q".to_string(),
            answer: "a".to_string(),
        };
        for side in [CardSide::Question, CardSide::Answer] {
            assert_eq!(
                parent_directory(&card_typst_path(&card, side)),
                parent_directory(source_path)
            );
        }
    }
}

#[test]
fn degrees_add_up_to_the_links() {
    let project = Project::sample();
    let inbound: usize = project.graph_nodes.iter().map(|n| n.inbound).sum();
    let outbound: usize = project.graph_nodes.iter().map(|n| n.outbound).sum();
    assert_eq!(inbound, project.graph_edges.len());
    assert_eq!(outbound, project.graph_edges.len());
}

#[test]
fn fuzzy_match_is_in_order_containment() {
    assert!(fuzzy_match("notes/graph.typ", "ngt"));
    assert!(!fuzzy_match("notes/graph.typ", "tgn"));
    assert!(fuzzy_match("aab", "ab"));
}

#[test]
fn remembered_repos_stay_unique() {
    let mut saved: Vec<SavedGitHubRepo> = Vec::new();
    for (repo, git_ref) in [("a/b", "main"), ("c/d", "dev"), ("a/b", "main"), ("a/b", "dev")] {
        saved = typst_web::github::remember_github_repo(
            saved,
            repo.to_string(),
            git_ref.to_string(),
        )
        .unwrap();
    }
    let keys: Vec<(String, String)> = saved.iter().map(|s| (s.repo.clone(), s.git_ref.clone())).collect();
    assert_eq!(
        keys,
        vec![
            ("a/b".to_string(), "dev".to_string()),
            ("a/b".to_string(), "main".to_string()),
            ("c/d".to_string(), "dev".to_string()),
        ]
    );
}

fn typ(path: &str, source: &str) -> TypstFile {
    TypstFile {
        path: path.to_string(),
        deck: "root".to_string(),
        source: source.to_string(),
    }
}

#[test]
fn normalized_paths_have_clean_pieces() {
    for p in ["a/./b/../c.typ", "x//y/", "", "./", "d/e/f.typ", "a/../..", "/abs", "./a//b/./"] {
        if let Some(n) = normalize_relative_path(p) {
            assert!(!n.starts_with('/'));
            if !n.is_empty() {
                for piece in n.split('/') {
                    assert!(!piece.is_empty() && piece != "." && piece != "..");
                }
            }
        }
    }
}

#[test]
fn rendered_file_shadows_the_project_copy() {
    let mut project = Project::sample();
    project.files = vec![typ("a.typ", "A"), typ("notes/b.typ", "B")];
    let rendered = typ("a.typ", "edited");
    let mut replaced = project.clone();
    replaced.files[0].source = "edited".to_string();
    assert_eq!(render_sources(&project, &rendered), render_sources(&replaced, &rendered));
}

#[test]
fn imports_of_joined_sources_are_the_union() {
    let a = vec!["#import \"@preview/cetz:0.2.2\"".to_string()];
    let b = vec!["#import \"@preview/fletcher:0.4.0\" @preview/cetz:0.2.2 @preview/bad:1.2".to_string()];
    let joined: Vec<String> = a.iter().chain(b.iter()).cloned().collect();
    let mut union = preview_packages_in_sources(&a);
    for p in preview_packages_in_sources(&b) {
        if !union.contains(&p) {
            union.push(p);
        }
    }
    union.sort_by(|x, y| (&x.namespace, &x.name, &x.version).cmp(&(&y.namespace, &y.name, &y.version)));
    let all: Vec<PreviewPackage> = preview_packages_in_sources(&joined);
    assert_eq!(all, union);
    for p in &all {
        assert_eq!(p.namespace, "preview");
        let pieces: Vec<&str> = p.version.split('.').collect();
        assert_eq!(pieces.len(), 3);
        assert!(pieces.iter().all(|d| !d.is_empty() && d.chars().all(|c| c.is_ascii_digit())));
    }
}

#[test]
fn same_inputs_give_the_same_cache_key_and_sources() {
    let mut p1 = Project::sample();
    p1.files = vec![typ("a.typ", "A")];
    let p2 = p1.clone();
    let f = typ("a.typ", "X");
    assert_eq!(render_cache_key(&p1, &f), render_cache_key(&p2, &f));
    assert_eq!(render_sources(&p1, &f), render_sources(&p2, &f));
}
