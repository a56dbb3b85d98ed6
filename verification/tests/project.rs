use typst_web::browse::{files_by_deck, preview_index};
use typst_web::graph::build_graph;
use typst_web::github::{local_loaded_project, sample_with_message};
use typst_web::model::{GraphEdge, GraphNode, Project, ReviewState, SrsProgress, TypstFile, TypstPackageFile};
use typst_web::project::{build_project, build_project_with_packages};
use typst_web::search::{filter_files, fuzzy_match};
use typst_web::sorting::{sort_files_by_path, sort_package_files};
use typst_web::srs::START_EASE_BITS;

fn file(path: &str, deck: &str, source: &str) -> TypstFile {
    TypstFile {
        path: path.to_string(),
        deck: deck.to_string(),
        source: source.to_string(),
    }
}

fn node(id: &str, label: &str, directory: &str, inbound: usize, outbound: usize) -> GraphNode {
    GraphNode {
        id: id.to_string(),
        label: label.to_string(),
        directory: directory.to_string(),
        inbound,
        outbound,
    }
}

fn edge(source: &str, target: &str) -> GraphEdge {
    GraphEdge {
        source: source.to_string(),
        target: target.to_string(),
    }
}

#[test]
fn sample_project_is_indexed() {
    let project = Project::sample();
    assert_eq!(project.source_label, "sample workspace");
    assert_eq!(
        project.files.iter().map(|f| f.path.as_str()).collect::<Vec<_>>(),
        vec!["index.typ", "patterns/observer.typ", "setup.typ"]
    );
    assert_eq!(project.cards.len(), 3);
    assert_eq!(project.cards[0].question, "What does Observer decouple?");
    assert_eq!(project.cards[0].answer, "Subjects from subscribers.");
    assert_eq!(project.cards[1].deck, "patterns");
    assert_eq!(project.cards[2].source_path, "setup.typ");
    assert_eq!(project.cards[2].question, "q");
    assert_eq!(project.progress.cards.len(), 3);
    assert!(project
        .progress
        .cards
        .iter()
        .all(|s| s.ease_factor_bits == 2.5f64.to_bits() && s.next_review == 0 && s.interval == 0));
    assert_eq!(project.active_file, Some("index.typ".to_string()));
    assert_eq!(
        project.message,
        "Ready. Load a local path or GitHub repo to replace the sample."
    );
    assert_eq!(
        project.graph_nodes,
        vec![
            node("index.typ", "index.typ", "root", 1, 1),
            node("patterns/observer.typ", "observer.typ", "patterns", 1, 1),
        ]
    );
    assert_eq!(
        project.graph_edges,
        vec![
            edge("index.typ", "patterns/observer.typ"),
            edge("patterns/observer.typ", "index.typ"),
        ]
    );
}

#[test]
fn start_ease_is_two_and_a_half() {
    assert_eq!(START_EASE_BITS, 2.5f64.to_bits());
}

#[test]
fn files_are_sorted_by_path_and_setup_is_not_active() {
    let project = build_project(
        "/w".to_string(),
        vec![file("setup.typ", "root", ""), file("b.typ", "root", ""), file("a/z.typ", "a", "")],
        "m".to_string(),
        None,
    );
    assert_eq!(
        project.files.iter().map(|f| f.path.as_str()).collect::<Vec<_>>(),
        vec!["a/z.typ", "b.typ", "setup.typ"]
    );
    assert_eq!(project.active_file, Some("a/z.typ".to_string()));
    let only_setup = build_project("/w".to_string(), vec![file("setup.typ", "root", "")], "m".to_string(), None);
    assert_eq!(only_setup.active_file, None);
}

#[test]
fn saved_progress_is_kept_and_extended() {
    let files = vec![file("a.typ", "root", "#flashcard(\"q\", \"a\")")];
    let first = build_project("/w".to_string(), files.clone(), "m".to_string(), None);
    let id = first.cards[0].id.clone();
    let saved = SrsProgress {
        cards: vec![
            ReviewState {
                id: id.clone(),
                deck: "root".to_string(),
                ease_factor_bits: 3.0f64.to_bits(),
                interval: 6,
                repetitions: 2,
                next_review: 99,
                last_review: Some(5),
                last_quality: Some(4),
            },
            ReviewState {
                id: "gone".to_string(),
                ..ReviewState::default()
            },
        ],
    };
    let project = build_project("/w".to_string(), files, "m".to_string(), Some(saved.clone()));
    assert_eq!(project.progress.cards.len(), 2);
    let st = project.progress.cards.iter().find(|s| s.id == id).unwrap();
    assert_eq!(st.interval, 6);
    assert_eq!(st.next_review, 99);
    assert!(project.progress.cards.iter().any(|s| s.id == "gone"));
}

#[test]
fn package_files_are_sorted_by_package_and_path() {
    let pf = |name: &str, path: &str| TypstPackageFile {
        namespace: "preview".to_string(),
        name: name.to_string(),
        version: "0.1.0".to_string(),
        path: path.to_string(),
        bytes: Vec::new(),
        source: None,
    };
    let project = build_project_with_packages(
        "l".to_string(),
        vec![],
        vec![pf("b", "x.typ"), pf("a", "z.typ"), pf("a", "y.typ")],
        "m".to_string(),
        None,
    );
    let order: Vec<(String, String)> = project
        .package_files
        .iter()
        .map(|f| (f.name.clone(), f.path.clone()))
        .collect();
    assert_eq!(
        order,
        vec![
            ("a".to_string(), "y.typ".to_string()),
            ("a".to_string(), "z.typ".to_string()),
            ("b".to_string(), "x.typ".to_string()),
        ]
    );
    let sorted = sort_package_files(vec![pf("b", "1"), pf("a", "2")]);
    assert_eq!(sorted[0].name, "a");
}

#[test]
fn sorting_by_path_is_stable() {
    let sorted = sort_files_by_path(vec![
        file("b.typ", "1", ""),
        file("a.typ", "first", ""),
        file("a.typ", "second", ""),
    ]);
    assert_eq!(sorted[0].deck, "first");
    assert_eq!(sorted[1].deck, "second");
    assert_eq!(sorted[2].path, "b.typ");
}

#[test]
fn graph_keeps_links_to_loaded_notes() {
    let files = vec![
        file("a.typ", "root", "\"b.typ\" \"missing.typ\" \"setup.typ\" \"https://x/y.typ\""),
        file("b.typ", "root", "\"a.typ\" \"a.typ\""),
        file("setup.typ", "root", "\"a.typ\""),
    ];
    let (nodes, edges) = build_graph(&files);
    assert_eq!(
        nodes,
        vec![node("a.typ", "a.typ", "root", 2, 1), node("b.typ", "b.typ", "root", 1, 2)]
    );
    assert_eq!(
        edges,
        vec![edge("a.typ", "b.typ"), edge("b.typ", "a.typ"), edge("b.typ", "a.typ")]
    );
}

#[test]
fn fuzzy_search_matches_characters_in_order() {
    assert!(fuzzy_match("patterns/observer.typ", "pobs"));
    assert!(fuzzy_match("abc", ""));
    assert!(!fuzzy_match("abc", "acb"));
    assert!(!fuzzy_match("", "a"));
}

#[test]
fn file_search_lowercases_and_trims() {
    let files = Project::sample().files;
    let found = filter_files(&files, "  OBS ");
    assert_eq!(found.len(), 1);
    assert_eq!(found[0].path, "patterns/observer.typ");
    assert_eq!(filter_files(&files, "   ").len(), 3);
    let many: Vec<TypstFile> = (0..60).map(|i| file(&format!("n{i}.typ"), "root", "")).collect();
    assert_eq!(filter_files(&many, "").len(), 50);
    assert_eq!(filter_files(&many, "N5").len(), 15);
}

#[test]
fn files_are_grouped_by_deck() {
    let files = Project::sample().files;
    let groups = files_by_deck(&files);
    assert_eq!(groups.len(), 2);
    assert_eq!(groups[0].0, "patterns");
    assert_eq!(groups[0].1.len(), 1);
    assert_eq!(groups[1].0, "root");
    assert_eq!(
        groups[1].1.iter().map(|f| f.path.as_str()).collect::<Vec<_>>(),
        vec!["index.typ", "setup.typ"]
    );
}

#[test]
fn preview_shows_active_or_first_file() {
    let files = Project::sample().files;
    assert_eq!(preview_index(&files, &Some("patterns/observer.typ".to_string())), Some(1));
    assert_eq!(preview_index(&files, &Some("nope.typ".to_string())), Some(0));
    assert_eq!(preview_index(&files, &None), Some(0));
    assert_eq!(preview_index(&Vec::<TypstFile>::new(), &None), None);
}

#[test]
fn local_load_messages() {
    let empty = local_loaded_project("/tmp/none".to_string(), vec![], None);
    assert_eq!(empty.message, "No .typ files found.");
    assert_eq!(empty.source_label, "/tmp/none");
    let loaded = local_loaded_project("/w".to_string(), vec![file("x.typ", "root", "")], None);
    assert_eq!(loaded.message, "Loaded local workspace.");
    let failed = sample_with_message("Local load failed: boom".to_string());
    assert_eq!(failed.message, "Local load failed: boom");
    assert_eq!(failed.files.len(), 3);
}
