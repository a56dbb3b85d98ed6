use sha2::{Digest, Sha256};
use typst_web::cache::RenderCache;
use typst_web::model::{Flashcard, Project, TypstFile, TypstPackageFile};
use typst_web::render::{
    card_typst_file, card_typst_path, excerpt, excerpt_lines, package_versions, render_cache_key,
    render_package_inputs, render_sources, shared_root_prefix, CardSide,
};

fn file(path: &str, source: &str) -> TypstFile {
    TypstFile {
        path: path.to_string(),
        deck: "root".to_string(),
        source: source.to_string(),
    }
}

fn card(source_path: &str) -> Flashcard {
    Flashcard {
        id: "abc".to_string(),
        deck: "patterns".to_string(),
        source_path: source_path.to_string(),
        question: "#strong[Q]".to_string(),
        answer: "A".to_string(),
    }
}

fn package_file(version: &str, path: &str, source: Option<&str>, bytes: &[u8]) -> TypstPackageFile {
    TypstPackageFile {
        namespace: "preview".to_string(),
        name: "pkg".to_string(),
        version: version.to_string(),
        path: path.to_string(),
        bytes: bytes.to_vec(),
        source: source.map(|s| s.to_string()),
    }
}

#[test]
fn card_files_sit_next_to_their_note() {
    assert_eq!(
        card_typst_path(&card("patterns/observer.typ"), CardSide::Question),
        "patterns/.typst-web-card-abc-question.typ"
    );
    assert_eq!(
        card_typst_path(&card("index.typ"), CardSide::Answer),
        ".typst-web-card-abc-answer.typ"
    );
    let f = card_typst_file(&card("patterns/observer.typ"), CardSide::Question);
    assert_eq!(f.deck, "patterns");
    assert_eq!(
        f.source,
        "#set page(width: 360pt, height: auto, margin: 10pt)\n#set text(size: 12pt)\n#strong[Q]"
    );
    let a = card_typst_file(&card("index.typ"), CardSide::Answer);
    assert!(a.source.ends_with("\nA"));
    assert_eq!(CardSide::Answer.label(), "answer");
    assert_eq!(CardSide::Question.source(&card("x.typ")), "#strong[Q]");
}

#[test]
fn shared_root_is_the_common_first_piece() {
    assert_eq!(
        shared_root_prefix(&[file("notes/a.typ", ""), file("notes/b/c.typ", "")]),
        Some("notes".to_string())
    );
    assert_eq!(shared_root_prefix(&[file("a.typ", ""), file("notes/b.typ", "")]), None);
    assert_eq!(shared_root_prefix(&[]), None);
    assert_eq!(shared_root_prefix(&[file("/x.typ", "")]), None);
    assert_eq!(shared_root_prefix(&[file("single.typ", "")]), Some("single.typ".to_string()));
}

#[test]
fn render_sources_add_root_stripped_paths() {
    let mut project = Project::sample();
    project.files = vec![file("notes/a.typ", "A"), file("notes/b.typ", "B")];
    let sources = render_sources(&project, &file("notes/a.typ", "X"));
    let expected: Vec<(String, String)> = vec![
        ("a.typ".to_string(), "A".to_string()),
        ("b.typ".to_string(), "B".to_string()),
        ("notes/a.typ".to_string(), "X".to_string()),
        ("notes/b.typ".to_string(), "B".to_string()),
    ];
    assert_eq!(sources, expected);
    let plain = render_sources(&Project::sample(), &file("extra.typ", "E"));
    assert_eq!(
        plain.iter().map(|(p, _)| p.as_str()).collect::<Vec<_>>(),
        vec!["extra.typ", "index.typ", "patterns/observer.typ", "setup.typ"]
    );
}

#[test]
fn package_inputs_parse_versions() {
    let mut project = Project::sample();
    project.package_files = vec![
        package_file("0.1.0", "src/lib.typ", Some("#let v = 1"), b"#let v = 1"),
        package_file("0.1.0", "typst.toml", Some("[package]"), b"[package]"),
        package_file("0.1.0", "logo.png", None, &[1, 2, 3]),
    ];
    let inputs = render_package_inputs(&project).unwrap();
    assert_eq!(inputs.sources.len(), 1);
    assert_eq!(inputs.sources[0].0.path, "src/lib.typ");
    assert_eq!(
        (inputs.sources[0].0.major, inputs.sources[0].0.minor, inputs.sources[0].0.patch),
        (0, 1, 0)
    );
    assert_eq!(inputs.sources[0].1, "#let v = 1");
    assert_eq!(inputs.binaries.len(), 3);
    assert_eq!(inputs.binaries[2].1, vec![1, 2, 3]);
}

#[test]
fn bad_package_versions_are_errors() {
    let files = vec![
        package_file("x.1.0", "a.typ", Some(""), b""),
        package_file("1.2", "b.typ", Some(""), b""),
        package_file("1.2.3", "c.typ", Some(""), b""),
    ];
    let versions = package_versions(&files);
    assert_eq!(versions[0], Err("`x` is not a valid major version".to_string()));
    assert_eq!(versions[1], Err("version number is missing patch version".to_string()));
    assert_eq!(versions[2], Ok((1, 2, 3)));
    let mut project = Project::sample();
    project.package_files = files;
    assert_eq!(
        render_package_inputs(&project).map(|_| ()),
        Err("`x` is not a valid major version".to_string())
    );
    project.package_files = vec![
        package_file("1.0.0", "a.typ", Some(""), b""),
        package_file("1.0", "font.otf", None, b""),
    ];
    assert_eq!(
        render_package_inputs(&project).map(|_| ()),
        Err("version number is missing patch version".to_string())
    );
}

#[test]
fn cache_key_digests_project_file_and_packages() {
    let mut project = Project::sample();
    project.package_files = vec![package_file("0.1.0", "src/lib.typ", None, &[7, 8])];
    let f = file("main.typ", "= Hi");
    let mut hasher = Sha256::new();
    hasher.update(b"sample workspace");
    hasher.update(b"main.typ");
    hasher.update(b"= Hi");
    hasher.update(b"preview");
    hasher.update(b"pkg");
    hasher.update(b"0.1.0");
    hasher.update(b"src/lib.typ");
    hasher.update([7u8, 8u8]);
    assert_eq!(render_cache_key(&project, &f), format!("{:x}", hasher.finalize()));
}

#[test]
fn excerpt_keeps_eight_lines() {
    assert_eq!(excerpt_lines("a\r\nb\nc"), "a\nb\nc");
    assert_eq!(excerpt_lines("a\n"), "a");
    assert_eq!(excerpt_lines("a\r"), "a\r");
    assert_eq!(excerpt_lines(""), "");
    let ten = (1..=10).map(|i| i.to_string()).collect::<Vec<_>>().join("\n");
    assert_eq!(excerpt(&ten), "1\n2\n3\n4\n5\n6\n7\n8");
}

#[test]
fn long_excerpts_are_cut_at_420_bytes() {
    let long = "x".repeat(500);
    let cut = excerpt(&long);
    assert_eq!(cut, format!("{}...", "x".repeat(420)));
    assert_eq!(excerpt(&"y".repeat(420)), "y".repeat(420));
}

#[test]
fn long_excerpts_are_cut_between_characters() {
    let wide = "é".repeat(300);
    assert_eq!(excerpt(&wide), format!("{}...", "é".repeat(210)));
    let shifted = format!("a{}", "é".repeat(300));
    assert_eq!(excerpt(&shifted), format!("a{}...", "é".repeat(209)));
    let emoji = format!("ab{}", "😀".repeat(120));
    assert_eq!(excerpt(&emoji), format!("ab{}...", "😀".repeat(104)));
}

#[test]
fn render_cache_stores_and_clears() {
    let mut cache = RenderCache::new();
    assert_eq!(cache.get(&"k".to_string()), None);
    cache.store("k".to_string(), Ok("<svg/>".to_string()));
    cache.store("e".to_string(), Err("diag".to_string()));
    assert_eq!(cache.get(&"k".to_string()), Some(Ok("<svg/>".to_string())));
    assert_eq!(cache.get(&"e".to_string()), Some(Err("diag".to_string())));
    cache.store("k".to_string(), Ok("<svg2/>".to_string()));
    assert_eq!(cache.len(), 2);
    assert_eq!(cache.get(&"k".to_string()), Some(Ok("<svg2/>".to_string())));
    for i in 0..95 {
        cache.store(format!("n{i}"), Ok(String::new()));
    }
    assert_eq!(cache.len(), 97);
    cache.store("last".to_string(), Ok("x".to_string()));
    assert_eq!(cache.len(), 1);
    assert_eq!(cache.get(&"k".to_string()), None);
    assert_eq!(cache.get(&"last".to_string()), Some(Ok("x".to_string())));
}

#[test]
fn versions_parse_as_three_u32_pieces() {
    let files: Vec<TypstPackageFile> = ["1.2.3", "+1.02.3", "1.2", "1.2.3.4", "1..3", "4294967296.0.0", "a.b.c"]
        .iter()
        .map(|v| package_file(v, "lib.typ", None, b""))
        .collect();
    let parsed = package_versions(&files);
    assert_eq!(parsed[0], Ok((1, 2, 3)));
    assert_eq!(parsed[1], Ok((1, 2, 3)));
    assert!(parsed[2..].iter().all(|r| r.is_err()));
}
