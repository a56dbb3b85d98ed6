use typst_web::github::{
    blob_file, contents_url, decimal_text, failure_message, github_loaded_project,
    github_source_label, graphql_expression, graphql_query, has_typ_extension, is_skipped_name,
    is_typst_blob, remember_github_repo, repo_has_owner, scanned_file, tarball_url, tree_url,
    GitTreeEntry,
};
use typst_web::model::{SavedGitHubRepo, TypstFile};
use typst_web::remote::{graphql_field, split_owner_name, BlobFetch, GraphqlFetch, GraphqlReply};

fn entry(path: &str, kind: &str, url: &str) -> GitTreeEntry {
    GitTreeEntry {
        path: path.to_string(),
        kind: kind.to_string(),
        url: url.to_string(),
    }
}

fn saved(repo: &str, git_ref: &str, token: &str) -> SavedGitHubRepo {
    SavedGitHubRepo {
        repo: repo.to_string(),
        git_ref: git_ref.to_string(),
        token: token.to_string(),
    }
}

#[test]
fn urls_name_the_repository_and_ref() {
    assert_eq!(tarball_url("o/r", "main"), "https://api.github.com/repos/o/r/tarball/main");
    assert_eq!(
        tree_url("o/r", "dev"),
        "https://api.github.com/repos/o/r/git/trees/dev?recursive=1"
    );
    assert_eq!(
        contents_url("o/r", "a/b.typ", "main"),
        "https://api.github.com/repos/o/r/contents/a/b.typ?ref=main"
    );
    assert!(repo_has_owner("o/r"));
    assert!(!repo_has_owner("repo"));
}

#[test]
fn graphql_query_names_every_file() {
    assert_eq!(
        graphql_query(2),
        "query($owner:String!, $name:String!,$expr0: String!,$expr1: String!){ repository(owner:$owner, name:$name){f0: object(expression:$expr0){ ... on Blob { text } }f1: object(expression:$expr1){ ... on Blob { text } }}}"
    );
    assert_eq!(graphql_expression("main", "a.typ"), "main:a.typ");
    assert_eq!(decimal_text(0), "0");
    assert_eq!(decimal_text(1234), "1234");
    assert_eq!(graphql_field(12), "f12");
}

#[test]
fn labels_and_messages() {
    assert_eq!(github_source_label("o/r", "main"), "github:o/r@main");
    assert_eq!(github_source_label("o/r", ""), "github:o/r@");
    assert_eq!(failure_message("GitHub load failed: ", "404"), "GitHub load failed: 404");
    let empty = github_loaded_project("o/r", "main", vec![], vec![], None);
    assert_eq!(empty.source_label, "github:o/r@main");
    assert_eq!(empty.message, "GitHub repo loaded, but no .typ files were found.");
    let files = vec![TypstFile {
        path: "a.typ".to_string(),
        deck: "root".to_string(),
        source: String::new(),
    }];
    let loaded = github_loaded_project("o/r", "main", files, vec![], None);
    assert_eq!(loaded.source_label, "github:o/r@main");
    assert_eq!(loaded.message, "Loaded GitHub workspace.");
}

#[test]
fn tree_entries_select_visible_typ_blobs() {
    assert!(is_typst_blob(&entry("a/b.typ", "blob", "")));
    assert!(!is_typst_blob(&entry("a/b.typ", "tree", "")));
    assert!(!is_typst_blob(&entry("a/b.md", "blob", "")));
    assert!(!is_typst_blob(&entry(".github/x.typ", "blob", "")));
}

#[test]
fn blobs_are_base64_text() {
    assert_eq!(
        blob_file("notes/a.typ", "PSBI\naQ==\n", "base64"),
        Ok(Some(TypstFile {
            path: "notes/a.typ".to_string(),
            deck: "notes".to_string(),
            source: "= Hi".to_string(),
        }))
    );
    assert_eq!(blob_file("a.typ", "whatever", "utf-8"), Ok(None));
    assert!(blob_file("a.typ", "!!!", "base64").is_err());
    assert!(blob_file("a.typ", "//79", "base64").is_err());
}

#[test]
fn saved_repos_put_latest_first() {
    let list = vec![saved("a/x", "main", "t1"), saved("b/y", "dev", "t2")];
    let next = remember_github_repo(list, "  b/y ".to_string(), " dev ".to_string()).unwrap();
    assert_eq!(next, vec![saved("b/y", "dev", ""), saved("a/x", "main", "")]);
    assert_eq!(remember_github_repo(vec![], "   ".to_string(), "main".to_string()), None);
    let many: Vec<SavedGitHubRepo> = (0..15).map(|i| saved(&format!("o/r{i}"), "main", "")).collect();
    let capped = remember_github_repo(many, "new/repo".to_string(), "main".to_string()).unwrap();
    assert_eq!(capped.len(), 12);
    assert_eq!(capped[0].repo, "new/repo");
    assert_eq!(capped[11].repo, "o/r10");
}

#[test]
fn local_scan_helpers() {
    assert!(is_skipped_name(".git"));
    assert!(is_skipped_name("node_modules"));
    assert!(!is_skipped_name("notes"));
    assert!(has_typ_extension("a.typ"));
    assert!(has_typ_extension("a.b.typ"));
    assert!(!has_typ_extension(".typ"));
    assert!(!has_typ_extension("a.typst"));
    assert!(!has_typ_extension("typ"));
    let f = scanned_file("notes/./a.typ", "src".to_string()).unwrap();
    assert_eq!(f.path, "notes/a.typ");
    assert_eq!(f.deck, "notes");
    assert_eq!(scanned_file("../a.typ", String::new()), Err("invalid relative path".to_string()));
}

#[test]
fn blob_fetch_downloads_typ_blobs_in_order() {
    let tree = vec![
        entry("a.typ", "blob", "u1"),
        entry("docs", "tree", "u2"),
        entry("b/c.typ", "blob", "u3"),
        entry("readme.md", "blob", "u4"),
    ];
    let mut fetch = BlobFetch::new(&tree);
    let t = fetch.next_target().unwrap();
    assert_eq!(t.url, "u1");
    fetch.receive("PSBB", "base64").unwrap();
    let t = fetch.next_target().unwrap();
    assert_eq!(t.path, "b/c.typ");
    fetch.receive("ignored", "none").unwrap();
    assert_eq!(fetch.next_target(), None);
    let files = fetch.into_files();
    assert_eq!(files.len(), 1);
    assert_eq!(files[0].source, "= A");
    let mut failing = BlobFetch::new(&tree);
    assert!(failing.receive("@@", "base64").is_err());
}

#[test]
fn graphql_fetch_reads_forty_files_per_request() {
    let paths: Vec<String> = (0..45).map(|i| format!("d/n{i}.typ")).collect();
    let mut fetch = GraphqlFetch::new(paths);
    let first = fetch.next_request("o", "r", "main").unwrap();
    assert_eq!(first.query, graphql_query(40));
    assert_eq!(first.variables.len(), 42);
    assert_eq!(first.variables[0], ("owner".to_string(), "o".to_string()));
    assert_eq!(first.variables[1], ("name".to_string(), "r".to_string()));
    assert_eq!(first.variables[2], ("expr0".to_string(), "main:d/n0.typ".to_string()));
    assert_eq!(first.variables[41], ("expr39".to_string(), "main:d/n39.typ".to_string()));
    let texts: Vec<Option<String>> = (0..40).map(|i| Some(format!("t{i}"))).collect();
    fetch
        .receive(&GraphqlReply { errors: None, texts: Some(texts) })
        .unwrap();
    let second = fetch.next_request("o", "r", "main").unwrap();
    assert_eq!(second.query, graphql_query(5));
    assert_eq!(second.variables[2].1, "main:d/n40.typ");
    let missing = GraphqlReply {
        errors: None,
        texts: Some(vec![Some("x".to_string()), None]),
    };
    assert_eq!(
        fetch.receive(&missing),
        Err("Missing file contents for d/n41.typ".to_string())
    );
}

#[test]
fn graphql_errors_end_the_read() {
    let mut fetch = GraphqlFetch::new(vec!["a.typ".to_string()]);
    assert_eq!(
        fetch.receive(&GraphqlReply { errors: Some("[{\"m\":1}]".to_string()), texts: None }),
        Err("[{\"m\":1}]".to_string())
    );
    assert_eq!(
        fetch.receive(&GraphqlReply { errors: None, texts: None }),
        Err("GitHub GraphQL response missing repository.".to_string())
    );
    fetch
        .receive(&GraphqlReply { errors: None, texts: Some(vec![Some("= A".to_string())]) })
        .unwrap();
    assert!(fetch.next_request("o", "r", "main").is_none());
    let files = fetch.into_files();
    assert_eq!(files[0].path, "a.typ");
    assert_eq!(files[0].deck, "root");
    assert_eq!(split_owner_name("o/r/x"), Some(("o".to_string(), "r/x".to_string())));
    assert_eq!(split_owner_name("or"), None);
}
