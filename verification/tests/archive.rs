use typst_web::archive::{package_files_from_entries, typst_files_from_entries, TarEntry};

fn member(is_file: bool, path: &str, data: &[u8]) -> TarEntry {
    TarEntry {
        is_file,
        path: path.to_string(),
        data: data.to_vec(),
    }
}

#[test]
fn tarball_members_become_typ_files() {
    let entries = vec![
        member(false, "", b""),
        member(true, "repo-main/notes/a.typ", b"= A"),
        member(true, "repo-main/readme.md", b"hi"),
        member(true, "repo-main/.git/x.typ", b"x"),
        member(true, "repo-main/b.typ", b"= B"),
    ];
    let files = typst_files_from_entries(entries, true).unwrap();
    let got: Vec<(String, String, String)> =
        files.into_iter().map(|f| (f.path, f.deck, f.source)).collect();
    assert_eq!(
        got,
        vec![
            ("notes/a.typ".to_string(), "notes".to_string(), "= A".to_string()),
            ("b.typ".to_string(), "root".to_string(), "= B".to_string()),
        ]
    );
    let bad = vec![member(true, "top/c.typ", &[0xff, 0xfe])];
    assert_eq!(
        typst_files_from_entries(bad, true),
        Err("stream did not contain valid UTF-8".to_string())
    );
}

#[test]
fn package_members_lose_the_archive_root() {
    let entries = vec![
        member(true, "pkg-0.1.0/typst.toml", b"[package]"),
        member(false, "", b""),
        member(true, "pkg-0.1.0/src/lib.typ", b"#let x = 1"),
        member(true, "pkg-0.1.0/logo.bin", &[0xff]),
    ];
    let files = package_files_from_entries(&entries, "preview", "pkg", "0.1.0");
    let got: Vec<(String, Option<String>)> = files.iter().map(|f| (f.path.clone(), f.source.clone())).collect();
    assert_eq!(
        got,
        vec![
            ("typst.toml".to_string(), Some("[package]".to_string())),
            ("src/lib.typ".to_string(), Some("#let x = 1".to_string())),
            ("logo.bin".to_string(), None),
        ]
    );
    assert!(files.iter().all(|f| f.namespace == "preview" && f.name == "pkg" && f.version == "0.1.0"));
}
