use std::collections::BTreeSet;

use typst_web::archive::{
    package_archive_root_segment, typst_files_from_tar_gz, typst_package_files_from_tar_gz,
};
use typst_web::model::{PreviewPackage, TypstFile, TypstPackageFile};
use typst_web::packages::{package_url, preview_packages_in_sources, PackageFetch};

fn strings(items: &[&str]) -> Vec<String> {
    items.iter().map(|s| s.to_string()).collect()
}

fn package_tar_gz<const N: usize>(files: [(&str, &str); N]) -> Vec<u8> {
    let mut encoder = flate2::write::GzEncoder::new(Vec::new(), flate2::Compression::default());
    {
        let mut archive = tar::Builder::new(&mut encoder);
        for (path, source) in files {
            let mut header = tar::Header::new_gnu();
            header.set_size(source.len() as u64);
            header.set_mode(0o644);
            header.set_cksum();
            archive
                .append_data(&mut header, path, source.as_bytes())
                .expect("append tar entry");
        }
        archive.finish().expect("finish tar");
    }
    encoder.finish().expect("finish gzip")
}

fn preview(name: &str, version: &str) -> PreviewPackage {
    PreviewPackage {
        namespace: "preview".to_string(),
        name: name.to_string(),
        version: version.to_string(),
    }
}

#[test]
fn package_archive_root_segment_preserves_package_root_paths() {
    let paths = strings(&["typst.toml", "src/lib.typ", "src/util.typ"]);

    assert_eq!(package_archive_root_segment(&paths), None);
}

#[test]
fn package_archive_root_segment_strips_archive_wrapper() {
    let paths = strings(&[
        "package-0.1.0/typst.toml",
        "package-0.1.0/src/lib.typ",
        "package-0.1.0/assets/icon.svg",
    ]);

    assert_eq!(
        package_archive_root_segment(&paths),
        Some("package-0.1.0".to_string())
    );
}

#[test]
fn typst_package_files_from_tar_gz_preserves_package_paths() {
    let bytes = package_tar_gz([
        (
            "typst.toml",
            r#"[package]
name = "pkg"
version = "0.1.0"
entrypoint = "src/lib.typ"
"#,
        ),
        ("src/lib.typ", "#let value = 1"),
    ]);

    let files =
        typst_package_files_from_tar_gz(&bytes, "preview", "pkg", "0.1.0").expect("package");
    let paths = files
        .into_iter()
        .map(|file| file.path)
        .collect::<BTreeSet<_>>();

    assert!(paths.contains("typst.toml"));
    assert!(paths.contains("src/lib.typ"));
}

#[test]
fn preview_packages_in_sources_finds_transitive_imports() {
    let packages = preview_packages_in_sources(&strings(&[
        r#"#import "@preview/first:0.1.0": foo"#,
        r#"#import "@preview/second:2.3.4": bar"#,
    ]));

    assert!(packages.contains(&preview("first", "0.1.0")));
    assert!(packages.contains(&preview("second", "2.3.4")));
}

#[test]
fn archive_root_requires_manifest_and_shared_head() {
    assert_eq!(
        package_archive_root_segment(&strings(&["wrap/src/lib.typ", "wrap/README.md"])),
        None
    );
    assert_eq!(
        package_archive_root_segment(&strings(&["a/typst.toml", "b/lib.typ"])),
        None
    );
    assert_eq!(
        package_archive_root_segment(&strings(&["src/typst.toml", "src/lib.typ"])),
        None
    );
    assert_eq!(package_archive_root_segment(&[]), None);
}

#[test]
fn package_files_strip_wrapper_and_tag_package() {
    let bytes = package_tar_gz([
        ("pkg-0.2.0/typst.toml", "[package]\nname = \"pkg\"\n"),
        ("pkg-0.2.0/src/lib.typ", "#let v = 2"),
    ]);
    let files = typst_package_files_from_tar_gz(&bytes, "preview", "pkg", "0.2.0").unwrap();
    assert_eq!(files.len(), 2);
    assert_eq!(files[0].path, "typst.toml");
    assert_eq!(files[1].path, "src/lib.typ");
    assert_eq!(files[1].namespace, "preview");
    assert_eq!(files[1].name, "pkg");
    assert_eq!(files[1].version, "0.2.0");
    assert_eq!(files[1].bytes, b"#let v = 2".to_vec());
    assert_eq!(files[1].source, Some("#let v = 2".to_string()));
}

#[test]
fn package_file_that_is_not_utf8_has_no_source() {
    let mut encoder = flate2::write::GzEncoder::new(Vec::new(), flate2::Compression::default());
    {
        let mut archive = tar::Builder::new(&mut encoder);
        let data: [u8; 3] = [0xff, 0xfe, 0x00];
        let mut header = tar::Header::new_gnu();
        header.set_size(data.len() as u64);
        header.set_mode(0o644);
        header.set_cksum();
        archive.append_data(&mut header, "font.bin", &data[..]).unwrap();
        archive.finish().unwrap();
    }
    let bytes = encoder.finish().unwrap();
    let files = typst_package_files_from_tar_gz(&bytes, "preview", "f", "1.0.0").unwrap();
    assert_eq!(files.len(), 1);
    assert_eq!(files[0].source, None);
    assert_eq!(files[0].bytes, vec![0xff, 0xfe, 0x00]);
}

#[test]
fn broken_archive_is_an_error() {
    assert!(typst_package_files_from_tar_gz(b"not gzip", "preview", "p", "1.0.0").is_err());
    assert!(typst_files_from_tar_gz(b"not gzip", true).is_err());
}

#[test]
fn repository_tarball_keeps_visible_typ_files() {
    let bytes = package_tar_gz([
        ("owner-repo-abc/notes/a.typ", "= A"),
        ("owner-repo-abc/README.md", "readme"),
        ("owner-repo-abc/.hidden/b.typ", "= B"),
        ("owner-repo-abc/node_modules/c.typ", "= C"),
        ("owner-repo-abc/index.typ", "= Index"),
    ]);
    let files = typst_files_from_tar_gz(&bytes, true).unwrap();
    assert_eq!(
        files,
        vec![
            TypstFile {
                path: "notes/a.typ".to_string(),
                deck: "notes".to_string(),
                source: "= A".to_string(),
            },
            TypstFile {
                path: "index.typ".to_string(),
                deck: "root".to_string(),
                source: "= Index".to_string(),
            },
        ]
    );
    let unstripped = typst_files_from_tar_gz(&bytes, false).unwrap();
    assert_eq!(unstripped[0].path, "owner-repo-abc/notes/a.typ");
    assert_eq!(unstripped[0].deck, "owner-repo-abc/notes");
}

#[test]
fn repository_file_that_is_not_utf8_is_an_error() {
    let mut encoder = flate2::write::GzEncoder::new(Vec::new(), flate2::Compression::default());
    {
        let mut archive = tar::Builder::new(&mut encoder);
        let data: [u8; 2] = [0xc3, 0x28];
        let mut header = tar::Header::new_gnu();
        header.set_size(data.len() as u64);
        header.set_mode(0o644);
        header.set_cksum();
        archive.append_data(&mut header, "r/bad.typ", &data[..]).unwrap();
        archive.finish().unwrap();
    }
    let bytes = encoder.finish().unwrap();
    assert_eq!(
        typst_files_from_tar_gz(&bytes, true),
        Err("stream did not contain valid UTF-8".to_string())
    );
}

#[test]
fn preview_imports_are_listed_once() {
    let packages = preview_packages_in_sources(&strings(&[
        "#import \"@preview/cetz:0.3.1\": canvas\n#import \"@preview/cetz:0.3.1\"",
        "#import \"@local/mine:1.0.0\"",
    ]));
    assert_eq!(packages, vec![preview("cetz", "0.3.1")]);
}

#[test]
fn package_url_points_at_registry() {
    assert_eq!(
        package_url(&preview("first", "0.1.0")),
        "https://packages.typst.org/preview/first-0.1.0.tar.gz"
    );
}

fn pkg_file(name: &str, path: &str, source: &str) -> TypstPackageFile {
    TypstPackageFile {
        namespace: "preview".to_string(),
        name: name.to_string(),
        version: "0.1.0".to_string(),
        path: path.to_string(),
        bytes: source.as_bytes().to_vec(),
        source: Some(source.to_string()),
    }
}

#[test]
fn package_fetch_follows_transitive_imports_once() {
    let files = vec![TypstFile {
        path: "main.typ".to_string(),
        deck: "root".to_string(),
        source: "#import \"@preview/rootpkg:0.1.0\": value".to_string(),
    }];
    let mut fetch = PackageFetch::new(&files);
    let first = fetch.next_package().expect("root package");
    assert_eq!(first, preview("rootpkg", "0.1.0"));
    fetch.complete(vec![pkg_file(
        "rootpkg",
        "src/lib.typ",
        "#import \"@preview/deppkg:0.1.0\": dep\n#import \"@preview/rootpkg:0.1.0\"",
    )]);
    let second = fetch.next_package().expect("dependency");
    assert_eq!(second, preview("deppkg", "0.1.0"));
    fetch.complete(vec![pkg_file("deppkg", "src/lib.typ", "#let dep() = [ok]")]);
    assert_eq!(fetch.next_package(), None);
    let fetched = fetch.into_files();
    assert_eq!(fetched.len(), 2);
    assert_eq!(fetched[0].name, "rootpkg");
    assert_eq!(fetched[1].name, "deppkg");
}

#[test]
fn preview_packages_come_in_package_order() {
    let packages = preview_packages_in_sources(&strings(&[
        "#import \"@preview/zeta:1.0.0\"",
        "#import \"@preview/alpha:2.0.0\"\n#import \"@preview/alpha:10.0.0\"",
    ]));
    assert_eq!(
        packages,
        vec![preview("alpha", "10.0.0"), preview("alpha", "2.0.0"), preview("zeta", "1.0.0")]
    );
}
