use typst::syntax::package::{PackageSpec, PackageVersion};
use typst::syntax::{FileId, RootedPath, VirtualPath, VirtualRoot};
use typst_as_lib::TypstEngine;
use typst_web::model::{Flashcard, Project, TypstFile, TypstPackageFile};
use typst_web::project::build_project_with_packages;
use typst_web::render::{card_typst_file, render_package_inputs, render_sources, CardSide, PackageEntry};

fn package_spec(entry: &PackageEntry) -> PackageSpec {
    PackageSpec {
        namespace: entry.namespace.clone().into(),
        name: entry.name.clone().into(),
        version: PackageVersion {
            major: entry.major,
            minor: entry.minor,
            patch: entry.patch,
        },
    }
}

fn file_id(root: VirtualRoot, path: &str) -> FileId {
    RootedPath::new(root, VirtualPath::new(path).expect("virtual path")).intern()
}

fn render_typst_svg(project: &Project, file: &TypstFile) -> Result<String, String> {
    let packages = render_package_inputs(project)?;
    let mut sources: Vec<(FileId, String)> = render_sources(project, file)
        .into_iter()
        .map(|(path, source)| (file_id(VirtualRoot::Project, &path), source))
        .collect();
    for (entry, source) in &packages.sources {
        sources.push((
            file_id(VirtualRoot::Package(package_spec(entry)), &entry.path),
            source.clone(),
        ));
    }
    let source_refs: Vec<(FileId, &str)> =
        sources.iter().map(|(id, source)| (*id, source.as_str())).collect();
    let binaries: Vec<(FileId, &[u8])> = packages
        .binaries
        .iter()
        .map(|(entry, bytes)| {
            (
                file_id(VirtualRoot::Package(package_spec(entry)), &entry.path),
                bytes.as_slice(),
            )
        })
        .collect();
    let engine = TypstEngine::builder()
        .with_static_source_file_resolver(source_refs)
        .with_static_file_resolver(binaries)
        .fonts(typst_assets::fonts())
        .build();
    let warned = engine.compile(file.path.as_str());
    match warned.output {
        Ok(document) => Ok(typst_svg::svg_merged(
            &document,
            &typst_svg::SvgOptions::default(),
            typst::layout::Abs::pt(8.0),
        )),
        Err(err) => Err(format!("{err:?}")),
    }
}

fn test_package_file(name: &str, path: &str, source: &str) -> TypstPackageFile {
    TypstPackageFile {
        namespace: "preview".to_string(),
        name: name.to_string(),
        version: "0.1.0".to_string(),
        path: path.to_string(),
        bytes: source.as_bytes().to_vec(),
        source: Some(source.to_string()),
    }
}

#[test]
fn render_resolves_transitive_static_packages() {
    let project = build_project_with_packages(
        "test".to_string(),
        vec![TypstFile {
            path: "main.typ".to_string(),
            deck: "root".to_string(),
            source: r#"#import "@preview/rootpkg:0.1.0": value
#value()"#
                .to_string(),
        }],
        vec![
            test_package_file(
                "rootpkg",
                "typst.toml",
                r#"[package]
name = "rootpkg"
version = "0.1.0"
entrypoint = "src/lib.typ"
"#,
            ),
            test_package_file(
                "rootpkg",
                "src/lib.typ",
                r#"#import "@preview/deppkg:0.1.0": dep
#let value() = dep()"#,
            ),
            test_package_file(
                "deppkg",
                "typst.toml",
                r#"[package]
name = "deppkg"
version = "0.1.0"
entrypoint = "src/lib.typ"
"#,
            ),
            test_package_file("deppkg", "src/lib.typ", "#let dep() = [ok]"),
        ],
        "test".to_string(),
        None,
    );
    let file = project.files.first().expect("main file");

    render_typst_svg(&project, file).expect("transitive package render should compile");
}

#[test]
fn render_card_typst_file_compiles_markup() {
    let project = Project::sample();
    let card = Flashcard {
        id: "card".to_string(),
        deck: "root".to_string(),
        source_path: "index.typ".to_string(),
        question: "#strong[What is $x^2$?]".to_string(),
        answer: "A #emph[Typst] expression.".to_string(),
    };
    let file = card_typst_file(&card, CardSide::Question);

    let svg = render_typst_svg(&project, &file).expect("card markup should render");
    assert!(svg.contains("<svg"));
}
