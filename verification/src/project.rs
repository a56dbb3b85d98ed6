use vstd::prelude::*;
use crate::cards::{card_views, extract_cards, spec_extract_cards};
use crate::graph::{build_graph, graph_correct, setup_path};
use crate::model::{Flashcard, Project, ReviewState, SrsProgress, TypstFile, TypstPackageFile};
use crate::paths::opt_view;
use crate::sorting::{
    package_lt, path_lt, sort_files_by_path, sort_package_files, stable_sorted,
};
use crate::srs::{ensure_state, progress_map, progress_wf, start_state};
use crate::text::{chars_eq, chars_of};

verus! {

broadcast use vstd::string::group_string_axioms;

/// The path of the first file that is not `setup.typ`.
pub open spec fn first_note(files: Seq<TypstFile>) -> Option<Seq<char>>
    decreases files.len(),
{
    if files.len() == 0 {
        None
    } else if files[0].path@ != setup_path() {
        Some(files[0].path@)
    } else {
        first_note(files.drop_first())
    }
}

/// The progress after giving each card without a state its starting state, card by card.
pub open spec fn with_card_states(m: Map<Seq<char>, ReviewState>, cards: Seq<Flashcard>) -> Map<
    Seq<char>,
    ReviewState,
>
    decreases cards.len(),
{
    if cards.len() == 0 {
        m
    } else {
        let before = with_card_states(m, cards.drop_last());
        let c = cards.last();
        if before.contains_key(c.id@) {
            before
        } else {
            before.insert(c.id@, start_state(c))
        }
    }
}

/// The progress a workspace starts from: the one saved for it, or none.
pub open spec fn saved_map(saved: Option<SrsProgress>) -> Map<Seq<char>, ReviewState> {
    match saved {
        Some(p) => progress_map(p),
        None => Map::empty(),
    }
}

pub open spec fn saved_wf(saved: Option<SrsProgress>) -> bool {
    match saved {
        Some(p) => progress_wf(p),
        None => true,
    }
}

/// Everything a project holds is derived from its files as the app derives it: files sorted
/// by path, package files by (namespace, name, version, path), the flashcards of the files,
/// their link graph, a review state for every card, and the first note as the active file.
pub open spec fn project_built_from(
    r: Project,
    source_label: Seq<char>,
    files: Seq<TypstFile>,
    package_files: Seq<TypstPackageFile>,
    message: Seq<char>,
    saved: Option<SrsProgress>,
) -> bool {
    &&& r.source_label@ == source_label
    &&& r.message@ == message
    &&& r.files@ == stable_sorted(files, path_lt())
    &&& r.package_files@ == stable_sorted(package_files, package_lt())
    &&& card_views(r.cards@) == spec_extract_cards(r.files@)
    &&& graph_correct(r.files@, r.graph_nodes@, r.graph_edges@)
    &&& progress_wf(r.progress)
    &&& progress_map(r.progress) == with_card_states(saved_map(saved), r.cards@)
    &&& opt_view(r.active_file) == first_note(r.files@)
}

fn first_note_path(files: &Vec<TypstFile>) -> (r: Option<String>)
    ensures
        opt_view(r) == first_note(files@),
{
    let setup = chars_of("setup.typ");
    let mut i: usize = 0;
    assert(files@.skip(0) =~= files@);
    while i < files.len()
        invariant
            i <= files.len(),
            setup@ == setup_path(),
            first_note(files@) == first_note(files@.skip(i as int)),
        decreases files.len() - i,
    {
        let ghost rest = files@.skip(i as int);
        assert(rest[0] == files@[i as int]);
        assert(rest.drop_first() =~= files@.skip(i + 1));
        let p = chars_of(files[i].path.as_str());
        if !chars_eq(&p, &setup) {
            return Some(files[i].path.clone());
        }
        i += 1;
    }
    None
}

/// Builds the project model of a workspace. `saved` is the review progress stored for it
/// (if any was read).
pub fn build_project_with_packages(
    source_label: String,
    files: Vec<TypstFile>,
    package_files: Vec<TypstPackageFile>,
    message: String,
    saved: Option<SrsProgress>,
) -> (r: Project)
    requires
        saved_wf(saved),
    ensures
        project_built_from(r, source_label@, files@, package_files@, message@, saved),
{
    let files = sort_files_by_path(files);
    let package_files = sort_package_files(package_files);
    let cards = extract_cards(files.as_slice());
    let (graph_nodes, graph_edges) = build_graph(files.as_slice());
    let ghost start = saved_map(saved);
    let mut progress = match saved {
        Some(p) => p,
        None => SrsProgress { cards: Vec::new() },
    };
    assert(progress_map(progress) =~= start);
    let mut i: usize = 0;
    assert(cards@.take(0) =~= Seq::<Flashcard>::empty());
    while i < cards.len()
        invariant
            i <= cards.len(),
            progress_wf(progress),
            progress_map(progress) == with_card_states(start, cards@.take(i as int)),
        decreases cards.len() - i,
    {
        ensure_state(&mut progress, &cards[i]);
        assert(cards@.take(i + 1).drop_last() =~= cards@.take(i as int));
        assert(cards@.take(i + 1).last() == cards@[i as int]);
        i += 1;
    }
    assert(cards@.take(cards.len() as int) =~= cards@);
    let active_file = first_note_path(&files);
    Project {
        source_label,
        files,
        package_files,
        cards,
        graph_nodes,
        graph_edges,
        progress,
        active_file,
        message,
    }
}

/// Builds the project model of a workspace without packages.
pub fn build_project(
    source_label: String,
    files: Vec<TypstFile>,
    message: String,
    saved: Option<SrsProgress>,
) -> (r: Project)
    requires
        saved_wf(saved),
    ensures
        project_built_from(r, source_label@, files@, Seq::empty(), message@, saved),
{
    let r = build_project_with_packages(source_label, files, Vec::new(), message, saved);
    assert(stable_sorted(Seq::<TypstPackageFile>::empty(), package_lt()) =~= Seq::empty());
    r
}

fn text(s: &str) -> (r: String)
    ensures
        r@ == s@,
{
    s.to_string()
}

/// The files of the sample workspace shown before anything is loaded.
pub open spec fn sample_files() -> Seq<(Seq<char>, Seq<char>, Seq<char>)> {
    seq![
        ("index.typ"@, "root"@, "#import \"setup.typ\": flashcard\n= Index\nSee \"./patterns/observer.typ\".\n#flashcard(\"What does Observer decouple?\", \"Subjects from subscribers.\")"@),
        ("patterns/observer.typ"@, "patterns"@, "= Observer\nLinks back to \"../index.typ\".\n#flashcard(\"When is Observer useful?\", \"When many views react to state changes.\")"@),
        ("setup.typ"@, "root"@, "#let flashcard(q, a) = []"@),
    ]
}

pub open spec fn file_triples(v: Seq<TypstFile>) -> Seq<(Seq<char>, Seq<char>, Seq<char>)> {
    Seq::new(v.len(), |i: int| (v[i].path@, v[i].deck@, v[i].source@))
}

impl Project {
    /// The sample workspace: three files, no saved progress.
    pub fn sample() -> (r: Self)
        ensures
            exists|files: Seq<TypstFile>|
                file_triples(files) == sample_files() && project_built_from(
                    r,
                    "sample workspace"@,
                    files,
                    Seq::empty(),
                    "Ready. Load a local path or GitHub repo to replace the sample."@,
                    None,
                ),
    {
        let mut files: Vec<TypstFile> = Vec::new();
        files.push(
            TypstFile {
                path: text("index.typ"),
                deck: text("root"),
                source: text(
                    "#import \"setup.typ\": flashcard\n= Index\nSee \"./patterns/observer.typ\".\n#flashcard(\"What does Observer decouple?\", \"Subjects from subscribers.\")",
                ),
            },
        );
        files.push(
            TypstFile {
                path: text("patterns/observer.typ"),
                deck: text("patterns"),
                source: text(
                    "= Observer\nLinks back to \"../index.typ\".\n#flashcard(\"When is Observer useful?\", \"When many views react to state changes.\")",
                ),
            },
        );
        files.push(
            TypstFile {
                path: text("setup.typ"),
                deck: text("root"),
                source: text("#let flashcard(q, a) = []"),
            },
        );
        let ghost fs = files@;
        assert(file_triples(fs) =~= sample_files());
        build_project(
            text("sample workspace"),
            files,
            text("Ready. Load a local path or GitHub repo to replace the sample."),
            None,
        )
    }
}

} // verus!
