use vstd::prelude::*;

verus! {

/// Which view of the workspace the app shows.
#[derive(Clone, Copy, Debug, PartialEq, Eq)]
pub enum Mode {
    Preview,
    Srs,
    Graph,
    Files,
}

/// A `.typ` file of the workspace: slash-separated relative path, deck, source text.
#[derive(Clone, Debug, Default, PartialEq, Eq)]
pub struct TypstFile {
    pub path: String,
    pub deck: String,
    pub source: String,
}

/// A file of a Typst package that the workspace imports.
#[derive(Clone, Debug, Default, PartialEq, Eq)]
pub struct TypstPackageFile {
    pub namespace: String,
    pub name: String,
    pub version: String,
    pub path: String,
    pub bytes: Vec<u8>,
    pub source: Option<String>,
}

/// A question/answer card found in a `flashcard(q, a)` call.
#[derive(Clone, Debug, Default, PartialEq, Eq)]
pub struct Flashcard {
    pub id: String,
    pub deck: String,
    pub source_path: String,
    pub question: String,
    pub answer: String,
}

/// Scheduling state of one card. The ease factor is a binary64 number; it is held here
/// by its IEEE-754 bit pattern (`f64::to_bits`), which the scheduling logic carries
/// through unchanged.
#[derive(Clone, Debug, Default, PartialEq, Eq)]
pub struct ReviewState {
    pub id: String,
    pub deck: String,
    pub ease_factor_bits: u64,
    pub interval: u32,
    pub repetitions: u32,
    pub next_review: i64,
    pub last_review: Option<i64>,
    pub last_quality: Option<u8>,
}

/// The scheduling states of all cards, keyed by card id (no id occurs twice).
#[derive(Clone, Debug, Default, PartialEq, Eq)]
pub struct SrsProgress {
    pub cards: Vec<ReviewState>,
}

/// A note of the link graph.
#[derive(Clone, Debug, Default, PartialEq, Eq)]
pub struct GraphNode {
    pub id: String,
    pub label: String,
    pub directory: String,
    pub inbound: usize,
    pub outbound: usize,
}

/// A link from one note to another.
#[derive(Clone, Debug, Default, PartialEq, Eq)]
pub struct GraphEdge {
    pub source: String,
    pub target: String,
}

/// A loaded workspace with everything derived from it.
#[derive(Clone, Debug, Default, PartialEq, Eq)]
pub struct Project {
    pub source_label: String,
    pub files: Vec<TypstFile>,
    pub package_files: Vec<TypstPackageFile>,
    pub cards: Vec<Flashcard>,
    pub graph_nodes: Vec<GraphNode>,
    pub graph_edges: Vec<GraphEdge>,
    pub progress: SrsProgress,
    pub active_file: Option<String>,
    pub message: String,
}

/// A GitHub repository the user loaded before.
#[derive(Clone, Debug, Default, PartialEq, Eq)]
pub struct SavedGitHubRepo {
    pub repo: String,
    pub git_ref: String,
    pub token: String,
}

/// A `@namespace/name:version` package that a source imports.
#[derive(Clone, Debug, Default, PartialEq, Eq)]
pub struct PreviewPackage {
    pub namespace: String,
    pub name: String,
    pub version: String,
}

pub fn copy_string(s: &String) -> (r: String)
    ensures
        r == *s,
        r@ == s@,
{
    s.clone()
}

pub fn copy_opt_string(s: &Option<String>) -> (r: Option<String>)
    ensures
        r == *s,
{
    match s {
        Some(x) => Some(x.clone()),
        None => None,
    }
}

impl TypstFile {
    pub fn duplicate(&self) -> (r: Self)
        ensures
            r == *self,
    {
        TypstFile { path: self.path.clone(), deck: self.deck.clone(), source: self.source.clone() }
    }
}

impl Flashcard {
    pub fn duplicate(&self) -> (r: Self)
        ensures
            r == *self,
    {
        Flashcard {
            id: self.id.clone(),
            deck: self.deck.clone(),
            source_path: self.source_path.clone(),
            question: self.question.clone(),
            answer: self.answer.clone(),
        }
    }
}

impl ReviewState {
    pub fn duplicate(&self) -> (r: Self)
        ensures
            r == *self,
    {
        ReviewState {
            id: self.id.clone(),
            deck: self.deck.clone(),
            ease_factor_bits: self.ease_factor_bits,
            interval: self.interval,
            repetitions: self.repetitions,
            next_review: self.next_review,
            last_review: self.last_review,
            last_quality: self.last_quality,
        }
    }
}

impl PreviewPackage {
    pub fn duplicate(&self) -> (r: Self)
        ensures
            r == *self,
    {
        PreviewPackage {
            namespace: self.namespace.clone(),
            name: self.name.clone(),
            version: self.version.clone(),
        }
    }
}

impl Mode {
    /// The tab label of the mode.
    pub fn label(self) -> (r: &'static str)
        ensures
            r@ == match self {
                Mode::Preview => "Preview"@,
                Mode::Srs => "SRS"@,
                Mode::Graph => "Graph"@,
                Mode::Files => "Files"@,
            },
    {
        match self {
            Mode::Preview => "Preview",
            Mode::Srs => "SRS",
            Mode::Graph => "Graph",
            Mode::Files => "Files",
        }
    }
}

} // verus!
