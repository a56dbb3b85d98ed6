use vstd::prelude::*;
use base64::Engine;
use vstd::utf8::{decode_utf8, valid_utf8};
use crate::archive::{string_from_utf8, utf8_error_text};
use crate::model::{Project, SavedGitHubRepo, SrsProgress, TypstFile, TypstPackageFile};
use crate::paths::{deck_for_path, has_ignored_segment, spec_deck_for_path, spec_has_ignored_segment};
use crate::text::{chars_eq, chars_of, ends_with, has_suffix, push_str, string_of};

verus! {

broadcast use vstd::string::group_string_axioms;

/// An entry of a GitHub git tree listing.
#[derive(Clone, Debug, Default, PartialEq, Eq)]
pub struct GitTreeEntry {
    pub path: String,
    pub kind: String,
    pub url: String,
}

impl GitTreeEntry {
    pub fn duplicate(&self) -> (r: Self)
        ensures
            r == *self,
    {
        GitTreeEntry { path: self.path.clone(), kind: self.kind.clone(), url: self.url.clone() }
    }
}

/// The tree entry is a `.typ` file to load: a blob whose path ends in `.typ` and has no
/// hidden or `node_modules` piece.
pub open spec fn spec_is_typst_blob(kind: Seq<char>, path: Seq<char>) -> bool {
    kind == "blob"@ && ends_with(path, ".typ"@) && !spec_has_ignored_segment(path)
}

/// Whether a tree entry is a `.typ` file to load.
pub fn is_typst_blob(entry: &GitTreeEntry) -> (r: bool)
    ensures
        r == spec_is_typst_blob(entry.kind@, entry.path@),
{
    let k = chars_of(entry.kind.as_str());
    let blob = chars_of("blob");
    let p = chars_of(entry.path.as_str());
    let ext = chars_of(".typ");
    chars_eq(&k, &blob) && has_suffix(&p, &ext) && !has_ignored_segment(entry.path.as_str())
}

/// What `base64::engine::general_purpose::STANDARD.decode` gives for a text: the bytes,
/// or the text of the error.
pub uninterp spec fn base64_decoded(input: Seq<char>) -> Result<Seq<u8>, Seq<char>>;

pub open spec fn bytes_result(r: Result<Vec<u8>, String>) -> Result<Seq<u8>, Seq<char>> {
    match r {
        Ok(v) => Ok(v@),
        Err(e) => Err(e@),
    }
}

/// Decodes standard (padded) base64 with the `base64` crate; the result is named
/// `base64_decoded`.
#[verifier::external_body]
pub(crate) fn base64_decode(input: &str) -> (r: Result<Vec<u8>, String>)
    ensures
        bytes_result(r) == base64_decoded(input@),
{
    base64::engine::general_purpose::STANDARD.decode(input).map_err(|err| err.to_string())
}

/// `s` without newline characters.
pub open spec fn without_newlines(s: Seq<char>) -> Seq<char> {
    s.filter(|c: char| c != '\n')
}

fn remove_newlines(s: &str) -> (r: String)
    ensures
        r@ == without_newlines(s@),
{
    let c = chars_of(s);
    let mut out: Vec<char> = Vec::new();
    let mut i: usize = 0;
    assert(c@.take(0).filter(|x: char| x != '\n') =~= Seq::<char>::empty()) by {
        reveal(Seq::filter);
    }
    while i < c.len()
        invariant
            i <= c.len(),
            c@ == s@,
            out@ == c@.take(i as int).filter(|x: char| x != '\n'),
        decreases c.len() - i,
    {
        assert(c@.take(i + 1).drop_last() =~= c@.take(i as int));
        reveal(Seq::filter);
        if c[i] != '\n' {
            out.push(c[i]);
        }
        i += 1;
    }
    assert(c@.take(c.len() as int) =~= c@);
    string_of(&out)
}

/// A blob downloaded from GitHub: not base64-encoded blobs are skipped; otherwise the
/// content (newlines removed) is base64-decoded and must be UTF-8.
pub open spec fn spec_blob_file(path: Seq<char>, content: Seq<char>, encoding: Seq<char>) -> Result<
    Option<(Seq<char>, Seq<char>, Seq<char>)>,
    Seq<char>,
> {
    if encoding != "base64"@ {
        Ok(None)
    } else {
        match base64_decoded(without_newlines(content)) {
            Err(e) => Err(e),
            Ok(bytes) => if valid_utf8(bytes) {
                Ok(Some((path, spec_deck_for_path(path), decode_utf8(bytes))))
            } else {
                Err(utf8_error_text(bytes))
            },
        }
    }
}

pub open spec fn blob_result(r: Result<Option<TypstFile>, String>) -> Result<
    Option<(Seq<char>, Seq<char>, Seq<char>)>,
    Seq<char>,
> {
    match r {
        Ok(Some(f)) => Ok(Some((f.path@, f.deck@, f.source@))),
        Ok(None) => Ok(None),
        Err(e) => Err(e@),
    }
}

/// Turns a downloaded blob into a workspace file.
pub fn blob_file(path: &str, content: &str, encoding: &str) -> (r: Result<Option<TypstFile>, String>)
    ensures
        blob_result(r) == spec_blob_file(path@, content@, encoding@),
{
    let enc = chars_of(encoding);
    let b64 = chars_of("base64");
    if !chars_eq(&enc, &b64) {
        return Ok(None);
    }
    let cleaned = remove_newlines(content);
    let bytes = match base64_decode(cleaned.as_str()) {
        Ok(b) => b,
        Err(e) => return Err(e),
    };
    match string_from_utf8(bytes) {
        Ok(source) => Ok(Some(TypstFile { deck: deck_for_path(path), path: path.to_string(), source })),
        Err(e) => Err(e),
    }
}

/// A repository name is usable when it has the `owner/repo` form (holds a slash).
pub fn repo_has_owner(repo: &str) -> (r: bool)
    ensures
        r == repo@.contains('/'),
{
    let c = chars_of(repo);
    let mut i: usize = 0;
    while i < c.len()
        invariant
            i <= c.len(),
            c@ == repo@,
            forall|k: int| 0 <= k < i ==> c@[k] != '/',
        decreases c.len() - i,
    {
        if c[i] == '/' {
            assert(repo@[i as int] == '/');
            return true;
        }
        i += 1;
    }
    false
}

/// `https://api.github.com/repos/{repo}/tarball/{git_ref}`
pub fn tarball_url(repo: &str, git_ref: &str) -> (r: String)
    ensures
        r@ == "https://api.github.com/repos/"@ + repo@ + "/tarball/"@ + git_ref@,
{
    let mut s = "https://api.github.com/repos/".to_string();
    push_str(&mut s, repo);
    push_str(&mut s, "/tarball/");
    push_str(&mut s, git_ref);
    s
}

/// `https://api.github.com/repos/{repo}/git/trees/{git_ref}?recursive=1`
pub fn tree_url(repo: &str, git_ref: &str) -> (r: String)
    ensures
        r@ == "https://api.github.com/repos/"@ + repo@ + "/git/trees/"@ + git_ref@
            + "?recursive=1"@,
{
    let mut s = "https://api.github.com/repos/".to_string();
    push_str(&mut s, repo);
    push_str(&mut s, "/git/trees/");
    push_str(&mut s, git_ref);
    push_str(&mut s, "?recursive=1");
    s
}

/// `https://api.github.com/repos/{repo}/contents/{path}?ref={git_ref}`
pub fn contents_url(repo: &str, path: &str, git_ref: &str) -> (r: String)
    ensures
        r@ == "https://api.github.com/repos/"@ + repo@ + "/contents/"@ + path@ + "?ref="@
            + git_ref@,
{
    let mut s = "https://api.github.com/repos/".to_string();
    push_str(&mut s, repo);
    push_str(&mut s, "/contents/");
    push_str(&mut s, path);
    push_str(&mut s, "?ref=");
    push_str(&mut s, git_ref);
    s
}

/// Decimal digits of a number.
pub open spec fn decimal(n: nat) -> Seq<char>
    decreases n,
{
    if n < 10 {
        seq![crate::digest::hex_char(n as int)]
    } else {
        decimal(n / 10) + seq![crate::digest::hex_char((n % 10) as int)]
    }
}

/// The decimal text of a number.
pub fn decimal_text(n: usize) -> (r: String)
    ensures
        r@ == decimal(n as nat),
    decreases n,
{
    let table: [char; 10] = ['0', '1', '2', '3', '4', '5', '6', '7', '8', '9'];
    assert(table@ =~= seq!['0', '1', '2', '3', '4', '5', '6', '7', '8', '9']);
    if n < 10 {
        let mut s = String::new();
        s.push(table[n]);
        assert(s@ =~= decimal(n as nat));
        s
    } else {
        let mut s = decimal_text(n / 10);
        s.push(table[n % 10]);
        assert(s@ =~= decimal(n as nat));
        s
    }
}

/// The variable declarations `$expr0: String!,…` for `n` files.
pub open spec fn expr_decls(n: nat) -> Seq<char>
    decreases n,
{
    if n == 0 {
        Seq::empty()
    } else {
        expr_decls((n - 1) as nat) + "$expr"@ + decimal((n - 1) as nat) + ": String!,"@
    }
}

/// The selections `f0: object(expression:$expr0){ ... on Blob { text } }…` for `n` files.
pub open spec fn object_fields(n: nat) -> Seq<char>
    decreases n,
{
    if n == 0 {
        Seq::empty()
    } else {
        object_fields((n - 1) as nat) + "f"@ + decimal((n - 1) as nat) + ": object(expression:$expr"@
            + decimal((n - 1) as nat) + "){ ... on Blob { text } }"@
    }
}

/// The GraphQL query that reads the text of `n` files of a repository in one request.
pub open spec fn spec_graphql_query(n: nat) -> Seq<char> {
    ("query($owner:String!, $name:String!,"@ + expr_decls(n)).drop_last()
        + "){ repository(owner:$owner, name:$name){"@ + object_fields(n) + "}}"@
}

/// Builds the GraphQL query that reads the text of `count` files.
pub fn graphql_query(count: usize) -> (r: String)
    ensures
        r@ == spec_graphql_query(count as nat),
{
    let mut q = "query($owner:String!, $name:String!,".to_string();
    let ghost head = q@;
    let mut i: usize = 0;
    while i < count
        invariant
            i <= count,
            q@ == head + expr_decls(i as nat),
        decreases count - i,
    {
        push_str(&mut q, "$expr");
        let d = decimal_text(i);
        push_str(&mut q, d.as_str());
        push_str(&mut q, ": String!,");
        i += 1;
        assert(q@ =~= head + expr_decls(i as nat));
    }
    proof {
        reveal_strlit("query($owner:String!, $name:String!,");
    }
    assert(head.len() > 0);
    let qc = chars_of(q.as_str());
    let mut q2 = string_of(&crate::text::copy_range(&qc, 0, qc.len() - 1));
    assert(q2@ =~= (head + expr_decls(count as nat)).drop_last());
    push_str(&mut q2, "){ repository(owner:$owner, name:$name){");
    let ghost mid = q2@;
    let mut j: usize = 0;
    while j < count
        invariant
            j <= count,
            q2@ == mid + object_fields(j as nat),
        decreases count - j,
    {
        push_str(&mut q2, "f");
        let d = decimal_text(j);
        push_str(&mut q2, d.as_str());
        push_str(&mut q2, ": object(expression:$expr");
        push_str(&mut q2, d.as_str());
        push_str(&mut q2, "){ ... on Blob { text } }");
        j += 1;
        assert(q2@ =~= mid + object_fields(j as nat));
    }
    push_str(&mut q2, "}}");
    q2
}

/// The expression `{git_ref}:{path}` naming a file at a ref.
pub fn graphql_expression(git_ref: &str, path: &str) -> (r: String)
    ensures
        r@ == git_ref@ + ":"@ + path@,
{
    let mut s = git_ref.to_string();
    push_str(&mut s, ":");
    push_str(&mut s, path);
    s
}

/// The label of a GitHub workspace: `github:{repo}@{git_ref}`.
pub open spec fn spec_github_label(repo: Seq<char>, git_ref: Seq<char>) -> Seq<char> {
    "github:"@ + repo + "@"@ + git_ref
}

/// The label of a loaded GitHub workspace.
pub fn github_source_label(repo: &str, git_ref: &str) -> (r: String)
    ensures
        r@ == spec_github_label(repo@, git_ref@),
{
    let mut s = "github:".to_string();
    push_str(&mut s, repo);
    push_str(&mut s, "@");
    push_str(&mut s, git_ref);
    s
}

/// A GitHub workspace never keeps its review progress in a local file.
pub proof fn lemma_github_progress_not_local(repo: Seq<char>, git_ref: Seq<char>)
    ensures
        crate::paths::spec_progress_path(spec_github_label(repo, git_ref)) is None,
{
    reveal_strlit("github:");
    let label = spec_github_label(repo, git_ref);
    assert(label.take(7) =~= "github:"@);
}

/// The message shown after a GitHub load.
pub open spec fn spec_github_message(no_files: bool) -> Seq<char> {
    if no_files {
        "GitHub repo loaded, but no .typ files were found."@
    } else {
        "Loaded GitHub workspace."@
    }
}

/// The project of a loaded GitHub workspace; `saved` is the progress stored under its label.
pub fn github_loaded_project(
    repo: &str,
    git_ref: &str,
    files: Vec<TypstFile>,
    package_files: Vec<TypstPackageFile>,
    saved: Option<SrsProgress>,
) -> (r: Project)
    requires
        crate::project::saved_wf(saved),
    ensures
        crate::project::project_built_from(
            r,
            spec_github_label(repo@, git_ref@),
            files@,
            package_files@,
            spec_github_message(files@.len() == 0),
            saved,
        ),
{
    let no_files = files.len() == 0;
    let label = github_source_label(repo, git_ref);
    let message = if no_files {
        "GitHub repo loaded, but no .typ files were found.".to_string()
    } else {
        "Loaded GitHub workspace.".to_string()
    };
    crate::project::build_project_with_packages(label, files, package_files, message, saved)
}

/// The sample project with another message (shown after a failed load).
pub fn sample_with_message(message: String) -> (r: Project)
    ensures
        r.message@ == message@,
        exists|p: Project, files: Seq<TypstFile>|
            r == (Project { message: r.message, ..p }) && crate::project::file_triples(files)
                == crate::project::sample_files() && crate::project::project_built_from(
                p,
                "sample workspace"@,
                files,
                Seq::empty(),
                "Ready. Load a local path or GitHub repo to replace the sample."@,
                None,
            ),
{
    let sample = Project::sample();
    let ghost files = choose|files: Seq<TypstFile>|
        crate::project::file_triples(files) == crate::project::sample_files()
            && crate::project::project_built_from(
            sample,
            "sample workspace"@,
            files,
            Seq::empty(),
            "Ready. Load a local path or GitHub repo to replace the sample."@,
            None,
        );
    let r = Project { message, ..sample };
    assert(r == (Project { message: r.message, ..sample }));
    r
}

/// The text of a failed load: `prefix` followed by the error.
pub fn failure_message(prefix: &str, err: &str) -> (r: String)
    ensures
        r@ == prefix@ + err@,
{
    let mut s = prefix.to_string();
    push_str(&mut s, err);
    s
}

/// Remembers a GitHub repository at the front of the saved list: the repository and ref
/// are trimmed; an empty repository is not saved; an earlier entry for the same
/// repository and ref is dropped; at most twelve entries are kept. Entries are
/// (repository, ref) pairs: no token is ever kept in the saved list.
pub open spec fn spec_remember(
    saved: Seq<SavedGitHubRepo>,
    repo: Seq<char>,
    git_ref: Seq<char>,
) -> Option<Seq<(Seq<char>, Seq<char>)>> {
    let r = crate::text::trim(repo);
    let g = crate::text::trim(git_ref);
    if r.len() == 0 {
        None
    } else {
        let kept = saved_keys(saved).filter(other_repo(r, g));
        Some(crate::search::at_most(seq![(r, g)] + kept, 12))
    }
}

/// An entry for another repository or ref.
pub open spec fn other_repo(r: Seq<char>, g: Seq<char>) -> spec_fn((Seq<char>, Seq<char>)) -> bool {
    |e: (Seq<char>, Seq<char>)| e.0 != r || e.1 != g
}

/// The (repository, ref) pair of each saved entry.
pub open spec fn saved_keys(v: Seq<SavedGitHubRepo>) -> Seq<(Seq<char>, Seq<char>)> {
    Seq::new(v.len(), |i: int| (v[i].repo@, v[i].git_ref@))
}

/// No saved entry holds a token.
pub open spec fn holds_no_token(v: Seq<SavedGitHubRepo>) -> bool {
    forall|i: int| 0 <= i < v.len() ==> (#[trigger] v[i]).token@.len() == 0
}

fn trimmed(s: &str) -> (r: String)
    ensures
        r@ == crate::text::trim(s@),
{
    let c = chars_of(s);
    let (a, b) = crate::text::trim_bounds(&c);
    string_of(&crate::text::copy_range(&c, a, b))
}

/// Puts a repository at the front of the saved list (see `spec_remember`). The entries
/// that come back hold no token, so the list can be stored as it is.
pub fn remember_github_repo(
    saved: Vec<SavedGitHubRepo>,
    repo: String,
    git_ref: String,
) -> (r: Option<Vec<SavedGitHubRepo>>)
    ensures
        match r {
            None => spec_remember(saved@, repo@, git_ref@) is None,
            Some(v) => spec_remember(saved@, repo@, git_ref@) == Some(saved_keys(v@))
                && holds_no_token(v@),
        },
{
    let repo = trimmed(repo.as_str());
    let git_ref = trimmed(git_ref.as_str());
    if repo.unicode_len() == 0 {
        return None;
    }
    let rc = chars_of(repo.as_str());
    let gc = chars_of(git_ref.as_str());
    let ghost keys = saved_keys(saved@);
    let ghost pred = other_repo(rc@, gc@);
    let mut out: Vec<SavedGitHubRepo> = Vec::new();
    out.push(SavedGitHubRepo { repo, git_ref, token: String::new() });
    let mut i: usize = 0;
    assert(keys.take(0).filter(pred) =~= Seq::<(Seq<char>, Seq<char>)>::empty()) by {
        reveal(Seq::filter);
    }
    assert(saved_keys(out@) =~= seq![(rc@, gc@)] + keys.take(0).filter(pred));
    while i < saved.len()
        invariant
            i <= saved.len(),
            keys == saved_keys(saved@),
            pred == other_repo(rc@, gc@),
            saved_keys(out@) == seq![(rc@, gc@)] + keys.take(i as int).filter(pred),
            holds_no_token(out@),
        decreases saved.len() - i,
    {
        assert(keys.take(i + 1).drop_last() =~= keys.take(i as int));
        reveal(Seq::filter);
        let er = chars_of(saved[i].repo.as_str());
        let eg = chars_of(saved[i].git_ref.as_str());
        let ghost before = saved_keys(out@);
        assert(keys.take(i + 1).last() == keys[i as int]);
        assert(keys[i as int] == (saved@[i as int].repo@, saved@[i as int].git_ref@));
        if !chars_eq(&er, &rc) || !chars_eq(&eg, &gc) {
            let entry = SavedGitHubRepo {
                repo: saved[i].repo.clone(),
                git_ref: saved[i].git_ref.clone(),
                token: String::new(),
            };
            out.push(entry);
            assert(pred(keys[i as int]));
            assert(keys.take(i + 1).filter(pred) == keys.take(i as int).filter(pred).push(keys[i as int]));
            assert(saved_keys(out@) =~= before.push(keys[i as int]));
            assert(saved_keys(out@) =~= seq![(rc@, gc@)] + keys.take(i + 1).filter(pred));
        } else {
            assert(!pred(keys[i as int]));
            assert(keys.take(i + 1).filter(pred) == keys.take(i as int).filter(pred));
        }
        i += 1;
    }
    assert(keys.take(saved.len() as int) =~= keys);
    let ghost full = saved_keys(out@);
    let ghost whole = out@;
    out.truncate(12);
    assert(saved_keys(out@) =~= crate::search::at_most(full, 12));
    assert(holds_no_token(out@)) by {
        assert forall|k: int| 0 <= k < out@.len() implies (#[trigger] out@[k]).token@.len() == 0 by {
            assert(out@[k] == whole[k]);
        }
    }
    Some(out)
}

/// No two entries are for the same repository and ref.
pub open spec fn entry_keys_unique(e: Seq<(Seq<char>, Seq<char>)>) -> bool {
    forall|i: int, j: int| 0 <= i < j < e.len() ==> (#[trigger] e[i]) != (#[trigger] e[j])
}

proof fn lemma_filter_from(s: Seq<(Seq<char>, Seq<char>)>, pred: spec_fn((Seq<char>, Seq<char>)) -> bool)
    ensures
        forall|i: int| 0 <= i < s.filter(pred).len() ==> exists|j: int|
            0 <= j < s.len() && s[j] == #[trigger] s.filter(pred)[i],
        entry_keys_unique(s) ==> entry_keys_unique(s.filter(pred)),
    decreases s.len(),
{
    reveal(Seq::filter);
    if s.len() > 0 {
        let p = s.drop_last();
        lemma_filter_from(p, pred);
        let f = s.filter(pred);
        let fp = p.filter(pred);
        assert forall|i: int| 0 <= i < f.len() implies exists|j: int|
            0 <= j < s.len() && s[j] == #[trigger] f[i] by {
            if i < fp.len() {
                assert(f[i] == fp[i]);
                let j = choose|j: int| 0 <= j < p.len() && p[j] == fp[i];
                assert(s[j] == f[i]);
            } else {
                assert(s[s.len() - 1] == f[i]);
            }
        }
        if entry_keys_unique(s) {
            assert(entry_keys_unique(p));
            assert forall|a: int, b: int| 0 <= a < b < f.len() implies (#[trigger] f[a]) != (#[trigger] f[b]) by {
                if b < fp.len() {
                    assert(f[a] == fp[a]);
                    assert(f[b] == fp[b]);
                } else {
                    assert(f[a] == fp[a]);
                    let j = choose|j: int| 0 <= j < p.len() && p[j] == fp[a];
                    assert(s[j] == f[a]);
                    assert(f[b] == s[s.len() - 1]);
                }
            }
        }
    }
}

/// Remembering a repository keeps the saved list free of two entries for the same
/// repository and ref, puts the new entry first, and keeps at most twelve entries.
pub proof fn lemma_remember_keeps_keys_unique(saved: Seq<SavedGitHubRepo>, repo: Seq<char>, git_ref: Seq<char>)
    requires
        entry_keys_unique(saved_keys(saved)),
    ensures
        match spec_remember(saved, repo, git_ref) {
            Some(v) => entry_keys_unique(v) && 1 <= v.len() <= 12 && v[0] == (
                crate::text::trim(repo),
                crate::text::trim(git_ref),
            ),
            None => crate::text::trim(repo).len() == 0,
        },
{
    let r = crate::text::trim(repo);
    let g = crate::text::trim(git_ref);
    if r.len() > 0 {
        let pred = other_repo(r, g);
        let kept = saved_keys(saved).filter(pred);
        lemma_filter_from(saved_keys(saved), pred);
        let full = seq![(r, g)] + kept;
        assert(entry_keys_unique(full)) by {
            assert forall|a: int, b: int| 0 <= a < b < full.len() implies (#[trigger] full[a]) != (#[trigger] full[b]) by {
                if a == 0 {
                    assert(full[b] == kept[b - 1]);
                    saved_keys(saved).lemma_filter_pred(pred, b - 1);
                    assert(pred(kept[b - 1]));
                } else {
                    assert(full[a] == kept[a - 1]);
                    assert(full[b] == kept[b - 1]);
                }
            }
        }
        let v = crate::search::at_most(full, 12);
        assert forall|a: int, b: int| 0 <= a < b < v.len() implies (#[trigger] v[a]) != (#[trigger] v[b]) by {
            assert(v[a] == full[a]);
            assert(v[b] == full[b]);
        }
        assert(v[0] == full[0]);
    }
}

/// A file found by scanning a local directory: its path relative to the workspace root,
/// normalized; an error when that path cannot be normalized.
pub fn scanned_file(relative_path: &str, source: String) -> (r: Result<TypstFile, String>)
    ensures
        match crate::paths::spec_normalize(relative_path@) {
            Some(rel) => r matches Ok(f) && f.path@ == rel && f.deck@ == spec_deck_for_path(rel)
                && f.source == source,
            None => r matches Err(e) && e@ == "invalid relative path"@,
        },
{
    match crate::paths::normalize_relative_path(relative_path) {
        Some(rel) => Ok(TypstFile { deck: deck_for_path(rel.as_str()), path: rel, source }),
        None => Err("invalid relative path".to_string()),
    }
}

/// A directory entry that local scanning skips: hidden, or `node_modules`.
pub fn is_skipped_name(name: &str) -> (r: bool)
    ensures
        r == crate::paths::is_ignored_piece(name@),
{
    let c = chars_of(name);
    let nm = chars_of("node_modules");
    (c.len() > 0 && c[0] == '.') || chars_eq(&c, &nm)
}

/// The file name has the extension `typ` (text after its last dot, the name not starting
/// with that dot).
pub open spec fn spec_has_typ_extension(name: Seq<char>) -> bool {
    let k = last_dot(name);
    k > 0 && name.skip(k + 1) == "typ"@
}

/// Position of the last `.` in a name, or -1.
pub open spec fn last_dot(s: Seq<char>) -> int
    decreases s.len(),
{
    if s.len() == 0 {
        -1
    } else if s.last() == '.' {
        s.len() - 1
    } else {
        last_dot(s.drop_last())
    }
}

/// Whether a file name has the extension `typ`.
pub fn has_typ_extension(name: &str) -> (r: bool)
    ensures
        r == spec_has_typ_extension(name@),
{
    let c = chars_of(name);
    let mut k = c.len();
    assert(c@.take(k as int) =~= c@);
    while k > 0 && c[k - 1] != '.'
        invariant
            k <= c.len(),
            c@ == name@,
            last_dot(name@) == last_dot(c@.take(k as int)),
        decreases k,
    {
        assert(c@.take(k as int).drop_last() =~= c@.take(k - 1));
        k -= 1;
    }
    if k == 0 {
        assert(last_dot(c@.take(0)) == -1);
        return false;
    }
    assert(c@.take(k as int).last() == '.');
    let dot = k - 1;
    if dot == 0 {
        return false;
    }
    let ext = crate::text::copy_range(&c, dot + 1, c.len());
    let typ = chars_of("typ");
    assert(ext@ =~= name@.skip(dot + 1));
    chars_eq(&ext, &typ)
}

/// The project after scanning a local directory (labelled by the directory as displayed):
/// its message says whether any `.typ` file was found.
pub fn local_loaded_project(root_label: String, files: Vec<TypstFile>, saved: Option<SrsProgress>) -> (r: Project)
    requires
        crate::project::saved_wf(saved),
    ensures
        crate::project::project_built_from(
            r,
            root_label@,
            files@,
            Seq::empty(),
            if files@.len() == 0 {
                "No .typ files found."@
            } else {
                "Loaded local workspace."@
            },
            saved,
        ),
{
    let message = if files.len() == 0 {
        "No .typ files found.".to_string()
    } else {
        "Loaded local workspace.".to_string()
    };
    crate::project::build_project(root_label, files, message, saved)
}

} // verus!
