use vstd::prelude::*;
use crate::github::{
    blob_file, decimal, decimal_text, graphql_expression, graphql_query, is_typst_blob,
    spec_blob_file, spec_graphql_query, spec_is_typst_blob, GitTreeEntry,
};
use crate::model::TypstFile;
use crate::paths::{deck_for_path, spec_deck_for_path};
use crate::project::file_triples;
use crate::text::{chars_of, copy_range, push_str, string_of};

verus! {

broadcast use vstd::string::group_string_axioms;

/// The tree entries that are `.typ` files to load, in order.
pub open spec fn typst_blobs(tree: Seq<GitTreeEntry>) -> Seq<GitTreeEntry>
    decreases tree.len(),
{
    if tree.len() == 0 {
        Seq::empty()
    } else {
        let p = typst_blobs(tree.drop_last());
        if spec_is_typst_blob(tree.last().kind@, tree.last().path@) {
            p.push(tree.last())
        } else {
            p
        }
    }
}

/// Downloading the `.typ` blobs of a git tree one by one: the blobs to download, how
/// many are done, and the files made so far.
pub struct BlobFetch {
    targets: Vec<GitTreeEntry>,
    done: usize,
    files: Vec<TypstFile>,
}

impl BlobFetch {
    /// The blobs to download, in order.
    pub closed spec fn targets(&self) -> Seq<GitTreeEntry> {
        self.targets@
    }

    /// How many blobs were handled.
    pub closed spec fn done(&self) -> int {
        self.done as int
    }

    /// The files made so far, as (path, deck, source).
    pub closed spec fn files(&self) -> Seq<(Seq<char>, Seq<char>, Seq<char>)> {
        file_triples(self.files@)
    }

    pub closed spec fn wf(&self) -> bool {
        self.done <= self.targets@.len()
    }

    /// Starts with the `.typ` blobs of a tree listing.
    pub fn new(tree: &[GitTreeEntry]) -> (r: Self)
        ensures
            r.wf(),
            r.targets() == typst_blobs(tree@),
            r.done() == 0,
            r.files() == Seq::<(Seq<char>, Seq<char>, Seq<char>)>::empty(),
    {
        let mut targets: Vec<GitTreeEntry> = Vec::new();
        let mut i: usize = 0;
        assert(tree@.take(0) =~= Seq::<GitTreeEntry>::empty());
        while i < tree.len()
            invariant
                i <= tree.len(),
                targets@ == typst_blobs(tree@.take(i as int)),
            decreases tree.len() - i,
        {
            assert(tree@.take(i + 1).drop_last() =~= tree@.take(i as int));
            assert(tree@.take(i + 1).last() == tree@[i as int]);
            if is_typst_blob(&tree[i]) {
                targets.push(tree[i].duplicate());
                assert(targets@.last() == tree@[i as int]);
                assert(targets@ =~= typst_blobs(tree@.take(i + 1)));
            }
            i += 1;
        }
        assert(tree@.take(tree.len() as int) =~= tree@);
        let r = BlobFetch { targets, done: 0, files: Vec::new() };
        assert(r.files() =~= Seq::<(Seq<char>, Seq<char>, Seq<char>)>::empty());
        r
    }

    /// The blob to download next; none when all are handled.
    pub fn next_target(&self) -> (r: Option<GitTreeEntry>)
        requires
            self.wf(),
        ensures
            match r {
                Some(t) => self.done() < self.targets().len() && t == self.targets()[self.done()],
                None => self.done() == self.targets().len(),
            },
    {
        if self.done < self.targets.len() {
            Some(self.targets[self.done].duplicate())
        } else {
            None
        }
    }

    /// Handles the downloaded blob of the next target: a blob that is not base64 is
    /// skipped; otherwise its decoded text becomes a file; a blob that does not decode,
    /// or is not UTF-8, ends the download with that error.
    pub fn receive(&mut self, content: &str, encoding: &str) -> (r: Result<(), String>)
        requires
            old(self).wf(),
            old(self).done() < old(self).targets().len(),
        ensures
            final(self).wf(),
            final(self).targets() == old(self).targets(),
            match spec_blob_file(old(self).targets()[old(self).done()].path@, content@, encoding@) {
                Err(e) => r matches Err(m) && m@ == e,
                Ok(found) => r is Ok && final(self).done() == old(self).done() + 1
                    && final(self).files() == match found {
                        Some(f) => old(self).files().push(f),
                        None => old(self).files(),
                    },
            },
    {
        let n = self.targets.len();
        assert(self.done < n);
        let path = &self.targets[self.done].path;
        match blob_file(path.as_str(), content, encoding) {
            Err(e) => Err(e),
            Ok(found) => {
                let ghost before = file_triples(self.files@);
                match found {
                    Some(f) => {
                        self.files.push(f);
                        assert(file_triples(self.files@) =~= before.push(
                            (f.path@, f.deck@, f.source@),
                        ));
                    },
                    None => {},
                }
                self.done = self.done + 1;
                Ok(())
            },
        }
    }

    /// The files made, in tree order.
    pub fn into_files(self) -> (r: Vec<TypstFile>)
        ensures
            file_triples(r@) == self.files(),
    {
        self.files
    }
}

/// The paths of the `.typ` blobs of a tree listing, in order.
pub fn typst_blob_paths(tree: &[GitTreeEntry]) -> (r: Vec<String>)
    ensures
        crate::text::views_of(r@) == Seq::new(typst_blobs(tree@).len(), |i: int| typst_blobs(tree@)[i].path@),
{
    let mut out: Vec<String> = Vec::new();
    let mut i: usize = 0;
    assert(tree@.take(0) =~= Seq::<GitTreeEntry>::empty());
    assert(crate::text::views_of(out@) =~= Seq::<Seq<char>>::empty());
    while i < tree.len()
        invariant
            i <= tree.len(),
            crate::text::views_of(out@) == Seq::new(
                typst_blobs(tree@.take(i as int)).len(),
                |k: int| typst_blobs(tree@.take(i as int))[k].path@,
            ),
        decreases tree.len() - i,
    {
        let ghost before = typst_blobs(tree@.take(i as int));
        assert(tree@.take(i + 1).drop_last() =~= tree@.take(i as int));
        assert(tree@.take(i + 1).last() == tree@[i as int]);
        if is_typst_blob(&tree[i]) {
            let ghost prev = crate::text::views_of(out@);
            out.push(tree[i].path.clone());
            assert(crate::text::views_of(out@) =~= prev.push(tree@[i as int].path@));
        }
        i += 1;
        assert(crate::text::views_of(out@) =~= Seq::new(
            typst_blobs(tree@.take(i as int)).len(),
            |k: int| typst_blobs(tree@.take(i as int))[k].path@,
        ));
    }
    assert(tree@.take(tree.len() as int) =~= tree@);
    out
}

/// The `owner` and `name` of an `owner/name` repository: the text before and after its
/// first slash.
pub open spec fn spec_owner_name(repo: Seq<char>) -> Option<(Seq<char>, Seq<char>)> {
    let k = crate::graph::index_of(repo, '/');
    if k < 0 {
        None
    } else {
        Some((repo.take(k), repo.skip(k + 1)))
    }
}

/// Splits an `owner/name` repository at its first slash.
pub fn split_owner_name(repo: &str) -> (r: Option<(String, String)>)
    ensures
        match r {
            Some((o, n)) => spec_owner_name(repo@) == Some((o@, n@)),
            None => spec_owner_name(repo@) is None,
        },
{
    let c = chars_of(repo);
    proof {
        crate::graph::lemma_index_of(repo@, '/');
    }
    let mut i: usize = 0;
    while i < c.len()
        invariant
            i <= c.len(),
            c@ == repo@,
            forall|k: int| 0 <= k < i ==> c@[k] != '/',
        decreases c.len() - i,
    {
        if c[i] == '/' {
            proof {
                lemma_first_slash(repo@, i as int);
            }
            let owner = string_of(&copy_range(&c, 0, i));
            let name = string_of(&copy_range(&c, i + 1, c.len()));
            assert(owner@ =~= repo@.take(i as int));
            assert(name@ =~= repo@.skip(i + 1));
            return Some((owner, name));
        }
        i += 1;
    }
    proof {
        lemma_no_slash(repo@);
    }
    None
}

proof fn lemma_first_slash(s: Seq<char>, i: int)
    requires
        0 <= i < s.len(),
        s[i] == '/',
        forall|k: int| 0 <= k < i ==> s[k] != '/',
    ensures
        crate::graph::index_of(s, '/') == i,
    decreases s.len(),
{
    if i > 0 {
        assert forall|k: int| 0 <= k < i - 1 implies s.drop_first()[k] != '/' by {
            assert(s.drop_first()[k] == s[k + 1]);
        }
        lemma_first_slash(s.drop_first(), i - 1);
    }
}

proof fn lemma_no_slash(s: Seq<char>)
    requires
        forall|k: int| 0 <= k < s.len() ==> s[k] != '/',
    ensures
        crate::graph::index_of(s, '/') == -1,
    decreases s.len(),
{
    if s.len() > 0 {
        assert forall|k: int| 0 <= k < s.len() - 1 implies s.drop_first()[k] != '/' by {
            assert(s.drop_first()[k] == s[k + 1]);
        }
        lemma_no_slash(s.drop_first());
    }
}

/// How many files one GraphQL request reads.
pub open spec fn chunk_size() -> int {
    40
}

/// The reply to one GraphQL request, as far as loading reads it: the JSON text of its
/// `errors` when it has them, and, when it has `data.repository`, for each requested
/// file (`f0`, `f1`, ...) its `text` when that is a string.
pub struct GraphqlReply {
    pub errors: Option<String>,
    pub texts: Option<Vec<Option<String>>>,
}

pub open spec fn opt_text(t: Option<String>) -> Option<Seq<char>> {
    match t {
        Some(s) => Some(s@),
        None => None,
    }
}

pub open spec fn reply_texts(r: GraphqlReply) -> Option<Seq<Option<Seq<char>>>> {
    match r.texts {
        Some(v) => Some(Seq::new(v@.len(), |i: int| opt_text(v@[i]))),
        None => None,
    }
}

/// The text the reply holds for the file at position `i` of the request.
pub open spec fn reply_text(texts: Seq<Option<Seq<char>>>, i: int) -> Option<Seq<char>> {
    if 0 <= i < texts.len() {
        texts[i]
    } else {
        None
    }
}

/// The files of a request's paths, or the error for the first path without text.
pub open spec fn chunk_files(chunk: Seq<Seq<char>>, texts: Seq<Option<Seq<char>>>) -> Result<
    Seq<(Seq<char>, Seq<char>, Seq<char>)>,
    Seq<char>,
>
    decreases chunk.len(),
{
    if chunk.len() == 0 {
        Ok(Seq::empty())
    } else {
        match chunk_files(chunk.drop_last(), texts) {
            Err(e) => Err(e),
            Ok(prev) => {
                let i = chunk.len() - 1;
                match reply_text(texts, i) {
                    None => Err("Missing file contents for "@ + chunk[i]),
                    Some(t) => Ok(prev.push((chunk[i], spec_deck_for_path(chunk[i]), t))),
                }
            },
        }
    }
}

/// What a reply gives for the paths of its request: its errors, a missing repository, a
/// missing file text, or the files.
pub open spec fn spec_reply_files(
    chunk: Seq<Seq<char>>,
    errors: Option<Seq<char>>,
    texts: Option<Seq<Option<Seq<char>>>>,
) -> Result<Seq<(Seq<char>, Seq<char>, Seq<char>)>, Seq<char>> {
    match errors {
        Some(e) => Err(e),
        None => match texts {
            None => Err("GitHub GraphQL response missing repository."@),
            Some(t) => chunk_files(chunk, t),
        },
    }
}

/// The variable that names the file at position `i` of a request.
pub open spec fn expr_name(i: nat) -> Seq<char> {
    "expr"@ + decimal(i)
}

/// The variables of a request: the repository's owner and name, and the `ref:path`
/// expression of each file.
pub open spec fn chunk_variables(
    owner: Seq<char>,
    name: Seq<char>,
    git_ref: Seq<char>,
    chunk: Seq<Seq<char>>,
) -> Seq<(Seq<char>, Seq<char>)> {
    seq![("owner"@, owner), ("name"@, name)] + Seq::new(
        chunk.len(),
        |i: int| (expr_name(i as nat), git_ref + ":"@ + chunk[i]),
    )
}

/// One GraphQL request: the query text and its variables.
pub struct GraphqlRequest {
    pub query: String,
    pub variables: Vec<(String, String)>,
}

pub open spec fn pair_texts(v: Seq<(String, String)>) -> Seq<(Seq<char>, Seq<char>)> {
    Seq::new(v.len(), |i: int| (v[i].0@, v[i].1@))
}

/// The key of the file at position `i` in a reply's repository object.
pub fn graphql_field(i: usize) -> (r: String)
    ensures
        r@ == "f"@ + decimal(i as nat),
{
    let mut s = "f".to_string();
    let d = decimal_text(i);
    push_str(&mut s, d.as_str());
    s
}

/// Reading the texts of files with GraphQL, forty files per request: the paths, how many
/// were read, and the files made so far.
pub struct GraphqlFetch {
    paths: Vec<String>,
    next: usize,
    files: Vec<TypstFile>,
}

impl GraphqlFetch {
    /// The paths to read, in order.
    pub closed spec fn paths(&self) -> Seq<Seq<char>> {
        crate::text::views_of(self.paths@)
    }

    /// How many paths were read.
    pub closed spec fn next(&self) -> int {
        self.next as int
    }

    /// The files made so far, as (path, deck, source).
    pub closed spec fn files(&self) -> Seq<(Seq<char>, Seq<char>, Seq<char>)> {
        file_triples(self.files@)
    }

    pub closed spec fn wf(&self) -> bool {
        self.next <= self.paths@.len()
    }

    /// The paths of the next request: up to forty after those read.
    pub open spec fn chunk(&self) -> Seq<Seq<char>> {
        let n = self.paths().len();
        let end = if self.next() + chunk_size() <= n {
            self.next() + chunk_size()
        } else {
            n as int
        };
        self.paths().subrange(self.next(), end)
    }

    /// Starts reading the given paths.
    pub fn new(paths: Vec<String>) -> (r: Self)
        ensures
            r.wf(),
            r.paths() == crate::text::views_of(paths@),
            r.next() == 0,
            r.files() == Seq::<(Seq<char>, Seq<char>, Seq<char>)>::empty(),
    {
        let r = GraphqlFetch { paths, next: 0, files: Vec::new() };
        assert(r.files() =~= Seq::<(Seq<char>, Seq<char>, Seq<char>)>::empty());
        r
    }

    /// The next request, for the repository `owner/name` at `git_ref`; none when every
    /// path was read.
    pub fn next_request(&self, owner: &str, name: &str, git_ref: &str) -> (r: Option<GraphqlRequest>)
        requires
            self.wf(),
        ensures
            match r {
                None => self.next() == self.paths().len(),
                Some(q) => self.next() < self.paths().len() && q.query@ == spec_graphql_query(
                    self.chunk().len(),
                ) && pair_texts(q.variables@) == chunk_variables(owner@, name@, git_ref@, self.chunk()),
            },
    {
        let n = self.paths.len();
        if self.next >= n {
            return None;
        }
        let end = if n - self.next >= 40 {
            self.next + 40
        } else {
            n
        };
        let ghost chunk = self.chunk();
        assert(chunk.len() == end - self.next);
        let query = graphql_query(end - self.next);
        let mut variables: Vec<(String, String)> = Vec::new();
        variables.push(("owner".to_string(), owner.to_string()));
        variables.push(("name".to_string(), name.to_string()));
        let ghost head = seq![("owner"@, owner@), ("name"@, name@)];
        assert(pair_texts(variables@) =~= head);
        let mut i: usize = self.next;
        while i < end
            invariant
                self.next <= i <= end,
                end <= self.paths@.len(),
                chunk == self.paths().subrange(self.next as int, end as int),
                pair_texts(variables@) == head + Seq::new(
                    (i - self.next) as nat,
                    |k: int| (expr_name(k as nat), git_ref@ + ":"@ + chunk[k]),
                ),
            decreases end - i,
        {
            let k = i - self.next;
            let mut key = "expr".to_string();
            let d = decimal_text(k);
            push_str(&mut key, d.as_str());
            let value = graphql_expression(git_ref, self.paths[i].as_str());
            assert(chunk[k as int] == self.paths@[i as int]@);
            let ghost before = pair_texts(variables@);
            variables.push((key, value));
            assert(pair_texts(variables@) =~= before.push((expr_name(k as nat), git_ref@ + ":"@ + chunk[k as int])));
            i += 1;
            assert(pair_texts(variables@) =~= head + Seq::new(
                (i - self.next) as nat,
                |k: int| (expr_name(k as nat), git_ref@ + ":"@ + chunk[k]),
            ));
        }
        Some(GraphqlRequest { query, variables })
    }

    /// Handles the reply to the next request: its files are added, or the error of the
    /// reply ends the reading.
    pub fn receive(&mut self, reply: &GraphqlReply) -> (r: Result<(), String>)
        requires
            old(self).wf(),
            old(self).next() < old(self).paths().len(),
        ensures
            final(self).wf(),
            final(self).paths() == old(self).paths(),
            match spec_reply_files(old(self).chunk(), opt_text(reply.errors), reply_texts(*reply)) {
                Err(e) => r matches Err(m) && m@ == e,
                Ok(found) => r is Ok && final(self).next() == old(self).next() + old(self).chunk().len()
                    && final(self).files() == old(self).files() + found,
            },
    {
        match &reply.errors {
            Some(e) => return Err(e.clone()),
            None => {},
        }
        let texts = match &reply.texts {
            Some(t) => t,
            None => return Err("GitHub GraphQL response missing repository.".to_string()),
        };
        let ghost tv = Seq::new(texts@.len(), |i: int| opt_text(texts@[i]));
        assert(reply_texts(*reply) == Some(tv));
        let n = self.paths.len();
        let end = if n - self.next >= 40 {
            self.next + 40
        } else {
            n
        };
        let ghost chunk = self.chunk();
        let ghost start_files = file_triples(self.files@);
        let mut added: Vec<TypstFile> = Vec::new();
        let mut i: usize = self.next;
        assert(chunk.take(0) =~= Seq::<Seq<char>>::empty());
        assert(file_triples(added@) =~= Seq::<(Seq<char>, Seq<char>, Seq<char>)>::empty());
        while i < end
            invariant
                self.next <= i <= end,
                end <= self.paths@.len(),
                end - self.next == chunk.len(),
                chunk == self.paths().subrange(self.next as int, end as int),
                tv == Seq::new(texts@.len(), |i: int| opt_text(texts@[i])),
                chunk == old(self).chunk(),
                reply_texts(*reply) == Some(tv),
                reply.errors is None,
                chunk_files(chunk.take((i - self.next) as int), tv) == Ok::<
                    Seq<(Seq<char>, Seq<char>, Seq<char>)>,
                    Seq<char>,
                >(file_triples(added@)),
            decreases end - i,
        {
            let k = i - self.next;
            let ghost part = chunk.take(k + 1);
            assert(part.drop_last() =~= chunk.take(k as int));
            assert(part.last() == self.paths@[i as int]@);
            let path = &self.paths[i];
            let text = if k < texts.len() {
                match &texts[k] {
                    Some(t) => Some(t.clone()),
                    None => None,
                }
            } else {
                None
            };
            assert(opt_text(text) == reply_text(tv, k as int));
            match text {
                None => {
                    let mut msg = "Missing file contents for ".to_string();
                    push_str(&mut msg, path.as_str());
                    assert(chunk[k as int] == path@);
                    assert(msg@ == "Missing file contents for "@ + chunk[k as int]);
                    assert(chunk_files(part, tv) == Err::<Seq<(Seq<char>, Seq<char>, Seq<char>)>, Seq<char>>(msg@));
                    proof {
                        lemma_chunk_error_extends(chunk, tv, k as int + 1);
                    }
                    return Err(msg);
                },
                Some(t) => {
                    let f = TypstFile { deck: deck_for_path(path.as_str()), path: path.clone(), source: t };
                    let ghost before = file_triples(added@);
                    added.push(f);
                    assert(file_triples(added@) =~= before.push((f.path@, f.deck@, f.source@)));
                },
            }
            i += 1;
        }
        assert(chunk.take(chunk.len() as int) =~= chunk);
        let ghost found = file_triples(added@);
        self.files.append(&mut added);
        assert(file_triples(self.files@) =~= start_files + found);
        self.next = end;
        Ok(())
    }

    /// The files made, in path order.
    pub fn into_files(self) -> (r: Vec<TypstFile>)
        ensures
            file_triples(r@) == self.files(),
    {
        self.files
    }
}

proof fn lemma_chunk_error_extends(chunk: Seq<Seq<char>>, texts: Seq<Option<Seq<char>>>, i: int)
    requires
        0 <= i <= chunk.len(),
        chunk_files(chunk.take(i), texts) is Err,
    ensures
        chunk_files(chunk, texts) == chunk_files(chunk.take(i), texts),
    decreases chunk.len() - i,
{
    if i < chunk.len() {
        assert(chunk.take(i + 1).drop_last() =~= chunk.take(i));
        lemma_chunk_error_extends(chunk, texts, i + 1);
    } else {
        assert(chunk.take(i) =~= chunk);
    }
}

} // verus!
