use vstd::prelude::*;
use crate::model::TypstFile;
use crate::text::{chars_of, copy_range, string_of, trim, trim_bounds};

verus! {

broadcast use vstd::string::group_string_axioms;

/// What `str::to_lowercase` gives for a text (Unicode lowercase mapping).
pub uninterp spec fn lowercase(s: Seq<char>) -> Seq<char>;

/// `str::to_lowercase`: the text with every character mapped to lowercase by Unicode's
/// rules. The mapping itself is not written out here; the result is named `lowercase`.
#[verifier::external_body]
fn to_lowercase(s: &str) -> (r: String)
    ensures
        r@ == lowercase(s@),
{
    s.to_lowercase()
}

/// `needle` can be found in `path` character by character, left to right, each
/// character of `needle` matched at the first place after the previous one.
pub open spec fn fuzzy(path: Seq<char>, needle: Seq<char>) -> bool
    decreases path.len(),
{
    if needle.len() == 0 {
        true
    } else if path.len() == 0 {
        false
    } else if path[0] == needle[0] {
        fuzzy(path.drop_first(), needle.drop_first())
    } else {
        fuzzy(path.drop_first(), needle)
    }
}

/// `f` places each character of `needle` at a position of `path` holding it, at
/// strictly increasing positions.
pub open spec fn embeds(f: spec_fn(int) -> int, needle: Seq<char>, path: Seq<char>) -> bool {
    &&& forall|j: int| 0 <= j < needle.len() ==> 0 <= #[trigger] f(j) < path.len() && path[f(j)] == needle[j]
    &&& forall|i: int, j: int| 0 <= i < j < needle.len() ==> #[trigger] f(i) < #[trigger] f(j)
}

/// The characters of `needle` occur in `path` in order (not necessarily next to each
/// other).
pub open spec fn is_subsequence(needle: Seq<char>, path: Seq<char>) -> bool {
    exists|f: spec_fn(int) -> int| embeds(f, needle, path)
}

/// The fuzzy search matches exactly the paths that hold the characters of the query in
/// order.
pub proof fn lemma_fuzzy_is_subsequence(path: Seq<char>, needle: Seq<char>)
    ensures
        fuzzy(path, needle) <==> is_subsequence(needle, path),
    decreases path.len(),
{
    if needle.len() == 0 {
        let f = |j: int| 0int;
        assert(embeds(f, needle, path));
    } else if path.len() == 0 {
        if is_subsequence(needle, path) {
            let f = choose|f: spec_fn(int) -> int| embeds(f, needle, path);
            assert(0 <= f(0) < path.len());
        }
    } else {
        let pt = path.drop_first();
        if path[0] == needle[0] {
            let nt = needle.drop_first();
            lemma_fuzzy_is_subsequence(pt, nt);
            if fuzzy(path, needle) {
                let g = choose|g: spec_fn(int) -> int| embeds(g, nt, pt);
                let f = |j: int| if j == 0 { 0int } else { g(j - 1) + 1 };
                assert forall|j: int| 0 <= j < needle.len() implies 0 <= #[trigger] f(j) < path.len()
                    && path[f(j)] == needle[j] by {
                    if j > 0 {
                        assert(0 <= g(j - 1) < pt.len());
                        assert(pt[g(j - 1)] == nt[j - 1]);
                    }
                }
                assert forall|i: int, j: int| 0 <= i < j < needle.len() implies #[trigger] f(i) < #[trigger] f(j) by {
                    if i > 0 {
                        assert(g(i - 1) < g(j - 1));
                    } else {
                        assert(0 <= g(j - 1));
                    }
                }
                assert(embeds(f, needle, path));
            }
            if is_subsequence(needle, path) {
                let f = choose|f: spec_fn(int) -> int| embeds(f, needle, path);
                let g = |j: int| f(j + 1) - 1;
                assert forall|j: int| 0 <= j < nt.len() implies 0 <= #[trigger] g(j) < pt.len()
                    && pt[g(j)] == nt[j] by {
                    assert(f(0) < f(j + 1));
                    assert(0 <= f(0));
                    assert(0 <= f(j + 1) < path.len());
                    assert(path[f(j + 1)] == needle[j + 1]);
                }
                assert forall|i: int, j: int| 0 <= i < j < nt.len() implies #[trigger] g(i) < #[trigger] g(j) by {
                    assert(f(i + 1) < f(j + 1));
                }
                assert(embeds(g, nt, pt));
            }
        } else {
            lemma_fuzzy_is_subsequence(pt, needle);
            if fuzzy(path, needle) {
                let g = choose|g: spec_fn(int) -> int| embeds(g, needle, pt);
                let f = |j: int| g(j) + 1;
                assert forall|j: int| 0 <= j < needle.len() implies 0 <= #[trigger] f(j) < path.len()
                    && path[f(j)] == needle[j] by {
                    assert(0 <= g(j) < pt.len());
                    assert(pt[g(j)] == needle[j]);
                }
                assert forall|i: int, j: int| 0 <= i < j < needle.len() implies #[trigger] f(i) < #[trigger] f(j) by {
                    assert(g(i) < g(j));
                }
                assert(embeds(f, needle, path));
            }
            if is_subsequence(needle, path) {
                let f = choose|f: spec_fn(int) -> int| embeds(f, needle, path);
                let g = |j: int| f(j) - 1;
                assert(0 <= f(0) < path.len());
                assert(path[f(0)] == needle[0]);
                assert(f(0) != 0);
                assert forall|j: int| 0 <= j < needle.len() implies 0 <= #[trigger] g(j) < pt.len()
                    && pt[g(j)] == needle[j] by {
                    assert(0 <= f(j) < path.len());
                    assert(path[f(j)] == needle[j]);
                    if j > 0 {
                        assert(f(0) < f(j));
                    }
                }
                assert forall|i: int, j: int| 0 <= i < j < needle.len() implies #[trigger] g(i) < #[trigger] g(j) by {
                    assert(f(i) < f(j));
                }
                assert(embeds(g, needle, pt));
            }
        }
    }
}

/// Whether the characters of `needle` occur in `path` in order.
pub fn fuzzy_match(path: &str, needle: &str) -> (r: bool)
    ensures
        r == fuzzy(path@, needle@),
{
    let p = chars_of(path);
    let n = chars_of(needle);
    if n.len() == 0 {
        return true;
    }
    let mut k: usize = 0;
    let mut i: usize = 0;
    assert(p@.skip(0) =~= p@);
    assert(n@.skip(0) =~= n@);
    while i < p.len()
        invariant
            i <= p.len(),
            k < n.len(),
            p@ == path@,
            n@ == needle@,
            fuzzy(p@, n@) == fuzzy(p@.skip(i as int), n@.skip(k as int)),
        decreases p.len() - i,
    {
        let ghost ps = p@.skip(i as int);
        let ghost ns = n@.skip(k as int);
        assert(ps[0] == p@[i as int]);
        assert(ns[0] == n@[k as int]);
        assert(ps.drop_first() =~= p@.skip(i + 1));
        if p[i] == n[k] {
            assert(ns.drop_first() =~= n@.skip(k + 1));
            if k + 1 == n.len() {
                assert(n@.skip(k + 1).len() == 0);
                assert(fuzzy(p@.skip(i + 1), n@.skip(k + 1)));
                assert(fuzzy(ps, ns));
                return true;
            }
            k += 1;
        }
        i += 1;
    }
    false
}

/// A file shows up in a search for `needle` (an empty needle shows every file).
pub open spec fn file_matches(f: TypstFile, needle: Seq<char>) -> bool {
    needle.len() == 0 || fuzzy(lowercase(f.path@), needle)
}

/// The files that show up in a search, in their order.
pub open spec fn matching_files(files: Seq<TypstFile>, needle: Seq<char>) -> Seq<TypstFile>
    decreases files.len(),
{
    if files.len() == 0 {
        Seq::empty()
    } else {
        let m = matching_files(files.drop_last(), needle);
        if file_matches(files.last(), needle) {
            m.push(files.last())
        } else {
            m
        }
    }
}

/// At most the first `n` items.
pub open spec fn at_most<A>(s: Seq<A>, n: int) -> Seq<A> {
    if s.len() > n {
        s.take(n)
    } else {
        s
    }
}

/// The largest number of files a search lists.
pub open spec fn search_limit() -> int {
    50
}

/// The files a search for `query` lists: the query is trimmed and lowercased, each
/// lowercased path is matched against it, and the first fifty matches are kept.
pub open spec fn spec_filter_files(files: Seq<TypstFile>, query: Seq<char>) -> Seq<TypstFile> {
    at_most(matching_files(files, lowercase(trim(query))), search_limit())
}

/// A search lists, in order and up to fifty, exactly the files whose lowercased path holds
/// the characters of the trimmed, lowercased query in order (every file for an empty
/// query): matching ignores case in the path as much as in the query.
pub proof fn lemma_search_is_case_insensitive_subsequence(files: Seq<TypstFile>, query: Seq<char>)
    ensures
        spec_filter_files(files, query) == at_most(
            files.filter(
                |f: TypstFile|
                    lowercase(trim(query)).len() == 0 || is_subsequence(
                        lowercase(trim(query)),
                        lowercase(f.path@),
                    ),
            ),
            50,
        ),
{
    lemma_matching_files_filter(files, lowercase(trim(query)));
}

proof fn lemma_matching_files_filter(files: Seq<TypstFile>, needle: Seq<char>)
    ensures
        matching_files(files, needle) == files.filter(
            |f: TypstFile| needle.len() == 0 || is_subsequence(needle, lowercase(f.path@)),
        ),
    decreases files.len(),
{
    reveal(Seq::filter);
    let pred = |f: TypstFile| needle.len() == 0 || is_subsequence(needle, lowercase(f.path@));
    if files.len() > 0 {
        lemma_matching_files_filter(files.drop_last(), needle);
        lemma_fuzzy_is_subsequence(lowercase(files.last().path@), needle);
        assert(file_matches(files.last(), needle) == pred(files.last()));
    } else {
        assert(files.filter(pred) =~= Seq::<TypstFile>::empty());
    }
}

/// Searches the workspace files by fuzzy path match.
pub fn filter_files(files: &[TypstFile], query: &str) -> (r: Vec<TypstFile>)
    ensures
        r@ == spec_filter_files(files@, query@),
{
    let q = chars_of(query);
    let (a, b) = trim_bounds(&q);
    let trimmed = string_of(&copy_range(&q, a, b));
    let needle_string = to_lowercase(trimmed.as_str());
    let needle = chars_of(needle_string.as_str());
    let mut out: Vec<TypstFile> = Vec::new();
    let mut i: usize = 0;
    assert(files@.take(0) =~= Seq::<TypstFile>::empty());
    while i < files.len()
        invariant
            i <= files.len(),
            needle@ == lowercase(trim(query@)),
            needle_string@ == needle@,
            out@ == at_most(matching_files(files@.take(i as int), needle@), 50),
        decreases files.len() - i,
    {
        let ghost m = matching_files(files@.take(i as int), needle@);
        assert(files@.take(i + 1).drop_last() =~= files@.take(i as int));
        assert(files@.take(i + 1).last() == files@[i as int]);
        if out.len() < 50 {
            let f = &files[i];
            let keep = if needle.len() == 0 {
                true
            } else {
                let lower = to_lowercase(f.path.as_str());
                fuzzy_match(lower.as_str(), needle_string.as_str())
            };
            assert(keep == file_matches(files@[i as int], needle@));
            if keep {
                out.push(f.duplicate());
                assert(out@ =~= at_most(m.push(files@[i as int]), 50));
            } else {
                assert(matching_files(files@.take(i + 1), needle@) == m);
            }
        } else {
            assert(m.len() >= 50);
            assert(at_most(m.push(files@[i as int]), 50) =~= at_most(m, 50));
        }
        i += 1;
    }
    assert(files@.take(files.len() as int) =~= files@);
    out
}

} // verus!
