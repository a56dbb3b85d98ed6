use vstd::prelude::*;
use crate::model::{PreviewPackage, TypstFile, TypstPackageFile};
use crate::text::{chars_eq, chars_lt, chars_of, find_from, seq_lt};

verus! {

broadcast use vstd::string::group_string_axioms;

pub open spec fn is_ascii_alnum(c: char) -> bool {
    ('a' <= c <= 'z') || ('A' <= c <= 'Z') || ('0' <= c <= '9')
}

pub open spec fn is_ascii_digit(c: char) -> bool {
    '0' <= c <= '9'
}

/// Number of package-name characters (`[A-Za-z0-9-]`) from position `i` on.
pub open spec fn name_run(s: Seq<char>, i: int) -> int
    decreases s.len() - i,
{
    if i < 0 || i >= s.len() || !(is_ascii_alnum(s[i]) || s[i] == '-') {
        0
    } else {
        1 + name_run(s, i + 1)
    }
}

/// Number of digits from position `i` on.
pub open spec fn digit_run(s: Seq<char>, i: int) -> int
    decreases s.len() - i,
{
    if i < 0 || i >= s.len() || !is_ascii_digit(s[i]) {
        0
    } else {
        1 + digit_run(s, i + 1)
    }
}

pub open spec fn preview_prefix() -> Seq<char> {
    "@preview/"@
}

/// The match of `@preview/NAME:X.Y.Z` at position `i` (where `@preview/` stands), as
/// (name, version, end): NAME starts with a letter or digit and goes on with letters,
/// digits and dashes; X, Y and Z are runs of digits.
pub open spec fn package_match_at(s: Seq<char>, i: int) -> Option<(Seq<char>, Seq<char>, int)> {
    let p = i + 9;
    if !(p < s.len() && is_ascii_alnum(s[p])) {
        None
    } else {
        let ne = p + 1 + name_run(s, p + 1);
        if !(ne < s.len() && s[ne] == ':') {
            None
        } else {
            let a = ne + 1;
            let d1 = digit_run(s, a);
            if !(d1 >= 1 && a + d1 < s.len() && s[a + d1] == '.') {
                None
            } else {
                let b = a + d1 + 1;
                let d2 = digit_run(s, b);
                if !(d2 >= 1 && b + d2 < s.len() && s[b + d2] == '.') {
                    None
                } else {
                    let c = b + d2 + 1;
                    let d3 = digit_run(s, c);
                    if d3 < 1 {
                        None
                    } else {
                        Some((s.subrange(p, ne), s.subrange(a, c + d3), c + d3))
                    }
                }
            }
        }
    }
}

pub proof fn lemma_runs(s: Seq<char>, i: int)
    ensures
        0 <= name_run(s, i),
        0 <= digit_run(s, i),
        0 <= i ==> i + name_run(s, i) <= s.len() || name_run(s, i) == 0,
        0 <= i ==> i + digit_run(s, i) <= s.len() || digit_run(s, i) == 0,
    decreases s.len() - i,
{
    if 0 <= i < s.len() {
        lemma_runs(s, i + 1);
    }
}

pub proof fn lemma_match_end(s: Seq<char>, i: int)
    requires
        0 <= i,
    ensures
        package_match_at(s, i) matches Some((n, v, end)) ==> i < end <= s.len(),
{
    let p = i + 9;
    lemma_runs(s, p + 1);
    let ne = p + 1 + name_run(s, p + 1);
    lemma_runs(s, ne + 1);
    let a = ne + 1;
    let d1 = digit_run(s, a);
    lemma_runs(s, a + d1 + 1);
    let b = a + d1 + 1;
    let d2 = digit_run(s, b);
    lemma_runs(s, b + d2 + 1);
}

/// The (name, version) of each `@preview/NAME:X.Y.Z` import from position `i` on, as the
/// regex `@preview/([A-Za-z0-9][A-Za-z0-9-]*):([0-9]+\.[0-9]+\.[0-9]+)` finds them: leftmost
/// matches, each search going on after the previous match.
pub open spec fn package_imports_from(s: Seq<char>, i: int) -> Seq<(Seq<char>, Seq<char>)>
    decreases s.len() + 1 - i,
{
    if i < 0 || i > s.len() {
        Seq::empty()
    } else {
        match find_from(s, preview_prefix(), i) {
            None => Seq::empty(),
            Some(q) => {
                proof {
                    crate::text::lemma_find_from_range(s, preview_prefix(), i);
                    lemma_match_end(s, q);
                }
                match package_match_at(s, q) {
                    Some((name, version, end)) => seq![(name, version)] + package_imports_from(
                        s,
                        end,
                    ),
                    None => package_imports_from(s, q + 1),
                }
            }
        }
    }
}

pub open spec fn string_pairs(v: Seq<(String, String)>) -> Seq<(Seq<char>, Seq<char>)> {
    Seq::new(v.len(), |i: int| (v[i].0@, v[i].1@))
}

/// The two capture groups of each match of
/// `@preview/([A-Za-z0-9][A-Za-z0-9-]*):([0-9]+\.[0-9]+\.[0-9]+)` in `source`, in order
/// (`regex::Regex::new`, then `captures_iter`); the contract states the leftmost-first,
/// non-overlapping matches of that pattern as `package_imports_from` spells them out.
#[verifier::external_body]
fn preview_imports(source: &str) -> (r: Vec<(String, String)>)
    ensures
        string_pairs(r@) == package_imports_from(source@, 0),
{
    let re = regex::Regex::new(r#"@preview/([A-Za-z0-9][A-Za-z0-9-]*):([0-9]+\.[0-9]+\.[0-9]+)"#)
        .expect("valid regex");
    re.captures_iter(source).map(|cap| (cap[1].to_string(), cap[2].to_string())).collect()
}

/// A package as (namespace, name, version).
pub open spec fn package_key(p: PreviewPackage) -> (Seq<char>, Seq<char>, Seq<char>) {
    (p.namespace@, p.name@, p.version@)
}

pub open spec fn package_keys(v: Seq<PreviewPackage>) -> Seq<(Seq<char>, Seq<char>, Seq<char>)> {
    Seq::new(v.len(), |i: int| package_key(v[i]))
}

/// The `@preview` packages that some source imports.
pub open spec fn imported_packages(sources: Seq<Seq<char>>) -> Set<(Seq<char>, Seq<char>, Seq<char>)> {
    Set::new(
        |k: (Seq<char>, Seq<char>, Seq<char>)|
            k.0 == "preview"@ && exists|i: int, j: int|
                0 <= i < sources.len() && 0 <= j < package_imports_from(sources[i], 0).len()
                    && #[trigger] package_imports_from(sources[i], 0)[j] == (k.1, k.2),
    )
}

pub open spec fn no_duplicates<A>(s: Seq<A>) -> bool {
    forall|i: int, j: int| 0 <= i < j < s.len() ==> s[i] != s[j]
}

fn same_package(a: &PreviewPackage, b: &PreviewPackage) -> (r: bool)
    ensures
        r == (package_key(*a) == package_key(*b)),
{
    let x = chars_of(a.namespace.as_str());
    let y = chars_of(b.namespace.as_str());
    if !chars_eq(&x, &y) {
        return false;
    }
    let x = chars_of(a.name.as_str());
    let y = chars_of(b.name.as_str());
    if !chars_eq(&x, &y) {
        return false;
    }
    let x = chars_of(a.version.as_str());
    let y = chars_of(b.version.as_str());
    chars_eq(&x, &y)
}

fn contains_package(v: &Vec<PreviewPackage>, p: &PreviewPackage) -> (r: bool)
    ensures
        r == package_keys(v@).contains(package_key(*p)),
{
    let mut i: usize = 0;
    while i < v.len()
        invariant
            i <= v.len(),
            forall|k: int| 0 <= k < i ==> package_keys(v@)[k] != package_key(*p),
        decreases v.len() - i,
    {
        if same_package(&v[i], p) {
            assert(package_keys(v@)[i as int] == package_key(*p));
            return true;
        }
        i += 1;
    }
    false
}

/// Adds a package unless it is already listed.
fn add_package(v: &mut Vec<PreviewPackage>, p: PreviewPackage)
    requires
        no_duplicates(package_keys(old(v)@)),
    ensures
        no_duplicates(package_keys(final(v)@)),
        package_keys(final(v)@).to_set() == package_keys(old(v)@).to_set().insert(package_key(p)),
{
    if contains_package(v, &p) {
        assert(package_keys(v@).to_set() =~= package_keys(v@).to_set().insert(package_key(p)));
        return;
    }
    let ghost before = package_keys(v@);
    v.push(p);
    assert(package_keys(v@) =~= before.push(package_key(p)));
    assert(package_keys(v@).to_set() =~= before.to_set().insert(package_key(p))) by {
        assert forall|k| package_keys(v@).to_set().contains(k) implies before.to_set().insert(
            package_key(p),
        ).contains(k) by {
            let i = choose|i: int| 0 <= i < package_keys(v@).len() && package_keys(v@)[i] == k;
            if i < before.len() {
                assert(before[i] == k);
            }
        }
        assert forall|k| before.to_set().insert(package_key(p)).contains(k) implies package_keys(
            v@,
        ).to_set().contains(k) by {
            if k == package_key(p) {
                assert(package_keys(v@)[before.len() as int] == k);
            } else {
                let i = choose|i: int| 0 <= i < before.len() && before[i] == k;
                assert(package_keys(v@)[i] == k);
            }
        }
    }
}

/// Each package key sorts strictly before the next (so none occurs twice).
pub open spec fn keys_strictly_sorted(k: Seq<(Seq<char>, Seq<char>, Seq<char>)>) -> bool {
    forall|i: int, j: int| 0 <= i < j < k.len() ==> key_lt(#[trigger] k[i], #[trigger] k[j])
}

pub proof fn lemma_key_lt_total(a: (Seq<char>, Seq<char>, Seq<char>), b: (Seq<char>, Seq<char>, Seq<char>))
    ensures
        a != b ==> key_lt(a, b) || key_lt(b, a),
        !(key_lt(a, b) && key_lt(b, a)),
{
    crate::text::lemma_seq_lt_total(a.0, b.0);
    crate::text::lemma_seq_lt_total(a.1, b.1);
    crate::text::lemma_seq_lt_total(a.2, b.2);
    crate::text::lemma_seq_lt_irreflexive(a.0);
    crate::text::lemma_seq_lt_irreflexive(a.1);
    crate::text::lemma_seq_lt_irreflexive(a.2);
}

pub proof fn lemma_key_lt_transitive(
    a: (Seq<char>, Seq<char>, Seq<char>),
    b: (Seq<char>, Seq<char>, Seq<char>),
    c: (Seq<char>, Seq<char>, Seq<char>),
)
    requires
        key_lt(a, b),
        key_lt(b, c),
    ensures
        key_lt(a, c),
{
    if seq_lt(a.0, b.0) && seq_lt(b.0, c.0) {
        crate::text::lemma_seq_lt_transitive(a.0, b.0, c.0);
    }
    if seq_lt(a.1, b.1) && seq_lt(b.1, c.1) {
        crate::text::lemma_seq_lt_transitive(a.1, b.1, c.1);
    }
    if seq_lt(a.2, b.2) && seq_lt(b.2, c.2) {
        crate::text::lemma_seq_lt_transitive(a.2, b.2, c.2);
    }
}

/// Puts a package into a list sorted by package order, unless it is already there.
fn insert_package_sorted(v: &mut Vec<PreviewPackage>, p: PreviewPackage)
    requires
        keys_strictly_sorted(package_keys(old(v)@)),
    ensures
        keys_strictly_sorted(package_keys(final(v)@)),
        package_keys(final(v)@).to_set() == package_keys(old(v)@).to_set().insert(package_key(p)),
{
    let ghost old_keys = package_keys(v@);
    let ghost x = package_key(p);
    let mut i: usize = 0;
    let mut stop = false;
    while i < v.len() && !stop
        invariant
            i <= v.len(),
            v@ == old(v)@,
            old_keys == package_keys(v@),
            x == package_key(p),
            keys_strictly_sorted(old_keys),
            forall|k: int| 0 <= k < i ==> key_lt(#[trigger] old_keys[k], x),
            stop ==> i < v.len() && key_lt(x, old_keys[i as int]),
        decreases v.len() - i + (if stop { 0int } else { 1int }),
    {
        if !package_less(&v[i], &p) {
            if same_package(&v[i], &p) {
                assert(package_keys(v@).to_set() =~= old_keys.to_set().insert(x)) by {
                    assert(old_keys[i as int] == x);
                }
                return;
            }
            proof {
                lemma_key_lt_total(old_keys[i as int], x);
            }
            stop = true;
        } else {
            i += 1;
        }
    }
    let ghost pos = i as int;
    v.insert(i, p);
    let ghost nk = package_keys(v@);
    assert(nk =~= old_keys.insert(pos, x));
    assert forall|a: int, b: int| 0 <= a < b < nk.len() implies key_lt(#[trigger] nk[a], #[trigger] nk[b]) by {
        if b < pos {
            assert(nk[a] == old_keys[a] && nk[b] == old_keys[b]);
        } else if a > pos {
            assert(nk[a] == old_keys[a - 1] && nk[b] == old_keys[b - 1]);
        } else if a == pos {
            assert(nk[b] == old_keys[b - 1]);
            if b - 1 > pos {
                lemma_key_lt_transitive(x, old_keys[pos], old_keys[b - 1]);
            }
        } else if b == pos {
            assert(nk[a] == old_keys[a]);
        } else {
            assert(nk[a] == old_keys[a] && nk[b] == old_keys[b - 1]);
        }
    }
    assert(nk.to_set() =~= old_keys.to_set().insert(x)) by {
        assert forall|t| nk.to_set().contains(t) implies old_keys.to_set().insert(x).contains(t) by {
            let k = choose|k: int| 0 <= k < nk.len() && nk[k] == t;
            if k < pos {
                assert(old_keys[k] == t);
            } else if k > pos {
                assert(old_keys[k - 1] == t);
            }
        }
        assert forall|t| old_keys.to_set().insert(x).contains(t) implies nk.to_set().contains(t) by {
            if t == x {
                assert(nk[pos] == t);
            } else {
                let k = choose|k: int| 0 <= k < old_keys.len() && old_keys[k] == t;
                if k < pos {
                    assert(nk[k] == t);
                } else {
                    assert(nk[k + 1] == t);
                }
            }
        }
    }
}

pub proof fn lemma_sorted_no_duplicates(k: Seq<(Seq<char>, Seq<char>, Seq<char>)>)
    requires
        keys_strictly_sorted(k),
    ensures
        no_duplicates(k),
{
    assert forall|i: int, j: int| 0 <= i < j < k.len() implies k[i] != k[j] by {
        assert(key_lt(k[i], k[j]));
        lemma_key_lt_irreflexive(k[i]);
    }
}

/// The `@preview` packages the sources import, each once.
pub fn preview_packages_in_sources(sources: &[String]) -> (r: Vec<PreviewPackage>)
    ensures
        keys_strictly_sorted(package_keys(r@)),
        no_duplicates(package_keys(r@)),
        package_keys(r@).to_set() == imported_packages(crate::text::views_of(sources@)),
{
    let ghost srcs = crate::text::views_of(sources@);
    let mut out: Vec<PreviewPackage> = Vec::new();
    let mut i: usize = 0;
    assert(package_keys(out@).to_set() =~= Set::empty());
    while i < sources.len()
        invariant
            i <= sources.len(),
            srcs == crate::text::views_of(sources@),
            keys_strictly_sorted(package_keys(out@)),
            package_keys(out@).to_set() == Set::new(
                |k: (Seq<char>, Seq<char>, Seq<char>)|
                    k.0 == "preview"@ && exists|a: int, b: int|
                        0 <= a < i && 0 <= b < package_imports_from(srcs[a], 0).len()
                            && #[trigger] package_imports_from(srcs[a], 0)[b] == (k.1, k.2),
            ),
        decreases sources.len() - i,
    {
        let found = preview_imports(sources[i].as_str());
        let ghost before = package_keys(out@).to_set();
        let mut j: usize = 0;
        while j < found.len()
            invariant
                j <= found.len(),
                i < sources.len(),
                srcs == crate::text::views_of(sources@),
                string_pairs(found@) == package_imports_from(srcs[i as int], 0),
                keys_strictly_sorted(package_keys(out@)),
                package_keys(out@).to_set() == before.union(
                    Set::new(
                        |k: (Seq<char>, Seq<char>, Seq<char>)|
                            k.0 == "preview"@ && exists|b: int|
                                0 <= b < j && #[trigger] package_imports_from(srcs[i as int], 0)[b]
                                    == (k.1, k.2),
                    ),
                ),
            decreases found.len() - j,
        {
            let pkg = PreviewPackage {
                namespace: "preview".to_string(),
                name: found[j].0.clone(),
                version: found[j].1.clone(),
            };
            let ghost pk = package_key(pkg);
            assert(string_pairs(found@)[j as int] == (pk.1, pk.2));
            insert_package_sorted(&mut out, pkg);
            j += 1;
            assert(package_keys(out@).to_set() =~= before.union(
                Set::new(
                    |k: (Seq<char>, Seq<char>, Seq<char>)|
                        k.0 == "preview"@ && exists|b: int|
                            0 <= b < j && #[trigger] package_imports_from(srcs[i as int], 0)[b]
                                == (k.1, k.2),
                ),
            )) by {
                assert forall|k: (Seq<char>, Seq<char>, Seq<char>)|
                    k.0 == "preview"@ && (exists|b: int|
                        0 <= b < j && #[trigger] package_imports_from(srcs[i as int], 0)[b] == (
                            k.1,
                            k.2,
                        )) implies k == pk || (exists|b: int|
                        0 <= b < j - 1 && #[trigger] package_imports_from(srcs[i as int], 0)[b]
                            == (k.1, k.2)) by {
                    let b = choose|b: int|
                        0 <= b < j && #[trigger] package_imports_from(srcs[i as int], 0)[b] == (
                            k.1,
                            k.2,
                        );
                    if b == j - 1 {
                        assert(k == pk);
                    }
                }
            }
        }
        assert(package_keys(out@).to_set() =~= Set::new(
            |k: (Seq<char>, Seq<char>, Seq<char>)|
                k.0 == "preview"@ && exists|a: int, b: int|
                    0 <= a < i + 1 && 0 <= b < package_imports_from(srcs[a], 0).len()
                        && #[trigger] package_imports_from(srcs[a], 0)[b] == (k.1, k.2),
        )) by {
            assert forall|k: (Seq<char>, Seq<char>, Seq<char>)|
                k.0 == "preview"@ && (exists|a: int, b: int|
                    0 <= a < i + 1 && 0 <= b < package_imports_from(srcs[a], 0).len()
                        && #[trigger] package_imports_from(srcs[a], 0)[b] == (
                        k.1,
                        k.2,
                    )) implies package_keys(out@).to_set().contains(k) by {
                let (a, b) = choose|a: int, b: int|
                    0 <= a < i + 1 && 0 <= b < package_imports_from(srcs[a], 0).len()
                        && #[trigger] package_imports_from(srcs[a], 0)[b] == (k.1, k.2);
                if a == i {
                    assert(string_pairs(found@).len() == package_imports_from(srcs[a], 0).len());
                }
            }
        }
        i += 1;
    }
    assert(package_keys(out@).to_set() =~= imported_packages(srcs));
    proof {
        lemma_sorted_no_duplicates(package_keys(out@));
    }
    out
}

/// Package keys ordered as `PreviewPackage`'s derived order: namespace, then name, then
/// version.
pub open spec fn key_lt(a: (Seq<char>, Seq<char>, Seq<char>), b: (Seq<char>, Seq<char>, Seq<char>)) -> bool {
    seq_lt(a.0, b.0) || (a.0 == b.0 && (seq_lt(a.1, b.1) || (a.1 == b.1 && seq_lt(a.2, b.2))))
}

fn package_less(a: &PreviewPackage, b: &PreviewPackage) -> (r: bool)
    ensures
        r == key_lt(package_key(*a), package_key(*b)),
{
    let x = chars_of(a.namespace.as_str());
    let y = chars_of(b.namespace.as_str());
    if chars_lt(&x, &y) {
        return true;
    }
    if !chars_eq(&x, &y) {
        return false;
    }
    let x = chars_of(a.name.as_str());
    let y = chars_of(b.name.as_str());
    if chars_lt(&x, &y) {
        return true;
    }
    if !chars_eq(&x, &y) {
        return false;
    }
    let x = chars_of(a.version.as_str());
    let y = chars_of(b.version.as_str());
    chars_lt(&x, &y)
}

/// Fetching the `@preview` packages a workspace imports, and the packages those import:
/// the packages still to fetch, those already taken, and the files fetched so far.
pub struct PackageFetch {
    pending: Vec<PreviewPackage>,
    seen: Vec<PreviewPackage>,
    files: Vec<TypstPackageFile>,
    roots: Ghost<Set<(Seq<char>, Seq<char>, Seq<char>)>>,
}

impl PackageFetch {
    /// The packages still to fetch.
    pub closed spec fn pending_set(&self) -> Set<(Seq<char>, Seq<char>, Seq<char>)> {
        package_keys(self.pending@).to_set()
    }

    /// The packages taken for fetching.
    pub closed spec fn seen_set(&self) -> Set<(Seq<char>, Seq<char>, Seq<char>)> {
        package_keys(self.seen@).to_set()
    }

    /// The package files fetched so far, in order.
    pub closed spec fn fetched(&self) -> Seq<crate::archive::PackageFileView> {
        crate::archive::package_file_views(self.files@)
    }

    pub closed spec fn wf(&self) -> bool {
        &&& no_duplicates(package_keys(self.pending@))
        &&& no_duplicates(package_keys(self.seen@))
    }

    /// The packages the workspace files import.
    pub closed spec fn roots(&self) -> Set<(Seq<char>, Seq<char>, Seq<char>)> {
        self.roots@
    }

    /// Every package that the workspace or a fetched file imports is taken or still to
    /// fetch.
    pub open spec fn covered(&self) -> bool {
        self.roots().union(imported_packages(view_sources(self.fetched()))).subset_of(
            self.seen_set().union(self.pending_set()),
        )
    }

    /// Starts with the packages the workspace files import.
    pub fn new(files: &[TypstFile]) -> (r: Self)
        ensures
            r.wf(),
            r.covered(),
            r.roots() == imported_packages(file_sources(files@)),
            r.pending_set() == imported_packages(file_sources(files@)),
            r.seen_set() == Set::<(Seq<char>, Seq<char>, Seq<char>)>::empty(),
            r.fetched() == Seq::<crate::archive::PackageFileView>::empty(),
    {
        let mut sources: Vec<String> = Vec::new();
        let mut i: usize = 0;
        while i < files.len()
            invariant
                i <= files.len(),
                crate::text::views_of(sources@) == file_sources(files@.take(i as int)),
            decreases files.len() - i,
        {
            let ghost before = crate::text::views_of(sources@);
            sources.push(files[i].source.clone());
            assert(crate::text::views_of(sources@) =~= before.push(files@[i as int].source@));
            assert(file_sources(files@.take(i + 1)) =~= file_sources(files@.take(i as int)).push(
                files@[i as int].source@,
            ));
            i += 1;
        }
        assert(files@.take(files.len() as int) =~= files@);
        let pending = preview_packages_in_sources(sources.as_slice());
        let r = PackageFetch {
            pending,
            seen: Vec::new(),
            files: Vec::new(),
            roots: Ghost(imported_packages(file_sources(files@))),
        };
        assert(r.seen_set() =~= Set::empty());
        assert(r.fetched() =~= Seq::empty());
        proof {
            lemma_imports_empty();
            assert(view_sources(r.fetched()) =~= Seq::<Seq<char>>::empty());
        }
        r
    }

    /// Takes the first package still to fetch (in package order) that was not taken
    /// before; none when nothing is left.
    pub fn next_package(&mut self) -> (r: Option<PreviewPackage>)
        requires
            old(self).wf(),
            old(self).covered(),
        ensures
            final(self).wf(),
            final(self).covered(),
            final(self).roots() == old(self).roots(),
            final(self).fetched() == old(self).fetched(),
            match r {
                None => final(self).pending_set().subset_of(old(self).seen_set())
                    && final(self).seen_set() == old(self).seen_set(),
                Some(p) => {
                    &&& old(self).pending_set().contains(package_key(p))
                    &&& !old(self).seen_set().contains(package_key(p))
                    &&& forall|k| #[trigger] old(self).pending_set().contains(k) && key_lt(
                        k,
                        package_key(p),
                    ) ==> old(self).seen_set().contains(k)
                    &&& final(self).seen_set() == old(self).seen_set().insert(package_key(p))
                    &&& final(self).pending_set().subset_of(old(self).pending_set())
                    &&& !final(self).pending_set().contains(package_key(p))
                },
            },
    {
        loop
            invariant
                self.wf(),
                self.fetched() == old(self).fetched(),
                self.seen_set() == old(self).seen_set(),
                self.pending_set().subset_of(old(self).pending_set()),
                forall|k| #[trigger] old(self).pending_set().contains(k) && !self.pending_set().contains(k)
                    ==> old(self).seen_set().contains(k),
                self.roots == old(self).roots,
                old(self).covered(),
            decreases self.pending.len(),
        {
            if self.pending.len() == 0 {
                assert(self.pending_set() =~= Set::empty());
                assert(self.covered()) by {
                    assert forall|k| #[trigger] old(self).seen_set().union(old(self).pending_set()).contains(k)
                        implies self.seen_set().union(self.pending_set()).contains(k) by {
                    }
                }
                return None;
            }
            // the smallest pending package
            let mut best: usize = 0;
            let mut i: usize = 1;
            proof {
                lemma_key_lt_irreflexive(package_keys(self.pending@)[0]);
            }
            while i < self.pending.len()
                invariant
                    1 <= i <= self.pending.len(),
                    best < self.pending.len(),
                    forall|k: int| 0 <= k < i ==> !key_lt(
                        #[trigger] package_keys(self.pending@)[k],
                        package_keys(self.pending@)[best as int],
                    ),
                decreases self.pending.len() - i,
            {
                if package_less(&self.pending[i], &self.pending[best]) {
                    proof {
                        assert forall|k: int| 0 <= k < i + 1 implies !key_lt(
                            #[trigger] package_keys(self.pending@)[k],
                            package_keys(self.pending@)[i as int],
                        ) by {
                            if k < i {
                                lemma_key_lt_transitive_not(
                                    package_keys(self.pending@)[k],
                                    package_keys(self.pending@)[best as int],
                                    package_keys(self.pending@)[i as int],
                                );
                            } else {
                                lemma_key_lt_irreflexive(package_keys(self.pending@)[k]);
                            }
                        }
                    }
                    best = i;
                }
                i += 1;
            }
            let ghost before = package_keys(self.pending@);
            let pkg = self.pending.remove(best);
            proof {
                let after = package_keys(self.pending@);
                assert(after =~= before.remove(best as int));
                assert forall|a: int, b: int| 0 <= a < b < after.len() implies after[a] != after[b] by {
                    let oa = if a < best { a } else { a + 1 };
                    let ob = if b < best { b } else { b + 1 };
                    assert(after[a] == before[oa] && after[b] == before[ob]);
                }
                assert forall|k| after.to_set().contains(k) implies before.to_set().contains(k) by {
                    let j = choose|j: int| 0 <= j < after.len() && after[j] == k;
                    let oj = if j < best { j } else { j + 1 };
                    assert(before[oj] == k);
                }
                assert(!after.to_set().contains(package_key(pkg))) by {
                    if after.to_set().contains(package_key(pkg)) {
                        let j = choose|j: int| 0 <= j < after.len() && after[j] == package_key(pkg);
                        let oj = if j < best { j } else { j + 1 };
                        assert(before[oj] == before[best as int]);
                    }
                }
                assert forall|k| before.to_set().contains(k) && !after.to_set().contains(k) implies k
                    == package_key(pkg) by {
                    let j = choose|j: int| 0 <= j < before.len() && before[j] == k;
                    if j != best {
                        let nj = if j < best { j } else { j - 1 };
                        assert(after[nj] == k);
                    }
                }
                assert(before[best as int] == package_key(pkg));
            }
            if !contains_package(&self.seen, &pkg) {
                let ghost prev_seen = self.seen_set();
                proof {
                    assert forall|k| #[trigger] old(self).pending_set().contains(k) && key_lt(
                        k,
                        package_key(pkg),
                    ) implies old(self).seen_set().contains(k) by {
                        if before.to_set().contains(k) {
                            let j = choose|j: int| 0 <= j < before.len() && before[j] == k;
                            assert(!key_lt(before[j], before[best as int]));
                        }
                    }
                }
                add_package(&mut self.seen, pkg.duplicate());
                assert(self.covered()) by {
                    assert forall|k| #[trigger] old(self).seen_set().union(old(self).pending_set()).contains(k)
                        implies self.seen_set().union(self.pending_set()).contains(k) by {
                        if old(self).pending_set().contains(k) && !old(self).seen_set().contains(k) {
                            if !before.to_set().contains(k) {
                            } else if k != package_key(pkg) {
                                assert(package_keys(self.pending@).to_set().contains(k));
                            }
                        }
                    }
                }
                return Some(pkg);
            }
        }
    }

    /// Records the files of a fetched package: the packages they import that were not
    /// taken yet become pending, and the files are kept.
    pub fn complete(&mut self, files: Vec<TypstPackageFile>)
        requires
            old(self).wf(),
            old(self).covered(),
        ensures
            final(self).wf(),
            final(self).covered(),
            final(self).roots() == old(self).roots(),
            final(self).seen_set() == old(self).seen_set(),
            final(self).pending_set() == old(self).pending_set().union(
                imported_packages(package_sources(files@)).difference(old(self).seen_set()),
            ),
            final(self).fetched() == old(self).fetched() + crate::archive::package_file_views(
                files@,
            ),
    {
        let mut sources: Vec<String> = Vec::new();
        let mut i: usize = 0;
        while i < files.len()
            invariant
                i <= files.len(),
                crate::text::views_of(sources@) == package_sources(files@.take(i as int)),
            decreases files.len() - i,
        {
            assert(files@.take(i + 1).drop_last() =~= files@.take(i as int));
            assert(files@.take(i + 1).last() == files@[i as int]);
            match &files[i].source {
                Some(s) => {
                    sources.push(s.clone());
                    assert(crate::text::views_of(sources@) =~= package_sources(files@.take(i + 1)));
                },
                None => {},
            }
            i += 1;
        }
        assert(files@.take(files.len() as int) =~= files@);
        let found = preview_packages_in_sources(sources.as_slice());
        let ghost start = self.pending_set();
        let ghost seen = self.seen_set();
        let ghost found_set = package_keys(found@).to_set();
        let mut j: usize = 0;
        while j < found.len()
            invariant
                j <= found.len(),
                self.wf(),
                self.seen_set() == seen,
                self.fetched() == old(self).fetched(),
                self.roots == old(self).roots,
                found_set == package_keys(found@).to_set(),
                self.pending_set() == start.union(
                    package_keys(found@).take(j as int).to_set().difference(seen),
                ),
            decreases found.len() - j,
        {
            let ghost fk = package_keys(found@);
            assert(fk.take(j + 1) =~= fk.take(j as int).push(fk[j as int]));
            if !contains_package(&self.seen, &found[j]) {
                add_package(&mut self.pending, found[j].duplicate());
            }
            assert(self.pending_set() =~= start.union(
                package_keys(found@).take(j + 1).to_set().difference(seen),
            )) by {
                fk.take(j as int).lemma_push_to_set_commute(fk[j as int]);
            }
            j += 1;
        }
        assert(package_keys(found@).take(found.len() as int) =~= package_keys(found@));
        let ghost old_fetched = self.fetched();
        let mut files = files;
        let ghost added = crate::archive::package_file_views(files@);
        let ghost fseq = files@;
        let ghost fsrc = package_sources(files@);
        self.files.append(&mut files);
        assert(self.fetched() =~= old_fetched + added);
        proof {
            lemma_view_sources_of_files(fseq);
            lemma_view_sources_concat(old_fetched, added);
            lemma_imports_concat(view_sources(old_fetched), view_sources(added));
            assert(view_sources(added) == fsrc);
            let new_imports = imported_packages(view_sources(self.fetched()));
            assert forall|k| #[trigger] self.roots().union(new_imports).contains(k) implies self.seen_set().union(
                self.pending_set(),
            ).contains(k) by {
                if self.roots().contains(k) || imported_packages(view_sources(old_fetched)).contains(k) {
                    assert(old(self).roots().union(imported_packages(view_sources(old_fetched))).contains(k));
                } else {
                    assert(imported_packages(fsrc).contains(k));
                }
            }
        }
    }

    /// The package files fetched, in fetch order.
    pub fn into_files(self) -> (r: Vec<TypstPackageFile>)
        ensures
            crate::archive::package_file_views(r@) == self.fetched(),
    {
        self.files
    }
}

/// The way a package is written in an import: `@namespace/name:version`.
pub fn package_spec_text(package: &PreviewPackage) -> (r: String)
    ensures
        r@ == "@"@ + package.namespace@ + "/"@ + package.name@ + ":"@ + package.version@,
{
    let mut out = "@".to_string();
    crate::text::push_str(&mut out, package.namespace.as_str());
    crate::text::push_str(&mut out, "/");
    crate::text::push_str(&mut out, package.name.as_str());
    crate::text::push_str(&mut out, ":");
    crate::text::push_str(&mut out, package.version.as_str());
    out
}

/// The texts of package files (as views) that are UTF-8, in order.
pub open spec fn view_sources(v: Seq<crate::archive::PackageFileView>) -> Seq<Seq<char>>
    decreases v.len(),
{
    if v.len() == 0 {
        Seq::empty()
    } else {
        let p = view_sources(v.drop_last());
        match v.last().5 {
            Some(s) => p.push(s),
            None => p,
        }
    }
}

proof fn lemma_imports_empty()
    ensures
        imported_packages(Seq::<Seq<char>>::empty()) == Set::<(Seq<char>, Seq<char>, Seq<char>)>::empty(),
{
    assert(imported_packages(Seq::<Seq<char>>::empty()) =~= Set::<(Seq<char>, Seq<char>, Seq<char>)>::empty());
}

proof fn lemma_view_sources_of_files(files: Seq<TypstPackageFile>)
    ensures
        view_sources(crate::archive::package_file_views(files)) == package_sources(files),
    decreases files.len(),
{
    if files.len() > 0 {
        lemma_view_sources_of_files(files.drop_last());
        assert(crate::archive::package_file_views(files).drop_last() =~= crate::archive::package_file_views(
            files.drop_last(),
        ));
    } else {
        assert(crate::archive::package_file_views(files) =~= Seq::<crate::archive::PackageFileView>::empty());
    }
}

proof fn lemma_view_sources_concat(a: Seq<crate::archive::PackageFileView>, b: Seq<crate::archive::PackageFileView>)
    ensures
        view_sources(a + b) == view_sources(a) + view_sources(b),
    decreases b.len(),
{
    if b.len() == 0 {
        assert(a + b =~= a);
        assert(view_sources(a) + view_sources(b) =~= view_sources(a));
    } else {
        lemma_view_sources_concat(a, b.drop_last());
        assert((a + b).drop_last() =~= a + b.drop_last());
        assert((a + b).last() == b.last());
        match b.last().5 {
            Some(s) => {
                assert(view_sources(a) + view_sources(b) =~= (view_sources(a) + view_sources(b.drop_last())).push(s));
            },
            None => {},
        }
    }
}

/// A version written `X.Y.Z`: three non-empty runs of ASCII digits joined by dots.
pub open spec fn is_version_text(v: Seq<char>) -> bool {
    exists|x: int, y: int|
        #![trigger v[x], v[y]]
        0 < x && x + 1 < y && y + 1 < v.len() && v[x] == '.' && v[y] == '.' && forall|k: int|
            0 <= k < v.len() && k != x && k != y ==> is_ascii_digit(#[trigger] v[k])
}

proof fn lemma_digit_run_digits(s: Seq<char>, i: int)
    ensures
        forall|k: int| i <= k < i + digit_run(s, i) ==> is_ascii_digit(#[trigger] s[k]),
    decreases s.len() - i,
{
    if 0 <= i < s.len() && is_ascii_digit(s[i]) {
        lemma_digit_run_digits(s, i + 1);
    }
}

proof fn lemma_match_version(s: Seq<char>, q: int)
    requires
        0 <= q,
    ensures
        package_match_at(s, q) matches Some((n, v, e)) ==> is_version_text(v),
{
    if let Some((n, v, e)) = package_match_at(s, q) {
        let p = q + 9;
        let ne = p + 1 + name_run(s, p + 1);
        lemma_runs(s, p + 1);
        let a = ne + 1;
        let d1 = digit_run(s, a);
        let b = a + d1 + 1;
        let d2 = digit_run(s, b);
        let c = b + d2 + 1;
        let d3 = digit_run(s, c);
        lemma_runs(s, a);
        lemma_runs(s, b);
        lemma_runs(s, c);
        lemma_digit_run_digits(s, a);
        lemma_digit_run_digits(s, b);
        lemma_digit_run_digits(s, c);
        assert(v == s.subrange(a, c + d3));
        let x = d1;
        let y = d1 + 1 + d2;
        assert(v[x] == s[a + d1]);
        assert(v[y] == s[b + d2]);
        assert forall|k: int| 0 <= k < v.len() && k != x && k != y implies is_ascii_digit(#[trigger] v[k]) by {
            assert(v[k] == s[a + k]);
        }
        assert(is_version_text(v));
    }
}

proof fn lemma_imports_from_versions(s: Seq<char>, i: int)
    ensures
        forall|j: int| 0 <= j < package_imports_from(s, i).len() ==> is_version_text(
            (#[trigger] package_imports_from(s, i)[j]).1,
        ),
    decreases s.len() + 1 - i,
{
    if !(i < 0 || i > s.len()) {
        crate::text::lemma_find_from_range(s, preview_prefix(), i);
        if let Some(q) = find_from(s, preview_prefix(), i) {
            lemma_match_end(s, q);
            lemma_match_version(s, q);
            match package_match_at(s, q) {
                Some((name, version, end)) => {
                    lemma_imports_from_versions(s, end);
                    let r = package_imports_from(s, i);
                    assert(r == seq![(name, version)] + package_imports_from(s, end));
                    assert forall|j: int| 0 <= j < r.len() implies is_version_text((#[trigger] r[j]).1) by {
                        if j == 0 {
                            assert(r[0] == (name, version));
                        } else {
                            assert(r[j] == package_imports_from(s, end)[j - 1]);
                        }
                    }
                },
                None => {
                    lemma_imports_from_versions(s, q + 1);
                    assert(package_imports_from(s, i) == package_imports_from(s, q + 1));
                },
            }
        }
    }
}

/// The packages imported by two lists of sources joined are those imported by either
/// list; each of them is in the `preview` namespace and has a version `X.Y.Z` of digits.
pub proof fn lemma_imports_concat(a: Seq<Seq<char>>, b: Seq<Seq<char>>)
    ensures
        imported_packages(a + b) == imported_packages(a).union(imported_packages(b)),
        forall|k: (Seq<char>, Seq<char>, Seq<char>)| #[trigger] imported_packages(a + b).contains(k)
            ==> k.0 == "preview"@ && is_version_text(k.2),
{
    let ab = a + b;
    assert forall|k: (Seq<char>, Seq<char>, Seq<char>)| #[trigger] imported_packages(ab).contains(k)
        implies k.0 == "preview"@ && is_version_text(k.2) by {
        let (i, j) = choose|i: int, j: int|
            0 <= i < ab.len() && 0 <= j < package_imports_from(ab[i], 0).len()
                && #[trigger] package_imports_from(ab[i], 0)[j] == (k.1, k.2);
        lemma_imports_from_versions(ab[i], 0);
        assert(is_version_text(package_imports_from(ab[i], 0)[j].1));
    }
    assert forall|k: (Seq<char>, Seq<char>, Seq<char>)| #[trigger] imported_packages(ab).contains(k)
        implies imported_packages(a).union(imported_packages(b)).contains(k) by {
        let (i, j) = choose|i: int, j: int|
            0 <= i < ab.len() && 0 <= j < package_imports_from(ab[i], 0).len()
                && #[trigger] package_imports_from(ab[i], 0)[j] == (k.1, k.2);
        if i < a.len() {
            assert(ab[i] == a[i]);
        } else {
            assert(ab[i] == b[i - a.len()]);
            assert(package_imports_from(b[i - a.len()], 0)[j] == (k.1, k.2));
        }
    }
    assert forall|k: (Seq<char>, Seq<char>, Seq<char>)| #[trigger] imported_packages(a).union(imported_packages(b)).contains(k)
        implies imported_packages(ab).contains(k) by {
        if imported_packages(a).contains(k) {
            let (i, j) = choose|i: int, j: int|
                0 <= i < a.len() && 0 <= j < package_imports_from(a[i], 0).len()
                    && #[trigger] package_imports_from(a[i], 0)[j] == (k.1, k.2);
            assert(ab[i] == a[i]);
        } else {
            let (i, j) = choose|i: int, j: int|
                0 <= i < b.len() && 0 <= j < package_imports_from(b[i], 0).len()
                    && #[trigger] package_imports_from(b[i], 0)[j] == (k.1, k.2);
            assert(ab[i + a.len()] == b[i]);
        }
    }
    assert(imported_packages(ab) =~= imported_packages(a).union(imported_packages(b)));
}

/// When no package is left to fetch, every package that the workspace or a fetched
/// package file imports has been taken for fetching: the fetch closes over transitive
/// imports.
pub proof fn lemma_fetch_closes_over_imports(f: PackageFetch)
    requires
        f.covered(),
        f.pending_set().subset_of(f.seen_set()),
    ensures
        f.roots().subset_of(f.seen_set()),
        imported_packages(view_sources(f.fetched())).subset_of(f.seen_set()),
{
    assert forall|k| #[trigger] f.roots().contains(k) implies f.seen_set().contains(k) by {
        assert(f.roots().union(imported_packages(view_sources(f.fetched()))).contains(k));
    }
    assert forall|k| #[trigger] imported_packages(view_sources(f.fetched())).contains(k) implies f.seen_set().contains(k) by {
        assert(f.roots().union(imported_packages(view_sources(f.fetched()))).contains(k));
    }
}

/// The package URL of the Typst registry for a `@preview` package.
pub fn package_url(package: &PreviewPackage) -> (r: String)
    ensures
        r@ == "https://packages.typst.org/preview/"@ + package.name@ + "-"@ + package.version@
            + ".tar.gz"@,
{
    let mut out = "https://packages.typst.org/preview/".to_string();
    crate::text::push_str(&mut out, package.name.as_str());
    crate::text::push_str(&mut out, "-");
    crate::text::push_str(&mut out, package.version.as_str());
    crate::text::push_str(&mut out, ".tar.gz");
    out
}

/// The sources of workspace files.
pub open spec fn file_sources(files: Seq<TypstFile>) -> Seq<Seq<char>> {
    Seq::new(files.len(), |i: int| files[i].source@)
}

/// The texts of the package files that are UTF-8, in order.
pub open spec fn package_sources(files: Seq<TypstPackageFile>) -> Seq<Seq<char>>
    decreases files.len(),
{
    if files.len() == 0 {
        Seq::empty()
    } else {
        let prev = package_sources(files.drop_last());
        match files.last().source {
            Some(s) => prev.push(s@),
            None => prev,
        }
    }
}

pub proof fn lemma_key_lt_irreflexive(a: (Seq<char>, Seq<char>, Seq<char>))
    ensures
        !key_lt(a, a),
{
    crate::text::lemma_seq_lt_irreflexive(a.0);
    crate::text::lemma_seq_lt_irreflexive(a.1);
    crate::text::lemma_seq_lt_irreflexive(a.2);
}

/// When `a` does not sort before `b` and `c` sorts before `b`, `a` does not sort
/// before `c`.
pub proof fn lemma_key_lt_transitive_not(
    a: (Seq<char>, Seq<char>, Seq<char>),
    b: (Seq<char>, Seq<char>, Seq<char>),
    c: (Seq<char>, Seq<char>, Seq<char>),
)
    requires
        !key_lt(a, b),
        key_lt(c, b),
    ensures
        !key_lt(a, c),
{
    crate::text::lemma_seq_lt_total(a.0, b.0);
    crate::text::lemma_seq_lt_total(b.0, c.0);
    crate::text::lemma_seq_lt_total(a.0, c.0);
    crate::text::lemma_seq_lt_total(a.1, b.1);
    crate::text::lemma_seq_lt_total(b.1, c.1);
    crate::text::lemma_seq_lt_total(a.1, c.1);
    crate::text::lemma_seq_lt_total(a.2, b.2);
    crate::text::lemma_seq_lt_total(b.2, c.2);
    crate::text::lemma_seq_lt_total(a.2, c.2);
    if key_lt(a, c) {
        if seq_lt(a.0, c.0) && seq_lt(c.0, b.0) {
            crate::text::lemma_seq_lt_transitive(a.0, c.0, b.0);
        }
        if seq_lt(a.1, c.1) && seq_lt(c.1, b.1) {
            crate::text::lemma_seq_lt_transitive(a.1, c.1, b.1);
        }
        if seq_lt(a.2, c.2) && seq_lt(c.2, b.2) {
            crate::text::lemma_seq_lt_transitive(a.2, c.2, b.2);
        }
    }
}

} // verus!
