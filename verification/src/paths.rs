use vstd::prelude::*;
use crate::text::{
    chars_of, has_prefix, join_chars, join_with, seqs_of, split_chars, split_on, starts_with,
    string_of,
};

verus! {

broadcast use vstd::string::group_string_axioms;

/// The one-character component `.`.
pub open spec fn dot() -> Seq<char> {
    seq!['.']
}

/// The parent component `..`.
pub open spec fn dotdot() -> Seq<char> {
    seq!['.', '.']
}

/// The deck name given to files at the workspace root.
pub open spec fn root_deck() -> Seq<char> {
    seq!['r', 'o', 'o', 't']
}

/// A piece between slashes that a path keeps as a component (not empty, not `.`).
pub open spec fn is_component(p: Seq<char>) -> bool {
    p.len() > 0 && p != dot()
}

/// The path starts at the file system root.
pub open spec fn is_absolute(s: Seq<char>) -> bool {
    s.len() > 0 && s[0] == '/'
}

/// Walks slash-separated pieces left to right: empty pieces and `.` are skipped,
/// `..` drops the last kept part (no result when there is none), others are kept.
pub open spec fn resolve_parts(segs: Seq<Seq<char>>) -> Option<Seq<Seq<char>>>
    decreases segs.len(),
{
    if segs.len() == 0 {
        Some(Seq::<Seq<char>>::empty())
    } else {
        match resolve_parts(segs.drop_last()) {
            None => None,
            Some(stack) => {
                let p = segs.last();
                if !is_component(p) {
                    Some(stack)
                } else if p == dotdot() {
                    if stack.len() == 0 {
                        None
                    } else {
                        Some(stack.drop_last())
                    }
                } else {
                    Some(stack.push(p))
                }
            },
        }
    }
}

/// A relative path with `.` and `..` resolved, slash-joined; none for an absolute path
/// or one that climbs above its start.
pub open spec fn spec_normalize(s: Seq<char>) -> Option<Seq<char>> {
    if is_absolute(s) {
        None
    } else {
        match resolve_parts(split_on(s, '/')) {
            Some(parts) => Some(join_with(parts, '/')),
            None => None,
        }
    }
}

/// Index of the last piece that is a component, or -1.
pub open spec fn last_component(segs: Seq<Seq<char>>) -> int
    decreases segs.len(),
{
    if segs.len() == 0 {
        -1
    } else if is_component(segs.last()) {
        segs.len() - 1
    } else {
        last_component(segs.drop_last())
    }
}

/// The deck of a file: its normalized parent directory, or `root` when that is empty
/// or cannot be normalized.
pub open spec fn spec_deck_for_path(s: Seq<char>) -> Seq<char> {
    let segs = split_on(s, '/');
    let k = last_component(segs);
    if is_absolute(s) || k < 0 {
        root_deck()
    } else {
        match resolve_parts(segs.take(k)) {
            Some(parts) => if join_with(parts, '/').len() > 0 {
                join_with(parts, '/')
            } else {
                root_deck()
            },
            None => root_deck(),
        }
    }
}

/// The last component of a path, or the whole path when it has no named last component.
pub open spec fn spec_file_name(s: Seq<char>) -> Seq<char> {
    let segs = split_on(s, '/');
    let k = last_component(segs);
    if k < 0 || segs[k] == dotdot() {
        s
    } else {
        segs[k]
    }
}

pub open spec fn http_prefix() -> Seq<char> {
    seq!['h', 't', 't', 'p', ':', '/', '/']
}

pub open spec fn https_prefix() -> Seq<char> {
    seq!['h', 't', 't', 'p', 's', ':', '/', '/']
}

/// A link written in the file at `src`, resolved against that file's directory.
pub open spec fn spec_normalize_link(src: Seq<char>, link: Seq<char>) -> Option<Seq<char>> {
    if starts_with(link, http_prefix()) || starts_with(link, https_prefix()) {
        None
    } else if is_absolute(link) {
        None
    } else {
        let segs = split_on(src, '/');
        let k = last_component(segs);
        if is_absolute(src) && k >= 0 {
            None
        } else {
            let base = if k < 0 {
                Seq::<Seq<char>>::empty()
            } else {
                segs.take(k)
            };
            match resolve_parts(base + split_on(link, '/')) {
                Some(parts) => Some(join_with(parts, '/')),
                None => None,
            }
        }
    }
}

pub open spec fn opt_view(r: Option<String>) -> Option<Seq<char>> {
    match r {
        Some(s) => Some(s@),
        None => None,
    }
}

pub open spec fn opt_seqs(r: Option<Vec<Vec<char>>>) -> Option<Seq<Seq<char>>> {
    match r {
        Some(v) => Some(seqs_of(v@)),
        None => None,
    }
}

pub proof fn lemma_resolve_none_extends(segs: Seq<Seq<char>>, i: int)
    requires
        0 <= i <= segs.len(),
        resolve_parts(segs.take(i)) is None,
    ensures
        resolve_parts(segs) is None,
    decreases segs.len(),
{
    if i < segs.len() {
        assert(segs.drop_last().take(i) =~= segs.take(i));
        lemma_resolve_none_extends(segs.drop_last(), i);
    } else {
        assert(segs.take(i) =~= segs);
    }
}

pub proof fn lemma_last_component_range(segs: Seq<Seq<char>>)
    ensures
        -1 <= last_component(segs) < segs.len(),
        last_component(segs) >= 0 ==> is_component(segs[last_component(segs)]),
    decreases segs.len(),
{
    if segs.len() > 0 && !is_component(segs.last()) {
        lemma_last_component_range(segs.drop_last());
    }
}

fn is_dot(p: &Vec<char>) -> (r: bool)
    ensures
        r == (p@ == dot()),
{
    if p.len() == 1 && p[0] == '.' {
        assert(p@ =~= dot());
        true
    } else {
        false
    }
}

fn is_dotdot(p: &Vec<char>) -> (r: bool)
    ensures
        r == (p@ == dotdot()),
{
    if p.len() == 2 && p[0] == '.' && p[1] == '.' {
        assert(p@ =~= dotdot());
        true
    } else {
        false
    }
}

fn is_component_exec(p: &Vec<char>) -> (r: bool)
    ensures
        r == is_component(p@),
{
    p.len() > 0 && !is_dot(p)
}

/// Resolves `.`, `..` and empty pieces among the first `end` pieces.
pub fn resolve_prefix(segs: &Vec<Vec<char>>, end: usize) -> (r: Option<Vec<Vec<char>>>)
    requires
        end <= segs.len(),
    ensures
        opt_seqs(r) == resolve_parts(seqs_of(segs@).take(end as int)),
{
    let ghost all = seqs_of(segs@).take(end as int);
    let mut stack: Vec<Vec<char>> = Vec::new();
    let mut i: usize = 0;
    assert(all.take(0) =~= Seq::<Seq<char>>::empty());
    assert(seqs_of(stack@) =~= Seq::<Seq<char>>::empty());
    while i < end
        invariant
            i <= end,
            end <= segs.len(),
            all == seqs_of(segs@).take(end as int),
            resolve_parts(all.take(i as int)) == Some(seqs_of(stack@)),
        decreases end - i,
    {
        let ghost next = all.take(i as int + 1);
        assert(next.drop_last() =~= all.take(i as int));
        assert(next.last() == segs@[i as int]@);
        let p = &segs[i];
        if !is_component_exec(p) {
        } else if is_dotdot(p) {
            if stack.len() == 0 {
                proof {
                    lemma_resolve_none_extends(all, i as int + 1);
                }
                return None;
            }
            let ghost before = seqs_of(stack@);
            stack.pop();
            assert(seqs_of(stack@) =~= before.drop_last());
        } else {
            let ghost before = seqs_of(stack@);
            let q = p.clone();
            assert(q@ =~= p@);
            stack.push(q);
            assert(seqs_of(stack@) =~= before.push(p@));
        }
        i += 1;
    }
    assert(all.take(end as int) =~= all);
    Some(stack)
}

/// Index of the last piece that is a component.
fn last_component_index(segs: &Vec<Vec<char>>) -> (r: Option<usize>)
    ensures
        match r {
            Some(k) => last_component(seqs_of(segs@)) == k as int,
            None => last_component(seqs_of(segs@)) == -1,
        },
{
    let ghost all = seqs_of(segs@);
    let mut i: usize = segs.len();
    assert(all.take(i as int) =~= all);
    while i > 0
        invariant
            i <= segs.len(),
            all == seqs_of(segs@),
            last_component(all) == last_component(all.take(i as int)),
        decreases i,
    {
        let ghost cur = all.take(i as int);
        assert(cur.last() == segs@[i - 1]@);
        if is_component_exec(&segs[i - 1]) {
            return Some(i - 1);
        }
        assert(cur.drop_last() =~= all.take(i - 1));
        i -= 1;
    }
    None
}

fn root_string() -> (s: String)
    ensures
        s@ == root_deck(),
{
    let s = "root".to_string();
    proof {
        reveal_strlit("root");
    }
    assert(s@ =~= root_deck());
    s
}

/// Resolves `.` and `..` in a relative, slash-separated path; none for an absolute
/// path or one that climbs above its start.
pub fn normalize_relative_path(path: &str) -> (r: Option<String>)
    ensures
        opt_view(r) == spec_normalize(path@),
{
    let chars = chars_of(path);
    if chars.len() > 0 && chars[0] == '/' {
        return None;
    }
    let segs = split_chars(&chars, '/');
    match resolve_prefix(&segs, segs.len()) {
        Some(parts) => {
            assert(seqs_of(segs@).take(segs.len() as int) =~= seqs_of(segs@));
            let joined = join_chars(&parts, '/');
            Some(string_of(&joined))
        },
        None => {
            assert(seqs_of(segs@).take(segs.len() as int) =~= seqs_of(segs@));
            None
        },
    }
}

/// The deck of a file: its normalized parent directory, or `root`.
pub fn deck_for_path(path: &str) -> (r: String)
    ensures
        r@ == spec_deck_for_path(path@),
{
    let chars = chars_of(path);
    let segs = split_chars(&chars, '/');
    proof {
        lemma_last_component_range(seqs_of(segs@));
    }
    let k = match last_component_index(&segs) {
        Some(k) => k,
        None => return root_string(),
    };
    if chars.len() > 0 && chars[0] == '/' {
        return root_string();
    }
    match resolve_prefix(&segs, k) {
        Some(parts) => {
            let joined = join_chars(&parts, '/');
            if joined.len() > 0 {
                string_of(&joined)
            } else {
                root_string()
            }
        },
        None => root_string(),
    }
}

/// The normalized parent directory of a relative path: empty for a path at the top,
/// an absolute path, or one whose parent climbs above its start.
pub open spec fn spec_parent_dir(s: Seq<char>) -> Seq<char> {
    let segs = split_on(s, '/');
    let k = last_component(segs);
    if is_absolute(s) || k < 0 {
        Seq::empty()
    } else {
        match resolve_parts(segs.take(k)) {
            Some(parts) => join_with(parts, '/'),
            None => Seq::empty(),
        }
    }
}

/// The normalized parent directory of a path, or the empty string.
pub fn parent_directory(path: &str) -> (r: String)
    ensures
        r@ == spec_parent_dir(path@),
{
    let chars = chars_of(path);
    let segs = split_chars(&chars, '/');
    proof {
        lemma_last_component_range(seqs_of(segs@));
    }
    let k = match last_component_index(&segs) {
        Some(k) => k,
        None => return String::new(),
    };
    if chars.len() > 0 && chars[0] == '/' {
        return String::new();
    }
    match resolve_prefix(&segs, k) {
        Some(parts) => {
            let joined = join_chars(&parts, '/');
            string_of(&joined)
        },
        None => String::new(),
    }
}

/// The last component of a path, or the whole path when it has no named last component.
pub fn file_name(path: &str) -> (r: String)
    ensures
        r@ == spec_file_name(path@),
{
    let chars = chars_of(path);
    let segs = split_chars(&chars, '/');
    proof {
        lemma_last_component_range(seqs_of(segs@));
    }
    match last_component_index(&segs) {
        Some(k) => {
            if is_dotdot(&segs[k]) {
                path.to_string()
            } else {
                string_of(&segs[k])
            }
        },
        None => path.to_string(),
    }
}

/// Resolves a link written in the file at `source_path` against that file's directory;
/// web links, absolute links and links that climb above the workspace give none.
pub fn normalize_link(source_path: &str, link: &str) -> (r: Option<String>)
    ensures
        opt_view(r) == spec_normalize_link(source_path@, link@),
{
    let lchars = chars_of(link);
    let http = chars_of("http://");
    let https = chars_of("https://");
    proof {
        reveal_strlit("http://");
        reveal_strlit("https://");
    }
    assert(http@ =~= http_prefix());
    assert(https@ =~= https_prefix());
    if has_prefix(&lchars, &http) || has_prefix(&lchars, &https) {
        return None;
    }
    if lchars.len() > 0 && lchars[0] == '/' {
        return None;
    }
    let schars = chars_of(source_path);
    let segs = split_chars(&schars, '/');
    proof {
        lemma_last_component_range(seqs_of(segs@));
    }
    let k_opt = last_component_index(&segs);
    let mut combined: Vec<Vec<char>> = Vec::new();
    match k_opt {
        Some(k) => {
            if schars.len() > 0 && schars[0] == '/' {
                return None;
            }
            let mut i: usize = 0;
            while i < k
                invariant
                    i <= k,
                    k < segs.len(),
                    seqs_of(combined@) == seqs_of(segs@).take(i as int),
                decreases k - i,
            {
                let piece = segs[i].clone();
                assert(piece@ =~= segs@[i as int]@);
                let ghost before = combined@;
                combined.push(piece);
                assert(combined@ == before.push(piece));
                assert(seqs_of(combined@) =~= seqs_of(before).push(piece@));
                i += 1;
                assert(seqs_of(combined@) =~= seqs_of(segs@).take(i as int));
            }
        },
        None => {
            assert(seqs_of(combined@) =~= Seq::<Seq<char>>::empty());
        },
    }
    let ghost base = seqs_of(combined@);
    let lsegs = split_chars(&lchars, '/');
    let mut j: usize = 0;
    while j < lsegs.len()
        invariant
            j <= lsegs.len(),
            seqs_of(combined@) == base + seqs_of(lsegs@).take(j as int),
        decreases lsegs.len() - j,
    {
        let piece = lsegs[j].clone();
        assert(piece@ =~= lsegs@[j as int]@);
        let ghost before = combined@;
        combined.push(piece);
        assert(seqs_of(combined@) =~= seqs_of(before).push(piece@));
        j += 1;
        assert(seqs_of(combined@) =~= base + seqs_of(lsegs@).take(j as int));
    }
    assert(seqs_of(lsegs@).take(lsegs.len() as int) =~= seqs_of(lsegs@));
    assert(seqs_of(combined@).take(combined.len() as int) =~= seqs_of(combined@));
    match resolve_prefix(&combined, combined.len()) {
        Some(parts) => {
            let joined = join_chars(&parts, '/');
            Some(string_of(&joined))
        },
        None => None,
    }
}

/// A piece a normalized path is made of: a component that is not `..` and holds no slash.
pub open spec fn is_clean_part(p: Seq<char>) -> bool {
    is_component(p) && p != dotdot() && !p.contains('/')
}

proof fn lemma_split_pieces_free(s: Seq<char>, sep: char)
    ensures
        forall|i: int| 0 <= i < split_on(s, sep).len() ==> !(#[trigger] split_on(s, sep)[i]).contains(sep),
    decreases s.len(),
{
    crate::text::lemma_split_nonempty(s, sep);
    if s.len() > 0 {
        let p = split_on(s.drop_last(), sep);
        lemma_split_pieces_free(s.drop_last(), sep);
        crate::text::lemma_split_nonempty(s.drop_last(), sep);
        assert forall|i: int| 0 <= i < split_on(s, sep).len() implies !(#[trigger] split_on(s, sep)[i]).contains(sep) by {
            if s.last() != sep && i == p.len() - 1 {
                let q = p.last().push(s.last());
                assert(split_on(s, sep)[i] == q);
                if q.contains(sep) {
                    let k = choose|k: int| 0 <= k < q.len() && q[k] == sep;
                    assert(p.last()[k] == sep);
                }
            } else if i < p.len() {
                assert(split_on(s, sep)[i] == p[i]);
            }
        }
    }
}

proof fn lemma_split_append(a: Seq<char>, b: Seq<char>, sep: char)
    requires
        !b.contains(sep),
    ensures
        split_on(a + b, sep) == split_on(a, sep).update(
            split_on(a, sep).len() - 1,
            split_on(a, sep).last() + b,
        ),
    decreases b.len(),
{
    crate::text::lemma_split_nonempty(a, sep);
    let p = split_on(a, sep);
    if b.len() == 0 {
        assert(a + b =~= a);
        assert(p.update(p.len() - 1, p.last() + b) =~= p);
    } else {
        let b1 = b.drop_last();
        assert(!b1.contains(sep)) by {
            if b1.contains(sep) {
                let k = choose|k: int| 0 <= k < b1.len() && b1[k] == sep;
                assert(b[k] == sep);
            }
        }
        lemma_split_append(a, b1, sep);
        let s = a + b;
        assert(s.drop_last() =~= a + b1);
        assert(s.last() == b.last());
        assert(b.last() != sep);
        let q = split_on(a + b1, sep);
        assert(q.len() == p.len());
        assert(q.last() == p.last() + b1);
        assert((p.last() + b1).push(b.last()) =~= p.last() + b);
        assert(split_on(s, sep) == q.update(q.len() - 1, q.last().push(b.last())));
        assert(split_on(s, sep) =~= p.update(p.len() - 1, p.last() + b));
    }
}

proof fn lemma_split_join(parts: Seq<Seq<char>>, sep: char)
    requires
        parts.len() >= 1,
        forall|i: int| 0 <= i < parts.len() ==> !(#[trigger] parts[i]).contains(sep),
    ensures
        split_on(join_with(parts, sep), sep) == parts,
    decreases parts.len(),
{
    if parts.len() == 1 {
        lemma_split_append(Seq::empty(), parts[0], sep);
        assert(Seq::<char>::empty() + parts[0] =~= parts[0]);
        assert(split_on(Seq::<char>::empty(), sep).update(0, Seq::<char>::empty() + parts[0]) =~= parts);
    } else {
        let init = parts.drop_last();
        lemma_split_join(init, sep);
        let x = join_with(init, sep);
        let xs = x.push(sep);
        assert(xs.drop_last() =~= x);
        assert(split_on(xs, sep) == init.push(Seq::<char>::empty()));
        lemma_split_append(xs, parts.last(), sep);
        assert(split_on(xs, sep).update(init.len() as int, Seq::<char>::empty() + parts.last()) =~= parts);
        assert(Seq::<char>::empty() + parts.last() =~= parts.last());
    }
}

proof fn lemma_resolve_clean_output(segs: Seq<Seq<char>>)
    requires
        forall|i: int| 0 <= i < segs.len() ==> !(#[trigger] segs[i]).contains('/'),
    ensures
        resolve_parts(segs) matches Some(st) ==> forall|j: int| 0 <= j < st.len() ==> is_clean_part(#[trigger] st[j]),
    decreases segs.len(),
{
    if segs.len() > 0 {
        lemma_resolve_clean_output(segs.drop_last());
    }
}

proof fn lemma_resolve_clean_input(parts: Seq<Seq<char>>)
    requires
        forall|j: int| 0 <= j < parts.len() ==> is_clean_part(#[trigger] parts[j]),
    ensures
        resolve_parts(parts) == Some(parts),
    decreases parts.len(),
{
    if parts.len() > 0 {
        lemma_resolve_clean_input(parts.drop_last());
        assert(is_clean_part(parts.last()));
        assert(parts.drop_last().push(parts.last()) =~= parts);
    }
}

proof fn lemma_join_first(parts: Seq<Seq<char>>, sep: char)
    requires
        parts.len() >= 1,
        parts[0].len() > 0,
    ensures
        join_with(parts, sep).len() > 0,
        join_with(parts, sep)[0] == parts[0][0],
    decreases parts.len(),
{
    if parts.len() > 1 {
        lemma_join_first(parts.drop_last(), sep);
    }
}

/// Normalizing a normalized path gives it back unchanged.
pub proof fn lemma_normalize_idempotent(s: Seq<char>)
    ensures
        spec_normalize(s) matches Some(n) ==> spec_normalize(n) == Some(n),
{
    if let Some(n) = spec_normalize(s) {
        let segs = split_on(s, '/');
        lemma_split_pieces_free(s, '/');
        lemma_resolve_clean_output(segs);
        let parts = resolve_parts(segs)->Some_0;
        assert(n == join_with(parts, '/'));
        if parts.len() == 0 {
            assert(n =~= Seq::<char>::empty());
            assert(split_on(n, '/') =~= seq![Seq::<char>::empty()]);
            let one = seq![Seq::<char>::empty()];
            assert(one.drop_last() =~= Seq::<Seq<char>>::empty());
            assert(resolve_parts(Seq::<Seq<char>>::empty()) == Some(Seq::<Seq<char>>::empty()));
            assert(resolve_parts(one) == Some(Seq::<Seq<char>>::empty()));
            assert(spec_normalize(n) == Some(join_with(Seq::<Seq<char>>::empty(), '/')));
        } else {
            assert(is_clean_part(parts[0]));
            lemma_join_first(parts, '/');
            assert(parts[0].len() > 0);
            if parts[0][0] == '/' {
                assert(parts[0].contains('/'));
            }
            assert(!is_absolute(n));
            assert forall|i: int| 0 <= i < parts.len() implies !(#[trigger] parts[i]).contains('/') by {
                assert(is_clean_part(parts[i]));
            }
            lemma_split_join(parts, '/');
            lemma_resolve_clean_input(parts);
            assert(spec_normalize(n) == Some(join_with(parts, '/')));
        }
    }
}

/// A normalized path is relative, and it is either empty or made of slash-separated
/// pieces none of which is empty, `.` or `..`.
pub proof fn lemma_normalized_is_clean(s: Seq<char>)
    ensures
        spec_normalize(s) matches Some(n) ==> !is_absolute(n) && (n.len() == 0 || forall|i: int|
            0 <= i < split_on(n, '/').len() ==> is_clean_part(#[trigger] split_on(n, '/')[i])),
{
    lemma_normalize_idempotent(s);
    if let Some(n) = spec_normalize(s) {
        let segs = split_on(s, '/');
        lemma_split_pieces_free(s, '/');
        lemma_resolve_clean_output(segs);
        let parts = resolve_parts(segs)->Some_0;
        assert(n == join_with(parts, '/'));
        if parts.len() == 0 {
            assert(n =~= Seq::<char>::empty());
        } else {
            assert forall|i: int| 0 <= i < parts.len() implies !(#[trigger] parts[i]).contains('/') by {
                assert(is_clean_part(parts[i]));
            }
            lemma_split_join(parts, '/');
        }
    }
}

/// A file's deck is the directory that holds it, or `root` for a file at the top.
pub proof fn lemma_deck_is_parent_directory(s: Seq<char>)
    ensures
        spec_deck_for_path(s) == if spec_parent_dir(s).len() > 0 {
            spec_parent_dir(s)
        } else {
            root_deck()
        },
{
}

/// A file named `name` put in the directory of the file at `s` has that directory as
/// its own.
pub proof fn lemma_sibling_parent(s: Seq<char>, name: Seq<char>)
    requires
        is_clean_part(name),
    ensures
        spec_parent_dir(
            if spec_parent_dir(s).len() == 0 {
                name
            } else {
                spec_parent_dir(s) + seq!['/'] + name
            },
        ) == spec_parent_dir(s),
{
    let dir = spec_parent_dir(s);
    let segs = split_on(s, '/');
    lemma_split_pieces_free(s, '/');
    lemma_last_component_range(segs);
    let k = last_component(segs);
    let parts: Seq<Seq<char>> = if is_absolute(s) || k < 0 {
        Seq::empty()
    } else {
        match resolve_parts(segs.take(k)) {
            Some(p) => p,
            None => Seq::empty(),
        }
    };
    if !(is_absolute(s) || k < 0) {
        assert forall|i: int| 0 <= i < segs.take(k).len() implies !(#[trigger] segs.take(k)[i]).contains('/') by {
            assert(segs.take(k)[i] == segs[i]);
        }
        lemma_resolve_clean_output(segs.take(k));
    }
    assert(forall|j: int| 0 <= j < parts.len() ==> is_clean_part(#[trigger] parts[j]));
    assert(dir == join_with(parts, '/')) by {
        if is_absolute(s) || k < 0 {
        } else if resolve_parts(segs.take(k)) is None {
        }
    }
    let child = if dir.len() == 0 { name } else { dir + seq!['/'] + name };
    let all = parts.push(name);
    assert forall|j: int| 0 <= j < all.len() implies is_clean_part(#[trigger] all[j]) by {
        if j < parts.len() {
            assert(all[j] == parts[j]);
        }
    }
    assert forall|j: int| 0 <= j < all.len() implies !(#[trigger] all[j]).contains('/') by {
        assert(is_clean_part(all[j]));
    }
    if parts.len() == 0 {
        assert(dir.len() == 0);
        assert(all =~= seq![name]);
        assert(join_with(all, '/') == name);
    } else {
        lemma_join_first(parts, '/');
        assert(parts[0].len() > 0);
        assert(dir.len() > 0);
        assert(all.drop_last() =~= parts);
        assert(join_with(all, '/') == join_with(parts, '/').push('/') + name);
        assert(child =~= join_with(all, '/'));
    }
    assert(child == join_with(all, '/'));
    lemma_split_join(all, '/');
    let csegs = split_on(child, '/');
    assert(csegs == all);
    assert(last_component(all) == parts.len());
    assert(all.take(parts.len() as int) =~= parts);
    lemma_resolve_clean_input(parts);
    assert(!is_absolute(child)) by {
        lemma_join_first(all, '/');
        assert(all[0].len() > 0);
        if all[0][0] == '/' {
            assert(all[0].contains('/'));
        }
    }
}

/// A path piece that scanning skips: hidden (starting with `.`) or `node_modules`.
pub open spec fn is_ignored_piece(p: Seq<char>) -> bool {
    (p.len() > 0 && p[0] == '.') || p == "node_modules"@
}

/// Some slash-separated piece of the path is hidden or `node_modules`.
pub open spec fn spec_has_ignored_segment(s: Seq<char>) -> bool {
    exists|i: int| 0 <= i < split_on(s, '/').len() && is_ignored_piece(#[trigger] split_on(s, '/')[i])
}

/// Whether some piece of the path is hidden or `node_modules`.
pub fn has_ignored_segment(path: &str) -> (r: bool)
    ensures
        r == spec_has_ignored_segment(path@),
{
    let chars = chars_of(path);
    let segs = split_chars(&chars, '/');
    let nm = chars_of("node_modules");
    let mut i: usize = 0;
    while i < segs.len()
        invariant
            i <= segs.len(),
            nm@ == "node_modules"@,
            seqs_of(segs@) == split_on(path@, '/'),
            forall|k: int| 0 <= k < i ==> !is_ignored_piece(#[trigger] split_on(path@, '/')[k]),
        decreases segs.len() - i,
    {
        let p = &segs[i];
        assert(split_on(path@, '/')[i as int] == p@);
        if (p.len() > 0 && p[0] == '.') || crate::text::chars_eq(p, &nm) {
            return true;
        }
        i += 1;
    }
    false
}

/// Where a local workspace keeps its review progress: `.srs-progress.json` in its
/// directory; none for GitHub workspaces and the sample.
pub open spec fn spec_progress_path(label: Seq<char>) -> Option<Seq<char>> {
    let name = ".srs-progress.json"@;
    if starts_with(label, "github:"@) || label == "sample workspace"@ {
        None
    } else if label.len() == 0 || label.last() == '/' {
        Some(label + name)
    } else {
        Some(label.push('/') + name)
    }
}

/// The progress file of a workspace, if it has one.
pub fn progress_path(source_label: &str) -> (r: Option<String>)
    ensures
        opt_view(r) == spec_progress_path(source_label@),
{
    let label = chars_of(source_label);
    let gh = chars_of("github:");
    let sample = chars_of("sample workspace");
    if has_prefix(&label, &gh) || crate::text::chars_eq(&label, &sample) {
        return None;
    }
    let mut out = source_label.to_string();
    if label.len() > 0 && label[label.len() - 1] != '/' {
        out.push('/');
    }
    let name = ".srs-progress.json";
    let ghost before = out@;
    let mut s = out;
    let tail = chars_of(name);
    let mut i: usize = 0;
    while i < tail.len()
        invariant
            i <= tail.len(),
            tail@ == name@,
            s@ == before + tail@.take(i as int),
        decreases tail.len() - i,
    {
        s.push(tail[i]);
        i += 1;
        assert(s@ =~= before + tail@.take(i as int));
    }
    assert(tail@.take(tail.len() as int) =~= tail@);
    Some(s)
}

} // verus!
