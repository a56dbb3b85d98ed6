use vstd::prelude::*;
use crate::model::{Flashcard, Project, TypstFile, TypstPackageFile};
use crate::paths::{is_clean_part, lemma_sibling_parent, parent_directory, spec_parent_dir};
use crate::search::at_most;
use crate::text::{
    chars_eq, chars_lt, chars_of, copy_range, ends_with, has_prefix, has_suffix, join_chars, join_with, lemma_seq_lt_irreflexive,
    lemma_seq_lt_total, lemma_seq_lt_transitive, push_str, seq_lt, seqs_of, split_chars, split_on,
    starts_with, strictly_sorted, string_of,
};
use vstd::utf8::{encode_scalar, encode_utf8};
use crate::digest::{hex_lower, push_bytes, push_utf8, sha256, sha256_digest, to_hex_lower};

verus! {

broadcast use vstd::string::group_string_axioms;

/// Which side of a card is rendered.
#[derive(Clone, Copy, Debug, PartialEq, Eq)]
pub enum CardSide {
    Question,
    Answer,
}

/// The word for a side used in file names.
pub open spec fn side_label(side: CardSide) -> Seq<char> {
    match side {
        CardSide::Question => "question"@,
        CardSide::Answer => "answer"@,
    }
}

/// The Typst markup shown on a side of a card.
pub open spec fn side_source(side: CardSide, card: Flashcard) -> Seq<char> {
    match side {
        CardSide::Question => card.question@,
        CardSide::Answer => card.answer@,
    }
}

impl CardSide {
    /// The word for the side used in file names.
    pub fn label(self) -> (r: &'static str)
        ensures
            r@ == side_label(self),
    {
        match self {
            CardSide::Question => "question",
            CardSide::Answer => "answer",
        }
    }

    /// The markup of the card on this side.
    pub fn source(self, card: &Flashcard) -> (r: &str)
        ensures
            r@ == side_source(self, *card),
    {
        match self {
            CardSide::Question => card.question.as_str(),
            CardSide::Answer => card.answer.as_str(),
        }
    }
}

/// The name of the scratch file a side of a card is rendered from.
pub open spec fn card_file_name(card: Flashcard, side: CardSide) -> Seq<char> {
    ".typst-web-card-"@ + card.id@ + "-"@ + side_label(side) + ".typ"@
}

/// The scratch file sits in the directory of the card's note, so that relative imports
/// resolve as they do in the note.
pub open spec fn spec_card_typst_path(card: Flashcard, side: CardSide) -> Seq<char> {
    let dir = spec_parent_dir(card.source_path@);
    if dir.len() == 0 {
        card_file_name(card, side)
    } else {
        dir + seq!['/'] + card_file_name(card, side)
    }
}

/// A card's scratch file lies in the directory of the card's note, so that its relative
/// imports resolve as they do in the note (for a card id without a slash, as the
/// hexadecimal ids are).
pub proof fn lemma_card_file_beside_note(card: Flashcard, side: CardSide)
    requires
        !card.id@.contains('/'),
    ensures
        spec_parent_dir(spec_card_typst_path(card, side)) == spec_parent_dir(card.source_path@),
{
    reveal_strlit(".typst-web-card-");
    reveal_strlit("-");
    reveal_strlit(".typ");
    reveal_strlit("question");
    reveal_strlit("answer");
    let head = ".typst-web-card-"@;
    let label = side_label(side);
    let name = card_file_name(card, side);
    assert(name =~= head + card.id@ + "-"@ + label + ".typ"@);
    assert(!name.contains('/')) by {
        if name.contains('/') {
            let i = choose|i: int| 0 <= i < name.len() && name[i] == '/';
            let a = head.len() as int;
            let b = a + card.id@.len();
            let c = b + 1;
            let d = c + label.len();
            if i < a {
                assert(head[i] == '/');
            } else if i < b {
                assert(card.id@[i - a] == '/');
                assert(card.id@.contains('/'));
            } else if i < c {
                assert("-"@[i - b] == '/');
            } else if i < d {
                assert(label[i - c] == '/');
            } else {
                assert(".typ"@[i - d] == '/');
            }
        }
    }
    assert(name.len() > 2);
    assert(is_clean_part(name));
    lemma_sibling_parent(card.source_path@, name);
}

/// The scratch file of every card extracted from the workspace lies in the directory of
/// the card's note.
pub proof fn lemma_extracted_card_files_beside_notes(
    files: Seq<TypstFile>,
    cards: Seq<Flashcard>,
    k: int,
    side: CardSide,
)
    requires
        crate::cards::card_views(cards) == crate::cards::spec_extract_cards(files),
        0 <= k < cards.len(),
    ensures
        spec_parent_dir(spec_card_typst_path(cards[k], side)) == spec_parent_dir(cards[k].source_path@),
{
    crate::cards::lemma_extracted_ids_no_slash(files);
    assert(crate::cards::card_views(cards)[k] == cards[k]@);
    assert(crate::cards::spec_extract_cards(files)[k].id == cards[k].id@);
    lemma_card_file_beside_note(cards[k], side);
}

/// The page and text settings put in front of a card's markup.
pub open spec fn card_preamble() -> Seq<char> {
    "#set page(width: 360pt, height: auto, margin: 10pt)\n#set text(size: 12pt)\n"@
}

/// Path of the scratch file a side of a card is rendered from.
pub fn card_typst_path(card: &Flashcard, side: CardSide) -> (r: String)
    ensures
        r@ == spec_card_typst_path(*card, side),
{
    let dir = parent_directory(card.source_path.as_str());
    let mut name = String::new();
    push_str(&mut name, ".typst-web-card-");
    push_str(&mut name, card.id.as_str());
    push_str(&mut name, "-");
    push_str(&mut name, side.label());
    push_str(&mut name, ".typ");
    assert(name@ =~= card_file_name(*card, side));
    if dir.as_str().is_empty() {
        name
    } else {
        let mut full = dir;
        full.push('/');
        push_str(&mut full, name.as_str());
        assert(full@ =~= spec_parent_dir(card.source_path@) + seq!['/'] + card_file_name(
            *card,
            side,
        ));
        full
    }
}

/// The Typst file a side of a card is rendered from: the card's deck, and the side's
/// markup behind a fixed page setup.
pub fn card_typst_file(card: &Flashcard, side: CardSide) -> (r: TypstFile)
    ensures
        r.path@ == spec_card_typst_path(*card, side),
        r.deck@ == card.deck@,
        r.source@ == card_preamble() + side_source(side, *card),
{
    let path = card_typst_path(card, side);
    let mut source = String::new();
    push_str(&mut source, "#set page(width: 360pt, height: auto, margin: 10pt)\n#set text(size: 12pt)\n");
    push_str(&mut source, side.source(card));
    TypstFile { path, deck: card.deck.clone(), source }
}

/// The part of a path before its first slash (the whole path when it has none).
pub open spec fn head_piece(path: Seq<char>) -> Seq<char> {
    split_on(path, '/')[0]
}

/// The directory every file of the workspace sits under, when there is one: the first
/// piece of the first file's path, when it is not empty and every other file starts
/// with the same piece.
pub open spec fn spec_shared_root(files: Seq<TypstFile>) -> Option<Seq<char>> {
    if files.len() == 0 {
        None
    } else {
        let c = head_piece(files[0].path@);
        if c.len() == 0 {
            None
        } else if forall|i: int| 1 <= i < files.len() ==> #[trigger] head_piece(files[i].path@) == c {
            Some(c)
        } else {
            None
        }
    }
}

fn head_piece_exec(path: &str) -> (r: Vec<char>)
    ensures
        r@ == head_piece(path@),
{
    let chars = chars_of(path);
    let mut pieces = split_chars(&chars, '/');
    assert(seqs_of(pieces@)[0] == pieces@[0]@);
    pieces.swap_remove(0)
}

/// The first path piece shared by all files, when there is one.
pub fn shared_root_prefix(files: &[TypstFile]) -> (r: Option<String>)
    ensures
        match r {
            Some(p) => spec_shared_root(files@) == Some(p@),
            None => spec_shared_root(files@).is_none(),
        },
{
    if files.len() == 0 {
        return None;
    }
    let candidate = head_piece_exec(files[0].path.as_str());
    if candidate.len() == 0 {
        return None;
    }
    let mut i: usize = 1;
    while i < files.len()
        invariant
            1 <= i <= files.len(),
            candidate@ == head_piece(files@[0].path@),
            candidate@.len() > 0,
            forall|j: int| 1 <= j < i ==> #[trigger] head_piece(files@[j].path@) == candidate@,
        decreases files.len() - i,
    {
        let head = head_piece_exec(files[i].path.as_str());
        if !chars_eq(&head, &candidate) {
            return None;
        }
        i += 1;
    }
    Some(string_of(&candidate))
}

/// A line without the carriage return of a `\r\n` ending.
pub open spec fn strip_cr(p: Seq<char>) -> Seq<char> {
    if p.len() > 0 && p.last() == '\r' {
        p.drop_last()
    } else {
        p
    }
}

/// The lines of a text as `str::lines` gives them: split at `\n`, a `\r` before the
/// `\n` dropped, and no empty last line after a final line ending.
pub open spec fn spec_lines(s: Seq<char>) -> Seq<Seq<char>> {
    let pieces = split_on(s, '\n');
    let body = Seq::new((pieces.len() - 1) as nat, |i: int| strip_cr(pieces[i]));
    if pieces.last().len() > 0 {
        body.push(pieces.last())
    } else {
        body
    }
}

/// The first eight lines of a text, joined by `\n`.
pub open spec fn excerpt_text(s: Seq<char>) -> Seq<char> {
    join_with(at_most(spec_lines(s), 8), '\n')
}

/// The number of bytes of a character in UTF-8.
pub open spec fn utf8_width(ch: char) -> int {
    encode_scalar(ch as u32).len() as int
}

/// The longest run of characters from the front of `c` whose UTF-8 form fits in
/// `budget` bytes.
pub open spec fn cut_chars(c: Seq<char>, budget: int) -> Seq<char>
    decreases c.len(),
{
    if c.len() == 0 || utf8_width(c[0]) > budget {
        Seq::empty()
    } else {
        seq![c[0]] + cut_chars(c.drop_first(), budget - utf8_width(c[0]))
    }
}

/// The preview of a file's source: its first eight lines; when their UTF-8 form is
/// longer than 420 bytes, the characters that fit in the first 420 bytes with `...`
/// behind.
pub open spec fn spec_excerpt(s: Seq<char>) -> Seq<char> {
    let c = excerpt_text(s);
    if encode_utf8(c).len() > 420 {
        cut_chars(c, 420) + "..."@
    } else {
        c
    }
}

fn utf8_width_exec(ch: char) -> (r: usize)
    ensures
        r == utf8_width(ch),
        1 <= r <= 4,
{
    proof {
        vstd::utf8::char_is_scalar(ch);
    }
    let v = ch as u32;
    if v < 0x80 {
        1
    } else if v < 0x800 {
        2
    } else if v < 0x10000 {
        3
    } else {
        4
    }
}

fn strip_cr_exec(p: &Vec<char>) -> (r: Vec<char>)
    ensures
        r@ == strip_cr(p@),
{
    let mut q = p.clone();
    assert(q@ =~= p@);
    if q.len() > 0 && q[q.len() - 1] == '\r' {
        q.pop();
        assert(q@ =~= p@.drop_last());
    }
    q
}

/// The first eight lines of a text, joined by `\n`.
pub fn excerpt_lines(source: &str) -> (r: String)
    ensures
        r@ == excerpt_text(source@),
{
    let chars = chars_of(source);
    let pieces = split_chars(&chars, '\n');
    let ghost ps = seqs_of(pieces@);
    let ghost body = Seq::new((ps.len() - 1) as nat, |i: int| strip_cr(ps[i]));
    let n = pieces.len() - 1;
    let mut lines: Vec<Vec<char>> = Vec::new();
    let mut i: usize = 0;
    while i < n && i < 8
        invariant
            n == pieces.len() - 1,
            ps == seqs_of(pieces@),
            ps == split_on(source@, '\n'),
            body == Seq::new((ps.len() - 1) as nat, |i: int| strip_cr(ps[i])),
            i <= n,
            i <= 8,
            seqs_of(lines@) == body.take(i as int),
        decreases n - i,
    {
        let l = strip_cr_exec(&pieces[i]);
        let ghost before = seqs_of(lines@);
        assert(l@ == body[i as int]);
        lines.push(l);
        assert(seqs_of(lines@) =~= before.push(body[i as int]));
        i += 1;
        assert(seqs_of(lines@) =~= body.take(i as int));
    }
    if i == n && i < 8 && pieces[n].len() > 0 {
        let last = pieces[n].clone();
        assert(last@ =~= pieces@[n as int]@);
        let ghost before = seqs_of(lines@);
        lines.push(last);
        assert(seqs_of(lines@) =~= before.push(ps.last()));
        assert(body.take(n as int) =~= body);
        assert(seqs_of(lines@) =~= body.push(ps.last()));
    }
    assert(seqs_of(lines@) =~= at_most(spec_lines(source@), 8));
    let joined = join_chars(&lines, '\n');
    string_of(&joined)
}

/// The preview of a file's source shown in the file list.
pub fn excerpt(source: &str) -> (r: String)
    ensures
        r@ == spec_excerpt(source@),
{
    let clean = excerpt_lines(source);
    let total = clean.as_str().as_bytes().len();
    if total <= 420 {
        return clean;
    }
    let chars = chars_of(clean.as_str());
    let ghost c = chars@;
    let n = chars.len();
    let mut out = String::new();
    let mut budget: usize = 420;
    let mut i: usize = 0;
    assert(c.skip(0) =~= c);
    assert(cut_chars(c, 420) =~= out@ + cut_chars(c.skip(0), 420));
    while i < n
        invariant
            i <= n,
            n == c.len(),
            c == chars@,
            budget <= 420,
            cut_chars(c, 420) == out@ + cut_chars(c.skip(i as int), budget as int),
        ensures
            cut_chars(c, 420) == out@,
        decreases n - i,
    {
        let ch = chars[i];
        let w = utf8_width_exec(ch);
        let ghost rest = c.skip(i as int);
        assert(rest[0] == ch);
        if w > budget {
            assert(cut_chars(rest, budget as int) =~= Seq::<char>::empty());
            assert(out@ + Seq::<char>::empty() =~= out@);
            break;
        }
        assert(rest.drop_first() =~= c.skip(i + 1));
        let ghost before = out@;
        out.push(ch);
        assert(before + (seq![ch] + cut_chars(c.skip(i + 1), budget - w)) =~= out@ + cut_chars(
            c.skip(i + 1),
            budget - w,
        ));
        budget = budget - w;
        i += 1;
        if i == n {
            assert(c.skip(n as int) =~= Seq::<char>::empty());
            assert(out@ + Seq::<char>::empty() =~= out@);
        }
    }
    push_str(&mut out, "...");
    out
}

/// A workspace path with the shared root directory and its slash taken off, when the
/// path lies under that root and something is left.
pub open spec fn root_stripped(path: Seq<char>, root: Option<Seq<char>>) -> Option<Seq<char>> {
    match root {
        Some(pre) => if starts_with(path, pre.push('/')) && path.len() > pre.len() + 1 {
            Some(path.skip(pre.len() as int + 1))
        } else {
            None
        },
        None => None,
    }
}

/// The (path, source) entries registered for the workspace files, in order: each file
/// under its path, then under its root-stripped path when it has one.
pub open spec fn source_insertions(files: Seq<TypstFile>, root: Option<Seq<char>>) -> Seq<
    (Seq<char>, Seq<char>),
>
    decreases files.len(),
{
    if files.len() == 0 {
        Seq::empty()
    } else {
        let f = files.last();
        let with_path = source_insertions(files.drop_last(), root).push((f.path@, f.source@));
        match root_stripped(f.path@, root) {
            Some(st) => with_path.push((st, f.source@)),
            None => with_path,
        }
    }
}

/// A map built by inserting the entries in order; a later entry replaces an earlier one
/// with the same key.
pub open spec fn insert_all(ins: Seq<(Seq<char>, Seq<char>)>) -> Map<Seq<char>, Seq<char>>
    decreases ins.len(),
{
    if ins.len() == 0 {
        Map::empty()
    } else {
        insert_all(ins.drop_last()).insert(ins.last().0, ins.last().1)
    }
}

/// The sources the renderer sees by path: every workspace file under its path and its
/// root-stripped path, and the file being rendered, which wins over a workspace file
/// with the same path.
pub open spec fn render_source_map(files: Seq<TypstFile>, file: TypstFile) -> Map<
    Seq<char>,
    Seq<char>,
> {
    insert_all(source_insertions(files, spec_shared_root(files)).push((file.path@, file.source@)))
}

/// The keys of a list of pairs.
pub open spec fn pair_keys(v: Seq<(Seq<char>, Seq<char>)>) -> Seq<Seq<char>> {
    Seq::new(v.len(), |i: int| v[i].0)
}

/// The texts of a list of string pairs.
pub open spec fn pair_views(v: Seq<(String, String)>) -> Seq<(Seq<char>, Seq<char>)> {
    Seq::new(v.len(), |i: int| (v[i].0@, v[i].1@))
}

/// The list holds exactly the entries of the map, sorted by key, each key once.
pub open spec fn lists_map(v: Seq<(Seq<char>, Seq<char>)>, m: Map<Seq<char>, Seq<char>>) -> bool {
    &&& strictly_sorted(pair_keys(v))
    &&& forall|i: int| 0 <= i < v.len() ==> #[trigger] m.contains_key(v[i].0) && m[v[i].0] == v[i].1
    &&& forall|k: Seq<char>| #[trigger] m.contains_key(k) ==> exists|i: int| 0 <= i < v.len() && v[i].0 == k
}

/// Puts a (key, value) entry into a key-sorted list, replacing the entry with that key.
fn upsert(v: &mut Vec<(String, String)>, k: String, x: String, Ghost(m): Ghost<Map<Seq<char>, Seq<char>>>)
    requires
        lists_map(pair_views(old(v)@), m),
    ensures
        lists_map(pair_views(final(v)@), m.insert(k@, x@)),
{
    let ghost ov = pair_views(v@);
    let ghost keys = pair_keys(ov);
    let kc = chars_of(k.as_str());
    let mut i: usize = 0;
    let mut stop = false;
    while i < v.len() && !stop
        invariant
            i <= v.len(),
            v@ == old(v)@,
            kc@ == k@,
            ov == pair_views(v@),
            keys == pair_keys(ov),
            strictly_sorted(keys),
            forall|j: int| 0 <= j < i ==> seq_lt(#[trigger] keys[j], k@),
            stop ==> i < v.len() && !seq_lt(keys[i as int], k@),
        decreases v.len() - i + (if stop { 0int } else { 1int }),
    {
        let cur = chars_of(v[i].0.as_str());
        if !chars_lt(&cur, &kc) {
            stop = true;
        } else {
            i += 1;
        }
    }
    let ghost pos = i as int;
    let ghost m2 = m.insert(k@, x@);
    let found = if i < v.len() {
        let cur = chars_of(v[i].0.as_str());
        chars_eq(&cur, &kc)
    } else {
        false
    };
    if found {
        v.set(i, (k, x));
        let ghost nv = pair_views(v@);
        assert(nv =~= ov.update(pos, (k@, x@)));
        assert(pair_keys(nv) =~= keys);
        assert forall|j: int| 0 <= j < nv.len() implies #[trigger] m2.contains_key(nv[j].0)
            && m2[nv[j].0] == nv[j].1 by {
            if j != pos {
                if j < pos {
                    assert(seq_lt(keys[j], keys[pos]));
                } else {
                    assert(seq_lt(keys[pos], keys[j]));
                }
                lemma_seq_lt_irreflexive(keys[pos]);
                assert(nv[j] == ov[j]);
                assert(m.contains_key(ov[j].0));
                assert(keys[j] != k@);
            }
        }
        assert forall|t: Seq<char>| #[trigger] m2.contains_key(t) implies exists|j: int|
            0 <= j < nv.len() && nv[j].0 == t by {
            if t == k@ {
                assert(nv[pos].0 == t);
            } else {
                let j = choose|j: int| 0 <= j < ov.len() && ov[j].0 == t;
                assert(nv[j].0 == t);
            }
        }
    } else {
        proof {
            if pos < ov.len() {
                lemma_seq_lt_total(keys[pos], k@);
            }
        }
        v.insert(i, (k, x));
        let ghost nv = pair_views(v@);
        assert(nv =~= ov.insert(pos, (k@, x@)));
        let ghost nk = pair_keys(nv);
        assert(nk =~= keys.insert(pos, k@));
        assert forall|a: int, b: int| 0 <= a < b < nk.len() implies seq_lt(nk[a], nk[b]) by {
            if b < pos {
            } else if a > pos {
            } else if a == pos {
                if b - 1 > pos {
                    lemma_seq_lt_transitive(k@, keys[pos], keys[b - 1]);
                }
            } else if b > pos {
                if b - 1 > pos {
                    lemma_seq_lt_transitive(k@, keys[pos], keys[b - 1]);
                }
                lemma_seq_lt_transitive(keys[a], k@, keys[b - 1]);
            }
        }
        assert forall|j: int| 0 <= j < nv.len() implies #[trigger] m2.contains_key(nv[j].0)
            && m2[nv[j].0] == nv[j].1 by {
            if j < pos {
                lemma_seq_lt_irreflexive(k@);
                assert(nv[j] == ov[j]);
                assert(m.contains_key(ov[j].0));
                assert(keys[j] != k@);
            } else if j > pos {
                assert(nv[j] == ov[j - 1]);
                lemma_seq_lt_irreflexive(k@);
                if j - 1 > pos {
                    lemma_seq_lt_transitive(k@, keys[pos], keys[j - 1]);
                }
                assert(m.contains_key(ov[j - 1].0));
                assert(keys[j - 1] != k@);
            }
        }
        assert forall|t: Seq<char>| #[trigger] m2.contains_key(t) implies exists|j: int|
            0 <= j < nv.len() && nv[j].0 == t by {
            if t == k@ {
                assert(nv[pos].0 == t);
            } else {
                let j = choose|j: int| 0 <= j < ov.len() && ov[j].0 == t;
                if j < pos {
                    assert(nv[j].0 == t);
                } else {
                    assert(nv[j + 1].0 == t);
                }
            }
        }
    }
}

fn strip_root_exec(path: &str, root: &Option<String>) -> (r: Option<String>)
    ensures
        match r {
            Some(st) => root_stripped(path@, match root { Some(p) => Some(p@), None => None }) == Some(st@),
            None => root_stripped(path@, match root { Some(p) => Some(p@), None => None }).is_none(),
        },
{
    match root {
        Some(pre) => {
            let mut pc = chars_of(pre.as_str());
            pc.push('/');
            let chars = chars_of(path);
            if has_prefix(&chars, &pc) && chars.len() > pc.len() {
                let rest = copy_range(&chars, pc.len(), chars.len());
                assert(rest@ =~= path@.skip(pre@.len() as int + 1));
                Some(string_of(&rest))
            } else {
                None
            }
        },
        None => None,
    }
}

/// The workspace files with the source of every file at `file`'s path replaced by
/// `file`'s source.
pub open spec fn with_source_at(files: Seq<TypstFile>, file: TypstFile) -> Seq<TypstFile> {
    Seq::new(
        files.len(),
        |i: int|
            if files[i].path@ == file.path@ {
                TypstFile { source: file.source, ..files[i] }
            } else {
                files[i]
            },
    )
}

proof fn lemma_insertions_without_root(files: Seq<TypstFile>)
    ensures
        source_insertions(files, None) =~= Seq::new(
            files.len(),
            |i: int| (files[i].path@, files[i].source@),
        ),
    decreases files.len(),
{
    if files.len() > 0 {
        lemma_insertions_without_root(files.drop_last());
    }
}

proof fn lemma_insert_all_agree_off(a: Seq<(Seq<char>, Seq<char>)>, b: Seq<(Seq<char>, Seq<char>)>, p: Seq<char>)
    requires
        a.len() == b.len(),
        forall|i: int| 0 <= i < a.len() ==> (#[trigger] a[i]).0 == b[i].0 && (a[i].0 != p ==> a[i].1 == b[i].1),
    ensures
        insert_all(a).remove(p) =~= insert_all(b).remove(p),
    decreases a.len(),
{
    if a.len() > 0 {
        let (a0, b0) = (a.drop_last(), b.drop_last());
        assert forall|i: int| 0 <= i < a0.len() implies (#[trigger] a0[i]).0 == b0[i].0 && (a0[i].0 != p
            ==> a0[i].1 == b0[i].1) by {
            assert(a0[i] == a[i]);
            assert(b0[i] == b[i]);
        }
        lemma_insert_all_agree_off(a0, b0, p);
        let (ka, kb) = (a.last(), b.last());
        assert(ka == a[a.len() - 1]);
        assert(kb == b[b.len() - 1]);
        assert(insert_all(a) == insert_all(a0).insert(ka.0, ka.1));
        assert(insert_all(b) == insert_all(b0).insert(kb.0, kb.1));
        if ka.0 == p {
            assert(insert_all(a).remove(p) =~= insert_all(a0).remove(p));
            assert(insert_all(b).remove(p) =~= insert_all(b0).remove(p));
        } else {
            assert(insert_all(a).remove(p) =~= insert_all(a0).remove(p).insert(ka.0, ka.1));
            assert(insert_all(b).remove(p) =~= insert_all(b0).remove(p).insert(kb.0, kb.1));
        }
    }
}

/// The file being rendered shadows the workspace copy at its path: giving the workspace
/// files at that path the rendered file's source changes nothing the renderer sees. This
/// holds when the workspace has no shared root directory; with one, the copy registered
/// under the path without the root keeps the workspace source.
pub proof fn lemma_rendered_file_shadows_project_copy(files: Seq<TypstFile>, file: TypstFile)
    requires
        spec_shared_root(files) is None,
    ensures
        render_source_map(with_source_at(files, file), file) == render_source_map(files, file),
{
    let g = with_source_at(files, file);
    assert forall|i: int| 0 <= i < files.len() implies #[trigger] head_piece(g[i].path@) == head_piece(
        files[i].path@,
    ) by {
        assert(g[i].path@ == files[i].path@);
    }
    if files.len() > 0 {
        assert(g[0].path@ == files[0].path@);
        let c = head_piece(files[0].path@);
        if c.len() > 0 {
            let k = choose|k: int| 1 <= k < files.len() && #[trigger] head_piece(files[k].path@) != c;
            assert(head_piece(g[k].path@) != c);
        }
    }
    assert(spec_shared_root(g) is None);
    lemma_insertions_without_root(files);
    lemma_insertions_without_root(g);
    let a = source_insertions(files, None);
    let b = source_insertions(g, None);
    let p = file.path@;
    assert forall|i: int| 0 <= i < a.len() implies (#[trigger] a[i]).0 == b[i].0 && (a[i].0 != p ==> a[i].1
        == b[i].1) by {
        assert(a[i] == (files[i].path@, files[i].source@));
        assert(b[i] == (g[i].path@, g[i].source@));
    }
    lemma_insert_all_agree_off(a, b, p);
    let ia = a.push((p, file.source@));
    let ib = b.push((p, file.source@));
    assert(ia.drop_last() =~= a);
    assert(ib.drop_last() =~= b);
    assert(insert_all(ia) =~= insert_all(a).remove(p).insert(p, file.source@));
    assert(insert_all(ib) =~= insert_all(b).remove(p).insert(p, file.source@));
}

/// Two projects that differ only in that the second gives its files at the rendered
/// file's path that file's source render the file from the same inputs: the same sources
/// by path and the same package inputs (when the workspace has no shared root directory).
pub proof fn lemma_project_with_rendered_source_renders_alike(p1: Project, p2: Project, file: TypstFile)
    requires
        spec_shared_root(p1.files@) is None,
        p2.files@ == with_source_at(p1.files@, file),
        p2.package_files@ == p1.package_files@,
    ensures
        render_source_map(p2.files@, file) == render_source_map(p1.files@, file),
        spec_package_inputs(p2.package_files@, parsed_versions(p2.package_files@)) == spec_package_inputs(
            p1.package_files@,
            parsed_versions(p1.package_files@),
        ),
{
    lemma_rendered_file_shadows_project_copy(p1.files@, file);
}

/// The sources the renderer is given, sorted by path: every workspace file under its
/// path, and under the path without the shared root directory; the file being rendered
/// replaces a workspace file with its path.
pub fn render_sources(project: &Project, file: &TypstFile) -> (r: Vec<(String, String)>)
    ensures
        lists_map(pair_views(r@), render_source_map(project.files@, *file)),
{
    let files = &project.files;
    let root = shared_root_prefix(files.as_slice());
    let ghost sr = spec_shared_root(files@);
    assert(sr == match root { Some(p) => Some(p@), None => None::<Seq<char>> });
    let mut out: Vec<(String, String)> = Vec::new();
    let mut i: usize = 0;
    assert(files@.take(0) =~= Seq::<TypstFile>::empty());
    assert(pair_views(out@) =~= Seq::<(Seq<char>, Seq<char>)>::empty());
    assert(insert_all(source_insertions(files@.take(0), sr)) =~= Map::<Seq<char>, Seq<char>>::empty());
    while i < files.len()
        invariant
            i <= files.len(),
            sr == spec_shared_root(files@),
            sr == match root { Some(p) => Some(p@), None => None::<Seq<char>> },
            lists_map(pair_views(out@), insert_all(source_insertions(files@.take(i as int), sr))),
        decreases files.len() - i,
    {
        let f = &files[i];
        let ghost before = source_insertions(files@.take(i as int), sr);
        assert(files@.take(i as int + 1).drop_last() =~= files@.take(i as int));
        assert(files@.take(i as int + 1).last() == files@[i as int]);
        upsert(&mut out, f.path.clone(), f.source.clone(), Ghost(insert_all(before)));
        let ghost with_path = before.push((f.path@, f.source@));
        assert(with_path.drop_last() =~= before);
        match strip_root_exec(f.path.as_str(), &root) {
            Some(st) => {
                let ghost st_view = st@;
                upsert(&mut out, st, f.source.clone(), Ghost(insert_all(with_path)));
                assert(with_path.push((st_view, f.source@)).drop_last() =~= with_path);
            },
            None => {},
        }
        i += 1;
    }
    assert(files@.take(files.len() as int) =~= files@);
    let ghost all = source_insertions(files@, sr);
    upsert(&mut out, file.path.clone(), file.source.clone(), Ghost(insert_all(all)));
    assert(all.push((file.path@, file.source@)).drop_last() =~= all);
    out
}

/// What `PackageVersion::from_str` of the typst crate gives for a version text: the
/// major, minor and patch numbers, or the message of the error.
pub uninterp spec fn package_version(v: Seq<char>) -> Result<(u32, u32, u32), Seq<char>>;

/// A parsed version with its error text as characters.
pub open spec fn version_view(r: Result<(u32, u32, u32), String>) -> Result<(u32, u32, u32), Seq<char>> {
    match r {
        Ok(t) => Ok(t),
        Err(e) => Err(e@),
    }
}

pub open spec fn version_views(v: Seq<Result<(u32, u32, u32), String>>) -> Seq<
    Result<(u32, u32, u32), Seq<char>>,
> {
    Seq::new(v.len(), |i: int| version_view(v[i]))
}

/// The value of a run of decimal digits.
pub open spec fn digits_value(d: Seq<char>) -> int
    decreases d.len(),
{
    if d.len() == 0 {
        0
    } else {
        digits_value(d.drop_last()) * 10 + (d.last() as int - '0' as int)
    }
}

/// The digits of a number as `u32::from_str` reads it: after an optional `+`.
pub open spec fn number_digits(p: Seq<char>) -> Seq<char> {
    if p.len() > 0 && p[0] == '+' {
        p.drop_first()
    } else {
        p
    }
}

/// The text is a `u32` as `u32::from_str` accepts it: an optional `+`, then at least one
/// ASCII digit and nothing else, with a value that fits in 32 bits.
pub open spec fn is_u32_text(p: Seq<char>) -> bool {
    let d = number_digits(p);
    &&& d.len() > 0
    &&& forall|k: int| 0 <= k < d.len() ==> crate::packages::is_ascii_digit(#[trigger] d[k])
    &&& digits_value(d) <= u32::MAX
}

/// The text splits at `.` into exactly three pieces, each a `u32` text.
pub open spec fn is_version_triple(v: Seq<char>) -> bool {
    let p = crate::text::split_on(v, '.');
    p.len() == 3 && is_u32_text(p[0]) && is_u32_text(p[1]) && is_u32_text(p[2])
}

/// The values of the three `.`-separated pieces of a version text.
pub open spec fn version_numbers(v: Seq<char>) -> (int, int, int) {
    let p = crate::text::split_on(v, '.');
    (digits_value(number_digits(p[0])), digits_value(number_digits(p[1])), digits_value(number_digits(p[2])))
}

/// `typst::syntax::package::PackageVersion::from_str`: splits the text at `.`; it parses
/// when there are exactly three pieces and each is a `u32` (`u32::from_str`), and then
/// gives their values. Its result, numbers or error message, is named `package_version`;
/// the text of an error is not stated.
#[verifier::external_body]
fn parse_package_version(v: &str) -> (r: Result<(u32, u32, u32), String>)
    ensures
        version_view(r) == package_version(v@),
        r is Ok <==> is_version_triple(v@),
        r matches Ok(t) ==> (t.0 as int, t.1 as int, t.2 as int) == version_numbers(v@),
{
    match v.parse::<typst::syntax::package::PackageVersion>() {
        Ok(p) => Ok((p.major, p.minor, p.patch)),
        Err(e) => Err(e.to_string()),
    }
}

/// The parsed version of each package file, in order.
pub open spec fn parsed_versions(files: Seq<TypstPackageFile>) -> Seq<Result<(u32, u32, u32), Seq<char>>> {
    Seq::new(files.len(), |i: int| package_version(files[i].version@))
}

/// Parses the version of every package file.
pub fn package_versions(files: &[TypstPackageFile]) -> (r: Vec<Result<(u32, u32, u32), String>>)
    ensures
        r.len() == files.len(),
        version_views(r@) == parsed_versions(files@),
{
    let mut out: Vec<Result<(u32, u32, u32), String>> = Vec::new();
    let mut i: usize = 0;
    while i < files.len()
        invariant
            i <= files.len(),
            version_views(out@) == parsed_versions(files@).take(i as int),
        decreases files.len() - i,
    {
        let v = parse_package_version(files[i].version.as_str());
        let ghost before = version_views(out@);
        out.push(v);
        assert(version_views(out@) =~= before.push(version_view(v)));
        i += 1;
        assert(version_views(out@) =~= parsed_versions(files@).take(i as int));
    }
    assert(parsed_versions(files@).take(files.len() as int) =~= parsed_versions(files@));
    out
}

/// A package file handed to the renderer: its package with the version parsed, and its
/// path inside the package.
#[derive(Clone, Debug, PartialEq, Eq)]
pub struct PackageEntry {
    pub namespace: String,
    pub name: String,
    pub major: u32,
    pub minor: u32,
    pub patch: u32,
    pub path: String,
}

/// The package files handed to the renderer: the sources of the `.typ` files that have
/// text, and the bytes of every file.
#[derive(Clone, Debug, PartialEq, Eq)]
pub struct PackageInputs {
    pub sources: Vec<(PackageEntry, String)>,
    pub binaries: Vec<(PackageEntry, Vec<u8>)>,
}

pub type EntryView = (Seq<char>, Seq<char>, (u32, u32, u32), Seq<char>);

pub open spec fn entry_view(e: PackageEntry) -> EntryView {
    (e.namespace@, e.name@, (e.major, e.minor, e.patch), e.path@)
}

/// A package file whose text is handed to the renderer as a source.
pub open spec fn is_package_source(f: TypstPackageFile) -> bool {
    ends_with(f.path@, ".typ"@) && f.source is Some
}

/// The error of the first file (among the sources only, or among all) whose version
/// does not parse.
pub open spec fn first_version_error(
    files: Seq<TypstPackageFile>,
    vers: Seq<Result<(u32, u32, u32), Seq<char>>>,
    sources_only: bool,
) -> Option<Seq<char>>
    decreases files.len(),
{
    if files.len() == 0 {
        None
    } else {
        match first_version_error(files.drop_last(), vers, sources_only) {
            Some(e) => Some(e),
            None => {
                let k = files.len() - 1;
                if (!sources_only || is_package_source(files[k])) && vers[k] is Err {
                    Some(vers[k]->Err_0)
                } else {
                    None
                }
            },
        }
    }
}

/// The renderer's entry for the file at index `k`.
pub open spec fn entry_at(files: Seq<TypstPackageFile>, vers: Seq<Result<(u32, u32, u32), Seq<char>>>, k: int) -> EntryView {
    (files[k].namespace@, files[k].name@, vers[k]->Ok_0, files[k].path@)
}

/// The source entries, in order.
pub open spec fn source_entries(files: Seq<TypstPackageFile>, vers: Seq<Result<(u32, u32, u32), Seq<char>>>) -> Seq<
    (EntryView, Seq<char>),
>
    decreases files.len(),
{
    if files.len() == 0 {
        Seq::empty()
    } else {
        let prev = source_entries(files.drop_last(), vers);
        let k = files.len() - 1;
        if is_package_source(files[k]) {
            prev.push((entry_at(files, vers, k), files[k].source->Some_0@))
        } else {
            prev
        }
    }
}

/// The byte entries of all files, in order.
pub open spec fn binary_entries(files: Seq<TypstPackageFile>, vers: Seq<Result<(u32, u32, u32), Seq<char>>>) -> Seq<
    (EntryView, Seq<u8>),
> {
    Seq::new(files.len(), |k: int| (entry_at(files, vers, k), files[k].bytes@))
}

pub open spec fn inputs_view(r: Result<PackageInputs, String>) -> Result<
    (Seq<(EntryView, Seq<char>)>, Seq<(EntryView, Seq<u8>)>),
    Seq<char>,
> {
    match r {
        Ok(p) => Ok(
            (
                Seq::new(p.sources@.len(), |i: int| (entry_view(p.sources@[i].0), p.sources@[i].1@)),
                Seq::new(p.binaries@.len(), |i: int| (entry_view(p.binaries@[i].0), p.binaries@[i].1@)),
            ),
        ),
        Err(e) => Err(e@),
    }
}

/// What the renderer is given of the package files, or the error of the first version
/// that does not parse (sources first, then all files).
pub open spec fn spec_package_inputs(
    files: Seq<TypstPackageFile>,
    vers: Seq<Result<(u32, u32, u32), Seq<char>>>,
) -> Result<(Seq<(EntryView, Seq<char>)>, Seq<(EntryView, Seq<u8>)>), Seq<char>> {
    match first_version_error(files, vers, true) {
        Some(e) => Err(e),
        None => match first_version_error(files, vers, false) {
            Some(e) => Err(e),
            None => Ok((source_entries(files, vers), binary_entries(files, vers))),
        },
    }
}

pub proof fn lemma_first_error_extends(
    files: Seq<TypstPackageFile>,
    vers: Seq<Result<(u32, u32, u32), Seq<char>>>,
    only: bool,
    i: int,
)
    requires
        0 <= i <= files.len(),
        first_version_error(files.take(i), vers, only) is Some,
    ensures
        first_version_error(files, vers, only) == first_version_error(files.take(i), vers, only),
    decreases files.len() - i,
{
    if i < files.len() {
        assert(files.take(i + 1).drop_last() =~= files.take(i));
        lemma_first_error_extends(files, vers, only, i + 1);
    } else {
        assert(files.take(i) =~= files);
    }
}

fn make_entry(f: &TypstPackageFile, version: (u32, u32, u32)) -> (r: PackageEntry)
    ensures
        entry_view(r) == (f.namespace@, f.name@, version, f.path@),
{
    PackageEntry {
        namespace: f.namespace.clone(),
        name: f.name.clone(),
        major: version.0,
        minor: version.1,
        patch: version.2,
        path: f.path.clone(),
    }
}

/// Pairs the package files with their parsed versions for the renderer.
pub fn package_inputs(files: &[TypstPackageFile], versions: &[Result<(u32, u32, u32), String>]) -> (r: Result<
    PackageInputs,
    String,
>)
    requires
        versions.len() == files.len(),
    ensures
        inputs_view(r) == spec_package_inputs(files@, version_views(versions@)),
{
    let ghost vers = version_views(versions@);
    let ext = chars_of(".typ");
    let mut sources: Vec<(PackageEntry, String)> = Vec::new();
    let mut i: usize = 0;
    while i < files.len()
        invariant
            i <= files.len(),
            versions.len() == files.len(),
            vers == version_views(versions@),
            ext@ == ".typ"@,
            first_version_error(files@.take(i as int), vers, true) is None,
            Seq::new(sources@.len(), |j: int| (entry_view(sources@[j].0), sources@[j].1@))
                == source_entries(files@.take(i as int), vers),
        decreases files.len() - i,
    {
        let f = &files[i];
        let ghost cur = files@.take(i as int + 1);
        assert(cur.drop_last() =~= files@.take(i as int));
        assert(cur[i as int] == files@[i as int]);
        assert(vers[i as int] == version_view(versions@[i as int]));
        let path = chars_of(f.path.as_str());
        if has_suffix(&path, &ext) && f.source.is_some() {
            match &versions[i] {
                Err(e) => {
                    proof {
                        lemma_first_error_extends(files@, vers, true, i as int + 1);
                    }
                    return Err(e.clone());
                },
                Ok(v) => {
                    let entry = make_entry(f, *v);
                    let text = match &f.source {
                        Some(t) => t.clone(),
                        None => String::new(),
                    };
                    let ghost before = Seq::new(sources@.len(), |j: int| (entry_view(sources@[j].0), sources@[j].1@));
                    sources.push((entry, text));
                    assert(Seq::new(sources@.len(), |j: int| (entry_view(sources@[j].0), sources@[j].1@))
                        =~= before.push((entry_at(cur, vers, i as int), cur[i as int].source->Some_0@)));
                },
            }
        }
        i += 1;
    }
    assert(files@.take(files.len() as int) =~= files@);
    let mut binaries: Vec<(PackageEntry, Vec<u8>)> = Vec::new();
    let mut i: usize = 0;
    while i < files.len()
        invariant
            i <= files.len(),
            versions.len() == files.len(),
            vers == version_views(versions@),
            first_version_error(files@.take(i as int), vers, false) is None,
            first_version_error(files@, vers, true) is None,
            Seq::new(sources@.len(), |j: int| (entry_view(sources@[j].0), sources@[j].1@))
                == source_entries(files@, vers),
            Seq::new(binaries@.len(), |j: int| (entry_view(binaries@[j].0), binaries@[j].1@))
                == binary_entries(files@, vers).take(i as int),
        decreases files.len() - i,
    {
        let f = &files[i];
        let ghost cur = files@.take(i as int + 1);
        assert(cur.drop_last() =~= files@.take(i as int));
        assert(vers[i as int] == version_view(versions@[i as int]));
        match &versions[i] {
            Err(e) => {
                proof {
                    lemma_first_error_extends(files@, vers, false, i as int + 1);
                }
                return Err(e.clone());
            },
            Ok(v) => {
                let entry = make_entry(f, *v);
                let bytes = f.bytes.clone();
                assert(bytes@ =~= f.bytes@);
                let ghost before = Seq::new(binaries@.len(), |j: int| (entry_view(binaries@[j].0), binaries@[j].1@));
                assert(binary_entries(files@, vers)[i as int] == (entry_view(entry), bytes@));
                let ghost pair = (entry_view(entry), bytes@);
                binaries.push((entry, bytes));
                assert(Seq::new(binaries@.len(), |j: int| (entry_view(binaries@[j].0), binaries@[j].1@))
                    =~= before.push(pair));
                assert(Seq::new(binaries@.len(), |j: int| (entry_view(binaries@[j].0), binaries@[j].1@))
                    =~= binary_entries(files@, vers).take(i as int + 1));
            },
        }
        i += 1;
    }
    assert(files@.take(files.len() as int) =~= files@);
    assert(binary_entries(files@, vers).take(files.len() as int) =~= binary_entries(files@, vers));
    Ok(PackageInputs { sources, binaries })
}

/// What the renderer is given of the project's package files: versions parsed, or the
/// error of the first that does not parse.
pub fn render_package_inputs(project: &Project) -> (r: Result<PackageInputs, String>)
    ensures
        inputs_view(r) == spec_package_inputs(project.package_files@, parsed_versions(project.package_files@)),
{
    let versions = package_versions(project.package_files.as_slice());
    package_inputs(project.package_files.as_slice(), versions.as_slice())
}

/// The bytes the package files add to a render's cache key: for each file, its
/// namespace, name, version and path in UTF-8, then its bytes.
pub open spec fn package_key_bytes(files: Seq<TypstPackageFile>) -> Seq<u8>
    decreases files.len(),
{
    if files.len() == 0 {
        Seq::empty()
    } else {
        let f = files.last();
        package_key_bytes(files.drop_last()) + encode_utf8(f.namespace@) + encode_utf8(f.name@)
            + encode_utf8(f.version@) + encode_utf8(f.path@) + f.bytes@
    }
}

/// The bytes a render's cache key digests: the project's label, the file's path and
/// source, then the package files.
pub open spec fn cache_key_bytes(project: Project, file: TypstFile) -> Seq<u8> {
    encode_utf8(project.source_label@) + encode_utf8(file.path@) + encode_utf8(file.source@)
        + package_key_bytes(project.package_files@)
}

/// A render's cache key: the lowercase hex SHA-256 digest of `cache_key_bytes`.
pub open spec fn spec_render_cache_key(project: Project, file: TypstFile) -> Seq<char> {
    hex_lower(sha256(cache_key_bytes(project, file)))
}

/// Everything a render reads besides the workspace files is in its cache key: two
/// renders of files with the same path and source, in projects with the same label, the
/// same package files and the same workspace files, get the same cache key, the same
/// sources and the same package inputs, so a cached render stands for a fresh one as
/// long as the workspace files under a key do not change.
pub proof fn lemma_cache_key_covers_render_inputs(p1: Project, p2: Project, f1: TypstFile, f2: TypstFile)
    requires
        p1.source_label@ == p2.source_label@,
        p1.files@ == p2.files@,
        p1.package_files@ == p2.package_files@,
        f1.path@ == f2.path@,
        f1.source@ == f2.source@,
    ensures
        spec_render_cache_key(p1, f1) == spec_render_cache_key(p2, f2),
        render_source_map(p1.files@, f1) == render_source_map(p2.files@, f2),
        spec_package_inputs(p1.package_files@, parsed_versions(p1.package_files@)) == spec_package_inputs(
            p2.package_files@,
            parsed_versions(p2.package_files@),
        ),
{
    assert(cache_key_bytes(p1, f1) == cache_key_bytes(p2, f2));
}

/// The key under which the rendering of a file in a project is cached.
#[verifier::spinoff_prover]
#[verifier::rlimit(30)]
pub fn render_cache_key(project: &Project, file: &TypstFile) -> (r: String)
    ensures
        r@ == spec_render_cache_key(*project, *file),
{
    let mut bytes: Vec<u8> = Vec::new();
    push_utf8(&mut bytes, project.source_label.as_str());
    push_utf8(&mut bytes, file.path.as_str());
    push_utf8(&mut bytes, file.source.as_str());
    let ghost head = bytes@;
    assert(head =~= encode_utf8(project.source_label@) + encode_utf8(file.path@) + encode_utf8(file.source@));
    let pkgs = &project.package_files;
    let mut i: usize = 0;
    assert(pkgs@.take(0) =~= Seq::<TypstPackageFile>::empty());
    assert(bytes@ =~= head + package_key_bytes(pkgs@.take(0)));
    while i < pkgs.len()
        invariant
            i <= pkgs.len(),
            bytes@ == head + package_key_bytes(pkgs@.take(i as int)),
        decreases pkgs.len() - i,
    {
        let f = &pkgs[i];
        push_utf8(&mut bytes, f.namespace.as_str());
        push_utf8(&mut bytes, f.name.as_str());
        push_utf8(&mut bytes, f.version.as_str());
        push_utf8(&mut bytes, f.path.as_str());
        push_bytes(&mut bytes, f.bytes.as_slice());
        assert(pkgs@.take(i as int + 1).drop_last() =~= pkgs@.take(i as int));
        i += 1;
        assert(bytes@ =~= head + package_key_bytes(pkgs@.take(i as int)));
    }
    assert(pkgs@.take(pkgs.len() as int) =~= pkgs@);
    assert(bytes@ =~= cache_key_bytes(*project, *file));
    let digest = sha256_digest(bytes.as_slice());
    to_hex_lower(digest.as_slice())
}

} // verus!
