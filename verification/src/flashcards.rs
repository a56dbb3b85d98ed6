use vstd::prelude::*;
use crate::text::{
    chars_of, copy_range, find_chars, find_from, lemma_find_from_range, string_of, trim,
    trim_bounds, unescape_quotes, unescape_quotes_exec,
};

verus! {

broadcast use vstd::string::group_string_axioms;

/// Adds `k` to a found position.
pub open spec fn shift(o: Option<int>, k: int) -> Option<int> {
    match o {
        Some(x) => Some(x + k),
        None => None,
    }
}

pub open spec fn opt_usize(r: Option<usize>) -> Option<int> {
    match r {
        Some(x) => Some(x as int),
        None => None,
    }
}

/// Quote state after one character inside a string literal:
/// (still quoted, next character escaped).
pub open spec fn quoted_step(c: char, escape: bool) -> (bool, bool) {
    if escape {
        (true, false)
    } else if c == '\\' {
        (true, true)
    } else if c == '"' {
        (false, false)
    } else {
        (true, false)
    }
}

/// Position in `s` of the parenthesis that brings the nesting depth (starting at
/// `depth`) back to zero; characters inside string literals are skipped.
pub open spec fn close_scan(s: Seq<char>, depth: int, quote: bool, escape: bool) -> Option<int>
    decreases s.len(),
{
    if s.len() == 0 {
        None
    } else {
        let c = s[0];
        let rest = s.drop_first();
        if quote {
            let (q, e) = quoted_step(c, escape);
            shift(close_scan(rest, depth, q, e), 1)
        } else if c == '"' {
            shift(close_scan(rest, depth, true, escape), 1)
        } else if c == '(' {
            shift(close_scan(rest, depth + 1, false, escape), 1)
        } else if c == ')' {
            if depth - 1 == 0 {
                Some(0)
            } else {
                shift(close_scan(rest, depth - 1, false, escape), 1)
            }
        } else {
            shift(close_scan(rest, depth, false, escape), 1)
        }
    }
}

/// The parenthesis that closes the one at `open`.
pub open spec fn spec_find_balanced_close(s: Seq<char>, open: int) -> Option<int> {
    if open > s.len() {
        None
    } else {
        shift(close_scan(s.skip(open), 0, false, false), open)
    }
}

pub proof fn lemma_close_scan_range(s: Seq<char>, depth: int, quote: bool, escape: bool)
    ensures
        close_scan(s, depth, quote, escape) matches Some(k) ==> 0 <= k < s.len() && s[k] == ')',
    decreases s.len(),
{
    if s.len() > 0 {
        let c = s[0];
        let rest = s.drop_first();
        if quote {
            let (q, e) = quoted_step(c, escape);
            lemma_close_scan_range(rest, depth, q, e);
        } else if c == '"' {
            lemma_close_scan_range(rest, depth, true, escape);
        } else if c == '(' {
            lemma_close_scan_range(rest, depth + 1, false, escape);
        } else if c == ')' {
            lemma_close_scan_range(rest, depth - 1, false, escape);
        } else {
            lemma_close_scan_range(rest, depth, false, escape);
        }
    }
}

/// Finds the parenthesis that closes the one at `open`, skipping string literals
/// (with backslash escapes); positions count characters.
fn close_paren_index(chars: &[char], open: usize) -> (r: Option<usize>)
    ensures
        opt_usize(r) == spec_find_balanced_close(chars@, open as int),
{
    if open > chars.len() {
        return None;
    }
    let mut opens: usize = 0;
    let mut closes: usize = 0;
    let mut quote = false;
    let mut escape = false;
    let mut i = open;
    assert(chars@.skip(open as int) =~= chars@.skip(i as int));
    while i < chars.len()
        invariant
            open <= i <= chars.len(),
            opens <= i - open,
            closes <= i - open,
            spec_find_balanced_close(chars@, open as int) == shift(
                close_scan(chars@.skip(i as int), opens - closes, quote, escape),
                i as int,
            ),
        decreases chars.len() - i,
    {
        let c = chars[i];
        let ghost rest = chars@.skip(i as int);
        assert(rest[0] == c);
        assert(rest.drop_first() =~= chars@.skip(i + 1));
        if quote {
            if escape {
                escape = false;
            } else if c == '\\' {
                escape = true;
            } else if c == '"' {
                quote = false;
            }
        } else if c == '"' {
            quote = true;
        } else if c == '(' {
            opens += 1;
        } else if c == ')' {
            closes += 1;
            if opens == closes {
                return Some(i);
            }
        }
        i += 1;
    }
    assert(chars@.skip(i as int) =~= Seq::<char>::empty());
    None
}

/// The bytes of a text read one character each (only ASCII bytes matter to the scan).
pub open spec fn byte_chars(b: Seq<u8>) -> Seq<char> {
    Seq::new(b.len(), |i: int| b[i] as char)
}

/// Finds the parenthesis that closes the one at byte `open` of UTF-8 text, skipping
/// string literals (with backslash escapes); positions count bytes.
pub fn find_balanced_close(bytes: &[u8], open: usize) -> (r: Option<usize>)
    ensures
        opt_usize(r) == spec_find_balanced_close(byte_chars(bytes@), open as int),
{
    let ghost s = byte_chars(bytes@);
    if open > bytes.len() {
        return None;
    }
    let mut opens: usize = 0;
    let mut closes: usize = 0;
    let mut quote = false;
    let mut escape = false;
    let mut i = open;
    while i < bytes.len()
        invariant
            open <= i <= bytes.len(),
            s == byte_chars(bytes@),
            opens <= i - open,
            closes <= i - open,
            spec_find_balanced_close(s, open as int) == shift(
                close_scan(s.skip(i as int), opens - closes, quote, escape),
                i as int,
            ),
        decreases bytes.len() - i,
    {
        let b = bytes[i];
        let ghost rest = s.skip(i as int);
        let ghost c = rest[0];
        assert(c == b as char);
        assert(rest.drop_first() =~= s.skip(i + 1));
        assert((b == 92u8) == (c == '\\'));
        assert((b == 34u8) == (c == '"'));
        assert((b == 40u8) == (c == '('));
        assert((b == 41u8) == (c == ')'));
        if quote {
            if escape {
                escape = false;
            } else if b == 92u8 {
                escape = true;
            } else if b == 34u8 {
                quote = false;
            }
        } else if b == 34u8 {
            quote = true;
        } else if b == 40u8 {
            opens += 1;
        } else if b == 41u8 {
            closes += 1;
            if opens == closes {
                return Some(i);
            }
        }
        i += 1;
    }
    assert(s.skip(i as int) =~= Seq::<char>::empty());
    None
}

/// Position of the first comma outside brackets and string literals.
pub open spec fn comma_scan(s: Seq<char>, depth: int, quote: bool, escape: bool) -> Option<int>
    decreases s.len(),
{
    if s.len() == 0 {
        None
    } else {
        let c = s[0];
        let rest = s.drop_first();
        if quote {
            let (q, e) = quoted_step(c, escape);
            shift(comma_scan(rest, depth, q, e), 1)
        } else if c == '"' {
            shift(comma_scan(rest, depth, true, escape), 1)
        } else if c == '(' || c == '[' || c == '{' {
            shift(comma_scan(rest, depth + 1, false, escape), 1)
        } else if c == ')' || c == ']' || c == '}' {
            shift(comma_scan(rest, depth - 1, false, escape), 1)
        } else if c == ',' && depth == 0 {
            Some(0)
        } else {
            shift(comma_scan(rest, depth, false, escape), 1)
        }
    }
}

pub proof fn lemma_comma_scan_range(s: Seq<char>, depth: int, quote: bool, escape: bool)
    ensures
        comma_scan(s, depth, quote, escape) matches Some(k) ==> 0 <= k < s.len() && s[k] == ',',
    decreases s.len(),
{
    if s.len() > 0 {
        let c = s[0];
        let rest = s.drop_first();
        if quote {
            let (q, e) = quoted_step(c, escape);
            lemma_comma_scan_range(rest, depth, q, e);
        } else if c == '"' {
            lemma_comma_scan_range(rest, depth, true, escape);
        } else if c == '(' || c == '[' || c == '{' {
            lemma_comma_scan_range(rest, depth + 1, false, escape);
        } else if c == ')' || c == ']' || c == '}' {
            lemma_comma_scan_range(rest, depth - 1, false, escape);
        } else if !(c == ',' && depth == 0) {
            lemma_comma_scan_range(rest, depth, false, escape);
        }
    }
}

/// The text before and after the first top-level comma.
pub open spec fn spec_split_args(s: Seq<char>) -> Option<(Seq<char>, Seq<char>)> {
    match comma_scan(s, 0, false, false) {
        Some(k) => Some((s.take(k), s.skip(k + 1))),
        None => None,
    }
}

/// Position of the first comma outside brackets and string literals.
fn top_level_comma(s: &[char]) -> (r: Option<usize>)
    ensures
        opt_usize(r) == comma_scan(s@, 0, false, false),
{
    let mut opens: usize = 0;
    let mut closes: usize = 0;
    let mut quote = false;
    let mut escape = false;
    let mut i: usize = 0;
    assert(s@.skip(0) =~= s@);
    while i < s.len()
        invariant
            i <= s.len(),
            opens <= i,
            closes <= i,
            comma_scan(s@, 0, false, false) == shift(
                comma_scan(s@.skip(i as int), opens - closes, quote, escape),
                i as int,
            ),
        decreases s.len() - i,
    {
        let c = s[i];
        let ghost rest = s@.skip(i as int);
        assert(rest[0] == c);
        assert(rest.drop_first() =~= s@.skip(i + 1));
        if quote {
            if escape {
                escape = false;
            } else if c == '\\' {
                escape = true;
            } else if c == '"' {
                quote = false;
            }
        } else if c == '"' {
            quote = true;
        } else if c == '(' || c == '[' || c == '{' {
            opens += 1;
        } else if c == ')' || c == ']' || c == '}' {
            closes += 1;
        } else if c == ',' && opens == closes {
            return Some(i);
        }
        i += 1;
    }
    assert(s@.skip(i as int) =~= Seq::<char>::empty());
    None
}

/// Splits call arguments at the first comma outside brackets and string literals.
pub fn split_top_level_args(input: &str) -> (r: Option<(&str, &str)>)
    ensures
        match r {
            Some((a, b)) => spec_split_args(input@) == Some((a@, b@)),
            None => spec_split_args(input@) is None,
        },
{
    let chars = chars_of(input);
    match top_level_comma(&chars) {
        Some(k) => {
            proof {
                lemma_comma_scan_range(chars@, 0, false, false);
            }
            let n = input.unicode_len();
            let a = input.substring_char(0, k);
            let b = input.substring_char(k + 1, n);
            assert(a@ =~= input@.take(k as int));
            assert(b@ =~= input@.skip(k + 1));
            Some((a, b))
        },
        None => None,
    }
}

/// A flashcard argument as written: trimmed, with string quotes (and their escapes)
/// or content brackets removed.
pub open spec fn spec_clean_arg(s: Seq<char>) -> Seq<char> {
    let t = trim(s);
    if t.len() >= 2 && t[0] == '"' && t.last() == '"' {
        unescape_quotes(t.subrange(1, t.len() - 1))
    } else if t.len() >= 2 && t[0] == '[' && t.last() == ']' {
        trim(t.subrange(1, t.len() - 1))
    } else {
        t
    }
}

/// A flashcard argument cleans to the same text however it is spread over lines:
/// whitespace (line breaks included) around it changes nothing.
pub proof fn lemma_clean_arg_ignores_surrounding_space(s: Seq<char>, c: char)
    requires
        crate::text::is_ascii_space(c) || crate::text::is_non_ascii_space(c),
    ensures
        spec_clean_arg(seq![c] + s + seq![c]) == spec_clean_arg(s),
{
    crate::text::lemma_trim_ignores_ascii_space(s, c);
}

fn clean_chars(s: &[char]) -> (r: Vec<char>)
    ensures
        r@ == spec_clean_arg(s@),
{
    let (a, b) = trim_bounds(s);
    let t = copy_range(s, a, b);
    let n = t.len();
    if n >= 2 && t[0] == '"' && t[n - 1] == '"' {
        let inner = copy_range(&t, 1, n - 1);
        unescape_quotes_exec(&inner)
    } else if n >= 2 && t[0] == '[' && t[n - 1] == ']' {
        let inner = copy_range(&t, 1, n - 1);
        let (c, d) = trim_bounds(&inner);
        copy_range(&inner, c, d)
    } else {
        t
    }
}

/// Cleans one flashcard argument: trims it and removes string quotes (unescaping `\"`)
/// or content brackets.
pub fn clean_typst_arg(input: &str) -> (r: String)
    ensures
        r@ == spec_clean_arg(input@),
{
    let chars = chars_of(input);
    let cleaned = clean_chars(&chars);
    string_of(&cleaned)
}

/// The call that marks a flashcard.
pub open spec fn card_call() -> Seq<char> {
    "flashcard("@
}

/// The (question, answer) pairs of the `flashcard(..)` calls in `s` from position `i` on.
pub open spec fn cards_from(s: Seq<char>, i: int) -> Seq<(Seq<char>, Seq<char>)>
    decreases s.len() - i,
{
    if i < 0 || i > s.len() {
        Seq::empty()
    } else {
        match find_from(s, card_call(), i) {
            None => Seq::empty(),
            Some(p) => {
                let open = p + card_call().len() - 1;
                match spec_find_balanced_close(s, open) {
                    None => Seq::empty(),
                    Some(end) => {
                        proof {
                            lemma_find_from_range(s, card_call(), i);
                            reveal_strlit("flashcard(");
                            lemma_close_scan_range(s.skip(open), 0, false, false);
                        }
                        let rest = cards_from(s, end + 1);
                        match spec_split_args(s.subrange(open + 1, end)) {
                            Some((q, a)) => seq![(spec_clean_arg(q), spec_clean_arg(a))] + rest,
                            None => rest,
                        }
                    },
                }
            },
        }
    }
}

/// The (question, answer) pairs of all `flashcard(..)` calls in a source text.
pub open spec fn spec_parse_flashcards(s: Seq<char>) -> Seq<(Seq<char>, Seq<char>)> {
    cards_from(s, 0)
}

pub open spec fn pairs_view(v: Seq<(String, String)>) -> Seq<(Seq<char>, Seq<char>)> {
    Seq::new(v.len(), |i: int| (v[i].0@, v[i].1@))
}

pub proof fn lemma_close_after_open(s: Seq<char>)
    requires
        s.len() > 0,
        s[0] == '(',
    ensures
        close_scan(s, 0, false, false) matches Some(k) ==> k >= 1,
{
    lemma_close_scan_range(s.drop_first(), 1, false, false);
}

/// Extracts the question and answer of every `flashcard(q, a)` call, in order.
pub fn parse_flashcards(source: &str) -> (r: Vec<(String, String)>)
    ensures
        pairs_view(r@) == spec_parse_flashcards(source@),
{
    let chars = chars_of(source);
    let pat = chars_of("flashcard(");
    proof {
        reveal_strlit("flashcard(");
    }
    assert(pat@[9] == '(');
    let mut out: Vec<(String, String)> = Vec::new();
    let mut index: usize = 0;
    loop
        invariant
            index <= chars.len(),
            pat@ == card_call(),
            pat.len() == 10,
            pat@[9] == '(',
            pairs_view(out@) + cards_from(chars@, index as int) == cards_from(chars@, 0),
        ensures
            pairs_view(out@) == cards_from(chars@, 0),
        decreases chars.len() - index,
    {
        let pos = match find_chars(&chars, &pat, index) {
            Some(p) => p,
            None => {
                assert(cards_from(chars@, index as int) =~= Seq::<(Seq<char>, Seq<char>)>::empty());
                assert(pairs_view(out@) + Seq::<(Seq<char>, Seq<char>)>::empty() =~= pairs_view(out@));
                break;
            },
        };
        proof {
            lemma_find_from_range(chars@, card_call(), index as int);
            assert(chars@[pos + 9] == chars@.subrange(pos as int, pos + 10)[9]);
        }
        let open = pos + 9;
        let end = match close_paren_index(&chars, open) {
            Some(e) => e,
            None => {
                assert(cards_from(chars@, index as int) =~= Seq::<(Seq<char>, Seq<char>)>::empty());
                assert(pairs_view(out@) + Seq::<(Seq<char>, Seq<char>)>::empty() =~= pairs_view(out@));
                break;
            },
        };
        proof {
            lemma_close_scan_range(chars@.skip(open as int), 0, false, false);
            lemma_close_after_open(chars@.skip(open as int));
        }
        let inside = copy_range(&chars, open + 1, end);
        let ghost before = pairs_view(out@);
        let ghost rest = cards_from(chars@, end + 1);
        match top_level_comma(&inside) {
            Some(k) => {
                proof {
                    lemma_comma_scan_range(inside@, 0, false, false);
                }
                assert(comma_scan(inside@, 0, false, false) == Some(k as int));
                assert(k < inside.len());
                let q = copy_range(&inside, 0, k);
                let a = copy_range(&inside, k + 1, inside.len());
                assert(q@ =~= inside@.take(k as int));
                assert(a@ =~= inside@.skip(k + 1));
                let qs = string_of(&clean_chars(&q));
                let as_ = string_of(&clean_chars(&a));
                out.push((qs, as_));
                assert(pairs_view(out@) =~= before + seq![
                    (spec_clean_arg(q@), spec_clean_arg(a@)),
                ]);
                assert(cards_from(chars@, index as int) == seq![
                    (spec_clean_arg(q@), spec_clean_arg(a@)),
                ] + rest);
            },
            None => {
                assert(pairs_view(out@) =~= before);
                assert(cards_from(chars@, index as int) == rest);
            },
        }
        index = end + 1;
    }
    out
}

} // verus!
