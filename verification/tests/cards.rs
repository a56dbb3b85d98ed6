use sha2::{Digest, Sha256};
use typst_web::cards::{card_count_for, card_decks, extract_cards, make_card_id};
use typst_web::flashcards::{
    clean_typst_arg, find_balanced_close, parse_flashcards, split_top_level_args,
};
use typst_web::model::{Flashcard, TypstFile};

fn pair(q: &str, a: &str) -> (String, String) {
    (q.to_string(), a.to_string())
}

fn file(path: &str, deck: &str, source: &str) -> TypstFile {
    TypstFile {
        path: path.to_string(),
        deck: deck.to_string(),
        source: source.to_string(),
    }
}

fn expected_id(deck: &str, path: &str, question: &str) -> String {
    let mut hasher = Sha256::new();
    hasher.update(deck.as_bytes());
    hasher.update(path.as_bytes());
    hasher.update(question.as_bytes());
    format!("{:x}", hasher.finalize())
}

#[test]
fn flashcard_calls_give_question_and_answer() {
    assert_eq!(
        parse_flashcards("#flashcard(\"Q1\", [A *1*])"),
        vec![pair("Q1", "A *1*")]
    );
    assert_eq!(
        parse_flashcards("x #flashcard(\"a\", \"b\") y #flashcard([c], [d])"),
        vec![pair("a", "b"), pair("c", "d")]
    );
}

#[test]
fn flashcard_arguments_keep_nesting_and_escapes() {
    assert_eq!(
        parse_flashcards("#flashcard(\"say \\\"hi\\\"\", \"x\")"),
        vec![pair("say \"hi\"", "x")]
    );
    assert_eq!(
        parse_flashcards("#flashcard(f(a, b), c)"),
        vec![pair("f(a, b)", "c")]
    );
    assert_eq!(
        parse_flashcards("#flashcard(\"a, (b\", [c, d])"),
        vec![pair("a, (b", "c, d")]
    );
}

#[test]
fn flashcard_calls_without_two_arguments_are_skipped() {
    assert_eq!(parse_flashcards("#flashcard(only) #flashcard(\"q\", \"a\")"), vec![pair("q", "a")]);
    assert_eq!(parse_flashcards("#flashcard(\"q\", \"a\""), Vec::<(String, String)>::new());
    assert_eq!(parse_flashcards("no cards here"), Vec::<(String, String)>::new());
}

#[test]
fn balanced_close_skips_quoted_parentheses() {
    assert_eq!(find_balanced_close("f(a(b)c)d".as_bytes(), 1), Some(7));
    assert_eq!(find_balanced_close("(\")\" x)".as_bytes(), 0), Some(6));
    assert_eq!(find_balanced_close("(a(b)".as_bytes(), 0), None);
    assert_eq!(find_balanced_close("(é)".as_bytes(), 0), Some(3));
    assert_eq!(find_balanced_close("(\"\\\")\")".as_bytes(), 0), Some(6));
    assert_eq!(find_balanced_close("()".as_bytes(), 5), None);
}

#[test]
fn top_level_comma_splits_arguments() {
    assert_eq!(split_top_level_args("a, b"), Some(("a", " b")));
    assert_eq!(split_top_level_args("[x, y], z"), Some(("[x, y]", " z")));
    assert_eq!(split_top_level_args("\"a,b\", c"), Some(("\"a,b\"", " c")));
    assert_eq!(split_top_level_args("{p, q}"), None);
    assert_eq!(split_top_level_args("abc"), None);
}

#[test]
fn arguments_are_cleaned() {
    assert_eq!(clean_typst_arg("  \"hi\"  "), "hi");
    assert_eq!(clean_typst_arg("[ body ]"), "body");
    assert_eq!(clean_typst_arg("\"a \\\"q\\\"\""), "a \"q\"");
    assert_eq!(clean_typst_arg("  x  "), "x");
    assert_eq!(clean_typst_arg("\""), "\"");
}

#[test]
fn card_ids_digest_deck_path_and_question() {
    assert_eq!(
        make_card_id("root", "index.typ", "What?"),
        expected_id("root", "index.typ", "What?")
    );
    assert_ne!(
        make_card_id("root", "index.typ", "What?"),
        make_card_id("root", "other.typ", "What?")
    );
}

#[test]
fn cards_are_extracted_file_by_file() {
    let files = vec![
        file("a.typ", "root", "#flashcard(\"q1\", \"a1\")"),
        file("d/b.typ", "d", "#flashcard(\"q2\", \"a2\") #flashcard(\"q3\", \"a3\")"),
    ];
    let cards = extract_cards(&files);
    assert_eq!(cards.len(), 3);
    assert_eq!(
        cards[0],
        Flashcard {
            id: expected_id("root", "a.typ", "q1"),
            deck: "root".to_string(),
            source_path: "a.typ".to_string(),
            question: "q1".to_string(),
            answer: "a1".to_string(),
        }
    );
    assert_eq!(cards[2].question, "q3");
    assert_eq!(cards[2].deck, "d");
    assert_eq!(card_count_for(&cards, "d/b.typ"), 2);
    assert_eq!(card_count_for(&cards, "missing.typ"), 0);
    assert_eq!(card_decks(&cards), vec!["d".to_string(), "root".to_string()]);
}
