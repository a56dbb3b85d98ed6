use vstd::prelude::*;
use vstd::utf8::encode_utf8;
use crate::digest::{hex_lower, push_utf8, sha256, sha256_digest, to_hex_lower};
use crate::flashcards::{pairs_view, parse_flashcards, spec_parse_flashcards};
use crate::model::{Flashcard, TypstFile};
use crate::text::{chars_eq, chars_of, insert_sorted, strictly_sorted, views_of};

verus! {

broadcast use vstd::string::group_string_axioms;

/// The texts of a flashcard.
pub struct FlashcardView {
    pub id: Seq<char>,
    pub deck: Seq<char>,
    pub source_path: Seq<char>,
    pub question: Seq<char>,
    pub answer: Seq<char>,
}

impl View for Flashcard {
    type V = FlashcardView;

    open spec fn view(&self) -> FlashcardView {
        FlashcardView {
            id: self.id@,
            deck: self.deck@,
            source_path: self.source_path@,
            question: self.question@,
            answer: self.answer@,
        }
    }
}

pub open spec fn card_views(v: Seq<Flashcard>) -> Seq<FlashcardView> {
    Seq::new(v.len(), |i: int| v[i]@)
}

/// A card's id: the lowercase hex SHA-256 digest of the UTF-8 bytes of its deck, its
/// file's path and its question, one after the other.
pub open spec fn card_id(deck: Seq<char>, path: Seq<char>, question: Seq<char>) -> Seq<char> {
    hex_lower(sha256(encode_utf8(deck) + encode_utf8(path) + encode_utf8(question)))
}

/// The cards of one file, in the order of their calls.
pub open spec fn file_cards(f: TypstFile) -> Seq<FlashcardView> {
    let pairs = spec_parse_flashcards(f.source@);
    Seq::new(
        pairs.len(),
        |i: int|
            FlashcardView {
                id: card_id(f.deck@, f.path@, pairs[i].0),
                deck: f.deck@,
                source_path: f.path@,
                question: pairs[i].0,
                answer: pairs[i].1,
            },
    )
}

/// The cards of all files, file by file.
pub open spec fn spec_extract_cards(files: Seq<TypstFile>) -> Seq<FlashcardView>
    decreases files.len(),
{
    if files.len() == 0 {
        Seq::empty()
    } else {
        spec_extract_cards(files.drop_last()) + file_cards(files.last())
    }
}

/// A card id holds no slash (it is hexadecimal).
pub proof fn lemma_card_id_no_slash(deck: Seq<char>, path: Seq<char>, question: Seq<char>)
    ensures
        !card_id(deck, path, question).contains('/'),
{
    crate::digest::lemma_hex_lower_no_slash(
        sha256(encode_utf8(deck) + encode_utf8(path) + encode_utf8(question)),
    );
}

/// No extracted card id holds a slash.
pub proof fn lemma_extracted_ids_no_slash(files: Seq<TypstFile>)
    ensures
        forall|i: int| 0 <= i < spec_extract_cards(files).len() ==> !(#[trigger] spec_extract_cards(files)[i]).id.contains('/'),
    decreases files.len(),
{
    if files.len() > 0 {
        let prev = spec_extract_cards(files.drop_last());
        let last = file_cards(files.last());
        lemma_extracted_ids_no_slash(files.drop_last());
        assert forall|i: int| 0 <= i < spec_extract_cards(files).len() implies !(#[trigger] spec_extract_cards(files)[i]).id.contains('/') by {
            if i < prev.len() {
                assert(spec_extract_cards(files)[i] == prev[i]);
            } else {
                let j = i - prev.len();
                assert(spec_extract_cards(files)[i] == last[j]);
                let pairs = spec_parse_flashcards(files.last().source@);
                lemma_card_id_no_slash(files.last().deck@, files.last().path@, pairs[j].0);
            }
        }
    }
}

/// Computes a card's id.
pub fn make_card_id(deck: &str, path: &str, question: &str) -> (r: String)
    ensures
        r@ == card_id(deck@, path@, question@),
{
    let mut bytes: Vec<u8> = Vec::new();
    push_utf8(&mut bytes, deck);
    push_utf8(&mut bytes, path);
    push_utf8(&mut bytes, question);
    assert(bytes@ =~= encode_utf8(deck@) + encode_utf8(path@) + encode_utf8(question@));
    let digest = sha256_digest(bytes.as_slice());
    to_hex_lower(digest.as_slice())
}

/// Collects the flashcards of all files.
pub fn extract_cards(files: &[TypstFile]) -> (r: Vec<Flashcard>)
    ensures
        card_views(r@) == spec_extract_cards(files@),
{
    let mut cards: Vec<Flashcard> = Vec::new();
    let mut i: usize = 0;
    assert(files@.take(0) =~= Seq::<TypstFile>::empty());
    while i < files.len()
        invariant
            i <= files.len(),
            card_views(cards@) == spec_extract_cards(files@.take(i as int)),
        decreases files.len() - i,
    {
        let file = &files[i];
        let pairs = parse_flashcards(file.source.as_str());
        let ghost base = card_views(cards@);
        let ghost fc = file_cards(*file);
        let mut j: usize = 0;
        while j < pairs.len()
            invariant
                j <= pairs.len(),
                i < files.len(),
                file == &files[i as int],
                fc == file_cards(*file),
                pairs_view(pairs@) == spec_parse_flashcards(file.source@),
                card_views(cards@) == base + fc.take(j as int),
            decreases pairs.len() - j,
        {
            let question = pairs[j].0.clone();
            let answer = pairs[j].1.clone();
            let id = make_card_id(file.deck.as_str(), file.path.as_str(), question.as_str());
            assert(pairs_view(pairs@)[j as int] == (question@, answer@));
            let ghost prev = cards@;
            cards.push(Flashcard {
                id,
                deck: file.deck.clone(),
                source_path: file.path.clone(),
                question,
                answer,
            });
            assert(spec_parse_flashcards(file.source@)[j as int] == (question@, answer@));
            assert(cards@.last()@ == fc[j as int]);
            assert(card_views(cards@) =~= card_views(prev).push(fc[j as int]));
            assert(fc.take(j + 1) =~= fc.take(j as int).push(fc[j as int]));
            j += 1;
            assert(card_views(cards@) =~= base + fc.take(j as int));
        }
        assert(fc.take(pairs.len() as int) =~= fc);
        assert(files@.take(i + 1).drop_last() =~= files@.take(i as int));
        assert(files@.take(i + 1).last() == files@[i as int]);
        i += 1;
    }
    assert(files@.take(files.len() as int) =~= files@);
    cards
}

/// Number of cards whose source file is `path`.
pub open spec fn count_cards_for(cards: Seq<Flashcard>, path: Seq<char>) -> nat
    decreases cards.len(),
{
    if cards.len() == 0 {
        0
    } else {
        count_cards_for(cards.drop_last(), path) + if cards.last().source_path@ == path {
            1nat
        } else {
            0nat
        }
    }
}

/// Counts the cards that come from the file at `path`.
pub fn card_count_for(cards: &[Flashcard], path: &str) -> (r: usize)
    ensures
        r == count_cards_for(cards@, path@),
{
    let pc = chars_of(path);
    let mut n: usize = 0;
    let mut i: usize = 0;
    assert(cards@.take(0) =~= Seq::<Flashcard>::empty());
    while i < cards.len()
        invariant
            i <= cards.len(),
            n <= i,
            pc@ == path@,
            n == count_cards_for(cards@.take(i as int), path@),
        decreases cards.len() - i,
    {
        assert(cards@.take(i + 1).drop_last() =~= cards@.take(i as int));
        let sc = chars_of(cards[i].source_path.as_str());
        if chars_eq(&sc, &pc) {
            n += 1;
        }
        i += 1;
    }
    assert(cards@.take(cards.len() as int) =~= cards@);
    n
}

/// The decks that cards belong to.
pub open spec fn deck_set(cards: Seq<Flashcard>) -> Set<Seq<char>> {
    Set::new(|d: Seq<char>| exists|i: int| 0 <= i < cards.len() && #[trigger] cards[i].deck@ == d)
}

/// The decks of the cards, sorted, each once.
pub fn card_decks(cards: &[Flashcard]) -> (r: Vec<String>)
    ensures
        strictly_sorted(views_of(r@)),
        views_of(r@).to_set() == deck_set(cards@),
{
    let mut decks: Vec<String> = Vec::new();
    let mut i: usize = 0;
    assert(views_of(decks@).to_set() =~= Set::<Seq<char>>::empty());
    while i < cards.len()
        invariant
            i <= cards.len(),
            strictly_sorted(views_of(decks@)),
            views_of(decks@).to_set() == Set::new(
                |d: Seq<char>| exists|k: int| 0 <= k < i && #[trigger] cards@[k].deck@ == d,
            ),
        decreases cards.len() - i,
    {
        insert_sorted(&mut decks, cards[i].deck.clone());
        assert(views_of(decks@).to_set() =~= Set::new(
            |d: Seq<char>| exists|k: int| 0 <= k < i + 1 && #[trigger] cards@[k].deck@ == d,
        )) by {
            assert(cards@[i as int].deck@ == cards[i as int].deck@);
        }
        i += 1;
    }
    assert(views_of(decks@).to_set() =~= deck_set(cards@));
    decks
}

} // verus!
