use vstd::prelude::*;
use crate::model::{Flashcard, Project, TypstFile};
use crate::paths::opt_view;
use crate::srs::{build_review_queue_at, progress_wf, review_queue, ReviewMode};
use crate::text::{insert_sorted, strictly_sorted, views_of};

verus! {

broadcast use vstd::string::group_string_axioms;

/// A review session: the queued card ids, how far the session is, whether the answer
/// of the current card is shown, the mode and the chosen deck.
#[derive(Clone, Debug, Default, PartialEq, Eq)]
pub struct SrsSession {
    pub queue: Vec<String>,
    pub index: usize,
    pub showing_answer: bool,
    pub mode: ReviewMode,
    pub deck: Option<String>,
}

/// The queue a session of `mode` over `deck` holds when (re)started at time `now`.
pub open spec fn session_queue(project: Project, mode: ReviewMode, deck: Option<Seq<char>>, now: i64) -> Seq<
    Seq<char>,
> {
    review_queue(project.progress, project.cards@, mode, deck, now)
}

fn queue_for(project: &Project, mode: ReviewMode, deck: &Option<String>, now: i64) -> (r: Vec<String>)
    requires
        progress_wf(project.progress),
    ensures
        views_of(r@) == session_queue(*project, mode, opt_view(*deck), now),
{
    let d: Option<&str> = match deck {
        Some(s) => Some(s.as_str()),
        None => None,
    };
    build_review_queue_at(project, mode, d, now)
}

impl SrsSession {
    /// A session with nothing queued, in `Due` mode over all decks.
    pub fn new() -> (r: Self)
        ensures
            r.queue@.len() == 0,
            r.index == 0,
            !r.showing_answer,
            r.mode == ReviewMode::Due,
            r.deck is None,
    {
        SrsSession {
            queue: Vec::new(),
            index: 0,
            showing_answer: false,
            mode: ReviewMode::Due,
            deck: None,
        }
    }

    /// Switches to another mode and starts over with the queue of that mode.
    pub fn select_mode(&mut self, project: &Project, mode: ReviewMode, now: i64)
        requires
            progress_wf(project.progress),
        ensures
            final(self).mode == mode,
            final(self).deck == old(self).deck,
            views_of(final(self).queue@) == session_queue(*project, mode, opt_view(old(self).deck), now),
            final(self).index == 0,
            !final(self).showing_answer,
    {
        self.mode = mode;
        self.queue = queue_for(project, mode, &self.deck, now);
        self.index = 0;
        self.showing_answer = false;
    }

    /// Starts over with a fresh queue of the current mode and deck.
    pub fn restart(&mut self, project: &Project, now: i64)
        requires
            progress_wf(project.progress),
        ensures
            final(self).mode == old(self).mode,
            final(self).deck == old(self).deck,
            views_of(final(self).queue@) == session_queue(
                *project,
                old(self).mode,
                opt_view(old(self).deck),
                now,
            ),
            final(self).index == 0,
            !final(self).showing_answer,
    {
        self.queue = queue_for(project, self.mode, &self.deck, now);
        self.index = 0;
        self.showing_answer = false;
    }

    /// Chooses a deck (or all decks) and starts over with the queue of the current mode.
    pub fn select_deck(&mut self, project: &Project, deck: Option<String>, now: i64)
        requires
            progress_wf(project.progress),
        ensures
            final(self).mode == old(self).mode,
            final(self).deck == deck,
            views_of(final(self).queue@) == session_queue(*project, old(self).mode, opt_view(deck), now),
            final(self).index == 0,
            !final(self).showing_answer,
    {
        self.deck = deck;
        self.queue = queue_for(project, self.mode, &self.deck, now);
        self.index = 0;
        self.showing_answer = false;
    }

    /// Shows the answer of the current card.
    pub fn show_answer(&mut self)
        ensures
            final(self).showing_answer,
            final(self).queue == old(self).queue,
            final(self).index == old(self).index,
            final(self).mode == old(self).mode,
            final(self).deck == old(self).deck,
    {
        self.showing_answer = true;
    }

    /// Moves on to the next card after a rating, no further than the end of the queue,
    /// with the answer hidden again.
    pub fn advance(&mut self)
        ensures
            final(self).index == (if old(self).index + 1 <= old(self).queue@.len() {
                old(self).index + 1
            } else {
                old(self).queue@.len() as int
            }),
            !final(self).showing_answer,
            final(self).queue == old(self).queue,
            final(self).mode == old(self).mode,
            final(self).deck == old(self).deck,
    {
        let next = self.index.saturating_add(1);
        self.index = if next <= self.queue.len() {
            next
        } else {
            self.queue.len()
        };
        self.showing_answer = false;
    }

    /// How many queued cards are behind the session.
    pub fn done(&self) -> (r: usize)
        ensures
            r == (if self.index <= self.queue@.len() {
                self.index as int
            } else {
                self.queue@.len() as int
            }),
    {
        if self.index <= self.queue.len() {
            self.index
        } else {
            self.queue.len()
        }
    }

    /// The share of the queue behind the session, in whole percent (0 for an empty
    /// queue).
    pub fn percent_done(&self) -> (r: usize)
        requires
            (if self.index <= self.queue@.len() {
                self.index as int
            } else {
                self.queue@.len() as int
            }) * 100 <= usize::MAX,
        ensures
            r == (if self.queue@.len() == 0 {
                0
            } else {
                (if self.index <= self.queue@.len() {
                    self.index as int
                } else {
                    self.queue@.len() as int
                }) * 100 / (self.queue@.len() as int)
            }),
    {
        let total = self.queue.len();
        if total == 0 {
            0
        } else {
            let done = self.done();
            done * 100 / total
        }
    }

    /// The card the session is at: the queued id at the current position, looked up
    /// among the cards.
    pub fn current_card(&self, cards: &[Flashcard]) -> (r: Option<Flashcard>)
        ensures
            match r {
                Some(c) => self.index < self.queue@.len() && card_index(cards@, self.queue@[self.index as int]@)
                    >= 0 && c == cards@[card_index(cards@, self.queue@[self.index as int]@)],
                None => self.index >= self.queue@.len() || card_index(
                    cards@,
                    self.queue@[self.index as int]@,
                ) < 0,
            },
    {
        if self.index >= self.queue.len() {
            return None;
        }
        proof {
            lemma_card_index(cards@, self.queue@[self.index as int]@);
        }
        match card_by_id(cards, &self.queue[self.index]) {
            Some(k) => Some(cards[k].duplicate()),
            None => None,
        }
    }
}

/// Index of the first card with the given id, or -1.
pub open spec fn card_index(cards: Seq<Flashcard>, id: Seq<char>) -> int
    decreases cards.len(),
{
    if cards.len() == 0 {
        -1
    } else if card_index(cards.drop_last(), id) >= 0 {
        card_index(cards.drop_last(), id)
    } else if cards.last().id@ == id {
        cards.len() - 1
    } else {
        -1
    }
}

pub proof fn lemma_card_index(cards: Seq<Flashcard>, id: Seq<char>)
    ensures
        -1 <= card_index(cards, id) < cards.len(),
        card_index(cards, id) >= 0 ==> cards[card_index(cards, id)].id@ == id,
        forall|j: int| 0 <= j < cards.len() && (card_index(cards, id) < 0 || j < card_index(cards, id))
            ==> cards[j].id@ != id,
    decreases cards.len(),
{
    if cards.len() > 0 {
        let p = cards.drop_last();
        lemma_card_index(p, id);
        assert forall|j: int| 0 <= j < cards.len() && (card_index(cards, id) < 0 || j < card_index(cards, id))
            implies cards[j].id@ != id by {
            if j < p.len() {
                assert(cards[j] == p[j]);
            }
        }
    }
}

/// Where the card with the given id is, if there is one.
pub fn card_by_id(cards: &[Flashcard], id: &String) -> (r: Option<usize>)
    ensures
        match r {
            Some(k) => k as int == card_index(cards@, id@),
            None => card_index(cards@, id@) < 0,
        },
{
    let mut i: usize = 0;
    while i < cards.len()
        invariant
            i <= cards.len(),
            card_index(cards@.take(i as int), id@) < 0,
        decreases cards.len() - i,
    {
        assert(cards@.take(i + 1).drop_last() =~= cards@.take(i as int));
        if cards[i].id == *id {
            proof {
                lemma_index_extends(cards@, id@, i as int + 1);
            }
            return Some(i);
        }
        i += 1;
    }
    assert(cards@.take(cards.len() as int) =~= cards@);
    None
}

proof fn lemma_index_extends(cards: Seq<Flashcard>, id: Seq<char>, i: int)
    requires
        0 <= i <= cards.len(),
        card_index(cards.take(i), id) >= 0,
    ensures
        card_index(cards, id) == card_index(cards.take(i), id),
    decreases cards.len() - i,
{
    if i < cards.len() {
        assert(cards.take(i + 1).drop_last() =~= cards.take(i));
        lemma_index_extends(cards, id, i + 1);
    } else {
        assert(cards.take(i) =~= cards);
    }
}

} // verus!
