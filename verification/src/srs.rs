use vstd::prelude::*;
use crate::cards::card_views;
use crate::model::{Flashcard, Project, ReviewState, SrsProgress};
use crate::text::{chars_eq, chars_of};

verus! {

broadcast use vstd::string::group_string_axioms;

/// Which cards a review session queues.
#[derive(Clone, Copy, Debug, Default, PartialEq, Eq)]
pub enum ReviewMode {
    /// Cards that are due now (or have no state yet).
    #[default]
    Due,
    /// Every card.
    All,
    /// Every card, hidden for the session once rated.
    Cram,
    /// Cards whose last rating was not Easy.
    Redo,
}

impl ReviewMode {
    /// The button label of the mode.
    pub fn label(self) -> (r: &'static str)
        ensures
            r@ == match self {
                ReviewMode::Due => "Due"@,
                ReviewMode::All => "All"@,
                ReviewMode::Cram => "Cram"@,
                ReviewMode::Redo => "Redo"@,
            },
    {
        match self {
            ReviewMode::Due => "Due",
            ReviewMode::All => "All",
            ReviewMode::Cram => "Cram",
            ReviewMode::Redo => "Redo",
        }
    }
}

/// The bit pattern of the starting ease factor 2.5 (`2.5f64.to_bits()`).
pub const START_EASE_BITS: u64 = 0x4004_0000_0000_0000u64;

/// Milliseconds in a day.
pub const DAY_MS: i64 = 86_400_000i64;

/// No card id occurs twice.
pub open spec fn ids_unique(s: Seq<ReviewState>) -> bool {
    forall|i: int, j: int| 0 <= i < j < s.len() ==> s[i].id@ != s[j].id@
}

/// The state stored for a card id.
pub open spec fn state_of(s: Seq<ReviewState>, id: Seq<char>) -> Option<ReviewState>
    decreases s.len(),
{
    if s.len() == 0 {
        None
    } else if s.last().id@ == id {
        Some(s.last())
    } else {
        state_of(s.drop_last(), id)
    }
}

/// The progress as a map from card id to state.
pub open spec fn progress_map(p: SrsProgress) -> Map<Seq<char>, ReviewState> {
    Map::new(|id: Seq<char>| state_of(p.cards@, id) is Some, |id: Seq<char>| state_of(p.cards@, id)->0)
}

/// A well-formed progress: each card id at most once, keyed by its own id.
pub open spec fn progress_wf(p: SrsProgress) -> bool {
    ids_unique(p.cards@)
}

/// The state a card starts with.
pub open spec fn start_state(card: Flashcard) -> ReviewState {
    ReviewState {
        id: card.id,
        deck: card.deck,
        ease_factor_bits: START_EASE_BITS,
        interval: 0,
        repetitions: 0,
        next_review: 0,
        last_review: None,
        last_quality: None,
    }
}

pub proof fn lemma_state_of_found(s: Seq<ReviewState>, id: Seq<char>)
    ensures
        state_of(s, id) matches Some(st) ==> st.id@ == id && s.contains(st),
        state_of(s, id) is None ==> forall|k: int| 0 <= k < s.len() ==> s[k].id@ != id,
    decreases s.len(),
{
    if s.len() > 0 {
        lemma_state_of_found(s.drop_last(), id);
        if s.last().id@ != id {
            if let Some(st) = state_of(s.drop_last(), id) {
                let k = choose|k: int| 0 <= k < s.drop_last().len() && s.drop_last()[k] == st;
                assert(s[k] == st);
            }
        } else {
            assert(s[s.len() - 1] == s.last());
        }
        if state_of(s, id) is None {
            assert forall|k: int| 0 <= k < s.len() implies s[k].id@ != id by {
                if k < s.len() - 1 {
                    assert(s.drop_last()[k] == s[k]);
                }
            }
        }
    }
}

pub proof fn lemma_state_of_index(s: Seq<ReviewState>, k: int)
    requires
        ids_unique(s),
        0 <= k < s.len(),
    ensures
        state_of(s, s[k].id@) == Some(s[k]),
    decreases s.len(),
{
    if k < s.len() - 1 {
        assert(s.drop_last()[k] == s[k]);
        lemma_state_of_index(s.drop_last(), k);
    }
}

/// Position of the state for `id`.
fn find_index(cards: &Vec<ReviewState>, id: &str) -> (r: Option<usize>)
    requires
        ids_unique(cards@),
    ensures
        match r {
            Some(k) => k < cards.len() && cards@[k as int].id@ == id@ && state_of(cards@, id@)
                == Some(cards@[k as int]),
            None => state_of(cards@, id@) is None,
        },
{
    let idc = chars_of(id);
    let mut i: usize = 0;
    while i < cards.len()
        invariant
            i <= cards.len(),
            idc@ == id@,
            ids_unique(cards@),
            forall|k: int| 0 <= k < i ==> cards@[k].id@ != id@,
        decreases cards.len() - i,
    {
        let c = chars_of(cards[i].id.as_str());
        if chars_eq(&c, &idc) {
            proof {
                lemma_state_of_index(cards@, i as int);
            }
            return Some(i);
        }
        i += 1;
    }
    proof {
        lemma_state_of_found(cards@, id@);
        if let Some(st) = state_of(cards@, id@) {
            let k = choose|k: int| 0 <= k < cards@.len() && cards@[k] == st;
            assert(cards@[k].id@ != id@);
        }
    }
    None
}

pub proof fn lemma_state_of_push(s: Seq<ReviewState>, st: ReviewState, id: Seq<char>)
    ensures
        state_of(s.push(st), id) == if st.id@ == id {
            Some(st)
        } else {
            state_of(s, id)
        },
{
    assert(s.push(st).drop_last() =~= s);
}

pub proof fn lemma_state_of_update(s: Seq<ReviewState>, k: int, st: ReviewState, id: Seq<char>)
    requires
        ids_unique(s),
        0 <= k < s.len(),
        st.id@ == s[k].id@,
    ensures
        ids_unique(s.update(k, st)),
        state_of(s.update(k, st), id) == if st.id@ == id {
            Some(st)
        } else {
            state_of(s, id)
        },
    decreases s.len(),
{
    let u = s.update(k, st);
    if k == s.len() - 1 {
        assert(u.drop_last() =~= s.drop_last());
        assert(u.last() == st);
        if st.id@ != id {
            assert(s.last().id@ != id);
        }
    } else {
        assert(u.drop_last() =~= s.drop_last().update(k, st));
        assert(s.drop_last()[k] == s[k]);
        lemma_state_of_update(s.drop_last(), k, st, id);
        assert(u.last() == s.last());
    }
}

/// The state of a card, or the state it starts with when it has none.
pub open spec fn current_state(p: SrsProgress, card: Flashcard) -> ReviewState {
    match state_of(p.cards@, card.id@) {
        Some(st) => st,
        None => start_state(card),
    }
}

/// Gives a card its starting state unless it has one.
pub fn ensure_state(progress: &mut SrsProgress, card: &Flashcard)
    requires
        progress_wf(*old(progress)),
    ensures
        progress_wf(*final(progress)),
        progress_map(*final(progress)) == if progress_map(*old(progress)).contains_key(card.id@) {
            progress_map(*old(progress))
        } else {
            progress_map(*old(progress)).insert(card.id@, start_state(*card))
        },
{
    match find_index(&progress.cards, card.id.as_str()) {
        Some(_) => {
            assert(progress_map(*progress) =~= progress_map(*old(progress)));
        },
        None => {
            let st = ReviewState {
                id: card.id.clone(),
                deck: card.deck.clone(),
                ease_factor_bits: START_EASE_BITS,
                interval: 0,
                repetitions: 0,
                next_review: 0,
                last_review: None,
                last_quality: None,
            };
            let ghost before = progress.cards@;
            progress.cards.push(st);
            proof {
                lemma_state_of_found(before, card.id@);
                assert forall|id: Seq<char>| #[trigger] state_of(progress.cards@, id) == if start_state(*card).id@ == id {
                    Some(start_state(*card))
                } else {
                    state_of(before, id)
                } by {
                    lemma_state_of_push(before, start_state(*card), id);
                }
            }
            assert(progress_map(*progress) =~= progress_map(*old(progress)).insert(
                card.id@,
                start_state(*card),
            ));
        },
    }
}

/// The state of a card, or the state it starts with.
pub fn state_for(progress: &SrsProgress, card: &Flashcard) -> (r: ReviewState)
    requires
        progress_wf(*progress),
    ensures
        r == current_state(*progress, *card),
{
    match find_index(&progress.cards, card.id.as_str()) {
        Some(k) => progress.cards[k].duplicate(),
        None => ReviewState {
            id: card.id.clone(),
            deck: card.deck.clone(),
            ease_factor_bits: START_EASE_BITS,
            interval: 0,
            repetitions: 0,
            next_review: 0,
            last_review: None,
            last_quality: None,
        },
    }
}

/// The state after rating a card with `quality` at time `now` (milliseconds).
/// A failing rating (below 3) restarts the repetitions with a one-day interval;
/// otherwise the first two repetitions get 1 and 6 days and later ones `grown_interval`
/// (the old interval times the ease factor, rounded, at least 1). The ease factor becomes
/// `ease_factor_bits`; the next review is `interval` days after `now`.
pub open spec fn reviewed_state(
    st: ReviewState,
    quality: u8,
    now: i64,
    grown_interval: u32,
    ease_factor_bits: u64,
) -> ReviewState {
    let reps: u32 = if quality < 3 {
        0
    } else {
        (st.repetitions + 1) as u32
    };
    let interval: u32 = if quality < 3 {
        1
    } else if reps == 1 {
        1
    } else if reps == 2 {
        6
    } else {
        grown_interval
    };
    ReviewState {
        id: st.id,
        deck: st.deck,
        ease_factor_bits,
        interval,
        repetitions: reps,
        next_review: (now + interval * DAY_MS) as i64,
        last_review: Some(now),
        last_quality: Some(quality),
    }
}

/// What a rating leaves in the progress (as `review_card` states it): the card's state
/// takes the new ease factor whatever the rating, records the rating and its time, and is
/// due `interval` days later; a failing rating (below 3) starts the repetitions over with
/// a one-day interval, a passing one counts one more repetition, with one day after the
/// first, six after the second and the grown interval after that; every other card keeps
/// its state. (The rating must fit without overflow, as `review_card` requires.)
pub proof fn lemma_rating_outcome(
    before: SrsProgress,
    after: SrsProgress,
    card: Flashcard,
    quality: u8,
    now: i64,
    grown_interval: u32,
    ease_factor_bits: u64,
)
    requires
        review_fits(current_state(before, card), quality, now, grown_interval),
        progress_map(after) == progress_map(before).insert(
            card.id@,
            reviewed_state(current_state(before, card), quality, now, grown_interval, ease_factor_bits),
        ),
    ensures
        progress_map(after).contains_key(card.id@),
        progress_map(after)[card.id@].ease_factor_bits == ease_factor_bits,
        progress_map(after)[card.id@].last_quality == Some(quality),
        progress_map(after)[card.id@].last_review == Some(now),
        progress_map(after)[card.id@].next_review == now + progress_map(after)[card.id@].interval
            * 86_400_000,
        quality < 3 ==> progress_map(after)[card.id@].repetitions == 0 && progress_map(
            after,
        )[card.id@].interval == 1,
        quality >= 3 ==> progress_map(after)[card.id@].repetitions == current_state(before, card).repetitions
            + 1,
        quality >= 3 && current_state(before, card).repetitions == 0 ==> progress_map(
            after,
        )[card.id@].interval == 1,
        quality >= 3 && current_state(before, card).repetitions == 1 ==> progress_map(
            after,
        )[card.id@].interval == 6,
        quality >= 3 && current_state(before, card).repetitions >= 2 ==> progress_map(
            after,
        )[card.id@].interval == grown_interval,
        forall|id: Seq<char>|
            id != card.id@ ==> (#[trigger] progress_map(after).contains_key(id)) == progress_map(
                before,
            ).contains_key(id) && progress_map(after)[id] == progress_map(before)[id],
{
}

/// The rating can be recorded without arithmetic overflow.
pub open spec fn review_fits(st: ReviewState, quality: u8, now: i64, grown_interval: u32) -> bool {
    &&& (quality >= 3 ==> st.repetitions < u32::MAX)
    &&& i64::MIN <= now + reviewed_state(st, quality, now, grown_interval, 0).interval * DAY_MS
        <= i64::MAX
}

/// Records a rating of `card` at time `now`. The floating-point parts of the schedule
/// are given: `grown_interval` is the current interval times the current ease factor,
/// rounded and at least 1; `ease_factor_bits` is the updated ease factor.
pub fn review_card(
    progress: &mut SrsProgress,
    card: &Flashcard,
    quality: u8,
    now: i64,
    grown_interval: u32,
    ease_factor_bits: u64,
)
    requires
        progress_wf(*old(progress)),
        review_fits(current_state(*old(progress), *card), quality, now, grown_interval),
    ensures
        progress_wf(*final(progress)),
        progress_map(*final(progress)) == progress_map(*old(progress)).insert(
            card.id@,
            reviewed_state(
                current_state(*old(progress), *card),
                quality,
                now,
                grown_interval,
                ease_factor_bits,
            ),
        ),
{
    let ghost old_map = progress_map(*progress);
    let ghost cur = current_state(*progress, *card);
    ensure_state(progress, card);
    assert(progress_map(*progress).contains_key(card.id@));
    assert(progress_map(*progress)[card.id@] == cur);
    let ghost mid = progress_map(*progress);
    let k = match find_index(&progress.cards, card.id.as_str()) {
        Some(k) => k,
        None => {
            assert(false);
            return;
        },
    };
    assert(progress.cards@[k as int] == cur);
    let mut st = progress.cards[k].duplicate();
    if quality < 3 {
        st.repetitions = 0;
        st.interval = 1;
    } else {
        st.repetitions = st.repetitions + 1;
        st.interval = if st.repetitions == 1 {
            1
        } else if st.repetitions == 2 {
            6
        } else {
            grown_interval
        };
    }
    st.ease_factor_bits = ease_factor_bits;
    st.last_review = Some(now);
    st.last_quality = Some(quality);
    st.next_review = now + (st.interval as i64) * DAY_MS;
    let ghost new_st = reviewed_state(cur, quality, now, grown_interval, ease_factor_bits);
    assert(st == new_st);
    let ghost before = progress.cards@;
    progress.cards.set(k, st);
    proof {
        assert forall|id: Seq<char>| #[trigger] state_of(progress.cards@, id) == if new_st.id@ == id {
            Some(new_st)
        } else {
            state_of(before, id)
        } by {
            lemma_state_of_update(before, k as int, new_st, id);
        }
        lemma_state_of_update(before, k as int, new_st, card.id@);
    }
    assert(progress_map(*progress) =~= mid.insert(card.id@, new_st));
    assert(mid.insert(card.id@, new_st) =~= old_map.insert(card.id@, new_st));
}

/// Whether a rating can be recorded without arithmetic overflow.
pub fn review_fits_now(progress: &SrsProgress, card: &Flashcard, quality: u8, now: i64, grown_interval: u32) -> (r: bool)
    requires
        progress_wf(*progress),
    ensures
        r == review_fits(current_state(*progress, *card), quality, now, grown_interval),
{
    let st = state_for(progress, card);
    if quality >= 3 && st.repetitions == u32::MAX {
        return false;
    }
    let reps: u32 = if quality < 3 {
        0
    } else {
        st.repetitions + 1
    };
    let interval: u32 = if quality < 3 {
        1
    } else if reps == 1 {
        1
    } else if reps == 2 {
        6
    } else {
        grown_interval
    };
    let iv: i128 = interval as i128;
    assert(0 <= iv * 86_400_000 <= 4_294_967_295i128 * 86_400_000) by (nonlinear_arith)
        requires
            0 <= iv <= 4_294_967_295i128,
    ;
    let span: i128 = iv * 86_400_000i128;
    let next: i128 = now as i128 + span;
    assert(reviewed_state(st, quality, now, grown_interval, 0).interval == interval);
    next >= i64::MIN as i128 && next <= i64::MAX as i128
}

/// `time::OffsetDateTime::now_utc().unix_timestamp()`: the current time in whole seconds
/// since the Unix epoch. Without time's `large-dates` feature (no crate in the build turns
/// it on) a date lies in the years -9999 to 9999, so the value lies between the start of
/// -9999-01-01 and the end of 9999-12-31. On the web target the crate is built with time's
/// `wasm-bindgen` feature, under which `now_utc` reads the browser clock (`js_sys::Date`)
/// rather than `SystemTime`, so the call does not panic there. Nothing else is promised of
/// the value: it is the clock's.
#[verifier::external_body]
fn clock_seconds() -> (r: i64)
    ensures
        -377_705_203_200 <= r <= 253_402_300_799,
{
    time::OffsetDateTime::now_utc().unix_timestamp()
}

/// The current time in milliseconds since the Unix epoch, at whole-second precision.
pub fn now_ms() -> (r: i64)
    ensures
        r % 1000 == 0,
        -377_705_203_200_000 <= r <= 253_402_300_799_000,
{
    let secs = clock_seconds();
    secs * 1000
}

/// A card takes part in a review session of `mode` at time `now`.
pub open spec fn card_queued(p: SrsProgress, card: Flashcard, mode: ReviewMode, now: i64) -> bool {
    let st = state_of(p.cards@, card.id@);
    match mode {
        ReviewMode::Due => match st {
            Some(s) => s.next_review <= now,
            None => true,
        },
        ReviewMode::All | ReviewMode::Cram => true,
        ReviewMode::Redo => match st {
            Some(s) => match s.last_quality {
                Some(q) => q < 5,
                None => false,
            },
            None => false,
        },
    }
}

/// The card belongs to the chosen deck (or no deck is chosen).
pub open spec fn in_deck(card: Flashcard, deck: Option<Seq<char>>) -> bool {
    match deck {
        Some(d) => card.deck@ == d,
        None => true,
    }
}

/// The ids of the queued cards, in card order.
pub open spec fn review_queue(
    p: SrsProgress,
    cards: Seq<Flashcard>,
    mode: ReviewMode,
    deck: Option<Seq<char>>,
    now: i64,
) -> Seq<Seq<char>>
    decreases cards.len(),
{
    if cards.len() == 0 {
        Seq::empty()
    } else {
        let q = review_queue(p, cards.drop_last(), mode, deck, now);
        let c = cards.last();
        if in_deck(c, deck) && card_queued(p, c, mode, now) {
            q.push(c.id@)
        } else {
            q
        }
    }
}

proof fn lemma_queue_members(p: SrsProgress, cards: Seq<Flashcard>, mode: ReviewMode, deck: Option<Seq<char>>, now: i64)
    ensures
        forall|id: Seq<char>| #[trigger] review_queue(p, cards, mode, deck, now).contains(id) ==> exists|i: int|
            0 <= i < cards.len() && #[trigger] cards[i].id@ == id && in_deck(cards[i], deck) && card_queued(
                p,
                cards[i],
                mode,
                now,
            ),
        forall|i: int|
            0 <= i < cards.len() && in_deck(cards[i], deck) && card_queued(p, cards[i], mode, now)
                ==> review_queue(p, cards, mode, deck, now).contains(#[trigger] cards[i].id@),
    decreases cards.len(),
{
    if cards.len() > 0 {
        let rest = cards.drop_last();
        lemma_queue_members(p, rest, mode, deck, now);
        let q0 = review_queue(p, rest, mode, deck, now);
        let q = review_queue(p, cards, mode, deck, now);
        let c = cards.last();
        assert forall|id: Seq<char>| #[trigger] q.contains(id) implies exists|i: int|
            0 <= i < cards.len() && #[trigger] cards[i].id@ == id && in_deck(cards[i], deck) && card_queued(
                p,
                cards[i],
                mode,
                now,
            ) by {
            let k = choose|k: int| 0 <= k < q.len() && q[k] == id;
            if k < q0.len() {
                assert(q0[k] == id);
                assert(q0.contains(id));
                let i = choose|i: int|
                    0 <= i < rest.len() && #[trigger] rest[i].id@ == id && in_deck(rest[i], deck) && card_queued(
                        p,
                        rest[i],
                        mode,
                        now,
                    );
                assert(cards[i] == rest[i]);
            } else {
                assert(id == c.id@);
                assert(cards[cards.len() - 1] == c);
            }
        }
        assert forall|i: int|
            0 <= i < cards.len() && in_deck(cards[i], deck) && card_queued(p, cards[i], mode, now) implies q.contains(
                #[trigger] cards[i].id@,
            ) by {
            if i == cards.len() - 1 {
                assert(c == cards[i]);
                assert(q[q.len() - 1] == c.id@);
            } else {
                assert(rest[i] == cards[i]);
                assert(q0.contains(rest[i].id@));
                let k = choose|k: int| 0 <= k < q0.len() && q0[k] == rest[i].id@;
                assert(q[k] == q0[k]);
            }
        }
    }
}

/// Whatever the mode, a queue holds only ids of the given cards, and when a deck is
/// chosen, only of cards in that deck.
pub proof fn lemma_queue_respects_deck(
    p: SrsProgress,
    cards: Seq<Flashcard>,
    mode: ReviewMode,
    deck: Option<Seq<char>>,
    now: i64,
)
    ensures
        forall|id: Seq<char>| #[trigger] review_queue(p, cards, mode, deck, now).contains(id) ==> exists|i: int|
            0 <= i < cards.len() && #[trigger] cards[i].id@ == id && (deck matches Some(d) ==> cards[i].deck@ == d),
{
    lemma_queue_members(p, cards, mode, deck, now);
}

/// In Due mode the queue holds the cards of the deck that were never reviewed or whose
/// next review is not later than `now`, and no others.
pub proof fn lemma_due_queue(p: SrsProgress, cards: Seq<Flashcard>, deck: Option<Seq<char>>, now: i64)
    ensures
        forall|id: Seq<char>| #[trigger] review_queue(p, cards, ReviewMode::Due, deck, now).contains(id) ==> (
            state_of(p.cards@, id) matches Some(s) ==> s.next_review <= now),
        forall|i: int|
            0 <= i < cards.len() && in_deck(cards[i], deck) && (state_of(p.cards@, cards[i].id@) matches Some(s)
                ==> s.next_review <= now) ==> review_queue(p, cards, ReviewMode::Due, deck, now).contains(
                #[trigger] cards[i].id@,
            ),
{
    lemma_queue_members(p, cards, ReviewMode::Due, deck, now);
}

/// In All and Cram modes the queue holds every card of the deck, and only those.
pub proof fn lemma_all_queue(p: SrsProgress, cards: Seq<Flashcard>, mode: ReviewMode, deck: Option<Seq<char>>, now: i64)
    requires
        mode == ReviewMode::All || mode == ReviewMode::Cram,
    ensures
        forall|id: Seq<char>| #[trigger] review_queue(p, cards, mode, deck, now).contains(id) ==> exists|i: int|
            0 <= i < cards.len() && #[trigger] cards[i].id@ == id && in_deck(cards[i], deck),
        forall|i: int|
            0 <= i < cards.len() && in_deck(cards[i], deck) ==> review_queue(p, cards, mode, deck, now).contains(
                #[trigger] cards[i].id@,
            ),
{
    lemma_queue_members(p, cards, mode, deck, now);
}

/// In Redo mode the queue holds the cards rated before and not rated Easy (5) last
/// time: a card whose last rating was Easy, or that was never rated, is never queued,
/// and every card of the deck whose last rating was below Easy is.
pub proof fn lemma_redo_queue(
    p: SrsProgress,
    cards: Seq<Flashcard>,
    deck: Option<Seq<char>>,
    now: i64,
)
    ensures
        forall|id: Seq<char>| #[trigger] review_queue(p, cards, ReviewMode::Redo, deck, now).contains(id) ==> (
            state_of(p.cards@, id) matches Some(s) && s.last_quality matches Some(q) && q != 5),
        forall|i: int|
            0 <= i < cards.len() && in_deck(cards[i], deck) && (state_of(p.cards@, cards[i].id@) matches Some(s)
                && s.last_quality matches Some(q) && q < 5) ==> review_queue(
                p,
                cards,
                ReviewMode::Redo,
                deck,
                now,
            ).contains(#[trigger] cards[i].id@),
    decreases cards.len(),
{
    if cards.len() > 0 {
        let rest = cards.drop_last();
        lemma_redo_queue(p, rest, deck, now);
        let q0 = review_queue(p, rest, ReviewMode::Redo, deck, now);
        let q = review_queue(p, cards, ReviewMode::Redo, deck, now);
        let c = cards.last();
        assert forall|id: Seq<char>| #[trigger] q.contains(id) implies (state_of(p.cards@, id) matches Some(
            s,
        ) && s.last_quality matches Some(qq) && qq != 5) by {
            let k = choose|k: int| 0 <= k < q.len() && q[k] == id;
            if k < q0.len() {
                assert(q0[k] == id);
                assert(q0.contains(id));
            } else {
                assert(id == c.id@);
            }
        }
        assert forall|i: int|
            0 <= i < cards.len() && in_deck(cards[i], deck) && (state_of(p.cards@, cards[i].id@) matches Some(
                s,
            ) && s.last_quality matches Some(qq) && qq < 5) implies q.contains(#[trigger] cards[i].id@) by {
            if i == cards.len() - 1 {
                assert(c == cards[i]);
                assert(q[q.len() - 1] == c.id@);
            } else {
                assert(rest[i] == cards[i]);
                assert(q0.contains(rest[i].id@));
                let k = choose|k: int| 0 <= k < q0.len() && q0[k] == rest[i].id@;
                assert(q[k] == q0[k]);
            }
        }
    }
}

pub open spec fn opt_str_view(d: Option<&str>) -> Option<Seq<char>> {
    match d {
        Some(s) => Some(s@),
        None => None,
    }
}

/// The ids of the cards a review session of `mode` over `deck` queues at time `now`.
pub fn build_review_queue_at(project: &Project, mode: ReviewMode, deck: Option<&str>, now: i64) -> (r: Vec<String>)
    requires
        progress_wf(project.progress),
    ensures
        crate::text::views_of(r@) == review_queue(
            project.progress,
            project.cards@,
            mode,
            opt_str_view(deck),
            now,
        ),
{
    let deck_chars: Option<Vec<char>> = match deck {
        Some(d) => Some(chars_of(d)),
        None => None,
    };
    let ghost dv = opt_str_view(deck);
    let mut out: Vec<String> = Vec::new();
    let mut i: usize = 0;
    assert(project.cards@.take(0) =~= Seq::<Flashcard>::empty());
    assert(crate::text::views_of(out@) =~= Seq::<Seq<char>>::empty());
    while i < project.cards.len()
        invariant
            i <= project.cards.len(),
            progress_wf(project.progress),
            match deck_chars {
                Some(v) => dv == Some(v@),
                None => dv is None,
            },
            crate::text::views_of(out@) == review_queue(
                project.progress,
                project.cards@.take(i as int),
                mode,
                dv,
                now,
            ),
        decreases project.cards.len() - i,
    {
        let card = &project.cards[i];
        assert(project.cards@.take(i + 1).drop_last() =~= project.cards@.take(i as int));
        assert(project.cards@.take(i + 1).last() == *card);
        let in_d = match &deck_chars {
            Some(d) => {
                let c = chars_of(card.deck.as_str());
                chars_eq(&c, d)
            },
            None => true,
        };
        let queued = if !in_d {
            false
        } else {
            let st = find_index(&project.progress.cards, card.id.as_str());
            match mode {
                ReviewMode::Due => match st {
                    Some(k) => project.progress.cards[k].next_review <= now,
                    None => true,
                },
                ReviewMode::All | ReviewMode::Cram => true,
                ReviewMode::Redo => match st {
                    Some(k) => match project.progress.cards[k].last_quality {
                        Some(q) => q < 5,
                        None => false,
                    },
                    None => false,
                },
            }
        };
        let ghost before = crate::text::views_of(out@);
        if queued {
            out.push(card.id.clone());
            assert(crate::text::views_of(out@) =~= before.push(card.id@));
        }
        i += 1;
    }
    assert(project.cards@.take(project.cards.len() as int) =~= project.cards@);
    out
}

/// The ids of the cards a review session queues now (the clock is read once).
pub fn build_review_queue(project: &Project, mode: ReviewMode, deck: Option<&str>) -> (r: Vec<String>)
    requires
        progress_wf(project.progress),
    ensures
        exists|now: i64|
            now % 1000 == 0 && crate::text::views_of(r@) == review_queue(
                project.progress,
                project.cards@,
                mode,
                opt_str_view(deck),
                now,
            ),
{
    let now = now_ms();
    build_review_queue_at(project, mode, deck, now)
}

} // verus!
