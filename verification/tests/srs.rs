use typst_web::model::{Mode, Project, SrsProgress};
use typst_web::session::{card_by_id, SrsSession};
use typst_web::srs::{
    build_review_queue, build_review_queue_at, review_card, review_fits_now, state_for, ReviewMode,
    DAY_MS, START_EASE_BITS,
};

#[test]
fn first_good_rating_schedules_next_day() {
    let project = Project::sample();
    let card = project.cards[0].clone();
    let mut progress = project.progress.clone();
    review_card(&mut progress, &card, 4, 1_000, 9, 2.5f64.to_bits());
    let st = state_for(&progress, &card);
    assert_eq!(st.repetitions, 1);
    assert_eq!(st.interval, 1);
    assert_eq!(st.next_review, 1_000 + DAY_MS);
    assert_eq!(st.last_review, Some(1_000));
    assert_eq!(st.last_quality, Some(4));
    assert_eq!(progress.cards.len(), 3);
}

#[test]
fn second_and_later_ratings_grow_the_interval() {
    let project = Project::sample();
    let card = project.cards[1].clone();
    let mut progress = project.progress.clone();
    review_card(&mut progress, &card, 5, 0, 0, 2.6f64.to_bits());
    review_card(&mut progress, &card, 5, 10, 0, 2.7f64.to_bits());
    let st = state_for(&progress, &card);
    assert_eq!((st.repetitions, st.interval), (2, 6));
    assert_eq!(st.next_review, 10 + 6 * DAY_MS);
    review_card(&mut progress, &card, 3, 20, 16, 2.56f64.to_bits());
    let st = state_for(&progress, &card);
    assert_eq!((st.repetitions, st.interval), (3, 16));
    assert_eq!(st.ease_factor_bits, 2.56f64.to_bits());
}

#[test]
fn failing_rating_restarts_repetitions() {
    let project = Project::sample();
    let card = project.cards[0].clone();
    let mut progress = project.progress.clone();
    review_card(&mut progress, &card, 5, 0, 0, 2.6f64.to_bits());
    review_card(&mut progress, &card, 1, 100, 0, 1.8f64.to_bits());
    let st = state_for(&progress, &card);
    assert_eq!((st.repetitions, st.interval), (0, 1));
    assert_eq!(st.next_review, 100 + DAY_MS);
    assert_eq!(st.last_quality, Some(1));
}

#[test]
fn rating_an_unknown_card_adds_its_state() {
    let project = Project::sample();
    let card = project.cards[0].clone();
    let mut progress = SrsProgress { cards: vec![] };
    assert_eq!(state_for(&progress, &card).ease_factor_bits, START_EASE_BITS);
    review_card(&mut progress, &card, 4, 0, 1, START_EASE_BITS);
    assert_eq!(progress.cards.len(), 1);
    assert_eq!(progress.cards[0].id, card.id);
}

#[test]
fn overflowing_ratings_are_detected() {
    let project = Project::sample();
    let card = project.cards[0].clone();
    assert!(review_fits_now(&project.progress, &card, 4, 0, 1));
    assert!(!review_fits_now(&project.progress, &card, 4, i64::MAX, 1));
    assert!(review_fits_now(&project.progress, &card, 1, i64::MAX - DAY_MS, 1));
}

#[test]
fn queues_follow_the_review_mode() {
    let mut project = Project::sample();
    let all: Vec<String> = project.cards.iter().map(|c| c.id.clone()).collect();
    assert_eq!(build_review_queue_at(&project, ReviewMode::Due, None, 0), all);
    assert_eq!(build_review_queue_at(&project, ReviewMode::Due, None, -1), Vec::<String>::new());
    assert_eq!(build_review_queue_at(&project, ReviewMode::All, None, -1), all);
    assert_eq!(build_review_queue_at(&project, ReviewMode::Cram, None, -1), all);
    assert_eq!(build_review_queue_at(&project, ReviewMode::Redo, None, 0), Vec::<String>::new());
    assert_eq!(
        build_review_queue_at(&project, ReviewMode::All, Some("patterns"), 0),
        vec![all[1].clone()]
    );
    let card = project.cards[0].clone();
    review_card(&mut project.progress, &card, 4, 0, 1, START_EASE_BITS);
    assert_eq!(build_review_queue_at(&project, ReviewMode::Redo, None, 0), vec![all[0].clone()]);
    assert_eq!(
        build_review_queue_at(&project, ReviewMode::Due, None, 10),
        vec![all[1].clone(), all[2].clone()]
    );
    assert_eq!(build_review_queue(&project, ReviewMode::All, None), all);
}

#[test]
fn session_walks_through_the_queue() {
    let project = Project::sample();
    let mut session = SrsSession::new();
    assert_eq!(session.mode, ReviewMode::Due);
    assert_eq!(session.current_card(&project.cards), None);
    session.select_mode(&project, ReviewMode::All, 0);
    assert_eq!(session.queue.len(), 3);
    assert_eq!(session.current_card(&project.cards), Some(project.cards[0].clone()));
    session.show_answer();
    assert!(session.showing_answer);
    session.advance();
    assert!(!session.showing_answer);
    assert_eq!(session.done(), 1);
    assert_eq!(session.percent_done(), 33);
    session.advance();
    session.advance();
    session.advance();
    assert_eq!(session.index, 3);
    assert_eq!(session.percent_done(), 100);
    assert_eq!(session.current_card(&project.cards), None);
    session.select_deck(&project, Some("patterns".to_string()), 0);
    assert_eq!(session.queue, vec![project.cards[1].id.clone()]);
    assert_eq!(session.index, 0);
    session.restart(&project, -1);
    assert_eq!(session.mode, ReviewMode::All);
    assert_eq!(session.queue.len(), 1);
    assert_eq!(SrsSession::new().percent_done(), 0);
}

#[test]
fn cards_are_found_by_id() {
    let project = Project::sample();
    assert_eq!(card_by_id(&project.cards, &project.cards[2].id), Some(2));
    assert_eq!(card_by_id(&project.cards, &"none".to_string()), None);
}

#[test]
fn labels() {
    assert_eq!(ReviewMode::Due.label(), "Due");
    assert_eq!(ReviewMode::Redo.label(), "Redo");
    assert_eq!(Mode::Srs.label(), "SRS");
    assert_eq!(Mode::Files.label(), "Files");
}
