use wordle_helper::restriction::SolverError;
use wordle_helper::session::{Session, SessionStatus};

fn pool(words: &[&str]) -> Vec<String> {
    words.iter().map(|w| w.to_string()).collect()
}

#[test]
fn session_pool_of_one_is_solved_immediately() {
    // No feedback round is needed and the selector is never consulted.
    let session = Session::new(pool(&["angle"]), pool(&["crane", "slate", "angle"]));
    assert_eq!(
        session.next_step(),
        SessionStatus::Solved("angle".to_string())
    );
}

#[test]
fn session_empty_pool_is_exhausted() {
    let session = Session::new(pool(&[]), pool(&["crane", "slate"]));
    assert_eq!(session.next_step(), SessionStatus::Exhausted);
    // Asking again is harmless and still terminal.
    assert_eq!(session.next_step(), SessionStatus::Exhausted);
}

#[test]
fn session_round_narrows_pool() {
    // Guess "apple" against the true answer "angle" gives feedback
    // "20022": 'a', 'l', 'e' correct in place, both 'p' absent.
    let mut session = Session::new(
        pool(&["apple", "angle", "ankle", "axles"]),
        pool(&["apple", "angle", "ankle", "axles"]),
    );
    assert!(matches!(session.next_step(), SessionStatus::Ongoing(_)));
    assert_eq!(session.apply_feedback("apple", "20022"), Ok(()));
    assert_eq!(session.possibilities, pool(&["angle", "ankle"]));
    assert_eq!(session.rounds, 1);
    assert!(matches!(session.next_step(), SessionStatus::Ongoing(_)));
}

#[test]
fn session_eliminating_feedback_exhausts() {
    let mut session = Session::new(
        pool(&["crane", "slate"]),
        pool(&["crane", "slate", "brine"]),
    );
    // 'z' correct at position 0 matches no candidate.
    assert_eq!(session.apply_feedback("zonal", "20000"), Ok(()));
    assert!(session.possibilities.is_empty());
    assert_eq!(session.next_step(), SessionStatus::Exhausted);
}

#[test]
fn session_invalid_feedback_leaves_state_unchanged() {
    let mut session = Session::new(
        pool(&["crane", "slate"]),
        pool(&["crane", "slate", "brine"]),
    );
    assert_eq!(
        session.apply_feedback("crane", "012"),
        Err(SolverError::InvalidFeedback)
    );
    assert_eq!(
        session.apply_feedback("crane", "0121x"),
        Err(SolverError::InvalidFeedback)
    );
    assert_eq!(
        session.apply_feedback("cr", "01210"),
        Err(SolverError::InvalidFeedback)
    );
    assert_eq!(session.possibilities, pool(&["crane", "slate"]));
    assert_eq!(session.rounds, 0);
}

#[test]
fn session_solves_after_narrowing_to_one() {
    let mut session = Session::new(
        pool(&["angle", "ankle"]),
        pool(&["angle", "ankle", "crane"]),
    );
    // Guess "ankle" against the true answer "angle": 'k' is absent,
    // 'l' is correct in place; everything else matches.
    assert_eq!(session.apply_feedback("ankle", "22022"), Ok(()));
    assert_eq!(
        session.next_step(),
        SessionStatus::Solved("angle".to_string())
    );
}
