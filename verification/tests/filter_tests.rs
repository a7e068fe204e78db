use wordle_helper::filter::{respects, update_possibilities};
use wordle_helper::restriction::{derive_restrictions, Restriction};

fn pool(words: &[&str]) -> Vec<String> {
    words.iter().map(|w| w.to_string()).collect()
}

#[test]
fn filter_scenario_apple_vs_angle() {
    // Guess "apple" against the true answer "angle": 'a', 'l', 'e' are
    // correct in place, both 'p' occurrences are absent.
    let restrictions = derive_restrictions("apple", "angle");
    assert_eq!(
        restrictions,
        vec![
            Restriction::Here('a', 0),
            Restriction::NoMore('p'),
            Restriction::NoMore('p'),
            Restriction::Here('l', 3),
            Restriction::Here('e', 4),
        ]
    );
    let mut candidates = pool(&["apple", "angle", "ankle", "axles"]);
    update_possibilities(&mut candidates, &restrictions);
    assert_eq!(candidates, pool(&["angle", "ankle"]));
}

#[test]
fn filter_monotonic_shrink() {
    let restrictions = derive_restrictions("slate", "crane");
    let before = pool(&["crane", "slate", "brine", "quart", "corgi"]);
    let mut after = before.clone();
    update_possibilities(&mut after, &restrictions);
    assert!(after.len() <= before.len());
}

#[test]
fn filter_round_trip_keeps_answer() {
    // Constraints honestly derived from any guess never drop the answer.
    let answers = ["crane", "slate", "corgi", "vapid"];
    let guesses = ["brine", "crane", "axles", "pupil"];
    for answer in answers {
        for guess in guesses {
            let restrictions = derive_restrictions(guess, answer);
            let mut candidates = pool(&["crane", "slate", "corgi", "vapid"]);
            update_possibilities(&mut candidates, &restrictions);
            assert!(candidates.iter().any(|w| w == answer));
        }
    }
}

#[test]
fn filter_sequential_equals_combined() {
    // Filtering by two compatible batches in turn equals filtering once by
    // their union.
    let c1 = vec![Restriction::NoMore('z'), Restriction::Here('a', 0)];
    let c2 = vec![Restriction::NotHere('e', 0), Restriction::NoMore('q')];
    let start = pool(&["apple", "azure", "eagle", "amble", "zebra"]);

    let mut sequential = start.clone();
    update_possibilities(&mut sequential, &c1);
    update_possibilities(&mut sequential, &c2);

    let mut combined_batch = c1.clone();
    combined_batch.extend_from_slice(&c2);
    let mut combined = start.clone();
    update_possibilities(&mut combined, &combined_batch);

    assert_eq!(sequential, combined);
}

#[test]
fn filter_empty_result_is_not_an_error() {
    let mut candidates = pool(&["crane", "slate"]);
    update_possibilities(&mut candidates, &[Restriction::Here('z', 0)]);
    assert!(candidates.is_empty());
}

#[test]
fn no_more_excused_by_pinned_occurrence() {
    // A repeated guess letter: one 'p' pinned in place, the other marked
    // absent. The `NoMore` then only forbids unaccounted occurrences, so
    // "apple" (whose 'p' count is pinned) survives.
    let batch = vec![Restriction::Here('p', 1), Restriction::NoMore('p')];
    assert!(respects("apple", &batch));
    assert!(!respects("salsa", &batch));
    let mut candidates = pool(&["apple", "plums", "salsa"]);
    update_possibilities(&mut candidates, &batch);
    assert_eq!(candidates, pool(&["apple"]));
}

#[test]
fn no_more_rejects_without_pin() {
    let batch = vec![Restriction::NoMore('p')];
    assert!(!respects("apple", &batch));
    assert!(respects("angle", &batch));
}

#[test]
fn not_here_needs_letter_elsewhere() {
    let batch = vec![Restriction::NotHere('a', 0)];
    // 'a' at position 0: rejected.
    assert!(!respects("apple", &batch));
    // no 'a' at all: rejected.
    assert!(!respects("truce", &batch));
    // 'a' elsewhere: accepted.
    assert!(respects("slate", &batch));
}
