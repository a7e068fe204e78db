use wordle_helper::selector::calculate_guesses;
use wordle_helper::words::contains_char;

fn pool(words: &[&str]) -> Vec<String> {
    words.iter().map(|w| w.to_string()).collect()
}

#[test]
fn selector_is_deterministic() {
    let possibilities = pool(&["crane", "slate", "brine", "quart"]);
    let vocabulary = pool(&["crane", "slate", "brine", "quart", "corgi", "vapid"]);
    let first = calculate_guesses(&possibilities, &vocabulary);
    let second = calculate_guesses(&possibilities, &vocabulary);
    assert_eq!(first, second);
}

#[test]
fn selector_nonempty_when_vocabulary_nonempty() {
    let vocabulary = pool(&["crane", "slate", "brine"]);
    assert!(!calculate_guesses(&pool(&[]), &vocabulary).is_empty());
    assert!(!calculate_guesses(&pool(&["zzzzz"]), &vocabulary).is_empty());
    assert!(!calculate_guesses(&pool(&["crane", "slate"]), &vocabulary).is_empty());
}

#[test]
fn selector_empty_pool_returns_vocabulary() {
    // With no candidates there are no letters to narrow by: the whole
    // vocabulary comes back unchanged.
    let vocabulary = pool(&["crane", "slate", "brine"]);
    assert_eq!(calculate_guesses(&pool(&[]), &vocabulary), vocabulary);
}

#[test]
fn selector_exact_small_example() {
    // Letters a, b, c, d each occur in exactly one of the two candidates;
    // half the pool is 1, so every score is 0 and the tie keeps
    // first-occurrence order: a, b, c, d. Narrowing by 'a' keeps only
    // "ab", and a single word stops the narrowing.
    let possibilities = pool(&["ab", "cd"]);
    let vocabulary = pool(&["ab", "cd", "ef"]);
    assert_eq!(
        calculate_guesses(&possibilities, &vocabulary),
        pool(&["ab"])
    );
}

#[test]
fn selector_skips_letter_that_would_empty() {
    // The only candidate letter is 'z'; no vocabulary word contains it, so
    // applying it is skipped and the vocabulary survives whole.
    let possibilities = pool(&["zz"]);
    let vocabulary = pool(&["ab", "cd"]);
    assert_eq!(
        calculate_guesses(&possibilities, &vocabulary),
        pool(&["ab", "cd"])
    );
}

#[test]
fn selector_suggestions_come_from_vocabulary() {
    let possibilities = pool(&["crane", "slate", "brine", "quart"]);
    let vocabulary = pool(&["crane", "slate", "brine", "quart", "corgi"]);
    let suggestions = calculate_guesses(&possibilities, &vocabulary);
    for s in &suggestions {
        assert!(vocabulary.iter().any(|w| w == s));
    }
}

#[test]
fn selector_applies_at_most_five_letters() {
    // The pool's letters a..f all score alike and rank in first-occurrence
    // order. Both vocabulary words contain a, b, c, d and e, which uses up
    // the letter budget; 'f' would narrow further but is never applied.
    let possibilities = pool(&["abcdef"]);
    let vocabulary = pool(&["abcdef", "abcdeg"]);
    assert_eq!(
        calculate_guesses(&possibilities, &vocabulary),
        pool(&["abcdef", "abcdeg"])
    );
}

#[test]
fn contains_char_finds_letters() {
    assert!(contains_char("apple", 'p'));
    assert!(contains_char("apple", 'e'));
    assert!(!contains_char("apple", 'z'));
    assert!(!contains_char("", 'a'));
}
