use std::cmp::Ordering;
use wordle_helper::restriction::{parse_feedback, sort_batch, Restriction, SolverError};

#[test]
fn cmp_orders_kinds_then_keys() {
    let here = Restriction::Here('a', 2);
    let not_here = Restriction::NotHere('b', 1);
    let no_more = Restriction::NoMore('c');
    assert_eq!(here.cmp(&not_here), Ordering::Less);
    assert_eq!(not_here.cmp(&no_more), Ordering::Less);
    assert_eq!(no_more.cmp(&here), Ordering::Greater);
    assert_eq!(
        Restriction::Here('a', 1).cmp(&Restriction::Here('a', 3)),
        Ordering::Less
    );
    assert_eq!(
        Restriction::NoMore('d').cmp(&Restriction::NoMore('b')),
        Ordering::Greater
    );
    // Letters of positional constraints do not take part in the order.
    assert_eq!(
        Restriction::Here('a', 2).cmp(&Restriction::Here('z', 2)),
        Ordering::Equal
    );
    assert_eq!(
        Restriction::Here('a', 2).partial_cmp(&Restriction::Here('z', 2)),
        Some(Ordering::Equal)
    );
}

#[test]
fn parse_feedback_sorts_canonically() {
    let batch = parse_feedback("crane", "01210").unwrap();
    assert_eq!(
        batch,
        vec![
            Restriction::Here('a', 2),
            Restriction::NotHere('r', 1),
            Restriction::NotHere('n', 3),
            Restriction::NoMore('c'),
            Restriction::NoMore('e'),
        ]
    );
}

#[test]
fn parse_feedback_rejects_short_guess() {
    assert_eq!(
        parse_feedback("cran", "01210"),
        Err(SolverError::InvalidFeedback)
    );
}

#[test]
fn parse_feedback_rejects_wrong_feedback_length() {
    assert_eq!(
        parse_feedback("crane", "0121"),
        Err(SolverError::InvalidFeedback)
    );
    assert_eq!(
        parse_feedback("crane", "012100"),
        Err(SolverError::InvalidFeedback)
    );
}

#[test]
fn parse_feedback_rejects_unknown_symbol() {
    assert_eq!(
        parse_feedback("crane", "0121x"),
        Err(SolverError::InvalidFeedback)
    );
    assert_eq!(
        parse_feedback("crane", "01213"),
        Err(SolverError::InvalidFeedback)
    );
}

#[test]
fn sort_batch_is_stable_on_equal_keys() {
    let raw = vec![
        Restriction::NoMore('b'),
        Restriction::Here('x', 1),
        Restriction::Here('y', 1),
    ];
    let sorted = sort_batch(&raw);
    // The two `Here` entries share the key (position 1) and keep their
    // relative order.
    assert_eq!(
        sorted,
        vec![
            Restriction::Here('x', 1),
            Restriction::Here('y', 1),
            Restriction::NoMore('b'),
        ]
    );
}
