use wordle_solver::feedback::Hint;
use wordle_solver::feedback::compare_words;
use wordle_solver::filter::Candidates;
use wordle_solver::letters::string_numbers;
use wordle_solver::session::SessionOutcome;
use wordle_solver::session::filter_pool;
use wordle_solver::session::session_status;

fn word(s: &str) -> Vec<u8> {
    string_numbers(s).unwrap()
}

fn strings(ws: &[&str]) -> Vec<String> {
    ws.iter().map(|w| w.to_string()).collect()
}

#[test]
fn fresh_filter_accepts_everything() {
    let ca = Candidates::new();
    for s in ["CRANE", "TRACE", "GRACE", "AAAAA", "ZZZZZ"] {
        assert!(ca.word_fits(&word(s)));
    }
}

#[test]
fn exact_match_pins_the_slot() {
    // An exact match of C at slot 0 rejects every word whose first letter
    // is not C.
    let mut ca = Candidates::new();
    let hints = vec![
        Hint::Here,
        Hint::Nowhere,
        Hint::Nowhere,
        Hint::Nowhere,
        Hint::Nowhere,
    ];
    ca.apply_hints(&word("CRANE"), &hints);
    assert!(!ca.word_fits(&word("TOPIC")));
    assert!(!ca.word_fits(&word("QUICK")));
    assert!(ca.word_fits(&word("COSTS")));
}

#[test]
fn absent_letter_is_rejected_everywhere() {
    // N absent (slot 3 of the guess) rejects words holding N at any slot,
    // also at slots the guess itself did not mark.
    let mut ca = Candidates::new();
    let hints = vec![
        Hint::Nowhere,
        Hint::Nowhere,
        Hint::Nowhere,
        Hint::Nowhere,
        Hint::Nowhere,
    ];
    ca.apply_hints(&word("CRANE"), &hints);
    assert!(!ca.word_fits(&word("NOBLY")));
    assert!(!ca.word_fits(&word("BONUS")));
    // A word holding none of the guessed letters still fits.
    assert!(ca.word_fits(&word("MOODY")));
}

#[test]
fn misplaced_letter_moves_elsewhere() {
    // R misplaced at slot 1: words with R at slot 1 are rejected, words
    // holding R at another slot still fit.
    let mut ca = Candidates::new();
    let hints = vec![
        Hint::Nowhere,
        Hint::Elsewhere,
        Hint::Nowhere,
        Hint::Nowhere,
        Hint::Nowhere,
    ];
    ca.apply_hints(&word("CRANE"), &hints);
    assert!(!ca.word_fits(&word("GRIPS")));
    assert!(ca.word_fits(&word("ROBOT")));
    // Words without any R miss a required letter.
    assert!(!ca.word_fits(&word("GHOST")));
}

#[test]
fn applying_same_hints_twice_changes_nothing() {
    let mut once = Candidates::new();
    let mut twice = Candidates::new();
    let hints = vec![
        Hint::Elsewhere,
        Hint::Here,
        Hint::Nowhere,
        Hint::Elsewhere,
        Hint::Nowhere,
    ];
    once.apply_hints(&word("CRANE"), &hints);
    twice.apply_hints(&word("CRANE"), &hints);
    twice.apply_hints(&word("CRANE"), &hints);
    for s in ["CRANE", "TRACE", "GRACE", "BRACE", "SHIRE", "ROBOT"] {
        let w = word(s);
        assert_eq!(once.word_fits(&w), twice.word_fits(&w));
    }
}

#[test]
fn end_to_end_crane_against_trace() {
    // Solutions CRANE, TRACE, GRACE; a fresh filter accepts all three.
    let solutions = strings(&["CRANE", "TRACE", "GRACE"]);
    let mut ca = Candidates::new();
    let pool = filter_pool(&ca, &solutions);
    assert_eq!(pool, solutions);

    // The feedback of guessing CRANE when TRACE is hidden.
    let feedback = compare_words(&word("CRANE"), &word("TRACE"));
    ca.apply_hints(&word("CRANE"), &feedback);

    // CRANE itself no longer fits; TRACE and GRACE still do.
    let pool = filter_pool(&ca, &solutions);
    assert_eq!(pool, strings(&["TRACE", "GRACE"]));
    assert!(!ca.word_fits(&word("CRANE")));
    assert!(ca.word_fits(&word("TRACE")));
    assert!(ca.word_fits(&word("GRACE")));
}

#[test]
fn session_ends_on_empty_pool() {
    let none: Vec<String> = Vec::new();
    assert_eq!(session_status(&none), SessionOutcome::NoWords);
}

#[test]
fn session_ends_announcing_last_word() {
    let one = strings(&["TRACE"]);
    assert_eq!(
        session_status(&one),
        SessionOutcome::Found("TRACE".to_string())
    );
}

#[test]
fn session_continues_on_larger_pool() {
    let three = strings(&["CRANE", "TRACE", "GRACE"]);
    assert_eq!(session_status(&three), SessionOutcome::Continue);
}

#[test]
fn one_word_pool_after_filtering_announces_it() {
    // Filtering down to a single word ends the session with that word.
    let solutions = strings(&["CRANE", "TRACE", "GRACE"]);
    let mut ca = Candidates::new();
    // G exact at slot 0 leaves only GRACE.
    let hints = vec![
        Hint::Here,
        Hint::Here,
        Hint::Here,
        Hint::Here,
        Hint::Here,
    ];
    ca.apply_hints(&word("GRACE"), &hints);
    let pool = filter_pool(&ca, &solutions);
    assert_eq!(pool, strings(&["GRACE"]));
    assert_eq!(
        session_status(&pool),
        SessionOutcome::Found("GRACE".to_string())
    );
}
