use wordle_solver::feedback::Hint;
use wordle_solver::letters::string_numbers;
use wordle_solver::scorer::bucket_counts;
use wordle_solver::scorer::find_word_score;
use wordle_solver::scorer::score_words;
use wordle_solver::scorer::worst_hints;

fn word(s: &str) -> Vec<u8> {
    string_numbers(s).unwrap()
}

fn strings(ws: &[&str]) -> Vec<String> {
    ws.iter().map(|w| w.to_string()).collect()
}

#[test]
fn bucket_counts_total_the_pool_size() {
    let pool = strings(&["CRANE", "TRACE", "GRACE", "BRACE", "CRANE"]);
    let counts = bucket_counts(&pool, &word("SLATE"));
    assert_eq!(counts.len(), 243);
    assert_eq!(counts.iter().sum::<usize>(), pool.len());

    let empty: Vec<String> = Vec::new();
    let counts = bucket_counts(&empty, &word("SLATE"));
    assert_eq!(counts.iter().sum::<usize>(), 0);
}

#[test]
fn bucket_counts_separate_distinct_outcomes() {
    // Guess AAAAA: the word itself answers all-Here (encoding 0), the two
    // words without any A answer all-Nowhere (encoding 242).
    let pool = strings(&["AAAAA", "BBBBB", "CCCCC"]);
    let counts = bucket_counts(&pool, &word("AAAAA"));
    assert_eq!(counts[0], 1);
    assert_eq!(counts[242], 2);
    assert_eq!(counts.iter().sum::<usize>(), 3);
}

#[test]
fn find_word_score_is_largest_bucket() {
    let pool = strings(&["AAAAA", "BBBBB", "CCCCC"]);
    let (w, score) = find_word_score(&pool, &"AAAAA".to_string());
    assert_eq!(w, "AAAAA".to_string());
    assert_eq!(score, 2);

    // BBBBB and CCCCC give AAAAA's buckets 242 twice; guessing ABCBC
    // separates every pool word, so its worst bucket holds one word.
    let (_, score) = find_word_score(&pool, &"ABCBC".to_string());
    assert_eq!(score, 1);
}

#[test]
fn find_word_score_ignores_pool_order() {
    let pool = strings(&["CRANE", "TRACE", "GRACE", "BRACE", "SHALE"]);
    let reordered = strings(&["SHALE", "GRACE", "CRANE", "BRACE", "TRACE"]);
    for guess in ["CRANE", "SLATE", "AAAAA", "TRACE"] {
        let (_, a) = find_word_score(&pool, &guess.to_string());
        let (_, b) = find_word_score(&reordered, &guess.to_string());
        assert_eq!(a, b);
    }
}

#[test]
fn score_words_scores_each_word_in_order() {
    let pool = strings(&["AAAAA", "BBBBB", "CCCCC"]);
    let words = strings(&["AAAAA", "ABCBC"]);
    let scored = score_words(&pool, &words);
    assert_eq!(
        scored,
        vec![("AAAAA".to_string(), 2), ("ABCBC".to_string(), 1)]
    );
}

#[test]
fn worst_hints_picks_the_fullest_bucket() {
    // Against AAAAA, two pool words answer all-Nowhere and only one
    // answers all-Here: the adversarial feedback is all-Nowhere.
    let pool = strings(&["AAAAA", "BBBBB", "CCCCC"]);
    let r = worst_hints(&pool, &word("AAAAA"));
    assert_eq!(r, vec![Hint::Nowhere; 5]);
}

#[test]
fn worst_hints_breaks_ties_by_lowest_encoding() {
    // Every bucket holds at most one word, so the all-Here bucket of the
    // word itself (encoding 0) wins the tie.
    let pool = strings(&["AAAAA", "BBBBB"]);
    let r = worst_hints(&pool, &word("AAAAA"));
    assert_eq!(r, vec![Hint::Here; 5]);
}
