use wordle_solver::feedback::Hint;
use wordle_solver::feedback::compare_words;
use wordle_solver::feedback::decode_hints;
use wordle_solver::feedback::encode_hints;
use wordle_solver::letters::string_numbers;

fn word(s: &str) -> Vec<u8> {
    string_numbers(s).unwrap()
}

#[test]
fn encode_of_known_vector() {
    // Digits are Here = 0, Elsewhere = 1, Nowhere = 2, slot 0 least significant.
    let v = vec![
        Hint::Here,
        Hint::Elsewhere,
        Hint::Nowhere,
        Hint::Here,
        Hint::Here,
    ];
    assert_eq!(encode_hints(&v), 1 * 3 + 2 * 9);
    assert_eq!(encode_hints(&vec![Hint::Here; 5]), 0);
    assert_eq!(encode_hints(&vec![Hint::Nowhere; 5]), 242);
}

#[test]
fn decode_of_known_value() {
    assert_eq!(
        decode_hints(21),
        vec![
            Hint::Here,
            Hint::Elsewhere,
            Hint::Nowhere,
            Hint::Here,
            Hint::Here,
        ]
    );
    assert_eq!(decode_hints(0), vec![Hint::Here; 5]);
    assert_eq!(decode_hints(242), vec![Hint::Nowhere; 5]);
}

#[test]
fn encode_decode_round_trip_everywhere() {
    for e in 0..243usize {
        let v = decode_hints(e);
        assert_eq!(v.len(), 5);
        assert_eq!(encode_hints(&v), e);
    }
}

#[test]
fn decode_encode_round_trip() {
    let v = vec![
        Hint::Nowhere,
        Hint::Elsewhere,
        Hint::Here,
        Hint::Elsewhere,
        Hint::Nowhere,
    ];
    assert_eq!(decode_hints(encode_hints(&v)), v);
}

#[test]
fn compare_word_with_itself_is_all_exact() {
    for s in ["CRANE", "TRACE", "AAAAA", "QUIRK"] {
        let w = word(s);
        assert_eq!(compare_words(&w, &w), vec![Hint::Here; 5]);
    }
}

#[test]
fn compare_exact_match_takes_precedence() {
    // The letter A at slot 0 also stands elsewhere in the hidden word, but
    // the exact match at slot 0 wins.
    let guess = word("ABBBB");
    let hidden = word("ACCCA");
    let r = compare_words(&guess, &hidden);
    assert_eq!(r[0], Hint::Here);
}

#[test]
fn compare_reports_misplaced_and_absent() {
    // Guess CRANE against hidden TRACE: C stands elsewhere (slot 3 of
    // TRACE), R, A and E match exactly, N is absent.
    let r = compare_words(&word("CRANE"), &word("TRACE"));
    assert_eq!(
        r,
        vec![
            Hint::Elsewhere,
            Hint::Here,
            Hint::Here,
            Hint::Nowhere,
            Hint::Here,
        ]
    );
}

#[test]
fn compare_does_not_cap_misplaced_by_multiplicity() {
    // Both A's of the guess are reported Elsewhere although the hidden
    // word holds only one A: the scan is pairwise, not count-limited.
    let r = compare_words(&word("AABBB"), &word("CCACC"));
    assert_eq!(r[0], Hint::Elsewhere);
    assert_eq!(r[1], Hint::Elsewhere);
}
