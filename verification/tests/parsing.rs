use wordle_solver::feedback::Hint;
use wordle_solver::feedback::hints_from_string;
use wordle_solver::letters::ParseError;
use wordle_solver::letters::char_number;
use wordle_solver::letters::letter_to_char;
use wordle_solver::letters::string_numbers;

#[test]
fn char_number_of_upper_case() {
    assert_eq!(char_number('A'), Ok(0));
    assert_eq!(char_number('C'), Ok(2));
    assert_eq!(char_number('Z'), Ok(25));
}

#[test]
fn char_number_is_case_insensitive() {
    assert_eq!(char_number('a'), Ok(0));
    assert_eq!(char_number('z'), Ok(25));
    for l in 0..26u8 {
        let upper = (b'A' + l) as char;
        let lower = (b'a' + l) as char;
        assert_eq!(char_number(upper), char_number(lower));
    }
}

#[test]
fn char_number_rejects_non_letters() {
    assert_eq!(char_number('1'), Err(ParseError::InvalidChar('1')));
    assert_eq!(char_number(' '), Err(ParseError::InvalidChar(' ')));
    assert_eq!(char_number('['), Err(ParseError::InvalidChar('[')));
    assert_eq!(char_number('{'), Err(ParseError::InvalidChar('{')));
}

#[test]
fn letter_char_round_trip() {
    for l in 0..26u8 {
        assert_eq!(char_number(letter_to_char(l)), Ok(l));
    }
    assert_eq!(letter_to_char(0), 'A');
    assert_eq!(letter_to_char(25), 'Z');
}

#[test]
fn string_numbers_of_valid_word() {
    assert_eq!(string_numbers("CRANE"), Ok(vec![2, 17, 0, 13, 4]));
    assert_eq!(string_numbers("crane"), Ok(vec![2, 17, 0, 13, 4]));
    assert_eq!(string_numbers("AAAAA"), Ok(vec![0, 0, 0, 0, 0]));
}

#[test]
fn string_numbers_rejects_wrong_length() {
    assert_eq!(string_numbers("CRAN"), Err(ParseError::WrongLength));
    assert_eq!(string_numbers("CRANES"), Err(ParseError::WrongLength));
    assert_eq!(string_numbers(""), Err(ParseError::WrongLength));
}

#[test]
fn string_numbers_rejects_first_bad_char() {
    assert_eq!(string_numbers("CR4NE"), Err(ParseError::InvalidChar('4')));
    assert_eq!(string_numbers("C12NE"), Err(ParseError::InvalidChar('1')));
}

#[test]
fn hints_from_string_of_valid_string() {
    assert_eq!(
        hints_from_string("10?01"),
        Ok(vec![
            Hint::Here,
            Hint::Nowhere,
            Hint::Elsewhere,
            Hint::Nowhere,
            Hint::Here,
        ])
    );
    assert_eq!(
        hints_from_string("11111"),
        Ok(vec![Hint::Here; 5])
    );
}

#[test]
fn hints_from_string_rejects_wrong_length() {
    assert_eq!(hints_from_string("10?"), Err(ParseError::WrongLength));
    assert_eq!(hints_from_string("10?011"), Err(ParseError::WrongLength));
}

#[test]
fn hints_from_string_rejects_first_bad_char() {
    assert_eq!(hints_from_string("1x?01"), Err(ParseError::InvalidChar('x')));
    assert_eq!(hints_from_string("12301"), Err(ParseError::InvalidChar('2')));
}
