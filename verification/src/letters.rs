//! Conversion between characters and letter numbers.
//!
//! A letter number is an integer in `[0, ALPHABET_SIZE)`; it is derived from
//! an ASCII letter, case-insensitively, by subtracting the code of `'A'`.
//! Invalid input is rejected here and never reaches the solver core.

use vstd::prelude::*;
use vstd::string::StrSliceExecFns;

use crate::ALPHABET_SIZE;
use crate::WORD_LENGTH;

verus! {

/// Why a character or a word was rejected at the boundary.
#[derive(Debug, Copy, Clone, PartialEq, Eq)]
pub enum ParseError {
    /// The input does not have exactly `WORD_LENGTH` characters.
    WrongLength,
    /// The input holds this character, which is not accepted here.
    InvalidChar(char),
}

pub open spec fn is_upper_char(c: char) -> bool {
    65 <= c as int <= 90
}

pub open spec fn is_lower_char(c: char) -> bool {
    97 <= c as int <= 122
}

/// An ASCII alphabetic character, in either case.
pub open spec fn is_letter_char(c: char) -> bool {
    is_upper_char(c) || is_lower_char(c)
}

/// The letter number of an ASCII alphabetic character, case-insensitively.
pub open spec fn letter_of(c: char) -> int {
    if is_lower_char(c) {
        c as int - 97
    } else {
        c as int - 65
    }
}

/// The upper-case character of a letter number.
pub open spec fn char_of(l: int) -> char {
    (l + 65) as char
}

pub open spec fn valid_letter(c: u8) -> bool {
    c < ALPHABET_SIZE
}

/// A word as the core handles it: exactly `WORD_LENGTH` letter numbers.
pub open spec fn valid_word(s: Seq<u8>) -> bool {
    &&& s.len() == WORD_LENGTH
    &&& forall|i: int| 0 <= i < s.len() ==> valid_letter(#[trigger] s[i])
}

/// A word as read from the outside: exactly `WORD_LENGTH` ASCII letters.
pub open spec fn valid_word_chars(s: Seq<char>) -> bool {
    &&& s.len() == WORD_LENGTH
    &&& forall|i: int| 0 <= i < s.len() ==> is_letter_char(#[trigger] s[i])
}

/// The letter numbers of a character sequence.
pub open spec fn letters_of(s: Seq<char>) -> Seq<u8> {
    Seq::new(s.len(), |i: int| letter_of(s[i]) as u8)
}

/// The index of the first character that `p` rejects, if any;
/// the length of the sequence otherwise.
pub open spec fn first_rejected(s: Seq<char>, p: spec_fn(char) -> bool) -> int
    decreases s.len(),
{
    if s.len() == 0 {
        0
    } else if !p(s[0]) {
        0
    } else {
        1 + first_rejected(s.drop_first(), p)
    }
}

pub proof fn lemma_first_rejected(s: Seq<char>, p: spec_fn(char) -> bool, i: int)
    requires
        0 <= i < s.len(),
        forall|j: int| 0 <= j < i ==> p(#[trigger] s[j]),
        !p(s[i]),
    ensures
        first_rejected(s, p) == i,
    decreases i,
{
    if i > 0 {
        lemma_first_rejected(s.drop_first(), p, i - 1);
    }
}

/// The letter numbers of a valid word are valid letters.
pub proof fn lemma_letters_of_valid(s: Seq<char>)
    requires
        valid_word_chars(s),
    ensures
        valid_word(letters_of(s)),
{
}

/// The letter number of a character, or an error naming the character.
pub fn char_number(c: char) -> (r: Result<u8, ParseError>)
    ensures
        is_letter_char(c) ==> r == Ok::<u8, ParseError>(letter_of(c) as u8),
        !is_letter_char(c) ==> r == Err::<u8, ParseError>(ParseError::InvalidChar(c)),
{
    let u = c as u32;
    if 65 <= u && u <= 90 {
        Ok((u - 65) as u8)
    } else if 97 <= u && u <= 122 {
        Ok((u - 97) as u8)
    } else {
        Err(ParseError::InvalidChar(c))
    }
}

/// The upper-case character of a letter number.
pub fn letter_to_char(l: u8) -> (r: char)
    requires
        l < ALPHABET_SIZE,
    ensures
        r == char_of(l as int),
        is_upper_char(r),
        letter_of(r) == l as int,
{
    (l + 65) as char
}

/// Letter numbers and characters are exact inverses of one another,
/// and lower-case input maps to the same letter as upper-case input.
pub proof fn lemma_letter_char_round_trip(l: int)
    requires
        0 <= l < ALPHABET_SIZE,
    ensures
        is_upper_char(char_of(l)),
        letter_of(char_of(l)) == l,
        is_lower_char((l + 97) as char),
        letter_of((l + 97) as char) == l,
{
}

/// The letter numbers of a whole word, or an error saying how it fails:
/// the wrong length, or the first character that is not an ASCII letter.
pub fn string_numbers(s: &str) -> (r: Result<Vec<u8>, ParseError>)
    ensures
        s@.len() != WORD_LENGTH ==> r == Err::<Vec<u8>, ParseError>(ParseError::WrongLength),
        valid_word_chars(s@) ==> (r matches Ok(v) && v@ == letters_of(s@)),
        s@.len() == WORD_LENGTH && !valid_word_chars(s@) ==> r == Err::<Vec<u8>, ParseError>(
            ParseError::InvalidChar(s@[first_rejected(s@, |c: char| is_letter_char(c))]),
        ),
{
    let n = s.unicode_len();
    if n != WORD_LENGTH {
        return Err(ParseError::WrongLength);
    }
    let mut result: Vec<u8> = Vec::new();
    let mut i: usize = 0;
    while i < n
        invariant
            n == s@.len() == WORD_LENGTH,
            i <= n,
            result@.len() == i,
            forall|j: int| 0 <= j < i ==> is_letter_char(#[trigger] s@[j]),
            forall|j: int| 0 <= j < i ==> result@[j] == letter_of(s@[j]) as u8,
        decreases n - i,
    {
        let c = s.get_char(i);
        match char_number(c) {
            Ok(l) => {
                result.push(l);
            },
            Err(e) => {
                proof {
                    lemma_first_rejected(s@, |ch: char| is_letter_char(ch), i as int);
                }
                return Err(e);
            },
        }
        i += 1;
    }
    proof {
        assert(result@ =~= letters_of(s@));
    }
    Ok(result)
}

} // verus!
