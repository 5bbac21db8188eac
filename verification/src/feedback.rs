//! The feedback model: per-letter outcomes between a guess and a hidden
//! word, and a radix-3 encoding of a whole feedback vector.
//!
//! `compare_words` reports, for each slot, whether the guessed letter is in
//! the right slot, present elsewhere, or absent. `encode_hints` and
//! `decode_hints` turn a feedback vector into a single integer and back,
//! treating slot 0 as the least significant base-3 digit.

use vstd::prelude::*;
use vstd::arithmetic::div_mod::lemma_fundamental_div_mod;
use vstd::arithmetic::div_mod::lemma_fundamental_div_mod_converse;
use vstd::string::StrSliceExecFns;

use crate::WORD_LENGTH;
use crate::letters::ParseError;
use crate::letters::valid_word;

verus! {

/// The outcome reported for one slot of a guess.
#[derive(Copy, Clone, Debug, PartialEq, Eq)]
pub enum Hint {
    /// The guessed letter is in the hidden word, at this very slot.
    Here,
    /// The guessed letter is in the hidden word, but at another slot.
    Elsewhere,
    /// The guessed letter is not in the hidden word at all.
    Nowhere,
}

/// The base-3 digit of one outcome.
pub open spec fn hint_digit(h: Hint) -> int {
    match h {
        Hint::Here => 0,
        Hint::Elsewhere => 1,
        Hint::Nowhere => 2,
    }
}

/// The outcome with the given base-3 digit.
pub open spec fn digit_hint(d: int) -> Hint {
    if d == 0 {
        Hint::Here
    } else if d == 1 {
        Hint::Elsewhere
    } else {
        Hint::Nowhere
    }
}

pub open spec fn pow3(n: nat) -> nat
    decreases n,
{
    if n == 0 {
        1
    } else {
        3 * pow3((n - 1) as nat)
    }
}

/// How many distinct feedback vectors there are: `pow3(WORD_LENGTH)`.
pub const NUM_OUTCOMES: usize = 243;

pub proof fn lemma_pow3_word_length()
    ensures
        pow3(WORD_LENGTH as nat) == NUM_OUTCOMES,
{
    reveal_with_fuel(pow3, 6);
}

/// The feedback for `guess` against `hidden`: at each slot, `Here` wins if
/// the letters agree there; otherwise `Elsewhere` if the guessed letter
/// stands at some other slot of the hidden word; otherwise `Nowhere`.
///
/// The scan is pairwise: it does not cap `Elsewhere` reports by the
/// multiplicity of the letter in the hidden word.
pub open spec fn spec_compare(guess: Seq<u8>, hidden: Seq<u8>) -> Seq<Hint> {
    Seq::new(
        WORD_LENGTH as nat,
        |i: int|
            if guess[i] == hidden[i] {
                Hint::Here
            } else if exists|j: int| 0 <= j < WORD_LENGTH && j != i && guess[i] == hidden[j] {
                Hint::Elsewhere
            } else {
                Hint::Nowhere
            },
    )
}

/// The radix-3 value of a feedback vector, least significant digit first.
pub open spec fn spec_encode(hints: Seq<Hint>) -> int
    decreases hints.len(),
{
    if hints.len() == 0 {
        0
    } else {
        hint_digit(hints[0]) + 3 * spec_encode(hints.drop_first())
    }
}

/// The `n` base-3 digits of `e`, least significant first, as outcomes.
pub open spec fn spec_decode(e: int, n: nat) -> Seq<Hint>
    decreases n,
{
    if n == 0 {
        Seq::empty()
    } else {
        seq![digit_hint(e % 3)] + spec_decode(e / 3, (n - 1) as nat)
    }
}

pub proof fn lemma_encode_bounds(hints: Seq<Hint>)
    ensures
        0 <= spec_encode(hints) < pow3(hints.len()),
    decreases hints.len(),
{
    if hints.len() > 0 {
        lemma_encode_bounds(hints.drop_first());
    }
}

/// Appending an outcome adds its digit at the next radix-3 position.
proof fn lemma_encode_push(hints: Seq<Hint>, h: Hint)
    ensures
        spec_encode(hints.push(h)) == spec_encode(hints) + hint_digit(h) * pow3(hints.len()),
    decreases hints.len(),
{
    if hints.len() == 0 {
        assert(hints.push(h)[0] == h);
        assert(hints.push(h).drop_first() =~= Seq::<Hint>::empty());
        assert(spec_encode(hints.push(h)) == hint_digit(h) + 3 * spec_encode(
            Seq::<Hint>::empty(),
        ));
        assert(pow3(hints.len()) == 1);
    } else {
        let t = hints.drop_first();
        assert(hints.push(h)[0] == hints[0]);
        assert(hints.push(h).drop_first() =~= t.push(h));
        lemma_encode_push(t, h);
        assert(spec_encode(hints) == hint_digit(hints[0]) + 3 * spec_encode(t));
        assert(spec_encode(hints.push(h)) == hint_digit(hints[0]) + 3 * (spec_encode(t)
            + hint_digit(h) * pow3(t.len())));
        assert(pow3(hints.len()) == 3 * pow3(t.len()));
        assert(3 * (spec_encode(t) + hint_digit(h) * pow3(t.len())) == 3 * spec_encode(t)
            + hint_digit(h) * (3 * pow3(t.len()))) by (nonlinear_arith);
    }
}

/// Decoding what a vector encodes gives the vector back.
pub proof fn lemma_decode_encode(hints: Seq<Hint>)
    ensures
        spec_decode(spec_encode(hints), hints.len()) == hints,
    decreases hints.len(),
{
    if hints.len() == 0 {
        assert(spec_decode(spec_encode(hints), hints.len()) =~= hints);
    } else {
        let d = hint_digit(hints[0]);
        let rest = spec_encode(hints.drop_first());
        let e = spec_encode(hints);
        lemma_encode_bounds(hints.drop_first());
        lemma_fundamental_div_mod_converse(e, 3, rest, d);
        assert(e % 3 == d && e / 3 == rest);
        lemma_decode_encode(hints.drop_first());
        assert(spec_decode(e, hints.len()) =~= hints);
    }
}

/// Encoding what a value decodes to gives the value back, on the valid range.
pub proof fn lemma_encode_decode(e: int, n: nat)
    requires
        0 <= e < pow3(n),
    ensures
        spec_decode(e, n).len() == n,
        spec_encode(spec_decode(e, n)) == e,
    decreases n,
{
    if n > 0 {
        lemma_fundamental_div_mod(e, 3);
        assert(e / 3 < pow3((n - 1) as nat)) by {
            if e / 3 >= pow3((n - 1) as nat) {
                assert(e >= 3 * pow3((n - 1) as nat)) by (nonlinear_arith)
                    requires
                        e / 3 >= pow3((n - 1) as nat),
                        e >= 0,
                ;
            }
        }
        lemma_encode_decode(e / 3, (n - 1) as nat);
        let s = spec_decode(e, n);
        assert(s[0] == digit_hint(e % 3));
        assert(s.drop_first() =~= spec_decode(e / 3, (n - 1) as nat));
    }
}

/// Two feedback vectors of equal length with the same encoding are equal:
/// the encoding is injective.
pub proof fn lemma_encode_injective(a: Seq<Hint>, b: Seq<Hint>)
    requires
        a.len() == b.len(),
        spec_encode(a) == spec_encode(b),
    ensures
        a == b,
{
    lemma_decode_encode(a);
    lemma_decode_encode(b);
}

/// The base-3 digit of one outcome, as executable code.
pub fn hint_value(h: Hint) -> (r: usize)
    ensures
        r == hint_digit(h),
{
    match h {
        Hint::Here => 0,
        Hint::Elsewhere => 1,
        Hint::Nowhere => 2,
    }
}

/// The radix-3 value of a feedback vector.
pub fn encode_hints(hints: &Vec<Hint>) -> (r: usize)
    requires
        hints@.len() == WORD_LENGTH,
    ensures
        r == spec_encode(hints@),
        r < NUM_OUTCOMES,
{
    proof {
        lemma_pow3_word_length();
    }
    let mut a: usize = 0;
    let mut b: usize = 1;
    let mut i: usize = 0;
    while i < hints.len()
        invariant
            hints@.len() == WORD_LENGTH,
            i <= WORD_LENGTH,
            b == pow3(i as nat),
            a == spec_encode(hints@.take(i as int)),
            pow3(WORD_LENGTH as nat) == NUM_OUTCOMES,
        decreases hints@.len() - i,
    {
        proof {
            lemma_encode_bounds(hints@.take(i as int));
            lemma_pow3_increases(i as nat, WORD_LENGTH as nat);
            lemma_encode_push(hints@.take(i as int), hints@[i as int]);
            assert(hints@.take(i as int).push(hints@[i as int]) =~= hints@.take(i + 1));
            assert(hint_digit(hints@[i as int]) * pow3(i as nat) <= 2 * pow3(i as nat))
                by (nonlinear_arith)
                requires
                    hint_digit(hints@[i as int]) <= 2,
            ;
        }
        let h = hints[i];
        a = a + hint_value(h) * b;
        b = b * 3;
        i += 1;
    }
    proof {
        assert(hints@.take(WORD_LENGTH as int) =~= hints@);
        lemma_encode_bounds(hints@);
    }
    a
}

proof fn lemma_pow3_increases(m: nat, n: nat)
    requires
        m <= n,
    ensures
        pow3(m) <= pow3(n),
    decreases n,
{
    if m < n {
        lemma_pow3_increases(m, (n - 1) as nat);
    }
}

/// The feedback vector whose radix-3 value is `v`.
///
/// Values at or above `NUM_OUTCOMES` do not encode any feedback vector;
/// handing one in is a programming error, so it is ruled out here.
pub fn decode_hints(v: usize) -> (r: Vec<Hint>)
    requires
        v < NUM_OUTCOMES,
    ensures
        r@.len() == WORD_LENGTH,
        r@ == spec_decode(v as int, WORD_LENGTH as nat),
        spec_encode(r@) == v,
{
    let mut result: Vec<Hint> = Vec::new();
    let mut w: usize = v;
    let mut i: usize = 0;
    while i < WORD_LENGTH
        invariant
            i <= WORD_LENGTH,
            result@.len() == i,
            result@ + spec_decode(w as int, (WORD_LENGTH - i) as nat) == spec_decode(
                v as int,
                WORD_LENGTH as nat,
            ),
        decreases WORD_LENGTH - i,
    {
        let d = w % 3;
        let h = if d == 0 {
            Hint::Here
        } else if d == 1 {
            Hint::Elsewhere
        } else {
            Hint::Nowhere
        };
        proof {
            assert(h == digit_hint(w as int % 3));
            let tail = spec_decode(w as int, (WORD_LENGTH - i) as nat);
            assert(tail == seq![h] + spec_decode(w as int / 3, (WORD_LENGTH - i - 1) as nat));
            assert(result@.push(h) + spec_decode(w as int / 3, (WORD_LENGTH - i - 1) as nat)
                =~= result@ + tail);
        }
        result.push(h);
        w = w / 3;
        i += 1;
    }
    proof {
        assert(result@ + spec_decode(w as int, 0) =~= result@);
        lemma_pow3_word_length();
        lemma_encode_decode(v as int, WORD_LENGTH as nat);
    }
    result
}

/// Which characters may stand in a feedback string.
pub open spec fn is_hint_char(c: char) -> bool {
    c == '1' || c == '?' || c == '0'
}

/// The outcome written as one character: `'1'` is `Here`, `'?'` is
/// `Elsewhere`, `'0'` is `Nowhere`.
pub open spec fn hint_of_char(c: char) -> Hint {
    if c == '1' {
        Hint::Here
    } else if c == '?' {
        Hint::Elsewhere
    } else {
        Hint::Nowhere
    }
}

/// A whole feedback string, one character per slot.
pub open spec fn hints_of_chars(s: Seq<char>) -> Seq<Hint> {
    Seq::new(s.len(), |i: int| hint_of_char(s[i]))
}

/// A feedback string of exactly `WORD_LENGTH` characters.
pub open spec fn valid_hint_chars(s: Seq<char>) -> bool {
    &&& s.len() == WORD_LENGTH
    &&& forall|i: int| 0 <= i < s.len() ==> is_hint_char(#[trigger] s[i])
}

/// The feedback vector written in `s`, or an error saying how `s` fails:
/// the wrong length, or the first character that is not `'1'`, `'0'` or `'?'`.
pub fn hints_from_string(input: &str) -> (r: Result<Vec<Hint>, ParseError>)
    ensures
        input@.len() != WORD_LENGTH ==> r == Err::<Vec<Hint>, ParseError>(ParseError::WrongLength),
        valid_hint_chars(input@) ==> (r matches Ok(v) && v@ == hints_of_chars(input@)),
        input@.len() == WORD_LENGTH && !valid_hint_chars(input@) ==> r == Err::<
            Vec<Hint>,
            ParseError,
        >(
            ParseError::InvalidChar(
                input@[crate::letters::first_rejected(input@, |c: char| is_hint_char(c))],
            ),
        ),
{
    let n = input.unicode_len();
    if n != WORD_LENGTH {
        return Err(ParseError::WrongLength);
    }
    let mut result: Vec<Hint> = Vec::new();
    let mut i: usize = 0;
    while i < n
        invariant
            n == input@.len() == WORD_LENGTH,
            i <= n,
            result@.len() == i,
            forall|j: int| 0 <= j < i ==> is_hint_char(#[trigger] input@[j]),
            forall|j: int| 0 <= j < i ==> result@[j] == hint_of_char(input@[j]),
        decreases n - i,
    {
        let c = input.get_char(i);
        match c {
            '1' => result.push(Hint::Here),
            '?' => result.push(Hint::Elsewhere),
            '0' => result.push(Hint::Nowhere),
            _ => {
                proof {
                    crate::letters::lemma_first_rejected(
                        input@,
                        |ch: char| is_hint_char(ch),
                        i as int,
                    );
                }
                return Err(ParseError::InvalidChar(c));
            },
        }
        i += 1;
    }
    proof {
        assert(result@ =~= hints_of_chars(input@));
    }
    Ok(result)
}

/// The feedback of a guess against a hidden word.
pub fn compare_words(input: &Vec<u8>, hidden: &Vec<u8>) -> (r: Vec<Hint>)
    requires
        valid_word(input@),
        valid_word(hidden@),
    ensures
        r@ == spec_compare(input@, hidden@),
{
    let mut result: Vec<Hint> = Vec::new();
    let mut i: usize = 0;
    while i < WORD_LENGTH
        invariant
            valid_word(input@),
            valid_word(hidden@),
            i <= WORD_LENGTH,
            result@.len() == i,
            forall|k: int| 0 <= k < i ==> result@[k] == spec_compare(input@, hidden@)[k],
        decreases WORD_LENGTH - i,
    {
        let h: Hint;
        if input[i] == hidden[i] {
            h = Hint::Here;
        } else {
            let mut found = false;
            let mut j: usize = 0;
            while j < WORD_LENGTH
                invariant
                    valid_word(input@),
                    valid_word(hidden@),
                    i < WORD_LENGTH,
                    j <= WORD_LENGTH,
                    !found ==> forall|k: int|
                        0 <= k < j ==> !(k != i && input@[i as int] == hidden@[k]),
                    found ==> exists|k: int|
                        0 <= k < WORD_LENGTH && k != i && input@[i as int] == hidden@[k],
                decreases WORD_LENGTH - j,
            {
                if j != i && input[i] == hidden[j] {
                    found = true;
                }
                j += 1;
            }
            if found {
                h = Hint::Elsewhere;
            } else {
                h = Hint::Nowhere;
            }
        }
        result.push(h);
        i += 1;
    }
    proof {
        assert(result@ =~= spec_compare(input@, hidden@));
    }
    result
}

/// Comparing a word against itself reports `Here` at every slot.
pub proof fn lemma_compare_self(w: Seq<u8>)
    requires
        valid_word(w),
    ensures
        forall|i: int| 0 <= i < WORD_LENGTH ==> spec_compare(w, w)[i] == Hint::Here,
{
}

/// Wherever guess and hidden word agree, the feedback is `Here`: an exact
/// match always takes precedence over a misplaced-letter report there.
pub proof fn lemma_exact_match_precedence(guess: Seq<u8>, hidden: Seq<u8>, i: int)
    requires
        0 <= i < WORD_LENGTH,
        guess[i] == hidden[i],
    ensures
        spec_compare(guess, hidden)[i] == Hint::Here,
{
}

} // verus!
