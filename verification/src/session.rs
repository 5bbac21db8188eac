//! One round of the solving session, minus the I/O: re-deriving the
//! candidate pool from the filter, and deciding whether the session is
//! finished.

use vstd::prelude::*;

use crate::filter::Candidates;
use crate::filter::FilterModel;
use crate::filter::model_fits;
use crate::letters::letters_of;
use crate::letters::lemma_letters_of_valid;
use crate::letters::string_numbers;
use crate::scorer::valid_pool;

verus! {

/// The words of `ws`, in order, whose letters pass the filter state `m`.
pub open spec fn fitting_words(m: FilterModel, ws: Seq<String>) -> Seq<String> {
    ws.filter(|w: String| model_fits(m, letters_of(w@)))
}

/// The candidate pool that `filter` leaves of `words`: exactly the words
/// that fit, in the order the word list gives them.
pub fn filter_pool(filter: &Candidates, words: &Vec<String>) -> (r: Vec<String>)
    requires
        filter.wf(),
        valid_pool(words@),
    ensures
        r@ == fitting_words(filter.model(), words@),
        valid_pool(r@),
{
    let mut result: Vec<String> = Vec::new();
    let mut i: usize = 0;
    let n = words.len();
    proof {
        reveal(Seq::filter);
        assert(words@.take(0) =~= Seq::<String>::empty());
    }
    while i < n
        invariant
            filter.wf(),
            valid_pool(words@),
            n == words@.len(),
            i <= n,
            result@ == fitting_words(filter.model(), words@.take(i as int)),
            valid_pool(result@),
        decreases n - i,
    {
        let word = &words[i];
        let nums = string_numbers(word.as_str()).unwrap();
        proof {
            lemma_letters_of_valid(words@[i as int]@);
        }
        if filter.word_fits(&nums) {
            result.push(word.clone());
        }
        proof {
            reveal(Seq::filter);
            assert(words@.take(i + 1).drop_last() =~= words@.take(i as int));
            assert(words@.take(i + 1).last() == words@[i as int]);
        }
        i += 1;
    }
    proof {
        assert(words@.take(n as int) =~= words@);
    }
    result
}

/// How a round ends: no candidate left, exactly one candidate left (the
/// solution), or more than one (the session goes on).
#[derive(Debug, PartialEq, Eq)]
pub enum SessionOutcome {
    /// No word is consistent with the feedback any more.
    NoWords,
    /// Exactly this word is still consistent: it must be the solution.
    Found(String),
    /// More than one candidate remains; another guess is needed.
    Continue,
}

/// Whether the session is over, judged from the candidate pool alone: an
/// empty pool ends it with no solution, a pool of one ends it announcing
/// that word, anything larger continues.
pub fn session_status(current_solutions: &Vec<String>) -> (r: SessionOutcome)
    ensures
        current_solutions@.len() == 0 ==> r == SessionOutcome::NoWords,
        current_solutions@.len() == 1 ==> r == SessionOutcome::Found(current_solutions@[0]),
        current_solutions@.len() > 1 ==> r == SessionOutcome::Continue,
{
    if current_solutions.len() == 0 {
        SessionOutcome::NoWords
    } else if current_solutions.len() == 1 {
        SessionOutcome::Found(current_solutions[0].clone())
    } else {
        SessionOutcome::Continue
    }
}

} // verus!
