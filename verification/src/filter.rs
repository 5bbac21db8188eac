//! The candidate filter: which letters each slot may still hold, and which
//! letters must appear somewhere in the hidden word.
//!
//! The state is one bitmask over the alphabet per slot plus one "required
//! letters" bitmask. Feedback shrinks the per-slot masks and grows the
//! required mask; `word_fits` tests a word against the current state.
//! In contracts the state is read through `FilterModel`, which holds the
//! same information as one letter set per slot and one required-letter set.

use vstd::prelude::*;
use vstd::set_lib::group_set_lib_default;

use crate::ALPHABET_SIZE;
use crate::WORD_LENGTH;
use crate::feedback::Hint;
use crate::letters::valid_word;

verus! {

broadcast use group_set_lib_default;

/// The bitmask with the low `ALPHABET_SIZE` bits set: every letter allowed.
pub const FULL_MASK: u32 = 0x3FFFFFF;

/// Whether letter `c` is in the bitmask `m`.
pub open spec fn mask_allows(m: u32, c: u8) -> bool {
    ((m >> (c as u32)) & 1u32) == 1u32
}

/// The letters of the alphabet that the bitmask `m` holds.
pub open spec fn letter_set(m: u32) -> Set<u8> {
    Set::new(|c: u8| c < ALPHABET_SIZE && mask_allows(m, c))
}

/// The filter state as mathematics: one set of allowed letters per slot,
/// and the set of letters that must appear somewhere in the word.
pub struct FilterModel {
    pub allowed: Seq<Set<u8>>,
    pub required: Set<u8>,
}

/// Whether a word passes a filter state: each slot's letter is allowed
/// there, and every required letter appears somewhere in the word. The
/// required-letter test is set-based, not multiplicity-aware.
pub open spec fn model_fits(m: FilterModel, w: Seq<u8>) -> bool {
    &&& forall|i: int| 0 <= i < WORD_LENGTH ==> #[trigger] m.allowed[i].contains(w[i])
    &&& forall|c: u8| m.required.contains(c) ==> w.contains(c)
}

/// One slot's worth of feedback folded into the filter state: an exact
/// match pins slot `i` to that letter alone, a misplaced letter leaves
/// slot `i` and must appear somewhere, an absent letter leaves every slot.
pub open spec fn apply_one(m: FilterModel, letter: u8, hint: Hint, i: int) -> FilterModel {
    match hint {
        Hint::Here => FilterModel {
            allowed: m.allowed.update(i, Set::empty().insert(letter)),
            required: m.required,
        },
        Hint::Elsewhere => FilterModel {
            allowed: m.allowed.update(i, m.allowed[i].remove(letter)),
            required: m.required.insert(letter),
        },
        Hint::Nowhere => FilterModel {
            allowed: Seq::new(m.allowed.len(), |j: int| m.allowed[j].remove(letter)),
            required: m.required,
        },
    }
}

/// The first `k` slots of a guess and its feedback folded into the filter
/// state, in slot order.
pub open spec fn apply_seq(m: FilterModel, guess: Seq<u8>, hints: Seq<Hint>, k: int) -> FilterModel
    decreases k,
{
    if k <= 0 {
        m
    } else {
        apply_one(apply_seq(m, guess, hints, k - 1), guess[k - 1], hints[k - 1], k - 1)
    }
}

/// The candidate filter: `masks[i]` is the bitmask of letters still allowed
/// at slot `i`, and `used` is the bitmask of letters known to appear
/// somewhere in the hidden word.
#[derive(Debug)]
pub struct Candidates {
    pub masks: Vec<u32>,
    pub used: u32,
}

impl Candidates {
    /// One bitmask per slot.
    pub open spec fn wf(self) -> bool {
        self.masks@.len() == WORD_LENGTH
    }

    /// The state this filter holds, as sets of letters.
    pub open spec fn model(self) -> FilterModel {
        FilterModel {
            allowed: Seq::new(WORD_LENGTH as nat, |i: int| letter_set(self.masks@[i])),
            required: letter_set(self.used),
        }
    }

    /// A fresh filter: every letter allowed at every slot, none required.
    pub fn new() -> (r: Candidates)
        ensures
            r.wf(),
            forall|i: int| 0 <= i < WORD_LENGTH ==> #[trigger] r.model().allowed[i]
                == full_letter_set(),
            r.model().required == Set::<u8>::empty(),
    {
        let mut masks: Vec<u32> = Vec::new();
        let mut i: usize = 0;
        while i < WORD_LENGTH
            invariant
                i <= WORD_LENGTH,
                masks@.len() == i,
                forall|j: int| 0 <= j < i ==> masks@[j] == FULL_MASK,
            decreases WORD_LENGTH - i,
        {
            masks.push(FULL_MASK);
            i += 1;
        }
        let r = Candidates { masks, used: 0 };
        proof {
            lemma_full_mask_set();
            lemma_zero_mask_set();
            assert forall|i2: int| 0 <= i2 < WORD_LENGTH implies #[trigger] r.model().allowed[i2]
                == full_letter_set() by {
                assert(r.masks@[i2] == FULL_MASK);
            }
        }
        r
    }

    /// Whether `word` is still consistent with everything this filter has
    /// been told.
    pub fn word_fits(&self, word: &Vec<u8>) -> (r: bool)
        requires
            self.wf(),
            valid_word(word@),
        ensures
            r == model_fits(self.model(), word@),
    {
        let mut i: usize = 0;
        while i < WORD_LENGTH
            invariant
                self.wf(),
                valid_word(word@),
                i <= WORD_LENGTH,
                forall|j: int| 0 <= j < i ==> #[trigger] self.model().allowed[j].contains(
                    word@[j],
                ),
            decreases WORD_LENGTH - i,
        {
            let c = word[i];
            if (self.masks[i] >> (c as u32)) & 1u32 != 1u32 {
                proof {
                    assert(!self.model().allowed[i as int].contains(word@[i as int]));
                }
                return false;
            }
            i += 1;
        }
        let mut c: u8 = 0;
        while c < ALPHABET_SIZE
            invariant
                self.wf(),
                valid_word(word@),
                c <= ALPHABET_SIZE,
                forall|j: int| 0 <= j < WORD_LENGTH ==> #[trigger] self.model().allowed[j].contains(
                    word@[j],
                ),
                forall|b: u8| b < c && self.model().required.contains(b) ==> word@.contains(b),
            decreases ALPHABET_SIZE - c,
        {
            if (self.used >> (c as u32)) & 1u32 == 1u32 {
                let mut j: usize = 0;
                let mut present = false;
                while j < WORD_LENGTH
                    invariant
                        valid_word(word@),
                        j <= WORD_LENGTH,
                        present ==> word@.contains(c),
                        !present ==> forall|k: int| 0 <= k < j ==> word@[k] != c,
                    decreases WORD_LENGTH - j,
                {
                    if word[j] == c {
                        present = true;
                    }
                    j += 1;
                }
                if !present {
                    proof {
                        assert(self.model().required.contains(c));
                        assert(forall|k: int| 0 <= k < word@.len() ==> word@[k] != c);
                        assert(!word@.contains(c));
                    }
                    return false;
                }
            }
            c = c + 1;
        }
        proof {
            assert forall|b: u8| self.model().required.contains(b) implies word@.contains(b) by {
                assert(b < ALPHABET_SIZE);
            }
        }
        true
    }

    /// Fold one guess and its feedback into the filter, slot by slot in
    /// increasing order: the new state is `apply_seq` of the old one.
    pub fn apply_hints(&mut self, guessed: &Vec<u8>, hints: &Vec<Hint>)
        requires
            old(self).wf(),
            valid_word(guessed@),
            hints@.len() == WORD_LENGTH,
        ensures
            final(self).wf(),
            final(self).model() == apply_seq(
                old(self).model(),
                guessed@,
                hints@,
                WORD_LENGTH as int,
            ),
    {
        let mut i: usize = 0;
        while i < WORD_LENGTH
            invariant
                self.wf(),
                valid_word(guessed@),
                hints@.len() == WORD_LENGTH,
                i <= WORD_LENGTH,
                self.model() == apply_seq(old(self).model(), guessed@, hints@, i as int),
            decreases WORD_LENGTH - i,
        {
            let ghost prev = self.model();
            let letter = guessed[i];
            match hints[i] {
                Hint::Here => {
                    self.masks.set(i, 1u32 << (letter as u32));
                    proof {
                        lemma_single_mask_set(letter);
                        assert(self.model().allowed =~= apply_one(
                            prev,
                            letter,
                            hints@[i as int],
                            i as int,
                        ).allowed);
                    }
                },
                Hint::Elsewhere => {
                    let m = self.masks[i];
                    self.masks.set(i, m & !(1u32 << (letter as u32)));
                    self.used = self.used | (1u32 << (letter as u32));
                    proof {
                        lemma_remove_mask_set(m, letter);
                        lemma_insert_mask_set(letter);
                        assert(self.model().allowed =~= apply_one(
                            prev,
                            letter,
                            hints@[i as int],
                            i as int,
                        ).allowed);
                    }
                },
                Hint::Nowhere => {
                    let ghost used_before: u32 = self.used;
                    let mut j: usize = 0;
                    while j < WORD_LENGTH
                        invariant
                            self.wf(),
                            valid_word(guessed@),
                            i < WORD_LENGTH,
                            letter == guessed@[i as int],
                            j <= WORD_LENGTH,
                            self.used == used_before,
                            self.model().required == prev.required,
                            forall|k: int| 0 <= k < j ==> #[trigger] self.model().allowed[k]
                                == prev.allowed[k].remove(letter),
                            forall|k: int| j <= k < WORD_LENGTH
                                ==> #[trigger] self.model().allowed[k] == prev.allowed[k],
                        decreases WORD_LENGTH - j,
                    {
                        let ghost before = *self;
                        let mj = self.masks[j];
                        self.masks.set(j, mj & !(1u32 << (letter as u32)));
                        proof {
                            lemma_remove_mask_set(mj, letter);
                            assert(self.masks@ == before.masks@.update(
                                j as int,
                                mj & !(1u32 << (letter as u32)),
                            ));
                            assert forall|k: int| 0 <= k < j + 1 implies #[trigger] self.model()
                                .allowed[k] == prev.allowed[k].remove(letter) by {
                                if k < j {
                                    assert(self.masks@[k] == before.masks@[k]);
                                    assert(before.model().allowed[k] == prev.allowed[k].remove(
                                        letter,
                                    ));
                                } else {
                                    assert(self.model().allowed[k] == letter_set(
                                        mj & !(1u32 << (letter as u32)),
                                    ));
                                    assert(before.model().allowed[k] == letter_set(mj));
                                    assert(before.model().allowed[k] == prev.allowed[k]);
                                }
                            }
                            assert forall|k: int| j + 1 <= k < WORD_LENGTH implies #[trigger] self
                                .model().allowed[k] == prev.allowed[k] by {
                                assert(self.masks@[k] == before.masks@[k]);
                                assert(before.model().allowed[k] == prev.allowed[k]);
                            }
                        }
                        j += 1;
                    }
                    proof {
                        assert(self.model().allowed =~= apply_one(
                            prev,
                            letter,
                            hints@[i as int],
                            i as int,
                        ).allowed);
                    }
                },
            }
            proof {
                assert(self.model() == apply_one(prev, letter, hints@[i as int], i as int)) by {
                    assert(self.model().allowed == apply_one(
                        prev,
                        letter,
                        hints@[i as int],
                        i as int,
                    ).allowed);
                    assert(self.model().required =~= apply_one(
                        prev,
                        letter,
                        hints@[i as int],
                        i as int,
                    ).required);
                }
            }
            i += 1;
        }
    }
}

/// A filter state with one allowed-letter set per slot.
pub open spec fn model_wf(m: FilterModel) -> bool {
    m.allowed.len() == WORD_LENGTH
}

proof fn lemma_apply_seq_len(m: FilterModel, guess: Seq<u8>, hints: Seq<Hint>, k: int)
    requires
        model_wf(m),
        k <= WORD_LENGTH,
    ensures
        model_wf(apply_seq(m, guess, hints, k)),
    decreases (if k > 0 { k } else { 0 }) as int,
{
    if k > 0 {
        lemma_apply_seq_len(m, guess, hints, k - 1);
    }
}

/// The required-letter set only grows as feedback is folded in.
pub proof fn lemma_required_monotone(m: FilterModel, guess: Seq<u8>, hints: Seq<Hint>, k1: int, k2: int)
    requires
        0 <= k1 <= k2,
    ensures
        apply_seq(m, guess, hints, k1).required.subset_of(
            apply_seq(m, guess, hints, k2).required,
        ),
    decreases k2 - k1,
{
    if k1 < k2 {
        lemma_required_monotone(m, guess, hints, k1, k2 - 1);
    }
}

/// From slot `i + 1` on, later feedback of the same call can only shrink
/// what slot `i` allows: positions after `i` never touch slot `i` except to
/// remove letters from it.
pub proof fn lemma_slot_only_shrinks(
    m: FilterModel,
    guess: Seq<u8>,
    hints: Seq<Hint>,
    i: int,
    k: int,
)
    requires
        model_wf(m),
        0 <= i < k <= WORD_LENGTH,
    ensures
        apply_seq(m, guess, hints, k).allowed[i].subset_of(
            apply_seq(m, guess, hints, i + 1).allowed[i],
        ),
    decreases k - i,
{
    if k == i + 1 {
    } else {
        lemma_slot_only_shrinks(m, guess, hints, i, k - 1);
        lemma_apply_seq_len(m, guess, hints, k - 1);
        let s = apply_seq(m, guess, hints, k - 1);
        assert(apply_seq(m, guess, hints, k).allowed[i].subset_of(s.allowed[i]));
    }
}

proof fn lemma_letter_stays_gone(
    m: FilterModel,
    guess: Seq<u8>,
    hints: Seq<Hint>,
    letter: u8,
    k0: int,
    k: int,
)
    requires
        model_wf(m),
        0 <= k0 <= k <= WORD_LENGTH,
        forall|slot: int| 0 <= slot < WORD_LENGTH ==> !apply_seq(
            m,
            guess,
            hints,
            k0,
        ).allowed[slot].contains(letter),
        forall|j: int| k0 <= j < k ==> !(guess[j] == letter && #[trigger] hints[j] == Hint::Here),
    ensures
        forall|slot: int| 0 <= slot < WORD_LENGTH ==> !apply_seq(
            m,
            guess,
            hints,
            k,
        ).allowed[slot].contains(letter),
    decreases k - k0,
{
    if k > k0 {
        lemma_letter_stays_gone(m, guess, hints, letter, k0, k - 1);
        lemma_apply_seq_len(m, guess, hints, k - 1);
        let s = apply_seq(m, guess, hints, k - 1);
        assert forall|slot: int| 0 <= slot < WORD_LENGTH implies !apply_seq(
            m,
            guess,
            hints,
            k,
        ).allowed[slot].contains(letter) by {
            assert(!s.allowed[slot].contains(letter));
            assert(!(guess[k - 1] == letter && hints[k - 1] == Hint::Here));
        }
    }
}

/// After feedback pins slot `i` to letter `guess[i]` with an exact match,
/// the filter rejects every word whose slot-`i` letter differs.
pub proof fn lemma_exact_match_filters(
    m: FilterModel,
    guess: Seq<u8>,
    hints: Seq<Hint>,
    i: int,
    w: Seq<u8>,
)
    requires
        model_wf(m),
        0 <= i < WORD_LENGTH,
        hints[i] == Hint::Here,
        w.len() == WORD_LENGTH,
        w[i] != guess[i],
    ensures
        !model_fits(apply_seq(m, guess, hints, WORD_LENGTH as int), w),
{
    lemma_apply_seq_len(m, guess, hints, i);
    let after_i = apply_seq(m, guess, hints, i + 1);
    assert(after_i.allowed[i] == Set::empty().insert(guess[i]));
    lemma_slot_only_shrinks(m, guess, hints, i, WORD_LENGTH as int);
    let fin = apply_seq(m, guess, hints, WORD_LENGTH as int);
    assert(!fin.allowed[i].contains(w[i]));
}

/// After feedback marks letter `guess[i]` absent, the filter rejects every
/// word that still holds that letter anywhere — as long as no later slot of
/// the same call reports the same letter as an exact match, which would
/// re-allow it at that one slot.
pub proof fn lemma_absent_filters(
    m: FilterModel,
    guess: Seq<u8>,
    hints: Seq<Hint>,
    i: int,
    w: Seq<u8>,
)
    requires
        model_wf(m),
        0 <= i < WORD_LENGTH,
        hints[i] == Hint::Nowhere,
        forall|j: int| i < j < WORD_LENGTH ==> !(guess[j] == guess[i] && #[trigger] hints[j]
            == Hint::Here),
        w.len() == WORD_LENGTH,
        w.contains(guess[i]),
    ensures
        !model_fits(apply_seq(m, guess, hints, WORD_LENGTH as int), w),
{
    lemma_apply_seq_len(m, guess, hints, i);
    let letter = guess[i];
    let after_i = apply_seq(m, guess, hints, i + 1);
    assert(forall|slot: int| 0 <= slot < WORD_LENGTH ==> !after_i.allowed[slot].contains(letter));
    lemma_letter_stays_gone(m, guess, hints, letter, i + 1, WORD_LENGTH as int);
    let fin = apply_seq(m, guess, hints, WORD_LENGTH as int);
    let p = choose|p: int| 0 <= p < w.len() && w[p] == letter;
    assert(!fin.allowed[p].contains(w[p]));
}

/// After feedback marks letter `guess[i]` misplaced at slot `i`, the filter
/// rejects every word with that letter at slot `i`, and every word that
/// does not hold the letter anywhere.
pub proof fn lemma_misplaced_filters(
    m: FilterModel,
    guess: Seq<u8>,
    hints: Seq<Hint>,
    i: int,
    w: Seq<u8>,
)
    requires
        model_wf(m),
        0 <= i < WORD_LENGTH,
        hints[i] == Hint::Elsewhere,
        w.len() == WORD_LENGTH,
    ensures
        w[i] == guess[i] ==> !model_fits(apply_seq(m, guess, hints, WORD_LENGTH as int), w),
        !w.contains(guess[i]) ==> !model_fits(apply_seq(m, guess, hints, WORD_LENGTH as int), w),
{
    lemma_apply_seq_len(m, guess, hints, i);
    let letter = guess[i];
    let after_i = apply_seq(m, guess, hints, i + 1);
    let fin = apply_seq(m, guess, hints, WORD_LENGTH as int);
    assert(after_i.allowed[i] == apply_seq(m, guess, hints, i).allowed[i].remove(letter));
    lemma_slot_only_shrinks(m, guess, hints, i, WORD_LENGTH as int);
    if w[i] == letter {
        assert(!fin.allowed[i].contains(w[i]));
    }
    assert(after_i.required.contains(letter));
    lemma_required_monotone(m, guess, hints, i + 1, WORD_LENGTH as int);
    assert(fin.required.contains(letter));
}

/// The set of every letter of the alphabet.
pub open spec fn full_letter_set() -> Set<u8> {
    Set::new(|c: u8| c < ALPHABET_SIZE)
}

proof fn lemma_full_mask_set()
    ensures
        letter_set(FULL_MASK) == full_letter_set(),
{
    assert forall|c: u8| c < ALPHABET_SIZE implies #[trigger] mask_allows(FULL_MASK, c) by {
        assert((0x3FFFFFFu32 >> (c as u32)) & 1u32 == 1u32) by (bit_vector)
            requires
                c < 26,
        ;
    }
    assert(letter_set(FULL_MASK) =~= full_letter_set());
}

proof fn lemma_zero_mask_set()
    ensures
        letter_set(0u32) == Set::<u8>::empty(),
{
    assert forall|c: u8| !(#[trigger] mask_allows(0u32, c)) by {
        assert((0u32 >> (c as u32)) & 1u32 == 0u32) by (bit_vector);
    }
    assert(letter_set(0u32) =~= Set::<u8>::empty());
}

proof fn lemma_single_mask_set(l: u8)
    requires
        l < ALPHABET_SIZE,
    ensures
        letter_set(1u32 << (l as u32)) == Set::empty().insert(l),
{
    assert forall|c: u8| c < ALPHABET_SIZE implies #[trigger] mask_allows(1u32 << (l as u32), c)
        == (c == l) by {
        assert((((1u32 << (l as u32)) >> (c as u32)) & 1u32 == 1u32) == (c == l)) by (bit_vector)
            requires
                l < 26 && c < 26,
        ;
    }
    assert(letter_set(1u32 << (l as u32)) =~= Set::empty().insert(l));
}

proof fn lemma_remove_mask_set(m: u32, l: u8)
    requires
        l < ALPHABET_SIZE,
    ensures
        letter_set(m & !(1u32 << (l as u32))) == letter_set(m).remove(l),
{
    assert forall|c: u8| c < ALPHABET_SIZE implies #[trigger] mask_allows(
        m & !(1u32 << (l as u32)),
        c,
    ) == (mask_allows(m, c) && c != l) by {
        assert((((m & !(1u32 << (l as u32))) >> (c as u32)) & 1u32 == 1u32) == ((((m >> (c as u32))
            & 1u32) == 1u32) && c != l)) by (bit_vector)
            requires
                l < 26 && c < 26,
        ;
    }
    assert(letter_set(m & !(1u32 << (l as u32))) =~= letter_set(m).remove(l));
}

proof fn lemma_insert_mask_set(l: u8)
    requires
        l < ALPHABET_SIZE,
    ensures
        forall|m: u32| #[trigger] letter_set(m | (1u32 << (l as u32))) == letter_set(m).insert(l),
{
    assert forall|m: u32| #[trigger] letter_set(m | (1u32 << (l as u32))) == letter_set(m).insert(
        l,
    ) by {
        assert forall|c: u8| c < ALPHABET_SIZE implies #[trigger] mask_allows(
            m | (1u32 << (l as u32)),
            c,
        ) == (mask_allows(m, c) || c == l) by {
            assert((((m | (1u32 << (l as u32))) >> (c as u32)) & 1u32 == 1u32) == ((((m >> (
            c as u32)) & 1u32) == 1u32) || c == l)) by (bit_vector)
                requires
                    l < 26 && c < 26,
            ;
        }
        assert(letter_set(m | (1u32 << (l as u32))) =~= letter_set(m).insert(l));
    }
}

} // verus!
