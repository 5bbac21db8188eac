//! The guess scorer: partition a candidate pool by the feedback each
//! candidate would produce against a guess, and judge the guess by its
//! largest partition.
//!
//! `bucket_counts` counts, for every encoded feedback value, how many pool
//! words would produce it. `find_word_score` reports the largest count (the
//! worst-case outcome; lower is better), and `worst_hints` reports the
//! feedback vector of the fullest bucket, taking the lowest encoding on
//! ties.

use vstd::prelude::*;
use vstd::assert_multisets_equal;
use vstd::multiset::Multiset;
use vstd::multiset::group_multiset_axioms;
use vstd::multiset::group_multiset_properties;
use vstd::seq_lib::group_to_multiset_ensures;

use crate::WORD_LENGTH;
use crate::feedback::Hint;
use crate::feedback::NUM_OUTCOMES;
use crate::feedback::compare_words;
use crate::feedback::encode_hints;
use crate::feedback::decode_hints;
use crate::feedback::lemma_encode_bounds;
use crate::feedback::lemma_pow3_word_length;
use crate::feedback::spec_compare;
use crate::feedback::spec_encode;
use crate::letters::letters_of;
use crate::letters::lemma_letters_of_valid;
use crate::letters::string_numbers;
use crate::letters::valid_word;
use crate::letters::valid_word_chars;

verus! {

broadcast use group_multiset_axioms, group_multiset_properties, group_to_multiset_ensures;

/// The encoded feedback that `w` as the hidden word would give to `guess`.
pub open spec fn outcome(guess: Seq<u8>, w: Seq<u8>) -> int {
    spec_encode(spec_compare(guess, w))
}

/// A pool of words as the scorer reads it: each word's letter numbers.
pub open spec fn pool_model(ws: Seq<String>) -> Seq<Seq<u8>> {
    Seq::new(ws.len(), |i: int| letters_of(ws[i]@))
}

/// Every word of the pool is a well-formed word of letter characters.
pub open spec fn valid_pool(ws: Seq<String>) -> bool {
    forall|i: int| 0 <= i < ws.len() ==> valid_word_chars(#[trigger] ws[i]@)
}

/// How many words of `pool` fall into the bucket of encoded feedback `e`
/// against `guess`.
pub open spec fn bucket_count(pool: Seq<Seq<u8>>, guess: Seq<u8>, e: int) -> nat
    decreases pool.len(),
{
    if pool.len() == 0 {
        0
    } else {
        bucket_count(pool.drop_last(), guess, e) + if outcome(guess, pool.last()) == e {
            1nat
        } else {
            0nat
        }
    }
}

/// The encoded feedback whose bucket is fullest among the first `k`
/// buckets; on ties, the lowest encoding, since only a strictly fuller
/// bucket displaces the running winner.
pub open spec fn best_bucket(pool: Seq<Seq<u8>>, guess: Seq<u8>, k: int) -> int
    decreases k,
{
    if k <= 1 {
        0
    } else {
        let prior = best_bucket(pool, guess, k - 1);
        if bucket_count(pool, guess, k - 1) > bucket_count(pool, guess, prior) {
            k - 1
        } else {
            prior
        }
    }
}

/// The size of the largest feedback bucket: the worst-case number of pool
/// words a guess could leave indistinguishable.
pub open spec fn spec_score(pool: Seq<Seq<u8>>, guess: Seq<u8>) -> nat {
    bucket_count(pool, guess, best_bucket(pool, guess, NUM_OUTCOMES as int))
}

proof fn lemma_bucket_le(pool: Seq<Seq<u8>>, guess: Seq<u8>, e: int)
    ensures
        bucket_count(pool, guess, e) <= pool.len(),
    decreases pool.len(),
{
    if pool.len() > 0 {
        lemma_bucket_le(pool.drop_last(), guess, e);
    }
}

proof fn lemma_bucket_push(pool: Seq<Seq<u8>>, guess: Seq<u8>, w: Seq<u8>, e: int)
    ensures
        bucket_count(pool.push(w), guess, e) == bucket_count(pool, guess, e) + if outcome(guess, w)
            == e {
            1nat
        } else {
            0nat
        },
{
    assert(pool.push(w).drop_last() =~= pool);
    assert(pool.push(w).last() == w);
}

/// The fullest bucket is at least as full as every bucket, and its index
/// is a valid encoding.
pub proof fn lemma_best_bucket_is_max(pool: Seq<Seq<u8>>, guess: Seq<u8>, k: int)
    requires
        1 <= k,
    ensures
        0 <= best_bucket(pool, guess, k) < k,
        forall|e: int| 0 <= e < k ==> #[trigger] bucket_count(pool, guess, e) <= bucket_count(
            pool,
            guess,
            best_bucket(pool, guess, k),
        ),
    decreases k,
{
    if k > 1 {
        lemma_best_bucket_is_max(pool, guess, k - 1);
    }
}

/// Every word of the pool lands in exactly one bucket, so the bucket
/// counts over the whole outcome space total the pool's size.
pub open spec fn sum_buckets(pool: Seq<Seq<u8>>, guess: Seq<u8>, k: int) -> nat
    decreases k,
{
    if k <= 0 {
        0
    } else {
        sum_buckets(pool, guess, k - 1) + bucket_count(pool, guess, k - 1)
    }
}

proof fn lemma_sum_empty(guess: Seq<u8>, k: int)
    ensures
        sum_buckets(Seq::empty(), guess, k) == 0,
    decreases (if k > 0 { k } else { 0 }) as int,
{
    if k > 0 {
        lemma_sum_empty(guess, k - 1);
    }
}

proof fn lemma_sum_push(pool: Seq<Seq<u8>>, guess: Seq<u8>, w: Seq<u8>, k: int)
    ensures
        sum_buckets(pool.push(w), guess, k) == sum_buckets(pool, guess, k) + if 0 <= outcome(
            guess,
            w,
        ) < k {
            1nat
        } else {
            0nat
        },
    decreases (if k > 0 { k } else { 0 }) as int,
{
    if k > 0 {
        lemma_sum_push(pool, guess, w, k - 1);
        lemma_bucket_push(pool, guess, w, k - 1);
    }
}

/// The bucket counts across the whole outcome space total exactly the
/// size of the pool, whatever the pool and the guess.
pub proof fn lemma_buckets_total(pool: Seq<Seq<u8>>, guess: Seq<u8>)
    ensures
        sum_buckets(pool, guess, NUM_OUTCOMES as int) == pool.len(),
    decreases pool.len(),
{
    if pool.len() == 0 {
        lemma_sum_empty(guess, NUM_OUTCOMES as int);
        assert(pool =~= Seq::<Seq<u8>>::empty());
    } else {
        lemma_buckets_total(pool.drop_last(), guess);
        lemma_pow3_word_length();
        lemma_encode_bounds(spec_compare(guess, pool.last()));
        assert(0 <= outcome(guess, pool.last()) < NUM_OUTCOMES);
        lemma_sum_push(pool.drop_last(), guess, pool.last(), NUM_OUTCOMES as int);
        assert(pool.drop_last().push(pool.last()) =~= pool);
    }
}

proof fn lemma_filter_insert_len(ms: Multiset<Seq<u8>>, p: spec_fn(Seq<u8>) -> bool, w: Seq<u8>)
    ensures
        ms.insert(w).filter(p).len() == ms.filter(p).len() + if p(w) {
            1nat
        } else {
            0nat
        },
{
    if p(w) {
        assert_multisets_equal!(ms.insert(w).filter(p), ms.filter(p).insert(w));
    } else {
        assert_multisets_equal!(ms.insert(w).filter(p), ms.filter(p));
    }
}

proof fn lemma_bucket_count_multiset(pool: Seq<Seq<u8>>, guess: Seq<u8>, e: int)
    ensures
        bucket_count(pool, guess, e) == pool.to_multiset().filter(
            |w: Seq<u8>| outcome(guess, w) == e,
        ).len(),
    decreases pool.len(),
{
    let p = |w: Seq<u8>| outcome(guess, w) == e;
    if pool.len() == 0 {
        assert(pool.to_multiset() =~= Multiset::<Seq<u8>>::empty());
        assert_multisets_equal!(Multiset::<Seq<u8>>::empty().filter(p), Multiset::<Seq<u8>>::empty());
    } else {
        let rest = pool.drop_last();
        let w = pool.last();
        lemma_bucket_count_multiset(rest, guess, e);
        assert(rest.push(w) =~= pool);
        assert(pool.to_multiset() == rest.to_multiset().insert(w));
        lemma_filter_insert_len(rest.to_multiset(), p, w);
        lemma_bucket_push(rest, guess, w, e);
    }
}

/// Reordering the pool changes no bucket count, and therefore neither the
/// worst-case score nor the fullest bucket: two pools holding the same
/// words with the same multiplicities score every guess the same.
pub proof fn lemma_score_reorder(pool1: Seq<Seq<u8>>, pool2: Seq<Seq<u8>>, guess: Seq<u8>)
    requires
        pool1.to_multiset() == pool2.to_multiset(),
    ensures
        forall|e: int| bucket_count(pool1, guess, e) == bucket_count(pool2, guess, e),
        forall|k: int| best_bucket(pool1, guess, k) == best_bucket(pool2, guess, k),
        spec_score(pool1, guess) == spec_score(pool2, guess),
{
    assert forall|e: int| bucket_count(pool1, guess, e) == bucket_count(pool2, guess, e) by {
        lemma_bucket_count_multiset(pool1, guess, e);
        lemma_bucket_count_multiset(pool2, guess, e);
    }
    assert forall|k: int| best_bucket(pool1, guess, k) == best_bucket(pool2, guess, k) by {
        lemma_best_bucket_congruent(pool1, pool2, guess, k);
    }
}

proof fn lemma_best_bucket_congruent(
    pool1: Seq<Seq<u8>>,
    pool2: Seq<Seq<u8>>,
    guess: Seq<u8>,
    k: int,
)
    requires
        forall|e: int| bucket_count(pool1, guess, e) == bucket_count(pool2, guess, e),
    ensures
        best_bucket(pool1, guess, k) == best_bucket(pool2, guess, k),
    decreases (if k > 1 { k } else { 0 }) as int,
{
    if k > 1 {
        lemma_best_bucket_congruent(pool1, pool2, guess, k - 1);
    }
}

/// One counter per possible encoded feedback: counter `e` tells how many
/// pool words would answer `cword` with the feedback encoded as `e`.
pub fn bucket_counts(current_solutions: &Vec<String>, cword: &Vec<u8>) -> (r: Vec<usize>)
    requires
        valid_pool(current_solutions@),
        valid_word(cword@),
    ensures
        r@.len() == NUM_OUTCOMES,
        forall|e: int| 0 <= e < NUM_OUTCOMES ==> r@[e] == bucket_count(
            pool_model(current_solutions@),
            cword@,
            e,
        ),
{
    let ghost pm = pool_model(current_solutions@);
    let mut results: Vec<usize> = Vec::new();
    let mut e: usize = 0;
    while e < NUM_OUTCOMES
        invariant
            e <= NUM_OUTCOMES,
            results@.len() == e,
            forall|b: int| 0 <= b < e ==> results@[b] == 0,
        decreases NUM_OUTCOMES - e,
    {
        results.push(0);
        e += 1;
    }
    let n = current_solutions.len();
    let mut i: usize = 0;
    proof {
        assert forall|b: int| 0 <= b < NUM_OUTCOMES implies results@[b] == bucket_count(
            pm.take(0),
            cword@,
            b,
        ) by {
            assert(pm.take(0) =~= Seq::<Seq<u8>>::empty());
        }
    }
    while i < n
        invariant
            valid_pool(current_solutions@),
            valid_word(cword@),
            pm == pool_model(current_solutions@),
            n == current_solutions@.len(),
            i <= n,
            results@.len() == NUM_OUTCOMES,
            forall|b: int| 0 <= b < NUM_OUTCOMES ==> results@[b] == bucket_count(
                pm.take(i as int),
                cword@,
                b,
            ),
        decreases n - i,
    {
        let hword = &current_solutions[i];
        let nums = string_numbers(hword.as_str()).unwrap();
        proof {
            lemma_letters_of_valid(current_solutions@[i as int]@);
        }
        let hv = compare_words(cword, &nums);
        let enc = encode_hints(&hv);
        proof {
            lemma_bucket_le(pm.take(i as int), cword@, enc as int);
            assert(pm.take(i as int).len() == i);
        }
        let cur = results[enc];
        results.set(enc, cur + 1);
        proof {
            assert(pm[i as int] == nums@);
            assert(pm.take(i + 1) =~= pm.take(i as int).push(pm[i as int]));
            assert forall|b: int| 0 <= b < NUM_OUTCOMES implies results@[b] == bucket_count(
                pm.take(i + 1),
                cword@,
                b,
            ) by {
                lemma_bucket_push(pm.take(i as int), cword@, pm[i as int], b);
            }
        }
        i += 1;
    }
    proof {
        assert(pm.take(n as int) =~= pm);
    }
    results
}

/// The word paired with its worst-case score against the pool: the size of
/// the largest feedback bucket the pool could answer it with.
pub fn find_word_score(current_solutions: &Vec<String>, cword: &String) -> (r: (String, i64))
    requires
        valid_pool(current_solutions@),
        valid_word_chars(cword@),
        current_solutions@.len() <= i64::MAX,
    ensures
        r.0 == *cword,
        r.1 == spec_score(pool_model(current_solutions@), letters_of(cword@)),
{
    let ghost pm = pool_model(current_solutions@);
    let guess = string_numbers(cword.as_str()).unwrap();
    proof {
        lemma_letters_of_valid(cword@);
    }
    let counts = bucket_counts(current_solutions, &guess);
    let mut best: usize = 0;
    let mut e: usize = 1;
    while e < NUM_OUTCOMES
        invariant
            counts@.len() == NUM_OUTCOMES,
            forall|b: int| 0 <= b < NUM_OUTCOMES ==> counts@[b] == bucket_count(pm, guess@, b),
            1 <= e <= NUM_OUTCOMES,
            0 <= best < e,
            best == best_bucket(pm, guess@, e as int),
        decreases NUM_OUTCOMES - e,
    {
        if counts[e] > counts[best] {
            best = e;
        }
        e += 1;
    }
    proof {
        lemma_bucket_le(pm, guess@, best as int);
    }
    (cword.clone(), counts[best] as i64)
}

/// Every word of `words` paired with its worst-case score against the
/// pool, in the order given; callers sort ascending by score to rank.
pub fn score_words(current_solutions: &Vec<String>, words: &Vec<String>) -> (r: Vec<
    (String, i64),
>)
    requires
        valid_pool(current_solutions@),
        valid_pool(words@),
        current_solutions@.len() <= i64::MAX,
    ensures
        r@.len() == words@.len(),
        forall|i: int| 0 <= i < words@.len() ==> (#[trigger] r@[i]).0 == words@[i] && r@[i].1
            == spec_score(pool_model(current_solutions@), letters_of(words@[i]@)),
{
    let mut result: Vec<(String, i64)> = Vec::new();
    let mut i: usize = 0;
    let n = words.len();
    while i < n
        invariant
            valid_pool(current_solutions@),
            valid_pool(words@),
            current_solutions@.len() <= i64::MAX,
            n == words@.len(),
            i <= n,
            result@.len() == i,
            forall|j: int| 0 <= j < i ==> (#[trigger] result@[j]).0 == words@[j] && result@[j].1
                == spec_score(pool_model(current_solutions@), letters_of(words@[j]@)),
        decreases n - i,
    {
        let scored = find_word_score(current_solutions, &words[i]);
        result.push(scored);
        i += 1;
    }
    result
}

/// The feedback vector of the fullest bucket: the answer an adversarial
/// oracle would give to `cword`, leaving as many candidates as possible.
/// On ties, the lowest encoded feedback wins.
pub fn worst_hints(current_solutions: &Vec<String>, cword: &Vec<u8>) -> (r: Vec<Hint>)
    requires
        valid_pool(current_solutions@),
        valid_word(cword@),
    ensures
        r@.len() == WORD_LENGTH,
        spec_encode(r@) == best_bucket(
            pool_model(current_solutions@),
            cword@,
            NUM_OUTCOMES as int,
        ),
{
    let ghost pm = pool_model(current_solutions@);
    let counts = bucket_counts(current_solutions, cword);
    let mut best: usize = 0;
    let mut e: usize = 1;
    while e < NUM_OUTCOMES
        invariant
            counts@.len() == NUM_OUTCOMES,
            forall|b: int| 0 <= b < NUM_OUTCOMES ==> counts@[b] == bucket_count(pm, cword@, b),
            1 <= e <= NUM_OUTCOMES,
            0 <= best < e,
            best == best_bucket(pm, cword@, e as int),
        decreases NUM_OUTCOMES - e,
    {
        if counts[e] > counts[best] {
            best = e;
        }
        e += 1;
    }
    decode_hints(best)
}

} // verus!
