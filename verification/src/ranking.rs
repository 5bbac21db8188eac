//! Ordering scored words into a ranking: ascending by score, stable for
//! equal scores, so that earlier words keep their lead on ties.

use vstd::prelude::*;
use vstd::seq_lib::group_seq_lib_default;

verus! {

broadcast use group_seq_lib_default;

/// Scores never decrease along the sequence.
pub open spec fn sorted_by_score(s: Seq<(String, i64)>) -> bool {
    forall|t1: int, t2: int| 0 <= t1 < t2 < s.len() ==> (#[trigger] s[t1]).1 <= (#[trigger] s[t2]).1
}

/// The entries with score `v`, in their order of appearance.
pub open spec fn score_class(s: Seq<(String, i64)>, v: i64) -> Seq<(String, i64)> {
    s.filter(|p: (String, i64)| p.1 == v)
}

proof fn lemma_filter_none(s: Seq<(String, i64)>, pred: spec_fn((String, i64)) -> bool)
    requires
        forall|t: int| 0 <= t < s.len() ==> !pred(#[trigger] s[t]),
    ensures
        s.filter(pred) == Seq::<(String, i64)>::empty(),
    decreases s.len(),
{
    reveal(Seq::filter);
    if s.len() > 0 {
        lemma_filter_none(s.drop_last(), pred);
    }
}

proof fn lemma_filter_single(x: (String, i64), pred: spec_fn((String, i64)) -> bool)
    ensures
        pred(x) ==> seq![x].filter(pred) == seq![x],
        !pred(x) ==> seq![x].filter(pred) == Seq::<(String, i64)>::empty(),
{
    reveal(Seq::filter);
    assert(seq![x].drop_last() =~= Seq::<(String, i64)>::empty());
    assert(seq![x].last() == x);
    assert(Seq::<(String, i64)>::empty().filter(pred) =~= Seq::<(String, i64)>::empty());
    if pred(x) {
        assert(Seq::<(String, i64)>::empty().push(x) =~= seq![x]);
    }
}

/// Moving entry `i` back to position `k`, in front of the first strictly
/// greater score of the sorted prefix, keeps every score class as it was
/// and extends the sorted prefix by one.
proof fn lemma_insert_step(v: Seq<(String, i64)>, i: int, k: int)
    requires
        0 <= k < i < v.len(),
        sorted_by_score(v.take(i)),
        forall|t: int| 0 <= t < k ==> (#[trigger] v[t]).1 <= v[i].1,
        v[k].1 > v[i].1,
    ensures
        v.remove(i).insert(k, v[i]).len() == v.len(),
        sorted_by_score(v.remove(i).insert(k, v[i]).take(i + 1)),
        forall|s: i64| score_class(v.remove(i).insert(k, v[i]), s) == score_class(v, s),
        forall|t: int| i < t < v.len() ==> v.remove(i).insert(k, v[i])[t] == v[t],
{
    let x = v[i];
    let v2 = v.remove(i).insert(k, x);
    let a1 = v.subrange(0, k);
    let a2 = v.subrange(k, i);
    let b = v.subrange(i + 1, v.len() as int);

    assert(v =~= ((a1 + a2) + seq![x]) + b);
    assert(v.remove(i) =~= (a1 + a2) + b);
    assert(v2 =~= (a1 + seq![x]) + (a2 + b));
    assert(v2.len() == v.len());

    // How v2 indexes back into v.
    assert(forall|t: int| 0 <= t < k ==> v2[t] == v[t]);
    assert(v2[k] == x);
    assert(forall|t: int| k < t <= i ==> v2[t] == v[t - 1]);
    assert(forall|t: int| i < t < v.len() ==> v2[t] == v[t]);

    // The prefix up to and including the moved entry is sorted: entries
    // before position k score at most x, entries from k on score more.
    assert forall|t1: int, t2: int| 0 <= t1 < t2 < i + 1 implies (#[trigger] v2[t1]).1
        <= (#[trigger] v2[t2]).1 by {
        assert(forall|t: int| k <= t < i ==> (#[trigger] v.take(i)[t]).1 >= v.take(i)[k].1);
    }

    // Every score class is untouched by the move.
    assert forall|s: i64| score_class(v2, s) == score_class(v, s) by {
        let pred = |p: (String, i64)| p.1 == s;
        assert forall|t: int| 0 <= t < a2.len() implies (#[trigger] a2[t]).1 >= v[k].1 by {
            assert(a2[t] == v.take(i)[k + t]);
            assert(v.take(i)[k] == v[k]);
            if t > 0 {
                assert(v.take(i)[k].1 <= v.take(i)[k + t].1);
            }
        }
        lemma_filter_single(x, pred);
        assert(v.filter(pred) == ((a1 + a2) + seq![x]).filter(pred) + b.filter(pred));
        assert(((a1 + a2) + seq![x]).filter(pred) == (a1 + a2).filter(pred) + seq![x].filter(
            pred,
        ));
        assert((a1 + a2).filter(pred) == a1.filter(pred) + a2.filter(pred));
        assert(v2.filter(pred) == (a1 + seq![x]).filter(pred) + (a2 + b).filter(pred));
        assert((a1 + seq![x]).filter(pred) == a1.filter(pred) + seq![x].filter(pred));
        assert((a2 + b).filter(pred) == a2.filter(pred) + b.filter(pred));
        if s == x.1 {
            lemma_filter_none(a2, pred);
            assert(v2.filter(pred) =~= v.filter(pred));
        } else {
            assert(v2.filter(pred) =~= v.filter(pred));
        }
    }
}

/// The scored words in ascending score order; entries with equal scores
/// keep the order they arrived in, so the ranking is stable.
pub fn sort_by_score(scored: Vec<(String, i64)>) -> (r: Vec<(String, i64)>)
    ensures
        sorted_by_score(r@),
        forall|v: i64| score_class(r@, v) == score_class(scored@, v),
{
    let ghost orig = scored@;
    let mut result = scored;
    let n = result.len();
    if n <= 1 {
        proof {
            if n == 1 {
                assert(sorted_by_score(result@));
            }
        }
        return result;
    }
    let mut i: usize = 1;
    while i < n
        invariant
            result@.len() == n,
            orig.len() == n,
            1 <= i <= n,
            sorted_by_score(result@.take(i as int)),
            forall|v: i64| score_class(result@, v) == score_class(orig, v),
        decreases n - i,
    {
        let x_score = result[i].1;
        let mut k: usize = 0;
        while k < i && result[k].1 <= x_score
            invariant
                result@.len() == n,
                i < n,
                k <= i,
                x_score == result@[i as int].1,
                forall|t: int| 0 <= t < k ==> (#[trigger] result@[t]).1 <= x_score,
            decreases i - k,
        {
            k += 1;
        }
        if k < i {
            let ghost before = result@;
            proof {
                lemma_insert_step(before, i as int, k as int);
            }
            let x = result.remove(i);
            result.insert(k, x);
            proof {
                assert(result@ == before.remove(i as int).insert(k as int, before[i as int]));
            }
        } else {
            proof {
                assert(sorted_by_score(result@.take(i + 1))) by {
                    assert(forall|t: int| 0 <= t < i ==> (#[trigger] result@.take(i + 1)[t]).1
                        <= x_score);
                }
            }
        }
        i += 1;
    }
    proof {
        assert(result@.take(n as int) =~= result@);
    }
    result
}

} // verus!
