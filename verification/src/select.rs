//! Choosing among scored candidates.

use crate::order::no_nan;
use crate::scalar::Scalar;
use vstd::prelude::*;

verus! {

/// Which candidate is kept when each in turn replaces the best so far if it
/// scores less, starting from a score to beat.
pub open spec fn best_index(start: Scalar, scores: Seq<Scalar>) -> Option<int>
    decreases scores.len(),
{
    if scores.len() == 0 {
        None
    } else {
        let before = best_index(start, scores.drop_last());
        if scores.last().spec_lt(best_score(start, scores, before)) {
            Some(scores.len() - 1)
        } else {
            before
        }
    }
}

/// The score of the candidate kept, or the score to beat where none is.
pub open spec fn best_score(start: Scalar, scores: Seq<Scalar>, best: Option<int>) -> Scalar {
    match best {
        Some(i) => scores[i],
        None => start,
    }
}

/// The same, where the first candidate is kept whatever it scores.
pub open spec fn least_index(scores: Seq<Scalar>) -> int
    recommends
        scores.len() > 0,
{
    match best_index(scores[0], scores) {
        Some(i) => i,
        None => 0,
    }
}

proof fn lemma_best_in_range(start: Scalar, scores: Seq<Scalar>)
    ensures
        best_index(start, scores) matches Some(i) ==> 0 <= i < scores.len() && scores[i].spec_lt(start),
    decreases scores.len(),
{
    if scores.len() > 0 {
        lemma_best_in_range(start, scores.drop_last());
    }
}

/// Among numbers, the candidate kept is the first of those that score least,
/// and beats the start; none is kept only where none beats the start.
pub proof fn law_best_is_first_least(start: Scalar, scores: Seq<Scalar>)
    requires
        no_nan(scores),
        !start.spec_is_nan(),
    ensures
        match best_index(start, scores) {
            Some(i) => {
                &&& 0 <= i < scores.len()
                &&& scores[i].spec_lt(start)
                &&& forall|j: int| 0 <= j < scores.len() ==> scores[i].spec_le(#[trigger] scores[j])
                &&& forall|j: int| 0 <= j < i ==> scores[i].spec_lt(#[trigger] scores[j])
            },
            None => forall|j: int| 0 <= j < scores.len() ==> start.spec_le(#[trigger] scores[j]),
        },
    decreases scores.len(),
{
    if scores.len() > 0 {
        let rest = scores.drop_last();
        assert(no_nan(rest)) by {
            assert forall|j: int| 0 <= j < rest.len() implies !(#[trigger] rest[j]).spec_is_nan() by {
                assert(!scores[j].spec_is_nan());
            }
        }
        law_best_is_first_least(start, rest);
        assert(forall|j: int| 0 <= j < rest.len() ==> #[trigger] rest[j] == scores[j]);
        assert(!scores[scores.len() - 1].spec_is_nan());
        lemma_best_in_range(start, rest);
        let kept = best_index(start, rest);
        let n = scores.len() - 1;
        let best = best_score(start, scores, kept);
        assert(!best.spec_is_nan());
        assert forall|j: int| 0 <= j < n implies best.spec_le(#[trigger] scores[j]) by {
            assert(rest[j] == scores[j]);
            if let Some(i) = kept {
                assert(rest[i].spec_le(rest[j]));
            } else {
                assert(start.spec_le(rest[j]));
            }
        }
        if let Some(i) = kept {
            assert forall|j: int| 0 <= j < i implies scores[i].spec_lt(#[trigger] scores[j]) by {
                assert(rest[i].spec_lt(rest[j]));
            }
        }
        if scores.last().spec_lt(best) {
            assert(best_index(start, scores) == Some(n));
            assert forall|j: int| 0 <= j < n implies scores[n].spec_lt(#[trigger] scores[j]) by {
                assert(best.spec_le(scores[j]));
            }
        } else {
            assert(best_index(start, scores) == kept);
            assert(best.spec_le(scores[n]));
        }
    }
}

/// The candidate that is kept when each in turn replaces the best so far if it
/// scores less than it; `None` where none beats the start.
pub fn improve(start: Scalar, scores: &Vec<Scalar>) -> (best: Option<usize>)
    ensures
        match best {
            Some(i) => best_index(start, scores@) == Some(i as int) && i < scores@.len(),
            None => best_index(start, scores@) is None,
        },
{
    let mut best: Option<usize> = None;
    let mut score: Scalar = start;
    let mut i: usize = 0;
    assert(scores@.subrange(0, 0) =~= Seq::empty());
    while i < scores.len()
        invariant
            i <= scores@.len(),
            match best {
                Some(k) => best_index(start, scores@.subrange(0, i as int)) == Some(k as int) && k < i && score
                    == scores@[k as int],
                None => best_index(start, scores@.subrange(0, i as int)) is None && score == start,
            },
        decreases scores@.len() - i,
    {
        proof {
            let longer = scores@.subrange(0, i + 1);
            assert(longer.drop_last() =~= scores@.subrange(0, i as int));
            assert(longer.last() == scores@[i as int]);
        }
        if scores[i].lt(score) {
            score = scores[i];
            best = Some(i);
        }
        i += 1;
    }
    assert(scores@.subrange(0, i as int) =~= scores@);
    best
}

/// The candidate that scores least, the first of them on a tie; the first one
/// is kept unless a later one scores less.
pub fn first_least(scores: &Vec<Scalar>) -> (best: usize)
    requires
        scores@.len() > 0,
    ensures
        best == least_index(scores@),
        best < scores@.len(),
{
    match improve(scores[0], scores) {
        Some(i) => i,
        None => 0,
    }
}

/// Among numbers, the candidate chosen scores least, and every earlier one
/// scores more.
pub proof fn law_least_is_first_least(scores: Seq<Scalar>)
    requires
        no_nan(scores),
        scores.len() > 0,
    ensures
        0 <= least_index(scores) < scores.len(),
        forall|j: int| 0 <= j < scores.len() ==> scores[least_index(scores)].spec_le(#[trigger] scores[j]),
        forall|j: int| 0 <= j < least_index(scores) ==> scores[least_index(scores)].spec_lt(#[trigger] scores[j]),
{
    assert(!scores[0].spec_is_nan());
    law_best_is_first_least(scores[0], scores);
}

/// Which of the admitted candidates is kept when each in turn replaces the
/// worst so far if it scores more, starting from a score to exceed.
pub open spec fn worst_index(start: Scalar, admitted: Seq<bool>, scores: Seq<Scalar>) -> Option<int>
    decreases scores.len(),
{
    if scores.len() == 0 {
        None
    } else {
        let before = worst_index(start, admitted.drop_last(), scores.drop_last());
        if admitted.last() && best_score(start, scores, before).spec_lt(scores.last()) {
            Some(scores.len() - 1)
        } else {
            before
        }
    }
}

/// Among numbers, the candidate kept is an admitted one, scores more than the
/// start, and no admitted one scores more than it; of those that score the
/// same it is the first.
pub proof fn law_worst_is_first_greatest(start: Scalar, admitted: Seq<bool>, scores: Seq<Scalar>)
    requires
        admitted.len() == scores.len(),
        no_nan(scores),
        !start.spec_is_nan(),
    ensures
        match worst_index(start, admitted, scores) {
            Some(i) => {
                &&& 0 <= i < scores.len()
                &&& admitted[i]
                &&& start.spec_lt(scores[i])
                &&& forall|j: int| 0 <= j < scores.len() && admitted[j] ==> (#[trigger] scores[j]).spec_le(scores[i])
                &&& forall|j: int| 0 <= j < i && admitted[j] ==> (#[trigger] scores[j]).spec_lt(scores[i])
            },
            None => forall|j: int| 0 <= j < scores.len() && admitted[j] ==> (#[trigger] scores[j]).spec_le(start),
        },
    decreases scores.len(),
{
    if scores.len() > 0 {
        let (rest, some) = (scores.drop_last(), admitted.drop_last());
        assert(no_nan(rest)) by {
            assert forall|j: int| 0 <= j < rest.len() implies !(#[trigger] rest[j]).spec_is_nan() by {
                assert(!scores[j].spec_is_nan());
            }
        }
        law_worst_is_first_greatest(start, some, rest);
        let kept = worst_index(start, some, rest);
        let n = scores.len() - 1;
        let worst = best_score(start, scores, kept);
        assert(!scores[n].spec_is_nan());
        assert(!worst.spec_is_nan()) by {
            if let Some(i) = kept {
                assert(!scores[i].spec_is_nan());
            }
        }
        assert forall|j: int| 0 <= j < n && admitted[j] implies (#[trigger] scores[j]).spec_le(worst) by {
            assert(rest[j] == scores[j] && some[j] == admitted[j]);
            if let Some(i) = kept {
                assert(rest[j].spec_le(rest[i]));
            }
        }
        if let Some(i) = kept {
            assert(some[i] == admitted[i] && rest[i] == scores[i]);
            assert forall|j: int| 0 <= j < i && admitted[j] implies (#[trigger] scores[j]).spec_lt(scores[i]) by {
                assert(rest[j].spec_lt(rest[i]) && some[j] == admitted[j]);
            }
        }
        if admitted.last() && worst.spec_lt(scores.last()) {
            assert(worst_index(start, admitted, scores) == Some(n));
            assert forall|j: int| 0 <= j < n && admitted[j] implies (#[trigger] scores[j]).spec_lt(scores[n]) by {
                assert(scores[j].spec_le(worst));
            }
        } else {
            assert(worst_index(start, admitted, scores) == kept);
        }
    }
}

/// The admitted candidate that scores most, if it scores more than the start.
pub fn pick_worst(start: Scalar, admitted: &Vec<bool>, scores: &Vec<Scalar>) -> (worst: Option<usize>)
    requires
        admitted@.len() == scores@.len(),
    ensures
        match worst {
            Some(i) => worst_index(start, admitted@, scores@) == Some(i as int) && i < scores@.len() && admitted@[i as int],
            None => worst_index(start, admitted@, scores@) is None,
        },
{
    let mut worst: Option<usize> = None;
    let mut score: Scalar = start;
    let mut i: usize = 0;
    assert(scores@.subrange(0, 0) =~= Seq::empty());
    while i < scores.len()
        invariant
            admitted@.len() == scores@.len(),
            i <= scores@.len(),
            match worst {
                Some(k) => worst_index(start, admitted@.subrange(0, i as int), scores@.subrange(0, i as int)) == Some(
                    k as int,
                ) && k < i && score == scores@[k as int] && admitted@[k as int],
                None => worst_index(start, admitted@.subrange(0, i as int), scores@.subrange(0, i as int)) is None
                    && score == start,
            },
        decreases scores@.len() - i,
    {
        proof {
            let longer = scores@.subrange(0, i + 1);
            let more = admitted@.subrange(0, i + 1);
            assert(longer.drop_last() =~= scores@.subrange(0, i as int));
            assert(more.drop_last() =~= admitted@.subrange(0, i as int));
            assert(longer.last() == scores@[i as int] && more.last() == admitted@[i as int]);
        }
        if admitted[i] && scores[i].gt(score) {
            score = scores[i];
            worst = Some(i);
        }
        i += 1;
    }
    assert(scores@.subrange(0, i as int) =~= scores@);
    assert(admitted@.subrange(0, i as int) =~= admitted@);
    worst
}

} // verus!
