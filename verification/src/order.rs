//! Ranking by a number, ties by position.

use crate::scalar::Scalar;
use crate::sets::lemma_push_contains;
use vstd::prelude::*;

verus! {

/// Position `x` ranks before position `y`: by key, and by position where the
/// keys are equal.
pub open spec fn before(keys: Seq<int>, x: usize, y: usize) -> bool {
    keys[x as int] < keys[y as int] || (keys[x as int] == keys[y as int] && x < y)
}

/// `out` lists every position of `keys` once, each before those that follow.
pub open spec fn is_ranking(keys: Seq<int>, out: Seq<usize>) -> bool {
    &&& out.len() == keys.len()
    &&& forall|x: usize| x < keys.len() <==> #[trigger] out.contains(x)
    &&& forall|i: int, j: int| 0 <= i < j < out.len() ==> before(keys, #[trigger] out[i], #[trigger] out[j])
}

/// The positions of the numbers in ascending order.
pub open spec fn ascending(values: Seq<Scalar>) -> Seq<int> {
    Seq::new(values.len(), |i: int| values[i].spec_key())
}

/// The positions of the numbers in descending order.
pub open spec fn descending(values: Seq<Scalar>) -> Seq<int> {
    Seq::new(values.len(), |i: int| -values[i].spec_key())
}

pub open spec fn no_nan(values: Seq<Scalar>) -> bool {
    forall|i: int| 0 <= i < values.len() ==> !(#[trigger] values[i]).spec_is_nan()
}

/// A ranking is fixed by its keys.
pub proof fn law_ranking_is_unique(keys: Seq<int>, a: Seq<usize>, b: Seq<usize>)
    requires
        is_ranking(keys, a),
        is_ranking(keys, b),
    ensures
        a == b,
{
    assert forall|i: int| 0 <= i < a.len() implies a[i] == b[i] by {
        lemma_ranking_agrees(keys, a, b, i);
    }
    assert(a =~= b);
}

/// The ranking of the keys.
pub open spec fn ranking(keys: Seq<int>) -> Seq<usize> {
    choose|r: Seq<usize>| is_ranking(keys, r)
}

pub proof fn lemma_ranking(keys: Seq<int>, r: Seq<usize>)
    requires
        is_ranking(keys, r),
    ensures
        ranking(keys) == r,
{
    law_ranking_is_unique(keys, ranking(keys), r);
}

proof fn lemma_ranking_agrees(keys: Seq<int>, a: Seq<usize>, b: Seq<usize>, i: int)
    requires
        is_ranking(keys, a),
        is_ranking(keys, b),
        0 <= i < a.len(),
    ensures
        forall|k: int| 0 <= k <= i ==> a[k] == b[k],
    decreases i,
{
    if i > 0 {
        lemma_ranking_agrees(keys, a, b, i - 1);
    }
    assert(a.contains(a[i]) && b.contains(b[i]));
    assert(b.contains(a[i]) && a.contains(b[i]));
    let j = choose|j: int| 0 <= j < b.len() && b[j] == a[i];
    let k = choose|k: int| 0 <= k < a.len() && a[k] == b[i];
    if j < i {
        assert(a[j] == b[j]);
        assert(before(keys, a[j], a[i]));
    }
    if k < i {
        assert(a[k] == b[k]);
        assert(before(keys, b[k], b[i]));
    }
    if j > i && k > i {
        assert(before(keys, b[i], b[j]));
        assert(before(keys, a[i], a[k]));
    }
}

/// `out` lists the positions `lo..hi` once each, in rank order.
spec fn ranks_range(keys: Seq<i64>, lo: int, hi: int, out: Seq<usize>) -> bool {
    &&& out.len() == hi - lo
    &&& forall|x: usize| lo <= x < hi <==> #[trigger] out.contains(x)
    &&& forall|i: int, j: int|
        0 <= i < j < out.len() ==> before(as_ints(keys), #[trigger] out[i], #[trigger] out[j])
}

spec fn as_ints(keys: Seq<i64>) -> Seq<int> {
    Seq::new(keys.len(), |i: int| keys[i] as int)
}

fn rank_range(keys: &Vec<i64>, lo: usize, hi: usize) -> (out: Vec<usize>)
    requires
        lo <= hi <= keys@.len(),
    ensures
        ranks_range(keys@, lo as int, hi as int, out@),
    decreases hi - lo,
{
    let mut out: Vec<usize> = Vec::new();
    if hi - lo <= 1 {
        if lo < hi {
            out.push(lo);
            assert(out@[0] == lo);
        }
        return out;
    }
    let mid: usize = lo + (hi - lo) / 2;
    let left = rank_range(keys, lo, mid);
    let right = rank_range(keys, mid, hi);
    let mut i: usize = 0;
    let mut j: usize = 0;
    let ghost ks = as_ints(keys@);
    while i < left.len() || j < right.len()
        invariant
            lo <= mid <= hi <= keys@.len(),
            ks == as_ints(keys@),
            ranks_range(keys@, lo as int, mid as int, left@),
            ranks_range(keys@, mid as int, hi as int, right@),
            i <= left@.len(),
            j <= right@.len(),
            out@.len() == i + j,
            forall|x: usize| #[trigger]
                out@.contains(x) <==> left@.subrange(0, i as int).contains(x) || right@.subrange(
                    0,
                    j as int,
                ).contains(x),
            forall|k: int, l: int| 0 <= k < l < out@.len() ==> before(ks, #[trigger] out@[k], #[trigger] out@[l]),
            forall|k: int, l: int|
                0 <= k < out@.len() && i <= l < left@.len() ==> before(ks, #[trigger] out@[k], #[trigger] left@[l]),
            forall|k: int, l: int|
                0 <= k < out@.len() && j <= l < right@.len() ==> before(
                    ks,
                    #[trigger] out@[k],
                    #[trigger] right@[l],
                ),
        decreases left@.len() - i + right@.len() - j,
    {
        proof {
            assert forall|k: int| 0 <= k < left@.len() implies lo <= #[trigger] left@[k] < mid by {
                assert(left@.contains(left@[k]));
            }
            assert forall|k: int| 0 <= k < right@.len() implies mid <= #[trigger] right@[k] < hi by {
                assert(right@.contains(right@[k]));
            }
        }
        let take_left: bool = if i == left.len() {
            false
        } else if j == right.len() {
            true
        } else {
            keys[left[i]] <= keys[right[j]]
        };
        let ghost (o, li, rj) = (out@, left@.subrange(0, i as int), right@.subrange(0, j as int));
        if take_left {
            out.push(left[i]);
            proof {
                let x = left@[i as int];
                let li2 = left@.subrange(0, i + 1);
                assert(li2 =~= li.push(x));
                assert forall|y: usize| #[trigger] out@.contains(y) <==> li2.contains(y) || rj.contains(y) by {
                    lemma_push_contains(o, x, y);
                    lemma_push_contains(li, x, y);
                    assert(o.contains(y) <==> li.contains(y) || rj.contains(y));
                }
            }
            i += 1;
        } else {
            out.push(right[j]);
            proof {
                let x = right@[j as int];
                let rj2 = right@.subrange(0, j + 1);
                assert(rj2 =~= rj.push(x));
                assert forall|y: usize| #[trigger] out@.contains(y) <==> li.contains(y) || rj2.contains(y) by {
                    lemma_push_contains(o, x, y);
                    lemma_push_contains(rj, x, y);
                    assert(o.contains(y) <==> li.contains(y) || rj.contains(y));
                }
            }
            j += 1;
        }
    }
    proof {
        assert(left@.subrange(0, i as int) =~= left@);
        assert(right@.subrange(0, j as int) =~= right@);
    }
    out
}

/// The positions of `values` from the smallest number to the largest, equal
/// numbers in their given order. What is not a number stands beyond the
/// infinity of its sign.
pub fn rank_ascending(values: &Vec<Scalar>) -> (out: Vec<usize>)
    ensures
        is_ranking(ascending(values@), out@),
{
    let mut keys: Vec<i64> = Vec::new();
    let mut i: usize = 0;
    while i < values.len()
        invariant
            i <= values@.len(),
            keys@.len() == i,
            forall|k: int| 0 <= k < i ==> keys@[k] == values@[k].spec_key(),
        decreases values@.len() - i,
    {
        keys.push(values[i].key());
        i += 1;
    }
    let out = rank_range(&keys, 0, keys.len());
    assert(as_ints(keys@) =~= ascending(values@));
    out
}

/// The positions of `values` from the largest number to the smallest, equal
/// numbers in their given order.
pub fn rank_descending(values: &Vec<Scalar>) -> (out: Vec<usize>)
    ensures
        is_ranking(descending(values@), out@),
{
    let mut keys: Vec<i64> = Vec::new();
    let mut i: usize = 0;
    while i < values.len()
        invariant
            i <= values@.len(),
            keys@.len() == i,
            forall|k: int| 0 <= k < i ==> keys@[k] == -values@[k].spec_key(),
        decreases values@.len() - i,
    {
        let k: i64 = values[i].key();
        keys.push(-k);
        i += 1;
    }
    let out = rank_range(&keys, 0, keys.len());
    assert(as_ints(keys@) =~= descending(values@));
    out
}

/// `out` lists the positions that are kept, from the largest number to the
/// smallest, equal numbers in order.
pub open spec fn is_kept_descending(values: Seq<Scalar>, keep: Seq<bool>, out: Seq<usize>) -> bool {
    &&& forall|x: usize| #[trigger] out.contains(x) <==> x < values.len() && keep[x as int]
    &&& forall|k: int, l: int|
        0 <= k < l < out.len() ==> before(descending(values), #[trigger] out[k], #[trigger] out[l])
}

/// The positions that are kept, from the largest number to the smallest, equal
/// numbers in their given order.
pub fn rank_kept_descending(values: &Vec<Scalar>, keep: &Vec<bool>) -> (out: Vec<usize>)
    requires
        values@.len() == keep@.len(),
    ensures
        is_kept_descending(values@, keep@, out@),
{
    let mut kept: Vec<usize> = Vec::new();
    let mut some: Vec<Scalar> = Vec::new();
    let mut i: usize = 0;
    while i < values.len()
        invariant
            values@.len() == keep@.len(),
            i <= values@.len(),
            kept@.len() == some@.len(),
            forall|k: int| 0 <= k < kept@.len() ==> (#[trigger] kept@[k]) < i,
            forall|k: int| 0 <= k < kept@.len() ==> #[trigger] some@[k] == values@[kept@[k] as int],
            forall|k: int, l: int| 0 <= k < l < kept@.len() ==> #[trigger] kept@[k] < #[trigger] kept@[l],
            forall|x: usize| #[trigger] kept@.contains(x) <==> x < i && keep@[x as int],
        decreases values@.len() - i,
    {
        let ghost before_kept = kept@;
        if keep[i] {
            kept.push(i);
            some.push(values[i]);
        }
        proof {
            assert forall|x: usize| #[trigger] kept@.contains(x) <==> x < i + 1 && keep@[x as int] by {
                lemma_push_contains(before_kept, i, x);
                assert(before_kept.contains(x) <==> x < i && keep@[x as int]);
            }
        }
        i += 1;
    }
    let r = rank_descending(&some);
    let mut out: Vec<usize> = Vec::new();
    let mut k: usize = 0;
    while k < r.len()
        invariant
            is_ranking(descending(some@), r@),
            kept@.len() == some@.len(),
            k <= r@.len(),
            out@.len() == k,
            forall|x: int| 0 <= x < k ==> #[trigger] out@[x] == kept@[r@[x] as int],
        decreases r@.len() - k,
    {
        assert(r@.contains(r@[k as int]));
        out.push(kept[r[k]]);
        k += 1;
    }
    proof {
        assert forall|x: usize| #[trigger] out@.contains(x) <==> x < values@.len() && keep@[x as int] by {
            assert(kept@.contains(x) <==> x < values@.len() && keep@[x as int]);
            if out@.contains(x) {
                let j = choose|j: int| 0 <= j < out@.len() && out@[j] == x;
                assert(r@.contains(r@[j]));
                assert(kept@.contains(kept@[r@[j] as int]));
            }
            if kept@.contains(x) {
                let j = choose|j: int| 0 <= j < kept@.len() && kept@[j] == x;
                assert(r@.contains(j as usize));
                let m = choose|m: int| 0 <= m < r@.len() && r@[m] == j as usize;
                assert(out@[m] == x);
            }
        }
        assert forall|a: int, b: int| 0 <= a < b < out@.len() implies before(
            descending(values@),
            #[trigger] out@[a],
            #[trigger] out@[b],
        ) by {
            assert(r@.contains(r@[a]) && r@.contains(r@[b]));
            assert(before(descending(some@), r@[a], r@[b]));
            let (x, y) = (r@[a] as int, r@[b] as int);
            assert(some@[x] == values@[kept@[x] as int] && some@[y] == values@[kept@[y] as int]);
            assert(kept@[x] < values@.len() && kept@[y] < values@.len());
        }
    }
    out
}

/// A ranking puts every place once, no value before a smaller one, and places
/// of equal values as they come.
pub proof fn law_ascending_ranking_sorts(values: Seq<Scalar>, r: Seq<usize>, i: int, j: int, x: usize)
    requires
        is_ranking(ascending(values), r),
        no_nan(values),
        0 <= i < j < r.len(),
    ensures
        values[r[i] as int].spec_le(values[r[j] as int]),
        values[r[i] as int] == values[r[j] as int] ==> r[i] < r[j],
        r[i] != r[j],
        r.len() == values.len(),
        x < values.len() <==> r.contains(x),
{
    assert(r.contains(r[i]) && r.contains(r[j]));
    assert(before(ascending(values), r[i], r[j]));
}

/// A ranking from the greatest down puts every place once, no value before a
/// greater one, and places of equal values as they come.
pub proof fn law_descending_ranking_sorts(values: Seq<Scalar>, r: Seq<usize>, i: int, j: int, x: usize)
    requires
        is_ranking(descending(values), r),
        no_nan(values),
        0 <= i < j < r.len(),
    ensures
        values[r[j] as int].spec_le(values[r[i] as int]),
        values[r[i] as int] == values[r[j] as int] ==> r[i] < r[j],
        r[i] != r[j],
        r.len() == values.len(),
        x < values.len() <==> r.contains(x),
{
    assert(r.contains(r[i]) && r.contains(r[j]));
    assert(before(descending(values), r[i], r[j]));
}

/// The places that are kept come from the greatest value down, each once, those
/// of equal values as they come.
pub proof fn law_kept_are_sorted_down(values: Seq<Scalar>, keep: Seq<bool>, out: Seq<usize>, i: int, j: int)
    requires
        is_kept_descending(values, keep, out),
        no_nan(values),
        0 <= i < j < out.len(),
    ensures
        out[i] < values.len() && keep[out[i] as int],
        values[out[j] as int].spec_le(values[out[i] as int]),
        values[out[i] as int] == values[out[j] as int] ==> out[i] < out[j],
        out[i] != out[j],
{
    assert(out.contains(out[i]) && out.contains(out[j]));
    assert(before(descending(values), out[i], out[j]));
}

} // verus!
