//! Ways to split a primitive in two.

use crate::order::{ascending, before, is_ranking, rank_ascending};
use crate::regroup::divides;
use crate::scalar::Scalar;
use crate::sets::{is_set, lemma_push_contains, lemma_set_unique, sort_unique};
use vstd::prelude::*;

verus! {

/// The faces in the order of their keys: smallest key first, equal keys in
/// the order given.
pub open spec fn is_ranked(faces: Seq<u32>, keys: Seq<Scalar>, out: Seq<u32>) -> bool {
    exists|r: Seq<usize>| #[trigger]
        is_ranking(ascending(keys), r) && out == Seq::new(faces.len(), |i: int| faces[r[i] as int])
}

/// Lists the faces in the order of their keys.
pub fn rank_faces(faces: &Vec<u32>, keys: &Vec<Scalar>) -> (out: Vec<u32>)
    requires
        keys@.len() == faces@.len(),
    ensures
        is_ranked(faces@, keys@, out@),
        out@.len() == faces@.len(),
        forall|f: u32| #[trigger] out@.contains(f) <==> faces@.contains(f),
        faces@.no_duplicates() ==> out@.no_duplicates(),
{
    let r = rank_ascending(keys);
    let mut out: Vec<u32> = Vec::new();
    let mut i: usize = 0;
    while i < r.len()
        invariant
            keys@.len() == faces@.len(),
            is_ranking(ascending(keys@), r@),
            i <= r@.len(),
            out@.len() == i,
            forall|k: int| 0 <= k < i ==> #[trigger] out@[k] == faces@[r@[k] as int],
        decreases r@.len() - i,
    {
        assert(r@.contains(r@[i as int]));
        out.push(faces[r[i]]);
        i += 1;
    }
    proof {
        let want = Seq::new(faces@.len(), |i: int| faces@[r@[i] as int]);
        assert(out@ =~= want);
        assert(is_ranking(ascending(keys@), r@));
        assert forall|f: u32| #[trigger] out@.contains(f) <==> faces@.contains(f) by {
            if out@.contains(f) {
                let k = choose|k: int| 0 <= k < out@.len() && out@[k] == f;
                assert(r@.contains(r@[k]));
                assert(faces@[r@[k] as int] == f);
            }
            if faces@.contains(f) {
                let x = choose|x: int| 0 <= x < faces@.len() && faces@[x] == f;
                assert(r@.contains(x as usize));
                let k = choose|k: int| 0 <= k < r@.len() && r@[k] == x as usize;
                assert(out@[k] == f);
            }
        }
        if faces@.no_duplicates() {
            assert forall|k: int, l: int| 0 <= k < out@.len() && 0 <= l < out@.len() && k != l implies out@[k]
                != out@[l] by {
                assert(r@.contains(r@[k]) && r@.contains(r@[l]));
                if k < l {
                    assert(before(ascending(keys@), r@[k], r@[l]));
                } else {
                    assert(before(ascending(keys@), r@[l], r@[k]));
                }
                assert(out@[k] == faces@[r@[k] as int] && out@[l] == faces@[r@[l] as int]);
            }
        }
    }
    out
}

/// `cut`, moved so that at least `margin` are left on either side of `n`.
pub open spec fn clamped(cut: int, margin: int, n: int) -> int {
    if cut < margin {
        margin
    } else if cut > n - margin {
        n - margin
    } else {
        cut
    }
}

/// Cuts a ranked list in two at `cut`, leaving at least `margin` on either
/// side.
pub fn cut_list(ranked: &Vec<u32>, cut: usize, margin: usize) -> (parts: (Vec<u32>, Vec<u32>))
    requires
        0 < margin,
        2 * margin <= ranked@.len(),
    ensures
        ({
            let n = ranked@.len() as int;
            let c = clamped(cut as int, margin as int, n);
            &&& parts.0@ == ranked@.subrange(0, c)
            &&& parts.1@ == ranked@.subrange(c, n)
        }),
        ranked@.no_duplicates() ==> divides(ranked@, parts.0@, parts.1@),
{
    let n: usize = ranked.len();
    let c: usize = if cut < margin {
        margin
    } else if cut > n - margin {
        n - margin
    } else {
        cut
    };
    let mut a: Vec<u32> = Vec::new();
    let mut b: Vec<u32> = Vec::new();
    let mut i: usize = 0;
    while i < n
        invariant
            n == ranked@.len(),
            c <= n,
            i <= n,
            a@ == ranked@.subrange(0, if i < c { i as int } else { c as int }),
            b@ == (if i < c {
                Seq::empty()
            } else {
                ranked@.subrange(c as int, i as int)
            }),
        decreases n - i,
    {
        if i < c {
            a.push(ranked[i]);
            assert(ranked@.subrange(0, i + 1) =~= ranked@.subrange(0, i as int).push(ranked@[i as int]));
            assert(i + 1 == c ==> ranked@.subrange(c as int, i + 1) =~= Seq::empty());
        } else {
            b.push(ranked[i]);
            assert(ranked@.subrange(c as int, i + 1) =~= ranked@.subrange(c as int, i as int).push(ranked@[i as int]));
        }
        i += 1;
    }
    proof {
        if ranked@.no_duplicates() {
            let (s, t) = (a@, b@);
            assert forall|f: u32| #[trigger] ranked@.contains(f) <==> s.contains(f) || t.contains(f) by {
                if ranked@.contains(f) {
                    let k = choose|k: int| 0 <= k < n && ranked@[k] == f;
                    if k < c {
                        assert(s[k] == f);
                    } else {
                        assert(t[k - c] == f);
                    }
                }
                if s.contains(f) {
                    let k = choose|k: int| 0 <= k < s.len() && s[k] == f;
                    assert(ranked@[k] == f);
                }
                if t.contains(f) {
                    let k = choose|k: int| 0 <= k < t.len() && t[k] == f;
                    assert(ranked@[k + c] == f);
                }
            }
            assert forall|f: u32| !(#[trigger] s.contains(f) && t.contains(f)) by {
                if s.contains(f) && t.contains(f) {
                    let k = choose|k: int| 0 <= k < s.len() && s[k] == f;
                    let l = choose|l: int| 0 <= l < t.len() && t[l] == f;
                    assert(ranked@[k] == ranked@[l + c]);
                }
            }
        }
    }
    (a, b)
}

/// The faces whose flag is `want`, in order.
pub open spec fn flagged(faces: Seq<u32>, flags: Seq<bool>, want: bool) -> Seq<u32>
    decreases faces.len(),
{
    if faces.len() == 0 {
        faces
    } else {
        let rest = flagged(faces.drop_last(), flags.drop_last(), want);
        if flags.last() == want {
            rest.push(faces.last())
        } else {
            rest
        }
    }
}

proof fn lemma_flagged(faces: Seq<u32>, flags: Seq<bool>, want: bool, f: u32)
    requires
        faces.len() == flags.len(),
        faces.no_duplicates(),
    ensures
        flagged(faces, flags, want).no_duplicates(),
        flagged(faces, flags, want).contains(f) <==> exists|i: int|
            0 <= i < faces.len() && #[trigger] faces[i] == f && flags[i] == want,
    decreases faces.len(),
{
    if faces.len() > 0 {
        let (f0, g0) = (faces.drop_last(), flags.drop_last());
        assert(f0.no_duplicates());
        lemma_flagged(f0, g0, want, f);
        let rest = flagged(f0, g0, want);
        lemma_push_contains(rest, faces.last(), f);
        let n = faces.len() - 1;
        lemma_flagged(f0, g0, want, faces.last());
        assert(!rest.contains(faces.last())) by {
            if rest.contains(faces.last()) {
                let i = choose|i: int| 0 <= i < f0.len() && #[trigger] f0[i] == faces.last() && g0[i] == want;
                assert(faces[i] == faces[n]);
            }
        }
        if flagged(faces, flags, want).contains(f) {
            if rest.contains(f) {
                let i = choose|i: int| 0 <= i < f0.len() && #[trigger] f0[i] == f && g0[i] == want;
                assert(faces[i] == f && flags[i] == want);
            } else {
                assert(faces[n] == f && flags[n] == want);
            }
        }
        if exists|i: int| 0 <= i < faces.len() && #[trigger] faces[i] == f && flags[i] == want {
            let i = choose|i: int| 0 <= i < faces.len() && #[trigger] faces[i] == f && flags[i] == want;
            if i < n {
                assert(f0[i] == f && g0[i] == want);
            }
        }
    }
}

/// Faces that are flagged one way and the other share out the list.
pub proof fn law_flags_divide(faces: Seq<u32>, flags: Seq<bool>)
    requires
        faces.len() == flags.len(),
        faces.no_duplicates(),
        flagged(faces, flags, true).len() > 0,
        flagged(faces, flags, false).len() > 0,
    ensures
        divides(faces, flagged(faces, flags, true), flagged(faces, flags, false)),
{
    let (a, b) = (flagged(faces, flags, true), flagged(faces, flags, false));
    assert(a.no_duplicates() && b.no_duplicates()) by {
        lemma_flagged(faces, flags, true, 0);
        lemma_flagged(faces, flags, false, 0);
    }
    assert forall|f: u32| #[trigger] faces.contains(f) <==> a.contains(f) || b.contains(f) by {
        lemma_flagged(faces, flags, true, f);
        lemma_flagged(faces, flags, false, f);
        if faces.contains(f) {
            let i = choose|i: int| 0 <= i < faces.len() && faces[i] == f;
            assert(faces[i] == f && (flags[i] == true || flags[i] == false));
        }
    }
    assert forall|f: u32| !(#[trigger] a.contains(f) && b.contains(f)) by {
        lemma_flagged(faces, flags, true, f);
        lemma_flagged(faces, flags, false, f);
    }
}

/// Parts the faces by their flags: the flagged ones first.
pub fn split_by_flags(faces: &Vec<u32>, flags: &Vec<bool>) -> (parts: (Vec<u32>, Vec<u32>))
    requires
        faces@.len() == flags@.len(),
    ensures
        parts.0@ == flagged(faces@, flags@, true),
        parts.1@ == flagged(faces@, flags@, false),
{
    let mut a: Vec<u32> = Vec::new();
    let mut b: Vec<u32> = Vec::new();
    let mut i: usize = 0;
    while i < faces.len()
        invariant
            faces@.len() == flags@.len(),
            i <= faces@.len(),
            a@ == flagged(faces@.subrange(0, i as int), flags@.subrange(0, i as int), true),
            b@ == flagged(faces@.subrange(0, i as int), flags@.subrange(0, i as int), false),
        decreases faces@.len() - i,
    {
        proof {
            assert(faces@.subrange(0, i + 1).drop_last() =~= faces@.subrange(0, i as int));
            assert(flags@.subrange(0, i + 1).drop_last() =~= flags@.subrange(0, i as int));
        }
        if flags[i] {
            a.push(faces[i]);
        } else {
            b.push(faces[i]);
        }
        i += 1;
    }
    assert(faces@.subrange(0, i as int) =~= faces@);
    assert(flags@.subrange(0, i as int) =~= flags@);
    (a, b)
}

/// Which keys are not above the threshold.
pub open spec fn at_most(keys: Seq<Scalar>, threshold: Scalar) -> Seq<bool> {
    Seq::new(keys.len(), |i: int| keys[i].spec_le(threshold))
}

/// Parts the faces at a threshold: first those whose key is at most the
/// threshold.
pub fn split_at_threshold(faces: &Vec<u32>, keys: &Vec<Scalar>, threshold: Scalar) -> (parts: (Vec<u32>, Vec<u32>))
    requires
        faces@.len() == keys@.len(),
    ensures
        parts.0@ == flagged(faces@, at_most(keys@, threshold), true),
        parts.1@ == flagged(faces@, at_most(keys@, threshold), false),
{
    let mut flags: Vec<bool> = Vec::new();
    let mut i: usize = 0;
    while i < keys.len()
        invariant
            i <= keys@.len(),
            flags@ == at_most(keys@, threshold).subrange(0, i as int),
        decreases keys@.len() - i,
    {
        flags.push(keys[i].le(threshold));
        assert(at_most(keys@, threshold).subrange(0, i + 1) =~= at_most(keys@, threshold).subrange(0, i as int).push(
            keys@[i as int].spec_le(threshold),
        ));
        i += 1;
    }
    assert(at_most(keys@, threshold).subrange(0, i as int) =~= at_most(keys@, threshold));
    split_by_flags(faces, &flags)
}

/// Which of two centers each sample is nearer to: the first one on a tie.
pub open spec fn nearer_first(da: Seq<Scalar>, db: Seq<Scalar>) -> Seq<bool> {
    Seq::new(da.len(), |i: int| da[i].spec_le(db[i]))
}

/// Assigns each sample to the nearer of two centers; `None` where one of them
/// gets nothing.
pub fn assign_nearer(da: &Vec<Scalar>, db: &Vec<Scalar>) -> (flags: Option<Vec<bool>>)
    requires
        da@.len() == db@.len(),
    ensures
        match flags {
            Some(f) => f@ == nearer_first(da@, db@) && f@.contains(true) && f@.contains(false),
            None => !nearer_first(da@, db@).contains(true) || !nearer_first(da@, db@).contains(false),
        },
{
    let mut flags: Vec<bool> = Vec::new();
    let mut count_a: usize = 0;
    let mut i: usize = 0;
    while i < da.len()
        invariant
            da@.len() == db@.len(),
            i <= da@.len(),
            count_a <= i,
            flags@ == nearer_first(da@, db@).subrange(0, i as int),
            count_a > 0 <==> flags@.contains(true),
            count_a < i <==> flags@.contains(false),
        decreases da@.len() - i,
    {
        let near: bool = da[i].le(db[i]);
        let ghost before = flags@;
        flags.push(near);
        proof {
            assert(nearer_first(da@, db@).subrange(0, i + 1) =~= before.push(near));
            lemma_push_contains(before, near, true);
            lemma_push_contains(before, near, false);
        }
        if near {
            count_a += 1;
        }
        i += 1;
    }
    assert(nearer_first(da@, db@).subrange(0, i as int) =~= nearer_first(da@, db@));
    if count_a == 0 || count_a == da.len() {
        return None;
    }
    Some(flags)
}

/// A way to split a primitive, and where it came from.
pub struct SplitCandidate {
    pub source: String,
    pub faces_a: Vec<u32>,
    pub faces_b: Vec<u32>,
}

/// Dictionary order on lists.
pub open spec fn lex_le(a: Seq<u32>, b: Seq<u32>) -> bool
    decreases a.len(),
{
    if a.len() == 0 {
        true
    } else if b.len() == 0 {
        false
    } else {
        a[0] < b[0] || (a[0] == b[0] && lex_le(a.drop_first(), b.drop_first()))
    }
}

/// The side of a split that comes first in dictionary order; it names the
/// split, whichever way round it is given.
pub open spec fn split_key(a: Seq<u32>, b: Seq<u32>) -> Seq<u32> {
    if lex_le(a, b) {
        a
    } else {
        b
    }
}

pub open spec fn candidate_key(c: SplitCandidate) -> Seq<u32> {
    split_key(c.faces_a@, c.faces_b@)
}

/// One of the candidates is the split with this key.
pub open spec fn has_key(out: Seq<SplitCandidate>, key: Seq<u32>) -> bool {
    exists|i: int| 0 <= i < out.len() && candidate_key(#[trigger] out[i]) == key
}

/// No split is listed twice, and the sides of each are sorted.
pub open spec fn distinct_splits(out: Seq<SplitCandidate>) -> bool {
    &&& forall|i: int, j: int|
        0 <= i < j < out.len() ==> candidate_key(#[trigger] out[i]) != candidate_key(#[trigger] out[j])
    &&& forall|i: int| 0 <= i < out.len() ==> is_set((#[trigger] out[i]).faces_a@) && is_set(out[i].faces_b@)
}

/// Two splits of the same faces with one key are the same split, perhaps the
/// other way round.
pub proof fn law_key_names_split(s: Seq<u32>, a: Seq<u32>, b: Seq<u32>, c: Seq<u32>, d: Seq<u32>)
    requires
        divides(s, a, b),
        divides(s, c, d),
        is_set(a),
        is_set(b),
        is_set(c),
        is_set(d),
    ensures
        split_key(a, b) == split_key(c, d) <==> (a == c && b == d) || (a == d && b == c),
{
    lemma_other_side(s, a, b, c, d);
    lemma_other_side(s, b, a, c, d);
    lemma_other_side(s, a, b, d, c);
    lemma_other_side(s, b, a, d, c);
    assert(a[0] != b[0]) by {
        assert(a.contains(a[0]) && b.contains(b[0]));
    }
    assert(c[0] != d[0]) by {
        assert(c.contains(c[0]) && d.contains(d[0]));
    }
}

/// One side of a split fixes the other.
proof fn lemma_other_side(s: Seq<u32>, a: Seq<u32>, b: Seq<u32>, c: Seq<u32>, d: Seq<u32>)
    requires
        forall|f: u32| #[trigger] s.contains(f) <==> a.contains(f) || b.contains(f),
        forall|f: u32| !(#[trigger] a.contains(f) && b.contains(f)),
        forall|f: u32| #[trigger] s.contains(f) <==> c.contains(f) || d.contains(f),
        forall|f: u32| !(#[trigger] c.contains(f) && d.contains(f)),
        is_set(b),
        is_set(d),
    ensures
        a == c ==> b == d,
{
    if a == c {
        assert forall|x: u32| #[trigger] b.contains(x) <==> d.contains(x) by {
            assert(s.contains(x) <==> a.contains(x) || b.contains(x));
            assert(!(a.contains(x) && b.contains(x)));
            assert(!(c.contains(x) && d.contains(x)));
        }
        lemma_set_unique(b, d);
    }
}

fn lists_le(a: &Vec<u32>, b: &Vec<u32>) -> (r: bool)
    ensures
        r == lex_le(a@, b@),
{
    let mut i: usize = 0;
    assert(a@.subrange(0, a@.len() as int) =~= a@ && b@.subrange(0, b@.len() as int) =~= b@);
    while i < a.len() && i < b.len()
        invariant
            i <= a@.len(),
            i <= b@.len(),
            lex_le(a@, b@) == lex_le(a@.subrange(i as int, a@.len() as int), b@.subrange(i as int, b@.len() as int)),
        decreases a@.len() - i,
    {
        proof {
            let (x, y) = (a@.subrange(i as int, a@.len() as int), b@.subrange(i as int, b@.len() as int));
            assert(x.drop_first() =~= a@.subrange(i + 1, a@.len() as int));
            assert(y.drop_first() =~= b@.subrange(i + 1, b@.len() as int));
            assert(x[0] == a@[i as int] && y[0] == b@[i as int]);
        }
        if a[i] < b[i] {
            return true;
        }
        if a[i] > b[i] {
            return false;
        }
        i += 1;
    }
    i == a.len()
}

fn lists_equal(a: &Vec<u32>, b: &Vec<u32>) -> (r: bool)
    ensures
        r == (a@ == b@),
{
    if a.len() != b.len() {
        return false;
    }
    let mut i: usize = 0;
    while i < a.len()
        invariant
            a@.len() == b@.len(),
            i <= a@.len(),
            forall|k: int| 0 <= k < i ==> a@[k] == b@[k],
        decreases a@.len() - i,
    {
        if a[i] != b[i] {
            return false;
        }
        i += 1;
    }
    assert(a@ =~= b@);
    true
}

/// `out` lists the members of `s`, sorted.
pub open spec fn is_sorted_copy(s: Seq<u32>, out: Seq<u32>) -> bool {
    is_set(out) && forall|x: u32| #[trigger] out.contains(x) <==> s.contains(x)
}

/// The members of a list, sorted.
pub open spec fn sorted(s: Seq<u32>) -> Seq<u32> {
    choose|out: Seq<u32>| is_sorted_copy(s, out)
}

pub proof fn lemma_sorted(s: Seq<u32>, out: Seq<u32>)
    requires
        is_sorted_copy(s, out),
    ensures
        sorted(s) == out,
{
    let t = sorted(s);
    assert forall|x: u32| #[trigger] t.contains(x) <==> out.contains(x) by {
        assert(out.contains(x) <==> s.contains(x));
    }
    lemma_set_unique(t, out);
}

/// Adds a way to split, unless a side is empty or the split is there already.
/// The sides are sorted.
pub fn push_split_candidate(out: &mut Vec<SplitCandidate>, source: String, a: &Vec<u32>, b: &Vec<u32>)
    requires
        distinct_splits(old(out)@),
        a@.no_duplicates(),
        b@.no_duplicates(),
    ensures
        distinct_splits(final(out)@),
        a@.len() == 0 || b@.len() == 0 ==> final(out)@ == old(out)@,
        a@.len() > 0 && b@.len() > 0 ==> (if has_key(old(out)@, split_key(sorted(a@), sorted(b@))) {
            final(out)@ == old(out)@
        } else {
            &&& final(out)@.len() == old(out)@.len() + 1
            &&& final(out)@.drop_last() == old(out)@
            &&& final(out)@.last().source == source
            &&& final(out)@.last().faces_a@ == sorted(a@)
            &&& final(out)@.last().faces_b@ == sorted(b@)
        }),
{
    if a.len() == 0 || b.len() == 0 {
        return;
    }
    let faces_a = sort_unique(a);
    let faces_b = sort_unique(b);
    proof {
        lemma_sorted(a@, faces_a@);
        lemma_sorted(b@, faces_b@);
    }
    let a_first: bool = lists_le(&faces_a, &faces_b);
    let ghost key = split_key(faces_a@, faces_b@);
    let mut i: usize = 0;
    while i < out.len()
        invariant
            out@ == old(out)@,
            distinct_splits(out@),
            a@.len() > 0,
            b@.len() > 0,
            faces_a@ == sorted(a@),
            faces_b@ == sorted(b@),
            i <= out@.len(),
            key == split_key(faces_a@, faces_b@),
            a_first == lex_le(faces_a@, faces_b@),
            forall|k: int| 0 <= k < i ==> candidate_key(#[trigger] out@[k]) != key,
        decreases out@.len() - i,
    {
        let c: &SplitCandidate = &out[i];
        let c_first: bool = lists_le(&c.faces_a, &c.faces_b);
        let theirs: &Vec<u32> = if c_first {
            &c.faces_a
        } else {
            &c.faces_b
        };
        let ours: &Vec<u32> = if a_first {
            &faces_a
        } else {
            &faces_b
        };
        if lists_equal(theirs, ours) {
            assert(candidate_key(out@[i as int]) == key);
            return;
        }
        i += 1;
    }
    let ghost before = out@;
    out.push(SplitCandidate { source, faces_a, faces_b });
    assert(out@.drop_last() =~= before);
}

/// A split that has been measured.
#[derive(Clone, Copy, Debug, PartialEq, Eq, Structural)]
pub struct ScoredSplit {
    /// The error score of the worse half.
    pub score: Scalar,
    /// The score with the margin by which a split has to improve.
    pub with_margin: Scalar,
    /// The score times the factor by which a slab repair has to improve.
    pub scaled: Scalar,
    /// The halves together are too large for a slab repair.
    pub oversized: bool,
    /// A half has fewer faces than a slab repair allows.
    pub tiny: bool,
}

/// A primitive is split only where it is fitted to so many points.
pub const MIN_SPLIT_POINTS: usize = 4;

/// Whether a primitive that is fitted to so many points can be split.
pub fn can_split(points: usize) -> (b: bool)
    ensures
        b == (points >= 4),
{
    points >= MIN_SPLIT_POINTS
}

/// One of the halves is a single face, or nothing.
pub open spec fn has_tiny_half(a: Seq<u32>, b: Seq<u32>) -> bool {
    a.len() < 2 || b.len() < 2
}

/// Whether a half has fewer faces than a slab repair allows.
pub fn is_tiny(c: &SplitCandidate) -> (b: bool)
    ensures
        b == has_tiny_half(c.faces_a@, c.faces_b@),
{
    c.faces_a.len() < 2 || c.faces_b.len() < 2
}

/// Whether both halves stray less than the primitive does.
pub fn would_improve(a: Scalar, b: Scalar, original: Scalar) -> (better: bool)
    ensures
        better == a.spec_max(b).spec_lt(original),
{
    a.max(b).lt(original)
}

/// How splits are judged.
#[derive(Clone, Copy, Debug, PartialEq, Eq, Structural)]
pub enum SplitPassMode {
    General,
    /// Slabs are repaired: no half may be tiny or oversized, and the gain has
    /// to be substantial.
    SlabCornerRepair,
}

/// The split may take the place of a primitive with this score.
pub open spec fn may_replace(c: ScoredSplit, score: Scalar, mode: SplitPassMode) -> bool {
    &&& c.with_margin.spec_lt(score)
    &&& mode == SplitPassMode::SlabCornerRepair ==> !c.tiny && !c.oversized
}

/// The split is better than the best so far.
pub open spec fn takes_over(c: ScoredSplit, best: ScoredSplit, mode: SplitPassMode) -> bool {
    &&& c.with_margin.spec_lt(best.score)
    &&& mode == SplitPassMode::SlabCornerRepair ==> !c.tiny && !c.oversized && !best.scaled.spec_lt(c.score)
}

/// Which of the splits is kept when each in turn may take over; `start` is the
/// primitive as it is.
pub open spec fn split_kept(start: ScoredSplit, splits: Seq<ScoredSplit>, mode: SplitPassMode) -> Option<int>
    decreases splits.len(),
{
    if splits.len() == 0 {
        None
    } else {
        let kept = split_kept(start, splits.drop_last(), mode);
        if takes_over(splits.last(), kept_or(start, splits, kept), mode) {
            Some(splits.len() - 1)
        } else {
            kept
        }
    }
}

pub open spec fn kept_or(start: ScoredSplit, splits: Seq<ScoredSplit>, kept: Option<int>) -> ScoredSplit {
    match kept {
        Some(i) => splits[i],
        None => start,
    }
}

/// The split to make, if any. The second result says of each split whether it
/// scored less than the best before it.
pub fn choose_split(start: ScoredSplit, splits: &Vec<ScoredSplit>, mode: SplitPassMode) -> (res: (
    Option<usize>,
    Vec<bool>,
))
    ensures
        match res.0 {
            Some(i) => split_kept(start, splits@, mode) == Some(i as int) && i < splits@.len(),
            None => split_kept(start, splits@, mode) is None,
        },
        res.1@.len() == splits@.len(),
        forall|i: int|
            0 <= i < splits@.len() ==> #[trigger] res.1@[i] == splits@[i].score.spec_lt(
                kept_or(start, splits@, split_kept(start, splits@.subrange(0, i), mode)).score,
            ),
{
    let mut kept: Option<usize> = None;
    let mut best: ScoredSplit = start;
    let mut improves: Vec<bool> = Vec::new();
    let mut i: usize = 0;
    assert(splits@.subrange(0, 0) =~= Seq::empty());
    while i < splits.len()
        invariant
            i <= splits@.len(),
            match kept {
                Some(k) => split_kept(start, splits@.subrange(0, i as int), mode) == Some(k as int) && k < i && best
                    == splits@[k as int],
                None => split_kept(start, splits@.subrange(0, i as int), mode) is None && best == start,
            },
            improves@.len() == i,
            forall|j: int|
                0 <= j < i ==> #[trigger] improves@[j] == splits@[j].score.spec_lt(
                    kept_or(start, splits@, split_kept(start, splits@.subrange(0, j), mode)).score,
                ),
        decreases splits@.len() - i,
    {
        proof {
            let longer = splits@.subrange(0, i + 1);
            assert(longer.drop_last() =~= splits@.subrange(0, i as int));
            assert(longer.last() == splits@[i as int]);
        }
        let c: ScoredSplit = splits[i];
        improves.push(c.score.lt(best.score));
        if c.with_margin.lt(best.score) {
            let allowed: bool = match mode {
                SplitPassMode::General => true,
                SplitPassMode::SlabCornerRepair => !c.tiny && !c.oversized && !c.score.gt(best.scaled),
            };
            if allowed {
                best = c;
                kept = Some(i);
            }
        }
        i += 1;
    }
    assert(splits@.subrange(0, i as int) =~= splits@);
    (kept, improves)
}

/// What is split improves on what was there, by the margin; a slab repair
/// makes no tiny and no oversized halves.
pub proof fn law_kept_split_improves(start: ScoredSplit, splits: Seq<ScoredSplit>, mode: SplitPassMode)
    requires
        forall|i: int| 0 <= i < splits.len() ==> (#[trigger] splits[i]).score.spec_le(splits[i].with_margin),
    ensures
        split_kept(start, splits, mode) matches Some(i) ==> 0 <= i < splits.len() && may_replace(
            splits[i],
            start.score,
            mode,
        ),
    decreases splits.len(),
{
    if splits.len() > 0 {
        let rest = splits.drop_last();
        assert forall|i: int| 0 <= i < rest.len() implies (#[trigger] rest[i]).score.spec_le(rest[i].with_margin) by {
            assert(splits[i].score.spec_le(splits[i].with_margin));
        }
        law_kept_split_improves(start, rest, mode);
        if let Some(i) = split_kept(start, rest, mode) {
            assert(rest[i] == splits[i]);
            assert(splits[i].score.spec_le(splits[i].with_margin));
        }
    }
}

/// Where nothing but the score counts, no split beats the one that is made by
/// the margin; where none is made, none beats the primitive as it is.
pub proof fn law_no_split_beats_the_kept(start: ScoredSplit, splits: Seq<ScoredSplit>)
    requires
        !start.score.spec_is_nan(),
        forall|i: int| 0 <= i < splits.len() ==> (#[trigger] splits[i]).score.spec_le(splits[i].with_margin),
    ensures
        ({
            let best = kept_or(start, splits, split_kept(start, splits, SplitPassMode::General));
            &&& !best.score.spec_is_nan()
            &&& forall|j: int| 0 <= j < splits.len() ==> !(#[trigger] splits[j]).with_margin.spec_lt(best.score)
        }),
    decreases splits.len(),
{
    let mode = SplitPassMode::General;
    if splits.len() > 0 {
        let rest = splits.drop_last();
        assert forall|i: int| 0 <= i < rest.len() implies (#[trigger] rest[i]).score.spec_le(rest[i].with_margin) by {
            assert(splits[i].score.spec_le(splits[i].with_margin));
        }
        law_no_split_beats_the_kept(start, rest);
        law_kept_split_improves(start, rest, mode);
        let before = kept_or(start, rest, split_kept(start, rest, mode));
        assert(before == kept_or(start, splits, split_kept(start, rest, mode)));
        let best = kept_or(start, splits, split_kept(start, splits, mode));
        let n = splits.len() - 1;
        assert(splits[n].score.spec_le(splits[n].with_margin));
        assert forall|j: int| 0 <= j < splits.len() implies !(#[trigger] splits[j]).with_margin.spec_lt(best.score) by {
            assert(splits[j].score.spec_le(splits[j].with_margin));
            if j < n {
                assert(!rest[j].with_margin.spec_lt(before.score));
            }
        }
    }
}

/// Ranked faces come by their keys, from the least on, those of equal keys as
/// they came.
pub proof fn law_ranked_faces_come_by_their_keys(faces: Seq<u32>, keys: Seq<Scalar>, out: Seq<u32>)
    requires
        keys.len() == faces.len(),
        crate::order::no_nan(keys),
        is_ranked(faces, keys, out),
    ensures
        exists|r: Seq<usize>|
            {
                &&& r.len() == faces.len() && out.len() == faces.len()
                &&& forall|i: int| 0 <= i < r.len() ==> r[i] < faces.len() && out[i] == faces[(#[trigger] r[i]) as int]
                &&& forall|i: int, j: int|
                    0 <= i < j < r.len() ==> keys[(#[trigger] r[i]) as int].spec_le(keys[(#[trigger] r[j]) as int]) && (
                    keys[r[i] as int] == keys[r[j] as int] ==> r[i] < r[j])
            },
{
    let r = choose|r: Seq<usize>| #[trigger]
        is_ranking(ascending(keys), r) && out == Seq::new(faces.len(), |i: int| faces[r[i] as int]);
    assert forall|i: int| 0 <= i < r.len() implies r[i] < faces.len() && out[i] == faces[(#[trigger] r[i]) as int] by {
        assert(r.contains(r[i]));
    }
    assert forall|i: int, j: int| 0 <= i < j < r.len() implies keys[(#[trigger] r[i]) as int].spec_le(
        keys[(#[trigger] r[j]) as int],
    ) && (keys[r[i] as int] == keys[r[j] as int] ==> r[i] < r[j]) by {
        crate::order::law_ascending_ranking_sorts(keys, r, i, j, 0);
    }
    assert(r.len() == faces.len());
}

proof fn lemma_word_is_itself(a: Seq<u32>)
    ensures
        lex_le(a, a),
    decreases a.len(),
{
    if a.len() > 0 {
        lemma_word_is_itself(a.drop_first());
    }
}

/// Lists are compared as words are: every two compare, and lists that do both
/// ways are the same.
pub proof fn law_lists_compare_as_words(a: Seq<u32>, b: Seq<u32>)
    ensures
        lex_le(a, a),
        lex_le(a, b) || lex_le(b, a),
        lex_le(a, b) && lex_le(b, a) ==> a == b,
        a.len() > 0 && b.len() > 0 && a[0] < b[0] ==> lex_le(a, b) && !lex_le(b, a),
        split_key(a, b) == split_key(b, a),
        lex_le(split_key(a, b), a) && lex_le(split_key(a, b), b),
    decreases a.len(),
{
    if b.len() > 0 && a != b {
        lemma_word_is_itself(b);
    }
    if a.len() > 0 {
        lemma_word_is_itself(a);
        if b.len() > 0 {
            law_lists_compare_as_words(a.drop_first(), b.drop_first());
            if lex_le(a, b) && lex_le(b, a) {
                assert(a[0] == b[0]);
                assert(a =~= seq![a[0]] + a.drop_first());
                assert(b =~= seq![b[0]] + b.drop_first());
            }
        }
    } else if b.len() == 0 {
        assert(a =~= b);
    }
}

/// A sorted copy has the faces of the list, each once and in their order.
pub proof fn law_sorted_copy_is_sorted(s: Seq<u32>, out: Seq<u32>, f: u32, i: int, j: int)
    requires
        is_sorted_copy(s, out),
    ensures
        sorted(s) == out,
        sorted(s).contains(f) <==> s.contains(f),
        0 <= i < j < sorted(s).len() ==> sorted(s)[i] < sorted(s)[j],
{
    lemma_sorted(s, out);
}

/// The splits that are looked at differ from each other, whichever half comes
/// first, and their halves are in order.
pub proof fn law_splits_differ(out: Seq<SplitCandidate>, i: int, j: int)
    requires
        distinct_splits(out),
        0 <= i < j < out.len(),
    ensures
        !(out[i].faces_a@ == out[j].faces_a@ && out[i].faces_b@ == out[j].faces_b@),
        !(out[i].faces_a@ == out[j].faces_b@ && out[i].faces_b@ == out[j].faces_a@),
        is_set(out[i].faces_a@),
        is_set(out[i].faces_b@),
{
    law_lists_compare_as_words(out[i].faces_a@, out[i].faces_b@);
    assert(candidate_key(out[i]) != candidate_key(out[j]));
}

} // verus!
