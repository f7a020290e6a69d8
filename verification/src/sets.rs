//! Sets of indices, kept as strictly increasing lists.

use vstd::prelude::*;

verus! {

/// The list is strictly increasing: sorted, without repetition.
pub open spec fn is_set(s: Seq<u32>) -> bool {
    forall|i: int, j: int| 0 <= i < j < s.len() ==> #[trigger] s[i] < #[trigger] s[j]
}

/// What merging two lists gives: at each step the smaller head, once if the
/// heads are equal.
pub open spec fn merged(a: Seq<u32>, b: Seq<u32>) -> Seq<u32>
    decreases a.len() + b.len(),
{
    if a.len() == 0 {
        b
    } else if b.len() == 0 {
        a
    } else if a[0] < b[0] {
        seq![a[0]] + merged(a.drop_first(), b)
    } else if a[0] == b[0] {
        seq![a[0]] + merged(a.drop_first(), b.drop_first())
    } else {
        seq![b[0]] + merged(a, b.drop_first())
    }
}

/// Two strictly increasing lists with the same members are the same list.
pub proof fn lemma_set_unique(a: Seq<u32>, b: Seq<u32>)
    requires
        is_set(a),
        is_set(b),
        forall|x: u32| #[trigger] a.contains(x) <==> b.contains(x),
    ensures
        a == b,
    decreases a.len(),
{
    if a.len() == 0 {
        if b.len() > 0 {
            assert(b.contains(b[0]));
            assert(a.contains(b[0]));
        }
        assert(a =~= b);
    } else {
        assert(a.contains(a[0]));
        assert(b.len() > 0);
        assert(b.contains(b[0]));
        assert(a.contains(b[0]));
        let i = choose|i: int| 0 <= i < b.len() && b[i] == a[0];
        let j = choose|j: int| 0 <= j < a.len() && a[j] == b[0];
        assert(a[0] == b[0]);
        let (c, d) = (a.drop_first(), b.drop_first());
        assert forall|x: u32| #[trigger] c.contains(x) <==> d.contains(x) by {
            lemma_rest_members(a, x);
            lemma_rest_members(b, x);
            assert(a.contains(x) <==> b.contains(x));
        }
        lemma_set_unique(c, d);
        assert(a =~= seq![a[0]] + c);
        assert(b =~= seq![b[0]] + d);
    }
}

proof fn lemma_rest_members(a: Seq<u32>, x: u32)
    requires
        is_set(a),
        a.len() > 0,
    ensures
        is_set(a.drop_first()),
        a.drop_first().contains(x) <==> a.contains(x) && x != a[0],
{
    let c = a.drop_first();
    if a.contains(x) && x != a[0] {
        let i = choose|i: int| 0 <= i < a.len() && a[i] == x;
        assert(c[i - 1] == x);
    }
    if c.contains(x) {
        let i = choose|i: int| 0 <= i < c.len() && c[i] == x;
        assert(a[i + 1] == x);
    }
}

proof fn lemma_cons_members(h: u32, t: Seq<u32>, x: u32)
    ensures
        (seq![h] + t).contains(x) <==> x == h || t.contains(x),
{
    let s = seq![h] + t;
    if x == h {
        assert(s[0] == x);
    }
    if t.contains(x) {
        let i = choose|i: int| 0 <= i < t.len() && t[i] == x;
        assert(s[i + 1] == x);
    }
    if s.contains(x) {
        let i = choose|i: int| 0 <= i < s.len() && s[i] == x;
        if i > 0 {
            assert(t[i - 1] == x);
        }
    }
}

/// The members of a list that has grown by one.
pub proof fn lemma_push_contains<T>(s: Seq<T>, x: T, y: T)
    ensures
        s.push(x).contains(y) <==> s.contains(y) || x == y,
{
    let t = s.push(x);
    if s.contains(y) {
        let i = choose|i: int| 0 <= i < s.len() && s[i] == y;
        assert(t[i] == y);
    }
    if x == y {
        assert(t[s.len() as int] == y);
    }
    if t.contains(y) && x != y {
        let i = choose|i: int| 0 <= i < t.len() && t[i] == y;
        assert(s[i] == y);
    }
}

/// Merging two sets gives their union.
pub proof fn law_merge_is_union(a: Seq<u32>, b: Seq<u32>)
    requires
        is_set(a),
        is_set(b),
    ensures
        is_set(merged(a, b)),
        forall|x: u32| #[trigger] merged(a, b).contains(x) <==> a.contains(x) || b.contains(x),
    decreases a.len() + b.len(),
{
    let m = merged(a, b);
    if a.len() > 0 && b.len() > 0 {
        let h = if a[0] <= b[0] { a[0] } else { b[0] };
        let a1 = if a[0] <= b[0] { a.drop_first() } else { a };
        let b1 = if b[0] <= a[0] { b.drop_first() } else { b };
        let t = merged(a1, b1);
        assert(is_set(a1) && is_set(b1));
        law_merge_is_union(a1, b1);
        assert(m == seq![h] + t);
        assert forall|x: u32| #[trigger] m.contains(x) <==> a.contains(x) || b.contains(x) by {
            lemma_cons_members(h, t, x);
            lemma_rest_members(a, x);
            lemma_rest_members(b, x);
            assert(t.contains(x) <==> a1.contains(x) || b1.contains(x));
            assert(a.contains(a[0]) && b.contains(b[0]));
        }
        assert forall|i: int, j: int| 0 <= i < j < m.len() implies #[trigger] m[i] < #[trigger] m[j] by {
            assert(m[j] == t[j - 1]);
            if i == 0 {
                assert(t.contains(t[j - 1]));
                let x = t[j - 1];
                if a1.contains(x) {
                    let k = choose|k: int| 0 <= k < a1.len() && a1[k] == x;
                    assert(h < x) by {
                        if a[0] <= b[0] {
                            assert(a1[k] == a[k + 1]);
                        } else {
                            assert(a[0] <= a[k]);
                        }
                    }
                } else {
                    let k = choose|k: int| 0 <= k < b1.len() && b1[k] == x;
                    assert(h < x) by {
                        if b[0] <= a[0] {
                            assert(b1[k] == b[k + 1]);
                        } else {
                            assert(b[0] <= b[k]);
                        }
                    }
                }
            } else {
                assert(m[i] == t[i - 1]);
            }
        }
    } else {
        assert forall|x: u32| #[trigger] m.contains(x) <==> a.contains(x) || b.contains(x) by {}
    }
}

/// Merges two sorted lists, dropping what occurs in both.
pub fn merge_sorted_unique(a: &Vec<u32>, b: &Vec<u32>) -> (out: Vec<u32>)
    ensures
        out@ == merged(a@, b@),
        is_set(a@) && is_set(b@) ==> is_set(out@) && (forall|x: u32| #[trigger]
            out@.contains(x) <==> a@.contains(x) || b@.contains(x)),
{
    let mut out: Vec<u32> = Vec::new();
    let mut i: usize = 0;
    let mut j: usize = 0;
    let ghost (n, m) = (a@.len() as int, b@.len() as int);
    assert(a@.subrange(0, n) =~= a@ && b@.subrange(0, m) =~= b@);
    assert(out@ + merged(a@.subrange(0, n), b@.subrange(0, m)) =~= merged(a@, b@));
    while i < a.len() && j < b.len()
        invariant
            n == a@.len(),
            m == b@.len(),
            i <= n,
            j <= m,
            out@ + merged(a@.subrange(i as int, n), b@.subrange(j as int, m)) == merged(a@, b@),
        decreases n - i + m - j,
    {
        let ghost (sa, sb) = (a@.subrange(i as int, n), b@.subrange(j as int, m));
        let ghost before = out@;
        assert(sa.drop_first() =~= a@.subrange(i + 1, n));
        assert(sb.drop_first() =~= b@.subrange(j + 1, m));
        let (x, y): (u32, u32) = (a[i], b[j]);
        assert(sa[0] == x && sb[0] == y);
        if x < y {
            out.push(x);
            i += 1;
        } else if x == y {
            out.push(x);
            i += 1;
            j += 1;
        } else {
            out.push(y);
            j += 1;
        }
        proof {
            let t = merged(a@.subrange(i as int, n), b@.subrange(j as int, m));
            assert(out@ + t =~= before + (seq![out@.last()] + t));
        }
    }
    let ghost (sa, sb) = (a@.subrange(i as int, n), b@.subrange(j as int, m));
    let ghost head = out@;
    while i < a.len()
        invariant
            n == a@.len(),
            i <= n,
            out@ + a@.subrange(i as int, n) == head + sa,
        decreases n - i,
    {
        let ghost before = out@;
        out.push(a[i]);
        assert(out@ + a@.subrange(i + 1, n) =~= before + a@.subrange(i as int, n));
        i += 1;
    }
    assert(out@ =~= head + sa);
    while j < b.len()
        invariant
            m == b@.len(),
            j <= m,
            out@ + b@.subrange(j as int, m) == head + sa + sb,
        decreases m - j,
    {
        let ghost before = out@;
        out.push(b[j]);
        assert(out@ + b@.subrange(j + 1, m) =~= before + b@.subrange(j as int, m));
        j += 1;
    }
    proof {
        assert(out@ =~= head + sa + sb);
        assert(sa.len() == 0 || sb.len() == 0);
        assert(head + sa + sb =~= head + merged(sa, sb));
        if is_set(a@) && is_set(b@) {
            law_merge_is_union(a@, b@);
        }
    }
    out
}

/// The list is sorted; members may be repeated.
pub open spec fn is_sorted(s: Seq<u32>) -> bool {
    forall|i: int, j: int| 0 <= i <= j < s.len() ==> #[trigger] s[i] <= #[trigger] s[j]
}

/// Whether two sorted lists have a member in common.
pub fn shares_member(a: &Vec<u32>, b: &Vec<u32>) -> (found: bool)
    requires
        is_sorted(a@),
        is_sorted(b@),
    ensures
        found <==> exists|x: u32| #[trigger] a@.contains(x) && b@.contains(x),
{
    let mut i: usize = 0;
    let mut j: usize = 0;
    while i < a.len() && j < b.len()
        invariant
            i <= a@.len(),
            j <= b@.len(),
            is_sorted(a@),
            is_sorted(b@),
            forall|k: int, l: int|
                0 <= k < a@.len() && 0 <= l < b@.len() && (k < i || l < j) ==> #[trigger] a@[k] != #[trigger] b@[l],
        decreases a@.len() - i + b@.len() - j,
    {
        let (x, y): (u32, u32) = (a[i], b[j]);
        if x == y {
            assert(a@.contains(x) && b@.contains(x));
            return true;
        }
        if x < y {
            i += 1;
        } else {
            j += 1;
        }
    }
    false
}

/// The members of a list, sorted and without repetition.
pub fn sort_unique(v: &Vec<u32>) -> (out: Vec<u32>)
    ensures
        is_set(out@),
        forall|x: u32| #[trigger] out@.contains(x) <==> v@.contains(x),
{
    let out = sort_unique_range(v, 0, v.len());
    assert(v@.subrange(0, v@.len() as int) =~= v@);
    out
}

fn sort_unique_range(v: &Vec<u32>, lo: usize, hi: usize) -> (out: Vec<u32>)
    requires
        lo <= hi <= v@.len(),
    ensures
        is_set(out@),
        forall|x: u32| #[trigger] out@.contains(x) <==> v@.subrange(lo as int, hi as int).contains(x),
    decreases hi - lo,
{
    let ghost s = v@.subrange(lo as int, hi as int);
    if hi - lo <= 1 {
        let mut out: Vec<u32> = Vec::new();
        if lo < hi {
            out.push(v[lo]);
        }
        assert(out@ =~= s);
        return out;
    }
    let mid: usize = lo + (hi - lo) / 2;
    let left = sort_unique_range(v, lo, mid);
    let right = sort_unique_range(v, mid, hi);
    let out = merge_sorted_unique(&left, &right);
    proof {
        let l = v@.subrange(lo as int, mid as int);
        let r = v@.subrange(mid as int, hi as int);
        assert(s =~= l + r);
        assert forall|x: u32| #[trigger] out@.contains(x) <==> s.contains(x) by {
            assert(out@.contains(x) <==> left@.contains(x) || right@.contains(x));
            if l.contains(x) {
                let i = choose|i: int| 0 <= i < l.len() && l[i] == x;
                assert(s[i] == x);
            }
            if r.contains(x) {
                let i = choose|i: int| 0 <= i < r.len() && r[i] == x;
                assert(s[l.len() + i] == x);
            }
            if s.contains(x) {
                let i = choose|i: int| 0 <= i < s.len() && s[i] == x;
                if i < l.len() {
                    assert(l[i] == x);
                } else {
                    assert(r[i - l.len()] == x);
                }
            }
        }
    }
    out
}

/// The position of the first member of a set that is not below `x`.
pub fn position(s: &Vec<u32>, x: u32) -> (p: usize)
    requires
        is_set(s@),
    ensures
        p <= s@.len(),
        forall|i: int| 0 <= i < p ==> (#[trigger] s@[i]) < x,
        forall|i: int| p <= i < s@.len() ==> (#[trigger] s@[i]) >= x,
{
    let mut lo: usize = 0;
    let mut hi: usize = s.len();
    while lo < hi
        invariant
            lo <= hi <= s@.len(),
            is_set(s@),
            forall|i: int| 0 <= i < lo ==> (#[trigger] s@[i]) < x,
            forall|i: int| hi <= i < s@.len() ==> (#[trigger] s@[i]) >= x,
        decreases hi - lo,
    {
        let mid: usize = lo + (hi - lo) / 2;
        if s[mid] < x {
            lo = mid + 1;
        } else {
            hi = mid;
        }
    }
    lo
}

/// Adds `x` to a set.
pub fn set_insert(s: &mut Vec<u32>, x: u32)
    requires
        is_set(old(s)@),
    ensures
        is_set(final(s)@),
        forall|y: u32| #[trigger] final(s)@.contains(y) <==> y == x || old(s)@.contains(y),
{
    let p: usize = position(s, x);
    if p < s.len() && s[p] == x {
        assert(s@.contains(x));
        return;
    }
    let ghost before = s@;
    s.insert(p, x);
    proof {
        assert forall|y: u32| #[trigger] s@.contains(y) <==> y == x || before.contains(y) by {
            if before.contains(y) {
                let i = choose|i: int| 0 <= i < before.len() && before[i] == y;
                assert(s@[if i < p { i } else { i + 1 }] == y);
            }
            if y == x {
                assert(s@[p as int] == x);
            }
            if s@.contains(y) && y != x {
                let i = choose|i: int| 0 <= i < s@.len() && s@[i] == y;
                assert(before[if i < p { i } else { i - 1 }] == y);
            }
        }
    }
}

/// Takes `x` out of a set.
pub fn set_remove(s: &mut Vec<u32>, x: u32)
    requires
        is_set(old(s)@),
    ensures
        is_set(final(s)@),
        forall|y: u32| #[trigger] final(s)@.contains(y) <==> y != x && old(s)@.contains(y),
{
    let p: usize = position(s, x);
    let ghost before = s@;
    if p < s.len() && s[p] == x {
        s.remove(p);
        proof {
            assert forall|y: u32| #[trigger] s@.contains(y) <==> y != x && before.contains(y) by {
                if before.contains(y) && y != x {
                    let i = choose|i: int| 0 <= i < before.len() && before[i] == y;
                    assert(s@[if i < p { i } else { i - 1 }] == y);
                }
                if s@.contains(y) {
                    let i = choose|i: int| 0 <= i < s@.len() && s@[i] == y;
                    assert(before[if i < p { i } else { i + 1 }] == y);
                    assert(before[p as int] == x);
                }
            }
        }
    } else {
        assert(!s@.contains(x)) by {
            if s@.contains(x) {
                let i = choose|i: int| 0 <= i < s@.len() && s@[i] == x;
            }
        }
    }
}

/// Whether `x` is in a set.
pub fn set_contains(s: &Vec<u32>, x: u32) -> (found: bool)
    requires
        is_set(s@),
    ensures
        found == s@.contains(x),
{
    let p: usize = position(s, x);
    let found: bool = p < s.len() && s[p] == x;
    proof {
        if s@.contains(x) {
            let i = choose|i: int| 0 <= i < s@.len() && s@[i] == x;
            assert(p <= i);
            assert(s@[p as int] >= x);
            assert(p == i || s@[p as int] < s@[i]);
        }
    }
    found
}

/// A copy of a list.
pub fn copy_list(v: &Vec<u32>) -> (out: Vec<u32>)
    ensures
        out@ == v@,
{
    let mut out: Vec<u32> = Vec::new();
    let mut i: usize = 0;
    while i < v.len()
        invariant
            i <= v@.len(),
            out@ == v@.subrange(0, i as int),
        decreases v@.len() - i,
    {
        out.push(v[i]);
        assert(v@.subrange(0, i + 1) =~= v@.subrange(0, i as int).push(v@[i as int]));
        i += 1;
    }
    assert(v@.subrange(0, i as int) =~= v@);
    out
}

} // verus!
