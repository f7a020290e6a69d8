//! Pairing things that are near each other and face the same way.

use crate::order::{ascending, is_ranking, lemma_ranking, no_nan, rank_ascending, ranking};
use crate::scalar::Scalar;
use crate::sets::lemma_push_contains;
use std::collections::HashSet;
use vstd::prelude::*;

verus! {

broadcast use vstd::std_specs::hash::group_hash_axioms;

/// The `x`-th of the others of `i`.
pub open spec fn other(i: int, x: int) -> int {
    if x < i {
        x
    } else {
        x + 1
    }
}

/// The row without entry `i`.
pub open spec fn others(row: Seq<Scalar>, i: int) -> Seq<Scalar> {
    Seq::new((row.len() - 1) as nat, |x: int| row[other(i, x)])
}

/// What is near enough and parallel enough: at most `max_dist` away, with a
/// cosine of at least `cos_min`.
#[derive(Clone, Copy, Debug, PartialEq, Eq, Structural)]
pub struct Reach {
    pub max_dist: Scalar,
    pub cos_min: Scalar,
}

impl Reach {
    pub open spec fn admits(self, dist: Scalar, cos: Scalar) -> bool {
        !self.max_dist.spec_lt(dist) && !cos.spec_lt(self.cos_min)
    }
}

/// Of the `p` nearest others of `i`, nearest first, those within reach.
pub open spec fn near(row: Seq<Scalar>, cosines: Seq<Scalar>, i: int, reach: Reach, p: int) -> Seq<usize>
    decreases p,
{
    if p <= 0 {
        Seq::empty()
    } else {
        let before = near(row, cosines, i, reach, p - 1);
        let j = other(i, ranking(ascending(others(row, i)))[p - 1] as int);
        if reach.admits(row[j], cosines[j]) {
            before.push(j as usize)
        } else {
            before
        }
    }
}

/// How many of the others are looked at.
pub open spec fn looked_at(n: int, k: usize) -> int {
    if k < n - 1 {
        k as int
    } else {
        n - 1
    }
}

/// The function gives the entries of the row.
pub open spec fn gives_row<F: Fn(usize) -> Scalar>(f: F, row: Seq<Scalar>) -> bool {
    forall|j: usize, x: Scalar| #[trigger] f.ensures((j,), x) && j < row.len() ==> x == row[j as int]
}

/// Of the `k` nearest others of `i` among `n`, those within reach, nearest
/// first.
pub fn nearest_within<D: Fn(usize) -> Scalar + Copy, C: Fn(usize) -> Scalar + Copy>(
    i: usize,
    n: usize,
    dist: D,
    cos: C,
    k: usize,
    reach: Reach,
) -> (out: Vec<usize>)
    requires
        i < n,
        forall|j: usize| j < n ==> #[trigger] dist.requires((j,)),
        forall|j: usize| j < n ==> #[trigger] cos.requires((j,)),
        forall|j: usize, x: Scalar| #[trigger] dist.ensures((j,), x) ==> !x.spec_is_nan(),
    ensures
        forall|row: Seq<Scalar>, cosines: Seq<Scalar>|
            #![trigger gives_row(dist, row), gives_row(cos, cosines)]
            row.len() == n && cosines.len() == n && gives_row(dist, row) && gives_row(cos, cosines) ==> out@ == near(
                row,
                cosines,
                i as int,
                reach,
                looked_at(n as int, k),
            ),
        forall|x: int| 0 <= x < out@.len() ==> (#[trigger] out@[x]) < n && out@[x] != i,
{
    let mut dists: Vec<Scalar> = Vec::new();
    let mut j: usize = 0;
    while j < n
        invariant
            i < n,
            j <= n,
            forall|x: usize| x < n ==> #[trigger] dist.requires((x,)),
            forall|x: usize, y: Scalar| #[trigger] dist.ensures((x,), y) ==> !y.spec_is_nan(),
            dists@.len() == (if j <= i { j as int } else { j - 1 }),
            forall|x: int|
                0 <= x < dists@.len() ==> dist.ensures((other(i as int, x) as usize,), #[trigger] dists@[x]),
            no_nan(dists@),
        decreases n - j,
    {
        if j != i {
            let d: Scalar = dist(j);
            assert(other(i as int, dists@.len() as int) == j);
            dists.push(d);
        }
        j += 1;
    }
    let r = rank_ascending(&dists);
    let mut out: Vec<usize> = Vec::new();
    let mut p: usize = 0;
    while p < r.len() && p < k
        invariant
            i < n,
            n <= usize::MAX,
            dists@.len() == n - 1,
            is_ranking(ascending(dists@), r@),
            forall|x: usize| x < n ==> #[trigger] cos.requires((x,)),
            forall|x: int|
                0 <= x < dists@.len() ==> dist.ensures((other(i as int, x) as usize,), #[trigger] dists@[x]),
            p <= r@.len(),
            p <= k,
            forall|row: Seq<Scalar>, cosines: Seq<Scalar>|
                #![trigger gives_row(dist, row), gives_row(cos, cosines)]
                row.len() == n && cosines.len() == n && gives_row(dist, row) && gives_row(cos, cosines) ==> out@ == near(
                    row,
                    cosines,
                    i as int,
                    reach,
                    p as int,
                ),
            forall|x: int| 0 <= x < out@.len() ==> (#[trigger] out@[x]) < n && out@[x] != i,
        decreases r@.len() - p,
    {
        assert(r@.contains(r@[p as int]));
        let x: usize = r[p];
        let j: usize = if x < i {
            x
        } else {
            x + 1
        };
        let d: Scalar = dists[x];
        let ghost before = out@;
        let c: Scalar = cos(j);
        if !d.gt(reach.max_dist) && !c.lt(reach.cos_min) {
            out.push(j);
        }
        proof {
            assert forall|row: Seq<Scalar>, cosines: Seq<Scalar>|
                #![trigger gives_row(dist, row), gives_row(cos, cosines)]
                row.len() == n && cosines.len() == n && gives_row(dist, row) && gives_row(cos, cosines) implies out@
                == near(row, cosines, i as int, reach, p + 1) by {
                assert(before == near(row, cosines, i as int, reach, p as int));
                assert forall|y: int| 0 <= y < dists@.len() implies dists@[y] == others(row, i as int)[y] by {
                    assert(dist.ensures((other(i as int, y) as usize,), dists@[y]));
                }
                assert(dists@ =~= others(row, i as int));
                lemma_ranking(ascending(dists@), r@);
                assert(dist.ensures((other(i as int, x as int) as usize,), dists@[x as int]));
                assert(cos.ensures((j,), c));
            }
        }
        p += 1;
    }
    out
}

/// A pair with the lower index first.
pub open spec fn pair_of(a: u32, b: u32) -> (u32, u32) {
    if a < b {
        (a, b)
    } else {
        (b, a)
    }
}

/// Pairs, each once, lower index first.
pub struct PairSet {
    codes: HashSet<u64>,
    list: Vec<(u32, u32)>,
}

spec fn pair_code(p: (u32, u32)) -> int {
    p.0 * 0x1_0000_0000 + p.1
}

impl View for PairSet {
    type V = Seq<(u32, u32)>;

    closed spec fn view(&self) -> Seq<(u32, u32)> {
        self.list@
    }
}

impl PairSet {
    pub closed spec fn wf(&self) -> bool {
        &&& self.list@.no_duplicates()
        &&& forall|p: (u32, u32)| #[trigger] self.list@.contains(p) <==> self.codes@.contains(pair_code(p) as u64)
    }

    pub fn new() -> (s: Self)
        ensures
            s.wf(),
            s@ == Seq::<(u32, u32)>::empty(),
    {
        PairSet { codes: HashSet::new(), list: Vec::new() }
    }

    /// Adds a pair, unless it is there.
    pub fn insert(&mut self, a: u32, b: u32)
        requires
            old(self).wf(),
        ensures
            final(self).wf(),
            final(self)@ == (if old(self)@.contains(pair_of(a, b)) {
                old(self)@
            } else {
                old(self)@.push(pair_of(a, b))
            }),
    {
        let p: (u32, u32) = if a < b {
            (a, b)
        } else {
            (b, a)
        };
        let code: u64 = p.0 as u64 * 0x1_0000_0000u64 + p.1 as u64;
        let ghost before = *self;
        assert(code == pair_code(p));
        if !self.codes.contains(&code) {
            assert(!before.list@.contains(p));
            self.codes.insert(code);
            self.list.push(p);
            proof {
                assert forall|q: (u32, u32)| #[trigger] self.list@.contains(q) <==> self.codes@.contains(
                    pair_code(q) as u64,
                ) by {
                    lemma_push_contains(before.list@, p, q);
                    assert(before.list@.contains(q) <==> before.codes@.contains(pair_code(q) as u64));
                }
            }
        }
    }

    /// The pairs.
    pub fn into_list(self) -> (list: Vec<(u32, u32)>)
        requires
            self.wf(),
        ensures
            list@ == self@,
            list@.no_duplicates(),
    {
        self.list
    }
}

/// The closest pair so far, once face `a` has been held against the faces
/// `b`.
pub open spec fn closest_from(
    d: spec_fn(u32, u32) -> Scalar,
    a: u32,
    b: Seq<u32>,
    best: (u32, u32, Scalar),
) -> (u32, u32, Scalar)
    decreases b.len(),
{
    if b.len() == 0 {
        best
    } else {
        let before = closest_from(d, a, b.drop_last(), best);
        if d(a, b.last()).spec_lt(before.2) {
            (a, b.last(), d(a, b.last()))
        } else {
            before
        }
    }
}

/// The closest pair of a face of `a` and a face of `b`, the first such pair in
/// the order of the lists.
pub open spec fn closest(d: spec_fn(u32, u32) -> Scalar, a: Seq<u32>, b: Seq<u32>, best: (u32, u32, Scalar)) -> (
    u32,
    u32,
    Scalar,
)
    decreases a.len(),
{
    if a.len() == 0 {
        best
    } else {
        closest_from(d, a.last(), b, closest(d, a.drop_last(), b, best))
    }
}

proof fn lemma_closest_from_is_least(
    d: spec_fn(u32, u32) -> Scalar,
    a: u32,
    b: Seq<u32>,
    best: (u32, u32, Scalar),
)
    requires
        forall|y: u32| !(#[trigger] d(a, y)).spec_is_nan(),
        !best.2.spec_is_nan(),
    ensures
        ({
            let c = closest_from(d, a, b, best);
            &&& !c.2.spec_is_nan()
            &&& c.2.spec_le(best.2)
            &&& c == best || (c.0 == a && b.contains(c.1) && c.2 == d(a, c.1))
            &&& forall|j: int| 0 <= j < b.len() ==> c.2.spec_le(d(a, #[trigger] b[j]))
        }),
    decreases b.len(),
{
    if b.len() > 0 {
        let rest = b.drop_last();
        lemma_closest_from_is_least(d, a, rest, best);
        let c = closest_from(d, a, rest, best);
        assert forall|j: int| 0 <= j < b.len() implies closest_from(d, a, b, best).2.spec_le(d(a, #[trigger] b[j])) by {
            if j < rest.len() {
                assert(rest[j] == b[j]);
                assert(c.2.spec_le(d(a, rest[j])));
            }
        }
        if c != best {
            let k = choose|k: int| 0 <= k < rest.len() && rest[k] == c.1;
            assert(b[k] == c.1);
        }
        assert(b[b.len() - 1] == b.last());
    }
}

/// Where all distances are numbers below infinity, the closest pair is a pair
/// of the two lists, and no pair of theirs is closer.
pub proof fn law_closest_is_least(d: spec_fn(u32, u32) -> Scalar, a: Seq<u32>, b: Seq<u32>, first: (u32, u32))
    requires
        a.len() > 0,
        b.len() > 0,
        forall|x: u32, y: u32| !(#[trigger] d(x, y)).spec_is_nan(),
        forall|x: u32, y: u32| (#[trigger] d(x, y)).spec_lt(Scalar { bits: 0x7f80_0000 }),
    ensures
        ({
            let c = closest(d, a, b, (first.0, first.1, Scalar { bits: 0x7f80_0000 }));
            &&& a.contains(c.0)
            &&& b.contains(c.1)
            &&& c.2 == d(c.0, c.1)
            &&& forall|i: int, j: int|
                0 <= i < a.len() && 0 <= j < b.len() ==> c.2.spec_le(d(#[trigger] a[i], #[trigger] b[j]))
        }),
    decreases a.len(),
{
    let start = (first.0, first.1, Scalar { bits: 0x7f80_0000 });
    let rest = a.drop_last();
    let before = closest(d, rest, b, start);
    let c = closest(d, a, b, start);
    assert(!start.2.spec_is_nan());
    if rest.len() > 0 {
        law_closest_is_least(d, rest, b, first);
        let k = choose|k: int| 0 <= k < rest.len() && rest[k] == before.0;
        assert(a[k] == before.0);
    } else {
        assert(before == start);
    }
    lemma_closest_from_is_least(d, a.last(), b, before);
    assert(a[a.len() - 1] == a.last());
    assert(b[0] == b[0]);
    assert(c.2.spec_le(d(a.last(), b[0])));
    assert forall|i: int, j: int| 0 <= i < a.len() && 0 <= j < b.len() implies c.2.spec_le(
        d(#[trigger] a[i], #[trigger] b[j]),
    ) by {
        if i < rest.len() {
            assert(rest[i] == a[i]);
            assert(before.2.spec_le(d(rest[i], b[j])));
        }
    }
}

pub open spec fn pair_function<F: Fn(u32, u32) -> Scalar>(f: F, d: spec_fn(u32, u32) -> Scalar) -> bool {
    forall|a: u32, b: u32, x: Scalar| #[trigger] f.ensures((a, b), x) ==> x == d(a, b)
}

/// The closest pair of faces of two components; their first faces where none
/// is closer than infinity.
pub fn closest_pair<D: Fn(u32, u32) -> Scalar + Copy>(a: &Vec<u32>, b: &Vec<u32>, dist: D) -> (res: (u32, u32))
    requires
        a@.len() > 0,
        b@.len() > 0,
        forall|x: u32, y: u32| #[trigger] dist.requires((x, y)),
    ensures
        forall|d: spec_fn(u32, u32) -> Scalar| #[trigger]
            pair_function(dist, d) ==> {
                let c = closest(d, a@, b@, (a@[0], b@[0], Scalar { bits: 0x7f80_0000 }));
                res == (c.0, c.1)
            },
{
    let ghost start = (a@[0], b@[0], Scalar { bits: 0x7f80_0000 });
    let mut best: (u32, u32, Scalar) = (a[0], b[0], Scalar::infinity());
    let mut i: usize = 0;
    assert(a@.subrange(0, 0) =~= Seq::empty());
    while i < a.len()
        invariant
            forall|x: u32, y: u32| #[trigger] dist.requires((x, y)),
            i <= a@.len(),
            forall|d: spec_fn(u32, u32) -> Scalar| #[trigger]
                pair_function(dist, d) ==> best == closest(d, a@.subrange(0, i as int), b@, start),
        decreases a@.len() - i,
    {
        let x: u32 = a[i];
        let ghost row = best;
        let mut j: usize = 0;
        assert(b@.subrange(0, 0) =~= Seq::empty());
        while j < b.len()
            invariant
                forall|x: u32, y: u32| #[trigger] dist.requires((x, y)),
                j <= b@.len(),
                forall|d: spec_fn(u32, u32) -> Scalar| #[trigger]
                    pair_function(dist, d) ==> best == closest_from(d, x, b@.subrange(0, j as int), row),
            decreases b@.len() - j,
        {
            let y: u32 = b[j];
            let v: Scalar = dist(x, y);
            let ghost before = best;
            if v.lt(best.2) {
                best = (x, y, v);
            }
            proof {
                let longer = b@.subrange(0, j + 1);
                assert(longer.drop_last() =~= b@.subrange(0, j as int));
                assert(longer.last() == y);
                assert forall|d: spec_fn(u32, u32) -> Scalar| #[trigger] pair_function(dist, d) implies best
                    == closest_from(d, x, longer, row) by {
                    assert(before == closest_from(d, x, b@.subrange(0, j as int), row));
                    assert(dist.ensures((x, y), v));
                }
            }
            j += 1;
        }
        proof {
            assert(b@.subrange(0, j as int) =~= b@);
            let longer = a@.subrange(0, i + 1);
            assert(longer.drop_last() =~= a@.subrange(0, i as int));
            assert(longer.last() == x);
            assert forall|d: spec_fn(u32, u32) -> Scalar| #[trigger] pair_function(dist, d) implies best == closest(
                d,
                longer,
                b@,
                start,
            ) by {
                assert(row == closest(d, a@.subrange(0, i as int), b@, start));
                assert(best == closest_from(d, x, b@.subrange(0, j as int), row));
            }
        }
        i += 1;
    }
    assert(a@.subrange(0, i as int) =~= a@);
    (best.0, best.1)
}

/// Row `i` of the table that `d` gives.
pub open spec fn table_row(d: spec_fn(usize, usize) -> Scalar, n: usize, i: int) -> Seq<Scalar> {
    Seq::new(n as nat, |j: int| d(i as usize, j as usize))
}

pub open spec fn table_function<F: Fn(usize, usize) -> Scalar>(f: F, d: spec_fn(usize, usize) -> Scalar) -> bool {
    forall|i: usize, j: usize, x: Scalar| #[trigger] f.ensures((i, j), x) ==> x == d(i, j)
}

/// For each of `n` things, of its `k` nearest others those within reach,
/// nearest first.
pub fn all_near<D: Fn(usize, usize) -> Scalar + Copy, C: Fn(usize, usize) -> Scalar + Copy>(
    n: usize,
    dist: D,
    cos: C,
    k: usize,
    reach: Reach,
) -> (lists: Vec<Vec<usize>>)
    requires
        forall|i: usize, j: usize| i < n && j < n ==> #[trigger] dist.requires((i, j)),
        forall|i: usize, j: usize| i < n && j < n ==> #[trigger] cos.requires((i, j)),
        forall|i: usize, j: usize, x: Scalar| #[trigger] dist.ensures((i, j), x) ==> !x.spec_is_nan(),
    ensures
        lists@.len() == n,
        forall|d: spec_fn(usize, usize) -> Scalar, c: spec_fn(usize, usize) -> Scalar|
            #![trigger table_function(dist, d), table_function(cos, c)]
            table_function(dist, d) && table_function(cos, c) ==> forall|i: int|
                0 <= i < n ==> (#[trigger] lists@[i])@ == near(
                    table_row(d, n, i),
                    table_row(c, n, i),
                    i,
                    reach,
                    looked_at(n as int, k),
                ),
        forall|i: int, x: int|
            0 <= i < n && 0 <= x < lists@[i]@.len() ==> (#[trigger] lists@[i]@[x]) < n && lists@[i]@[x] != i,
{
    let mut lists: Vec<Vec<usize>> = Vec::new();
    let mut i: usize = 0;
    while i < n
        invariant
            i <= n,
            forall|i: usize, j: usize| i < n && j < n ==> #[trigger] dist.requires((i, j)),
            forall|i: usize, j: usize| i < n && j < n ==> #[trigger] cos.requires((i, j)),
            forall|i: usize, j: usize, x: Scalar| #[trigger] dist.ensures((i, j), x) ==> !x.spec_is_nan(),
            lists@.len() == i,
            forall|d: spec_fn(usize, usize) -> Scalar, c: spec_fn(usize, usize) -> Scalar|
                #![trigger table_function(dist, d), table_function(cos, c)]
                table_function(dist, d) && table_function(cos, c) ==> forall|x: int|
                    0 <= x < i ==> (#[trigger] lists@[x])@ == near(
                        table_row(d, n, x),
                        table_row(c, n, x),
                        x,
                        reach,
                        looked_at(n as int, k),
                    ),
            forall|y: int, x: int|
                0 <= y < i && 0 <= x < lists@[y]@.len() ==> (#[trigger] lists@[y]@[x]) < n && lists@[y]@[x] != y,
        decreases n - i,
    {
        let row = |j: usize| -> (x: Scalar)
            requires
                dist.requires((i, j)),
            ensures
                dist.ensures((i, j), x),
            { dist(i, j) };
        let cosines = |j: usize| -> (x: Scalar)
            requires
                cos.requires((i, j)),
            ensures
                cos.ensures((i, j), x),
            { cos(i, j) };
        let list = nearest_within(i, n, row, cosines, k, reach);
        let ghost before = lists@;
        lists.push(list);
        proof {
            assert forall|d: spec_fn(usize, usize) -> Scalar, c: spec_fn(usize, usize) -> Scalar|
                #![trigger table_function(dist, d), table_function(cos, c)]
                table_function(dist, d) && table_function(cos, c) implies forall|x: int|
                0 <= x < i + 1 ==> (#[trigger] lists@[x])@ == near(
                    table_row(d, n, x),
                    table_row(c, n, x),
                    x,
                    reach,
                    looked_at(n as int, k),
                ) by {
                let (rd, rc) = (table_row(d, n, i as int), table_row(c, n, i as int));
                assert(gives_row(row, rd));
                assert(gives_row(cosines, rc));
                assert forall|x: int| 0 <= x < i + 1 implies (#[trigger] lists@[x])@ == near(
                    table_row(d, n, x),
                    table_row(c, n, x),
                    x,
                    reach,
                    looked_at(n as int, k),
                ) by {
                    if x < i {
                        assert(lists@[x] == before[x]);
                    }
                }
            }
            assert forall|y: int, x: int| 0 <= y < i + 1 && 0 <= x < lists@[y]@.len() implies (
            #[trigger] lists@[y]@[x]) < n && lists@[y]@[x] != y by {
                if y < i {
                    assert(lists@[y] == before[y]);
                } else {
                    assert(list@[x] < n);
                }
            }
        }
        i += 1;
    }
    lists
}

/// The edge between two components: their closest pair of faces.
pub open spec fn joint(f: spec_fn(u32, u32) -> Scalar, faces_per: Seq<Vec<u32>>, i: int, j: int) -> (u32, u32) {
    let (a, b) = (faces_per[i]@, faces_per[j]@);
    let c = closest(f, a, b, (a[0], b[0], Scalar { bits: 0x7f80_0000 }));
    pair_of(c.0, c.1)
}

/// The pair is the edge of a component and one that is listed as near it: one
/// of the first `rows` components, or component `rows` and the first `x` near
/// it.
spec fn joined_by(
    f: spec_fn(u32, u32) -> Scalar,
    faces_per: Seq<Vec<u32>>,
    lists: Seq<Vec<usize>>,
    rows: int,
    x: int,
    p: (u32, u32),
) -> bool {
    exists|i: int, y: int|
        0 <= i < lists.len() && 0 <= y < lists[i]@.len() && (i < rows || (i == rows && y < x)) && p == joint(
            f,
            faces_per,
            i,
            #[trigger] lists[i]@[y] as int,
        )
}

/// The pair is the edge of a component and one of those near it.
pub open spec fn is_proximity_edge(
    d: spec_fn(usize, usize) -> Scalar,
    c: spec_fn(usize, usize) -> Scalar,
    f: spec_fn(u32, u32) -> Scalar,
    faces_per: Seq<Vec<u32>>,
    k: usize,
    reach: Reach,
    p: (u32, u32),
) -> bool {
    let n = faces_per.len();
    exists|i: int, j: usize|
        0 <= i < n && #[trigger] near(
            table_row(d, n as usize, i),
            table_row(c, n as usize, i),
            i,
            reach,
            looked_at(n as int, k),
        ).contains(j) && p == joint(f, faces_per, i, j as int)
}

/// Edges between disconnected components: for each component, of its `k`
/// nearest others those within reach are joined to it by the closest pair of
/// faces. Each edge is listed once.
pub fn build_proximity_edges<
    D: Fn(usize, usize) -> Scalar + Copy,
    C: Fn(usize, usize) -> Scalar + Copy,
    F: Fn(u32, u32) -> Scalar + Copy,
>(faces_per: &Vec<Vec<u32>>, k: usize, reach: Reach, dist: D, cos: C, face_dist: F) -> (edges: Vec<(u32, u32)>)
    requires
        forall|c: int| 0 <= c < faces_per@.len() ==> (#[trigger] faces_per@[c])@.len() > 0,
        forall|i: usize, j: usize|
            i < faces_per@.len() && j < faces_per@.len() ==> #[trigger] dist.requires((i, j)),
        forall|i: usize, j: usize| i < faces_per@.len() && j < faces_per@.len() ==> #[trigger] cos.requires((i, j)),
        forall|i: usize, j: usize, x: Scalar| #[trigger] dist.ensures((i, j), x) ==> !x.spec_is_nan(),
        forall|x: u32, y: u32| #[trigger] face_dist.requires((x, y)),
    ensures
        edges@.no_duplicates(),
        forall|
            d: spec_fn(usize, usize) -> Scalar,
            c: spec_fn(usize, usize) -> Scalar,
            f: spec_fn(u32, u32) -> Scalar,
        |
            #![trigger table_function(dist, d), table_function(cos, c), pair_function(face_dist, f)]
            table_function(dist, d) && table_function(cos, c) && pair_function(face_dist, f) ==> forall|p: (u32, u32)|
                #[trigger] edges@.contains(p) <==> is_proximity_edge(d, c, f, faces_per@, k, reach, p),
{
    let n: usize = faces_per.len();
    let lists = all_near(n, dist, cos, k, reach);
    let mut set = PairSet::new();
    let mut i: usize = 0;
    while i < n
        invariant
            n == faces_per@.len(),
            lists@.len() == n,
            forall|c: int| 0 <= c < n ==> (#[trigger] faces_per@[c])@.len() > 0,
            forall|x: u32, y: u32| #[trigger] face_dist.requires((x, y)),
            forall|y: int, x: int| 0 <= y < n && 0 <= x < lists@[y]@.len() ==> (#[trigger] lists@[y]@[x]) < n,
            i <= n,
            set.wf(),
            forall|f: spec_fn(u32, u32) -> Scalar| #[trigger]
                pair_function(face_dist, f) ==> forall|p: (u32, u32)| #[trigger]
                    set@.contains(p) <==> joined_by(f, faces_per@, lists@, i as int, 0, p),
        decreases n - i,
    {
        let mut x: usize = 0;
        while x < lists[i].len()
            invariant
                n == faces_per@.len(),
                lists@.len() == n,
                forall|c: int| 0 <= c < n ==> (#[trigger] faces_per@[c])@.len() > 0,
                forall|x: u32, y: u32| #[trigger] face_dist.requires((x, y)),
                forall|y: int, x: int| 0 <= y < n && 0 <= x < lists@[y]@.len() ==> (#[trigger] lists@[y]@[x]) < n,
                i < n,
                x <= lists@[i as int]@.len(),
                set.wf(),
                forall|f: spec_fn(u32, u32) -> Scalar| #[trigger]
                    pair_function(face_dist, f) ==> forall|p: (u32, u32)| #[trigger]
                        set@.contains(p) <==> joined_by(f, faces_per@, lists@, i as int, x as int, p),
            decreases lists@[i as int]@.len() - x,
        {
            let j: usize = lists[i][x];
            assert(lists@[i as int]@[x as int] == j);
            let (a, b): (u32, u32) = closest_pair(&faces_per[i], &faces_per[j], face_dist);
            let ghost before = set@;
            set.insert(a, b);
            proof {
                assert forall|f: spec_fn(u32, u32) -> Scalar| #[trigger] pair_function(face_dist, f) implies forall|
                    p: (u32, u32),
                | #[trigger] set@.contains(p) <==> joined_by(f, faces_per@, lists@, i as int, x + 1, p) by {
                    assert(pair_of(a, b) == joint(f, faces_per@, i as int, j as int));
                    assert forall|p: (u32, u32)| #[trigger] set@.contains(p) <==> joined_by(
                        f,
                        faces_per@,
                        lists@,
                        i as int,
                        x + 1,
                        p,
                    ) by {
                        lemma_push_contains(before, pair_of(a, b), p);
                        assert(before.contains(p) <==> joined_by(f, faces_per@, lists@, i as int, x as int, p));
                        lemma_joined_step(f, faces_per@, lists@, i as int, x as int, p);
                    }
                }
            }
            x += 1;
        }
        proof {
            assert forall|f: spec_fn(u32, u32) -> Scalar| #[trigger] pair_function(face_dist, f) implies forall|
                p: (u32, u32),
            | #[trigger] set@.contains(p) <==> joined_by(f, faces_per@, lists@, i + 1, 0, p) by {
                assert forall|p: (u32, u32)| #[trigger] set@.contains(p) <==> joined_by(
                    f,
                    faces_per@,
                    lists@,
                    i + 1,
                    0,
                    p,
                ) by {
                    assert(set@.contains(p) <==> joined_by(f, faces_per@, lists@, i as int, x as int, p));
                    lemma_joined_row(f, faces_per@, lists@, i as int, p);
                }
            }
        }
        i += 1;
    }
    let edges = set.into_list();
    proof {
        assert forall|
            d: spec_fn(usize, usize) -> Scalar,
            c: spec_fn(usize, usize) -> Scalar,
            f: spec_fn(u32, u32) -> Scalar,
        |
            #![trigger table_function(dist, d), table_function(cos, c), pair_function(face_dist, f)]
            table_function(dist, d) && table_function(cos, c) && pair_function(face_dist, f) implies forall|
            p: (u32, u32),
        | #[trigger] edges@.contains(p) <==> is_proximity_edge(d, c, f, faces_per@, k, reach, p) by {
            assert forall|p: (u32, u32)| #[trigger] edges@.contains(p) <==> is_proximity_edge(
                d,
                c,
                f,
                faces_per@,
                k,
                reach,
                p,
            ) by {
                assert(edges@.contains(p) <==> joined_by(f, faces_per@, lists@, n as int, 0, p));
                assert(faces_per@.len() as usize == n);
                assert forall|i: int| 0 <= i < n implies (#[trigger] lists@[i])@ == near(
                    table_row(d, n, i),
                    table_row(c, n, i),
                    i,
                    reach,
                    looked_at(n as int, k),
                ) by {}
                if joined_by(f, faces_per@, lists@, n as int, 0, p) {
                    let (i, y) = choose|i: int, y: int|
                        0 <= i < lists@.len() && 0 <= y < lists@[i]@.len() && (i < n || (i == n && y < 0)) && p == joint(
                            f,
                            faces_per@,
                            i,
                            #[trigger] lists@[i]@[y] as int,
                        );
                    let j = lists@[i]@[y];
                    assert(p == joint(f, faces_per@, i, j as int));
                    assert(lists@[i]@.contains(j));
                    assert(near(table_row(d, n, i), table_row(c, n, i), i, reach, looked_at(n as int, k)).contains(j));
                }
                if is_proximity_edge(d, c, f, faces_per@, k, reach, p) {
                    let (i, j) = choose|i: int, j: usize|
                        0 <= i < n && #[trigger] near(
                            table_row(d, n, i),
                            table_row(c, n, i),
                            i,
                            reach,
                            looked_at(n as int, k),
                        ).contains(j) && p == joint(f, faces_per@, i, j as int);
                    assert(lists@[i]@.contains(j));
                    let y = choose|y: int| 0 <= y < lists@[i]@.len() && lists@[i]@[y] == j;
                    assert(p == joint(f, faces_per@, i, lists@[i]@[y] as int));
                }
            }
        }
    }
    edges
}

proof fn lemma_joined_step(
    f: spec_fn(u32, u32) -> Scalar,
    faces_per: Seq<Vec<u32>>,
    lists: Seq<Vec<usize>>,
    i: int,
    x: int,
    p: (u32, u32),
)
    requires
        0 <= i < lists.len(),
        0 <= x < lists[i]@.len(),
    ensures
        joined_by(f, faces_per, lists, i, x + 1, p) <==> joined_by(f, faces_per, lists, i, x, p) || p == joint(
            f,
            faces_per,
            i,
            lists[i]@[x] as int,
        ),
{
    if joined_by(f, faces_per, lists, i, x + 1, p) {
        let (k, y) = choose|k: int, y: int|
            0 <= k < lists.len() && 0 <= y < lists[k]@.len() && (k < i || (k == i && y < x + 1)) && p == joint(
                f,
                faces_per,
                k,
                #[trigger] lists[k]@[y] as int,
            );
        if !(k == i && y == x) {
            assert(p == joint(f, faces_per, k, lists[k]@[y] as int));
        }
    }
    if joined_by(f, faces_per, lists, i, x, p) {
        let (k, y) = choose|k: int, y: int|
            0 <= k < lists.len() && 0 <= y < lists[k]@.len() && (k < i || (k == i && y < x)) && p == joint(
                f,
                faces_per,
                k,
                #[trigger] lists[k]@[y] as int,
            );
        assert(p == joint(f, faces_per, k, lists[k]@[y] as int));
    }
}

proof fn lemma_joined_row(
    f: spec_fn(u32, u32) -> Scalar,
    faces_per: Seq<Vec<u32>>,
    lists: Seq<Vec<usize>>,
    i: int,
    p: (u32, u32),
)
    requires
        0 <= i < lists.len(),
    ensures
        joined_by(f, faces_per, lists, i + 1, 0, p) <==> joined_by(f, faces_per, lists, i, lists[i]@.len() as int, p),
{
    let m = lists[i]@.len() as int;
    if joined_by(f, faces_per, lists, i + 1, 0, p) {
        let (k, y) = choose|k: int, y: int|
            0 <= k < lists.len() && 0 <= y < lists[k]@.len() && (k < i + 1 || (k == i + 1 && y < 0)) && p == joint(
                f,
                faces_per,
                k,
                #[trigger] lists[k]@[y] as int,
            );
        assert(p == joint(f, faces_per, k, lists[k]@[y] as int));
    }
    if joined_by(f, faces_per, lists, i, m, p) {
        let (k, y) = choose|k: int, y: int|
            0 <= k < lists.len() && 0 <= y < lists[k]@.len() && (k < i || (k == i && y < m)) && p == joint(
                f,
                faces_per,
                k,
                #[trigger] lists[k]@[y] as int,
            );
        assert(p == joint(f, faces_per, k, lists[k]@[y] as int));
    }
}

/// The others of a place are all places but that one, in their order.
pub proof fn law_others_leave_one_out(i: int, x: int, y: int, j: int)
    requires
        0 <= i,
        0 <= x < y,
        0 <= j,
        j != i,
    ensures
        other(i, x) != i,
        0 <= other(i, x) < other(i, y),
        other(i, x) <= x + 1,
        exists|z: int| 0 <= z && #[trigger] other(i, z) == j,
{
    if j < i {
        assert(other(i, j) == j);
    } else {
        assert(other(i, j - 1) == j);
    }
}

/// A place is within reach where it is no farther than the distance and turned
/// away no more than the angle.
pub proof fn law_within_reach(reach: Reach, dist: Scalar, cos: Scalar)
    ensures
        reach.max_dist.spec_lt(dist) ==> !reach.admits(dist, cos),
        cos.spec_lt(reach.cos_min) ==> !reach.admits(dist, cos),
        dist.spec_le(reach.max_dist) && reach.cos_min.spec_le(cos) ==> reach.admits(dist, cos),
{
}

/// As many places are looked at as are asked for, or all the others where there
/// are fewer.
pub proof fn law_places_looked_at(n: int, k: usize)
    requires
        n >= 1,
    ensures
        looked_at(n, k) <= k,
        looked_at(n, k) <= n - 1,
        looked_at(n, k) == k || looked_at(n, k) == n - 1,
        looked_at(n, k) >= 0,
{
}

/// A pair is the same either way round, the lower one first.
pub proof fn law_pairs_have_no_direction(a: u32, b: u32)
    ensures
        pair_of(a, b) == pair_of(b, a),
        pair_of(a, b).0 <= pair_of(a, b).1,
        (pair_of(a, b).0 == a && pair_of(a, b).1 == b) || (pair_of(a, b).0 == b && pair_of(a, b).1 == a),
{
}

/// What is near a place: others within reach, from the nearest on, no more than
/// are looked at. One within reach that is left out is no nearer than any of
/// them.
pub proof fn law_near_places(
    row: Seq<Scalar>,
    cosines: Seq<Scalar>,
    i: int,
    reach: Reach,
    p: int,
    r: Seq<usize>,
    x: int,
    y: int,
    j: usize,
)
    requires
        0 <= i < row.len() <= usize::MAX,
        cosines.len() == row.len(),
        no_nan(row),
        is_ranking(ascending(others(row, i)), r),
        0 <= p < row.len(),
    ensures
        ({
            let out = near(row, cosines, i, reach, p);
            &&& out.len() <= p
            &&& 0 <= x < out.len() ==> out[x] != i && out[x] < row.len() && reach.admits(row[out[x] as int], cosines[out[x] as int])
            &&& 0 <= x < y < out.len() ==> row[out[x] as int].spec_le(row[out[y] as int]) && out[x] != out[y]
            &&& j < row.len() && j != i && reach.admits(row[j as int], cosines[j as int]) && !out.contains(j) && 0 <= x
                < out.len() ==> row[out[x] as int].spec_le(row[j as int])
        }),
{
    let keys = ascending(others(row, i));
    lemma_ranking(keys, r);
    let out = near(row, cosines, i, reach, p);
    lemma_near_from(row, cosines, i, reach, p, r);
    if 0 <= x < out.len() {
        assert(from_rank(i, r, p, out[x]));
        let a = choose|a: int| 0 <= a < p && out[x] == #[trigger] other(i, r[a] as int);
        assert(r.contains(r[a]));
        if x < y < out.len() {
            assert(comes_before(i, r, p, out[x], out[y]));
            let (c, d) = choose|c: int, d: int|
                0 <= c < d < p && out[x] == #[trigger] other(i, r[c] as int) && out[y] == #[trigger] other(i, r[d] as int);
            lemma_rank_order(row, i, r, c, d);
        }
        if j < row.len() && j != i && reach.admits(row[j as int], cosines[j as int]) && !out.contains(j) {
            let z = if j < i {
                j as int
            } else {
                j - 1
            };
            assert(other(i, z) == j);
            assert(r.contains(z as usize));
            let q = choose|q: int| 0 <= q < r.len() && r[q] == z as usize;
            if q < p {
                lemma_near_takes(row, cosines, i, reach, p, r, q);
            }
            lemma_rank_order(row, i, r, a, q);
        }
    }
}

spec fn from_rank(i: int, r: Seq<usize>, p: int, m: usize) -> bool {
    exists|a: int| 0 <= a < p && m == #[trigger] other(i, r[a] as int)
}

spec fn comes_before(i: int, r: Seq<usize>, p: int, m: usize, n: usize) -> bool {
    exists|c: int, d: int| 0 <= c < d < p && m == #[trigger] other(i, r[c] as int) && n == #[trigger] other(i, r[d] as int)
}

proof fn lemma_rank_order(row: Seq<Scalar>, i: int, r: Seq<usize>, c: int, d: int)
    requires
        0 <= i < row.len() <= usize::MAX,
        no_nan(row),
        is_ranking(ascending(others(row, i)), r),
        0 <= c < d < r.len(),
    ensures
        row[other(i, r[c] as int)].spec_le(row[other(i, r[d] as int)]),
        other(i, r[c] as int) != other(i, r[d] as int),
{
    let keys = ascending(others(row, i));
    assert(r.contains(r[c]) && r.contains(r[d]));
    assert(crate::order::before(keys, r[c], r[d]));
    assert(!row[other(i, r[c] as int)].spec_is_nan());
    assert(!row[other(i, r[d] as int)].spec_is_nan());
}

proof fn lemma_near_takes(row: Seq<Scalar>, cosines: Seq<Scalar>, i: int, reach: Reach, p: int, r: Seq<usize>, q: int)
    requires
        0 <= i < row.len() <= usize::MAX,
        is_ranking(ascending(others(row, i)), r),
        0 <= q < p < row.len(),
        reach.admits(row[other(i, r[q] as int)], cosines[other(i, r[q] as int)]),
    ensures
        near(row, cosines, i, reach, p).contains(other(i, r[q] as int) as usize),
    decreases p,
{
    lemma_ranking(ascending(others(row, i)), r);
    let before = near(row, cosines, i, reach, p - 1);
    let j = other(i, r[p - 1] as int) as usize;
    lemma_push_contains(before, j, other(i, r[q] as int) as usize);
    if q < p - 1 {
        lemma_near_takes(row, cosines, i, reach, p - 1, r, q);
    }
}

proof fn lemma_near_from(row: Seq<Scalar>, cosines: Seq<Scalar>, i: int, reach: Reach, p: int, r: Seq<usize>)
    requires
        0 <= i < row.len() <= usize::MAX,
        is_ranking(ascending(others(row, i)), r),
        0 <= p < row.len(),
    ensures
        ({
            let out = near(row, cosines, i, reach, p);
            &&& out.len() <= p
            &&& forall|x: int|
                0 <= x < out.len() ==> #[trigger] from_rank(i, r, p, out[x]) && out[x] < row.len() && out[x] != i
                    && reach.admits(row[out[x] as int], cosines[out[x] as int])
            &&& forall|x: int, y: int| 0 <= x < y < out.len() ==> #[trigger] comes_before(i, r, p, out[x], out[y])
        }),
    decreases p,
{
    lemma_ranking(ascending(others(row, i)), r);
    if p > 0 {
        lemma_near_from(row, cosines, i, reach, p - 1, r);
        let before = near(row, cosines, i, reach, p - 1);
        let out = near(row, cosines, i, reach, p);
        assert(r.contains(r[p - 1]));
        let j = other(i, r[p - 1] as int);
        assert(j < row.len());
        assert forall|x: int| 0 <= x < out.len() implies #[trigger] from_rank(i, r, p, out[x]) && out[x] < row.len()
            && out[x] != i && reach.admits(row[out[x] as int], cosines[out[x] as int]) by {
            if x < before.len() {
                assert(from_rank(i, r, p - 1, before[x]));
                let a = choose|a: int| 0 <= a < p - 1 && before[x] == #[trigger] other(i, r[a] as int);
                assert(out[x] == other(i, r[a] as int));
            } else {
                assert(out[x] == other(i, r[p - 1] as int));
            }
        }
        assert forall|x: int, y: int| 0 <= x < y < out.len() implies #[trigger] comes_before(i, r, p, out[x], out[y]) by {
            if y < before.len() {
                assert(comes_before(i, r, p - 1, before[x], before[y]));
                let (c, d) = choose|c: int, d: int|
                    0 <= c < d < p - 1 && before[x] == #[trigger] other(i, r[c] as int) && before[y] == #[trigger] other(
                        i,
                        r[d] as int,
                    );
                assert(out[x] == other(i, r[c] as int) && out[y] == other(i, r[d] as int));
            } else {
                assert(from_rank(i, r, p - 1, before[x]));
                let a = choose|a: int| 0 <= a < p - 1 && before[x] == #[trigger] other(i, r[a] as int);
                assert(out[x] == other(i, r[a] as int) && out[y] == other(i, r[p - 1] as int));
            }
        }
    }
}

/// A joint between two parts joins a face of the one to a face of the other,
/// and no two faces of theirs are nearer.
pub proof fn law_joint_is_the_nearest_pair(
    f: spec_fn(u32, u32) -> Scalar,
    faces_per: Seq<Vec<u32>>,
    i: int,
    j: int,
    x: int,
    y: int,
)
    requires
        faces_per[i]@.len() > 0,
        faces_per[j]@.len() > 0,
        forall|a: u32, b: u32| !(#[trigger] f(a, b)).spec_is_nan(),
        forall|a: u32, b: u32| (#[trigger] f(a, b)).spec_lt(Scalar { bits: 0x7f80_0000 }),
        forall|a: u32, b: u32| #[trigger] f(a, b) == f(b, a),
        0 <= x < faces_per[i]@.len(),
        0 <= y < faces_per[j]@.len(),
    ensures
        ({
            let p = joint(f, faces_per, i, j);
            &&& p.0 <= p.1
            &&& (faces_per[i]@.contains(p.0) && faces_per[j]@.contains(p.1)) || (faces_per[i]@.contains(p.1)
                && faces_per[j]@.contains(p.0))
            &&& f(p.0, p.1).spec_le(f(faces_per[i]@[x], faces_per[j]@[y]))
        }),
{
    let (a, b) = (faces_per[i]@, faces_per[j]@);
    law_closest_is_least(f, a, b, (a[0], b[0]));
    let c = closest(f, a, b, (a[0], b[0], Scalar { bits: 0x7f80_0000 }));
    assert(c.2.spec_le(f(a[x], b[y])));
    assert(f(c.0, c.1) == f(c.1, c.0));
}

/// A pair with its distance stands at these places.
spec fn stands_at(d: spec_fn(u32, u32) -> Scalar, a: Seq<u32>, b: Seq<u32>, c: (u32, u32, Scalar), i: int, j: int) -> bool {
    &&& 0 <= i < a.len()
    &&& 0 <= j < b.len()
    &&& c == (a[i], b[j], d(a[i], b[j]))
}

proof fn lemma_closest_from(d: spec_fn(u32, u32) -> Scalar, x: u32, b: Seq<u32>, best: (u32, u32, Scalar))
    requires
        !best.2.spec_is_nan(),
        forall|p: u32, q: u32| !(#[trigger] d(p, q)).spec_is_nan(),
    ensures
        ({
            let c = closest_from(d, x, b, best);
            &&& c.2.spec_le(best.2)
            &&& forall|j: int| 0 <= j < b.len() ==> c.2.spec_le(d(x, #[trigger] b[j]))
            &&& c == best || (c.2.spec_lt(best.2) && exists|j: int|
                0 <= j < b.len() && c == (x, #[trigger] b[j], d(x, b[j])) && forall|l: int|
                    0 <= l < j ==> c.2.spec_lt(d(x, #[trigger] b[l])))
        }),
    decreases b.len(),
{
    if b.len() > 0 {
        let rest = b.drop_last();
        let n = b.len() - 1;
        lemma_closest_from(d, x, rest, best);
        let before = closest_from(d, x, rest, best);
        let c = closest_from(d, x, b, best);
        assert forall|j: int| 0 <= j < b.len() implies c.2.spec_le(d(x, #[trigger] b[j])) by {
            if j < n {
                assert(before.2.spec_le(d(x, rest[j])));
            }
        }
        if d(x, b[n]).spec_lt(before.2) {
            assert(c == (x, b[n], d(x, b[n])));
            assert forall|l: int| 0 <= l < n implies c.2.spec_lt(d(x, #[trigger] b[l])) by {
                assert(before.2.spec_le(d(x, rest[l])));
            }
        } else if before != best {
            let j = choose|j: int|
                0 <= j < rest.len() && before == (x, #[trigger] rest[j], d(x, rest[j])) && forall|l: int|
                    0 <= l < j ==> before.2.spec_lt(d(x, #[trigger] rest[l]));
            assert(b[j] == rest[j]);
            assert forall|l: int| 0 <= l < j implies c.2.spec_lt(d(x, #[trigger] b[l])) by {
                assert(before.2.spec_lt(d(x, rest[l])));
            }
        }
    }
}

proof fn lemma_closest(d: spec_fn(u32, u32) -> Scalar, a: Seq<u32>, b: Seq<u32>, best: (u32, u32, Scalar))
    requires
        !best.2.spec_is_nan(),
        forall|p: u32, q: u32| !(#[trigger] d(p, q)).spec_is_nan(),
    ensures
        ({
            let c = closest(d, a, b, best);
            &&& !c.2.spec_is_nan()
            &&& forall|x: int, y: int| 0 <= x < a.len() && 0 <= y < b.len() ==> c.2.spec_le(d(#[trigger] a[x], #[trigger] b[y]))
            &&& c == best || exists|i: int, j: int| #[trigger]
                stands_at(d, a, b, c, i, j) && c.2.spec_lt(best.2) && forall|x: int, y: int|
                    0 <= x < a.len() && 0 <= y < b.len() && (x < i || (x == i && y < j)) ==> c.2.spec_lt(
                        d(#[trigger] a[x], #[trigger] b[y]),
                    )
        }),
    decreases a.len(),
{
    if a.len() > 0 {
        let rest = a.drop_last();
        let n = a.len() - 1;
        lemma_closest(d, rest, b, best);
        let before = closest(d, rest, b, best);
        lemma_closest_from(d, a[n], b, before);
        let c = closest(d, a, b, best);
        assert(c == closest_from(d, a[n], b, before));
        assert forall|x: int, y: int| 0 <= x < a.len() && 0 <= y < b.len() implies c.2.spec_le(
            d(#[trigger] a[x], #[trigger] b[y]),
        ) by {
            if x < n {
                assert(before.2.spec_le(d(rest[x], b[y])));
            } else {
                assert(c.2.spec_le(d(a[n], b[y])));
            }
        }
        if c == before {
            if before != best {
                let (i, j) = choose|i: int, j: int| #[trigger]
                    stands_at(d, rest, b, before, i, j) && before.2.spec_lt(best.2) && forall|x: int, y: int|
                        0 <= x < rest.len() && 0 <= y < b.len() && (x < i || (x == i && y < j)) ==> before.2.spec_lt(
                            d(#[trigger] rest[x], #[trigger] b[y]),
                        );
                assert(a[i] == rest[i]);
                assert(stands_at(d, a, b, c, i, j));
                assert forall|x: int, y: int| 0 <= x < a.len() && 0 <= y < b.len() && (x < i || (x == i && y < j)) implies c.2.spec_lt(
                    d(#[trigger] a[x], #[trigger] b[y]),
                ) by {
                    assert(before.2.spec_lt(d(rest[x], b[y])));
                }
            }
        } else {
            let j = choose|j: int|
                0 <= j < b.len() && c == (a[n], #[trigger] b[j], d(a[n], b[j])) && forall|l: int|
                    0 <= l < j ==> c.2.spec_lt(d(a[n], #[trigger] b[l]));
            assert(stands_at(d, a, b, c, n, j));
            assert forall|x: int, y: int| 0 <= x < a.len() && 0 <= y < b.len() && (x < n || (x == n && y < j)) implies c.2.spec_lt(
                d(#[trigger] a[x], #[trigger] b[y]),
            ) by {
                if x < n {
                    assert(before.2.spec_le(d(rest[x], b[y])));
                } else {
                    assert(c.2.spec_lt(d(a[n], b[y])));
                }
            }
        }
    }
}

/// Of pairs that are as close, the first is taken: that of the earliest in the
/// first list, and there of the earliest in the second.
pub proof fn law_first_of_the_closest(d: spec_fn(u32, u32) -> Scalar, a: Seq<u32>, b: Seq<u32>, first: (u32, u32))
    requires
        a.len() > 0,
        b.len() > 0,
        forall|x: u32, y: u32| !(#[trigger] d(x, y)).spec_is_nan(),
        forall|x: u32, y: u32| (#[trigger] d(x, y)).spec_lt(Scalar { bits: 0x7f80_0000 }),
    ensures
        ({
            let c = closest(d, a, b, (first.0, first.1, Scalar { bits: 0x7f80_0000 }));
            exists|i: int, j: int|
                #![trigger a[i], b[j]]
                {
                    &&& 0 <= i < a.len() && 0 <= j < b.len()
                    &&& c.0 == a[i] && c.1 == b[j] && c.2 == d(a[i], b[j])
                    &&& forall|x: int, y: int|
                        0 <= x < a.len() && 0 <= y < b.len() && (x < i || (x == i && y < j)) ==> c.2.spec_lt(
                            d(#[trigger] a[x], #[trigger] b[y]),
                        )
                }
        }),
{
    let best = (first.0, first.1, Scalar { bits: 0x7f80_0000 });
    lemma_closest(d, a, b, best);
    let c = closest(d, a, b, best);
    assert(c.2.spec_le(d(a[0], b[0])));
    assert(d(a[0], b[0]).spec_lt(best.2));
    assert(c != best);
    let (i, j) = choose|i: int, j: int| #[trigger]
        stands_at(d, a, b, c, i, j) && c.2.spec_lt(best.2) && forall|x: int, y: int|
            0 <= x < a.len() && 0 <= y < b.len() && (x < i || (x == i && y < j)) ==> c.2.spec_lt(
                d(#[trigger] a[x], #[trigger] b[y]),
            );
    assert(a[i] == a[i] && b[j] == b[j]);
}

} // verus!
