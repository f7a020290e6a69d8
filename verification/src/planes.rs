//! Support planes: broad planes of the mesh, and the details near them.

use crate::order::{is_kept_descending, no_nan, rank_kept_descending};
use crate::prim::Vec3;
use crate::scalar::{law_signs, Scalar};
use vstd::prelude::*;

verus! {

/// The bits of a ten-thousandth: coordinates of a normal up to it are taken
/// for zero.
pub const NEGLIGIBLE: u32 = 0x38d1_b717;

/// The coordinate is not taken for zero.
pub open spec fn has_share(x: Scalar) -> bool {
    (Scalar { bits: NEGLIGIBLE }).spec_lt(x.spec_abs())
}

/// The normal points against the first axis that it has a share of.
pub open spec fn points_back(n: Vec3) -> bool {
    let zero = Scalar { bits: 0 };
    if has_share(n[0]) {
        n[0].spec_lt(zero)
    } else if has_share(n[1]) {
        n[1].spec_lt(zero)
    } else {
        n[2].spec_lt(zero)
    }
}

pub open spec fn opposite(n: Vec3) -> Vec3 {
    [n[0].spec_neg(), n[1].spec_neg(), n[2].spec_neg()]
}

/// The normal of a plane whichever way its face is wound: the one of the two
/// that does not point back.
pub fn canonical_normal(n: Vec3) -> (c: Vec3)
    ensures
        c == (if points_back(n) {
            opposite(n)
        } else {
            n
        }),
{
    let limit: Scalar = Scalar { bits: NEGLIGIBLE };
    let back: bool = if n[0].abs().gt(limit) {
        n[0].lt(Scalar::zero())
    } else if n[1].abs().gt(limit) {
        n[1].lt(Scalar::zero())
    } else {
        n[2].lt(Scalar::zero())
    };
    if back {
        [n[0].neg(), n[1].neg(), n[2].neg()]
    } else {
        n
    }
}

/// Of a normal and its opposite exactly one points back, unless the coordinate
/// that decides is zero or not a number.
pub proof fn law_one_of_two_normals_points_back(n: Vec3)
    requires
        has_share(n[0]) || has_share(n[1]) || (!n[2].spec_is_nan() && n[2].spec_key() != 0),
    ensures
        points_back(n) != points_back(opposite(n)),
{
    law_signs(n[0]);
    law_signs(n[1]);
    law_signs(n[2]);
    assert(opposite(n)[0].spec_abs() == n[0].spec_abs());
    assert(opposite(n)[1].spec_abs() == n[1].spec_abs());
}

/// Which plane a face joins when each plane in turn takes it over if it is at
/// least as parallel as the best so far and near enough. `start` is how
/// parallel a plane has to be at least.
pub open spec fn plane_joined(start: Scalar, dots: Seq<Scalar>, gaps: Seq<Scalar>, tol: Scalar) -> Option<int>
    decreases dots.len(),
{
    if dots.len() == 0 {
        None
    } else {
        let best = plane_joined(start, dots.drop_last(), gaps.drop_last(), tol);
        let to_reach = match best {
            Some(i) => dots[i],
            None => start,
        };
        if to_reach.spec_le(dots.last()) && gaps.last().spec_le(tol) {
            Some(dots.len() - 1)
        } else {
            best
        }
    }
}

/// Among numbers, the plane joined is near and parallel enough, no other such
/// plane is more parallel, and of those that are as parallel it is the last.
pub proof fn law_plane_joined_is_most_parallel(start: Scalar, dots: Seq<Scalar>, gaps: Seq<Scalar>, tol: Scalar)
    requires
        dots.len() == gaps.len(),
        no_nan(dots),
        !start.spec_is_nan(),
    ensures
        match plane_joined(start, dots, gaps, tol) {
            Some(i) => {
                &&& 0 <= i < dots.len()
                &&& start.spec_le(dots[i])
                &&& gaps[i].spec_le(tol)
                &&& forall|j: int|
                    0 <= j < dots.len() && start.spec_le(dots[j]) && gaps[j].spec_le(tol) ==> (
                    #[trigger] dots[j]).spec_le(dots[i])
                &&& forall|j: int|
                    i < j < dots.len() && start.spec_le(dots[j]) && gaps[j].spec_le(tol) ==> (
                    #[trigger] dots[j]).spec_lt(dots[i])
            },
            None => forall|j: int| 0 <= j < dots.len() && gaps[j].spec_le(tol) ==> (#[trigger] dots[j]).spec_lt(start),
        },
    decreases dots.len(),
{
    if dots.len() > 0 {
        let (d0, g0) = (dots.drop_last(), gaps.drop_last());
        assert(no_nan(d0)) by {
            assert forall|j: int| 0 <= j < d0.len() implies !(#[trigger] d0[j]).spec_is_nan() by {
                assert(!dots[j].spec_is_nan());
            }
        }
        law_plane_joined_is_most_parallel(start, d0, g0, tol);
        let n = dots.len() - 1;
        assert(!dots[n].spec_is_nan());
        assert(forall|j: int| 0 <= j < n ==> #[trigger] d0[j] == dots[j]);
        assert(forall|j: int| 0 <= j < n ==> #[trigger] g0[j] == gaps[j]);
        let best = plane_joined(start, d0, g0, tol);
        if let Some(i) = best {
            assert(d0[i] == dots[i] && g0[i] == gaps[i]);
            assert(!dots[i].spec_is_nan());
            assert forall|j: int| 0 <= j < n && start.spec_le(dots[j]) && gaps[j].spec_le(tol) implies (
            #[trigger] dots[j]).spec_le(dots[i]) by {
                assert(d0[j].spec_le(d0[i]) && g0[j] == gaps[j]);
            }
            assert forall|j: int| i < j < n && start.spec_le(dots[j]) && gaps[j].spec_le(tol) implies (
            #[trigger] dots[j]).spec_lt(dots[i]) by {
                assert(d0[j].spec_lt(d0[i]) && g0[j] == gaps[j]);
            }
        } else {
            assert forall|j: int| 0 <= j < n && gaps[j].spec_le(tol) implies (#[trigger] dots[j]).spec_lt(start) by {
                assert(d0[j].spec_lt(start) && g0[j] == gaps[j]);
            }
        }
        assert(dots.last() == dots[n] && gaps.last() == gaps[n]);
    }
}

/// The plane that a face joins, if any.
pub fn join_plane(start: Scalar, dots: &Vec<Scalar>, gaps: &Vec<Scalar>, tol: Scalar) -> (best: Option<usize>)
    requires
        dots@.len() == gaps@.len(),
    ensures
        match best {
            Some(i) => plane_joined(start, dots@, gaps@, tol) == Some(i as int) && i < dots@.len(),
            None => plane_joined(start, dots@, gaps@, tol) is None,
        },
{
    let mut best: Option<usize> = None;
    let mut to_reach: Scalar = start;
    let mut i: usize = 0;
    assert(dots@.subrange(0, 0) =~= Seq::empty());
    while i < dots.len()
        invariant
            dots@.len() == gaps@.len(),
            i <= dots@.len(),
            match best {
                Some(k) => plane_joined(start, dots@.subrange(0, i as int), gaps@.subrange(0, i as int), tol) == Some(
                    k as int,
                ) && k < i && to_reach == dots@[k as int],
                None => plane_joined(start, dots@.subrange(0, i as int), gaps@.subrange(0, i as int), tol) is None
                    && to_reach == start,
            },
        decreases dots@.len() - i,
    {
        proof {
            let (d, g) = (dots@.subrange(0, i + 1), gaps@.subrange(0, i + 1));
            assert(d.drop_last() =~= dots@.subrange(0, i as int));
            assert(g.drop_last() =~= gaps@.subrange(0, i as int));
            assert(d.last() == dots@[i as int] && g.last() == gaps@[i as int]);
        }
        if dots[i].ge(to_reach) && gaps[i].le(tol) {
            to_reach = dots[i];
            best = Some(i);
        }
        i += 1;
    }
    assert(dots@.subrange(0, i as int) =~= dots@ && gaps@.subrange(0, i as int) =~= gaps@);
    best
}

/// How many faces have joined plane `c`.
pub open spec fn joined_count(face_plane: Seq<Option<usize>>, c: usize) -> nat
    decreases face_plane.len(),
{
    if face_plane.len() == 0 {
        0
    } else {
        joined_count(face_plane.drop_last(), c) + (if face_plane.last() == Some(c) { 1nat } else { 0nat })
    }
}

/// The planes found so far: which plane each face has joined, and how many
/// faces each plane has.
pub struct Planes {
    face_plane: Vec<Option<usize>>,
    counts: Vec<usize>,
}

/// What [`Planes`] stands for.
pub struct PlanesView {
    pub face_plane: Seq<Option<usize>>,
    pub planes: nat,
}

impl View for Planes {
    type V = PlanesView;

    closed spec fn view(&self) -> PlanesView {
        PlanesView { face_plane: self.face_plane@, planes: self.counts@.len() }
    }
}

proof fn lemma_joined_update(s: Seq<Option<usize>>, f: int, c: usize, d: usize)
    requires
        0 <= f < s.len(),
        s[f] is None,
    ensures
        joined_count(s.update(f, Some(c)), d) == joined_count(s, d) + (if c == d { 1nat } else { 0nat }),
    decreases s.len(),
{
    let t = s.update(f, Some(c));
    if f == s.len() - 1 {
        assert(t.drop_last() =~= s.drop_last());
    } else {
        assert(t.drop_last() =~= s.drop_last().update(f, Some(c)));
        lemma_joined_update(s.drop_last(), f, c, d);
    }
}

proof fn lemma_joined_bound(s: Seq<Option<usize>>, d: usize)
    ensures
        joined_count(s, d) <= s.len(),
    decreases s.len(),
{
    if s.len() > 0 {
        lemma_joined_bound(s.drop_last(), d);
    }
}

proof fn lemma_joined_none(s: Seq<Option<usize>>, d: usize)
    requires
        forall|f: int| 0 <= f < s.len() ==> #[trigger] s[f] != Some(d),
    ensures
        joined_count(s, d) == 0,
    decreases s.len(),
{
    if s.len() > 0 {
        lemma_joined_none(s.drop_last(), d);
    }
}

impl Planes {
    pub closed spec fn wf(&self) -> bool {
        &&& forall|f: int|
            0 <= f < self.face_plane@.len() ==> (#[trigger] self.face_plane@[f] matches Some(c) ==> c < self.counts@.len())
        &&& forall|c: usize|
            c < self.counts@.len() ==> #[trigger] self.counts@[c as int] == joined_count(self.face_plane@, c)
        &&& self.counts@.len() <= self.face_plane@.len()
        &&& forall|c: usize| c < self.counts@.len() ==> #[trigger] self.counts@[c as int] > 0
    }

    /// No face has joined a plane.
    pub fn new(nf: usize) -> (res: Self)
        ensures
            res.wf(),
            res@.planes == 0,
            res@.face_plane == Seq::new(nf as nat, |f: int| None::<usize>),
    {
        let mut face_plane: Vec<Option<usize>> = Vec::new();
        let mut i: usize = 0;
        while i < nf
            invariant
                i <= nf,
                face_plane@.len() == i,
                forall|f: int| 0 <= f < i ==> #[trigger] face_plane@[f] is None,
            decreases nf - i,
        {
            face_plane.push(None);
            i += 1;
        }
        let res = Planes { face_plane, counts: Vec::new() };
        assert(res@.face_plane =~= Seq::new(nf as nat, |f: int| None::<usize>));
        res
    }

    /// Face `f` joins the plane given, or opens a new one. Returns the plane.
    pub fn join(&mut self, f: usize, plane: Option<usize>) -> (c: usize)
        requires
            old(self).wf(),
            f < old(self)@.face_plane.len(),
            old(self)@.face_plane[f as int] is None,
            plane matches Some(c) ==> c < old(self)@.planes,
        ensures
            final(self).wf(),
            c == (match plane {
                Some(p) => p as int,
                None => old(self)@.planes as int,
            }),
            final(self)@ == (PlanesView {
                face_plane: old(self)@.face_plane.update(f as int, Some(c)),
                planes: if plane is Some {
                    old(self)@.planes
                } else {
                    old(self)@.planes + 1
                },
            }),
    {
        let ghost s = self.face_plane@;
        let ghost counts0 = self.counts@;
        let c: usize = match plane {
            Some(p) => {
                proof {
                    lemma_joined_update(s, f as int, p, p);
                    lemma_joined_bound(s.update(f as int, Some(p)), p);
                    assert(self.face_plane@.len() == self.face_plane.len());
                    assert(self.counts@[p as int] == joined_count(s, p));
                }
                let n: usize = self.face_plane.len();
                assert(self.counts@[p as int] + 1 <= n);
                let more: usize = self.counts[p] + 1;
                self.counts.set(p, more);
                p
            },
            None => {
                let p: usize = self.counts.len();
                proof {
                    lemma_joined_none(s, p);
                }
                self.counts.push(1);
                p
            },
        };
        self.face_plane.set(f, Some(c));
        proof {
            assert forall|d: usize| d < self.counts@.len() implies #[trigger] self.counts@[d as int] == joined_count(
                self.face_plane@,
                d,
            ) by {
                lemma_joined_update(s, f as int, c, d);
                if d < counts0.len() {
                    assert(counts0[d as int] == joined_count(s, d));
                }
            }
            assert forall|d: usize| d < self.counts@.len() implies #[trigger] self.counts@[d as int] > 0 by {
                if d < counts0.len() {
                    assert(counts0[d as int] > 0);
                }
            }
            assert(self.counts.len() == self.counts@.len());
            self.lemma_few_planes();
        }
        c
    }

    /// Every plane has a face of its own.
    proof fn lemma_few_planes(&self)
        requires
            forall|c: usize| c < self.counts@.len() ==> #[trigger] self.counts@[c as int] > 0,
            forall|c: usize|
                c < self.counts@.len() ==> #[trigger] self.counts@[c as int] == joined_count(self.face_plane@, c),
            self.counts@.len() <= usize::MAX,
        ensures
            self.counts@.len() <= self.face_plane@.len(),
    {
        let m = self.counts@.len();
        assert forall|c: usize| c < m implies joined_count(self.face_plane@, c) > 0 by {
            assert(self.counts@[c as int] > 0);
        }
        lemma_planes_bounded(self.face_plane@, m);
    }

    /// How many faces plane `c` has.
    pub fn count(&self, c: usize) -> (n: usize)
        requires
            self.wf(),
            c < self@.planes,
        ensures
            n == joined_count(self@.face_plane, c),
    {
        self.counts[c]
    }

    /// How many planes there are.
    pub fn len(&self) -> (n: usize)
        requires
            self.wf(),
        ensures
            n == self@.planes,
    {
        self.counts.len()
    }

    /// The plane of face `f`.
    pub fn plane_of(&self, f: usize) -> (c: Option<usize>)
        requires
            self.wf(),
            f < self@.face_plane.len(),
        ensures
            c == self@.face_plane[f as int],
            c matches Some(p) ==> p < self@.planes,
    {
        self.face_plane[f]
    }
}

/// If each of the first `m` planes has a face, there are at least `m` faces.
proof fn lemma_planes_bounded(s: Seq<Option<usize>>, m: nat)
    requires
        m <= usize::MAX,
        forall|c: usize| c < m ==> joined_count(s, c) > 0,
    ensures
        m <= s.len(),
    decreases m,
{
    if m > 0 {
        let last = (m - 1) as usize;
        let t = strip_plane(s, last);
        assert forall|c: usize| c < m - 1 implies joined_count(t, c) > 0 by {
            lemma_strip(s, last, c);
        }
        lemma_strip(s, last, last);
        lemma_planes_bounded(t, (m - 1) as nat);
    }
}

/// The faces that have not joined plane `c`.
spec fn strip_plane(s: Seq<Option<usize>>, c: usize) -> Seq<Option<usize>>
    decreases s.len(),
{
    if s.len() == 0 {
        s
    } else if s.last() == Some(c) {
        strip_plane(s.drop_last(), c)
    } else {
        strip_plane(s.drop_last(), c).push(s.last())
    }
}

proof fn lemma_strip(s: Seq<Option<usize>>, c: usize, d: usize)
    ensures
        d != c ==> joined_count(strip_plane(s, c), d) == joined_count(s, d),
        strip_plane(s, c).len() + joined_count(s, c) == s.len(),
    decreases s.len(),
{
    if s.len() > 0 {
        lemma_strip(s.drop_last(), c, d);
        if s.last() != Some(c) {
            let t = strip_plane(s.drop_last(), c).push(s.last());
            assert(t.drop_last() =~= strip_plane(s.drop_last(), c));
        }
    }
}

/// A plane of this area and with this many faces supports.
pub open spec fn supports(area: Scalar, count: usize, min_area: Scalar) -> bool {
    min_area.spec_le(area) && count >= 2
}

/// Which planes support.
pub open spec fn supporting(areas: Seq<Scalar>, counts: Seq<usize>, min_area: Scalar) -> Seq<bool> {
    Seq::new(areas.len(), |c: int| supports(areas[c], counts[c], min_area))
}

/// The planes that support: large enough, with at least two faces; the largest
/// first, equal ones in order.
pub fn support_order(areas: &Vec<Scalar>, counts: &Vec<usize>, min_area: Scalar) -> (out: Vec<usize>)
    requires
        areas@.len() == counts@.len(),
    ensures
        is_kept_descending(areas@, supporting(areas@, counts@, min_area), out@),
{
    let mut keep: Vec<bool> = Vec::new();
    let mut i: usize = 0;
    while i < areas.len()
        invariant
            areas@.len() == counts@.len(),
            i <= areas@.len(),
            keep@.len() == i,
            forall|k: int| 0 <= k < i ==> #[trigger] keep@[k] == supports(areas@[k], counts@[k], min_area),
        decreases areas@.len() - i,
    {
        keep.push(areas[i].ge(min_area) && counts[i] >= 2);
        i += 1;
    }
    assert(keep@ =~= supporting(areas@, counts@, min_area));
    rank_kept_descending(areas, &keep)
}

/// Why a face counts as a detail of a plane.
#[derive(Clone, Copy, Debug, PartialEq, Eq, Structural)]
pub enum DetailReason {
    Parallel,
    Small,
}

/// Seen from a plane: the face is near it, and parallel to it or small.
pub open spec fn is_detail_of(dist: Scalar, cos: Scalar, small: bool, near_tol: Scalar, parallel_cos: Scalar) -> bool {
    !near_tol.spec_lt(dist) && (parallel_cos.spec_le(cos) || small)
}

/// The first of the support planes of which a face is a detail, and why; a
/// face that is parallel to it is so for that reason.
pub fn detail_of(
    dists: &Vec<Scalar>,
    cosines: &Vec<Scalar>,
    size: Scalar,
    near_tol: Scalar,
    parallel_cos: Scalar,
    detail_size: Scalar,
) -> (res: Option<(usize, DetailReason)>)
    requires
        dists@.len() == cosines@.len(),
    ensures
        ({
            let small = size.spec_le(detail_size);
            match res {
                Some((k, reason)) => {
                    &&& k < dists@.len()
                    &&& is_detail_of(dists@[k as int], cosines@[k as int], small, near_tol, parallel_cos)
                    &&& reason == (if parallel_cos.spec_le(cosines@[k as int]) {
                        DetailReason::Parallel
                    } else {
                        DetailReason::Small
                    })
                    &&& forall|j: int|
                        0 <= j < k ==> !is_detail_of(#[trigger] dists@[j], cosines@[j], small, near_tol, parallel_cos)
                },
                None => forall|j: int|
                    0 <= j < dists@.len() ==> !is_detail_of(
                        #[trigger] dists@[j],
                        cosines@[j],
                        small,
                        near_tol,
                        parallel_cos,
                    ),
            }
        }),
{
    let small: bool = size.le(detail_size);
    let mut k: usize = 0;
    while k < dists.len()
        invariant
            dists@.len() == cosines@.len(),
            small == size.spec_le(detail_size),
            k <= dists@.len(),
            forall|j: int|
                0 <= j < k ==> !is_detail_of(#[trigger] dists@[j], cosines@[j], small, near_tol, parallel_cos),
        decreases dists@.len() - k,
    {
        if !dists[k].gt(near_tol) {
            if cosines[k].ge(parallel_cos) {
                return Some((k, DetailReason::Parallel));
            }
            if small {
                return Some((k, DetailReason::Small));
            }
        }
        k += 1;
    }
    None
}

/// Two masks are joined: a face counts where both say so. Where there was
/// none, the new one holds.
pub fn combine_fit_mask(base: Option<Vec<bool>>, next: Vec<bool>) -> (mask: Vec<bool>)
    ensures
        match base {
            None => mask@ == next@,
            Some(b) => mask@.len() == b@.len() && forall|i: int|
                0 <= i < b@.len() ==> #[trigger] mask@[i] == (b@[i] && (i < next@.len() ==> next@[i])),
        },
{
    match base {
        None => next,
        Some(mut b) => {
            let ghost b0 = b@;
            let mut i: usize = 0;
            while i < b.len() && i < next.len()
                invariant
                    b@.len() == b0.len(),
                    i <= b0.len(),
                    i <= next@.len(),
                    forall|k: int| 0 <= k < i ==> #[trigger] b@[k] == (b0[k] && next@[k]),
                    forall|k: int| i <= k < b0.len() ==> #[trigger] b@[k] == b0[k],
                decreases b0.len() - i,
            {
                let both: bool = b[i] && next[i];
                b.set(i, both);
                i += 1;
            }
            b
        },
    }
}

/// The faces that are large enough to count for fitting, and how many are
/// not.
pub fn size_mask(sizes: &Vec<Scalar>, threshold: Scalar) -> (res: (Vec<bool>, usize))
    ensures
        res.0@.len() == sizes@.len(),
        forall|i: int| 0 <= i < sizes@.len() ==> #[trigger] res.0@[i] == threshold.spec_le(sizes@[i]),
        res.1 == count_false(res.0@),
{
    let mut mask: Vec<bool> = Vec::new();
    let mut detail: usize = 0;
    let mut i: usize = 0;
    while i < sizes.len()
        invariant
            i <= sizes@.len(),
            mask@.len() == i,
            detail <= i,
            detail == count_false(mask@),
            forall|k: int| 0 <= k < i ==> #[trigger] mask@[k] == threshold.spec_le(sizes@[k]),
        decreases sizes@.len() - i,
    {
        let support: bool = sizes[i].ge(threshold);
        let ghost before_mask = mask@;
        mask.push(support);
        assert(mask@.drop_last() =~= before_mask);
        if !support {
            detail += 1;
        }
        i += 1;
    }
    (mask, detail)
}

/// How many entries are false.
pub open spec fn count_false(s: Seq<bool>) -> nat
    decreases s.len(),
{
    if s.len() == 0 {
        0
    } else {
        count_false(s.drop_last()) + (if s.last() { 0nat } else { 1nat })
    }
}

/// Whether a face has joined one of the support planes.
pub fn is_supported(plane: Option<usize>, support: &Vec<usize>) -> (b: bool)
    ensures
        b == (plane matches Some(c) && support@.contains(c)),
{
    match plane {
        None => false,
        Some(c) => {
            let mut k: usize = 0;
            while k < support.len()
                invariant
                    plane == Some(c),
                    k <= support@.len(),
                    forall|j: int| 0 <= j < k ==> support@[j] != c,
                decreases support@.len() - k,
            {
                if support[k] == c {
                    return true;
                }
                k += 1;
            }
            false
        },
    }
}

/// How many of the verdicts are for the given reason.
pub open spec fn count_reason(verdicts: Seq<Option<DetailReason>>, reason: DetailReason) -> nat
    decreases verdicts.len(),
{
    if verdicts.len() == 0 {
        0
    } else {
        count_reason(verdicts.drop_last(), reason) + (if verdicts.last() == Some(reason) { 1nat } else { 0nat })
    }
}

/// The faces that count for fitting, those that are no details; and how many
/// are left out as parallel and as small.
pub fn mask_details(verdicts: &Vec<Option<DetailReason>>) -> (res: (Vec<bool>, usize, usize))
    ensures
        res.0@.len() == verdicts@.len(),
        forall|f: int| 0 <= f < verdicts@.len() ==> #[trigger] res.0@[f] == (verdicts@[f] is None),
        res.1 == count_reason(verdicts@, DetailReason::Parallel),
        res.2 == count_reason(verdicts@, DetailReason::Small),
{
    let mut mask: Vec<bool> = Vec::new();
    let mut parallel: usize = 0;
    let mut small: usize = 0;
    let mut f: usize = 0;
    assert(verdicts@.subrange(0, 0) =~= Seq::empty());
    while f < verdicts.len()
        invariant
            f <= verdicts@.len(),
            mask@.len() == f,
            forall|k: int| 0 <= k < f ==> #[trigger] mask@[k] == (verdicts@[k] is None),
            parallel <= f,
            small <= f,
            parallel == count_reason(verdicts@.subrange(0, f as int), DetailReason::Parallel),
            small == count_reason(verdicts@.subrange(0, f as int), DetailReason::Small),
        decreases verdicts@.len() - f,
    {
        proof {
            let longer = verdicts@.subrange(0, f + 1);
            assert(longer.drop_last() =~= verdicts@.subrange(0, f as int));
            assert(longer.last() == verdicts@[f as int]);
        }
        match verdicts[f] {
            None => {
                mask.push(true);
            },
            Some(DetailReason::Parallel) => {
                mask.push(false);
                parallel += 1;
            },
            Some(DetailReason::Small) => {
                mask.push(false);
                small += 1;
            },
        }
        f += 1;
    }
    assert(verdicts@.subrange(0, f as int) =~= verdicts@);
    (mask, parallel, small)
}

/// A normal and its opposite are made one: the first component that is not
/// negligible is then positive.
pub proof fn law_canonical_normal_points_ahead(n: Vec3, k: int)
    requires
        0 <= k < 3,
    ensures
        ({
            let c = if points_back(n) {
                opposite(n)
            } else {
                n
            };
            let zero = Scalar { bits: 0 };
            &&& has_share(n[0]) ==> zero.spec_lt(c[0])
            &&& !has_share(n[0]) && has_share(n[1]) ==> zero.spec_lt(c[1])
            &&& !has_share(n[0]) && !has_share(n[1]) && !n[2].spec_is_nan() ==> zero.spec_le(c[2])
            &&& c[k].spec_key() == n[k].spec_key() || c[k].spec_key() == -n[k].spec_key()
        }),
        opposite(n)[k].spec_key() == -n[k].spec_key(),
{
    law_signs(n[0]);
    law_signs(n[1]);
    law_signs(n[2]);
}

/// What is negligible is so on both sides of zero, and what is nearer to zero
/// is negligible too.
pub proof fn law_negligible_is_near_zero(x: Scalar, y: Scalar)
    ensures
        !has_share(Scalar { bits: 0 }),
        has_share(x) == has_share(x.spec_neg()),
        has_share(x) && x.spec_abs().spec_le(y.spec_abs()) ==> has_share(y),
        has_share(Scalar { bits: 0x3a83_126f }),
        !has_share(Scalar { bits: 0x3727_c5ac }),
{
}

/// A face more counts for the plane that it joined and for no other.
pub proof fn law_face_counts_for_its_plane(s: Seq<Option<usize>>, p: Option<usize>, c: usize)
    ensures
        joined_count(s.push(p), c) == joined_count(s, c) + (if p == Some(c) {
            1int
        } else {
            0int
        }),
        joined_count(Seq::empty(), c) == 0,
{
    assert(s.push(p).drop_last() =~= s);
}

/// A plane gives support where its faces are two or more and large enough
/// together; the supporting planes are gone through from the largest down.
pub proof fn law_supporting_planes(
    areas: Seq<Scalar>,
    counts: Seq<usize>,
    min_area: Scalar,
    out: Seq<usize>,
    c: usize,
    i: int,
    j: int,
)
    requires
        areas.len() == counts.len(),
        no_nan(areas),
        is_kept_descending(areas, supporting(areas, counts, min_area), out),
    ensures
        out.contains(c) <==> c < areas.len() && !areas[c as int].spec_lt(min_area) && !min_area.spec_is_nan()
            && counts[c as int] > 1,
        0 <= i < j < out.len() ==> areas[out[j] as int].spec_le(areas[out[i] as int]),
{
    if 0 <= i < j < out.len() {
        crate::order::law_kept_are_sorted_down(areas, supporting(areas, counts, min_area), out, i, j);
    }
}

/// A face is a detail of a plane that it is near to, where it is parallel to it
/// or small; it is none of one that it is far from.
pub proof fn law_details_are_near(dist: Scalar, cos: Scalar, small: bool, near_tol: Scalar, parallel_cos: Scalar)
    ensures
        near_tol.spec_lt(dist) ==> !is_detail_of(dist, cos, small, near_tol, parallel_cos),
        dist.spec_le(near_tol) && small ==> is_detail_of(dist, cos, small, near_tol, parallel_cos),
        dist.spec_le(near_tol) && parallel_cos.spec_le(cos) ==> is_detail_of(dist, cos, small, near_tol, parallel_cos),
        cos.spec_lt(parallel_cos) && !small ==> !is_detail_of(dist, cos, small, near_tol, parallel_cos),
{
}

/// What is left out is counted once, and for its own reason.
pub proof fn law_left_out_are_counted(
    s: Seq<bool>,
    b: bool,
    verdicts: Seq<Option<DetailReason>>,
    v: Option<DetailReason>,
    reason: DetailReason,
)
    ensures
        count_false(s.push(b)) == count_false(s) + (if b {
            0int
        } else {
            1int
        }),
        count_false(Seq::empty()) == 0,
        count_reason(verdicts.push(v), reason) == count_reason(verdicts, reason) + (if v == Some(reason) {
            1int
        } else {
            0int
        }),
        count_reason(Seq::empty(), reason) == 0,
{
    assert(s.push(b).drop_last() =~= s);
    assert(verdicts.push(v).drop_last() =~= verdicts);
}

} // verus!
