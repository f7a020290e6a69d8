//! Repairing slabs that stick out of the mesh, and looking at single
//! primitives.

use crate::faces::{FaceRings, RingsView};
use crate::order::{is_kept_descending, no_nan, rank_kept_descending};
use crate::prim::{PrimKind, Vec3};
use crate::primitive::{Fit, PrimView, Primitive, all_wf, views};
use crate::scalar::Scalar;
use crate::sets::{is_set, lemma_push_contains};
use vstd::prelude::*;

verus! {

/// The score says that something is wrong: it is above one.
pub open spec fn is_bad(score: Scalar) -> bool {
    (Scalar { bits: 0x3f80_0000 }).spec_lt(score)
}

/// Which scores are bad.
pub open spec fn bad_ones(scores: Seq<Scalar>) -> Seq<bool> {
    Seq::new(scores.len(), |i: int| is_bad(scores[i]))
}

/// The positions of the scores above one, from the greatest down, equal ones
/// in order.
pub fn worst_first(scores: &Vec<Scalar>) -> (out: Vec<usize>)
    ensures
        is_kept_descending(scores@, bad_ones(scores@), out@),
{
    let mut keep: Vec<bool> = Vec::new();
    let mut i: usize = 0;
    while i < scores.len()
        invariant
            i <= scores@.len(),
            keep@.len() == i,
            forall|k: int| 0 <= k < i ==> #[trigger] keep@[k] == is_bad(scores@[k]),
        decreases scores@.len() - i,
    {
        keep.push(scores[i].gt(Scalar::one()));
        i += 1;
    }
    assert(keep@ =~= bad_ones(scores@));
    rank_kept_descending(scores, &keep)
}

/// The live primitives of the mesh that are slabs and have between `fewest`
/// and `most` faces, in order.
pub fn repair_candidates(prims: &Vec<Primitive>, nf: usize, fewest: u32, most: u32, slab: &Vec<bool>) -> (list: Vec<u32>)
    requires
        slab@.len() == prims@.len(),
        prims@.len() <= u32::MAX,
    ensures
        is_set(list@),
        forall|i: u32| #[trigger]
            list@.contains(i) <==> i < nf && i < prims@.len() && prims@[i as int].alive && fewest <= prims@[i as int].face_count
                <= most && slab@[i as int],
{
    let mut list: Vec<u32> = Vec::new();
    let mut i: usize = 0;
    while i < prims.len() && i < nf
        invariant
            slab@.len() == prims@.len(),
            prims@.len() <= u32::MAX,
            i <= prims@.len(),
            i <= nf,
            is_set(list@),
            forall|k: int| 0 <= k < list@.len() ==> (#[trigger] list@[k]) < i,
            forall|x: u32| #[trigger]
                list@.contains(x) <==> x < i && prims@[x as int].alive && fewest <= prims@[x as int].face_count <= most
                    && slab@[x as int],
        decreases prims@.len() - i,
    {
        let ghost before_list = list@;
        if prims[i].alive && prims[i].face_count >= fewest && prims[i].face_count <= most && slab[i] {
            list.push(i as u32);
        }
        proof {
            assert forall|x: u32| #[trigger] list@.contains(x) <==> x < i + 1 && prims@[x as int].alive && fewest
                <= prims@[x as int].face_count <= most && slab@[x as int] by {
                lemma_push_contains(before_list, i as u32, x);
                assert(before_list.contains(x) <==> x < i && prims@[x as int].alive && fewest
                    <= prims@[x as int].face_count <= most && slab@[x as int]);
            }
        }
        i += 1;
    }
    list
}

/// A part of a slab, fitted on its own: it has no faces and stands on the
/// corners of its part.
#[derive(Clone, Copy)]
pub struct Piece {
    pub fit: Fit,
    pub corners: [Vec3; 3],
}

/// A primitive made of a piece.
pub open spec fn piece_view(p: Piece, version: int, neighbors: Set<u32>) -> PrimView {
    PrimView {
        alive: true,
        version,
        q: p.fit.q,
        prim: p.fit.prim,
        volume: p.fit.volume,
        weighted_volume: p.fit.weighted_volume,
        face_count: 0,
        vertices: Seq::empty(),
        fit_vertices: Seq::empty(),
        proxies: p.corners@,
        neighbors,
    }
}

fn primitive_of(p: &Piece, version: u64, neighbors: Vec<u32>) -> (res: Primitive)
    requires
        is_set(neighbors@),
    ensures
        res.wf(),
        res@ == piece_view(*p, version as int, Set::new(|x: u32| neighbors@.contains(x))),
{
    let mut corners: Vec<Vec3> = Vec::new();
    corners.push(p.corners[0]);
    corners.push(p.corners[1]);
    corners.push(p.corners[2]);
    assert(corners@ =~= p.corners@);
    Primitive {
        alive: true,
        version,
        q: p.fit.q,
        prim: p.fit.prim,
        volume: p.fit.volume,
        weighted_volume: p.fit.weighted_volume,
        face_count: 0,
        vertex_indices: Vec::new(),
        fit_vertex_indices: Vec::new(),
        fit_proxy_points: corners,
        neighbors,
    }
}

/// Puts pieces in the place of primitive `idx`: the first takes its slot and
/// its neighbours, the others are added at the end.
pub fn replace_with_pieces(prims: &mut Vec<Primitive>, idx: u32, pieces: &Vec<Piece>)
    requires
        idx < old(prims)@.len(),
        all_wf(old(prims)@),
        pieces@.len() > 0,
        old(prims)@[idx as int].version < u64::MAX,
    ensures
        all_wf(final(prims)@),
        final(prims)@.len() == old(prims)@.len() + pieces@.len() - 1,
        forall|k: int| 0 <= k < old(prims)@.len() && k != idx ==> final(prims)@[k] == old(prims)@[k],
        final(prims)@[idx as int]@ == piece_view(
            pieces@[0],
            old(prims)@[idx as int]@.version + 1,
            old(prims)@[idx as int]@.neighbors,
        ),
        forall|k: int|
            1 <= k < pieces@.len() ==> (#[trigger] final(prims)@[old(prims)@.len() + k - 1])@ == piece_view(
                pieces@[k],
                0,
                Set::empty(),
            ),
{
    let ghost start = prims@;
    let i: usize = idx as usize;
    let version: u64 = prims[i].version + 1;
    let neighbors = crate::sets::copy_list(&prims[i].neighbors);
    assert(start[idx as int].wf());
    let first = primitive_of(&pieces[0], version, neighbors);
    assert(first@.neighbors =~= start[idx as int]@.neighbors);
    prims.set(i, first);
    let mut k: usize = 1;
    while k < pieces.len()
        invariant
            1 <= k <= pieces@.len(),
            idx < start.len(),
            all_wf(prims@),
            prims@.len() == start.len() + k - 1,
            forall|x: int| 0 <= x < start.len() && x != idx ==> prims@[x] == start[x],
            prims@[idx as int] == first,
            forall|x: int|
                1 <= x < k ==> (#[trigger] prims@[start.len() + x - 1])@ == piece_view(pieces@[x], 0, Set::empty()),
        decreases pieces@.len() - k,
    {
        let none: Vec<u32> = Vec::new();
        let p = primitive_of(&pieces[k], 0, none);
        assert(p@.neighbors =~= Set::<u32>::empty());
        prims.push(p);
        k += 1;
    }
}

/// A way to cut a slab into pieces that has been measured.
#[derive(Clone, Copy, Debug, PartialEq, Eq, Structural)]
pub struct ScoredOption {
    /// The error score of the worst piece.
    pub max_score: Scalar,
    /// The pieces together are too large.
    pub oversized: bool,
    /// The worst piece is no substantial gain.
    pub no_gain: bool,
}

/// Where the points of a face lie that its pieces are made of, when its corners
/// lie at (0, 0), (6, 0) and (0, 6): the corners, the midpoints of the sides
/// from each corner to the next, and the center.
pub open spec fn place_of(point: usize) -> (int, int) {
    if point == 0 {
        (0, 0)
    } else if point == 1 {
        (6, 0)
    } else if point == 2 {
        (0, 6)
    } else if point == 3 {
        (3, 0)
    } else if point == 4 {
        (3, 3)
    } else if point == 5 {
        (0, 3)
    } else {
        (2, 2)
    }
}

/// Twice the area of a triangle of such points; negative where it is turned
/// the other way round.
#[verifier::opaque]
pub open spec fn turned_area(t: [usize; 3]) -> int {
    let (a, b, c) = (place_of(t[0]), place_of(t[1]), place_of(t[2]));
    (b.0 - a.0) * (c.1 - a.1) - (c.0 - a.0) * (b.1 - a.1)
}

pub open spec fn area_of_pieces(pieces: Seq<[usize; 3]>) -> int
    decreases pieces.len(),
{
    if pieces.len() == 0 {
        0
    } else {
        area_of_pieces(pieces.drop_last()) + turned_area(pieces.last())
    }
}

/// The face itself.
pub open spec fn whole_face() -> [usize; 3] {
    [0usize, 1usize, 2usize]
}

/// The four triangles between the corners and the midpoints.
pub open spec fn four_pieces() -> Seq<[usize; 3]> {
    seq![[0usize, 3usize, 5usize], [3usize, 1usize, 4usize], [5usize, 4usize, 2usize], [3usize, 4usize, 5usize]]
}

/// The ways to cut a face: in two from each corner, in three from the center,
/// in four.
pub open spec fn face_cuts() -> Seq<Seq<[usize; 3]>> {
    seq![
        seq![[2usize, 0usize, 3usize], [2usize, 3usize, 1usize]],
        seq![[0usize, 1usize, 4usize], [0usize, 4usize, 2usize]],
        seq![[1usize, 2usize, 5usize], [1usize, 5usize, 0usize]],
        seq![[0usize, 1usize, 6usize], [1usize, 2usize, 6usize], [2usize, 0usize, 6usize]],
        four_pieces(),
    ]
}

/// Cuts a face in four.
pub fn in_four() -> (pieces: Vec<[usize; 3]>)
    ensures
        pieces@ == four_pieces(),
{
    vec![[0, 3, 5], [3, 1, 4], [5, 4, 2], [3, 4, 5]]
}

/// The ways to cut the face of a slab that has only one: in two from each
/// corner, in three from the center, and in four.
pub fn one_face_cuts() -> (cuts: Vec<Vec<[usize; 3]>>)
    ensures
        cuts@.len() == face_cuts().len(),
        forall|k: int| 0 <= k < cuts@.len() ==> (#[trigger] cuts@[k])@ == face_cuts()[k],
{
    vec![
        vec![[2, 0, 3], [2, 3, 1]],
        vec![[0, 1, 4], [0, 4, 2]],
        vec![[1, 2, 5], [1, 5, 0]],
        vec![[0, 1, 6], [1, 2, 6], [2, 0, 6]],
        in_four(),
    ]
}

/// The area of a triangle by two of its sides.
proof fn lemma_turned_area(t: [usize; 3], ux: int, uy: int, vx: int, vy: int, area: int)
    requires
        place_of(t[1]).0 - place_of(t[0]).0 == ux,
        place_of(t[1]).1 - place_of(t[0]).1 == uy,
        place_of(t[2]).0 - place_of(t[0]).0 == vx,
        place_of(t[2]).1 - place_of(t[0]).1 == vy,
        ux * vy - vx * uy == area,
    ensures
        turned_area(t) == area,
{
    reveal(turned_area);
}

/// The pieces of every cut are turned as the face is, and fill it.
pub proof fn law_cuts_fill_the_face(k: int)
    requires
        0 <= k < face_cuts().len(),
    ensures
        forall|i: int| 0 <= i < face_cuts()[k].len() ==> turned_area(#[trigger] face_cuts()[k][i]) > 0,
        area_of_pieces(face_cuts()[k]) == turned_area(whole_face()),
{
    reveal_with_fuel(area_of_pieces, 5);
    let p = face_cuts()[k];
    let r = p.drop_last().drop_last();
    assert(area_of_pieces(p) == area_of_pieces(r) + turned_area(p[p.len() - 2]) + turned_area(p[p.len() - 1]));
    if p.len() == 2 {
        assert(area_of_pieces(r) == 0);
    } else if p.len() == 3 {
        assert(r.drop_last().len() == 0);
        assert(area_of_pieces(r) == turned_area(p[0]));
    } else {
        assert(r.drop_last().drop_last().len() == 0);
        assert(area_of_pieces(r) == turned_area(p[0]) + turned_area(p[1]));
    }
    lemma_turned_area(whole_face(), 6, 0, 0, 6, 36);
    if k == 0 {
        lemma_turned_area(p[0], 0, -6, 3, -6, 18);
        lemma_turned_area(p[1], 3, -6, 6, -6, 18);
    } else if k == 1 {
        lemma_turned_area(p[0], 6, 0, 3, 3, 18);
        lemma_turned_area(p[1], 3, 3, 0, 6, 18);
    } else if k == 2 {
        lemma_turned_area(p[0], -6, 6, -6, 3, 18);
        lemma_turned_area(p[1], -6, 3, -6, 0, 18);
    } else if k == 3 {
        lemma_turned_area(p[0], 6, 0, 2, 2, 12);
        lemma_turned_area(p[1], -6, 6, -4, 2, 12);
        lemma_turned_area(p[2], 0, -6, 2, -4, 12);
    } else {
        lemma_turned_area(p[0], 3, 0, 0, 3, 9);
        lemma_turned_area(p[1], 3, 0, 0, 3, 9);
        lemma_turned_area(p[2], 3, 0, 0, 3, 9);
        lemma_turned_area(p[3], 0, 3, -3, 3, 9);
    }
}

pub open spec fn is_allowed(o: ScoredOption) -> bool {
    !o.oversized && !o.no_gain
}

/// Which way is kept when the first allowed one is taken and each later
/// allowed one takes over if it scores less.
pub open spec fn option_kept(options: Seq<ScoredOption>) -> Option<int>
    decreases options.len(),
{
    if options.len() == 0 {
        None
    } else {
        let kept = option_kept(options.drop_last());
        let better = match kept {
            Some(i) => options.last().max_score.spec_lt(options[i].max_score),
            None => true,
        };
        if is_allowed(options.last()) && better {
            Some(options.len() - 1)
        } else {
            kept
        }
    }
}

/// The way to cut a slab, if one is worth it.
pub fn choose_option(options: &Vec<ScoredOption>) -> (kept: Option<usize>)
    ensures
        match kept {
            Some(i) => option_kept(options@) == Some(i as int) && i < options@.len() && is_allowed(options@[i as int]),
            None => option_kept(options@) is None,
        },
{
    let mut kept: Option<usize> = None;
    let mut i: usize = 0;
    assert(options@.subrange(0, 0) =~= Seq::empty());
    while i < options.len()
        invariant
            i <= options@.len(),
            match kept {
                Some(k) => option_kept(options@.subrange(0, i as int)) == Some(k as int) && k < i && is_allowed(
                    options@[k as int],
                ),
                None => option_kept(options@.subrange(0, i as int)) is None,
            },
        decreases options@.len() - i,
    {
        proof {
            let longer = options@.subrange(0, i + 1);
            assert(longer.drop_last() =~= options@.subrange(0, i as int));
            assert(longer.last() == options@[i as int]);
        }
        let o: ScoredOption = options[i];
        if !o.oversized && !o.no_gain {
            let better: bool = match kept {
                Some(k) => o.max_score.lt(options[k].max_score),
                None => true,
            };
            if better {
                kept = Some(i);
            }
        }
        i += 1;
    }
    assert(options@.subrange(0, i as int) =~= options@);
    kept
}

/// Some way to cut is chosen exactly where one is allowed.
pub proof fn law_option_chosen_iff_allowed(options: Seq<ScoredOption>)
    ensures
        option_kept(options) is Some <==> exists|i: int| 0 <= i < options.len() && is_allowed(#[trigger] options[i]),
    decreases options.len(),
{
    if options.len() > 0 {
        let rest = options.drop_last();
        law_option_chosen_iff_allowed(rest);
        let n = options.len() - 1;
        if exists|i: int| 0 <= i < rest.len() && is_allowed(#[trigger] rest[i]) {
            let i = choose|i: int| 0 <= i < rest.len() && is_allowed(#[trigger] rest[i]);
            assert(is_allowed(options[i]));
        }
        if exists|i: int| 0 <= i < options.len() && is_allowed(#[trigger] options[i]) {
            let i = choose|i: int| 0 <= i < options.len() && is_allowed(#[trigger] options[i]);
            if i < n {
                assert(is_allowed(rest[i]));
            } else {
                assert(is_allowed(options.last()));
            }
        }
    }
}

/// The way chosen is allowed, no allowed way scores less, and of those that
/// score the same it is the first.
pub proof fn law_option_is_first_least(options: Seq<ScoredOption>)
    requires
        forall|j: int| 0 <= j < options.len() ==> !(#[trigger] options[j]).max_score.spec_is_nan(),
    ensures
        option_kept(options) matches Some(i) ==> {
            &&& 0 <= i < options.len()
            &&& is_allowed(options[i])
            &&& forall|j: int|
                0 <= j < options.len() && is_allowed(#[trigger] options[j]) ==> options[i].max_score.spec_le(
                    options[j].max_score,
                )
            &&& forall|j: int|
                0 <= j < i && is_allowed(#[trigger] options[j]) ==> options[i].max_score.spec_lt(options[j].max_score)
        },
    decreases options.len(),
{
    if options.len() > 0 {
        let rest = options.drop_last();
        assert forall|j: int| 0 <= j < rest.len() implies !(#[trigger] rest[j]).max_score.spec_is_nan() by {
            assert(rest[j] == options[j]);
        }
        law_option_is_first_least(rest);
        law_option_chosen_iff_allowed(rest);
        let n = options.len() - 1;
        assert(!options[n].max_score.spec_is_nan());
        if let Some(i) = option_kept(options) {
            assert forall|j: int| 0 <= j < n && is_allowed(#[trigger] options[j]) implies {
                &&& options[i].max_score.spec_le(options[j].max_score)
                &&& j < i ==> options[i].max_score.spec_lt(options[j].max_score)
            } by {
                assert(is_allowed(rest[j]));
                let k = option_kept(rest)->0;
                assert(rest[k] == options[k]);
                assert(!rest[k].max_score.spec_is_nan() && !rest[j].max_score.spec_is_nan());
            }
        }
    }
}

/// Three numbers in ascending order.
pub open spec fn is_sorted3(d: [Scalar; 3]) -> bool {
    d[0].spec_key() <= d[1].spec_key() <= d[2].spec_key()
}

/// Sorts three numbers.
pub fn sort3(d: [Scalar; 3]) -> (s: [Scalar; 3])
    requires
        no_nan(d@),
    ensures
        is_sorted3(s),
        s@.to_multiset() == d@.to_multiset(),
{
    let (a, b, c): (Scalar, Scalar, Scalar) = (d[0], d[1], d[2]);
    let (x, y): (Scalar, Scalar) = if b.key() < a.key() {
        (b, a)
    } else {
        (a, b)
    };
    let s: [Scalar; 3] = if c.key() < x.key() {
        [c, x, y]
    } else if c.key() < y.key() {
        [x, c, y]
    } else {
        [x, y, c]
    };
    proof {
        let ghost t = Seq::<Scalar>::empty();
        assert(d@ =~= t.push(a).push(b).push(c));
        assert(s@ =~= t.push(s@[0]).push(s@[1]).push(s@[2]));
        vstd::seq_lib::to_multiset_build(t, a);
        vstd::seq_lib::to_multiset_build(t.push(a), b);
        vstd::seq_lib::to_multiset_build(t.push(a).push(b), c);
        vstd::seq_lib::to_multiset_build(t, s@[0]);
        vstd::seq_lib::to_multiset_build(t.push(s@[0]), s@[1]);
        vstd::seq_lib::to_multiset_build(t.push(s@[0]).push(s@[1]), s@[2]);
        assert(s@.to_multiset() =~= d@.to_multiset());
    }
    s
}

/// The sizes that make a box a slab, from the size of the mesh.
#[derive(Clone, Copy, Debug, PartialEq, Eq, Structural)]
pub struct SlabLimits {
    /// A medium slab: at least this volume, at most this thick, at least this
    /// wide and this long.
    pub min_volume: Scalar,
    pub thickness: Scalar,
    pub width: Scalar,
    pub length: Scalar,
    /// A thin slab: at most this thick, at least this wide and this long.
    pub thin_thickness: Scalar,
    pub thin_width: Scalar,
    pub thin_length: Scalar,
}

/// A box with these sorted sizes and this volume is a medium slab.
pub open spec fn medium(d: [Scalar; 3], volume: Scalar, l: SlabLimits) -> bool {
    &&& l.min_volume.spec_le(volume)
    &&& d[0].spec_le(l.thickness)
    &&& l.width.spec_le(d[1])
    &&& l.length.spec_le(d[2])
}

/// A box with these sorted sizes is a thin slab.
pub open spec fn thin(d: [Scalar; 3], l: SlabLimits) -> bool {
    &&& d[0].spec_le(l.thin_thickness)
    &&& l.thin_width.spec_le(d[1])
    &&& l.thin_length.spec_le(d[2])
}

/// Whether a primitive of the given kind, with sorted sizes `d`, is a medium
/// slab.
pub fn is_medium_slab(kind: PrimKind, d: [Scalar; 3], volume: Scalar, l: &SlabLimits) -> (b: bool)
    ensures
        b == (kind == PrimKind::Obb && medium(d, volume, *l)),
{
    match kind {
        PrimKind::Obb => volume.ge(l.min_volume) && d[0].le(l.thickness) && d[1].ge(l.width) && d[2].ge(l.length),
        _ => false,
    }
}

/// Whether a primitive of the given kind, with sorted sizes `d`, is a slab
/// that can be repaired.
pub fn is_repairable_slab(kind: PrimKind, d: [Scalar; 3], volume: Scalar, l: &SlabLimits) -> (b: bool)
    ensures
        b == (kind == PrimKind::Obb && (medium(d, volume, *l) || thin(d, *l))),
{
    if is_medium_slab(kind, d, volume, l) {
        return true;
    }
    match kind {
        PrimKind::Obb => d[0].le(l.thin_thickness) && d[1].ge(l.thin_width) && d[2].ge(l.thin_length),
        _ => false,
    }
}

/// Whether a primitive with sorted extents `d` reads as a detail: thin, or
/// small in its second dimension.
pub fn is_detail_like(d: [Scalar; 3], tol: Scalar, double_tol: Scalar) -> (b: bool)
    ensures
        b == (d[0].spec_le(tol) || d[1].spec_le(double_tol)),
{
    d[0].le(tol) || d[1].le(double_tol)
}

/// The repairs of a pass: candidates in turn, up to a limit.
pub struct RepairRun {
    pub order: Vec<u32>,
    pub at: usize,
    pub repairs: usize,
    pub max_repairs: usize,
}

impl RepairRun {
    pub open spec fn wf(&self) -> bool {
        self.at <= self.order@.len() && self.repairs <= self.at && self.repairs <= self.max_repairs
    }

    pub fn new(order: Vec<u32>, max_repairs: usize) -> (r: Self)
        ensures
            r.wf(),
            r.order@ == order@,
            r.at == 0,
            r.repairs == 0,
            r.max_repairs == max_repairs,
    {
        RepairRun { order, at: 0, repairs: 0, max_repairs }
    }

    /// The next candidate, while the limit is not reached.
    pub fn next(&mut self) -> (c: Option<u32>)
        requires
            old(self).wf(),
        ensures
            final(self).wf(),
            final(self).order == old(self).order,
            final(self).repairs == old(self).repairs,
            final(self).max_repairs == old(self).max_repairs,
            match c {
                Some(x) => old(self).at < old(self).order@.len() && old(self).repairs < old(self).max_repairs && x
                    == old(self).order@[old(self).at as int] && final(self).at == old(self).at + 1,
                None => (old(self).at == old(self).order@.len() || old(self).repairs >= old(self).max_repairs)
                    && final(self).at == old(self).at,
            },
    {
        if self.repairs >= self.max_repairs || self.at >= self.order.len() {
            return None;
        }
        let x: u32 = self.order[self.at];
        self.at = self.at + 1;
        Some(x)
    }

    /// The candidate given out last has been repaired.
    pub fn repaired(&mut self)
        requires
            old(self).wf(),
            old(self).repairs < old(self).at,
            old(self).repairs < old(self).max_repairs,
        ensures
            final(self).wf(),
            final(self).order == old(self).order,
            final(self).at == old(self).at,
            final(self).max_repairs == old(self).max_repairs,
            final(self).repairs == old(self).repairs + 1,
    {
        self.repairs = self.repairs + 1;
    }
}

/// Whether single-primitive diagnostics can be given.
#[derive(Clone, Copy, Debug, PartialEq, Eq, Structural)]
pub enum DebugStatus {
    OutOfRange,
    NotAlive,
    TooSmall,
    /// It owns no faces to walk over.
    WalkTooShort,
    Ready,
}

pub open spec fn debug_status_of(ps: Seq<PrimView>, rv: RingsView, target: u32) -> DebugStatus {
    if target >= ps.len() {
        DebugStatus::OutOfRange
    } else if !ps[target as int].alive {
        DebugStatus::NotAlive
    } else if ps[target as int].face_count < 2 || ps[target as int].vertices.len() < 4 {
        DebugStatus::TooSmall
    } else if !rv.is_root(target) {
        DebugStatus::WalkTooShort
    } else {
        DebugStatus::Ready
    }
}

/// Whether the splits of primitive `target` can be looked at.
pub fn debug_status(prims: &Vec<Primitive>, rings: &FaceRings, target: u32) -> (s: DebugStatus)
    requires
        rings.wf(),
    ensures
        s == debug_status_of(views(prims@), rings@, target),
{
    let t: usize = target as usize;
    if t >= prims.len() {
        return DebugStatus::OutOfRange;
    }
    if !prims[t].alive {
        return DebugStatus::NotAlive;
    }
    if prims[t].face_count < 2 || prims[t].vertex_indices.len() < 4 {
        return DebugStatus::TooSmall;
    }
    if t >= rings.len() || !rings.is_root(target) {
        return DebugStatus::WalkTooShort;
    }
    DebugStatus::Ready
}

impl DebugStatus {
    pub open spec fn spec_source(self) -> Seq<char> {
        match self {
            DebugStatus::OutOfRange => "debug:unavailable:out_of_range"@,
            DebugStatus::NotAlive => "debug:unavailable:not_alive"@,
            DebugStatus::TooSmall => "debug:unavailable:insufficient_faces_or_vertices"@,
            DebugStatus::WalkTooShort => "debug:unavailable:face_walk_too_short"@,
            DebugStatus::Ready => ""@,
        }
    }

    /// What stands in the diagnostics in place of a split.
    pub fn source(self) -> (s: &'static str)
        ensures
            s@ == self.spec_source(),
    {
        match self {
            DebugStatus::OutOfRange => "debug:unavailable:out_of_range",
            DebugStatus::NotAlive => "debug:unavailable:not_alive",
            DebugStatus::TooSmall => "debug:unavailable:insufficient_faces_or_vertices",
            DebugStatus::WalkTooShort => "debug:unavailable:face_walk_too_short",
            DebugStatus::Ready => "",
        }
    }
}

/// Repairs go through those that score above one, from the worst down.
pub proof fn law_repairs_go_from_the_worst_down(scores: Seq<Scalar>, out: Seq<usize>, x: usize, i: int, j: int)
    requires
        is_kept_descending(scores, bad_ones(scores), out),
        no_nan(scores),
    ensures
        out.contains(x) <==> x < scores.len() && (Scalar { bits: 0x3f80_0000 }).spec_lt(scores[x as int]),
        0 <= i < j < out.len() ==> scores[out[j] as int].spec_le(scores[out[i] as int]),
{
    if 0 <= i < j < out.len() {
        crate::order::law_kept_are_sorted_down(scores, bad_ones(scores), out, i, j);
    }
}

/// A piece becomes a live primitive of the shape that was fitted to it, with
/// its three corners and neither faces nor vertices of the mesh.
pub proof fn law_piece_becomes_a_primitive(p: Piece, version: int, neighbors: Set<u32>)
    ensures
        ({
            let v = piece_view(p, version, neighbors);
            &&& v.alive
            &&& v.version == version
            &&& v.prim == p.fit.prim
            &&& v.q == p.fit.q
            &&& v.volume == p.fit.volume
            &&& v.weighted_volume == p.fit.weighted_volume
            &&& v.face_count == 0
            &&& v.vertices.len() == 0
            &&& v.fit_vertices.len() == 0
            &&& v.proxies.len() == 3
            &&& v.proxies[0] == p.corners[0]
            &&& v.proxies[1] == p.corners[1]
            &&& v.proxies[2] == p.corners[2]
            &&& v.neighbors == neighbors
        }),
{
}

/// Of the repairs, one is made that is not oversized and gains enough, and none
/// of those scores less; there is one exactly where any is like that.
pub proof fn law_best_gain_is_chosen(options: Seq<ScoredOption>, j: int)
    requires
        forall|k: int| 0 <= k < options.len() ==> !(#[trigger] options[k]).max_score.spec_is_nan(),
        0 <= j < options.len(),
    ensures
        option_kept(options) matches Some(i) ==> 0 <= i < options.len() && !options[i].oversized && !options[i].no_gain,
        !options[j].oversized && !options[j].no_gain ==> (option_kept(options) matches Some(i)
            && options[i].max_score.spec_le(options[j].max_score) && (j < i ==> options[i].max_score.spec_lt(
            options[j].max_score,
        ))),
{
    law_option_is_first_least(options);
    law_option_chosen_iff_allowed(options);
    if !options[j].oversized && !options[j].no_gain {
        assert(is_allowed(options[j]));
    }
}

/// The three cuts in two go from a corner to the middle of the opposite side;
/// the cut in three meets in the middle of the face; the cut in four leaves a
/// corner to each of three pieces and the middles of the sides to the fourth.
pub proof fn law_where_the_cuts_go(k: int, i: int)
    requires
        0 <= k < face_cuts().len(),
        0 <= i < face_cuts()[k].len(),
    ensures
        face_cuts().len() == 5,
        k < 3 ==> face_cuts()[k].len() == 2 && face_cuts()[k][i]@.contains((k + 3) as usize) && face_cuts()[k][i]@.contains(
            ((k + 2) % 3) as usize,
        ),
        k == 3 ==> face_cuts()[k].len() == 3 && face_cuts()[k][i]@.contains(6usize) && face_cuts()[k][i]@.contains(
            i as usize,
        ),
        k == 4 ==> face_cuts()[k] == four_pieces() && four_pieces().len() == 4 && (if i < 3 {
            four_pieces()[i]@.contains(i as usize)
        } else {
            four_pieces()[i]@ =~= seq![3usize, 4usize, 5usize]
        }),
{
    let t = face_cuts()[k][i];
    assert(t@[0] == t[0] && t@[1] == t[1] && t@[2] == t[2]);
}

/// The limits of slabs: what is a slab stays one when it gets thinner, wider,
/// longer or larger, and is none above the thickness or below the width, the
/// length or the volume.
pub proof fn law_slab_limits(d: [Scalar; 3], e: [Scalar; 3], volume: Scalar, more: Scalar, l: SlabLimits)
    ensures
        l.thickness.spec_lt(d[0]) ==> !medium(d, volume, l),
        d[1].spec_lt(l.width) ==> !medium(d, volume, l),
        d[2].spec_lt(l.length) ==> !medium(d, volume, l),
        volume.spec_lt(l.min_volume) ==> !medium(d, volume, l),
        d[0].spec_le(l.thickness) && l.width.spec_le(d[1]) && l.length.spec_le(d[2]) && l.min_volume.spec_le(volume)
            ==> medium(d, volume, l),
        l.thin_thickness.spec_lt(d[0]) ==> !thin(d, l),
        d[1].spec_lt(l.thin_width) ==> !thin(d, l),
        d[2].spec_lt(l.thin_length) ==> !thin(d, l),
        d[0].spec_le(l.thin_thickness) && l.thin_width.spec_le(d[1]) && l.thin_length.spec_le(d[2]) ==> thin(d, l),
        e[0].spec_le(d[0]) && d[1].spec_le(e[1]) && d[2].spec_le(e[2]) && volume.spec_le(more) && medium(d, volume, l)
            ==> medium(e, more, l),
        e[0].spec_le(d[0]) && d[1].spec_le(e[1]) && d[2].spec_le(e[2]) && thin(d, l) ==> thin(e, l),
{
}

/// A report on a primitive can be given where it is there, alive, of two faces
/// and four vertices at least, and owns its faces; otherwise the first of these
/// that fails is said.
pub proof fn law_when_a_report_can_be_given(ps: Seq<PrimView>, rv: RingsView, target: u32)
    ensures
        ({
            let s = debug_status_of(ps, rv, target);
            let p = ps[target as int];
            &&& s == DebugStatus::OutOfRange <==> !(target < ps.len())
            &&& s == DebugStatus::NotAlive <==> target < ps.len() && !p.alive
            &&& s == DebugStatus::TooSmall <==> target < ps.len() && p.alive && !(p.face_count >= 2 && p.vertices.len() >= 4)
            &&& s == DebugStatus::Ready <==> target < ps.len() && p.alive && p.face_count >= 2 && p.vertices.len() >= 4
                && rv.is_root(target)
        }),
{
}

/// What is said of a report that cannot be given is one thing per reason.
pub proof fn law_reasons_are_told_apart()
    ensures
        DebugStatus::Ready.spec_source().len() == 0,
        DebugStatus::OutOfRange.spec_source().subrange(18, 30) =~= "out_of_range"@,
        DebugStatus::NotAlive.spec_source().subrange(18, 27) =~= "not_alive"@,
        DebugStatus::TooSmall.spec_source().subrange(18, 48) =~= "insufficient_faces_or_vertices"@,
        DebugStatus::WalkTooShort.spec_source().subrange(18, 37) =~= "face_walk_too_short"@,
{
    reveal_strlit("");
    reveal_strlit("debug:unavailable:out_of_range");
    reveal_strlit("debug:unavailable:not_alive");
    reveal_strlit("debug:unavailable:insufficient_faces_or_vertices");
    reveal_strlit("debug:unavailable:face_walk_too_short");
    reveal_strlit("out_of_range");
    reveal_strlit("not_alive");
    reveal_strlit("insufficient_faces_or_vertices");
    reveal_strlit("face_walk_too_short");
}

/// Three sizes in order: none is before a smaller one.
pub proof fn law_sizes_in_order(d: [Scalar; 3], i: int, j: int)
    requires
        is_sorted3(d),
        no_nan(d@),
        0 <= i < j < 3,
    ensures
        d[i].spec_le(d[j]),
{
    assert(!d@[i].spec_is_nan() && !d@[j].spec_is_nan());
    assert(d@[i] == d[i] && d@[j] == d[j]);
    assert((i == 0 && j == 1) || (i == 0 && j == 2) || (i == 1 && j == 2));
}

} // verus!
