//! Sharp edges: where two faces meet at an angle.

use crate::mesh::{EdgeFaces, edge_faces, has_edge, incident, lists_edges, side};
use crate::order::{ascending, is_ranking, no_nan, rank_ascending};
use crate::scalar::Scalar;
use crate::sets::lemma_push_contains;
use vstd::prelude::*;

verus! {

/// An edge on which exactly two faces meet.
#[derive(Clone, Copy, Debug, PartialEq, Eq, Structural)]
pub struct Crease {
    pub u: u32,
    pub v: u32,
    pub f0: u32,
    pub f1: u32,
}

/// The faces of the crease are both marked, where there is a mask.
pub open spec fn is_marked(mask: Option<Seq<bool>>, c: Crease) -> bool {
    match mask {
        None => true,
        Some(m) => m[c.f0 as int] && m[c.f1 as int],
    }
}

/// The edge with exactly two faces on it, in the order of the faces.
pub open spec fn is_crease(tris: Seq<[u32; 3]>, c: Crease) -> bool {
    incident(tris, (c.u, c.v), 3 * tris.len()) == seq![c.f0, c.f1]
}

/// The edges on which exactly two faces meet, both of them marked where a mask
/// is given. Edges on a border, or shared by more faces, are left out.
pub fn creases(tris: &Vec<[u32; 3]>, mask: Option<&Vec<bool>>) -> (out: Vec<Crease>)
    requires
        tris@.len() <= u32::MAX,
        mask matches Some(m) ==> m@.len() == tris@.len(),
    ensures
        out@.no_duplicates(),
        forall|c: Crease| #[trigger]
            out@.contains(c) <==> is_crease(tris@, c) && is_marked(
                match mask {
                    Some(m) => Some(m@),
                    None => None,
                },
                c,
            ),
{
    let ghost marks: Option<Seq<bool>> = match mask {
        Some(m) => Some(m@),
        None => None,
    };
    let edges = edge_faces(tris);
    let ghost n3 = 3 * tris@.len();
    let mut out: Vec<Crease> = Vec::new();
    let mut k: usize = 0;
    while k < edges.len()
        invariant
            tris@.len() <= u32::MAX,
            n3 == 3 * tris@.len(),
            mask matches Some(m) ==> m@.len() == tris@.len() && marks == Some(m@),
            mask is None ==> marks is None,
            lists_edges(tris@, edges@),
            k <= edges@.len(),
            out@.no_duplicates(),
            forall|c: Crease| #[trigger]
                out@.contains(c) <==> is_crease(tris@, c) && is_marked(marks, c) && has_edge(
                    edges@.subrange(0, k as int),
                    (c.u, c.v),
                ),
        decreases edges@.len() - k,
    {
        let ghost before = out@;
        let ghost seen = edges@.subrange(0, k as int);
        let ghost longer = edges@.subrange(0, k + 1);
        let ghost here = edges@[k as int];
        proof {
            assert(here.faces@ == incident(tris@, (here.u, here.v), n3));
            crate::mesh::lemma_incident_in_range(tris@, (here.u, here.v), n3);
            assert forall|e: (u32, u32)| #[trigger] has_edge(longer, e) <==> has_edge(seen, e) || e == (here.u, here.v) by {
                if has_edge(longer, e) {
                    let j = choose|j: int| 0 <= j < longer.len() && ((#[trigger] longer[j]).u, longer[j].v) == e;
                    if j < k {
                        assert(seen[j] == longer[j]);
                    }
                }
                if has_edge(seen, e) {
                    let j = choose|j: int| 0 <= j < seen.len() && ((#[trigger] seen[j]).u, seen[j].v) == e;
                    assert(longer[j] == seen[j]);
                }
                if e == (here.u, here.v) {
                    assert(longer[k as int] == here);
                }
            }
            assert(!has_edge(seen, (here.u, here.v))) by {
                if has_edge(seen, (here.u, here.v)) {
                    let j = choose|j: int|
                        0 <= j < seen.len() && ((#[trigger] seen[j]).u, seen[j].v) == (here.u, here.v);
                    assert(edges@[j].u == here.u && edges@[j].v == here.v);
                }
            }
        }
        let e: &EdgeFaces = &edges[k];
        let ghost mut added = Crease { u: 0, v: 0, f0: 0, f1: 0 };
        if e.faces.len() == 2 {
            let c = Crease { u: e.u, v: e.v, f0: e.faces[0], f1: e.faces[1] };
            assert(here.faces@ =~= seq![c.f0, c.f1]);
            let ok: bool = match mask {
                None => true,
                Some(m) => m[c.f0 as usize] && m[c.f1 as usize],
            };
            if ok {
                assert(!before.contains(c));
                out.push(c);
                proof {
                    added = c;
                }
            }
        }
        proof {
            assert forall|c: Crease| #[trigger] out@.contains(c) <==> is_crease(tris@, c) && is_marked(marks, c)
                && has_edge(longer, (c.u, c.v)) by {
                lemma_push_contains(before, added, c);
                assert(before.contains(c) <==> is_crease(tris@, c) && is_marked(marks, c) && has_edge(
                    seen,
                    (c.u, c.v),
                ));
                if (c.u, c.v) == (here.u, here.v) && is_crease(tris@, c) {
                    assert(here.faces@ == seq![c.f0, c.f1]);
                    assert(here.faces@[0] == c.f0 && here.faces@[1] == c.f1);
                }
            }
        }
        k += 1;
    }
    proof {
        assert(edges@.subrange(0, k as int) =~= edges@);
        assert forall|c: Crease| #[trigger] out@.contains(c) <==> is_crease(tris@, c) && is_marked(marks, c) by {
            if is_crease(tris@, c) {
                let s = incident(tris@, (c.u, c.v), n3);
                assert(s.contains(s[0]));
                crate::mesh::lemma_incident_has_side(tris@, (c.u, c.v), n3, s[0]);
                let h = choose|h: int| 0 <= h < n3 && h / 3 == s[0] && #[trigger] side(tris@, h) == (c.u, c.v);
                assert(has_edge(edges@, side(tris@, h)));
            }
        }
    }
    out
}

/// The creases that are sharp, by their cosines, and lie at face `f`: each
/// once per side that it is of the face.
pub open spec fn sharp_at(creases: Seq<Crease>, cosines: Seq<Scalar>, limit: Scalar, f: int) -> Seq<usize>
    decreases creases.len(),
{
    if creases.len() == 0 {
        Seq::empty()
    } else {
        let k = (creases.len() - 1) as usize;
        let before = sharp_at(creases.drop_last(), cosines, limit, f);
        let c = creases.last();
        if !cosines[k as int].spec_lt(limit) {
            before
        } else {
            let one = if c.f0 == f { before.push(k) } else { before };
            if c.f1 == f {
                one.push(k)
            } else {
                one
            }
        }
    }
}

/// For every face the creases at it that are sharp: those whose cosine is
/// below the limit.
pub fn sharp_edges(creases: &Vec<Crease>, cosines: &Vec<Scalar>, limit: Scalar, nf: usize) -> (per_face: Vec<Vec<usize>>)
    requires
        cosines@.len() == creases@.len(),
        forall|k: int| 0 <= k < creases@.len() ==> (#[trigger] creases@[k]).f0 < nf && creases@[k].f1 < nf,
    ensures
        per_face@.len() == nf,
        forall|f: int|
            0 <= f < nf ==> (#[trigger] per_face@[f])@ == sharp_at(creases@, cosines@, limit, f),
{
    let mut per_face: Vec<Vec<usize>> = Vec::new();
    let mut i: usize = 0;
    assert(creases@.subrange(0, 0) =~= Seq::empty());
    while i < nf
        invariant
            i <= nf,
            per_face@.len() == i,
            forall|f: int| 0 <= f < i ==> (#[trigger] per_face@[f])@ == Seq::<usize>::empty(),
        decreases nf - i,
    {
        per_face.push(Vec::new());
        i += 1;
    }
    let mut k: usize = 0;
    while k < creases.len()
        invariant
            cosines@.len() == creases@.len(),
            forall|j: int| 0 <= j < creases@.len() ==> (#[trigger] creases@[j]).f0 < nf && creases@[j].f1 < nf,
            k <= creases@.len(),
            per_face@.len() == nf,
            forall|f: int|
                0 <= f < nf ==> (#[trigger] per_face@[f])@ == sharp_at(
                    creases@.subrange(0, k as int),
                    cosines@,
                    limit,
                    f,
                ),
        decreases creases@.len() - k,
    {
        let c: Crease = creases[k];
        let ghost start = per_face@;
        proof {
            let longer = creases@.subrange(0, k + 1);
            assert(longer.drop_last() =~= creases@.subrange(0, k as int));
            assert(longer.last() == c);
        }
        if cosines[k].lt(limit) {
            per_face[c.f0 as usize].push(k);
            let ghost half = per_face@;
            per_face[c.f1 as usize].push(k);
            proof {
                assert forall|f: int| 0 <= f < nf implies (#[trigger] per_face@[f])@ == sharp_at(
                    creases@.subrange(0, k + 1),
                    cosines@,
                    limit,
                    f,
                ) by {
                    assert(start[f]@ == sharp_at(creases@.subrange(0, k as int), cosines@, limit, f));
                    assert(half[f]@ == (if c.f0 == f { start[f]@.push(k) } else { start[f]@ }));
                    assert(per_face@[f]@ == (if c.f1 == f { half[f]@.push(k) } else { half[f]@ }));
                }
            }
        } else {
            assert forall|f: int| 0 <= f < nf implies (#[trigger] per_face@[f])@ == sharp_at(
                creases@.subrange(0, k + 1),
                cosines@,
                limit,
                f,
            ) by {
                assert(start[f]@ == sharp_at(creases@.subrange(0, k as int), cosines@, limit, f));
            }
        }
        k += 1;
    }
    assert(creases@.subrange(0, k as int) =~= creases@);
    per_face
}

/// The number kept within bounds.
pub open spec fn clamp(x: Scalar, lo: Scalar, hi: Scalar) -> Scalar {
    if x.spec_lt(lo) {
        lo
    } else if hi.spec_lt(x) {
        hi
    } else {
        x
    }
}

/// `x` is at the 95th hundredth of the angles in ascending order.
pub open spec fn is_percentile95(angles: Seq<Scalar>, x: Scalar) -> bool {
    exists|r: Seq<usize>| #[trigger]
        is_ranking(ascending(angles), r) && x == angles[r[(angles.len() * 95 / 100) as int] as int]
}

/// The angle above which an edge counts as sharp: the 95th percentile of the
/// angles, within bounds; the lower bound where there are no angles.
pub fn sharp_threshold(angles: &Vec<Scalar>, lo: Scalar, hi: Scalar) -> (t: Scalar)
    requires
        no_nan(angles@),
    ensures
        angles@.len() == 0 ==> t == lo,
        angles@.len() > 0 ==> exists|x: Scalar| #[trigger] is_percentile95(angles@, x) && t == clamp(x, lo, hi),
{
    if angles.len() == 0 {
        return lo;
    }
    let r = rank_ascending(angles);
    let place: u128 = angles.len() as u128 * 95 / 100;
    proof {
        assert(place < angles@.len());
    }
    let at: usize = place as usize;
    assert(r@.contains(r@[at as int]));
    let x: Scalar = angles[r[at]];
    assert(is_percentile95(angles@, x));
    if x.lt(lo) {
        lo
    } else if x.gt(hi) {
        hi
    } else {
        x
    }
}

/// The sharp edges of a face are the creases that it is on and that are bent
/// more than the limit, in their order.
pub proof fn law_sharp_edges_of_a_face(creases: Seq<Crease>, cosines: Seq<Scalar>, limit: Scalar, f: int, k: usize)
    requires
        creases.len() <= usize::MAX,
        cosines.len() >= creases.len(),
    ensures
        sharp_at(creases, cosines, limit, f).contains(k) <==> k < creases.len() && cosines[k as int].spec_lt(limit) && (
        creases[k as int].f0 == f || creases[k as int].f1 == f),
        forall|i: int| 0 <= i < sharp_at(creases, cosines, limit, f).len() ==> (#[trigger] sharp_at(
            creases,
            cosines,
            limit,
            f,
        )[i]) < creases.len(),
        forall|i: int, j: int|
            0 <= i < j < sharp_at(creases, cosines, limit, f).len() ==> #[trigger] sharp_at(creases, cosines, limit, f)[i]
                <= #[trigger] sharp_at(creases, cosines, limit, f)[j],
    decreases creases.len(),
{
    if creases.len() > 0 {
        let rest = creases.drop_last();
        let n = (creases.len() - 1) as usize;
        law_sharp_edges_of_a_face(rest, cosines, limit, f, k);
        let before = sharp_at(rest, cosines, limit, f);
        let one = if creases.last().f0 == f {
            before.push(n)
        } else {
            before
        };
        lemma_push_contains(before, n, k);
        lemma_push_contains(one, n, k);
        if k < rest.len() {
            assert(rest[k as int] == creases[k as int]);
        }
    }
}

/// What is bounded lies between the bounds, and is as it was where it did.
pub proof fn law_bounded(x: Scalar, lo: Scalar, hi: Scalar)
    requires
        !x.spec_is_nan(),
        lo.spec_le(hi),
    ensures
        lo.spec_le(clamp(x, lo, hi)),
        clamp(x, lo, hi).spec_le(hi),
        lo.spec_le(x) && x.spec_le(hi) ==> clamp(x, lo, hi) == x,
        x.spec_lt(lo) ==> clamp(x, lo, hi) == lo,
        hi.spec_lt(x) ==> clamp(x, lo, hi) == hi,
{
}

/// The angle that the limit is taken from has nineteen of twenty angles before
/// it when they are put in order.
pub proof fn law_percentile_stands_in_order(angles: Seq<Scalar>, x: Scalar)
    requires
        angles.len() > 0,
        no_nan(angles),
        is_percentile95(angles, x),
    ensures
        exists|r: Seq<usize>, p: int|
            #![trigger r[p]]
            {
                &&& r.len() == angles.len()
                &&& r.no_duplicates()
                &&& 0 <= p < r.len()
                &&& 100 * p <= 95 * angles.len() < 100 * (p + 1)
                &&& x == angles[r[p] as int]
                &&& forall|i: int| 0 <= i < p ==> (angles[(#[trigger] r[i]) as int]).spec_le(x)
                &&& forall|i: int| p < i < r.len() ==> x.spec_le(angles[(#[trigger] r[i]) as int])
            },
{
    let r = choose|r: Seq<usize>| #[trigger]
        is_ranking(ascending(angles), r) && x == angles[r[(angles.len() * 95 / 100) as int] as int];
    let p = (angles.len() * 95 / 100) as int;
    assert forall|i: int, j: int| 0 <= i < j < r.len() implies angles[(#[trigger] r[i]) as int].spec_le(
        angles[(#[trigger] r[j]) as int],
    ) && r[i] != r[j] by {
        crate::order::law_ascending_ranking_sorts(angles, r, i, j, 0);
    }
    assert(r.contains(r[p]));
    assert(x == angles[r[p] as int]);
}

/// A crease is an edge with two faces at it, and no more.
pub proof fn law_creases_part_two_faces(tris: Seq<[u32; 3]>, c: Crease, mask: Seq<bool>, f: u32)
    requires
        is_crease(tris, c),
    ensures
        incident(tris, (c.u, c.v), 3 * tris.len()).len() == 2,
        incident(tris, (c.u, c.v), 3 * tris.len()).contains(f) <==> f == c.f0 || f == c.f1,
        is_marked(None, c),
        is_marked(Some(mask), c) <==> mask[c.f0 as int] && mask[c.f1 as int],
{
    let s = incident(tris, (c.u, c.v), 3 * tris.len());
    assert(s[0] == c.f0 && s[1] == c.f1);
    if s.contains(f) {
        let i = choose|i: int| 0 <= i < s.len() && s[i] == f;
        assert(i == 0 || i == 1);
    }
}

} // verus!
