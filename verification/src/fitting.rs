//! What a fit is made of: which points, which kinds of primitive, which axes.

use crate::prim::{PrimKind, PrimMask};
use crate::scalar::Scalar;
use crate::sets::copy_list;
use crate::surface::has_vertex;
use vstd::prelude::*;

verus! {

/// A fit needs at least this many points.
pub const MIN_FIT_VERTS: usize = 3;

/// Below this many points only boxes are worth fitting.
pub const FANCY_FIT_MIN_VERTS: usize = 8;

/// Which points a primitive is fitted to.
pub struct FitPoints {
    /// The vertices.
    pub vertices: Vec<u32>,
    /// Whether the proxy points come after them.
    pub with_proxies: bool,
}

/// The points a primitive is fitted to: the vertices that count for fitting
/// and the proxy points, where they are enough, else all vertices.
pub open spec fn fit_choice(fit: Seq<u32>, all: Seq<u32>, proxies: nat) -> (Seq<u32>, bool) {
    if fit.len() + proxies >= 3 {
        (fit, true)
    } else if proxies > 0 {
        (all, false)
    } else {
        (all, all.len() >= 3)
    }
}

/// Chooses the points that a primitive is fitted to.
pub fn fit_points(fit: &Vec<u32>, all: &Vec<u32>, proxies: usize) -> (res: FitPoints)
    requires
        fit@.len() + proxies <= usize::MAX,
        all@.len() + proxies <= usize::MAX,
    ensures
        (res.vertices@, res.with_proxies) == fit_choice(fit@, all@, proxies as nat),
{
    let use_fit: bool = fit.len() >= MIN_FIT_VERTS || proxies > 0;
    let base = if use_fit {
        copy_list(fit)
    } else {
        copy_list(all)
    };
    if base.len() + proxies >= MIN_FIT_VERTS {
        FitPoints { vertices: base, with_proxies: true }
    } else {
        FitPoints { vertices: copy_list(all), with_proxies: false }
    }
}

/// The members of a list that are marked, in order.
pub open spec fn marked(s: Seq<u32>, mask: Seq<bool>) -> Seq<u32>
    decreases s.len(),
{
    if s.len() == 0 {
        s
    } else if mask[s.last() as int] {
        marked(s.drop_last(), mask).push(s.last())
    } else {
        marked(s.drop_last(), mask)
    }
}

/// The vertices that orientation goes by: those on the shell, where with the
/// proxy points there are at least four.
pub fn shell_points(fit: &Vec<u32>, shell: &Vec<bool>, proxies: usize) -> (res: Option<Vec<u32>>)
    requires
        forall|i: int| 0 <= i < fit@.len() ==> (#[trigger] fit@[i]) < shell@.len(),
        fit@.len() + proxies <= usize::MAX,
    ensures
        match res {
            Some(v) => v@ == marked(fit@, shell@) && v@.len() + proxies >= 4,
            None => marked(fit@, shell@).len() + proxies < 4,
        },
{
    let mut v: Vec<u32> = Vec::new();
    let mut i: usize = 0;
    assert(fit@.subrange(0, 0) =~= Seq::empty());
    while i < fit.len()
        invariant
            forall|k: int| 0 <= k < fit@.len() ==> (#[trigger] fit@[k]) < shell@.len(),
            i <= fit@.len(),
            v@.len() <= i,
            v@ == marked(fit@.subrange(0, i as int), shell@),
        decreases fit@.len() - i,
    {
        proof {
            let longer = fit@.subrange(0, i + 1);
            assert(longer.drop_last() =~= fit@.subrange(0, i as int));
            assert(longer.last() == fit@[i as int]);
        }
        if shell[fit[i] as usize] {
            v.push(fit[i]);
        }
        i += 1;
    }
    assert(fit@.subrange(0, i as int) =~= fit@);
    if v.len() + proxies < 4 {
        return None;
    }
    Some(v)
}

/// Which faces are on the shell: those more exposed than the limit.
pub fn shell_faces(exposure: &Vec<Scalar>, limit: Scalar) -> (mask: Vec<bool>)
    ensures
        mask@.len() == exposure@.len(),
        forall|f: int| 0 <= f < exposure@.len() ==> #[trigger] mask@[f] == limit.spec_lt(exposure@[f]),
{
    let mut mask: Vec<bool> = Vec::new();
    let mut f: usize = 0;
    while f < exposure.len()
        invariant
            f <= exposure@.len(),
            mask@.len() == f,
            forall|k: int| 0 <= k < f ==> #[trigger] mask@[k] == limit.spec_lt(exposure@[k]),
        decreases exposure@.len() - f,
    {
        mask.push(exposure[f].gt(limit));
        f += 1;
    }
    mask
}

/// Some marked face among the first `k` has vertex `x`.
pub open spec fn on_marked_face(tris: Seq<[u32; 3]>, faces: Seq<bool>, k: int, x: int) -> bool {
    exists|f: int| 0 <= f < k && faces[f] && has_vertex(#[trigger] tris[f], x as u32)
}

/// Which vertices are on the shell: those of the faces on it.
pub fn shell_vertices(tris: &Vec<[u32; 3]>, faces: &Vec<bool>, n_verts: usize) -> (mask: Vec<bool>)
    requires
        faces@.len() == tris@.len(),
        n_verts <= u32::MAX,
        forall|f: int, c: int| 0 <= f < tris@.len() && 0 <= c < 3 ==> (#[trigger] tris@[f][c]) < n_verts,
    ensures
        mask@.len() == n_verts,
        forall|x: int| 0 <= x < n_verts ==> #[trigger] mask@[x] == on_marked_face(tris@, faces@, tris@.len() as int, x),
{
    let mut mask: Vec<bool> = Vec::new();
    let mut i: usize = 0;
    while i < n_verts
        invariant
            i <= n_verts,
            mask@.len() == i,
            forall|x: int| 0 <= x < i ==> !(#[trigger] mask@[x]),
        decreases n_verts - i,
    {
        mask.push(false);
        i += 1;
    }
    let mut f: usize = 0;
    while f < tris.len()
        invariant
            faces@.len() == tris@.len(),
            n_verts <= u32::MAX,
            forall|g: int, c: int| 0 <= g < tris@.len() && 0 <= c < 3 ==> (#[trigger] tris@[g][c]) < n_verts,
            f <= tris@.len(),
            mask@.len() == n_verts,
            forall|x: int| 0 <= x < n_verts ==> #[trigger] mask@[x] == on_marked_face(tris@, faces@, f as int, x),
        decreases tris@.len() - f,
    {
        let ghost before = mask@;
        if faces[f] {
            let t: [u32; 3] = tris[f];
            assert(tris@[f as int][0] < n_verts && tris@[f as int][1] < n_verts && tris@[f as int][2] < n_verts);
            mask.set(t[0] as usize, true);
            mask.set(t[1] as usize, true);
            mask.set(t[2] as usize, true);
        }
        proof {
            assert forall|x: int| 0 <= x < n_verts implies #[trigger] mask@[x] == on_marked_face(
                tris@,
                faces@,
                f + 1,
                x,
            ) by {
                assert(before[x] == on_marked_face(tris@, faces@, f as int, x));
                if on_marked_face(tris@, faces@, f as int, x) {
                    let g = choose|g: int| 0 <= g < f && faces@[g] && has_vertex(#[trigger] tris@[g], x as u32);
                    assert(has_vertex(tris@[g], x as u32));
                }
                if faces@[f as int] && has_vertex(tris@[f as int], x as u32) {
                    assert(on_marked_face(tris@, faces@, f + 1, x));
                }
                if on_marked_face(tris@, faces@, f + 1, x) {
                    let g = choose|g: int| 0 <= g < f + 1 && faces@[g] && has_vertex(#[trigger] tris@[g], x as u32);
                    if g < f {
                        assert(has_vertex(tris@[g], x as u32));
                    }
                }
            }
        }
        f += 1;
    }
    mask
}

/// The kinds that the mask enables, in the order in which they are tried.
pub open spec fn enabled_kinds(mask: PrimMask) -> Seq<PrimKind> {
    seq![
        PrimKind::Obb,
        PrimKind::Sphere,
        PrimKind::Cylinder,
        PrimKind::Capsule,
        PrimKind::Frustum,
        PrimKind::Prism,
    ].filter(|k: PrimKind| mask.enables(k))
}

/// A list of kinds, or boxes where it is empty.
pub open spec fn or_boxes(kinds: Seq<PrimKind>) -> Seq<PrimKind> {
    if kinds.len() == 0 {
        seq![PrimKind::Obb]
    } else {
        kinds
    }
}

/// The kinds that a box with few points, or a sphere beside a box, leaves
/// worth fitting.
pub open spec fn useful(mask: PrimMask, points: nat) -> PrimMask {
    if points < 8 {
        PrimMask { obb: mask.obb, sphere: false, cylinder: false, capsule: false, frustum: false, prism: false }
    } else {
        PrimMask { sphere: mask.sphere && !mask.obb, ..mask }
    }
}

/// Every enabled kind; boxes where none is.
pub fn all_kinds(mask: PrimMask) -> (kinds: Vec<PrimKind>)
    ensures
        kinds@ == or_boxes(enabled_kinds(mask)),
{
    let mut kinds: Vec<PrimKind> = Vec::new();
    if mask.obb {
        kinds.push(PrimKind::Obb);
    }
    if mask.sphere {
        kinds.push(PrimKind::Sphere);
    }
    if mask.cylinder {
        kinds.push(PrimKind::Cylinder);
    }
    if mask.capsule {
        kinds.push(PrimKind::Capsule);
    }
    if mask.frustum {
        kinds.push(PrimKind::Frustum);
    }
    if mask.prism {
        kinds.push(PrimKind::Prism);
    }
    proof {
        let p = |k: PrimKind| mask.enables(k);
        let s = seq![
            PrimKind::Obb,
            PrimKind::Sphere,
            PrimKind::Cylinder,
            PrimKind::Capsule,
            PrimKind::Frustum,
            PrimKind::Prism,
        ];
        reveal_with_fuel(Seq::filter, 7);
        assert(s.drop_last() =~= seq![
            PrimKind::Obb,
            PrimKind::Sphere,
            PrimKind::Cylinder,
            PrimKind::Capsule,
            PrimKind::Frustum,
        ]);
        assert(s.drop_last().drop_last() =~= seq![
            PrimKind::Obb,
            PrimKind::Sphere,
            PrimKind::Cylinder,
            PrimKind::Capsule,
        ]);
        assert(s.drop_last().drop_last().drop_last() =~= seq![PrimKind::Obb, PrimKind::Sphere, PrimKind::Cylinder]);
        assert(s.drop_last().drop_last().drop_last().drop_last() =~= seq![PrimKind::Obb, PrimKind::Sphere]);
        assert(s.drop_last().drop_last().drop_last().drop_last().drop_last() =~= seq![PrimKind::Obb]);
        assert(s.drop_last().drop_last().drop_last().drop_last().drop_last().drop_last() =~= Seq::empty());
        assert(kinds@ =~= s.filter(p));
    }
    if kinds.len() == 0 {
        kinds.push(PrimKind::Obb);
        assert(kinds@ =~= seq![PrimKind::Obb]);
    }
    kinds
}

/// The kinds worth fitting to so many points, for the smallest weighted
/// volume: with few points a box alone, a sphere only where there is no box to
/// beat it.
pub fn kinds_to_fit(mask: PrimMask, points: usize) -> (kinds: Vec<PrimKind>)
    ensures
        kinds@ == or_boxes(enabled_kinds(useful(mask, points as nat))),
{
    let few: bool = points < FANCY_FIT_MIN_VERTS;
    let m = PrimMask {
        obb: mask.obb,
        sphere: !few && mask.sphere && !mask.obb,
        cylinder: !few && mask.cylinder,
        capsule: !few && mask.capsule,
        frustum: !few && mask.frustum,
        prism: !few && mask.prism,
    };
    assert(m == useful(mask, points as nat));
    all_kinds(m)
}

/// The kinds that compete when fits are scored. Where the score goes by the
/// distance to the mesh, spheres compete with boxes.
pub fn kinds_to_score(mask: PrimMask, by_distance: bool) -> (m: PrimMask)
    ensures
        m == (PrimMask { sphere: mask.sphere || (by_distance && mask.obb), ..mask }),
{
    PrimMask { sphere: mask.sphere || (by_distance && mask.obb), ..mask }
}

/// The axes along which the points are not flat: those whose extent is not
/// below the limit; the first axis where there is none.
pub open spec fn upright_axes(extents: [Scalar; 3], limit: Scalar) -> Seq<usize> {
    let s = (if extents[0].spec_lt(limit) { Seq::<usize>::empty() } else { seq![0usize] }) + (if extents[1].spec_lt(
        limit,
    ) {
        Seq::<usize>::empty()
    } else {
        seq![1usize]
    }) + (if extents[2].spec_lt(limit) {
        Seq::<usize>::empty()
    } else {
        seq![2usize]
    });
    if s.len() == 0 {
        seq![0usize]
    } else {
        s
    }
}

/// The axes to try for a cylinder or a capsule.
pub fn axes_to_try(extents: [Scalar; 3], limit: Scalar) -> (axes: Vec<usize>)
    ensures
        axes@ == upright_axes(extents, limit),
        axes@.len() > 0,
        forall|i: int| 0 <= i < axes@.len() ==> (#[trigger] axes@[i]) < 3,
{
    let mut axes: Vec<usize> = Vec::new();
    if !extents[0].lt(limit) {
        axes.push(0);
    }
    if !extents[1].lt(limit) {
        axes.push(1);
    }
    if !extents[2].lt(limit) {
        axes.push(2);
    }
    if axes.len() == 0 {
        axes.push(0);
    }
    assert(axes@ =~= upright_axes(extents, limit));
    axes
}

/// The six orders of three axes.
pub fn axis_orders() -> (orders: Vec<(usize, usize, usize)>)
    ensures
        orders@ == seq![
            (0usize, 1usize, 2usize),
            (0usize, 2usize, 1usize),
            (1usize, 0usize, 2usize),
            (1usize, 2usize, 0usize),
            (2usize, 0usize, 1usize),
            (2usize, 1usize, 0usize),
        ],
{
    let mut v: Vec<(usize, usize, usize)> = Vec::new();
    v.push((0, 1, 2));
    v.push((0, 2, 1));
    v.push((1, 0, 2));
    v.push((1, 2, 0));
    v.push((2, 0, 1));
    v.push((2, 1, 0));
    v
}

/// The points of a fit: its own points where they and the proxies are three or
/// more, then with the proxies; else all the points there are, and the proxies
/// stay out of it.
pub proof fn law_enough_points_are_fitted(fit: Seq<u32>, all: Seq<u32>, proxies: nat)
    ensures
        fit.len() + proxies >= 3 ==> fit_choice(fit, all, proxies).0 == fit && fit_choice(fit, all, proxies).1,
        fit.len() + proxies < 3 ==> fit_choice(fit, all, proxies).0 == all,
        fit.len() + proxies < 3 && proxies > 0 ==> !fit_choice(fit, all, proxies).1,
        fit.len() + proxies < 3 && proxies == 0 ==> fit_choice(fit, all, proxies).1 == (all.len() >= 3),
{
}

/// The points on the shell are those of the list that are marked, in their
/// order.
pub proof fn law_marked_keep_their_order(s: Seq<u32>, mask: Seq<bool>, x: u32)
    ensures
        marked(s, mask) == s.filter(|v: u32| mask[v as int]),
        marked(s, mask).contains(x) <==> s.contains(x) && mask[x as int],
    decreases s.len(),
{
    reveal(Seq::filter);
    if s.len() > 0 {
        let r = s.drop_last();
        law_marked_keep_their_order(r, mask, x);
        assert(s =~= r.push(s.last()));
        crate::sets::lemma_push_contains(r, s.last(), x);
        crate::sets::lemma_push_contains(marked(r, mask), s.last(), x);
    }
}

/// The kinds that are tried are those that are on; boxes where none is.
pub proof fn law_kinds_that_are_tried(mask: PrimMask, kind: PrimKind)
    ensures
        or_boxes(enabled_kinds(mask)).len() > 0,
        mask.enables(kind) ==> or_boxes(enabled_kinds(mask)).contains(kind),
        or_boxes(enabled_kinds(mask)).contains(kind) ==> mask.enables(kind) || (kind == PrimKind::Obb && forall|k: PrimKind|
            !(#[trigger] mask.enables(k))),
{
    let all = seq![
        PrimKind::Obb,
        PrimKind::Sphere,
        PrimKind::Cylinder,
        PrimKind::Capsule,
        PrimKind::Frustum,
        PrimKind::Prism,
    ];
    let on = |k: PrimKind| mask.enables(k);
    let kinds = enabled_kinds(mask);
    assert forall|k: PrimKind| #[trigger] mask.enables(k) implies kinds.contains(k) by {
        assert(all[0] == PrimKind::Obb && all[1] == PrimKind::Sphere && all[2] == PrimKind::Cylinder);
        assert(all[3] == PrimKind::Capsule && all[4] == PrimKind::Frustum && all[5] == PrimKind::Prism);
        assert(all.contains(k));
        let i = choose|i: int| 0 <= i < all.len() && all[i] == k;
        all.lemma_filter_contains(on, i);
    }
    if kinds.contains(kind) {
        let i = choose|i: int| 0 <= i < kinds.len() && kinds[i] == kind;
        all.lemma_filter_pred(on, i);
    }
    if kinds.len() == 0 {
        let boxes = or_boxes(kinds);
        assert(boxes =~= seq![PrimKind::Obb]);
        if mask.enables(kind) {
            assert(kinds.contains(kind));
        }
        assert forall|k: PrimKind| !(#[trigger] mask.enables(k)) by {
            if mask.enables(k) {
                assert(kinds.contains(k));
            }
        }
    }
}

/// Few points are fitted by boxes alone; with more of them spheres are left out
/// where boxes are on, and nothing else changes.
pub proof fn law_kinds_of_use(mask: PrimMask, points: nat, kind: PrimKind)
    ensures
        points < 8 ==> (useful(mask, points).enables(kind) <==> mask.enables(kind) && kind == PrimKind::Obb),
        points >= 8 && kind != PrimKind::Sphere ==> useful(mask, points).enables(kind) == mask.enables(kind),
        points >= 8 && mask.obb ==> !useful(mask, points).sphere,
        points >= 8 && !mask.obb ==> useful(mask, points).sphere == mask.sphere,
{
}

/// The axes that are tried are those along which there is enough, in their
/// order; the first where there is none.
pub proof fn law_axes_long_enough(extents: [Scalar; 3], limit: Scalar, i: usize)
    requires
        i < 3,
    ensures
        !extents[i as int].spec_lt(limit) ==> upright_axes(extents, limit).contains(i),
        upright_axes(extents, limit).contains(i) ==> !extents[i as int].spec_lt(limit) || (i == 0
            && extents[0].spec_lt(limit) && extents[1].spec_lt(limit) && extents[2].spec_lt(limit)),
        upright_axes(extents, limit).len() > 0,
        forall|k: int, l: int|
            0 <= k < l < upright_axes(extents, limit).len() ==> #[trigger] upright_axes(extents, limit)[k]
                < #[trigger] upright_axes(extents, limit)[l],
{
    let s = upright_axes(extents, limit);
    let (a, b, c) = (!extents[0].spec_lt(limit), !extents[1].spec_lt(limit), !extents[2].spec_lt(limit));
    let want = if a && b && c {
        seq![0usize, 1usize, 2usize]
    } else if a && b {
        seq![0usize, 1usize]
    } else if a && c {
        seq![0usize, 2usize]
    } else if b && c {
        seq![1usize, 2usize]
    } else if b {
        seq![1usize]
    } else if c {
        seq![2usize]
    } else {
        seq![0usize]
    };
    assert(s =~= want);
    assert(want.contains(want[0]));
    if want.len() > 1 {
        assert(want.contains(want[1]));
    }
    if want.len() > 2 {
        assert(want.contains(want[2]));
    }
    if want.contains(i) {
        let k = choose|k: int| 0 <= k < want.len() && want[k] == i;
        assert(k == 0 || k == 1 || k == 2);
    }
}

/// A vertex is on the shell where one of the faces it is a corner of is.
pub proof fn law_shell_vertices_are_corners(tris: Seq<[u32; 3]>, faces: Seq<bool>, x: u32)
    requires
        faces.len() == tris.len(),
    ensures
        on_marked_face(tris, faces, tris.len() as int, x as int) <==> exists|f: int|
            0 <= f < tris.len() && faces[f] && (#[trigger] tris[f])@.contains(x),
{
    if on_marked_face(tris, faces, tris.len() as int, x as int) {
        let f = choose|f: int| 0 <= f < tris.len() && faces[f] && has_vertex(#[trigger] tris[f], x as int as u32);
        crate::surface::law_corners_are_vertices(tris[f], x);
    }
    if exists|f: int| 0 <= f < tris.len() && faces[f] && (#[trigger] tris[f])@.contains(x) {
        let f = choose|f: int| 0 <= f < tris.len() && faces[f] && (#[trigger] tris[f])@.contains(x);
        crate::surface::law_corners_are_vertices(tris[f], x);
        assert(has_vertex(tris[f], x as int as u32));
    }
}

} // verus!
