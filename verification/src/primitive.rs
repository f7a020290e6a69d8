//! The primitives of a decomposition, and how one absorbs another.

use crate::prim::{Prim, Vec3};
use crate::scalar::Scalar;
use crate::sets::{is_set, merge_sorted_unique, merged, set_insert, set_remove};
use vstd::prelude::*;

verus! {

/// One primitive and what it subsumes.
pub struct Primitive {
    pub alive: bool,
    /// Counts the changes of the primitive, so that what was computed from an
    /// earlier state can be told apart.
    pub version: u64,
    /// The summed area-weighted normal quadric, by rows.
    pub q: [Scalar; 9],
    pub prim: Prim,
    pub volume: Scalar,
    pub weighted_volume: Scalar,
    /// How many mesh faces the primitive subsumes.
    pub face_count: u32,
    /// The vertices of those faces, sorted, without repetition.
    pub vertex_indices: Vec<u32>,
    /// The vertices that count for fitting, sorted, without repetition.
    pub fit_vertex_indices: Vec<u32>,
    /// Points that stand in for faces left out of the fit.
    pub fit_proxy_points: Vec<Vec3>,
    /// The primitives next to this one, sorted, without repetition.
    pub neighbors: Vec<u32>,
}

/// What a [`Primitive`] stands for.
pub struct PrimView {
    pub alive: bool,
    pub version: int,
    pub q: [Scalar; 9],
    pub prim: Prim,
    pub volume: Scalar,
    pub weighted_volume: Scalar,
    pub face_count: nat,
    pub vertices: Seq<u32>,
    pub fit_vertices: Seq<u32>,
    pub proxies: Seq<Vec3>,
    pub neighbors: Set<u32>,
}

impl View for Primitive {
    type V = PrimView;

    open spec fn view(&self) -> PrimView {
        PrimView {
            alive: self.alive,
            version: self.version as int,
            q: self.q,
            prim: self.prim,
            volume: self.volume,
            weighted_volume: self.weighted_volume,
            face_count: self.face_count as nat,
            vertices: self.vertex_indices@,
            fit_vertices: self.fit_vertex_indices@,
            proxies: self.fit_proxy_points@,
            neighbors: Set::new(|x: u32| self.neighbors@.contains(x)),
        }
    }
}

impl Primitive {
    /// The index lists are sorted, without repetition.
    pub open spec fn wf(&self) -> bool {
        &&& is_set(self.vertex_indices@)
        &&& is_set(self.fit_vertex_indices@)
        &&& is_set(self.neighbors@)
    }
}

/// The shape given to a primitive: its quadric, its fit and the volumes of
/// the fit.
#[derive(Clone, Copy)]
pub struct Fit {
    pub q: [Scalar; 9],
    pub prim: Prim,
    pub volume: Scalar,
    pub weighted_volume: Scalar,
}

pub open spec fn views(prims: Seq<Primitive>) -> Seq<PrimView> {
    Seq::new(prims.len(), |i: int| prims[i]@)
}

pub open spec fn all_wf(prims: Seq<Primitive>) -> bool {
    forall|i: int| 0 <= i < prims.len() ==> (#[trigger] prims[i]).wf()
}

/// How many primitives are alive.
pub open spec fn live_count(ps: Seq<PrimView>) -> nat
    decreases ps.len(),
{
    if ps.len() == 0 {
        0
    } else {
        live_count(ps.drop_last()) + (if ps.last().alive { 1nat } else { 0nat })
    }
}

/// How many faces the primitives subsume together.
pub open spec fn face_total(ps: Seq<PrimView>) -> nat
    decreases ps.len(),
{
    if ps.len() == 0 {
        0
    } else {
        face_total(ps.drop_last()) + ps.last().face_count
    }
}

/// How many of the flags are set.
pub open spec fn count_true(flags: Seq<bool>) -> nat
    decreases flags.len(),
{
    if flags.len() == 0 {
        0
    } else {
        count_true(flags.drop_last()) + (if flags.last() { 1nat } else { 0nat })
    }
}

/// The primitives next to `a` once it has absorbed `b`.
pub open spec fn joint_neighbors(ps: Seq<PrimView>, a: u32, b: u32) -> Set<u32> {
    ps[a as int].neighbors.union(ps[b as int].neighbors).remove(a).remove(b)
}

/// What is left of an absorbed primitive.
pub open spec fn emptied(p: PrimView) -> PrimView {
    PrimView {
        alive: false,
        face_count: 0,
        vertices: Seq::empty(),
        fit_vertices: Seq::empty(),
        proxies: Seq::empty(),
        neighbors: Set::empty(),
        ..p
    }
}

/// Primitive `a` with the contents of `b` added and a new shape.
pub open spec fn joined(ps: Seq<PrimView>, a: u32, b: u32, fit: Fit) -> PrimView {
    let (p, r) = (ps[a as int], ps[b as int]);
    PrimView {
        alive: p.alive,
        version: p.version + 1,
        q: fit.q,
        prim: fit.prim,
        volume: fit.volume,
        weighted_volume: fit.weighted_volume,
        face_count: p.face_count + r.face_count,
        vertices: merged(p.vertices, r.vertices),
        fit_vertices: merged(p.fit_vertices, r.fit_vertices),
        proxies: p.proxies + r.proxies,
        neighbors: joint_neighbors(ps, a, b),
    }
}

/// Primitive `a` absorbs primitive `b` and takes the given shape. With
/// `relink`, the neighbours of the two point to `a` in place of `b`.
pub open spec fn absorbed(ps: Seq<PrimView>, a: u32, b: u32, fit: Fit, relink: bool) -> Seq<PrimView> {
    Seq::new(
        ps.len(),
        |i: int|
            if i == a {
                joined(ps, a, b, fit)
            } else if i == b {
                emptied(ps[i])
            } else if relink && joint_neighbors(ps, a, b).contains(i as u32) {
                PrimView { neighbors: ps[i].neighbors.remove(b).insert(a), ..ps[i] }
            } else {
                ps[i]
            },
    )
}

/// What absorbs another takes the shape it is given, whole, and holds what the
/// two held; what is absorbed is dead and holds nothing.
pub proof fn law_absorbing_takes_the_fit(ps: Seq<PrimView>, a: u32, b: u32, fit: Fit, relink: bool)
    requires
        a < ps.len(),
        b < ps.len(),
        a != b,
        is_set(ps[a as int].vertices),
        is_set(ps[b as int].vertices),
        is_set(ps[a as int].fit_vertices),
        is_set(ps[b as int].fit_vertices),
    ensures
        ({
            let qs = absorbed(ps, a, b, fit, relink);
            let (p, r) = (ps[a as int], ps[b as int]);
            let (x, y) = (qs[a as int], qs[b as int]);
            &&& qs.len() == ps.len()
            &&& x.prim == fit.prim
            &&& x.q == fit.q
            &&& x.volume == fit.volume
            &&& x.weighted_volume == fit.weighted_volume
            &&& x.alive == p.alive
            &&& x.version == p.version + 1
            &&& x.face_count == p.face_count + r.face_count
            &&& is_set(x.vertices)
            &&& is_set(x.fit_vertices)
            &&& forall|v: u32| #[trigger] x.vertices.contains(v) <==> p.vertices.contains(v) || r.vertices.contains(v)
            &&& forall|v: u32| #[trigger]
                x.fit_vertices.contains(v) <==> p.fit_vertices.contains(v) || r.fit_vertices.contains(v)
            &&& x.proxies.len() == p.proxies.len() + r.proxies.len()
            &&& x.proxies.subrange(0, p.proxies.len() as int) == p.proxies
            &&& x.proxies.subrange(p.proxies.len() as int, x.proxies.len() as int) == r.proxies
            &&& forall|n: u32| #[trigger]
                x.neighbors.contains(n) <==> n != a && n != b && (p.neighbors.contains(n) || r.neighbors.contains(n))
            &&& !y.alive
            &&& y.face_count == 0
            &&& y.vertices.len() == 0
            &&& y.fit_vertices.len() == 0
            &&& y.proxies.len() == 0
            &&& forall|n: u32| !(#[trigger] y.neighbors.contains(n))
        }),
{
    crate::sets::law_merge_is_union(ps[a as int].vertices, ps[b as int].vertices);
    crate::sets::law_merge_is_union(ps[a as int].fit_vertices, ps[b as int].fit_vertices);
    let x = absorbed(ps, a, b, fit, relink)[a as int];
    let (p, r) = (ps[a as int], ps[b as int]);
    assert(x.proxies.subrange(0, p.proxies.len() as int) =~= p.proxies);
    assert(x.proxies.subrange(p.proxies.len() as int, x.proxies.len() as int) =~= r.proxies);
}

/// Nobody else changes when one primitive absorbs another, but for their
/// neighbours: where they are relinked, those next to either are next to the
/// one that is left.
pub proof fn law_absorbing_leaves_the_rest(ps: Seq<PrimView>, a: u32, b: u32, fit: Fit, relink: bool, i: int, n: u32)
    requires
        a < ps.len(),
        b < ps.len(),
        a != b,
        0 <= i < ps.len(),
        ps.len() <= u32::MAX,
        i != a,
        i != b,
    ensures
        ({
            let (p, q) = (ps[i], absorbed(ps, a, b, fit, relink)[i]);
            let beside = ps[a as int].neighbors.contains(i as u32) || ps[b as int].neighbors.contains(i as u32);
            &&& q.alive == p.alive
            &&& q.version == p.version
            &&& q.q == p.q
            &&& q.prim == p.prim
            &&& q.volume == p.volume
            &&& q.weighted_volume == p.weighted_volume
            &&& q.face_count == p.face_count
            &&& q.vertices == p.vertices
            &&& q.fit_vertices == p.fit_vertices
            &&& q.proxies == p.proxies
            &&& q.neighbors.contains(n) == (if relink && beside {
                n == a || (n != b && p.neighbors.contains(n))
            } else {
                p.neighbors.contains(n)
            })
        }),
{
}

/// One primitive fewer is alive after an absorption.
pub proof fn law_absorb_takes_one(ps: Seq<PrimView>, a: u32, b: u32, fit: Fit, relink: bool)
    requires
        a < ps.len(),
        b < ps.len(),
        a != b,
        ps[a as int].alive,
        ps[b as int].alive,
    ensures
        live_count(absorbed(ps, a, b, fit, relink)) + 1 == live_count(ps),
{
    let qs = absorbed(ps, a, b, fit, relink);
    assert forall|i: int| 0 <= i < ps.len() && i != b implies (#[trigger] qs[i]).alive == ps[i].alive by {}
    lemma_live_count_minus_one(ps, qs, b as int);
}

proof fn lemma_live_count_minus_one(ps: Seq<PrimView>, qs: Seq<PrimView>, b: int)
    requires
        ps.len() == qs.len(),
        0 <= b < ps.len(),
        ps[b].alive,
        !qs[b].alive,
        forall|i: int| 0 <= i < ps.len() && i != b ==> (#[trigger] qs[i]).alive == ps[i].alive,
    ensures
        live_count(qs) + 1 == live_count(ps),
    decreases ps.len(),
{
    let (p0, q0) = (ps.drop_last(), qs.drop_last());
    assert forall|i: int| 0 <= i < p0.len() && i != b implies (#[trigger] q0[i]).alive == p0[i].alive by {
        assert(qs[i].alive == ps[i].alive);
    }
    if b == ps.len() - 1 {
        lemma_live_count_same(p0, q0);
    } else {
        lemma_live_count_minus_one(p0, q0, b);
        assert(qs[ps.len() - 1].alive == ps[ps.len() - 1].alive);
    }
}

pub proof fn lemma_live_count_same(ps: Seq<PrimView>, qs: Seq<PrimView>)
    requires
        ps.len() == qs.len(),
        forall|i: int| 0 <= i < ps.len() ==> (#[trigger] qs[i]).alive == ps[i].alive,
    ensures
        live_count(qs) == live_count(ps),
    decreases ps.len(),
{
    if ps.len() > 0 {
        let (p0, q0) = (ps.drop_last(), qs.drop_last());
        assert forall|i: int| 0 <= i < p0.len() implies (#[trigger] q0[i]).alive == p0[i].alive by {
            assert(qs[i].alive == ps[i].alive);
        }
        lemma_live_count_same(p0, q0);
        assert(qs[ps.len() - 1].alive == ps[ps.len() - 1].alive);
    }
}

/// An absorption loses no face.
pub proof fn law_absorb_keeps_faces(ps: Seq<PrimView>, a: u32, b: u32, fit: Fit, relink: bool)
    requires
        a < ps.len(),
        b < ps.len(),
        a != b,
    ensures
        face_total(absorbed(ps, a, b, fit, relink)) == face_total(ps),
{
    let qs = absorbed(ps, a, b, fit, relink);
    let mid = ps.update(a as int, qs[a as int]);
    lemma_face_total_step(ps, mid, a as int);
    lemma_face_total_step(mid, qs, b as int);
}

proof fn lemma_face_total_step(ps: Seq<PrimView>, qs: Seq<PrimView>, k: int)
    requires
        ps.len() == qs.len(),
        0 <= k < ps.len(),
        forall|i: int| 0 <= i < ps.len() && i != k ==> (#[trigger] qs[i]).face_count == ps[i].face_count,
    ensures
        face_total(qs) + ps[k].face_count == face_total(ps) + qs[k].face_count,
    decreases ps.len(),
{
    let (p0, q0) = (ps.drop_last(), qs.drop_last());
    assert forall|i: int| 0 <= i < p0.len() && i != k implies (#[trigger] q0[i]).face_count == p0[i].face_count by {
        assert(qs[i].face_count == ps[i].face_count);
    }
    if k == ps.len() - 1 {
        lemma_face_total_same(p0, q0);
    } else {
        lemma_face_total_step(p0, q0, k);
        assert(qs[ps.len() - 1].face_count == ps[ps.len() - 1].face_count);
    }
}

proof fn lemma_face_total_same(ps: Seq<PrimView>, qs: Seq<PrimView>)
    requires
        ps.len() == qs.len(),
        forall|i: int| 0 <= i < ps.len() ==> (#[trigger] qs[i]).face_count == ps[i].face_count,
    ensures
        face_total(qs) == face_total(ps),
    decreases ps.len(),
{
    if ps.len() > 0 {
        let (p0, q0) = (ps.drop_last(), qs.drop_last());
        assert forall|i: int| 0 <= i < p0.len() implies (#[trigger] q0[i]).face_count == p0[i].face_count by {
            assert(qs[i].face_count == ps[i].face_count);
        }
        lemma_face_total_same(p0, q0);
        assert(qs[ps.len() - 1].face_count == ps[ps.len() - 1].face_count);
    }
}

/// Where only the listed primitives can be alive, and those are that are
/// flagged, the flags give their number.
pub proof fn lemma_live_count_listed(ps: Seq<PrimView>, list: Seq<u32>, live: Seq<bool>)
    requires
        list.len() == live.len(),
        list.no_duplicates(),
        forall|g: int| 0 <= g < list.len() ==> (#[trigger] list[g]) < ps.len(),
        forall|g: int| 0 <= g < list.len() ==> ps[#[trigger] list[g] as int].alive == live[g],
        forall|i: int| 0 <= i < ps.len() && !list.contains(i as u32) ==> !(#[trigger] ps[i]).alive,
        ps.len() <= u32::MAX,
    ensures
        live_count(ps) == count_true(live),
    decreases list.len(),
{
    if list.len() == 0 {
        lemma_all_dead(ps);
    } else {
        let h = list.last();
        let (l, f) = (list.drop_last(), live.drop_last());
        let qs = ps.update(h as int, emptied(ps[h as int]));
        assert(!l.contains(h)) by {
            if l.contains(h) {
                let k = choose|k: int| 0 <= k < l.len() && l[k] == h;
                assert(list[k] == list[list.len() - 1]);
            }
        }
        assert forall|g: int| 0 <= g < l.len() implies qs[#[trigger] l[g] as int].alive == f[g] by {
            assert(l.contains(l[g]));
            assert(ps[list[g] as int].alive == live[g]);
        }
        assert forall|g: int| 0 <= g < l.len() implies (#[trigger] l[g]) < qs.len() by {
            assert(list[g] < ps.len());
        }
        assert forall|i: int| 0 <= i < qs.len() && !l.contains(i as u32) implies !(#[trigger] qs[i]).alive by {
            if i != h {
                assert(!list.contains(i as u32)) by {
                    if list.contains(i as u32) {
                        let k = choose|k: int| 0 <= k < list.len() && list[k] == i as u32;
                        assert(l[k] == i as u32);
                    }
                }
                assert(!ps[i].alive);
            }
        }
        lemma_live_count_listed(qs, l, f);
        assert(ps[list[list.len() - 1] as int].alive == live[live.len() - 1]);
        if live.last() {
            lemma_live_count_minus_one(ps, qs, h as int);
        } else {
            lemma_live_count_same(ps, qs);
        }
    }
}

proof fn lemma_all_dead(ps: Seq<PrimView>)
    requires
        forall|i: int| 0 <= i < ps.len() ==> !(#[trigger] ps[i]).alive,
    ensures
        live_count(ps) == 0,
    decreases ps.len(),
{
    if ps.len() > 0 {
        assert(!ps[ps.len() - 1].alive);
        assert forall|i: int| 0 <= i < ps.drop_last().len() implies !(#[trigger] ps.drop_last()[i]).alive by {
            assert(!ps[i].alive);
        }
        lemma_all_dead(ps.drop_last());
    }
}

/// The live primitives of a list are those of its two parts.
pub proof fn lemma_live_count_parts(ps: Seq<PrimView>, n: int)
    requires
        0 <= n <= ps.len(),
    ensures
        live_count(ps) == live_count(ps.subrange(0, n)) + live_count(ps.subrange(n, ps.len() as int)),
    decreases ps.len(),
{
    if n == ps.len() {
        assert(ps.subrange(0, n) =~= ps);
    } else {
        let qs = ps.drop_last();
        lemma_live_count_parts(qs, n);
        assert(qs.subrange(0, n) =~= ps.subrange(0, n));
        assert(ps.subrange(n, ps.len() as int).drop_last() =~= qs.subrange(n, qs.len() as int));
        assert(ps.subrange(n, ps.len() as int).last() == ps.last());
    }
}

/// The proxy points of a joined primitive: those of both, in order.
pub fn merge_fit_proxy_points(a: &Vec<Vec3>, b: &Vec<Vec3>) -> (out: Vec<Vec3>)
    ensures
        out@ == a@ + b@,
{
    let mut out: Vec<Vec3> = Vec::new();
    let mut i: usize = 0;
    while i < a.len()
        invariant
            i <= a@.len(),
            out@ == a@.subrange(0, i as int),
        decreases a@.len() - i,
    {
        out.push(a[i]);
        assert(a@.subrange(0, i + 1) =~= a@.subrange(0, i as int).push(a@[i as int]));
        i += 1;
    }
    assert(a@.subrange(0, i as int) =~= a@);
    let mut j: usize = 0;
    assert(a@ + b@.subrange(0, 0) =~= a@);
    while j < b.len()
        invariant
            j <= b@.len(),
            out@ == a@ + b@.subrange(0, j as int),
        decreases b@.len() - j,
    {
        out.push(b[j]);
        assert(a@ + b@.subrange(0, j + 1) =~= (a@ + b@.subrange(0, j as int)).push(b@[j as int]));
        j += 1;
    }
    assert(b@.subrange(0, j as int) =~= b@);
    out
}

/// Primitive `a` absorbs primitive `b`.
pub fn absorb(prims: &mut Vec<Primitive>, a: u32, b: u32, fit: Fit, relink: bool)
    requires
        a < old(prims)@.len(),
        b < old(prims)@.len(),
        a != b,
        old(prims)@.len() <= u32::MAX,
        all_wf(old(prims)@),
        old(prims)@[a as int].version < u64::MAX,
        old(prims)@[a as int].face_count + old(prims)@[b as int].face_count <= u32::MAX,
        forall|n: u32| relink && joint_neighbors(views(old(prims)@), a, b).contains(n) ==> n < old(prims)@.len(),
    ensures
        all_wf(final(prims)@),
        views(final(prims)@) == absorbed(views(old(prims)@), a, b, fit, relink),
        final(prims)@.len() == old(prims)@.len(),
        final(prims)@[a as int].q == fit.q,
        final(prims)@[a as int].prim == fit.prim,
        final(prims)@[a as int].volume == fit.volume,
        final(prims)@[a as int].weighted_volume == fit.weighted_volume,
        final(prims)@[a as int].alive == old(prims)@[a as int].alive,
        final(prims)@[a as int].version == old(prims)@[a as int].version + 1,
        final(prims)@[a as int].face_count == old(prims)@[a as int].face_count + old(prims)@[b as int].face_count,
        !final(prims)@[b as int].alive,
        final(prims)@[b as int].face_count == 0,
{
    let ghost ps = views(prims@);
    let ghost start = prims@;
    let (x, y): (usize, usize) = (a as usize, b as usize);
    let vertices = merge_sorted_unique(&prims[x].vertex_indices, &prims[y].vertex_indices);
    let fit_vertices = merge_sorted_unique(&prims[x].fit_vertex_indices, &prims[y].fit_vertex_indices);
    let proxies = merge_fit_proxy_points(&prims[x].fit_proxy_points, &prims[y].fit_proxy_points);
    let mut neighbors = merge_sorted_unique(&prims[x].neighbors, &prims[y].neighbors);
    set_remove(&mut neighbors, a);
    set_remove(&mut neighbors, b);
    let ghost joint = joint_neighbors(ps, a, b);
    assert(forall|n: u32| #[trigger] neighbors@.contains(n) <==> joint.contains(n));
    if relink {
        let mut i: usize = 0;
        while i < neighbors.len()
            invariant
                a != b,
                a < start.len(),
                b < start.len(),
                start.len() <= u32::MAX,
                all_wf(prims@),
                prims@.len() == start.len(),
                ps == views(start),
                is_set(neighbors@),
                forall|n: u32| #[trigger] neighbors@.contains(n) ==> n < start.len() && n != a && n != b,
                i <= neighbors@.len(),
                forall|k: int|
                    0 <= k < start.len() ==> (#[trigger] prims@[k])@ == (if neighbors@.subrange(0, i as int).contains(
                        k as u32,
                    ) {
                        PrimView { neighbors: ps[k].neighbors.remove(b).insert(a), ..ps[k] }
                    } else {
                        ps[k]
                    }),
                prims@[a as int] == start[a as int],
                prims@[b as int] == start[b as int],
            decreases neighbors@.len() - i,
        {
            let n: u32 = neighbors[i];
            let ghost seen = neighbors@.subrange(0, i as int);
            let ghost before = prims@;
            assert(neighbors@.contains(n));
            assert(!seen.contains(n)) by {
                if seen.contains(n) {
                    let k = choose|k: int| 0 <= k < seen.len() && seen[k] == n;
                    assert(neighbors@[k] < neighbors@[i as int]);
                }
            }
            set_remove(&mut prims[n as usize].neighbors, b);
            set_insert(&mut prims[n as usize].neighbors, a);
            proof {
                let longer = neighbors@.subrange(0, i + 1);
                assert(longer =~= seen.push(n));
                assert forall|k: int| 0 <= k < start.len() implies (#[trigger] prims@[k])@ == (if longer.contains(
                    k as u32,
                ) {
                    PrimView { neighbors: ps[k].neighbors.remove(b).insert(a), ..ps[k] }
                } else {
                    ps[k]
                }) by {
                    assert(longer.contains(k as u32) <==> seen.contains(k as u32) || k as u32 == n) by {
                        if seen.contains(k as u32) {
                            let m = choose|m: int| 0 <= m < seen.len() && seen[m] == k as u32;
                            assert(longer[m] == k as u32);
                        }
                        if k as u32 == n {
                            assert(longer[i as int] == n);
                        }
                    }
                    if k == n {
                        assert(before[k]@ == ps[k]);
                        assert(prims@[k]@.neighbors =~= ps[k].neighbors.remove(b).insert(a));
                    } else {
                        assert(prims@[k] == before[k]);
                    }
                }
            }
            i += 1;
        }
        assert(neighbors@.subrange(0, i as int) =~= neighbors@);
    }
    let ghost linked = prims@;
    let face_count: u32 = prims[x].face_count + prims[y].face_count;
    let version: u64 = prims[x].version + 1;
    let alive: bool = prims[x].alive;
    let whole = Primitive {
        alive,
        version,
        q: fit.q,
        prim: fit.prim,
        volume: fit.volume,
        weighted_volume: fit.weighted_volume,
        face_count,
        vertex_indices: vertices,
        fit_vertex_indices: fit_vertices,
        fit_proxy_points: proxies,
        neighbors,
    };
    prims.set(x, whole);
    clear_slot(prims, b);
    proof {
        let want = absorbed(ps, a, b, fit, relink);
        assert(prims@[a as int]@.neighbors =~= joint);
        assert forall|k: int| 0 <= k < want.len() implies views(prims@)[k] == #[trigger] want[k] by {
            if k != a && k != b {
                assert(prims@[k] == linked[k]);
            }
        }
        assert(views(prims@) =~= want);
    }
}

/// Marks a primitive dead and drops what it held.
pub fn clear_slot(prims: &mut Vec<Primitive>, b: u32)
    requires
        b < old(prims)@.len(),
        all_wf(old(prims)@),
    ensures
        all_wf(final(prims)@),
        final(prims)@.len() == old(prims)@.len(),
        forall|k: int| 0 <= k < old(prims)@.len() && k != b ==> final(prims)@[k] == old(prims)@[k],
        final(prims)@[b as int]@ == emptied(old(prims)@[b as int]@),
        !final(prims)@[b as int].alive,
        final(prims)@[b as int].face_count == 0,
        final(prims)@[b as int].vertex_indices@.len() == 0,
        final(prims)@[b as int].fit_vertex_indices@.len() == 0,
        final(prims)@[b as int].fit_proxy_points@.len() == 0,
        final(prims)@[b as int].neighbors@.len() == 0,
{
    let ghost before = prims@[b as int]@;
    let i: usize = b as usize;
    prims[i].alive = false;
    prims[i].face_count = 0;
    prims[i].vertex_indices = Vec::new();
    prims[i].fit_vertex_indices = Vec::new();
    prims[i].fit_proxy_points = Vec::new();
    prims[i].neighbors = Vec::new();
    assert(prims@[b as int]@.neighbors =~= Set::empty());
    assert(prims@[b as int]@ == emptied(before));
}

/// The primitives that are alive, in order.
pub fn live_indices(prims: &Vec<Primitive>) -> (live: Vec<u32>)
    requires
        prims@.len() <= u32::MAX,
    ensures
        is_set(live@),
        forall|n: u32| #[trigger] live@.contains(n) <==> n < prims@.len() && prims@[n as int].alive,
        live@.len() == live_count(views(prims@)),
{
    let mut live: Vec<u32> = Vec::new();
    let mut i: usize = 0;
    assert(views(prims@).subrange(0, 0) =~= Seq::empty());
    while i < prims.len()
        invariant
            prims@.len() <= u32::MAX,
            i <= prims@.len(),
            is_set(live@),
            forall|k: int| 0 <= k < live@.len() ==> (#[trigger] live@[k]) < i,
            forall|n: u32| #[trigger] live@.contains(n) <==> n < i && prims@[n as int].alive,
            live@.len() == live_count(views(prims@).subrange(0, i as int)),
        decreases prims@.len() - i,
    {
        let ghost before = live@;
        proof {
            let longer = views(prims@).subrange(0, i + 1);
            assert(longer.drop_last() =~= views(prims@).subrange(0, i as int));
            assert(longer.last() == prims@[i as int]@);
        }
        if prims[i].alive {
            live.push(i as u32);
        }
        proof {
            assert forall|n: u32| #[trigger] live@.contains(n) <==> n < i + 1 && prims@[n as int].alive by {
                assert(before.contains(n) <==> n < i && prims@[n as int].alive);
                if before.contains(n) {
                    let k = choose|k: int| 0 <= k < before.len() && before[k] == n;
                    assert(live@[k] == n);
                }
                if n == i && prims@[n as int].alive {
                    assert(live@[before.len() as int] == n);
                }
                if live@.contains(n) && n != i {
                    let k = choose|k: int| 0 <= k < live@.len() && live@[k] == n;
                    assert(before[k] == n);
                }
            }
        }
        i += 1;
    }
    assert(views(prims@).subrange(0, i as int) =~= views(prims@));
    live
}

/// A primitive more counts where it is alive, with the faces it has.
pub proof fn law_one_more_primitive(ps: Seq<PrimView>, p: PrimView, flags: Seq<bool>, b: bool)
    ensures
        live_count(ps.push(p)) == live_count(ps) + (if p.alive {
            1int
        } else {
            0int
        }),
        face_total(ps.push(p)) == face_total(ps) + p.face_count,
        count_true(flags.push(b)) == count_true(flags) + (if b {
            1int
        } else {
            0int
        }),
        live_count(Seq::empty()) == 0,
        face_total(Seq::empty()) == 0,
        count_true(Seq::empty()) == 0,
{
    assert(ps.push(p).drop_last() =~= ps);
    assert(flags.push(b).drop_last() =~= flags);
}

/// A primitive that is emptied is dead and holds nothing, but keeps its shape
/// and its version.
pub proof fn law_emptied_holds_nothing(p: PrimView, n: u32)
    ensures
        !emptied(p).alive,
        emptied(p).face_count == 0,
        emptied(p).vertices.len() == 0,
        emptied(p).fit_vertices.len() == 0,
        emptied(p).proxies.len() == 0,
        !emptied(p).neighbors.contains(n),
        emptied(p).version == p.version,
        emptied(p).q == p.q,
        emptied(p).prim == p.prim,
        emptied(p).volume == p.volume,
        emptied(p).weighted_volume == p.weighted_volume,
{
}

} // verus!
