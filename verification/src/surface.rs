//! How the primitives of a decomposition reflect the faces that they own.

use crate::faces::{RingsView, law_splice_keeps_partition};
use crate::mesh::Adjacency;
use crate::primitive::{Fit, PrimView, absorbed, joint_neighbors};
use crate::sets::{is_set, law_merge_is_union};
use vstd::prelude::*;

verus! {

/// The mesh under a decomposition: its triangles, which of them count for
/// fitting, and which are neighbours.
pub struct Surface {
    pub tris: Seq<[u32; 3]>,
    pub support: Seq<bool>,
    pub adj: Adjacency,
}

pub open spec fn has_vertex(t: [u32; 3], x: u32) -> bool {
    t[0] == x || t[1] == x || t[2] == x
}

impl Surface {
    pub open spec fn len(self) -> nat {
        self.tris.len()
    }

    pub open spec fn wf(self) -> bool {
        &&& self.tris.len() <= u32::MAX
        &&& self.support.len() == self.tris.len()
        &&& self.adj.len() == self.tris.len()
        &&& self.adj.wf()
    }

    /// `x` is a vertex of a face of primitive `p`.
    pub open spec fn owns_vertex(self, rv: RingsView, p: u32, x: u32) -> bool {
        exists|f: u32| f < self.len() && #[trigger] rv.owner[f as int] == p && has_vertex(self.tris[f as int], x)
    }

    /// `x` is a vertex of a face of primitive `p` that counts for fitting.
    pub open spec fn owns_fit_vertex(self, rv: RingsView, p: u32, x: u32) -> bool {
        exists|f: u32|
            f < self.len() && #[trigger] rv.owner[f as int] == p && self.support[f as int] && has_vertex(
                self.tris[f as int],
                x,
            )
    }

    /// A face of `p` is a neighbour of a face of `q`.
    pub open spec fn touches(self, rv: RingsView, p: u32, q: u32) -> bool {
        exists|f: u32, g: u32|
            f < self.len() && g < self.len() && rv.owner[f as int] == p && rv.owner[g as int] == q
                && #[trigger] self.adj.has(f, g)
    }

    /// Primitive `i` holds what its faces say: how many they are, their
    /// vertices, and the primitives that they touch.
    pub open spec fn mirrors(self, p: PrimView, rv: RingsView, i: u32) -> bool {
        &&& p.face_count == rv.ring[i as int].len()
        &&& forall|x: u32| #[trigger] p.vertices.contains(x) <==> self.owns_vertex(rv, i, x)
        &&& forall|x: u32| #[trigger] p.fit_vertices.contains(x) <==> self.owns_fit_vertex(rv, i, x)
        &&& forall|j: u32| #[trigger] p.neighbors.contains(j) <==> i != j && self.touches(rv, i, j)
    }

    /// Primitive `i` holds what its faces say, and is alive where it has any.
    pub open spec fn reflects(self, p: PrimView, rv: RingsView, i: u32) -> bool {
        &&& p.alive <==> rv.is_root(i)
        &&& self.mirrors(p, rv, i)
    }

    /// Every primitive reflects its faces.
    pub open spec fn tracks(self, ps: Seq<PrimView>, rv: RingsView) -> bool {
        &&& rv.consistent()
        &&& rv.len() == self.len()
        &&& ps.len() == self.len()
        &&& forall|i: u32| i < self.len() ==> self.reflects(#[trigger] ps[i as int], rv, i)
    }
}

proof fn lemma_touches_symmetric(s: Surface, rv: RingsView, p: u32, q: u32)
    requires
        s.wf(),
        s.touches(rv, p, q),
    ensures
        s.touches(rv, q, p),
{
    let (f, g) = choose|f: u32, g: u32|
        f < s.len() && g < s.len() && rv.owner[f as int] == p && rv.owner[g as int] == q
            && #[trigger] s.adj.has(f, g);
    assert(s.adj.has(g, f));
}

/// Who touches whom after a splice: `a` stands for `b` as well.
proof fn lemma_touches_spliced(s: Surface, rv: RingsView, a: u32, b: u32, p: u32, q: u32)
    requires
        s.wf(),
        rv.consistent(),
        rv.len() == s.len(),
        a < s.len(),
        b < s.len(),
        a != b,
    ensures
        s.touches(rv.spliced(a, b), p, q) <==> p != b && q != b && (s.touches(rv, p, q) || (p == a && s.touches(
            rv,
            b,
            q,
        )) || (q == a && s.touches(rv, p, b)) || (p == a && q == a && s.touches(rv, b, b))),
{
    let w = rv.spliced(a, b);
    if s.touches(w, p, q) {
        let (f, g) = choose|f: u32, g: u32|
            f < s.len() && g < s.len() && w.owner[f as int] == p && w.owner[g as int] == q && #[trigger] s.adj.has(
                f,
                g,
            );
        assert(s.touches(rv, rv.owner[f as int], rv.owner[g as int]));
    }
    if p != b && q != b {
        if s.touches(rv, p, q) {
            let (f, g) = choose|f: u32, g: u32|
                f < s.len() && g < s.len() && rv.owner[f as int] == p && rv.owner[g as int] == q
                    && #[trigger] s.adj.has(f, g);
            assert(w.owner[f as int] == p && w.owner[g as int] == q);
        }
        if p == a && s.touches(rv, b, q) {
            let (f, g) = choose|f: u32, g: u32|
                f < s.len() && g < s.len() && rv.owner[f as int] == b && rv.owner[g as int] == q
                    && #[trigger] s.adj.has(f, g);
            assert(w.owner[f as int] == p && w.owner[g as int] == q);
        }
        if q == a && s.touches(rv, p, b) {
            let (f, g) = choose|f: u32, g: u32|
                f < s.len() && g < s.len() && rv.owner[f as int] == p && rv.owner[g as int] == b
                    && #[trigger] s.adj.has(f, g);
            assert(w.owner[f as int] == p && w.owner[g as int] == q);
        }
        if p == a && q == a && s.touches(rv, b, b) {
            let (f, g) = choose|f: u32, g: u32|
                f < s.len() && g < s.len() && rv.owner[f as int] == b && rv.owner[g as int] == b
                    && #[trigger] s.adj.has(f, g);
            assert(w.owner[f as int] == p && w.owner[g as int] == q);
        }
    }
}

proof fn lemma_vertices_spliced(s: Surface, rv: RingsView, a: u32, b: u32, p: u32, x: u32)
    requires
        rv.len() == s.len(),
        a < s.len(),
        b < s.len(),
        a != b,
    ensures
        s.owns_vertex(rv.spliced(a, b), p, x) <==> p != b && (s.owns_vertex(rv, p, x) || (p == a && s.owns_vertex(
            rv,
            b,
            x,
        ))),
        s.owns_fit_vertex(rv.spliced(a, b), p, x) <==> p != b && (s.owns_fit_vertex(rv, p, x) || (p == a
            && s.owns_fit_vertex(rv, b, x))),
{
    let w = rv.spliced(a, b);
    if s.owns_vertex(w, p, x) {
        let f = choose|f: u32|
            f < s.len() && #[trigger] w.owner[f as int] == p && has_vertex(s.tris[f as int], x);
        assert(s.owns_vertex(rv, rv.owner[f as int], x));
    }
    if s.owns_vertex(rv, p, x) && p != b {
        let f = choose|f: u32|
            f < s.len() && #[trigger] rv.owner[f as int] == p && has_vertex(s.tris[f as int], x);
        assert(w.owner[f as int] == p);
    }
    if p == a && s.owns_vertex(rv, b, x) {
        let f = choose|f: u32|
            f < s.len() && #[trigger] rv.owner[f as int] == b && has_vertex(s.tris[f as int], x);
        assert(w.owner[f as int] == p);
    }
    if s.owns_fit_vertex(w, p, x) {
        let f = choose|f: u32|
            f < s.len() && #[trigger] w.owner[f as int] == p && s.support[f as int] && has_vertex(
                s.tris[f as int],
                x,
            );
        assert(s.owns_fit_vertex(rv, rv.owner[f as int], x));
    }
    if s.owns_fit_vertex(rv, p, x) && p != b {
        let f = choose|f: u32|
            f < s.len() && #[trigger] rv.owner[f as int] == p && s.support[f as int] && has_vertex(
                s.tris[f as int],
                x,
            );
        assert(w.owner[f as int] == p);
    }
    if p == a && s.owns_fit_vertex(rv, b, x) {
        let f = choose|f: u32|
            f < s.len() && #[trigger] rv.owner[f as int] == b && s.support[f as int] && has_vertex(
                s.tris[f as int],
                x,
            );
        assert(w.owner[f as int] == p);
    }
}

/// Absorbing a primitive and splicing its ring keeps every primitive in step
/// with its faces.
pub proof fn law_merge_keeps_tracking(s: Surface, ps: Seq<PrimView>, rv: RingsView, a: u32, b: u32, fit: Fit)
    requires
        s.wf(),
        s.tracks(ps, rv),
        rv.is_root(a),
        rv.is_root(b),
        a != b,
        is_set(ps[a as int].vertices),
        is_set(ps[b as int].vertices),
        is_set(ps[a as int].fit_vertices),
        is_set(ps[b as int].fit_vertices),
    ensures
        s.tracks(absorbed(ps, a, b, fit, true), rv.spliced(a, b)),
{
    let w = rv.spliced(a, b);
    let qs = absorbed(ps, a, b, fit, true);
    law_splice_keeps_partition(rv, a, b);
    let (pa, pb) = (ps[a as int], ps[b as int]);
    assert(s.reflects(pa, rv, a) && s.reflects(pb, rv, b));
    law_merge_is_union(pa.vertices, pb.vertices);
    law_merge_is_union(pa.fit_vertices, pb.fit_vertices);
    let joint = joint_neighbors(ps, a, b);
    assert forall|i: u32| i < s.len() implies s.reflects(#[trigger] qs[i as int], w, i) by {
        let (p, q) = (ps[i as int], qs[i as int]);
        assert(s.reflects(p, rv, i));
        assert(q.alive <==> w.is_root(i));
        assert(q.face_count == w.ring[i as int].len());
        assert forall|x: u32| #[trigger] q.vertices.contains(x) <==> s.owns_vertex(w, i, x) by {
            lemma_vertices_spliced(s, rv, a, b, i, x);
            assert(pa.vertices.contains(x) <==> s.owns_vertex(rv, a, x));
            assert(pb.vertices.contains(x) <==> s.owns_vertex(rv, b, x));
            assert(p.vertices.contains(x) <==> s.owns_vertex(rv, i, x));
        }
        assert forall|x: u32| #[trigger] q.fit_vertices.contains(x) <==> s.owns_fit_vertex(w, i, x) by {
            lemma_vertices_spliced(s, rv, a, b, i, x);
            assert(pa.fit_vertices.contains(x) <==> s.owns_fit_vertex(rv, a, x));
            assert(pb.fit_vertices.contains(x) <==> s.owns_fit_vertex(rv, b, x));
            assert(p.fit_vertices.contains(x) <==> s.owns_fit_vertex(rv, i, x));
        }
        assert forall|j: u32| #[trigger] q.neighbors.contains(j) <==> i != j && s.touches(w, i, j) by {
            lemma_touches_spliced(s, rv, a, b, i, j);
            assert(pa.neighbors.contains(j) <==> a != j && s.touches(rv, a, j));
            assert(pb.neighbors.contains(j) <==> b != j && s.touches(rv, b, j));
            assert(p.neighbors.contains(j) <==> i != j && s.touches(rv, i, j));
            if i != a && i != b {
                assert(pa.neighbors.contains(i) <==> s.touches(rv, a, i));
                assert(pb.neighbors.contains(i) <==> s.touches(rv, b, i));
                if s.touches(rv, a, i) {
                    lemma_touches_symmetric(s, rv, a, i);
                }
                if s.touches(rv, b, i) {
                    lemma_touches_symmetric(s, rv, b, i);
                }
                if s.touches(rv, i, a) {
                    lemma_touches_symmetric(s, rv, i, a);
                }
                if s.touches(rv, i, b) {
                    lemma_touches_symmetric(s, rv, i, b);
                }
                assert(p.neighbors.contains(b) <==> s.touches(rv, i, b));
                assert(p.neighbors.contains(a) <==> s.touches(rv, i, a));
            }
        }
    }
}

/// The vertices of a triangle are its three corners.
pub proof fn law_corners_are_vertices(t: [u32; 3], x: u32)
    ensures
        has_vertex(t, x) <==> t@.contains(x),
{
    assert(t@[0] == t[0] && t@[1] == t[1] && t@[2] == t[2]);
    if t@.contains(x) {
        let i = choose|i: int| 0 <= i < t@.len() && t@[i] == x;
        assert(i == 0 || i == 1 || i == 2);
    }
}

/// What a primitive holds is what its faces have: the corners of all of them,
/// the corners of those that give support, and the owners of the faces next to
/// them.
pub proof fn law_primitive_holds_what_its_faces_have(
    s: Surface,
    ps: Seq<PrimView>,
    rv: RingsView,
    i: u32,
    f: u32,
    g: u32,
    c: int,
    x: u32,
)
    requires
        s.wf(),
        s.tracks(ps, rv),
        i < s.len(),
        f < s.len(),
        g < s.len(),
        0 <= c < 3,
        rv.owner[f as int] == i,
    ensures
        ps[i as int].alive,
        ps[i as int].vertices.contains(s.tris[f as int][c]),
        s.support[f as int] ==> ps[i as int].fit_vertices.contains(s.tris[f as int][c]),
        s.adj.has(f, g) && rv.owner[g as int] != i ==> ps[i as int].neighbors.contains(rv.owner[g as int]),
        ps[i as int].vertices.contains(x) ==> exists|h: u32|
            h < s.len() && #[trigger] rv.owner[h as int] == i && s.tris[h as int]@.contains(x),
        ps[i as int].fit_vertices.contains(x) ==> exists|h: u32|
            h < s.len() && #[trigger] rv.owner[h as int] == i && s.support[h as int] && s.tris[h as int]@.contains(x),
        ps[i as int].neighbors.contains(x) ==> x != i && exists|h: u32, k: u32|
            h < s.len() && k < s.len() && rv.owner[h as int] == i && rv.owner[k as int] == x && #[trigger] s.adj.has(h, k),
        ps[i as int].face_count == rv.ring[i as int].len(),
{
    let p = ps[i as int];
    assert(s.reflects(p, rv, i));
    assert(rv.is_root(rv.owner[f as int]));
    let t = s.tris[f as int];
    assert(c == 0 || c == 1 || c == 2);
    assert(has_vertex(t, t[c]));
    assert(s.owns_vertex(rv, i, t[c]));
    if s.support[f as int] {
        assert(s.owns_fit_vertex(rv, i, t[c]));
    }
    if s.adj.has(f, g) && rv.owner[g as int] != i {
        assert(s.touches(rv, i, rv.owner[g as int]));
    }
    if p.vertices.contains(x) {
        let h = choose|h: u32| h < s.len() && #[trigger] rv.owner[h as int] == i && has_vertex(s.tris[h as int], x);
        law_corners_are_vertices(s.tris[h as int], x);
        assert(rv.owner[h as int] == i);
    }
    if p.fit_vertices.contains(x) {
        let h = choose|h: u32|
            h < s.len() && #[trigger] rv.owner[h as int] == i && s.support[h as int] && has_vertex(s.tris[h as int], x);
        law_corners_are_vertices(s.tris[h as int], x);
        assert(rv.owner[h as int] == i);
    }
}

} // verus!
