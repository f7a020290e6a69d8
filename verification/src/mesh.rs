//! Triangle meshes: edges, adjacency, connected components, welding.

use crate::dsu::{Dsu, DsuView, law_union_joins_two_sets};
use crate::numbering::{
    Numbering, first_positions, id_of, law_ids_appear_in_order, law_ids_tell_keys_apart, lemma_first_positions,
    lemma_id_of, lemma_same_pattern, number,
};
use crate::prim::Vec3;
use crate::scalar::Scalar;
use crate::sets::{is_set, lemma_push_contains};
use vstd::prelude::*;

verus! {

/// The undirected edge between two vertices, lower index first.
pub open spec fn edge(u: u32, v: u32) -> (u32, u32) {
    if u < v {
        (u, v)
    } else {
        (v, u)
    }
}

/// Side `h % 3` of triangle `h / 3`.
pub open spec fn side(tris: Seq<[u32; 3]>, h: int) -> (u32, u32) {
    let t = tris[h / 3];
    edge(t[h % 3], t[(h % 3 + 1) % 3])
}

/// The triangles that have edge `e` among the first `h` sides, in order, once
/// per side.
pub open spec fn incident(tris: Seq<[u32; 3]>, e: (u32, u32), h: nat) -> Seq<u32>
    decreases h,
{
    if h == 0 {
        Seq::empty()
    } else {
        let before = incident(tris, e, (h - 1) as nat);
        if side(tris, h - 1) == e {
            before.push(((h - 1) / 3) as u32)
        } else {
            before
        }
    }
}

/// Triangles `a` and `b` have an edge in common.
pub open spec fn shares_edge(tris: Seq<[u32; 3]>, a: int, b: int) -> bool {
    exists|c: int, d: int|
        0 <= c < 3 && 0 <= d < 3 && #[trigger] side(tris, 3 * a + c) == #[trigger] side(tris, 3 * b + d)
}

/// A triangle is among those incident to an edge exactly when the edge is one
/// of its sides.
proof fn lemma_incident(tris: Seq<[u32; 3]>, e: (u32, u32), h: nat, f: u32)
    requires
        h <= 3 * tris.len(),
        tris.len() <= u32::MAX,
    ensures
        incident(tris, e, h).contains(f) <==> exists|g: int| 0 <= g < h && g / 3 == f && #[trigger] side(tris, g) == e,
        forall|i: int| 0 <= i < incident(tris, e, h).len() ==> (#[trigger] incident(tris, e, h)[i]) < tris.len(),
    decreases h,
{
    if h > 0 {
        let s0 = incident(tris, e, (h - 1) as nat);
        let s = incident(tris, e, h);
        lemma_incident(tris, e, (h - 1) as nat, f);
        let last = (h - 1) / 3;
        if side(tris, h - 1) == e {
            assert(s == s0.push(last as u32));
            if last == f {
                assert(s[s0.len() as int] == f);
            }
            if s0.contains(f) {
                let i = choose|i: int| 0 <= i < s0.len() && s0[i] == f;
                assert(s[i] == f);
            }
            if s.contains(f) {
                let i = choose|i: int| 0 <= i < s.len() && s[i] == f;
                if i < s0.len() {
                    assert(s0[i] == f);
                } else {
                    assert(side(tris, h - 1) == e && (h - 1) / 3 == f);
                }
            }
        }
    }
}

/// Triangles incident to an edge are triangles of the mesh.
pub proof fn lemma_incident_in_range(tris: Seq<[u32; 3]>, e: (u32, u32), h: nat)
    requires
        h <= 3 * tris.len(),
        tris.len() <= u32::MAX,
    ensures
        forall|i: int| 0 <= i < incident(tris, e, h).len() ==> (#[trigger] incident(tris, e, h)[i]) < tris.len(),
{
    lemma_incident(tris, e, h, 0);
}

/// A triangle incident to an edge has it as a side.
pub proof fn lemma_incident_has_side(tris: Seq<[u32; 3]>, e: (u32, u32), h: nat, f: u32)
    requires
        h <= 3 * tris.len(),
        tris.len() <= u32::MAX,
        incident(tris, e, h).contains(f),
    ensures
        exists|g: int| 0 <= g < h && g / 3 == f && #[trigger] side(tris, g) == e,
{
    lemma_incident(tris, e, h, f);
}

/// An undirected edge and the triangles that have it.
pub struct EdgeFaces {
    pub u: u32,
    pub v: u32,
    pub faces: Vec<u32>,
}

/// `edges` lists each edge of the mesh once, with its triangles.
pub open spec fn lists_edges(tris: Seq<[u32; 3]>, edges: Seq<EdgeFaces>) -> bool {
    &&& forall|k: int|
        0 <= k < edges.len() ==> (#[trigger] edges[k]).faces@ == incident(
            tris,
            (edges[k].u, edges[k].v),
            3 * tris.len(),
        ) && edges[k].faces@.len() > 0
    &&& forall|k: int, l: int|
        0 <= k < l < edges.len() ==> ((#[trigger] edges[k]).u, edges[k].v) != (
        (#[trigger] edges[l]).u, edges[l].v)
    &&& forall|h: int| 0 <= h < 3 * tris.len() ==> has_edge(edges, #[trigger] side(tris, h))
}

pub open spec fn has_edge(edges: Seq<EdgeFaces>, e: (u32, u32)) -> bool {
    exists|k: int| 0 <= k < edges.len() && ((#[trigger] edges[k]).u, edges[k].v) == e
}

spec fn edge_code(e: (u32, u32)) -> int {
    e.0 * 0x1_0000_0000 + e.1
}

spec fn sides(tris: Seq<[u32; 3]>, h: nat) -> Seq<(u32, u32)> {
    Seq::new(h, |i: int| side(tris, i))
}

/// Every edge of the mesh with the triangles on it.
pub fn edge_faces(tris: &Vec<[u32; 3]>) -> (edges: Vec<EdgeFaces>)
    requires
        tris@.len() <= u32::MAX,
    ensures
        lists_edges(tris@, edges@),
{
    let mut codes: Vec<u128> = Vec::new();
    let mut lows: Vec<(u32, u32)> = Vec::new();
    let mut i: usize = 0;
    while i < tris.len()
        invariant
            tris@.len() <= u32::MAX,
            i <= tris@.len(),
            codes@.len() == 3 * i,
            lows@.len() == 3 * i,
            forall|h: int| 0 <= h < 3 * i ==> #[trigger] lows@[h] == side(tris@, h),
            forall|h: int| 0 <= h < 3 * i ==> #[trigger] codes@[h] == edge_code(side(tris@, h)),
        decreases tris@.len() - i,
    {
        let t: [u32; 3] = tris[i];
        let mut c: usize = 0;
        while c < 3
            invariant
                tris@.len() <= u32::MAX,
                i < tris@.len(),
                c <= 3,
                t == tris@[i as int],
                codes@.len() == 3 * i + c,
                lows@.len() == 3 * i + c,
                forall|h: int| 0 <= h < 3 * i + c ==> #[trigger] lows@[h] == side(tris@, h),
                forall|h: int| 0 <= h < 3 * i + c ==> #[trigger] codes@[h] == edge_code(side(tris@, h)),
            decreases 3 - c,
        {
            let a: u32 = t[c];
            let b: u32 = t[if c == 2 { 0 } else { c + 1 }];
            let (u, v): (u32, u32) = if a < b { (a, b) } else { (b, a) };
            proof {
                let h = 3 * i + c;
                assert(h / 3 == i && h % 3 == c);
                assert((h % 3 + 1) % 3 == (if c == 2 { 0int } else { c + 1 }));
                assert(side(tris@, h) == (u, v));
            }
            lows.push((u, v));
            codes.push(u as u128 * 0x1_0000_0000u128 + v as u128);
            c += 1;
        }
        i += 1;
    }
    let ghost n3 = 3 * tris@.len();
    let ghost ss = sides(tris@, n3);
    let numbering = number(&codes);
    proof {
        assert forall|k: int, l: int| 0 <= k < codes@.len() && 0 <= l < codes@.len() implies (#[trigger] codes@[k]
            == #[trigger] codes@[l] <==> ss[k] == ss[l]) by {
            assert(codes@[k] == edge_code(side(tris@, k)));
            assert(codes@[l] == edge_code(side(tris@, l)));
        }
        lemma_same_pattern(codes@, ss);
        lemma_first_positions(ss);
    }
    let mut edges: Vec<EdgeFaces> = Vec::new();
    let mut k: usize = 0;
    while k < numbering.firsts.len()
        invariant
            n3 == 3 * tris@.len(),
            ss == sides(tris@, n3),
            lows@.len() == n3,
            forall|h: int| 0 <= h < n3 ==> #[trigger] lows@[h] == side(tris@, h),
            numbering.firsts@.len() == first_positions(ss).len(),
            forall|j: int| 0 <= j < numbering.firsts@.len() ==> #[trigger] numbering.firsts@[j] == first_positions(ss)[j],
            forall|j: int| 0 <= j < first_positions(ss).len() ==> 0 <= (#[trigger] first_positions(ss)[j]) < n3,
            k <= numbering.firsts@.len(),
            edges@.len() == k,
            forall|j: int|
                0 <= j < k ==> ((#[trigger] edges@[j]).u, edges@[j].v) == ss[first_positions(ss)[j]]
                    && edges@[j].faces@ == Seq::<u32>::empty(),
        decreases numbering.firsts@.len() - k,
    {
        let (u, v): (u32, u32) = lows[numbering.firsts[k]];
        edges.push(EdgeFaces { u, v, faces: Vec::new() });
        k += 1;
    }
    let mut h: usize = 0;
    let mut f: u32 = 0;
    let mut c: u8 = 0;
    while h < codes.len()
        invariant
            tris@.len() <= u32::MAX,
            n3 == 3 * tris@.len(),
            ss == sides(tris@, n3),
            codes@.len() == n3,
            numbering.ids@.len() == n3,
            forall|j: int| 0 <= j < n3 ==> #[trigger] numbering.ids@[j] == id_of(ss, ss[j]),
            edges@.len() == first_positions(ss).len(),
            h <= n3,
            h == 3 * f + c,
            c < 3,
            forall|j: int|
                0 <= j < edges@.len() ==> ((#[trigger] edges@[j]).u, edges@[j].v) == ss[first_positions(ss)[j]]
                    && edges@[j].faces@ == incident(tris@, ss[first_positions(ss)[j]], h as nat),
        decreases n3 - h,
    {
        proof {
            lemma_id_of(ss, h as int);
            lemma_first_positions(ss);
            assert(h / 3 == f);
            assert(side(tris@, h as int) == ss[h as int]);
        }
        let id: usize = numbering.ids[h];
        let ghost before = edges@;
        edges[id].faces.push(f);
        proof {
            assert forall|j: int| 0 <= j < edges@.len() implies ((#[trigger] edges@[j]).u, edges@[j].v)
                == ss[first_positions(ss)[j]] && edges@[j].faces@ == incident(
                tris@,
                ss[first_positions(ss)[j]],
                (h + 1) as nat,
            ) by {
                assert(before[j].faces@ == incident(tris@, ss[first_positions(ss)[j]], h as nat));
                let p = first_positions(ss)[j];
                if j != id {
                    assert(edges@[j] == before[j]);
                    assert(ss[p] != ss[first_positions(ss)[id as int]]);
                    assert(ss[h as int] == ss[first_positions(ss)[id as int]]);
                } else {
                    assert(ss[p] == ss[h as int]);
                }
            }
        }
        h += 1;
        if c == 2 {
            c = 0;
            f = f + 1;
        } else {
            c = c + 1;
        }
    }
    proof {
        let fp = first_positions(ss);
        assert forall|k: int| 0 <= k < edges@.len() implies (#[trigger] edges@[k]).faces@.len() > 0 by {
            let p = fp[k];
            lemma_incident(tris@, ss[p], n3, (p / 3) as u32);
            assert(side(tris@, p) == ss[p]);
            assert(edges@[k].faces@.contains((p / 3) as u32));
        }
        assert forall|k: int, l: int| 0 <= k < l < edges@.len() implies ((#[trigger] edges@[k]).u, edges@[k].v) != (
        (#[trigger] edges@[l]).u, edges@[l].v) by {
            assert(ss[fp[k]] != ss[fp[l]]);
        }
        assert forall|h: int| 0 <= h < n3 implies has_edge(edges@, #[trigger] side(tris@, h)) by {
            lemma_id_of(ss, h);
            let k = id_of(ss, ss[h]);
            assert((edges@[k].u, edges@[k].v) == side(tris@, h));
        }
    }
    edges
}

/// Which triangles are neighbours of which.
pub struct Adjacency {
    pub neighbors: Vec<Vec<u32>>,
}

impl Adjacency {
    pub open spec fn len(&self) -> nat {
        self.neighbors@.len()
    }

    /// `b` is listed as a neighbour of `a`.
    pub open spec fn has(&self, a: u32, b: u32) -> bool {
        self.neighbors@[a as int]@.contains(b)
    }

    /// Every listed neighbour is a face.
    pub open spec fn in_range(&self) -> bool {
        forall|a: int, i: int|
            0 <= a < self.len() && 0 <= i < self.neighbors@[a]@.len() ==> (#[trigger] self.neighbors@[a]@[i])
                < self.len()
    }

    /// A graph on the faces: neighbours are faces, listed once, none its own,
    /// and the relation goes both ways.
    pub open spec fn wf(&self) -> bool {
        &&& self.len() <= u32::MAX
        &&& self.in_range()
        &&& forall|a: int| 0 <= a < self.len() ==> (#[trigger] self.neighbors@[a])@.no_duplicates()
        &&& forall|a: u32| a < self.len() ==> !(#[trigger] self.has(a, a))
        &&& forall|a: u32, b: u32| a < self.len() && b < self.len() && #[trigger] self.has(a, b) ==> self.has(b, a)
    }
}

/// Both triangles are on one of the first `k` edges.
spec fn meet(edges: Seq<EdgeFaces>, k: int, a: u32, b: u32) -> bool {
    exists|j: int| 0 <= j < k && (#[trigger] edges[j]).faces@.contains(a) && edges[j].faces@.contains(b)
}

proof fn lemma_meet_shares_edge(tris: Seq<[u32; 3]>, edges: Seq<EdgeFaces>, a: u32, b: u32)
    requires
        tris.len() <= u32::MAX,
        lists_edges(tris, edges),
        a < tris.len(),
        b < tris.len(),
    ensures
        meet(edges, edges.len() as int, a, b) <==> shares_edge(tris, a as int, b as int),
{
    let n3 = 3 * tris.len();
    if meet(edges, edges.len() as int, a, b) {
        let j = choose|j: int|
            0 <= j < edges.len() && (#[trigger] edges[j]).faces@.contains(a) && edges[j].faces@.contains(b);
        let e = (edges[j].u, edges[j].v);
        lemma_incident(tris, e, n3, a);
        lemma_incident(tris, e, n3, b);
        let g = choose|g: int| 0 <= g < n3 && g / 3 == a && #[trigger] side(tris, g) == e;
        let h = choose|h: int| 0 <= h < n3 && h / 3 == b && #[trigger] side(tris, h) == e;
        assert(side(tris, 3 * a + g % 3) == side(tris, 3 * b + h % 3));
    }
    if shares_edge(tris, a as int, b as int) {
        let (c, d) = choose|c: int, d: int|
            0 <= c < 3 && 0 <= d < 3 && #[trigger] side(tris, 3 * a + c) == #[trigger] side(tris, 3 * b + d);
        let (g, h) = (3 * a + c, 3 * b + d);
        assert(g / 3 == a && h / 3 == b);
        assert(has_edge(edges, side(tris, g)));
        let j = choose|j: int| 0 <= j < edges.len() && ((#[trigger] edges[j]).u, edges[j].v) == side(tris, g);
        lemma_incident(tris, side(tris, g), n3, a);
        lemma_incident(tris, side(tris, g), n3, b);
        assert(edges[j].faces@.contains(a) && edges[j].faces@.contains(b));
    }
}

fn list_contains(v: &Vec<u32>, x: u32) -> (found: bool)
    ensures
        found == v@.contains(x),
{
    let mut i: usize = 0;
    while i < v.len()
        invariant
            i <= v@.len(),
            forall|k: int| 0 <= k < i ==> v@[k] != x,
        decreases v@.len() - i,
    {
        if v[i] == x {
            return true;
        }
        i += 1;
    }
    false
}

/// Two triangles are neighbours exactly when they are different and share an
/// edge; each neighbour is listed once.
pub fn build_adjacency(tris: &Vec<[u32; 3]>) -> (adj: Adjacency)
    requires
        tris@.len() <= u32::MAX,
    ensures
        adj.len() == tris@.len(),
        adj.wf(),
        forall|a: u32, b: u32|
            a < tris@.len() ==> (#[trigger] adj.has(a, b) <==> b < tris@.len() && a != b && shares_edge(
                tris@,
                a as int,
                b as int,
            )),
{
    let edges = edge_faces(tris);
    let mut neighbors: Vec<Vec<u32>> = Vec::new();
    let mut i: usize = 0;
    while i < tris.len()
        invariant
            i <= tris@.len(),
            neighbors@.len() == i,
            forall|a: int| 0 <= a < i ==> (#[trigger] neighbors@[a])@ == Seq::<u32>::empty(),
        decreases tris@.len() - i,
    {
        neighbors.push(Vec::new());
        i += 1;
    }
    let mut k: usize = 0;
    while k < edges.len()
        invariant
            tris@.len() <= u32::MAX,
            lists_edges(tris@, edges@),
            k <= edges@.len(),
            neighbors@.len() == tris@.len(),
            forall|a: int| 0 <= a < neighbors@.len() ==> (#[trigger] neighbors@[a])@.no_duplicates(),
            forall|a: int, b: u32|
                0 <= a < neighbors@.len() ==> (#[trigger] neighbors@[a]@.contains(b) <==> a != b && meet(
                    edges@,
                    k as int,
                    a as u32,
                    b,
                )),
        decreases edges@.len() - k,
    {
        let faces: &Vec<u32> = &edges[k].faces;
        proof {
            lemma_incident(tris@, (edges@[k as int].u, edges@[k as int].v), 3 * tris@.len(), 0);
            assert forall|a: u32, b: u32| #[trigger] meet(edges@, k + 1, a, b) <==> meet(edges@, k as int, a, b)
                || (faces@.contains(a) && faces@.contains(b)) by {
                if faces@.contains(a) && faces@.contains(b) {
                    assert(edges@[k as int].faces@.contains(a));
                }
            }
        }
        let mut i: usize = 0;
        while i < faces.len()
            invariant
                tris@.len() <= u32::MAX,
                faces@ == edges@[k as int].faces@,
                forall|x: int| 0 <= x < faces@.len() ==> (#[trigger] faces@[x]) < tris@.len(),
                i <= faces@.len(),
                neighbors@.len() == tris@.len(),
                forall|a: int| 0 <= a < neighbors@.len() ==> (#[trigger] neighbors@[a])@.no_duplicates(),
                forall|a: int, b: u32|
                    0 <= a < neighbors@.len() ==> (#[trigger] neighbors@[a]@.contains(b) <==> a != b && (meet(
                        edges@,
                        k as int,
                        a as u32,
                        b,
                    ) || (faces@.subrange(0, i as int).contains(a as u32) && faces@.contains(b)))),
            decreases faces@.len() - i,
        {
            let a: u32 = faces[i];
            let ghost fi = faces@.subrange(0, i as int);
            let ghost start = neighbors@;
            let mut j: usize = 0;
            while j < faces.len()
                invariant
                    tris@.len() <= u32::MAX,
                    forall|x: int| 0 <= x < faces@.len() ==> (#[trigger] faces@[x]) < tris@.len(),
                    a < tris@.len(),
                    j <= faces@.len(),
                    neighbors@.len() == tris@.len(),
                    start.len() == tris@.len(),
                    forall|x: int| 0 <= x < neighbors@.len() ==> (#[trigger] neighbors@[x])@.no_duplicates(),
                    forall|x: int| 0 <= x < neighbors@.len() && x != a ==> (#[trigger] neighbors@[x]) == start[x],
                    forall|b: u32| #[trigger]
                        neighbors@[a as int]@.contains(b) <==> start[a as int]@.contains(b) || (a != b
                            && faces@.subrange(0, j as int).contains(b)),
                decreases faces@.len() - j,
            {
                let b: u32 = faces[j];
                let ghost fj = faces@.subrange(0, j as int);
                let ghost was = neighbors@[a as int]@;
                assert(faces@.subrange(0, j + 1) =~= fj.push(b));
                if a != b && !list_contains(&neighbors[a as usize], b) {
                    neighbors[a as usize].push(b);
                    assert(neighbors@[a as int]@ == was.push(b));
                }
                proof {
                    assert forall|x: u32| #[trigger] neighbors@[a as int]@.contains(x) <==> start[a as int]@.contains(x)
                        || (a != x && faces@.subrange(0, j + 1).contains(x)) by {
                        lemma_push_contains(fj, b, x);
                        lemma_push_contains(was, b, x);
                        assert(was.contains(x) <==> start[a as int]@.contains(x) || (a != x && fj.contains(x)));
                    }
                }
                j += 1;
            }
            proof {
                assert(faces@.subrange(0, j as int) =~= faces@);
                assert(faces@.subrange(0, i + 1) =~= fi.push(a));
                assert forall|x: int, b: u32| 0 <= x < neighbors@.len() implies (#[trigger] neighbors@[x]@.contains(b)
                    <==> x != b && (meet(edges@, k as int, x as u32, b) || (faces@.subrange(0, i + 1).contains(
                    x as u32,
                ) && faces@.contains(b)))) by {
                    lemma_push_contains(fi, a, x as u32);
                    assert(start[x]@.contains(b) <==> x != b && (meet(edges@, k as int, x as u32, b) || (
                    fi.contains(x as u32) && faces@.contains(b))));
                }
            }
            i += 1;
        }
        proof {
            assert(faces@.subrange(0, i as int) =~= faces@);
            assert forall|a: int, b: u32| 0 <= a < neighbors@.len() implies (#[trigger] neighbors@[a]@.contains(b)
                <==> a != b && meet(edges@, k + 1, a as u32, b)) by {
                assert(meet(edges@, k + 1, a as u32, b) <==> meet(edges@, k as int, a as u32, b) || (
                faces@.contains(a as u32) && faces@.contains(b)));
            }
        }
        k += 1;
    }
    let adj = Adjacency { neighbors };
    proof {
        assert forall|a: u32, b: u32| a < tris@.len() implies (#[trigger] adj.has(a, b) <==> b < tris@.len()
            && a != b && shares_edge(tris@, a as int, b as int)) by {
            let ai = a as int;
            assert(adj.neighbors@[ai]@.contains(b) <==> ai != b && meet(edges@, edges@.len() as int, ai as u32, b));
            if meet(edges@, edges@.len() as int, a, b) {
                let j = choose|j: int|
                    0 <= j < edges@.len() && (#[trigger] edges@[j]).faces@.contains(a)
                        && edges@[j].faces@.contains(b);
                lemma_incident(tris@, (edges@[j].u, edges@[j].v), 3 * tris@.len(), b);
                let x = choose|x: int| 0 <= x < edges@[j].faces@.len() && edges@[j].faces@[x] == b;
                assert(b < tris@.len());
            }
            if b < tris@.len() {
                lemma_meet_shares_edge(tris@, edges@, a, b);
            }
        }
        assert forall|a: int, i: int| 0 <= a < adj.len() && 0 <= i < adj.neighbors@[a]@.len() implies (
        #[trigger] adj.neighbors@[a]@[i]) < adj.len() by {
            assert(adj.has(a as u32, adj.neighbors@[a]@[i]));
        }
        assert forall|a: u32, b: u32| a < adj.len() && b < adj.len() && #[trigger] adj.has(a, b) implies adj.has(
            b,
            a,
        ) by {
            let (c, d) = choose|c: int, d: int|
                0 <= c < 3 && 0 <= d < 3 && #[trigger] side(tris@, 3 * a + c) == #[trigger] side(tris@, 3 * b + d);
            assert(side(tris@, 3 * b + d) == side(tris@, 3 * a + c));
        }
    }
    adj
}

/// One of the two faces is listed as a neighbour of the other.
pub open spec fn linked(adj: Adjacency, a: u32, b: u32) -> bool {
    a < adj.len() && b < adj.len() && (adj.has(a, b) || adj.has(b, a))
}

/// Each face of the path is linked to the next one.
pub open spec fn is_path(adj: Adjacency, path: Seq<u32>) -> bool {
    &&& path.len() > 0
    &&& forall|i: int| 0 <= i < path.len() ==> (#[trigger] path[i]) < adj.len()
    &&& forall|i: int| 0 <= i < path.len() - 1 ==> linked(adj, #[trigger] path[i], path[i + 1])
}

/// A path leads from `a` to `b`.
pub open spec fn connected(adj: Adjacency, a: u32, b: u32) -> bool {
    exists|path: Seq<u32>| #[trigger] is_path(adj, path) && path[0] == a && path.last() == b
}

/// Being connected is an equivalence relation on the faces.
pub proof fn law_connected_is_an_equivalence(adj: Adjacency, a: u32, b: u32, c: u32)
    requires
        a < adj.len(),
    ensures
        connected(adj, a, a),
        connected(adj, a, b) ==> connected(adj, b, a),
        connected(adj, a, b) && connected(adj, b, c) ==> connected(adj, a, c),
{
    let lone = seq![a];
    assert(is_path(adj, lone) && lone[0] == a && lone.last() == a);
    if connected(adj, a, b) {
        let p = choose|path: Seq<u32>| #[trigger] is_path(adj, path) && path[0] == a && path.last() == b;
        let n = p.len() as int;
        let back = Seq::new(p.len(), |i: int| p[n - 1 - i]);
        assert forall|i: int| 0 <= i < back.len() - 1 implies linked(adj, #[trigger] back[i], back[i + 1]) by {
            assert(linked(adj, p[n - 2 - i], p[n - 2 - i + 1]));
        }
        assert(is_path(adj, back) && back[0] == b && back.last() == a);
        if connected(adj, b, c) {
            let q = choose|path: Seq<u32>| #[trigger] is_path(adj, path) && path[0] == b && path.last() == c;
            let tail = q.subrange(1, q.len() as int);
            let r = p + tail;
            assert forall|i: int| 0 <= i < r.len() - 1 implies linked(adj, #[trigger] r[i], r[i + 1]) by {
                if i < n - 1 {
                    assert(linked(adj, p[i], p[i + 1]));
                } else {
                    let k = i - n + 1;
                    assert(r[i] == q[k]);
                    assert(r[i + 1] == q[k + 1]);
                    assert(linked(adj, q[k], q[k + 1]));
                }
            }
            assert forall|i: int| 0 <= i < r.len() implies (#[trigger] r[i]) < adj.len() by {
                if i >= n {
                    assert(r[i] == q[i - n + 1]);
                }
            }
            assert(r[0] == a);
            assert(r.last() == c);
            assert(is_path(adj, r));
        }
    }
}

/// Every set holds only faces that are connected.
spec fn sets_are_connected(adj: Adjacency, d: DsuView) -> bool {
    forall|x: u32, y: u32|
        x < d.len() && y < d.len() && #[trigger] d.rep[x as int] == #[trigger] d.rep[y as int] ==> connected(
            adj,
            x,
            y,
        )
}

proof fn lemma_path_in_one_set(adj: Adjacency, d: DsuView, path: Seq<u32>)
    requires
        is_path(adj, path),
        forall|a: u32, b: u32| a < adj.len() && b < adj.len() && #[trigger] adj.has(a, b) ==> d.same(a, b),
    ensures
        d.same(path[0], path.last()),
    decreases path.len(),
{
    if path.len() > 1 {
        let rest = path.subrange(0, path.len() - 1);
        assert forall|i: int| 0 <= i < rest.len() - 1 implies linked(adj, #[trigger] rest[i], rest[i + 1]) by {
            assert(linked(adj, path[i], path[i + 1]));
        }
        lemma_path_in_one_set(adj, d, rest);
        let i = path.len() - 2;
        assert(linked(adj, path[i], path[i + 1]));
        let (a, b) = (path[i], path[i + 1]);
        assert(adj.has(a, b) || adj.has(b, a));
    }
}

proof fn lemma_union_connected(adj: Adjacency, d: DsuView, e: DsuView, a: u32, b: u32)
    requires
        sets_are_connected(adj, d),
        a < d.len(),
        b < d.len(),
        d.len() == adj.len(),
        linked(adj, a, b),
        e.rep == d.united(d.rep[a as int], d.rep[b as int]).rep,
    ensures
        sets_are_connected(adj, e),
        forall|x: u32, y: u32| x < d.len() && y < d.len() && #[trigger] d.same(x, y) ==> e.same(x, y),
        e.same(a, b),
{
    assert(connected(adj, a, b)) by {
        let p = seq![a, b];
        assert(is_path(adj, p) && p[0] == a && p.last() == b);
    }
    assert forall|x: u32, y: u32| x < e.len() && y < e.len() && #[trigger] e.rep[x as int] == #[trigger] e.rep[y as int] implies connected(
        adj,
        x,
        y,
    ) by {
        law_union_joins_two_sets(d, a, b, x, y);
        if d.same(x, y) {
            assert(d.rep[x as int] == d.rep[y as int]);
        } else if d.same(x, a) && d.same(y, b) {
            assert(d.rep[x as int] == d.rep[a as int] && d.rep[b as int] == d.rep[y as int]);
            law_connected_is_an_equivalence(adj, x, a, b);
            law_connected_is_an_equivalence(adj, x, b, y);
        } else {
            assert(d.rep[x as int] == d.rep[b as int] && d.rep[a as int] == d.rep[y as int]);
            law_connected_is_an_equivalence(adj, a, b, y);
            law_connected_is_an_equivalence(adj, x, b, a);
            law_connected_is_an_equivalence(adj, x, a, y);
        }
    }
    assert forall|x: u32, y: u32| x < d.len() && y < d.len() && #[trigger] d.same(x, y) implies e.same(x, y) by {
        law_union_joins_two_sets(d, a, b, x, y);
    }
    law_union_joins_two_sets(d, a, b, a, b);
}

/// The connected components of the adjacency graph: for every face the id of
/// its component, numbered in order of first appearance.
pub fn find_components(adj: &Adjacency) -> (comp: Vec<u32>)
    requires
        adj.len() <= u32::MAX,
        adj.in_range(),
    ensures
        comp@.len() == adj.len(),
        forall|i: int, j: int|
            0 <= i < adj.len() && 0 <= j < adj.len() ==> (#[trigger] comp@[i] == #[trigger] comp@[j] <==> connected(
                *adj,
                i as u32,
                j as u32,
            )),
        appears_in_order(comp@),
{
    let nf: usize = adj.neighbors.len();
    let mut dsu = Dsu::new(nf);
    let mut fi: usize = 0;
    proof {
        assert forall|x: u32, y: u32| x < nf && y < nf && #[trigger] dsu@.rep[x as int] == #[trigger] dsu@.rep[y as int] implies connected(
            *adj,
            x,
            y,
        ) by {
            law_connected_is_an_equivalence(*adj, x, x, x);
        }
    }
    while fi < nf
        invariant
            nf == adj.len(),
            nf <= u32::MAX,
            adj.in_range(),
            fi <= nf,
            dsu.wf(),
            dsu@.len() == nf,
            sets_are_connected(*adj, dsu@),
            forall|a: u32, b: u32| a < fi && b < nf && #[trigger] adj.has(a, b) ==> dsu@.same(a, b),
        decreases nf - fi,
    {
        let mut i: usize = 0;
        while i < adj.neighbors[fi].len()
            invariant
                nf == adj.len(),
                nf <= u32::MAX,
                adj.in_range(),
                fi < nf,
                i <= adj.neighbors@[fi as int]@.len(),
                dsu.wf(),
                dsu@.len() == nf,
                sets_are_connected(*adj, dsu@),
                forall|a: u32, b: u32| a < fi && b < nf && #[trigger] adj.has(a, b) ==> dsu@.same(a, b),
                forall|k: int| 0 <= k < i ==> dsu@.same(fi as u32, #[trigger] adj.neighbors@[fi as int]@[k]),
            decreases adj.neighbors@[fi as int]@.len() - i,
        {
            let nj: u32 = adj.neighbors[fi][i];
            let ghost before = dsu@;
            proof {
                let _ = adj.neighbors@[fi as int]@[i as int];
                assert(adj.has(fi as u32, nj));
            }
            dsu.union(fi as u32, nj);
            proof {
                let (ra, rb) = (before.rep[fi as int], before.rep[nj as int]);
                assert(dsu@.rep == before.united(ra, rb).rep);
                lemma_union_connected(*adj, before, dsu@, fi as u32, nj);
                assert forall|k: int| 0 <= k < i implies dsu@.same(
                    fi as u32,
                    #[trigger] adj.neighbors@[fi as int]@[k],
                ) by {
                    assert(before.same(fi as u32, adj.neighbors@[fi as int]@[k]));
                }
                assert forall|a: u32, b: u32| a < fi && b < nf && #[trigger] adj.has(a, b) implies dsu@.same(a, b) by {
                    assert(before.same(a, b));
                }
            }
            i += 1;
        }
        proof {
            assert forall|a: u32, b: u32| a < fi + 1 && b < nf && #[trigger] adj.has(a, b) implies dsu@.same(a, b) by {
                if a == fi {
                    let s = adj.neighbors@[fi as int]@;
                    let k = choose|k: int| 0 <= k < s.len() && s[k] == b;
                    assert(dsu@.same(fi as u32, adj.neighbors@[fi as int]@[k]));
                }
            }
        }
        fi += 1;
    }
    let ghost d = dsu@;
    let mut keys: Vec<u128> = Vec::new();
    let mut f: usize = 0;
    while f < nf
        invariant
            nf <= u32::MAX,
            f <= nf,
            dsu.wf(),
            dsu@.rep == d.rep,
            d.len() == nf,
            keys@.len() == f,
            forall|k: int| 0 <= k < f ==> #[trigger] keys@[k] == d.rep[k],
        decreases nf - f,
    {
        let root: u32 = dsu.find(f as u32);
        keys.push(root as u128);
        f += 1;
    }
    let numbering = number(&keys);
    let mut comp: Vec<u32> = Vec::new();
    let mut i: usize = 0;
    proof {
        lemma_first_positions(keys@);
    }
    while i < nf
        invariant
            nf <= u32::MAX,
            keys@.len() == nf,
            numbering.numbers(keys@),
            first_positions(keys@).len() <= nf,
            i <= nf,
            comp@.len() == i,
            forall|k: int| 0 <= k < i ==> #[trigger] comp@[k] == numbering.ids@[k],
        decreases nf - i,
    {
        proof {
            lemma_id_of(keys@, i as int);
            assert(numbering.ids@[i as int] == id_of(keys@, keys@[i as int]));
        }
        comp.push(numbering.ids[i] as u32);
        i += 1;
    }
    proof {
        assert forall|i: int, j: int| 0 <= i < nf && 0 <= j < nf implies (#[trigger] comp@[i] == #[trigger] comp@[j]
            <==> connected(*adj, i as u32, j as u32)) by {
            law_ids_tell_keys_apart(keys@, i, j);
            assert(numbering.ids@[i] == id_of(keys@, keys@[i]));
            assert(numbering.ids@[j] == id_of(keys@, keys@[j]));
            if connected(*adj, i as u32, j as u32) {
                let p = choose|path: Seq<u32>| #[trigger]
                    is_path(*adj, path) && path[0] == i as u32 && path.last() == j as u32;
                lemma_path_in_one_set(*adj, d, p);
            }
            if d.rep[i] == d.rep[j] {
                assert(d.rep[(i as u32) as int] == d.rep[(j as u32) as int]);
            }
        }
        assert forall|i: int, k: u32| 0 <= i < comp@.len() && k < comp@[i] implies #[trigger] occurs_before(
            comp@,
            i,
            k,
        ) by {
            assert(k < numbering.ids@[i]);
            law_ids_appear_in_order(keys@, i, k as int);
            let j = choose|j: int| 0 <= j < i && id_of(keys@, #[trigger] keys@[j]) == k;
            assert(comp@[j] == k);
        }
    }
    comp
}

/// `k` stands somewhere before position `i`.
pub open spec fn occurs_before(ids: Seq<u32>, i: int, k: u32) -> bool {
    exists|j: int| 0 <= j < i && #[trigger] ids[j] == k
}

/// Ids are numbered by first appearance: before an id occurs, every smaller
/// one has.
pub open spec fn appears_in_order(ids: Seq<u32>) -> bool {
    forall|i: int, k: u32| 0 <= i < ids.len() && k < ids[i] ==> #[trigger] occurs_before(ids, i, k)
}

/// A triangle mesh.
pub struct Mesh {
    pub verts: Vec<Vec3>,
    pub tris: Vec<[u32; 3]>,
}

impl Mesh {
    /// Triangles refer to vertices of the mesh.
    pub open spec fn wf(&self) -> bool {
        &&& self.verts@.len() <= u32::MAX
        &&& forall|f: int, c: int|
            0 <= f < self.tris@.len() && 0 <= c < 3 ==> (#[trigger] self.tris@[f][c]) < self.verts@.len()
    }
}

/// The quantized position of a vertex.
pub type Cell = (i64, i64, i64);

/// The triangle with its corners renamed: each to the id of its cell.
pub open spec fn welded_tri(t: [u32; 3], cells: Seq<Cell>) -> [u32; 3] {
    [
        id_of(cells, cells[t[0] as int]) as u32,
        id_of(cells, cells[t[1] as int]) as u32,
        id_of(cells, cells[t[2] as int]) as u32,
    ]
}

/// Two corners of the triangle are the same.
pub open spec fn is_degenerate(t: [u32; 3]) -> bool {
    t[0] == t[1] || t[1] == t[2] || t[0] == t[2]
}

/// The triangles after welding: renamed, without those that collapse.
pub open spec fn welded_tris(tris: Seq<[u32; 3]>, cells: Seq<Cell>) -> Seq<[u32; 3]>
    decreases tris.len(),
{
    if tris.len() == 0 {
        Seq::empty()
    } else {
        let before = welded_tris(tris.drop_last(), cells);
        let t = welded_tri(tris.last(), cells);
        if is_degenerate(t) {
            before
        } else {
            before.push(t)
        }
    }
}

/// The vertices after welding: the first one in each cell.
pub open spec fn welded_verts(verts: Seq<Vec3>, cells: Seq<Cell>) -> Seq<Vec3> {
    Seq::new(first_positions(cells).len(), |k: int| verts[first_positions(cells)[k]])
}

spec fn shifted(x: i64) -> int {
    x + 0x8000_0000_0000_0000
}

/// Numbers the cells by first appearance.
fn number_cells(cells: &Vec<Cell>) -> (res: Numbering)
    requires
        cells@.len() <= u32::MAX,
    ensures
        res.numbers(cells@),
{
    let n: usize = cells.len();
    let mut xy: Vec<u128> = Vec::new();
    let mut i: usize = 0;
    while i < n
        invariant
            n == cells@.len(),
            i <= n,
            xy@.len() == i,
            forall|k: int|
                0 <= k < i ==> #[trigger] xy@[k] == shifted(cells@[k].0) * 0x1_0000_0000_0000_0000 + shifted(
                    cells@[k].1,
                ),
        decreases n - i,
    {
        let (x, y, z): (i64, i64, i64) = cells[i];
        let a: u128 = (x as i128 + 0x8000_0000_0000_0000i128) as u128;
        let b: u128 = (y as i128 + 0x8000_0000_0000_0000i128) as u128;
        xy.push(a * 0x1_0000_0000_0000_0000u128 + b);
        i += 1;
    }
    let planar = number(&xy);
    proof {
        lemma_first_positions(xy@);
    }
    let mut xyz: Vec<u128> = Vec::new();
    let mut j: usize = 0;
    while j < n
        invariant
            n == cells@.len(),
            n <= u32::MAX,
            xy@.len() == n,
            planar.numbers(xy@),
            first_positions(xy@).len() <= n,
            j <= n,
            xyz@.len() == j,
            forall|k: int|
                0 <= k < j ==> #[trigger] xyz@[k] == id_of(xy@, xy@[k]) * 0x1_0000_0000_0000_0000 + shifted(cells@[k].2),
        decreases n - j,
    {
        proof {
            lemma_id_of(xy@, j as int);
            assert(planar.ids@[j as int] == id_of(xy@, xy@[j as int]));
        }
        let (x, y, z): (i64, i64, i64) = cells[j];
        let c: u128 = (z as i128 + 0x8000_0000_0000_0000i128) as u128;
        xyz.push(planar.ids[j] as u128 * 0x1_0000_0000_0000_0000u128 + c);
        j += 1;
    }
    proof {
        assert forall|k: int, l: int| 0 <= k < n && 0 <= l < n implies (#[trigger] xyz@[k] == #[trigger] xyz@[l]
            <==> cells@[k] == cells@[l]) by {
            law_ids_tell_keys_apart(xy@, k, l);
            lemma_id_of(xy@, k);
            lemma_id_of(xy@, l);
            let (p, q) = (cells@[k], cells@[l]);
            assert(xy@[k] == shifted(p.0) * 0x1_0000_0000_0000_0000 + shifted(p.1));
            assert(xy@[l] == shifted(q.0) * 0x1_0000_0000_0000_0000 + shifted(q.1));
            assert(xyz@[k] == id_of(xy@, xy@[k]) * 0x1_0000_0000_0000_0000 + shifted(p.2));
            assert(xyz@[l] == id_of(xy@, xy@[l]) * 0x1_0000_0000_0000_0000 + shifted(q.2));
        }
        lemma_same_pattern(xyz@, cells@);
    }
    number(&xyz)
}

/// Collapses vertices that are in the same cell to the first of them, and
/// drops the triangles that this collapses. Returns how many vertices went.
pub fn weld_vertices(mesh: &mut Mesh, cells: &Vec<Cell>) -> (collapsed: usize)
    requires
        old(mesh).wf(),
        cells@.len() == old(mesh).verts@.len(),
    ensures
        final(mesh).wf(),
        final(mesh).verts@ == welded_verts(old(mesh).verts@, cells@),
        final(mesh).tris@ == welded_tris(old(mesh).tris@, cells@),
        collapsed + final(mesh).verts@.len() == old(mesh).verts@.len(),
{
    let numbering = number_cells(cells);
    let ghost fp = first_positions(cells@);
    proof {
        lemma_first_positions(cells@);
    }
    let n: usize = mesh.verts.len();
    let mut verts: Vec<Vec3> = Vec::new();
    let mut k: usize = 0;
    while k < numbering.firsts.len()
        invariant
            n == cells@.len(),
            n == mesh.verts@.len(),
            *mesh == *old(mesh),
            numbering.numbers(cells@),
            fp == first_positions(cells@),
            forall|j: int| 0 <= j < fp.len() ==> 0 <= (#[trigger] fp[j]) < n,
            k <= numbering.firsts@.len(),
            verts@.len() == k,
            forall|j: int| 0 <= j < k ==> #[trigger] verts@[j] == mesh.verts@[fp[j]],
        decreases numbering.firsts@.len() - k,
    {
        assert(numbering.firsts@[k as int] == fp[k as int]);
        verts.push(mesh.verts[numbering.firsts[k]]);
        k += 1;
    }
    let mut tris: Vec<[u32; 3]> = Vec::new();
    let mut f: usize = 0;
    while f < mesh.tris.len()
        invariant
            n == cells@.len(),
            n <= u32::MAX,
            n == mesh.verts@.len(),
            *mesh == *old(mesh),
            mesh.wf(),
            numbering.numbers(cells@),
            fp == first_positions(cells@),
            fp.len() <= n,
            f <= mesh.tris@.len(),
            tris@ == welded_tris(mesh.tris@.subrange(0, f as int), cells@),
            forall|g: int, c: int| 0 <= g < tris@.len() && 0 <= c < 3 ==> (#[trigger] tris@[g][c]) < fp.len(),
        decreases mesh.tris@.len() - f,
    {
        let t: [u32; 3] = mesh.tris[f];
        proof {
            let longer = mesh.tris@.subrange(0, f + 1);
            assert(longer.drop_last() =~= mesh.tris@.subrange(0, f as int));
            assert(longer.last() == t);
            assert(mesh.tris@[f as int][0] < n && mesh.tris@[f as int][1] < n && mesh.tris@[f as int][2] < n);
            lemma_id_of(cells@, t[0] as int);
            lemma_id_of(cells@, t[1] as int);
            lemma_id_of(cells@, t[2] as int);
            assert(numbering.ids@[t[0] as int] == id_of(cells@, cells@[t[0] as int]));
            assert(numbering.ids@[t[1] as int] == id_of(cells@, cells@[t[1] as int]));
            assert(numbering.ids@[t[2] as int] == id_of(cells@, cells@[t[2] as int]));
        }
        let a: u32 = numbering.ids[t[0] as usize] as u32;
        let b: u32 = numbering.ids[t[1] as usize] as u32;
        let c: u32 = numbering.ids[t[2] as usize] as u32;
        let w: [u32; 3] = [a, b, c];
        assert(w =~= welded_tri(t, cells@));
        if !(a == b || b == c || a == c) {
            tris.push(w);
        }
        f += 1;
    }
    assert(mesh.tris@.subrange(0, f as int) =~= mesh.tris@);
    let collapsed: usize = n - verts.len();
    assert(verts@ =~= welded_verts(mesh.verts@, cells@));
    mesh.verts = verts;
    mesh.tris = tris;
    collapsed
}

/// No triangle of a welded mesh is degenerate, and no two of its vertices are
/// in one cell.
pub proof fn law_weld_leaves_no_duplicates(tris: Seq<[u32; 3]>, cells: Seq<Cell>)
    ensures
        forall|f: int| 0 <= f < welded_tris(tris, cells).len() ==> !is_degenerate(#[trigger] welded_tris(tris, cells)[f]),
        forall|k: int, l: int|
            0 <= k < l < first_positions(cells).len() ==> cells[#[trigger] first_positions(cells)[k]]
                != cells[#[trigger] first_positions(cells)[l]],
    decreases tris.len(),
{
    lemma_first_positions(cells);
    if tris.len() > 0 {
        let rest = welded_tris(tris.drop_last(), cells);
        let all = welded_tris(tris, cells);
        law_weld_leaves_no_duplicates(tris.drop_last(), cells);
        assert forall|f: int| 0 <= f < all.len() implies !is_degenerate(#[trigger] all[f]) by {
            if f < rest.len() {
                assert(all[f] == rest[f]);
            }
        }
    }
}

/// `lo` is the least coordinate along axis `k`, as the first vertex that has it
/// writes it, or infinity.
pub open spec fn is_least(lo: Scalar, verts: Seq<Vec3>, k: int) -> bool {
    &&& forall|i: int| 0 <= i < verts.len() ==> !((#[trigger] verts[i])[k].spec_lt(lo))
    &&& lo == (Scalar { bits: 0x7f80_0000 }) || exists|i: int| is_first_least(lo, verts, k, i)
}

/// Vertex `i` is the first that lies as low as `lo` along axis `k`.
pub open spec fn is_first_least(lo: Scalar, verts: Seq<Vec3>, k: int, i: int) -> bool {
    &&& 0 <= i < verts.len()
    &&& lo == verts[i][k]
    &&& forall|j: int| 0 <= j < i ==> !((#[trigger] verts[j])[k].spec_le(lo))
}

/// `hi` is the greatest coordinate along axis `k`, as the first vertex that has
/// it writes it, or minus infinity.
pub open spec fn is_greatest(hi: Scalar, verts: Seq<Vec3>, k: int) -> bool {
    &&& forall|i: int| 0 <= i < verts.len() ==> !(hi.spec_lt((#[trigger] verts[i])[k]))
    &&& hi == (Scalar { bits: 0xff80_0000 }) || exists|i: int| is_first_greatest(hi, verts, k, i)
}

/// Vertex `i` is the first that lies as high as `hi` along axis `k`.
pub open spec fn is_first_greatest(hi: Scalar, verts: Seq<Vec3>, k: int, i: int) -> bool {
    &&& 0 <= i < verts.len()
    &&& hi == verts[i][k]
    &&& forall|j: int| 0 <= j < i ==> !(hi.spec_le((#[trigger] verts[j])[k]))
}

/// `lo` and `hi` are the corners of the box round the vertices: infinity and
/// minus infinity where there are none.
pub open spec fn is_box(lo: Vec3, hi: Vec3, verts: Seq<Vec3>) -> bool {
    &&& is_least(lo[0], verts, 0) && is_greatest(hi[0], verts, 0)
    &&& is_least(lo[1], verts, 1) && is_greatest(hi[1], verts, 1)
    &&& is_least(lo[2], verts, 2) && is_greatest(hi[2], verts, 2)
}

fn axis_range(verts: &Vec<Vec3>, k: usize) -> (res: (Scalar, Scalar))
    requires
        k < 3,
    ensures
        is_least(res.0, verts@, k as int),
        is_greatest(res.1, verts@, k as int),
{
    let mut lo: Scalar = Scalar::infinity();
    let mut hi: Scalar = Scalar::neg_infinity();
    let mut i: usize = 0;
    while i < verts.len()
        invariant
            k < 3,
            i <= verts@.len(),
            forall|j: int| 0 <= j < i ==> !((#[trigger] verts@[j])[k as int].spec_lt(lo)),
            forall|j: int| 0 <= j < i ==> !(hi.spec_lt((#[trigger] verts@[j])[k as int])),
            lo == (Scalar { bits: 0x7f80_0000 }) || exists|j: int| is_first_least(lo, verts@, k as int, j),
            hi == (Scalar { bits: 0xff80_0000 }) || exists|j: int| is_first_greatest(hi, verts@, k as int, j),
        decreases verts@.len() - i,
    {
        let x: Scalar = verts[i][k];
        assert(x == verts@[i as int][k as int]);
        if x.lt(lo) {
            lo = x;
            assert(is_first_least(lo, verts@, k as int, i as int));
        }
        if x.gt(hi) {
            hi = x;
            assert(is_first_greatest(hi, verts@, k as int, i as int));
        }
        i += 1;
    }
    (lo, hi)
}

fn box_of(verts: &Vec<Vec3>) -> (res: (Vec3, Vec3))
    ensures
        is_box(res.0, res.1, verts@),
{
    let (l0, h0): (Scalar, Scalar) = axis_range(verts, 0);
    let (l1, h1): (Scalar, Scalar) = axis_range(verts, 1);
    let (l2, h2): (Scalar, Scalar) = axis_range(verts, 2);
    ([l0, l1, l2], [h0, h1, h2])
}

/// The corners of the box round the vertices; both at the origin where there
/// are none.
pub fn aabb(verts: &Vec<Vec3>) -> (res: (Vec3, Vec3))
    ensures
        verts@.len() == 0 ==> res.0@ == seq![Scalar { bits: 0 }, Scalar { bits: 0 }, Scalar { bits: 0 }] && res.1@
            == seq![Scalar { bits: 0 }, Scalar { bits: 0 }, Scalar { bits: 0 }],
        verts@.len() > 0 ==> is_box(res.0, res.1, verts@),
{
    if verts.len() == 0 {
        let o: Scalar = Scalar::zero();
        let res: (Vec3, Vec3) = ([o, o, o], [o, o, o]);
        assert(res.0@ =~= seq![Scalar { bits: 0 }, Scalar { bits: 0 }, Scalar { bits: 0 }]);
        assert(res.1@ =~= res.0@);
        return res;
    }
    box_of(verts)
}

/// The corners of the box round a triangle.
pub fn triangle_box(a: Vec3, b: Vec3, c: Vec3) -> (res: (Vec3, Vec3))
    ensures
        forall|k: int|
            0 <= k < 3 ==> #[trigger] res.0@[k] == a[k].spec_min(b[k]).spec_min(c[k]) && res.1@[k] == a[k].spec_max(
                b[k],
            ).spec_max(c[k]),
{
    let lo: Vec3 = [a[0].min(b[0]).min(c[0]), a[1].min(b[1]).min(c[1]), a[2].min(b[2]).min(c[2])];
    let hi: Vec3 = [a[0].max(b[0]).max(c[0]), a[1].max(b[1]).max(c[1]), a[2].max(b[2]).max(c[2])];
    (lo, hi)
}

/// The triangle of three indices, counted from `base`.
pub open spec fn based(base: int, a: u32, b: u32, c: u32) -> [u32; 3] {
    [(base + a) as u32, (base + b) as u32, (base + c) as u32]
}

/// Adds the triangles of an index list whose vertices were added at `base`;
/// what is left over after the last three is ignored.
pub fn append_indexed(tris: &mut Vec<[u32; 3]>, base: u32, idx: &Vec<u32>)
    requires
        forall|i: int| 0 <= i < idx@.len() ==> base + #[trigger] idx@[i] <= u32::MAX,
    ensures
        final(tris)@ == old(tris)@ + Seq::new(
            (idx@.len() / 3) as nat,
            |i: int| based(base as int, idx@[3 * i], idx@[3 * i + 1], idx@[3 * i + 2]),
        ),
{
    let ghost start = tris@;
    let mut i: usize = 0;
    let ghost mut k: int = 0;
    while idx.len() - i >= 3
        invariant
            forall|j: int| 0 <= j < idx@.len() ==> base + #[trigger] idx@[j] <= u32::MAX,
            i <= idx@.len(),
            i == 3 * k,
            0 <= k,
            tris@ == start + Seq::new(
                k as nat,
                |j: int| based(base as int, idx@[3 * j], idx@[3 * j + 1], idx@[3 * j + 2]),
            ),
        decreases idx@.len() - i,
    {
        let t: [u32; 3] = [base + idx[i], base + idx[i + 1], base + idx[i + 2]];
        assert(t =~= based(base as int, idx@[3 * k], idx@[3 * k + 1], idx@[3 * k + 2]));
        tris.push(t);
        proof {
            k = k + 1;
            assert(tris@ =~= start + Seq::new(
                k as nat,
                |j: int| based(base as int, idx@[3 * j], idx@[3 * j + 1], idx@[3 * j + 2]),
            ));
        }
        i += 3;
    }
    assert(k == idx@.len() / 3);
}

/// Adds the triangles of `n` vertices that were added at `base` and go by
/// threes.
pub fn append_sequential(tris: &mut Vec<[u32; 3]>, base: u32, n: u32)
    requires
        base + n <= u32::MAX,
    ensures
        final(tris)@ == old(tris)@ + Seq::new(
            (n / 3) as nat,
            |i: int| based(base as int, (3 * i) as u32, (3 * i + 1) as u32, (3 * i + 2) as u32),
        ),
{
    let ghost start = tris@;
    let mut i: u32 = 0;
    let ghost mut k: int = 0;
    while n - i >= 3
        invariant
            base + n <= u32::MAX,
            i <= n,
            i == 3 * k,
            0 <= k,
            tris@ == start + Seq::new(
                k as nat,
                |j: int| based(base as int, (3 * j) as u32, (3 * j + 1) as u32, (3 * j + 2) as u32),
            ),
        decreases n - i,
    {
        let t: [u32; 3] = [base + i, base + i + 1, base + i + 2];
        assert(t =~= based(base as int, (3 * k) as u32, (3 * k + 1) as u32, (3 * k + 2) as u32));
        tris.push(t);
        proof {
            k = k + 1;
            assert(tris@ =~= start + Seq::new(
                k as nat,
                |j: int| based(base as int, (3 * j) as u32, (3 * j + 1) as u32, (3 * j + 2) as u32),
            ));
        }
        i += 3;
    }
    assert(k == n / 3);
}

/// Which faces are in which component.
pub struct ComponentSummary {
    /// How many components there are.
    pub n: usize,
    /// The component of each face.
    pub face_comp: Vec<u32>,
    /// The faces of each component, in order.
    pub faces_per: Vec<Vec<u32>>,
}

/// The components of the mesh: for every face its component, and for every
/// component its faces.
pub fn summarize_components(adj: &Adjacency) -> (res: ComponentSummary)
    requires
        adj.len() <= u32::MAX,
        adj.in_range(),
    ensures
        res.face_comp@.len() == adj.len(),
        forall|i: int, j: int|
            0 <= i < adj.len() && 0 <= j < adj.len() ==> (#[trigger] res.face_comp@[i] == #[trigger] res.face_comp@[j]
                <==> connected(*adj, i as u32, j as u32)),
        appears_in_order(res.face_comp@),
        res.faces_per@.len() == res.n,
        forall|i: int| 0 <= i < adj.len() ==> (#[trigger] res.face_comp@[i]) < res.n,
        forall|c: int| 0 <= c < res.n ==> is_set((#[trigger] res.faces_per@[c])@) && res.faces_per@[c]@.len() > 0,
        forall|c: int, f: u32|
            0 <= c < res.n ==> (#[trigger] res.faces_per@[c]@.contains(f) <==> f < adj.len() && res.face_comp@[f as int]
                == c),
{
    let face_comp = find_components(adj);
    let nf: usize = face_comp.len();
    let mut n: usize = 0;
    let mut i: usize = 0;
    while i < nf
        invariant
            nf == face_comp@.len(),
            nf <= u32::MAX,
            i <= nf,
            n <= i,
            appears_in_order(face_comp@),
            forall|k: int| 0 <= k < i ==> (#[trigger] face_comp@[k]) < n,
            n > 0 ==> exists|k: int| 0 <= k < i && #[trigger] face_comp@[k] == n - 1,
        decreases nf - i,
    {
        let c: usize = face_comp[i] as usize;
        if c >= n {
            proof {
                if c > n {
                    assert(occurs_before(face_comp@, i as int, n as u32));
                    let j = choose|j: int| 0 <= j < i && #[trigger] face_comp@[j] == n as u32;
                    assert(face_comp@[j] < n);
                }
            }
            n = c + 1;
            assert(face_comp@[i as int] == n - 1);
        }
        i += 1;
    }
    let mut faces_per: Vec<Vec<u32>> = Vec::new();
    let mut g: usize = 0;
    while g < n
        invariant
            g <= n,
            faces_per@.len() == g,
            forall|c: int| 0 <= c < g ==> (#[trigger] faces_per@[c])@ == Seq::<u32>::empty(),
        decreases n - g,
    {
        faces_per.push(Vec::new());
        g += 1;
    }
    let mut f: usize = 0;
    while f < nf
        invariant
            nf == face_comp@.len(),
            nf <= u32::MAX,
            f <= nf,
            faces_per@.len() == n,
            forall|k: int| 0 <= k < nf ==> (#[trigger] face_comp@[k]) < n,
            forall|c: int| 0 <= c < n ==> is_set((#[trigger] faces_per@[c])@),
            forall|c: int, k: int| 0 <= c < n && 0 <= k < faces_per@[c]@.len() ==> (#[trigger] faces_per@[c]@[k]) < f,
            forall|c: int, x: u32|
                0 <= c < n ==> (#[trigger] faces_per@[c]@.contains(x) <==> x < f && face_comp@[x as int] == c),
        decreases nf - f,
    {
        let id: usize = face_comp[f] as usize;
        let ghost before = faces_per@;
        faces_per[id].push(f as u32);
        proof {
            assert forall|c: int, x: u32| 0 <= c < n implies (#[trigger] faces_per@[c]@.contains(x) <==> x < f + 1
                && face_comp@[x as int] == c) by {
                assert(before[c]@.contains(x) <==> x < f && face_comp@[x as int] == c);
                if c == id {
                    lemma_push_contains(before[c]@, f as u32, x);
                } else {
                    assert(faces_per@[c] == before[c]);
                }
            }
            assert forall|c: int, k: int| 0 <= c < n && 0 <= k < faces_per@[c]@.len() implies (
            #[trigger] faces_per@[c]@[k]) < f + 1 by {
                assert(faces_per@[c]@.contains(faces_per@[c]@[k]));
            }
            assert forall|c: int| 0 <= c < n implies is_set((#[trigger] faces_per@[c])@) by {
                assert(is_set(before[c]@));
                assert(forall|j: int| 0 <= j < before[c]@.len() ==> (#[trigger] before[c]@[j]) < f);
            }
        }
        f += 1;
    }
    proof {
        assert forall|c: int| 0 <= c < n implies (#[trigger] faces_per@[c])@.len() > 0 by {
            let k = choose|k: int| 0 <= k < nf && #[trigger] face_comp@[k] == n - 1;
            let x = if c == n - 1 {
                k
            } else {
                assert(occurs_before(face_comp@, k, c as u32));
                choose|j: int| 0 <= j < k && #[trigger] face_comp@[j] == c as u32
            };
            assert(faces_per@[c]@.contains(x as u32));
        }
    }
    ComponentSummary { n, face_comp, faces_per }
}

/// The corners of those of the faces that are kept, in order.
pub open spec fn kept_corners(faces: Seq<u32>, tris: Seq<[u32; 3]>, verts: Seq<Vec3>, keep: Seq<bool>) -> Seq<Vec3>
    decreases faces.len(),
{
    if faces.len() == 0 {
        Seq::empty()
    } else {
        let before = kept_corners(faces.drop_last(), tris, verts, keep);
        let f = faces.last() as int;
        if keep[f] {
            before.push(verts[tris[f][0] as int]).push(verts[tris[f][1] as int]).push(verts[tris[f][2] as int])
        } else {
            before
        }
    }
}

/// The box of each component: the box round those of its faces that are kept.
pub fn component_boxes(summary: &ComponentSummary, mesh: &Mesh, keep: &Vec<bool>) -> (boxes: Vec<(Vec3, Vec3)>)
    requires
        mesh.wf(),
        keep@.len() == mesh.tris@.len(),
        forall|c: int, i: int|
            0 <= c < summary.faces_per@.len() && 0 <= i < summary.faces_per@[c]@.len() ==> (
            #[trigger] summary.faces_per@[c]@[i]) < mesh.tris@.len(),
    ensures
        boxes@.len() == summary.faces_per@.len(),
        forall|c: int|
            0 <= c < boxes@.len() ==> is_box(
                (#[trigger] boxes@[c]).0,
                boxes@[c].1,
                kept_corners(summary.faces_per@[c]@, mesh.tris@, mesh.verts@, keep@),
            ),
{
    let mut boxes: Vec<(Vec3, Vec3)> = Vec::new();
    let mut c: usize = 0;
    while c < summary.faces_per.len()
        invariant
            mesh.wf(),
            keep@.len() == mesh.tris@.len(),
            forall|c: int, i: int|
                0 <= c < summary.faces_per@.len() && 0 <= i < summary.faces_per@[c]@.len() ==> (
                #[trigger] summary.faces_per@[c]@[i]) < mesh.tris@.len(),
            c <= summary.faces_per@.len(),
            boxes@.len() == c,
            forall|d: int|
                0 <= d < c ==> is_box(
                    (#[trigger] boxes@[d]).0,
                    boxes@[d].1,
                    kept_corners(summary.faces_per@[d]@, mesh.tris@, mesh.verts@, keep@),
                ),
        decreases summary.faces_per@.len() - c,
    {
        let faces: &Vec<u32> = &summary.faces_per[c];
        let mut corners: Vec<Vec3> = Vec::new();
        let mut i: usize = 0;
        assert(faces@.subrange(0, 0) =~= Seq::empty());
        while i < faces.len()
            invariant
                mesh.wf(),
                keep@.len() == mesh.tris@.len(),
                forall|i: int| 0 <= i < faces@.len() ==> (#[trigger] faces@[i]) < mesh.tris@.len(),
                i <= faces@.len(),
                corners@ == kept_corners(faces@.subrange(0, i as int), mesh.tris@, mesh.verts@, keep@),
            decreases faces@.len() - i,
        {
            let f: usize = faces[i] as usize;
            proof {
                let longer = faces@.subrange(0, i + 1);
                assert(longer.drop_last() =~= faces@.subrange(0, i as int));
                assert(longer.last() == f as u32);
            }
            if keep[f] {
                let t: [u32; 3] = mesh.tris[f];
                corners.push(mesh.verts[t[0] as usize]);
                corners.push(mesh.verts[t[1] as usize]);
                corners.push(mesh.verts[t[2] as usize]);
            }
            i += 1;
        }
        assert(faces@.subrange(0, i as int) =~= faces@);
        boxes.push(box_of(&corners));
        c += 1;
    }
    boxes
}

/// An edge has no direction, and joins the two vertices it was made of.
pub proof fn law_edges_have_no_direction(u: u32, v: u32)
    ensures
        edge(u, v) == edge(v, u),
        edge(u, v).0 <= edge(u, v).1,
        (edge(u, v).0 == u && edge(u, v).1 == v) || (edge(u, v).0 == v && edge(u, v).1 == u),
{
}

/// The sides of a triangle join its corners in turn.
pub proof fn law_sides_of_a_triangle(tris: Seq<[u32; 3]>, f: int)
    requires
        0 <= f < tris.len(),
    ensures
        side(tris, 3 * f) == edge(tris[f][0], tris[f][1]),
        side(tris, 3 * f + 1) == edge(tris[f][1], tris[f][2]),
        side(tris, 3 * f + 2) == edge(tris[f][2], tris[f][0]),
{
    assert((3 * f) / 3 == f && (3 * f + 1) / 3 == f && (3 * f + 2) / 3 == f);
    assert((3 * f) % 3 == 0 && (3 * f + 1) % 3 == 1 && (3 * f + 2) % 3 == 2);
}

/// The faces at an edge are those that it is a side of, in their order.
pub proof fn law_faces_at_an_edge(tris: Seq<[u32; 3]>, e: (u32, u32), h: nat, f: u32)
    requires
        h <= 3 * tris.len(),
        tris.len() <= u32::MAX,
    ensures
        incident(tris, e, h).contains(f) <==> exists|g: int| 0 <= g < h && g / 3 == f && #[trigger] side(tris, g) == e,
        forall|i: int, j: int|
            0 <= i < j < incident(tris, e, h).len() ==> #[trigger] incident(tris, e, h)[i] <= #[trigger] incident(tris, e, h)[j],
        forall|i: int| 0 <= i < incident(tris, e, h).len() ==> 3 * (#[trigger] incident(tris, e, h)[i]) < h,
    decreases h,
{
    if h > 0 {
        law_faces_at_an_edge(tris, e, (h - 1) as nat, f);
        let before = incident(tris, e, (h - 1) as nat);
        let last = ((h - 1) / 3) as u32;
        assert(0 <= (h - 1) / 3 < tris.len());
        lemma_push_contains(before, last, f);
        if exists|g: int| 0 <= g < h && g / 3 == f && #[trigger] side(tris, g) == e {
            let g = choose|g: int| 0 <= g < h && g / 3 == f && #[trigger] side(tris, g) == e;
            if g < h - 1 {
                assert(0 <= g < h - 1 && g / 3 == f && side(tris, g) == e);
            }
        }
        if before.contains(f) {
            let g = choose|g: int| 0 <= g < h - 1 && g / 3 == f && #[trigger] side(tris, g) == e;
            assert(0 <= g < h && g / 3 == f && side(tris, g) == e);
        }
        if side(tris, h - 1) == e && last == f {
            assert(0 <= h - 1 < h && (h - 1) / 3 == f as int && side(tris, h - 1) == e);
        }
    }
}

/// Two triangles share an edge where they have two corners in common, and then
/// each shares one with the other.
pub proof fn law_triangles_sharing_an_edge(tris: Seq<[u32; 3]>, a: int, b: int, u: u32, v: u32)
    requires
        0 <= a < tris.len(),
        0 <= b < tris.len(),
    ensures
        shares_edge(tris, a, b) == shares_edge(tris, b, a),
        u != v && tris[a]@.contains(u) && tris[a]@.contains(v) && tris[b]@.contains(u) && tris[b]@.contains(v) ==> shares_edge(
            tris,
            a,
            b,
        ),
        shares_edge(tris, a, b) ==> exists|c: int, d: int|
            #![trigger tris[a][c], tris[b][d]]
            0 <= c < 3 && 0 <= d < 3 && ((tris[a][c] == tris[b][d] && tris[a][(c + 1) % 3] == tris[b][(d + 1) % 3]) || (
            tris[a][c] == tris[b][(d + 1) % 3] && tris[a][(c + 1) % 3] == tris[b][d])),
{
    law_sides_of_a_triangle(tris, a);
    law_sides_of_a_triangle(tris, b);
    if shares_edge(tris, a, b) {
        let (c, d) = choose|c: int, d: int|
            0 <= c < 3 && 0 <= d < 3 && #[trigger] side(tris, 3 * a + c) == #[trigger] side(tris, 3 * b + d);
        assert(side(tris, 3 * b + d) == side(tris, 3 * a + c));
        assert(c == 0 || c == 1 || c == 2);
        assert(d == 0 || d == 1 || d == 2);
        assert((tris[a][c] == tris[b][d] && tris[a][(c + 1) % 3] == tris[b][(d + 1) % 3]) || (tris[a][c] == tris[b][(d + 1)
            % 3] && tris[a][(c + 1) % 3] == tris[b][d]));
    }
    if shares_edge(tris, b, a) {
        let (c, d) = choose|c: int, d: int|
            0 <= c < 3 && 0 <= d < 3 && #[trigger] side(tris, 3 * b + c) == #[trigger] side(tris, 3 * a + d);
        assert(side(tris, 3 * a + d) == side(tris, 3 * b + c));
    }
    if u != v && tris[a]@.contains(u) && tris[a]@.contains(v) && tris[b]@.contains(u) && tris[b]@.contains(v) {
        let c = side_between(tris[a], u, v);
        let d = side_between(tris[b], u, v);
        lemma_side_between(tris, a, u, v);
        lemma_side_between(tris, b, u, v);
        assert(side(tris, 3 * a + c) == side(tris, 3 * b + d));
    }
}

spec fn side_between(t: [u32; 3], u: u32, v: u32) -> int {
    if edge(t[0], t[1]) == edge(u, v) {
        0
    } else if edge(t[1], t[2]) == edge(u, v) {
        1
    } else {
        2
    }
}

proof fn lemma_side_between(tris: Seq<[u32; 3]>, f: int, u: u32, v: u32)
    requires
        0 <= f < tris.len(),
        u != v,
        tris[f]@.contains(u),
        tris[f]@.contains(v),
    ensures
        0 <= side_between(tris[f], u, v) < 3,
        side(tris, 3 * f + side_between(tris[f], u, v)) == edge(u, v),
{
    law_sides_of_a_triangle(tris, f);
    let t = tris[f];
    let i = choose|i: int| 0 <= i < t@.len() && t@[i] == u;
    let j = choose|j: int| 0 <= j < t@.len() && t@[j] == v;
    assert(t[i] == u && t[j] == v);
    assert(i == 0 || i == 1 || i == 2);
    assert(j == 0 || j == 1 || j == 2);
}

/// Welding joins the corners that are in one cell and keeps the others apart.
pub proof fn law_weld_joins_one_cell(t: [u32; 3], cells: Seq<Cell>, i: int, j: int)
    requires
        0 <= i < 3,
        0 <= j < 3,
        cells.len() <= u32::MAX,
        forall|c: int| 0 <= c < 3 ==> (#[trigger] t[c]) < cells.len(),
    ensures
        welded_tri(t, cells)[i] == welded_tri(t, cells)[j] <==> cells[t[i] as int] == cells[t[j] as int],
        welded_tri(t, cells)[i] < first_positions(cells).len(),
{
    assert(t[0] < cells.len() && t[1] < cells.len() && t[2] < cells.len());
    crate::numbering::lemma_first_positions(cells);
    crate::numbering::lemma_id_of(cells, t[0] as int);
    crate::numbering::lemma_id_of(cells, t[1] as int);
    crate::numbering::lemma_id_of(cells, t[2] as int);
    crate::numbering::law_ids_tell_keys_apart(cells, t[i] as int, t[j] as int);
    assert(i == 0 || i == 1 || i == 2);
    assert(j == 0 || j == 1 || j == 2);
}

/// A welded vertex is the first that came in its cell.
pub proof fn law_weld_keeps_the_first(verts: Seq<Vec3>, cells: Seq<Cell>, v: int)
    requires
        0 <= v < cells.len(),
        verts.len() == cells.len(),
    ensures
        exists|j: int|
            #![trigger cells[j]]
            {
                &&& 0 <= j <= v
                &&& cells[j] == cells[v]
                &&& welded_verts(verts, cells)[id_of(cells, cells[v])] == verts[j]
                &&& forall|i: int| 0 <= i < j ==> #[trigger] cells[i] != cells[v]
            },
{
    crate::numbering::lemma_first_positions(cells);
    crate::numbering::lemma_id_of(cells, v);
    let k = id_of(cells, cells[v]);
    let j = first_positions(cells)[k];
    assert forall|i: int| 0 <= i < j implies #[trigger] cells[i] != cells[v] by {
        if cells[i] == cells[v] {
            crate::numbering::lemma_id_of(cells, i);
        }
    }
    assert(cells[j] == cells[v]);
}

/// Welding keeps the triangles in their order, but for those that lose a
/// corner.
pub proof fn law_weld_drops_collapsed_triangles(tris: Seq<[u32; 3]>, cells: Seq<Cell>)
    ensures
        welded_tris(tris, cells) == tris.map_values(|t: [u32; 3]| welded_tri(t, cells)).filter(
            |t: [u32; 3]| !(t[0] == t[1] || t[0] == t[2] || t[1] == t[2]),
        ),
    decreases tris.len(),
{
    reveal(Seq::filter);
    let f = |t: [u32; 3]| welded_tri(t, cells);
    if tris.len() > 0 {
        law_weld_drops_collapsed_triangles(tris.drop_last(), cells);
        assert(tris.map_values(f).drop_last() =~= tris.drop_last().map_values(f));
    } else {
        assert(tris.map_values(f) =~= Seq::empty());
    }
}

/// A box holds its vertices, and is no larger than it has to be.
pub proof fn law_box_holds_its_vertices(lo: Vec3, hi: Vec3, verts: Seq<Vec3>, i: int, k: int)
    requires
        is_box(lo, hi, verts),
        0 <= i < verts.len(),
        0 <= k < 3,
        forall|j: int, c: int| 0 <= j < verts.len() && 0 <= c < 3 ==> (#[trigger] verts[j][c]).spec_is_finite(),
    ensures
        lo[k].spec_le(verts[i][k]),
        verts[i][k].spec_le(hi[k]),
        exists|j: int| 0 <= j < verts.len() && lo[k] == (#[trigger] verts[j])[k],
        exists|j: int| 0 <= j < verts.len() && hi[k] == (#[trigger] verts[j])[k],
{
    assert(k == 0 || k == 1 || k == 2);
    assert(is_least(lo[k], verts, k) && is_greatest(hi[k], verts, k));
    assert(!verts[i][k].spec_lt(lo[k]) && !hi[k].spec_lt(verts[i][k]));
    assert(verts[i][k].spec_is_finite());
    if exists|j: int| is_first_least(lo[k], verts, k, j) {
        let j = choose|j: int| is_first_least(lo[k], verts, k, j);
        assert(verts[j][k].spec_is_finite());
    }
    if exists|j: int| is_first_greatest(hi[k], verts, k, j) {
        let j = choose|j: int| is_first_greatest(hi[k], verts, k, j);
        assert(verts[j][k].spec_is_finite());
    }
}

/// A triangle that is based further on is the same triangle: each of its
/// corners moves by as much.
pub proof fn law_based_triangle_is_moved(base: int, a: u32, b: u32, c: u32)
    requires
        0 <= base,
        base + a <= u32::MAX,
        base + b <= u32::MAX,
        base + c <= u32::MAX,
    ensures
        based(base, a, b, c)[0] - base == a,
        based(base, a, b, c)[1] - base == b,
        based(base, a, b, c)[2] - base == c,
{
}

/// The corners that are kept are those of the faces that are kept.
pub proof fn law_kept_corners(faces: Seq<u32>, tris: Seq<[u32; 3]>, verts: Seq<Vec3>, keep: Seq<bool>, p: Vec3)
    ensures
        kept_corners(faces, tris, verts, keep).contains(p) <==> exists|i: int|
            0 <= i < faces.len() && keep[#[trigger] faces[i] as int] && (p == verts[tris[faces[i] as int][0] as int] || p
                == verts[tris[faces[i] as int][1] as int] || p == verts[tris[faces[i] as int][2] as int]),
    decreases faces.len(),
{
    if faces.len() > 0 {
        let r = faces.drop_last();
        law_kept_corners(r, tris, verts, keep, p);
        let s = kept_corners(r, tris, verts, keep);
        let f = faces.last() as int;
        let n = faces.len() - 1;
        let (x, y, z) = (verts[tris[f][0] as int], verts[tris[f][1] as int], verts[tris[f][2] as int]);
        lemma_push_contains(s, x, p);
        lemma_push_contains(s.push(x), y, p);
        lemma_push_contains(s.push(x).push(y), z, p);
        if s.contains(p) {
            let i = choose|i: int|
                0 <= i < r.len() && keep[#[trigger] r[i] as int] && (p == verts[tris[r[i] as int][0] as int] || p
                    == verts[tris[r[i] as int][1] as int] || p == verts[tris[r[i] as int][2] as int]);
            assert(faces[i] == r[i]);
        }
        if keep[f] && (p == x || p == y || p == z) {
            assert(faces[n] == f as u32);
        }
        if exists|i: int|
            0 <= i < faces.len() && keep[#[trigger] faces[i] as int] && (p == verts[tris[faces[i] as int][0] as int] || p
                == verts[tris[faces[i] as int][1] as int] || p == verts[tris[faces[i] as int][2] as int]) {
            let i = choose|i: int|
                0 <= i < faces.len() && keep[#[trigger] faces[i] as int] && (p == verts[tris[faces[i] as int][0] as int]
                    || p == verts[tris[faces[i] as int][1] as int] || p == verts[tris[faces[i] as int][2] as int]);
            if i < n {
                assert(r[i] == faces[i]);
            }
        }
    }
}

/// Every side of every triangle is listed once, with the faces at it.
pub proof fn law_every_side_is_listed(tris: Seq<[u32; 3]>, edges: Seq<EdgeFaces>, f: u32, c: int, k: int, l: int)
    requires
        lists_edges(tris, edges),
        f < tris.len() <= u32::MAX,
        0 <= c < 3,
        0 <= k < edges.len(),
        0 <= l < edges.len(),
    ensures
        exists|x: int| 0 <= x < edges.len() && ((#[trigger] edges[x]).u, edges[x].v) == side(tris, 3 * f + c)
            && edges[x].faces@.contains(f),
        edges[k].u == edges[l].u && edges[k].v == edges[l].v ==> k == l,
        edges[k].faces@.contains(f) <==> exists|g: int|
            0 <= g < 3 * tris.len() && g / 3 == f && #[trigger] side(tris, g) == (edges[k].u, edges[k].v),
{
    let h = 3 * f + c;
    assert(0 <= h < 3 * tris.len());
    assert(has_edge(edges, side(tris, h)));
    let x = choose|x: int| 0 <= x < edges.len() && ((#[trigger] edges[x]).u, edges[x].v) == side(tris, h);
    law_faces_at_an_edge(tris, (edges[x].u, edges[x].v), 3 * tris.len(), f);
    assert(h / 3 == f);
    assert(edges[x].faces@.contains(f));
    law_faces_at_an_edge(tris, (edges[k].u, edges[k].v), 3 * tris.len(), f);
}

/// Numbers that appear in order start with none, and each comes before the
/// next is used.
pub proof fn law_numbers_start_with_none(ids: Seq<u32>, i: int)
    requires
        appears_in_order(ids),
        0 <= i < ids.len(),
    ensures
        ids[0] == 0,
        ids[i] > 0 ==> exists|j: int| 0 <= j < i && #[trigger] ids[j] == ids[i] - 1,
{
    if ids[0] > 0 {
        assert(occurs_before(ids, 0, 0));
    }
    if ids[i] > 0 {
        assert(occurs_before(ids, i, (ids[i] - 1) as u32));
        let j = choose|j: int| 0 <= j < i && #[trigger] ids[j] == (ids[i] - 1) as u32;
        assert(ids[j] == ids[i] - 1);
    }
}

/// Faces next to each other are connected, and connection does not leave what
/// has no neighbours outside.
pub proof fn law_connection_goes_through_neighbors(adj: Adjacency, inside: spec_fn(u32) -> bool, a: u32, b: u32)
    requires
        a < adj.len(),
        b < adj.len(),
    ensures
        adj.has(a, b) ==> connected(adj, a, b),
        connected(adj, a, b) && inside(a) && (forall|x: u32, y: u32|
            #![trigger linked(adj, x, y)]
            linked(adj, x, y) && inside(x) ==> inside(y)) ==> inside(b),
{
    if adj.has(a, b) {
        let path = seq![a, b];
        assert(linked(adj, path[0], path[1]));
        assert(is_path(adj, path));
        assert(path[0] == a && path.last() == b);
    }
    if connected(adj, a, b) && inside(a) && (forall|x: u32, y: u32|
        #![trigger linked(adj, x, y)]
        linked(adj, x, y) && inside(x) ==> inside(y)) {
        let path = choose|path: Seq<u32>| #[trigger] is_path(adj, path) && path[0] == a && path.last() == b;
        lemma_path_stays(adj, inside, path, path.len() - 1);
    }
}

proof fn lemma_path_stays(adj: Adjacency, inside: spec_fn(u32) -> bool, path: Seq<u32>, i: int)
    requires
        is_path(adj, path),
        inside(path[0]),
        forall|x: u32, y: u32|
            #![trigger linked(adj, x, y)]
            linked(adj, x, y) && inside(x) ==> inside(y),
        0 <= i < path.len(),
    ensures
        inside(path[i]),
    decreases i,
{
    if i > 0 {
        lemma_path_stays(adj, inside, path, i - 1);
        assert(linked(adj, path[i - 1], path[i]));
    }
}

} // verus!
