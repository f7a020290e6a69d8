//! Moving faces between primitives.
//!
//! Once merging is over, faces are regrouped: single faces migrate between
//! neighbouring primitives, and bad primitives are split. The groups are kept
//! as plain lists, numbered densely, and turned back into primitives at the
//! end.

use crate::faces::{FaceRings, RingsView, in_some_group, is_partition, lists};
use crate::mesh::Adjacency;
use crate::numbering::{first_positions, id_of, lemma_first_positions, lemma_id_of, lemma_id_unique, number};
use crate::prim::Vec3;
use crate::primitive::{
    Fit, PrimView, Primitive, all_wf, clear_slot, count_true, emptied, lemma_live_count_listed, live_count,
    merge_fit_proxy_points, views,
};
use crate::sets::{is_set, lemma_push_contains, set_insert, sort_unique};
use crate::surface::{Surface, has_vertex};
use vstd::prelude::*;

verus! {

/// The groups, and for every face the group that it is in.
pub struct Groups {
    assignment: Vec<u32>,
    groups: Vec<Vec<u32>>,
}

/// What [`Groups`] stands for.
pub struct GroupsView {
    pub assignment: Seq<u32>,
    pub groups: Seq<Seq<u32>>,
}

impl View for Groups {
    type V = GroupsView;

    closed spec fn view(&self) -> GroupsView {
        GroupsView { assignment: self.assignment@, groups: lists(self.groups@) }
    }
}

impl GroupsView {
    /// How many faces there are.
    pub open spec fn faces(self) -> nat {
        self.assignment.len()
    }

    /// No group is empty, and each face is in the group that it is assigned
    /// to, once, and in no other.
    pub open spec fn consistent(self) -> bool {
        &&& self.faces() <= u32::MAX
        &&& self.groups.len() <= self.faces()
        &&& forall|f: int| 0 <= f < self.faces() ==> (#[trigger] self.assignment[f]) < self.groups.len()
        &&& forall|g: int| 0 <= g < self.groups.len() ==> (#[trigger] self.groups[g]).len() > 0
        &&& forall|g: int| 0 <= g < self.groups.len() ==> (#[trigger] self.groups[g]).no_duplicates()
        &&& forall|g: int, f: u32|
            0 <= g < self.groups.len() ==> (#[trigger] self.groups[g].contains(f) <==> f < self.faces()
                && self.assignment[f as int] == g)
    }

    /// Face `f` leaves its group for group `to`.
    pub open spec fn moved(self, f: u32, to: u32) -> GroupsView {
        let from = self.assignment[f as int];
        GroupsView {
            assignment: self.assignment.update(f as int, to),
            groups: self.groups.update(from as int, without(self.groups[from as int], f)).update(
                to as int,
                self.groups[to as int].push(f),
            ),
        }
    }

    /// Group `g` keeps the faces `a`; the faces `b` become a new group.
    pub open spec fn divided(self, g: int, a: Seq<u32>, b: Seq<u32>) -> GroupsView {
        GroupsView {
            assignment: Seq::new(
                self.assignment.len(),
                |f: int|
                    if b.contains(f as u32) {
                        self.groups.len() as u32
                    } else {
                        self.assignment[f]
                    },
            ),
            groups: self.groups.update(g, a).push(b),
        }
    }
}

/// The list without `x`.
pub open spec fn without(s: Seq<u32>, x: u32) -> Seq<u32>
    decreases s.len(),
{
    if s.len() == 0 {
        s
    } else if s.last() == x {
        without(s.drop_last(), x)
    } else {
        without(s.drop_last(), x).push(s.last())
    }
}

/// `a` and `b` share out the faces of `s`, both getting some.
pub open spec fn divides(s: Seq<u32>, a: Seq<u32>, b: Seq<u32>) -> bool {
    &&& a.len() > 0
    &&& b.len() > 0
    &&& a.no_duplicates()
    &&& b.no_duplicates()
    &&& forall|f: u32| #[trigger] s.contains(f) <==> a.contains(f) || b.contains(f)
    &&& forall|f: u32| !(#[trigger] a.contains(f) && b.contains(f))
}

/// Groups in which every face is in one group partition the faces.
pub proof fn lemma_groups_partition(v: GroupsView)
    requires
        v.consistent(),
    ensures
        is_partition(v.groups, v.faces()),
{
    let gs = v.groups;
    assert forall|g: int, i: int| 0 <= g < gs.len() && 0 <= i < gs[g].len() implies (#[trigger] gs[g][i])
        < v.faces() by {
        assert(gs[g].contains(gs[g][i]));
    }
    assert forall|g: int, i: int, h: int, j: int|
        0 <= g < gs.len() && 0 <= i < gs[g].len() && 0 <= h < gs.len() && 0 <= j < gs[h].len() && (#[trigger] gs[g][i])
            == (#[trigger] gs[h][j]) implies g == h && i == j by {
        assert(gs[g].contains(gs[g][i]));
        assert(gs[h].contains(gs[h][j]));
    }
    assert forall|f: u32| f < v.faces() implies #[trigger] in_some_group(gs, f) by {
        let g = v.assignment[f as int] as int;
        assert(gs[g].contains(f));
        let i = choose|i: int| 0 <= i < gs[g].len() && gs[g][i] == f;
        assert(gs[g][i] == f);
    }
}

proof fn lemma_without(s: Seq<u32>, x: u32)
    requires
        s.no_duplicates(),
    ensures
        without(s, x).no_duplicates(),
        forall|y: u32| #[trigger] without(s, x).contains(y) <==> s.contains(y) && y != x,
        s.contains(x) ==> without(s, x).len() + 1 == s.len(),
        !s.contains(x) ==> without(s, x) == s,
    decreases s.len(),
{
    if s.len() > 0 {
        let t = s.drop_last();
        assert(t.no_duplicates());
        lemma_without(t, x);
        let w = without(t, x);
        assert(s =~= t.push(s.last()));
        assert(!t.contains(s.last())) by {
            if t.contains(s.last()) {
                let i = choose|i: int| 0 <= i < t.len() && t[i] == s.last();
                assert(s[i] == s[s.len() - 1]);
            }
        }
        assert forall|y: u32| #[trigger] without(s, x).contains(y) <==> s.contains(y) && y != x by {
            lemma_push_contains(t, s.last(), y);
            lemma_push_contains(w, s.last(), y);
            assert(w.contains(y) <==> t.contains(y) && y != x);
        }
        lemma_push_contains(t, s.last(), x);
        assert(w.contains(s.last()) <==> t.contains(s.last()) && s.last() != x);
    }
}

/// A face that is not alone can move to another group.
pub proof fn law_move_keeps_groups(v: GroupsView, f: u32, to: u32)
    requires
        v.consistent(),
        f < v.faces(),
        to < v.groups.len(),
        to != v.assignment[f as int],
        v.groups[v.assignment[f as int] as int].len() > 1,
    ensures
        v.moved(f, to).consistent(),
        v.moved(f, to).groups.len() == v.groups.len(),
{
    let w = v.moved(f, to);
    let from = v.assignment[f as int] as int;
    assert(v.groups[from].contains(f));
    assert(!v.groups[to as int].contains(f));
    lemma_without(v.groups[from], f);
    assert forall|g: int, x: u32| 0 <= g < w.groups.len() implies (#[trigger] w.groups[g].contains(x) <==> x < w.faces()
        && w.assignment[x as int] == g) by {
        assert(v.groups[g].contains(x) <==> x < v.faces() && v.assignment[x as int] == g);
        if g == to {
            lemma_push_contains(v.groups[g], f, x);
        }
    }
}

/// Dividing a group gives one group more.
pub proof fn law_divide_keeps_groups(v: GroupsView, g: int, a: Seq<u32>, b: Seq<u32>)
    requires
        v.consistent(),
        0 <= g < v.groups.len(),
        divides(v.groups[g], a, b),
    ensures
        v.divided(g, a, b).consistent(),
        v.divided(g, a, b).groups.len() == v.groups.len() + 1,
{
    let w = v.divided(g, a, b);
    let n = v.groups.len() as int;
    assert forall|h: int, x: u32| 0 <= h < w.groups.len() implies (#[trigger] w.groups[h].contains(x) <==> x < w.faces()
        && w.assignment[x as int] == h) by {
        assert(v.groups[g].contains(x) <==> a.contains(x) || b.contains(x));
        assert(v.groups[g].contains(x) <==> x < v.faces() && v.assignment[x as int] == g);
        assert(!(a.contains(x) && b.contains(x)));
        if h < n {
            assert(v.groups[h].contains(x) <==> x < v.faces() && v.assignment[x as int] == h);
        }
    }
    assert forall|f: int| 0 <= f < w.faces() implies (#[trigger] w.assignment[f]) < w.groups.len() by {
        assert(v.assignment[f] < v.groups.len());
    }
    lemma_more_faces_than_groups(w);
}

/// Each group holds a face of its own, so there are at most as many groups as
/// faces.
proof fn lemma_more_faces_than_groups(w: GroupsView)
    requires
        w.faces() <= u32::MAX,
        forall|g: int| 0 <= g < w.groups.len() ==> (#[trigger] w.groups[g]).len() > 0,
        forall|g: int, f: u32|
            0 <= g < w.groups.len() ==> (#[trigger] w.groups[g].contains(f) <==> f < w.faces() && w.assignment[f as int]
                == g),
    ensures
        w.groups.len() <= w.faces(),
{
    let heads = Seq::new(w.groups.len(), |g: int| w.groups[g][0]);
    assert forall|g: int| 0 <= g < heads.len() implies (#[trigger] heads[g]) < w.faces() && w.assignment[heads[g] as int]
        == g by {
        assert(w.groups[g].contains(w.groups[g][0]));
    }
    assert(heads.no_duplicates());
    crate::faces::lemma_distinct_bounded(heads, w.faces());
}

impl Groups {
    pub closed spec fn wf(&self) -> bool {
        self@.consistent()
    }

    pub proof fn lemma_view(&self)
        requires
            self.wf(),
        ensures
            self@.consistent(),
    {
    }

    /// Numbers the primitives of a partition `0, 1, ..` in the order of their
    /// lowest faces, and lists the faces of each. The second result gives the
    /// primitive that each group was.
    pub fn from_rings(rings: &mut FaceRings) -> (res: (Groups, Vec<u32>))
        requires
            old(rings).wf(),
        ensures
            final(rings).wf(),
            final(rings)@ == old(rings)@,
            res.0.wf(),
            res.0@.faces() == old(rings)@.len(),
            res.1@.len() == res.0@.groups.len(),
            forall|f: int|
                0 <= f < old(rings)@.len() ==> res.1@[#[trigger] res.0@.assignment[f] as int] == old(rings)@.owner[f],
            forall|g: int, h: int|
                0 <= g < h < res.1@.len() ==> #[trigger] res.1@[g] != #[trigger] res.1@[h],
            forall|g: int| 0 <= g < res.0@.groups.len() ==> is_set(#[trigger] res.0@.groups[g]),
            forall|g: int, h: int|
                0 <= g < h < res.0@.groups.len() ==> (#[trigger] res.0@.groups[g])[0] < (
                #[trigger] res.0@.groups[h])[0],
    {
        let nf: usize = rings.len();
        let ghost v = rings@;
        proof {
            rings.lemma_view();
        }
        let mut keys: Vec<u128> = Vec::new();
        let mut f: usize = 0;
        while f < nf
            invariant
                rings.wf(),
                rings@ == v,
                v.len() == nf,
                nf <= u32::MAX,
                f <= nf,
                keys@.len() == f,
                forall|k: int| 0 <= k < f ==> #[trigger] keys@[k] == v.owner[k],
            decreases nf - f,
        {
            let root: u32 = rings.owner(f as u32);
            keys.push(root as u128);
            f += 1;
        }
        let numbering = number(&keys);
        let ghost fp = first_positions(keys@);
        proof {
            lemma_first_positions(keys@);
        }
        let n: usize = numbering.firsts.len();
        let mut groups: Vec<Vec<u32>> = Vec::new();
        let mut roots: Vec<u32> = Vec::new();
        let mut g: usize = 0;
        while g < n
            invariant
                n == numbering.firsts@.len(),
                n == fp.len(),
                fp == first_positions(keys@),
                numbering.numbers(keys@),
                keys@.len() == nf,
                v.len() == nf,
                nf <= u32::MAX,
                forall|k: int| 0 <= k < nf ==> #[trigger] keys@[k] == v.owner[k],
                forall|k: int| 0 <= k < fp.len() ==> 0 <= (#[trigger] fp[k]) < nf,
                g <= n,
                groups@.len() == g,
                roots@.len() == g,
                forall|k: int| 0 <= k < g ==> (#[trigger] groups@[k])@ == Seq::<u32>::empty(),
                forall|k: int| 0 <= k < g ==> #[trigger] roots@[k] == v.owner[fp[k]],
            decreases n - g,
        {
            let first: usize = numbering.firsts[g];
            assert(first == fp[g as int]);
            assert(keys@[first as int] == v.owner[first as int]);
            roots.push(keys[first] as u32);
            groups.push(Vec::new());
            g += 1;
        }
        let mut assignment: Vec<u32> = Vec::new();
        let mut i: usize = 0;
        while i < nf
            invariant
                n == fp.len(),
                n <= nf,
                fp == first_positions(keys@),
                numbering.numbers(keys@),
                keys@.len() == nf,
                nf <= u32::MAX,
                i <= nf,
                groups@.len() == n,
                assignment@.len() == i,
                forall|k: int| 0 <= k < i ==> #[trigger] assignment@[k] == id_of(keys@, keys@[k]),
                forall|k: int| 0 <= k < i ==> (#[trigger] assignment@[k]) < n,
                forall|k: int| 0 <= k < n ==> is_set((#[trigger] groups@[k])@),
                forall|k: int, j: int| 0 <= k < n && 0 <= j < groups@[k]@.len() ==> (#[trigger] groups@[k]@[j]) < i,
                forall|k: int, x: u32|
                    0 <= k < n ==> (#[trigger] groups@[k]@.contains(x) <==> x < i && assignment@[x as int] == k),
            decreases nf - i,
        {
            proof {
                lemma_id_of(keys@, i as int);
                assert(numbering.ids@[i as int] == id_of(keys@, keys@[i as int]));
            }
            let id: usize = numbering.ids[i];
            let ghost before = groups@;
            let ghost a0 = assignment@;
            assignment.push(id as u32);
            groups[id].push(i as u32);
            proof {
                assert forall|k: int, x: u32| 0 <= k < n implies (#[trigger] groups@[k]@.contains(x) <==> x < i + 1
                    && assignment@[x as int] == k) by {
                    assert(before[k]@.contains(x) <==> x < i && a0[x as int] == k);
                    if k == id {
                        lemma_push_contains(before[k]@, i as u32, x);
                    } else {
                        assert(groups@[k] == before[k]);
                    }
                }
                assert forall|k: int, j: int| 0 <= k < n && 0 <= j < groups@[k]@.len() implies (
                #[trigger] groups@[k]@[j]) < i + 1 by {
                    assert(groups@[k]@.contains(groups@[k]@[j]));
                }
                assert forall|k: int| 0 <= k < n implies is_set((#[trigger] groups@[k])@) by {
                    assert(is_set(before[k]@));
                    assert(forall|j: int| 0 <= j < before[k]@.len() ==> (#[trigger] before[k]@[j]) < i);
                }
            }
            i += 1;
        }
        let res = Groups { assignment, groups };
        proof {
            let w = res@;
            assert forall|k: int| 0 <= k < n implies (#[trigger] w.groups[k])[0] == fp[k] && w.groups[k].len() > 0 by {
                let x = fp[k] as u32;
                lemma_id_unique(keys@, k);
                assert(assignment@[fp[k]] == k);
                assert(w.groups[k].contains(x));
                let s = w.groups[k];
                let y = s[0];
                assert(s.contains(y));
                assert(res.groups@[k]@.contains(y));
                lemma_id_of(keys@, y as int);
                assert(fp[k] <= y);
                let j = choose|j: int| 0 <= j < s.len() && s[j] == x;
                assert(j == 0 || s[0] < s[j]);
            }
            assert forall|k: int, l: int| 0 <= k < l < n implies #[trigger] roots@[k] != #[trigger] roots@[l] by {
                assert(keys@[fp[k]] != keys@[fp[l]]);
            }
            assert forall|f: int| 0 <= f < nf implies roots@[#[trigger] w.assignment[f] as int] == v.owner[f] by {
                lemma_id_of(keys@, f);
                assert(assignment@[f] == id_of(keys@, keys@[f]));
            }
            assert forall|k: int| 0 <= k < n implies (#[trigger] w.groups[k]).no_duplicates() by {
                assert(is_set(res.groups@[k]@));
            }
            assert forall|k: int, x: u32| 0 <= k < n implies (#[trigger] w.groups[k].contains(x) <==> x < nf
                && w.assignment[x as int] == k) by {
                assert(res.groups@[k]@.contains(x) <==> x < nf && assignment@[x as int] == k);
            }
        }
        (res, roots)
    }

    /// How many groups there are.
    pub fn len(&self) -> (n: usize)
        ensures
            n == self@.groups.len(),
    {
        self.groups.len()
    }

    /// How many faces there are.
    pub fn face_count(&self) -> (n: usize)
        ensures
            n == self@.faces(),
    {
        self.assignment.len()
    }

    /// The faces of group `g`.
    pub fn group(&self, g: usize) -> (faces: &Vec<u32>)
        requires
            g < self@.groups.len(),
        ensures
            faces@ == self@.groups[g as int],
    {
        &self.groups[g]
    }

    /// The group of face `f`.
    pub fn group_of(&self, f: u32) -> (g: u32)
        requires
            f < self@.faces(),
        ensures
            g == self@.assignment[f as int],
    {
        self.assignment[f as usize]
    }

    /// Moves face `f` to group `to`.
    pub fn move_face(&mut self, f: u32, to: u32)
        requires
            old(self).wf(),
            f < old(self)@.faces(),
            to < old(self)@.groups.len(),
            to != old(self)@.assignment[f as int],
            old(self)@.groups[old(self)@.assignment[f as int] as int].len() > 1,
        ensures
            final(self).wf(),
            final(self)@ == old(self)@.moved(f, to),
    {
        let ghost v = self@;
        let from: u32 = self.assignment[f as usize];
        let rest = list_without(&self.groups[from as usize], f);
        self.groups.set(from as usize, rest);
        self.groups[to as usize].push(f);
        self.assignment.set(f as usize, to);
        proof {
            law_move_keeps_groups(v, f, to);
            assert(self@.groups =~= v.moved(f, to).groups);
        }
    }

    /// Group `g` keeps the faces `a`; the faces `b` become a new group.
    pub fn divide(&mut self, g: usize, a: Vec<u32>, b: Vec<u32>)
        requires
            old(self).wf(),
            g < old(self)@.groups.len(),
            divides(old(self)@.groups[g as int], a@, b@),
        ensures
            final(self).wf(),
            final(self)@ == old(self)@.divided(g as int, a@, b@),
    {
        let ghost v = self@;
        let fresh: u32 = self.groups.len() as u32;
        proof {
            law_divide_keeps_groups(v, g as int, a@, b@);
            assert forall|i: int| 0 <= i < b@.len() implies (#[trigger] b@[i]) < v.faces() by {
                assert(b@.contains(b@[i]));
                assert(v.groups[g as int].contains(b@[i]));
            }
        }
        let mut i: usize = 0;
        while i < b.len()
            invariant
                i <= b@.len(),
                fresh == v.groups.len() as u32,
                self.groups@ == old(self).groups@,
                v == old(self)@,
                self.assignment@.len() == v.faces(),
                v.faces() <= u32::MAX,
                forall|k: int| 0 <= k < b@.len() ==> (#[trigger] b@[k]) < v.faces(),
                forall|f: int|
                    0 <= f < v.faces() ==> #[trigger] self.assignment@[f] == (if b@.subrange(0, i as int).contains(
                        f as u32,
                    ) {
                        fresh
                    } else {
                        v.assignment[f]
                    }),
            decreases b@.len() - i,
        {
            let ghost seen = b@.subrange(0, i as int);
            assert(b@.subrange(0, i + 1) =~= seen.push(b@[i as int]));
            let ghost before = self.assignment@;
            self.assignment.set(b[i] as usize, fresh);
            proof {
                assert forall|f: int| 0 <= f < v.faces() implies #[trigger] self.assignment@[f] == (if b@.subrange(
                    0,
                    i + 1,
                ).contains(f as u32) {
                    fresh
                } else {
                    v.assignment[f]
                }) by {
                    lemma_push_contains(seen, b@[i as int], f as u32);
                    assert(before[f] == (if seen.contains(f as u32) { fresh } else { v.assignment[f] }));
                }
            }
            i += 1;
        }
        proof {
            assert(b@.subrange(0, i as int) =~= b@);
        }
        self.groups.set(g, a);
        self.groups.push(b);
        proof {
            let w = v.divided(g as int, a@, b@);
            assert(self@.assignment =~= w.assignment);
            assert(self@.groups =~= w.groups);
        }
    }
}

/// A list without `x`.
pub fn list_without(s: &Vec<u32>, x: u32) -> (out: Vec<u32>)
    ensures
        out@ == without(s@, x),
{
    let mut out: Vec<u32> = Vec::new();
    let mut i: usize = 0;
    assert(s@.subrange(0, 0) =~= Seq::empty());
    while i < s.len()
        invariant
            i <= s@.len(),
            out@ == without(s@.subrange(0, i as int), x),
        decreases s@.len() - i,
    {
        proof {
            assert(s@.subrange(0, i + 1).drop_last() =~= s@.subrange(0, i as int));
        }
        if s[i] != x {
            out.push(s[i]);
        }
        i += 1;
    }
    assert(s@.subrange(0, i as int) =~= s@);
    out
}


/// `x` is a vertex of one of the faces that count for fitting, or, with
/// `all`, of any of the faces.
pub open spec fn vertex_among(
    faces: Seq<u32>,
    tris: Seq<[u32; 3]>,
    support: Seq<bool>,
    all: bool,
    x: u32,
) -> bool {
    exists|i: int|
        0 <= i < faces.len() && (all || support[#[trigger] faces[i] as int]) && has_vertex(
            tris[faces[i] as int],
            x,
        )
}

/// The vertices of the faces, or, without `all`, of those of them that count
/// for fitting: sorted, without repetition.
pub fn vertices_of(faces: &Vec<u32>, tris: &Vec<[u32; 3]>, support: &Vec<bool>, all: bool) -> (out: Vec<u32>)
    requires
        support@.len() == tris@.len(),
        forall|i: int| 0 <= i < faces@.len() ==> (#[trigger] faces@[i]) < tris@.len(),
    ensures
        is_set(out@),
        forall|x: u32| #[trigger] out@.contains(x) <==> vertex_among(faces@, tris@, support@, all, x),
{
    let mut corners: Vec<u32> = Vec::new();
    let mut i: usize = 0;
    while i < faces.len()
        invariant
            support@.len() == tris@.len(),
            forall|k: int| 0 <= k < faces@.len() ==> (#[trigger] faces@[k]) < tris@.len(),
            i <= faces@.len(),
            forall|x: u32| #[trigger]
                corners@.contains(x) <==> vertex_among(faces@.subrange(0, i as int), tris@, support@, all, x),
        decreases faces@.len() - i,
    {
        let f: usize = faces[i] as usize;
        let ghost before = corners@;
        let ghost seen = faces@.subrange(0, i as int);
        let ghost longer = faces@.subrange(0, i + 1);
        assert(longer =~= seen.push(faces@[i as int]));
        let counts: bool = all || support[f];
        if counts {
            let t: [u32; 3] = tris[f];
            corners.push(t[0]);
            corners.push(t[1]);
            corners.push(t[2]);
        }
        proof {
            let t = tris@[f as int];
            assert forall|x: u32| #[trigger] corners@.contains(x) <==> vertex_among(longer, tris@, support@, all, x) by {
                assert(before.contains(x) <==> vertex_among(seen, tris@, support@, all, x));
                lemma_push_contains(before, t[0], x);
                lemma_push_contains(before.push(t[0]), t[1], x);
                lemma_push_contains(before.push(t[0]).push(t[1]), t[2], x);
                if vertex_among(seen, tris@, support@, all, x) {
                    let k = choose|k: int|
                        0 <= k < seen.len() && (all || support@[#[trigger] seen[k] as int]) && has_vertex(
                            tris@[seen[k] as int],
                            x,
                        );
                    assert(longer[k] == seen[k]);
                }
                if counts && has_vertex(t, x) {
                    assert(longer[i as int] == f);
                }
                if vertex_among(longer, tris@, support@, all, x) {
                    let k = choose|k: int|
                        0 <= k < longer.len() && (all || support@[#[trigger] longer[k] as int]) && has_vertex(
                            tris@[longer[k] as int],
                            x,
                        );
                    if k < i {
                        assert(seen[k] == longer[k]);
                    }
                }
            }
        }
        i += 1;
    }
    assert(faces@.subrange(0, i as int) =~= faces@);
    sort_unique(&corners)
}

/// The shape of a regrouped primitive, and the points that stand in for the
/// faces left out of the fit.
pub struct Shape {
    pub fit: Fit,
    pub proxies: Vec<Vec3>,
}

/// The primitive at `root` after regrouping: its group, its shape, and whether
/// it is alive.
pub open spec fn regrown(before: PrimView, after: PrimView, faces: Seq<u32>, shape: Shape, live: bool) -> bool {
    &&& after.alive == live
    &&& after.version == before.version + 1
    &&& after.q == shape.fit.q
    &&& after.prim == shape.fit.prim
    &&& after.volume == shape.fit.volume
    &&& after.weighted_volume == shape.fit.weighted_volume
    &&& after.face_count == faces.len()
    &&& after.proxies == shape.proxies@
}

/// Some face among the first `k`, or face `k` by one of its first `i`
/// neighbours, makes `p` touch `j`.
spec fn touched(adj: Adjacency, owner: Seq<u32>, k: int, i: int, p: u32, j: u32) -> bool {
    exists|f: int, n: int|
        0 <= f <= k && f < adj.len() && 0 <= n < adj.neighbors@[f]@.len() && (f < k || n < i) && owner[f] == p
            && owner[#[trigger] adj.neighbors@[f]@[n] as int] == j
}

/// Turns groups back into primitives. The first face of a group is its
/// primitive; what is no first face is cleared; neighbours are found anew. The
/// primitive of a group that is not live stays dead.
pub fn rebuild(
    prims: &mut Vec<Primitive>,
    groups: &Groups,
    shapes: &Vec<Shape>,
    live: &Vec<bool>,
    tris: &Vec<[u32; 3]>,
    support: &Vec<bool>,
    adj: &Adjacency,
) -> (rings: FaceRings)
    requires
        groups.wf(),
        shapes@.len() == groups@.groups.len(),
        live@.len() == groups@.groups.len(),
        tris@.len() == groups@.faces(),
        support@.len() == tris@.len(),
        adj.len() == tris@.len(),
        adj.wf(),
        tris@.len() <= old(prims)@.len(),
        all_wf(old(prims)@),
        forall|i: int| 0 <= i < tris@.len() ==> (#[trigger] old(prims)@[i]).version < u64::MAX,
    ensures
        rings.wf(),
        rings@.len() == tris@.len(),
        rings@.is_grouping(groups@.groups),
        final(prims)@.len() == old(prims)@.len(),
        all_wf(final(prims)@),
        forall|i: int| tris@.len() <= i < old(prims)@.len() ==> final(prims)@[i] == old(prims)@[i],
        forall|i: int|
            0 <= i < tris@.len() && !rings@.is_root(i as u32) ==> (#[trigger] final(prims)@[i])@ == emptied(
                old(prims)@[i]@,
            ),
        forall|g: int|
            0 <= g < groups@.groups.len() ==> regrown(
                old(prims)@[(#[trigger] groups@.groups[g])[0] as int]@,
                final(prims)@[groups@.groups[g][0] as int]@,
                groups@.groups[g],
                shapes@[g],
                live@[g],
            ),
        forall|i: u32|
            i < tris@.len() ==> (Surface { tris: tris@, support: support@, adj: *adj }).mirrors(
                (#[trigger] final(prims)@[i as int])@,
                rings@,
                i,
            ),
        live_count(views(final(prims)@).subrange(0, tris@.len() as int)) == count_true(live@),
        (forall|g: int| 0 <= g < live@.len() ==> #[trigger] live@[g]) ==> (Surface {
            tris: tris@,
            support: support@,
            adj: *adj,
        }).tracks(views(final(prims)@).subrange(0, tris@.len() as int), rings@),
{
    let nf: usize = tris.len();
    let ghost gs = groups@.groups;
    let ghost old_prims = prims@;
    let ghost surface = Surface { tris: tris@, support: support@, adj: *adj };
    proof {
        groups.lemma_view();
        lemma_groups_partition(groups@);
    }
    let mut rings = FaceRings::from_groups(&groups.groups, nf);
    let ghost rv = rings@;
    let ghost owner = rv.owner;
    proof {
        rings.lemma_view();
    }
    let mut g: usize = 0;
    while g < groups.groups.len()
        invariant
            nf == tris@.len(),
            nf <= u32::MAX,
            support@.len() == nf,
            gs == lists(groups.groups@),
            is_partition(gs, nf as nat),
            shapes@.len() == gs.len(),
            live@.len() == gs.len(),
            forall|h: int| 0 <= h < gs.len() ==> (#[trigger] gs[h]).len() > 0,
            forall|h: int| 0 <= h < gs.len() ==> (#[trigger] gs[h]).len() <= u32::MAX,
            old_prims.len() >= nf,
            prims@.len() == old_prims.len(),
            all_wf(prims@),
            forall|i: int| 0 <= i < nf ==> (#[trigger] old_prims[i]).version < u64::MAX,
            g <= gs.len(),
            forall|i: int|
                0 <= i < prims@.len() && !is_head(gs, g as int, i) ==> #[trigger] prims@[i] == old_prims[i],
            forall|h: int|
                0 <= h < g ==> {
                    let p = prims@[(#[trigger] gs[h])[0] as int]@;
                    &&& regrown(old_prims[gs[h][0] as int]@, p, gs[h], shapes@[h], live@[h])
                    &&& p.neighbors == Set::<u32>::empty()
                    &&& forall|x: u32| #[trigger] p.vertices.contains(x) <==> vertex_among(gs[h], tris@, support@, true, x)
                    &&& forall|x: u32| #[trigger]
                        p.fit_vertices.contains(x) <==> vertex_among(gs[h], tris@, support@, false, x)
                },
        decreases gs.len() - g,
    {
        let faces: &Vec<u32> = &groups.groups[g];
        assert(faces@ == gs[g as int]);
        assert forall|i: int| 0 <= i < faces@.len() implies (#[trigger] faces@[i]) < nf by {
            assert(gs[g as int][i] < nf);
        }
        let root: u32 = faces[0];
        assert(gs[g as int][0] == root);
        let vertex_indices = vertices_of(faces, tris, support, true);
        let fit_vertex_indices = vertices_of(faces, tris, support, false);
        let none: Vec<Vec3> = Vec::new();
        let fit_proxy_points = merge_fit_proxy_points(&shapes[g].proxies, &none);
        assert(shapes@[g as int].proxies@ + Seq::<Vec3>::empty() =~= shapes@[g as int].proxies@);
        let ghost before = prims@;
        assert(!is_head(gs, g as int, root as int)) by {
            if is_head(gs, g as int, root as int) {
                let h = choose|h: int| 0 <= h < g && (#[trigger] gs[h])[0] == root;
                assert(gs[h][0] == gs[g as int][0]);
            }
        }
        let fit: Fit = shapes[g].fit;
        let version: u64 = prims[root as usize].version + 1;
        let p = Primitive {
            alive: live[g],
            version,
            q: fit.q,
            prim: fit.prim,
            volume: fit.volume,
            weighted_volume: fit.weighted_volume,
            face_count: faces.len() as u32,
            vertex_indices,
            fit_vertex_indices,
            fit_proxy_points,
            neighbors: Vec::new(),
        };
        assert(p@.neighbors =~= Set::<u32>::empty());
        prims.set(root as usize, p);
        proof {
            assert forall|i: int| 0 <= i < prims@.len() && !is_head(gs, g + 1, i) implies #[trigger] prims@[i]
                == old_prims[i] by {
                if i == root {
                    assert(gs[g as int][0] == i);
                }
                assert(!is_head(gs, g as int, i)) by {
                    if is_head(gs, g as int, i) {
                        let h = choose|h: int| 0 <= h < g && (#[trigger] gs[h])[0] == i;
                        assert(gs[h][0] == i);
                    }
                }
            }
            assert forall|h: int| 0 <= h < g implies prims@[(#[trigger] gs[h])[0] as int] == before[gs[h][0] as int] by {
                assert(gs[h][0] != gs[g as int][0]);
            }
        }
        g += 1;
    }
    let ghost grown = prims@;
    proof {
        lemma_heads_are_roots(rv, gs, nf as nat);
    }
    let mut f: usize = 0;
    while f < nf
        invariant
            rings.wf(),
            rings@ == rv,
            rv.len() == nf,
            nf <= u32::MAX,
            f <= nf,
            prims@.len() == grown.len(),
            grown.len() >= nf,
            all_wf(prims@),
            forall|i: int| f <= i < prims@.len() ==> #[trigger] prims@[i] == grown[i],
            forall|i: int|
                0 <= i < f ==> (#[trigger] prims@[i])@ == (if rv.is_root(i as u32) {
                    grown[i]@
                } else {
                    emptied(grown[i]@)
                }),
        decreases nf - f,
    {
        let root: u32 = rings.owner(f as u32);
        if root != f as u32 {
            clear_slot(prims, f as u32);
        }
        f += 1;
    }
    let ghost cleared = prims@;
    proof {
        assert forall|i: u32| i < nf implies (#[trigger] cleared[i as int])@.neighbors == Set::<u32>::empty() by {
            if rv.is_root(i) {
                let h = choose|h: int| 0 <= h < gs.len() && (#[trigger] gs[h])[0] == i;
                assert(grown[gs[h][0] as int]@.neighbors == Set::<u32>::empty());
            }
        }
    }
    let mut k: usize = 0;
    while k < nf
        invariant
            rings.wf(),
            rings@ == rv,
            owner == rv.owner,
            rv.consistent(),
            rv.len() == nf,
            nf <= u32::MAX,
            adj.len() == nf,
            adj.wf(),
            k <= nf,
            prims@.len() == cleared.len(),
            cleared.len() >= nf,
            all_wf(prims@),
            forall|i: int| nf <= i < prims@.len() ==> #[trigger] prims@[i] == cleared[i],
            forall|i: int| 0 <= i < nf ==> same_but_neighbors((#[trigger] prims@[i])@, cleared[i]@),
            forall|p: u32, j: u32|
                p < nf ==> (#[trigger] prims@[p as int]@.neighbors.contains(j) <==> p != j && touched(
                    *adj,
                    owner,
                    k as int,
                    0,
                    p,
                    j,
                )),
        decreases nf - k,
    {
        let p: u32 = rings.owner(k as u32);
        assert(rv.is_root(owner[k as int]));
        let mut i: usize = 0;
        while i < adj.neighbors[k].len()
            invariant
                rings.wf(),
                rings@ == rv,
                owner == rv.owner,
                rv.consistent(),
                rv.len() == nf,
                nf <= u32::MAX,
                adj.len() == nf,
                adj.wf(),
                k < nf,
                p == owner[k as int],
                p < nf,
                i <= adj.neighbors@[k as int]@.len(),
                prims@.len() == cleared.len(),
                cleared.len() >= nf,
                all_wf(prims@),
                forall|x: int| nf <= x < prims@.len() ==> #[trigger] prims@[x] == cleared[x],
                forall|x: int| 0 <= x < nf ==> same_but_neighbors((#[trigger] prims@[x])@, cleared[x]@),
                forall|x: u32, j: u32|
                    x < nf ==> (#[trigger] prims@[x as int]@.neighbors.contains(j) <==> x != j && touched(
                        *adj,
                        owner,
                        k as int,
                        i as int,
                        x,
                        j,
                    )),
            decreases adj.neighbors@[k as int]@.len() - i,
        {
            let n: u32 = adj.neighbors[k][i];
            assert(adj.neighbors@[k as int]@[i as int] < adj.len());
            let q: u32 = rings.owner(n);
            let ghost before = prims@;
            if p != q {
                set_insert(&mut prims[p as usize].neighbors, q);
            }
            proof {
                assert forall|x: u32, j: u32| x < nf implies (#[trigger] prims@[x as int]@.neighbors.contains(j) <==> x
                    != j && touched(*adj, owner, k as int, i + 1, x, j)) by {
                    lemma_touched_step(*adj, owner, k as int, i as int, x, j);
                    assert(before[x as int]@.neighbors.contains(j) <==> x != j && touched(
                        *adj,
                        owner,
                        k as int,
                        i as int,
                        x,
                        j,
                    ));
                    assert(prims@[x as int]@.neighbors.contains(j) <==> prims@[x as int].neighbors@.contains(j));
                    assert(before[x as int]@.neighbors.contains(j) <==> before[x as int].neighbors@.contains(j));
                }
            }
            i += 1;
        }
        proof {
            assert forall|x: u32, j: u32| x < nf implies (#[trigger] prims@[x as int]@.neighbors.contains(j) <==> x != j
                && touched(*adj, owner, k + 1, 0, x, j)) by {
                lemma_touched_next(*adj, owner, k as int, x, j);
            }
        }
        k += 1;
    }
    proof {
        let ps = views(prims@).subrange(0, nf as int);
        assert forall|i: u32| i < nf implies surface.mirrors((#[trigger] prims@[i as int])@, rv, i) by {
            assert(ps[i as int] == prims@[i as int]@);
            assert(same_but_neighbors(prims@[i as int]@, cleared[i as int]@));
            if rv.is_root(i) {
                assert(is_head(gs, gs.len() as int, i as int));
                let h = choose|h: int| 0 <= h < gs.len() && (#[trigger] gs[h])[0] == i;
                assert(grown[gs[h][0] as int]@ == cleared[i as int]@);
                lemma_root_mirrors(surface, rv, gs, h, ps[i as int], i);
            } else {
                lemma_rest_mirrors(surface, rv, ps[i as int], i);
            }
        }
        assert forall|g: int| 0 <= g < gs.len() implies regrown(
            old_prims[(#[trigger] gs[g])[0] as int]@,
            prims@[gs[g][0] as int]@,
            gs[g],
            shapes@[g],
            live@[g],
        ) by {
            let r = gs[g][0];
            assert(r < nf);
            assert(rv.is_root(r));
            assert(same_but_neighbors(prims@[r as int]@, cleared[r as int]@));
        }
        assert forall|i: int| 0 <= i < nf && !rv.is_root(i as u32) implies (#[trigger] prims@[i])@ == emptied(
            old_prims[i]@,
        ) by {
            assert(same_but_neighbors(prims@[i]@, cleared[i]@));
            assert(!is_head(gs, gs.len() as int, i)) by {
                if is_head(gs, gs.len() as int, i) {
                    let h = choose|h: int| 0 <= h < gs.len() && (#[trigger] gs[h])[0] == i;
                    assert(rv.is_root(gs[h][0]));
                }
            }
            assert(grown[i] == old_prims[i]);
            assert(prims@[i]@.neighbors =~= Set::<u32>::empty()) by {
                assert forall|j: u32| !prims@[i]@.neighbors.contains(j) by {
                    let p = i as u32;
                    assert(prims@[p as int]@.neighbors.contains(j) <==> p != j && touched(
                        *adj,
                        owner,
                        nf as int,
                        0,
                        p,
                        j,
                    ));
                    if touched(*adj, owner, nf as int, 0, p, j) {
                        let (f, n) = choose|f: int, n: int|
                            0 <= f <= nf && f < adj.len() && 0 <= n < adj.neighbors@[f]@.len() && (f < nf || n < 0)
                                && owner[f] == p && owner[#[trigger] adj.neighbors@[f]@[n] as int] == j;
                        assert(rv.is_root(owner[f]));
                    }
                }
            }
        }
    }
    proof {
        let ps = views(prims@).subrange(0, nf as int);
        let heads = Seq::new(gs.len(), |g: int| gs[g][0]);
        assert forall|g: int, h: int| 0 <= g < heads.len() && 0 <= h < heads.len() && g != h implies heads[g]
            != heads[h] by {
            assert(gs[g][0] != gs[h][0]);
        }
        assert forall|g: int| 0 <= g < heads.len() implies (#[trigger] heads[g]) < nf && ps[heads[g] as int].alive
            == live@[g] by {
            assert(gs[g][0] < nf);
            assert(regrown(old_prims[gs[g][0] as int]@, prims@[gs[g][0] as int]@, gs[g], shapes@[g], live@[g]));
        }
        assert forall|i: int| 0 <= i < ps.len() && !heads.contains(i as u32) implies !(#[trigger] ps[i]).alive by {
            if rv.is_root(i as u32) {
                assert(is_head(gs, gs.len() as int, i));
                let h = choose|h: int| 0 <= h < gs.len() && (#[trigger] gs[h])[0] == i;
                assert(heads[h] == i as u32);
            }
            assert(prims@[i]@ == emptied(old_prims[i]@));
        }
        lemma_live_count_listed(ps, heads, live@);
        if forall|g: int| 0 <= g < live@.len() ==> #[trigger] live@[g] {
            assert forall|i: u32| i < nf implies surface.reflects(#[trigger] ps[i as int], rv, i) by {
                assert(surface.mirrors(prims@[i as int]@, rv, i));
                if rv.is_root(i) {
                    assert(is_head(gs, gs.len() as int, i as int));
                    let h = choose|h: int| 0 <= h < gs.len() && (#[trigger] gs[h])[0] == i;
                    assert(live@[h]);
                    assert(heads[h] == i);
                } else {
                    assert(prims@[i as int]@ == emptied(old_prims[i as int]@));
                }
            }
        }
    }
    rings
}

/// The primitives of a grouping are the first faces of its groups.
proof fn lemma_heads_are_roots(rv: RingsView, gs: Seq<Seq<u32>>, nf: nat)
    requires
        rv.is_grouping(gs),
        rv.len() == nf,
        is_partition(gs, nf),
        forall|h: int| 0 <= h < gs.len() ==> (#[trigger] gs[h]).len() > 0,
    ensures
        forall|h: int| 0 <= h < gs.len() ==> rv.is_root((#[trigger] gs[h])[0]),
        forall|p: u32| #[trigger] rv.is_root(p) ==> is_head(gs, gs.len() as int, p as int),
{
    assert forall|h: int| 0 <= h < gs.len() implies rv.is_root((#[trigger] gs[h])[0]) by {
        let x = gs[h][0];
        assert(x < nf);
        assert(rv.owner[gs[h][0] as int] == gs[h][0]);
    }
    assert forall|p: u32| #[trigger] rv.is_root(p) implies is_head(gs, gs.len() as int, p as int) by {
        assert(in_some_group(gs, p));
        let (g, i) = choose|g: int, i: int|
            0 <= g < gs.len() && 0 <= i < gs[g].len() && #[trigger] gs[g][i] == p;
        assert(rv.owner[gs[g][i] as int] == gs[g][0]);
        assert(gs[g][0] == p);
    }
}

proof fn lemma_touched_step(adj: Adjacency, owner: Seq<u32>, k: int, i: int, p: u32, j: u32)
    requires
        0 <= k < adj.len(),
        0 <= i < adj.neighbors@[k]@.len(),
    ensures
        touched(adj, owner, k, i + 1, p, j) <==> touched(adj, owner, k, i, p, j) || (owner[k] == p
            && owner[adj.neighbors@[k]@[i] as int] == j),
{
    if touched(adj, owner, k, i + 1, p, j) {
        let (f, n) = choose|f: int, n: int|
            0 <= f <= k && f < adj.len() && 0 <= n < adj.neighbors@[f]@.len() && (f < k || n < i + 1) && owner[f] == p
                && owner[#[trigger] adj.neighbors@[f]@[n] as int] == j;
        if !(f == k && n == i) {
            assert(owner[adj.neighbors@[f]@[n] as int] == j);
        }
    }
    if touched(adj, owner, k, i, p, j) {
        let (f, n) = choose|f: int, n: int|
            0 <= f <= k && f < adj.len() && 0 <= n < adj.neighbors@[f]@.len() && (f < k || n < i) && owner[f] == p
                && owner[#[trigger] adj.neighbors@[f]@[n] as int] == j;
        assert(owner[adj.neighbors@[f]@[n] as int] == j);
    }
}

proof fn lemma_touched_next(adj: Adjacency, owner: Seq<u32>, k: int, p: u32, j: u32)
    requires
        0 <= k < adj.len(),
    ensures
        touched(adj, owner, k + 1, 0, p, j) <==> touched(adj, owner, k, adj.neighbors@[k]@.len() as int, p, j),
{
    let m = adj.neighbors@[k]@.len() as int;
    if touched(adj, owner, k + 1, 0, p, j) {
        let (f, n) = choose|f: int, n: int|
            0 <= f <= k + 1 && f < adj.len() && 0 <= n < adj.neighbors@[f]@.len() && (f < k + 1 || n < 0) && owner[f]
                == p && owner[#[trigger] adj.neighbors@[f]@[n] as int] == j;
        assert(owner[adj.neighbors@[f]@[n] as int] == j);
    }
    if touched(adj, owner, k, m, p, j) {
        let (f, n) = choose|f: int, n: int|
            0 <= f <= k && f < adj.len() && 0 <= n < adj.neighbors@[f]@.len() && (f < k || n < m) && owner[f] == p
                && owner[#[trigger] adj.neighbors@[f]@[n] as int] == j;
        assert(owner[adj.neighbors@[f]@[n] as int] == j);
    }
}

proof fn lemma_touched_is_touches(s: Surface, rv: RingsView, p: u32, j: u32)
    requires
        s.wf(),
        rv.len() == s.len(),
    ensures
        touched(s.adj, rv.owner, s.len() as int, 0, p, j) <==> s.touches(rv, p, j),
{
    let nf = s.len() as int;
    if touched(s.adj, rv.owner, nf, 0, p, j) {
        let (f, n) = choose|f: int, n: int|
            0 <= f <= nf && f < s.adj.len() && 0 <= n < s.adj.neighbors@[f]@.len() && (f < nf || n < 0) && rv.owner[f]
                == p && rv.owner[#[trigger] s.adj.neighbors@[f]@[n] as int] == j;
        let (a, b) = (f as u32, s.adj.neighbors@[f]@[n]);
        assert(b < s.adj.len());
        assert(s.adj.has(a, b));
    }
    if s.touches(rv, p, j) {
        let (a, b) = choose|a: u32, b: u32|
            a < s.len() && b < s.len() && rv.owner[a as int] == p && rv.owner[b as int] == j && #[trigger] s.adj.has(
                a,
                b,
            );
        let list = s.adj.neighbors@[a as int]@;
        let n = choose|n: int| 0 <= n < list.len() && list[n] == b;
        assert(rv.owner[s.adj.neighbors@[a as int]@[n] as int] == j);
    }
}

proof fn lemma_rest_mirrors(s: Surface, rv: RingsView, p: PrimView, i: u32)
    requires
        s.wf(),
        rv.consistent(),
        rv.len() == s.len(),
        i < s.len(),
        !rv.is_root(i),
        p.face_count == 0,
        p.vertices.len() == 0,
        p.fit_vertices.len() == 0,
        forall|j: u32| #[trigger]
            p.neighbors.contains(j) <==> i != j && touched(s.adj, rv.owner, s.len() as int, 0, i, j),
    ensures
        s.mirrors(p, rv, i),
{
    assert forall|x: u32| #[trigger] p.vertices.contains(x) <==> s.owns_vertex(rv, i, x) by {
        if s.owns_vertex(rv, i, x) {
            let f = choose|f: u32|
                f < s.len() && #[trigger] rv.owner[f as int] == i && has_vertex(s.tris[f as int], x);
            assert(rv.is_root(rv.owner[f as int]));
        }
    }
    assert forall|x: u32| #[trigger] p.fit_vertices.contains(x) <==> s.owns_fit_vertex(rv, i, x) by {
        if s.owns_fit_vertex(rv, i, x) {
            let f = choose|f: u32|
                f < s.len() && #[trigger] rv.owner[f as int] == i && s.support[f as int] && has_vertex(
                    s.tris[f as int],
                    x,
                );
            assert(rv.is_root(rv.owner[f as int]));
        }
    }
    assert forall|j: u32| #[trigger] p.neighbors.contains(j) <==> i != j && s.touches(rv, i, j) by {
        lemma_touched_is_touches(s, rv, i, j);
    }
}

proof fn lemma_root_mirrors(s: Surface, rv: RingsView, gs: Seq<Seq<u32>>, h: int, p: PrimView, i: u32)
    requires
        s.wf(),
        rv.is_grouping(gs),
        rv.len() == s.len(),
        is_partition(gs, s.len()),
        0 <= h < gs.len(),
        gs[h].len() > 0,
        gs[h][0] == i,
        rv.is_root(i),
        p.face_count == gs[h].len(),
        forall|x: u32| #[trigger] p.vertices.contains(x) <==> vertex_among(gs[h], s.tris, s.support, true, x),
        forall|x: u32| #[trigger] p.fit_vertices.contains(x) <==> vertex_among(gs[h], s.tris, s.support, false, x),
        forall|j: u32| #[trigger]
            p.neighbors.contains(j) <==> i != j && touched(s.adj, rv.owner, s.len() as int, 0, i, j),
    ensures
        s.mirrors(p, rv, i),
{
    let ring = gs[h];
    assert(rv.ring[i as int] == ring);
    assert forall|x: u32| #[trigger] p.vertices.contains(x) <==> s.owns_vertex(rv, i, x) by {
        if s.owns_vertex(rv, i, x) {
            let f = choose|f: u32|
                f < s.len() && #[trigger] rv.owner[f as int] == i && has_vertex(s.tris[f as int], x);
            assert(rv.ring[rv.owner[f as int] as int].contains(f));
            let k = choose|k: int| 0 <= k < ring.len() && ring[k] == f;
            assert(has_vertex(s.tris[ring[k] as int], x));
        }
        if vertex_among(ring, s.tris, s.support, true, x) {
            let k = choose|k: int|
                0 <= k < ring.len() && (true || s.support[#[trigger] ring[k] as int]) && has_vertex(
                    s.tris[ring[k] as int],
                    x,
                );
            assert(rv.owner[gs[h][k] as int] == gs[h][0]);
            assert(gs[h][k] < s.len());
        }
    }
    assert forall|x: u32| #[trigger] p.fit_vertices.contains(x) <==> s.owns_fit_vertex(rv, i, x) by {
        if s.owns_fit_vertex(rv, i, x) {
            let f = choose|f: u32|
                f < s.len() && #[trigger] rv.owner[f as int] == i && s.support[f as int] && has_vertex(
                    s.tris[f as int],
                    x,
                );
            assert(rv.ring[rv.owner[f as int] as int].contains(f));
            let k = choose|k: int| 0 <= k < ring.len() && ring[k] == f;
            assert(has_vertex(s.tris[ring[k] as int], x));
        }
        if vertex_among(ring, s.tris, s.support, false, x) {
            let k = choose|k: int|
                0 <= k < ring.len() && (false || s.support[#[trigger] ring[k] as int]) && has_vertex(
                    s.tris[ring[k] as int],
                    x,
                );
            assert(rv.owner[gs[h][k] as int] == gs[h][0]);
            assert(gs[h][k] < s.len());
        }
    }
    assert forall|j: u32| #[trigger] p.neighbors.contains(j) <==> i != j && s.touches(rv, i, j) by {
        lemma_touched_is_touches(s, rv, i, j);
    }
}

/// Face `i` is the first face of one of the first `g` groups.
spec fn is_head(gs: Seq<Seq<u32>>, g: int, i: int) -> bool {
    exists|h: int| 0 <= h < g && (#[trigger] gs[h])[0] == i
}

/// Nothing but the neighbours differs.
pub open spec fn same_but_neighbors(p: PrimView, q: PrimView) -> bool {
    p == PrimView { neighbors: p.neighbors, ..q }
}

/// The vertices of a list of faces are the corners of those faces, or of those
/// among them that give support.
pub proof fn law_vertices_are_corners_of_the_faces(
    faces: Seq<u32>,
    tris: Seq<[u32; 3]>,
    support: Seq<bool>,
    all: bool,
    x: u32,
    i: int,
    c: int,
)
    requires
        0 <= i < faces.len(),
        0 <= c < 3,
    ensures
        all || support[faces[i] as int] ==> vertex_among(faces, tris, support, all, tris[faces[i] as int][c]),
        vertex_among(faces, tris, support, all, x) ==> exists|k: int|
            0 <= k < faces.len() && (all || support[#[trigger] faces[k] as int]) && tris[faces[k] as int]@.contains(x),
{
    let t = tris[faces[i] as int];
    assert(c == 0 || c == 1 || c == 2);
    assert(has_vertex(t, t[c]));
    if vertex_among(faces, tris, support, all, x) {
        let k = choose|k: int|
            0 <= k < faces.len() && (all || support[#[trigger] faces[k] as int]) && has_vertex(tris[faces[k] as int], x);
        crate::surface::law_corners_are_vertices(tris[faces[k] as int], x);
    }
}

} // verus!
